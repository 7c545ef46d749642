//! The in-memory store. It holds the ledger's five tables and enforces the
//! same rules a SQL store declares for them: unique names and keys, the
//! shape of each entry kind, references to existing accounts and concepts,
//! the overdraft and credit-limit policy, and all-or-nothing batches.
//!
//! Every balance and report is derived from the stored entries; nothing
//! derived is stored.
use vstd::prelude::*;

pub mod mirror;

use crate::error::{AppError, Result};
use crate::models::{
    clone_opt, entry_delta, Account, AccountBalance, AccountKind, Budget, Concept, Config,
    Entry, EntryFilter, EntryKind, EntryUpdate, NewAccount, NewEntry,
};
use crate::period::{
    is_canonical_date, is_canonical_period, is_period_text, validate_date, Period, MIN_YEAR,
};
use crate::storage::ledger::{
    amount_bound, balance_in, balance_over, derive_balances, in_range, with_balance,
    lemma_balance_bound, lemma_balance_insert, period_end, period_start,
};
use crate::storage::table::{
    Keyed, budget_before, budgets_ordered, entries_ordered, entry_ids_distinct, find_budget,
    find_key, has_key, insert_budget, insert_entry, insert_keyed, inserted, sorted_by_key,
};
use crate::text::{concat, owned, seq_lt, str_eq, str_lt};

verus! {

/// The concepts every fresh store starts with, and their types.
pub open spec fn seed_concepts() -> Seq<(Seq<char>, Seq<char>)> {
    seq![
        ("Discrecional"@, "expense"@),
        ("Transporte"@, "expense"@),
        ("Servicios"@, "expense"@),
        ("Alimentos"@, "expense"@),
        ("Extraordinario"@, "expense"@),
        ("Sandbox Inversión"@, "expense"@),
        ("Nomina"@, "income"@),
        ("Vales de Despensa"@, "income"@),
        ("Ahorro Patronal"@, "income"@),
        ("Extra"@, "income"@),
    ]
}

/// The text of an optional string.
pub open spec fn opt_text(o: Option<String>) -> Option<Seq<char>> {
    match o {
        Some(s) => Some(s@),
        None => None,
    }
}

/// The name of the account `id` (the last one listed with that id).
pub open spec fn name_in(accounts: Seq<Account>, id: i64) -> Option<Seq<char>>
    decreases accounts.len(),
{
    if accounts.len() == 0 {
        None
    } else if accounts.last().id == id {
        Some(accounts.last().name@)
    } else {
        name_in(accounts.drop_last(), id)
    }
}

/// The name of the account on one side of an entry, if it has that side
/// and the account exists.
pub open spec fn side_name(accounts: Seq<Account>, side: Option<i64>) -> Option<Seq<char>> {
    match side {
        Some(id) => name_in(accounts, id),
        None => None,
    }
}

/// `out` is the stored entry `e` as a listing shows it: the same row, with
/// the names of the accounts it touches filled in.
pub open spec fn listed_as(e: Entry, accounts: Seq<Account>, out: Entry) -> bool {
    &&& out.id == e.id
    &&& out.date == e.date
    &&& out.kind == e.kind
    &&& out.amount == e.amount
    &&& out.from_account_id == e.from_account_id
    &&& out.to_account_id == e.to_account_id
    &&& out.concept == e.concept
    &&& out.subconcept == e.subconcept
    &&& out.description == e.description
    &&& opt_text(out.from_account) == side_name(accounts, e.from_account_id)
    &&& opt_text(out.to_account) == side_name(accounts, e.to_account_id)
}

/// Entry `e` passes every condition that filter `f` sets.
pub open spec fn entry_matches(f: EntryFilter, e: Entry) -> bool {
    &&& (f.period matches Some(p) ==> in_range(e.date@, period_start(p), period_end(p)))
    &&& (f.up_to_date matches Some(d) ==> !seq_lt(d@, e.date@))
    &&& (f.kind matches Some(k) ==> e.kind == k)
    &&& (f.concept matches Some(c) ==> (e.concept matches Some(ec) && ec@ == c@))
    &&& (f.account_id matches Some(a) ==> (e.from_account_id == Some(a) || e.to_account_id
        == Some(a)))
}

/// The filter can be evaluated: its period lies within the years whose
/// month boundaries can be rendered.
pub open spec fn filter_ok(f: EntryFilter) -> bool {
    f.period matches Some(p) ==> MIN_YEAR <= p.year_of() <= 9999
}

/// `out` lists the entries of `stored` that `f` selects, in stored order
/// (newest first), cut at the filter's limit, with account names filled in.
pub open spec fn listing(stored: Seq<Entry>, accounts: Seq<Account>, f: EntryFilter, out: Seq<Entry>) -> bool {
    let m = stored.filter(|e: Entry| entry_matches(f, e));
    let n = match f.limit {
        Some(l) => if (l as int) < m.len() {
            l as int
        } else {
            m.len() as int
        },
        None => m.len() as int,
    };
    &&& out.len() == n
    &&& forall|i: int| 0 <= i < n ==> listed_as(m[i], accounts, #[trigger] out[i])
}

/// At most one account is an active emergency fund.
pub open spec fn one_active_emergency(accounts: Seq<Account>) -> bool {
    forall|i: int, j: int|
        0 <= i < accounts.len() && 0 <= j < accounts.len() && accounts[i].kind
            == AccountKind::Emergency && !accounts[i].archived && accounts[j].kind
            == AccountKind::Emergency && !accounts[j].archived ==> i == j
}

/// No two accounts share an id.
pub open spec fn account_ids_distinct(accounts: Seq<Account>) -> bool {
    forall|i: int, j: int|
        0 <= i < accounts.len() && 0 <= j < accounts.len() && i != j ==> accounts[i].id
            != accounts[j].id
}

/// The largest number of entries a store holds.
pub open spec fn entry_capacity() -> int {
    0x2_0000_0000
}

/// The largest number of accounts a store holds.
pub open spec fn account_capacity() -> int {
    0x4000_0000
}


/// Accounts of kind `k`, archived ones only when asked for.
pub open spec fn of_kind(k: AccountKind, include_archived: bool) -> spec_fn(Account) -> bool {
    |a: Account| a.kind == k && (include_archived || !a.archived)
}

/// Accounts as a listing orders them: by kind name ("credit",
/// "emergency", "spending", "target"), then by name.
pub open spec fn account_listing(accounts: Seq<Account>, include_archived: bool) -> Seq<Account> {
    accounts.filter(of_kind(AccountKind::Credit, include_archived)) + accounts.filter(
        of_kind(AccountKind::Emergency, include_archived),
    ) + accounts.filter(of_kind(AccountKind::Spending, include_archived)) + accounts.filter(
        of_kind(AccountKind::Target, include_archived),
    )
}

/// Appends the accounts of kind `k` in name order.
fn push_of_kind(accounts: &Vec<Account>, k: AccountKind, include_archived: bool, out: &mut Vec<Account>)
    ensures
        final(out)@ == old(out)@ + accounts@.filter(of_kind(k, include_archived)),
{
    let ghost pred = of_kind(k, include_archived);
    let ghost start = out@;
    let n = accounts.len();
    let mut j: usize = 0;
    while j < n
        invariant
            n == accounts@.len(),
            j <= n,
            pred == of_kind(k, include_archived),
            out@ == start + accounts@.take(j as int).filter(pred),
        decreases n - j,
    {
        proof {
            assert(accounts@.take(j + 1) =~= accounts@.take(j as int).push(accounts@[j as int]));
            accounts@.take(j as int).lemma_filter_push(accounts@[j as int], pred);
        }
        let a = &accounts[j];
        if a.kind == k && (include_archived || !a.archived) {
            out.push(a.clone());
        }
        proof {
            assert(out@ =~= start + accounts@.take(j + 1).filter(pred));
        }
        j = j + 1;
    }
    proof {
        assert(accounts@.take(n as int) =~= accounts@);
    }
}

/// The name of account `id`, looked up.
fn lookup_name(accounts: &Vec<Account>, id: Option<i64>) -> (r: Option<String>)
    ensures
        opt_text(r) == side_name(accounts@, id),
{
    match id {
        None => None,
        Some(id) => {
            let mut found: Option<String> = None;
            let n = accounts.len();
            let mut i: usize = 0;
            while i < n
                invariant
                    n == accounts@.len(),
                    i <= n,
                    opt_text(found) == name_in(accounts@.take(i as int), id),
                decreases n - i,
            {
                proof {
                    assert(accounts@.take(i + 1).drop_last() =~= accounts@.take(i as int));
                }
                if accounts[i].id == id {
                    found = Some(accounts[i].name.clone());
                }
                i = i + 1;
            }
            proof {
                assert(accounts@.take(n as int) =~= accounts@);
            }
            found
        },
    }
}

/// The stored entry `e` with the names of its accounts filled in.
fn list_entry(e: &Entry, accounts: &Vec<Account>) -> (r: Entry)
    ensures
        listed_as(*e, accounts@, r),
{
    Entry {
        id: e.id,
        date: e.date.clone(),
        kind: e.kind,
        amount: e.amount,
        from_account_id: e.from_account_id,
        to_account_id: e.to_account_id,
        from_account: lookup_name(accounts, e.from_account_id),
        to_account: lookup_name(accounts, e.to_account_id),
        concept: clone_opt(&e.concept),
        subconcept: clone_opt(&e.subconcept),
        description: clone_opt(&e.description),
    }
}

/// Evaluates a filter on one entry; `bounds` holds the period's first day
/// and the first day after it.
fn matches_filter(f: &EntryFilter, start: &Option<String>, end: &Option<String>, e: &Entry) -> (r: bool)
    requires
        f.period is Some <==> start is Some,
        f.period is Some <==> end is Some,
        f.period matches Some(p) ==> start->0@ == period_start(p) && end->0@ == period_end(p),
    ensures
        r == entry_matches(*f, *e),
{
    if let (Some(start), Some(end)) = (start, end) {
        if str_lt(e.date.as_str(), start.as_str()) || !str_lt(e.date.as_str(), end.as_str()) {
            return false;
        }
    }
    if let Some(d) = &f.up_to_date {
        if str_lt(d.as_str(), e.date.as_str()) {
            return false;
        }
    }
    if let Some(k) = f.kind {
        if e.kind != k {
            return false;
        }
    }
    if let Some(c) = &f.concept {
        match &e.concept {
            Some(ec) => {
                if !str_eq(ec.as_str(), c.as_str()) {
                    return false;
                }
            },
            None => {
                return false;
            },
        }
    }
    if let Some(a) = f.account_id {
        if e.from_account_id != Some(a) && e.to_account_id != Some(a) {
            return false;
        }
    }
    true
}


/// The three concept types.
pub open spec fn is_concept_type(t: Seq<char>) -> bool {
    t == "expense"@ || t == "income"@ || t == "both"@
}

/// Concepts of type `t`, or usable for both.
pub open spec fn concept_for(t: Seq<char>) -> spec_fn(Concept) -> bool {
    |c: Concept| c.concept_type@ == t || c.concept_type@ == "both"@
}

/// Concepts of exactly type `t`.
pub open spec fn concept_of_type(t: Seq<char>) -> spec_fn(Concept) -> bool {
    |c: Concept| c.concept_type@ == t
}

/// Budgets of period `p`.
pub open spec fn budget_of_period(p: Seq<char>) -> spec_fn(Budget) -> bool {
    |b: Budget| b.period@ == p
}

/// `new` is `old` with the row `new[p]` placed at position `p`.
pub open spec fn inserted_at<T>(old: Seq<T>, new: Seq<T>, p: int) -> bool {
    0 <= p <= old.len() && new == old.insert(p, new[p])
}

/// Some configuration row holds value `v` under key `k`.
pub open spec fn config_has(cfg: Seq<Config>, k: Seq<char>, v: Seq<char>) -> bool {
    exists|i: int| 0 <= i < cfg.len() && cfg[i].key@ == k && cfg[i].value@ == v
}

fn copy_filtered_concepts(v: &Vec<Concept>, t: &str, both: bool, out: &mut Vec<Concept>)
    ensures
        final(out)@ == old(out)@ + v@.filter(
            if both {
                concept_for(t@)
            } else {
                concept_of_type(t@)
            },
        ),
{
    let ghost pred = if both {
        concept_for(t@)
    } else {
        concept_of_type(t@)
    };
    let ghost start = out@;
    let n = v.len();
    let mut j: usize = 0;
    proof {
        reveal_strlit("both");
    }
    while j < n
        invariant
            n == v@.len(),
            j <= n,
            pred == (if both {
                concept_for(t@)
            } else {
                concept_of_type(t@)
            }),
            out@ == start + v@.take(j as int).filter(pred),
        decreases n - j,
    {
        proof {
            assert(v@.take(j + 1) =~= v@.take(j as int).push(v@[j as int]));
            v@.take(j as int).lemma_filter_push(v@[j as int], pred);
        }
        let c = &v[j];
        let keep = str_eq(c.concept_type.as_str(), t) || (both && str_eq(
            c.concept_type.as_str(),
            "both",
        ));
        if keep {
            out.push(c.clone());
        }
        proof {
            assert(out@ =~= start + v@.take(j + 1).filter(pred));
        }
        j = j + 1;
    }
    proof {
        assert(v@.take(n as int) =~= v@);
    }
}



/// A filter that keeps every element's count keeps every element.
pub proof fn lemma_filter_full<T>(s: Seq<T>, p: spec_fn(T) -> bool)
    requires
        s.filter(p).len() == s.len(),
    ensures
        forall|k: int| 0 <= k < s.len() ==> p(s[k]),
    decreases s.len(),
{
    reveal(Seq::filter);
    if s.len() > 0 {
        let t = s.drop_last();
        t.lemma_filter_len(p);
        if !p(s.last()) {
            assert(s.filter(p) == t.filter(p));
            assert(false);
        }
        assert(s.filter(p) == t.filter(p).push(s.last()));
        lemma_filter_full(t, p);
        assert forall|k: int| 0 <= k < s.len() implies p(s[k]) by {
            if k < s.len() - 1 {
                assert(s[k] == t[k]);
            }
        }
    }
}

/// Filtering out exactly the element at `i` removes it.
pub proof fn lemma_filter_drops_one<T>(s: Seq<T>, p: spec_fn(T) -> bool, i: int)
    requires
        0 <= i < s.len(),
        !p(s[i]),
        forall|k: int| 0 <= k < s.len() && k != i ==> p(s[k]),
    ensures
        s.filter(p) == s.remove(i),
    decreases s.len(),
{
    reveal(Seq::filter);
    if i == s.len() - 1 {
        lemma_filter_keeps_all(s.drop_last(), p);
        assert(s.remove(i) =~= s.drop_last());
    } else {
        lemma_filter_drops_one(s.drop_last(), p, i);
        assert(s.remove(i) =~= s.drop_last().remove(i).push(s.last()));
    }
}

/// Filtering by a predicate every element satisfies keeps them all.
pub proof fn lemma_filter_keeps_all<T>(s: Seq<T>, p: spec_fn(T) -> bool)
    requires
        forall|k: int| 0 <= k < s.len() ==> p(s[k]),
    ensures
        s.filter(p) == s,
    decreases s.len(),
{
    reveal(Seq::filter);
    if s.len() > 0 {
        lemma_filter_keeps_all(s.drop_last(), p);
        assert(s.drop_last().push(s.last()) =~= s);
    }
}


/// Some active emergency account is stored.
pub open spec fn has_active_emergency(accounts: Seq<Account>) -> bool {
    exists|i: int|
        0 <= i < accounts.len() && accounts[i].kind == AccountKind::Emergency && !accounts[i].archived
}

/// A new account passes the store's constraints: a new name, a positive
/// goal only on a target account, a positive limit only on a credit
/// account, and no second active emergency fund.
pub open spec fn account_acceptable(accounts: Seq<Account>, new: NewAccount) -> bool {
    &&& accounts.len() < account_capacity()
    &&& !has_key(accounts, new.name@)
    &&& (new.target_amount matches Some(t) ==> new.kind == AccountKind::Target && t > 0)
    &&& (new.credit_limit matches Some(c) ==> new.kind == AccountKind::Credit && c > 0)
    &&& (new.kind == AccountKind::Emergency ==> !has_active_emergency(accounts))
}

/// `a` is account `old` marked archived when its id is `id`.
pub open spec fn archived_if(old: Account, id: i64, a: Account) -> bool {
    if old.id == id {
        a == Account { archived: true, ..old }
    } else {
        a == old
    }
}

/// Some stored entry has id `id`.
pub open spec fn has_entry(entries: Seq<Entry>, id: i64) -> bool {
    exists|k: int| 0 <= k < entries.len() && entries[k].id == id
}


/// The account with id `id` (the last one listed with that id).
pub open spec fn account_with(accounts: Seq<Account>, id: i64) -> Option<Account>
    decreases accounts.len(),
{
    if accounts.len() == 0 {
        None
    } else if accounts.last().id == id {
        Some(accounts.last())
    } else {
        account_with(accounts.drop_last(), id)
    }
}

/// The stored row a new entry becomes under id `id`.
pub open spec fn row_of(e: NewEntry, id: i64) -> Entry {
    Entry {
        id,
        date: e.date,
        kind: e.kind,
        amount: e.amount,
        from_account_id: e.from_account_id,
        to_account_id: e.to_account_id,
        from_account: None,
        to_account: None,
        concept: e.concept,
        subconcept: e.subconcept,
        description: e.description,
    }
}

/// The rows a batch becomes, numbered from `base`.
pub open spec fn batch_rows(batch: Seq<NewEntry>, base: int) -> Seq<Entry> {
    Seq::new(batch.len(), |k: int| row_of(batch[k], (base + k) as i64))
}

/// Sum of the deltas a batch brings to account `id`.
pub open spec fn batch_delta(batch: Seq<NewEntry>, id: i64) -> int
    decreases batch.len(),
{
    if batch.len() == 0 {
        0
    } else {
        batch_delta(batch.drop_last(), id) + entry_delta(row_of(batch.last(), 0), id)
    }
}

/// The endpoints an entry of this kind has: income and opening land in an
/// account, an expense leaves one, a transfer moves between two different
/// ones.
pub open spec fn shape_ok(e: NewEntry) -> bool {
    match e.kind {
        EntryKind::Income | EntryKind::Opening => e.from_account_id is None && e.to_account_id is Some,
        EntryKind::Expense => e.from_account_id is Some && e.to_account_id is None,
        EntryKind::Transfer => e.from_account_id is Some && e.to_account_id is Some
            && e.from_account_id != e.to_account_id,
    }
}

/// The row constraints: a canonical date, a positive amount, the endpoint
/// shape, a concept on income and expense, and references to stored
/// accounts and concepts.
pub open spec fn row_ok(accounts: Seq<Account>, concepts: Seq<Concept>, e: NewEntry) -> bool {
    &&& is_canonical_date(e.date@)
    &&& e.amount > 0
    &&& shape_ok(e)
    &&& (e.kind == EntryKind::Income || e.kind == EntryKind::Expense ==> e.concept is Some)
    &&& (e.from_account_id matches Some(id) ==> account_with(accounts, id) is Some)
    &&& (e.to_account_id matches Some(id) ==> account_with(accounts, id) is Some)
    &&& (e.concept matches Some(c) ==> has_key(concepts, c@))
}

/// Whether taking `amount` out of account `a`, holding `balance`, breaks
/// the overdraft policy: a savings account cannot go below zero, a credit
/// account cannot owe more than its limit, a spending account never
/// blocks.
pub open spec fn overdraws(a: Account, balance: int, amount: int) -> bool {
    match a.kind {
        AccountKind::Target | AccountKind::Emergency => amount > balance,
        AccountKind::Credit => match a.credit_limit {
            Some(l) => (if balance < 0 {
                -balance
            } else {
                0
            }) + amount > l,
            None => false,
        },
        AccountKind::Spending => false,
    }
}

/// An expense or transfer with no source, or one that overdraws its
/// source given `balance_of` (the source balance at that point).
pub open spec fn source_refused(accounts: Seq<Account>, e: NewEntry, balance_of: spec_fn(i64) -> int) -> bool {
    (e.kind == EntryKind::Expense || e.kind == EntryKind::Transfer) && match e.from_account_id {
        None => true,
        Some(id) => match account_with(accounts, id) {
            Some(a) => overdraws(a, balance_of(id), e.amount as int),
            None => false,
        },
    }
}

/// How a refusal under the overdraft policy begins: a missing source, an
/// overdrawn credit limit, or an insufficient balance.
pub open spec fn refusal_prefix(accounts: Seq<Account>, e: NewEntry) -> Seq<char> {
    match e.from_account_id {
        None => "Entry must have a source account"@,
        Some(id) => match account_with(accounts, id) {
            Some(a) => if a.kind == AccountKind::Credit {
                "Exceeds credit limit: $"@
            } else {
                "Insufficient balance: have $"@
            },
            None => Seq::empty(),
        },
    }
}

/// An expense or transfer whose source account is not stored.
pub open spec fn source_missing(accounts: Seq<Account>, e: NewEntry) -> bool {
    (e.kind == EntryKind::Expense || e.kind == EntryKind::Transfer) && match e.from_account_id {
        Some(id) => account_with(accounts, id) is None,
        None => false,
    }
}

/// The balances of a store's entries.
pub open spec fn balances_of(entries: Seq<Entry>) -> spec_fn(i64) -> int {
    |id: i64| balance_in(entries, id)
}

/// The balances once the first `k` entries of `batch` are written.
pub open spec fn balances_during(entries: Seq<Entry>, batch: Seq<NewEntry>, k: int) -> spec_fn(i64) -> int {
    |id: i64| balance_in(entries, id) + batch_delta(batch.take(k), id)
}

/// Entry `k` of `batch` is written once the earlier ones are: its source
/// passes the overdraft policy, its row passes the constraints, and there
/// is room for it (a free id and space in the store).
pub open spec fn batch_entry_ok(
    accounts: Seq<Account>,
    concepts: Seq<Concept>,
    entries: Seq<Entry>,
    last_id: int,
    batch: Seq<NewEntry>,
    k: int,
) -> bool {
    &&& !source_refused(accounts, batch[k], balances_during(entries, batch, k))
    &&& !source_missing(accounts, batch[k])
    &&& row_ok(accounts, concepts, batch[k])
    &&& last_id + k < i64::MAX
    &&& entries.len() + k < entry_capacity()
}

/// Every entry of `batch` up to `n` is written.
pub open spec fn batch_ok_upto(
    accounts: Seq<Account>,
    concepts: Seq<Concept>,
    entries: Seq<Entry>,
    last_id: int,
    batch: Seq<NewEntry>,
    n: int,
) -> bool {
    forall|k: int| 0 <= k < n ==> batch_entry_ok(accounts, concepts, entries, last_id, batch, k)
}


/// A cent amount as "12.05"; amounts beyond what a ledger can hold are
/// shown as such.
fn money_text(c: i128) -> (r: String)
    ensures
        r@ == (if -18446744073709551615 <= c <= 18446744073709551615 {
            crate::text::cents_text(c as int)
        } else {
            "(out of range)"@
        }),
{
    if -18446744073709551615 <= c && c <= 18446744073709551615 {
        crate::text::fmt_cents(c)
    } else {
        owned("(out of range)")
    }
}


/// A stored row as the shape it was inserted with.
pub open spec fn as_new(e: Entry) -> NewEntry {
    NewEntry {
        date: e.date,
        kind: e.kind,
        amount: e.amount,
        from_account_id: e.from_account_id,
        to_account_id: e.to_account_id,
        concept: e.concept,
        subconcept: e.subconcept,
        description: e.description,
    }
}

/// Entry `cur` with every field that `upd` sets replaced.
pub open spec fn updated_row(cur: Entry, upd: EntryUpdate) -> Entry {
    Entry {
        date: match upd.date {
            Some(d) => d,
            None => cur.date,
        },
        amount: match upd.amount {
            Some(a) => a,
            None => cur.amount,
        },
        from_account_id: match upd.from_account_id {
            Some(f) => Some(f),
            None => cur.from_account_id,
        },
        to_account_id: match upd.to_account_id {
            Some(t) => Some(t),
            None => cur.to_account_id,
        },
        concept: match upd.concept {
            Some(c) => Some(c),
            None => cur.concept,
        },
        subconcept: match upd.subconcept {
            Some(c) => Some(c),
            None => cur.subconcept,
        },
        description: match upd.description {
            Some(c) => Some(c),
            None => cur.description,
        },
        ..cur
    }
}

/// The correction asks for something this kind of entry cannot take: a
/// source on income or an opening balance, a destination on an expense, a
/// concept on a transfer or an opening balance.
pub open spec fn update_misfits(cur: Entry, upd: EntryUpdate) -> bool {
    ||| ((cur.kind == EntryKind::Income || cur.kind == EntryKind::Opening) && upd.from_account_id is Some)
    ||| (cur.kind == EntryKind::Expense && upd.to_account_id is Some)
    ||| ((cur.kind == EntryKind::Transfer || cur.kind == EntryKind::Opening) && upd.concept is Some)
}

/// The corrected values are refused: a date that is not canonical, an
/// amount that is not positive, a transfer onto its own source, or income
/// or an expense left without a concept.
pub open spec fn update_values_refused(new: Entry) -> bool {
    ||| !is_canonical_date(new.date@)
    ||| new.amount <= 0
    ||| (new.kind == EntryKind::Transfer && new.from_account_id == new.to_account_id)
    ||| ((new.kind == EntryKind::Income || new.kind == EntryKind::Expense) && new.concept is None)
}

/// The stored entry with id `id`, if any.
pub open spec fn entry_with(entries: Seq<Entry>, id: i64) -> Option<Entry> {
    if has_entry(entries, id) {
        Some(entries[choose|k: int| 0 <= k < entries.len() && entries[k].id == id])
    } else {
        None
    }
}


/// Entries dated on or before `d`, when a date is given.
pub open spec fn up_to(d: Option<Seq<char>>) -> spec_fn(Entry) -> bool {
    |e: Entry|
        match d {
            Some(d) => !seq_lt(d, e.date@),
            None => true,
        }
}

/// The text of an optional `&str`.
pub open spec fn opt_str(o: Option<&str>) -> Option<Seq<char>> {
    match o {
        Some(s) => Some(s@),
        None => None,
    }
}

/// `out` lists `accounts`, each with its balance over `entries`.
pub open spec fn balances_listed(accounts: Seq<Account>, entries: Seq<Entry>, out: Seq<AccountBalance>) -> bool {
    &&& out.len() == accounts.len()
    &&& forall|i: int|
        0 <= i < accounts.len() ==> with_balance(
            accounts[i],
            #[trigger] out[i],
            balance_in(entries, accounts[i].id),
        )
}

/// The balance over `entries` is not zero.
pub open spec fn has_balance(entries: Seq<Entry>, id: i64) -> bool {
    balance_in(entries, id) != 0
}


/// The account found for an id carries that id and is stored.
pub proof fn lemma_account_with(accounts: Seq<Account>, id: i64)
    ensures
        account_with(accounts, id) matches Some(a) ==> a.id == id && accounts.contains(a),
        account_with(accounts, id) is None <==> forall|i: int|
            0 <= i < accounts.len() ==> accounts[i].id != id,
    decreases accounts.len(),
{
    if accounts.len() > 0 {
        lemma_account_with(accounts.drop_last(), id);
        if account_with(accounts, id) is Some && accounts.last().id != id {
            let a = account_with(accounts, id)->0;
            let k = choose|k: int| 0 <= k < accounts.drop_last().len() && accounts.drop_last()[k] == a;
            assert(accounts[k] == a);
        }
        if accounts.last().id == id {
            assert(accounts[accounts.len() - 1] == accounts.last());
        }
        assert forall|i: int| 0 <= i < accounts.len() - 1 implies accounts[i] == accounts.drop_last()[i] by {}
    }
}


/// Entries dated within period `p`.
pub open spec fn in_period(p: Period) -> spec_fn(Entry) -> bool {
    |e: Entry| in_range(e.date@, period_start(p), period_end(p))
}

/// The balances listed stay within what the listing's entries can add up
/// to, so any sum of them fits.
pub proof fn lemma_listed_abs_total(accounts: Seq<Account>, entries: Seq<Entry>, out: Seq<AccountBalance>)
    requires
        balances_listed(accounts, entries, out),
        accounts.len() <= account_capacity(),
        entries.len() <= entry_capacity(),
    ensures
        crate::storage::ledger::abs_total(out) <= i128::MAX,
{
    let bound = entries.len() * amount_bound();
    assert forall|i: int| 0 <= i < out.len() implies -bound <= #[trigger] out[i].balance <= bound by {
        lemma_balance_bound(entries, accounts[i].id);
    }
    lemma_abs_total_le(out, bound);
    assert(out.len() * bound <= account_capacity() * (entry_capacity() * amount_bound()))
        by (nonlinear_arith)
        requires
            out.len() <= account_capacity(),
            entries.len() <= entry_capacity(),
            bound == entries.len() * amount_bound(),
            0 <= bound,
    ;
}

proof fn lemma_abs_total_le(out: Seq<AccountBalance>, bound: int)
    requires
        forall|i: int| 0 <= i < out.len() ==> -bound <= #[trigger] out[i].balance <= bound,
    ensures
        crate::storage::ledger::abs_total(out) <= out.len() * bound,
    decreases out.len(),
{
    if out.len() > 0 {
        assert forall|i: int| 0 <= i < out.drop_last().len() implies -bound <= #[trigger] out.drop_last()[i].balance
            <= bound by {
            assert(out.drop_last()[i] == out[i]);
        }
        lemma_abs_total_le(out.drop_last(), bound);
        assert(out[out.len() - 1] == out.last());
        assert((out.len() - 1) * bound + bound == out.len() * bound) by (nonlinear_arith);
    }
}


/// A listing holds no more accounts than the store.
pub proof fn lemma_listing_len(accounts: Seq<Account>, include_archived: bool)
    ensures
        account_listing(accounts, include_archived).len() <= accounts.len(),
    decreases accounts.len(),
{
    if accounts.len() > 0 {
        let s = accounts.drop_last();
        let x = accounts.last();
        lemma_listing_len(s, include_archived);
        assert(accounts =~= s.push(x));
        s.lemma_filter_push(x, of_kind(AccountKind::Credit, include_archived));
        s.lemma_filter_push(x, of_kind(AccountKind::Emergency, include_archived));
        s.lemma_filter_push(x, of_kind(AccountKind::Spending, include_archived));
        s.lemma_filter_push(x, of_kind(AccountKind::Target, include_archived));
    }
}


/// The overdraft policy refuses an entry of `kind` taking `amount` from
/// `from`, given the balances `balance_of`: an expense or transfer needs a
/// source, and must not overdraw it.
pub open spec fn refused_with(
    accounts: Seq<Account>,
    balance_of: spec_fn(i64) -> int,
    kind: EntryKind,
    amount: int,
    from: Option<i64>,
) -> bool {
    (kind == EntryKind::Expense || kind == EntryKind::Transfer) && match from {
        None => true,
        Some(id) => match account_with(accounts, id) {
            Some(a) => overdraws(a, balance_of(id), amount),
            None => false,
        },
    }
}

/// An entry of these values is written into a store holding `count`
/// entries whose balances are `balance_of`: it passes the overdraft
/// policy, its source exists, its row passes the constraints and there is
/// room for it.
pub open spec fn fits_with(
    accounts: Seq<Account>,
    concepts: Seq<Concept>,
    balance_of: spec_fn(i64) -> int,
    count: int,
    last_id: int,
    kind: EntryKind,
    date: Seq<char>,
    amount: int,
    from: Option<i64>,
    to: Option<i64>,
    concept: Option<Seq<char>>,
) -> bool {
    &&& !refused_with(accounts, balance_of, kind, amount, from)
    &&& !((kind == EntryKind::Expense || kind == EntryKind::Transfer) && match from {
        Some(id) => account_with(accounts, id) is None,
        None => false,
    })
    &&& is_canonical_date(date)
    &&& amount > 0
    &&& match kind {
        EntryKind::Income | EntryKind::Opening => from is None && to is Some,
        EntryKind::Expense => from is Some && to is None,
        EntryKind::Transfer => from is Some && to is Some && from != to,
    }
    &&& (kind == EntryKind::Income || kind == EntryKind::Expense ==> concept is Some)
    &&& (from matches Some(id) ==> account_with(accounts, id) is Some)
    &&& (to matches Some(id) ==> account_with(accounts, id) is Some)
    &&& (concept matches Some(c) ==> has_key(concepts, c))
    &&& last_id < i64::MAX
    &&& count < entry_capacity()
}

/// An entry of these values is written on its own into a store holding
/// `entries`.
pub open spec fn entry_fits(
    accounts: Seq<Account>,
    concepts: Seq<Concept>,
    entries: Seq<Entry>,
    last_id: int,
    kind: EntryKind,
    date: Seq<char>,
    amount: int,
    from: Option<i64>,
    to: Option<i64>,
    concept: Option<Seq<char>>,
) -> bool {
    fits_with(
        accounts,
        concepts,
        balances_of(entries),
        entries.len() as int,
        last_id,
        kind,
        date,
        amount,
        from,
        to,
        concept,
    )
}

/// What an entry of these values does to the balance of account `id`.
pub open spec fn move_delta(amount: int, from: Option<i64>, to: Option<i64>, id: i64) -> int {
    (if to == Some(id) {
        amount
    } else {
        0
    }) - (if from == Some(id) {
        amount
    } else {
        0
    })
}

/// A one-entry batch is written exactly when the entry fits.
pub proof fn lemma_single_batch(
    accounts: Seq<Account>,
    concepts: Seq<Concept>,
    entries: Seq<Entry>,
    last_id: int,
    e: NewEntry,
)
    ensures
        batch_ok_upto(accounts, concepts, entries, last_id, seq![e], 1) == entry_fits(
            accounts,
            concepts,
            entries,
            last_id,
            e.kind,
            e.date@,
            e.amount as int,
            e.from_account_id,
            e.to_account_id,
            opt_text(e.concept),
        ),
        source_refused(accounts, e, balances_during(entries, seq![e], 0)) == refused_with(
            accounts,
            balances_of(entries),
            e.kind,
            e.amount as int,
            e.from_account_id,
        ),
        forall|id: i64|
            #[trigger] batch_delta(seq![e], id) == move_delta(
                e.amount as int,
                e.from_account_id,
                e.to_account_id,
                id,
            ),
        batch_rows(seq![e], last_id + 1) =~= seq![row_of(e, (last_id + 1) as i64)],
{
    assert(seq![e].take(0) =~= Seq::<NewEntry>::empty());
    assert(balances_during(entries, seq![e], 0) =~= balances_of(entries));
    assert forall|id: i64| #[trigger] batch_delta(seq![e], id) == move_delta(
        e.amount as int,
        e.from_account_id,
        e.to_account_id,
        id,
    ) by {
        assert(seq![e].drop_last() =~= Seq::<NewEntry>::empty());
        assert(batch_delta(Seq::<NewEntry>::empty(), id) == 0);
        assert(seq![e].last() == e);
        assert(seq![e].len() == 1);
        assert(entry_delta(row_of(e, 0), id) == move_delta(
            e.amount as int,
            e.from_account_id,
            e.to_account_id,
            id,
        ));
    }
    if batch_ok_upto(accounts, concepts, entries, last_id, seq![e], 1) {
        assert(batch_entry_ok(accounts, concepts, entries, last_id, seq![e], 0));
    }
}


/// A two-entry batch is written exactly when the first entry fits the
/// store and the second fits the store with the first in it.
pub proof fn lemma_pair_batch(
    accounts: Seq<Account>,
    concepts: Seq<Concept>,
    entries: Seq<Entry>,
    last_id: int,
    a: NewEntry,
    b: NewEntry,
)
    ensures
        batch_ok_upto(accounts, concepts, entries, last_id, seq![a, b], 2) == (entry_fits(
            accounts,
            concepts,
            entries,
            last_id,
            a.kind,
            a.date@,
            a.amount as int,
            a.from_account_id,
            a.to_account_id,
            opt_text(a.concept),
        ) && fits_with(
            accounts,
            concepts,
            |id: i64|
                balance_in(entries, id) + move_delta(
                    a.amount as int,
                    a.from_account_id,
                    a.to_account_id,
                    id,
                ),
            entries.len() + 1 as int,
            last_id + 1,
            b.kind,
            b.date@,
            b.amount as int,
            b.from_account_id,
            b.to_account_id,
            opt_text(b.concept),
        )),
        source_refused(accounts, a, balances_during(entries, seq![a, b], 0)) == refused_with(
            accounts,
            balances_of(entries),
            a.kind,
            a.amount as int,
            a.from_account_id,
        ),
        source_refused(accounts, b, balances_during(entries, seq![a, b], 1)) == refused_with(
            accounts,
            |id: i64|
                balance_in(entries, id) + move_delta(
                    a.amount as int,
                    a.from_account_id,
                    a.to_account_id,
                    id,
                ),
            b.kind,
            b.amount as int,
            b.from_account_id,
        ),
        forall|id: i64|
            #[trigger] batch_delta(Seq::empty().push(a).push(b), id) == move_delta(
                a.amount as int,
                a.from_account_id,
                a.to_account_id,
                id,
            ) + move_delta(b.amount as int, b.from_account_id, b.to_account_id, id),
        batch_rows(seq![a, b], last_id + 1) =~= seq![
            row_of(a, (last_id + 1) as i64),
            row_of(b, (last_id + 2) as i64),
        ],
{
    let s = seq![a, b];
    assert(s =~= Seq::empty().push(a).push(b));
    assert(s.take(0) =~= Seq::<NewEntry>::empty());
    assert(s.take(1) =~= seq![a]);
    assert(seq![a].drop_last() =~= Seq::<NewEntry>::empty());
    assert(s.drop_last() =~= seq![a]);
    assert(batch_delta(Seq::<NewEntry>::empty(), 0) == 0);
    assert forall|id: i64| #[trigger] batch_delta(seq![a], id) == move_delta(
        a.amount as int,
        a.from_account_id,
        a.to_account_id,
        id,
    ) by {
        assert(batch_delta(Seq::<NewEntry>::empty(), id) == 0);
        assert(seq![a].last() == a);
    }
    assert forall|id: i64| #[trigger] batch_delta(s, id) == move_delta(
        a.amount as int,
        a.from_account_id,
        a.to_account_id,
        id,
    ) + move_delta(b.amount as int, b.from_account_id, b.to_account_id, id) by {
        assert(batch_delta(seq![a], id) == move_delta(
            a.amount as int,
            a.from_account_id,
            a.to_account_id,
            id,
        ));
        assert(s.last() == b);
    }
    assert(balances_during(entries, s, 0) =~= balances_of(entries));
    assert(balances_during(entries, s, 1) =~= (|id: i64|
        balance_in(entries, id) + move_delta(
            a.amount as int,
            a.from_account_id,
            a.to_account_id,
            id,
        )));
    if batch_ok_upto(accounts, concepts, entries, last_id, s, 2) {
        assert(batch_entry_ok(accounts, concepts, entries, last_id, s, 0));
        assert(batch_entry_ok(accounts, concepts, entries, last_id, s, 1));
    }
    if entry_fits(
        accounts,
        concepts,
        entries,
        last_id,
        a.kind,
        a.date@,
        a.amount as int,
        a.from_account_id,
        a.to_account_id,
        opt_text(a.concept),
    ) && fits_with(
        accounts,
        concepts,
        |id: i64|
            balance_in(entries, id) + move_delta(
                a.amount as int,
                a.from_account_id,
                a.to_account_id,
                id,
            ),
        entries.len() + 1 as int,
        last_id + 1,
        b.kind,
        b.date@,
        b.amount as int,
        b.from_account_id,
        b.to_account_id,
        opt_text(b.concept),
    ) {
        assert forall|k: int| 0 <= k < 2 implies batch_entry_ok(
            accounts,
            concepts,
            entries,
            last_id,
            s,
            k,
        ) by {
            if k == 0 {
                assert(s[0] == a);
            } else {
                assert(s[1] == b);
            }
        }
    }
}


/// The account named `name` (the last one listed with that name).
pub open spec fn account_named(accounts: Seq<Account>, name: Seq<char>) -> Option<Account>
    decreases accounts.len(),
{
    if accounts.len() == 0 {
        None
    } else if accounts.last().name@ == name {
        Some(accounts.last())
    } else {
        account_named(accounts.drop_last(), name)
    }
}

/// In a name-ordered table, the row found by name is the one at its
/// position.
pub proof fn lemma_account_named(accounts: Seq<Account>, i: int)
    requires
        sorted_by_key(accounts),
        0 <= i < accounts.len(),
    ensures
        account_named(accounts, accounts[i].name@) == Some(accounts[i]),
    decreases accounts.len(),
{
    if i < accounts.len() - 1 {
        crate::text::lemma_seq_lt_order();
        assert(crate::text::seq_lt(accounts[i].key_view(), accounts[accounts.len() - 1].key_view()));
        assert(accounts.last() == accounts[accounts.len() - 1]);
        let s = accounts.drop_last();
        assert(sorted_by_key(s)) by {
            assert forall|a: int, b: int| 0 <= a < b < s.len() implies crate::text::seq_lt(
                s[a].key_view(),
                s[b].key_view(),
            ) by {
                assert(s[a] == accounts[a] && s[b] == accounts[b]);
            }
        }
        assert(s[i] == accounts[i]);
        lemma_account_named(s, i);
    }
}

/// A store of accounts, entries, concepts, budgets and configuration.
pub struct MemoryBackend {
    accounts: Vec<Account>,
    entries: Vec<Entry>,
    concepts: Vec<Concept>,
    budgets: Vec<Budget>,
    config: Vec<Config>,
    last_account_id: i64,
    last_entry_id: i64,
    last_concept_id: i64,
    last_budget_id: i64,
    mirror_revision: i64,
}

impl MemoryBackend {
    /// Accounts, in name order.
    pub closed spec fn accounts_view(&self) -> Seq<Account> {
        self.accounts@
    }

    /// Entries, newest first (by date, then id).
    pub closed spec fn entries_view(&self) -> Seq<Entry> {
        self.entries@
    }

    /// Concepts, in name order.
    pub closed spec fn concepts_view(&self) -> Seq<Concept> {
        self.concepts@
    }

    /// Budgets, by concept then period.
    pub closed spec fn budgets_view(&self) -> Seq<Budget> {
        self.budgets@
    }

    /// Configuration, in key order.
    pub closed spec fn config_view(&self) -> Seq<Config> {
        self.config@
    }

    /// The largest entry id handed out so far.
    pub closed spec fn last_entry_id(&self) -> int {
        self.last_entry_id as int
    }

    /// The largest account id handed out so far.
    pub closed spec fn last_account_id(&self) -> int {
        self.last_account_id as int
    }

    /// The largest concept id handed out so far.
    pub closed spec fn concept_counter(&self) -> int {
        self.last_concept_id as int
    }

    /// The largest budget id handed out so far.
    pub closed spec fn budget_counter(&self) -> int {
        self.last_budget_id as int
    }

    /// How many entries are stored.
    pub(crate) fn entry_count(&self) -> (r: usize)
        ensures
            r == self.entries_view().len(),
    {
        self.entries.len()
    }

    /// The highest remote revision applied to this store.
    pub closed spec fn mirror_cursor(&self) -> int {
        self.mirror_revision as int
    }

    /// The store's invariant: every table in key order with unique keys,
    /// ids below the counters, one active emergency fund at most.
    pub closed spec fn wf(&self) -> bool {
        &&& sorted_by_key(self.accounts@)
        &&& account_ids_distinct(self.accounts@)
        &&& one_active_emergency(self.accounts@)
        &&& forall|i: int|
            0 <= i < self.accounts@.len() ==> #[trigger] self.accounts@[i].id <= self.last_account_id
        &&& entries_ordered(self.entries@)
        &&& entry_ids_distinct(self.entries@)
        &&& forall|i: int|
            0 <= i < self.entries@.len() ==> #[trigger] self.entries@[i].id <= self.last_entry_id
        &&& self.entries@.len() <= entry_capacity()
        &&& self.accounts@.len() <= account_capacity()
        &&& sorted_by_key(self.concepts@)
        &&& forall|i: int|
            0 <= i < self.concepts@.len() ==> is_concept_type(#[trigger] self.concepts@[i].concept_type@)
        &&& budgets_ordered(self.budgets@)
        &&& sorted_by_key(self.config@)
        &&& 0 <= self.last_account_id
        &&& 0 <= self.last_entry_id
        &&& 0 <= self.last_concept_id
        &&& 0 <= self.last_budget_id
    }

    /// Adds a concept unless one with that name exists.
    fn seed_concept(&mut self, name: &str, concept_type: &str)
        requires
            old(self).wf(),
            old(self).last_concept_id < 1000,
            is_concept_type(concept_type@),
        ensures
            final(self).wf(),
            final(self).last_concept_id <= old(self).last_concept_id + 1,
            has_key(final(self).concepts@, name@),
            forall|k: Seq<char>| has_key(old(self).concepts@, k) ==> has_key(final(self).concepts@, k),
            forall|k: int|
                0 <= k < final(self).concepts@.len() ==> (#[trigger] final(self).concepts@[k].name@
                    == name@ && final(self).concepts@[k].concept_type@ == concept_type@)
                    || old(self).concepts@.contains(final(self).concepts@[k]),
            final(self).accounts@ == old(self).accounts@,
            final(self).entries@ == old(self).entries@,
            final(self).budgets@ == old(self).budgets@,
            final(self).config@ == old(self).config@,
            final(self).last_account_id == old(self).last_account_id,
            final(self).last_entry_id == old(self).last_entry_id,
            final(self).mirror_revision == old(self).mirror_revision,
    {
        if find_key(&self.concepts, name).is_some() {
            return;
        }
        self.last_concept_id = self.last_concept_id + 1;
        let c = Concept {
            id: Some(self.last_concept_id),
            name: owned(name),
            concept_type: owned(concept_type),
        };
        let ghost before = self.concepts@;
        insert_keyed(&mut self.concepts, c);
        proof {
            let p = choose|p: int| 0 <= p <= before.len() && self.concepts@ == before.insert(p, c);
            assert(self.concepts@[p].name@ == name@);
            assert forall|i: int| 0 <= i < self.concepts@.len() implies is_concept_type(
                #[trigger] self.concepts@[i].concept_type@,
            ) by {
                if i < p {
                    assert(self.concepts@[i] == before[i]);
                } else if i > p {
                    assert(self.concepts@[i] == before[i - 1]);
                }
            }
            assert forall|k: Seq<char>| has_key(before, k) implies has_key(self.concepts@, k) by {
                let i = choose|i: int| 0 <= i < before.len() && before[i].key_view() == k;
                if i < p {
                    assert(self.concepts@[i] == before[i]);
                } else {
                    assert(self.concepts@[i + 1] == before[i]);
                }
            }
            assert forall|k: int| 0 <= k < self.concepts@.len() implies (#[trigger] self.concepts@[k].name@
                == name@ && self.concepts@[k].concept_type@ == concept_type@) || before.contains(self.concepts@[k]) by {
                if k < p {
                    assert(self.concepts@[k] == before[k]);
                } else if k > p {
                    assert(self.concepts@[k] == before[k - 1]);
                }
            }
        }
    }


    /// Accounts with no balance attached, ordered by kind name, then name.
    pub fn raw_accounts(&self, include_archived: bool) -> (r: Result<Vec<Account>>)
        ensures
            r matches Ok(v) && v@ == account_listing(self.accounts_view(), include_archived),
    {
        let mut out: Vec<Account> = Vec::new();
        push_of_kind(&self.accounts, AccountKind::Credit, include_archived, &mut out);
        push_of_kind(&self.accounts, AccountKind::Emergency, include_archived, &mut out);
        push_of_kind(&self.accounts, AccountKind::Spending, include_archived, &mut out);
        push_of_kind(&self.accounts, AccountKind::Target, include_archived, &mut out);
        proof {
            assert(out@ =~= account_listing(self.accounts@, include_archived));
        }
        Ok(out)
    }

    /// The entries a filter selects, newest first, with account names.
    pub fn entries(&self, f: &EntryFilter) -> (r: Result<Vec<Entry>>)
        requires
            filter_ok(*f),
        ensures
            r matches Ok(v) && listing(self.entries_view(), self.accounts_view(), *f, v@),
    {
        let (start, end): (Option<String>, Option<String>) = match &f.period {
            Some(p) => (Some(p.start()), Some(p.end_exclusive())),
            None => (None, None),
        };
        let ghost pred = |e: Entry| entry_matches(*f, e);
        let mut out: Vec<Entry> = Vec::new();
        let n = self.entries.len();
        let mut j: usize = 0;
        while j < n
            invariant
                n == self.entries@.len(),
                j <= n,
                f.period is Some <==> start is Some,
                f.period is Some <==> end is Some,
                f.period matches Some(p) ==> start->0@ == period_start(p) && end->0@ == period_end(p),
                pred == (|e: Entry| entry_matches(*f, e)),
                f.limit matches Some(l) ==> out@.len() <= l,
                out@.len() <= self.entries@.take(j as int).filter(pred).len(),
                (f.limit matches Some(l) && out@.len() < l) || f.limit is None ==> out@.len()
                    == self.entries@.take(j as int).filter(pred).len(),
                forall|i: int|
                    0 <= i < out@.len() ==> listed_as(
                        self.entries@.take(j as int).filter(pred)[i],
                        self.accounts@,
                        #[trigger] out@[i],
                    ),
            decreases n - j,
        {
            let ghost before = self.entries@.take(j as int).filter(pred);
            proof {
                assert(self.entries@.take(j + 1) =~= self.entries@.take(j as int).push(
                    self.entries@[j as int],
                ));
                self.entries@.take(j as int).lemma_filter_push(self.entries@[j as int], pred);
            }
            let room = match f.limit {
                Some(l) => out.len() < l as usize,
                None => true,
            };
            let e = &self.entries[j];
            if room && matches_filter(f, &start, &end, e) {
                out.push(list_entry(e, &self.accounts));
            }
            proof {
                let after = self.entries@.take(j + 1).filter(pred);
                assert forall|i: int| 0 <= i < out@.len() implies listed_as(
                    after[i],
                    self.accounts@,
                    #[trigger] out@[i],
                ) by {
                    if i < before.len() {
                        assert(after[i] == before[i]);
                    }
                }
            }
            j = j + 1;
        }
        proof {
            assert(self.entries@.take(n as int) =~= self.entries@);
        }
        Ok(out)
    }


    // -------------------------------------------------------------------
    // Configuration.
    // -------------------------------------------------------------------

    /// The value stored under `key`, if any.
    pub fn get_config(&self, key: &str) -> (r: Result<Option<String>>)
        requires
            self.wf(),
        ensures
            r is Ok,
            r matches Ok(o) && (o is None <==> !has_key(self.config_view(), key@)),
            r matches Ok(o) && (o matches Some(v) ==> config_has(self.config_view(), key@, v@)),
    {
        match find_key(&self.config, key) {
            Some(i) => {
                let v = self.config[i].value.clone();
                proof {
                    assert(self.config@[i as int].key@ == key@ && self.config@[i as int].value@ == v@);
                    assert(config_has(self.config@, key@, v@));
                    assert(has_key(self.config@, key@));
                }
                Ok(Some(v))
            },
            None => Ok(None),
        }
    }

    /// Stores `value` under `key`, replacing any previous value.
    #[verifier::spinoff_prover]
    pub fn set_config(&mut self, key: &str, value: &str) -> (r: Result<()>)
        requires
            old(self).wf(),
        ensures
            r is Ok,
            final(self).wf(),
            has_key(final(self).config_view(), key@),
            forall|k: Seq<char>, v: Seq<char>|
                config_has(final(self).config_view(), k, v) <==> ((k == key@ && v == value@) || (
                config_has(old(self).config_view(), k, v) && k != key@)),
            final(self).accounts_view() == old(self).accounts_view(),
            final(self).entries_view() == old(self).entries_view(),
            final(self).concepts_view() == old(self).concepts_view(),
            final(self).budgets_view() == old(self).budgets_view(),
            final(self).last_entry_id() == old(self).last_entry_id(),
            final(self).last_account_id() == old(self).last_account_id(),
            final(self).mirror_cursor() == old(self).mirror_cursor(),
    {
        let row = Config { key: owned(key), value: owned(value) };
        let ghost before = self.config@;
        match find_key(&self.config, key) {
            Some(i) => {
                self.config.set(i, row);
                proof {
                    crate::storage::table::lemma_update_sorted(before, i as int, row);
                    assert forall|k: Seq<char>, v: Seq<char>| config_has(self.config@, k, v) <==> ((k
                        == key@ && v == value@) || (config_has(before, k, v) && k != key@)) by {
                        if config_has(self.config@, k, v) {
                            let j = choose|j: int|
                                0 <= j < self.config@.len() && self.config@[j].key@ == k
                                    && self.config@[j].value@ == v;
                            if j != i {
                                assert(before[j] == self.config@[j]);
                                if k == key@ {
                                    crate::storage::table::lemma_key_unique(before, i as int, j);
                                }
                            }
                        }
                        if config_has(before, k, v) && k != key@ {
                            let j = choose|j: int|
                                0 <= j < before.len() && before[j].key@ == k && before[j].value@ == v;
                            assert(self.config@[j] == before[j]);
                        }
                        if k == key@ && v == value@ {
                            assert(self.config@[i as int] == row);
                        }
                    }
                    assert(self.config@[i as int].key_view() == key@);
                }
            },
            None => {
                insert_keyed(&mut self.config, row);
                proof {
                    let p = choose|p: int| 0 <= p <= before.len() && self.config@ == before.insert(p, row);
                    assert forall|k: Seq<char>, v: Seq<char>| config_has(self.config@, k, v) <==> ((k
                        == key@ && v == value@) || (config_has(before, k, v) && k != key@)) by {
                        if config_has(self.config@, k, v) {
                            let j = choose|j: int|
                                0 <= j < self.config@.len() && self.config@[j].key@ == k
                                    && self.config@[j].value@ == v;
                            if j < p {
                                assert(before[j] == self.config@[j]);
                            } else if j > p {
                                assert(before[j - 1] == self.config@[j]);
                            }
                        }
                        if config_has(before, k, v) && k != key@ {
                            let j = choose|j: int|
                                0 <= j < before.len() && before[j].key@ == k && before[j].value@ == v;
                            if j < p {
                                assert(self.config@[j] == before[j]);
                            } else {
                                assert(self.config@[j + 1] == before[j]);
                            }
                        }
                        if k == key@ && v == value@ {
                            assert(self.config@[p] == row);
                        }
                    }
                    assert(self.config@[p].key_view() == key@);
                }
            },
        }
        Ok(())
    }

    /// All configuration, in key order.
    pub fn list_config(&self) -> (r: Result<Vec<Config>>)
        ensures
            r matches Ok(v) && v@ == self.config_view(),
    {
        let mut out: Vec<Config> = Vec::new();
        let n = self.config.len();
        let mut j: usize = 0;
        while j < n
            invariant
                n == self.config@.len(),
                j <= n,
                out@ == self.config@.take(j as int),
            decreases n - j,
        {
            out.push(self.config[j].clone());
            proof {
                assert(out@ =~= self.config@.take(j + 1));
            }
            j = j + 1;
        }
        proof {
            assert(self.config@.take(n as int) =~= self.config@);
        }
        Ok(out)
    }

    // -------------------------------------------------------------------
    // Concepts.
    // -------------------------------------------------------------------

    /// Concepts usable for type `t` (those of that type and those for
    /// both), by name; with no type, all of them by type, then name.
    pub fn list_concepts(&self, type_filter: Option<&str>) -> (r: Result<Vec<Concept>>)
        requires
            self.wf(),
        ensures
            r matches Ok(v) && v@ == match type_filter {
                Some(t) => self.concepts_view().filter(concept_for(t@)),
                None => self.concepts_view().filter(concept_of_type("both"@)) + self.concepts_view().filter(
                    concept_of_type("expense"@),
                ) + self.concepts_view().filter(concept_of_type("income"@)),
            },
    {
        let mut out: Vec<Concept> = Vec::new();
        match type_filter {
            Some(t) => {
                copy_filtered_concepts(&self.concepts, t, true, &mut out);
            },
            None => {
                copy_filtered_concepts(&self.concepts, "both", false, &mut out);
                copy_filtered_concepts(&self.concepts, "expense", false, &mut out);
                copy_filtered_concepts(&self.concepts, "income", false, &mut out);
            },
        }
        proof {
            if type_filter is None {
                assert(out@ =~= self.concepts@.filter(concept_of_type("both"@)) + self.concepts@.filter(
                    concept_of_type("expense"@),
                ) + self.concepts@.filter(concept_of_type("income"@)));
            }
        }
        Ok(out)
    }

    /// Adds a concept. The type must be "expense", "income" or "both", and
    /// the name must be new.
    pub fn add_concept(&mut self, name: &str, concept_type: &str) -> (r: Result<()>)
        requires
            old(self).wf(),
        ensures
            final(self).wf(),
            !is_concept_type(concept_type@) ==> (r matches Err(e) && e is Invalid),
            is_concept_type(concept_type@) && has_key(old(self).concepts_view(), name@) ==> (r matches Err(
                e,
            ) && e is Database),
            r is Ok <==> is_concept_type(concept_type@) && !has_key(old(self).concepts_view(), name@)
                && old(self).concept_counter() < i64::MAX,
            r is Ok ==> exists|p: int|
                #[trigger] inserted_at(old(self).concepts_view(), final(self).concepts_view(), p)
                    && final(self).concepts_view()[p].name@ == name@ && final(self).concepts_view()[p].concept_type@
                    == concept_type@,
            r matches Err(e) ==> (e is Invalid <==> !is_concept_type(concept_type@)),
            r is Err ==> final(self).concepts_view() == old(self).concepts_view(),
            final(self).concept_counter() == old(self).concept_counter() + if r is Ok {
                1int
            } else {
                0int
            },
            final(self).accounts_view() == old(self).accounts_view(),
            final(self).entries_view() == old(self).entries_view(),
            final(self).budgets_view() == old(self).budgets_view(),
            final(self).config_view() == old(self).config_view(),
            final(self).budget_counter() == old(self).budget_counter(),
            final(self).last_entry_id() == old(self).last_entry_id(),
            final(self).last_account_id() == old(self).last_account_id(),
            final(self).mirror_cursor() == old(self).mirror_cursor(),
    {
        proof {
            reveal_strlit("expense");
            reveal_strlit("income");
            reveal_strlit("both");
        }
        if !(str_eq(concept_type, "expense") || str_eq(concept_type, "income") || str_eq(
            concept_type,
            "both",
        )) {
            return Err(AppError::Invalid(owned("Type must be expense, income, or both")));
        }
        if find_key(&self.concepts, name).is_some() {
            return Err(AppError::Database(owned("UNIQUE constraint failed: concepts.name")));
        }
        if self.last_concept_id == i64::MAX {
            return Err(AppError::Database(owned("database or disk is full")));
        }
        self.last_concept_id = self.last_concept_id + 1;
        let c = Concept {
            id: Some(self.last_concept_id),
            name: owned(name),
            concept_type: owned(concept_type),
        };
        let ghost before = self.concepts@;
        insert_keyed(&mut self.concepts, c);
        proof {
            let p = choose|p: int| 0 <= p <= before.len() && self.concepts@ == before.insert(p, c);
            assert forall|i: int| 0 <= i < self.concepts@.len() implies is_concept_type(
                #[trigger] self.concepts@[i].concept_type@,
            ) by {
                if i < p {
                    assert(self.concepts@[i] == before[i]);
                } else if i > p {
                    assert(self.concepts@[i] == before[i - 1]);
                }
            }
            assert(self.concepts@[p] == c);
            assert(inserted_at(before, self.concepts@, p));
            assert(self.concepts@[p].name@ == name@);
            assert(self.concepts@[p].concept_type@ == concept_type@);
            assert(before == old(self).concepts@);
            assert(inserted_at(old(self).concepts_view(), self.concepts_view(), p));
        }
        Ok(())
    }

    // -------------------------------------------------------------------
    // Budgets.
    // -------------------------------------------------------------------

    /// Sets the monthly limit of `concept` for `period`, replacing an
    /// existing one. The limit must be positive, the concept must exist and
    /// the period must be a canonical "YYYY-MM".
    pub fn set_budget(&mut self, concept: &str, limit: i64, period: &str) -> (r: Result<()>)
        requires
            old(self).wf(),
        ensures
            final(self).wf(),
            limit <= 0 ==> (r matches Err(e) && e is Invalid),
            limit > 0 && !(has_key(old(self).concepts_view(), concept@) && is_canonical_period(period@))
                ==> (r matches Err(e) && e is Database),
            r is Ok ==> limit > 0 && has_key(old(self).concepts_view(), concept@)
                && is_canonical_period(period@),
            limit > 0 && has_key(old(self).concepts_view(), concept@) && is_canonical_period(period@)
                && old(self).budget_counter() < i64::MAX ==> r is Ok,
            r is Ok ==> forall|b: Budget|
                !(b.concept@ == concept@ && b.period@ == period@) ==> (final(self).budgets_view().contains(
                    b) <==> old(self).budgets_view().contains(b)),
            r is Ok ==> forall|k: int|
                0 <= k < final(self).budgets_view().len() && #[trigger] final(self).budgets_view()[k].concept@
                    == concept@ && final(self).budgets_view()[k].period@ == period@
                    ==> final(self).budgets_view()[k].monthly_limit == limit,
            r is Ok ==> exists|k: int|
                0 <= k < final(self).budgets_view().len() && final(self).budgets_view()[k].concept@
                    == concept@ && final(self).budgets_view()[k].period@ == period@
                    && final(self).budgets_view()[k].monthly_limit == limit,
            r is Err ==> final(self).budgets_view() == old(self).budgets_view(),
            final(self).budget_counter() <= old(self).budget_counter() + 1,
            final(self).accounts_view() == old(self).accounts_view(),
            final(self).entries_view() == old(self).entries_view(),
            final(self).concepts_view() == old(self).concepts_view(),
            final(self).config_view() == old(self).config_view(),
            final(self).last_entry_id() == old(self).last_entry_id(),
            final(self).last_account_id() == old(self).last_account_id(),
            final(self).mirror_cursor() == old(self).mirror_cursor(),
    {
        if limit <= 0 {
            return Err(AppError::Invalid(owned("Limit must be positive")));
        }
        if !is_period_text(period) {
            return Err(AppError::Database(owned("CHECK constraint failed: budgets.period")));
        }
        if find_key(&self.concepts, concept).is_none() {
            return Err(AppError::Database(owned("FOREIGN KEY constraint failed")));
        }
        let ghost before = self.budgets@;
        match find_budget(&self.budgets, concept, period) {
            Some(i) => {
                let row = Budget {
                    id: self.budgets[i].id,
                    concept: owned(concept),
                    monthly_limit: limit,
                    period: owned(period),
                };
                self.budgets.set(i, row);
                proof {
                    assert forall|a: int, b: int| 0 <= a < b < self.budgets@.len() implies budget_before(
                        self.budgets@[a],
                        self.budgets@[b],
                    ) by {
                        assert(budget_before(before[a], before[b]));
                    }
                    assert forall|k: int| 0 <= k < self.budgets@.len() && #[trigger] self.budgets@[k].concept@
                        == concept@ && self.budgets@[k].period@ == period@ implies self.budgets@[k].monthly_limit
                        == limit by {
                        if k != i {
                            assert(self.budgets@[k] == before[k]);
                            crate::text::lemma_seq_lt_order();
                            crate::storage::table::lemma_budget_order();
                            if k < i {
                                assert(budget_before(before[k], before[i as int]));
                            } else {
                                assert(budget_before(before[i as int], before[k]));
                            }
                        }
                    }
                    assert forall|b: Budget| #![auto] self.budgets@.contains(b) && !(b.concept@ == concept@
                        && b.period@ == period@) implies before.contains(b) by {
                        let k = choose|k: int| 0 <= k < self.budgets@.len() && self.budgets@[k] == b;
                        assert(k != i);
                        assert(before[k] == b);
                    }
                    assert forall|b: Budget| #![auto] before.contains(b) && !(b.concept@ == concept@
                        && b.period@ == period@) implies self.budgets@.contains(b) by {
                        let k = choose|k: int| 0 <= k < before.len() && before[k] == b;
                        assert(self.budgets@[k] == b);
                    }
                    assert(self.budgets@[i as int] == row);
                }
                Ok(())
            },
            None => {
                if self.last_budget_id == i64::MAX {
                    return Err(AppError::Database(owned("database or disk is full")));
                }
                self.last_budget_id = self.last_budget_id + 1;
                let row = Budget {
                    id: Some(self.last_budget_id),
                    concept: owned(concept),
                    monthly_limit: limit,
                    period: owned(period),
                };
                insert_budget(&mut self.budgets, row);
                proof {
                    let p = choose|p: int| 0 <= p <= before.len() && self.budgets@ == before.insert(p, row);
                    assert(self.budgets@[p] == row);
                    assert forall|k: int| 0 <= k < self.budgets@.len() && #[trigger] self.budgets@[k].concept@
                        == concept@ && self.budgets@[k].period@ == period@ implies self.budgets@[k].monthly_limit
                        == limit by {
                        if k < p {
                            assert(before[k] == self.budgets@[k]);
                        } else if k > p {
                            assert(before[k - 1] == self.budgets@[k]);
                        }
                    }
                    assert forall|b: Budget| #![auto] self.budgets@.contains(b) && !(b.concept@ == concept@
                        && b.period@ == period@) implies before.contains(b) by {
                        let k = choose|k: int| 0 <= k < self.budgets@.len() && self.budgets@[k] == b;
                        if k < p {
                            assert(before[k] == b);
                        } else {
                            assert(before[k - 1] == b);
                        }
                    }
                    assert forall|b: Budget| #![auto] before.contains(b) && !(b.concept@ == concept@
                        && b.period@ == period@) implies self.budgets@.contains(b) by {
                        let k = choose|k: int| 0 <= k < before.len() && before[k] == b;
                        if k < p {
                            assert(self.budgets@[k] == b);
                        } else {
                            assert(self.budgets@[k + 1] == b);
                        }
                    }
                }
                Ok(())
            },
        }
    }

    /// Budgets of `period` by concept; with no period, all of them by
    /// concept, then period.
    pub fn list_budgets(&self, period: Option<&str>) -> (r: Result<Vec<Budget>>)
        ensures
            r matches Ok(v) && v@ == match period {
                Some(p) => self.budgets_view().filter(budget_of_period(p@)),
                None => self.budgets_view(),
            },
    {
        let mut out: Vec<Budget> = Vec::new();
        let n = self.budgets.len();
        let mut j: usize = 0;
        while j < n
            invariant
                n == self.budgets@.len(),
                j <= n,
                out@ == match period {
                    Some(p) => self.budgets@.take(j as int).filter(budget_of_period(p@)),
                    None => self.budgets@.take(j as int),
                },
            decreases n - j,
        {
            proof {
                assert(self.budgets@.take(j + 1) =~= self.budgets@.take(j as int).push(
                    self.budgets@[j as int],
                ));
                if let Some(p) = period {
                    self.budgets@.take(j as int).lemma_filter_push(
                        self.budgets@[j as int],
                        budget_of_period(p@),
                    );
                }
            }
            let keep = match period {
                Some(p) => str_eq(self.budgets[j].period.as_str(), p),
                None => true,
            };
            if keep {
                out.push(self.budgets[j].clone());
            }
            j = j + 1;
        }
        proof {
            assert(self.budgets@.take(n as int) =~= self.budgets@);
        }
        Ok(out)
    }

    /// Removes the budget of `concept` for `period`, if there is one.
    pub fn delete_budget(&mut self, concept: &str, period: &str) -> (r: Result<()>)
        requires
            old(self).wf(),
        ensures
            r is Ok,
            final(self).wf(),
            final(self).budgets_view() == old(self).budgets_view().filter(
                |b: Budget| !(b.concept@ == concept@ && b.period@ == period@),
            ),
            final(self).accounts_view() == old(self).accounts_view(),
            final(self).entries_view() == old(self).entries_view(),
            final(self).concepts_view() == old(self).concepts_view(),
            final(self).config_view() == old(self).config_view(),
            final(self).last_entry_id() == old(self).last_entry_id(),
            final(self).last_account_id() == old(self).last_account_id(),
            final(self).mirror_cursor() == old(self).mirror_cursor(),
    {
        let ghost before = self.budgets@;
        let ghost pred = |b: Budget| !(b.concept@ == concept@ && b.period@ == period@);
        match find_budget(&self.budgets, concept, period) {
            Some(i) => {
                self.budgets.remove(i);
                proof {
                    crate::storage::table::lemma_remove_budget(before, i as int);
                    crate::storage::table::lemma_budget_order();
                    crate::text::lemma_seq_lt_order();
                    assert forall|k: int| 0 <= k < before.len() && k != i implies pred(before[k]) by {
                        if k < i {
                            assert(budget_before(before[k], before[i as int]));
                        } else {
                            assert(budget_before(before[i as int], before[k]));
                        }
                    }
                    lemma_filter_drops_one(before, pred, i as int);
                }
            },
            None => {
                proof {
                    lemma_filter_keeps_all(before, pred);
                }
            },
        }
        Ok(())
    }


    // -------------------------------------------------------------------
    // Accounts.
    // -------------------------------------------------------------------

    /// Index of the active emergency account, if any.
    fn find_active_emergency(&self) -> (r: Option<usize>)
        ensures
            match r {
                Some(k) => k < self.accounts@.len() && self.accounts@[k as int].kind
                    == AccountKind::Emergency && !self.accounts@[k as int].archived,
                None => !has_active_emergency(self.accounts@),
            },
    {
        let n = self.accounts.len();
        let mut i: usize = 0;
        while i < n
            invariant
                n == self.accounts@.len(),
                i <= n,
                forall|k: int|
                    0 <= k < i ==> !(self.accounts@[k].kind == AccountKind::Emergency
                        && !self.accounts@[k].archived),
            decreases n - i,
        {
            if self.accounts[i].kind == AccountKind::Emergency && !self.accounts[i].archived {
                return Some(i);
            }
            i = i + 1;
        }
        None
    }

    /// Creates an account and returns its id. The name must be new, a goal
    /// or a limit must be positive and fit the kind, and there is at most
    /// one active emergency fund.
    pub fn insert_account(&mut self, new: &NewAccount) -> (r: Result<i64>)
        requires
            old(self).wf(),
        ensures
            final(self).wf(),
            !account_acceptable(old(self).accounts_view(), *new) ==> (r matches Err(e) && e is Database),
            account_acceptable(old(self).accounts_view(), *new) && old(self).last_account_id() < i64::MAX
                ==> r is Ok,
            r matches Ok(id) ==> id == old(self).last_account_id() + 1 && final(self).last_account_id()
                == id && account_acceptable(old(self).accounts_view(), *new) && exists|p: int|
                #[trigger] inserted_at(old(self).accounts_view(), final(self).accounts_view(), p)
                    && final(self).accounts_view()[p] == (Account {
                    id,
                    name: new.name,
                    kind: new.kind,
                    target_amount: new.target_amount,
                    credit_limit: new.credit_limit,
                    liquid: new.liquid,
                    archived: false,
                }),
            r is Err ==> final(self).accounts_view() == old(self).accounts_view()
                && final(self).last_account_id() == old(self).last_account_id(),
            final(self).entries_view() == old(self).entries_view(),
            final(self).concepts_view() == old(self).concepts_view(),
            final(self).budgets_view() == old(self).budgets_view(),
            final(self).config_view() == old(self).config_view(),
            final(self).budget_counter() == old(self).budget_counter(),
            final(self).last_entry_id() == old(self).last_entry_id(),
            final(self).mirror_cursor() == old(self).mirror_cursor(),
    {
        if self.accounts.len() as u64 >= 0x4000_0000 {
            return Err(AppError::Database(owned("database or disk is full")));
        }
        if find_key(&self.accounts, new.name.as_str()).is_some() {
            return Err(AppError::Database(owned("UNIQUE constraint failed: accounts.name")));
        }
        if let Some(t) = new.target_amount {
            if new.kind != AccountKind::Target || t <= 0 {
                return Err(AppError::Database(owned("CHECK constraint failed: target_amount")));
            }
        }
        if let Some(c) = new.credit_limit {
            if new.kind != AccountKind::Credit || c <= 0 {
                return Err(AppError::Database(owned("CHECK constraint failed: credit_limit")));
            }
        }
        if new.kind == AccountKind::Emergency && self.find_active_emergency().is_some() {
            return Err(
                AppError::Database(owned("UNIQUE constraint failed: accounts.kind")),
            );
        }
        if self.last_account_id == i64::MAX {
            return Err(AppError::Database(owned("database or disk is full")));
        }
        let id = self.last_account_id + 1;
        self.last_account_id = id;
        let a = Account {
            id,
            name: new.name.clone(),
            kind: new.kind,
            target_amount: new.target_amount,
            credit_limit: new.credit_limit,
            liquid: new.liquid,
            archived: false,
        };
        let ghost before = self.accounts@;
        insert_keyed(&mut self.accounts, a);
        proof {
            let p = choose|p: int| 0 <= p <= before.len() && self.accounts@ == before.insert(p, a);
            assert(self.accounts@[p] == a);
            assert forall|i: int| 0 <= i < self.accounts@.len() implies #[trigger] self.accounts@[i].id
                <= self.last_account_id by {
                if i < p {
                    assert(self.accounts@[i] == before[i]);
                } else if i > p {
                    assert(self.accounts@[i] == before[i - 1]);
                }
            }
            assert forall|i: int, j: int|
                0 <= i < self.accounts@.len() && 0 <= j < self.accounts@.len() && i != j implies self.accounts@[i].id
                != self.accounts@[j].id by {
                let i0 = if i < p { i } else { i - 1 };
                let j0 = if j < p { j } else { j - 1 };
                if i != p {
                    assert(self.accounts@[i] == before[i0]);
                }
                if j != p {
                    assert(self.accounts@[j] == before[j0]);
                }
            }
            assert forall|i: int, j: int|
                0 <= i < self.accounts@.len() && 0 <= j < self.accounts@.len() && self.accounts@[i].kind
                    == AccountKind::Emergency && !self.accounts@[i].archived && self.accounts@[j].kind
                    == AccountKind::Emergency && !self.accounts@[j].archived implies i == j by {
                let i0 = if i < p { i } else { i - 1 };
                let j0 = if j < p { j } else { j - 1 };
                if i != p {
                    assert(self.accounts@[i] == before[i0]);
                }
                if j != p {
                    assert(self.accounts@[j] == before[j0]);
                }
            }
            assert(inserted_at(old(self).accounts_view(), self.accounts_view(), p));
        }
        Ok(id)
    }

    /// Marks account `id` archived (nothing happens when there is none).
    pub fn set_archived(&mut self, id: i64) -> (r: Result<()>)
        requires
            old(self).wf(),
        ensures
            r is Ok,
            final(self).wf(),
            final(self).accounts_view().len() == old(self).accounts_view().len(),
            forall|k: int|
                0 <= k < old(self).accounts_view().len() ==> archived_if(
                    old(self).accounts_view()[k],
                    id,
                    #[trigger] final(self).accounts_view()[k],
                ),
            final(self).entries_view() == old(self).entries_view(),
            final(self).concepts_view() == old(self).concepts_view(),
            final(self).budgets_view() == old(self).budgets_view(),
            final(self).config_view() == old(self).config_view(),
            final(self).budget_counter() == old(self).budget_counter(),
            final(self).last_entry_id() == old(self).last_entry_id(),
            final(self).last_account_id() == old(self).last_account_id(),
            final(self).mirror_cursor() == old(self).mirror_cursor(),
    {
        let ghost before = self.accounts@;
        let n = self.accounts.len();
        let mut i: usize = 0;
        while i < n
            invariant
                n == self.accounts@.len(),
                n == before.len(),
                i <= n,
                forall|k: int| 0 <= k < i ==> archived_if(before[k], id, #[trigger] self.accounts@[k]),
                forall|k: int| i <= k < n ==> #[trigger] self.accounts@[k] == before[k],
                self.last_account_id == old(self).last_account_id,
                self.last_entry_id == old(self).last_entry_id,
                self.last_concept_id == old(self).last_concept_id,
                self.last_budget_id == old(self).last_budget_id,
                self.mirror_revision == old(self).mirror_revision,
                self.entries == old(self).entries,
                self.concepts == old(self).concepts,
                self.budgets == old(self).budgets,
                self.config == old(self).config,
            decreases n - i,
        {
            if self.accounts[i].id == id {
                let mut a = self.accounts[i].clone();
                a.archived = true;
                self.accounts.set(i, a);
            }
            i = i + 1;
        }
        proof {
            assert forall|a: int, b: int| 0 <= a < b < self.accounts@.len() implies crate::text::seq_lt(
                self.accounts@[a].key_view(),
                self.accounts@[b].key_view(),
            ) by {
                assert(archived_if(before[a], id, self.accounts@[a]));
                assert(archived_if(before[b], id, self.accounts@[b]));
                assert(sorted_by_key(before));
                assert(seq_lt(before[a].key_view(), before[b].key_view()));
                assert(self.accounts@[a].name == before[a].name);
                assert(self.accounts@[b].name == before[b].name);
            }
            assert forall|a: int, b: int|
                0 <= a < self.accounts@.len() && 0 <= b < self.accounts@.len() && a != b implies self.accounts@[a].id
                != self.accounts@[b].id by {
                assert(archived_if(before[a], id, self.accounts@[a]));
                assert(archived_if(before[b], id, self.accounts@[b]));
            }
            assert forall|a: int, b: int|
                0 <= a < self.accounts@.len() && 0 <= b < self.accounts@.len() && self.accounts@[a].kind
                    == AccountKind::Emergency && !self.accounts@[a].archived && self.accounts@[b].kind
                    == AccountKind::Emergency && !self.accounts@[b].archived implies a == b by {
                assert(archived_if(before[a], id, self.accounts@[a]));
                assert(archived_if(before[b], id, self.accounts@[b]));
            }
            assert forall|k: int| 0 <= k < self.accounts@.len() implies #[trigger] self.accounts@[k].id
                <= self.last_account_id by {
                assert(archived_if(before[k], id, self.accounts@[k]));
                assert(old(self).accounts@[k].id <= old(self).last_account_id);
            }
        }
        Ok(())
    }

    // -------------------------------------------------------------------
    // Single entries.
    // -------------------------------------------------------------------

    /// Index of the stored entry with id `id`, if any.
    fn find_entry(&self, id: i64) -> (r: Option<usize>)
        ensures
            match r {
                Some(k) => k < self.entries@.len() && self.entries@[k as int].id == id,
                None => !has_entry(self.entries@, id),
            },
    {
        let n = self.entries.len();
        let mut i: usize = 0;
        while i < n
            invariant
                n == self.entries@.len(),
                i <= n,
                forall|k: int| 0 <= k < i ==> self.entries@[k].id != id,
            decreases n - i,
        {
            if self.entries[i].id == id {
                return Some(i);
            }
            i = i + 1;
        }
        None
    }

    /// The entry with id `id`, with account names.
    pub fn get_entry(&self, id: i64) -> (r: Result<Entry>)
        ensures
            r is Ok <==> has_entry(self.entries_view(), id),
            r matches Ok(e) ==> exists|k: int|
                0 <= k < self.entries_view().len() && self.entries_view()[k].id == id && listed_as(
                    #[trigger] self.entries_view()[k],
                    self.accounts_view(),
                    e,
                ),
            r matches Err(e) ==> e is NotFound,
    {
        match self.find_entry(id) {
            Some(k) => {
                let e = list_entry(&self.entries[k], &self.accounts);
                proof {
                    assert(listed_as(self.entries@[k as int], self.accounts@, e));
                }
                Ok(e)
            },
            None => {
                Err(AppError::NotFound(concat(concat("Entry #", crate::text::fmt_i64(id).as_str()).as_str(), " not found")))
            },
        }
    }

    /// Deletes the entry with id `id`.
    pub fn delete_entry(&mut self, id: i64) -> (r: Result<()>)
        requires
            old(self).wf(),
        ensures
            final(self).wf(),
            r is Ok <==> has_entry(old(self).entries_view(), id),
            r matches Err(e) ==> e is NotFound,
            final(self).entries_view() == old(self).entries_view().filter(|e: Entry| e.id != id),
            final(self).accounts_view() == old(self).accounts_view(),
            final(self).concepts_view() == old(self).concepts_view(),
            final(self).budgets_view() == old(self).budgets_view(),
            final(self).config_view() == old(self).config_view(),
            final(self).last_entry_id() == old(self).last_entry_id(),
            final(self).last_account_id() == old(self).last_account_id(),
            final(self).mirror_cursor() == old(self).mirror_cursor(),
            final(self).concept_counter() == old(self).concept_counter(),
            final(self).budget_counter() == old(self).budget_counter(),
    {
        let ghost before = self.entries@;
        let ghost pred = |e: Entry| e.id != id;
        match self.find_entry(id) {
            Some(k) => {
                self.entries.remove(k);
                proof {
                    crate::storage::table::lemma_remove_entry(before, k as int);
                    assert forall|j: int| 0 <= j < before.len() && j != k implies pred(before[j]) by {
                    }
                    lemma_filter_drops_one(before, pred, k as int);
                    assert forall|j: int| 0 <= j < self.entries@.len() implies #[trigger] self.entries@[j].id
                        <= self.last_entry_id by {
                        if j < k {
                            assert(self.entries@[j] == before[j]);
                        } else {
                            assert(self.entries@[j] == before[j + 1]);
                        }
                    }
                }
                Ok(())
            },
            None => {
                proof {
                    lemma_filter_keeps_all(before, pred);
                }
                Err(AppError::NotFound(concat(concat("Entry #", crate::text::fmt_i64(id).as_str()).as_str(), " not found")))
            },
        }
    }


    // -------------------------------------------------------------------
    // Writing entries.
    // -------------------------------------------------------------------

    /// Index of the account with id `id`, the last listed if several.
    fn find_account_id(&self, id: i64) -> (r: Option<usize>)
        ensures
            match r {
                Some(i) => i < self.accounts@.len() && account_with(self.accounts@, id) == Some(
                    self.accounts@[i as int],
                ),
                None => account_with(self.accounts@, id) is None,
            },
    {
        let mut found: Option<usize> = None;
        let n = self.accounts.len();
        let mut j: usize = 0;
        while j < n
            invariant
                n == self.accounts@.len(),
                j <= n,
                match found {
                    Some(i) => i < j && account_with(self.accounts@.take(j as int), id) == Some(
                        self.accounts@[i as int],
                    ),
                    None => account_with(self.accounts@.take(j as int), id) is None,
                },
            decreases n - j,
        {
            proof {
                assert(self.accounts@.take(j + 1).drop_last() =~= self.accounts@.take(j as int));
            }
            if self.accounts[j].id == id {
                found = Some(j);
            }
            j = j + 1;
        }
        proof {
            assert(self.accounts@.take(n as int) =~= self.accounts@);
        }
        found
    }

    /// Whether a row passes the constraints (see `row_ok`).
    fn row_acceptable(&self, e: &NewEntry) -> (r: bool)
        ensures
            r == row_ok(self.accounts@, self.concepts@, *e),
    {
        if validate_date(e.date.as_str()).is_err() || e.amount <= 0 {
            return false;
        }
        let shape = match e.kind {
            EntryKind::Income | EntryKind::Opening => e.from_account_id.is_none()
                && e.to_account_id.is_some(),
            EntryKind::Expense => e.from_account_id.is_some() && e.to_account_id.is_none(),
            EntryKind::Transfer => e.from_account_id.is_some() && e.to_account_id.is_some()
                && e.from_account_id != e.to_account_id,
        };
        if !shape {
            return false;
        }
        if (e.kind == EntryKind::Income || e.kind == EntryKind::Expense) && e.concept.is_none() {
            return false;
        }
        if let Some(id) = e.from_account_id {
            if self.find_account_id(id).is_none() {
                return false;
            }
        }
        if let Some(id) = e.to_account_id {
            if self.find_account_id(id).is_none() {
                return false;
            }
        }
        if let Some(c) = &e.concept {
            if find_key(&self.concepts, c.as_str()).is_none() {
                return false;
            }
        }
        true
    }

    /// Applies the overdraft policy to `e` against the stored balances.
    fn check_source(&self, e: &NewEntry) -> (r: Result<()>)
        requires
            self.wf(),
        ensures
            source_refused(self.accounts@, *e, balances_of(self.entries@)) ==> (r matches Err(x)
                && x is Invalid),
            !source_refused(self.accounts@, *e, balances_of(self.entries@)) && source_missing(
                self.accounts@,
                *e,
            ) ==> (r matches Err(x) && x is Database),
            r is Ok <==> !source_refused(self.accounts@, *e, balances_of(self.entries@))
                && !source_missing(self.accounts@, *e),
            r matches Err(AppError::Invalid(m)) ==> refusal_prefix(self.accounts@, *e).is_prefix_of(m@),
    {
        if e.kind != EntryKind::Expense && e.kind != EntryKind::Transfer {
            return Ok(());
        }
        let from = match e.from_account_id {
            Some(id) => id,
            None => {
                return Err(AppError::Invalid(owned("Entry must have a source account")));
            },
        };
        let i = match self.find_account_id(from) {
            Some(i) => i,
            None => {
                return Err(AppError::Database(owned("Query returned no rows")));
            },
        };
        let a = &self.accounts[i];
        let balance = balance_over(self.entries.as_slice(), from);
        proof {
            lemma_balance_bound(self.entries@, from);
            assert(self.entries@.len() * amount_bound() <= entry_capacity() * amount_bound())
                by (nonlinear_arith)
                requires
                    self.entries@.len() <= entry_capacity(),
            ;
        }
        let amount = e.amount as i128;
        match a.kind {
            AccountKind::Target | AccountKind::Emergency => {
                if amount > balance {
                    let msg = concat(
                        concat(
                            concat("Insufficient balance: have $", money_text(balance).as_str()).as_str(),
                            ", need $",
                        ).as_str(),
                        money_text(amount).as_str(),
                    );
                    return Err(AppError::Invalid(msg));
                }
            },
            AccountKind::Credit => {
                if let Some(limit) = a.credit_limit {
                    let debt: i128 = if balance < 0 {
                        -balance
                    } else {
                        0
                    };
                    if debt + amount > limit as i128 {
                        let available = limit as i128 - debt;
                        let msg = concat(
                            concat(
                                concat("Exceeds credit limit: $", money_text(available).as_str()).as_str(),
                                " available, $",
                            ).as_str(),
                            concat(money_text(amount).as_str(), " requested").as_str(),
                        );
                        return Err(AppError::Invalid(msg));
                    }
                }
            },
            AccountKind::Spending => {},
        }
        Ok(())
    }

    /// Writes one entry, checked against the store as it stands.
    fn write_entry(&mut self, e: &NewEntry) -> (r: Result<Entry>)
        requires
            old(self).wf(),
        ensures
            final(self).wf(),
            source_refused(old(self).accounts@, *e, balances_of(old(self).entries@)) ==> (r matches Err(
                x,
            ) && x is Invalid),
            r is Ok <==> !source_refused(old(self).accounts@, *e, balances_of(old(self).entries@))
                && !source_missing(old(self).accounts@, *e) && row_ok(
                old(self).accounts@,
                old(self).concepts@,
                *e,
            ) && old(self).last_entry_id < i64::MAX && old(self).entries@.len() < entry_capacity(),
            r matches Err(x) ==> (!source_refused(
                old(self).accounts@,
                *e,
                balances_of(old(self).entries@),
            ) ==> x is Database),
            r matches Err(x) ==> x is Invalid || x is Database,
            r matches Err(AppError::Invalid(m)) ==> refusal_prefix(old(self).accounts@, *e).is_prefix_of(m@),
            r matches Ok(out) ==> final(self).last_entry_id == old(self).last_entry_id + 1
                && inserted(old(self).entries@, final(self).entries@, row_of(*e, final(self).last_entry_id))
                && listed_as(row_of(*e, final(self).last_entry_id), old(self).accounts@, out),
            r is Err ==> final(self).entries@ == old(self).entries@ && final(self).last_entry_id
                == old(self).last_entry_id,
            final(self).accounts@ == old(self).accounts@,
            final(self).concepts@ == old(self).concepts@,
            final(self).budgets@ == old(self).budgets@,
            final(self).config@ == old(self).config@,
            final(self).last_account_id == old(self).last_account_id,
            final(self).last_concept_id == old(self).last_concept_id,
            final(self).last_budget_id == old(self).last_budget_id,
            final(self).mirror_revision == old(self).mirror_revision,
    {
        self.check_source(e)?;
        if !self.row_acceptable(e) {
            return Err(AppError::Database(owned("CHECK or FOREIGN KEY constraint failed")));
        }
        if self.last_entry_id == i64::MAX || self.entries.len() as u64 >= 0x2_0000_0000 {
            return Err(AppError::Database(owned("database or disk is full")));
        }
        let id = self.last_entry_id + 1;
        let row = Entry {
            id,
            date: e.date.clone(),
            kind: e.kind,
            amount: e.amount,
            from_account_id: e.from_account_id,
            to_account_id: e.to_account_id,
            from_account: None,
            to_account: None,
            concept: clone_opt(&e.concept),
            subconcept: clone_opt(&e.subconcept),
            description: clone_opt(&e.description),
        };
        let out = list_entry(&row, &self.accounts);
        let ghost before = self.entries@;
        proof {
            assert(row == row_of(*e, id));
            assert forall|k: int| 0 <= k < before.len() implies before[k].id != row.id by {
                assert(before[k].id <= self.last_entry_id);
            }
        }
        insert_entry(&mut self.entries, row);
        self.last_entry_id = id;
        proof {
            let p = choose|p: int| 0 <= p <= before.len() && self.entries@ == before.insert(p, row);
            assert forall|a: int, b: int|
                0 <= a < self.entries@.len() && 0 <= b < self.entries@.len() && a != b implies self.entries@[a].id
                != self.entries@[b].id by {
                let a0 = if a < p { a } else { a - 1 };
                let b0 = if b < p { b } else { b - 1 };
                if a != p {
                    assert(self.entries@[a] == before[a0]);
                    assert(before[a0].id <= old(self).last_entry_id);
                }
                if b != p {
                    assert(self.entries@[b] == before[b0]);
                    assert(before[b0].id <= old(self).last_entry_id);
                }
            }
            assert forall|k: int| 0 <= k < self.entries@.len() implies #[trigger] self.entries@[k].id
                <= self.last_entry_id by {
                if k < p {
                    assert(self.entries@[k] == before[k]);
                    assert(before[k].id <= old(self).last_entry_id);
                } else if k > p {
                    assert(self.entries@[k] == before[k - 1]);
                    assert(before[k - 1].id <= old(self).last_entry_id);
                }
            }
        }
        Ok(out)
    }

    /// Writes a batch of entries, all or nothing. Each entry is checked
    /// against the store with the batch's earlier entries already in it:
    /// an expense or transfer needs a source account and must not overdraw
    /// it (savings cannot go below zero, credit cannot pass its limit), and
    /// every row must pass the constraints. The entries get consecutive new
    /// ids and are returned with account names.
    pub fn push_entries(&mut self, batch: &[NewEntry]) -> (r: Result<Vec<Entry>>)
        requires
            old(self).wf(),
        ensures
            final(self).wf(),
            r is Ok <==> batch_ok_upto(
                old(self).accounts_view(),
                old(self).concepts_view(),
                old(self).entries_view(),
                old(self).last_entry_id(),
                batch@,
                batch@.len() as int,
            ),
            forall|k: int|
                0 <= k < batch@.len() && batch_ok_upto(
                    old(self).accounts_view(),
                    old(self).concepts_view(),
                    old(self).entries_view(),
                    old(self).last_entry_id(),
                    batch@,
                    k,
                ) && !batch_entry_ok(
                    old(self).accounts_view(),
                    old(self).concepts_view(),
                    old(self).entries_view(),
                    old(self).last_entry_id(),
                    batch@,
                    k,
                ) ==> (r matches Err(x) && (x is Invalid <==> source_refused(
                    old(self).accounts_view(),
                    batch@[k],
                    balances_during(old(self).entries_view(), batch@, k),
                )) && (x is Invalid || x is Database)),
            r matches Err(x) ==> x is Invalid || x is Database,
            forall|k: int|
                0 <= k < batch@.len() && batch_ok_upto(
                    old(self).accounts_view(),
                    old(self).concepts_view(),
                    old(self).entries_view(),
                    old(self).last_entry_id(),
                    batch@,
                    k,
                ) && !batch_entry_ok(
                    old(self).accounts_view(),
                    old(self).concepts_view(),
                    old(self).entries_view(),
                    old(self).last_entry_id(),
                    batch@,
                    k,
                ) ==> (r matches Err(AppError::Invalid(m)) ==> refusal_prefix(
                    old(self).accounts_view(),
                    #[trigger] batch@[k],
                ).is_prefix_of(m@)),
            r matches Ok(created) ==> created@.len() == batch@.len() && final(self).last_entry_id()
                == old(self).last_entry_id() + batch@.len() && final(self).entries_view().to_multiset()
                == old(self).entries_view().to_multiset().add(
                batch_rows(batch@, old(self).last_entry_id() + 1).to_multiset(),
            ) && forall|k: int|
                0 <= k < batch@.len() ==> listed_as(
                    batch_rows(batch@, old(self).last_entry_id() + 1)[k],
                    old(self).accounts_view(),
                    #[trigger] created@[k],
                ),
            r is Ok ==> forall|id: i64|
                #[trigger] balance_in(final(self).entries_view(), id) == balance_in(
                    old(self).entries_view(),
                    id,
                ) + batch_delta(batch@, id),
            r is Err ==> final(self).entries_view() == old(self).entries_view()
                && final(self).last_entry_id() == old(self).last_entry_id(),
            final(self).accounts_view() == old(self).accounts_view(),
            final(self).concepts_view() == old(self).concepts_view(),
            final(self).budgets_view() == old(self).budgets_view(),
            final(self).config_view() == old(self).config_view(),
            final(self).budget_counter() == old(self).budget_counter(),
            final(self).last_account_id() == old(self).last_account_id(),
            final(self).mirror_cursor() == old(self).mirror_cursor(),
    {
        broadcast use vstd::seq_lib::group_to_multiset_ensures;

        let ghost e0 = self.entries@;
        let ghost last0 = self.last_entry_id as int;
        let ghost accts = self.accounts@;
        let ghost concepts = self.concepts@;
        let saved_entries = self.entries.clone();
        let saved_last = self.last_entry_id;
        proof {
            assert(saved_entries@ =~= e0);
        }
        let mut created: Vec<Entry> = Vec::new();
        let n = batch.len();
        let mut k: usize = 0;
        while k < n
            invariant
                n == batch@.len(),
                k <= n,
                self.wf(),
                old(self).wf(),
                saved_entries@ == e0,
                saved_last == last0,
                self.accounts@ == accts,
                self.concepts@ == concepts,
                self.budgets@ == old(self).budgets@,
                self.config@ == old(self).config@,
                self.last_account_id == old(self).last_account_id,
                self.last_concept_id == old(self).last_concept_id,
                self.last_budget_id == old(self).last_budget_id,
                self.mirror_revision == old(self).mirror_revision,
                e0 == old(self).entries@,
                last0 == old(self).last_entry_id,
                accts == old(self).accounts@,
                concepts == old(self).concepts@,
                self.last_entry_id == last0 + k,
                self.entries@.len() == e0.len() + k,
                self.entries@.to_multiset() == e0.to_multiset().add(
                    batch_rows(batch@.take(k as int), last0 + 1).to_multiset(),
                ),
                forall|id: i64| #[trigger]
                    balance_in(self.entries@, id) == balance_in(e0, id) + batch_delta(
                        batch@.take(k as int),
                        id,
                    ),
                batch_ok_upto(accts, concepts, e0, last0, batch@, k as int),
                created@.len() == k,
                forall|j: int|
                    0 <= j < k ==> listed_as(
                        batch_rows(batch@, last0 + 1)[j],
                        accts,
                        #[trigger] created@[j],
                    ),
            decreases n - k,
        {
            let ghost cur = self.entries@;
            proof {
                assert forall|id: i64| #[trigger] balances_of(cur)(id) == balances_during(
                    e0,
                    batch@,
                    k as int,
                )(id) by {
                    assert(balance_in(cur, id) == balance_in(e0, id) + batch_delta(
                        batch@.take(k as int),
                        id,
                    ));
                }
                assert(balances_of(cur) =~= balances_during(e0, batch@, k as int));
            }
            match self.write_entry(&batch[k]) {
                Ok(out) => {
                    proof {
                        let row = row_of(batch@[k as int], self.last_entry_id);
                        let p = choose|p: int| 0 <= p <= cur.len() && self.entries@ == cur.insert(p, row);
                        assert(batch@.take(k + 1) =~= batch@.take(k as int).push(batch@[k as int]));
                        assert(batch@.take(k + 1).drop_last() =~= batch@.take(k as int));
                        assert(batch_rows(batch@.take(k + 1), last0 + 1) =~= batch_rows(
                            batch@.take(k as int),
                            last0 + 1,
                        ).push(row));
                        assert forall|id: i64| #[trigger] balance_in(self.entries@, id) == balance_in(e0, id)
                            + batch_delta(batch@.take(k + 1), id) by {
                            lemma_balance_insert(cur, p, row, id);
                            assert(entry_delta(row, id) == entry_delta(row_of(batch@[k as int], 0), id));
                        }
                        assert(batch_entry_ok(accts, concepts, e0, last0, batch@, k as int));
                        assert(batch_rows(batch@, last0 + 1)[k as int] == row);
                        vstd::seq_lib::to_multiset_insert(cur, p, row);
                        vstd::seq_lib::to_multiset_build(batch_rows(batch@.take(k as int), last0 + 1), row);
                        assert(self.entries@.to_multiset() =~= e0.to_multiset().add(
                            batch_rows(batch@.take(k + 1), last0 + 1).to_multiset(),
                        ));
                    }
                    created.push(out);
                },
                Err(err) => {
                    self.entries = saved_entries;
                    self.last_entry_id = saved_last;
                    proof {
                        assert(!batch_entry_ok(accts, concepts, e0, last0, batch@, k as int));
                        assert(self.entries@ == old(self).entries@);
                        assert(self.last_entry_id == old(self).last_entry_id);
                        assert(self.accounts@ == old(self).accounts@);
                        assert(self.concepts@ == old(self).concepts@);
                    }
                    return Err(err);
                },
            }
            k = k + 1;
        }
        proof {
            assert(batch@.take(n as int) =~= batch@);
        }
        Ok(created)
    }


    /// Corrects entry `id` in place, keeping its id and kind. Only the side
    /// this kind of entry has can be changed, transfers and opening
    /// balances take no concept, and the corrected values must be valid;
    /// the overdraft policy is not applied again.
    #[verifier::rlimit(40)]
    pub fn update_entry(&mut self, id: i64, upd: &EntryUpdate) -> (r: Result<Entry>)
        requires
            old(self).wf(),
        ensures
            final(self).wf(),
            !has_entry(old(self).entries_view(), id) ==> (r matches Err(x) && x is NotFound),
            entry_with(old(self).entries_view(), id) matches Some(cur) ==> ({
                let new = updated_row(cur, *upd);
                &&& update_misfits(cur, *upd) ==> (r matches Err(x) && x is Invalid)
                &&& !update_misfits(cur, *upd) && update_values_refused(new) ==> (r matches Err(x)
                    && x is Invalid)
                &&& !update_misfits(cur, *upd) && !update_values_refused(new) && !row_ok(
                    old(self).accounts_view(),
                    old(self).concepts_view(),
                    as_new(new),
                ) ==> (r matches Err(x) && x is Database)
                &&& r is Ok <==> !update_misfits(cur, *upd) && !update_values_refused(new) && row_ok(
                    old(self).accounts_view(),
                    old(self).concepts_view(),
                    as_new(new),
                )
                &&& r matches Ok(out) ==> listed_as(new, old(self).accounts_view(), out)
                    && final(self).entries_view().to_multiset() == old(self).entries_view().to_multiset().remove(
                    cur,
                ).insert(new)
                &&& r is Ok ==> final(self).entries_view().contains(new)
                &&& r matches Ok(out) ==> (out.id == id && out.kind == cur.kind)
                &&& r matches Ok(out) ==> ((upd.date matches Some(d) ==> out.date == d) && (upd.date is None
                    ==> out.date == cur.date))
                &&& r matches Ok(out) ==> ((upd.amount matches Some(x) ==> out.amount == x) && (
                upd.amount is None ==> out.amount == cur.amount))
                &&& r matches Ok(out) ==> ((upd.from_account_id matches Some(x) ==> out.from_account_id
                    == Some(x)) && (upd.from_account_id is None ==> out.from_account_id
                    == cur.from_account_id))
                &&& r matches Ok(out) ==> ((upd.to_account_id matches Some(x) ==> out.to_account_id
                    == Some(x)) && (upd.to_account_id is None ==> out.to_account_id == cur.to_account_id))
                &&& r matches Ok(out) ==> ((upd.concept matches Some(x) ==> out.concept == Some(x)) && (
                upd.concept is None ==> out.concept == cur.concept))
                &&& r matches Ok(out) ==> ((upd.subconcept matches Some(x) ==> out.subconcept == Some(x))
                    && (upd.subconcept is None ==> out.subconcept == cur.subconcept))
                &&& r matches Ok(out) ==> ((upd.description matches Some(x) ==> out.description == Some(
                    x,
                )) && (upd.description is None ==> out.description == cur.description))
            }),
            r is Err ==> final(self).entries_view() == old(self).entries_view(),
            final(self).accounts_view() == old(self).accounts_view(),
            final(self).concepts_view() == old(self).concepts_view(),
            final(self).budgets_view() == old(self).budgets_view(),
            final(self).config_view() == old(self).config_view(),
            final(self).last_entry_id() == old(self).last_entry_id(),
            final(self).last_account_id() == old(self).last_account_id(),
            final(self).mirror_cursor() == old(self).mirror_cursor(),
    {
        broadcast use vstd::seq_lib::group_to_multiset_ensures;

        let k = match self.find_entry(id) {
            Some(k) => k,
            None => {
                return Err(
                    AppError::NotFound(
                        concat(
                            concat("Entry #", crate::text::fmt_i64(id).as_str()).as_str(),
                            " not found",
                        ),
                    ),
                );
            },
        };
        proof {
            assert(has_entry(self.entries@, id));
            let c = choose|c: int| 0 <= c < self.entries@.len() && self.entries@[c].id == id;
            assert(c == k as int) by {
                if c != k as int {
                    assert(self.entries@[c].id != self.entries@[k as int].id);
                }
            }
            assert(entry_with(self.entries@, id) == Some(self.entries@[k as int]));
        }
        let cur = self.entries[k].clone();
        match cur.kind {
            EntryKind::Income | EntryKind::Opening => {
                if upd.from_account_id.is_some() {
                    return Err(
                        AppError::Invalid(
                            owned(
                                "This entry has no source account to change (it's an income/opening entry)",
                            ),
                        ),
                    );
                }
            },
            EntryKind::Expense => {
                if upd.to_account_id.is_some() {
                    return Err(
                        AppError::Invalid(
                            owned(
                                "This entry has no destination account to change (it's an expense)",
                            ),
                        ),
                    );
                }
            },
            EntryKind::Transfer => {},
        }
        if (cur.kind == EntryKind::Transfer || cur.kind == EntryKind::Opening)
            && upd.concept.is_some() {
            return Err(
                AppError::Invalid(owned("Transfers and opening balances don't carry a concept")),
            );
        }
        let new = Entry {
            id: cur.id,
            date: match &upd.date {
                Some(d) => d.clone(),
                None => cur.date.clone(),
            },
            kind: cur.kind,
            amount: match upd.amount {
                Some(a) => a,
                None => cur.amount,
            },
            from_account_id: match upd.from_account_id {
                Some(f) => Some(f),
                None => cur.from_account_id,
            },
            to_account_id: match upd.to_account_id {
                Some(t) => Some(t),
                None => cur.to_account_id,
            },
            from_account: clone_opt(&cur.from_account),
            to_account: clone_opt(&cur.to_account),
            concept: match &upd.concept {
                Some(c) => Some(c.clone()),
                None => clone_opt(&cur.concept),
            },
            subconcept: match &upd.subconcept {
                Some(c) => Some(c.clone()),
                None => clone_opt(&cur.subconcept),
            },
            description: match &upd.description {
                Some(c) => Some(c.clone()),
                None => clone_opt(&cur.description),
            },
        };
        proof {
            assert(new == updated_row(cur, *upd));
        }
        validate_date(new.date.as_str())?;
        if new.amount <= 0 {
            return Err(AppError::Invalid(owned("Amount must be positive")));
        }
        if new.kind == EntryKind::Transfer && new.from_account_id == new.to_account_id {
            return Err(
                AppError::Invalid(
                    owned("Transfer source and destination cannot be the same account"),
                ),
            );
        }
        if (new.kind == EntryKind::Income || new.kind == EntryKind::Expense) && new.concept.is_none() {
            return Err(AppError::Invalid(owned("Concept is required")));
        }
        let shape = NewEntry {
            date: new.date.clone(),
            kind: new.kind,
            amount: new.amount,
            from_account_id: new.from_account_id,
            to_account_id: new.to_account_id,
            concept: clone_opt(&new.concept),
            subconcept: clone_opt(&new.subconcept),
            description: clone_opt(&new.description),
        };
        proof {
            assert(shape == as_new(new));
        }
        if !self.row_acceptable(&shape) {
            return Err(AppError::Database(owned("CHECK or FOREIGN KEY constraint failed")));
        }
        let out = list_entry(&new, &self.accounts);
        let ghost before = self.entries@;
        self.entries.remove(k);
        proof {
            crate::storage::table::lemma_remove_entry(before, k as int);
            assert forall|j: int| 0 <= j < self.entries@.len() implies self.entries@[j].id != new.id by {
                if j < k {
                    assert(self.entries@[j] == before[j]);
                } else {
                    assert(self.entries@[j] == before[j + 1]);
                }
            }
        }
        let ghost mid = self.entries@;
        insert_entry(&mut self.entries, new);
        proof {
            let p = choose|p: int| 0 <= p <= mid.len() && self.entries@ == mid.insert(p, new);
            assert forall|a: int, b: int|
                0 <= a < self.entries@.len() && 0 <= b < self.entries@.len() && a != b implies self.entries@[a].id
                != self.entries@[b].id by {
                let a0 = if a < p { a } else { a - 1 };
                let b0 = if b < p { b } else { b - 1 };
                if a != p {
                    assert(self.entries@[a] == mid[a0]);
                }
                if b != p {
                    assert(self.entries@[b] == mid[b0]);
                }
            }
            assert forall|j: int| 0 <= j < self.entries@.len() implies #[trigger] self.entries@[j].id
                <= self.last_entry_id by {
                if j < p {
                    assert(self.entries@[j] == mid[j]);
                } else if j > p {
                    assert(self.entries@[j] == mid[j - 1]);
                }
                if j != p {
                    let j0 = if j < p { j } else { j - 1 };
                    let b0 = if j0 < k { j0 } else { j0 + 1 };
                    assert(mid[j0] == before[b0]);
                    assert(before[b0].id <= old(self).last_entry_id);
                } else {
                    assert(before[k as int].id <= old(self).last_entry_id);
                }
            }
            vstd::seq_lib::to_multiset_remove(before, k as int);
            vstd::seq_lib::to_multiset_insert(mid, p, new);
            assert(self.entries@[p] == new);
            assert(self.entries@.contains(new));
            assert(new.id == id);
            assert(listed_as(new, old(self).accounts@, out));
        }
        Ok(out)
    }


    // -------------------------------------------------------------------
    // Derived reads: every balance comes from the entries.
    // -------------------------------------------------------------------

    /// The stored entries dated on or before `date` (all of them without a
    /// date), newest first.
    fn scoped_entries(&self, date: Option<&str>) -> (r: Vec<Entry>)
        ensures
            r@ == self.entries@.filter(up_to(opt_str(date))),
    {
        let ghost pred = up_to(opt_str(date));
        let mut out: Vec<Entry> = Vec::new();
        let n = self.entries.len();
        let mut j: usize = 0;
        while j < n
            invariant
                n == self.entries@.len(),
                j <= n,
                pred == up_to(opt_str(date)),
                out@ == self.entries@.take(j as int).filter(pred),
            decreases n - j,
        {
            proof {
                assert(self.entries@.take(j + 1) =~= self.entries@.take(j as int).push(
                    self.entries@[j as int],
                ));
                self.entries@.take(j as int).lemma_filter_push(self.entries@[j as int], pred);
            }
            let keep = match date {
                Some(d) => !str_lt(d, self.entries[j].date.as_str()),
                None => true,
            };
            if keep {
                out.push(self.entries[j].clone());
            }
            j = j + 1;
        }
        proof {
            assert(self.entries@.take(n as int) =~= self.entries@);
        }
        out
    }

    /// Accounts with their balances derived from the entries dated on or
    /// before `up_to_date` (all entries without one), in listing order.
    pub fn accounts_with_balances(&self, include_archived: bool, up_to_date: Option<&str>) -> (r: Result<
        Vec<AccountBalance>,
    >)
        ensures
            r matches Ok(v) && balances_listed(
                account_listing(self.accounts_view(), include_archived),
                self.entries_view().filter(up_to(opt_str(up_to_date))),
                v@,
            ),
    {
        let accounts = self.raw_accounts(include_archived)?;
        let entries = self.scoped_entries(up_to_date);
        Ok(derive_balances(accounts.as_slice(), entries.as_slice()))
    }

    /// Accounts with their current balances, in listing order.
    pub fn list_accounts(&self, include_archived: bool) -> (r: Result<Vec<AccountBalance>>)
        ensures
            r matches Ok(v) && balances_listed(
                account_listing(self.accounts_view(), include_archived),
                self.entries_view(),
                v@,
            ),
    {
        let r = self.accounts_with_balances(include_archived, None);
        proof {
            lemma_filter_keeps_all(self.entries@, up_to(opt_str(None)));
        }
        r
    }

    /// One account with its current balance.
    fn balance_of_row(&self, i: usize) -> (r: AccountBalance)
        requires
            i < self.accounts@.len(),
        ensures
            with_balance(self.accounts@[i as int], r, balance_in(self.entries@, self.accounts@[i as int].id)),
    {
        let a = &self.accounts[i];
        let balance = balance_over(self.entries.as_slice(), a.id);
        AccountBalance {
            id: a.id,
            name: a.name.clone(),
            kind: a.kind,
            target_amount: a.target_amount,
            credit_limit: a.credit_limit,
            liquid: a.liquid,
            archived: a.archived,
            balance,
        }
    }

    /// Account `id` with its current balance.
    pub fn get_account(&self, id: i64) -> (r: Result<AccountBalance>)
        ensures
            account_with(self.accounts_view(), id) matches Some(a) ==> (r matches Ok(b) && with_balance(
                a,
                b,
                balance_in(self.entries_view(), id),
            )),
            account_with(self.accounts_view(), id) is None ==> (r matches Err(e) && e is NotFound),
    {
        proof {
            lemma_account_with(self.accounts@, id);
        }
        match self.find_account_id(id) {
            Some(i) => Ok(self.balance_of_row(i)),
            None => Err(
                AppError::NotFound(
                    concat(
                        concat("Account #", crate::text::fmt_i64(id).as_str()).as_str(),
                        " not found",
                    ),
                ),
            ),
        }
    }

    /// The account named `name` with its current balance, if any.
    pub fn find_account_by_name(&self, name: &str) -> (r: Result<Option<AccountBalance>>)
        ensures
            r matches Ok(o) && (o is Some <==> has_key(self.accounts_view(), name@)) && (o matches Some(
                b,
            ) ==> exists|i: int|
                0 <= i < self.accounts_view().len() && #[trigger] self.accounts_view()[i].name@ == name@
                    && with_balance(
                    self.accounts_view()[i],
                    b,
                    balance_in(self.entries_view(), self.accounts_view()[i].id),
                )),
    {
        match find_key(&self.accounts, name) {
            Some(i) => {
                let b = self.balance_of_row(i);
                proof {
                    assert(self.accounts@[i as int].name@ == name@);
                    assert(self.accounts_view()[i as int].name@ == name@);
                    assert(has_key(self.accounts_view(), name@));
                }
                Ok(Some(b))
            },
            None => Ok(None),
        }
    }

    /// The account named `name` with its current balance.
    pub fn require_account_by_name(&self, name: &str) -> (r: Result<AccountBalance>)
        ensures
            r is Ok <==> has_key(self.accounts_view(), name@),
            r matches Ok(b) ==> exists|i: int|
                0 <= i < self.accounts_view().len() && #[trigger] self.accounts_view()[i].name@ == name@
                    && with_balance(
                    self.accounts_view()[i],
                    b,
                    balance_in(self.entries_view(), self.accounts_view()[i].id),
                ),
            r matches Err(e) ==> e is NotFound,
    {
        match self.find_account_by_name(name)? {
            Some(b) => Ok(b),
            None => Err(
                AppError::NotFound(
                    concat(concat("Account '", name).as_str(), "' not found"),
                ),
            ),
        }
    }

    /// The active emergency fund with its current balance, if there is one.
    pub fn emergency_account(&self) -> (r: Result<Option<AccountBalance>>)
        requires
            self.wf(),
        ensures
            r matches Ok(o) && (o is Some <==> has_active_emergency(self.accounts_view())) && (o matches Some(
                b,
            ) ==> exists|i: int|
                0 <= i < self.accounts_view().len() && #[trigger] self.accounts_view()[i].kind
                    == AccountKind::Emergency && !self.accounts_view()[i].archived && with_balance(
                    self.accounts_view()[i],
                    b,
                    balance_in(self.entries_view(), self.accounts_view()[i].id),
                )),
    {
        match self.find_active_emergency() {
            Some(i) => {
                let b = self.balance_of_row(i);
                proof {
                    assert(self.accounts@[i as int].kind == AccountKind::Emergency);
                    assert(self.accounts_view()[i as int].kind == AccountKind::Emergency);
                }
                Ok(Some(b))
            },
            None => Ok(None),
        }
    }

    /// Archives account `id`. An account that still holds money is only
    /// archived when `force` is set, since archiving would hide the money.
    pub fn archive_account(&mut self, id: i64, force: bool) -> (r: Result<()>)
        requires
            old(self).wf(),
        ensures
            final(self).wf(),
            account_with(old(self).accounts_view(), id) is None ==> (r matches Err(e) && e is NotFound),
            account_with(old(self).accounts_view(), id) is Some && !force && has_balance(
                old(self).entries_view(),
                id,
            ) ==> (r matches Err(e) && e is Invalid),
            r is Ok <==> account_with(old(self).accounts_view(), id) is Some && (force || !has_balance(
                old(self).entries_view(),
                id,
            )),
            r is Ok ==> final(self).accounts_view().len() == old(self).accounts_view().len() && forall|k: int|
                0 <= k < old(self).accounts_view().len() ==> archived_if(
                    old(self).accounts_view()[k],
                    id,
                    #[trigger] final(self).accounts_view()[k],
                ),
            r is Err ==> final(self).accounts_view() == old(self).accounts_view(),
            final(self).entries_view() == old(self).entries_view(),
            final(self).concepts_view() == old(self).concepts_view(),
            final(self).budgets_view() == old(self).budgets_view(),
            final(self).config_view() == old(self).config_view(),
            final(self).last_entry_id() == old(self).last_entry_id(),
            final(self).last_account_id() == old(self).last_account_id(),
            final(self).mirror_cursor() == old(self).mirror_cursor(),
    {
        let account = self.get_account(id)?;
        if !force && account.balance != 0 {
            proof {
                lemma_balance_bound(self.entries@, id);
                assert(self.entries@.len() * amount_bound() <= entry_capacity() * amount_bound())
                    by (nonlinear_arith)
                    requires
                        self.entries@.len() <= entry_capacity(),
                ;
            }
            let msg = concat(
                concat(
                    concat(concat("'", account.name.as_str()).as_str(), "' has a balance of $").as_str(),
                    money_text(account.balance).as_str(),
                ).as_str(),
                ". Empty it first or pass --force",
            );
            return Err(AppError::Invalid(msg));
        }
        self.set_archived(id)
    }

    /// The balance of account `id` over the entries dated on or before
    /// `date`.
    pub fn balance_as_of(&self, id: i64, date: &str) -> (r: Result<i128>)
        ensures
            r matches Ok(b) && b == balance_in(self.entries_view().filter(up_to(Some(date@))), id),
    {
        let entries = self.scoped_entries(Some(date));
        Ok(balance_over(entries.as_slice(), id))
    }

    /// Whether the store holds any entry.
    pub fn is_seeded(&self) -> (r: Result<bool>)
        ensures
            r matches Ok(b) && b == (self.entries_view().len() > 0),
    {
        Ok(self.entries.len() > 0)
    }


    /// The stored entries dated within period `p`, newest first.
    pub fn period_entries(&self, p: &Period) -> (r: Vec<Entry>)
        requires
            MIN_YEAR <= p.year_of() <= 9999,
        ensures
            r@ == self.entries_view().filter(in_period(*p)),
    {
        let start = p.start();
        let end = p.end_exclusive();
        let ghost pred = in_period(*p);
        let mut out: Vec<Entry> = Vec::new();
        let n = self.entries.len();
        let mut j: usize = 0;
        while j < n
            invariant
                n == self.entries@.len(),
                j <= n,
                pred == in_period(*p),
                start@ == period_start(*p),
                end@ == period_end(*p),
                out@ == self.entries@.take(j as int).filter(pred),
            decreases n - j,
        {
            proof {
                assert(self.entries@.take(j + 1) =~= self.entries@.take(j as int).push(
                    self.entries@[j as int],
                ));
                self.entries@.take(j as int).lemma_filter_push(self.entries@[j as int], pred);
            }
            let d = self.entries[j].date.as_str();
            if !str_lt(d, start.as_str()) && str_lt(d, end.as_str()) {
                out.push(self.entries[j].clone());
            }
            j = j + 1;
        }
        proof {
            assert(self.entries@.take(n as int) =~= self.entries@);
        }
        out
    }

    /// Every stored concept has one of the three concept types, and the
    /// concept counter is not negative.
    pub proof fn lemma_concept_types(&self)
        requires
            self.wf(),
        ensures
            forall|i: int|
                0 <= i < self.concepts_view().len() ==> is_concept_type(
                    #[trigger] self.concepts_view()[i].concept_type@,
                ),
            0 <= self.concept_counter(),
            sorted_by_key(self.concepts_view()),
    {
    }

    /// The store's size limits hold.
    pub proof fn lemma_capacity(&self)
        requires
            self.wf(),
        ensures
            self.accounts_view().len() <= account_capacity(),
            self.entries_view().len() <= entry_capacity(),
            account_ids_distinct(self.accounts_view()),
            one_active_emergency(self.accounts_view()),
            entry_ids_distinct(self.entries_view()),
            0 <= self.last_entry_id() <= i64::MAX,
            0 <= self.last_account_id() <= i64::MAX,
            i64::MIN <= self.mirror_cursor() <= i64::MAX,
            sorted_by_key(self.accounts_view()),
            sorted_by_key(self.config_view()),
            budgets_ordered(self.budgets_view()),
            forall|k: Seq<char>, v1: Seq<char>, v2: Seq<char>|
                config_has(self.config_view(), k, v1) && config_has(self.config_view(), k, v2) ==> v1
                    == v2,
            forall|k: Seq<char>|
                has_key(self.config_view(), k) <==> exists|v: Seq<char>| config_has(self.config_view(), k, v),
    {
        assert forall|k: Seq<char>, v1: Seq<char>, v2: Seq<char>|
            config_has(self.config_view(), k, v1) && config_has(self.config_view(), k, v2) implies v1
            == v2 by {
            let i = choose|i: int|
                0 <= i < self.config@.len() && self.config@[i].key@ == k && self.config@[i].value@ == v1;
            let j = choose|j: int|
                0 <= j < self.config@.len() && self.config@[j].key@ == k && self.config@[j].value@ == v2;
            crate::storage::table::lemma_key_unique(self.config@, i, j);
        }
        assert forall|k: Seq<char>| has_key(self.config_view(), k) implies exists|v: Seq<char>|
            config_has(self.config_view(), k, v) by {
            let i = choose|i: int| 0 <= i < self.config@.len() && self.config@[i].key_view() == k;
            assert(config_has(self.config@, k, self.config@[i].value@));
        }
        assert forall|k: Seq<char>| (exists|v: Seq<char>| config_has(self.config_view(), k, v)) implies has_key(
            self.config_view(),
            k,
        ) by {
            let v = choose|v: Seq<char>| config_has(self.config_view(), k, v);
            let i = choose|i: int|
                0 <= i < self.config@.len() && self.config@[i].key@ == k && self.config@[i].value@ == v;
            assert(self.config@[i].key_view() == k);
        }
    }

    /// A fresh, empty store: no accounts, entries or budgets; the seed
    /// concepts; and an emergency split of 10%.
    pub fn open_memory() -> (r: Result<MemoryBackend>)
        ensures
            r matches Ok(s) && s.wf() && s.accounts_view().len() == 0 && s.entries_view().len() == 0
                && s.budgets_view().len() == 0 && s.mirror_cursor() == 0 && s.last_entry_id() == 0
                && s.last_account_id() == 0 && s.config_view().len() == 1 && s.config_view()[0].key@
                == "emergency_pct"@ && s.config_view()[0].value@ == "10"@ && (forall|i: int|
                0 <= i < seed_concepts().len() ==> has_key(s.concepts_view(), #[trigger] seed_concepts()[i].0))
                && (forall|k: int|
                0 <= k < s.concepts_view().len() ==> exists|i: int|
                    0 <= i < seed_concepts().len() && #[trigger] s.concepts_view()[k].name@ == seed_concepts()[i].0
                        && s.concepts_view()[k].concept_type@ == seed_concepts()[i].1),
    {
        let mut s = MemoryBackend {
            accounts: Vec::new(),
            entries: Vec::new(),
            concepts: Vec::new(),
            budgets: Vec::new(),
            config: Vec::new(),
            last_account_id: 0,
            last_entry_id: 0,
            last_concept_id: 0,
            last_budget_id: 0,
            mirror_revision: 0,
        };
        s.seed_concept("Discrecional", "expense");
        s.seed_concept("Transporte", "expense");
        s.seed_concept("Servicios", "expense");
        s.seed_concept("Alimentos", "expense");
        s.seed_concept("Extraordinario", "expense");
        s.seed_concept("Sandbox Inversión", "expense");
        s.seed_concept("Nomina", "income");
        s.seed_concept("Vales de Despensa", "income");
        s.seed_concept("Ahorro Patronal", "income");
        s.seed_concept("Extra", "income");
        s.config.push(Config { key: owned("emergency_pct"), value: owned("10") });
        Ok(s)
    }
}

} // verus!
