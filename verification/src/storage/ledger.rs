//! Pure money math. Nothing here touches storage, time or I/O: every
//! function maps accounts + entries (and budgets) into balances and report
//! shapes, so any store produces identical numbers by construction.
use vstd::prelude::*;

use crate::models::{
    Account, AccountBalance, AccountKind, Budget, Entry, EntryKind, debt_of, entry_delta,
};
use crate::period::{next_month_start, Period, MIN_YEAR};
use crate::services::report_service::{MonthlyReport, NetWorth};
use crate::storage::grouping::{
    budget_lines, budget_lines_of, by_total_desc, concept_summaries, covers_concepts,
    distinct_concepts, is_group,
};
use crate::text::{seq_lt, str_lt};

verus! {

/// 2^63: no single amount or delta exceeds it in magnitude.
pub open spec fn amount_bound() -> int {
    0x8000_0000_0000_0000
}

/// Balance of account `id` over `entries`: the sum of each entry's delta.
pub open spec fn balance_in(entries: Seq<Entry>, id: i64) -> int
    decreases entries.len(),
{
    if entries.len() == 0 {
        0
    } else {
        balance_in(entries.drop_last(), id) + entry_delta(entries.last(), id)
    }
}

/// One entry moves an account's balance by at most the largest amount.
pub proof fn lemma_delta_bound(e: Entry, id: i64)
    ensures
        -amount_bound() <= entry_delta(e, id) <= amount_bound(),
{
}

/// Extending a prefix by one element adds that element's delta.
pub proof fn lemma_balance_step(entries: Seq<Entry>, id: i64, j: int)
    requires
        0 <= j < entries.len(),
    ensures
        balance_in(entries.take(j + 1), id) == balance_in(entries.take(j), id) + entry_delta(
            entries[j],
            id,
        ),
{
    assert(entries.take(j + 1).drop_last() =~= entries.take(j));
}

/// Placing one more entry anywhere in the list adds its delta.
pub proof fn lemma_balance_insert(entries: Seq<Entry>, p: int, x: Entry, id: i64)
    requires
        0 <= p <= entries.len(),
    ensures
        balance_in(entries.insert(p, x), id) == balance_in(entries, id) + entry_delta(x, id),
    decreases entries.len(),
{
    if p == entries.len() {
        assert(entries.insert(p, x).drop_last() =~= entries);
    } else {
        lemma_balance_insert(entries.drop_last(), p, x, id);
        assert(entries.insert(p, x).drop_last() =~= entries.drop_last().insert(p, x));
    }
}

/// A balance over `n` entries stays within `n` amounts.
pub proof fn lemma_balance_bound(entries: Seq<Entry>, id: i64)
    ensures
        -(entries.len() * amount_bound()) <= balance_in(entries, id) <= entries.len() * amount_bound(),
    decreases entries.len(),
{
    if entries.len() > 0 {
        lemma_balance_bound(entries.drop_last(), id);
        lemma_delta_bound(entries.last(), id);
        assert((entries.len() - 1) * amount_bound() + amount_bound() == entries.len()
            * amount_bound()) by (nonlinear_arith);
    }
}

/// Sums the deltas of every entry on account `id`.
pub fn balance_over(entries: &[Entry], id: i64) -> (r: i128)
    ensures
        r == balance_in(entries@, id),
{
    let mut sum: i128 = 0;
    let n = entries.len();
    let mut j: usize = 0;
    while j < n
        invariant
            n == entries@.len(),
            j <= n,
            sum == balance_in(entries@.take(j as int), id),
            -(j as int) * amount_bound() <= sum <= (j as int) * amount_bound(),
        decreases n - j,
    {
        proof {
            lemma_balance_step(entries@, id, j as int);
            lemma_delta_bound(entries@[j as int], id);
            assert((j as int + 1) * amount_bound() <= 0xffff_ffff_ffff_ffff * amount_bound())
                by (nonlinear_arith)
                requires
                    j < 0xffff_ffff_ffff_ffff,
            ;
        }
        sum = sum + entries[j].delta_for(id);
        j = j + 1;
    }
    assert(entries@.take(n as int) =~= entries@);
    sum
}

/// `b` is account `a` with `balance` attached.
pub open spec fn with_balance(a: Account, b: AccountBalance, balance: int) -> bool {
    &&& b.id == a.id
    &&& b.name == a.name
    &&& b.kind == a.kind
    &&& b.target_amount == a.target_amount
    &&& b.credit_limit == a.credit_limit
    &&& b.liquid == a.liquid
    &&& b.archived == a.archived
    &&& b.balance == balance
}

/// Derives every account's balance from the entry list. `entries` must
/// already be scoped (all entries, or only those up to some date).
pub fn derive_balances(accounts: &[Account], entries: &[Entry]) -> (r: Vec<AccountBalance>)
    ensures
        r@.len() == accounts@.len(),
        forall|i: int|
            0 <= i < accounts@.len() ==> with_balance(
                accounts@[i],
                #[trigger] r@[i],
                balance_in(entries@, accounts@[i].id),
            ),
{
    let mut out: Vec<AccountBalance> = Vec::new();
    let n = accounts.len();
    let mut i: usize = 0;
    while i < n
        invariant
            n == accounts@.len(),
            i <= n,
            out@.len() == i,
            forall|k: int|
                0 <= k < i ==> with_balance(
                    accounts@[k],
                    #[trigger] out@[k],
                    balance_in(entries@, accounts@[k].id),
                ),
        decreases n - i,
    {
        let a = &accounts[i];
        let balance = balance_over(entries, a.id);
        out.push(
            AccountBalance {
                id: a.id,
                name: a.name.clone(),
                kind: a.kind,
                target_amount: a.target_amount,
                credit_limit: a.credit_limit,
                liquid: a.liquid,
                archived: a.archived,
                balance,
            },
        );
        i = i + 1;
    }
    out
}

// ---------------------------------------------------------------------------
// Net worth.
// ---------------------------------------------------------------------------

/// Sum of the balances of the accounts whose kind satisfies `p`.
pub open spec fn sum_balances(accounts: Seq<AccountBalance>, p: spec_fn(AccountKind) -> bool) -> int
    decreases accounts.len(),
{
    if accounts.len() == 0 {
        0
    } else {
        sum_balances(accounts.drop_last(), p) + if p(accounts.last().kind) {
            accounts.last().balance as int
        } else {
            0
        }
    }
}

/// Sum of the debts the accounts carry.
pub open spec fn sum_debts(accounts: Seq<AccountBalance>) -> int
    decreases accounts.len(),
{
    if accounts.len() == 0 {
        0
    } else {
        sum_debts(accounts.drop_last()) + debt_of(
            accounts.last().kind,
            accounts.last().balance as int,
        )
    }
}

/// Sum of the balances' magnitudes.
pub open spec fn abs_total(accounts: Seq<AccountBalance>) -> int
    decreases accounts.len(),
{
    if accounts.len() == 0 {
        0
    } else {
        abs_total(accounts.drop_last()) + if accounts.last().balance >= 0 {
            accounts.last().balance as int
        } else {
            -(accounts.last().balance as int)
        }
    }
}

/// Spending accounts.
pub open spec fn is_spending(k: AccountKind) -> bool {
    k == AccountKind::Spending
}

/// Savings accounts: emergency funds and targets.
pub open spec fn is_savings(k: AccountKind) -> bool {
    k == AccountKind::Emergency || k == AccountKind::Target
}

proof fn lemma_abs_total_mono(accounts: Seq<AccountBalance>, j: int)
    requires
        0 <= j <= accounts.len(),
    ensures
        abs_total(accounts.take(j)) <= abs_total(accounts),
        0 <= abs_total(accounts.take(j)),
    decreases accounts.len() - j,
{
    if j < accounts.len() {
        lemma_abs_total_mono(accounts, j + 1);
        assert(accounts.take(j + 1).drop_last() =~= accounts.take(j));
        lemma_abs_total_nonneg(accounts.take(j));
    } else {
        assert(accounts.take(j) =~= accounts);
        lemma_abs_total_nonneg(accounts);
    }
}

proof fn lemma_abs_total_nonneg(accounts: Seq<AccountBalance>)
    ensures
        0 <= abs_total(accounts),
    decreases accounts.len(),
{
    if accounts.len() > 0 {
        lemma_abs_total_nonneg(accounts.drop_last());
    }
}

/// Balances partitioned by kind: cash on hand (spending), savings
/// (emergency + target), credit debt, and the net of the three.
pub fn net_worth(accounts: &[AccountBalance]) -> (r: NetWorth)
    requires
        abs_total(accounts@) <= i128::MAX,
    ensures
        r.accounts@ == accounts@,
        r.cash_on_hand == sum_balances(accounts@, |k: AccountKind| is_spending(k)),
        r.savings == sum_balances(accounts@, |k: AccountKind| is_savings(k)),
        r.credit_debt == sum_debts(accounts@),
        r.net == r.cash_on_hand + r.savings - r.credit_debt,
{
    let ghost spend = |k: AccountKind| is_spending(k);
    let ghost save = |k: AccountKind| is_savings(k);
    let mut cash: i128 = 0;
    let mut savings: i128 = 0;
    let mut debt: i128 = 0;
    let mut copy: Vec<AccountBalance> = Vec::new();
    let n = accounts.len();
    let mut j: usize = 0;
    while j < n
        invariant
            n == accounts@.len(),
            j <= n,
            abs_total(accounts@) <= i128::MAX,
            copy@ == accounts@.take(j as int),
            cash == sum_balances(accounts@.take(j as int), spend),
            savings == sum_balances(accounts@.take(j as int), save),
            debt == sum_debts(accounts@.take(j as int)),
            spend == (|k: AccountKind| is_spending(k)),
            save == (|k: AccountKind| is_savings(k)),
            (if cash >= 0 {
                cash as int
            } else {
                -cash
            }) + (if savings >= 0 {
                savings as int
            } else {
                -savings
            }) + debt <= abs_total(accounts@.take(j as int)),
            0 <= debt,
        decreases n - j,
    {
        let a = &accounts[j];
        proof {
            assert(accounts@.take(j + 1).drop_last() =~= accounts@.take(j as int));
            lemma_abs_total_mono(accounts@, j + 1);
        }
        if a.kind == AccountKind::Spending {
            cash = cash + a.balance;
        }
        if a.kind == AccountKind::Emergency || a.kind == AccountKind::Target {
            savings = savings + a.balance;
        }
        if a.kind == AccountKind::Credit && a.balance < 0 {
            debt = debt - a.balance;
        }
        copy.push(a.clone());
        j = j + 1;
    }
    proof {
        assert(accounts@.take(n as int) =~= accounts@);
    }
    NetWorth {
        accounts: copy,
        cash_on_hand: cash,
        savings,
        credit_debt: debt,
        net: cash + savings - debt,
    }
}

// ---------------------------------------------------------------------------
// Classifying entries for the monthly report.
// ---------------------------------------------------------------------------

/// The kind of account `id`; when several accounts share the id, the last
/// one listed wins.
pub open spec fn kind_in(accounts: Seq<Account>, id: i64) -> Option<AccountKind>
    decreases accounts.len(),
{
    if accounts.len() == 0 {
        None
    } else if accounts.last().id == id {
        Some(accounts.last().kind)
    } else {
        kind_in(accounts.drop_last(), id)
    }
}

/// The kind of the account on one side of an entry, if it has that side
/// and the account is listed.
pub open spec fn side_kind(accounts: Seq<Account>, side: Option<i64>) -> Option<AccountKind> {
    match side {
        Some(id) => kind_in(accounts, id),
        None => None,
    }
}

/// The kind is known and satisfies `f`.
pub open spec fn kind_is(k: Option<AccountKind>, f: spec_fn(AccountKind) -> bool) -> bool {
    match k {
        Some(k) => f(k),
        None => false,
    }
}

/// `start <= date < end`, comparing the texts.
pub open spec fn in_range(date: Seq<char>, start: Seq<char>, end: Seq<char>) -> bool {
    !seq_lt(date, start) && seq_lt(date, end)
}

/// The concept an expense is grouped under ("" when it has none).
pub open spec fn concept_key(e: Entry) -> Seq<char> {
    match e.concept {
        Some(c) => c@,
        None => Seq::empty(),
    }
}

/// Credit accounts.
pub open spec fn is_credit(k: AccountKind) -> bool {
    k == AccountKind::Credit
}

/// Sum of the amounts of the entries satisfying `p`.
pub open spec fn sum_amounts(entries: Seq<Entry>, p: spec_fn(Entry) -> bool) -> int
    decreases entries.len(),
{
    if entries.len() == 0 {
        0
    } else {
        sum_amounts(entries.drop_last(), p) + if p(entries.last()) {
            entries.last().amount as int
        } else {
            0
        }
    }
}

/// Number of entries satisfying `p`.
pub open spec fn count_where(entries: Seq<Entry>, p: spec_fn(Entry) -> bool) -> nat
    decreases entries.len(),
{
    if entries.len() == 0 {
        0
    } else {
        count_where(entries.drop_last(), p) + if p(entries.last()) {
            1nat
        } else {
            0nat
        }
    }
}

/// Extending a prefix by one entry adds its amount when it satisfies `p`.
pub proof fn lemma_sum_step(entries: Seq<Entry>, p: spec_fn(Entry) -> bool, j: int)
    requires
        0 <= j < entries.len(),
    ensures
        sum_amounts(entries.take(j + 1), p) == sum_amounts(entries.take(j), p) + if p(
            entries[j],
        ) {
            entries[j].amount as int
        } else {
            0
        },
        count_where(entries.take(j + 1), p) == count_where(entries.take(j), p) + if p(
            entries[j],
        ) {
            1nat
        } else {
            0nat
        },
{
    assert(entries.take(j + 1).drop_last() =~= entries.take(j));
}

/// What entry `e` adds to a sum over `p`.
pub open spec fn counted(e: Entry, p: spec_fn(Entry) -> bool) -> int {
    if p(e) {
        e.amount as int
    } else {
        0
    }
}

/// Inserting an entry anywhere adds what it counts for.
pub proof fn lemma_sum_insert(entries: Seq<Entry>, i: int, x: Entry, p: spec_fn(Entry) -> bool)
    requires
        0 <= i <= entries.len(),
    ensures
        sum_amounts(entries.insert(i, x), p) == sum_amounts(entries, p) + counted(x, p),
    decreases entries.len(),
{
    if i == entries.len() {
        assert(entries.insert(i, x).drop_last() =~= entries);
    } else {
        lemma_sum_insert(entries.drop_last(), i, x, p);
        assert(entries.insert(i, x).drop_last() =~= entries.drop_last().insert(i, x));
    }
}

/// A sum over entries depends only on which entries there are, not on
/// their order.
pub proof fn lemma_sum_same_multiset(a: Seq<Entry>, b: Seq<Entry>, p: spec_fn(Entry) -> bool)
    requires
        a.to_multiset() == b.to_multiset(),
    ensures
        sum_amounts(a, p) == sum_amounts(b, p),
    decreases a.len(),
{
    broadcast use vstd::seq_lib::group_to_multiset_ensures;

    if a.len() == 0 {
        assert(b.to_multiset().len() == 0);
        assert(b.len() == 0);
    } else {
        let x = a.last();
        let rest = a.drop_last();
        assert(rest.push(x) =~= a);
        assert(a.to_multiset() == rest.to_multiset().insert(x));
        assert(a.to_multiset().count(x) > 0);
        assert(b.contains(x));
        let i = choose|i: int| 0 <= i < b.len() && b[i] == x;
        let b2 = b.remove(i);
        assert(b2.to_multiset() == b.to_multiset().remove(x));
        assert(rest.to_multiset() =~= a.to_multiset().remove(x));
        lemma_sum_same_multiset(rest, b2, p);
        assert(b2.insert(i, x) =~= b);
        lemma_sum_insert(b2, i, x, p);
    }
}

/// Summing the entries of `a` that pass `q` over `p` is summing `a` over
/// both tests at once.
pub proof fn lemma_sum_filtered(a: Seq<Entry>, q: spec_fn(Entry) -> bool, p: spec_fn(Entry) -> bool)
    ensures
        sum_amounts(a.filter(q), p) == sum_amounts(a, |e: Entry| q(e) && p(e)),
    decreases a.len(),
{
    if a.len() > 0 {
        let rest = a.drop_last();
        lemma_sum_filtered(rest, q, p);
        assert(rest.push(a.last()) =~= a);
        rest.lemma_filter_push(a.last(), q);
        if q(a.last()) {
            assert(rest.filter(q).push(a.last()).drop_last() =~= rest.filter(q));
        }
    }
}

/// Appending entries that `p` does not count leaves the sum over `p`.
pub proof fn lemma_sum_append_uncounted(a: Seq<Entry>, rows: Seq<Entry>, p: spec_fn(Entry) -> bool)
    requires
        forall|k: int| 0 <= k < rows.len() ==> !p(#[trigger] rows[k]),
    ensures
        sum_amounts(a + rows, p) == sum_amounts(a, p),
    decreases rows.len(),
{
    if rows.len() > 0 {
        lemma_sum_append_uncounted(a, rows.drop_last(), p);
        assert((a + rows).drop_last() =~= a + rows.drop_last());
        assert(!p(rows[rows.len() - 1]));
    }
}

/// Entries of kind `k` dated within [start, end).
pub open spec fn dated(start: Seq<char>, end: Seq<char>, k: EntryKind) -> spec_fn(Entry) -> bool {
    |e: Entry| in_range(e.date@, start, end) && e.kind == k
}

/// Expenses within [start, end) paid from an account whose kind satisfies `f`.
pub open spec fn expense_from(
    start: Seq<char>,
    end: Seq<char>,
    accounts: Seq<Account>,
    f: spec_fn(AccountKind) -> bool,
) -> spec_fn(Entry) -> bool {
    |e: Entry|
        in_range(e.date@, start, end) && e.kind == EntryKind::Expense && kind_is(
            side_kind(accounts, e.from_account_id),
            f,
        )
}

/// Transfers within [start, end) from a `f_from` account to a `f_to` one.
pub open spec fn transfer_between(
    start: Seq<char>,
    end: Seq<char>,
    accounts: Seq<Account>,
    f_from: spec_fn(AccountKind) -> bool,
    f_to: spec_fn(AccountKind) -> bool,
) -> spec_fn(Entry) -> bool {
    |e: Entry|
        in_range(e.date@, start, end) && e.kind == EntryKind::Transfer && kind_is(
            side_kind(accounts, e.from_account_id),
            f_from,
        ) && kind_is(side_kind(accounts, e.to_account_id), f_to)
}

/// Expenses within [start, end) grouped under concept `key`.
pub open spec fn expense_under(start: Seq<char>, end: Seq<char>, key: Seq<char>) -> spec_fn(
    Entry,
) -> bool {
    |e: Entry| in_range(e.date@, start, end) && e.kind == EntryKind::Expense && concept_key(e) == key
}

/// `is_spending` as a predicate value.
pub open spec fn spending_kind() -> spec_fn(AccountKind) -> bool {
    |k: AccountKind| is_spending(k)
}

/// `is_savings` as a predicate value.
pub open spec fn savings_kind() -> spec_fn(AccountKind) -> bool {
    |k: AccountKind| is_savings(k)
}

/// `is_credit` as a predicate value.
pub open spec fn credit_kind() -> spec_fn(AccountKind) -> bool {
    |k: AccountKind| is_credit(k)
}

/// Absolute value.
pub open spec fn abs(x: int) -> int {
    if x >= 0 {
        x
    } else {
        -x
    }
}

/// The kind of account `id` among `accounts` (last listing wins).
fn kind_of(accounts: &[Account], id: Option<i64>) -> (r: Option<AccountKind>)
    ensures
        r == side_kind(accounts@, id),
{
    match id {
        None => None,
        Some(id) => {
            let mut found: Option<AccountKind> = None;
            let n = accounts.len();
            let mut i: usize = 0;
            while i < n
                invariant
                    n == accounts@.len(),
                    i <= n,
                    found == kind_in(accounts@.take(i as int), id),
                decreases n - i,
            {
                proof {
                    assert(accounts@.take(i + 1).drop_last() =~= accounts@.take(i as int));
                }
                if accounts[i].id == id {
                    found = Some(accounts[i].kind);
                }
                i = i + 1;
            }
            proof {
                assert(accounts@.take(n as int) =~= accounts@);
            }
            found
        },
    }
}

/// The eight flow totals of a month, in cents.
pub struct PeriodTotals {
    pub income: i128,
    pub expense: i128,
    pub expense_cash: i128,
    pub card_payments: i128,
    pub from_savings: i128,
    pub on_credit: i128,
    pub savings_contributions: i128,
    pub savings_withdrawals: i128,
}

/// Every flow total the monthly report needs, over [start, end).
pub fn period_totals(accounts: &[Account], entries: &[Entry], start: &str, end: &str) -> (r:
    PeriodTotals)
    ensures
        r.income == sum_amounts(entries@, dated(start@, end@, EntryKind::Income)),
        r.expense == sum_amounts(entries@, dated(start@, end@, EntryKind::Expense)),
        r.expense_cash == sum_amounts(
            entries@,
            expense_from(start@, end@, accounts@, spending_kind()),
        ),
        r.card_payments == sum_amounts(
            entries@,
            transfer_between(start@, end@, accounts@, spending_kind(), credit_kind()),
        ),
        r.from_savings == sum_amounts(
            entries@,
            expense_from(start@, end@, accounts@, savings_kind()),
        ),
        r.on_credit == sum_amounts(entries@, expense_from(start@, end@, accounts@, credit_kind())),
        r.savings_contributions == sum_amounts(
            entries@,
            transfer_between(start@, end@, accounts@, spending_kind(), savings_kind()),
        ),
        r.savings_withdrawals == sum_amounts(
            entries@,
            transfer_between(start@, end@, accounts@, savings_kind(), spending_kind()),
        ),
        abs(r.income as int) + abs(r.expense as int) <= i128::MAX,
        abs(r.expense_cash as int) + abs(r.card_payments as int) <= i128::MAX,
{
    let ghost s = start@;
    let ghost t = end@;
    let ghost inc = dated(s, t, EntryKind::Income);
    let ghost exp = dated(s, t, EntryKind::Expense);
    let ghost cash = expense_from(s, t, accounts@, spending_kind());
    let ghost card = transfer_between(s, t, accounts@, spending_kind(), credit_kind());
    let ghost sav = expense_from(s, t, accounts@, savings_kind());
    let ghost cred = expense_from(s, t, accounts@, credit_kind());
    let ghost deposit = transfer_between(s, t, accounts@, spending_kind(), savings_kind());
    let ghost withdraw = transfer_between(s, t, accounts@, savings_kind(), spending_kind());
    let mut r = PeriodTotals {
        income: 0,
        expense: 0,
        expense_cash: 0,
        card_payments: 0,
        from_savings: 0,
        on_credit: 0,
        savings_contributions: 0,
        savings_withdrawals: 0,
    };
    let n = entries.len();
    let mut j: usize = 0;
    while j < n
        invariant
            n == entries@.len(),
            j <= n,
            s == start@,
            t == end@,
            inc == dated(s, t, EntryKind::Income),
            exp == dated(s, t, EntryKind::Expense),
            cash == expense_from(s, t, accounts@, spending_kind()),
            card == transfer_between(s, t, accounts@, spending_kind(), credit_kind()),
            sav == expense_from(s, t, accounts@, savings_kind()),
            cred == expense_from(s, t, accounts@, credit_kind()),
            deposit == transfer_between(s, t, accounts@, spending_kind(), savings_kind()),
            withdraw == transfer_between(s, t, accounts@, savings_kind(), spending_kind()),
            r.income == sum_amounts(entries@.take(j as int), inc),
            r.expense == sum_amounts(entries@.take(j as int), exp),
            r.expense_cash == sum_amounts(entries@.take(j as int), cash),
            r.card_payments == sum_amounts(entries@.take(j as int), card),
            r.from_savings == sum_amounts(entries@.take(j as int), sav),
            r.on_credit == sum_amounts(entries@.take(j as int), cred),
            r.savings_contributions == sum_amounts(entries@.take(j as int), deposit),
            r.savings_withdrawals == sum_amounts(entries@.take(j as int), withdraw),
            abs(r.income as int) + abs(r.expense as int) <= (j as int) * amount_bound(),
            abs(r.expense_cash as int) + abs(r.card_payments as int) <= (j as int)
                * amount_bound(),
            abs(r.from_savings as int) <= (j as int) * amount_bound(),
            abs(r.on_credit as int) <= (j as int) * amount_bound(),
            abs(r.savings_contributions as int) <= (j as int) * amount_bound(),
            abs(r.savings_withdrawals as int) <= (j as int) * amount_bound(),
        decreases n - j,
    {
        let e = &entries[j];
        proof {
            lemma_sum_step(entries@, inc, j as int);
            lemma_sum_step(entries@, exp, j as int);
            lemma_sum_step(entries@, cash, j as int);
            lemma_sum_step(entries@, card, j as int);
            lemma_sum_step(entries@, sav, j as int);
            lemma_sum_step(entries@, cred, j as int);
            lemma_sum_step(entries@, deposit, j as int);
            lemma_sum_step(entries@, withdraw, j as int);
            assert((j as int + 1) * amount_bound() <= 0xffff_ffff_ffff_ffff * amount_bound())
                by (nonlinear_arith)
                requires
                    j < 0xffff_ffff_ffff_ffff,
            ;
        }
        let amount = e.amount as i128;
        let inside = !str_lt(e.date.as_str(), start) && str_lt(e.date.as_str(), end);
        if inside {
            let from = kind_of(accounts, e.from_account_id);
            let to = kind_of(accounts, e.to_account_id);
            match e.kind {
                EntryKind::Income => {
                    r.income = r.income + amount;
                },
                EntryKind::Expense => {
                    r.expense = r.expense + amount;
                    match from {
                        Some(AccountKind::Spending) => {
                            r.expense_cash = r.expense_cash + amount;
                        },
                        Some(AccountKind::Emergency) | Some(AccountKind::Target) => {
                            r.from_savings = r.from_savings + amount;
                        },
                        Some(AccountKind::Credit) => {
                            r.on_credit = r.on_credit + amount;
                        },
                        None => {},
                    }
                },
                EntryKind::Transfer => {
                    match (from, to) {
                        (Some(AccountKind::Spending), Some(AccountKind::Credit)) => {
                            r.card_payments = r.card_payments + amount;
                        },
                        (Some(AccountKind::Spending), Some(AccountKind::Emergency))
                        | (Some(AccountKind::Spending), Some(AccountKind::Target)) => {
                            r.savings_contributions = r.savings_contributions + amount;
                        },
                        (Some(AccountKind::Emergency), Some(AccountKind::Spending))
                        | (Some(AccountKind::Target), Some(AccountKind::Spending)) => {
                            r.savings_withdrawals = r.savings_withdrawals + amount;
                        },
                        _ => {},
                    }
                },
                EntryKind::Opening => {},
            }
        }
        j = j + 1;
    }
    proof {
        assert(entries@.take(n as int) =~= entries@);
        assert((n as int) * amount_bound() <= 0xffff_ffff_ffff_ffff * amount_bound())
            by (nonlinear_arith)
            requires
                n <= 0xffff_ffff_ffff_ffff,
        ;
    }
    r
}

// ---------------------------------------------------------------------------
// The monthly report.
// ---------------------------------------------------------------------------

/// First day of period `p`.
pub open spec fn period_start(p: Period) -> Seq<char> {
    p@ + "-01"@
}

/// First day after period `p`.
pub open spec fn period_end(p: Period) -> Seq<char> {
    next_month_start(p.year_of(), p.month_of())
}

/// `r` is the report of period `p` over `accounts`, `entries` and
/// `budgets`: every flow total of the month, the month's expenses grouped by
/// concept (largest total first; concepts with equal totals in no stated
/// order) and the period's budget lines.
pub open spec fn report_of(
    p: Period,
    accounts: Seq<Account>,
    entries: Seq<Entry>,
    budgets: Seq<Budget>,
    r: MonthlyReport,
) -> bool {
    let s = period_start(p);
    let t = period_end(p);
    &&& r.period@ == p@ && r.period.year_of() == p.year_of() && r.period.month_of() == p.month_of()
    &&& r.total_income == sum_amounts(entries, dated(s, t, EntryKind::Income))
    &&& r.total_expense == sum_amounts(entries, dated(s, t, EntryKind::Expense))
    &&& r.cash_out == sum_amounts(entries, expense_from(s, t, accounts, spending_kind()))
        + r.card_payments
    &&& r.net_flow == r.total_income - r.total_expense
    &&& r.card_payments == sum_amounts(
        entries,
        transfer_between(s, t, accounts, spending_kind(), credit_kind()),
    )
    &&& r.from_savings == sum_amounts(entries, expense_from(s, t, accounts, savings_kind()))
    &&& r.on_credit == sum_amounts(entries, expense_from(s, t, accounts, credit_kind()))
    &&& r.savings_contributions == sum_amounts(
        entries,
        transfer_between(s, t, accounts, spending_kind(), savings_kind()),
    )
    &&& r.savings_withdrawals == sum_amounts(
        entries,
        transfer_between(s, t, accounts, savings_kind(), spending_kind()),
    )
    &&& forall|i: int| 0 <= i < r.by_concept@.len() ==> is_group(entries, s, t, #[trigger] r.by_concept@[i])
    &&& distinct_concepts(r.by_concept@)
    &&& covers_concepts(entries, s, t, r.by_concept@)
    &&& by_total_desc(r.by_concept@)
    &&& budget_lines_of(entries, budgets, p@, s, t, r.budgets@)
}

/// A month's activity, computed purely over the accounts, the entries and
/// the budgets given.
pub fn monthly_report(
    period: &Period,
    accounts: &[Account],
    entries: &[Entry],
    budgets: &[Budget],
) -> (r: MonthlyReport)
    requires
        MIN_YEAR <= period.year_of() <= 9999,
    ensures
        report_of(*period, accounts@, entries@, budgets@, r),
{
    let start = period.start();
    let end = period.end_exclusive();
    let t = period_totals(accounts, entries, start.as_str(), end.as_str());
    let by_concept = concept_summaries(entries, start.as_str(), end.as_str());
    let lines = budget_lines(entries, budgets, period.as_str(), start.as_str(), end.as_str());
    MonthlyReport {
        period: period.clone(),
        total_income: t.income,
        total_expense: t.expense,
        cash_out: t.expense_cash + t.card_payments,
        net_flow: t.income - t.expense,
        by_concept,
        budgets: lines,
        from_savings: t.from_savings,
        on_credit: t.on_credit,
        savings_contributions: t.savings_contributions,
        savings_withdrawals: t.savings_withdrawals,
        card_payments: t.card_payments,
    }
}

} // verus!
