//! Moving a ledger from one store into another. Account ids are the one
//! thing two stores do not share, so entries are re-pointed at the accounts
//! of the same name in the target, and written oldest first so that each
//! withdrawal finds the deposits it depends on already in place.
use vstd::prelude::*;

use crate::error::{error_text, AppError, Result};
use crate::settings::Settings;
use crate::storage::LedgerDelta;
use crate::models::{clone_opt, AccountKind, Entry, EntryFilter, NewAccount, NewEntry};
use crate::storage::memory::{account_listing, of_kind, MemoryBackend};
use crate::storage::memory::{batch_entry_ok, batch_ok_upto, config_has};
use crate::storage::table::{budget_before, has_key, same_budget_key, sorted_by_key, Keyed};
use crate::text::{lemma_seq_lt_irrefl};
use crate::text::{concat, fmt_i64, owned};

verus! {


/// Archiving keeps every name.
proof fn lemma_archive_keeps_keys(old: Seq<crate::models::Account>, new: Seq<crate::models::Account>, id: i64)
    requires
        new.len() == old.len(),
        forall|k: int|
            0 <= k < old.len() ==> crate::storage::memory::archived_if(old[k], id, #[trigger] new[k]),
    ensures
        forall|name: Seq<char>| has_key(old, name) ==> has_key(new, name),
{
    assert forall|name: Seq<char>| has_key(old, name) implies has_key(new, name) by {
        let k = choose|k: int| 0 <= k < old.len() && old[k].name@ == name;
        assert(crate::storage::memory::archived_if(old[k], id, new[k]));
        assert(new[k].name@ == name);
    }
}

/// Inserting a row keeps every name and adds the row's.
proof fn lemma_insert_keeps_keys(old: Seq<crate::models::Account>, new: Seq<crate::models::Account>, p: int)
    requires
        crate::storage::memory::inserted_at(old, new, p),
    ensures
        forall|name: Seq<char>| has_key(old, name) ==> has_key(new, name),
        has_key(new, new[p].name@),
{
    assert forall|name: Seq<char>| has_key(old, name) implies has_key(new, name) by {
        let k = choose|k: int| 0 <= k < old.len() && old[k].name@ == name;
        if k < p {
            assert(new[k] == old[k]);
        } else {
            assert(new[k + 1] == old[k]);
        }
    }
}


/// Every account appears in the full listing.
proof fn lemma_in_listing(accounts: Seq<crate::models::Account>, k: int)
    requires
        0 <= k < accounts.len(),
    ensures
        account_listing(accounts, true).contains(accounts[k]),
{
    let a = accounts[k];
    let c = accounts.filter(of_kind(AccountKind::Credit, true));
    let e = accounts.filter(of_kind(AccountKind::Emergency, true));
    let sp = accounts.filter(of_kind(AccountKind::Spending, true));
    let t = accounts.filter(of_kind(AccountKind::Target, true));
    let l = c + e + sp + t;
    accounts.lemma_filter_contains(of_kind(a.kind, true), k);
    let f = accounts.filter(of_kind(a.kind, true));
    let j = choose|j: int| 0 <= j < f.len() && f[j] == a;
    match a.kind {
        AccountKind::Credit => {
            assert(l[j] == a);
        },
        AccountKind::Emergency => {
            assert(l[c.len() + j] == a);
        },
        AccountKind::Spending => {
            assert(l[c.len() + e.len() + j] == a);
        },
        AccountKind::Target => {
            assert(l[c.len() + e.len() + sp.len() + j] == a);
        },
    }
}

/// Some row of `budgets` has `b`'s concept, period and limit.
pub open spec fn has_budget_row(budgets: Seq<crate::models::Budget>, b: crate::models::Budget) -> bool {
    exists|j: int|
        0 <= j < budgets.len() && same_budget_key(#[trigger] budgets[j], b) && budgets[j].monthly_limit
            == b.monthly_limit
}

/// Budgets in key order have pairwise different keys.
proof fn lemma_budget_keys_differ(a: crate::models::Budget, b: crate::models::Budget)
    requires
        budget_before(a, b),
    ensures
        !same_budget_key(a, b),
{
    lemma_seq_lt_irrefl(a.concept@);
    lemma_seq_lt_irrefl(a.period@);
}

/// Lengths add up when one sequence holds exactly the items of two others.
proof fn lemma_len_from_multiset(a: Seq<Entry>, b: Seq<Entry>, c: Seq<Entry>)
    requires
        a.to_multiset() == b.to_multiset().add(c.to_multiset()),
    ensures
        a.len() == b.len() + c.len(),
{
    broadcast use vstd::multiset::group_multiset_axioms;

    vstd::seq_lib::to_multiset_len(a);
    vstd::seq_lib::to_multiset_len(b);
    vstd::seq_lib::to_multiset_len(c);
    assert(b.to_multiset().add(c.to_multiset()).len() == b.to_multiset().len() + c.to_multiset().len());
}

/// Account `id` of `accounts` bears the name `name`.
pub open spec fn names_account(accounts: Seq<crate::models::Account>, id: i64, name: Seq<char>) -> bool {
    exists|i: int| 0 <= i < accounts.len() && accounts[i].id == id && #[trigger] accounts[i].name@ == name
}

/// Endpoint `there` of a copy points at the account of `to` that bears
/// the name of the account of `from` that endpoint `here` points at.
pub open spec fn same_endpoint(
    from: Seq<crate::models::Account>,
    to: Seq<crate::models::Account>,
    here: Option<i64>,
    there: Option<i64>,
) -> bool {
    match here {
        None => there is None,
        Some(i) => match there {
            Some(j) => exists|n: Seq<char>| names_account(from, i, n) && names_account(to, j, n),
            None => false,
        },
    }
}

/// `x` copies entry `e` of a ledger with accounts `from` into a ledger with
/// accounts `to`: the same date, kind, amount, concept, subconcept and
/// description, pointed at the accounts of the same names.
pub open spec fn copied_entry(
    from: Seq<crate::models::Account>,
    to: Seq<crate::models::Account>,
    e: Entry,
    x: Entry,
) -> bool {
    &&& x.date == e.date
    &&& x.kind == e.kind
    &&& x.amount == e.amount
    &&& x.concept == e.concept
    &&& x.subconcept == e.subconcept
    &&& x.description == e.description
    &&& same_endpoint(from, to, e.from_account_id, x.from_account_id)
    &&& same_endpoint(from, to, e.to_account_id, x.to_account_id)
}

/// Some row of `rows` copies entry `e` of a ledger with accounts `from`
/// into the ledger with accounts `to`.
pub open spec fn copied_into(
    from: Seq<crate::models::Account>,
    to: Seq<crate::models::Account>,
    e: Entry,
    rows: Seq<Entry>,
) -> bool {
    exists|j: int| 0 <= j < rows.len() && copied_entry(from, to, e, #[trigger] rows[j])
}

/// Some row of `rows` is what `b` becomes when stored under that row's id.
spec fn stored_from(rows: Seq<Entry>, b: NewEntry) -> bool {
    exists|j: int| 0 <= j < rows.len() && #[trigger] rows[j] == crate::storage::memory::row_of(b, rows[j].id)
}

/// Pair `m` of `map` links accounts of `from` and `to` that bear the name
/// `names[m]`.
spec fn map_names(
    map: Seq<(i64, i64)>,
    names: Seq<crate::models::Account>,
    from: Seq<crate::models::Account>,
    to: Seq<crate::models::Account>,
    upto: int,
) -> bool {
    forall|m: int|
        0 <= m < upto ==> names_account(from, (#[trigger] map[m]).0, names[m].name@) && names_account(
            to,
            map[m].1,
            names[m].name@,
        )
}

/// The first pair for `id` is a pair of `map`.
proof fn lemma_mapped_pair(map: Seq<(i64, i64)>, id: i64)
    requires
        mapped(map, id) is Some,
    ensures
        exists|m: int| 0 <= m < map.len() && (#[trigger] map[m]).0 == id && map[m].1 == mapped(map, id)->0,
    decreases map.len(),
{
    if map[0].0 == id {
        assert(map[0].1 == mapped(map, id)->0);
    } else {
        lemma_mapped_pair(map.drop_first(), id);
        let m = choose|m: int|
            0 <= m < map.drop_first().len() && (#[trigger] map.drop_first()[m]).0 == id
                && map.drop_first()[m].1 == mapped(map.drop_first(), id)->0;
        assert(map[m + 1] == map.drop_first()[m]);
    }
}

/// Inserting an account keeps the name of every other one.
proof fn lemma_insert_keeps_names(old: Seq<crate::models::Account>, new: Seq<crate::models::Account>, p: int)
    requires
        crate::storage::memory::inserted_at(old, new, p),
    ensures
        forall|id: i64, n: Seq<char>| names_account(old, id, n) ==> names_account(new, id, n),
{
    assert forall|id: i64, n: Seq<char>| names_account(old, id, n) implies names_account(new, id, n) by {
        let i = choose|i: int| 0 <= i < old.len() && old[i].id == id && #[trigger] old[i].name@ == n;
        if i < p {
            assert(new[i] == old[i]);
        } else {
            assert(new[i + 1] == old[i]);
        }
    }
}

/// Archiving keeps the name of every account.
proof fn lemma_archive_keeps_names(old: Seq<crate::models::Account>, new: Seq<crate::models::Account>, aid: i64)
    requires
        new.len() == old.len(),
        forall|k: int|
            0 <= k < old.len() ==> crate::storage::memory::archived_if(old[k], aid, #[trigger] new[k]),
    ensures
        forall|id: i64, n: Seq<char>| names_account(old, id, n) ==> names_account(new, id, n),
{
    assert forall|id: i64, n: Seq<char>| names_account(old, id, n) implies names_account(new, id, n) by {
        let i = choose|i: int| 0 <= i < old.len() && old[i].id == id && #[trigger] old[i].name@ == n;
        assert(crate::storage::memory::archived_if(old[i], aid, new[i]));
        assert(new[i].name@ == n);
    }
}

/// Every account of the full listing is an account of the ledger.
proof fn lemma_from_listing(accounts: Seq<crate::models::Account>, x: crate::models::Account)
    requires
        account_listing(accounts, true).contains(x),
    ensures
        accounts.contains(x),
{
    let c = accounts.filter(of_kind(AccountKind::Credit, true));
    let e = accounts.filter(of_kind(AccountKind::Emergency, true));
    let sp = accounts.filter(of_kind(AccountKind::Spending, true));
    let t = accounts.filter(of_kind(AccountKind::Target, true));
    let l = c + e + sp + t;
    let j = choose|j: int| 0 <= j < l.len() && l[j] == x;
    if j < c.len() {
        assert(c.contains(c[j]));
        accounts.lemma_filter_contains_rev(of_kind(AccountKind::Credit, true), x);
    } else if j < c.len() + e.len() {
        assert(e[j - c.len()] == x);
        assert(e.contains(x));
        accounts.lemma_filter_contains_rev(of_kind(AccountKind::Emergency, true), x);
    } else if j < c.len() + e.len() + sp.len() {
        assert(sp[j - c.len() - e.len()] == x);
        assert(sp.contains(x));
        accounts.lemma_filter_contains_rev(of_kind(AccountKind::Spending, true), x);
    } else {
        assert(t[j - c.len() - e.len() - sp.len()] == x);
        assert(t.contains(x));
        accounts.lemma_filter_contains_rev(of_kind(AccountKind::Target, true), x);
    }
}

/// Storing a batch keeps every row stored before and stores each row of
/// the batch.
proof fn lemma_push_stores(pre: Seq<Entry>, post: Seq<Entry>, chunk: Seq<NewEntry>, base: int)
    requires
        post.to_multiset() == pre.to_multiset().add(
            crate::storage::memory::batch_rows(chunk, base).to_multiset(),
        ),
    ensures
        forall|b: NewEntry| stored_from(pre, b) ==> stored_from(post, b),
        forall|q: int| 0 <= q < chunk.len() ==> stored_from(post, #[trigger] chunk[q]),
{
    broadcast use vstd::seq_lib::group_to_multiset_ensures;
    broadcast use vstd::multiset::group_multiset_axioms;

    assert forall|b: NewEntry| stored_from(pre, b) implies stored_from(post, b) by {
        let j = choose|j: int| 0 <= j < pre.len() && #[trigger] pre[j] == crate::storage::memory::row_of(b, pre[j].id);
        let x = pre[j];
        assert(pre.contains(x));
        assert(pre.to_multiset().count(x) > 0);
        assert(post.to_multiset().count(x) > 0);
        assert(post.contains(x));
        let i = choose|i: int| 0 <= i < post.len() && post[i] == x;
        assert(post[i] == crate::storage::memory::row_of(b, post[i].id));
    }
    assert forall|q: int| 0 <= q < chunk.len() implies stored_from(post, #[trigger] chunk[q]) by {
        let rows = crate::storage::memory::batch_rows(chunk, base);
        let x = rows[q];
        assert(rows.contains(x));
        assert(rows.to_multiset().count(x) > 0);
        assert(post.to_multiset().count(x) > 0);
        assert(post.contains(x));
        let i = choose|i: int| 0 <= i < post.len() && post[i] == x;
        assert(post[i] == crate::storage::memory::row_of(chunk[q], post[i].id));
    }
}

/// Each entry of a ledger is copied into `rows` when the batch built from
/// its listing under a name-preserving map is stored there.
proof fn lemma_copied(
    local_entries: Seq<Entry>,
    local_accounts: Seq<crate::models::Account>,
    listed: Seq<Entry>,
    batch: Seq<NewEntry>,
    map: Seq<(i64, i64)>,
    names: Seq<crate::models::Account>,
    to_accounts: Seq<crate::models::Account>,
    rows: Seq<Entry>,
)
    requires
        listed.len() == local_entries.len(),
        forall|i: int|
            0 <= i < listed.len() ==> crate::storage::memory::listed_as(
                local_entries[i],
                local_accounts,
                #[trigger] listed[i],
            ),
        batch.len() == listed.len(),
        forall|k: int|
            0 <= k < batch.len() ==> ({
                let e = listed[listed.len() - 1 - k];
                let b = #[trigger] batch[k];
                &&& b.date == e.date
                &&& b.kind == e.kind
                &&& b.amount == e.amount
                &&& Some(b.from_account_id) == remapped(map, e.from_account_id)
                &&& Some(b.to_account_id) == remapped(map, e.to_account_id)
                &&& b.concept == e.concept
                &&& b.subconcept == e.subconcept
                &&& b.description == e.description
            }),
        names.len() == map.len(),
        map_names(map, names, local_accounts, to_accounts, map.len() as int),
        forall|q: int| 0 <= q < batch.len() ==> stored_from(rows, #[trigger] batch[q]),
    ensures
        forall|k: int|
            0 <= k < local_entries.len() ==> copied_into(
                local_accounts,
                to_accounts,
                #[trigger] local_entries[k],
                rows,
            ),
{
    assert forall|k: int| 0 <= k < local_entries.len() implies copied_into(
        local_accounts,
        to_accounts,
        #[trigger] local_entries[k],
        rows,
    ) by {
        let n = listed.len();
        let q = n - 1 - k;
        assert(listed[n - 1 - q] == listed[k]);
        let b = batch[q];
        let e = local_entries[k];
        assert(crate::storage::memory::listed_as(e, local_accounts, listed[k]));
        assert(stored_from(rows, b));
        let j = choose|j: int| 0 <= j < rows.len() && #[trigger] rows[j] == crate::storage::memory::row_of(b, rows[j].id);
        let x = rows[j];
        assert(same_endpoint(local_accounts, to_accounts, e.from_account_id, x.from_account_id)) by {
            if let Some(f) = e.from_account_id {
                lemma_mapped_pair(map, f);
                let m = choose|m: int| 0 <= m < map.len() && (#[trigger] map[m]).0 == f && map[m].1 == mapped(map, f)->0;
                assert(names_account(local_accounts, f, names[m].name@));
                assert(names_account(to_accounts, map[m].1, names[m].name@));
            }
        }
        assert(same_endpoint(local_accounts, to_accounts, e.to_account_id, x.to_account_id)) by {
            if let Some(f) = e.to_account_id {
                lemma_mapped_pair(map, f);
                let m = choose|m: int| 0 <= m < map.len() && (#[trigger] map[m]).0 == f && map[m].1 == mapped(map, f)->0;
                assert(names_account(local_accounts, f, names[m].name@));
                assert(names_account(to_accounts, map[m].1, names[m].name@));
            }
        }
        assert(copied_entry(local_accounts, to_accounts, e, x));
    }
}

/// The concepts as the full concept listing orders them: "both", then
/// "expense", then "income".
pub open spec fn concept_listing(s: Seq<crate::models::Concept>) -> Seq<crate::models::Concept> {
    s.filter(crate::storage::memory::concept_of_type("both"@)) + s.filter(
        crate::storage::memory::concept_of_type("expense"@),
    ) + s.filter(crate::storage::memory::concept_of_type("income"@))
}

/// The full concept listing is no longer than the concepts it lists.
proof fn lemma_concept_listing_len(s: Seq<crate::models::Concept>)
    ensures
        concept_listing(s).len() <= s.len(),
    decreases s.len(),
{
    reveal_strlit("both");
    reveal_strlit("expense");
    reveal_strlit("income");
    if s.len() > 0 {
        let t = s.drop_last();
        let x = s.last();
        lemma_concept_listing_len(t);
        assert(t.push(x) =~= s);
        t.lemma_filter_len_push(crate::storage::memory::concept_of_type("both"@), x);
        t.lemma_filter_len_push(crate::storage::memory::concept_of_type("expense"@), x);
        t.lemma_filter_len_push(crate::storage::memory::concept_of_type("income"@), x);
        assert("both"@.len() == 4 && "expense"@.len() == 7 && "income"@.len() == 6);
        assert("both"@ != "expense"@ && "both"@ != "income"@ && "expense"@ != "income"@);
    }
}

/// Each concept of one of the three types is in the full listing, and each
/// listed concept has one of them.
proof fn lemma_concept_listing_members(s: Seq<crate::models::Concept>)
    ensures
        forall|i: int|
            0 <= i < s.len() && crate::storage::memory::is_concept_type(
                (#[trigger] s[i]).concept_type@,
            ) ==> concept_listing(s).contains(s[i]),
        forall|k: int|
            0 <= k < concept_listing(s).len() ==> crate::storage::memory::is_concept_type(
                (#[trigger] concept_listing(s)[k]).concept_type@,
            ) && s.contains(concept_listing(s)[k]),
{
    let b = s.filter(crate::storage::memory::concept_of_type("both"@));
    let e = s.filter(crate::storage::memory::concept_of_type("expense"@));
    let n = s.filter(crate::storage::memory::concept_of_type("income"@));
    let l = concept_listing(s);
    assert(l == b + e + n);
    assert forall|i: int|
        0 <= i < s.len() && crate::storage::memory::is_concept_type(
            (#[trigger] s[i]).concept_type@,
        ) implies l.contains(s[i]) by {
        let x = s[i];
        if x.concept_type@ == "both"@ {
            s.lemma_filter_contains(crate::storage::memory::concept_of_type("both"@), i);
            let j = choose|j: int| 0 <= j < b.len() && b[j] == x;
            assert(l[j] == x);
        } else if x.concept_type@ == "expense"@ {
            s.lemma_filter_contains(crate::storage::memory::concept_of_type("expense"@), i);
            let j = choose|j: int| 0 <= j < e.len() && e[j] == x;
            assert(l[b.len() + j] == x);
        } else {
            s.lemma_filter_contains(crate::storage::memory::concept_of_type("income"@), i);
            let j = choose|j: int| 0 <= j < n.len() && n[j] == x;
            assert(l[b.len() + e.len() + j] == x);
        }
    }
    assert forall|k: int| 0 <= k < l.len() implies crate::storage::memory::is_concept_type(
        (#[trigger] l[k]).concept_type@,
    ) && s.contains(l[k]) by {
        if k < b.len() {
            s.lemma_filter_pred(crate::storage::memory::concept_of_type("both"@), k);
            assert(l[k] == b[k]);
            assert(b.contains(b[k]));
            s.lemma_filter_contains_rev(crate::storage::memory::concept_of_type("both"@), b[k]);
        } else if k < b.len() + e.len() {
            s.lemma_filter_pred(crate::storage::memory::concept_of_type("expense"@), k - b.len());
            assert(l[k] == e[k - b.len()]);
            assert(e.contains(e[k - b.len()]));
            s.lemma_filter_contains_rev(crate::storage::memory::concept_of_type("expense"@), e[k - b.len()]);
        } else {
            s.lemma_filter_pred(crate::storage::memory::concept_of_type("income"@), k - b.len() - e.len());
            assert(l[k] == n[k - b.len() - e.len()]);
            assert(n.contains(n[k - b.len() - e.len()]));
            s.lemma_filter_contains_rev(
                crate::storage::memory::concept_of_type("income"@),
                n[k - b.len() - e.len()],
            );
        }
    }
}

/// Inserting a concept keeps every concept name.
proof fn lemma_insert_keeps_concept_names(
    old: Seq<crate::models::Concept>,
    new: Seq<crate::models::Concept>,
    p: int,
)
    requires
        crate::storage::memory::inserted_at(old, new, p),
    ensures
        forall|name: Seq<char>| has_key(old, name) ==> has_key(new, name),
        has_key(new, new[p].name@),
{
    assert forall|name: Seq<char>| has_key(old, name) implies has_key(new, name) by {
        let k = choose|k: int| 0 <= k < old.len() && old[k].key_view() == name;
        if k < p {
            assert(new[k] == old[k]);
        } else {
            assert(new[k + 1] == old[k]);
        }
    }
    assert(new[p].key_view() == new[p].name@);
}

/// How many rows of each kind a migration read from the source.
#[derive(Debug)]
pub struct MigrateSummary {
    pub accounts: usize,
    pub entries: usize,
    pub budgets: usize,
    pub concepts: usize,
}

/// The target id of source account `id` under `map`, if mapped (the first
/// pair for it).
pub open spec fn mapped(map: Seq<(i64, i64)>, id: i64) -> Option<i64>
    decreases map.len(),
{
    if map.len() == 0 {
        None
    } else if map[0].0 == id {
        Some(map[0].1)
    } else {
        mapped(map.drop_first(), id)
    }
}

/// One side of an entry, re-pointed under `map`.
pub open spec fn remapped(map: Seq<(i64, i64)>, side: Option<i64>) -> Option<Option<i64>> {
    match side {
        None => Some(None),
        Some(id) => match mapped(map, id) {
            Some(t) => Some(Some(t)),
            None => None,
        },
    }
}

fn map_id(map: &Vec<(i64, i64)>, id: i64) -> (r: Option<i64>)
    ensures
        r == mapped(map@, id),
{
    let n = map.len();
    let mut i: usize = 0;
    proof {
        assert(map@.skip(0) =~= map@);
    }
    while i < n
        invariant
            n == map@.len(),
            i <= n,
            mapped(map@, id) == mapped(map@.skip(i as int), id),
        decreases n - i,
    {
        proof {
            assert(map@.skip(i as int).drop_first() =~= map@.skip(i + 1));
        }
        if map[i].0 == id {
            return Some(map[i].1);
        }
        i = i + 1;
    }
    None
}

fn map_side(map: &Vec<(i64, i64)>, side: Option<i64>) -> (r: Option<Option<i64>>)
    ensures
        r == remapped(map@, side),
{
    match side {
        None => Some(None),
        Some(id) => match map_id(map, id) {
            Some(t) => Some(Some(t)),
            None => None,
        },
    }
}

/// The entries re-pointed under `map`, oldest first: `entries` lists them
/// newest first, so the batch is that list reversed. An entry whose
/// account has no counterpart is refused.
pub fn migration_batch(entries: &[Entry], map: &Vec<(i64, i64)>) -> (r: Result<Vec<NewEntry>>)
    ensures
        r is Ok <==> forall|k: int|
            0 <= k < entries@.len() ==> remapped(map@, (#[trigger] entries@[k]).from_account_id) is Some
                && remapped(map@, entries@[k].to_account_id) is Some,
        r matches Err(e) ==> e is Invalid,
        r matches Ok(batch) ==> batch@.len() == entries@.len() && forall|k: int|
            0 <= k < batch@.len() ==> ({
                let e = entries@[entries@.len() - 1 - k];
                let b = #[trigger] batch@[k];
                &&& b.date == e.date
                &&& b.kind == e.kind
                &&& b.amount == e.amount
                &&& Some(b.from_account_id) == remapped(map@, e.from_account_id)
                &&& Some(b.to_account_id) == remapped(map@, e.to_account_id)
                &&& b.concept == e.concept
                &&& b.subconcept == e.subconcept
                &&& b.description == e.description
            }),
{
    let n = entries.len();
    let mut batch: Vec<NewEntry> = Vec::new();
    let mut i: usize = n;
    while i > 0
        invariant
            n == entries@.len(),
            i <= n,
            batch@.len() == n - i,
            forall|k: int|
                i <= k < n ==> remapped(map@, (#[trigger] entries@[k]).from_account_id) is Some
                    && remapped(map@, entries@[k].to_account_id) is Some,
            forall|k: int|
                0 <= k < batch@.len() ==> ({
                    let e = entries@[n - 1 - k];
                    let b = #[trigger] batch@[k];
                    &&& b.date == e.date
                    &&& b.kind == e.kind
                    &&& b.amount == e.amount
                    &&& Some(b.from_account_id) == remapped(map@, e.from_account_id)
                    &&& Some(b.to_account_id) == remapped(map@, e.to_account_id)
                    &&& b.concept == e.concept
                    &&& b.subconcept == e.subconcept
                    &&& b.description == e.description
                }),
        decreases i,
    {
        i = i - 1;
        let e = &entries[i];
        let from = match map_side(map, e.from_account_id) {
            Some(f) => f,
            None => {
                return Err(
                    AppError::Invalid(
                        concat("account mapping lost for entry #", fmt_i64(e.id).as_str()),
                    ),
                );
            },
        };
        let to = match map_side(map, e.to_account_id) {
            Some(t) => t,
            None => {
                return Err(
                    AppError::Invalid(
                        concat("account mapping lost for entry #", fmt_i64(e.id).as_str()),
                    ),
                );
            },
        };
        batch.push(
            NewEntry {
                date: e.date.clone(),
                kind: e.kind,
                amount: e.amount,
                from_account_id: from,
                to_account_id: to,
                concept: clone_opt(&e.concept),
                subconcept: clone_opt(&e.subconcept),
                description: clone_opt(&e.description),
            },
        );
    }
    Ok(batch)
}

/// The source's accounts can all be written to the target: there are
/// none, or the target holds no accounts yet and has room and ids for them,
/// each passes the account checks, and at most one is an emergency fund.
pub open spec fn accounts_migratable(list: Seq<crate::models::Account>, target: MemoryBackend) -> bool {
    ||| list.len() == 0
    ||| {
        &&& target.accounts_view().len() == 0
        &&& list.len() < crate::storage::memory::account_capacity()
        &&& target.last_account_id() + list.len() < i64::MAX
        &&& forall|k: int|
            0 <= k < list.len() ==> crate::storage::memory::mirror::account_row_valid(#[trigger] list[k])
        &&& forall|k: int, j: int|
            0 <= k < j < list.len() ==> !((#[trigger] list[k]).kind == AccountKind::Emergency
                && (#[trigger] list[j]).kind == AccountKind::Emergency)
    }
}

/// Every budget of the source has a positive limit, a canonical period and
/// a concept of the source, and the target has ids for them.
pub open spec fn budgets_migratable(local: MemoryBackend, target: MemoryBackend) -> bool {
    &&& target.budget_counter() + local.budgets_view().len() < i64::MAX
    &&& forall|k: int|
        0 <= k < local.budgets_view().len() ==> (#[trigger] local.budgets_view()[k]).monthly_limit > 0
            && crate::period::is_canonical_period(local.budgets_view()[k].period@) && has_key(
            local.concepts_view(),
            local.budgets_view()[k].concept@,
        )
}

/// What a migration of `local` into `target` needs besides its entries:
/// the target has ids for the concepts it receives, and the accounts and
/// budgets can all be written.
pub open spec fn migration_prereqs(local: MemoryBackend, target: MemoryBackend) -> bool {
    &&& target.concept_counter() + local.concepts_view().len() < i64::MAX
    &&& accounts_migratable(account_listing(local.accounts_view(), true), target)
    &&& budgets_migratable(local, target)
}

/// A migration of `local` into `target` that is owed success: the source
/// holds no entries and the rest can all be written.
pub open spec fn migration_owed(local: MemoryBackend, target: MemoryBackend) -> bool {
    &&& local.entries_view().len() == 0
    &&& migration_prereqs(local, target)
}

/// Every account an entry of `local` points at is an account of `local`.
pub open spec fn entries_resolve(local: MemoryBackend) -> bool {
    forall|k: int|
        0 <= k < local.entries_view().len() ==> side_resolves(
            local.accounts_view(),
            (#[trigger] local.entries_view()[k]).from_account_id,
        ) && side_resolves(local.accounts_view(), local.entries_view()[k].to_account_id)
}

/// One side of an entry is absent or an account of `accounts`.
pub open spec fn side_resolves(accounts: Seq<crate::models::Account>, side: Option<i64>) -> bool {
    match side {
        None => true,
        Some(id) => exists|j: int| 0 <= j < accounts.len() && #[trigger] accounts[j].id == id,
    }
}

/// `b` replays entry `e` of a ledger with accounts `from` into a ledger
/// with accounts `to`: the same date, kind, amount, concept, subconcept and
/// description, pointed at the accounts of the same names.
pub open spec fn replayed_as(
    from: Seq<crate::models::Account>,
    to: Seq<crate::models::Account>,
    e: Entry,
    b: NewEntry,
) -> bool {
    &&& b.date == e.date
    &&& b.kind == e.kind
    &&& b.amount == e.amount
    &&& same_endpoint(from, to, e.from_account_id, b.from_account_id)
    &&& same_endpoint(from, to, e.to_account_id, b.to_account_id)
    &&& b.concept == e.concept
    &&& b.subconcept == e.subconcept
    &&& b.description == e.description
}

/// `batch` replays the entries of `local` oldest first (the store lists
/// them newest first) into a ledger with accounts `to`.
pub open spec fn replays(local: MemoryBackend, to: Seq<crate::models::Account>, batch: Seq<NewEntry>) -> bool {
    let es = local.entries_view();
    &&& batch.len() == es.len()
    &&& forall|k: int|
        0 <= k < batch.len() ==> replayed_as(
            local.accounts_view(),
            to,
            es[es.len() - 1 - k],
            #[trigger] batch[k],
        )
}

/// A pair for `id` makes `id` mapped.
proof fn lemma_mapped_some(map: Seq<(i64, i64)>, m: int, id: i64)
    requires
        0 <= m < map.len(),
        map[m].0 == id,
    ensures
        mapped(map, id) is Some,
    decreases map.len(),
{
    if map[0].0 != id {
        assert(map.drop_first()[m - 1] == map[m]);
        lemma_mapped_some(map.drop_first(), m - 1, id);
    }
}

/// Every account of `from` is mapped when the map pairs each account of a
/// listing holding them all with the account of the same name.
proof fn lemma_map_covers(
    map: Seq<(i64, i64)>,
    names: Seq<crate::models::Account>,
    from: Seq<crate::models::Account>,
    to: Seq<crate::models::Account>,
    side: Option<i64>,
)
    requires
        sorted_by_key(from),
        names.len() == map.len(),
        map_names(map, names, from, to, map.len() as int),
        forall|j: int| 0 <= j < from.len() ==> names.contains(#[trigger] from[j]),
        side_resolves(from, side),
    ensures
        remapped(map, side) is Some,
{
    if let Some(id) = side {
        let j = choose|j: int| 0 <= j < from.len() && #[trigger] from[j].id == id;
        assert(names.contains(from[j]));
        let m = choose|m: int| 0 <= m < names.len() && names[m] == from[j];
        assert(names_account(from, map[m].0, names[m].name@));
        let w = choose|w: int| 0 <= w < from.len() && from[w].id == map[m].0 && #[trigger] from[w].name@
            == names[m].name@;
        crate::storage::table::lemma_key_unique(from, w, j);
        lemma_mapped_some(map, m, id);
    }
}

/// The batch built from a ledger's listing under a name-preserving map
/// replays its entries.
proof fn lemma_replays(
    local_entries: Seq<Entry>,
    local_accounts: Seq<crate::models::Account>,
    listed: Seq<Entry>,
    batch: Seq<NewEntry>,
    map: Seq<(i64, i64)>,
    names: Seq<crate::models::Account>,
    to_accounts: Seq<crate::models::Account>,
)
    requires
        listed.len() == local_entries.len(),
        forall|i: int|
            0 <= i < listed.len() ==> crate::storage::memory::listed_as(
                local_entries[i],
                local_accounts,
                #[trigger] listed[i],
            ),
        batch.len() == listed.len(),
        forall|k: int|
            0 <= k < batch.len() ==> ({
                let e = listed[listed.len() - 1 - k];
                let b = #[trigger] batch[k];
                &&& b.date == e.date
                &&& b.kind == e.kind
                &&& b.amount == e.amount
                &&& Some(b.from_account_id) == remapped(map, e.from_account_id)
                &&& Some(b.to_account_id) == remapped(map, e.to_account_id)
                &&& b.concept == e.concept
                &&& b.subconcept == e.subconcept
                &&& b.description == e.description
            }),
        names.len() == map.len(),
        map_names(map, names, local_accounts, to_accounts, map.len() as int),
    ensures
        forall|k: int|
            0 <= k < batch.len() ==> replayed_as(
                local_accounts,
                to_accounts,
                local_entries[local_entries.len() - 1 - k],
                #[trigger] batch[k],
            ),
{
    assert forall|k: int| 0 <= k < batch.len() implies replayed_as(
        local_accounts,
        to_accounts,
        local_entries[local_entries.len() - 1 - k],
        #[trigger] batch[k],
    ) by {
        let n = listed.len();
        let i = n - 1 - k;
        let e = local_entries[i];
        let b = batch[k];
        assert(crate::storage::memory::listed_as(e, local_accounts, listed[i]));
        assert(same_endpoint(local_accounts, to_accounts, e.from_account_id, b.from_account_id)) by {
            if let Some(f) = e.from_account_id {
                lemma_mapped_pair(map, f);
                let m = choose|m: int| 0 <= m < map.len() && (#[trigger] map[m]).0 == f && map[m].1 == mapped(map, f)->0;
                assert(names_account(local_accounts, f, names[m].name@));
                assert(names_account(to_accounts, map[m].1, names[m].name@));
            }
        }
        assert(same_endpoint(local_accounts, to_accounts, e.to_account_id, b.to_account_id)) by {
            if let Some(f) = e.to_account_id {
                lemma_mapped_pair(map, f);
                let m = choose|m: int| 0 <= m < map.len() && (#[trigger] map[m]).0 == f && map[m].1 == mapped(map, f)->0;
                assert(names_account(local_accounts, f, names[m].name@));
                assert(names_account(to_accounts, map[m].1, names[m].name@));
            }
        }
    }
}

/// The writes of a batch add up over consecutive parts.
proof fn lemma_batch_delta_concat(a: Seq<NewEntry>, b: Seq<NewEntry>, id: i64)
    ensures
        crate::storage::memory::batch_delta(a + b, id) == crate::storage::memory::batch_delta(a, id)
            + crate::storage::memory::batch_delta(b, id),
    decreases b.len(),
{
    if b.len() == 0 {
        assert(a + b =~= a);
    } else {
        assert((a + b).drop_last() =~= a + b.drop_last());
        assert((a + b).last() == b.last());
        lemma_batch_delta_concat(a, b.drop_last(), id);
    }
}

/// Writing a batch in consecutive chunks: entry `j` of the chunk that
/// starts at `start` is written into the store holding the earlier chunks
/// exactly when entry `start + j` of the whole batch is written into the
/// store before it.
proof fn lemma_chunk_entry(
    accounts: Seq<crate::models::Account>,
    concepts: Seq<crate::models::Concept>,
    e0: Seq<Entry>,
    l0: int,
    batch: Seq<NewEntry>,
    start: int,
    chunk: Seq<NewEntry>,
    es: Seq<Entry>,
    ls: int,
    j: int,
)
    requires
        0 <= start,
        start + chunk.len() <= batch.len(),
        forall|q: int| 0 <= q < chunk.len() ==> #[trigger] chunk[q] == batch[start + q],
        es.len() == e0.len() + start,
        ls == l0 + start,
        forall|id: i64|
            #[trigger] crate::storage::ledger::balance_in(es, id) == crate::storage::ledger::balance_in(
                e0,
                id,
            ) + crate::storage::memory::batch_delta(batch.take(start), id),
        0 <= j < chunk.len(),
    ensures
        crate::storage::memory::batch_entry_ok(accounts, concepts, es, ls, chunk, j)
            == crate::storage::memory::batch_entry_ok(accounts, concepts, e0, l0, batch, start + j),
{
    assert(batch.take(start + j) =~= batch.take(start) + chunk.take(j));
    assert forall|id: i64| #[trigger] crate::storage::memory::balances_during(es, chunk, j)(id)
        == crate::storage::memory::balances_during(e0, batch, start + j)(id) by {
        lemma_batch_delta_concat(batch.take(start), chunk.take(j), id);
        assert(crate::storage::ledger::balance_in(es, id) == crate::storage::ledger::balance_in(e0, id)
            + crate::storage::memory::batch_delta(batch.take(start), id));
    }
    assert(crate::storage::memory::balances_during(es, chunk, j)
        =~= crate::storage::memory::balances_during(e0, batch, start + j));
    assert(chunk[j] == batch[start + j]);
}


/// Copies the `local` ledger into `remote`: concepts the target lacks,
/// accounts (matched by name, created when missing, archived when archived
/// here), every entry re-pointed at the target's accounts and written
/// oldest first in batches of fifty, then budgets and configuration. A
/// migration is owed success when the source holds no entries and its
/// accounts and budgets can all be written (`migration_owed`). With
/// entries, the target's rules decide: a successful migration wrote the
/// entries replayed oldest first onto the accounts of the same names
/// (`replays`) and the target accepted each in turn (`batch_ok_upto`); when
/// the rest can be written (`migration_prereqs`) and every entry points at
/// accounts of the source, a failed one is one whose replay the target
/// refuses.
pub fn migrate_local_to_remote(local: &MemoryBackend, remote: &mut MemoryBackend) -> (r: Result<
    MigrateSummary,
>)
    requires
        local.wf(),
        old(remote).wf(),
    ensures
        final(remote).wf(),
        r matches Ok(s) ==> s.accounts == account_listing(local.accounts_view(), true).len()
            && s.entries == local.entries_view().len() && s.budgets == local.budgets_view().len()
            && s.concepts == concept_listing(local.concepts_view()).len(),
        r is Ok ==> forall|k: int|
            0 <= k < local.accounts_view().len() ==> has_key(
                final(remote).accounts_view(),
                (#[trigger] local.accounts_view()[k]).name@,
            ),
        r is Ok ==> final(remote).entries_view().len() == old(remote).entries_view().len()
            + local.entries_view().len(),
        r is Ok ==> forall|k: int|
            0 <= k < local.entries_view().len() ==> copied_into(
                local.accounts_view(),
                final(remote).accounts_view(),
                #[trigger] local.entries_view()[k],
                final(remote).entries_view(),
            ),
        r is Ok ==> forall|k: int|
            0 <= k < local.budgets_view().len() ==> has_budget_row(
                final(remote).budgets_view(),
                #[trigger] local.budgets_view()[k],
            ),
        r is Ok ==> forall|k: int|
            0 <= k < local.config_view().len() ==> config_has(
                final(remote).config_view(),
                (#[trigger] local.config_view()[k]).key@,
                local.config_view()[k].value@,
            ),
        migration_owed(*local, *old(remote)) ==> r is Ok,
        r is Ok ==> exists|batch: Seq<NewEntry>|
            #[trigger] replays(*local, final(remote).accounts_view(), batch) && batch_ok_upto(
                final(remote).accounts_view(),
                final(remote).concepts_view(),
                old(remote).entries_view(),
                old(remote).last_entry_id(),
                batch,
                batch.len() as int,
            ),
        r is Err && migration_prereqs(*local, *old(remote)) && entries_resolve(*local) ==> exists|
            batch: Seq<NewEntry>,
        |
            #[trigger] replays(*local, final(remote).accounts_view(), batch) && !batch_ok_upto(
                final(remote).accounts_view(),
                final(remote).concepts_view(),
                old(remote).entries_view(),
                old(remote).last_entry_id(),
                batch,
                batch.len() as int,
            ),
        r is Ok ==> forall|k: int|
            0 <= k < local.concepts_view().len() ==> has_key(
                final(remote).concepts_view(),
                (#[trigger] local.concepts_view()[k]).name@,
            ),
{
    let ghost e0 = remote.entries_view().len();
    let ghost easy = migration_prereqs(*local, *remote);
    let ghost c0 = remote.concept_counter();
    let concepts = local.list_concepts(None)?;
    let nc = concepts.len();
    proof {
        lemma_concept_listing_len(local.concepts_view());
        lemma_concept_listing_members(local.concepts_view());
        assert(concepts@ == concept_listing(local.concepts_view()));
    }
    let mut i: usize = 0;
    while i < nc
        invariant
            remote.wf(),
            remote.entries_view().len() == e0,
            remote.entries_view() == old(remote).entries_view(),
            remote.last_entry_id() == old(remote).last_entry_id(),
            nc == concepts@.len(),
            i <= nc,
            remote.concept_counter() <= c0 + i,
            forall|k: int| 0 <= k < i ==> has_key(remote.concepts_view(), (#[trigger] concepts@[k]).name@),
            c0 == old(remote).concept_counter(),
            remote.accounts_view() == old(remote).accounts_view(),
            remote.last_account_id() == old(remote).last_account_id(),
            remote.budget_counter() == old(remote).budget_counter(),
            easy == migration_prereqs(*local, *old(remote)),
            easy ==> c0 + nc < i64::MAX,
            forall|k: int|
                0 <= k < concepts@.len() ==> crate::storage::memory::is_concept_type(
                    (#[trigger] concepts@[k]).concept_type@,
                ),
        decreases nc - i,
    {
        let c = &concepts[i];
        let present = remote.list_concepts(None)?;
        let mut known = false;
        let mut q: usize = 0;
        while q < present.len()
            invariant
                q <= present@.len(),
                known <==> exists|k: int| 0 <= k < q && (#[trigger] present@[k]).name@ == c.name@,
            decreases present@.len() - q,
        {
            if crate::text::str_eq(present[q].name.as_str(), c.name.as_str()) {
                known = true;
            }
            q = q + 1;
        }
        proof {
            remote.lemma_concept_types();
            lemma_concept_listing_members(remote.concepts_view());
            assert(present@ == concept_listing(remote.concepts_view()));
            if !known && has_key(remote.concepts_view(), c.name@) {
                let w = choose|w: int|
                    0 <= w < remote.concepts_view().len() && remote.concepts_view()[w].key_view() == c.name@;
                assert(present@.contains(remote.concepts_view()[w]));
                let k = choose|k: int| 0 <= k < present@.len() && present@[k] == remote.concepts_view()[w];
                assert(present@[k].name@ == c.name@);
            }
            assert(crate::storage::memory::is_concept_type(concepts@[i as int].concept_type@));
            if known {
                let k = choose|k: int| 0 <= k < present@.len() && (#[trigger] present@[k]).name@ == c.name@;
                assert(remote.concepts_view().contains(present@[k]));
                let w = choose|w: int| 0 <= w < remote.concepts_view().len() && remote.concepts_view()[w] == present@[k];
                assert(remote.concepts_view()[w].key_view() == c.name@);
            }
        }
        let ghost pre_concepts = remote.concepts_view();
        if !known {
            match remote.add_concept(c.name.as_str(), c.concept_type.as_str()) {
                Ok(()) => {
                    proof {
                        let p = choose|p: int|
                            #[trigger] crate::storage::memory::inserted_at(
                                pre_concepts,
                                remote.concepts_view(),
                                p,
                            ) && remote.concepts_view()[p].name@ == c.name@
                                && remote.concepts_view()[p].concept_type@ == c.concept_type@;
                        lemma_insert_keeps_concept_names(pre_concepts, remote.concepts_view(), p);
                    }
                },
                Err(AppError::Invalid(_)) => {},
                Err(e) => {
                    return Err(e);
                },
            }
        }
        proof {
            assert forall|k: int| 0 <= k < i + 1 implies has_key(
                remote.concepts_view(),
                (#[trigger] concepts@[k]).name@,
            ) by {
                if k < i {
                    assert(has_key(pre_concepts, concepts@[k].name@));
                }
            }
        }
        i = i + 1;
    }
    let ghost cv = remote.concepts_view();
    proof {
        local.lemma_concept_types();
        assert forall|k: int| 0 <= k < local.concepts_view().len() implies has_key(
            cv,
            (#[trigger] local.concepts_view()[k]).name@,
        ) by {
            assert(concept_listing(local.concepts_view()).contains(local.concepts_view()[k]));
            let j = choose|j: int| 0 <= j < concepts@.len() && concepts@[j] == local.concepts_view()[k];
            assert(has_key(cv, concepts@[j].name@));
        }
    }
    let accounts = local.raw_accounts(true)?;
    proof {
        let la = local.accounts_view();
        la.lemma_filter_len(crate::storage::memory::of_kind(AccountKind::Credit, true));
        la.lemma_filter_len(crate::storage::memory::of_kind(AccountKind::Emergency, true));
        la.lemma_filter_len(crate::storage::memory::of_kind(AccountKind::Spending, true));
        la.lemma_filter_len(crate::storage::memory::of_kind(AccountKind::Target, true));
    }
    let mut map: Vec<(i64, i64)> = Vec::new();
    let na = accounts.len();
    let mut i: usize = 0;
    while i < na
        invariant
            remote.wf(),
            na == accounts@.len(),
            accounts@ == account_listing(local.accounts_view(), true),
            remote.entries_view().len() == e0,
            remote.entries_view() == old(remote).entries_view(),
            remote.last_entry_id() == old(remote).last_entry_id(),
            i <= na,
            forall|k: int| 0 <= k < i ==> has_key(remote.accounts_view(), (#[trigger] accounts@[k]).name@),
            map@.len() == i,
            map_names(map@, accounts@, local.accounts_view(), remote.accounts_view(), i as int),
            remote.concepts_view() == cv,
            remote.budget_counter() == old(remote).budget_counter(),
            easy ==> accounts_migratable(accounts@, *old(remote)),
            easy && na > 0 ==> remote.accounts_view().len() <= i && remote.last_account_id()
                <= old(remote).last_account_id() + i && (crate::storage::memory::has_active_emergency(
                remote.accounts_view(),
            ) ==> exists|k: int|
                0 <= k < i && (#[trigger] accounts@[k]).kind == AccountKind::Emergency),
            easy == migration_prereqs(*local, *old(remote)),
        decreases na - i,
    {
        let a = &accounts[i];
        let ghost before = remote.accounts_view();
        let id = match remote.find_account_by_name(a.name.as_str())? {
            Some(existing) => {
                proof {
                    assert(names_account(before, existing.id, a.name@));
                }
                if a.archived && !existing.archived {
                    let ghost pre = remote.accounts_view();
                    remote.set_archived(existing.id)?;
                    proof {
                        lemma_archive_keeps_keys(pre, remote.accounts_view(), existing.id);
                        lemma_archive_keeps_names(pre, remote.accounts_view(), existing.id);
                    }
                }
                proof {
                    assert(names_account(remote.accounts_view(), existing.id, a.name@));
                }
                existing.id
            },
            None => {
                let new_account = NewAccount {
                    name: a.name.clone(),
                    kind: a.kind,
                    target_amount: a.target_amount,
                    credit_limit: a.credit_limit,
                    liquid: a.liquid,
                };
                let ghost pre = remote.accounts_view();
                let id = remote.insert_account(&new_account)?;
                proof {
                    let p = choose|p: int|
                        #[trigger] crate::storage::memory::inserted_at(pre, remote.accounts_view(), p)
                            && remote.accounts_view()[p] == (crate::models::Account {
                            id,
                            name: new_account.name,
                            kind: new_account.kind,
                            target_amount: new_account.target_amount,
                            credit_limit: new_account.credit_limit,
                            liquid: new_account.liquid,
                            archived: false,
                        });
                    lemma_insert_keeps_keys(pre, remote.accounts_view(), p);
                    lemma_insert_keeps_names(pre, remote.accounts_view(), p);
                    assert(remote.accounts_view()[p].name@ == a.name@);
                    assert(names_account(remote.accounts_view(), id, a.name@));
                }
                if a.archived {
                    let ghost pre2 = remote.accounts_view();
                    remote.set_archived(id)?;
                    proof {
                        lemma_archive_keeps_keys(pre2, remote.accounts_view(), id);
                        lemma_archive_keeps_names(pre2, remote.accounts_view(), id);
                    }
                }
                proof {
                    assert(names_account(remote.accounts_view(), id, a.name@));
                }
                id
            },
        };
        let ghost old_map = map@;
        map.push((a.id, id));
        proof {
            assert(has_key(remote.accounts_view(), accounts@[i as int].name@));
            assert(forall|x: i64, n: Seq<char>|
                names_account(before, x, n) ==> names_account(remote.accounts_view(), x, n));
            lemma_from_listing(local.accounts_view(), accounts@[i as int]);
            let w = choose|w: int| 0 <= w < local.accounts_view().len() && local.accounts_view()[w] == accounts@[i as int];
            assert(local.accounts_view()[w].name@ == a.name@);
            assert(names_account(local.accounts_view(), a.id, a.name@));
            assert forall|m: int| 0 <= m < i + 1 implies names_account(
                local.accounts_view(),
                (#[trigger] map@[m]).0,
                accounts@[m].name@,
            ) && names_account(remote.accounts_view(), map@[m].1, accounts@[m].name@) by {
                if m < i {
                    assert(map@[m] == old_map[m]);
                    assert(names_account(before, old_map[m].1, accounts@[m].name@));
                }
            }
        }
        i = i + 1;
    }
    let ghost acc_after = remote.accounts_view();
    proof {
        assert forall|k: int| 0 <= k < local.accounts_view().len() implies has_key(
            acc_after,
            (#[trigger] local.accounts_view()[k]).name@,
        ) by {
            lemma_in_listing(local.accounts_view(), k);
            let j = choose|j: int| 0 <= j < accounts@.len() && accounts@[j] == local.accounts_view()[k];
            assert(has_key(acc_after, accounts@[j].name@));
        }
    }
    let all = EntryFilter::default();
    let entries = local.entries(&all)?;
    proof {
        crate::storage::memory::lemma_filter_keeps_all(
            local.entries_view(),
            |e: Entry| crate::storage::memory::entry_matches(all, e),
        );
    }
    proof {
        local.lemma_capacity();
        assert forall|j: int| 0 <= j < local.accounts_view().len() implies accounts@.contains(
            #[trigger] local.accounts_view()[j],
        ) by {
            lemma_in_listing(local.accounts_view(), j);
        }
    }
    let batch = match migration_batch(entries.as_slice(), &map) {
        Ok(b) => b,
        Err(e) => {
            proof {
                if easy && entries_resolve(*local) {
                    assert forall|k: int| 0 <= k < entries@.len() implies remapped(
                        map@,
                        (#[trigger] entries@[k]).from_account_id,
                    ) is Some && remapped(map@, entries@[k].to_account_id) is Some by {
                        assert(crate::storage::memory::listed_as(
                            local.entries_view()[k],
                            local.accounts_view(),
                            entries@[k],
                        ));
                        assert(side_resolves(local.accounts_view(), local.entries_view()[k].from_account_id));
                        lemma_map_covers(
                            map@,
                            accounts@,
                            local.accounts_view(),
                            acc_after,
                            entries@[k].from_account_id,
                        );
                        lemma_map_covers(
                            map@,
                            accounts@,
                            local.accounts_view(),
                            acc_after,
                            entries@[k].to_account_id,
                        );
                    }
                }
            }
            return Err(e);
        },
    };
    let nb = batch.len();
    proof {
        lemma_replays(
            local.entries_view(),
            local.accounts_view(),
            entries@,
            batch@,
            map@,
            accounts@,
            acc_after,
        );
        assert(replays(*local, acc_after, batch@));
        assert(batch@.take(0) =~= Seq::<NewEntry>::empty());
    }
    let mut start: usize = 0;
    while start < nb
        invariant
            remote.wf(),
            remote.accounts_view() == acc_after,
            remote.entries_view().len() == e0 + start,
            nb == batch@.len(),
            start <= nb,
            forall|q: int| 0 <= q < start ==> stored_from(remote.entries_view(), #[trigger] batch@[q]),
            nb == local.entries_view().len(),
            replays(*local, acc_after, batch@),
            e0 == old(remote).entries_view().len(),
            remote.last_entry_id() == old(remote).last_entry_id() + start,
            forall|id: i64|
                #[trigger] crate::storage::ledger::balance_in(remote.entries_view(), id)
                    == crate::storage::ledger::balance_in(old(remote).entries_view(), id)
                    + crate::storage::memory::batch_delta(batch@.take(start as int), id),
            batch_ok_upto(
                acc_after,
                cv,
                old(remote).entries_view(),
                old(remote).last_entry_id(),
                batch@,
                start as int,
            ),
            remote.budget_counter() == old(remote).budget_counter(),
            remote.concepts_view() == cv,
            easy == migration_prereqs(*local, *old(remote)),
        decreases nb - start,
    {
        let end = if nb - start > 50 {
            start + 50
        } else {
            nb
        };
        let mut chunk: Vec<NewEntry> = Vec::new();
        let mut k: usize = start;
        while k < end
            invariant
                start <= k <= end,
                end <= nb,
                nb == batch@.len(),
                chunk@.len() == k - start,
                forall|q: int| 0 <= q < chunk@.len() ==> #[trigger] chunk@[q] == batch@[start + q],
            decreases end - k,
        {
            chunk.push(batch[k].clone());
            k = k + 1;
        }
        let ghost before = remote.entries_view();
        let ghost base = remote.last_entry_id();
        proof {
            assert forall|q: int| 0 <= q < chunk@.len() implies #[trigger] chunk@[q] == batch@[start
                + q] by {}
        }
        match remote.push_entries(chunk.as_slice()) {
            Ok(_) => {},
            Err(e) => {
                proof {
                    let j = choose|j: int|
                        0 <= j < chunk@.len() && !batch_entry_ok(
                            acc_after,
                            cv,
                            before,
                            base,
                            chunk@,
                            j,
                        );
                    lemma_chunk_entry(
                        acc_after,
                        cv,
                        old(remote).entries_view(),
                        old(remote).last_entry_id(),
                        batch@,
                        start as int,
                        chunk@,
                        before,
                        base,
                        j,
                    );
                    assert(!batch_ok_upto(
                        remote.accounts_view(),
                        remote.concepts_view(),
                        old(remote).entries_view(),
                        old(remote).last_entry_id(),
                        batch@,
                        batch@.len() as int,
                    ));
                    assert(replays(*local, remote.accounts_view(), batch@));
                }
                return Err(e);
            },
        }
        proof {
            assert(chunk@ =~= batch@.subrange(start as int, end as int));
            assert(batch@.take(end as int) =~= batch@.take(start as int) + chunk@);
            assert forall|id: i64| #[trigger] crate::storage::ledger::balance_in(remote.entries_view(), id)
                == crate::storage::ledger::balance_in(old(remote).entries_view(), id)
                + crate::storage::memory::batch_delta(batch@.take(end as int), id) by {
                lemma_batch_delta_concat(batch@.take(start as int), chunk@, id);
                assert(crate::storage::ledger::balance_in(before, id) == crate::storage::ledger::balance_in(
                    old(remote).entries_view(),
                    id,
                ) + crate::storage::memory::batch_delta(batch@.take(start as int), id));
            }
            assert forall|k: int| 0 <= k < end implies batch_entry_ok(
                acc_after,
                cv,
                old(remote).entries_view(),
                old(remote).last_entry_id(),
                batch@,
                k,
            ) by {
                if k >= start {
                    lemma_chunk_entry(
                        acc_after,
                        cv,
                        old(remote).entries_view(),
                        old(remote).last_entry_id(),
                        batch@,
                        start as int,
                        chunk@,
                        before,
                        base,
                        k - start,
                    );
                }
            }
            lemma_len_from_multiset(
                remote.entries_view(),
                before,
                crate::storage::memory::batch_rows(chunk@, base + 1),
            );
            lemma_push_stores(before, remote.entries_view(), chunk@, base + 1);
            assert forall|q: int| 0 <= q < end implies stored_from(remote.entries_view(), #[trigger] batch@[q]) by {
                if q >= start {
                    assert(chunk@[q - start] == batch@[q]);
                }
            }
        }
        start = end;
    }
    let budgets = local.list_budgets(None)?;
    proof {
        local.lemma_capacity();
        assert forall|n: Seq<char>| has_key(local.concepts_view(), n) implies has_key(cv, n) by {
            let k = choose|k: int| 0 <= k < local.concepts_view().len() && local.concepts_view()[k].key_view() == n;
            assert(has_key(cv, local.concepts_view()[k].name@));
        }
    }
    let nbud = budgets.len();
    let mut i: usize = 0;
    while i < nbud
        invariant
            remote.wf(),
            remote.accounts_view() == acc_after,
            remote.entries_view().len() == e0 + local.entries_view().len(),
            forall|q: int| 0 <= q < batch@.len() ==> stored_from(remote.entries_view(), #[trigger] batch@[q]),
            budgets@ == local.budgets_view(),
            crate::storage::table::budgets_ordered(budgets@),
            nbud == budgets@.len(),
            i <= nbud,
            easy ==> budgets_migratable(*local, *old(remote)),
            remote.budget_counter() <= old(remote).budget_counter() + i,
            forall|n: Seq<char>| has_key(local.concepts_view(), n) ==> has_key(cv, n),
            remote.concepts_view() == cv,
            easy == migration_prereqs(*local, *old(remote)),
            forall|k: int| 0 <= k < i ==> has_budget_row(remote.budgets_view(), #[trigger] budgets@[k]),
        decreases nbud - i,
    {
        let ghost old_budgets = remote.budgets_view();
        proof {
            if easy {
                assert(budgets@[i as int] == local.budgets_view()[i as int]);
            }
        }
        remote.set_budget(budgets[i].concept.as_str(), budgets[i].monthly_limit, budgets[i].period.as_str())?;
        proof {
            let cur = budgets@[i as int];
            assert forall|k: int| 0 <= k < i + 1 implies has_budget_row(
                remote.budgets_view(),
                #[trigger] budgets@[k],
            ) by {
                if k < i {
                    lemma_budget_keys_differ(budgets@[k], cur);
                    let j = choose|j: int|
                        0 <= j < old_budgets.len() && same_budget_key(#[trigger] old_budgets[j], budgets@[k])
                            && old_budgets[j].monthly_limit == budgets@[k].monthly_limit;
                    let row = old_budgets[j];
                    assert(old_budgets.contains(row));
                    assert(!(row.concept@ == cur.concept@ && row.period@ == cur.period@));
                    assert(remote.budgets_view().contains(row));
                    let j2 = choose|j2: int| 0 <= j2 < remote.budgets_view().len() && remote.budgets_view()[j2] == row;
                    assert(same_budget_key(remote.budgets_view()[j2], budgets@[k]));
                } else {
                    let j = choose|j: int|
                        0 <= j < remote.budgets_view().len() && remote.budgets_view()[j].concept@
                            == cur.concept@ && remote.budgets_view()[j].period@ == cur.period@
                            && remote.budgets_view()[j].monthly_limit == cur.monthly_limit;
                    assert(same_budget_key(remote.budgets_view()[j], cur));
                }
            }
        }
        i = i + 1;
    }
    let config = local.list_config()?;
    let ncfg = config.len();
    let mut i: usize = 0;
    while i < ncfg
        invariant
            remote.wf(),
            remote.concepts_view() == cv,
            remote.accounts_view() == acc_after,
            remote.entries_view().len() == e0 + local.entries_view().len(),
            forall|q: int| 0 <= q < batch@.len() ==> stored_from(remote.entries_view(), #[trigger] batch@[q]),
            forall|k: int|
                0 <= k < local.budgets_view().len() ==> has_budget_row(
                    remote.budgets_view(),
                    #[trigger] local.budgets_view()[k],
                ),
            config@ == local.config_view(),
            sorted_by_key(config@),
            ncfg == config@.len(),
            i <= ncfg,
            forall|k: int|
                0 <= k < i ==> config_has(
                    remote.config_view(),
                    (#[trigger] config@[k]).key@,
                    config@[k].value@,
                ),
        decreases ncfg - i,
    {
        remote.set_config(config[i].key.as_str(), config[i].value.as_str())?;
        proof {
            assert forall|k: int| 0 <= k < i + 1 implies config_has(
                remote.config_view(),
                (#[trigger] config@[k]).key@,
                config@[k].value@,
            ) by {
                if k < i {
                    assert(crate::text::seq_lt(config@[k].key_view(), config@[i as int].key_view()));
                    lemma_seq_lt_irrefl(config@[k].key@);
                }
            }
        }
        i = i + 1;
    }
    proof {
        lemma_copied(
            local.entries_view(),
            local.accounts_view(),
            entries@,
            batch@,
            map@,
            accounts@,
            acc_after,
            remote.entries_view(),
        );
    }
    Ok(
        MigrateSummary {
            accounts: na,
            entries: entries.len(),
            budgets: nbud,
            concepts: nc,
        },
    )
}

} // verus!

verus! {

/// Where the ledger is kept: a local store, or a hosted one (read and
/// written directly) with a local mirror kept converged behind it.
#[derive(Debug)]
pub enum BackendMode {
    Local,
    Remote { url: String, key: String },
}

/// The store the settings select: local without a remote URL, the remote
/// with both a URL and a key; a URL without a key is a configuration error
/// rather than a silent fallback.
pub fn backend_mode(settings: &Settings) -> (r: Result<BackendMode>)
    ensures
        settings.supabase_url is None ==> r matches Ok(BackendMode::Local),
        settings.supabase_url is Some && settings.supabase_publishable_key is None ==> (r matches Err(
            e,
        ) && e is Config),
        settings.supabase_url matches Some(u) ==> (settings.supabase_publishable_key matches Some(k)
            ==> r == Ok::<BackendMode, AppError>(BackendMode::Remote { url: u, key: k })),
{
    if !settings.remote_configured() {
        return Ok(BackendMode::Local);
    }
    if !settings.is_complete() {
        return Err(
            AppError::Config(
                owned(
                    "MONEY_TRACKER_SUPABASE_URL is set but no publishable key is configured (MONEY_TRACKER_SUPABASE_KEY or config.toml). Set the key to use remote mode.",
                ),
            ),
        );
    }
    let url = match &settings.supabase_url {
        Some(u) => u.clone(),
        None => String::new(),
    };
    let key = match &settings.supabase_publishable_key {
        Some(k) => k.clone(),
        None => String::new(),
    };
    Ok(BackendMode::Remote { url, key })
}

/// The warning left when the mirror could not be brought up to date.
pub fn mirror_warning(err: &AppError) -> (r: String)
    ensures
        r@ == "Mirror behind: "@ + error_text(*err),
{
    concat("Mirror behind: ", err.message().as_str())
}

/// `after` holds the same ledger as `before`, cursor included.
pub open spec fn same_store(before: MemoryBackend, after: MemoryBackend) -> bool {
    &&& after.accounts_view() == before.accounts_view()
    &&& after.entries_view() == before.entries_view()
    &&& after.concepts_view() == before.concepts_view()
    &&& after.budgets_view() == before.budgets_view()
    &&& after.config_view() == before.config_view()
    &&& after.last_entry_id() == before.last_entry_id()
    &&& after.last_account_id() == before.last_account_id()
    &&& after.mirror_cursor() == before.mirror_cursor()
}

/// Brings the mirror up to date with what a pull from the remote returned
/// (`pulled`, fetched since the mirror's cursor). Best-effort: an empty
/// delta changes nothing; a failed pull, or a delta the mirror refuses,
/// leaves the mirror as it was and comes back as a warning rather than an
/// error.
pub fn absorb_pull(mirror: &mut MemoryBackend, pulled: Result<LedgerDelta>) -> (warning: Option<
    String,
>)
    requires
        old(mirror).wf(),
    ensures
        final(mirror).wf(),
        pulled matches Err(e) ==> same_store(*old(mirror), *final(mirror)) && (warning matches Some(
            w,
        ) && w@ == "Mirror behind: "@ + error_text(e)),
        pulled matches Ok(d) ==> (d.accounts@.len() == 0 && d.entries@.len() == 0
            && d.budgets@.len() == 0 && d.concepts@.len() == 0 && d.config@.len() == 0
            && d.deletes@.len() == 0 ==> same_store(*old(mirror), *final(mirror)) && warning is None),
        pulled is Ok && warning is None ==> final(mirror).mirror_cursor() == pulled->Ok_0.cursor
            || same_store(*old(mirror), *final(mirror)),
        pulled matches Ok(d) ==> (warning is None && !(d.accounts@.len() == 0 && d.entries@.len() == 0
            && d.budgets@.len() == 0 && d.concepts@.len() == 0 && d.config@.len() == 0
            && d.deletes@.len() == 0) ==> final(mirror).mirror_cursor() == d.cursor
            && crate::storage::memory::mirror::references_intact(
            final(mirror).accounts_view(),
            final(mirror).concepts_view(),
            final(mirror).entries_view(),
            final(mirror).budgets_view(),
        )),
        pulled matches Ok(d) ==> ((exists|k: int|
            0 <= k < d.deletes@.len() && !crate::storage::memory::mirror::known_table(
                (#[trigger] d.deletes@[k]).0@,
            )) ==> warning is Some),
        pulled matches Ok(d) ==> (crate::storage::memory::mirror::adoptable(*old(mirror), d)
            ==> warning is None),
        warning matches Some(w) ==> exists|e: AppError| w@ == "Mirror behind: "@ + error_text(e),
        warning is Some ==> same_store(*old(mirror), *final(mirror)),
{
    match pulled {
        Err(e) => Some(mirror_warning(&e)),
        Ok(delta) => {
            if delta.is_empty() {
                None
            } else {
                match mirror.apply_remote_snapshot(&delta) {
                    Ok(()) => None,
                    Err(e) => Some(mirror_warning(&e)),
                }
            }
        },
    }
}

} // verus!

verus! {

/// The stages of a migration driven step by step, in the order they run.
#[derive(Debug, Clone, Copy, PartialEq, Eq, Structural)]
pub enum MigrationPhase {
    Concepts,
    Accounts,
    Entries,
    Budgets,
    Config,
    Done,
}

/// Where a step-by-step migration stands: the stage, the position within
/// it, the source-to-target account ids paired so far, and whether the
/// target is creating the account at that position.
#[derive(Debug)]
pub struct MigrationState {
    pub phase: MigrationPhase,
    pub next: usize,
    pub map: Vec<(i64, i64)>,
    pub creating: bool,
}

/// What the target answered to the last action.
#[derive(Debug)]
pub enum MigrationEvent {
    /// The migration starts.
    Begin,
    /// The action was carried out.
    Done,
    /// The account was created under this id.
    Created(i64),
    /// The target refused the action.
    Refused(AppError),
}

/// What the target is to do next.
#[derive(Debug)]
pub enum MigrationAction {
    AddConcept { name: String, concept_type: String },
    InsertAccount(NewAccount),
    SetArchived(i64),
    PushEntries(Vec<NewEntry>),
    SetBudget { concept: String, limit: i64, period: String },
    SetConfig { key: String, value: String },
    /// Nothing to do for this item; answer `Done`.
    Nothing,
    /// The migration is complete.
    Finish(MigrateSummary),
    /// The migration stops with this error.
    Fail(AppError),
}

/// The state a migration starts from.
pub fn migration_start() -> (r: MigrationState)
    ensures
        r.phase == MigrationPhase::Concepts,
        r.next == 0,
        r.map@.len() == 0,
        !r.creating,
{
    MigrationState { phase: MigrationPhase::Concepts, next: 0, map: Vec::new(), creating: false }
}

/// Stages in order, for measuring progress.
pub open spec fn phase_rank(p: MigrationPhase) -> int {
    match p {
        MigrationPhase::Concepts => 0,
        MigrationPhase::Accounts => 1,
        MigrationPhase::Entries => 2,
        MigrationPhase::Budgets => 3,
        MigrationPhase::Config => 4,
        MigrationPhase::Done => 5,
    }
}

/// The stage after `p`.
pub open spec fn phase_after(p: MigrationPhase) -> MigrationPhase {
    match p {
        MigrationPhase::Concepts => MigrationPhase::Accounts,
        MigrationPhase::Accounts => MigrationPhase::Entries,
        MigrationPhase::Entries => MigrationPhase::Budgets,
        MigrationPhase::Budgets => MigrationPhase::Config,
        _ => MigrationPhase::Done,
    }
}

/// Batches of fifty needed for `n` entries.
pub open spec fn chunk_count(n: int) -> int {
    (n + 49) / 50
}

/// How many items stage `p` has for the source ledger.
pub open spec fn phase_len(local: MemoryBackend, p: MigrationPhase) -> int {
    match p {
        MigrationPhase::Concepts => concept_listing(local.concepts_view()).len() as int,
        MigrationPhase::Accounts => account_listing(local.accounts_view(), true).len() as int,
        MigrationPhase::Entries => chunk_count(local.entries_view().len() as int),
        MigrationPhase::Budgets => local.budgets_view().len() as int,
        MigrationPhase::Config => local.config_view().len() as int,
        MigrationPhase::Done => 0,
    }
}

/// The stage and position that actually has an item, from stage `p` at
/// position `n` on: empty or finished stages are passed over.
pub open spec fn active_phase(local: MemoryBackend, p: MigrationPhase, n: int) -> (MigrationPhase, int)
    decreases 5 - phase_rank(p),
{
    if p == MigrationPhase::Done {
        (MigrationPhase::Done, 0)
    } else if n < phase_len(local, p) {
        (p, n)
    } else {
        active_phase(local, phase_after(p), 0)
    }
}

/// Every account an entry points at has a counterpart under `map`.
pub open spec fn all_mapped(entries: Seq<Entry>, map: Seq<(i64, i64)>) -> bool {
    forall|k: int|
        0 <= k < entries.len() ==> remapped(map, (#[trigger] entries[k]).from_account_id) is Some
            && remapped(map, entries[k].to_account_id) is Some
}

/// Entry `e` as it is written to the target, its accounts re-pointed.
pub open spec fn migrated_entry(e: Entry, map: Seq<(i64, i64)>) -> NewEntry {
    NewEntry {
        date: e.date,
        kind: e.kind,
        amount: e.amount,
        from_account_id: remapped(map, e.from_account_id)->0,
        to_account_id: remapped(map, e.to_account_id)->0,
        concept: e.concept,
        subconcept: e.subconcept,
        description: e.description,
    }
}

/// The entries as they are written, oldest first (`entries` is newest
/// first).
pub open spec fn migration_rows(entries: Seq<Entry>, map: Seq<(i64, i64)>) -> Seq<NewEntry> {
    Seq::new(entries.len(), |k: int| migrated_entry(entries[entries.len() - 1 - k], map))
}

/// Batch `c` of fifty rows.
pub open spec fn chunk_of(rows: Seq<NewEntry>, c: int) -> Seq<NewEntry> {
    rows.subrange(50 * c, if 50 * c + 50 < rows.len() {
        50 * c + 50
    } else {
        rows.len() as int
    })
}

/// The account a source account becomes in the target.
pub open spec fn new_account_like(a: crate::models::Account) -> NewAccount {
    NewAccount {
        name: a.name,
        kind: a.kind,
        target_amount: a.target_amount,
        credit_limit: a.credit_limit,
        liquid: a.liquid,
    }
}

/// What the migration reports once complete: how many accounts, entries,
/// budgets and concepts it read from the source.
pub open spec fn migration_summary(local: MemoryBackend) -> (usize, usize, usize, usize) {
    (
        account_listing(local.accounts_view(), true).len() as usize,
        local.entries_view().len() as usize,
        local.budgets_view().len() as usize,
        concept_listing(local.concepts_view()).len() as usize,
    )
}

/// From stage `p`, position `n`, the migration issues the action for the
/// first item still to do and moves past it: a concept is added unless the
/// target has its name; an account found by name in the target is paired
/// with it (and archived there when archived here), one not found is
/// created; the entries go in batches of fifty, oldest first, once every
/// account they point at is paired; then each budget and each setting is
/// set. With nothing left the migration finishes with its counts.
pub open spec fn proceeds(
    local: MemoryBackend,
    target: MemoryBackend,
    p: MigrationPhase,
    n: int,
    map: Seq<(i64, i64)>,
    s: MigrationState,
    act: MigrationAction,
) -> bool {
    let (q, m) = active_phase(local, p, n);
    if q == MigrationPhase::Concepts {
        let c = concept_listing(local.concepts_view())[m];
        &&& s.phase == MigrationPhase::Concepts && s.next == m + 1 && s.map@ == map && !s.creating
        &&& if has_key(target.concepts_view(), c.name@) {
            act is Nothing
        } else {
            act == (MigrationAction::AddConcept { name: c.name, concept_type: c.concept_type })
        }
    } else if q == MigrationPhase::Accounts {
        let a = account_listing(local.accounts_view(), true)[m];
        if has_key(target.accounts_view(), a.name@) {
            exists|i: int|
                0 <= i < target.accounts_view().len() && (#[trigger] target.accounts_view()[i]).name@
                    == a.name@ && s.phase == MigrationPhase::Accounts && s.next == m + 1 && s.map@
                    == map.push((a.id, target.accounts_view()[i].id)) && !s.creating && act == (
                if a.archived && !target.accounts_view()[i].archived {
                    MigrationAction::SetArchived(target.accounts_view()[i].id)
                } else {
                    MigrationAction::Nothing
                })
        } else {
            &&& s.phase == MigrationPhase::Accounts && s.next == m && s.map@ == map && s.creating
            &&& act == MigrationAction::InsertAccount(new_account_like(a))
        }
    } else if q == MigrationPhase::Entries {
        if !all_mapped(local.entries_view(), map) {
            s.phase == MigrationPhase::Done && (act matches MigrationAction::Fail(e) && e is Invalid)
        } else {
            &&& s.phase == MigrationPhase::Entries && s.next == m + 1 && s.map@ == map && !s.creating
            &&& act matches MigrationAction::PushEntries(v) && v@ == chunk_of(
                migration_rows(local.entries_view(), map),
                m,
            )
        }
    } else if q == MigrationPhase::Budgets {
        let b = local.budgets_view()[m];
        &&& s.phase == MigrationPhase::Budgets && s.next == m + 1 && s.map@ == map && !s.creating
        &&& act == (MigrationAction::SetBudget {
            concept: b.concept,
            limit: b.monthly_limit,
            period: b.period,
        })
    } else if q == MigrationPhase::Config {
        let c = local.config_view()[m];
        &&& s.phase == MigrationPhase::Config && s.next == m + 1 && s.map@ == map && !s.creating
        &&& act == (MigrationAction::SetConfig { key: c.key, value: c.value })
    } else {
        let (na, ne, nb, nc) = migration_summary(local);
        &&& s.phase == MigrationPhase::Done && !s.creating
        &&& act == MigrationAction::Finish(
            MigrateSummary { accounts: na, entries: ne, budgets: nb, concepts: nc },
        )
    }
}

/// Whether the target holds a concept named `name`.
fn target_has_concept(target: &MemoryBackend, name: &str) -> (r: bool)
    requires
        target.wf(),
    ensures
        r == has_key(target.concepts_view(), name@),
{
    let present = match target.list_concepts(None) {
        Ok(v) => v,
        Err(_) => {
            return false;
        },
    };
    let mut known = false;
    let mut q: usize = 0;
    while q < present.len()
        invariant
            q <= present@.len(),
            known <==> exists|k: int| 0 <= k < q && (#[trigger] present@[k]).name@ == name@,
        decreases present@.len() - q,
    {
        if crate::text::str_eq(present[q].name.as_str(), name) {
            known = true;
        }
        q = q + 1;
    }
    proof {
        target.lemma_concept_types();
        lemma_concept_listing_members(target.concepts_view());
        assert(present@ == concept_listing(target.concepts_view()));
        if known {
            let k = choose|k: int| 0 <= k < present@.len() && (#[trigger] present@[k]).name@ == name@;
            assert(target.concepts_view().contains(present@[k]));
            let w = choose|w: int|
                0 <= w < target.concepts_view().len() && target.concepts_view()[w] == present@[k];
            assert(target.concepts_view()[w].key_view() == name@);
        }
        if has_key(target.concepts_view(), name@) {
            let w = choose|w: int|
                0 <= w < target.concepts_view().len() && target.concepts_view()[w].key_view() == name@;
            assert(present@.contains(target.concepts_view()[w]));
            let k = choose|k: int| 0 <= k < present@.len() && present@[k] == target.concepts_view()[w];
            assert(present@[k].name@ == name@);
        }
    }
    known
}

/// The batch for the source's entries under `map`, or the refusal when
/// some account they point at is not paired yet.
fn migration_rows_for(local: &MemoryBackend, map: &Vec<(i64, i64)>) -> (r: Result<Vec<NewEntry>>)
    requires
        local.wf(),
    ensures
        r is Ok <==> all_mapped(local.entries_view(), map@),
        r matches Err(e) ==> e is Invalid,
        r matches Ok(rows) ==> rows@ == migration_rows(local.entries_view(), map@),
{
    let all = EntryFilter::default();
    let entries = match local.entries(&all) {
        Ok(v) => v,
        Err(e) => {
            return Err(e);
        },
    };
    let ghost le = local.entries_view();
    proof {
        crate::storage::memory::lemma_filter_keeps_all(
            le,
            |e: Entry| crate::storage::memory::entry_matches(all, e),
        );
        assert(entries@.len() == le.len());
        assert forall|k: int| 0 <= k < le.len() implies (#[trigger] entries@[k]).from_account_id
            == le[k].from_account_id && entries@[k].to_account_id == le[k].to_account_id by {
            assert(crate::storage::memory::listed_as(le[k], local.accounts_view(), entries@[k]));
        }
        if all_mapped(le, map@) {
            assert forall|k: int| 0 <= k < entries@.len() implies remapped(
                map@,
                (#[trigger] entries@[k]).from_account_id,
            ) is Some && remapped(map@, entries@[k].to_account_id) is Some by {
                assert(remapped(map@, le[k].from_account_id) is Some);
            }
        } else {
            let k = choose|k: int|
                0 <= k < le.len() && !(remapped(map@, (#[trigger] le[k]).from_account_id) is Some
                    && remapped(map@, le[k].to_account_id) is Some);
            assert(entries@[k].from_account_id == le[k].from_account_id);
        }
    }
    let rows = migration_batch(entries.as_slice(), map)?;
    proof {
        let n = le.len();
        assert forall|k: int| 0 <= k < n implies #[trigger] rows@[k] == migrated_entry(
            le[n - 1 - k],
            map@,
        ) by {
            let i = n - 1 - k;
            assert(crate::storage::memory::listed_as(le[i], local.accounts_view(), entries@[i]));
            assert(remapped(map@, le[i].from_account_id) is Some);
        }
        assert(rows@ =~= migration_rows(le, map@));
    }
    Ok(rows)
}

/// The next action from stage `phase`, position `next` (see `proceeds`).
#[verifier::rlimit(40)]
fn migration_proceed(
    local: &MemoryBackend,
    target: &MemoryBackend,
    phase: MigrationPhase,
    next: usize,
    map: Vec<(i64, i64)>,
) -> (r: (MigrationState, MigrationAction))
    requires
        local.wf(),
        target.wf(),
    ensures
        proceeds(*local, *target, phase, next as int, map@, r.0, r.1),
{
    let ghost map0 = map@;
    let ghost goal = active_phase(*local, phase, next as int);
    let mut map = map;
    let mut p = phase;
    let mut n = next;
    if p == MigrationPhase::Concepts {
        let list = match local.list_concepts(None) {
            Ok(v) => v,
            Err(e) => {
                return stopped(map, e);
            },
        };
        if n < list.len() {
            let c = &list[n];
            let act = if target_has_concept(target, c.name.as_str()) {
                MigrationAction::Nothing
            } else {
                MigrationAction::AddConcept { name: c.name.clone(), concept_type: c.concept_type.clone() }
            };
            return (MigrationState { phase: MigrationPhase::Concepts, next: n + 1, map, creating: false }, act);
        }
        p = MigrationPhase::Accounts;
        n = 0;
    }
    assert(active_phase(*local, p, n as int) == goal);
    if p == MigrationPhase::Accounts {
        let list = match local.raw_accounts(true) {
            Ok(v) => v,
            Err(e) => {
                return stopped(map, e);
            },
        };
        if n < list.len() {
            let a = &list[n];
            match target.find_account_by_name(a.name.as_str()) {
                Ok(Some(existing)) => {
                    let act = if a.archived && !existing.archived {
                        MigrationAction::SetArchived(existing.id)
                    } else {
                        MigrationAction::Nothing
                    };
                    map.push((a.id, existing.id));
                    return (MigrationState { phase: MigrationPhase::Accounts, next: n + 1, map, creating: false }, act);
                },
                Ok(None) => {
                    let new = NewAccount {
                        name: a.name.clone(),
                        kind: a.kind,
                        target_amount: a.target_amount,
                        credit_limit: a.credit_limit,
                        liquid: a.liquid,
                    };
                    return (MigrationState { phase: MigrationPhase::Accounts, next: n, map, creating: true }, MigrationAction::InsertAccount(new));
                },
                Err(e) => {
                    return stopped(map, e);
                },
            }
        }
        p = MigrationPhase::Entries;
        n = 0;
    }
    assert(active_phase(*local, p, n as int) == goal);
    if p == MigrationPhase::Entries {
        let total = local.entry_count();
        if total > 0 && n <= (total - 1) / 50 {
            let rows = match migration_rows_for(local, &map) {
                Ok(rows) => rows,
                Err(e) => {
                    return stopped(map, e);
                },
            };
            proof {
                assert(n * 50 <= total - 1) by (nonlinear_arith)
                    requires
                        n <= (total - 1) / 50,
                        total >= 1,
                ;
            }
            let start = n * 50;
            let end = if rows.len() - start > 50 {
                start + 50
            } else {
                rows.len()
            };
            let mut chunk: Vec<NewEntry> = Vec::new();
            let mut k: usize = start;
            while k < end
                invariant
                    start <= k <= end,
                    end <= rows@.len(),
                    chunk@ == rows@.subrange(start as int, k as int),
                decreases end - k,
            {
                chunk.push(rows[k].clone());
                k = k + 1;
                proof {
                    assert(chunk@ =~= rows@.subrange(start as int, k as int));
                }
            }
            proof {
                assert(n < chunk_count(total as int)) by (nonlinear_arith)
                    requires
                        n <= (total - 1) / 50,
                        total >= 1,
                ;
            }
            return (MigrationState { phase: MigrationPhase::Entries, next: n + 1, map, creating: false }, MigrationAction::PushEntries(chunk));
        }
        proof {
            if total > 0 {
                assert(n >= chunk_count(total as int)) by (nonlinear_arith)
                    requires
                        n > (total - 1) / 50,
                        total >= 1,
                ;
            }
        }
        p = MigrationPhase::Budgets;
        n = 0;
    }
    assert(active_phase(*local, p, n as int) == goal);
    if p == MigrationPhase::Budgets {
        let list = match local.list_budgets(None) {
            Ok(v) => v,
            Err(e) => {
                return stopped(map, e);
            },
        };
        if n < list.len() {
            let b = &list[n];
            let act = MigrationAction::SetBudget {
                concept: b.concept.clone(),
                limit: b.monthly_limit,
                period: b.period.clone(),
            };
            return (MigrationState { phase: MigrationPhase::Budgets, next: n + 1, map, creating: false }, act);
        }
        p = MigrationPhase::Config;
        n = 0;
    }
    assert(active_phase(*local, p, n as int) == goal);
    if p == MigrationPhase::Config {
        let list = match local.list_config() {
            Ok(v) => v,
            Err(e) => {
                return stopped(map, e);
            },
        };
        if n < list.len() {
            let c = &list[n];
            let act = MigrationAction::SetConfig { key: c.key.clone(), value: c.value.clone() };
            return (MigrationState { phase: MigrationPhase::Config, next: n + 1, map, creating: false }, act);
        }
        p = MigrationPhase::Done;
        n = 0;
    }
    assert(active_phase(*local, p, n as int) == goal);
    let summary = match migration_counts(local) {
        Ok(s) => s,
        Err(e) => {
            return stopped(map, e);
        },
    };
    (MigrationState { phase: MigrationPhase::Done, next: 0, map, creating: false }, MigrationAction::Finish(summary))
}

/// The counts a finished migration reports.
fn migration_counts(local: &MemoryBackend) -> (r: Result<MigrateSummary>)
    requires
        local.wf(),
    ensures
        r matches Ok(s) && (s.accounts, s.entries, s.budgets, s.concepts) == migration_summary(*local),
{
    let accounts = local.raw_accounts(true)?;
    let budgets = local.list_budgets(None)?;
    let concepts = local.list_concepts(None)?;
    let total = local.entry_count();
    Ok(MigrateSummary { accounts: accounts.len(), entries: total, budgets: budgets.len(), concepts: concepts.len() })
}

/// One step of a migration of `local` into a target whose rows were `target`
/// when it started: from where the migration stands and what the target
/// answered, the next state and the next action for the target. A refusal
/// stops the migration, except that a concept refused as invalid is passed
/// over; an account being created takes the id the target answered (and is
/// archived next when archived here); otherwise the migration proceeds to
/// the next item (see `proceeds`).
pub fn migration_step(
    local: &MemoryBackend,
    target: &MemoryBackend,
    st: MigrationState,
    ev: MigrationEvent,
) -> (r: (MigrationState, MigrationAction))
    requires
        local.wf(),
        target.wf(),
    ensures
        ev matches MigrationEvent::Refused(e) ==> (!(st.phase == MigrationPhase::Concepts
            && !st.creating && e is Invalid) ==> r.0.phase == MigrationPhase::Done && r.1
            == MigrationAction::Fail(e)),
        st.creating && (ev is Begin || ev is Done) ==> r.0.phase == MigrationPhase::Done && (
        r.1 matches MigrationAction::Fail(e) && e is Invalid),
        !st.creating && ev is Created ==> r.0.phase == MigrationPhase::Done && (
        r.1 matches MigrationAction::Fail(e) && e is Invalid),
        ev matches MigrationEvent::Created(id) ==> (st.creating ==> {
            let accounts = account_listing(local.accounts_view(), true);
            if st.phase == MigrationPhase::Accounts && st.next < accounts.len() {
                let a = accounts[st.next as int];
                &&& r.0.phase == MigrationPhase::Accounts && r.0.next == st.next + 1
                &&& r.0.map@ == st.map@.push((a.id, id)) && !r.0.creating
                &&& r.1 == if a.archived {
                    MigrationAction::SetArchived(id)
                } else {
                    MigrationAction::Nothing
                }
            } else {
                r.0.phase == MigrationPhase::Done && (r.1 matches MigrationAction::Fail(e) && e is Invalid)
            }
        }),
        !st.creating && (ev is Begin || ev is Done || (ev matches MigrationEvent::Refused(e)
            && st.phase == MigrationPhase::Concepts && e is Invalid)) ==> proceeds(
            *local,
            *target,
            st.phase,
            st.next as int,
            st.map@,
            r.0,
            r.1,
        ),
{
    let MigrationState { phase, next, map, creating } = st;
    match ev {
        MigrationEvent::Refused(e) => {
            let benign = phase == MigrationPhase::Concepts && !creating && match e {
                AppError::Invalid(_) => true,
                _ => false,
            };
            if !benign {
                return stopped(map, e);
            }
            migration_proceed(local, target, phase, next, map)
        },
        MigrationEvent::Created(id) => {
            if !creating {
                return stopped(map, AppError::Invalid(owned("unexpected account id from the target")));
            }
            let accounts = match local.raw_accounts(true) {
                Ok(v) => v,
                Err(e) => {
                    return stopped(map, e);
                },
            };
            if phase != MigrationPhase::Accounts || next >= accounts.len() {
                return stopped(map, AppError::Invalid(owned("unexpected account id from the target")));
            }
            let a = &accounts[next];
            let mut map = map;
            map.push((a.id, id));
            let act = if a.archived {
                MigrationAction::SetArchived(id)
            } else {
                MigrationAction::Nothing
            };
            (MigrationState { phase: MigrationPhase::Accounts, next: next + 1, map, creating: false }, act)
        },
        _ => {
            if creating {
                return stopped(map, AppError::Invalid(owned("the target did not answer with an account id")));
            }
            migration_proceed(local, target, phase, next, map)
        },
    }
}

/// A stopped migration.
fn stopped(map: Vec<(i64, i64)>, e: AppError) -> (r: (MigrationState, MigrationAction))
    ensures
        r.0.phase == MigrationPhase::Done,
        !r.0.creating,
        r.1 == MigrationAction::Fail(e),
{
    (MigrationState { phase: MigrationPhase::Done, next: 0, map, creating: false }, MigrationAction::Fail(e))
}

} // verus!
