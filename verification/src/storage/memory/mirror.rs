//! The mirror side of sync: applying a remote delta to the store, all or
//! nothing, with the store's keys and references kept intact.
use vstd::prelude::*;

use crate::error::{AppError, Result};
use crate::models::{clone_opt, Account, AccountKind, Budget, Concept, Config, Entry, EntryKind};
use crate::period::{is_canonical_date, is_canonical_period, is_period_text, validate_date};
use crate::storage::LedgerDelta;
use crate::storage::memory::{
    config_has,
    account_with, account_ids_distinct, as_new, entry_capacity, has_entry, is_concept_type,
    lemma_filter_full, one_active_emergency, shape_ok, MemoryBackend,
};
use crate::storage::table::{
    budget_before, budgets_ordered, Keyed, find_budget, find_key, has_key, insert_budget, insert_entry,
    insert_keyed, lemma_filter_budgets, lemma_filter_sorted, same_budget_key, sorted_by_key,
};
use crate::text::{owned, str_eq};

verus! {

/// The row `e` is stored as: the same values, without account names.
pub open spec fn stored_row(e: Entry) -> Entry {
    Entry { from_account: None, to_account: None, ..e }
}

/// A row passes the entry constraints: a canonical date, a positive
/// amount, the endpoint shape of its kind, a concept on income and
/// expense.
pub open spec fn entry_row_valid(e: Entry) -> bool {
    &&& is_canonical_date(e.date@)
    &&& e.amount > 0
    &&& shape_ok(as_new(e))
    &&& (e.kind == EntryKind::Income || e.kind == EntryKind::Expense ==> e.concept is Some)
}


/// Account `x` gives way to an incoming `a`: it has `a`'s id or name, or
/// both are active emergency funds.
pub open spec fn gives_way(a: Account, x: Account) -> bool {
    x.id == a.id || x.name@ == a.name@ || (a.kind == AccountKind::Emergency && !a.archived && x.kind
        == AccountKind::Emergency && !x.archived)
}


/// `e` is `old` with at most its concept changed: the same id, date, kind,
/// amount and accounts.
pub open spec fn same_movement(old: Entry, e: Entry) -> bool {
    &&& e.id == old.id
    &&& e.date == old.date
    &&& e.kind == old.kind
    &&& e.amount == old.amount
    &&& e.from_account_id == old.from_account_id
    &&& e.to_account_id == old.to_account_id
}

/// `e` is `old` with its concept renamed from `from` to `to`: a concept
/// named `from` is named `to`, any other concept and every other field stay.
pub open spec fn concept_renamed(old: Entry, e: Entry, from: Seq<char>, to: Seq<char>) -> bool {
    &&& same_movement(old, e)
    &&& e.from_account == old.from_account
    &&& e.to_account == old.to_account
    &&& e.subconcept == old.subconcept
    &&& e.description == old.description
    &&& (old.concept is None <==> e.concept is None)
    &&& (old.concept matches Some(c) ==> (e.concept matches Some(d) && d@ == if c@ == from {
        to
    } else {
        c@
    } && (c@ != from ==> d == c)))
}

/// An account row passes the account constraints: a goal only on a
/// target account and a limit only on a credit account, each positive.
pub open spec fn account_row_valid(a: Account) -> bool {
    &&& (a.target_amount matches Some(t) ==> a.kind == AccountKind::Target && t > 0)
    &&& (a.credit_limit matches Some(c) ==> a.kind == AccountKind::Credit && c > 0)
}

/// Budget `x` is budget `y` filed under concept `name`.
pub open spec fn moved_budget(y: Budget, x: Budget, name: Seq<char>) -> bool {
    &&& x.id == y.id
    &&& x.period == y.period
    &&& x.monthly_limit == y.monthly_limit
    &&& x.concept@ == name
}

/// Moving the budgets of concept `from` to concept `to` would give `to`
/// two budgets for one period.
pub open spec fn budget_rename_conflict(budgets: Seq<Budget>, from: Seq<char>, to: Seq<char>) -> bool {
    &&& from != to
    &&& exists|p: int, q: int|
        #![trigger budgets[p], budgets[q]]
        0 <= p < budgets.len() && 0 <= q < budgets.len() && budgets[p].concept@ == from
            && budgets[q].concept@ == to && budgets[q].period@ == budgets[p].period@
}

/// The name of the concept that holds id `id` under another name than
/// `name` (the last such one), which storing `name` under `id` renames.
pub open spec fn renaming_source(concepts: Seq<Concept>, id: i64, name: Seq<char>) -> Option<Seq<char>>
    decreases concepts.len(),
{
    if concepts.len() == 0 {
        None
    } else if concepts.last().id == Some(id) && concepts.last().name@ != name {
        Some(concepts.last().name@)
    } else {
        renaming_source(concepts.drop_last(), id, name)
    }
}

/// The id an incoming concept is stored under: its own, else the next one.
pub open spec fn concept_row_id(c: Concept, last: i64) -> i64 {
    match c.id {
        Some(i) => i,
        None => (last + 1) as i64,
    }
}

/// Every row of the delta passes its own table's constraints, and every
/// deletion names a table that rows are deleted from.
pub open spec fn delta_rows_valid(d: LedgerDelta) -> bool {
    &&& forall|k: int|
        0 <= k < d.concepts@.len() ==> is_concept_type((#[trigger] d.concepts@[k]).concept_type@)
    &&& forall|k: int| 0 <= k < d.accounts@.len() ==> account_row_valid(#[trigger] d.accounts@[k])
    &&& forall|k: int|
        0 <= k < d.budgets@.len() ==> (#[trigger] d.budgets@[k]).monthly_limit > 0
            && is_canonical_period(d.budgets@[k].period@)
    &&& forall|k: int| 0 <= k < d.entries@.len() ==> entry_row_valid(#[trigger] d.entries@[k])
    &&& forall|k: int|
        0 <= k < d.deletes@.len() ==> known_table((#[trigger] d.deletes@[k]).0@) && d.deletes@[k].0@
            != "config"@
}

/// The delta carries no account, entry, budget or concept row.
pub open spec fn no_table_rows(d: LedgerDelta) -> bool {
    &&& d.accounts@.len() == 0
    &&& d.entries@.len() == 0
    &&& d.budgets@.len() == 0
    &&& d.concepts@.len() == 0
}

/// The delta only sets configuration and deletes entries or budgets.
pub open spec fn delta_light(d: LedgerDelta) -> bool {
    &&& no_table_rows(d)
    &&& forall|k: int|
        0 <= k < d.deletes@.len() ==> (#[trigger] d.deletes@[k]).0@ == "entries"@ || d.deletes@[k].0@
            == "budgets"@
}

/// Keeping only some of the entries and budgets keeps every reference
/// resolving.
proof fn lemma_references_subset(
    accounts: Seq<Account>,
    concepts: Seq<Concept>,
    entries: Seq<Entry>,
    budgets: Seq<Budget>,
    entries2: Seq<Entry>,
    budgets2: Seq<Budget>,
)
    requires
        references_intact(accounts, concepts, entries, budgets),
        forall|x: Entry| #[trigger] entries2.contains(x) ==> entries.contains(x),
        forall|x: Budget| #[trigger] budgets2.contains(x) ==> budgets.contains(x),
    ensures
        references_intact(accounts, concepts, entries2, budgets2),
{
    assert forall|k: int| 0 <= k < entries2.len() implies ((#[trigger] entries2[k]).from_account_id matches Some(
        i,
    ) ==> account_with(accounts, i) is Some) && (entries2[k].to_account_id matches Some(i)
        ==> account_with(accounts, i) is Some) && (entries2[k].concept matches Some(c) ==> has_key(
        concepts,
        c@,
    )) by {
        assert(entries2.contains(entries2[k]));
        let j = choose|j: int| 0 <= j < entries.len() && entries[j] == entries2[k];
        assert(entries[j] == entries2[k]);
    }
    assert forall|k: int| 0 <= k < budgets2.len() implies has_key(
        concepts,
        (#[trigger] budgets2[k]).concept@,
    ) by {
        assert(budgets2.contains(budgets2[k]));
        let j = choose|j: int| 0 <= j < budgets.len() && budgets[j] == budgets2[k];
        assert(budgets[j] == budgets2[k]);
    }
}

/// No concept among the first `n` of `d` makes stored concept `y` give way.
pub open spec fn concept_survives(y: Concept, d: Seq<Concept>, n: int) -> bool {
    forall|k: int| 0 <= k < n ==> !concept_gives_way((#[trigger] d[k]).name@, d[k].id->0, y)
}

/// Concept name `n` is still borne once the delta's concepts `d` are stored
/// over `concepts`: a concept of the delta bears it, or a stored concept
/// does that no concept of the delta takes the id of under another name.
pub open spec fn concept_name_kept(concepts: Seq<Concept>, d: Seq<Concept>, n: Seq<char>) -> bool {
    ||| exists|k: int| 0 <= k < d.len() && (#[trigger] d[k]).name@ == n
    ||| exists|i: int|
        0 <= i < concepts.len() && (#[trigger] concepts[i]).name@ == n && forall|k: int|
            0 <= k < d.len() ==> !((#[trigger] d[k]).id == concepts[i].id && d[k].name@ != n)
}

/// Some account of the delta has id `id`.
pub open spec fn delta_account_id(d: LedgerDelta, id: i64) -> bool {
    exists|j: int| 0 <= j < d.accounts@.len() && (#[trigger] d.accounts@[j]).id == id
}

/// Entry `e` of the delta points at accounts of the delta and at a concept
/// name still borne.
pub open spec fn entry_refs_in(concepts: Seq<Concept>, d: LedgerDelta, e: Entry) -> bool {
    &&& (e.from_account_id matches Some(i) ==> delta_account_id(d, i))
    &&& (e.to_account_id matches Some(i) ==> delta_account_id(d, i))
    &&& (e.concept matches Some(c) ==> concept_name_kept(concepts, d.concepts@, c@))
}

/// A snapshot that holds together over stored concepts `concepts`: its
/// concepts and accounts carry ids and do not displace one another, its
/// budgets carry ids, it deletes only entries and budgets, and its entries
/// and budgets point at its own accounts and at concept names still borne.
pub open spec fn snapshot_consistent(concepts: Seq<Concept>, d: LedgerDelta) -> bool {
    &&& forall|k: int| 0 <= k < d.concepts@.len() ==> #[trigger] concept_kept(d.concepts@, k)
    &&& forall|k: int| 0 <= k < d.accounts@.len() ==> #[trigger] account_kept(d.accounts@, k)
    &&& forall|k: int| 0 <= k < d.budgets@.len() ==> (#[trigger] d.budgets@[k]).id is Some
    &&& forall|k: int|
        0 <= k < d.deletes@.len() ==> (#[trigger] d.deletes@[k]).0@ == "entries"@ || d.deletes@[k].0@
            == "budgets"@
    &&& forall|k: int| 0 <= k < d.entries@.len() ==> entry_refs_in(concepts, d, #[trigger] d.entries@[k])
    &&& forall|k: int|
        0 <= k < d.budgets@.len() ==> concept_name_kept(
            concepts,
            d.concepts@,
            (#[trigger] d.budgets@[k]).concept@,
        )
}

/// The store adopts delta `d` whole: the delta's rows pass their checks
/// and hold together over the stored concepts; the store holds only entries
/// and budgets that the delta carries too, and, when it holds any, the delta
/// renames none of its concepts; and the store has room for the delta's
/// accounts and entries.
pub open spec fn adoptable(store: MemoryBackend, d: LedgerDelta) -> bool {
    &&& delta_rows_valid(d)
    &&& snapshot_consistent(store.concepts_view(), d)
    &&& forall|x: Entry|
        #[trigger] store.entries_view().contains(x) ==> exists|k: int|
            0 <= k < d.entries@.len() && x == stored_row(#[trigger] d.entries@[k])
    &&& forall|x: Budget|
        #[trigger] store.budgets_view().contains(x) ==> exists|k: int|
            0 <= k < d.budgets@.len() && x == #[trigger] d.budgets@[k]
    &&& (store.entries_view().len() == 0 && store.budgets_view().len() == 0) || no_renames(
        store.concepts_view(),
        d.concepts@,
    )
    &&& store.accounts_view().len() + d.accounts@.len() < 0x4000_0000
    &&& store.entries_view().len() + d.entries@.len() < 0x2_0000_0000
}

/// An adopted snapshot's references resolve: every entry is one of the
/// delta's, pointing at its accounts, all stored, and at concept names
/// still borne; every budget is one of the delta's.
proof fn lemma_adopted_refs(
    old_concepts: Seq<Concept>,
    d: LedgerDelta,
    accounts: Seq<Account>,
    concepts: Seq<Concept>,
    entries: Seq<Entry>,
    budgets: Seq<Budget>,
)
    requires
        snapshot_consistent(old_concepts, d),
        forall|k: int| 0 <= k < d.accounts@.len() ==> accounts.contains(#[trigger] d.accounts@[k]),
        forall|n: Seq<char>| concept_name_kept(old_concepts, d.concepts@, n) ==> has_key(concepts, n),
        forall|x: Entry|
            #[trigger] entries.contains(x) ==> exists|k: int|
                0 <= k < d.entries@.len() && x == stored_row(#[trigger] d.entries@[k]),
        forall|x: Budget|
            #[trigger] budgets.contains(x) ==> exists|k: int|
                0 <= k < d.budgets@.len() && x == #[trigger] d.budgets@[k],
    ensures
        references_intact(accounts, concepts, entries, budgets),
{
    assert forall|k: int| 0 <= k < entries.len() implies ((#[trigger] entries[k]).from_account_id matches Some(
        i,
    ) ==> account_with(accounts, i) is Some) && (entries[k].to_account_id matches Some(i)
        ==> account_with(accounts, i) is Some) && (entries[k].concept matches Some(c) ==> has_key(
        concepts,
        c@,
    )) by {
        let x = entries[k];
        assert(entries.contains(x));
        let j = choose|j: int| 0 <= j < d.entries@.len() && x == stored_row(#[trigger] d.entries@[j]);
        let e = d.entries@[j];
        assert(entry_refs_in(old_concepts, d, e));
        if let Some(i) = x.from_account_id {
            let w = choose|w: int| 0 <= w < d.accounts@.len() && (#[trigger] d.accounts@[w]).id == i;
            lemma_account_with_contains(accounts, d.accounts@[w]);
        }
        if let Some(i) = x.to_account_id {
            let w = choose|w: int| 0 <= w < d.accounts@.len() && (#[trigger] d.accounts@[w]).id == i;
            lemma_account_with_contains(accounts, d.accounts@[w]);
        }
    }
    assert forall|k: int| 0 <= k < budgets.len() implies has_key(
        concepts,
        (#[trigger] budgets[k]).concept@,
    ) by {
        assert(budgets.contains(budgets[k]));
        let j = choose|j: int| 0 <= j < d.budgets@.len() && budgets[k] == #[trigger] d.budgets@[j];
    }
}

/// Every concept name still borne after the delta's concepts is a key of
/// the concepts stored.
proof fn lemma_names_kept(old_c: Seq<Concept>, d: Seq<Concept>, cs: Seq<Concept>)
    requires
        forall|k: int| 0 <= k < d.len() ==> (#[trigger] d[k]).id is Some && cs.contains(d[k]),
        forall|y: Concept| #[trigger] old_c.contains(y) && concept_survives(y, d, d.len() as int) ==> cs.contains(y),
    ensures
        forall|n: Seq<char>| concept_name_kept(old_c, d, n) ==> has_key(cs, n),
{
    assert forall|n: Seq<char>| concept_name_kept(old_c, d, n) implies has_key(cs, n) by {
        if exists|k: int| 0 <= k < d.len() && (#[trigger] d[k]).name@ == n {
            let k = choose|k: int| 0 <= k < d.len() && (#[trigger] d[k]).name@ == n;
            assert(cs.contains(d[k]));
            let w = choose|w: int| 0 <= w < cs.len() && cs[w] == d[k];
            assert(cs[w].key_view() == n);
        } else {
            let i = choose|i: int|
                0 <= i < old_c.len() && (#[trigger] old_c[i]).name@ == n && forall|k: int|
                    0 <= k < d.len() ==> !((#[trigger] d[k]).id == old_c[i].id && d[k].name@ != n);
            let y = old_c[i];
            assert(concept_survives(y, d, d.len() as int)) by {
                assert forall|k: int| 0 <= k < d.len() implies !concept_gives_way(
                    (#[trigger] d[k]).name@,
                    d[k].id->0,
                    y,
                ) by {
                    assert(d[k].name@ != n);
                }
            }
            assert(old_c.contains(y));
            assert(cs.contains(y));
            let w = choose|w: int| 0 <= w < cs.len() && cs[w] == y;
            assert(cs[w].key_view() == n);
        }
    }
}

/// Some account of `accounts` has id `id`.
pub open spec fn has_account_id(accounts: Seq<Account>, id: i64) -> bool {
    exists|j: int| 0 <= j < accounts.len() && accounts[j].id == id
}

/// Some concept of `concepts` has id `id`.
pub open spec fn has_concept_id(concepts: Seq<Concept>, id: i64) -> bool {
    exists|j: int| 0 <= j < concepts.len() && concepts[j].id == Some(id)
}

/// Some budget of `budgets` has id `id`.
pub open spec fn has_budget_id(budgets: Seq<Budget>, id: i64) -> bool {
    exists|j: int| 0 <= j < budgets.len() && budgets[j].id == Some(id)
}

/// No concept is renamed when none holds the id under another name.
proof fn lemma_renaming_none(concepts: Seq<Concept>, id: i64, name: Seq<char>)
    requires
        forall|j: int|
            0 <= j < concepts.len() ==> !((#[trigger] concepts[j]).id == Some(id) && concepts[j].name@
                != name),
    ensures
        renaming_source(concepts, id, name) is None,
    decreases concepts.len(),
{
    if concepts.len() > 0 {
        assert(!(concepts[concepts.len() - 1].id == Some(id) && concepts[concepts.len() - 1].name@ != name));
        assert forall|j: int| 0 <= j < concepts.drop_last().len() implies !((
        #[trigger] concepts.drop_last()[j]).id == Some(id) && concepts.drop_last()[j].name@ != name) by {
            assert(concepts.drop_last()[j] == concepts[j]);
        }
        lemma_renaming_none(concepts.drop_last(), id, name);
    }
}

/// No concept of `d` takes the id of a stored concept under another name.
pub open spec fn no_renames(concepts: Seq<Concept>, d: Seq<Concept>) -> bool {
    forall|k: int, i: int|
        0 <= k < d.len() && 0 <= i < concepts.len() ==> !((#[trigger] d[k]).id == (
        #[trigger] concepts[i]).id && d[k].name@ != concepts[i].name@)
}

/// A stored account is found by its id.
proof fn lemma_account_with_contains(accounts: Seq<Account>, a: Account)
    requires
        accounts.contains(a),
    ensures
        account_with(accounts, a.id) is Some,
    decreases accounts.len(),
{
    if accounts.last().id != a.id {
        let j = choose|j: int| 0 <= j < accounts.len() && accounts[j] == a;
        assert(j != accounts.len() - 1);
        assert(accounts.drop_last()[j] == a);
        lemma_account_with_contains(accounts.drop_last(), a);
    }
}

/// Concept `x` gives way to an incoming concept with name `name` and id
/// `id`.
pub open spec fn concept_gives_way(name: Seq<char>, id: i64, x: Concept) -> bool {
    x.name@ == name || x.id == Some(id)
}

/// Budget `x` gives way to incoming budget `b` stored under id `id`.
pub open spec fn budget_gives_way(b: Budget, id: i64, x: Budget) -> bool {
    (x.concept@ == b.concept@ && x.period@ == b.period@) || x.id == Some(id)
}


/// Every entry points at stored accounts and a stored concept, and every
/// budget at a stored concept.
pub open spec fn references_intact(
    accounts: Seq<Account>,
    concepts: Seq<Concept>,
    entries: Seq<Entry>,
    budgets: Seq<Budget>,
) -> bool {
    &&& forall|k: int|
        0 <= k < entries.len() ==> ((#[trigger] entries[k]).from_account_id matches Some(i)
            ==> account_with(accounts, i) is Some)
    &&& forall|k: int|
        0 <= k < entries.len() ==> ((#[trigger] entries[k]).to_account_id matches Some(i)
            ==> account_with(accounts, i) is Some)
    &&& forall|k: int|
        0 <= k < entries.len() ==> ((#[trigger] entries[k]).concept matches Some(c) ==> has_key(
            concepts,
            c@,
        ))
    &&& forall|k: int| 0 <= k < budgets.len() ==> has_key(concepts, (#[trigger] budgets[k]).concept@)
}

/// The tables a deletion may name.
pub open spec fn known_table(t: Seq<char>) -> bool {
    t == "entries"@ || t == "budgets"@ || t == "accounts"@ || t == "concepts"@ || t == "config"@
}

/// Delta entry `k` is the last one in `rows` with its id.
pub open spec fn last_with_id(rows: Seq<Entry>, k: int) -> bool {
    forall|j: int| k < j < rows.len() ==> rows[j].id != rows[k].id
}

/// Some deletion removes the entry with id `id`.
pub open spec fn entry_tombstoned(deletes: Seq<(String, i64)>, id: i64) -> bool {
    exists|k: int| 0 <= k < deletes.len() && deletes[k].0@ == "entries"@ && deletes[k].1 == id
}

/// Keeping some accounts keeps their ids distinct, keeps at most one
/// active emergency fund and keeps ids within `last`.
proof fn lemma_filter_accounts(s: Seq<Account>, p: spec_fn(Account) -> bool, last: int)
    requires
        account_ids_distinct(s),
        one_active_emergency(s),
        forall|k: int| 0 <= k < s.len() ==> #[trigger] s[k].id <= last,
    ensures
        account_ids_distinct(s.filter(p)),
        one_active_emergency(s.filter(p)),
        forall|k: int| 0 <= k < s.filter(p).len() ==> #[trigger] s.filter(p)[k].id <= last,
    decreases s.len(),
{
    reveal(Seq::filter);
    if s.len() > 0 {
        let t = s.drop_last();
        assert forall|i: int, j: int| 0 <= i < t.len() && 0 <= j < t.len() && i != j implies t[i].id
            != t[j].id by {
            assert(t[i] == s[i] && t[j] == s[j]);
        }
        assert forall|i: int, j: int|
            0 <= i < t.len() && 0 <= j < t.len() && t[i].kind == AccountKind::Emergency && !t[i].archived
                && t[j].kind == AccountKind::Emergency && !t[j].archived implies i == j by {
            assert(t[i] == s[i] && t[j] == s[j]);
        }
        assert forall|k: int| 0 <= k < t.len() implies #[trigger] t[k].id <= last by {
            assert(t[k] == s[k]);
        }
        lemma_filter_accounts(t, p, last);
        if p(s.last()) {
            let f = t.filter(p);
            let g = f.push(s.last());
            let n = s.len() - 1;
            assert(s.last() == s[n]);
            assert forall|k: int| 0 <= k < f.len() implies exists|i: int|
                0 <= i < n && s[i] == #[trigger] f[k] by {
                assert(f.contains(f[k]));
                t.lemma_filter_contains_rev(p, f[k]);
                let i = choose|i: int| 0 <= i < t.len() && t[i] == f[k];
                assert(s[i] == f[k]);
            }
            assert forall|i: int, j: int| 0 <= i < g.len() && 0 <= j < g.len() && i != j implies g[i].id
                != g[j].id by {
                if i == f.len() {
                    let i0 = choose|i0: int| 0 <= i0 < n && s[i0] == f[j];
                } else if j == f.len() {
                    let j0 = choose|j0: int| 0 <= j0 < n && s[j0] == f[i];
                }
            }
            assert forall|i: int, j: int|
                0 <= i < g.len() && 0 <= j < g.len() && g[i].kind == AccountKind::Emergency
                    && !g[i].archived && g[j].kind == AccountKind::Emergency && !g[j].archived implies i
                == j by {
                if i == f.len() && j != f.len() {
                    let j0 = choose|j0: int| 0 <= j0 < n && s[j0] == f[j];
                } else if j == f.len() && i != f.len() {
                    let i0 = choose|i0: int| 0 <= i0 < n && s[i0] == f[i];
                }
            }
            assert forall|k: int| 0 <= k < g.len() implies #[trigger] g[k].id <= last by {
                if k < f.len() {
                    assert(g[k] == f[k]);
                }
            }
        }
    }
}

/// The accounts left after `a`'s rivals give way, plus `a`, keep their
/// invariants.
proof fn lemma_account_rows(s0: Seq<Account>, s3: Seq<Account>, s4: Seq<Account>, p: int, a: Account, last: int)
    requires
        account_ids_distinct(s0),
        one_active_emergency(s0),
        forall|k: int| 0 <= k < s0.len() ==> #[trigger] s0[k].id <= last,
        a.id <= last,
        s3 == s0.filter(|x: Account| !gives_way(a, x)),
        0 <= p <= s3.len(),
        s4 == s3.insert(p, a),
    ensures
        account_ids_distinct(s4),
        one_active_emergency(s4),
        forall|k: int| 0 <= k < s4.len() ==> #[trigger] s4[k].id <= last,
{
    let pred = |x: Account| !gives_way(a, x);
    lemma_filter_accounts(s0, pred, last);
    assert forall|k: int| 0 <= k < s3.len() implies !gives_way(a, #[trigger] s3[k]) by {
        assert(s3.contains(s3[k]));
        s0.lemma_filter_contains_rev(pred, s3[k]);
    }
    assert forall|i: int, j: int| 0 <= i < s4.len() && 0 <= j < s4.len() && i != j implies s4[i].id
        != s4[j].id by {
        let i0 = if i < p { i } else { i - 1 };
        let j0 = if j < p { j } else { j - 1 };
        if i != p {
            assert(s4[i] == s3[i0]);
        }
        if j != p {
            assert(s4[j] == s3[j0]);
        }
    }
    assert forall|i: int, j: int|
        0 <= i < s4.len() && 0 <= j < s4.len() && s4[i].kind == AccountKind::Emergency && !s4[i].archived
            && s4[j].kind == AccountKind::Emergency && !s4[j].archived implies i == j by {
        let i0 = if i < p { i } else { i - 1 };
        let j0 = if j < p { j } else { j - 1 };
        if i != p {
            assert(s4[i] == s3[i0]);
        }
        if j != p {
            assert(s4[j] == s3[j0]);
        }
    }
    assert forall|k: int| 0 <= k < s4.len() implies #[trigger] s4[k].id <= last by {
        if k != p {
            let k0 = if k < p { k } else { k - 1 };
            assert(s4[k] == s3[k0]);
        }
    }
}

/// No later row of `rows` makes account row `k` give way.
pub open spec fn account_kept(rows: Seq<Account>, k: int) -> bool {
    forall|j: int| k < j < rows.len() ==> !gives_way(#[trigger] rows[j], rows[k])
}

/// The deletions remove the account with id `id`.
pub open spec fn account_tombstoned(deletes: Seq<(String, i64)>, id: i64) -> bool {
    exists|k: int| 0 <= k < deletes.len() && deletes[k].0@ == "accounts"@ && deletes[k].1 == id
}

/// Delta concept `k` carries an id, and every later concept of the delta
/// carries another id and another name, so none makes it give way.
pub open spec fn concept_kept(rows: Seq<Concept>, k: int) -> bool {
    &&& rows[k].id is Some
    &&& forall|j: int|
        k < j < rows.len() ==> (#[trigger] rows[j]).id is Some && rows[j].id != rows[k].id
            && rows[j].name@ != rows[k].name@
}

/// The deletions remove the concept with id `id`.
pub open spec fn concept_tombstoned(deletes: Seq<(String, i64)>, id: Option<i64>) -> bool {
    exists|k: int| 0 <= k < deletes.len() && deletes[k].0@ == "concepts"@ && Some(deletes[k].1) == id
}

/// Delta budget `k` carries an id, and every later budget of the delta
/// carries another id and is for another concept or period.
pub open spec fn budget_kept(rows: Seq<Budget>, k: int) -> bool {
    &&& rows[k].id is Some
    &&& forall|j: int|
        k < j < rows.len() ==> (#[trigger] rows[j]).id is Some && rows[j].id != rows[k].id && !(
        rows[j].concept@ == rows[k].concept@ && rows[j].period@ == rows[k].period@)
}

/// The deletions remove the budget with id `id`.
pub open spec fn budget_tombstoned(deletes: Seq<(String, i64)>, id: Option<i64>) -> bool {
    exists|k: int| 0 <= k < deletes.len() && deletes[k].0@ == "budgets"@ && Some(deletes[k].1) == id
}

/// No account of `rows` makes stored account `y` give way.
pub open spec fn account_survives(y: Account, rows: Seq<Account>) -> bool {
    forall|j: int| 0 <= j < rows.len() ==> !gives_way(#[trigger] rows[j], y)
}

/// No entry of `rows` carries the id of stored entry `y`.
pub open spec fn entry_survives(y: Entry, rows: Seq<Entry>) -> bool {
    forall|j: int| 0 <= j < rows.len() ==> (#[trigger] rows[j]).id != y.id
}

/// No budget of `rows` makes stored budget `y` give way.
pub open spec fn budget_survives(y: Budget, rows: Seq<Budget>) -> bool {
    forall|j: int| 0 <= j < rows.len() ==> !budget_gives_way(#[trigger] rows[j], rows[j].id->0, y)
}

/// Storing the concepts `d` over `concepts` renames none: every one
/// carries an id, none takes a stored concept's id under another name, and
/// two of them with one id bear one name.
pub open spec fn renames_nothing(concepts: Seq<Concept>, d: Seq<Concept>) -> bool {
    &&& forall|k: int| 0 <= k < d.len() ==> (#[trigger] d[k]).id is Some
    &&& no_renames(concepts, d)
    &&& forall|j: int, k: int|
        0 <= j < k < d.len() && (#[trigger] d[j]).id == (#[trigger] d[k]).id ==> d[j].name@
            == d[k].name@
}

/// Surviving the first `i + 1` accounts is surviving the first `i` and
/// account `i`.
proof fn lemma_account_survives_step(y: Account, rows: Seq<Account>, i: int)
    requires
        0 <= i < rows.len(),
    ensures
        account_survives(y, rows.take(i + 1)) <==> account_survives(y, rows.take(i)) && !gives_way(
            rows[i],
            y,
        ),
{
    assert(rows.take(i + 1)[i] == rows[i]);
    if account_survives(y, rows.take(i + 1)) {
        assert forall|j: int| 0 <= j < rows.take(i).len() implies !gives_way(
            #[trigger] rows.take(i)[j],
            y,
        ) by {
            assert(rows.take(i + 1)[j] == rows.take(i)[j]);
        }
    }
    if account_survives(y, rows.take(i)) && !gives_way(rows[i], y) {
        assert forall|j: int| 0 <= j < rows.take(i + 1).len() implies !gives_way(
            #[trigger] rows.take(i + 1)[j],
            y,
        ) by {
            if j < i {
                assert(rows.take(i + 1)[j] == rows.take(i)[j]);
            }
        }
    }
}

/// Surviving the first `i + 1` entries is surviving the first `i` and
/// entry `i`.
proof fn lemma_entry_survives_step(y: Entry, rows: Seq<Entry>, i: int)
    requires
        0 <= i < rows.len(),
    ensures
        entry_survives(y, rows.take(i + 1)) <==> entry_survives(y, rows.take(i)) && rows[i].id != y.id,
{
    assert(rows.take(i + 1)[i] == rows[i]);
    if entry_survives(y, rows.take(i + 1)) {
        assert forall|j: int| 0 <= j < rows.take(i).len() implies (#[trigger] rows.take(i)[j]).id
            != y.id by {
            assert(rows.take(i + 1)[j] == rows.take(i)[j]);
        }
    }
    if entry_survives(y, rows.take(i)) && rows[i].id != y.id {
        assert forall|j: int| 0 <= j < rows.take(i + 1).len() implies (#[trigger] rows.take(
            i + 1,
        )[j]).id != y.id by {
            if j < i {
                assert(rows.take(i + 1)[j] == rows.take(i)[j]);
            }
        }
    }
}

/// Surviving the first `i + 1` budgets is surviving the first `i` and
/// budget `i`.
proof fn lemma_budget_survives_step(y: Budget, rows: Seq<Budget>, i: int)
    requires
        0 <= i < rows.len(),
    ensures
        budget_survives(y, rows.take(i + 1)) <==> budget_survives(y, rows.take(i))
            && !budget_gives_way(rows[i], rows[i].id->0, y),
{
    assert(rows.take(i + 1)[i] == rows[i]);
    if budget_survives(y, rows.take(i + 1)) {
        assert forall|j: int| 0 <= j < rows.take(i).len() implies !budget_gives_way(
            #[trigger] rows.take(i)[j],
            rows.take(i)[j].id->0,
            y,
        ) by {
            assert(rows.take(i + 1)[j] == rows.take(i)[j]);
        }
    }
    if budget_survives(y, rows.take(i)) && !budget_gives_way(rows[i], rows[i].id->0, y) {
        assert forall|j: int| 0 <= j < rows.take(i + 1).len() implies !budget_gives_way(
            #[trigger] rows.take(i + 1)[j],
            rows.take(i + 1)[j].id->0,
            y,
        ) by {
            if j < i {
                assert(rows.take(i + 1)[j] == rows.take(i)[j]);
            }
        }
    }
}

/// Deletion `d` added to the first `d` tombstones the account it names.
proof fn lemma_account_tomb_step(tombs: Seq<(String, i64)>, d: int, id: i64)
    requires
        0 <= d < tombs.len(),
    ensures
        account_tombstoned(tombs.take(d + 1), id) <==> account_tombstoned(tombs.take(d), id) || (
        tombs[d].0@ == "accounts"@ && tombs[d].1 == id),
{
    assert(tombs.take(d + 1)[d] == tombs[d]);
    if account_tombstoned(tombs.take(d), id) {
        let q = choose|q: int|
            0 <= q < tombs.take(d).len() && tombs.take(d)[q].0@ == "accounts"@ && tombs.take(d)[q].1 == id;
        assert(tombs.take(d + 1)[q] == tombs.take(d)[q]);
    }
    if account_tombstoned(tombs.take(d + 1), id) && !(tombs[d].0@ == "accounts"@ && tombs[d].1 == id) {
        let t1 = tombs.take(d + 1);
        let q = choose|q: int|
            0 <= q < t1.len() && t1[q].0@ == "accounts"@ && t1[q].1 == id;
        assert(q < d);
        assert(tombs.take(d + 1)[q] == tombs.take(d)[q]);
    }
}

/// Deletion `d` added to the first `d` tombstones the entry it names.
proof fn lemma_entry_tomb_step(tombs: Seq<(String, i64)>, d: int, id: i64)
    requires
        0 <= d < tombs.len(),
    ensures
        entry_tombstoned(tombs.take(d + 1), id) <==> entry_tombstoned(tombs.take(d), id) || (
        tombs[d].0@ == "entries"@ && tombs[d].1 == id),
{
    assert(tombs.take(d + 1)[d] == tombs[d]);
    if entry_tombstoned(tombs.take(d), id) {
        let q = choose|q: int|
            0 <= q < tombs.take(d).len() && tombs.take(d)[q].0@ == "entries"@ && tombs.take(d)[q].1 == id;
        assert(tombs.take(d + 1)[q] == tombs.take(d)[q]);
    }
    if entry_tombstoned(tombs.take(d + 1), id) && !(tombs[d].0@ == "entries"@ && tombs[d].1 == id) {
        let t1 = tombs.take(d + 1);
        let q = choose|q: int|
            0 <= q < t1.len() && t1[q].0@ == "entries"@ && t1[q].1 == id;
        assert(q < d);
        assert(tombs.take(d + 1)[q] == tombs.take(d)[q]);
    }
}

/// Deletion `d` added to the first `d` tombstones the budget it names.
proof fn lemma_budget_tomb_step(tombs: Seq<(String, i64)>, d: int, id: Option<i64>)
    requires
        0 <= d < tombs.len(),
    ensures
        budget_tombstoned(tombs.take(d + 1), id) <==> budget_tombstoned(tombs.take(d), id) || (
        tombs[d].0@ == "budgets"@ && Some(tombs[d].1) == id),
{
    assert(tombs.take(d + 1)[d] == tombs[d]);
    if budget_tombstoned(tombs.take(d), id) {
        let q = choose|q: int|
            0 <= q < tombs.take(d).len() && tombs.take(d)[q].0@ == "budgets"@ && Some(tombs.take(d)[q].1) == id;
        assert(tombs.take(d + 1)[q] == tombs.take(d)[q]);
    }
    if budget_tombstoned(tombs.take(d + 1), id) && !(tombs[d].0@ == "budgets"@ && Some(tombs[d].1) == id) {
        let t1 = tombs.take(d + 1);
        let q = choose|q: int|
            0 <= q < t1.len() && t1[q].0@ == "budgets"@ && Some(t1[q].1) == id;
        assert(q < d);
        assert(tombs.take(d + 1)[q] == tombs.take(d)[q]);
    }
}

/// Deletion `d` added to the first `d` tombstones the concept it names.
proof fn lemma_concept_tomb_step(tombs: Seq<(String, i64)>, d: int, id: Option<i64>)
    requires
        0 <= d < tombs.len(),
    ensures
        concept_tombstoned(tombs.take(d + 1), id) <==> concept_tombstoned(tombs.take(d), id) || (
        tombs[d].0@ == "concepts"@ && Some(tombs[d].1) == id),
{
    assert(tombs.take(d + 1)[d] == tombs[d]);
    if concept_tombstoned(tombs.take(d), id) {
        let q = choose|q: int|
            0 <= q < tombs.take(d).len() && tombs.take(d)[q].0@ == "concepts"@ && Some(tombs.take(d)[q].1) == id;
        assert(tombs.take(d + 1)[q] == tombs.take(d)[q]);
    }
    if concept_tombstoned(tombs.take(d + 1), id) && !(tombs[d].0@ == "concepts"@ && Some(tombs[d].1) == id) {
        let t1 = tombs.take(d + 1);
        let q = choose|q: int|
            0 <= q < t1.len() && t1[q].0@ == "concepts"@ && Some(t1[q].1) == id;
        assert(q < d);
        assert(tombs.take(d + 1)[q] == tombs.take(d)[q]);
    }
}

/// No configuration row among the first `n` of `cfg` sets key `k`.
pub open spec fn config_untouched(cfg: Seq<Config>, n: int, k: Seq<char>) -> bool {
    forall|q: int| 0 <= q < n ==> (#[trigger] cfg[q]).key@ != k
}

/// Some configuration row among the first `n` of `cfg` sets `k` to `v`.
pub open spec fn config_sets(cfg: Seq<Config>, n: int, k: Seq<char>, v: Seq<char>) -> bool {
    exists|q: int| 0 <= q < n && (#[trigger] cfg[q]).key@ == k && cfg[q].value@ == v
}

/// Every budget of `d` carries an id.
pub open spec fn budgets_with_ids(d: Seq<Budget>) -> bool {
    forall|k: int| 0 <= k < d.len() ==> (#[trigger] d[k]).id is Some
}

/// Row `k` of `rows` is the last one with its key.
pub open spec fn last_with_key(rows: Seq<Config>, k: int) -> bool {
    forall|j: int| k < j < rows.len() ==> rows[j].key@ != rows[k].key@
}

impl MemoryBackend {
    /// The tables other than accounts, and every counter but the account
    /// one, are as in `other`.
    pub closed spec fn same_but_accounts(&self, other: &MemoryBackend) -> bool {
        &&& self.entries@ == other.entries@
        &&& self.concepts@ == other.concepts@
        &&& self.budgets@ == other.budgets@
        &&& self.config@ == other.config@
        &&& self.last_entry_id == other.last_entry_id
        &&& self.last_concept_id == other.last_concept_id
        &&& self.last_budget_id == other.last_budget_id
        &&& self.mirror_revision == other.mirror_revision
    }

    /// Stores account `a` under its own id. Any other account with its
    /// name, any row with its id and, when `a` is an active emergency fund,
    /// any other active one, give way.
    fn upsert_account_row(&mut self, a: &Account) -> (r: Result<()>)
        requires
            old(self).wf(),
        ensures
            final(self).wf(),
            r is Ok <==> account_row_valid(*a) && old(self).accounts@.filter(
                |x: Account| !gives_way(*a, x),
            ).len() < 0x4000_0000,
            r matches Err(x) ==> x is Database,
            r is Err ==> final(self).accounts@ == old(self).accounts@,
            r is Ok ==> final(self).accounts@.len() <= old(self).accounts@.len() + 1,
            r is Ok ==> forall|x: Account|
                #[trigger] final(self).accounts@.contains(x) <==> (x == *a || (old(self).accounts@.contains(x)
                    && !gives_way(*a, x))),
            final(self).same_but_accounts(&*old(self)),
    {
        let valid = match a.target_amount {
            Some(t) => a.kind == AccountKind::Target && t > 0,
            None => true,
        } && match a.credit_limit {
            Some(c) => a.kind == AccountKind::Credit && c > 0,
            None => true,
        };
        if !valid {
            return Err(AppError::Database(owned("CHECK constraint failed: accounts")));
        }
        let ghost s0 = self.accounts@;
        let ghost pred = |x: Account| !gives_way(*a, x);
        let mut kept: Vec<Account> = Vec::new();
        let n = self.accounts.len();
        let mut j: usize = 0;
        while j < n
            invariant
                n == s0.len(),
                s0 == self.accounts@,
                j <= n,
                pred == (|x: Account| !gives_way(*a, x)),
                kept@ == s0.take(j as int).filter(pred),
            decreases n - j,
        {
            proof {
                assert(s0.take(j + 1) =~= s0.take(j as int).push(s0[j as int]));
                s0.take(j as int).lemma_filter_push(s0[j as int], pred);
            }
            let x = &self.accounts[j];
            let yields = x.id == a.id || str_eq(x.name.as_str(), a.name.as_str()) || (a.kind
                == AccountKind::Emergency && !a.archived && x.kind == AccountKind::Emergency
                && !x.archived);
            if !yields {
                kept.push(x.clone());
            }
            j = j + 1;
        }
        proof {
            assert(s0.take(n as int) =~= s0);
            s0.lemma_filter_len(pred);
        }
        if kept.len() as u64 >= 0x4000_0000 {
            return Err(AppError::Database(owned("database or disk is full")));
        }
        let ghost s3 = kept@;
        proof {
            lemma_filter_sorted(s0, pred);
            assert forall|x: Account| #[trigger] s3.contains(x) <==> (s0.contains(x) && pred(x)) by {
                if s3.contains(x) {
                    s0.lemma_filter_contains_rev(pred, x);
                }
                if s0.contains(x) && pred(x) {
                    let k = choose|k: int| 0 <= k < s0.len() && s0[k] == x;
                    s0.lemma_filter_contains(pred, k);
                }
            }
            assert(!has_key(s3, a.name@)) by {
                if has_key(s3, a.name@) {
                    let k = choose|k: int| 0 <= k < s3.len() && s3[k].key_view() == a.name@;
                    assert(s3.contains(s3[k]));
                }
            }
        }
        self.accounts = kept;
        let row = a.clone();
        insert_keyed(&mut self.accounts, row);
        if a.id > self.last_account_id {
            self.last_account_id = a.id;
        }
        proof {
            let p = choose|p: int| 0 <= p <= s3.len() && self.accounts@ == s3.insert(p, row);
            assert forall|x: Account| #[trigger] self.accounts@.contains(x) <==> (x == row
                || s3.contains(x)) by {
                if self.accounts@.contains(x) {
                    let k = choose|k: int| 0 <= k < self.accounts@.len() && self.accounts@[k] == x;
                    if k < p {
                        assert(s3[k] == x);
                    } else if k > p {
                        assert(s3[k - 1] == x);
                    }
                }
                if s3.contains(x) {
                    let k = choose|k: int| 0 <= k < s3.len() && s3[k] == x;
                    if k < p {
                        assert(self.accounts@[k] == x);
                    } else {
                        assert(self.accounts@[k + 1] == x);
                    }
                }
                if x == row {
                    assert(self.accounts@[p] == row);
                }
            }
            assert(s3 == s0.filter(|x: Account| !gives_way(*a, x)));
            lemma_account_rows(s0, s3, self.accounts@, p, row, self.last_account_id as int);
        }
        Ok(())
    }


    /// Files every entry under concept `old_name` under `new_name` instead.
    fn rename_in_entries(&mut self, old_name: &str, new_name: &str)
        requires
            old(self).wf(),
        ensures
            final(self).wf(),
            final(self).entries@.len() == old(self).entries@.len(),
            forall|k: int|
                0 <= k < old(self).entries@.len() ==> concept_renamed(
                    old(self).entries@[k],
                    #[trigger] final(self).entries@[k],
                    old_name@,
                    new_name@,
                ),
            final(self).accounts@ == old(self).accounts@,
            final(self).concepts@ == old(self).concepts@,
            final(self).budgets@ == old(self).budgets@,
            final(self).config@ == old(self).config@,
            final(self).last_entry_id == old(self).last_entry_id,
            final(self).last_account_id == old(self).last_account_id,
            final(self).last_concept_id == old(self).last_concept_id,
            final(self).last_budget_id == old(self).last_budget_id,
            final(self).mirror_revision == old(self).mirror_revision,
    {
        let ghost before = self.entries@;
        let mut out: Vec<Entry> = Vec::new();
        let n = self.entries.len();
        let mut j: usize = 0;
        while j < n
            invariant
                n == before.len(),
                before == self.entries@,
                j <= n,
                out@.len() == j,
                forall|k: int|
                    0 <= k < j ==> concept_renamed(before[k], #[trigger] out@[k], old_name@, new_name@),
            decreases n - j,
        {
            let e = &self.entries[j];
            let concept = match &e.concept {
                Some(c) => {
                    if str_eq(c.as_str(), old_name) {
                        Some(owned(new_name))
                    } else {
                        Some(c.clone())
                    }
                },
                None => None,
            };
            out.push(
                Entry {
                    id: e.id,
                    date: e.date.clone(),
                    kind: e.kind,
                    amount: e.amount,
                    from_account_id: e.from_account_id,
                    to_account_id: e.to_account_id,
                    from_account: clone_opt(&e.from_account),
                    to_account: clone_opt(&e.to_account),
                    concept,
                    subconcept: clone_opt(&e.subconcept),
                    description: clone_opt(&e.description),
                },
            );
            j = j + 1;
        }
        proof {
            assert forall|a: int, b: int| 0 <= a < b < out@.len() implies crate::storage::table::entry_before(
                out@[a],
                out@[b],
            ) by {
                assert(same_movement(before[a], out@[a]) && same_movement(before[b], out@[b]));
                assert(crate::storage::table::entry_before(before[a], before[b]));
            }
            assert forall|a: int, b: int| 0 <= a < out@.len() && 0 <= b < out@.len() && a != b implies out@[a].id
                != out@[b].id by {
                assert(same_movement(before[a], out@[a]) && same_movement(before[b], out@[b]));
            }
            assert forall|k: int| 0 <= k < out@.len() implies #[trigger] out@[k].id <= self.last_entry_id by {
                assert(same_movement(before[k], out@[k]));
                assert(old(self).entries@[k].id <= old(self).last_entry_id);
            }
        }
        self.entries = out;
    }

    /// Moves every budget of concept `old_name` to `new_name`; refused when
    /// that concept already has a budget for the same period.
    #[verifier::spinoff_prover]
    fn rename_in_budgets(&mut self, old_name: &str, new_name: &str) -> (r: Result<()>)
        requires
            old(self).wf(),
        ensures
            final(self).wf(),
            r is Err <==> budget_rename_conflict(old(self).budgets@, old_name@, new_name@),
            r matches Err(x) ==> x is Database,
            r is Err ==> final(self).budgets@ == old(self).budgets@,
            r is Ok ==> forall|y: Budget|
                #[trigger] old(self).budgets@.contains(y) && y.concept@ != old_name@
                    ==> final(self).budgets@.contains(y),
            r is Ok ==> forall|p: int|
                0 <= p < old(self).budgets@.len() && (#[trigger] old(self).budgets@[p]).concept@
                    == old_name@ ==> exists|x: Budget|
                    #[trigger] final(self).budgets@.contains(x) && moved_budget(
                        old(self).budgets@[p],
                        x,
                        new_name@,
                    ),
            r is Ok ==> forall|x: Budget|
                #[trigger] final(self).budgets@.contains(x) ==> (old(self).budgets@.contains(x)
                    && x.concept@ != old_name@) || exists|p: int|
                    0 <= p < old(self).budgets@.len() && (#[trigger] old(self).budgets@[p]).concept@
                        == old_name@ && moved_budget(old(self).budgets@[p], x, new_name@),
            final(self).accounts@ == old(self).accounts@,
            final(self).concepts@ == old(self).concepts@,
            final(self).entries@ == old(self).entries@,
            final(self).config@ == old(self).config@,
            final(self).last_entry_id == old(self).last_entry_id,
            final(self).last_account_id == old(self).last_account_id,
            final(self).last_concept_id == old(self).last_concept_id,
            final(self).last_budget_id == old(self).last_budget_id,
            final(self).mirror_revision == old(self).mirror_revision,
    {
        let ghost before = self.budgets@;
        let ghost keep = |b: Budget| b.concept@ != old_name@;
        let ghost mut idx: Seq<int> = Seq::empty();
        let mut kept: Vec<Budget> = Vec::new();
        let mut moved: Vec<Budget> = Vec::new();
        let n = self.budgets.len();
        let mut j: usize = 0;
        while j < n
            invariant
                n == before.len(),
                before == self.budgets@,
                j <= n,
                keep == (|b: Budget| b.concept@ != old_name@),
                kept@ == before.take(j as int).filter(keep),
                moved@.len() == idx.len(),
                forall|t: int|
                    0 <= t < idx.len() ==> 0 <= #[trigger] idx[t] < j && before[idx[t]].concept@
                        == old_name@ && moved_budget(before[idx[t]], moved@[t], new_name@),
                forall|t1: int, t2: int| 0 <= t1 < t2 < idx.len() ==> idx[t1] < idx[t2],
                forall|q: int|
                    0 <= q < j && (#[trigger] before[q]).concept@ == old_name@ ==> exists|t: int|
                        0 <= t < idx.len() && idx[t] == q,
            decreases n - j,
        {
            proof {
                assert(before.take(j + 1) =~= before.take(j as int).push(before[j as int]));
                before.take(j as int).lemma_filter_push(before[j as int], keep);
            }
            let b = &self.budgets[j];
            if str_eq(b.concept.as_str(), old_name) {
                moved.push(
                    Budget {
                        id: b.id,
                        concept: owned(new_name),
                        monthly_limit: b.monthly_limit,
                        period: b.period.clone(),
                    },
                );
                proof {
                    let ghost old_idx = idx;
                    idx = idx.push(j as int);
                    assert forall|q: int|
                        0 <= q < j + 1 && (#[trigger] before[q]).concept@ == old_name@ implies exists|t: int|
                        0 <= t < idx.len() && idx[t] == q by {
                        if q < j {
                            let t = choose|t: int| 0 <= t < old_idx.len() && old_idx[t] == q;
                            assert(idx[t] == q);
                        } else {
                            assert(idx[old_idx.len() as int] == q);
                        }
                    }
                }
            } else {
                kept.push(b.clone());
            }
            j = j + 1;
        }
        proof {
            assert(before.take(n as int) =~= before);
            lemma_filter_budgets(before, keep);
        }
        let ghost kept0 = kept@;
        let m = moved.len();
        let mut i: usize = 0;
        while i < m
            invariant
                budgets_ordered(kept@),
                m == moved@.len(),
                i <= m,
                *self == *old(self),
                old(self).wf(),
                before == old(self).budgets@,
                keep == (|b: Budget| b.concept@ != old_name@),
                kept0 == before.filter(keep),
                moved@.len() == idx.len(),
                forall|t: int|
                    0 <= t < idx.len() ==> 0 <= #[trigger] idx[t] < before.len()
                        && before[idx[t]].concept@ == old_name@ && moved_budget(
                        before[idx[t]],
                        moved@[t],
                        new_name@,
                    ),
                forall|t1: int, t2: int| 0 <= t1 < t2 < idx.len() ==> idx[t1] < idx[t2],
                forall|x: Budget|
                    #[trigger] kept@.contains(x) <==> (kept0.contains(x) || exists|t: int|
                        0 <= t < i && moved@[t] == x),
                forall|t: int, x: Budget|
                    0 <= t < i && #[trigger] kept0.contains(x) ==> !(x.concept@ == new_name@
                        && x.period@ == (#[trigger] moved@[t]).period@),
            decreases m - i,
        {
            let b = moved[i].clone();
            let ghost pre = kept@;
            match find_budget(&kept, b.concept.as_str(), b.period.as_str()) {
                Some(k) => {
                    proof {
                        let x = kept@[k as int];
                        assert(kept@.contains(x));
                        if kept0.contains(x) {
                            before.lemma_filter_contains_rev(keep, x);
                            let q = choose|q: int| 0 <= q < before.len() && before[q] == x;
                            let p = idx[i as int];
                            assert(before[q].concept@ == new_name@ && before[q].period@
                                == before[p].period@);
                            assert(budget_rename_conflict(before, old_name@, new_name@));
                        } else {
                            let t = choose|t: int| 0 <= t < i && moved@[t] == x;
                            let p1 = idx[t];
                            let p2 = idx[i as int];
                            assert(budgets_ordered(before));
                            assert(budget_before(before[p1], before[p2]));
                            crate::text::lemma_seq_lt_irrefl(before[p1].concept@);
                            crate::text::lemma_seq_lt_irrefl(before[p1].period@);
                            assert(before[p1].period@ == before[p2].period@);
                            assert(false);
                        }
                    }
                    return Err(
                        AppError::Database(
                            owned("UNIQUE constraint failed: budgets.concept, budgets.period"),
                        ),
                    );
                },
                None => {
                    proof {
                        assert(b == moved@[i as int]);
                        assert(b.concept@ == new_name@);
                        assert(forall|k: int|
                            0 <= k < pre.len() ==> !(#[trigger] pre[k].concept@ == new_name@
                                && pre[k].period@ == b.period@));
                    }
                },
            }
            insert_budget(&mut kept, b);
            proof {
                let q = choose|q: int| 0 <= q <= pre.len() && kept@ == pre.insert(q, b);
                assert forall|x: Budget| #[trigger] kept@.contains(x) <==> (kept0.contains(x)
                    || exists|t: int| 0 <= t < i + 1 && moved@[t] == x) by {
                    if kept@.contains(x) {
                        let w = choose|w: int| 0 <= w < kept@.len() && kept@[w] == x;
                        if w < q {
                            assert(pre[w] == x);
                            assert(pre.contains(x));
                        } else if w > q {
                            assert(pre[w - 1] == x);
                            assert(pre.contains(x));
                        } else {
                            assert(moved@[i as int] == x);
                        }
                    }
                    if kept0.contains(x) || exists|t: int| 0 <= t < i + 1 && moved@[t] == x {
                        if x == b {
                            assert(kept@[q] == x);
                        } else {
                            if !kept0.contains(x) {
                                let t = choose|t: int| 0 <= t < i + 1 && moved@[t] == x;
                                assert(t != i);
                            }
                            assert(pre.contains(x));
                            let w = choose|w: int| 0 <= w < pre.len() && pre[w] == x;
                            if w < q {
                                assert(kept@[w] == x);
                            } else {
                                assert(kept@[w + 1] == x);
                            }
                        }
                    }
                }
                assert forall|t: int, x: Budget|
                    0 <= t < i + 1 && #[trigger] kept0.contains(x) implies !(x.concept@ == new_name@
                        && x.period@ == (#[trigger] moved@[t]).period@) by {
                    if t == i {
                        assert(pre.contains(x));
                        let w = choose|w: int| 0 <= w < pre.len() && pre[w] == x;
                        assert(!(pre[w].concept@ == new_name@ && pre[w].period@ == b.period@));
                    }
                }
            }
            i = i + 1;
        }
        proof {
            assert(!budget_rename_conflict(before, old_name@, new_name@)) by {
                if budget_rename_conflict(before, old_name@, new_name@) {
                    let (p, q) = choose|p: int, q: int|
                        #![trigger before[p], before[q]]
                        0 <= p < before.len() && 0 <= q < before.len() && before[p].concept@ == old_name@
                            && before[q].concept@ == new_name@ && before[q].period@ == before[p].period@;
                    assert(before[p].concept@ == old_name@);
                    let t = choose|t: int| 0 <= t < idx.len() && idx[t] == p;
                    before.lemma_filter_contains(keep, q);
                    assert(kept0.contains(before[q]));
                    assert(moved@[t].period@ == before[p].period@);
                }
            }
            assert forall|y: Budget|
                #[trigger] before.contains(y) && y.concept@ != old_name@ implies kept@.contains(y) by {
                let w = choose|w: int| 0 <= w < before.len() && before[w] == y;
                before.lemma_filter_contains(keep, w);
            }
            assert forall|p: int|
                0 <= p < before.len() && (#[trigger] before[p]).concept@ == old_name@ implies exists|
                x: Budget|
                #[trigger] kept@.contains(x) && moved_budget(before[p], x, new_name@) by {
                let t = choose|t: int| 0 <= t < idx.len() && idx[t] == p;
                assert(kept@.contains(moved@[t]));
            }
            assert forall|x: Budget| #[trigger] kept@.contains(x) implies (before.contains(x)
                && x.concept@ != old_name@) || exists|p: int|
                0 <= p < before.len() && (#[trigger] before[p]).concept@ == old_name@ && moved_budget(
                    before[p],
                    x,
                    new_name@,
                ) by {
                if kept0.contains(x) {
                    before.lemma_filter_contains_rev(keep, x);
                } else {
                    let t = choose|t: int| 0 <= t < m && moved@[t] == x;
                    assert(before[idx[t]].concept@ == old_name@);
                }
            }
        }
        self.budgets = kept;
        Ok(())
    }

    /// Stores concept `c`: a concept with its name and another id gives
    /// way; the row with its id is replaced, and when that renames a
    /// concept, the entries and budgets filed under the old name follow.
    /// A concept without an id gets a new one.
    fn upsert_concept_row(&mut self, c: &Concept) -> (r: Result<()>)
        requires
            old(self).wf(),
        ensures
            final(self).wf(),
            r is Ok <==> is_concept_type(c.concept_type@) && (c.id is Some || old(self).last_concept_id
                < i64::MAX) && !(renaming_source(
                old(self).concepts@,
                concept_row_id(*c, old(self).last_concept_id),
                c.name@,
            ) matches Some(f) && budget_rename_conflict(old(self).budgets@, f, c.name@)),
            r matches Err(x) ==> x is Database,
            old(self).budgets@.len() == 0 ==> final(self).budgets@.len() == 0,
            renaming_source(
                old(self).concepts@,
                concept_row_id(*c, old(self).last_concept_id),
                c.name@,
            ) is None ==> final(self).entries@ == old(self).entries@ && final(self).budgets@ == old(
                self,
            ).budgets@,
            r is Ok ==> exists|id: i64|
                #[trigger] final(self).concepts@.contains(
                    Concept { id: Some(id), name: c.name, concept_type: c.concept_type },
                ) && (c.id matches Some(i) ==> id == i),
            r is Ok && c.id is Some ==> forall|x: Concept|
                #[trigger] final(self).concepts@.contains(x) <==> (x == *c || (old(
                    self,
                ).concepts@.contains(x) && !concept_gives_way(c.name@, c.id->0, x))),
            final(self).entries@.len() == old(self).entries@.len(),
            forall|k: int|
                0 <= k < old(self).entries@.len() ==> same_movement(
                    old(self).entries@[k],
                    #[trigger] final(self).entries@[k],
                ),
            final(self).accounts@ == old(self).accounts@,
            final(self).config@ == old(self).config@,
            final(self).last_entry_id == old(self).last_entry_id,
            final(self).last_account_id == old(self).last_account_id,
            final(self).mirror_revision == old(self).mirror_revision,
    {
        if !(str_eq(c.concept_type.as_str(), "expense") || str_eq(c.concept_type.as_str(), "income")
            || str_eq(c.concept_type.as_str(), "both")) {
            return Err(AppError::Database(owned("CHECK constraint failed: concept_type")));
        }
        proof {
            reveal_strlit("expense");
            reveal_strlit("income");
            reveal_strlit("both");
        }
        let id = match c.id {
            Some(i) => i,
            None => {
                if self.last_concept_id == i64::MAX {
                    return Err(AppError::Database(owned("database or disk is full")));
                }
                self.last_concept_id + 1
            },
        };
        // The row that holds this id now, if any, and whether it is renamed.
        let mut renamed_from: Option<String> = None;
        let n0 = self.concepts.len();
        let mut q: usize = 0;
        while q < n0
            invariant
                n0 == self.concepts@.len(),
                q <= n0,
                renamed_from matches Some(f) ==> renaming_source(self.concepts@.take(q as int), id, c.name@)
                    == Some(f@),
                renamed_from is None ==> renaming_source(self.concepts@.take(q as int), id, c.name@) is None,
            decreases n0 - q,
        {
            proof {
                assert(self.concepts@.take(q + 1).drop_last() =~= self.concepts@.take(q as int));
            }
            if self.concepts[q].id == Some(id) && !str_eq(self.concepts[q].name.as_str(), c.name.as_str()) {
                renamed_from = Some(self.concepts[q].name.clone());
            }
            q = q + 1;
        }
        proof {
            assert(self.concepts@.take(n0 as int) =~= self.concepts@);
            assert(id == concept_row_id(*c, old(self).last_concept_id));
        }
        if let Some(old_name) = &renamed_from {
            self.rename_in_entries(old_name.as_str(), c.name.as_str());
            self.rename_in_budgets(old_name.as_str(), c.name.as_str())?;
            proof {
                if old(self).budgets@.len() == 0 && self.budgets@.len() > 0 {
                    assert(self.budgets@.contains(self.budgets@[0]));
                }
            }
        }
        let ghost s0 = self.concepts@;
        let ghost pred = |x: Concept| !concept_gives_way(c.name@, id, x);
        let mut kept: Vec<Concept> = Vec::new();
        let n = self.concepts.len();
        let mut j: usize = 0;
        while j < n
            invariant
                n == s0.len(),
                s0 == self.concepts@,
                j <= n,
                pred == (|x: Concept| !concept_gives_way(c.name@, id, x)),
                kept@ == s0.take(j as int).filter(pred),
            decreases n - j,
        {
            proof {
                assert(s0.take(j + 1) =~= s0.take(j as int).push(s0[j as int]));
                s0.take(j as int).lemma_filter_push(s0[j as int], pred);
            }
            let x = &self.concepts[j];
            if !(str_eq(x.name.as_str(), c.name.as_str()) || x.id == Some(id)) {
                kept.push(x.clone());
            }
            j = j + 1;
        }
        let row = Concept { id: Some(id), name: c.name.clone(), concept_type: c.concept_type.clone() };
        proof {
            assert(s0.take(n as int) =~= s0);
            lemma_filter_sorted(s0, pred);
            assert(!has_key(kept@, c.name@)) by {
                if has_key(kept@, c.name@) {
                    let k = choose|k: int| 0 <= k < kept@.len() && kept@[k].key_view() == c.name@;
                    assert(kept@.contains(kept@[k]));
                    s0.lemma_filter_contains_rev(pred, kept@[k]);
                }
            }
            assert forall|k: int| 0 <= k < kept@.len() implies is_concept_type(
                #[trigger] kept@[k].concept_type@,
            ) by {
                assert(kept@.contains(kept@[k]));
                s0.lemma_filter_contains_rev(pred, kept@[k]);
            }
        }
        let ghost s1 = kept@;
        insert_keyed(&mut kept, row);
        proof {
            let p = choose|p: int| 0 <= p <= s1.len() && kept@ == s1.insert(p, row);
            assert(kept@[p] == row);
            assert(kept@.contains(row));
            assert forall|x: Concept| #[trigger] kept@.contains(x) <==> (x == row || (s0.contains(x)
                && pred(x))) by {
                if kept@.contains(x) {
                    let k = choose|k: int| 0 <= k < kept@.len() && kept@[k] == x;
                    if k != p {
                        let k0 = if k < p { k } else { k - 1 };
                        assert(s1[k0] == x);
                        assert(s1.contains(x));
                        s0.lemma_filter_contains_rev(pred, x);
                    }
                }
                if s0.contains(x) && pred(x) {
                    let k = choose|k: int| 0 <= k < s0.len() && s0[k] == x;
                    s0.lemma_filter_contains(pred, k);
                    let k1 = choose|k1: int| 0 <= k1 < s1.len() && s1[k1] == x;
                    if k1 < p {
                        assert(kept@[k1] == x);
                    } else {
                        assert(kept@[k1 + 1] == x);
                    }
                }
            }
            assert forall|k: int| 0 <= k < kept@.len() implies is_concept_type(
                #[trigger] kept@[k].concept_type@,
            ) by {
                if k < p {
                    assert(kept@[k] == s1[k]);
                } else if k > p {
                    assert(kept@[k] == s1[k - 1]);
                }
            }
        }
        self.concepts = kept;
        if id > self.last_concept_id {
            self.last_concept_id = id;
        }
        Ok(())
    }


    /// Stores budget `b`: a budget for the same concept and period under
    /// another id, or with its id, gives way. A budget without an id gets a
    /// new one.
    fn upsert_budget_row(&mut self, b: &Budget) -> (r: Result<()>)
        requires
            old(self).wf(),
        ensures
            final(self).wf(),
            r is Ok <==> b.monthly_limit > 0 && is_canonical_period(b.period@) && (b.id is Some
                || old(self).last_budget_id < i64::MAX),
            r matches Err(x) ==> x is Database,
            r is Err ==> final(self).budgets@ == old(self).budgets@,
            r is Ok && b.id is Some ==> forall|x: Budget|
                #[trigger] final(self).budgets@.contains(x) <==> (x == *b || (old(
                    self,
                ).budgets@.contains(x) && !budget_gives_way(*b, b.id->0, x))),
            final(self).entries@ == old(self).entries@,
            final(self).accounts@ == old(self).accounts@,
            final(self).concepts@ == old(self).concepts@,
            final(self).config@ == old(self).config@,
            final(self).last_entry_id == old(self).last_entry_id,
            final(self).last_account_id == old(self).last_account_id,
            final(self).mirror_revision == old(self).mirror_revision,
    {
        if b.monthly_limit <= 0 || !is_period_text(b.period.as_str()) {
            return Err(AppError::Database(owned("CHECK constraint failed: budgets")));
        }
        let id = match b.id {
            Some(i) => i,
            None => {
                if self.last_budget_id == i64::MAX {
                    return Err(AppError::Database(owned("database or disk is full")));
                }
                self.last_budget_id + 1
            },
        };
        let ghost s0 = self.budgets@;
        let ghost pred = |x: Budget| !budget_gives_way(*b, id, x);
        let mut kept: Vec<Budget> = Vec::new();
        let n = self.budgets.len();
        let mut j: usize = 0;
        while j < n
            invariant
                n == s0.len(),
                s0 == self.budgets@,
                j <= n,
                pred == (|x: Budget| !budget_gives_way(*b, id, x)),
                kept@ == s0.take(j as int).filter(pred),
            decreases n - j,
        {
            proof {
                assert(s0.take(j + 1) =~= s0.take(j as int).push(s0[j as int]));
                s0.take(j as int).lemma_filter_push(s0[j as int], pred);
            }
            let x = &self.budgets[j];
            let yields = (str_eq(x.concept.as_str(), b.concept.as_str()) && str_eq(
                x.period.as_str(),
                b.period.as_str(),
            )) || x.id == Some(id);
            if !yields {
                kept.push(x.clone());
            }
            j = j + 1;
        }
        let row = Budget {
            id: Some(id),
            concept: b.concept.clone(),
            monthly_limit: b.monthly_limit,
            period: b.period.clone(),
        };
        proof {
            assert(s0.take(n as int) =~= s0);
            lemma_filter_budgets(s0, pred);
            assert forall|k: int| 0 <= k < kept@.len() implies !same_budget_key(kept@[k], row) by {
                assert(kept@.contains(kept@[k]));
                s0.lemma_filter_contains_rev(pred, kept@[k]);
            }
        }
        let ghost s1 = kept@;
        insert_budget(&mut kept, row);
        proof {
            let p = choose|p: int| 0 <= p <= s1.len() && kept@ == s1.insert(p, row);
            assert(kept@[p] == row);
            assert forall|x: Budget| #[trigger] kept@.contains(x) <==> (x == row || (s0.contains(x)
                && pred(x))) by {
                if kept@.contains(x) {
                    let k = choose|k: int| 0 <= k < kept@.len() && kept@[k] == x;
                    if k != p {
                        let k0 = if k < p { k } else { k - 1 };
                        assert(s1[k0] == x);
                        assert(s1.contains(x));
                        s0.lemma_filter_contains_rev(pred, x);
                    }
                }
                if s0.contains(x) && pred(x) {
                    let k = choose|k: int| 0 <= k < s0.len() && s0[k] == x;
                    s0.lemma_filter_contains(pred, k);
                    let k1 = choose|k1: int| 0 <= k1 < s1.len() && s1[k1] == x;
                    if k1 < p {
                        assert(kept@[k1] == x);
                    } else {
                        assert(kept@[k1 + 1] == x);
                    }
                }
            }
        }
        self.budgets = kept;
        if id > self.last_budget_id {
            self.last_budget_id = id;
        }
        Ok(())
    }

    /// Carries out one deletion recorded by the remote.
    fn apply_delete(&mut self, table: &str, id: i64) -> (r: Result<()>)
        requires
            old(self).wf(),
        ensures
            final(self).wf(),
            !known_table(table@) ==> (r matches Err(x) && x is Remote),
            table@ == "config"@ ==> (r matches Err(x) && x is Database),
            r is Ok <==> table@ != "config"@ && known_table(table@),
            r is Ok && table@ == "entries"@ ==> final(self).entries@ == old(self).entries@.filter(
                |e: Entry| e.id != id,
            ),
            r is Ok && table@ != "entries"@ ==> final(self).entries@ == old(self).entries@,
            r is Ok && table@ == "accounts"@ ==> final(self).accounts@ == old(self).accounts@.filter(
                |x: Account| x.id != id,
            ),
            r is Ok && table@ != "accounts"@ ==> final(self).accounts@ == old(self).accounts@,
            r is Ok && table@ == "concepts"@ ==> final(self).concepts@ == old(self).concepts@.filter(
                |x: Concept| x.id != Some(id),
            ),
            r is Ok && table@ != "concepts"@ ==> final(self).concepts@ == old(self).concepts@,
            r is Ok && table@ == "budgets"@ ==> final(self).budgets@ == old(self).budgets@.filter(
                |x: Budget| x.id != Some(id),
            ),
            r is Ok && table@ != "budgets"@ ==> final(self).budgets@ == old(self).budgets@,
            final(self).last_entry_id == old(self).last_entry_id,
            final(self).config@ == old(self).config@,
            final(self).mirror_revision == old(self).mirror_revision,
    {
        proof {
            reveal_strlit("entries");
            reveal_strlit("budgets");
            reveal_strlit("accounts");
            reveal_strlit("concepts");
            reveal_strlit("config");
            assert("config"@.len() == 6 && "entries"@.len() == 7 && "budgets"@.len() == 7);
            assert("accounts"@.len() == 8 && "concepts"@.len() == 8);
            assert("accounts"@[0] != "concepts"@[0]);
            assert("budgets"@[0] != "entries"@[0]);
        }
        if str_eq(table, "entries") {
            self.drop_entry_id(id);
            Ok(())
        } else if str_eq(table, "budgets") {
            let ghost s0 = self.budgets@;
            let ghost pred = |x: Budget| x.id != Some(id);
            let mut kept: Vec<Budget> = Vec::new();
            let n = self.budgets.len();
            let mut j: usize = 0;
            while j < n
                invariant
                    n == s0.len(),
                    s0 == self.budgets@,
                    j <= n,
                    pred == (|x: Budget| x.id != Some(id)),
                    kept@ == s0.take(j as int).filter(pred),
                decreases n - j,
            {
                proof {
                    assert(s0.take(j + 1) =~= s0.take(j as int).push(s0[j as int]));
                    s0.take(j as int).lemma_filter_push(s0[j as int], pred);
                }
                if self.budgets[j].id != Some(id) {
                    kept.push(self.budgets[j].clone());
                }
                j = j + 1;
            }
            proof {
                assert(s0.take(n as int) =~= s0);
                lemma_filter_budgets(s0, pred);
            }
            self.budgets = kept;
            Ok(())
        } else if str_eq(table, "accounts") {
            let ghost s0 = self.accounts@;
            let ghost pred = |x: Account| x.id != id;
            let mut kept: Vec<Account> = Vec::new();
            let n = self.accounts.len();
            let mut j: usize = 0;
            while j < n
                invariant
                    n == s0.len(),
                    s0 == self.accounts@,
                    j <= n,
                    pred == (|x: Account| x.id != id),
                    kept@ == s0.take(j as int).filter(pred),
                decreases n - j,
            {
                proof {
                    assert(s0.take(j + 1) =~= s0.take(j as int).push(s0[j as int]));
                    s0.take(j as int).lemma_filter_push(s0[j as int], pred);
                }
                if self.accounts[j].id != id {
                    kept.push(self.accounts[j].clone());
                }
                j = j + 1;
            }
            proof {
                assert(s0.take(n as int) =~= s0);
                lemma_filter_sorted(s0, pred);
                lemma_filter_accounts(s0, pred, self.last_account_id as int);
                s0.lemma_filter_len(pred);
            }
            self.accounts = kept;
            Ok(())
        } else if str_eq(table, "concepts") {
            let ghost s0 = self.concepts@;
            let ghost pred = |x: Concept| x.id != Some(id);
            let mut kept: Vec<Concept> = Vec::new();
            let n = self.concepts.len();
            let mut j: usize = 0;
            while j < n
                invariant
                    n == s0.len(),
                    s0 == self.concepts@,
                    j <= n,
                    pred == (|x: Concept| x.id != Some(id)),
                    kept@ == s0.take(j as int).filter(pred),
                decreases n - j,
            {
                proof {
                    assert(s0.take(j + 1) =~= s0.take(j as int).push(s0[j as int]));
                    s0.take(j as int).lemma_filter_push(s0[j as int], pred);
                }
                if self.concepts[j].id != Some(id) {
                    kept.push(self.concepts[j].clone());
                }
                j = j + 1;
            }
            proof {
                assert(s0.take(n as int) =~= s0);
                lemma_filter_sorted(s0, pred);
                assert forall|k: int| 0 <= k < kept@.len() implies is_concept_type(
                    #[trigger] kept@[k].concept_type@,
                ) by {
                    assert(kept@.contains(kept@[k]));
                    s0.lemma_filter_contains_rev(pred, kept@[k]);
                }
            }
            self.concepts = kept;
            Ok(())
        } else if str_eq(table, "config") {
            Err(AppError::Database(owned("no such column: id")))
        } else {
            Err(
                AppError::Remote(
                    crate::text::concat("unknown table in delete tombstone: ", table),
                ),
            )
        }
    }

    /// Whether every reference in the store resolves (see
    /// `references_intact`).
    fn references_ok(&self) -> (r: bool)
        ensures
            r == references_intact(self.accounts@, self.concepts@, self.entries@, self.budgets@),
    {
        let n = self.entries.len();
        let mut j: usize = 0;
        while j < n
            invariant
                n == self.entries@.len(),
                j <= n,
                forall|k: int|
                    0 <= k < j ==> ((#[trigger] self.entries@[k]).from_account_id matches Some(i)
                        ==> account_with(self.accounts@, i) is Some),
                forall|k: int|
                    0 <= k < j ==> ((#[trigger] self.entries@[k]).to_account_id matches Some(i)
                        ==> account_with(self.accounts@, i) is Some),
                forall|k: int|
                    0 <= k < j ==> ((#[trigger] self.entries@[k]).concept matches Some(c) ==> has_key(
                        self.concepts@,
                        c@,
                    )),
            decreases n - j,
        {
            let e = &self.entries[j];
            if let Some(i) = e.from_account_id {
                if self.find_account_id(i).is_none() {
                    return false;
                }
            }
            if let Some(i) = e.to_account_id {
                if self.find_account_id(i).is_none() {
                    return false;
                }
            }
            if let Some(c) = &e.concept {
                if find_key(&self.concepts, c.as_str()).is_none() {
                    return false;
                }
            }
            j = j + 1;
        }
        let m = self.budgets.len();
        let mut i: usize = 0;
        while i < m
            invariant
                m == self.budgets@.len(),
                i <= m,
                forall|k: int| 0 <= k < i ==> has_key(self.concepts@, (#[trigger] self.budgets@[k]).concept@),
            decreases m - i,
        {
            if find_key(&self.concepts, self.budgets[i].concept.as_str()).is_none() {
                return false;
            }
            i = i + 1;
        }
        true
    }


    /// Applies a remote delta in the order a mirror replays it: concepts,
    /// accounts, budgets, entries, configuration, then deletions; finally
    /// the cursor moves and every reference must resolve.
    fn apply_delta(&mut self, delta: &LedgerDelta) -> (r: Result<()>)
        requires
            old(self).wf(),
        ensures
            final(self).wf(),
            r is Ok ==> final(self).mirror_revision == delta.cursor,
            r is Ok ==> references_intact(
                final(self).accounts@,
                final(self).concepts@,
                final(self).entries@,
                final(self).budgets@,
            ),
            r is Ok ==> forall|d: int|
                0 <= d < delta.deletes@.len() ==> known_table((#[trigger] delta.deletes@[d]).0@)
                    && delta.deletes@[d].0@ != "config"@,
            r is Ok ==> forall|d: int|
                0 <= d < delta.deletes@.len() && (#[trigger] delta.deletes@[d]).0@ == "entries"@
                    ==> !has_entry(final(self).entries@, delta.deletes@[d].1),
            r is Ok ==> forall|k: int|
                0 <= k < delta.entries@.len() && last_with_id(delta.entries@, k) && !entry_tombstoned(
                    delta.deletes@,
                    delta.entries@[k].id,
                ) ==> final(self).entries@.contains(stored_row(#[trigger] delta.entries@[k])),
            r is Ok ==> forall|k: int|
                0 <= k < delta.config@.len() && last_with_key(delta.config@, k) ==> config_has(
                    final(self).config@,
                    (#[trigger] delta.config@[k]).key@,
                    delta.config@[k].value@,
                ),
            r is Ok ==> forall|k: int|
                0 <= k < delta.accounts@.len() && account_kept(delta.accounts@, k)
                    && !account_tombstoned(delta.deletes@, delta.accounts@[k].id)
                    ==> final(self).accounts@.contains(#[trigger] delta.accounts@[k]),
            r is Ok ==> forall|k: int|
                0 <= k < delta.concepts@.len() && concept_kept(delta.concepts@, k)
                    && !concept_tombstoned(delta.deletes@, delta.concepts@[k].id)
                    ==> final(self).concepts@.contains(#[trigger] delta.concepts@[k]),
            r is Ok ==> forall|k: int|
                0 <= k < delta.budgets@.len() && budget_kept(delta.budgets@, k)
                    && !budget_tombstoned(delta.deletes@, delta.budgets@[k].id)
                    ==> final(self).budgets@.contains(#[trigger] delta.budgets@[k]),
            r is Ok ==> forall|d: int|
                0 <= d < delta.deletes@.len() && (#[trigger] delta.deletes@[d]).0@ == "accounts"@
                    ==> !has_account_id(final(self).accounts@, delta.deletes@[d].1),
            r is Ok ==> forall|d: int|
                0 <= d < delta.deletes@.len() && (#[trigger] delta.deletes@[d]).0@ == "concepts"@
                    ==> !has_concept_id(final(self).concepts@, delta.deletes@[d].1),
            r is Ok ==> forall|d: int|
                0 <= d < delta.deletes@.len() && (#[trigger] delta.deletes@[d]).0@ == "budgets"@
                    ==> !has_budget_id(final(self).budgets@, delta.deletes@[d].1),
            r is Ok ==> forall|x: Account|
                #[trigger] final(self).accounts@.contains(x) ==> (old(self).accounts@.contains(x)
                    && account_survives(x, delta.accounts@)) || delta.accounts@.contains(x),
            r is Ok ==> forall|y: Account|
                #[trigger] old(self).accounts@.contains(y) && account_survives(y, delta.accounts@)
                    && !account_tombstoned(delta.deletes@, y.id) ==> final(self).accounts@.contains(y),
            r is Ok ==> forall|x: Entry|
                #[trigger] final(self).entries@.contains(x) ==> (exists|y: Entry|
                    #[trigger] old(self).entries@.contains(y) && entry_survives(y, delta.entries@)
                        && same_movement(y, x)) || exists|k: int|
                    0 <= k < delta.entries@.len() && x == stored_row(#[trigger] delta.entries@[k]),
            r is Ok ==> forall|y: Entry|
                #[trigger] old(self).entries@.contains(y) && entry_survives(y, delta.entries@)
                    && !entry_tombstoned(delta.deletes@, y.id) ==> exists|x: Entry|
                    #[trigger] final(self).entries@.contains(x) && same_movement(y, x),
            r is Ok && renames_nothing(old(self).concepts@, delta.concepts@) ==> forall|x: Entry|
                #[trigger] final(self).entries@.contains(x) ==> (old(self).entries@.contains(x)
                    && entry_survives(x, delta.entries@)) || exists|k: int|
                    0 <= k < delta.entries@.len() && x == stored_row(#[trigger] delta.entries@[k]),
            r is Ok && renames_nothing(old(self).concepts@, delta.concepts@) ==> forall|y: Entry|
                #[trigger] old(self).entries@.contains(y) && entry_survives(y, delta.entries@)
                    && !entry_tombstoned(delta.deletes@, y.id) ==> final(self).entries@.contains(y),
            r is Ok && renames_nothing(old(self).concepts@, delta.concepts@) && budgets_with_ids(
                delta.budgets@,
            ) ==> forall|x: Budget|
                #[trigger] final(self).budgets@.contains(x) ==> (old(self).budgets@.contains(x)
                    && budget_survives(x, delta.budgets@)) || delta.budgets@.contains(x),
            r is Ok && renames_nothing(old(self).concepts@, delta.concepts@) && budgets_with_ids(
                delta.budgets@,
            ) ==> forall|y: Budget|
                #[trigger] old(self).budgets@.contains(y) && budget_survives(y, delta.budgets@)
                    && !budget_tombstoned(delta.deletes@, y.id) ==> final(self).budgets@.contains(y),
            r is Ok && renames_nothing(old(self).concepts@, delta.concepts@) ==> forall|x: Concept|
                #[trigger] final(self).concepts@.contains(x) ==> old(self).concepts@.contains(x)
                    || delta.concepts@.contains(x),
            r is Ok && renames_nothing(old(self).concepts@, delta.concepts@) ==> forall|y: Concept|
                #[trigger] old(self).concepts@.contains(y) && concept_survives(
                    y,
                    delta.concepts@,
                    delta.concepts@.len() as int,
                ) && !concept_tombstoned(delta.deletes@, y.id) ==> final(self).concepts@.contains(y),
            r is Ok ==> forall|k: Seq<char>, v: Seq<char>|
                #[trigger] config_has(final(self).config@, k, v) ==> config_sets(
                    delta.config@,
                    delta.config@.len() as int,
                    k,
                    v,
                ) || (config_has(old(self).config@, k, v) && config_untouched(
                    delta.config@,
                    delta.config@.len() as int,
                    k,
                )),
            r is Ok ==> forall|k: Seq<char>, v: Seq<char>|
                #[trigger] config_has(old(self).config@, k, v) && config_untouched(
                    delta.config@,
                    delta.config@.len() as int,
                    k,
                ) ==> config_has(final(self).config@, k, v),
            r is Ok ==> delta_rows_valid(*delta),
            crate::storage::delta_empty(*delta) ==> (r is Ok <==> references_intact(
                old(self).accounts@,
                old(self).concepts@,
                old(self).entries@,
                old(self).budgets@,
            )),
            delta_light(*delta) && references_intact(
                old(self).accounts@,
                old(self).concepts@,
                old(self).entries@,
                old(self).budgets@,
            ) ==> r is Ok,
            adoptable(*old(self), *delta) ==> r is Ok,
            crate::storage::delta_empty(*delta) ==> final(self).accounts@ == old(self).accounts@
                && final(self).entries@ == old(self).entries@ && final(self).concepts@ == old(
                self,
            ).concepts@ && final(self).budgets@ == old(self).budgets@ && final(self).config@ == old(
                self,
            ).config@,
    {
        let ghost crows = delta.concepts@;
        let nc = delta.concepts.len();
        let mut i: usize = 0;
        while i < nc
            invariant
                self.wf(),
                crows == delta.concepts@,
                nc == crows.len(),
                i <= nc,
                no_table_rows(*delta) ==> *self == *old(self),
                forall|k: int| 0 <= k < i ==> is_concept_type((#[trigger] crows[k]).concept_type@),
                forall|k: int|
                    0 <= k < i && concept_kept(crows.take(i as int), k) ==> self.concepts@.contains(
                        #[trigger] crows[k],
                    ),
                self.accounts@ == old(self).accounts@,
                adoptable(*old(self), *delta) ==> self.entries@ == old(self).entries@ && self.budgets@
                    == old(self).budgets@,
                renames_nothing(old(self).concepts@, crows) ==> self.entries@ == old(self).entries@
                    && self.budgets@ == old(self).budgets@,
                self.config@ == old(self).config@,
                self.entries@.len() == old(self).entries@.len(),
                forall|k: int|
                    0 <= k < old(self).entries@.len() ==> same_movement(
                        old(self).entries@[k],
                        #[trigger] self.entries@[k],
                    ),
                adoptable(*old(self), *delta) || renames_nothing(old(self).concepts@, crows)
                    ==> forall|x: Concept|
                    #[trigger] self.concepts@.contains(x) ==> old(self).concepts@.contains(x) || exists|
                        k: int,
                    |
                        0 <= k < i && x == #[trigger] crows[k],
                adoptable(*old(self), *delta) || renames_nothing(old(self).concepts@, crows)
                    ==> forall|y: Concept|
                    #[trigger] old(self).concepts@.contains(y) && concept_survives(y, crows, i as int)
                        ==> self.concepts@.contains(y),
            decreases nc - i,
        {
            let ghost pre_c = self.concepts@;
            let ghost pre_e = self.entries@;
            let ghost pre_b = self.budgets@;
            proof {
                if renames_nothing(old(self).concepts@, crows) {
                    let cid = crows[i as int].id->0;
                    let cname = crows[i as int].name@;
                    assert forall|j: int| 0 <= j < pre_c.len() implies !((#[trigger] pre_c[j]).id == Some(
                        cid,
                    ) && pre_c[j].name@ != cname) by {
                        let x = pre_c[j];
                        assert(pre_c.contains(x));
                        if old(self).concepts@.contains(x) {
                            let w = choose|w: int| 0 <= w < old(self).concepts@.len() && old(self).concepts@[w] == x;
                            assert(!(crows[i as int].id == old(self).concepts@[w].id
                                && crows[i as int].name@ != old(self).concepts@[w].name@));
                        } else {
                            let k = choose|k: int| 0 <= k < i && x == #[trigger] crows[k];
                            assert(crows[k].id == crows[i as int].id ==> crows[k].name@ == crows[i as int].name@);
                        }
                    }
                    lemma_renaming_none(pre_c, cid, cname);
                }
                if adoptable(*old(self), *delta) {
                    assert(concept_kept(crows, i as int));
                    if !(old(self).entries@.len() == 0 && old(self).budgets@.len() == 0) {
                        let cid = crows[i as int].id->0;
                        let cname = crows[i as int].name@;
                        assert forall|j: int| 0 <= j < pre_c.len() implies !((#[trigger] pre_c[j]).id == Some(
                            cid,
                        ) && pre_c[j].name@ != cname) by {
                            let x = pre_c[j];
                            assert(pre_c.contains(x));
                            if old(self).concepts@.contains(x) {
                                let w = choose|w: int| 0 <= w < old(self).concepts@.len() && old(self).concepts@[w] == x;
                                assert(no_renames(old(self).concepts@, crows));
                                assert(!(crows[i as int].id == old(self).concepts@[w].id
                                    && crows[i as int].name@ != old(self).concepts@[w].name@));
                            } else {
                                let k = choose|k: int| 0 <= k < i && x == #[trigger] crows[k];
                                assert(concept_kept(crows, k));
                            }
                        }
                        lemma_renaming_none(pre_c, cid, cname);
                    }
                }
            }
            self.upsert_concept_row(&delta.concepts[i])?;
            proof {
                assert forall|k: int| 0 <= k < old(self).entries@.len() implies same_movement(
                    old(self).entries@[k],
                    #[trigger] self.entries@[k],
                ) by {
                    assert(same_movement(old(self).entries@[k], pre_e[k]));
                    assert(same_movement(pre_e[k], self.entries@[k]));
                }
                if adoptable(*old(self), *delta) {
                    if old(self).entries@.len() == 0 && old(self).budgets@.len() == 0 {
                        assert(self.entries@ =~= old(self).entries@);
                        assert(self.budgets@ =~= old(self).budgets@);
                    }
                }
                if adoptable(*old(self), *delta) || renames_nothing(old(self).concepts@, crows) {
                    assert(crows[i as int].id is Some) by {
                        if adoptable(*old(self), *delta) {
                            assert(concept_kept(crows, i as int));
                        }
                    }
                    assert forall|x: Concept| #[trigger] self.concepts@.contains(x) implies old(
                        self,
                    ).concepts@.contains(x) || exists|k: int| 0 <= k < i + 1 && x == #[trigger] crows[k] by {
                        if x != crows[i as int] {
                            assert(pre_c.contains(x));
                        }
                    }
                    assert forall|y: Concept|
                        #[trigger] old(self).concepts@.contains(y) && concept_survives(y, crows, i + 1)
                            implies self.concepts@.contains(y) by {
                        assert(!concept_gives_way(crows[i as int].name@, crows[i as int].id->0, y));
                        assert(concept_survives(y, crows, i as int));
                    }
                }
                assert forall|k: int|
                    0 <= k < i + 1 && concept_kept(crows.take(i + 1), k) implies self.concepts@.contains(
                    #[trigger] crows[k],
                ) by {
                    assert(crows.take(i + 1)[k] == crows[k]);
                    if k < i {
                        assert(crows.take(i + 1)[i as int] == crows[i as int]);
                        assert(concept_kept(crows.take(i as int), k)) by {
                            assert(crows.take(i as int)[k] == crows[k]);
                            assert forall|j: int| k < j < crows.take(i as int).len() implies (
                            #[trigger] crows.take(i as int)[j]).id is Some && crows.take(i as int)[j].id
                                != crows.take(i as int)[k].id && crows.take(i as int)[j].name@
                                != crows.take(i as int)[k].name@ by {
                                assert(crows.take(i + 1)[j] == crows.take(i as int)[j]);
                            }
                        }
                        assert(!concept_gives_way(crows[i as int].name@, crows[i as int].id->0, crows[k]));
                    }
                }
            }
            i = i + 1;
        }
        proof {
            assert(crows.take(nc as int) =~= crows);
            if adoptable(*old(self), *delta) {
                assert forall|k: int| 0 <= k < crows.len() implies (#[trigger] crows[k]).id is Some
                    && self.concepts@.contains(crows[k]) by {
                    assert(concept_kept(crows, k));
                }
                lemma_names_kept(old(self).concepts@, crows, self.concepts@);
            }
        }
        let ghost cs = self.concepts@;
        let ghost e_c = self.entries@;
        let ghost b_c = self.budgets@;
        proof {
            assert(e_c.len() == old(self).entries@.len());
            assert(forall|k: int|
                0 <= k < e_c.len() ==> same_movement(old(self).entries@[k], #[trigger] e_c[k]));
            assert(renames_nothing(old(self).concepts@, crows) ==> e_c == old(self).entries@ && b_c
                == old(self).budgets@);
            assert(renames_nothing(old(self).concepts@, crows) ==> forall|x: Concept|
                #[trigger] cs.contains(x) ==> old(self).concepts@.contains(x) || exists|k: int|
                    0 <= k < nc && x == #[trigger] crows[k]);
            assert(renames_nothing(old(self).concepts@, crows) ==> forall|y: Concept|
                #[trigger] old(self).concepts@.contains(y) && concept_survives(y, crows, nc as int)
                    ==> cs.contains(y));
        }
        let ghost arows = delta.accounts@;
        let na = delta.accounts.len();
        let mut i: usize = 0;
        while i < na
            invariant
                self.wf(),
                e_c == self.entries@,
                b_c == self.budgets@,
                self.config@ == old(self).config@,
                forall|x: Account|
                    #[trigger] self.accounts@.contains(x) ==> (old(self).accounts@.contains(x)
                        && account_survives(x, arows.take(i as int))) || exists|k: int|
                        0 <= k < i && x == #[trigger] arows[k],
                forall|y: Account|
                    #[trigger] old(self).accounts@.contains(y) && account_survives(y, arows.take(i as int))
                        ==> self.accounts@.contains(y),
                arows == delta.accounts@,
                na == arows.len(),
                crows == delta.concepts@,
                cs == self.concepts@,
                forall|k: int|
                    0 <= k < crows.len() && concept_kept(crows, k) ==> cs.contains(#[trigger] crows[k]),
                i <= na,
                no_table_rows(*delta) ==> *self == *old(self),
                forall|k: int| 0 <= k < i ==> account_row_valid(#[trigger] arows[k]),
                forall|k: int|
                    0 <= k < i && account_kept(arows.take(i as int), k) ==> self.accounts@.contains(
                        #[trigger] arows[k],
                    ),
                adoptable(*old(self), *delta) ==> self.entries@ == old(self).entries@ && self.budgets@
                    == old(self).budgets@,
                self.accounts@.len() <= old(self).accounts@.len() + i,
            decreases na - i,
        {
            proof {
                if adoptable(*old(self), *delta) {
                    self.accounts@.lemma_filter_len(|x: Account| !gives_way(arows[i as int], x));
                    assert(account_row_valid(arows[i as int]));
                }
            }
            let ghost pre_a = self.accounts@;
            self.upsert_account_row(&delta.accounts[i])?;
            proof {
                assert forall|x: Account| #[trigger] self.accounts@.contains(x) implies (old(
                    self,
                ).accounts@.contains(x) && account_survives(x, arows.take(i + 1))) || exists|k: int|
                    0 <= k < i + 1 && x == #[trigger] arows[k] by {
                    lemma_account_survives_step(x, arows, i as int);
                    if x != arows[i as int] {
                        assert(pre_a.contains(x) && !gives_way(arows[i as int], x));
                    }
                }
                assert forall|y: Account|
                    #[trigger] old(self).accounts@.contains(y) && account_survives(y, arows.take(i + 1))
                        implies self.accounts@.contains(y) by {
                    lemma_account_survives_step(y, arows, i as int);
                }
                assert forall|k: int|
                    0 <= k < i + 1 && account_kept(arows.take(i + 1), k) implies self.accounts@.contains(
                    #[trigger] arows[k],
                ) by {
                    if k < i {
                        assert(arows.take(i + 1)[i as int] == arows[i as int]);
                        assert(!gives_way(arows.take(i + 1)[i as int], arows.take(i + 1)[k]));
                        assert(account_kept(arows.take(i as int), k)) by {
                            assert forall|j: int| k < j < arows.take(i as int).len() implies !gives_way(
                                #[trigger] arows.take(i as int)[j],
                                arows.take(i as int)[k],
                            ) by {
                                assert(arows.take(i + 1)[j] == arows.take(i as int)[j]);
                            }
                        }
                    }
                }
            }
            i = i + 1;
        }
        proof {
            assert(arows.take(na as int) =~= arows);
        }
        let ghost a_a = self.accounts@;
        proof {
            assert(forall|x: Account|
                #[trigger] a_a.contains(x) ==> (old(self).accounts@.contains(x) && account_survives(
                    x,
                    arows,
                )) || exists|k: int| 0 <= k < na && x == #[trigger] arows[k]);
            assert(forall|y: Account|
                #[trigger] old(self).accounts@.contains(y) && account_survives(y, arows)
                    ==> a_a.contains(y));
        }
        let ghost brows = delta.budgets@;
        let nb = delta.budgets.len();
        proof {
            if adoptable(*old(self), *delta) {
                assert forall|x: Budget| #[trigger] self.budgets@.contains(x) implies exists|k: int|
                    0 <= k < nb && x == #[trigger] brows[k] by {
                    assert(old(self).budgets_view().contains(x));
                }
            }
        }
        let mut i: usize = 0;
        while i < nb
            invariant
                self.wf(),
                brows == delta.budgets@,
                nb == brows.len(),
                e_c == self.entries@,
                a_a == self.accounts@,
                self.config@ == old(self).config@,
                budgets_with_ids(brows) ==> forall|x: Budget|
                    #[trigger] self.budgets@.contains(x) ==> (b_c.contains(x) && budget_survives(
                        x,
                        brows.take(i as int),
                    )) || exists|k: int| 0 <= k < i && x == #[trigger] brows[k],
                budgets_with_ids(brows) ==> forall|y: Budget|
                    #[trigger] b_c.contains(y) && budget_survives(y, brows.take(i as int))
                        ==> self.budgets@.contains(y),
                forall|k: int|
                    0 <= k < i && budget_kept(brows.take(i as int), k) ==> self.budgets@.contains(
                        #[trigger] brows[k],
                    ),
                crows == delta.concepts@,
                cs == self.concepts@,
                forall|k: int|
                    0 <= k < crows.len() && concept_kept(crows, k) ==> cs.contains(#[trigger] crows[k]),
                i <= nb,
                no_table_rows(*delta) ==> *self == *old(self),
                forall|k: int|
                    0 <= k < i ==> (#[trigger] brows[k]).monthly_limit > 0 && is_canonical_period(
                        brows[k].period@,
                    ),
                arows == delta.accounts@,
                forall|k: int|
                    0 <= k < arows.len() && account_kept(arows, k) ==> self.accounts@.contains(
                        #[trigger] arows[k],
                    ),
                adoptable(*old(self), *delta) ==> self.entries@ == old(self).entries@,
                adoptable(*old(self), *delta) ==> forall|x: Budget|
                    #[trigger] self.budgets@.contains(x) ==> exists|k: int|
                        0 <= k < nb && x == #[trigger] brows[k],
            decreases nb - i,
        {
            let ghost pre_b = self.budgets@;
            proof {
                if adoptable(*old(self), *delta) {
                    assert(brows[i as int].id is Some);
                    assert(brows[i as int].monthly_limit > 0 && is_canonical_period(brows[i as int].period@));
                }
            }
            self.upsert_budget_row(&delta.budgets[i])?;
            proof {
                if budgets_with_ids(brows) {
                    assert(brows[i as int].id is Some);
                    assert forall|x: Budget| #[trigger] self.budgets@.contains(x) implies (b_c.contains(x)
                        && budget_survives(x, brows.take(i + 1))) || exists|k: int|
                        0 <= k < i + 1 && x == #[trigger] brows[k] by {
                        lemma_budget_survives_step(x, brows, i as int);
                        if x != brows[i as int] {
                            assert(pre_b.contains(x) && !budget_gives_way(
                                brows[i as int],
                                brows[i as int].id->0,
                                x,
                            ));
                        }
                    }
                    assert forall|y: Budget|
                        #[trigger] b_c.contains(y) && budget_survives(y, brows.take(i + 1))
                            implies self.budgets@.contains(y) by {
                        lemma_budget_survives_step(y, brows, i as int);
                    }
                }
                if adoptable(*old(self), *delta) {
                    assert forall|x: Budget| #[trigger] self.budgets@.contains(x) implies exists|k: int|
                        0 <= k < nb && x == #[trigger] brows[k] by {
                        if x != brows[i as int] {
                            assert(pre_b.contains(x));
                        }
                    }
                }
                assert forall|k: int|
                    0 <= k < i + 1 && budget_kept(brows.take(i + 1), k) implies self.budgets@.contains(
                    #[trigger] brows[k],
                ) by {
                    assert(brows.take(i + 1)[k] == brows[k]);
                    if k < i {
                        assert(brows.take(i + 1)[i as int] == brows[i as int]);
                        assert(budget_kept(brows.take(i as int), k)) by {
                            assert(brows.take(i as int)[k] == brows[k]);
                            assert forall|j: int| k < j < brows.take(i as int).len() implies (
                            #[trigger] brows.take(i as int)[j]).id is Some && brows.take(i as int)[j].id
                                != brows.take(i as int)[k].id && !(brows.take(i as int)[j].concept@
                                == brows.take(i as int)[k].concept@ && brows.take(i as int)[j].period@
                                == brows.take(i as int)[k].period@) by {
                                assert(brows.take(i + 1)[j] == brows.take(i as int)[j]);
                            }
                        }
                        assert(!budget_gives_way(brows[i as int], brows[i as int].id->0, brows[k]));
                    }
                }
            }
            i = i + 1;
        }
        proof {
            assert(brows.take(nb as int) =~= brows);
        }
        let ghost bs = self.budgets@;
        proof {
            assert(budgets_with_ids(brows) ==> forall|x: Budget|
                #[trigger] bs.contains(x) ==> (b_c.contains(x) && budget_survives(x, brows)) || exists|
                    k: int,
                | 0 <= k < nb && x == #[trigger] brows[k]);
            assert(budgets_with_ids(brows) ==> forall|y: Budget|
                #[trigger] b_c.contains(y) && budget_survives(y, brows) ==> bs.contains(y));
        }
        let ghost rows = delta.entries@;
        let ne = delta.entries.len();
        proof {
            if adoptable(*old(self), *delta) {
                assert forall|x: Entry| #[trigger] self.entries@.contains(x) implies exists|k: int|
                    0 <= k < ne && x == stored_row(#[trigger] rows[k]) by {
                    assert(old(self).entries_view().contains(x));
                }
            }
        }
        let mut i: usize = 0;
        while i < ne
            invariant
                self.wf(),
                rows == delta.entries@,
                ne == rows.len(),
                a_a == self.accounts@,
                self.config@ == old(self).config@,
                forall|x: Entry|
                    #[trigger] self.entries@.contains(x) ==> (e_c.contains(x) && entry_survives(
                        x,
                        rows.take(i as int),
                    )) || exists|k: int| 0 <= k < i && x == stored_row(#[trigger] rows[k]),
                forall|y: Entry|
                    #[trigger] e_c.contains(y) && entry_survives(y, rows.take(i as int))
                        ==> self.entries@.contains(y),
                brows == delta.budgets@,
                bs == self.budgets@,
                forall|k: int|
                    0 <= k < brows.len() && budget_kept(brows, k) ==> bs.contains(#[trigger] brows[k]),
                crows == delta.concepts@,
                cs == self.concepts@,
                forall|k: int|
                    0 <= k < crows.len() && concept_kept(crows, k) ==> cs.contains(#[trigger] crows[k]),
                i <= ne,
                no_table_rows(*delta) ==> *self == *old(self),
                forall|k: int| 0 <= k < i ==> entry_row_valid(#[trigger] rows[k]),
                arows == delta.accounts@,
                forall|k: int|
                    0 <= k < arows.len() && account_kept(arows, k) ==> self.accounts@.contains(
                        #[trigger] arows[k],
                    ),
                forall|k: int|
                    0 <= k < i && last_with_id(rows.take(i as int), k) ==> self.entries@.contains(
                        stored_row(#[trigger] rows[k]),
                    ),
                adoptable(*old(self), *delta) ==> forall|x: Budget|
                    #[trigger] bs.contains(x) ==> exists|k: int|
                        0 <= k < brows.len() && x == #[trigger] brows[k],
                adoptable(*old(self), *delta) ==> self.entries@.len() <= old(self).entries@.len() + i,
                adoptable(*old(self), *delta) ==> forall|x: Entry|
                    #[trigger] self.entries@.contains(x) ==> exists|k: int|
                        0 <= k < ne && x == stored_row(#[trigger] rows[k]),
            decreases ne - i,
        {
            let ghost pre_e = self.entries@;
            proof {
                if adoptable(*old(self), *delta) {
                    assert(entry_row_valid(rows[i as int]));
                }
            }
            self.upsert_entry_row(&delta.entries[i])?;
            proof {
                assert forall|x: Entry| #[trigger] self.entries@.contains(x) implies (e_c.contains(x)
                    && entry_survives(x, rows.take(i + 1))) || exists|k: int|
                    0 <= k < i + 1 && x == stored_row(#[trigger] rows[k]) by {
                    lemma_entry_survives_step(x, rows, i as int);
                    if x != stored_row(rows[i as int]) {
                        assert(pre_e.contains(x) && x.id != rows[i as int].id);
                    }
                }
                assert forall|y: Entry|
                    #[trigger] e_c.contains(y) && entry_survives(y, rows.take(i + 1))
                        implies self.entries@.contains(y) by {
                    lemma_entry_survives_step(y, rows, i as int);
                }
                if adoptable(*old(self), *delta) {
                    assert forall|x: Entry| #[trigger] self.entries@.contains(x) implies exists|k: int|
                        0 <= k < ne && x == stored_row(#[trigger] rows[k]) by {
                        if x != stored_row(rows[i as int]) {
                            assert(pre_e.contains(x));
                        }
                    }
                }
                assert forall|k: int|
                    0 <= k < i + 1 && last_with_id(rows.take(i + 1), k) implies self.entries@.contains(
                    stored_row(#[trigger] rows[k]),
                ) by {
                    if k < i {
                        assert(rows.take(i + 1)[i as int] == rows[i as int]);
                        assert(rows[i as int].id != rows[k].id);
                        assert(last_with_id(rows.take(i as int), k)) by {
                            assert forall|j: int| k < j < rows.take(i as int).len() implies rows.take(
                                i as int,
                            )[j].id != rows.take(i as int)[k].id by {
                                assert(rows.take(i + 1)[j] == rows.take(i as int)[j]);
                            }
                        }
                        assert(stored_row(rows[k]).id == rows[k].id);
                    }
                }
            }
            i = i + 1;
        }
        proof {
            assert(rows.take(ne as int) =~= rows);
        }
        let ghost e_e = self.entries@;
        proof {
            assert(forall|x: Entry|
                #[trigger] e_e.contains(x) ==> (e_c.contains(x) && entry_survives(x, rows)) || exists|
                    k: int,
                | 0 <= k < ne && x == stored_row(#[trigger] rows[k]));
            assert(forall|y: Entry|
                #[trigger] e_c.contains(y) && entry_survives(y, rows) ==> e_e.contains(y));
        }
        let ghost cfg = delta.config@;
        let nf = delta.config.len();
        let mut i: usize = 0;
        while i < nf
            invariant
                self.wf(),
                a_a == self.accounts@,
                e_e == self.entries@,
                forall|k: Seq<char>, v: Seq<char>|
                    #[trigger] config_has(self.config@, k, v) ==> config_sets(cfg, i as int, k, v) || (
                    config_has(old(self).config@, k, v) && config_untouched(cfg, i as int, k)),
                forall|k: Seq<char>, v: Seq<char>|
                    #[trigger] config_has(old(self).config@, k, v) && config_untouched(cfg, i as int, k)
                        ==> config_has(self.config@, k, v),
                cfg == delta.config@,
                nf == cfg.len(),
                brows == delta.budgets@,
                bs == self.budgets@,
                forall|k: int|
                    0 <= k < brows.len() && budget_kept(brows, k) ==> bs.contains(#[trigger] brows[k]),
                crows == delta.concepts@,
                cs == self.concepts@,
                forall|k: int|
                    0 <= k < crows.len() && concept_kept(crows, k) ==> cs.contains(#[trigger] crows[k]),
                i <= nf,
                crate::storage::delta_empty(*delta) ==> *self == *old(self),
                no_table_rows(*delta) ==> self.accounts@ == old(self).accounts@ && self.concepts@ == old(
                    self,
                ).concepts@ && self.entries@ == old(self).entries@ && self.budgets@ == old(self).budgets@,
                adoptable(*old(self), *delta) ==> forall|x: Budget|
                    #[trigger] bs.contains(x) ==> exists|k: int|
                        0 <= k < brows.len() && x == #[trigger] brows[k],
                adoptable(*old(self), *delta) ==> forall|x: Entry|
                    #[trigger] self.entries@.contains(x) ==> exists|k: int|
                        0 <= k < rows.len() && x == stored_row(#[trigger] rows[k]),
                arows == delta.accounts@,
                forall|k: int|
                    0 <= k < arows.len() && account_kept(arows, k) ==> self.accounts@.contains(
                        #[trigger] arows[k],
                    ),
                rows == delta.entries@,
                forall|k: int|
                    0 <= k < rows.len() && last_with_id(rows, k) ==> self.entries@.contains(
                        stored_row(#[trigger] rows[k]),
                    ),
                forall|k: int|
                    0 <= k < i && last_with_key(cfg.take(i as int), k) ==> config_has(
                        self.config@,
                        (#[trigger] cfg[k]).key@,
                        cfg[k].value@,
                    ),
            decreases nf - i,
        {
            let ghost pre_cfg = self.config@;
            let _ = self.set_config(delta.config[i].key.as_str(), delta.config[i].value.as_str());
            proof {
                assert forall|k: Seq<char>, v: Seq<char>| #[trigger] config_has(self.config@, k, v) implies config_sets(
                    cfg,
                    i + 1,
                    k,
                    v,
                ) || (config_has(old(self).config@, k, v) && config_untouched(cfg, i + 1, k)) by {
                    if k == cfg[i as int].key@ && v == cfg[i as int].value@ {
                        assert(cfg[i as int].key@ == k);
                    } else {
                        assert(config_has(pre_cfg, k, v) && k != cfg[i as int].key@);
                        if config_sets(cfg, i as int, k, v) {
                            let q = choose|q: int| 0 <= q < i && (#[trigger] cfg[q]).key@ == k && cfg[q].value@ == v;
                            assert(cfg[q].key@ == k);
                        }
                    }
                }
                assert forall|k: Seq<char>, v: Seq<char>|
                    #[trigger] config_has(old(self).config@, k, v) && config_untouched(cfg, i + 1, k)
                        implies config_has(self.config@, k, v) by {
                    assert(cfg[i as int].key@ != k);
                    assert(config_untouched(cfg, i as int, k));
                }
                assert forall|k: int|
                    0 <= k < i + 1 && last_with_key(cfg.take(i + 1), k) implies config_has(
                    self.config@,
                    (#[trigger] cfg[k]).key@,
                    cfg[k].value@,
                ) by {
                    if k < i {
                        assert(cfg.take(i + 1)[i as int] == cfg[i as int]);
                        assert(cfg[i as int].key@ != cfg[k].key@);
                        assert(last_with_key(cfg.take(i as int), k)) by {
                            assert forall|j: int| k < j < cfg.take(i as int).len() implies cfg.take(
                                i as int,
                            )[j].key@ != cfg.take(i as int)[k].key@ by {
                                assert(cfg.take(i + 1)[j] == cfg.take(i as int)[j]);
                            }
                        }
                    }
                }
            }
            i = i + 1;
        }
        proof {
            assert(cfg.take(nf as int) =~= cfg);
        }
        let ghost acc0 = self.accounts@;
        let ghost c_f = self.config@;
        proof {
            assert(forall|k: Seq<char>, v: Seq<char>|
                #[trigger] config_has(c_f, k, v) ==> config_sets(cfg, nf as int, k, v) || (config_has(
                    old(self).config@,
                    k,
                    v,
                ) && config_untouched(cfg, nf as int, k)));
            assert(forall|k: Seq<char>, v: Seq<char>|
                #[trigger] config_has(old(self).config@, k, v) && config_untouched(cfg, nf as int, k)
                    ==> config_has(c_f, k, v));
        }
        let ghost tombs = delta.deletes@;
        let nd = delta.deletes.len();
        let mut d: usize = 0;
        while d < nd
            invariant
                self.wf(),
                tombs == delta.deletes@,
                nd == tombs.len(),
                acc0 == a_a,
                self.config@ == c_f,
                forall|x: Account| #[trigger] self.accounts@.contains(x) ==> a_a.contains(x),
                forall|y: Account|
                    #[trigger] a_a.contains(y) && !account_tombstoned(tombs.take(d as int), y.id)
                        ==> self.accounts@.contains(y),
                forall|x: Entry| #[trigger] self.entries@.contains(x) ==> e_e.contains(x),
                forall|y: Entry|
                    #[trigger] e_e.contains(y) && !entry_tombstoned(tombs.take(d as int), y.id)
                        ==> self.entries@.contains(y),
                forall|x: Budget| #[trigger] self.budgets@.contains(x) ==> bs.contains(x),
                forall|y: Budget|
                    #[trigger] bs.contains(y) && !budget_tombstoned(tombs.take(d as int), y.id)
                        ==> self.budgets@.contains(y),
                forall|x: Concept| #[trigger] self.concepts@.contains(x) ==> cs.contains(x),
                forall|y: Concept|
                    #[trigger] cs.contains(y) && !concept_tombstoned(tombs.take(d as int), y.id)
                        ==> self.concepts@.contains(y),
                brows == delta.budgets@,
                forall|k: int|
                    0 <= k < brows.len() && budget_kept(brows, k) && !budget_tombstoned(
                        tombs.take(d as int),
                        brows[k].id,
                    ) ==> self.budgets@.contains(#[trigger] brows[k]),
                crows == delta.concepts@,
                forall|k: int|
                    0 <= k < crows.len() && concept_kept(crows, k) && !concept_tombstoned(
                        tombs.take(d as int),
                        crows[k].id,
                    ) ==> self.concepts@.contains(#[trigger] crows[k]),
                d <= nd,
                crate::storage::delta_empty(*delta) ==> *self == *old(self),
                adoptable(*old(self), *delta) ==> self.accounts@ == acc0 && self.concepts@ == cs && (
                forall|x: Budget|
                    #[trigger] self.budgets@.contains(x) ==> exists|k: int|
                        0 <= k < brows.len() && x == #[trigger] brows[k]) && (forall|x: Entry|
                    #[trigger] self.entries@.contains(x) ==> exists|k: int|
                        0 <= k < rows.len() && x == stored_row(#[trigger] rows[k])),
                delta_light(*delta) ==> self.accounts@ == old(self).accounts@ && self.concepts@ == old(
                    self,
                ).concepts@ && (forall|x: Entry|
                    #[trigger] self.entries@.contains(x) ==> old(self).entries@.contains(x)) && (forall|
                    x: Budget,
                |
                    #[trigger] self.budgets@.contains(x) ==> old(self).budgets@.contains(x)),
                rows == delta.entries@,
                forall|k: int|
                    0 <= k < rows.len() && last_with_id(rows, k) && !entry_tombstoned(
                        tombs.take(d as int),
                        rows[k].id,
                    ) ==> self.entries@.contains(stored_row(#[trigger] rows[k])),
                forall|q: int|
                    0 <= q < d ==> known_table((#[trigger] tombs[q]).0@) && tombs[q].0@ != "config"@,
                forall|q: int|
                    0 <= q < d && (#[trigger] tombs[q]).0@ == "accounts"@ ==> !has_account_id(
                        self.accounts@,
                        tombs[q].1,
                    ),
                forall|q: int|
                    0 <= q < d && (#[trigger] tombs[q]).0@ == "concepts"@ ==> !has_concept_id(
                        self.concepts@,
                        tombs[q].1,
                    ),
                forall|q: int|
                    0 <= q < d && (#[trigger] tombs[q]).0@ == "budgets"@ ==> !has_budget_id(
                        self.budgets@,
                        tombs[q].1,
                    ),
                cfg == delta.config@,
                forall|k: int|
                    0 <= k < cfg.len() && last_with_key(cfg, k) ==> config_has(
                        self.config@,
                        (#[trigger] cfg[k]).key@,
                        cfg[k].value@,
                    ),
                arows == delta.accounts@,
                forall|k: int|
                    0 <= k < arows.len() && account_kept(arows, k) && !account_tombstoned(
                        tombs.take(d as int),
                        arows[k].id,
                    ) ==> self.accounts@.contains(#[trigger] arows[k]),
                forall|q: int|
                    0 <= q < d && (#[trigger] tombs[q]).0@ == "entries"@ ==> !has_entry(
                        self.entries@,
                        tombs[q].1,
                    ),
            decreases nd - d,
        {
            let ghost before = self.entries@;
            let ghost before_accounts = self.accounts@;
            let ghost before_concepts = self.concepts@;
            let ghost before_budgets = self.budgets@;
            let (table, id) = &delta.deletes[d];
            proof {
                if delta_light(*delta) || adoptable(*old(self), *delta) {
                    reveal_strlit("entries");
                    reveal_strlit("budgets");
                    reveal_strlit("config");
                    assert("entries"@.len() == 7 && "budgets"@.len() == 7 && "config"@.len() == 6);
                    assert(tombs[d as int].0 == *table);
                    assert(table@ == "entries"@ || table@ == "budgets"@);
                    assert(known_table(table@) && table@ != "config"@);
                }
            }
            self.apply_delete(table.as_str(), *id)?;
            proof {
                assert(tombs[d as int].0 == *table && tombs[d as int].1 == *id);
                assert forall|x: Account| #[trigger] self.accounts@.contains(x) implies a_a.contains(x) by {
                    if table@ == "accounts"@ {
                        before_accounts.lemma_filter_contains_rev(|a: Account| a.id != *id, x);
                    }
                }
                assert forall|y: Account|
                    #[trigger] a_a.contains(y) && !account_tombstoned(tombs.take(d + 1), y.id)
                        implies self.accounts@.contains(y) by {
                    lemma_account_tomb_step(tombs, d as int, y.id);
                    if table@ == "accounts"@ {
                        let j = choose|j: int| 0 <= j < before_accounts.len() && before_accounts[j] == y;
                        before_accounts.lemma_filter_contains(|a: Account| a.id != *id, j);
                    }
                }
                assert forall|x: Entry| #[trigger] self.entries@.contains(x) implies e_e.contains(x) by {
                    if table@ == "entries"@ {
                        before.lemma_filter_contains_rev(|e: Entry| e.id != *id, x);
                    }
                }
                assert forall|y: Entry|
                    #[trigger] e_e.contains(y) && !entry_tombstoned(tombs.take(d + 1), y.id)
                        implies self.entries@.contains(y) by {
                    lemma_entry_tomb_step(tombs, d as int, y.id);
                    if table@ == "entries"@ {
                        let j = choose|j: int| 0 <= j < before.len() && before[j] == y;
                        before.lemma_filter_contains(|e: Entry| e.id != *id, j);
                    }
                }
                assert forall|x: Budget| #[trigger] self.budgets@.contains(x) implies bs.contains(x) by {
                    if table@ == "budgets"@ {
                        before_budgets.lemma_filter_contains_rev(|b: Budget| b.id != Some(*id), x);
                    }
                }
                assert forall|y: Budget|
                    #[trigger] bs.contains(y) && !budget_tombstoned(tombs.take(d + 1), y.id)
                        implies self.budgets@.contains(y) by {
                    lemma_budget_tomb_step(tombs, d as int, y.id);
                    if table@ == "budgets"@ {
                        let j = choose|j: int| 0 <= j < before_budgets.len() && before_budgets[j] == y;
                        before_budgets.lemma_filter_contains(|b: Budget| b.id != Some(*id), j);
                    }
                }
                assert forall|x: Concept| #[trigger] self.concepts@.contains(x) implies cs.contains(x) by {
                    if table@ == "concepts"@ {
                        before_concepts.lemma_filter_contains_rev(|c: Concept| c.id != Some(*id), x);
                    }
                }
                assert forall|y: Concept|
                    #[trigger] cs.contains(y) && !concept_tombstoned(tombs.take(d + 1), y.id)
                        implies self.concepts@.contains(y) by {
                    lemma_concept_tomb_step(tombs, d as int, y.id);
                    if table@ == "concepts"@ {
                        let j = choose|j: int| 0 <= j < before_concepts.len() && before_concepts[j] == y;
                        before_concepts.lemma_filter_contains(|c: Concept| c.id != Some(*id), j);
                    }
                }
                assert(tombs[d as int].0 == *table && tombs[d as int].1 == *id);
                let pred = |e: Entry| e.id != *id;
                if adoptable(*old(self), *delta) {
                    reveal_strlit("entries");
                    reveal_strlit("budgets");
                    reveal_strlit("accounts");
                    reveal_strlit("concepts");
                    assert("entries"@.len() == 7 && "budgets"@.len() == 7);
                    assert("accounts"@.len() == 8 && "concepts"@.len() == 8);
                    assert(table@ == "entries"@ || table@ == "budgets"@);
                    assert forall|x: Entry| #[trigger] self.entries@.contains(x) implies exists|k: int|
                        0 <= k < rows.len() && x == stored_row(#[trigger] rows[k]) by {
                        if table@ == "entries"@ {
                            before.lemma_filter_contains_rev(pred, x);
                        }
                        assert(before.contains(x));
                    }
                    assert forall|x: Budget| #[trigger] self.budgets@.contains(x) implies exists|k: int|
                        0 <= k < brows.len() && x == #[trigger] brows[k] by {
                        if table@ == "budgets"@ {
                            before_budgets.lemma_filter_contains_rev(|b: Budget| b.id != Some(*id), x);
                        }
                        assert(before_budgets.contains(x));
                    }
                }
                if delta_light(*delta) {
                    reveal_strlit("entries");
                    reveal_strlit("budgets");
                    reveal_strlit("accounts");
                    reveal_strlit("concepts");
                    assert("entries"@.len() == 7 && "budgets"@.len() == 7);
                    assert("accounts"@.len() == 8 && "concepts"@.len() == 8);
                    assert(table@ == "entries"@ || table@ == "budgets"@);
                    assert forall|x: Entry| #[trigger] self.entries@.contains(x) implies old(
                        self,
                    ).entries@.contains(x) by {
                        if table@ == "entries"@ {
                            before.lemma_filter_contains_rev(pred, x);
                        }
                    }
                    assert forall|x: Budget| #[trigger] self.budgets@.contains(x) implies old(
                        self,
                    ).budgets@.contains(x) by {
                        if table@ == "budgets"@ {
                            before_budgets.lemma_filter_contains_rev(|b: Budget| b.id != Some(*id), x);
                        }
                    }
                }
                assert(tombs.take(d + 1) =~= tombs.take(d as int).push(tombs[d as int]));
                assert forall|k: int|
                    0 <= k < rows.len() && last_with_id(rows, k) && !entry_tombstoned(
                        tombs.take(d + 1),
                        rows[k].id,
                    ) implies self.entries@.contains(stored_row(#[trigger] rows[k])) by {
                    assert(!entry_tombstoned(tombs.take(d as int), rows[k].id)) by {
                        if entry_tombstoned(tombs.take(d as int), rows[k].id) {
                            let q = choose|q: int|
                                0 <= q < tombs.take(d as int).len() && tombs.take(d as int)[q].0@
                                    == "entries"@ && tombs.take(d as int)[q].1 == rows[k].id;
                            assert(tombs.take(d + 1)[q] == tombs.take(d as int)[q]);
                        }
                    }
                    if table@ == "entries"@ {
                        assert(tombs.take(d + 1)[d as int] == tombs[d as int]);
                        assert(rows[k].id != *id);
                        let x = stored_row(rows[k]);
                        let j = choose|j: int| 0 <= j < before.len() && before[j] == x;
                        before.lemma_filter_contains(pred, j);
                    }
                }
                assert forall|k: int|
                    0 <= k < arows.len() && account_kept(arows, k) && !account_tombstoned(
                        tombs.take(d + 1),
                        arows[k].id,
                    ) implies self.accounts@.contains(#[trigger] arows[k]) by {
                    assert(!account_tombstoned(tombs.take(d as int), arows[k].id)) by {
                        if account_tombstoned(tombs.take(d as int), arows[k].id) {
                            let q = choose|q: int|
                                0 <= q < tombs.take(d as int).len() && tombs.take(d as int)[q].0@
                                    == "accounts"@ && tombs.take(d as int)[q].1 == arows[k].id;
                            assert(tombs.take(d + 1)[q] == tombs.take(d as int)[q]);
                        }
                    }
                    if table@ == "accounts"@ {
                        assert(tombs.take(d + 1)[d as int] == tombs[d as int]);
                        assert(arows[k].id != *id);
                        let apred = |x: Account| x.id != *id;
                        let j = choose|j: int| 0 <= j < before_accounts.len() && before_accounts[j] == arows[k];
                        before_accounts.lemma_filter_contains(apred, j);
                    }
                }
                assert forall|k: int|
                    0 <= k < brows.len() && budget_kept(brows, k) && !budget_tombstoned(
                        tombs.take(d + 1),
                        brows[k].id,
                    ) implies self.budgets@.contains(#[trigger] brows[k]) by {
                    assert(!budget_tombstoned(tombs.take(d as int), brows[k].id)) by {
                        if budget_tombstoned(tombs.take(d as int), brows[k].id) {
                            let q = choose|q: int|
                                0 <= q < tombs.take(d as int).len() && tombs.take(d as int)[q].0@
                                    == "budgets"@ && Some(tombs.take(d as int)[q].1) == brows[k].id;
                            assert(tombs.take(d + 1)[q] == tombs.take(d as int)[q]);
                        }
                    }
                    if table@ == "budgets"@ {
                        assert(tombs.take(d + 1)[d as int] == tombs[d as int]);
                        assert(brows[k].id != Some(*id));
                        let bpred = |x: Budget| x.id != Some(*id);
                        let j = choose|j: int| 0 <= j < before_budgets.len() && before_budgets[j] == brows[k];
                        before_budgets.lemma_filter_contains(bpred, j);
                    }
                }
                assert forall|k: int|
                    0 <= k < crows.len() && concept_kept(crows, k) && !concept_tombstoned(
                        tombs.take(d + 1),
                        crows[k].id,
                    ) implies self.concepts@.contains(#[trigger] crows[k]) by {
                    assert(!concept_tombstoned(tombs.take(d as int), crows[k].id)) by {
                        if concept_tombstoned(tombs.take(d as int), crows[k].id) {
                            let q = choose|q: int|
                                0 <= q < tombs.take(d as int).len() && tombs.take(d as int)[q].0@
                                    == "concepts"@ && Some(tombs.take(d as int)[q].1) == crows[k].id;
                            assert(tombs.take(d + 1)[q] == tombs.take(d as int)[q]);
                        }
                    }
                    if table@ == "concepts"@ {
                        assert(tombs.take(d + 1)[d as int] == tombs[d as int]);
                        assert(crows[k].id != Some(*id));
                        let cpred = |x: Concept| x.id != Some(*id);
                        let j = choose|j: int| 0 <= j < before_concepts.len() && before_concepts[j] == crows[k];
                        before_concepts.lemma_filter_contains(cpred, j);
                    }
                }
                assert forall|q: int| 0 <= q < d + 1 && (#[trigger] tombs[q]).0@ == "entries"@ implies !has_entry(
                    self.entries@,
                    tombs[q].1,
                ) by {
                    if has_entry(self.entries@, tombs[q].1) {
                        let j = choose|j: int|
                            0 <= j < self.entries@.len() && self.entries@[j].id == tombs[q].1;
                        if table@ == "entries"@ {
                            assert(self.entries@.contains(self.entries@[j]));
                            before.lemma_filter_contains_rev(pred, self.entries@[j]);
                            if q < d {
                                let j0 = choose|j0: int| 0 <= j0 < before.len() && before[j0] == self.entries@[j];
                            }
                        } else {
                            assert(q < d);
                        }
                    }
                }
            }
            proof {
                assert forall|q: int| 0 <= q < d + 1 && (#[trigger] tombs[q]).0@ == "accounts"@ implies !has_account_id(
                    self.accounts@,
                    tombs[q].1,
                ) by {
                    if has_account_id(self.accounts@, tombs[q].1) {
                        let j = choose|j: int| 0 <= j < self.accounts@.len() && self.accounts@[j].id == tombs[q].1;
                        if table@ == "accounts"@ {
                            assert(self.accounts@.contains(self.accounts@[j]));
                            before_accounts.lemma_filter_contains_rev(|x: Account| x.id != *id, self.accounts@[j]);
                            if q < d {
                                let j0 = choose|j0: int|
                                    0 <= j0 < before_accounts.len() && before_accounts[j0] == self.accounts@[j];
                            }
                        } else {
                            assert(q < d);
                        }
                    }
                }
                assert forall|q: int| 0 <= q < d + 1 && (#[trigger] tombs[q]).0@ == "concepts"@ implies !has_concept_id(
                    self.concepts@,
                    tombs[q].1,
                ) by {
                    if has_concept_id(self.concepts@, tombs[q].1) {
                        let j = choose|j: int|
                            0 <= j < self.concepts@.len() && self.concepts@[j].id == Some(tombs[q].1);
                        if table@ == "concepts"@ {
                            assert(self.concepts@.contains(self.concepts@[j]));
                            before_concepts.lemma_filter_contains_rev(|x: Concept| x.id != Some(*id), self.concepts@[j]);
                            if q < d {
                                let j0 = choose|j0: int|
                                    0 <= j0 < before_concepts.len() && before_concepts[j0] == self.concepts@[j];
                            }
                        } else {
                            assert(q < d);
                        }
                    }
                }
                assert forall|q: int| 0 <= q < d + 1 && (#[trigger] tombs[q]).0@ == "budgets"@ implies !has_budget_id(
                    self.budgets@,
                    tombs[q].1,
                ) by {
                    if has_budget_id(self.budgets@, tombs[q].1) {
                        let j = choose|j: int|
                            0 <= j < self.budgets@.len() && self.budgets@[j].id == Some(tombs[q].1);
                        if table@ == "budgets"@ {
                            assert(self.budgets@.contains(self.budgets@[j]));
                            before_budgets.lemma_filter_contains_rev(|b: Budget| b.id != Some(*id), self.budgets@[j]);
                            if q < d {
                                let j0 = choose|j0: int|
                                    0 <= j0 < before_budgets.len() && before_budgets[j0] == self.budgets@[j];
                            }
                        } else {
                            assert(q < d);
                        }
                    }
                }
            }
            d = d + 1;
        }
        proof {
            assert(tombs.take(nd as int) =~= tombs);
        }
        self.mirror_revision = delta.cursor;
        proof {
            assert forall|x: Account| #[trigger] self.accounts@.contains(x) implies (old(
                self,
            ).accounts@.contains(x) && account_survives(x, delta.accounts@))
                || delta.accounts@.contains(x) by {
                assert(a_a.contains(x));
                if !(old(self).accounts@.contains(x) && account_survives(x, arows)) {
                    let k = choose|k: int| 0 <= k < na && x == #[trigger] arows[k];
                    assert(arows[k] == x);
                }
            }
            assert forall|x: Entry| #[trigger] self.entries@.contains(x) implies (exists|y: Entry|
                #[trigger] old(self).entries@.contains(y) && entry_survives(y, delta.entries@)
                    && same_movement(y, x)) || exists|k: int|
                0 <= k < delta.entries@.len() && x == stored_row(#[trigger] delta.entries@[k]) by {
                assert(e_e.contains(x));
                if e_c.contains(x) && entry_survives(x, rows) {
                    let j = choose|j: int| 0 <= j < e_c.len() && e_c[j] == x;
                    let y = old(self).entries@[j];
                    assert(same_movement(y, e_c[j]));
                    assert(old(self).entries@.contains(y));
                    assert(entry_survives(y, rows));
                }
            }
            assert forall|y: Entry|
                #[trigger] old(self).entries@.contains(y) && entry_survives(y, delta.entries@)
                    && !entry_tombstoned(delta.deletes@, y.id) implies exists|x: Entry|
                #[trigger] self.entries@.contains(x) && same_movement(y, x) by {
                let j = choose|j: int| 0 <= j < old(self).entries@.len() && old(self).entries@[j] == y;
                let x = e_c[j];
                assert(same_movement(y, x));
                assert(e_c.contains(x));
                assert(entry_survives(x, rows));
                assert(e_e.contains(x));
                assert(self.entries@.contains(x));
            }
            if renames_nothing(old(self).concepts@, crows) {
                assert forall|x: Entry| #[trigger] self.entries@.contains(x) implies (old(
                    self,
                ).entries@.contains(x) && entry_survives(x, delta.entries@)) || exists|k: int|
                    0 <= k < delta.entries@.len() && x == stored_row(#[trigger] delta.entries@[k]) by {
                    assert(e_e.contains(x));
                }
                assert forall|x: Concept| #[trigger] self.concepts@.contains(x) implies old(
                    self,
                ).concepts@.contains(x) || delta.concepts@.contains(x) by {
                    assert(cs.contains(x));
                    if !old(self).concepts@.contains(x) {
                        let k = choose|k: int| 0 <= k < nc && x == #[trigger] crows[k];
                        assert(crows[k] == x);
                    }
                }
                if budgets_with_ids(delta.budgets@) {
                    assert forall|x: Budget| #[trigger] self.budgets@.contains(x) implies (old(
                        self,
                    ).budgets@.contains(x) && budget_survives(x, delta.budgets@))
                        || delta.budgets@.contains(x) by {
                        assert(bs.contains(x));
                        if !(b_c.contains(x) && budget_survives(x, brows)) {
                            let k = choose|k: int| 0 <= k < nb && x == #[trigger] brows[k];
                            assert(brows[k] == x);
                        }
                    }
                }
            }
            if adoptable(*old(self), *delta) {
                assert forall|k: int| 0 <= k < arows.len() implies self.accounts@.contains(
                    #[trigger] arows[k],
                ) by {
                    assert(account_kept(arows, k));
                }
                lemma_adopted_refs(
                    old(self).concepts@,
                    *delta,
                    self.accounts@,
                    self.concepts@,
                    self.entries@,
                    self.budgets@,
                );
            }
            if delta_light(*delta) && references_intact(
                old(self).accounts@,
                old(self).concepts@,
                old(self).entries@,
                old(self).budgets@,
            ) {
                lemma_references_subset(
                    old(self).accounts@,
                    old(self).concepts@,
                    old(self).entries@,
                    old(self).budgets@,
                    self.entries@,
                    self.budgets@,
                );
            }
        }
        if !self.references_ok() {
            return Err(AppError::Database(owned("FOREIGN KEY constraint failed")));
        }
        Ok(())
    }


    /// The highest remote revision this store has applied (0 when fresh).
    pub fn sync_cursor(&self) -> (r: Result<i64>)
        ensures
            r matches Ok(c) && c == self.mirror_cursor(),
    {
        Ok(self.mirror_revision)
    }

    /// Forgets the applied remote revision, so the next sync starts over.
    pub fn reset_mirror_cursor(&mut self) -> (r: Result<()>)
        requires
            old(self).wf(),
        ensures
            r is Ok,
            final(self).wf(),
            final(self).mirror_cursor() == 0,
            final(self).accounts_view() == old(self).accounts_view(),
            final(self).entries_view() == old(self).entries_view(),
            final(self).concepts_view() == old(self).concepts_view(),
            final(self).budgets_view() == old(self).budgets_view(),
            final(self).config_view() == old(self).config_view(),
            final(self).last_entry_id() == old(self).last_entry_id(),
            final(self).last_account_id() == old(self).last_account_id(),
    {
        self.mirror_revision = 0;
        Ok(())
    }

    /// Applies a remote delta, all or nothing. Incoming rows replace the
    /// rows they collide with (by id, by name, by budget concept and
    /// period, and, for an active emergency fund, any other active one);
    /// renaming a concept carries its entries and budgets along; deletions
    /// name one of the five tables. On success the cursor moves to the
    /// delta's, every reference resolves, every entry of the delta that is
    /// not deleted is stored as sent, and every deleted entry is gone. The
    /// accounts, concepts, budgets and configuration rows of the delta that
    /// no later row or deletion overrides are stored as sent too, and every
    /// row of the delta passed its table's own checks. Nothing else
    /// changes: every account, entry, budget or concept of the store that
    /// no row of the delta replaces and no deletion names is still stored
    /// (an entry with at most its concept renamed), and every stored row is
    /// such an old row or a row of the delta; for budgets and concepts this
    /// is stated when no concept of the delta renames a stored one
    /// (`renames_nothing`) and, for budgets, every budget of the delta
    /// carries an id. Likewise every configuration key that no row of the
    /// delta sets keeps its value, and every stored value is an old one or
    /// one the delta sets. A delta that only
    /// sets configuration and deletes entries or budgets is applied whenever
    /// the store's references resolve (an empty one exactly then), and a
    /// store holding no entries or budgets adopts any snapshot that holds
    /// together (`adoptable`). On any failure the store is left as it was.
    pub fn apply_remote_snapshot(&mut self, delta: &LedgerDelta) -> (r: Result<()>)
        requires
            old(self).wf(),
        ensures
            final(self).wf(),
            r is Err ==> final(self).accounts_view() == old(self).accounts_view()
                && final(self).entries_view() == old(self).entries_view()
                && final(self).concepts_view() == old(self).concepts_view()
                && final(self).budgets_view() == old(self).budgets_view()
                && final(self).config_view() == old(self).config_view()
                && final(self).last_entry_id() == old(self).last_entry_id()
                && final(self).last_account_id() == old(self).last_account_id()
                && final(self).mirror_cursor() == old(self).mirror_cursor(),
            r is Ok ==> final(self).mirror_cursor() == delta.cursor,
            r is Ok ==> references_intact(
                final(self).accounts_view(),
                final(self).concepts_view(),
                final(self).entries_view(),
                final(self).budgets_view(),
            ),
            (exists|d: int|
                0 <= d < delta.deletes@.len() && !known_table((#[trigger] delta.deletes@[d]).0@)) ==> r is Err,
            r is Ok ==> forall|d: int|
                0 <= d < delta.deletes@.len() && (#[trigger] delta.deletes@[d]).0@ == "entries"@
                    ==> !has_entry(final(self).entries_view(), delta.deletes@[d].1),
            r is Ok ==> forall|k: int|
                0 <= k < delta.entries@.len() && last_with_id(delta.entries@, k) && !entry_tombstoned(
                    delta.deletes@,
                    delta.entries@[k].id,
                ) ==> final(self).entries_view().contains(stored_row(#[trigger] delta.entries@[k])),
            r is Ok ==> forall|k: int|
                0 <= k < delta.config@.len() && last_with_key(delta.config@, k) ==> config_has(
                    final(self).config_view(),
                    (#[trigger] delta.config@[k]).key@,
                    delta.config@[k].value@,
                ),
            r is Ok ==> forall|k: int|
                0 <= k < delta.accounts@.len() && account_kept(delta.accounts@, k)
                    && !account_tombstoned(delta.deletes@, delta.accounts@[k].id)
                    ==> final(self).accounts_view().contains(#[trigger] delta.accounts@[k]),
            r is Ok ==> forall|k: int|
                0 <= k < delta.concepts@.len() && concept_kept(delta.concepts@, k)
                    && !concept_tombstoned(delta.deletes@, delta.concepts@[k].id)
                    ==> final(self).concepts_view().contains(#[trigger] delta.concepts@[k]),
            r is Ok ==> forall|k: int|
                0 <= k < delta.budgets@.len() && budget_kept(delta.budgets@, k)
                    && !budget_tombstoned(delta.deletes@, delta.budgets@[k].id)
                    ==> final(self).budgets_view().contains(#[trigger] delta.budgets@[k]),
            r is Ok ==> forall|d: int|
                0 <= d < delta.deletes@.len() && (#[trigger] delta.deletes@[d]).0@ == "accounts"@
                    ==> !has_account_id(final(self).accounts_view(), delta.deletes@[d].1),
            r is Ok ==> forall|d: int|
                0 <= d < delta.deletes@.len() && (#[trigger] delta.deletes@[d]).0@ == "concepts"@
                    ==> !has_concept_id(final(self).concepts_view(), delta.deletes@[d].1),
            r is Ok ==> forall|d: int|
                0 <= d < delta.deletes@.len() && (#[trigger] delta.deletes@[d]).0@ == "budgets"@
                    ==> !has_budget_id(final(self).budgets_view(), delta.deletes@[d].1),
            r is Ok ==> forall|x: Account|
                #[trigger] final(self).accounts_view().contains(x) ==> (old(self).accounts_view().contains(x)
                    && account_survives(x, delta.accounts@)) || delta.accounts@.contains(x),
            r is Ok ==> forall|y: Account|
                #[trigger] old(self).accounts_view().contains(y) && account_survives(y, delta.accounts@)
                    && !account_tombstoned(delta.deletes@, y.id) ==> final(self).accounts_view().contains(y),
            r is Ok ==> forall|x: Entry|
                #[trigger] final(self).entries_view().contains(x) ==> (exists|y: Entry|
                    #[trigger] old(self).entries_view().contains(y) && entry_survives(y, delta.entries@)
                        && same_movement(y, x)) || exists|k: int|
                    0 <= k < delta.entries@.len() && x == stored_row(#[trigger] delta.entries@[k]),
            r is Ok ==> forall|y: Entry|
                #[trigger] old(self).entries_view().contains(y) && entry_survives(y, delta.entries@)
                    && !entry_tombstoned(delta.deletes@, y.id) ==> exists|x: Entry|
                    #[trigger] final(self).entries_view().contains(x) && same_movement(y, x),
            r is Ok && renames_nothing(old(self).concepts_view(), delta.concepts@) ==> forall|x: Entry|
                #[trigger] final(self).entries_view().contains(x) ==> (old(self).entries_view().contains(x)
                    && entry_survives(x, delta.entries@)) || exists|k: int|
                    0 <= k < delta.entries@.len() && x == stored_row(#[trigger] delta.entries@[k]),
            r is Ok && renames_nothing(old(self).concepts_view(), delta.concepts@) ==> forall|y: Entry|
                #[trigger] old(self).entries_view().contains(y) && entry_survives(y, delta.entries@)
                    && !entry_tombstoned(delta.deletes@, y.id) ==> final(self).entries_view().contains(y),
            r is Ok && renames_nothing(old(self).concepts_view(), delta.concepts@) && budgets_with_ids(
                delta.budgets@,
            ) ==> forall|x: Budget|
                #[trigger] final(self).budgets_view().contains(x) ==> (old(self).budgets_view().contains(x)
                    && budget_survives(x, delta.budgets@)) || delta.budgets@.contains(x),
            r is Ok && renames_nothing(old(self).concepts_view(), delta.concepts@) && budgets_with_ids(
                delta.budgets@,
            ) ==> forall|y: Budget|
                #[trigger] old(self).budgets_view().contains(y) && budget_survives(y, delta.budgets@)
                    && !budget_tombstoned(delta.deletes@, y.id) ==> final(self).budgets_view().contains(y),
            r is Ok && renames_nothing(old(self).concepts_view(), delta.concepts@) ==> forall|x: Concept|
                #[trigger] final(self).concepts_view().contains(x) ==> old(self).concepts_view().contains(x)
                    || delta.concepts@.contains(x),
            r is Ok && renames_nothing(old(self).concepts_view(), delta.concepts@) ==> forall|y: Concept|
                #[trigger] old(self).concepts_view().contains(y) && concept_survives(
                    y,
                    delta.concepts@,
                    delta.concepts@.len() as int,
                ) && !concept_tombstoned(delta.deletes@, y.id) ==> final(self).concepts_view().contains(y),
            r is Ok ==> forall|k: Seq<char>, v: Seq<char>|
                #[trigger] config_has(final(self).config_view(), k, v) ==> config_sets(
                    delta.config@,
                    delta.config@.len() as int,
                    k,
                    v,
                ) || (config_has(old(self).config_view(), k, v) && config_untouched(
                    delta.config@,
                    delta.config@.len() as int,
                    k,
                )),
            r is Ok ==> forall|k: Seq<char>, v: Seq<char>|
                #[trigger] config_has(old(self).config_view(), k, v) && config_untouched(
                    delta.config@,
                    delta.config@.len() as int,
                    k,
                ) ==> config_has(final(self).config_view(), k, v),
            r is Ok ==> delta_rows_valid(*delta),
            crate::storage::delta_empty(*delta) ==> (r is Ok <==> references_intact(
                old(self).accounts_view(),
                old(self).concepts_view(),
                old(self).entries_view(),
                old(self).budgets_view(),
            )),
            delta_light(*delta) && references_intact(
                old(self).accounts_view(),
                old(self).concepts_view(),
                old(self).entries_view(),
                old(self).budgets_view(),
            ) ==> r is Ok,
            adoptable(*old(self), *delta) ==> r is Ok,
            crate::storage::delta_empty(*delta) ==> final(self).accounts_view() == old(
                self,
            ).accounts_view() && final(self).entries_view() == old(self).entries_view()
                && final(self).concepts_view() == old(self).concepts_view()
                && final(self).budgets_view() == old(self).budgets_view()
                && final(self).config_view() == old(self).config_view(),
            one_active_emergency(final(self).accounts_view()),
            sorted_by_key(final(self).accounts_view()),
            sorted_by_key(final(self).concepts_view()),
    {
        let saved = MemoryBackend {
            accounts: self.accounts.clone(),
            entries: self.entries.clone(),
            concepts: self.concepts.clone(),
            budgets: self.budgets.clone(),
            config: self.config.clone(),
            last_account_id: self.last_account_id,
            last_entry_id: self.last_entry_id,
            last_concept_id: self.last_concept_id,
            last_budget_id: self.last_budget_id,
            mirror_revision: self.mirror_revision,
        };
        proof {
            assert(saved.accounts@ =~= self.accounts@);
            assert(saved.entries@ =~= self.entries@);
            assert(saved.concepts@ =~= self.concepts@);
            assert(saved.budgets@ =~= self.budgets@);
            assert(saved.config@ =~= self.config@);
        }
        let ghost pre = *self;
        let r = match self.apply_delta(delta) {
            Ok(()) => {
                proof {
                    assert forall|x: Entry| #[trigger] self.entries_view().contains(x) implies (exists|
                        y: Entry,
                    |
                        #[trigger] pre.entries_view().contains(y) && entry_survives(y, delta.entries@)
                            && same_movement(y, x)) || exists|k: int|
                        0 <= k < delta.entries@.len() && x == stored_row(#[trigger] delta.entries@[k]) by {
                        assert(self.entries@.contains(x));
                        if !exists|k: int|
                            0 <= k < delta.entries@.len() && x == stored_row(#[trigger] delta.entries@[k]) {
                            let y = choose|y: Entry|
                                #[trigger] pre.entries@.contains(y) && entry_survives(y, delta.entries@)
                                    && same_movement(y, x);
                            assert(pre.entries_view().contains(y));
                        }
                    }
                }
                Ok(())
            },
            Err(e) => {
                *self = saved;
                Err(e)
            },
        };
        proof {
            self.lemma_capacity();
            self.lemma_concept_types();
        }
        r
    }

    /// Removes the entry with id `id`, if there is one.
    fn drop_entry_id(&mut self, id: i64)
        requires
            old(self).wf(),
        ensures
            final(self).wf(),
            final(self).entries@ == old(self).entries@.filter(|e: Entry| e.id != id),
            final(self).last_entry_id == old(self).last_entry_id,
            final(self).accounts@ == old(self).accounts@,
            final(self).concepts@ == old(self).concepts@,
            final(self).budgets@ == old(self).budgets@,
            final(self).config@ == old(self).config@,
            final(self).last_account_id == old(self).last_account_id,
            final(self).last_concept_id == old(self).last_concept_id,
            final(self).last_budget_id == old(self).last_budget_id,
            final(self).mirror_revision == old(self).mirror_revision,
    {
        let _ = self.delete_entry(id);
    }

    /// Stores `e` under its own id, replacing any entry with that id.
    #[verifier::spinoff_prover]
    #[verifier::rlimit(30)]
    fn upsert_entry_row(&mut self, e: &Entry) -> (r: Result<()>)
        requires
            old(self).wf(),
        ensures
            final(self).wf(),
            r is Ok <==> entry_row_valid(*e) && (has_entry(old(self).entries@, e.id) || old(
                self,
            ).entries@.len() < entry_capacity()),
            r matches Err(x) ==> x is Database,
            r is Ok ==> final(self).entries@.len() <= old(self).entries@.len() + 1,
            r is Ok ==> forall|x: Entry|
                #[trigger] final(self).entries@.contains(x) <==> (x == stored_row(*e) || (old(
                    self,
                ).entries@.contains(x) && x.id != e.id)),
            r is Ok ==> final(self).last_entry_id == if e.id > old(self).last_entry_id {
                e.id
            } else {
                old(self).last_entry_id
            },
            r is Err ==> final(self).entries@ == old(self).entries@ && final(self).last_entry_id
                == old(self).last_entry_id,
            final(self).accounts@ == old(self).accounts@,
            final(self).concepts@ == old(self).concepts@,
            final(self).budgets@ == old(self).budgets@,
            final(self).config@ == old(self).config@,
            final(self).last_account_id == old(self).last_account_id,
            final(self).last_concept_id == old(self).last_concept_id,
            final(self).last_budget_id == old(self).last_budget_id,
            final(self).mirror_revision == old(self).mirror_revision,
    {
        let valid = validate_date(e.date.as_str()).is_ok() && e.amount > 0 && match e.kind {
            EntryKind::Income | EntryKind::Opening => e.from_account_id.is_none()
                && e.to_account_id.is_some(),
            EntryKind::Expense => e.from_account_id.is_some() && e.to_account_id.is_none(),
            EntryKind::Transfer => e.from_account_id.is_some() && e.to_account_id.is_some()
                && e.from_account_id != e.to_account_id,
        } && !((e.kind == EntryKind::Income || e.kind == EntryKind::Expense) && e.concept.is_none());
        if !valid {
            return Err(AppError::Database(owned("CHECK constraint failed: entries")));
        }
        let existed = self.find_entry(e.id).is_some();
        if !existed && self.entries.len() as u64 >= 0x2_0000_0000 {
            return Err(AppError::Database(owned("database or disk is full")));
        }
        let ghost before = self.entries@;
        self.drop_entry_id(e.id);
        let ghost mid = self.entries@;
        let row = Entry {
            id: e.id,
            date: e.date.clone(),
            kind: e.kind,
            amount: e.amount,
            from_account_id: e.from_account_id,
            to_account_id: e.to_account_id,
            from_account: None,
            to_account: None,
            concept: clone_opt(&e.concept),
            subconcept: clone_opt(&e.subconcept),
            description: clone_opt(&e.description),
        };
        proof {
            assert(row == stored_row(*e));
            assert forall|k: int| 0 <= k < mid.len() implies mid[k].id != row.id by {
                assert(mid.contains(mid[k]));
                before.lemma_filter_contains_rev(|x: Entry| x.id != e.id, mid[k]);
            }
            before.lemma_filter_len(|x: Entry| x.id != e.id);
            if existed {
                let k = choose|k: int| 0 <= k < before.len() && before[k].id == e.id;
                assert(!mid.contains(before[k])) by {
                    if mid.contains(before[k]) {
                        before.lemma_filter_contains_rev(|x: Entry| x.id != e.id, before[k]);
                    }
                }
                assert(mid.len() < before.len()) by {
                    if mid.len() == before.len() {
                        crate::storage::memory::lemma_filter_full(before, |x: Entry| x.id != e.id);
                    }
                }
            }
        }
        insert_entry(&mut self.entries, row);
        if e.id > self.last_entry_id {
            self.last_entry_id = e.id;
        }
        proof {
            let p = choose|p: int| 0 <= p <= mid.len() && self.entries@ == mid.insert(p, row);
            assert forall|x: Entry| #[trigger] self.entries@.contains(x) <==> (x == row || (
            before.contains(x) && x.id != e.id)) by {
                if self.entries@.contains(x) {
                    let k = choose|k: int| 0 <= k < self.entries@.len() && self.entries@[k] == x;
                    if k != p {
                        let k0 = if k < p {
                            k
                        } else {
                            k - 1
                        };
                        assert(mid[k0] == x);
                        assert(mid.contains(x));
                        before.lemma_filter_contains_rev(|y: Entry| y.id != e.id, x);
                    }
                }
                if before.contains(x) && x.id != e.id {
                    before.lemma_filter_contains(|y: Entry| y.id != e.id, choose|k: int|
                        0 <= k < before.len() && before[k] == x);
                    let k = choose|k: int| 0 <= k < mid.len() && mid[k] == x;
                    if k < p {
                        assert(self.entries@[k] == x);
                    } else {
                        assert(self.entries@[k + 1] == x);
                    }
                }
                if x == row {
                    assert(self.entries@[p] == row);
                }
            }
            assert forall|a: int, b: int|
                0 <= a < self.entries@.len() && 0 <= b < self.entries@.len() && a != b implies self.entries@[a].id
                != self.entries@[b].id by {
                let a0 = if a < p { a } else { a - 1 };
                let b0 = if b < p { b } else { b - 1 };
                if a != p {
                    assert(self.entries@[a] == mid[a0]);
                }
                if b != p {
                    assert(self.entries@[b] == mid[b0]);
                }
            }
            assert forall|k: int| 0 <= k < self.entries@.len() implies #[trigger] self.entries@[k].id
                <= self.last_entry_id by {
                if k != p {
                    let k0 = if k < p { k } else { k - 1 };
                    assert(self.entries@[k] == mid[k0]);
                    assert(mid.contains(mid[k0]));
                    before.lemma_filter_contains_rev(|y: Entry| y.id != e.id, mid[k0]);
                    let j = choose|j: int| 0 <= j < before.len() && before[j] == mid[k0];
                    assert(before[j].id <= old(self).last_entry_id);
                }
            }
        }
        Ok(())
    }
}

} // verus!
