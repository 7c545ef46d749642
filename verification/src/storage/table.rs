//! Ordered tables: rows kept sorted by a unique text key, as a store's
//! primary index keeps them, with lookup, insertion and removal.
use vstd::prelude::*;

use crate::models::{Account, Budget, Concept, Config, Entry};
use crate::text::{lemma_seq_lt_order, lemma_seq_lt_total, seq_lt, str_eq, str_lt};

verus! {

/// A row with a unique text key.
pub trait Keyed {
    spec fn key_view(&self) -> Seq<char>;

    fn key_str(&self) -> (r: &str)
        ensures
            r@ == self.key_view(),
    ;
}

impl Keyed for Account {
    open spec fn key_view(&self) -> Seq<char> {
        self.name@
    }

    fn key_str(&self) -> (r: &str) {
        self.name.as_str()
    }
}

impl Keyed for Concept {
    open spec fn key_view(&self) -> Seq<char> {
        self.name@
    }

    fn key_str(&self) -> (r: &str) {
        self.name.as_str()
    }
}

impl Keyed for Config {
    open spec fn key_view(&self) -> Seq<char> {
        self.key@
    }

    fn key_str(&self) -> (r: &str) {
        self.key.as_str()
    }
}

/// Rows in strictly increasing key order (so no key occurs twice).
pub open spec fn sorted_by_key<T: Keyed>(s: Seq<T>) -> bool {
    forall|i: int, j: int| 0 <= i < j < s.len() ==> seq_lt(s[i].key_view(), s[j].key_view())
}

/// Some row of `s` has key `k`.
pub open spec fn has_key<T: Keyed>(s: Seq<T>, k: Seq<char>) -> bool {
    exists|i: int| 0 <= i < s.len() && s[i].key_view() == k
}

/// `new` is `old` with `x` placed at some position.
pub open spec fn inserted<T>(old: Seq<T>, new: Seq<T>, x: T) -> bool {
    exists|p: int| 0 <= p <= old.len() && new == old.insert(p, x)
}

/// Position of the row with key `key`, if any.
pub fn find_key<T: Keyed>(v: &Vec<T>, key: &str) -> (r: Option<usize>)
    ensures
        match r {
            Some(k) => k < v@.len() && v@[k as int].key_view() == key@,
            None => !has_key(v@, key@),
        },
{
    let n = v.len();
    let mut i: usize = 0;
    while i < n
        invariant
            n == v@.len(),
            i <= n,
            forall|k: int| 0 <= k < i ==> v@[k].key_view() != key@,
        decreases n - i,
    {
        if str_eq(v[i].key_str(), key) {
            return Some(i);
        }
        i = i + 1;
    }
    None
}

/// Inserts `x`, whose key is new, keeping the order.
pub fn insert_keyed<T: Keyed>(v: &mut Vec<T>, x: T)
    requires
        sorted_by_key(old(v)@),
        !has_key(old(v)@, x.key_view()),
    ensures
        sorted_by_key(final(v)@),
        inserted(old(v)@, final(v)@, x),
{
    let m = v.len();
    let mut p: usize = 0;
    while p < m && str_lt(v[p].key_str(), x.key_str())
        invariant
            m == v@.len(),
            p <= m,
            forall|k: int| 0 <= k < p ==> seq_lt(v@[k].key_view(), x.key_view()),
        decreases m - p,
    {
        p = p + 1;
    }
    let ghost before = v@;
    proof {
        lemma_seq_lt_order();
        assert forall|k: int| p <= k < m implies seq_lt(x.key_view(), before[k].key_view()) by {
            assert(before[k].key_view() != x.key_view());
            lemma_seq_lt_total(x.key_view(), before[p as int].key_view());
            if k > p {
                assert(seq_lt(before[p as int].key_view(), before[k].key_view()));
            }
            assert(!seq_lt(before[p as int].key_view(), x.key_view()));
            assert(before[p as int].key_view() != x.key_view());
        }
    }
    v.insert(p, x);
    proof {
        assert(v@ =~= before.insert(p as int, x));
        assert forall|a: int, b: int| 0 <= a < b < v@.len() implies seq_lt(
            v@[a].key_view(),
            v@[b].key_view(),
        ) by {
            if a < p && b > p {
                assert(seq_lt(before[a].key_view(), x.key_view()));
                assert(seq_lt(x.key_view(), before[b - 1].key_view()));
            }
        }
    }
}

/// Replacing a row by one with the same key keeps the order.
pub proof fn lemma_update_sorted<T: Keyed>(s: Seq<T>, i: int, x: T)
    requires
        sorted_by_key(s),
        0 <= i < s.len(),
        x.key_view() == s[i].key_view(),
    ensures
        sorted_by_key(s.update(i, x)),
{
}

/// In a sorted table only one row carries a key.
pub proof fn lemma_key_unique<T: Keyed>(s: Seq<T>, i: int, j: int)
    requires
        sorted_by_key(s),
        0 <= i < s.len(),
        0 <= j < s.len(),
        s[i].key_view() == s[j].key_view(),
    ensures
        i == j,
{
    lemma_seq_lt_order();
    if i < j {
        assert(seq_lt(s[i].key_view(), s[j].key_view()));
    } else if j < i {
        assert(seq_lt(s[j].key_view(), s[i].key_view()));
    }
}

// ---------------------------------------------------------------------------
// Entries, newest first.
// ---------------------------------------------------------------------------

/// `a` is listed before `b`: a later date, or the same date and a larger id.
pub open spec fn entry_before(a: Entry, b: Entry) -> bool {
    seq_lt(b.date@, a.date@) || (a.date@ == b.date@ && a.id > b.id)
}

/// Entries listed newest first.
pub open spec fn entries_ordered(s: Seq<Entry>) -> bool {
    forall|i: int, j: int| 0 <= i < j < s.len() ==> entry_before(s[i], s[j])
}

/// No two entries share an id.
pub open spec fn entry_ids_distinct(s: Seq<Entry>) -> bool {
    forall|i: int, j: int| 0 <= i < s.len() && 0 <= j < s.len() && i != j ==> s[i].id != s[j].id
}

/// Entry order is a strict total order on entries with distinct ids.
pub proof fn lemma_entry_order()
    ensures
        forall|a: Entry| !#[trigger] entry_before(a, a),
        forall|a: Entry, b: Entry, c: Entry|
            #[trigger] entry_before(a, b) && #[trigger] entry_before(b, c) ==> entry_before(a, c),
        forall|a: Entry, b: Entry|
            a.id != b.id ==> #[trigger] entry_before(a, b) || #[trigger] entry_before(b, a),
{
    lemma_seq_lt_order();
    assert forall|a: Entry, b: Entry| a.id != b.id implies #[trigger] entry_before(a, b)
        || #[trigger] entry_before(b, a) by {
        lemma_seq_lt_total(a.date@, b.date@);
    }
}

fn entry_is_before(a: &Entry, b: &Entry) -> (r: bool)
    ensures
        r == entry_before(*a, *b),
{
    str_lt(b.date.as_str(), a.date.as_str()) || (str_eq(a.date.as_str(), b.date.as_str()) && a.id
        > b.id)
}

/// Inserts `x`, whose id is new, keeping the entries newest first.
pub fn insert_entry(v: &mut Vec<Entry>, x: Entry)
    requires
        entries_ordered(old(v)@),
        forall|k: int| 0 <= k < old(v)@.len() ==> old(v)@[k].id != x.id,
    ensures
        entries_ordered(final(v)@),
        inserted(old(v)@, final(v)@, x),
{
    let m = v.len();
    let mut p: usize = 0;
    while p < m && entry_is_before(&v[p], &x)
        invariant
            m == v@.len(),
            p <= m,
            forall|k: int| 0 <= k < p ==> entry_before(v@[k], x),
        decreases m - p,
    {
        p = p + 1;
    }
    let ghost before = v@;
    proof {
        lemma_entry_order();
        assert forall|k: int| p <= k < m implies entry_before(x, before[k]) by {
            assert(before[p as int].id != x.id);
            assert(entry_before(x, before[p as int]) || entry_before(before[p as int], x));
            if k > p {
                assert(entry_before(before[p as int], before[k]));
            }
        }
    }
    v.insert(p, x);
    proof {
        assert(v@ =~= before.insert(p as int, x));
        assert forall|a: int, b: int| 0 <= a < b < v@.len() implies entry_before(v@[a], v@[b]) by {
            if a < p && b > p {
                assert(entry_before(before[a], x));
                assert(entry_before(x, before[b - 1]));
            }
        }
    }
}

/// Removing an entry keeps the order and the distinct ids.
pub proof fn lemma_remove_entry(s: Seq<Entry>, i: int)
    requires
        entries_ordered(s),
        entry_ids_distinct(s),
        0 <= i < s.len(),
    ensures
        entries_ordered(s.remove(i)),
        entry_ids_distinct(s.remove(i)),
{
    assert forall|a: int, b: int| 0 <= a < s.remove(i).len() && 0 <= b < s.remove(i).len() implies
        (a < b ==> entry_before(s.remove(i)[a], s.remove(i)[b])) && (a != b ==> s.remove(i)[a].id
        != s.remove(i)[b].id) by {
        let a0 = if a < i {
            a
        } else {
            a + 1
        };
        let b0 = if b < i {
            b
        } else {
            b + 1
        };
        assert(s.remove(i)[a] == s[a0]);
        assert(s.remove(i)[b] == s[b0]);
    }
}

// ---------------------------------------------------------------------------
// Budgets, by concept then period.
// ---------------------------------------------------------------------------

/// `a` sorts before `b`: by concept, then by period.
pub open spec fn budget_before(a: Budget, b: Budget) -> bool {
    seq_lt(a.concept@, b.concept@) || (a.concept@ == b.concept@ && seq_lt(a.period@, b.period@))
}

/// Same (concept, period) key.
pub open spec fn same_budget_key(a: Budget, b: Budget) -> bool {
    a.concept@ == b.concept@ && a.period@ == b.period@
}

/// Budgets in strictly increasing (concept, period) order.
pub open spec fn budgets_ordered(s: Seq<Budget>) -> bool {
    forall|i: int, j: int| 0 <= i < j < s.len() ==> budget_before(s[i], s[j])
}

/// Budget order is a strict total order on budgets with distinct keys.
pub proof fn lemma_budget_order()
    ensures
        forall|a: Budget| !#[trigger] budget_before(a, a),
        forall|a: Budget, b: Budget, c: Budget|
            #[trigger] budget_before(a, b) && #[trigger] budget_before(b, c) ==> budget_before(a, c),
        forall|a: Budget, b: Budget|
            !same_budget_key(a, b) ==> #[trigger] budget_before(a, b) || #[trigger] budget_before(b, a),
{
    lemma_seq_lt_order();
    assert forall|a: Budget, b: Budget| !same_budget_key(a, b) implies #[trigger] budget_before(a, b)
        || #[trigger] budget_before(b, a) by {
        lemma_seq_lt_total(a.concept@, b.concept@);
        lemma_seq_lt_total(a.period@, b.period@);
    }
}

fn budget_is_before(a: &Budget, b: &Budget) -> (r: bool)
    ensures
        r == budget_before(*a, *b),
{
    str_lt(a.concept.as_str(), b.concept.as_str()) || (str_eq(a.concept.as_str(), b.concept.as_str())
        && str_lt(a.period.as_str(), b.period.as_str()))
}

/// Position of the budget for (concept, period), if any.
pub fn find_budget(v: &Vec<Budget>, concept: &str, period: &str) -> (r: Option<usize>)
    ensures
        match r {
            Some(k) => k < v@.len() && v@[k as int].concept@ == concept@ && v@[k as int].period@
                == period@,
            None => forall|k: int|
                0 <= k < v@.len() ==> !(v@[k].concept@ == concept@ && v@[k].period@ == period@),
        },
{
    let n = v.len();
    let mut i: usize = 0;
    while i < n
        invariant
            n == v@.len(),
            i <= n,
            forall|k: int|
                0 <= k < i ==> !(v@[k].concept@ == concept@ && v@[k].period@ == period@),
        decreases n - i,
    {
        if str_eq(v[i].concept.as_str(), concept) && str_eq(v[i].period.as_str(), period) {
            return Some(i);
        }
        i = i + 1;
    }
    None
}

/// Inserts `x`, whose (concept, period) is new, keeping the order.
pub fn insert_budget(v: &mut Vec<Budget>, x: Budget)
    requires
        budgets_ordered(old(v)@),
        forall|k: int| 0 <= k < old(v)@.len() ==> !same_budget_key(old(v)@[k], x),
    ensures
        budgets_ordered(final(v)@),
        inserted(old(v)@, final(v)@, x),
{
    let m = v.len();
    let mut p: usize = 0;
    while p < m && budget_is_before(&v[p], &x)
        invariant
            m == v@.len(),
            p <= m,
            forall|k: int| 0 <= k < p ==> budget_before(v@[k], x),
        decreases m - p,
    {
        p = p + 1;
    }
    let ghost before = v@;
    proof {
        lemma_budget_order();
        assert forall|k: int| p <= k < m implies budget_before(x, before[k]) by {
            assert(!same_budget_key(before[p as int], x));
            assert(budget_before(x, before[p as int]) || budget_before(before[p as int], x));
            if k > p {
                assert(budget_before(before[p as int], before[k]));
            }
        }
    }
    v.insert(p, x);
    proof {
        assert(v@ =~= before.insert(p as int, x));
        assert forall|a: int, b: int| 0 <= a < b < v@.len() implies budget_before(v@[a], v@[b]) by {
            if a < p && b > p {
                assert(budget_before(before[a], x));
                assert(budget_before(x, before[b - 1]));
            }
        }
    }
}

/// Removing a budget keeps the order.
pub proof fn lemma_remove_budget(s: Seq<Budget>, i: int)
    requires
        budgets_ordered(s),
        0 <= i < s.len(),
    ensures
        budgets_ordered(s.remove(i)),
{
    assert forall|a: int, b: int| 0 <= a < b < s.remove(i).len() implies budget_before(
        s.remove(i)[a],
        s.remove(i)[b],
    ) by {
        let a0 = if a < i {
            a
        } else {
            a + 1
        };
        let b0 = if b < i {
            b
        } else {
            b + 1
        };
        assert(s.remove(i)[a] == s[a0]);
        assert(s.remove(i)[b] == s[b0]);
    }
}

/// Keeping some rows of a sorted table keeps it sorted.
pub proof fn lemma_filter_sorted<T: Keyed>(s: Seq<T>, p: spec_fn(T) -> bool)
    requires
        sorted_by_key(s),
    ensures
        sorted_by_key(s.filter(p)),
    decreases s.len(),
{
    reveal(Seq::filter);
    if s.len() > 0 {
        let t = s.drop_last();
        assert(sorted_by_key(t)) by {
            assert forall|a: int, b: int| 0 <= a < b < t.len() implies seq_lt(
                t[a].key_view(),
                t[b].key_view(),
            ) by {
                assert(t[a] == s[a] && t[b] == s[b]);
            }
        }
        lemma_filter_sorted(t, p);
        if p(s.last()) {
            let f = t.filter(p);
            assert forall|a: int, b: int| 0 <= a < b < f.push(s.last()).len() implies seq_lt(
                f.push(s.last())[a].key_view(),
                f.push(s.last())[b].key_view(),
            ) by {
                if b == f.len() {
                    assert(f.contains(f[a]));
                    t.lemma_filter_contains_rev(p, f[a]);
                    let k = choose|k: int| 0 <= k < t.len() && t[k] == f[a];
                    assert(s[k] == f[a]);
                    assert(s.last() == s[s.len() - 1]);
                }
            }
        }
    }
}

/// Keeping some budgets keeps them ordered.
pub proof fn lemma_filter_budgets(s: Seq<Budget>, p: spec_fn(Budget) -> bool)
    requires
        budgets_ordered(s),
    ensures
        budgets_ordered(s.filter(p)),
    decreases s.len(),
{
    reveal(Seq::filter);
    if s.len() > 0 {
        let t = s.drop_last();
        assert(budgets_ordered(t)) by {
            assert forall|a: int, b: int| 0 <= a < b < t.len() implies budget_before(t[a], t[b]) by {
                assert(t[a] == s[a] && t[b] == s[b]);
            }
        }
        lemma_filter_budgets(t, p);
        if p(s.last()) {
            let f = t.filter(p);
            assert forall|a: int, b: int| 0 <= a < b < f.push(s.last()).len() implies budget_before(
                f.push(s.last())[a],
                f.push(s.last())[b],
            ) by {
                if b == f.len() {
                    assert(f.contains(f[a]));
                    t.lemma_filter_contains_rev(p, f[a]);
                    let k = choose|k: int| 0 <= k < t.len() && t[k] == f[a];
                    assert(s[k] == f[a]);
                    assert(s.last() == s[s.len() - 1]);
                }
            }
        }
    }
}

} // verus!
