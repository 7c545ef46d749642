//! A month's expenses grouped by concept, and the budget lines set against
//! them.
use vstd::prelude::*;
use vstd::seq_lib::*;

use crate::models::{Budget, ConceptSummary, Entry, EntryKind};
use crate::services::report_service::BudgetVsActual;
use crate::storage::ledger::{
    abs, amount_bound, concept_key, count_where, expense_under, lemma_sum_step, sum_amounts,
};
use crate::text::{lemma_seq_lt_order, owned, seq_lt, str_eq, str_lt};

verus! {

// ---------------------------------------------------------------------------
// Concept groups.
// ---------------------------------------------------------------------------

/// `g` holds the total and the number of the expenses in [s, t) filed
/// under its concept, and there is at least one.
pub open spec fn is_group(entries: Seq<Entry>, s: Seq<char>, t: Seq<char>, g: ConceptSummary) -> bool {
    &&& g.total == sum_amounts(entries, expense_under(s, t, g.concept@))
    &&& g.count == count_where(entries, expense_under(s, t, g.concept@))
    &&& g.count > 0
}

/// No concept is listed twice.
pub open spec fn distinct_concepts(gs: Seq<ConceptSummary>) -> bool {
    forall|i: int, j: int| 0 <= i < j < gs.len() ==> gs[i].concept@ != gs[j].concept@
}

/// Every concept with an expense in [s, t) is listed.
pub open spec fn covers_concepts(
    entries: Seq<Entry>,
    s: Seq<char>,
    t: Seq<char>,
    gs: Seq<ConceptSummary>,
) -> bool {
    forall|key: Seq<char>|
        #[trigger] count_where(entries, expense_under(s, t, key)) > 0 ==> exists|i: int|
            0 <= i < gs.len() && gs[i].concept@ == key
}

/// The groups are ordered by total, largest first.
pub open spec fn by_total_desc(gs: Seq<ConceptSummary>) -> bool {
    forall|i: int, j: int| 0 <= i < j < gs.len() ==> gs[i].total >= gs[j].total
}

/// One step of a sum/count over a prefix, for every concept at once.
proof fn lemma_group_step(entries: Seq<Entry>, s: Seq<char>, t: Seq<char>, j: int)
    requires
        0 <= j < entries.len(),
    ensures
        forall|key: Seq<char>|
            #![trigger expense_under(s, t, key)]
            sum_amounts(entries.take(j + 1), expense_under(s, t, key)) == sum_amounts(
                entries.take(j),
                expense_under(s, t, key),
            ) + if expense_under(s, t, key)(entries[j]) {
                entries[j].amount as int
            } else {
                0
            } && count_where(entries.take(j + 1), expense_under(s, t, key)) == count_where(
                entries.take(j),
                expense_under(s, t, key),
            ) + if expense_under(s, t, key)(entries[j]) {
                1nat
            } else {
                0nat
            },
{
    assert forall|key: Seq<char>| #![trigger expense_under(s, t, key)]
        sum_amounts(entries.take(j + 1), expense_under(s, t, key)) == sum_amounts(
            entries.take(j),
            expense_under(s, t, key),
        ) + if expense_under(s, t, key)(entries[j]) {
            entries[j].amount as int
        } else {
            0
        } && count_where(entries.take(j + 1), expense_under(s, t, key)) == count_where(
            entries.take(j),
            expense_under(s, t, key),
        ) + if expense_under(s, t, key)(entries[j]) {
            1nat
        } else {
            0nat
        } by {
        lemma_sum_step(entries, expense_under(s, t, key), j);
    }
}

/// A sum or count over `n` entries stays within `n` amounts.
pub proof fn lemma_sum_bound(entries: Seq<Entry>, p: spec_fn(Entry) -> bool)
    ensures
        abs(sum_amounts(entries, p)) <= entries.len() * amount_bound(),
        count_where(entries, p) <= entries.len(),
    decreases entries.len(),
{
    if entries.len() > 0 {
        lemma_sum_bound(entries.drop_last(), p);
        assert((entries.len() - 1) * amount_bound() + amount_bound() == entries.len()
            * amount_bound()) by (nonlinear_arith);
    }
}

/// Index of the group filed under `key`, if any.
fn find_group(gs: &Vec<ConceptSummary>, key: &str) -> (r: Option<usize>)
    ensures
        match r {
            Some(k) => k < gs@.len() && gs@[k as int].concept@ == key@,
            None => forall|i: int| 0 <= i < gs@.len() ==> gs@[i].concept@ != key@,
        },
{
    let n = gs.len();
    let mut i: usize = 0;
    while i < n
        invariant
            n == gs@.len(),
            i <= n,
            forall|k: int| 0 <= k < i ==> gs@[k].concept@ != key@,
        decreases n - i,
    {
        if str_eq(gs[i].concept.as_str(), key) {
            return Some(i);
        }
        i = i + 1;
    }
    None
}

/// Groups the expenses dated in [start, end) by concept, in the order the
/// concepts first appear.
fn group_expenses(entries: &[Entry], start: &str, end: &str) -> (gs: Vec<ConceptSummary>)
    ensures
        forall|i: int| 0 <= i < gs@.len() ==> is_group(entries@, start@, end@, #[trigger] gs@[i]),
        distinct_concepts(gs@),
        covers_concepts(entries@, start@, end@, gs@),
{
    let ghost s = start@;
    let ghost t = end@;
    let mut gs: Vec<ConceptSummary> = Vec::new();
    let n = entries.len();
    let mut j: usize = 0;
    proof {
        reveal_strlit("");
    }
    while j < n
        invariant
            n == entries@.len(),
            j <= n,
            s == start@,
            t == end@,
            forall|i: int|
                0 <= i < gs@.len() ==> is_group(entries@.take(j as int), s, t, #[trigger] gs@[i]),
            forall|i: int|
                0 <= i < gs@.len() ==> abs(#[trigger] gs@[i].total as int) <= (j as int)
                    * amount_bound() && gs@[i].count <= j,
            distinct_concepts(gs@),
            covers_concepts(entries@.take(j as int), s, t, gs@),
            ""@ =~= Seq::<char>::empty(),
        decreases n - j,
    {
        let e = &entries[j];
        proof {
            lemma_group_step(entries@, s, t, j as int);
            assert((j as int + 1) * amount_bound() <= 0xffff_ffff_ffff_ffff * amount_bound())
                by (nonlinear_arith)
                requires
                    j < 0xffff_ffff_ffff_ffff,
            ;
            assert((j as int) * amount_bound() + amount_bound() == (j as int + 1) * amount_bound())
                by (nonlinear_arith);
        }
        let inside = !str_lt(e.date.as_str(), start) && str_lt(e.date.as_str(), end);
        if inside && e.kind == EntryKind::Expense {
            let key: &str = match &e.concept {
                Some(c) => c.as_str(),
                None => "",
            };
            assert(key@ == concept_key(entries@[j as int]));
            let ghost old_gs = gs@;
            match find_group(&gs, key) {
                Some(k) => {
                    let g = ConceptSummary {
                        concept: gs[k].concept.clone(),
                        total: gs[k].total + e.amount as i128,
                        count: gs[k].count + 1,
                    };
                    gs.set(k, g);
                    proof {
                        assert forall|i: int| 0 <= i < gs@.len() implies is_group(
                            entries@.take(j + 1),
                            s,
                            t,
                            #[trigger] gs@[i],
                        ) by {
                            if i != k {
                                assert(gs@[i] == old_gs[i]);
                                assert(old_gs[i].concept@ != key@);
                            }
                        }
                        assert forall|key2: Seq<char>|
                            #[trigger] count_where(
                                entries@.take(j + 1),
                                expense_under(s, t, key2),
                            ) > 0 implies exists|i: int|
                            0 <= i < gs@.len() && gs@[i].concept@ == key2 by {
                            if key2 == key@ {
                                assert(gs@[k as int].concept@ == key2);
                            } else {
                                assert(count_where(entries@.take(j as int), expense_under(s, t, key2))
                                    > 0);
                                let i0 = choose|i: int|
                                    0 <= i < old_gs.len() && old_gs[i].concept@ == key2;
                                assert(gs@[i0].concept@ == key2);
                            }
                        }
                    }
                },
                None => {
                    gs.push(ConceptSummary { concept: owned(key), total: e.amount as i128, count: 1 });
                    proof {
                        let last = gs@.len() - 1;
                        assert forall|i: int| 0 <= i < gs@.len() implies is_group(
                            entries@.take(j + 1),
                            s,
                            t,
                            #[trigger] gs@[i],
                        ) by {
                            if i != last {
                                assert(gs@[i] == old_gs[i]);
                                assert(old_gs[i].concept@ != key@);
                            } else {
                                assert(count_where(entries@.take(j as int), expense_under(s, t, key@))
                                    == 0) by {
                                    if count_where(
                                        entries@.take(j as int),
                                        expense_under(s, t, key@),
                                    ) > 0 {
                                        let i0 = choose|i: int|
                                            0 <= i < old_gs.len() && old_gs[i].concept@ == key@;
                                    }
                                }
                                assert(sum_amounts(entries@.take(j as int), expense_under(s, t, key@))
                                    == 0) by {
                                    lemma_sum_zero(
                                        entries@.take(j as int),
                                        expense_under(s, t, key@),
                                    );
                                }
                            }
                        }
                        assert forall|key2: Seq<char>|
                            #[trigger] count_where(
                                entries@.take(j + 1),
                                expense_under(s, t, key2),
                            ) > 0 implies exists|i: int|
                            0 <= i < gs@.len() && gs@[i].concept@ == key2 by {
                            if key2 == key@ {
                                assert(gs@[last].concept@ == key2);
                            } else {
                                assert(count_where(entries@.take(j as int), expense_under(s, t, key2))
                                    > 0);
                                let i0 = choose|i: int|
                                    0 <= i < old_gs.len() && old_gs[i].concept@ == key2;
                                assert(gs@[i0].concept@ == key2);
                            }
                        }
                    }
                },
            }
        }
        j = j + 1;
    }
    proof {
        assert(entries@.take(n as int) =~= entries@);
    }
    gs
}

/// A sum over entries none of which satisfies `p` is zero.
proof fn lemma_sum_zero(entries: Seq<Entry>, p: spec_fn(Entry) -> bool)
    requires
        count_where(entries, p) == 0,
    ensures
        sum_amounts(entries, p) == 0,
    decreases entries.len(),
{
    if entries.len() > 0 {
        lemma_sum_zero(entries.drop_last(), p);
    }
}

/// Stable insertion sort of the groups by total, largest first.
fn sort_by_total(gs: &Vec<ConceptSummary>) -> (out: Vec<ConceptSummary>)
    requires
        distinct_concepts(gs@),
    ensures
        out@.to_multiset() == gs@.to_multiset(),
        by_total_desc(out@),
        distinct_concepts(out@),
{
    broadcast use group_to_multiset_ensures;

    let mut out: Vec<ConceptSummary> = Vec::new();
    let n = gs.len();
    let mut i: usize = 0;
    while i < n
        invariant
            n == gs@.len(),
            i <= n,
            distinct_concepts(gs@),
            out@.to_multiset() == gs@.take(i as int).to_multiset(),
            by_total_desc(out@),
            distinct_concepts(out@),
        decreases n - i,
    {
        let x = gs[i].clone();
        let m = out.len();
        let mut p: usize = 0;
        while p < m && out[p].total >= x.total
            invariant
                m == out@.len(),
                p <= m,
                forall|k: int| 0 <= k < p ==> out@[k].total >= x.total,
            decreases m - p,
        {
            p = p + 1;
        }
        proof {
            assert forall|k: int| 0 <= k < out@.len() implies out@[k].concept@ != x.concept@ by {
                assert(out@.contains(out@[k]));
                to_multiset_contains(out@, out@[k]);
                to_multiset_contains(gs@.take(i as int), out@[k]);
                assert(gs@.take(i as int).contains(out@[k]));
                let a = choose|a: int| 0 <= a < i && gs@.take(i as int)[a] == out@[k];
                assert(gs@[a] == out@[k]);
            }
            assert(gs@.take(i + 1) =~= gs@.take(i as int).push(gs@[i as int]));
        }
        let ghost before = out@;
        out.insert(p, x);
        proof {
            assert(out@ =~= before.insert(p as int, x));
            to_multiset_insert(before, p as int, x);
            to_multiset_build(gs@.take(i as int), gs@[i as int]);
            assert(x == gs@[i as int]);
            assert(out@.to_multiset() =~= gs@.take(i + 1).to_multiset());
            assert forall|a: int, b: int| 0 <= a < b < out@.len() implies out@[a].total
                >= out@[b].total by {
                if b == p {
                } else if a == p {
                    assert(p < m ==> before[p as int].total < x.total);
                    assert(before[p as int].total >= before[b - 1].total);
                } else {
                }
            }
        }
        i = i + 1;
    }
    proof {
        assert(gs@.take(n as int) =~= gs@);
    }
    out
}

/// The month's expenses in [start, end) grouped by concept, largest total
/// first.
pub fn concept_summaries(entries: &[Entry], start: &str, end: &str) -> (r: Vec<ConceptSummary>)
    ensures
        forall|i: int| 0 <= i < r@.len() ==> is_group(entries@, start@, end@, #[trigger] r@[i]),
        distinct_concepts(r@),
        covers_concepts(entries@, start@, end@, r@),
        by_total_desc(r@),
{
    broadcast use group_to_multiset_ensures;

    let gs = group_expenses(entries, start, end);
    let r = sort_by_total(&gs);
    proof {
        assert forall|i: int| 0 <= i < r@.len() implies is_group(
            entries@,
            start@,
            end@,
            #[trigger] r@[i],
        ) by {
            assert(r@.to_multiset().count(r@[i]) > 0);
            assert(gs@.contains(r@[i]));
        }
        assert forall|key: Seq<char>| #[trigger]
            count_where(entries@, expense_under(start@, end@, key)) > 0 implies exists|i: int|
            0 <= i < r@.len() && r@[i].concept@ == key by {
            let a = choose|a: int| 0 <= a < gs@.len() && gs@[a].concept@ == key;
            assert(gs@.to_multiset().count(gs@[a]) > 0);
            assert(r@.contains(gs@[a]));
        }
    }
    r
}

// ---------------------------------------------------------------------------
// Budget lines.
// ---------------------------------------------------------------------------

/// Budgets set for period `p`.
pub open spec fn budget_in(p: Seq<char>) -> spec_fn(Budget) -> bool {
    |b: Budget| b.period@ == p
}

/// `actual` as hundredths of a percent of `limit`, rounded toward zero and
/// capped at 999% from above; 0 when there is no positive limit. A negative
/// share is not capped: only the range of `i64` bounds it.
pub open spec fn pct_bp(actual: int, limit: int) -> int {
    if limit <= 0 {
        0
    } else if actual >= 0 {
        if actual * 10000 / limit > 99900 {
            99900
        } else {
            actual * 10000 / limit
        }
    } else {
        if (-actual) * 10000 / limit > 0x8000_0000_0000_0000 {
            i64::MIN as int
        } else {
            -((-actual) * 10000 / limit)
        }
    }
}

/// `line` reports budget `b` against the expenses in [s, t).
pub open spec fn is_line(
    entries: Seq<Entry>,
    s: Seq<char>,
    t: Seq<char>,
    b: Budget,
    line: BudgetVsActual,
) -> bool {
    &&& line.concept@ == b.concept@
    &&& line.budgeted == b.monthly_limit
    &&& line.actual == sum_amounts(entries, expense_under(s, t, b.concept@))
    &&& line.pct == pct_bp(line.actual as int, b.monthly_limit as int)
}

/// The lines are ordered by concept.
pub open spec fn lines_by_concept(lines: Seq<BudgetVsActual>) -> bool {
    forall|i: int, j: int| 0 <= i < j < lines.len() ==> !seq_lt(lines[j].concept@, lines[i].concept@)
}

/// The budget lines of period `p`: one per budget of the period, ordered by
/// concept.
pub open spec fn budget_lines_of(
    entries: Seq<Entry>,
    budgets: Seq<Budget>,
    p: Seq<char>,
    s: Seq<char>,
    t: Seq<char>,
    lines: Seq<BudgetVsActual>,
) -> bool {
    &&& exists|src: Seq<Budget>|
        {
            &&& src.to_multiset() == budgets.filter(budget_in(p)).to_multiset()
            &&& src.len() == lines.len()
            &&& forall|i: int| 0 <= i < lines.len() ==> is_line(entries, s, t, src[i], #[trigger] lines[i])
        }
    &&& lines_by_concept(lines)
}

/// Sum of the expenses in [start, end) filed under `key`.
fn concept_total(entries: &[Entry], start: &str, end: &str, key: &str) -> (r: i128)
    ensures
        r == sum_amounts(entries@, expense_under(start@, end@, key@)),
        abs(r as int) <= entries@.len() * amount_bound(),
{
    let ghost p = expense_under(start@, end@, key@);
    let mut sum: i128 = 0;
    let n = entries.len();
    let mut j: usize = 0;
    proof {
        reveal_strlit("");
    }
    while j < n
        invariant
            n == entries@.len(),
            j <= n,
            p == expense_under(start@, end@, key@),
            sum == sum_amounts(entries@.take(j as int), p),
            abs(sum as int) <= (j as int) * amount_bound(),
            ""@ =~= Seq::<char>::empty(),
        decreases n - j,
    {
        let e = &entries[j];
        proof {
            lemma_sum_step(entries@, p, j as int);
            assert((j as int + 1) * amount_bound() <= 0xffff_ffff_ffff_ffff * amount_bound())
                by (nonlinear_arith)
                requires
                    j < 0xffff_ffff_ffff_ffff,
            ;
            assert((j as int) * amount_bound() + amount_bound() == (j as int + 1) * amount_bound())
                by (nonlinear_arith);
        }
        let inside = !str_lt(e.date.as_str(), start) && str_lt(e.date.as_str(), end);
        if inside && e.kind == EntryKind::Expense {
            let c: &str = match &e.concept {
                Some(c) => c.as_str(),
                None => "",
            };
            if str_eq(c, key) {
                sum = sum + e.amount as i128;
            }
        }
        j = j + 1;
    }
    proof {
        assert(entries@.take(n as int) =~= entries@);
    }
    sum
}

/// `actual` as hundredths of a percent of `limit` (see `pct_bp`).
pub fn budget_pct(actual: i128, limit: i64) -> (r: i64)
    requires
        actual > i128::MIN,
    ensures
        r == pct_bp(actual as int, limit as int),
{
    if limit <= 0 {
        return 0;
    }
    let lim = limit as i128;
    if actual >= 0 {
        let m = actual;
        if m >= 10 * lim {
            proof {
                let mi = m as int;
                let li = lim as int;
                assert(mi * 10000 >= 100000 * li) by (nonlinear_arith)
                    requires
                        mi >= 10 * li,
                        li > 0,
                ;
                vstd::arithmetic::div_mod::lemma_div_is_ordered(100000 * li, mi * 10000, li);
                vstd::arithmetic::div_mod::lemma_div_by_multiple(100000, li);
                assert(mi * 10000 / li >= 100000);
            }
            return 99900;
        }
        proof {
            assert(m * 10000 < 0x1_0000_0000_0000_0000_0000_0000) by (nonlinear_arith)
                requires
                    m < 10 * lim,
                    lim < 0x8000_0000_0000_0000,
                    m >= 0,
            ;
        }
        let raw = (m * 10000) / lim;
        if raw > 99900 {
            99900
        } else {
            raw as i64
        }
    } else {
        let m: i128 = -actual;
        if m >= 0x2_0000_0000_0000_0000_0000_0000_0000 {
            proof {
                let mi = m as int;
                let li = lim as int;
                assert(mi * 10000 >= 0x2_0000_0000_0000_0000_0000_0000_0000 * 10000) by (nonlinear_arith)
                    requires
                        mi >= 0x2_0000_0000_0000_0000_0000_0000_0000,
                ;
                assert(0x2_0000_0000_0000_0000_0000_0000_0000 * 10000 >= (0x8000_0000_0000_0000 + 1) * li)
                    by (nonlinear_arith)
                    requires
                        0 < li < 0x8000_0000_0000_0000,
                ;
                vstd::arithmetic::div_mod::lemma_div_is_ordered(
                    (0x8000_0000_0000_0000 + 1) * li,
                    mi * 10000,
                    li,
                );
                vstd::arithmetic::div_mod::lemma_div_by_multiple(0x8000_0000_0000_0001int, li);
            }
            return i64::MIN;
        }
        proof {
            assert(m * 10000 < 0x8000_0000_0000_0000_0000_0000_0000_0000) by (nonlinear_arith)
                requires
                    m < 0x2_0000_0000_0000_0000_0000_0000_0000,
                    m > 0,
            ;
        }
        let raw = (m * 10000) / lim;
        if raw > 0x8000_0000_0000_0000 {
            i64::MIN
        } else {
            (-raw) as i64
        }
    }
}

/// The budgets of period `p`, in the order given.
fn budgets_of(budgets: &[Budget], p: &str) -> (r: Vec<Budget>)
    ensures
        r@ == budgets@.filter(budget_in(p@)),
{
    let mut r: Vec<Budget> = Vec::new();
    let n = budgets.len();
    let mut j: usize = 0;
    while j < n
        invariant
            n == budgets@.len(),
            j <= n,
            r@ == budgets@.take(j as int).filter(budget_in(p@)),
        decreases n - j,
    {
        proof {
            assert(budgets@.take(j + 1) =~= budgets@.take(j as int).push(budgets@[j as int]));
            budgets@.take(j as int).lemma_filter_push(budgets@[j as int], budget_in(p@));
        }
        if str_eq(budgets[j].period.as_str(), p) {
            r.push(budgets[j].clone());
        }
        j = j + 1;
    }
    proof {
        assert(budgets@.take(n as int) =~= budgets@);
    }
    r
}

/// Stable insertion sort of budgets by concept.
fn sort_by_concept(bs: &Vec<Budget>) -> (out: Vec<Budget>)
    ensures
        out@.to_multiset() == bs@.to_multiset(),
        forall|i: int, j: int|
            0 <= i < j < out@.len() ==> !seq_lt(out@[j].concept@, out@[i].concept@),
{
    broadcast use group_to_multiset_ensures;

    let mut out: Vec<Budget> = Vec::new();
    let n = bs.len();
    let mut i: usize = 0;
    while i < n
        invariant
            n == bs@.len(),
            i <= n,
            out@.to_multiset() == bs@.take(i as int).to_multiset(),
            forall|a: int, b: int|
                0 <= a < b < out@.len() ==> !seq_lt(out@[b].concept@, out@[a].concept@),
        decreases n - i,
    {
        let x = bs[i].clone();
        let m = out.len();
        let mut p: usize = 0;
        while p < m && !str_lt(x.concept.as_str(), out[p].concept.as_str())
            invariant
                m == out@.len(),
                p <= m,
                forall|k: int| 0 <= k < p ==> !seq_lt(x.concept@, out@[k].concept@),
            decreases m - p,
        {
            p = p + 1;
        }
        let ghost before = out@;
        out.insert(p, x);
        proof {
            lemma_seq_lt_order();
            assert(out@ =~= before.insert(p as int, x));
            to_multiset_insert(before, p as int, x);
            assert(bs@.take(i + 1) =~= bs@.take(i as int).push(bs@[i as int]));
            to_multiset_build(bs@.take(i as int), bs@[i as int]);
            assert(out@.to_multiset() =~= bs@.take(i + 1).to_multiset());
            assert forall|a: int, b: int| 0 <= a < b < out@.len() implies !seq_lt(
                out@[b].concept@,
                out@[a].concept@,
            ) by {
                if a == p {
                    // x sorts before before[p], which no later element precedes
                    assert(seq_lt(x.concept@, before[p as int].concept@));
                    if b - 1 != p {
                        assert(!seq_lt(before[b - 1].concept@, before[p as int].concept@));
                    }
                }
            }
        }
        i = i + 1;
    }
    proof {
        assert(bs@.take(n as int) =~= bs@);
    }
    out
}

/// The budget lines of `period` over the expenses in [start, end), ordered
/// by concept.
pub fn budget_lines(entries: &[Entry], budgets: &[Budget], period: &str, start: &str, end: &str) -> (r:
    Vec<BudgetVsActual>)
    ensures
        budget_lines_of(entries@, budgets@, period@, start@, end@, r@),
{
    let len = entries.len();
    let sel = budgets_of(budgets, period);
    let sorted = sort_by_concept(&sel);
    let mut r: Vec<BudgetVsActual> = Vec::new();
    let n = sorted.len();
    let mut i: usize = 0;
    while i < n
        invariant
            n == sorted@.len(),
            i <= n,
            r@.len() == i,
            len == entries@.len(),
            forall|k: int| 0 <= k < i ==> is_line(entries@, start@, end@, sorted@[k], #[trigger] r@[k]),
            forall|k: int| 0 <= k < i ==> r@[k].concept@ == sorted@[k].concept@,
        decreases n - i,
    {
        let b = &sorted[i];
        let actual = concept_total(entries, start, end, b.concept.as_str());
        proof {
            assert(entries@.len() * amount_bound() < 0x8000_0000_0000_0000_0000_0000_0000_0000)
                by (nonlinear_arith)
                requires
                    entries@.len() <= 0xffff_ffff_ffff_ffff,
            ;
        }
        assert(len == entries@.len());
        let pct = budget_pct(actual, b.monthly_limit);
        r.push(
            BudgetVsActual {
                concept: b.concept.clone(),
                budgeted: b.monthly_limit,
                actual,
                pct,
            },
        );
        i = i + 1;
    }
    proof {
        assert(sel@ == budgets@.filter(budget_in(period@)));
        assert(lines_by_concept(r@));
    }
    r
}

} // verus!
