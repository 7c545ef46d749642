//! Properties of the ledger as a whole, over the contracts of its
//! operations.
use vstd::prelude::*;

use crate::models::{Account, AccountKind, Entry, EntryKind};
use crate::storage::ledger::{
    balance_in, dated, expense_from, in_range, savings_kind, side_kind, spending_kind,
    credit_kind, sum_amounts, lemma_sum_filtered, lemma_sum_same_multiset,
    lemma_sum_append_uncounted,
};
use crate::storage::memory::{account_with, move_delta, refused_with};

verus! {

/// A transfer moves money without creating or destroying it: the two
/// accounts together hold what they held before, and no other balance
/// changes.
pub proof fn law_transfer_preserves_total(
    before: Seq<Entry>,
    after: Seq<Entry>,
    amount: int,
    from: i64,
    to: i64,
)
    requires
        from != to,
        forall|acc: i64|
            #[trigger] balance_in(after, acc) == balance_in(before, acc) + move_delta(
                amount,
                Some(from),
                Some(to),
                acc,
            ),
    ensures
        balance_in(after, from) + balance_in(after, to) == balance_in(before, from) + balance_in(
            before,
            to,
        ),
        balance_in(after, from) == balance_in(before, from) - amount,
        balance_in(after, to) == balance_in(before, to) + amount,
        forall|acc: i64|
            acc != from && acc != to ==> #[trigger] balance_in(after, acc) == balance_in(before, acc),
{
    assert(balance_in(after, from) == balance_in(before, from) + move_delta(
        amount,
        Some(from),
        Some(to),
        from,
    ));
    assert(balance_in(after, to) == balance_in(before, to) + move_delta(
        amount,
        Some(from),
        Some(to),
        to,
    ));
}

/// The balances of the accounts `ids` added up.
pub open spec fn total_over(entries: Seq<Entry>, ids: Seq<i64>) -> int
    decreases ids.len(),
{
    if ids.len() == 0 {
        0
    } else {
        total_over(entries, ids.drop_last()) + balance_in(entries, ids.last())
    }
}

/// Over distinct accounts, a transfer adds its amount to the total when the
/// destination is among them and takes it away when the source is.
proof fn lemma_total_shift(
    before: Seq<Entry>,
    after: Seq<Entry>,
    amount: int,
    from: i64,
    to: i64,
    ids: Seq<i64>,
)
    requires
        from != to,
        ids.no_duplicates(),
        forall|acc: i64|
            #[trigger] balance_in(after, acc) == balance_in(before, acc) + move_delta(
                amount,
                Some(from),
                Some(to),
                acc,
            ),
    ensures
        total_over(after, ids) == total_over(before, ids) + (if ids.contains(to) {
            amount
        } else {
            0
        }) - (if ids.contains(from) {
            amount
        } else {
            0
        }),
    decreases ids.len(),
{
    if ids.len() > 0 {
        let rest = ids.drop_last();
        let x = ids.last();
        assert(rest.no_duplicates()) by {
            assert forall|i: int, j: int| 0 <= i < rest.len() && 0 <= j < rest.len() && i != j implies rest[i]
                != rest[j] by {
                assert(rest[i] == ids[i] && rest[j] == ids[j]);
            }
        }
        lemma_total_shift(before, after, amount, from, to, rest);
        assert(!rest.contains(x)) by {
            if rest.contains(x) {
                let i = choose|i: int| 0 <= i < rest.len() && rest[i] == x;
                assert(ids[i] == ids[ids.len() - 1]);
            }
        }
        assert(ids =~= rest.push(x));
        assert(ids.contains(to) <==> rest.contains(to) || x == to) by {
            if ids.contains(to) {
                let i = choose|i: int| 0 <= i < ids.len() && ids[i] == to;
                if i < rest.len() {
                    assert(rest[i] == to);
                }
            }
            if rest.contains(to) {
                let i = choose|i: int| 0 <= i < rest.len() && rest[i] == to;
                assert(ids[i] == to);
            }
            if x == to {
                assert(ids[ids.len() - 1] == to);
            }
        }
        assert(ids.contains(from) <==> rest.contains(from) || x == from) by {
            if ids.contains(from) {
                let i = choose|i: int| 0 <= i < ids.len() && ids[i] == from;
                if i < rest.len() {
                    assert(rest[i] == from);
                }
            }
            if rest.contains(from) {
                let i = choose|i: int| 0 <= i < rest.len() && rest[i] == from;
                assert(ids[i] == from);
            }
            if x == from {
                assert(ids[ids.len() - 1] == from);
            }
        }
        assert(balance_in(after, x) == balance_in(before, x) + move_delta(amount, Some(from), Some(to), x));
    }
}

/// A transfer keeps the total of any set of distinct accounts that holds
/// both of its accounts, or neither.
pub proof fn law_transfer_preserves_listed_total(
    before: Seq<Entry>,
    after: Seq<Entry>,
    amount: int,
    from: i64,
    to: i64,
    ids: Seq<i64>,
)
    requires
        from != to,
        ids.no_duplicates(),
        ids.contains(from) <==> ids.contains(to),
        forall|acc: i64|
            #[trigger] balance_in(after, acc) == balance_in(before, acc) + move_delta(
                amount,
                Some(from),
                Some(to),
                acc,
            ),
    ensures
        total_over(after, ids) == total_over(before, ids),
{
    lemma_total_shift(before, after, amount, from, to, ids);
}

/// A card charge paid off in full leaves the card where it started, and
/// the paying account carries the cost once.
pub proof fn law_charge_then_payment_nets_to_zero(
    start: Seq<Entry>,
    charged: Seq<Entry>,
    paid: Seq<Entry>,
    amount: int,
    card: i64,
    bank: i64,
)
    requires
        card != bank,
        forall|acc: i64|
            #[trigger] balance_in(charged, acc) == balance_in(start, acc) + move_delta(
                amount,
                Some(card),
                None,
                acc,
            ),
        forall|acc: i64|
            #[trigger] balance_in(paid, acc) == balance_in(charged, acc) + move_delta(
                amount,
                Some(bank),
                Some(card),
                acc,
            ),
    ensures
        balance_in(paid, card) == balance_in(start, card),
        balance_in(paid, bank) == balance_in(start, bank) - amount,
{
    assert(balance_in(charged, card) == balance_in(start, card) - amount);
    assert(balance_in(paid, card) == balance_in(charged, card) + amount);
    assert(balance_in(charged, bank) == balance_in(start, bank));
    assert(balance_in(paid, bank) == balance_in(charged, bank) - amount);
}

/// Income with its emergency split adds exactly the income to the two
/// accounts together; the fund receives the split.
pub proof fn law_split_keeps_income_whole(
    before: Seq<Entry>,
    after: Seq<Entry>,
    amount: int,
    split: int,
    to: i64,
    fund: i64,
)
    requires
        to != fund,
        forall|acc: i64|
            #[trigger] balance_in(after, acc) == balance_in(before, acc) + move_delta(
                amount,
                None,
                Some(to),
                acc,
            ) + move_delta(split, Some(to), Some(fund), acc),
    ensures
        balance_in(after, to) + balance_in(after, fund) == balance_in(before, to) + balance_in(
            before,
            fund,
        ) + amount,
        balance_in(after, fund) == balance_in(before, fund) + split,
        balance_in(after, to) == balance_in(before, to) + amount - split,
{
    assert(balance_in(after, to) == balance_in(before, to) + move_delta(amount, None, Some(to), to)
        + move_delta(split, Some(to), Some(fund), to));
    assert(balance_in(after, fund) == balance_in(before, fund) + move_delta(
        amount,
        None,
        Some(to),
        fund,
    ) + move_delta(split, Some(to), Some(fund), fund));
}

/// An opening balance is never income: adding one leaves every income
/// total unchanged.
pub proof fn law_opening_is_not_income(entries: Seq<Entry>, opening: Entry, s: Seq<char>, t: Seq<char>)
    requires
        opening.kind == EntryKind::Opening,
    ensures
        sum_amounts(entries.push(opening), dated(s, t, EntryKind::Income)) == sum_amounts(
            entries,
            dated(s, t, EntryKind::Income),
        ),
{
    assert(entries.push(opening).drop_last() =~= entries);
}

/// Opening balances are never income, however many are booked at once
/// and wherever they land among the entries: when `after` holds the
/// entries of `before` plus opening rows, every income total over any
/// selection of entries (a period, for instance) is unchanged.
pub proof fn law_openings_are_not_income(
    before: Seq<Entry>,
    after: Seq<Entry>,
    rows: Seq<Entry>,
    q: spec_fn(Entry) -> bool,
    s: Seq<char>,
    t: Seq<char>,
)
    requires
        after.to_multiset() == before.to_multiset().add(rows.to_multiset()),
        forall|k: int| 0 <= k < rows.len() ==> (#[trigger] rows[k]).kind == EntryKind::Opening,
    ensures
        sum_amounts(after.filter(q), dated(s, t, EntryKind::Income)) == sum_amounts(
            before.filter(q),
            dated(s, t, EntryKind::Income),
        ),
{
    let p = dated(s, t, EntryKind::Income);
    let both = |e: Entry| q(e) && p(e);
    vstd::seq_lib::lemma_multiset_commutative(before, rows);
    lemma_sum_filtered(after, q, p);
    lemma_sum_filtered(before, q, p);
    lemma_sum_same_multiset(after, before + rows, both);
    assert forall|k: int| 0 <= k < rows.len() implies !both(#[trigger] rows[k]) by {
        assert(rows[k].kind == EntryKind::Opening);
    }
    lemma_sum_append_uncounted(before, rows, both);
}

/// A table kept in key order (accounts and concepts by name, as every
/// write and every applied snapshot leaves them) holds one row per name:
/// two stored rows with one name are the same row.
pub proof fn law_one_row_per_name<T: crate::storage::table::Keyed>(rows: Seq<T>, x: T, y: T)
    requires
        crate::storage::table::sorted_by_key(rows),
        rows.contains(x),
        rows.contains(y),
        x.key_view() == y.key_view(),
    ensures
        x == y,
{
    let i = choose|i: int| 0 <= i < rows.len() && rows[i] == x;
    let j = choose|j: int| 0 <= j < rows.len() && rows[j] == y;
    crate::storage::table::lemma_key_unique(rows, i, j);
}

/// The emergency split is the income times the configured percentage,
/// rounded to the cent: for every positive percentage `pct` (millionths of
/// a percent), however large, the split differs from `amount * pct / 10^8`
/// by at most half a cent.
pub proof fn law_split_is_percentage_of_income(amount: int, pct: int)
    requires
        pct > 0,
    ensures
        -100_000_000 <= 200_000_000 * crate::services::entry_service::split_amount(amount, pct) - 2
            * amount * pct <= 100_000_000,
{
    let n = 2 * amount * pct + 100_000_000;
    vstd::arithmetic::div_mod::lemma_fundamental_div_mod(n, 200_000_000);
    vstd::arithmetic::div_mod::lemma_mod_bound(n, 200_000_000);
    assert(crate::services::entry_service::split_amount(amount, pct) == n / 200_000_000);
}

/// The overdraft policy refuses only what overdraws: an expense or
/// transfer out of an emergency or target account is let through whenever
/// it does not exceed the balance (emptying the account included), one out
/// of a spending account always, one out of a credit account without a
/// limit always, and one out of a credit account with a limit whenever the
/// debt plus the amount stays within the limit. Income and opening
/// balances are never refused.
pub proof fn law_policy_allows_what_fits(
    accounts: Seq<Account>,
    balance_of: spec_fn(i64) -> int,
    kind: EntryKind,
    amount: int,
    from: i64,
)
    requires
        account_with(accounts, from) is Some,
    ensures
        ({
            let a = account_with(accounts, from)->0;
            let debt = if balance_of(from) < 0 {
                -balance_of(from)
            } else {
                0
            };
            &&& (kind == EntryKind::Income || kind == EntryKind::Opening) ==> !refused_with(
                accounts,
                balance_of,
                kind,
                amount,
                Some(from),
            )
            &&& (a.kind == AccountKind::Emergency || a.kind == AccountKind::Target) && amount
                <= balance_of(from) ==> !refused_with(accounts, balance_of, kind, amount, Some(from))
            &&& (a.kind == AccountKind::Emergency || a.kind == AccountKind::Target) && amount
                > balance_of(from) && (kind == EntryKind::Expense || kind == EntryKind::Transfer)
                ==> refused_with(accounts, balance_of, kind, amount, Some(from))
            &&& a.kind == AccountKind::Spending ==> !refused_with(
                accounts,
                balance_of,
                kind,
                amount,
                Some(from),
            )
            &&& a.kind == AccountKind::Credit && a.credit_limit is None ==> !refused_with(
                accounts,
                balance_of,
                kind,
                amount,
                Some(from),
            )
            &&& a.kind == AccountKind::Credit && a.credit_limit is Some && debt + amount
                <= a.credit_limit->0 ==> !refused_with(accounts, balance_of, kind, amount, Some(from))
        }),
{
}

/// A correction applies every field it sets and keeps every other one: the
/// corrected row has the new date, amount, accounts, concept, subconcept
/// and description where the update gives them, and the entry's id, kind
/// and all else otherwise unchanged.
pub proof fn law_update_applies_every_field(cur: Entry, upd: crate::models::EntryUpdate)
    ensures
        ({
            let new = crate::storage::memory::updated_row(cur, upd);
            &&& new.id == cur.id && new.kind == cur.kind
            &&& upd.date matches Some(d) ==> new.date == d
            &&& upd.date is None ==> new.date == cur.date
            &&& upd.amount matches Some(x) ==> new.amount == x
            &&& upd.amount is None ==> new.amount == cur.amount
            &&& upd.from_account_id matches Some(x) ==> new.from_account_id == Some(x)
            &&& upd.from_account_id is None ==> new.from_account_id == cur.from_account_id
            &&& upd.to_account_id matches Some(x) ==> new.to_account_id == Some(x)
            &&& upd.to_account_id is None ==> new.to_account_id == cur.to_account_id
            &&& upd.concept matches Some(x) ==> new.concept == Some(x)
            &&& upd.concept is None ==> new.concept == cur.concept
            &&& upd.subconcept matches Some(x) ==> new.subconcept == Some(x)
            &&& upd.subconcept is None ==> new.subconcept == cur.subconcept
            &&& upd.description matches Some(x) ==> new.description == Some(x)
            &&& upd.description is None ==> new.description == cur.description
        }),
{
}

/// Filtering by account selects the entries that touch the account on
/// either side, whether money leaves it or arrives in it: an entry passes a
/// filter for account `a` exactly when it passes the same filter without
/// the account condition and `a` is its source or its destination.
pub proof fn law_account_filter_takes_both_sides(
    f: crate::models::EntryFilter,
    e: Entry,
    a: i64,
)
    requires
        f.account_id == Some(a),
    ensures
        crate::storage::memory::entry_matches(f, e) == (crate::storage::memory::entry_matches(
            (crate::models::EntryFilter { account_id: None, ..f }),
            e,
        ) && (e.from_account_id == Some(a) || e.to_account_id == Some(a))),
{
}

/// The first day of month (y, m) renders as the month's text and "-01".
proof fn lemma_month_start_text(y: int, m: int)
    requires
        0 <= y <= 9999,
        1 <= m <= 12,
    ensures
        crate::period::period_text(y, m) + "-01"@ == crate::period::date_text(y, m, 1),
{
    reveal_strlit("-01");
    crate::period::lemma_pad2(1);
    assert(crate::text::pad_zero(crate::text::decimal(1nat), 2) =~= seq!['0', '1']) by {
        crate::period::lemma_digit_char(0);
        crate::period::lemma_digit_char(1);
    }
    assert(crate::period::period_text(y, m) + "-01"@ =~= crate::period::date_text(y, m, 1));
}

/// A month's date range holds exactly the dates of that month: a
/// canonical date lies in [first of month (y, m), first of the next month)
/// exactly when its first seven characters are the month's "YYYY-MM".
/// (December 9999 is left out: the next month's first day is written with
/// a sign there, and sorts before every four-digit date.)
pub proof fn law_month_range_is_the_month(y: int, m: int, s: Seq<char>)
    requires
        0 <= y <= 9999,
        1 <= m <= 12,
        !(m == 12 && y == 9999),
        crate::period::is_canonical_date(s),
    ensures
        in_range(s, crate::period::period_text(y, m) + "-01"@, crate::period::next_month_start(y, m))
            <==> s.subrange(0, 7) == crate::period::period_text(y, m),
{
    let start = crate::period::date_text(y, m, 1);
    let (y2, m2) = if m == 12 {
        (y + 1, 1)
    } else {
        (y, m + 1)
    };
    let end = crate::period::date_text(y2, m2, 1);
    assert(crate::period::next_month_start(y, m) == end);
    lemma_month_start_text(y, m);
    crate::period::lemma_date_text_shape(y, m, 1);
    crate::period::lemma_date_text_shape(y2, m2, 1);
    crate::period::lemma_lt_tail(s, start, 0);
    crate::period::lemma_lt_tail(s, end, 0);
    crate::period::lemma_tail_key_value(s);
    crate::period::lemma_tail_key_value(start);
    crate::period::lemma_tail_key_value(end);
    let yy = crate::period::shape_year(s);
    let mm = crate::period::shape_month(s);
    let dd = crate::period::shape_day(s);
    assert(1 <= mm <= 12 && 1 <= dd <= 31);
    let in_r = in_range(s, start, end);
    assert(in_r <==> (yy == y && mm == m));
    // The prefix reading.
    crate::period::lemma_shape_text(s);
    crate::period::lemma_pad4(y);
    crate::period::lemma_pad2(m);
    let pt = crate::period::period_text(y, m);
    assert(pt.len() == 7);
    assert(forall|k: int| 0 <= k < 7 ==> #[trigger] pt[k] == start[k]);
    if s.subrange(0, 7) == pt {
        assert(s[0] == start[0] && s[1] == start[1] && s[2] == start[2] && s[3] == start[3]);
        assert(s[5] == start[5] && s[6] == start[6]);
        assert(yy == crate::period::shape_year(start));
        assert(mm == crate::period::shape_month(start));
    }
    if yy == y && mm == m {
        crate::period::lemma_date_text_shape(yy, mm, dd);
        assert(s == crate::period::date_text(yy, mm, dd));
        assert forall|k: int| 0 <= k < 7 implies #[trigger] s.subrange(0, 7)[k] == pt[k] by {
            assert(s[k] == crate::period::date_text(y, m, dd)[k]);
            assert(crate::period::date_text(y, m, dd)[k] == start[k]);
        }
        assert(s.subrange(0, 7) =~= pt);
    }
}

/// A period's date range is its month: a canonical date lies between the
/// period's start and its exclusive end exactly when it is written in that
/// month ("YYYY-MM" is its prefix).
pub proof fn law_period_range_is_its_month(p: crate::period::Period, s: Seq<char>)
    requires
        1 <= p.month_of() <= 12,
        p@ == crate::period::period_text(p.year_of(), p.month_of()),
        0 <= p.year_of() <= 9999,
        !(p.month_of() == 12 && p.year_of() == 9999),
        crate::period::is_canonical_date(s),
    ensures
        in_range(
            s,
            crate::storage::ledger::period_start(p),
            crate::storage::ledger::period_end(p),
        ) <==> s.subrange(0, 7) == p@,
{
    law_month_range_is_the_month(p.year_of(), p.month_of(), s);
}

/// The decimal rendering of `n` is a run of digits that reads back as `n`,
/// no longer than `k` digits when `n` is below 10^k.
proof fn lemma_decimal_reads_back(n: nat, k: nat)
    requires
        k >= 1,
        n < crate::services::entry_service::pow10(k),
    ensures
        crate::text::all_digits(crate::text::decimal(n)),
        crate::text::digits_value(crate::text::decimal(n)) == n,
        1 <= crate::text::decimal(n).len() <= k,
    decreases n,
{
    let d = crate::text::decimal(n);
    if n < 10 {
        crate::period::lemma_digit_char(n as int);
        assert(d.drop_last() =~= Seq::<char>::empty());
        assert(crate::text::digits_value(d) == crate::text::digits_value(d.drop_last()) * 10
            + crate::text::digit_value(d.last()));
    } else {
        let q = (n / 10) as nat;
        assert(k >= 2) by {
            if k == 1 {
                assert(crate::services::entry_service::pow10(1) == 10) by {
                    reveal_with_fuel(crate::services::entry_service::pow10, 2);
                }
            }
        }
        let k1 = (k - 1) as nat;
        assert(crate::services::entry_service::pow10(k) == 10 * crate::services::entry_service::pow10(
            k1,
        ));
        assert(q < crate::services::entry_service::pow10(k1));
        lemma_decimal_reads_back(q, k1);
        crate::period::lemma_digit_char((n % 10) as int);
        assert(d.drop_last() =~= crate::text::decimal(q));
        assert(d.last() == crate::text::digit_char((n % 10) as int));
        assert(crate::text::digits_value(d) == crate::text::digits_value(d.drop_last()) * 10
            + crate::text::digit_value(d.last()));
        assert(q * 10 + n % 10 == n);
        assert forall|i: int| 0 <= i < d.len() implies crate::text::is_digit(#[trigger] d[i]) by {
            if i < d.len() - 1 {
                assert(d[i] == crate::text::decimal(q)[i]);
            }
        }
    }
}

/// A whole percentage written in digits is read as that many percent: the
/// text of `n` (below a million) configures `n` percent, in millionths of
/// a percent.
pub proof fn law_whole_percent_reads_back(n: nat)
    requires
        n < 1_000_000,
    ensures
        crate::services::entry_service::pct_micro(crate::text::decimal(n)) == Some((n * 1_000_000) as int),
{
    let s = crate::text::decimal(n);
    assert(crate::services::entry_service::pow10(6) == 1_000_000) by {
        reveal_with_fuel(crate::services::entry_service::pow10, 7);
    }
    lemma_decimal_reads_back(n, 6);
    s.index_of_first_ensures('.');
    assert(!s.contains('.')) by {
        if s.contains('.') {
            let i = choose|i: int| 0 <= i < s.len() && s[i] == '.';
            assert(crate::text::is_digit(s[i]));
        }
    }
    assert(!(s[0] == '-' || s[0] == '+')) by {
        assert(crate::text::is_digit(s[0]));
    }
    assert(Seq::<char>::empty().take(0) =~= Seq::<char>::empty());
    assert(crate::services::entry_service::pow10(0) == 1);
}

/// The split percentage is the one configured under "emergency_pct" when
/// that value is a percentage, and 10% when the key is unset or holds
/// anything else.
pub proof fn law_configured_pct_is_the_setting(config: Seq<crate::models::Config>, v: Seq<char>)
    requires
        forall|a: Seq<char>, b: Seq<char>|
            crate::storage::memory::config_has(config, "emergency_pct"@, a)
                && crate::storage::memory::config_has(config, "emergency_pct"@, b) ==> a == b,
    ensures
        crate::storage::memory::config_has(config, "emergency_pct"@, v) ==> crate::services::entry_service::configured_pct(
            config,
        ) == match crate::services::entry_service::pct_micro(v) {
            Some(m) => m,
            None => 10_000_000,
        },
        !(exists|w: Seq<char>| crate::storage::memory::config_has(config, "emergency_pct"@, w))
            ==> crate::services::entry_service::configured_pct(config) == 10_000_000,
{
}

/// Savings cannot be overdrawn: an expense or transfer the policy lets
/// out of an emergency or target account leaves it at zero or above, and
/// one out of a credit account with a limit leaves its debt within the
/// limit.
pub proof fn law_policy_bounds_withdrawals(
    accounts: Seq<Account>,
    balance_of: spec_fn(i64) -> int,
    kind: EntryKind,
    amount: int,
    from: i64,
)
    requires
        kind == EntryKind::Expense || kind == EntryKind::Transfer,
        !refused_with(accounts, balance_of, kind, amount, Some(from)),
        account_with(accounts, from) is Some,
    ensures
        ({
            let a = account_with(accounts, from)->0;
            &&& (a.kind == AccountKind::Emergency || a.kind == AccountKind::Target) ==> balance_of(from)
                - amount >= 0
            &&& (a.kind == AccountKind::Credit && a.credit_limit is Some && balance_of(from) <= 0)
                ==> -(balance_of(from) - amount) <= a.credit_limit->0
        }),
{
}

/// Every expense of the month whose source account is known is paid in
/// cash, from savings or on credit: the month's expense total is the sum
/// of those three parts.
pub proof fn law_expense_partition(accounts: Seq<Account>, entries: Seq<Entry>, s: Seq<char>, t: Seq<char>)
    requires
        forall|k: int|
            0 <= k < entries.len() && (#[trigger] entries[k]).kind == EntryKind::Expense && in_range(
                entries[k].date@,
                s,
                t,
            ) ==> side_kind(accounts, entries[k].from_account_id) is Some,
    ensures
        sum_amounts(entries, dated(s, t, EntryKind::Expense)) == sum_amounts(
            entries,
            expense_from(s, t, accounts, spending_kind()),
        ) + sum_amounts(entries, expense_from(s, t, accounts, savings_kind())) + sum_amounts(
            entries,
            expense_from(s, t, accounts, credit_kind()),
        ),
    decreases entries.len(),
{
    if entries.len() > 0 {
        let rest = entries.drop_last();
        assert forall|k: int|
            0 <= k < rest.len() && (#[trigger] rest[k]).kind == EntryKind::Expense && in_range(
                rest[k].date@,
                s,
                t,
            ) implies side_kind(accounts, rest[k].from_account_id) is Some by {
            assert(rest[k] == entries[k]);
        }
        law_expense_partition(accounts, rest, s, t);
        let e = entries.last();
        assert(entries[entries.len() - 1] == e);
    }
}

} // verus!
