//! Writing entries. Every constructor funnels through the store's batch
//! path, so the shape rules of `NewEntry` and the store's overdraft and
//! constraint checks are the only way onto the ledger.
use vstd::prelude::*;
use vstd::multiset::Multiset;

use crate::error::{AppError, Result};
use crate::models::{
    Account, AccountKind, Config, Entry, EntryFilter, EntryKind, EntryUpdate, NewEntry,
};
use crate::period::is_canonical_date;
use crate::storage::ledger::balance_in;
use crate::storage::memory::{
    account_with, balances_of, batch_rows, config_has, entry_fits, fits_with,
    has_active_emergency, lemma_account_with, lemma_pair_batch, lemma_single_batch, move_delta,
    opt_str, opt_text, refused_with, row_of, MemoryBackend,
};
use crate::text::{all_digits, digit_value, digits_value, is_digit, owned};

verus! {

/// `row` holds these values under id `id`.
pub open spec fn row_has(
    row: Entry,
    id: int,
    kind: EntryKind,
    date: Seq<char>,
    amount: int,
    from: Option<i64>,
    to: Option<i64>,
    concept: Option<Seq<char>>,
    subconcept: Option<Seq<char>>,
    description: Option<Seq<char>>,
) -> bool {
    &&& row.id == id
    &&& row.kind == kind
    &&& row.date@ == date
    &&& row.amount == amount
    &&& row.from_account_id == from
    &&& row.to_account_id == to
    &&& opt_text(row.concept) == concept
    &&& opt_text(row.subconcept) == subconcept
    &&& opt_text(row.description) == description
}

/// The store's entries are the old ones plus `row`.
pub open spec fn added(old: Seq<Entry>, new: Seq<Entry>, row: Entry) -> bool {
    new.to_multiset() == old.to_multiset().insert(row)
}

/// `new` holds the entries of `old` and the two rows `r1` and `r2`.
pub open spec fn added_pair(old: Seq<Entry>, new: Seq<Entry>, r1: Entry, r2: Entry) -> bool {
    new.to_multiset() == old.to_multiset().insert(r1).insert(r2)
}

/// Writes one entry through the batch path.
fn push_one(be: &mut MemoryBackend, e: NewEntry) -> (r: Result<i64>)
    requires
        old(be).wf(),
    ensures
        final(be).wf(),
        r is Ok <==> entry_fits(
            old(be).accounts_view(),
            old(be).concepts_view(),
            old(be).entries_view(),
            old(be).last_entry_id(),
            e.kind,
            e.date@,
            e.amount as int,
            e.from_account_id,
            e.to_account_id,
            opt_text(e.concept),
        ),
        r matches Err(x) ==> (x is Invalid <==> refused_with(
            old(be).accounts_view(),
            balances_of(old(be).entries_view()),
            e.kind,
            e.amount as int,
            e.from_account_id,
        )) && (x is Invalid || x is Database),
        r matches Ok(id) ==> id == old(be).last_entry_id() + 1 && final(be).last_entry_id() == id
            && added(old(be).entries_view(), final(be).entries_view(), row_of(e, id)),
        r is Ok ==> forall|acc: i64|
            #[trigger] balance_in(final(be).entries_view(), acc) == balance_in(
                old(be).entries_view(),
                acc,
            ) + move_delta(e.amount as int, e.from_account_id, e.to_account_id, acc),
        r is Err ==> final(be).entries_view() == old(be).entries_view() && final(be).last_entry_id()
            == old(be).last_entry_id(),
        final(be).accounts_view() == old(be).accounts_view(),
        final(be).concepts_view() == old(be).concepts_view(),
        final(be).budgets_view() == old(be).budgets_view(),
        final(be).config_view() == old(be).config_view(),
        final(be).last_account_id() == old(be).last_account_id(),
        final(be).mirror_cursor() == old(be).mirror_cursor(),
{
    broadcast use vstd::seq_lib::group_to_multiset_ensures;

    let ghost old_be = *be;
    proof {
        be.lemma_capacity();
        lemma_single_batch(
            be.accounts_view(),
            be.concepts_view(),
            be.entries_view(),
            be.last_entry_id(),
            e,
        );
    }
    let batch = vec![e];
    proof {
        assert(batch@ =~= seq![e]);
    }
    let created = be.push_entries(batch.as_slice())?;
    proof {
        let row = row_of(e, (old_be.last_entry_id() + 1) as i64);
        assert(batch_rows(batch@, old_be.last_entry_id() + 1) =~= seq![row]);
        assert(seq![row] =~= Seq::<Entry>::empty().push(row));
        assert(Seq::<Entry>::empty().to_multiset() =~= Multiset::empty());
        assert(seq![row].to_multiset() =~= Multiset::empty().insert(row));
        assert(be.entries_view().to_multiset() =~= old_be.entries_view().to_multiset().insert(row));
        assert(crate::storage::memory::batch_entry_ok(
            old_be.accounts_view(),
            old_be.concepts_view(),
            old_be.entries_view(),
            old_be.last_entry_id(),
            batch@,
            0,
        ));
        assert(crate::storage::memory::listed_as(
            batch_rows(batch@, old_be.last_entry_id() + 1)[0],
            old_be.accounts_view(),
            created@[0],
        ));
        assert(batch_rows(batch@, old_be.last_entry_id() + 1)[0] == row);
        assert(row.id == old_be.last_entry_id() + 1);
        assert(created@[0].id == old_be.last_entry_id() + 1);
    }
    Ok(created[0].id)
}

/// Records income into account `to`.
pub fn add_income(
    be: &mut MemoryBackend,
    date: &str,
    amount: i64,
    to: i64,
    concept: &str,
    description: Option<&str>,
) -> (r: Result<i64>)
    requires
        old(be).wf(),
    ensures
        final(be).wf(),
        !(is_canonical_date(date@) && amount > 0) ==> (r matches Err(x) && x is Invalid),
        is_canonical_date(date@) && amount > 0 ==> (r is Ok <==> entry_fits(
            old(be).accounts_view(),
            old(be).concepts_view(),
            old(be).entries_view(),
            old(be).last_entry_id(),
            EntryKind::Income,
            date@,
            amount as int,
            None,
            Some(to),
            Some(concept@),
        )),
        is_canonical_date(date@) && amount > 0 ==> (r matches Err(x) ==> x is Database),
        r matches Ok(id) ==> id == old(be).last_entry_id() + 1 && exists|row: Entry|
            row_has(
                row,
                id as int,
                EntryKind::Income,
                date@,
                amount as int,
                None,
                Some(to),
                Some(concept@),
                None,
                opt_str(description),
            ) && #[trigger] added(old(be).entries_view(), final(be).entries_view(), row),
        r is Ok ==> forall|acc: i64|
            #[trigger] balance_in(final(be).entries_view(), acc) == balance_in(
                old(be).entries_view(),
                acc,
            ) + move_delta(amount as int, None, Some(to), acc),
        r is Err ==> final(be).entries_view() == old(be).entries_view(),
        final(be).accounts_view() == old(be).accounts_view(),
        final(be).config_view() == old(be).config_view(),
{
    let e = NewEntry::income(date, amount, to, concept)?.with_description(description);
    let ghost row = row_of(e, (be.last_entry_id() + 1) as i64);
    let r = push_one(be, e);
    proof {
        if r is Ok {
            assert(row_has(
                row,
                r->Ok_0 as int,
                EntryKind::Income,
                date@,
                amount as int,
                None,
                Some(to),
                Some(concept@),
                None,
                opt_str(description),
            ));
        }
    }
    r
}

/// Records an expense paid from account `from`.
pub fn add_expense(
    be: &mut MemoryBackend,
    date: &str,
    amount: i64,
    from: i64,
    concept: &str,
    subconcept: Option<&str>,
    description: Option<&str>,
) -> (r: Result<i64>)
    requires
        old(be).wf(),
    ensures
        final(be).wf(),
        !(is_canonical_date(date@) && amount > 0) ==> (r matches Err(x) && x is Invalid),
        is_canonical_date(date@) && amount > 0 ==> (r is Ok <==> entry_fits(
            old(be).accounts_view(),
            old(be).concepts_view(),
            old(be).entries_view(),
            old(be).last_entry_id(),
            EntryKind::Expense,
            date@,
            amount as int,
            Some(from),
            None,
            Some(concept@),
        )),
        is_canonical_date(date@) && amount > 0 ==> (r matches Err(x) ==> (x is Invalid <==> refused_with(
            old(be).accounts_view(),
            balances_of(old(be).entries_view()),
            EntryKind::Expense,
            amount as int,
            Some(from),
        )) && (x is Invalid || x is Database)),
        r matches Ok(id) ==> id == old(be).last_entry_id() + 1 && exists|row: Entry|
            row_has(
                row,
                id as int,
                EntryKind::Expense,
                date@,
                amount as int,
                Some(from),
                None,
                Some(concept@),
                opt_str(subconcept),
                opt_str(description),
            ) && #[trigger] added(old(be).entries_view(), final(be).entries_view(), row),
        r is Ok ==> forall|acc: i64|
            #[trigger] balance_in(final(be).entries_view(), acc) == balance_in(
                old(be).entries_view(),
                acc,
            ) + move_delta(amount as int, Some(from), None, acc),
        r is Err ==> final(be).entries_view() == old(be).entries_view(),
        final(be).accounts_view() == old(be).accounts_view(),
        final(be).config_view() == old(be).config_view(),
{
    let e = NewEntry::expense(date, amount, from, concept)?.with_subconcept(subconcept).with_description(
        description,
    );
    let ghost row = row_of(e, (be.last_entry_id() + 1) as i64);
    let r = push_one(be, e);
    proof {
        if r is Ok {
            assert(row_has(
                row,
                r->Ok_0 as int,
                EntryKind::Expense,
                date@,
                amount as int,
                Some(from),
                None,
                Some(concept@),
                opt_str(subconcept),
                opt_str(description),
            ));
        }
    }
    r
}

/// Records a movement from account `from` to a different account `to`.
pub fn add_transfer(
    be: &mut MemoryBackend,
    date: &str,
    amount: i64,
    from: i64,
    to: i64,
    description: Option<&str>,
) -> (r: Result<i64>)
    requires
        old(be).wf(),
    ensures
        final(be).wf(),
        !(is_canonical_date(date@) && amount > 0 && from != to) ==> (r matches Err(x) && x is Invalid),
        is_canonical_date(date@) && amount > 0 && from != to ==> (r is Ok <==> entry_fits(
            old(be).accounts_view(),
            old(be).concepts_view(),
            old(be).entries_view(),
            old(be).last_entry_id(),
            EntryKind::Transfer,
            date@,
            amount as int,
            Some(from),
            Some(to),
            None,
        )),
        is_canonical_date(date@) && amount > 0 && from != to ==> (r matches Err(x) ==> (x is Invalid
            <==> refused_with(
            old(be).accounts_view(),
            balances_of(old(be).entries_view()),
            EntryKind::Transfer,
            amount as int,
            Some(from),
        )) && (x is Invalid || x is Database)),
        r matches Ok(id) ==> id == old(be).last_entry_id() + 1 && exists|row: Entry|
            row_has(
                row,
                id as int,
                EntryKind::Transfer,
                date@,
                amount as int,
                Some(from),
                Some(to),
                None,
                None,
                opt_str(description),
            ) && #[trigger] added(old(be).entries_view(), final(be).entries_view(), row),
        r is Ok ==> forall|acc: i64|
            #[trigger] balance_in(final(be).entries_view(), acc) == balance_in(
                old(be).entries_view(),
                acc,
            ) + move_delta(amount as int, Some(from), Some(to), acc),
        r is Err ==> final(be).entries_view() == old(be).entries_view(),
        final(be).accounts_view() == old(be).accounts_view(),
        final(be).config_view() == old(be).config_view(),
{
    let e = NewEntry::transfer(date, amount, from, to)?.with_description(description);
    let ghost row = row_of(e, (be.last_entry_id() + 1) as i64);
    let r = push_one(be, e);
    proof {
        if r is Ok {
            assert(row_has(
                row,
                r->Ok_0 as int,
                EntryKind::Transfer,
                date@,
                amount as int,
                Some(from),
                Some(to),
                None,
                None,
                opt_str(description),
            ));
        }
    }
    r
}

/// Records an opening balance for account `to`: money that was already
/// there, never counted as income.
pub fn add_opening(be: &mut MemoryBackend, date: &str, amount: i64, to: i64) -> (r: Result<i64>)
    requires
        old(be).wf(),
    ensures
        final(be).wf(),
        !(is_canonical_date(date@) && amount > 0) ==> (r matches Err(x) && x is Invalid),
        is_canonical_date(date@) && amount > 0 ==> (r is Ok <==> entry_fits(
            old(be).accounts_view(),
            old(be).concepts_view(),
            old(be).entries_view(),
            old(be).last_entry_id(),
            EntryKind::Opening,
            date@,
            amount as int,
            None,
            Some(to),
            None,
        )),
        is_canonical_date(date@) && amount > 0 ==> (r matches Err(x) ==> x is Database),
        r matches Ok(id) ==> id == old(be).last_entry_id() + 1 && exists|row: Entry|
            row_has(
                row,
                id as int,
                EntryKind::Opening,
                date@,
                amount as int,
                None,
                Some(to),
                None,
                None,
                Some("Saldo inicial"@),
            ) && #[trigger] added(old(be).entries_view(), final(be).entries_view(), row),
        r is Ok ==> forall|acc: i64|
            #[trigger] balance_in(final(be).entries_view(), acc) == balance_in(
                old(be).entries_view(),
                acc,
            ) + move_delta(amount as int, None, Some(to), acc),
        r is Err ==> final(be).entries_view() == old(be).entries_view(),
        final(be).accounts_view() == old(be).accounts_view(),
        final(be).config_view() == old(be).config_view(),
{
    let e = NewEntry::opening(date, amount, to)?;
    let ghost row = row_of(e, (be.last_entry_id() + 1) as i64);
    let r = push_one(be, e);
    proof {
        if r is Ok {
            assert(row_has(
                row,
                r->Ok_0 as int,
                EntryKind::Opening,
                date@,
                amount as int,
                None,
                Some(to),
                None,
                None,
                Some("Saldo inicial"@),
            ));
        }
    }
    r
}

/// The entries a filter selects (see `MemoryBackend::entries`).
pub fn list(be: &MemoryBackend, f: &EntryFilter) -> (r: Result<Vec<Entry>>)
    requires
        crate::storage::memory::filter_ok(*f),
    ensures
        r matches Ok(v) && crate::storage::memory::listing(
            be.entries_view(),
            be.accounts_view(),
            *f,
            v@,
        ),
{
    be.entries(f)
}

/// The entry with id `id` (see `MemoryBackend::get_entry`).
pub fn get(be: &MemoryBackend, id: i64) -> (r: Result<Entry>)
    ensures
        r is Ok <==> crate::storage::memory::has_entry(be.entries_view(), id),
        r matches Ok(e) ==> exists|k: int|
            0 <= k < be.entries_view().len() && be.entries_view()[k].id == id
                && crate::storage::memory::listed_as(
                #[trigger] be.entries_view()[k],
                be.accounts_view(),
                e,
            ),
        r matches Err(e) ==> e is NotFound,
{
    be.get_entry(id)
}

/// Deletes the entry with id `id` (see `MemoryBackend::delete_entry`).
pub fn delete(be: &mut MemoryBackend, id: i64) -> (r: Result<()>)
    requires
        old(be).wf(),
    ensures
        final(be).wf(),
        r is Ok <==> crate::storage::memory::has_entry(old(be).entries_view(), id),
        r matches Err(e) ==> e is NotFound,
        final(be).entries_view() == old(be).entries_view().filter(|e: Entry| e.id != id),
        final(be).accounts_view() == old(be).accounts_view(),
{
    be.delete_entry(id)
}

/// Corrects an entry in place (see `MemoryBackend::update_entry`); the
/// overdraft policy is not applied again, since the entry passed it once.
pub fn update(be: &mut MemoryBackend, id: i64, upd: &EntryUpdate) -> (r: Result<Entry>)
    requires
        old(be).wf(),
    ensures
        final(be).wf(),
        !crate::storage::memory::has_entry(old(be).entries_view(), id) ==> (r matches Err(x)
            && x is NotFound),
        crate::storage::memory::entry_with(old(be).entries_view(), id) matches Some(cur) ==> ({
            let new = crate::storage::memory::updated_row(cur, *upd);
            &&& r is Ok <==> !crate::storage::memory::update_misfits(cur, *upd)
                && !crate::storage::memory::update_values_refused(new) && crate::storage::memory::row_ok(
                old(be).accounts_view(),
                old(be).concepts_view(),
                crate::storage::memory::as_new(new),
            )
            &&& r matches Ok(out) ==> crate::storage::memory::listed_as(
                new,
                old(be).accounts_view(),
                out,
            ) && final(be).entries_view().to_multiset() == old(be).entries_view().to_multiset().remove(
                cur,
            ).insert(new)
        }),
        r is Err ==> final(be).entries_view() == old(be).entries_view(),
        final(be).accounts_view() == old(be).accounts_view(),
{
    be.update_entry(id, upd)
}

// ---------------------------------------------------------------------------
// The emergency-fund split.
// ---------------------------------------------------------------------------


/// Ten to the power `n`.
pub open spec fn pow10(n: nat) -> int
    decreases n,
{
    if n == 0 {
        1
    } else {
        10 * pow10((n - 1) as nat)
    }
}

/// A configured percentage in millionths of a percent: an optional sign,
/// at most six integer digits and an optional fraction (of which the first
/// six digits count), with at least one digit in all. Any other text is
/// not a percentage.
pub open spec fn pct_micro(s: Seq<char>) -> Option<int> {
    let signed = s.len() > 0 && (s[0] == '-' || s[0] == '+');
    let neg = s.len() > 0 && s[0] == '-';
    let body = if signed {
        s.skip(1)
    } else {
        s
    };
    let ip = match body.index_of_first('.') {
        Some(i) => body.take(i),
        None => body,
    };
    let fp = match body.index_of_first('.') {
        Some(i) => body.skip(i + 1),
        None => Seq::<char>::empty(),
    };
    let fk: nat = if fp.len() <= 6 {
        fp.len()
    } else {
        6
    };
    if all_digits(ip) && all_digits(fp) && ip.len() + fp.len() >= 1 && ip.len() <= 6 {
        let mag = digits_value(ip) * 1000000 + digits_value(fp.take(fk as int)) * pow10(
            (6 - fk) as nat,
        );
        Some(
            if neg {
                -mag
            } else {
                mag
            },
        )
    } else {
        None
    }
}

/// The split percentage configured under "emergency_pct", in millionths
/// of a percent; 10% when the key is unset or does not hold a percentage.
pub open spec fn configured_pct(config: Seq<Config>) -> int {
    if exists|v: Seq<char>| config_has(config, "emergency_pct"@, v) {
        match pct_micro(choose|v: Seq<char>| config_has(config, "emergency_pct"@, v)) {
            Some(m) => m,
            None => 10_000_000,
        }
    } else {
        10_000_000
    }
}

/// `pct` (millionths of a percent) of `amount` cents, rounded to the
/// nearest cent, halves away from zero; nothing for a percentage that is
/// not positive.
pub open spec fn split_amount(amount: int, pct: int) -> int {
    if pct <= 0 {
        0
    } else {
        (2 * amount * pct + 100_000_000) / 200_000_000
    }
}

/// Where the split goes: the active emergency fund, when splitting is
/// asked for, the receiving account `to` is liquid and the fund is a
/// different account.
pub open spec fn split_fund(accounts: Seq<Account>, to: i64, split: bool) -> Option<Account> {
    if split && (account_with(accounts, to) matches Some(t) && t.liquid) && has_active_emergency(
        accounts,
    ) {
        let f = accounts[choose|i: int|
            0 <= i < accounts.len() && accounts[i].kind == AccountKind::Emergency
                && !accounts[i].archived];
        if f.id != to {
            Some(f)
        } else {
            None
        }
    } else {
        None
    }
}

proof fn lemma_digits_step(s: Seq<char>, j: int)
    requires
        0 <= j < s.len(),
    ensures
        digits_value(s.take(j + 1)) == digits_value(s.take(j)) * 10 + digit_value(s[j]),
{
    assert(s.take(j + 1).drop_last() =~= s.take(j));
}

/// The value of the digits `s[from..to]` (at most six of them).
fn digits_between(s: &str, from: usize, to: usize) -> (r: Option<u64>)
    requires
        from <= to <= s@.len(),
        to - from <= 6,
    ensures
        r is Some <==> all_digits(s@.subrange(from as int, to as int)),
        r matches Some(v) ==> v == digits_value(s@.subrange(from as int, to as int)) && v < 1_000_000,
{
    let ghost sub = s@.subrange(from as int, to as int);
    let mut v: u64 = 0;
    let mut i: usize = from;
    while i < to
        invariant
            from <= i <= to,
            to <= s@.len(),
            to - from <= 6,
            sub == s@.subrange(from as int, to as int),
            all_digits(sub.take(i - from)),
            v == digits_value(sub.take(i - from)),
            v < pow10((i - from) as nat),
            pow10((i - from) as nat) <= 1_000_000,
        decreases to - i,
    {
        let c = s.get_char(i);
        let d = c as u32;
        if d < 48 || d > 57 {
            proof {
                assert(sub[i - from] == c);
            }
            return None;
        }
        proof {
            lemma_digits_step(sub, i - from);
            assert(sub[i - from] == c);
            assert(sub.take(i - from + 1).drop_last() =~= sub.take(i - from));
            assert(pow10((i - from + 1) as nat) == 10 * pow10((i - from) as nat));
            lemma_pow10_6();
            lemma_pow10_mono((i - from + 1) as nat, 6);
        }
        v = v * 10 + (d - 48) as u64;
        i = i + 1;
    }
    proof {
        assert(sub.take(to - from) =~= sub);
    }
    Some(v)
}

proof fn lemma_pow10_6()
    ensures
        pow10(6) == 1_000_000,
{
    reveal_with_fuel(pow10, 7);
}

proof fn lemma_pow10_mono(a: nat, b: nat)
    requires
        a <= b,
    ensures
        1 <= pow10(a) <= pow10(b),
    decreases b,
{
    if a < b {
        lemma_pow10_mono(a, (b - 1) as nat);
    } else if a > 0 {
        lemma_pow10_mono((a - 1) as nat, (a - 1) as nat);
    }
}

/// Whether `s[from..to]` is all digits.
fn all_digits_between(s: &str, from: usize, to: usize) -> (r: bool)
    requires
        from <= to <= s@.len(),
    ensures
        r == all_digits(s@.subrange(from as int, to as int)),
{
    let mut i: usize = from;
    while i < to
        invariant
            from <= i <= to,
            to <= s@.len(),
            forall|k: int| from <= k < i ==> is_digit(s@[k]),
        decreases to - i,
    {
        let d = s.get_char(i) as u32;
        if d < 48 || d > 57 {
            proof {
                assert(s@.subrange(from as int, to as int)[i - from] == s@[i as int]);
            }
            return false;
        }
        i = i + 1;
    }
    proof {
        assert forall|k: int| 0 <= k < to - from implies is_digit(
            #[trigger] s@.subrange(from as int, to as int)[k],
        ) by {
            assert(s@.subrange(from as int, to as int)[k] == s@[from + k]);
        }
    }
    true
}

/// Reads a configured percentage (see `pct_micro`).
pub fn parse_pct(s: &str) -> (r: Option<i64>)
    ensures
        r is Some <==> pct_micro(s@) is Some,
        r matches Some(m) ==> pct_micro(s@) == Some(m as int),
        r matches Some(m) ==> -2_000_000_000_000 < m < 2_000_000_000_000,
{
    let n = s.unicode_len();
    let mut start: usize = 0;
    let mut neg = false;
    if n > 0 {
        let c = s.get_char(0);
        if c == '-' {
            neg = true;
            start = 1;
        } else if c == '+' {
            start = 1;
        }
    }
    let ghost body = if start == 1 {
        s@.skip(1)
    } else {
        s@
    };
    proof {
        if start == 0 {
            assert(s@.skip(0) =~= s@);
        }
        assert(body =~= s@.subrange(start as int, n as int));
    }
    let mut dot: usize = n;
    let mut i: usize = start;
    while i < n
        invariant_except_break
            dot == n,
        invariant
            start <= i <= n,
            n == s@.len(),
            forall|k: int| start <= k < i ==> s@[k] != '.',
        ensures
            dot == n ==> forall|k: int| start <= k < n ==> s@[k] != '.',
            dot < n ==> dot == i && s@[dot as int] == '.',
            dot <= n,
        decreases n - i,
    {
        if s.get_char(i) == '.' {
            dot = i;
            break;
        }
        i = i + 1;
    }
    proof {
        body.index_of_first_ensures('.');
        if dot < n {
            assert(body[dot - start] == '.');
            assert(body.contains('.'));
            let idx = body.index_of_first('.')->0;
            if idx < dot - start {
                assert(body[idx] == s@[start + idx]);
            }
            if idx > dot - start {
                assert(body[dot - start] != '.');
            }
        } else {
            assert forall|k: int| 0 <= k < body.len() implies body[k] != '.' by {
                assert(body[k] == s@[start + k]);
            }
            assert(!body.contains('.'));
        }
    }
    let int_end = dot;
    let frac_start = if dot < n {
        dot + 1
    } else {
        n
    };
    let ghost ip = s@.subrange(start as int, int_end as int);
    let ghost fp = s@.subrange(frac_start as int, n as int);
    proof {
        if dot < n {
            assert(body.take(dot - start) =~= ip);
            assert(body.skip(dot - start + 1) =~= fp);
        } else {
            assert(body =~= ip);
            assert(fp =~= Seq::<char>::empty());
        }
    }
    if int_end - start > 6 || (int_end - start) + (n - frac_start) == 0 {
        return None;
    }
    if !all_digits_between(s, frac_start, n) {
        return None;
    }
    let ip_value = match digits_between(s, start, int_end) {
        Some(v) => v,
        None => {
            return None;
        },
    };
    let fk: usize = if n - frac_start <= 6 {
        n - frac_start
    } else {
        6
    };
    let fp_value = match digits_between(s, frac_start, frac_start + fk) {
        Some(v) => v,
        None => {
            proof {
                assert forall|k: int| 0 <= k < fk implies is_digit(
                    #[trigger] s@.subrange(frac_start as int, (frac_start + fk) as int)[k],
                ) by {
                    assert(s@.subrange(frac_start as int, (frac_start + fk) as int)[k] == fp[k]);
                }
            }
            return None;
        },
    };
    let mut scale: u64 = 1;
    let mut z: usize = fk;
    while z < 6
        invariant
            fk <= z <= 6,
            scale == pow10((z - fk) as nat),
        decreases 6 - z,
    {
        proof {
            assert(pow10((z + 1 - fk) as nat) == 10 * pow10((z - fk) as nat));
            lemma_pow10_mono((z + 1 - fk) as nat, 6);
            lemma_pow10_6();
        }
        scale = scale * 10;
        z = z + 1;
    }
    proof {
        assert(fp.take(fk as int) =~= s@.subrange(frac_start as int, (frac_start + fk) as int));
        lemma_pow10_mono((6 - fk) as nat, 6);
        lemma_pow10_6();
        assert(fp_value * scale <= 1_000_000 * 1_000_000) by (nonlinear_arith)
            requires
                fp_value < 1_000_000,
                scale <= 1_000_000,
        ;
    }
    let mag: i64 = (ip_value * 1000000 + fp_value * scale) as i64;
    if neg {
        Some(-mag)
    } else {
        Some(mag)
    }
}

/// The configured split percentage (see `configured_pct`).
fn configured_split_pct(be: &MemoryBackend) -> (r: i64)
    requires
        be.wf(),
    ensures
        r == configured_pct(be.config_view()),
        -2_000_000_000_000 < r < 2_000_000_000_000,
{
    proof {
        be.lemma_capacity();
    }
    match be.get_config("emergency_pct") {
        Ok(Some(v)) => {
            proof {
                let w = choose|w: Seq<char>| config_has(be.config_view(), "emergency_pct"@, w);
                assert(w == v@);
            }
            match parse_pct(v.as_str()) {
                Some(m) => m,
                None => 10_000_000,
            }
        },
        _ => 10_000_000,
    }
}

/// `pct` (millionths of a percent) of `amount`, to the nearest cent.
pub fn split_of(amount: i64, pct: i64) -> (r: i128)
    requires
        -2_000_000_000_000 < pct < 2_000_000_000_000,
    ensures
        r == split_amount(amount as int, pct as int),
        pct > 0 ==> -100_000_000 <= 200_000_000 * r - 2 * amount * pct <= 100_000_000,
{
    proof {
        if pct > 0 {
            crate::laws::law_split_is_percentage_of_income(amount as int, pct as int);
        }
    }
    if pct <= 0 {
        return 0;
    }
    proof {
        assert(-0x8000_0000_0000_0000_0000_0000_0000 < 2 * (amount as int) * (pct as int) + 100_000_000
            < 0x7fff_ffff_ffff_ffff_ffff_ffff_ffff_ffff) by (nonlinear_arith)
            requires
                -0x8000_0000_0000_0000 <= amount < 0x8000_0000_0000_0000,
                0 < pct < 2_000_000_000_000,
        ;
    }
    let n: i128 = 2 * (amount as i128) * (pct as i128) + 100_000_000;
    if n >= 0 {
        n / 200_000_000
    } else {
        proof {
            let q = (n as int) / 200_000_000;
            let m = -(n as int);
            assert(m > 0);
        }
        -((-n + 199_999_999) / 200_000_000)
    }
}

/// What `add_income_with_emergency_split` wrote.
pub struct IncomeResult {
    pub entry_id: i64,
    /// The emergency fund's name and the amount moved into it, if any.
    pub emergency: Option<(String, i64)>,
}

/// Records income into `to` and, when `split` is set, `to` is liquid and
/// an emergency fund exists elsewhere, moves the configured percentage of
/// it into the fund in the same all-or-nothing batch.
pub fn add_income_with_emergency_split(
    be: &mut MemoryBackend,
    date: &str,
    amount: i64,
    to: i64,
    concept: &str,
    description: Option<&str>,
    split: bool,
) -> (r: Result<IncomeResult>)
    requires
        old(be).wf(),
    ensures
        final(be).wf(),
        !(is_canonical_date(date@) && amount > 0) ==> (r matches Err(x) && x is Invalid),
        is_canonical_date(date@) && amount > 0 && split && account_with(old(be).accounts_view(), to)
            is None ==> (r matches Err(x) && x is NotFound),
        is_canonical_date(date@) && amount > 0 && (split ==> account_with(old(be).accounts_view(), to)
            is Some) && (split_fund(old(be).accounts_view(), to, split) is None || split_amount(
            amount as int,
            configured_pct(old(be).config_view()),
        ) <= 0) ==> (r is Ok <==> entry_fits(
            old(be).accounts_view(),
            old(be).concepts_view(),
            old(be).entries_view(),
            old(be).last_entry_id(),
            EntryKind::Income,
            date@,
            amount as int,
            None,
            Some(to),
            Some(concept@),
        )),
        is_canonical_date(date@) && amount > 0 && (split ==> account_with(old(be).accounts_view(), to)
            is Some) && (split_fund(old(be).accounts_view(), to, split) is None || split_amount(
            amount as int,
            configured_pct(old(be).config_view()),
        ) <= 0) ==> (r matches Ok(res) ==> res.emergency is None && res.entry_id
            == old(be).last_entry_id() + 1 && (exists|row: Entry|
            row_has(
                row,
                res.entry_id as int,
                EntryKind::Income,
                date@,
                amount as int,
                None,
                Some(to),
                Some(concept@),
                None,
                opt_str(description),
            ) && #[trigger] added(old(be).entries_view(), final(be).entries_view(), row))
            && forall|acc: i64|
            #[trigger] balance_in(final(be).entries_view(), acc) == balance_in(
                old(be).entries_view(),
                acc,
            ) + move_delta(amount as int, None, Some(to), acc)),
        is_canonical_date(date@) && amount > 0 && (split ==> account_with(old(be).accounts_view(), to)
            is Some) && split_fund(old(be).accounts_view(), to, split) is Some && 0 < split_amount(
            amount as int,
            configured_pct(old(be).config_view()),
        ) <= i64::MAX ==> (r is Ok <==> entry_fits(
            old(be).accounts_view(),
            old(be).concepts_view(),
            old(be).entries_view(),
            old(be).last_entry_id(),
            EntryKind::Income,
            date@,
            amount as int,
            None,
            Some(to),
            Some(concept@),
        ) && fits_with(
            old(be).accounts_view(),
            old(be).concepts_view(),
            |id: i64|
                balance_in(old(be).entries_view(), id) + move_delta(amount as int, None, Some(to), id),
            old(be).entries_view().len() + 1 as int,
            old(be).last_entry_id() + 1,
            EntryKind::Transfer,
            date@,
            split_amount(amount as int, configured_pct(old(be).config_view())),
            Some(to),
            Some(split_fund(old(be).accounts_view(), to, split)->0.id),
            None,
        )),
        is_canonical_date(date@) && amount > 0 && (split ==> account_with(old(be).accounts_view(), to)
            is Some) && split_fund(old(be).accounts_view(), to, split) is Some && 0 < split_amount(
            amount as int,
            configured_pct(old(be).config_view()),
        ) <= i64::MAX ==> (r matches Ok(res) ==> res.emergency matches Some(x) && x.0@ == split_fund(
            old(be).accounts_view(),
            to,
            split,
        )->0.name@ && x.1 == split_amount(amount as int, configured_pct(old(be).config_view()))
            && res.entry_id == old(be).last_entry_id() + 1 && (exists|row: Entry, t: Entry|
            row_has(
                row,
                res.entry_id as int,
                EntryKind::Income,
                date@,
                amount as int,
                None,
                Some(to),
                Some(concept@),
                None,
                opt_str(description),
            ) && row_has(
                t,
                res.entry_id + 1,
                EntryKind::Transfer,
                date@,
                split_amount(amount as int, configured_pct(old(be).config_view())),
                Some(to),
                Some(split_fund(old(be).accounts_view(), to, split)->0.id),
                None,
                None,
                None,
            ) && #[trigger] added_pair(old(be).entries_view(), final(be).entries_view(), row, t))
            && forall|acc: i64|
            #[trigger] balance_in(final(be).entries_view(), acc) == balance_in(
                old(be).entries_view(),
                acc,
            ) + move_delta(amount as int, None, Some(to), acc) + move_delta(
                split_amount(amount as int, configured_pct(old(be).config_view())),
                Some(to),
                Some(split_fund(old(be).accounts_view(), to, split)->0.id),
                acc,
            )),
        is_canonical_date(date@) && amount > 0 && split_fund(old(be).accounts_view(), to, split) is Some
            && split_amount(amount as int, configured_pct(old(be).config_view())) > i64::MAX ==> (r matches Err(
            x,
        ) && x is Invalid),
        r is Err ==> final(be).entries_view() == old(be).entries_view(),
        final(be).accounts_view() == old(be).accounts_view(),
        final(be).config_view() == old(be).config_view(),
{
    let income = NewEntry::income(date, amount, to, concept)?.with_description(description);
    let ghost old_be = *be;
    let ghost fund_s = split_fund(old_be.accounts_view(), to, split);
    let ghost amt_s = split_amount(amount as int, configured_pct(old_be.config_view()));
    proof {
        be.lemma_capacity();
        lemma_account_with(be.accounts_view(), to);
    }
    let mut plan: Option<(i64, String, i64)> = None;
    if split {
        let to_account = be.get_account(to)?;
        if to_account.liquid {
            if let Some(fund) = be.emergency_account()? {
                let ghost fi = choose|i: int|
                    0 <= i < be.accounts_view().len() && #[trigger] be.accounts_view()[i].kind
                        == AccountKind::Emergency && !be.accounts_view()[i].archived
                        && crate::storage::ledger::with_balance(
                        be.accounts_view()[i],
                        fund,
                        balance_in(be.entries_view(), be.accounts_view()[i].id),
                    );
                proof {
                    let c = choose|c: int|
                        0 <= c < be.accounts_view().len() && be.accounts_view()[c].kind
                            == AccountKind::Emergency && !be.accounts_view()[c].archived;
                    assert(c == fi);
                    assert(fund_s == if fund.id != to {
                        Some(be.accounts_view()[fi])
                    } else {
                        None::<Account>
                    });
                }
                if fund.id != to {
                    let pct = configured_split_pct(be);
                    let amt = split_of(amount, pct);
                    if amt > 0 {
                        if amt > 0x7fff_ffff_ffff_ffff {
                            return Err(AppError::Invalid(owned("Split amount out of range")));
                        }
                        plan = Some((fund.id, fund.name, amt as i64));
                        proof {
                            assert(fund_s == Some(be.accounts_view()[fi]));
                            assert(amt == amt_s);
                        }
                    } else {
                        proof {
                            assert(amt_s <= 0);
                        }
                    }
                } else {
                    proof {
                        assert(fund_s is None);
                    }
                }
            } else {
                proof {
                    assert(fund_s is None);
                }
            }
        } else {
            proof {
                assert(fund_s is None);
            }
        }
    } else {
        proof {
            assert(fund_s is None);
        }
    }
    proof {
        assert(plan is None ==> fund_s is None || amt_s <= 0);
        assert(plan matches Some(p) ==> fund_s matches Some(f) && f.id == p.0 && f.name@ == p.1@
            && p.2 == amt_s && 0 < amt_s <= i64::MAX);
    }
    match plan {
        None => {
            let id = push_one(be, income)?;
            proof {
                let row = row_of(income, id);
                assert(row_has(
                    row,
                    id as int,
                    EntryKind::Income,
                    date@,
                    amount as int,
                    None,
                    Some(to),
                    Some(concept@),
                    None,
                    opt_str(description),
                ));
                assert(added(old_be.entries_view(), be.entries_view(), row));
            }
            Ok(IncomeResult { entry_id: id, emergency: None })
        },
        Some((fund_id, name, amt)) => {
            let t = NewEntry::transfer(date, amt, to, fund_id)?;
            proof {
                lemma_pair_batch(
                    old_be.accounts_view(),
                    old_be.concepts_view(),
                    old_be.entries_view(),
                    old_be.last_entry_id(),
                    income,
                    t,
                );
            }
            let batch = vec![income, t];
            proof {
                assert(batch@ =~= seq![income, t]);
                assert(batch@ =~= Seq::empty().push(income).push(t));
            }
            let created = be.push_entries(batch.as_slice())?;
            proof {
                assert(crate::storage::memory::batch_entry_ok(
                    old_be.accounts_view(),
                    old_be.concepts_view(),
                    old_be.entries_view(),
                    old_be.last_entry_id(),
                    batch@,
                    0,
                ));
                assert(crate::storage::memory::listed_as(
                    batch_rows(batch@, old_be.last_entry_id() + 1)[0],
                    old_be.accounts_view(),
                    created@[0],
                ));
                assert(batch_rows(batch@, old_be.last_entry_id() + 1)[0] == row_of(
                    income,
                    (old_be.last_entry_id() + 1) as i64,
                ));
                assert(created@[0].id == old_be.last_entry_id() + 1);
                let r1 = row_of(income, (old_be.last_entry_id() + 1) as i64);
                let r2 = row_of(t, (old_be.last_entry_id() + 2) as i64);
                assert(batch_rows(batch@, old_be.last_entry_id() + 1) =~= seq![r1, r2]);
                assert(seq![r1, r2] =~= Seq::<Entry>::empty().push(r1).push(r2));
                Seq::<Entry>::empty().to_multiset_ensures();
                vstd::multiset::lemma_multiset_empty_len(Seq::<Entry>::empty().to_multiset());
                assert(Seq::<Entry>::empty().to_multiset() =~= Multiset::empty());
                vstd::seq_lib::to_multiset_build(Seq::<Entry>::empty(), r1);
                vstd::seq_lib::to_multiset_build(Seq::<Entry>::empty().push(r1), r2);
                assert(seq![r1, r2].to_multiset() =~= Multiset::empty().insert(r1).insert(r2));
                assert(be.entries_view().to_multiset() =~= old_be.entries_view().to_multiset().insert(
                    r1,
                ).insert(r2));
                assert(row_has(
                    r1,
                    old_be.last_entry_id() + 1,
                    EntryKind::Income,
                    date@,
                    amount as int,
                    None,
                    Some(to),
                    Some(concept@),
                    None,
                    opt_str(description),
                ));
                assert(row_has(
                    r2,
                    old_be.last_entry_id() + 2,
                    EntryKind::Transfer,
                    date@,
                    amt as int,
                    Some(to),
                    Some(fund_id),
                    None,
                    None,
                    None,
                ));
                assert(added_pair(old_be.entries_view(), be.entries_view(), r1, r2));
                assert forall|acc: i64| #[trigger] balance_in(be.entries_view(), acc) == balance_in(
                    old_be.entries_view(),
                    acc,
                ) + move_delta(amount as int, None, Some(to), acc) + move_delta(
                    amt as int,
                    Some(to),
                    Some(fund_id),
                    acc,
                ) by {
                    assert(crate::storage::memory::batch_delta(batch@, acc) == move_delta(
                        amount as int,
                        None,
                        Some(to),
                        acc,
                    ) + move_delta(amt as int, Some(to), Some(fund_id), acc));
                }
            }
            Ok(IncomeResult { entry_id: created[0].id, emergency: Some((name, amt)) })
        },
    }
}

} // verus!
