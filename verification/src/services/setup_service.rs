//! First-run setup: opening balances for existing accounts.
use vstd::prelude::*;

use crate::error::{AppError, Result};
use crate::models::{Account, Entry, EntryKind, NewEntry};
use crate::period::is_canonical_date;
use crate::storage::ledger::{balance_in, dated, sum_amounts};
use crate::storage::memory::{
    account_named, account_with, batch_delta, batch_entry_ok, batch_ok_upto, batch_rows,
    entry_capacity, lemma_account_named, lemma_account_with, opt_text, row_of, MemoryBackend,
};
use crate::storage::table::has_key;
use crate::text::owned;

verus! {

/// Accounts to seed with opening balances, and the date to book them on.
pub struct SeedOptions {
    /// (account name, opening balance in cents) pairs.
    pub accounts: Vec<(String, i64)>,
    pub date: String,
}

/// The (account name, amount) pairs that were seeded, in the order given.
pub struct SeedSummary {
    pub seeded: Vec<(String, i64)>,
}

/// Pairs with a positive amount.
pub open spec fn positive() -> spec_fn((String, i64)) -> bool {
    |p: (String, i64)| p.1 > 0
}

/// What seeding `pairs` adds to the balance of account `id`: the positive
/// amounts of the pairs naming it.
pub open spec fn seed_total(accounts: Seq<Account>, pairs: Seq<(String, i64)>, id: i64) -> int
    decreases pairs.len(),
{
    if pairs.len() == 0 {
        0
    } else {
        seed_total(accounts, pairs.drop_last(), id) + if pairs.last().1 > 0 && (account_named(
            accounts,
            pairs.last().0@,
        ) matches Some(a) && a.id == id) {
            pairs.last().1 as int
        } else {
            0
        }
    }
}

/// `rows` are the opening balances booked for `pairs`, one per pair and in
/// its order, numbered from `last + 1`: each an `Opening` entry on `date`
/// into the account named by the pair, for its amount, with no concept and
/// the description "Saldo inicial".
pub open spec fn opening_rows(
    rows: Seq<Entry>,
    accounts: Seq<Account>,
    pairs: Seq<(String, i64)>,
    date: Seq<char>,
    last: int,
) -> bool {
    &&& rows.len() == pairs.len()
    &&& forall|k: int|
        0 <= k < rows.len() ==> {
            let row = #[trigger] rows[k];
            &&& row.id == last + 1 + k
            &&& row.kind == EntryKind::Opening
            &&& row.date@ == date
            &&& row.amount == pairs[k].1
            &&& row.from_account_id is None
            &&& account_named(accounts, pairs[k].0@) matches Some(a) && row.to_account_id == Some(a.id)
            &&& row.concept is None
            &&& row.subconcept is None
            &&& opt_text(row.description) == Some("Saldo inicial"@)
        }
}

/// The entries of `new` are those of `old` plus `rows`.
pub open spec fn added_rows(old: Seq<Entry>, new: Seq<Entry>, rows: Seq<Entry>) -> bool {
    new.to_multiset() == old.to_multiset().add(rows.to_multiset())
}


/// A batch of opening balances for stored accounts on a valid date is
/// written exactly when there is room for it.
proof fn lemma_openings_ok(
    accounts: Seq<Account>,
    concepts: Seq<crate::models::Concept>,
    entries: Seq<crate::models::Entry>,
    last: int,
    batch: Seq<NewEntry>,
    date: Seq<char>,
)
    requires
        0 <= last <= i64::MAX,
        entries.len() <= entry_capacity(),
        batch.len() > 0 ==> is_canonical_date(date),
        forall|k: int|
            0 <= k < batch.len() ==> (#[trigger] batch[k]).kind == EntryKind::Opening
                && batch[k].from_account_id is None && batch[k].to_account_id is Some && account_with(
                accounts,
                batch[k].to_account_id->0,
            ) is Some && batch[k].amount > 0 && batch[k].date@ == date && batch[k].concept is None,
    ensures
        batch_ok_upto(accounts, concepts, entries, last, batch, batch.len() as int) <==> (last
            + batch.len() <= i64::MAX && entries.len() + batch.len() <= entry_capacity()),
{
    let m = batch.len() as int;
    if last + m <= i64::MAX && entries.len() + m <= entry_capacity() {
        assert forall|k: int| 0 <= k < m implies batch_entry_ok(
            accounts,
            concepts,
            entries,
            last,
            batch,
            k,
        ) by {
            assert(batch[k].kind == EntryKind::Opening);
        }
    }
    if m > 0 && !(last + m <= i64::MAX && entries.len() + m <= entry_capacity()) {
        assert(!batch_entry_ok(accounts, concepts, entries, last, batch, m - 1));
    }
}

/// Whether the store already holds entries; setup runs on a fresh ledger.
pub fn is_seeded(be: &MemoryBackend) -> (r: Result<bool>)
    ensures
        r matches Ok(b) && b == (be.entries_view().len() > 0),
{
    be.is_seeded()
}

/// Books an opening balance (never counted as income) for each named
/// account with a positive amount, all or nothing.
#[verifier::rlimit(40)]
pub fn seed(be: &mut MemoryBackend, opts: &SeedOptions) -> (r: Result<SeedSummary>)
    requires
        old(be).wf(),
    ensures
        final(be).wf(),
        opts.accounts@.len() == 0 ==> (r matches Err(e) && e is Invalid),
        r is Ok <==> opts.accounts@.len() > 0 && (forall|k: int|
            0 <= k < opts.accounts@.len() && opts.accounts@[k].1 > 0 ==> has_key(
                old(be).accounts_view(),
                #[trigger] opts.accounts@[k].0@,
            )) && ((exists|k: int| 0 <= k < opts.accounts@.len() && #[trigger] opts.accounts@[k].1 > 0)
            ==> is_canonical_date(opts.date@))
            && old(be).last_entry_id() + opts.accounts@.filter(positive()).len() <= i64::MAX
            && old(be).entries_view().len() + opts.accounts@.filter(positive()).len()
            <= entry_capacity(),
        r matches Err(e) ==> e is Invalid || e is NotFound || e is Database,
        r matches Ok(sum) ==> sum.seeded@ == opts.accounts@.filter(positive()),
        r is Ok ==> forall|id: i64|
            #[trigger] balance_in(final(be).entries_view(), id) == balance_in(
                old(be).entries_view(),
                id,
            ) + seed_total(old(be).accounts_view(), opts.accounts@, id),
        r is Ok ==> exists|rows: Seq<Entry>|
            opening_rows(
                rows,
                old(be).accounts_view(),
                opts.accounts@.filter(positive()),
                opts.date@,
                old(be).last_entry_id(),
            ) && #[trigger] added_rows(old(be).entries_view(), final(be).entries_view(), rows),
        r is Ok ==> forall|q: spec_fn(Entry) -> bool, s: Seq<char>, t: Seq<char>|
            #[trigger] sum_amounts(final(be).entries_view().filter(q), dated(s, t, EntryKind::Income))
                == sum_amounts(old(be).entries_view().filter(q), dated(s, t, EntryKind::Income)),
        r is Err ==> final(be).entries_view() == old(be).entries_view(),
        final(be).accounts_view() == old(be).accounts_view(),
{
    if opts.accounts.len() == 0 {
        return Err(AppError::Invalid(owned("No opening balances given")));
    }
    proof {
        be.lemma_capacity();
    }
    let ghost pairs = opts.accounts@;
    let ghost accts = be.accounts_view();
    let mut batch: Vec<NewEntry> = Vec::new();
    let mut seeded: Vec<(String, i64)> = Vec::new();
    let n = opts.accounts.len();
    let mut j: usize = 0;
    while j < n
        invariant
            n == pairs.len(),
            *be == *old(be),
            old(be).wf(),
            pairs == opts.accounts@,
            j <= n,
            accts == be.accounts_view(),
            crate::storage::table::sorted_by_key(accts),
            seeded@ == pairs.take(j as int).filter(positive()),
            batch@.len() == seeded@.len(),
            forall|k: int|
                0 <= k < batch@.len() ==> (#[trigger] batch@[k]).amount == seeded@[k].1
                    && (account_named(accts, seeded@[k].0@) matches Some(a)
                    && batch@[k].to_account_id == Some(a.id)) && batch@[k].subconcept is None
                    && batch@[k].description is Some && batch@[k].description->0@
                    == "Saldo inicial"@,
            forall|k: int|
                0 <= k < j && pairs[k].1 > 0 ==> has_key(accts, #[trigger] pairs[k].0@),
            (exists|k: int| 0 <= k < j && #[trigger] pairs[k].1 > 0) ==> is_canonical_date(opts.date@),
            seeded@.len() > 0 ==> is_canonical_date(opts.date@),
            forall|k: int|
                0 <= k < batch@.len() ==> (#[trigger] batch@[k]).kind == EntryKind::Opening
                    && batch@[k].from_account_id is None && batch@[k].to_account_id is Some
                    && account_with(accts, batch@[k].to_account_id->0) is Some && batch@[k].amount
                    > 0 && batch@[k].date@ == opts.date@ && batch@[k].concept is None,
            forall|id: i64|
                #[trigger] batch_delta(batch@, id) == seed_total(accts, pairs.take(j as int), id),
        decreases n - j,
    {
        let ghost prev = batch@;
        proof {
            assert(pairs.take(j + 1) =~= pairs.take(j as int).push(pairs[j as int]));
            pairs.take(j as int).lemma_filter_push(pairs[j as int], positive());
            assert(pairs.take(j + 1).drop_last() =~= pairs.take(j as int));
        }
        let (name, amount) = &opts.accounts[j];
        proof {
            assert(pairs[j as int].0 == *name && pairs[j as int].1 == *amount);
            assert(pairs.take(j + 1).last() == pairs[j as int]);
        }
        if *amount > 0 {
            let account = match be.require_account_by_name(name.as_str()) {
                Ok(a) => a,
                Err(err) => {
                    proof {
                        assert(!has_key(accts, pairs[j as int].0@));
                    }
                    return Err(err);
                },
            };
            let e = match NewEntry::opening(opts.date.as_str(), *amount, account.id) {
                Ok(e) => e,
                Err(err) => {
                    proof {
                        assert(pairs[j as int].1 > 0);
                    }
                    return Err(err);
                },
            };
            proof {
                let i = choose|i: int|
                    0 <= i < accts.len() && #[trigger] accts[i].name@ == name@
                        && crate::storage::ledger::with_balance(
                        accts[i],
                        account,
                        balance_in(be.entries_view(), accts[i].id),
                    );
                lemma_account_named(accts, i);
                lemma_account_with(accts, account.id);
                assert(pairs[j as int].0 == *name);
            }
            batch.push(e);
            seeded.push((name.clone(), *amount));
            proof {
                assert(batch@.drop_last() =~= prev);
                assert forall|id: i64| #[trigger] batch_delta(batch@, id) == seed_total(
                    accts,
                    pairs.take(j + 1),
                    id,
                ) by {
                    assert(batch@.last() == e);
                    assert(batch_delta(prev, id) == seed_total(accts, pairs.take(j as int), id));
                }
                assert(seeded@ =~= pairs.take(j + 1).filter(positive()));
            }
        } else {
            proof {
                assert forall|id: i64| #[trigger] batch_delta(batch@, id) == seed_total(
                    accts,
                    pairs.take(j + 1),
                    id,
                ) by {
                    assert(batch_delta(prev, id) == seed_total(accts, pairs.take(j as int), id));
                }
            }
        }
        j = j + 1;
    }
    proof {
        assert(pairs.take(n as int) =~= pairs);
        lemma_openings_ok(
            be.accounts_view(),
            be.concepts_view(),
            be.entries_view(),
            be.last_entry_id(),
            batch@,
            opts.date@,
        );
    }
    let ghost old_be = *be;
    be.push_entries(batch.as_slice())?;
    proof {
        let rows = batch_rows(batch@, old_be.last_entry_id() + 1);
        assert(opening_rows(
            rows,
            old_be.accounts_view(),
            opts.accounts@.filter(positive()),
            opts.date@,
            old_be.last_entry_id(),
        ));
        assert(added_rows(old_be.entries_view(), be.entries_view(), rows));
        assert forall|q: spec_fn(Entry) -> bool, s: Seq<char>, t: Seq<char>|
            #[trigger] sum_amounts(be.entries_view().filter(q), dated(s, t, EntryKind::Income))
                == sum_amounts(old_be.entries_view().filter(q), dated(s, t, EntryKind::Income)) by {
            assert forall|k: int| 0 <= k < rows.len() implies (#[trigger] rows[k]).kind
                == EntryKind::Opening by {
                assert(batch@[k].kind == EntryKind::Opening);
            }
            crate::laws::law_openings_are_not_income(
                old_be.entries_view(),
                be.entries_view(),
                rows,
                q,
                s,
                t,
            );
        }
    }
    Ok(SeedSummary { seeded })
}

} // verus!
