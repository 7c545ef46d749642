//! Accounts: creating and finding them, the default account, archiving,
//! and reconciling a derived balance against a counted one.
use vstd::prelude::*;

use crate::error::{AppError, Result};
use crate::models::{AccountBalance, EntryKind, NewAccount};
use crate::period::is_canonical_date;
use crate::storage::ledger::{balance_in, with_balance};
use crate::storage::memory::{
    account_acceptable, account_listing, account_with, archived_if, balances_listed, config_has,
    entry_fits, has_active_emergency, has_balance, up_to, MemoryBackend,
};
use crate::storage::table::has_key;
use crate::text::owned;

verus! {

/// Creates an account (see `MemoryBackend::insert_account`).
pub fn create_account(be: &mut MemoryBackend, new: &NewAccount) -> (r: Result<i64>)
    requires
        old(be).wf(),
    ensures
        final(be).wf(),
        !account_acceptable(old(be).accounts_view(), *new) ==> (r matches Err(e) && e is Database),
        account_acceptable(old(be).accounts_view(), *new) && old(be).last_account_id() < i64::MAX
            ==> r is Ok,
        r matches Ok(id) ==> id == old(be).last_account_id() + 1 && exists|p: int|
            #[trigger] crate::storage::memory::inserted_at(
                old(be).accounts_view(),
                final(be).accounts_view(),
                p,
            ) && final(be).accounts_view()[p] == (crate::models::Account {
                id,
                name: new.name,
                kind: new.kind,
                target_amount: new.target_amount,
                credit_limit: new.credit_limit,
                liquid: new.liquid,
                archived: false,
            }),
        r is Err ==> final(be).accounts_view() == old(be).accounts_view(),
        final(be).entries_view() == old(be).entries_view(),
        final(be).config_view() == old(be).config_view(),
{
    be.insert_account(new)
}

/// Accounts with their current balances, in listing order.
pub fn list_accounts(be: &MemoryBackend, include_archived: bool) -> (r: Result<Vec<AccountBalance>>)
    ensures
        r matches Ok(v) && balances_listed(
            account_listing(be.accounts_view(), include_archived),
            be.entries_view(),
            v@,
        ),
{
    be.list_accounts(include_archived)
}

/// Account `id` with its current balance.
pub fn get_account(be: &MemoryBackend, id: i64) -> (r: Result<AccountBalance>)
    ensures
        account_with(be.accounts_view(), id) matches Some(a) ==> (r matches Ok(b) && with_balance(
            a,
            b,
            balance_in(be.entries_view(), id),
        )),
        account_with(be.accounts_view(), id) is None ==> (r matches Err(e) && e is NotFound),
{
    be.get_account(id)
}

/// The account named `name`, if any, with its current balance.
pub fn find_by_name(be: &MemoryBackend, name: &str) -> (r: Result<Option<AccountBalance>>)
    ensures
        r matches Ok(o) && (o is Some <==> has_key(be.accounts_view(), name@)) && (o matches Some(
            b,
        ) ==> exists|i: int|
            0 <= i < be.accounts_view().len() && #[trigger] be.accounts_view()[i].name@ == name@
                && with_balance(
                be.accounts_view()[i],
                b,
                balance_in(be.entries_view(), be.accounts_view()[i].id),
            )),
{
    be.find_account_by_name(name)
}

/// The account named `name` with its current balance.
pub fn require_by_name(be: &MemoryBackend, name: &str) -> (r: Result<AccountBalance>)
    ensures
        r is Ok <==> has_key(be.accounts_view(), name@),
        r matches Ok(b) ==> exists|i: int|
            0 <= i < be.accounts_view().len() && #[trigger] be.accounts_view()[i].name@ == name@
                && with_balance(
                be.accounts_view()[i],
                b,
                balance_in(be.entries_view(), be.accounts_view()[i].id),
            ),
        r matches Err(e) ==> e is NotFound,
{
    be.require_account_by_name(name)
}

/// The active emergency fund, if there is one.
pub fn emergency_account(be: &MemoryBackend) -> (r: Result<Option<AccountBalance>>)
    requires
        be.wf(),
    ensures
        r matches Ok(o) && (o is Some <==> has_active_emergency(be.accounts_view())),
{
    be.emergency_account()
}

/// The account named by the "default_account" setting.
pub fn default_account(be: &MemoryBackend) -> (r: Result<AccountBalance>)
    requires
        be.wf(),
    ensures
        !has_key(be.config_view(), "default_account"@) ==> (r matches Err(e) && e is Config),
        forall|v: Seq<char>|
            config_has(be.config_view(), "default_account"@, v) ==> (r is Ok <==> has_key(
                be.accounts_view(),
                v,
            )) && (r matches Ok(b) ==> exists|i: int|
                0 <= i < be.accounts_view().len() && #[trigger] be.accounts_view()[i].name@ == v
                    && with_balance(
                    be.accounts_view()[i],
                    b,
                    balance_in(be.entries_view(), be.accounts_view()[i].id),
                )) && (r matches Err(e) ==> e is NotFound),
{
    proof {
        be.lemma_capacity();
    }
    let name = match be.get_config("default_account")? {
        Some(n) => n,
        None => {
            return Err(
                AppError::Config(
                    owned(
                        "No default account set. Run: money-tracker config set default_account <name>",
                    ),
                ),
            );
        },
    };
    require_by_name(be, name.as_str())
}

/// Makes the account named `name` the default one.
pub fn set_default_account(be: &mut MemoryBackend, name: &str) -> (r: Result<()>)
    requires
        old(be).wf(),
    ensures
        final(be).wf(),
        r is Ok <==> has_key(old(be).accounts_view(), name@),
        r matches Err(e) ==> e is NotFound,
        r is Ok ==> forall|k: Seq<char>, v: Seq<char>|
            config_has(final(be).config_view(), k, v) <==> ((k == "default_account"@ && v == name@)
                || (config_has(old(be).config_view(), k, v) && k != "default_account"@)),
        r is Err ==> final(be).config_view() == old(be).config_view(),
        final(be).accounts_view() == old(be).accounts_view(),
        final(be).entries_view() == old(be).entries_view(),
{
    require_by_name(be, name)?;
    be.set_config("default_account", name)
}

/// Archives account `id` (see `MemoryBackend::archive_account`).
pub fn archive_account(be: &mut MemoryBackend, id: i64, force: bool) -> (r: Result<()>)
    requires
        old(be).wf(),
    ensures
        final(be).wf(),
        account_with(old(be).accounts_view(), id) is None ==> (r matches Err(e) && e is NotFound),
        account_with(old(be).accounts_view(), id) is Some && !force && has_balance(
            old(be).entries_view(),
            id,
        ) ==> (r matches Err(e) && e is Invalid),
        r is Ok <==> account_with(old(be).accounts_view(), id) is Some && (force || !has_balance(
            old(be).entries_view(),
            id,
        )),
        r is Ok ==> final(be).accounts_view().len() == old(be).accounts_view().len() && forall|k: int|
            0 <= k < old(be).accounts_view().len() ==> archived_if(
                old(be).accounts_view()[k],
                id,
                #[trigger] final(be).accounts_view()[k],
            ),
        r is Err ==> final(be).accounts_view() == old(be).accounts_view(),
        final(be).entries_view() == old(be).entries_view(),
{
    be.archive_account(id, force)
}

/// Balance of account `id` over the entries dated on or before `date`.
pub fn balance_as_of(be: &MemoryBackend, id: i64, date: &str) -> (r: Result<i128>)
    ensures
        r matches Ok(b) && b == balance_in(be.entries_view().filter(up_to(Some(date@))), id),
{
    be.balance_as_of(id, date)
}

/// What a reconciliation did: the entry it wrote, if any, and the
/// difference it closed (derived minus counted).
pub struct ReconcileResult {
    pub entry_id: Option<i64>,
    pub diff: i128,
}

/// Writes the entry that brings account `account_id`'s derived balance to
/// the counted `actual`: an expense for a surplus in the books (untracked
/// spending), an income for a shortfall (money of unknown origin, filed
/// under `concept`), nothing when they agree. Afterwards the derived
/// balance is `actual`.
pub fn reconcile_account(
    be: &mut MemoryBackend,
    account_id: i64,
    actual: i64,
    concept: &str,
    date: &str,
) -> (r: Result<ReconcileResult>)
    requires
        old(be).wf(),
    ensures
        final(be).wf(),
        account_with(old(be).accounts_view(), account_id) is None ==> (r matches Err(e) && e is NotFound),
        account_with(old(be).accounts_view(), account_id) is Some ==> ({
            let diff = balance_in(old(be).entries_view(), account_id) - actual;
            &&& diff == 0 ==> (r matches Ok(res) && res.entry_id is None && res.diff == 0)
            &&& diff > 0 ==> (r is Ok <==> is_canonical_date(date@) && diff <= i64::MAX && entry_fits(
                old(be).accounts_view(),
                old(be).concepts_view(),
                old(be).entries_view(),
                old(be).last_entry_id(),
                EntryKind::Expense,
                date@,
                diff,
                Some(account_id),
                None,
                Some(concept@),
            ))
            &&& diff < 0 ==> (r is Ok <==> is_canonical_date(date@) && -diff <= i64::MAX && entry_fits(
                old(be).accounts_view(),
                old(be).concepts_view(),
                old(be).entries_view(),
                old(be).last_entry_id(),
                EntryKind::Income,
                date@,
                -diff,
                None,
                Some(account_id),
                Some(concept@),
            ))
            &&& r matches Ok(res) ==> res.diff == diff && (res.entry_id is Some <==> diff != 0) && (
            res.entry_id matches Some(id) ==> id == old(be).last_entry_id() + 1)
        }),
        r is Ok ==> balance_in(final(be).entries_view(), account_id) == actual,
        r is Err ==> final(be).entries_view() == old(be).entries_view(),
        final(be).accounts_view() == old(be).accounts_view(),
{
    let account = be.get_account(account_id)?;
    proof {
        be.lemma_capacity();
        crate::storage::ledger::lemma_balance_bound(be.entries_view(), account_id);
        assert(be.entries_view().len() * crate::storage::ledger::amount_bound()
            <= crate::storage::memory::entry_capacity() * crate::storage::ledger::amount_bound())
            by (nonlinear_arith)
            requires
                be.entries_view().len() <= crate::storage::memory::entry_capacity(),
        ;
    }
    let diff: i128 = account.balance - actual as i128;
    if diff == 0 {
        return Ok(ReconcileResult { entry_id: None, diff: 0 });
    }
    if diff > 0x7fff_ffff_ffff_ffff || diff < -0x7fff_ffff_ffff_ffff {
        return Err(AppError::Invalid(owned("Amount out of range")));
    }
    let id = if diff > 0 {
        crate::services::entry_service::add_expense(
            be,
            date,
            diff as i64,
            account_id,
            concept,
            None,
            Some("Cuadre de efectivo"),
        )?
    } else {
        crate::services::entry_service::add_income(
            be,
            date,
            (-diff) as i64,
            account_id,
            concept,
            Some("Cuadre de efectivo"),
        )?
    };
    Ok(ReconcileResult { entry_id: Some(id), diff })
}

} // verus!
