//! Report shapes, and the reports computed over a store.
use vstd::prelude::*;

use crate::error::Result;
use crate::models::{AccountBalance, AccountKind, ConceptSummary};
use crate::period::{Period, MIN_YEAR};
use crate::storage::ledger::{self, report_of, sum_balances, sum_debts, is_savings, is_spending};
use crate::storage::memory::{
    account_listing, balances_listed, budget_of_period, in_period, lemma_listed_abs_total, opt_str,
    up_to, MemoryBackend,
};

verus! {

/// A budget line next to what was actually spent against it.
#[derive(Debug)]
pub struct BudgetVsActual {
    pub concept: String,
    /// The monthly limit, in cents.
    pub budgeted: i64,
    /// What the month's expenses under this concept add up to, in cents.
    pub actual: i128,
    /// `actual` as hundredths of a percent of `budgeted`, capped at 999%.
    pub pct: i64,
}

/// A month's activity. `total_expense` (accrued) is what budgets compare
/// against; `cash_out` is what actually left spending accounts that month.
#[derive(Debug)]
pub struct MonthlyReport {
    pub period: Period,
    pub total_income: i128,
    pub total_expense: i128,
    pub cash_out: i128,
    pub net_flow: i128,
    pub by_concept: Vec<ConceptSummary>,
    pub budgets: Vec<BudgetVsActual>,
    /// Expense funded from an emergency/target account.
    pub from_savings: i128,
    /// Expense charged to a credit account.
    pub on_credit: i128,
    /// Transfers spending -> emergency/target this month.
    pub savings_contributions: i128,
    /// Transfers emergency/target -> spending this month (not expenses).
    pub savings_withdrawals: i128,
    /// Transfers spending -> credit this month (paying down the card).
    pub card_payments: i128,
}

/// Point-in-time balances across the accounts given.
#[derive(Debug)]
pub struct NetWorth {
    pub accounts: Vec<AccountBalance>,
    /// Sum of `spending` account balances.
    pub cash_on_hand: i128,
    /// Sum of `emergency` + `target` account balances.
    pub savings: i128,
    /// Sum of credit account debt, as a positive number.
    pub credit_debt: i128,
    pub net: i128,
}

#[derive(Debug)]
pub struct FullStatus {
    pub report: MonthlyReport,
    pub net_worth: NetWorth,
}

/// A month's activity over the store: its non-archived accounts, the
/// entries dated in the month and the month's budgets.
pub fn monthly_report(be: &MemoryBackend, period: &Period) -> (r: Result<MonthlyReport>)
    requires
        MIN_YEAR <= period.year_of() <= 9999,
    ensures
        r matches Ok(rep) && report_of(
            *period,
            account_listing(be.accounts_view(), false),
            be.entries_view().filter(in_period(*period)),
            be.budgets_view().filter(budget_of_period(period@)),
            rep,
        ),
{
    let accounts = be.raw_accounts(false)?;
    let entries = be.period_entries(period);
    let budgets = be.list_budgets(Some(period.as_str()))?;
    Ok(ledger::monthly_report(period, accounts.as_slice(), entries.as_slice(), budgets.as_slice()))
}

/// Balances of the non-archived accounts now, or as of `as_of` (entries
/// dated on or before it), partitioned into cash, savings and credit debt.
pub fn net_worth(be: &MemoryBackend, as_of: Option<&str>) -> (r: Result<NetWorth>)
    requires
        be.wf(),
    ensures
        r matches Ok(nw) && balances_listed(
            account_listing(be.accounts_view(), false),
            be.entries_view().filter(up_to(opt_str(as_of))),
            nw.accounts@,
        ) && nw.cash_on_hand == sum_balances(nw.accounts@, |k: AccountKind| is_spending(k))
            && nw.savings == sum_balances(nw.accounts@, |k: AccountKind| is_savings(k))
            && nw.credit_debt == sum_debts(nw.accounts@) && nw.net == nw.cash_on_hand + nw.savings
            - nw.credit_debt,
{
    let accounts = be.accounts_with_balances(false, as_of)?;
    proof {
        be.lemma_capacity();
        let listing = account_listing(be.accounts_view(), false);
        let scoped = be.entries_view().filter(up_to(opt_str(as_of)));
        crate::storage::memory::lemma_listing_len(be.accounts_view(), false);
        be.entries_view().lemma_filter_len(up_to(opt_str(as_of)));
        lemma_listed_abs_total(listing, scoped, accounts@);
    }
    Ok(ledger::net_worth(accounts.as_slice()))
}

/// This month's report together with today's net worth.
pub fn full_status(be: &MemoryBackend, period: &Period) -> (r: Result<FullStatus>)
    requires
        be.wf(),
        MIN_YEAR <= period.year_of() <= 9999,
    ensures
        r matches Ok(st) && report_of(
            *period,
            account_listing(be.accounts_view(), false),
            be.entries_view().filter(in_period(*period)),
            be.budgets_view().filter(budget_of_period(period@)),
            st.report,
        ) && balances_listed(
            account_listing(be.accounts_view(), false),
            be.entries_view(),
            st.net_worth.accounts@,
        ),
{
    let report = monthly_report(be, period)?;
    let net_worth = net_worth(be, None)?;
    proof {
        crate::storage::memory::lemma_filter_keeps_all(be.entries_view(), up_to(opt_str(None)));
    }
    Ok(FullStatus { report, net_worth })
}


} // verus!
