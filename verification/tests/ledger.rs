use money_core::models::{Account, AccountKind, Budget, Entry, EntryKind};
use money_core::period::Period;
use money_core::storage::grouping::budget_pct;
use money_core::storage::ledger::{derive_balances, monthly_report};

fn cents(x: f64) -> i64 {
    (x * 100.0).round() as i64
}

fn account(id: i64, name: &str, kind: AccountKind) -> Account {
    Account {
        id,
        name: name.into(),
        kind,
        target_amount: None,
        credit_limit: None,
        liquid: true,
        archived: false,
    }
}

fn income(id: i64, date: &str, amount: f64, to: i64) -> Entry {
    Entry {
        id,
        date: date.into(),
        kind: EntryKind::Income,
        amount: cents(amount),
        from_account_id: None,
        to_account_id: Some(to),
        from_account: None,
        to_account: None,
        concept: Some("Nomina".into()),
        subconcept: None,
        description: None,
    }
}

fn expense(id: i64, date: &str, amount: f64, from: i64, concept: &str) -> Entry {
    Entry {
        id,
        date: date.into(),
        kind: EntryKind::Expense,
        amount: cents(amount),
        from_account_id: Some(from),
        to_account_id: None,
        from_account: None,
        to_account: None,
        concept: Some(concept.into()),
        subconcept: None,
        description: None,
    }
}

#[test]
fn derive_sums_incoming_and_outgoing_per_account() {
    let accounts = vec![account(1, "debito", AccountKind::Spending)];
    let entries = vec![
        income(1, "2026-08-01", 1000.0, 1),
        expense(2, "2026-08-02", 300.0, 1, "Alimentos"),
    ];
    let balances = derive_balances(&accounts, &entries);
    assert_eq!(balances[0].balance, cents(700.0) as i128);
}

#[test]
fn monthly_report_rounds_and_classifies() {
    let accounts = vec![
        account(1, "debito", AccountKind::Spending),
        account(2, "tdc", AccountKind::Credit),
    ];
    let entries = vec![
        income(1, "2026-08-01", 10000.0, 1),
        expense(2, "2026-08-12", 1800.0, 2, "Discrecional"),
    ];
    let report = monthly_report(&Period::parse("2026-08").unwrap(), &accounts, &entries, &[]);
    assert_eq!(report.total_income, cents(10000.0) as i128);
    assert_eq!(report.total_expense, cents(1800.0) as i128);
    assert_eq!(report.on_credit, cents(1800.0) as i128);
    assert_eq!(report.cash_out, 0);
}

#[test]
fn budget_join_over_period() {
    let accounts = vec![account(1, "debito", AccountKind::Spending)];
    let entries = vec![expense(1, "2026-08-05", 2000.0, 1, "Alimentos")];
    let budgets = vec![Budget {
        id: None,
        concept: "Alimentos".into(),
        monthly_limit: cents(2500.0),
        period: "2026-08".into(),
    }];
    let report = monthly_report(&Period::parse("2026-08").unwrap(), &accounts, &entries, &budgets);
    assert_eq!(report.budgets.len(), 1);
    assert_eq!(report.budgets[0].actual, cents(2000.0) as i128);
    // 80% in hundredths of a percent
    assert_eq!(report.budgets[0].pct, 8000);
}

#[test]
fn report_ignores_entries_outside_the_month() {
    let accounts = vec![account(1, "debito", AccountKind::Spending)];
    let entries = vec![
        income(1, "2026-07-31", 500.0, 1),
        expense(2, "2026-08-01", 20.0, 1, "Alimentos"),
        expense(3, "2026-09-01", 30.0, 1, "Alimentos"),
    ];
    let report = monthly_report(&Period::parse("2026-08").unwrap(), &accounts, &entries, &[]);
    assert_eq!(report.total_income, 0);
    assert_eq!(report.total_expense, 2000);
    assert_eq!(report.cash_out, 2000);
    assert_eq!(report.net_flow, -2000);
}

#[test]
fn expense_partition_into_cash_savings_credit() {
    let accounts = vec![
        account(1, "debito", AccountKind::Spending),
        account(2, "fondo", AccountKind::Emergency),
        account(3, "tdc", AccountKind::Credit),
    ];
    let entries = vec![
        expense(1, "2026-08-02", 10.0, 1, "Alimentos"),
        expense(2, "2026-08-03", 20.0, 2, "Servicios"),
        expense(3, "2026-08-04", 30.0, 3, "Discrecional"),
    ];
    let report = monthly_report(&Period::parse("2026-08").unwrap(), &accounts, &entries, &[]);
    assert_eq!(report.total_expense, 6000);
    assert_eq!(report.cash_out, 1000);
    assert_eq!(report.from_savings, 2000);
    assert_eq!(report.on_credit, 3000);
    assert_eq!(report.total_expense, report.cash_out - report.card_payments + report.from_savings + report.on_credit);
}

#[test]
fn budget_share_is_capped_only_from_above() {
    assert_eq!(budget_pct(250, 100), 25_000);
    assert_eq!(budget_pct(2_000, 100), 99_900);
    assert_eq!(budget_pct(-150_000, 100), -15_000_000);
    assert_eq!(budget_pct(-1, 3), -3_333);
    assert_eq!(budget_pct(500, 0), 0);
}

#[test]
fn transfer_keeps_the_total_of_the_accounts_it_joins() {
    let accounts = vec![
        account(1, "debito", AccountKind::Spending),
        account(2, "fondo", AccountKind::Emergency),
        account(3, "efectivo", AccountKind::Spending),
    ];
    let mut entries = vec![income(1, "2026-08-01", 1000.0, 1), income(2, "2026-08-01", 50.0, 3)];
    let total = |bs: &[money_core::models::AccountBalance]| -> i128 { bs.iter().map(|b| b.balance).sum() };
    let before = derive_balances(&accounts, &entries);
    entries.push(Entry {
        id: 3,
        date: "2026-08-02".into(),
        kind: EntryKind::Transfer,
        amount: cents(200.0),
        from_account_id: Some(1),
        to_account_id: Some(2),
        from_account: None,
        to_account: None,
        concept: None,
        subconcept: None,
        description: None,
    });
    let after = derive_balances(&accounts, &entries);
    assert_eq!(total(&before), total(&after));
    assert_eq!(before[0].balance + before[1].balance, after[0].balance + after[1].balance);
    assert_eq!(before[2].balance, after[2].balance);
    assert_eq!(after[1].balance, cents(200.0) as i128);
}
