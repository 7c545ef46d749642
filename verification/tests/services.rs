use money_core::error::AppError;
use money_core::models::{EntryFilter, EntryKind, EntryUpdate, NewAccount};
use money_core::period::Period;
use money_core::services::account_service::{
    archive_account, create_account, get_account, list_accounts, reconcile_account,
};
use money_core::services::entry_service::{
    add_expense, add_income, add_income_with_emergency_split, add_opening, add_transfer, update,
};
use money_core::services::report_service::{monthly_report, net_worth};
use money_core::services::setup_service::{is_seeded, seed, SeedOptions};
use money_core::services::account_service;
use money_core::storage::memory::MemoryBackend;

fn c(x: f64) -> i64 {
    (x * 100.0).round() as i64
}

fn b(x: f64) -> i128 {
    c(x) as i128
}

fn setup() -> MemoryBackend {
    MemoryBackend::open_memory().unwrap()
}

fn make_account(be: &mut MemoryBackend, name: &str, kind: &str) -> i64 {
    match kind {
        "spending" => be.insert_account(&NewAccount::spending(name)).unwrap(),
        "emergency" => be.insert_account(&NewAccount::emergency(name)).unwrap(),
        "credit" => be.insert_account(&NewAccount::credit(name, None)).unwrap(),
        other => panic!("unknown kind {other}"),
    }
}

// ---- accounts ----

#[test]
fn create_and_list_accounts() {
    let mut be = setup();
    create_account(&mut be, &NewAccount::spending("efectivo")).unwrap();
    create_account(&mut be, &NewAccount::emergency("Fondo de emergencia")).unwrap();
    let accounts = list_accounts(&be, false).unwrap();
    assert_eq!(accounts.len(), 2);
}

#[test]
fn second_emergency_account_is_rejected() {
    let mut be = setup();
    create_account(&mut be, &NewAccount::emergency("fondo")).unwrap();
    let err = create_account(&mut be, &NewAccount::emergency("fondo2"));
    assert!(err.is_err());
}

#[test]
fn reconcile_deficit_writes_expense() {
    let mut be = setup();
    let id = create_account(&mut be, &NewAccount::spending("efectivo")).unwrap();
    add_income(&mut be, "2026-08-01", c(1000.0), id, "Nomina", None).unwrap();
    let result = reconcile_account(&mut be, id, c(150.0), "Discrecional", "2026-08-31").unwrap();
    assert_eq!(result.diff, b(850.0));
    assert!(result.entry_id.is_some());
    let account = get_account(&be, id).unwrap();
    assert_eq!(account.balance, b(150.0));
}

#[test]
fn reconcile_zero_diff_writes_nothing() {
    let mut be = setup();
    let id = create_account(&mut be, &NewAccount::spending("efectivo")).unwrap();
    add_income(&mut be, "2026-08-01", c(1000.0), id, "Nomina", None).unwrap();
    let result = reconcile_account(&mut be, id, c(1000.0), "Discrecional", "2026-08-31").unwrap();
    assert_eq!(result.diff, 0);
    assert!(result.entry_id.is_none());
}

#[test]
fn reconcile_surplus_writes_income() {
    let mut be = setup();
    let id = create_account(&mut be, &NewAccount::spending("efectivo")).unwrap();
    add_income(&mut be, "2026-08-01", c(100.0), id, "Nomina", None).unwrap();
    let result = reconcile_account(&mut be, id, c(250.0), "Extra", "2026-08-31").unwrap();
    assert_eq!(result.diff, b(-150.0));
    let account = get_account(&be, id).unwrap();
    assert_eq!(account.balance, b(250.0));
}

#[test]
fn archive_refuses_nonzero_balance() {
    let mut be = setup();
    let id = create_account(&mut be, &NewAccount::spending("efectivo")).unwrap();
    add_income(&mut be, "2026-08-01", c(100.0), id, "Nomina", None).unwrap();
    assert!(archive_account(&mut be, id, false).is_err());
    assert!(archive_account(&mut be, id, true).is_ok());
}

#[test]
fn reconcile_on_unknown_account_is_not_found() {
    let mut be = setup();
    let r = reconcile_account(&mut be, 42, 0, "Discrecional", "2026-08-31");
    assert!(matches!(r, Err(AppError::NotFound(_))));
}

// ---- entries ----

#[test]
fn expense_and_income_move_balance() {
    let mut be = setup();
    let debito = make_account(&mut be, "debito", "spending");
    add_income(&mut be, "2026-08-01", c(1000.0), debito, "Nomina", None).unwrap();
    add_expense(&mut be, "2026-08-02", c(300.0), debito, "Alimentos", None, None).unwrap();
    let balances = be.list_accounts(false).unwrap();
    assert_eq!(balances[0].balance, b(700.0));
}

#[test]
fn transfer_does_not_change_total_across_two_accounts() {
    let mut be = setup();
    let debito = make_account(&mut be, "debito", "spending");
    let fondo = make_account(&mut be, "fondo", "emergency");
    add_income(&mut be, "2026-08-01", c(1000.0), debito, "Nomina", None).unwrap();
    add_transfer(&mut be, "2026-08-02", c(200.0), debito, fondo, None).unwrap();
    let balances = be.list_accounts(false).unwrap();
    let deb = balances.iter().find(|a| a.id == debito).unwrap().balance;
    let fon = balances.iter().find(|a| a.id == fondo).unwrap().balance;
    assert_eq!(deb, b(800.0));
    assert_eq!(fon, b(200.0));
}

#[test]
fn emergency_withdrawal_over_balance_is_rejected() {
    let mut be = setup();
    let debito = make_account(&mut be, "debito", "spending");
    let fondo = make_account(&mut be, "fondo", "emergency");
    add_opening(&mut be, "2026-08-01", c(100.0), fondo).unwrap();
    let err = add_transfer(&mut be, "2026-08-02", c(500.0), fondo, debito, None);
    assert!(err.is_err());
}

#[test]
fn self_transfer_is_rejected() {
    let mut be = setup();
    let debito = make_account(&mut be, "debito", "spending");
    add_income(&mut be, "2026-08-01", c(100.0), debito, "Nomina", None).unwrap();
    let err = add_transfer(&mut be, "2026-08-02", c(50.0), debito, debito, None);
    assert!(err.is_err());
}

#[test]
fn credit_charge_over_limit_is_rejected() {
    let mut be = setup();
    let tdc = be.insert_account(&NewAccount::credit("tdc", Some(c(1000.0)))).unwrap();
    let err = add_expense(&mut be, "2026-08-02", c(1500.0), tdc, "Discrecional", None, None);
    assert!(err.is_err());
    // under the limit still works
    add_expense(&mut be, "2026-08-03", c(500.0), tdc, "Discrecional", None, None).unwrap();
}

#[test]
fn credit_card_charge_and_payment_net_to_zero() {
    let mut be = setup();
    let debito = make_account(&mut be, "debito", "spending");
    let tdc = make_account(&mut be, "tdc", "credit");
    add_income(&mut be, "2026-08-01", c(5000.0), debito, "Nomina", None).unwrap();
    add_expense(&mut be, "2026-08-12", c(1800.0), tdc, "Discrecional", None, None).unwrap();
    add_transfer(&mut be, "2026-09-05", c(1800.0), debito, tdc, None).unwrap();

    let balances = be.list_accounts(false).unwrap();
    let tdc_balance = balances.iter().find(|a| a.id == tdc).unwrap().balance;
    assert_eq!(tdc_balance, 0);

    // no double counting: total expense across both months is 1800, not 3600
    let total_expense: i64 = be
        .entries(&EntryFilter::default())
        .unwrap()
        .iter()
        .filter(|e| e.kind == EntryKind::Expense)
        .map(|e| e.amount)
        .sum();
    assert_eq!(total_expense, c(1800.0));
}

#[test]
fn opening_is_excluded_from_income_totals() {
    let mut be = setup();
    let debito = make_account(&mut be, "debito", "spending");
    add_opening(&mut be, "2026-08-01", c(5000.0), debito).unwrap();
    let all = be.entries(&EntryFilter::default()).unwrap();
    let income_total: i64 = all
        .iter()
        .filter(|e| e.kind == EntryKind::Income)
        .map(|e| e.amount)
        .sum();
    assert_eq!(income_total, 0);
    let balance = be.get_account(debito).unwrap().balance;
    assert_eq!(balance, b(5000.0));
}

#[test]
fn emergency_split_skipped_for_restricted_account() {
    let mut be = setup();
    let vales = be.insert_account(&NewAccount::spending("vales").restricted()).unwrap();
    let fondo = make_account(&mut be, "fondo", "emergency");

    let result = add_income_with_emergency_split(
        &mut be,
        "2026-08-01",
        c(2400.0),
        vales,
        "Vales de Despensa",
        None,
        true,
    )
    .unwrap();
    assert!(result.emergency.is_none());
    assert_eq!(be.get_account(fondo).unwrap().balance, 0);
}

#[test]
fn emergency_split_applies_for_liquid_account() {
    let mut be = setup();
    let debito = make_account(&mut be, "debito", "spending");
    let fondo = make_account(&mut be, "fondo", "emergency");

    let result =
        add_income_with_emergency_split(&mut be, "2026-08-01", c(24000.0), debito, "Nomina", None, true)
            .unwrap();
    assert_eq!(result.emergency, Some(("fondo".to_string(), c(2400.0))));
    assert_eq!(be.get_account(fondo).unwrap().balance, b(2400.0));
}

#[test]
fn emergency_split_uses_configured_percentage() {
    let mut be = setup();
    let debito = make_account(&mut be, "debito", "spending");
    make_account(&mut be, "fondo", "emergency");
    be.set_config("emergency_pct", "12.5").unwrap();
    let result =
        add_income_with_emergency_split(&mut be, "2026-08-01", c(1000.0), debito, "Nomina", None, true)
            .unwrap();
    assert_eq!(result.emergency, Some(("fondo".to_string(), c(125.0))));
    assert_eq!(be.get_account(debito).unwrap().balance, b(875.0));
}

#[test]
fn update_changes_amount_and_account_for_an_expense() {
    let mut be = setup();
    let debito = make_account(&mut be, "debito", "spending");
    let vales = make_account(&mut be, "vales", "spending");
    let id = add_expense(&mut be, "2026-08-01", c(210.0), debito, "Alimentos", None, None).unwrap();

    let updated = update(
        &mut be,
        id,
        &EntryUpdate {
            amount: Some(c(177.0)),
            from_account_id: Some(vales),
            ..Default::default()
        },
    )
    .unwrap();
    assert_eq!(updated.amount, c(177.0));
    assert_eq!(updated.from_account_id, Some(vales));

    let debito_balance = be.get_account(debito).unwrap().balance;
    let vales_balance = be.get_account(vales).unwrap().balance;
    assert_eq!(debito_balance, 0);
    assert_eq!(vales_balance, b(-177.0));
}

#[test]
fn update_rejects_setting_the_wrong_side_for_the_kind() {
    let mut be = setup();
    let debito = make_account(&mut be, "debito", "spending");
    let id = add_expense(&mut be, "2026-08-01", c(210.0), debito, "Alimentos", None, None).unwrap();

    let err = update(
        &mut be,
        id,
        &EntryUpdate {
            to_account_id: Some(debito),
            ..Default::default()
        },
    );
    assert!(err.is_err());
}

#[test]
fn update_rejects_turning_a_transfer_into_a_self_transfer() {
    let mut be = setup();
    let debito = make_account(&mut be, "debito", "spending");
    let fondo = make_account(&mut be, "fondo", "emergency");
    add_income(&mut be, "2026-08-01", c(1000.0), debito, "Nomina", None).unwrap();
    let id = add_transfer(&mut be, "2026-08-02", c(200.0), debito, fondo, None).unwrap();

    let err = update(
        &mut be,
        id,
        &EntryUpdate {
            to_account_id: Some(debito),
            ..Default::default()
        },
    );
    assert!(err.is_err());
}

#[test]
fn update_on_missing_entry_is_not_found() {
    let mut be = setup();
    let err = update(&mut be, 999, &EntryUpdate::default());
    assert!(matches!(err, Err(AppError::NotFound(_))));
}

#[test]
fn expense_with_malformed_date_is_invalid() {
    let mut be = setup();
    let debito = make_account(&mut be, "debito", "spending");
    let r = add_expense(&mut be, "2026-8-1", c(10.0), debito, "Alimentos", None, None);
    assert!(matches!(r, Err(AppError::Invalid(_))));
    let r = add_expense(&mut be, "2026-08-01", 0, debito, "Alimentos", None, None);
    assert!(matches!(r, Err(AppError::Invalid(_))));
}

// ---- reports ----

#[test]
fn credit_cycle_across_two_months_does_not_double_count() {
    let mut be = setup();
    let debito = create_account(&mut be, &NewAccount::spending("debito")).unwrap();
    let tdc = create_account(&mut be, &NewAccount::credit("tdc", Some(c(30000.0)))).unwrap();
    add_income(&mut be, "2026-08-01", c(10000.0), debito, "Nomina", None).unwrap();
    add_expense(&mut be, "2026-08-12", c(1800.0), tdc, "Discrecional", None, None).unwrap();
    add_transfer(&mut be, "2026-09-05", c(1800.0), debito, tdc, None).unwrap();

    let august = monthly_report(&be, &Period::parse("2026-08").unwrap()).unwrap();
    assert_eq!(august.total_expense, b(1800.0));
    assert_eq!(august.cash_out, 0);
    assert_eq!(august.on_credit, b(1800.0));

    let september = monthly_report(&be, &Period::parse("2026-09").unwrap()).unwrap();
    assert_eq!(september.total_expense, 0);
    assert_eq!(september.cash_out, b(1800.0));
}

#[test]
fn expense_from_savings_is_flagged_and_not_cash_out() {
    let mut be = setup();
    let fondo = create_account(&mut be, &NewAccount::emergency("fondo")).unwrap();
    add_opening(&mut be, "2026-08-01", c(35000.0), fondo).unwrap();
    add_expense(&mut be, "2026-08-19", c(4200.0), fondo, "Servicios", None, None).unwrap();

    let report = monthly_report(&be, &Period::parse("2026-08").unwrap()).unwrap();
    assert_eq!(report.total_expense, b(4200.0));
    assert_eq!(report.from_savings, b(4200.0));
    assert_eq!(report.cash_out, 0);
}

#[test]
fn transfer_between_spending_accounts_does_not_affect_expense() {
    let mut be = setup();
    let debito = create_account(&mut be, &NewAccount::spending("debito")).unwrap();
    let efectivo = create_account(&mut be, &NewAccount::spending("efectivo")).unwrap();
    add_income(&mut be, "2026-08-01", c(5000.0), debito, "Nomina", None).unwrap();
    add_transfer(&mut be, "2026-08-02", c(1000.0), debito, efectivo, None).unwrap();

    let report = monthly_report(&be, &Period::parse("2026-08").unwrap()).unwrap();
    assert_eq!(report.total_expense, 0);
    assert_eq!(report.cash_out, 0);
}

#[test]
fn net_worth_partitions_by_kind() {
    let mut be = setup();
    let debito = create_account(&mut be, &NewAccount::spending("debito")).unwrap();
    let fondo = create_account(&mut be, &NewAccount::emergency("fondo")).unwrap();
    let tdc = create_account(&mut be, &NewAccount::credit("tdc", Some(c(30000.0)))).unwrap();
    add_income(&mut be, "2026-08-01", c(10000.0), debito, "Nomina", None).unwrap();
    add_opening(&mut be, "2026-08-01", c(5000.0), fondo).unwrap();
    add_expense(&mut be, "2026-08-02", c(1200.0), tdc, "Discrecional", None, None).unwrap();

    let nw = net_worth(&be, None).unwrap();
    assert_eq!(nw.cash_on_hand, b(10000.0));
    assert_eq!(nw.savings, b(5000.0));
    assert_eq!(nw.credit_debt, b(1200.0));
    assert_eq!(nw.net, b(10000.0) + b(5000.0) - b(1200.0));
}

#[test]
fn budget_vs_actual_join() {
    let mut be = setup();
    let debito = create_account(&mut be, &NewAccount::spending("debito")).unwrap();
    add_income(&mut be, "2026-08-01", c(5000.0), debito, "Nomina", None).unwrap();
    add_expense(&mut be, "2026-08-05", c(2000.0), debito, "Alimentos", None, None).unwrap();
    be.set_budget("Alimentos", c(2500.0), "2026-08").unwrap();

    let report = monthly_report(&be, &Period::parse("2026-08").unwrap()).unwrap();
    assert_eq!(report.budgets.len(), 1);
    assert_eq!(report.budgets[0].actual, b(2000.0));
    assert_eq!(report.budgets[0].pct, 8000);
}

#[test]
fn net_worth_as_of_a_date_ignores_later_entries() {
    let mut be = setup();
    let debito = create_account(&mut be, &NewAccount::spending("debito")).unwrap();
    add_income(&mut be, "2026-08-01", c(100.0), debito, "Nomina", None).unwrap();
    add_income(&mut be, "2026-08-20", c(50.0), debito, "Nomina", None).unwrap();
    let nw = net_worth(&be, Some("2026-08-10")).unwrap();
    assert_eq!(nw.cash_on_hand, b(100.0));
    assert_eq!(account_service::balance_as_of(&be, debito, "2026-08-31").unwrap(), b(150.0));
}

// ---- setup ----

#[test]
fn seed_does_not_count_as_income() {
    let mut be = setup();
    account_service::create_account(&mut be, &NewAccount::spending("efectivo")).unwrap();
    account_service::create_account(&mut be, &NewAccount::emergency("fondo")).unwrap();

    assert!(!is_seeded(&be).unwrap());

    seed(
        &mut be,
        &SeedOptions {
            accounts: vec![("efectivo".into(), c(1000.0)), ("fondo".into(), c(35000.0))],
            date: "2026-08-01".into(),
        },
    )
    .unwrap();

    assert!(is_seeded(&be).unwrap());

    let period = Period::parse("2026-08").unwrap();
    let report = monthly_report(&be, &period).unwrap();
    assert_eq!(report.total_income, 0);

    let efectivo = account_service::require_by_name(&be, "efectivo").unwrap();
    assert_eq!(efectivo.balance, b(1000.0));
}

#[test]
fn seed_without_balances_is_invalid() {
    let mut be = setup();
    let r = seed(&mut be, &SeedOptions { accounts: vec![], date: "2026-08-01".into() });
    assert!(matches!(r, Err(AppError::Invalid(_))));
}

#[test]
fn emergency_split_writes_income_and_transfer_rows() {
    let mut be = setup();
    let debito = make_account(&mut be, "debito", "spending");
    let fondo = make_account(&mut be, "fondo", "emergency");

    let result = add_income_with_emergency_split(
        &mut be,
        "2026-08-03",
        c(1000.0),
        debito,
        "Nomina",
        Some("quincena"),
        true,
    )
    .unwrap();
    let entries = be.entries(&EntryFilter::default()).unwrap();
    assert_eq!(entries.len(), 2);
    let income = entries.iter().find(|e| e.id == result.entry_id).unwrap();
    assert_eq!(income.kind, EntryKind::Income);
    assert_eq!(income.date, "2026-08-03");
    assert_eq!(income.amount, c(1000.0));
    assert_eq!(income.to_account_id, Some(debito));
    assert_eq!(income.concept.as_deref(), Some("Nomina"));
    assert_eq!(income.description.as_deref(), Some("quincena"));
    let transfer = entries.iter().find(|e| e.id == result.entry_id + 1).unwrap();
    assert_eq!(transfer.kind, EntryKind::Transfer);
    assert_eq!(transfer.date, "2026-08-03");
    assert_eq!(transfer.amount, c(100.0));
    assert_eq!(transfer.from_account_id, Some(debito));
    assert_eq!(transfer.to_account_id, Some(fondo));
    assert_eq!(transfer.concept, None);
}

#[test]
fn seed_books_opening_entries() {
    let mut be = setup();
    let efectivo = make_account(&mut be, "efectivo", "spending");
    make_account(&mut be, "fondo", "emergency");
    let summary = seed(
        &mut be,
        &SeedOptions {
            accounts: vec![("efectivo".into(), c(50.0)), ("fondo".into(), 0)],
            date: "2026-08-01".into(),
        },
    )
    .unwrap();
    assert_eq!(summary.seeded, vec![("efectivo".to_string(), c(50.0))]);
    let entries = be.entries(&EntryFilter::default()).unwrap();
    assert_eq!(entries.len(), 1);
    assert_eq!(entries[0].kind, EntryKind::Opening);
    assert_eq!(entries[0].date, "2026-08-01");
    assert_eq!(entries[0].to_account_id, Some(efectivo));
    assert_eq!(entries[0].description.as_deref(), Some("Saldo inicial"));
    assert_eq!(entries[0].concept, None);
    let report = monthly_report(&be, &Period::parse("2026-08").unwrap()).unwrap();
    assert_eq!(report.total_income, 0);
}
