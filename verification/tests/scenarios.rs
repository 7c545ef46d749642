//! End-to-end scenarios through the library's public API.
use money_core::models::{EntryFilter, EntryKind, NewAccount};
use money_core::period::Period;
use money_core::services::setup_service::SeedOptions;
use money_core::services::{account_service, entry_service, report_service, setup_service};
use money_core::storage::memory::MemoryBackend;

fn c(x: f64) -> i64 {
    (x * 100.0).round() as i64
}

fn b(x: f64) -> i128 {
    c(x) as i128
}

fn fresh_db() -> MemoryBackend {
    MemoryBackend::open_memory().unwrap()
}

#[test]
fn seed_then_report_shows_zero_income() {
    let mut be = fresh_db();
    account_service::create_account(&mut be, &NewAccount::spending("efectivo")).unwrap();
    account_service::create_account(&mut be, &NewAccount::emergency("Fondo de emergencia")).unwrap();

    assert!(!setup_service::is_seeded(&be).unwrap());
    setup_service::seed(
        &mut be,
        &SeedOptions {
            accounts: vec![
                ("efectivo".into(), c(1000.0)),
                ("Fondo de emergencia".into(), c(35000.0)),
            ],
            date: "2026-08-01".into(),
        },
    )
    .unwrap();
    assert!(setup_service::is_seeded(&be).unwrap());

    let report = report_service::monthly_report(&be, &Period::parse("2026-08").unwrap()).unwrap();
    assert_eq!(report.total_income, 0);

    let nw = report_service::net_worth(&be, None).unwrap();
    assert_eq!(nw.cash_on_hand, b(1000.0));
    assert_eq!(nw.savings, b(35000.0));
}

#[test]
fn op_a_register_expense() {
    let mut be = fresh_db();
    let efectivo = account_service::create_account(&mut be, &NewAccount::spending("efectivo")).unwrap();
    entry_service::add_income(&mut be, "2026-08-01", c(1000.0), efectivo, "Nomina", None).unwrap();

    entry_service::add_expense(&mut be, "2026-08-03", c(350.0), efectivo, "Alimentos", None, None)
        .unwrap();

    let account = account_service::get_account(&be, efectivo).unwrap();
    assert_eq!(account.balance, b(650.0));
    let report = report_service::monthly_report(&be, &Period::parse("2026-08").unwrap()).unwrap();
    assert_eq!(report.total_expense, b(350.0));
}

#[test]
fn op_b_register_income_with_emergency_split_and_restricted_account() {
    let mut be = fresh_db();
    let debito = account_service::create_account(&mut be, &NewAccount::spending("debito")).unwrap();
    let vales =
        account_service::create_account(&mut be, &NewAccount::spending("vales").restricted()).unwrap();
    let fondo =
        account_service::create_account(&mut be, &NewAccount::emergency("Fondo de emergencia"))
            .unwrap();

    let result = entry_service::add_income_with_emergency_split(
        &mut be,
        "2026-08-05",
        c(24000.0),
        debito,
        "Nomina",
        None,
        true,
    )
    .unwrap();
    assert_eq!(result.emergency.as_ref().unwrap().1, c(2400.0));

    let result2 = entry_service::add_income_with_emergency_split(
        &mut be,
        "2026-08-05",
        c(2400.0),
        vales,
        "Vales de Despensa",
        None,
        true,
    )
    .unwrap();
    assert!(result2.emergency.is_none());

    let fondo_balance = account_service::get_account(&be, fondo).unwrap().balance;
    assert_eq!(fondo_balance, b(2400.0)); // only from the debito income, not vales
}

#[test]
fn op_c_bucket_deposit_is_not_an_expense() {
    let mut be = fresh_db();
    let debito = account_service::create_account(&mut be, &NewAccount::spending("debito")).unwrap();
    let vacaciones = account_service::create_account(
        &mut be,
        &NewAccount::target("Vacaciones", Some(c(50000.0))).unwrap(),
    )
    .unwrap();
    entry_service::add_income(&mut be, "2026-08-01", c(5000.0), debito, "Nomina", None).unwrap();

    entry_service::add_transfer(&mut be, "2026-08-02", c(2000.0), debito, vacaciones, None).unwrap();

    let report = report_service::monthly_report(&be, &Period::parse("2026-08").unwrap()).unwrap();
    assert_eq!(report.total_expense, 0);
    let vacaciones_balance = account_service::get_account(&be, vacaciones).unwrap();
    assert_eq!(vacaciones_balance.balance, b(2000.0));
    // 4% in hundredths of a percent
    assert_eq!(vacaciones_balance.progress_pct(), Some(400));
}

#[test]
fn op_d_expense_direct_from_emergency_bucket() {
    let mut be = fresh_db();
    let fondo =
        account_service::create_account(&mut be, &NewAccount::emergency("Fondo de emergencia"))
            .unwrap();
    setup_service::seed(
        &mut be,
        &SeedOptions {
            accounts: vec![("Fondo de emergencia".into(), c(35000.0))],
            date: "2026-08-01".into(),
        },
    )
    .unwrap();

    entry_service::add_expense(&mut be, "2026-08-19", c(4200.0), fondo, "Servicios", None, None)
        .unwrap();

    let report = report_service::monthly_report(&be, &Period::parse("2026-08").unwrap()).unwrap();
    assert_eq!(report.total_expense, b(4200.0));
    assert_eq!(report.from_savings, b(4200.0));
    assert_eq!(report.cash_out, 0);

    let fondo_balance = account_service::get_account(&be, fondo).unwrap().balance;
    assert_eq!(fondo_balance, b(30800.0));
}

#[test]
fn op_e_budget_is_informative_only() {
    let mut be = fresh_db();
    let efectivo = account_service::create_account(&mut be, &NewAccount::spending("efectivo")).unwrap();
    entry_service::add_income(&mut be, "2026-08-01", c(5000.0), efectivo, "Nomina", None).unwrap();
    be.set_budget("Alimentos", c(2500.0), "2026-08").unwrap();

    // exceeds budget, must still succeed
    entry_service::add_expense(&mut be, "2026-08-05", c(3000.0), efectivo, "Alimentos", None, None)
        .unwrap();

    let report = report_service::monthly_report(&be, &Period::parse("2026-08").unwrap()).unwrap();
    let budget = &report.budgets[0];
    assert_eq!(budget.actual, b(3000.0));
    // over 100%, in hundredths of a percent
    assert!(budget.pct > 10000);
}

#[test]
fn cash_envelope_transfer_then_reconcile() {
    let mut be = fresh_db();
    let debito = account_service::create_account(&mut be, &NewAccount::spending("debito")).unwrap();
    let efectivo = account_service::create_account(&mut be, &NewAccount::spending("efectivo")).unwrap();
    entry_service::add_income(&mut be, "2026-08-01", c(18000.0), debito, "Nomina", None).unwrap();

    entry_service::add_transfer(&mut be, "2026-08-01", c(1000.0), debito, efectivo, None).unwrap();
    let report = report_service::monthly_report(&be, &Period::parse("2026-08").unwrap()).unwrap();
    assert_eq!(report.total_expense, 0); // the envelope withdrawal is not an expense

    let result =
        account_service::reconcile_account(&mut be, efectivo, c(150.0), "Discrecional", "2026-08-31")
            .unwrap();
    assert_eq!(result.diff, b(850.0));

    let efectivo_balance = account_service::get_account(&be, efectivo).unwrap().balance;
    assert_eq!(efectivo_balance, b(150.0));
    let report = report_service::monthly_report(&be, &Period::parse("2026-08").unwrap()).unwrap();
    assert_eq!(report.total_expense, b(850.0));
}

#[test]
fn credit_card_cycle_across_two_months() {
    let mut be = fresh_db();
    let debito = account_service::create_account(&mut be, &NewAccount::spending("debito")).unwrap();
    let tdc =
        account_service::create_account(&mut be, &NewAccount::credit("tdc", Some(c(30000.0)))).unwrap();
    entry_service::add_income(&mut be, "2026-08-01", c(10000.0), debito, "Nomina", None).unwrap();

    entry_service::add_expense(&mut be, "2026-08-12", c(1800.0), tdc, "Discrecional", None, None)
        .unwrap();
    let august = report_service::monthly_report(&be, &Period::parse("2026-08").unwrap()).unwrap();
    assert_eq!(august.total_expense, b(1800.0));
    assert_eq!(august.cash_out, 0);
    let tdc_balance = account_service::get_account(&be, tdc).unwrap();
    assert_eq!(tdc_balance.debt(), b(1800.0));
    assert_eq!(tdc_balance.available_credit(), Some(b(28200.0)));

    entry_service::add_transfer(&mut be, "2026-09-05", c(1800.0), debito, tdc, None).unwrap();
    let september = report_service::monthly_report(&be, &Period::parse("2026-09").unwrap()).unwrap();
    assert_eq!(september.total_expense, 0);
    assert_eq!(september.cash_out, b(1800.0));

    let discrecional_total: i64 = be
        .entries(&EntryFilter { concept: Some("Discrecional".into()), ..Default::default() })
        .unwrap()
        .iter()
        .filter(|e| e.kind == EntryKind::Expense)
        .map(|e| e.amount)
        .sum();
    assert_eq!(discrecional_total, c(1800.0)); // not 3600 — no double count
}
