use money_core::error::AppError;
use money_core::models::{EntryFilter, EntryKind, NewAccount, NewEntry};
use money_core::period::Period;
use money_core::settings::Settings;
use money_core::storage::memory::MemoryBackend;
use money_core::storage::remote::{entries_query, postgrest_error};
use money_core::storage::schema::{schema_step, SchemaStep, SCHEMA_VERSION};
use money_core::storage::LedgerDelta;
use money_core::sync::{
    absorb_pull, backend_mode, migrate_local_to_remote, migration_batch, migration_start,
    migration_step, mirror_warning, BackendMode, MigrationAction, MigrationEvent,
};

fn pairs(q: &[(String, String)]) -> Vec<(&str, &str)> {
    q.iter().map(|(k, v)| (k.as_str(), v.as_str())).collect()
}

#[test]
fn refused_requests_map_to_errors() {
    match postgrest_error("409 Conflict", r#"{"code":"23505","message":"dup key"}"#) {
        AppError::Invalid(m) => assert_eq!(m, "Duplicate record: dup key"),
        other => panic!("unexpected {other:?}"),
    }
    match postgrest_error("400 Bad Request", r#"{"code":"23514","message":"overdraft"}"#) {
        AppError::Invalid(m) => assert_eq!(m, "overdraft"),
        other => panic!("unexpected {other:?}"),
    }
    match postgrest_error("403 Forbidden", r#"{"code":"42501","message":"rls"}"#) {
        AppError::Auth(m) => assert_eq!(m, "Permission denied: rls"),
        other => panic!("unexpected {other:?}"),
    }
    match postgrest_error("404 Not Found", r#"{"code":"42P01","message":"no table"}"#) {
        AppError::Remote(m) => assert_eq!(m, "Schema not migrated on Supabase (42P01): no table"),
        other => panic!("unexpected {other:?}"),
    }
    assert!(matches!(
        postgrest_error("406 Not Acceptable", r#"{"code":"PGRST116","message":"x"}"#),
        AppError::NotFound(_)
    ));
    match postgrest_error("500 Internal Server Error", r#"{"code":"XX000"}"#) {
        AppError::Remote(m) => assert_eq!(m, "XX000: "),
        other => panic!("unexpected {other:?}"),
    }
    match postgrest_error("500 Internal Server Error", r#"{"message":"boom"}"#) {
        AppError::Remote(m) => assert_eq!(m, "boom"),
        other => panic!("unexpected {other:?}"),
    }
    match postgrest_error("502 Bad Gateway", "not json") {
        AppError::Remote(m) => assert_eq!(m, "HTTP 502 Bad Gateway: not json"),
        other => panic!("unexpected {other:?}"),
    }
}

#[test]
fn listing_query_parameters() {
    let f = EntryFilter {
        period: Some(Period::parse("2026-12").unwrap()),
        up_to_date: Some("2026-12-20".into()),
        kind: Some(EntryKind::Expense),
        concept: Some("Alimentos".into()),
        account_id: Some(7),
        limit: Some(20),
    };
    let q = entries_query(&f);
    assert_eq!(
        pairs(&q),
        vec![
            ("select", "*"),
            ("or", "(date.gte.2026-12-01,date.lt.2027-01-01)"),
            ("date", "lte.2026-12-20"),
            ("kind", "eq.expense"),
            ("concept", "eq.Alimentos"),
            ("or", "(from_account_id.eq.7,to_account_id.eq.7)"),
            ("order", "date.desc,id.desc"),
            ("limit", "20"),
        ]
    );
    let q = entries_query(&EntryFilter::default());
    assert_eq!(pairs(&q), vec![("select", "*"), ("order", "date.desc,id.desc")]);
}

#[test]
fn opening_a_file_by_version() {
    assert_eq!(SCHEMA_VERSION, 2);
    assert!(matches!(schema_step(2, true, "/d.db"), Ok(SchemaStep::Ready)));
    assert!(matches!(schema_step(0, false, "/d.db"), Ok(SchemaStep::Create)));
    assert!(matches!(schema_step(1, false, "/d.db"), Ok(SchemaStep::UpgradeFromV1)));
    match schema_step(0, true, "/d.db") {
        Err(AppError::LegacySchema { path }) => assert_eq!(path, "/d.db"),
        other => panic!("unexpected {other:?}"),
    }
    assert!(matches!(
        schema_step(3, false, "/d.db"),
        Err(AppError::SchemaTooNew { found: 3, expected: 2 })
    ));
    assert!(matches!(schema_step(-1, false, "/d.db"), Err(AppError::SchemaTooOld { found: -1 })));
}

#[test]
fn store_choice_follows_settings() {
    assert!(matches!(backend_mode(&Settings::default()), Ok(BackendMode::Local)));
    let half = Settings { supabase_url: Some("https://x".into()), supabase_publishable_key: None };
    assert!(matches!(backend_mode(&half), Err(AppError::Config(_))));
    let full = Settings {
        supabase_url: Some("https://x".into()),
        supabase_publishable_key: Some("k".into()),
    };
    match backend_mode(&full) {
        Ok(BackendMode::Remote { url, key }) => {
            assert_eq!(url, "https://x");
            assert_eq!(key, "k");
        }
        other => panic!("unexpected {other:?}"),
    }
}

#[test]
fn pulls_are_absorbed_best_effort() {
    let mut mirror = MemoryBackend::open_memory().unwrap();
    let w = absorb_pull(&mut mirror, Err(AppError::Network("timeout".into())));
    assert_eq!(w.as_deref(), Some("Mirror behind: Network error: timeout"));
    assert_eq!(mirror.sync_cursor().unwrap(), 0);

    let w = absorb_pull(&mut mirror, Ok(LedgerDelta { cursor: 4, ..Default::default() }));
    assert!(w.is_none());
    assert_eq!(mirror.sync_cursor().unwrap(), 0);

    let bad = LedgerDelta { cursor: 4, deletes: vec![("nope".into(), 1)], ..Default::default() };
    let w = absorb_pull(&mut mirror, Ok(bad));
    assert!(w.unwrap().starts_with("Mirror behind: "));
    assert_eq!(mirror.sync_cursor().unwrap(), 0);

    let good = LedgerDelta { cursor: 4, deletes: vec![("budgets".into(), 1)], ..Default::default() };
    assert!(absorb_pull(&mut mirror, Ok(good)).is_none());
    assert_eq!(mirror.sync_cursor().unwrap(), 4);
    assert_eq!(mirror_warning(&AppError::Auth("x".into())), "Mirror behind: Auth error: x");
}

#[test]
fn migration_replays_the_ledger_on_the_target() {
    let mut local = MemoryBackend::open_memory().unwrap();
    let debito = local.insert_account(&NewAccount::spending("debito")).unwrap();
    let fondo = local.insert_account(&NewAccount::emergency("fondo")).unwrap();
    local
        .push_entries(&[
            NewEntry::income("2026-08-01", 100_000, debito, "Nomina").unwrap(),
            NewEntry::transfer("2026-08-02", 20_000, debito, fondo).unwrap(),
            NewEntry::expense("2026-08-03", 5_000, fondo, "Servicios").unwrap(),
        ])
        .unwrap();
    local.set_budget("Alimentos", 250_000, "2026-08").unwrap();

    let mut remote = MemoryBackend::open_memory().unwrap();
    // The target already knows "fondo" under another id.
    remote.insert_account(&NewAccount::spending("otra")).unwrap();
    remote.insert_account(&NewAccount::emergency("fondo")).unwrap();

    let summary = migrate_local_to_remote(&local, &mut remote).unwrap();
    assert_eq!(summary.accounts, 2);
    assert_eq!(summary.entries, 3);
    assert_eq!(summary.budgets, 1);

    let remote_fondo = remote.find_account_by_name("fondo").unwrap().unwrap();
    let remote_debito = remote.find_account_by_name("debito").unwrap().unwrap();
    assert_eq!(remote.get_account(remote_fondo.id).unwrap().balance, 15_000);
    assert_eq!(remote.get_account(remote_debito.id).unwrap().balance, 80_000);
    assert_eq!(remote.list_budgets(Some("2026-08")).unwrap().len(), 1);
}

#[test]
fn migration_batch_needs_every_account_mapped() {
    let mut local = MemoryBackend::open_memory().unwrap();
    let debito = local.insert_account(&NewAccount::spending("debito")).unwrap();
    local
        .push_entries(&[NewEntry::income("2026-08-01", 100, debito, "Nomina").unwrap()])
        .unwrap();
    let entries = local.entries(&EntryFilter::default()).unwrap();
    let batch = migration_batch(&entries, &vec![(debito, 40)]).unwrap();
    assert_eq!(batch[0].to_account_id, Some(40));
    match migration_batch(&entries, &vec![]) {
        Err(AppError::Invalid(m)) => assert!(m.starts_with("account mapping lost for entry #")),
        other => panic!("unexpected {other:?}"),
    }
}

fn answer<T>(r: Result<T, AppError>) -> MigrationEvent {
    match r {
        Ok(_) => MigrationEvent::Done,
        Err(e) => MigrationEvent::Refused(e),
    }
}

#[test]
fn migration_steps_replay_the_ledger_on_the_target() {
    let mut local = MemoryBackend::open_memory().unwrap();
    let debito = local.insert_account(&NewAccount::spending("debito")).unwrap();
    let fondo = local.insert_account(&NewAccount::emergency("fondo")).unwrap();
    let mut rows = Vec::new();
    for day in 1..=28 {
        rows.push(NewEntry::income(&format!("2026-08-{day:02}"), 10_000, debito, "Nomina").unwrap());
        rows.push(NewEntry::transfer(&format!("2026-08-{day:02}"), 1_000, debito, fondo).unwrap());
    }
    local.push_entries(&rows).unwrap();
    local.set_budget("Alimentos", 250_000, "2026-08").unwrap();
    local.set_archived(fondo).unwrap();

    let snapshot = MemoryBackend::open_memory().unwrap();
    let mut target = MemoryBackend::open_memory().unwrap();
    let mut state = migration_start();
    let mut event = MigrationEvent::Begin;
    let mut pushes = Vec::new();
    let summary = loop {
        let (next, action) = migration_step(&local, &snapshot, state, event);
        state = next;
        event = match action {
            MigrationAction::AddConcept { name, concept_type } => {
                answer(target.add_concept(&name, &concept_type))
            }
            MigrationAction::InsertAccount(new) => match target.insert_account(&new) {
                Ok(id) => MigrationEvent::Created(id),
                Err(e) => MigrationEvent::Refused(e),
            },
            MigrationAction::SetArchived(id) => answer(target.set_archived(id)),
            MigrationAction::PushEntries(batch) => {
                pushes.push(batch.len());
                answer(target.push_entries(&batch))
            }
            MigrationAction::SetBudget { concept, limit, period } => {
                answer(target.set_budget(&concept, limit, &period))
            }
            MigrationAction::SetConfig { key, value } => answer(target.set_config(&key, &value)),
            MigrationAction::Nothing => MigrationEvent::Done,
            MigrationAction::Finish(summary) => break summary,
            MigrationAction::Fail(e) => panic!("migration failed: {e:?}"),
        };
    };
    assert_eq!(summary.accounts, 2);
    assert_eq!(summary.entries, 56);
    assert_eq!(summary.budgets, 1);
    assert_eq!(pushes, vec![50, 6]);
    let d = target.find_account_by_name("debito").unwrap().unwrap();
    let f = target.find_account_by_name("fondo").unwrap().unwrap();
    assert_eq!(target.get_account(d.id).unwrap().balance, 28 * 9_000);
    assert_eq!(target.get_account(f.id).unwrap().balance, 28 * 1_000);
    assert!(f.archived);
    assert_eq!(target.list_budgets(Some("2026-08")).unwrap().len(), 1);
    let first = target.entries(&EntryFilter::default()).unwrap();
    assert_eq!(first.last().unwrap().date, "2026-08-01");
}

#[test]
fn migration_step_stops_on_a_refusal() {
    let local = MemoryBackend::open_memory().unwrap();
    let snapshot = MemoryBackend::open_memory().unwrap();
    let (state, _) = migration_step(&local, &snapshot, migration_start(), MigrationEvent::Begin);
    let (_, action) =
        migration_step(&local, &snapshot, state, MigrationEvent::Refused(AppError::Remote("down".into())));
    assert!(matches!(action, MigrationAction::Fail(AppError::Remote(_))));
}

#[test]
fn migration_of_accounts_and_budgets_is_owed_success() {
    let mut local = MemoryBackend::open_memory().unwrap();
    local.insert_account(&NewAccount::spending("debito")).unwrap();
    let fondo = local.insert_account(&NewAccount::emergency("fondo")).unwrap();
    local.set_archived(fondo).unwrap();
    local.set_budget("Alimentos", 250_000, "2026-08").unwrap();
    let mut remote = MemoryBackend::open_memory().unwrap();
    let summary = migrate_local_to_remote(&local, &mut remote).unwrap();
    assert_eq!(summary.accounts, 2);
    assert_eq!(summary.entries, 0);
    assert_eq!(summary.budgets, 1);
    assert!(remote.find_account_by_name("fondo").unwrap().unwrap().archived);
    assert!(!remote.find_account_by_name("debito").unwrap().unwrap().archived);
}

#[test]
fn migration_fails_when_the_target_refuses_the_replay() {
    let mut local = MemoryBackend::open_memory().unwrap();
    let caja = local.insert_account(&NewAccount::spending("caja")).unwrap();
    local
        .push_entries(&[NewEntry::expense("2026-08-03", 5_000, caja, "Servicios").unwrap()])
        .unwrap();

    // On the target "caja" is a savings account, which cannot go below zero.
    let mut remote = MemoryBackend::open_memory().unwrap();
    remote.insert_account(&NewAccount::emergency("caja")).unwrap();

    match migrate_local_to_remote(&local, &mut remote) {
        Err(AppError::Invalid(m)) => assert!(m.contains("Insufficient balance")),
        other => panic!("unexpected {other:?}"),
    }
    assert!(remote.entries(&EntryFilter::default()).unwrap().is_empty());
}
