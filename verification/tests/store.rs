use money_core::error::AppError;
use money_core::models::{
    Account, AccountKind, Budget, Concept, Config, Entry, EntryFilter, EntryKind, NewAccount,
    NewEntry,
};
use money_core::storage::memory::MemoryBackend;
use money_core::storage::LedgerDelta;

fn c(x: f64) -> i64 {
    (x * 100.0).round() as i64
}

fn backend() -> MemoryBackend {
    MemoryBackend::open_memory().unwrap()
}

fn text_of(e: &AppError) -> String {
    e.message()
}

// ---- constraints a fresh store enforces ----

#[test]
fn schema_creates_cleanly() {
    let _be = backend();
}

#[test]
fn only_one_active_emergency_account() {
    let mut be = backend();
    be.insert_account(&NewAccount::emergency("fondo")).unwrap();
    let err = be.insert_account(&NewAccount::emergency("fondo2")).unwrap_err();
    let msg = text_of(&err);
    assert!(msg.contains("UNIQUE") || msg.contains("constraint"));
}

#[test]
fn target_account_allows_open_ended_bucket() {
    let mut be = backend();
    be.insert_account(&NewAccount::target("patrimonio", None).unwrap()).unwrap();
}

#[test]
fn spending_account_rejects_target_amount() {
    let mut be = backend();
    let err = be
        .insert_account(&NewAccount {
            name: "debito".into(),
            kind: AccountKind::Spending,
            target_amount: Some(c(100.0)),
            credit_limit: None,
            liquid: true,
        })
        .unwrap_err();
    assert!(text_of(&err).to_lowercase().contains("check"));
}

#[test]
fn malformed_date_rejected() {
    let mut be = backend();
    let id = be.insert_account(&NewAccount::spending("efectivo")).unwrap();
    let err = be
        .push_entries(&[NewEntry {
            date: "2026-7-4".into(),
            kind: EntryKind::Expense,
            amount: c(100.0),
            from_account_id: Some(id),
            to_account_id: None,
            concept: Some("Alimentos".into()),
            subconcept: None,
            description: None,
        }])
        .unwrap_err();
    assert!(text_of(&err).to_lowercase().contains("check"));
}

// ---- entries and the mirror ----

#[test]
fn accounts_and_entries_roundtrip() {
    let mut b = backend();
    let id = b.insert_account(&NewAccount::spending("debito")).unwrap();
    let e = NewEntry::income("2026-08-01", c(1000.0), id, "Nomina").unwrap();
    let created = b.push_entries(&[e]).unwrap();
    assert_eq!(created[0].to_account_id, Some(id));
    assert_eq!(b.get_entry(created[0].id).unwrap().amount, c(1000.0));
    let balances = b.list_accounts(false).unwrap();
    assert_eq!(balances[0].balance, c(1000.0) as i128);
}

#[test]
fn push_entries_is_atomic_on_overdraft() {
    let mut b = backend();
    let id = b.insert_account(&NewAccount::emergency("fondo")).unwrap();
    let e = NewEntry::expense("2026-08-01", c(500.0), id, "Servicios").unwrap();
    let err = b.push_entries(&[e]).unwrap_err();
    assert!(text_of(&err).contains("Insufficient balance"));
    let entries = b.entries(&EntryFilter::default()).unwrap();
    assert!(entries.is_empty());
}

#[test]
fn apply_remote_snapshot_respects_remote_rows() {
    let mut mirror = backend();
    let mut delta = LedgerDelta { cursor: 7, ..Default::default() };
    delta.accounts.push(Account {
        id: 1,
        name: "debito remoto".into(),
        kind: AccountKind::Spending,
        target_amount: None,
        credit_limit: None,
        liquid: true,
        archived: false,
    });
    delta.accounts.push(Account {
        id: 2,
        name: "fondo remoto".into(),
        kind: AccountKind::Emergency,
        target_amount: None,
        credit_limit: None,
        liquid: true,
        archived: false,
    });
    delta.entries.push(Entry {
        id: 10,
        date: "2026-08-01".into(),
        kind: EntryKind::Income,
        amount: c(1000.0),
        from_account_id: None,
        to_account_id: Some(1),
        from_account: None,
        to_account: Some("debito remoto".into()),
        concept: Some("Nomina".into()),
        subconcept: None,
        description: None,
    });
    mirror.apply_remote_snapshot(&delta).unwrap();
    assert_eq!(mirror.sync_cursor().unwrap(), 7);
    let balances = mirror.list_accounts(false).unwrap();
    assert_eq!(balances.len(), 2);
    assert_eq!(balances.iter().find(|a| a.id == 1).unwrap().balance, c(1000.0) as i128);

    // Re-applying (new polls, cursor stays) must be idempotent.
    mirror.apply_remote_snapshot(&delta).unwrap();
    assert_eq!(mirror.list_accounts(false).unwrap().len(), 2);
    assert_eq!(mirror.sync_cursor().unwrap(), 7);
}

#[test]
fn apply_remote_snapshot_survives_seeded_concept_id_shuffle() {
    let mut mirror = backend();
    let seeded = mirror.list_concepts(None).unwrap();
    assert!(seeded.len() >= 2, "mirror should arrive seeded");

    // Same names as the seed, ids rotated by one: every row collides on
    // `name` with one local row and on `id` with another.
    let concepts: Vec<Concept> = seeded
        .iter()
        .enumerate()
        .map(|(i, c)| Concept {
            id: seeded[(i + 1) % seeded.len()].id,
            name: c.name.clone(),
            concept_type: c.concept_type.clone(),
        })
        .collect();
    let delta = LedgerDelta { cursor: 16, concepts, ..Default::default() };

    mirror.apply_remote_snapshot(&delta).unwrap();
    assert_eq!(mirror.sync_cursor().unwrap(), 16);

    let after = mirror.list_concepts(None).unwrap();
    assert_eq!(after.len(), seeded.len(), "no concept lost or duplicated");
    for c in &delta.concepts {
        let row = after.iter().find(|r| r.name == c.name).unwrap();
        assert_eq!(row.id, c.id, "mirror must adopt the remote id");
    }
}

#[test]
fn apply_remote_snapshot_survives_account_id_and_emergency_collisions() {
    let mut mirror = backend();
    mirror.insert_account(&NewAccount::spending("debito")).unwrap();
    let local_emergency = mirror
        .insert_account(&NewAccount {
            name: "fondo local".into(),
            kind: AccountKind::Emergency,
            target_amount: None,
            credit_limit: None,
            liquid: true,
        })
        .unwrap();

    let delta = LedgerDelta {
        cursor: 3,
        accounts: vec![
            // Same name as the local row, different id.
            Account {
                id: 900,
                name: "debito".into(),
                kind: AccountKind::Spending,
                target_amount: None,
                credit_limit: None,
                liquid: true,
                archived: false,
            },
            // A differently named active emergency fund.
            Account {
                id: 901,
                name: "fondo remoto".into(),
                kind: AccountKind::Emergency,
                target_amount: None,
                credit_limit: None,
                liquid: true,
                archived: false,
            },
        ],
        ..Default::default()
    };

    mirror.apply_remote_snapshot(&delta).unwrap();
    let after = mirror.list_accounts(true).unwrap();
    assert_eq!(after.len(), 2, "stale local rows evicted, not duplicated");
    assert!(after.iter().any(|a| a.id == 900 && a.name == "debito"));
    assert!(after.iter().any(|a| a.id == 901));
    assert!(
        !after.iter().any(|a| a.id == local_emergency),
        "the superseded local emergency account is gone"
    );
}

#[test]
fn apply_remote_snapshot_refuses_unknown_table_and_changes_nothing() {
    let mut mirror = backend();
    let id = mirror.insert_account(&NewAccount::spending("debito")).unwrap();
    let delta = LedgerDelta {
        cursor: 5,
        deletes: vec![("nonsense".into(), 1)],
        ..Default::default()
    };
    assert!(mirror.apply_remote_snapshot(&delta).is_err());
    assert_eq!(mirror.sync_cursor().unwrap(), 0);
    assert_eq!(mirror.get_account(id).unwrap().name, "debito");
}

#[test]
fn remote_entry_deletion_removes_the_row() {
    let mut mirror = backend();
    let id = mirror.insert_account(&NewAccount::spending("debito")).unwrap();
    let created = mirror
        .push_entries(&[NewEntry::income("2026-08-01", c(10.0), id, "Nomina").unwrap()])
        .unwrap();
    let delta = LedgerDelta {
        cursor: 9,
        deletes: vec![("entries".into(), created[0].id)],
        ..Default::default()
    };
    mirror.apply_remote_snapshot(&delta).unwrap();
    assert!(mirror.get_entry(created[0].id).is_err());
    assert_eq!(mirror.sync_cursor().unwrap(), 9);
    mirror.reset_mirror_cursor().unwrap();
    assert_eq!(mirror.sync_cursor().unwrap(), 0);
}

#[test]
fn entries_are_listed_newest_first_with_names() {
    let mut be = backend();
    let id = be.insert_account(&NewAccount::spending("debito")).unwrap();
    be.push_entries(&[
        NewEntry::income("2026-08-01", c(10.0), id, "Nomina").unwrap(),
        NewEntry::expense("2026-08-03", c(2.0), id, "Alimentos").unwrap(),
    ])
    .unwrap();
    let all = be.entries(&EntryFilter::default()).unwrap();
    assert_eq!(all.len(), 2);
    assert_eq!(all[0].date, "2026-08-03");
    assert_eq!(all[0].from_account.as_deref(), Some("debito"));
    assert_eq!(all[1].to_account.as_deref(), Some("debito"));
    let limited = be.entries(&EntryFilter { limit: Some(1), ..Default::default() }).unwrap();
    assert_eq!(limited.len(), 1);
}

#[test]
fn config_and_budgets_round_trip() {
    let mut be = backend();
    assert_eq!(be.get_config("emergency_pct").unwrap().as_deref(), Some("10"));
    be.set_config("default_account", "debito").unwrap();
    assert_eq!(be.get_config("default_account").unwrap().as_deref(), Some("debito"));
    be.set_budget("Alimentos", c(2500.0), "2026-08").unwrap();
    be.set_budget("Alimentos", c(3000.0), "2026-08").unwrap();
    let budgets = be.list_budgets(Some("2026-08")).unwrap();
    assert_eq!(budgets.len(), 1);
    assert_eq!(budgets[0].monthly_limit, c(3000.0));
    be.delete_budget("Alimentos", "2026-08").unwrap();
    assert!(be.list_budgets(None).unwrap().is_empty());
    assert!(be.set_budget("NoSuchConcept", 100, "2026-08").is_err());
}

#[test]
fn remote_config_rows_are_adopted() {
    let mut mirror = backend();
    let delta = LedgerDelta {
        cursor: 2,
        config: vec![
            Config { key: "emergency_pct".into(), value: "12".into() },
            Config { key: "emergency_pct".into(), value: "15".into() },
            Config { key: "default_account".into(), value: "debito".into() },
        ],
        ..Default::default()
    };
    mirror.apply_remote_snapshot(&delta).unwrap();
    assert_eq!(mirror.get_config("emergency_pct").unwrap().as_deref(), Some("15"));
    assert_eq!(mirror.get_config("default_account").unwrap().as_deref(), Some("debito"));
}

#[test]
fn remote_budget_rows_are_adopted_and_deleted() {
    let mut mirror = backend();
    let delta = LedgerDelta {
        cursor: 3,
        budgets: vec![
            Budget {
                id: Some(40),
                concept: "Alimentos".into(),
                monthly_limit: c(2500.0),
                period: "2026-08".into(),
            },
            Budget {
                id: Some(41),
                concept: "Alimentos".into(),
                monthly_limit: c(1200.0),
                period: "2026-09".into(),
            },
        ],
        ..Default::default()
    };
    mirror.apply_remote_snapshot(&delta).unwrap();
    let budgets = mirror.list_budgets(None).unwrap();
    assert_eq!(budgets.len(), 2);
    assert!(budgets.iter().any(|b| b.id == Some(40) && b.monthly_limit == c(2500.0)));
    assert!(budgets.iter().any(|b| b.id == Some(41) && b.period == "2026-09"));

    let delta = LedgerDelta {
        cursor: 4,
        deletes: vec![("budgets".into(), 40)],
        ..Default::default()
    };
    mirror.apply_remote_snapshot(&delta).unwrap();
    let budgets = mirror.list_budgets(None).unwrap();
    assert_eq!(budgets.len(), 1);
    assert_eq!(budgets[0].id, Some(41));
}

#[test]
fn apply_remote_snapshot_keeps_rows_the_delta_does_not_touch() {
    let mut mirror = backend();
    let concept = mirror.list_concepts(None).unwrap()[0].name.clone();
    mirror.set_budget(concept.as_str(), c(300.0), "2026-08").unwrap();
    let local = mirror.insert_account(&NewAccount::spending("cartera")).unwrap();
    let mut delta = LedgerDelta { cursor: 3, ..Default::default() };
    delta.accounts.push(Account {
        id: 40,
        name: "debito remoto".into(),
        kind: AccountKind::Spending,
        target_amount: None,
        credit_limit: None,
        liquid: true,
        archived: false,
    });
    delta.entries.push(Entry {
        id: 10,
        date: "2026-08-01".into(),
        kind: EntryKind::Income,
        amount: c(10.0),
        from_account_id: None,
        to_account_id: Some(40),
        from_account: None,
        to_account: None,
        concept: Some("Nomina".into()),
        subconcept: None,
        description: None,
    });
    mirror.apply_remote_snapshot(&delta).unwrap();
    let budgets = mirror.list_budgets(None).unwrap();
    assert_eq!(budgets.len(), 1);
    assert_eq!(budgets[0].concept, concept);
    assert_eq!(budgets[0].monthly_limit, c(300.0));
    let accounts = mirror.list_accounts(true).unwrap();
    assert_eq!(accounts.len(), 2);
    assert!(accounts.iter().any(|a| a.id == local));
    assert!(accounts.iter().any(|a| a.id == 40));
}
