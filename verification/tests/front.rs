use money_core::api::{config_entries, sync_status, ApiError, EntryFilterInput};
use money_core::auth::{http_refusal, refusal, session_from, token_failure, TokenResponse};
use money_core::cli::{
    format_row, map_dlg_err, parse_date_on, resolve_account, resolve_concept, resolve_period,
    split_choice, strsim_distance, PromptMode, SplitChoice,
};
use money_core::error::AppError;
use money_core::models::{AccountBalance, AccountKind, Config, Entry, EntryKind};
use money_core::settings::Settings;

fn acct(id: i64, name: &str) -> AccountBalance {
    AccountBalance {
        id,
        name: name.into(),
        kind: AccountKind::Spending,
        target_amount: None,
        credit_limit: None,
        liquid: true,
        archived: false,
        balance: 0,
    }
}

fn names(v: &[&str]) -> Vec<String> {
    v.iter().map(|s| s.to_string()).collect()
}

// ---- prompting ----

#[test]
fn prompt_mode_resolution() {
    assert_eq!(PromptMode::resolve(true, true, true), PromptMode::Strict);
    assert_eq!(PromptMode::resolve(false, false, false), PromptMode::Wizard);
    assert_eq!(PromptMode::resolve(true, false, true), PromptMode::Wizard);
    assert_eq!(PromptMode::resolve(false, false, true), PromptMode::Fill);
    assert!(PromptMode::Wizard.prompts_optionals());
    assert!(!PromptMode::Fill.prompts_optionals());
    assert!(PromptMode::Fill.allows_prompt());
    assert!(!PromptMode::Strict.allows_prompt());
}

#[test]
fn emergency_split_choice() {
    assert!(matches!(split_choice(true, true, true, PromptMode::Wizard), SplitChoice::No));
    assert!(matches!(split_choice(false, false, true, PromptMode::Fill), SplitChoice::No));
    assert!(matches!(split_choice(false, true, false, PromptMode::Fill), SplitChoice::No));
    assert!(matches!(split_choice(false, true, true, PromptMode::Wizard), SplitChoice::Ask));
    assert!(matches!(split_choice(false, true, true, PromptMode::Strict), SplitChoice::Yes));
}

#[test]
fn failed_prompt_becomes_config_error() {
    let failed: Result<u32, dialoguer::Error> =
        Err(dialoguer::Error::IO(std::io::Error::new(std::io::ErrorKind::Other, "boom")));
    match map_dlg_err(failed) {
        Err(AppError::Config(m)) => assert_eq!(m, "IO error: boom"),
        other => panic!("unexpected {other:?}"),
    }
    let ok: Result<u32, dialoguer::Error> = Ok(7);
    assert_eq!(map_dlg_err(ok).unwrap(), 7);
}

// ---- resolving names ----

#[test]
fn account_resolution_exact_then_prefix() {
    let accounts = vec![acct(1, "Debito"), acct(2, "Debito Nomina"), acct(3, "Efectivo")];
    assert_eq!(resolve_account(&accounts, "debito").unwrap().id, 1);
    assert_eq!(resolve_account(&accounts, "EFE").unwrap().id, 3);
    match resolve_account(&accounts, "deb") {
        Err(AppError::Invalid(m)) => {
            assert_eq!(m, "'deb' matches multiple accounts: Debito, Debito Nomina")
        }
        other => panic!("unexpected {other:?}"),
    }
    match resolve_account(&accounts, "vales") {
        Err(AppError::NotFound(m)) => assert_eq!(
            m,
            "No account matches 'vales'. Known accounts: Debito, Debito Nomina, Efectivo"
        ),
        other => panic!("unexpected {other:?}"),
    }
}

#[test]
fn concept_resolution_suggests_the_closest() {
    let c = names(&["Alimentos", "Discrecional", "Servicios", "Transporte"]);
    assert_eq!(resolve_concept(&c, "alimentos").unwrap(), "Alimentos");
    assert_eq!(resolve_concept(&c, "serv").unwrap(), "Servicios");
    match resolve_concept(&c, "Alimento") {
        Ok(s) => assert_eq!(s, "Alimentos"),
        other => panic!("unexpected {other:?}"),
    }
    match resolve_concept(&c, "Alimentso") {
        Err(AppError::NotFound(m)) => assert_eq!(
            m,
            "Concepto 'Alimentso' no existe. ¿Quisiste decir 'Alimentos'? Usa `concept add` para crear uno nuevo."
        ),
        other => panic!("unexpected {other:?}"),
    }
    match resolve_concept(&[], "x") {
        Err(AppError::NotFound(m)) => {
            assert_eq!(m, "Concepto 'x' no existe. Usa `concept add` para crear uno nuevo.")
        }
        other => panic!("unexpected {other:?}"),
    }
    let d = names(&["Extra", "Extraordinario"]);
    assert_eq!(resolve_concept(&d, "extra").unwrap(), "Extra");
    match resolve_concept(&names(&["Ext1", "Ext2"]), "ext") {
        Err(AppError::Invalid(m)) => assert_eq!(m, "'ext' coincide con varios conceptos: Ext1, Ext2"),
        other => panic!("unexpected {other:?}"),
    }
}

#[test]
fn edit_distance_values() {
    assert_eq!(strsim_distance("kitten", "sitting"), 3);
    assert_eq!(strsim_distance("", "abc"), 3);
    assert_eq!(strsim_distance("abc", ""), 3);
    assert_eq!(strsim_distance("flaw", "lawn"), 2);
    assert_eq!(strsim_distance("same", "same"), 0);
    assert_eq!(strsim_distance("ñandú", "nandu"), 2);
}

// ---- dates ----

#[test]
fn date_shorthand_readings() {
    let today = (2026, 8, 10);
    assert_eq!(parse_date_on(today, None).unwrap(), "2026-08-10");
    assert_eq!(parse_date_on(today, Some("hoy")).unwrap(), "2026-08-10");
    assert_eq!(parse_date_on(today, Some(" today ")).unwrap(), "2026-08-10");
    assert_eq!(parse_date_on(today, Some("ayer")).unwrap(), "2026-08-09");
    assert_eq!(parse_date_on(today, Some("yesterday")).unwrap(), "2026-08-09");
    assert_eq!(parse_date_on(today, Some("-10")).unwrap(), "2026-07-31");
    assert_eq!(parse_date_on(today, Some("--5")).unwrap(), "2026-08-15");
    assert_eq!(parse_date_on(today, Some("15")).unwrap(), "2026-08-15");
    assert_eq!(parse_date_on(today, Some("+3")).unwrap(), "2026-08-03");
    assert_eq!(parse_date_on(today, Some("2026-01-31")).unwrap(), "2026-01-31");
    assert!(matches!(parse_date_on(today, Some("32")), Err(AppError::Invalid(_))));
    assert!(matches!(parse_date_on(today, Some("mañana")), Err(AppError::Invalid(_))));
    assert!(matches!(parse_date_on((2026, 4, 1), Some("31")), Err(AppError::Invalid(_))));
    assert!(matches!(parse_date_on(today, Some("-99999999999999")), Err(AppError::Invalid(_))));
}

#[test]
fn period_given_or_current() {
    assert_eq!(resolve_period(Some("2026-02".into())).unwrap().as_str(), "2026-02");
    assert!(resolve_period(Some("2026-2x".into())).is_err());
    assert!(resolve_period(None).is_ok());
}

#[test]
fn listing_row_columns() {
    let e = Entry {
        id: 12,
        date: "2026-08-03".into(),
        kind: EntryKind::Expense,
        amount: 35050,
        from_account_id: Some(1),
        to_account_id: None,
        from_account: Some("debito".into()),
        to_account: None,
        concept: Some("Alimentos".into()),
        subconcept: None,
        description: None,
    };
    assert_eq!(
        format_row(&e),
        format!(
            "{:<6} {:<12} {:<10} {:>12} {:<15} {:<15} {:<20}",
            "#12", "2026-08-03", "expense", "$350.50", "debito", "—", "Alimentos"
        )
    );
}

// ---- errors as a front end sees them ----

#[test]
fn api_errors_carry_kind_and_message() {
    let e = ApiError::from(AppError::NotFound("Account 3".into()));
    assert_eq!(e.kind, "not_found");
    assert_eq!(e.message, "Not found: Account 3");
    let e = ApiError::from(AppError::SchemaTooNew { found: 5, expected: 2 });
    assert_eq!(e.kind, "schema_too_new");
    assert_eq!(
        e.message,
        "Database schema version 5 is newer than this build supports (2). Update money-tracker."
    );
    let e = ApiError::from(AppError::SchemaTooOld { found: -1 });
    assert_eq!(
        e.message,
        "Database schema version -1 is older than this build supports and cannot be auto-upgraded."
    );
    let e = ApiError::from(AppError::InvalidGrant);
    assert_eq!(e.kind, "invalid_grant");
    assert_eq!(e.message, "Session expired — please log in again (db remote login)");
    let e = ApiError::from(AppError::LegacySchema { path: "/tmp/old.db".into() });
    assert_eq!(e.kind, "legacy_schema");
    assert!(e.message.starts_with("\"/tmp/old.db\" uses the old schema"));
    assert!(e.message.ends_with("money-tracker db reset --backup\n"));
    for (err, kind) in [
        (AppError::Database("x".into()), "database"),
        (AppError::Io("x".into()), "io"),
        (AppError::Config("x".into()), "config"),
        (AppError::Invalid("x".into()), "invalid"),
        (AppError::Remote("x".into()), "remote"),
        (AppError::Network("x".into()), "network"),
        (AppError::Auth("x".into()), "auth"),
    ] {
        assert_eq!(ApiError::from(err).kind, kind);
    }
}

#[test]
fn config_rows_and_filter_input() {
    let rows = config_entries(vec![Config { key: "emergency_pct".into(), value: "10".into() }]);
    assert_eq!(rows.len(), 1);
    assert_eq!(rows[0].key, "emergency_pct");
    assert_eq!(rows[0].value, "10");

    let f = EntryFilterInput {
        period: Some("2026-08".into()),
        kind: Some("expense".into()),
        concept: Some("Alimentos".into()),
        account_id: Some(3),
        limit: Some(5),
    }
    .to_filter()
    .unwrap();
    assert_eq!(f.period.unwrap().as_str(), "2026-08");
    assert_eq!(f.kind, Some(EntryKind::Expense));
    assert_eq!(f.limit, Some(5));
    let bad = EntryFilterInput { kind: Some("gift".into()), ..Default::default() }.to_filter();
    assert!(matches!(bad, Err(AppError::Invalid(_))));
    let bad = EntryFilterInput { period: Some("2026-13".into()), ..Default::default() }.to_filter();
    assert!(matches!(bad, Err(AppError::Invalid(_))));
}

#[test]
fn sync_panel_status() {
    let st = Settings { supabase_url: Some("https://x".into()), supabase_publishable_key: None };
    let s = sync_status(&st, true, None, Some(4), Some(3), None);
    assert!(!s.remote_configured);
    assert!(!s.logged_in);
    let st = Settings {
        supabase_url: Some("https://x".into()),
        supabase_publishable_key: Some("k".into()),
    };
    let s = sync_status(&st, true, Some("a@b.c".into()), Some(4), Some(3), Some("w".into()));
    assert!(s.remote_configured && s.logged_in);
    assert_eq!(s.remote_revision, Some(4));
    assert_eq!(s.mirror_cursor, Some(3));
}

// ---- sessions ----

#[test]
fn refused_grants_are_told_apart() {
    assert!(matches!(refusal(Some("Invalid_Grant: Refresh Token Not Found")), AppError::InvalidGrant));
    assert!(matches!(refusal(Some("Token has expired or is invalid")), AppError::InvalidGrant));
    match refusal(Some("Email not confirmed")) {
        AppError::Auth(m) => assert_eq!(m, "Email not confirmed"),
        other => panic!("unexpected {other:?}"),
    }
    match refusal(None) {
        AppError::Auth(m) => assert_eq!(m, "unknown"),
        other => panic!("unexpected {other:?}"),
    }
    match http_refusal("502 Bad Gateway", "<html>") {
        AppError::Auth(m) => assert_eq!(m, "HTTP 502 Bad Gateway: <html>"),
        other => panic!("unexpected {other:?}"),
    }
}

#[test]
fn token_failure_reads_the_body() {
    assert!(matches!(
        token_failure("400 Bad Request", r#"{"error":"invalid_grant","error_description":"Refresh Token Not Found"}"#),
        AppError::Auth(_)
    ));
    assert!(matches!(
        token_failure("400 Bad Request", r#"{"error":"invalid_grant"}"#),
        AppError::InvalidGrant
    ));
    match token_failure("400 Bad Request", r#"{"error_description":"Invalid login credentials"}"#) {
        AppError::Auth(m) => assert_eq!(m, "Invalid login credentials"),
        other => panic!("unexpected {other:?}"),
    }
    match token_failure("400 Bad Request", r#"{"error_description":42,"error":"x"}"#) {
        AppError::Auth(m) => assert_eq!(m, "unknown"),
        other => panic!("unexpected {other:?}"),
    }
    match token_failure("503 Service Unavailable", "down") {
        AppError::Auth(m) => assert_eq!(m, "HTTP 503 Service Unavailable: down"),
        other => panic!("unexpected {other:?}"),
    }
}

#[test]
fn sessions_need_a_refresh_token() {
    let ok = session_from(Some(TokenResponse {
        access_token: "a".into(),
        refresh_token: Some("r".into()),
        expires_in: Some(3600),
    }))
    .unwrap();
    assert_eq!(ok.access_token, "a");
    assert_eq!(ok.refresh_token, "r");
    match session_from(Some(TokenResponse { access_token: "a".into(), refresh_token: None, expires_in: None })) {
        Err(AppError::Auth(m)) => assert_eq!(m, "Token response had no refresh token"),
        other => panic!("unexpected {other:?}"),
    }
    match session_from(None) {
        Err(AppError::Auth(m)) => assert_eq!(m, "Malformed token response"),
        other => panic!("unexpected {other:?}"),
    }
}
