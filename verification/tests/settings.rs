use money_core::settings::{
    clear_remote_config, mirror_path, remote_credentials, Settings, SUPABASE_KEY_ENV,
    SUPABASE_URL_ENV,
};

fn s(x: &str) -> Option<String> {
    Some(x.to_string())
}

#[test]
fn missing_file_loads_defaults() {
    // No file and no environment: nothing configured.
    let st = Settings::loaded(None, None, None);
    assert!(st.supabase_url.is_none());
}

#[test]
fn env_overrides_file() {
    let stored = Settings { supabase_url: s("https://old.example"), supabase_publishable_key: None };
    let st = Settings::loaded(Some(stored), s("https://abc.supabase.co"), None);
    assert_eq!(st.supabase_url.as_deref(), Some("https://abc.supabase.co"));
}

#[test]
fn empty_env_var_clears_the_field() {
    let stored = Settings { supabase_url: s("https://x"), supabase_publishable_key: s("k") };
    let st = Settings::loaded(Some(stored), s(""), None);
    assert!(st.supabase_url.is_none());
    assert_eq!(st.supabase_publishable_key.as_deref(), Some("k"));
    assert!(!st.remote_configured());
    assert!(!st.is_complete());
}

#[test]
fn env_var_names() {
    assert_eq!(SUPABASE_URL_ENV, "MONEY_TRACKER_SUPABASE_URL");
    assert_eq!(SUPABASE_KEY_ENV, "MONEY_TRACKER_SUPABASE_KEY");
}

#[test]
fn completeness_needs_url_and_key() {
    let url_only = Settings { supabase_url: s("https://x"), supabase_publishable_key: None };
    assert!(url_only.remote_configured());
    assert!(!url_only.is_complete());
    let both = Settings { supabase_url: s("https://x"), supabase_publishable_key: s("k") };
    assert!(both.is_complete());
    assert_eq!(both.credentials().unwrap(), ("https://x".to_string(), "k".to_string()));
    match url_only.credentials() {
        Err(money_core::error::AppError::Config(m)) => assert_eq!(m, "Publishable key no configurada"),
        _ => panic!("expected a config error"),
    }
    match Settings::default().credentials() {
        Err(money_core::error::AppError::Config(m)) => assert_eq!(m, "Supabase URL no configurada"),
        _ => panic!("expected a config error"),
    }
}

#[test]
fn clearing_removes_both_fields() {
    let keys = vec![
        "supabase_url".to_string(),
        "theme".to_string(),
        "supabase_publishable_key".to_string(),
        "default_account".to_string(),
    ];
    assert_eq!(clear_remote_config(keys), vec!["theme".to_string(), "default_account".to_string()]);
    assert!(clear_remote_config(vec![]).is_empty());
}

#[test]
fn command_line_credentials_win() {
    let st = Settings { supabase_url: s("https://conf"), supabase_publishable_key: s("ck") };
    let (u, k) = remote_credentials(s("https://cli"), None, &st).unwrap();
    assert_eq!(u, "https://cli");
    assert_eq!(k, "ck");
    let r = remote_credentials(None, None, &Settings::default());
    assert!(matches!(r, Err(money_core::error::AppError::Config(_))));
}

#[test]
fn mirror_path_prefers_the_db_variable() {
    assert_eq!(mirror_path(s("/tmp/t.db"), s("/home/u"), None), "/tmp/t.db");
    assert_eq!(mirror_path(None, s("/home/u"), None), "/home/u/.money-tracker/data.db");
    assert_eq!(mirror_path(None, s("/home/u/"), None), "/home/u/.money-tracker/data.db");
    assert_eq!(mirror_path(None, None, s("C")), "C/.money-tracker/data.db");
    assert_eq!(mirror_path(None, None, None), "./.money-tracker/data.db");
}
