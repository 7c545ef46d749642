//! The shapes a desktop front end exchanges with the ledger: errors as a
//! kind and a message, configuration rows, the entry filter as typed by a
//! user, and the sync panel's status.
use vstd::prelude::*;

use crate::error::{error_text, AppError, Result};
use crate::models::{entry_kind_named, Config, EntryFilter, EntryKind};
use crate::period::{chrono_parse_ymd, Period};
use crate::settings::Settings;
use crate::text::owned;

verus! {

/// An error as a front end receives it: a stable kind and the message.
#[derive(Debug)]
pub struct ApiError {
    pub kind: String,
    pub message: String,
}

/// The stable kind each error is reported under.
pub open spec fn error_kind(e: AppError) -> Seq<char> {
    match e {
        AppError::Database(_) => "database"@,
        AppError::Io(_) => "io"@,
        AppError::Config(_) => "config"@,
        AppError::NotFound(_) => "not_found"@,
        AppError::Invalid(_) => "invalid"@,
        AppError::LegacySchema { .. } => "legacy_schema"@,
        AppError::SchemaTooNew { .. } => "schema_too_new"@,
        AppError::SchemaTooOld { .. } => "schema_too_old"@,
        AppError::Remote(_) => "remote"@,
        AppError::Network(_) => "network"@,
        AppError::Auth(_) => "auth"@,
        AppError::InvalidGrant => "invalid_grant"@,
    }
}

impl ApiError {
    /// The error as a front end receives it.
    pub fn from(e: AppError) -> (r: ApiError)
        ensures
            r.kind@ == error_kind(e),
            r.message@ == error_text(e),
    {
        let kind = match &e {
            AppError::Database(_) => "database",
            AppError::Io(_) => "io",
            AppError::Config(_) => "config",
            AppError::NotFound(_) => "not_found",
            AppError::Invalid(_) => "invalid",
            AppError::LegacySchema { .. } => "legacy_schema",
            AppError::SchemaTooNew { .. } => "schema_too_new",
            AppError::SchemaTooOld { .. } => "schema_too_old",
            AppError::Remote(_) => "remote",
            AppError::Network(_) => "network",
            AppError::Auth(_) => "auth",
            AppError::InvalidGrant => "invalid_grant",
        };
        ApiError { kind: owned(kind), message: e.message() }
    }
}

/// One configuration row.
#[derive(Debug)]
pub struct ConfigEntry {
    pub key: String,
    pub value: String,
}

/// The configuration rows, in the order the store lists them.
pub fn config_entries(rows: Vec<Config>) -> (r: Vec<ConfigEntry>)
    ensures
        r@.len() == rows@.len(),
        forall|k: int|
            0 <= k < rows@.len() ==> (#[trigger] r@[k]).key == rows@[k].key && r@[k].value
                == rows@[k].value,
{
    let n = rows.len();
    let mut out: Vec<ConfigEntry> = Vec::new();
    let mut i: usize = 0;
    while i < n
        invariant
            n == rows@.len(),
            i <= n,
            out@.len() == i,
            forall|k: int|
                0 <= k < i ==> (#[trigger] out@[k]).key == rows@[k].key && out@[k].value
                    == rows@[k].value,
        decreases n - i,
    {
        let row = &rows[i];
        out.push(ConfigEntry { key: row.key.clone(), value: row.value.clone() });
        i = i + 1;
    }
    out
}

/// The entry filter as a front end sends it: period and kind as text.
#[derive(Debug)]
pub struct EntryFilterInput {
    pub period: Option<String>,
    pub kind: Option<String>,
    pub concept: Option<String>,
    pub account_id: Option<i64>,
    pub limit: Option<u32>,
}

impl Default for EntryFilterInput {
    fn default() -> (r: EntryFilterInput)
        ensures
            r.period is None && r.kind is None && r.concept is None && r.account_id is None
                && r.limit is None,
    {
        EntryFilterInput { period: None, kind: None, concept: None, account_id: None, limit: None }
    }
}

impl EntryFilterInput {
    /// The filter these fields describe. A period that does not read as a
    /// month, or a kind that names none, is refused, the period first.
    pub fn to_filter(self) -> (r: Result<EntryFilter>)
        ensures
            r is Ok <==> (self.period matches Some(p) ==> chrono_parse_ymd(p@ + "-01"@) is Some) && (
            self.kind matches Some(k) ==> entry_kind_named(k@) is Some),
            r matches Err(e) ==> e is Invalid,
            r matches Ok(f) ==> ({
                &&& f.period is Some <==> self.period is Some
                &&& f.period matches Some(p) ==> ({
                    let (y, m, _) = chrono_parse_ymd(self.period->0@ + "-01"@)->0;
                    p.year_of() == y && p.month_of() == m
                })
                &&& f.kind == (match self.kind {
                    Some(k) => entry_kind_named(k@),
                    None => None,
                })
                &&& f.up_to_date is None
                &&& f.concept == self.concept
                &&& f.account_id == self.account_id
                &&& f.limit == self.limit
            }),
    {
        let period = match &self.period {
            Some(p) => Some(Period::parse(p.as_str())?),
            None => None,
        };
        let kind = match &self.kind {
            Some(k) => Some(EntryKind::from_str(k.as_str())?),
            None => None,
        };
        Ok(
            EntryFilter {
                period,
                up_to_date: None,
                kind,
                concept: self.concept,
                account_id: self.account_id,
                limit: self.limit,
            },
        )
    }
}

/// What the sync panel shows.
#[derive(Debug)]
pub struct SyncStatus {
    pub remote_configured: bool,
    pub logged_in: bool,
    pub email: Option<String>,
    pub remote_revision: Option<i64>,
    pub mirror_cursor: Option<i64>,
    pub warning: Option<String>,
}

/// The sync panel's status. `token_stored` says whether a refresh token is
/// kept for the configured remote; a session only counts as signed in when
/// the remote is fully configured.
pub fn sync_status(
    settings: &Settings,
    token_stored: bool,
    email: Option<String>,
    remote_revision: Option<i64>,
    mirror_cursor: Option<i64>,
    warning: Option<String>,
) -> (r: SyncStatus)
    ensures
        r.remote_configured == (settings.supabase_url is Some
            && settings.supabase_publishable_key is Some),
        r.logged_in == (r.remote_configured && token_stored),
        r.email == email,
        r.remote_revision == remote_revision,
        r.mirror_cursor == mirror_cursor,
        r.warning == warning,
{
    let configured = settings.is_complete();
    SyncStatus {
        remote_configured: configured,
        logged_in: configured && token_stored,
        email,
        remote_revision,
        mirror_cursor,
        warning,
    }
}

/// The outcome of one pull from the remote: the mirror's cursor and the
/// warning, if any, left by a mirror that fell behind.
#[derive(Debug)]
pub struct SyncPollResult {
    pub cursor: Option<i64>,
    pub warning: Option<String>,
}

/// Credentials typed into the sign-in form.
#[derive(Debug)]
pub struct LoginInput {
    pub email: String,
    pub password: String,
}

} // verus!
