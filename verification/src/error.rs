use vstd::prelude::*;

use crate::text::{concat, fmt_i64, int_text_pad, owned};

verus! {

/// Errors raised by the ledger. Every variant carries plain values, so a
/// front end can render or serialise it however it likes.
#[derive(Debug)]
pub enum AppError {
    /// A store refused a write (a uniqueness, reference or shape constraint).
    Database(String),
    Io(String),
    Config(String),
    NotFound(String),
    Invalid(String),
    LegacySchema { path: String },
    SchemaTooNew { found: i32, expected: i32 },
    SchemaTooOld { found: i32 },
    /// A logic/state error reported by a remote store.
    Remote(String),
    /// A connection failure talking to a remote store.
    Network(String),
    /// Sign-in / session validation problem.
    Auth(String),
    /// The stored refresh token was revoked or expired.
    InvalidGrant,
}

pub type Result<T> = core::result::Result<T, AppError>;

/// How a path prints in a diagnostic: std's `Debug` rendering of a path,
/// quoted and escaped.
pub uninterp spec fn path_debug_text(path: Seq<char>) -> Seq<char>;

/// Renders `path` as std's `Debug` for `Path` does (`format!("{:?}", ..)`);
/// the contract names the result.
#[verifier::external_body]
fn path_debug(path: &str) -> (r: String)
    ensures
        r@ == path_debug_text(path@),
{
    format!("{:?}", std::path::Path::new(path))
}

/// What a store in the old layout is told, after its path.
pub open spec fn legacy_schema_advice() -> Seq<char> {
    " uses the old schema (transactions/buckets), which this version cannot read.\n\nThis release replaces buckets and transactions with accounts and entries.\nThere is no automatic migration.\n\nBack up and start clean:\n    money-tracker db reset --backup\n"@
}

/// The message each error is shown with.
pub open spec fn error_text(e: AppError) -> Seq<char> {
    match e {
        AppError::Database(m) => "Database error: "@ + m@,
        AppError::Io(m) => "IO error: "@ + m@,
        AppError::Config(m) => "Config error: "@ + m@,
        AppError::NotFound(m) => "Not found: "@ + m@,
        AppError::Invalid(m) => "Invalid input: "@ + m@,
        AppError::LegacySchema { path } => path_debug_text(path@) + legacy_schema_advice(),
        AppError::SchemaTooNew { found, expected } => "Database schema version "@ + int_text_pad(
            found as int,
            0,
        ) + " is newer than this build supports ("@ + int_text_pad(expected as int, 0)
            + "). Update money-tracker."@,
        AppError::SchemaTooOld { found } => "Database schema version "@ + int_text_pad(
            found as int,
            0,
        ) + " is older than this build supports and cannot be auto-upgraded."@,
        AppError::Remote(m) => "Remote error: "@ + m@,
        AppError::Network(m) => "Network error: "@ + m@,
        AppError::Auth(m) => "Auth error: "@ + m@,
        AppError::InvalidGrant => "Session expired — please log in again (db remote login)"@,
    }
}

impl AppError {
    /// The message this error is shown with.
    pub fn message(&self) -> (r: String)
        ensures
            r@ == error_text(*self),
    {
        match self {
            AppError::Database(m) => concat("Database error: ", m.as_str()),
            AppError::Io(m) => concat("IO error: ", m.as_str()),
            AppError::Config(m) => concat("Config error: ", m.as_str()),
            AppError::NotFound(m) => concat("Not found: ", m.as_str()),
            AppError::Invalid(m) => concat("Invalid input: ", m.as_str()),
            AppError::LegacySchema { path } => concat(
                path_debug(path.as_str()).as_str(),
                " uses the old schema (transactions/buckets), which this version cannot read.\n\nThis release replaces buckets and transactions with accounts and entries.\nThere is no automatic migration.\n\nBack up and start clean:\n    money-tracker db reset --backup\n",
            ),
            AppError::SchemaTooNew { found, expected } => {
                let s = concat("Database schema version ", fmt_i64(*found as i64).as_str());
                let s = concat(s.as_str(), " is newer than this build supports (");
                let s = concat(s.as_str(), fmt_i64(*expected as i64).as_str());
                concat(s.as_str(), "). Update money-tracker.")
            },
            AppError::SchemaTooOld { found } => {
                let s = concat("Database schema version ", fmt_i64(*found as i64).as_str());
                concat(
                    s.as_str(),
                    " is older than this build supports and cannot be auto-upgraded.",
                )
            },
            AppError::Remote(m) => concat("Remote error: ", m.as_str()),
            AppError::Network(m) => concat("Network error: ", m.as_str()),
            AppError::Auth(m) => concat("Auth error: ", m.as_str()),
            AppError::InvalidGrant => owned("Session expired — please log in again (db remote login)"),
        }
    }
}

} // verus!
