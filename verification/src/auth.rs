//! Sessions with the remote ledger's auth server: what a token request's
//! reply means. Only the refresh token of a session is ever stored; the
//! access token lives in memory for the process lifetime.
//!
//! A revoked or expired refresh token is told apart from every other
//! refusal (`AppError::InvalidGrant`), so that a front end asks for the
//! credentials again instead of retrying.
use vstd::prelude::*;

use crate::error::{AppError, Result};
use crate::storage::remote::{json_field, json_field_of, JsonField, JsonFieldView};
use crate::text::{concat, lowercase, owned, seq_contains, str_contains, to_lower};

verus! {

/// The body of a successful token request.
#[derive(Debug)]
pub struct TokenResponse {
    pub access_token: String,
    pub refresh_token: Option<String>,
    pub expires_in: Option<i64>,
}

/// A signed-in session.
#[derive(Debug)]
pub struct AuthSession {
    pub access_token: String,
    pub refresh_token: String,
}

/// Whether the auth server's message says the refresh token was revoked
/// or has expired.
pub open spec fn grant_revoked(message: Seq<char>) -> bool {
    seq_contains(lowercase(message), "invalid_grant"@) || seq_contains(
        lowercase(message),
        "token has expired or is invalid"@,
    )
}

/// `r` is how a refusal carrying `message` is answered: a revoked grant,
/// or an auth error with the message.
pub open spec fn refused_as(r: AppError, message: Seq<char>) -> bool {
    &&& grant_revoked(message) ==> r is InvalidGrant
    &&& !grant_revoked(message) ==> (r matches AppError::Auth(t) && t@ == message)
}

/// The error for a refused token request whose body was JSON. `message`
/// is the body's `error_description` (or, without one, its `error`) when
/// that is a string; the text "unknown" stands in when there is none.
pub fn refusal(message: Option<&str>) -> (r: AppError)
    ensures
        refused_as(
            r,
            match message {
                Some(m) => m@,
                None => "unknown"@,
            },
        ),
{
    let msg = match message {
        Some(m) => m,
        None => "unknown",
    };
    let lower = to_lower(msg);
    if str_contains(lower.as_str(), "invalid_grant") || str_contains(
        lower.as_str(),
        "token has expired or is invalid",
    ) {
        AppError::InvalidGrant
    } else {
        AppError::Auth(owned(msg))
    }
}

/// The error for a refused token request whose body was not JSON: the
/// HTTP status line and the raw body.
pub fn http_refusal(status: &str, body: &str) -> (r: AppError)
    ensures
        r matches AppError::Auth(t) && t@ == "HTTP "@ + status@ + ": "@ + body@,
{
    let head = concat("HTTP ", status);
    let head = concat(head.as_str(), ": ");
    AppError::Auth(concat(head.as_str(), body))
}

/// The message a refused token request's JSON body carries: its
/// `error_description` when that field is present, else its `error`,
/// taken only when it is a string.
pub open spec fn refusal_message(description: JsonFieldView, error: JsonFieldView) -> Seq<char> {
    match description {
        JsonFieldView::Text(t) => t,
        JsonFieldView::Absent => match error {
            JsonFieldView::Text(t) => t,
            _ => "unknown"@,
        },
        _ => "unknown"@,
    }
}

/// The error for a refused token request, read from its status line and
/// body.
pub fn token_failure(status: &str, body: &str) -> (r: AppError)
    ensures
        json_field_of(body@, "error_description"@) is NotJson ==> (r matches AppError::Auth(t) && t@
            == "HTTP "@ + status@ + ": "@ + body@),
        !(json_field_of(body@, "error_description"@) is NotJson) ==> refused_as(
            r,
            refusal_message(
                json_field_of(body@, "error_description"@),
                json_field_of(body@, "error"@),
            ),
        ),
{
    let description = json_field(body, "error_description");
    match description {
        JsonField::NotJson => http_refusal(status, body),
        JsonField::Text(t) => refusal(Some(t.as_str())),
        JsonField::Absent => {
            let error = json_field(body, "error");
            match error {
                JsonField::Text(t) => refusal(Some(t.as_str())),
                _ => refusal(None),
            }
        },
        JsonField::Other => refusal(None),
    }
}

/// The session a successful token request yields: `parsed` is the body
/// read as a token response (`None` when it could not be read as one).
pub fn session_from(parsed: Option<TokenResponse>) -> (r: Result<AuthSession>)
    ensures
        parsed is None ==> (r matches Err(AppError::Auth(t)) && t@ == "Malformed token response"@),
        parsed matches Some(p) ==> (match p.refresh_token {
            Some(refresh) => r == Ok::<AuthSession, AppError>(
                AuthSession { access_token: p.access_token, refresh_token: refresh },
            ),
            None => r matches Err(AppError::Auth(t)) && t@ == "Token response had no refresh token"@,
        }),
{
    match parsed {
        None => Err(AppError::Auth(owned("Malformed token response"))),
        Some(p) => match p.refresh_token {
            Some(refresh) => Ok(AuthSession { access_token: p.access_token, refresh_token: refresh }),
            None => Err(AppError::Auth(owned("Token response had no refresh token"))),
        },
    }
}

} // verus!
