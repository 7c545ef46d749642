//! The hosted store's protocol, as far as it is logic: how a listing is
//! asked for, and what a refused request means.
use vstd::prelude::*;

use crate::error::AppError;
use crate::models::{entry_kind_name, EntryFilter, EntryKind};
use crate::period::{next_month_start, Period, MIN_YEAR};
use crate::storage::memory::filter_ok;
use crate::text::{concat, decimal, fmt_i64, fmt_u64, int_text_pad, owned, str_eq};

verus! {

/// A top-level field of a JSON text, as far as the logic reads it.
#[derive(Debug)]
pub enum JsonField {
    /// The text is not JSON.
    NotJson,
    /// The text is JSON but has no such field (or is not an object).
    Absent,
    /// The field holds a string.
    Text(String),
    /// The field holds something other than a string.
    Other,
}

/// A `JsonField` with its string taken as text.
pub enum JsonFieldView {
    NotJson,
    Absent,
    Text(Seq<char>),
    Other,
}

impl View for JsonField {
    type V = JsonFieldView;

    open spec fn view(&self) -> JsonFieldView {
        match self {
            JsonField::NotJson => JsonFieldView::NotJson,
            JsonField::Absent => JsonFieldView::Absent,
            JsonField::Text(s) => JsonFieldView::Text(s@),
            JsonField::Other => JsonFieldView::Other,
        }
    }
}

/// What `serde_json` reads as the field `field` of the JSON text `body`.
pub uninterp spec fn json_field_of(body: Seq<char>, field: Seq<char>) -> JsonFieldView;

/// Parses `body` with `serde_json::from_str::<serde_json::Value>` and looks
/// up `field` with `Value::get`, telling a string apart from any other
/// value. The contract names the result.
#[verifier::external_body]
pub(crate) fn json_field(body: &str, field: &str) -> (r: JsonField)
    ensures
        r@ == json_field_of(body@, field@),
{
    match serde_json::from_str::<serde_json::Value>(body) {
        Err(_) => JsonField::NotJson,
        Ok(v) => match v.get(field) {
            None => JsonField::Absent,
            Some(x) => match x.as_str() {
                Some(s) => JsonField::Text(s.to_string()),
                None => JsonField::Other,
            },
        },
    }
}

/// The error a refused request to the hosted store maps to, from the
/// status line, the body, and the body's `code` and `message` fields:
/// constraint violations are invalid input, a permission failure is an
/// auth error, a missing row is not-found, a missing table says the
/// schema was not migrated; anything else is a remote error.
pub open spec fn postgrest_error_text(
    status: Seq<char>,
    body: Seq<char>,
    code: JsonFieldView,
    message: JsonFieldView,
) -> (Seq<char>, Seq<char>) {
    let fallback = ("remote"@, "HTTP "@ + status + ": "@ + body);
    let m = match message {
        JsonFieldView::Text(t) => t,
        _ => Seq::empty(),
    };
    match code {
        JsonFieldView::NotJson => fallback,
        JsonFieldView::Text(c) => if c == "23505"@ {
            ("invalid"@, "Duplicate record: "@ + m)
        } else if c == "23514"@ {
            ("invalid"@, m)
        } else if c == "23503"@ {
            ("invalid"@, "Referenced record missing: "@ + m)
        } else if c == "42501"@ {
            ("auth"@, "Permission denied: "@ + m)
        } else if c == "42P01"@ || c == "42P02"@ || c == "42804"@ {
            ("remote"@, "Schema not migrated on Supabase ("@ + c + "): "@ + m)
        } else if c == "PGRST116"@ {
            ("not_found"@, "Record not found"@)
        } else {
            ("remote"@, c + ": "@ + m)
        },
        _ => match message {
            JsonFieldView::Text(t) => ("remote"@, t),
            _ => fallback,
        },
    }
}

/// The kind of an error and the text it carries, for the variants a
/// refused request can map to.
pub open spec fn kind_and_text(e: AppError) -> (Seq<char>, Seq<char>) {
    match e {
        AppError::Invalid(t) => ("invalid"@, t@),
        AppError::Auth(t) => ("auth"@, t@),
        AppError::NotFound(t) => ("not_found"@, t@),
        AppError::Remote(t) => ("remote"@, t@),
        _ => ("other"@, Seq::empty()),
    }
}

/// Maps a refused request, given the body's `code` and `message` fields,
/// to an error (see `postgrest_error_text`).
pub fn postgrest_error_from(status: &str, body: &str, code: JsonField, message: JsonField) -> (r:
    AppError)
    ensures
        kind_and_text(r) == postgrest_error_text(status@, body@, code@, message@),
{
    let fallback_head = concat("HTTP ", status);
    let fallback_head = concat(fallback_head.as_str(), ": ");
    let fallback = concat(fallback_head.as_str(), body);
    let m = match &message {
        JsonField::Text(t) => t.clone(),
        _ => String::new(),
    };
    proof {
        reveal_strlit("23505");
        reveal_strlit("23514");
        reveal_strlit("23503");
        reveal_strlit("42501");
        reveal_strlit("42P01");
        reveal_strlit("42P02");
        reveal_strlit("42804");
        reveal_strlit("PGRST116");
    }
    match code {
        JsonField::NotJson => AppError::Remote(fallback),
        JsonField::Text(c) => {
            if str_eq(c.as_str(), "23505") {
                AppError::Invalid(concat("Duplicate record: ", m.as_str()))
            } else if str_eq(c.as_str(), "23514") {
                AppError::Invalid(m)
            } else if str_eq(c.as_str(), "23503") {
                AppError::Invalid(concat("Referenced record missing: ", m.as_str()))
            } else if str_eq(c.as_str(), "42501") {
                AppError::Auth(concat("Permission denied: ", m.as_str()))
            } else if str_eq(c.as_str(), "42P01") || str_eq(c.as_str(), "42P02") || str_eq(
                c.as_str(),
                "42804",
            ) {
                let t = concat("Schema not migrated on Supabase (", c.as_str());
                let t = concat(t.as_str(), "): ");
                AppError::Remote(concat(t.as_str(), m.as_str()))
            } else if str_eq(c.as_str(), "PGRST116") {
                AppError::NotFound(owned("Record not found"))
            } else {
                let t = concat(c.as_str(), ": ");
                AppError::Remote(concat(t.as_str(), m.as_str()))
            }
        },
        _ => match message {
            JsonField::Text(t) => AppError::Remote(t),
            _ => AppError::Remote(fallback),
        },
    }
}

/// The error a refused request to the hosted store maps to, reading the
/// body's `code` and `message` fields (see `postgrest_error_text`).
pub fn postgrest_error(status: &str, body: &str) -> (r: AppError)
    ensures
        kind_and_text(r) == postgrest_error_text(
            status@,
            body@,
            json_field_of(body@, "code"@),
            json_field_of(body@, "message"@),
        ),
{
    let code = json_field(body, "code");
    let message = json_field(body, "message");
    postgrest_error_from(status, body, code, message)
}

// ---------------------------------------------------------------------------
// Listing entries.
// ---------------------------------------------------------------------------

/// The parameter selecting a month's entries.
pub open spec fn period_params(period: Option<Period>) -> Seq<(Seq<char>, Seq<char>)> {
    match period {
        Some(p) => seq![
            ("or"@, "(date.gte."@ + p@ + "-01"@ + ",date.lt."@ + next_month_start(
                p.year_of(),
                p.month_of(),
            ) + ")"@),
        ],
        None => Seq::empty(),
    }
}

/// The parameter selecting entries touching an account on either side.
pub open spec fn account_params(account_id: Option<i64>) -> Seq<(Seq<char>, Seq<char>)> {
    match account_id {
        Some(id) => seq![
            ("or"@, "(from_account_id.eq."@ + int_text_pad(id as int, 0) + ",to_account_id.eq."@
                + int_text_pad(id as int, 0) + ")"@),
        ],
        None => Seq::empty(),
    }
}

/// A `key=eq.value`-style parameter when the value is set.
pub open spec fn text_params(key: Seq<char>, op: Seq<char>, value: Option<Seq<char>>) -> Seq<(Seq<char>, Seq<char>)> {
    match value {
        Some(v) => seq![(key, op + v)],
        None => Seq::empty(),
    }
}

/// The query parameters that ask the hosted store for the entries a
/// filter selects, newest first.
pub open spec fn entries_query_spec(f: EntryFilter) -> Seq<(Seq<char>, Seq<char>)> {
    seq![("select"@, "*"@)] + period_params(f.period) + text_params(
        "date"@,
        "lte."@,
        match f.up_to_date {
            Some(d) => Some(d@),
            None => None,
        },
    ) + text_params(
        "kind"@,
        "eq."@,
        match f.kind {
            Some(k) => Some(entry_kind_name(k)),
            None => None,
        },
    ) + text_params(
        "concept"@,
        "eq."@,
        match f.concept {
            Some(c) => Some(c@),
            None => None,
        },
    ) + account_params(f.account_id) + seq![("order"@, "date.desc,id.desc"@)] + text_params(
        "limit"@,
        Seq::empty(),
        match f.limit {
            Some(n) => Some(decimal(n as nat)),
            None => None,
        },
    )
}

/// The texts of a list of parameter pairs.
pub open spec fn pair_texts(q: Seq<(String, String)>) -> Seq<(Seq<char>, Seq<char>)> {
    q.map_values(|p: (String, String)| (p.0@, p.1@))
}

fn push_pair(q: &mut Vec<(String, String)>, k: String, v: String)
    ensures
        pair_texts(final(q)@) == pair_texts(old(q)@).push((k@, v@)),
{
    let ghost before = q@;
    q.push((k, v));
    proof {
        assert(pair_texts(q@) =~= pair_texts(before).push((k@, v@)));
    }
}

fn push_period(q: &mut Vec<(String, String)>, period: &Option<Period>)
    requires
        period matches Some(p) ==> MIN_YEAR <= p.year_of() <= 9999,
    ensures
        pair_texts(final(q)@) == pair_texts(old(q)@) + period_params(*period),
{
    if let Some(p) = period {
        let lo = p.start();
        let hi = p.end_exclusive();
        let t = concat("(date.gte.", lo.as_str());
        let t = concat(t.as_str(), ",date.lt.");
        let t = concat(t.as_str(), hi.as_str());
        let v = concat(t.as_str(), ")");
        proof {
            assert(v@ =~= "(date.gte."@ + p@ + "-01"@ + ",date.lt."@ + next_month_start(
                p.year_of(),
                p.month_of(),
            ) + ")"@);
        }
        push_pair(q, owned("or"), v);
    } else {
        proof {
            assert(pair_texts(q@) =~= pair_texts(q@) + period_params(*period));
        }
    }
}

fn push_account(q: &mut Vec<(String, String)>, account_id: Option<i64>)
    ensures
        pair_texts(final(q)@) == pair_texts(old(q)@) + account_params(account_id),
{
    if let Some(id) = account_id {
        let n = fmt_i64(id);
        let t = concat("(from_account_id.eq.", n.as_str());
        let t = concat(t.as_str(), ",to_account_id.eq.");
        let t = concat(t.as_str(), n.as_str());
        let v = concat(t.as_str(), ")");
        proof {
            assert(v@ =~= "(from_account_id.eq."@ + int_text_pad(id as int, 0)
                + ",to_account_id.eq."@ + int_text_pad(id as int, 0) + ")"@);
        }
        push_pair(q, owned("or"), v);
    } else {
        proof {
            assert(pair_texts(q@) =~= pair_texts(q@) + account_params(account_id));
        }
    }
}

/// The text of an optional string.
pub open spec fn opt_view(o: Option<String>) -> Option<Seq<char>> {
    match o {
        Some(v) => Some(v@),
        None => None,
    }
}

fn kind_text(kind: Option<EntryKind>) -> (r: Option<String>)
    ensures
        opt_view(r) == match kind {
            Some(k) => Some(entry_kind_name(k)),
            None => None,
        },
{
    match kind {
        Some(k) => Some(owned(k.as_str())),
        None => None,
    }
}

fn push_text(q: &mut Vec<(String, String)>, key: &str, op: &str, value: Option<String>)
    ensures
        pair_texts(final(q)@) == pair_texts(old(q)@) + text_params(key@, op@, opt_view(value)),
{
    match value {
        Some(v) => push_pair(q, owned(key), concat(op, v.as_str())),
        None => {
            proof {
                assert(pair_texts(q@) =~= pair_texts(q@) + Seq::<(Seq<char>, Seq<char>)>::empty());
            }
        },
    }
}

/// The query parameters for the entries `f` selects.
pub fn entries_query(f: &EntryFilter) -> (r: Vec<(String, String)>)
    requires
        filter_ok(*f),
    ensures
        pair_texts(r@) == entries_query_spec(*f),
{
    let mut q: Vec<(String, String)> = Vec::new();
    proof {
        assert(pair_texts(q@) =~= Seq::<(Seq<char>, Seq<char>)>::empty());
    }
    push_pair(&mut q, owned("select"), owned("*"));
    proof {
        assert(pair_texts(q@) =~= seq![("select"@, "*"@)]);
    }
    push_period(&mut q, &f.period);
    push_text(&mut q, "date", "lte.", crate::models::clone_opt(&f.up_to_date));
    let kind = kind_text(f.kind);
    push_text(&mut q, "kind", "eq.", kind);
    push_text(&mut q, "concept", "eq.", crate::models::clone_opt(&f.concept));
    push_account(&mut q, f.account_id);
    push_pair(&mut q, owned("order"), owned("date.desc,id.desc"));
    proof {
        let before = pair_texts(q@).drop_last();
        assert(pair_texts(q@) =~= before + seq![("order"@, "date.desc,id.desc"@)]);
    }
    let limit = match f.limit {
        Some(n) => Some(fmt_u64(n as u64)),
        None => None,
    };
    proof {
        reveal_strlit("");
        assert("" @ =~= Seq::<char>::empty());
    }
    push_text(&mut q, "limit", "", limit);
    q
}

} // verus!
