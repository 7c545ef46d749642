//! What a command-line front end decides before it touches the ledger:
//! when to prompt, which account or concept a typed name means, and which
//! date a shorthand stands for.
use vstd::prelude::*;

use crate::error::{AppError, Result};
use crate::period::{
    chrono_days_before, chrono_parse_ymd, date_text, days_before, days_in_month, format_ymd,
    is_canonical_date, period_text, today_ymd, validate_date, valid_ymd, with_day, Period,
};
use crate::models::{entry_kind_name, AccountBalance, Entry};
use crate::text::{
    align_left, align_right, cents_text, comma_joined, concat, fmt_cents, fmt_i64, i64_text_value,
    int_text_pad, pad_left, pad_right, join_comma, lowercase, owned, parse_i64, parse_u32,
    seq_starts_with, str_eq, str_starts_with, tail_from, texts, to_lower, trim, trimmed,
    u32_text_value,
};

verus! {

/// How a command that registers money treats missing fields.
/// - `Wizard`: no fields given, or asked for explicitly: prompt for
///   everything, optional fields included.
/// - `Fill`: some fields given: prompt only for missing required fields;
///   optional ones stay empty and side effects use their configured
///   defaults.
/// - `Strict`: never prompt; a missing required field is an error. Safe
///   for scripts.
#[derive(Debug, Clone, Copy, PartialEq, Eq, Structural)]
pub enum PromptMode {
    Wizard,
    Fill,
    Strict,
}

impl PromptMode {
    /// The mode for a command line: `--yes` wins, then `--interactive` or
    /// the absence of every field selects the wizard.
    pub fn resolve(interactive: bool, yes: bool, any_field_given: bool) -> (r: PromptMode)
        ensures
            yes ==> r == PromptMode::Strict,
            !yes && (interactive || !any_field_given) ==> r == PromptMode::Wizard,
            !yes && !interactive && any_field_given ==> r == PromptMode::Fill,
    {
        if yes {
            PromptMode::Strict
        } else if interactive || !any_field_given {
            PromptMode::Wizard
        } else {
            PromptMode::Fill
        }
    }

    /// Whether an optional field (subconcept, description, ...) is prompted
    /// for when absent.
    pub fn prompts_optionals(&self) -> (r: bool)
        ensures
            r == (*self == PromptMode::Wizard),
    {
        matches!(self, PromptMode::Wizard)
    }

    /// Whether a missing required field may be prompted for at all.
    pub fn allows_prompt(&self) -> (r: bool)
        ensures
            r == (*self != PromptMode::Strict),
    {
        !matches!(self, PromptMode::Strict)
    }
}

#[verifier::external_type_specification]
#[verifier::external_body]
pub struct ExDialogError(dialoguer::Error);

/// The text dialoguer's `Error` displays (its `Display`, written by
/// `thiserror` as "IO error: " followed by the underlying I/O error). The
/// contract states that prefix; the I/O error's own text is left unsaid.
#[verifier::external_body]
fn dialog_error_text(e: &dialoguer::Error) -> (r: String)
    ensures
        seq_starts_with(r@, "IO error: "@),
{
    e.to_string()
}

/// A prompt's outcome with a failed prompt turned into a configuration
/// error carrying the prompt library's message.
pub fn map_dlg_err<T>(r: core::result::Result<T, dialoguer::Error>) -> (out: Result<T>)
    ensures
        r is Ok <==> out is Ok,
        r matches Ok(v) ==> out == Ok::<T, AppError>(v),
        out matches Err(e) ==> (e matches AppError::Config(m) && seq_starts_with(m@, "IO error: "@)),
{
    match r {
        Ok(v) => Ok(v),
        Err(e) => Err(AppError::Config(dialog_error_text(&e))),
    }
}

/// The period a report or budget command works on: the one given, read as
/// "YYYY-MM", else the current local month.
pub fn resolve_period(given: Option<String>) -> (r: Result<Period>)
    ensures
        given is None ==> (r matches Ok(p) ==> 1 <= p.month_of() <= 12 && p@ == period_text(
            p.year_of(),
            p.month_of(),
        )),
        given is None ==> (r matches Err(e) ==> e is Io),
        given matches Some(g) ==> (r is Ok <==> chrono_parse_ymd(g@ + "-01"@) is Some),
        given matches Some(g) ==> (r matches Ok(p) ==> ({
            let (y, m, _) = chrono_parse_ymd(g@ + "-01"@)->0;
            p.year_of() == y && p.month_of() == m && p@ == period_text(y as int, m as int)
        })),
        given is Some ==> (r matches Err(e) ==> e is Invalid),
{
    match given {
        Some(p) => Period::parse(p.as_str()),
        None => Period::current(),
    }
}

/// Whether an income is split into the emergency fund: never when the
/// user opted out, when there is no active fund, or when the receiving
/// account is restricted; the wizard asks, every other mode splits.
#[derive(Debug)]
pub enum SplitChoice {
    No,
    Ask,
    Yes,
}

/// Whether an income is split with the emergency fund: never without a
/// liquid fund or when declined, asked in the wizard, done otherwise.
pub fn split_choice(no_emergency: bool, has_fund: bool, liquid: bool, mode: PromptMode) -> (r:
    SplitChoice)
    ensures
        no_emergency || !has_fund || !liquid ==> r is No,
        !(no_emergency || !has_fund || !liquid) && mode == PromptMode::Wizard ==> r is Ask,
        !(no_emergency || !has_fund || !liquid) && mode != PromptMode::Wizard ==> r is Yes,
{
    if no_emergency || !has_fund || !liquid {
        SplitChoice::No
    } else if mode == PromptMode::Wizard {
        SplitChoice::Ask
    } else {
        SplitChoice::Yes
    }
}

} // verus!

verus! {

// ---------------------------------------------------------------------------
// Edit distance, for "did you mean" suggestions.
// ---------------------------------------------------------------------------

/// The smaller of two naturals.
pub open spec fn min_of(a: nat, b: nat) -> nat {
    if a <= b {
        a
    } else {
        b
    }
}

/// The Levenshtein distance: the fewest single-character insertions,
/// deletions and substitutions that turn `a` into `b`.
pub open spec fn edit_distance(a: Seq<char>, b: Seq<char>) -> nat
    decreases a.len() + b.len(),
{
    if a.len() == 0 {
        b.len()
    } else if b.len() == 0 {
        a.len()
    } else {
        let cost: nat = if a.last() == b.last() {
            0
        } else {
            1
        };
        min_of(
            min_of(
                edit_distance(a.drop_last(), b) + 1,
                edit_distance(a, b.drop_last()) + 1,
            ),
            edit_distance(a.drop_last(), b.drop_last()) + cost,
        )
    }
}

/// The distance never exceeds the longer text's length.
pub proof fn lemma_edit_distance_bound(a: Seq<char>, b: Seq<char>)
    ensures
        edit_distance(a, b) <= if a.len() >= b.len() {
            a.len()
        } else {
            b.len()
        },
    decreases a.len() + b.len(),
{
    if a.len() > 0 && b.len() > 0 {
        lemma_edit_distance_bound(a.drop_last(), b.drop_last());
    }
}

/// A text is at distance zero from itself.
pub proof fn lemma_edit_distance_self(a: Seq<char>)
    ensures
        edit_distance(a, a) == 0,
    decreases a.len(),
{
    if a.len() > 0 {
        lemma_edit_distance_self(a.drop_last());
    }
}

fn chars_of(s: &str) -> (r: Vec<char>)
    ensures
        r@ == s@,
{
    let n = s.unicode_len();
    let mut v: Vec<char> = Vec::new();
    let mut i: usize = 0;
    while i < n
        invariant
            n == s@.len(),
            i <= n,
            v@ == s@.subrange(0, i as int),
        decreases n - i,
    {
        v.push(s.get_char(i));
        i = i + 1;
        proof {
            assert(v@ =~= s@.subrange(0, i as int));
        }
    }
    proof {
        assert(s@.subrange(0, n as int) =~= s@);
    }
    v
}

/// The Levenshtein distance between `a` and `b`, by the two-row dynamic
/// programme.
pub fn strsim_distance(a: &str, b: &str) -> (r: usize)
    ensures
        r == edit_distance(a@, b@),
{
    let ac = chars_of(a);
    let bc = chars_of(b);
    let na = ac.len();
    let nb = bc.len();
    let mut prev: Vec<usize> = Vec::new();
    prev.push(0);
    let mut j: usize = 0;
    while j < nb
        invariant
            nb == b@.len(),
            j <= nb,
            prev@.len() == j + 1,
            forall|t: int| 0 <= t <= j ==> #[trigger] prev@[t] == edit_distance(a@.take(0), b@.take(t)),
        decreases nb - j,
    {
        proof {
            assert(a@.take(0).len() == 0);
        }
        prev.push(j + 1);
        j = j + 1;
    }
    let mut i: usize = 0;
    while i < na
        invariant
            na == a@.len(),
            nb == b@.len(),
            ac@ == a@,
            bc@ == b@,
            i <= na,
            prev@.len() == nb + 1,
            forall|t: int| 0 <= t <= nb ==> #[trigger] prev@[t] == edit_distance(a@.take(i as int), b@.take(t)),
        decreases na - i,
    {
        let mut curr: Vec<usize> = Vec::new();
        proof {
            assert(b@.take(0).len() == 0);
            assert(a@.take(i + 1).len() == i + 1);
        }
        curr.push(i + 1);
        let mut j: usize = 0;
        while j < nb
            invariant
                na == a@.len(),
                nb == b@.len(),
                ac@ == a@,
                bc@ == b@,
                i < na,
                j <= nb,
                prev@.len() == nb + 1,
                forall|t: int| 0 <= t <= nb ==> #[trigger] prev@[t] == edit_distance(a@.take(i as int), b@.take(t)),
                curr@.len() == j + 1,
                forall|t: int| 0 <= t <= j ==> #[trigger] curr@[t] == edit_distance(a@.take(i + 1), b@.take(t)),
            decreases nb - j,
        {
            let ghost ai = a@.take(i + 1);
            let ghost bj = b@.take(j + 1);
            proof {
                assert(ai.drop_last() =~= a@.take(i as int));
                assert(bj.drop_last() =~= b@.take(j as int));
                assert(ai.last() == a@[i as int]);
                assert(bj.last() == b@[j as int]);
                lemma_edit_distance_bound(a@.take(i as int), b@.take(j as int));
                assert(prev@[j as int] == edit_distance(a@.take(i as int), b@.take(j as int)));
            }
            let cost: usize = if ac[i] == bc[j] {
                0
            } else {
                1
            };
            let d = prev[j] + cost;
            let up = prev[j + 1];
            let left = curr[j];
            let m = if up < left {
                up
            } else {
                left
            };
            let v = if m < d {
                m + 1
            } else {
                d
            };
            proof {
                assert(prev@[j + 1] == edit_distance(a@.take(i as int), bj));
                assert(curr@[j as int] == edit_distance(ai, b@.take(j as int)));
                assert(v == edit_distance(ai, bj));
            }
            curr.push(v);
            j = j + 1;
        }
        prev = curr;
        i = i + 1;
    }
    proof {
        assert(a@.take(na as int) =~= a@);
        assert(b@.take(nb as int) =~= b@);
        assert(prev@[nb as int] == edit_distance(a@.take(na as int), b@.take(nb as int)));
    }
    prev[nb]
}

} // verus!

verus! {

// ---------------------------------------------------------------------------
// Resolving typed names.
// ---------------------------------------------------------------------------

/// Whether some name equals `needle` once lower-cased.
pub open spec fn has_exact(names: Seq<Seq<char>>, needle: Seq<char>) -> bool {
    exists|k: int| 0 <= k < names.len() && lowercase(#[trigger] names[k]) == needle
}

/// `k` is the first name that equals `needle` once lower-cased.
pub open spec fn first_exact(names: Seq<Seq<char>>, needle: Seq<char>, k: int) -> bool {
    &&& 0 <= k < names.len()
    &&& lowercase(names[k]) == needle
    &&& forall|j: int| 0 <= j < k ==> lowercase(#[trigger] names[j]) != needle
}

/// The account names, in order.
pub open spec fn account_names(accounts: Seq<AccountBalance>) -> Seq<Seq<char>> {
    accounts.map_values(|a: AccountBalance| a.name@)
}

/// Accounts whose lower-cased name starts with `needle`.
pub open spec fn account_prefixed(needle: Seq<char>) -> spec_fn(AccountBalance) -> bool {
    |a: AccountBalance| seq_starts_with(lowercase(a.name@), needle)
}

/// Texts whose lower-cased form starts with `needle`.
pub open spec fn text_prefixed(needle: Seq<char>) -> spec_fn(String) -> bool {
    |c: String| seq_starts_with(lowercase(c@), needle)
}

fn names_of(accounts: &[AccountBalance]) -> (r: Vec<String>)
    ensures
        texts(r@) == account_names(accounts@),
{
    let n = accounts.len();
    let mut out: Vec<String> = Vec::new();
    let mut i: usize = 0;
    while i < n
        invariant
            n == accounts@.len(),
            i <= n,
            out@.len() == i,
            texts(out@) == account_names(accounts@.take(i as int)),
        decreases n - i,
    {
        let ghost before = out@;
        out.push(accounts[i].name.clone());
        proof {
            assert forall|k: int| 0 <= k <= i implies #[trigger] texts(out@)[k] == account_names(
                accounts@.take(i + 1),
            )[k] by {
                assert(texts(out@)[k] == out@[k]@);
                assert(account_names(accounts@.take(i + 1))[k] == accounts@.take(i + 1)[k].name@);
                if k < i {
                    assert(out@[k] == before[k]);
                    assert(texts(before)[k] == before[k]@);
                    assert(texts(before)[k] == account_names(accounts@.take(i as int))[k]);
                    assert(account_names(accounts@.take(i as int))[k] == accounts@.take(i as int)[k].name@);
                } else {
                    assert(out@[k] == accounts@[i as int].name);
                }
            }
            assert(texts(out@) =~= account_names(accounts@.take(i + 1)));
        }
        i = i + 1;
    }
    proof {
        assert(accounts@.take(n as int) =~= accounts@);
    }
    out
}

/// Resolves a typed account name: an exact case-insensitive match first,
/// then a unique case-insensitive prefix. No match, or several, is an
/// error listing the candidates.
pub fn resolve_account(accounts: &[AccountBalance], given: &str) -> (r: Result<AccountBalance>)
    ensures
        ({
            let needle = lowercase(given@);
            let names = account_names(accounts@);
            let pm = accounts@.filter(account_prefixed(needle));
            &&& forall|k: int| first_exact(names, needle, k) ==> r == Ok::<AccountBalance, AppError>(accounts@[k])
            &&& !has_exact(names, needle) && pm.len() == 1 ==> r == Ok::<AccountBalance, AppError>(pm[0])
            &&& !has_exact(names, needle) && pm.len() == 0 ==> (r matches Err(AppError::NotFound(m))
                && m@ == "No account matches '"@ + given@ + "'. Known accounts: "@ + comma_joined(names))
            &&& !has_exact(names, needle) && pm.len() > 1 ==> (r matches Err(AppError::Invalid(m))
                && m@ == "'"@ + given@ + "' matches multiple accounts: "@ + comma_joined(account_names(pm)))
        }),
{
    let needle = to_lower(given);
    let ghost names = account_names(accounts@);
    let n = accounts.len();
    let mut i: usize = 0;
    while i < n
        invariant
            n == accounts@.len(),
            i <= n,
            names == account_names(accounts@),
            needle@ == lowercase(given@),
            forall|j: int| 0 <= j < i ==> lowercase(#[trigger] names[j]) != needle@,
        decreases n - i,
    {
        let lower = to_lower(accounts[i].name.as_str());
        if str_eq(lower.as_str(), needle.as_str()) {
            proof {
                assert(names[i as int] == accounts@[i as int].name@);
                assert(first_exact(names, needle@, i as int));
                assert forall|k: int| first_exact(names, needle@, k) implies k == i by {
                    if k < i {
                        assert(lowercase(names[k]) != needle@);
                    }
                    if k > i {
                        assert(lowercase(names[i as int]) != needle@);
                    }
                }
            }
            return Ok(accounts[i].clone());
        }
        proof {
            assert(names[i as int] == accounts@[i as int].name@);
        }
        i = i + 1;
    }
    proof {
        assert(!has_exact(names, needle@));
        assert forall|k: int| !first_exact(names, needle@, k) by {}
    }
    let ghost pred = account_prefixed(needle@);
    let mut pm: Vec<AccountBalance> = Vec::new();
    let mut j: usize = 0;
    while j < n
        invariant
            n == accounts@.len(),
            j <= n,
            needle@ == lowercase(given@),
            pred == account_prefixed(needle@),
            pm@ == accounts@.take(j as int).filter(pred),
        decreases n - j,
    {
        proof {
            assert(accounts@.take(j + 1) =~= accounts@.take(j as int).push(accounts@[j as int]));
            accounts@.take(j as int).lemma_filter_push(accounts@[j as int], pred);
        }
        let lower = to_lower(accounts[j].name.as_str());
        if str_starts_with(lower.as_str(), needle.as_str()) {
            pm.push(accounts[j].clone());
        }
        j = j + 1;
    }
    proof {
        assert(accounts@.take(n as int) =~= accounts@);
    }
    if pm.len() == 1 {
        Ok(pm[0].clone())
    } else if pm.len() == 0 {
        let all = names_of(accounts);
        let m = concat("No account matches '", given);
        let m = concat(m.as_str(), "'. Known accounts: ");
        Err(AppError::NotFound(concat(m.as_str(), join_comma(all.as_slice()).as_str())))
    } else {
        let found = names_of(pm.as_slice());
        let m = concat("'", given);
        let m = concat(m.as_str(), "' matches multiple accounts: ");
        Err(AppError::Invalid(concat(m.as_str(), join_comma(found.as_slice()).as_str())))
    }
}

} // verus!

verus! {

/// `k` is the first text at the least edit distance from `needle`, each
/// text taken lower-cased.
pub open spec fn closest_at(names: Seq<Seq<char>>, needle: Seq<char>, k: int) -> bool {
    &&& 0 <= k < names.len()
    &&& forall|j: int|
        0 <= j < names.len() ==> edit_distance(lowercase(#[trigger] names[j]), needle)
            >= edit_distance(lowercase(names[k]), needle)
    &&& forall|j: int|
        0 <= j < k ==> edit_distance(lowercase(#[trigger] names[j]), needle) > edit_distance(
            lowercase(names[k]),
            needle,
        )
}

/// The hint that ends an unknown-concept message.
pub open spec fn concept_hint(names: Seq<Seq<char>>, needle: Seq<char>) -> Seq<char> {
    if names.len() == 0 {
        " Usa `concept add` para crear uno nuevo."@
    } else {
        " ¿Quisiste decir '"@ + names[choose|k: int| closest_at(names, needle, k)]
            + "'? Usa `concept add` para crear uno nuevo."@
    }
}

/// Resolves a typed concept name among `candidates` (the concepts usable
/// for the entry's kind) the way `resolve_account` resolves accounts. An
/// unknown name is refused with the closest candidate as a suggestion,
/// rather than silently starting a new report row.
pub fn resolve_concept(candidates: &[String], given: &str) -> (r: Result<String>)
    ensures
        ({
            let needle = lowercase(given@);
            let names = texts(candidates@);
            let pm = candidates@.filter(text_prefixed(needle));
            &&& forall|k: int| first_exact(names, needle, k) ==> r == Ok::<String, AppError>(candidates@[k])
            &&& !has_exact(names, needle) && pm.len() == 1 ==> r == Ok::<String, AppError>(pm[0])
            &&& !has_exact(names, needle) && pm.len() == 0 ==> (r matches Err(AppError::NotFound(m))
                && m@ == "Concepto '"@ + given@ + "' no existe."@ + concept_hint(names, needle))
            &&& !has_exact(names, needle) && pm.len() > 1 ==> (r matches Err(AppError::Invalid(m))
                && m@ == "'"@ + given@ + "' coincide con varios conceptos: "@ + comma_joined(texts(pm)))
        }),
{
    let needle = to_lower(given);
    let ghost names = texts(candidates@);
    let n = candidates.len();
    let mut i: usize = 0;
    while i < n
        invariant
            n == candidates@.len(),
            i <= n,
            names == texts(candidates@),
            needle@ == lowercase(given@),
            forall|j: int| 0 <= j < i ==> lowercase(#[trigger] names[j]) != needle@,
        decreases n - i,
    {
        let lower = to_lower(candidates[i].as_str());
        if str_eq(lower.as_str(), needle.as_str()) {
            proof {
                assert(names[i as int] == candidates@[i as int]@);
                assert(first_exact(names, needle@, i as int));
                assert forall|k: int| first_exact(names, needle@, k) implies k == i by {
                    if k < i {
                        assert(lowercase(names[k]) != needle@);
                    }
                    if k > i {
                        assert(lowercase(names[i as int]) != needle@);
                    }
                }
            }
            return Ok(candidates[i].clone());
        }
        proof {
            assert(names[i as int] == candidates@[i as int]@);
        }
        i = i + 1;
    }
    proof {
        assert(!has_exact(names, needle@));
        assert forall|k: int| !first_exact(names, needle@, k) by {}
    }
    let ghost pred = text_prefixed(needle@);
    let mut pm: Vec<String> = Vec::new();
    let mut j: usize = 0;
    while j < n
        invariant
            n == candidates@.len(),
            j <= n,
            needle@ == lowercase(given@),
            pred == text_prefixed(needle@),
            pm@ == candidates@.take(j as int).filter(pred),
        decreases n - j,
    {
        proof {
            assert(candidates@.take(j + 1) =~= candidates@.take(j as int).push(candidates@[j as int]));
            candidates@.take(j as int).lemma_filter_push(candidates@[j as int], pred);
        }
        let lower = to_lower(candidates[j].as_str());
        if str_starts_with(lower.as_str(), needle.as_str()) {
            pm.push(candidates[j].clone());
        }
        j = j + 1;
    }
    proof {
        assert(candidates@.take(n as int) =~= candidates@);
    }
    if pm.len() == 1 {
        Ok(pm[0].clone())
    } else if pm.len() == 0 {
        let m = concat("Concepto '", given);
        let m = concat(m.as_str(), "' no existe.");
        let hint = if n == 0 {
            proof {
                assert(names.len() == 0);
            }
            owned(" Usa `concept add` para crear uno nuevo.")
        } else {
            let best = closest(candidates, needle.as_str());
            proof {
                assert(names.len() > 0);
                assert(closest_at(names, needle@, choose|k: int| closest_at(names, needle@, k)));
                let c = choose|k: int| closest_at(names, needle@, k);
                if c < best {
                    assert(edit_distance(lowercase(names[c]), needle@) > edit_distance(lowercase(names[best as int]), needle@));
                }
                if c > best {
                    assert(edit_distance(lowercase(names[best as int]), needle@) > edit_distance(lowercase(names[c]), needle@));
                }
                assert(names[best as int] == candidates@[best as int]@);
            }
            let h = concat(" ¿Quisiste decir '", candidates[best].as_str());
            concat(h.as_str(), "'? Usa `concept add` para crear uno nuevo.")
        };
        Err(AppError::NotFound(concat(m.as_str(), hint.as_str())))
    } else {
        let m = concat("'", given);
        let m = concat(m.as_str(), "' coincide con varios conceptos: ");
        Err(AppError::Invalid(concat(m.as_str(), join_comma(pm.as_slice()).as_str())))
    }
}

/// The index of the first candidate, lower-cased, at the least edit
/// distance from `needle`.
fn closest(candidates: &[String], needle: &str) -> (r: usize)
    requires
        candidates@.len() > 0,
    ensures
        closest_at(texts(candidates@), needle@, r as int),
{
    let ghost names = texts(candidates@);
    let n = candidates.len();
    let mut best: usize = 0;
    let first = to_lower(candidates[0].as_str());
    let mut best_d = strsim_distance(first.as_str(), needle);
    proof {
        assert(names[0] == candidates@[0]@);
    }
    let mut i: usize = 1;
    while i < n
        invariant
            n == candidates@.len(),
            names == texts(candidates@),
            1 <= i <= n,
            best < i,
            best_d == edit_distance(lowercase(names[best as int]), needle@),
            forall|j: int| 0 <= j < i ==> edit_distance(lowercase(#[trigger] names[j]), needle@) >= best_d,
            forall|j: int| 0 <= j < best ==> edit_distance(lowercase(#[trigger] names[j]), needle@) > best_d,
        decreases n - i,
    {
        let lower = to_lower(candidates[i].as_str());
        let d = strsim_distance(lower.as_str(), needle);
        proof {
            assert(names[i as int] == candidates@[i as int]@);
        }
        if d < best_d {
            best = i;
            best_d = d;
        }
        i = i + 1;
    }
    best
}

} // verus!

verus! {

// ---------------------------------------------------------------------------
// Date shorthand.
// ---------------------------------------------------------------------------

/// What a typed date stands for.
#[derive(Debug)]
pub enum DateShorthand {
    Today,
    DaysBack(i64),
    DayOfMonth(u32),
    Literal,
}

/// "hoy"/"today" is today, "ayer"/"yesterday" one day back, "-N" N days
/// back, a bare day of the month (1..=31) that day of the current month;
/// anything else must already be a date.
pub open spec fn date_shorthand(s: Seq<char>) -> DateShorthand {
    if s == "hoy"@ || s == "today"@ {
        DateShorthand::Today
    } else if s == "ayer"@ || s == "yesterday"@ {
        DateShorthand::DaysBack(1)
    } else if s.len() > 0 && s[0] == '-' && i64_text_value(s.skip(1)) is Some {
        DateShorthand::DaysBack(i64_text_value(s.skip(1))->0 as i64)
    } else if u32_text_value(s) is Some && 1 <= u32_text_value(s)->0 <= 31 {
        DateShorthand::DayOfMonth(u32_text_value(s)->0 as u32)
    } else {
        DateShorthand::Literal
    }
}

/// The date a trimmed text `s` reads as on `today`, if any.
pub open spec fn date_reading(today: (i32, u32, u32), s: Seq<char>) -> Option<Seq<char>> {
    let (y, m, d) = today;
    let literal = if is_canonical_date(s) {
        Some(s)
    } else {
        None
    };
    match date_shorthand(s) {
        DateShorthand::Today => Some(date_text(y as int, m as int, d as int)),
        DateShorthand::DaysBack(n) => match chrono_days_before(y, m, d, n) {
            Some((a, b, c)) => Some(date_text(a as int, b as int, c as int)),
            None => None,
        },
        DateShorthand::DayOfMonth(k) => if k <= days_in_month(y as int, m as int) {
            Some(date_text(y as int, m as int, k as int))
        } else {
            literal
        },
        DateShorthand::Literal => literal,
    }
}

/// The date an optional typed date stands for on `today`: none typed is
/// today; a typed one is read trimmed.
pub open spec fn date_parsed(today: (i32, u32, u32), input: Option<Seq<char>>) -> Option<Seq<char>> {
    match input {
        None => Some(date_text(today.0 as int, today.1 as int, today.2 as int)),
        Some(raw) => date_reading(today, trimmed(raw)),
    }
}

fn step_back(y: i32, m: u32, d: u32, n: i64) -> (r: Result<String>)
    requires
        valid_ymd(y as int, m as int, d as int),
    ensures
        r is Ok <==> chrono_days_before(y, m, d, n) is Some,
        r is Ok <==> crate::period::date_reachable(y as int, m as int, d as int, n as int),
        r matches Ok(t) ==> ({
            let (a, b, c) = chrono_days_before(y, m, d, n)->0;
            &&& t@ == date_text(a as int, b as int, c as int)
            &&& valid_ymd(a as int, b as int, c as int)
            &&& crate::period::day_number(a as int, b as int, c as int) == crate::period::day_number(
                y as int,
                m as int,
                d as int,
            ) - n
        }),
        r matches Err(e) ==> e is Invalid,
{
    match days_before(y, m, d, n) {
        Some(t) => Ok(t),
        None => Err(AppError::Invalid(owned("date out of range"))),
    }
}

/// The text of an optional `&str`.
pub open spec fn opt_text(input: Option<&str>) -> Option<Seq<char>> {
    match input {
        Some(s) => Some(s@),
        None => None,
    }
}

/// Reads a trimmed typed date `s`, relative to `today`.
#[verifier::rlimit(30)]
fn read_date(today: (i32, u32, u32), s: String) -> (r: Result<String>)
    requires
        valid_ymd(today.0 as int, today.1 as int, today.2 as int),
    ensures
        r is Ok <==> date_reading(today, s@) is Some,
        r matches Ok(t) ==> Some(t@) == date_reading(today, s@),
        r matches Err(e) ==> e is Invalid,
{
    let (y, m, d) = today;
    proof {
        reveal_strlit("hoy");
        reveal_strlit("today");
        reveal_strlit("ayer");
        reveal_strlit("yesterday");
    }
    if str_eq(s.as_str(), "hoy") || str_eq(s.as_str(), "today") {
        return Ok(format_ymd(y, m, d));
    }
    if str_eq(s.as_str(), "ayer") || str_eq(s.as_str(), "yesterday") {
        return step_back(y, m, d, 1);
    }
    let n = s.as_str().unicode_len();
    if n > 0 && s.as_str().get_char(0) == '-' {
        let rest = tail_from(s.as_str(), 1);
        match parse_i64(rest.as_str()) {
            Some(k) => {
                return step_back(y, m, d, k);
            },
            None => {},
        }
    }
    match parse_u32(s.as_str()) {
        Some(day) => {
            if 1 <= day && day <= 31 {
                match with_day(y, m, day) {
                    Some(t) => {
                        return Ok(t);
                    },
                    None => {},
                }
            }
        },
        None => {},
    }
    match validate_date(s.as_str()) {
        Ok(()) => Ok(s),
        Err(e) => Err(e),
    }
}

/// Reads a typed date, relative to `today`, into canonical YYYY-MM-DD.
pub fn parse_date_on(today: (i32, u32, u32), input: Option<&str>) -> (r: Result<String>)
    requires
        valid_ymd(today.0 as int, today.1 as int, today.2 as int),
    ensures
        r is Ok <==> date_parsed(today, opt_text(input)) is Some,
        r matches Ok(t) ==> Some(t@) == date_parsed(today, opt_text(input)),
        r matches Err(e) ==> e is Invalid,
{
    match input {
        None => Ok(format_ymd(today.0, today.1, today.2)),
        Some(raw) => read_date(today, trim(raw)),
    }
}

/// Reads a typed date into canonical YYYY-MM-DD: nothing typed, "hoy" or
/// "today" is today; "ayer" or "yesterday" is yesterday; a bare day of the
/// month ("15") is that day of the current month; "-N" is N days ago;
/// anything else must already be YYYY-MM-DD.
pub fn parse_date(input: Option<&str>) -> (r: Result<String>)
    ensures
        r matches Err(e) ==> e is Invalid || e is Io,
        !(r matches Err(AppError::Io(_))) ==> exists|y: i32, m: u32, d: u32|
            valid_ymd(y as int, m as int, d as int) && #[trigger] date_parsed(
                (y, m, d),
                opt_text(input),
            ) == (match r {
                Ok(t) => Some(t@),
                Err(_) => None,
            }),
{
    let today = today_ymd()?;
    let r = parse_date_on(today, input);
    proof {
        let (y, m, d) = today;
        assert(date_parsed(
            (y, m, d),
            opt_text(input),
        ) == (match r {
            Ok(t) => Some(t@),
            Err(_) => None,
        }));
    }
    r
}

} // verus!

verus! {

// ---------------------------------------------------------------------------
// Listing rows.
// ---------------------------------------------------------------------------

/// An optional text, or a dash when absent.
pub open spec fn or_dash(o: Option<String>) -> Seq<char> {
    match o {
        Some(s) => s@,
        None => "—"@,
    }
}

fn text_or_dash(o: &Option<String>) -> (r: String)
    ensures
        r@ == or_dash(*o),
{
    match o {
        Some(s) => s.clone(),
        None => owned("—"),
    }
}

/// One line of an entry listing: id, date, kind, amount, from, to and
/// concept in fixed-width columns.
pub open spec fn entry_row(e: Entry) -> Seq<char> {
    pad_right("#"@ + int_text_pad(e.id as int, 0), 6) + " "@ + pad_right(e.date@, 12) + " "@
        + pad_right(entry_kind_name(e.kind), 10) + " "@ + pad_left("$"@ + cents_text(e.amount as int), 12)
        + " "@ + pad_right(or_dash(e.from_account), 15) + " "@ + pad_right(or_dash(e.to_account), 15)
        + " "@ + pad_right(or_dash(e.concept), 20)
}

fn then_column(line: String, col: String) -> (r: String)
    ensures
        r@ == line@ + " "@ + col@,
{
    let t = concat(line.as_str(), " ");
    concat(t.as_str(), col.as_str())
}

/// Renders one line of an entry listing.
pub fn format_row(e: &Entry) -> (r: String)
    ensures
        r@ == entry_row(*e),
{
    let id = concat("#", fmt_i64(e.id).as_str());
    let amount = concat("$", fmt_cents(e.amount as i128).as_str());
    let r = align_left(id.as_str(), 6);
    let r = then_column(r, align_left(e.date.as_str(), 12));
    let r = then_column(r, align_left(e.kind.as_str(), 10));
    let r = then_column(r, align_right(amount.as_str(), 12));
    let r = then_column(r, align_left(text_or_dash(&e.from_account).as_str(), 15));
    let r = then_column(r, align_left(text_or_dash(&e.to_account).as_str(), 15));
    let r = then_column(r, align_left(text_or_dash(&e.concept).as_str(), 20));
    r
}

} // verus!
