//! Text primitives the ledger is built on: the byte/code-point order that
//! Rust's `str` comparison uses, decimal rendering of integers and of cent
//! amounts, and a few string builders.
use vstd::prelude::*;

verus! {

// ---------------------------------------------------------------------------
// Lexicographic order over code points (what `str < str` computes).
// ---------------------------------------------------------------------------

/// Lexicographic "less than" of `a` against `b`, comparing from position `i`.
pub open spec fn lt_from(a: Seq<char>, b: Seq<char>, i: int) -> bool
    decreases a.len() - i,
{
    if i < 0 || i >= a.len() {
        i >= 0 && i < b.len()
    } else if i >= b.len() {
        false
    } else if a[i] != b[i] {
        (a[i] as u32) < (b[i] as u32)
    } else {
        lt_from(a, b, i + 1)
    }
}

/// `a` sorts strictly before `b`, as `str`'s `<` orders them.
pub open spec fn seq_lt(a: Seq<char>, b: Seq<char>) -> bool {
    lt_from(a, b, 0)
}

/// No text is below itself from any position on.
pub proof fn lemma_lt_from_irrefl(a: Seq<char>, i: int)
    requires
        0 <= i,
    ensures
        !lt_from(a, a, i),
    decreases a.len() - i,
{
    if i < a.len() {
        lemma_lt_from_irrefl(a, i + 1);
    }
}

/// Comparing from position `i` on is transitive.
pub proof fn lemma_lt_from_trans(a: Seq<char>, b: Seq<char>, c: Seq<char>, i: int)
    requires
        0 <= i,
        lt_from(a, b, i),
        lt_from(b, c, i),
    ensures
        lt_from(a, c, i),
    decreases a.len() - i,
{
    if i < a.len() && i < b.len() && i < c.len() && a[i] == b[i] && b[i] == c[i] {
        lemma_lt_from_trans(a, b, c, i + 1);
    }
}

/// From position `i` on, two texts compare one way or the other, or
/// their tails agree.
pub proof fn lemma_lt_from_total(a: Seq<char>, b: Seq<char>, i: int)
    requires
        0 <= i <= a.len(),
        i <= b.len(),
    ensures
        lt_from(a, b, i) || lt_from(b, a, i) || a.subrange(i, a.len() as int) =~= b.subrange(
            i,
            b.len() as int,
        ),
    decreases a.len() - i,
{
    if i == a.len() && i == b.len() {
        assert(a.subrange(i, a.len() as int) =~= b.subrange(i, b.len() as int));
    } else if i < a.len() && i < b.len() && a[i] != b[i] {
        vstd::utf8::char_u32_cast(a[i], a[i] as u32);
        vstd::utf8::char_u32_cast(b[i], b[i] as u32);
    } else if i < a.len() && i < b.len() && a[i] == b[i] {
        lemma_lt_from_total(a, b, i + 1);
        if a.subrange(i + 1, a.len() as int) =~= b.subrange(i + 1, b.len() as int) {
            assert(a.subrange(i, a.len() as int) =~= b.subrange(i, b.len() as int)) by {
                assert forall|k: int| 0 <= k < a.len() - i implies a.subrange(
                    i,
                    a.len() as int,
                )[k] == b.subrange(i, b.len() as int)[k] by {
                    if k > 0 {
                        assert(a.subrange(i + 1, a.len() as int)[k - 1] == b.subrange(
                            i + 1,
                            b.len() as int,
                        )[k - 1]);
                    }
                }
            }
        }
    }
}

/// No text sorts before itself.
pub proof fn lemma_seq_lt_irrefl(a: Seq<char>)
    ensures
        !seq_lt(a, a),
{
    lemma_lt_from_irrefl(a, 0);
}

/// Text order is transitive.
pub proof fn lemma_seq_lt_trans(a: Seq<char>, b: Seq<char>, c: Seq<char>)
    requires
        seq_lt(a, b),
        seq_lt(b, c),
    ensures
        seq_lt(a, c),
{
    lemma_lt_from_trans(a, b, c, 0);
}

/// Any two texts are equal or one sorts before the other.
pub proof fn lemma_seq_lt_total(a: Seq<char>, b: Seq<char>)
    ensures
        seq_lt(a, b) || seq_lt(b, a) || a == b,
{
    lemma_lt_from_total(a, b, 0);
    if a.subrange(0, a.len() as int) =~= b.subrange(0, b.len() as int) {
        assert(a =~= a.subrange(0, a.len() as int));
        assert(b =~= b.subrange(0, b.len() as int));
    }
}

/// The order facts used throughout: strict, transitive and total.
pub proof fn lemma_seq_lt_order()
    ensures
        forall|a: Seq<char>| !#[trigger] seq_lt(a, a),
        forall|a: Seq<char>, b: Seq<char>, c: Seq<char>|
            #[trigger] seq_lt(a, b) && #[trigger] seq_lt(b, c) ==> seq_lt(a, c),
        forall|a: Seq<char>, b: Seq<char>|
            #![trigger seq_lt(a, b), seq_lt(b, a)]
            seq_lt(a, b) || seq_lt(b, a) || a == b,
{
    assert forall|a: Seq<char>| !#[trigger] seq_lt(a, a) by {
        lemma_seq_lt_irrefl(a);
    }
    assert forall|a: Seq<char>, b: Seq<char>, c: Seq<char>|
        #[trigger] seq_lt(a, b) && #[trigger] seq_lt(b, c) implies seq_lt(a, c) by {
        lemma_seq_lt_trans(a, b, c);
    }
    assert forall|a: Seq<char>, b: Seq<char>|
        #![trigger seq_lt(a, b), seq_lt(b, a)]
        seq_lt(a, b) || seq_lt(b, a) || a == b by {
        lemma_seq_lt_total(a, b);
    }
}

/// `a < b` for strings, compared code point by code point.
pub fn str_lt(a: &str, b: &str) -> (r: bool)
    ensures
        r == seq_lt(a@, b@),
{
    let na = a.unicode_len();
    let nb = b.unicode_len();
    let mut i: usize = 0;
    while i < na && i < nb
        invariant
            na == a@.len(),
            nb == b@.len(),
            i <= na,
            i <= nb,
            seq_lt(a@, b@) == lt_from(a@, b@, i as int),
        decreases na - i,
    {
        let ca = a.get_char(i);
        let cb = b.get_char(i);
        if ca != cb {
            return (ca as u32) < (cb as u32);
        }
        i = i + 1;
    }
    i < nb && i >= na
}

/// String equality by content.
pub fn str_eq(a: &str, b: &str) -> (r: bool)
    ensures
        r == (a@ == b@),
{
    let na = a.unicode_len();
    let nb = b.unicode_len();
    if na != nb {
        return false;
    }
    let mut i: usize = 0;
    while i < na
        invariant
            na == a@.len(),
            nb == b@.len(),
            na == nb,
            i <= na,
            forall|k: int| 0 <= k < i ==> a@[k] == b@[k],
        decreases na - i,
    {
        if a.get_char(i) != b.get_char(i) {
            return false;
        }
        i = i + 1;
    }
    assert(a@ =~= b@);
    true
}

/// Whether `s` begins with `prefix`.
pub open spec fn seq_starts_with(s: Seq<char>, prefix: Seq<char>) -> bool {
    prefix.len() <= s.len() && s.subrange(0, prefix.len() as int) == prefix
}

/// Whether `s` begins with `prefix`.
pub fn str_starts_with(s: &str, prefix: &str) -> (r: bool)
    ensures
        r == seq_starts_with(s@, prefix@),
{
    let ns = s.unicode_len();
    let np = prefix.unicode_len();
    if np > ns {
        return false;
    }
    let mut i: usize = 0;
    while i < np
        invariant
            ns == s@.len(),
            np == prefix@.len(),
            np <= ns,
            i <= np,
            forall|k: int| 0 <= k < i ==> s@[k] == prefix@[k],
        decreases np - i,
    {
        if s.get_char(i) != prefix.get_char(i) {
            assert(s@.subrange(0, np as int)[i as int] != prefix@[i as int]);
            return false;
        }
        i = i + 1;
    }
    assert(s@.subrange(0, np as int) =~= prefix@);
    true
}

/// Whether `needle` occurs in `s` as a contiguous run.
pub open spec fn seq_contains(s: Seq<char>, needle: Seq<char>) -> bool {
    exists|i: int| 0 <= i && i + needle.len() <= s.len() && #[trigger] s.subrange(i, i + needle.len()) == needle
}

/// Whether `needle` occurs in `s` (std's `str::contains` with a string
/// pattern).
pub fn str_contains(s: &str, needle: &str) -> (r: bool)
    ensures
        r == seq_contains(s@, needle@),
{
    let ns = s.unicode_len();
    let nn = needle.unicode_len();
    if nn > ns {
        return false;
    }
    let mut i: usize = 0;
    while i <= ns - nn
        invariant
            ns == s@.len(),
            nn == needle@.len(),
            nn <= ns,
            i <= ns - nn + 1,
            forall|k: int| 0 <= k < i ==> #[trigger] s@.subrange(k, k + nn) != needle@,
        decreases ns - nn + 1 - i,
    {
        let mut j: usize = 0;
        let mut same = true;
        while j < nn
            invariant
                ns == s@.len(),
                nn == needle@.len(),
                i + nn <= ns,
                j <= nn,
                same == (forall|t: int| 0 <= t < j ==> s@[i + t] == needle@[t]),
            decreases nn - j,
        {
            if s.get_char(i + j) != needle.get_char(j) {
                same = false;
            }
            j = j + 1;
        }
        if same {
            assert(s@.subrange(i as int, i + nn) =~= needle@);
            return true;
        } else {
            proof {
                let t = choose|t: int| 0 <= t < nn && s@[i + t] != needle@[t];
                assert(s@.subrange(i as int, i + nn)[t] != needle@[t]);
            }
        }
        i = i + 1;
    }
    false
}

/// `parts` joined with ", " between consecutive items.
pub open spec fn comma_joined(parts: Seq<Seq<char>>) -> Seq<char>
    decreases parts.len(),
{
    if parts.len() == 0 {
        Seq::empty()
    } else if parts.len() == 1 {
        parts[0]
    } else {
        comma_joined(parts.drop_last()) + ", "@ + parts.last()
    }
}

/// The texts of `items`, in order.
pub open spec fn texts(items: Seq<String>) -> Seq<Seq<char>> {
    items.map_values(|s: String| s@)
}

/// Joins `items` with ", " (std's `join(", ")` on a slice of strings).
pub fn join_comma(items: &[String]) -> (r: String)
    ensures
        r@ == comma_joined(texts(items@)),
{
    let n = items.len();
    let mut r = String::new();
    let mut i: usize = 0;
    proof {
        reveal_strlit(", ");
    }
    while i < n
        invariant
            n == items@.len(),
            i <= n,
            r@ == comma_joined(texts(items@.subrange(0, i as int))),
        decreases n - i,
    {
        proof {
            assert(texts(items@.subrange(0, i + 1)).drop_last() =~= texts(items@.subrange(0, i as int)));
        }
        if i == 0 {
            r = owned(items[i].as_str());
        } else {
            r = concat(r.as_str(), ", ");
            r = concat(r.as_str(), items[i].as_str());
        }
        i = i + 1;
    }
    proof {
        assert(items@.subrange(0, n as int) =~= items@);
    }
    r
}

// ---------------------------------------------------------------------------
// Building strings.
// ---------------------------------------------------------------------------

/// Appends one character (std's `String::push`).
#[verifier::external_body]
pub(crate) fn push_char(s: &mut String, c: char)
    ensures
        final(s)@ == old(s)@.push(c),
{
    s.push(c)
}

/// An owned copy of `s` (std's `str::to_string`).
pub fn owned(s: &str) -> (r: String)
    ensures
        r@ == s@,
{
    s.to_owned()
}

/// `a` followed by `b`.
pub fn concat(a: &str, b: &str) -> (r: String)
    ensures
        r@ == a@ + b@,
{
    let mut r = a.to_owned();
    r.append(b);
    r
}

/// The lower-case form that std's `str::to_lowercase` produces.
pub uninterp spec fn lowercase(s: Seq<char>) -> Seq<char>;

/// Lower-cases `s` with std's `str::to_lowercase`, which maps every
/// character through Unicode's lower-case table; the contract only names
/// the result.
#[verifier::external_body]
pub(crate) fn to_lower(s: &str) -> (r: String)
    ensures
        r@ == lowercase(s@),
{
    s.to_lowercase()
}

// ---------------------------------------------------------------------------
// Decimal rendering.
// ---------------------------------------------------------------------------

/// The character of decimal digit `d`.
pub open spec fn digit_char(d: int) -> char {
    if d == 0 {
        '0'
    } else if d == 1 {
        '1'
    } else if d == 2 {
        '2'
    } else if d == 3 {
        '3'
    } else if d == 4 {
        '4'
    } else if d == 5 {
        '5'
    } else if d == 6 {
        '6'
    } else if d == 7 {
        '7'
    } else if d == 8 {
        '8'
    } else {
        '9'
    }
}

/// The value of an ASCII digit.
pub open spec fn digit_value(c: char) -> int {
    (c as u32) - ('0' as u32)
}

/// `c` is one of '0' to '9'.
pub open spec fn is_digit(c: char) -> bool {
    ('0' as u32) <= (c as u32) <= ('9' as u32)
}

/// Decimal digits of `n`, most significant first, no leading zeros.
pub open spec fn decimal(n: nat) -> Seq<char>
    decreases n,
{
    if n < 10 {
        seq![digit_char(n as int)]
    } else {
        decimal(n / 10).push(digit_char((n % 10) as int))
    }
}

/// `s` left-padded with zeros to at least `w` characters.
pub open spec fn pad_zero(s: Seq<char>, w: nat) -> Seq<char> {
    if s.len() >= w {
        s
    } else {
        Seq::new((w - s.len()) as nat, |i: int| '0') + s
    }
}

/// What Rust's `{:0w$}` renders for the integer `v` (the sign counts
/// toward the width).
pub open spec fn int_text_pad(v: int, w: nat) -> Seq<char> {
    if v >= 0 {
        pad_zero(decimal(v as nat), w)
    } else {
        seq!['-'] + pad_zero(decimal((-v) as nat), if w >= 1 {
            (w - 1) as nat
        } else {
            0
        })
    }
}

/// Every character is an ASCII digit.
pub open spec fn all_digits(s: Seq<char>) -> bool {
    forall|i: int| 0 <= i < s.len() ==> is_digit(s[i])
}

/// The value of a run of decimal digits.
pub open spec fn digits_value(s: Seq<char>) -> int
    decreases s.len(),
{
    if s.len() == 0 {
        0
    } else {
        digits_value(s.drop_last()) * 10 + digit_value(s.last())
    }
}

/// The value of the text Rust's integer parsing accepts for a signed type:
/// an optional `+` or `-`, then at least one ASCII digit.
pub open spec fn signed_text_value(s: Seq<char>) -> Option<int> {
    if s.len() > 0 && (s[0] == '-' || s[0] == '+') {
        let body = s.skip(1);
        if body.len() > 0 && all_digits(body) {
            Some(
                if s[0] == '-' {
                    -digits_value(body)
                } else {
                    digits_value(body)
                },
            )
        } else {
            None
        }
    } else if s.len() > 0 && all_digits(s) {
        Some(digits_value(s))
    } else {
        None
    }
}

/// What `s.parse::<i64>()` yields.
pub open spec fn i64_text_value(s: Seq<char>) -> Option<int> {
    match signed_text_value(s) {
        Some(v) => if i64::MIN <= v <= i64::MAX {
            Some(v)
        } else {
            None
        },
        None => None,
    }
}

/// The value of the text Rust's integer parsing accepts for an unsigned
/// type: an optional `+`, then at least one ASCII digit.
pub open spec fn unsigned_text_value(s: Seq<char>) -> Option<int> {
    if s.len() > 0 && s[0] == '+' {
        let body = s.skip(1);
        if body.len() > 0 && all_digits(body) {
            Some(digits_value(body))
        } else {
            None
        }
    } else if s.len() > 0 && all_digits(s) {
        Some(digits_value(s))
    } else {
        None
    }
}

/// What `s.parse::<u32>()` yields.
pub open spec fn u32_text_value(s: Seq<char>) -> Option<int> {
    match unsigned_text_value(s) {
        Some(v) => if v <= u32::MAX {
            Some(v)
        } else {
            None
        },
        None => None,
    }
}

proof fn lemma_digits_value_nonneg(s: Seq<char>)
    requires
        all_digits(s),
    ensures
        digits_value(s) >= 0,
    decreases s.len(),
{
    if s.len() > 0 {
        assert(all_digits(s.drop_last()));
        lemma_digits_value_nonneg(s.drop_last());
        assert(is_digit(s[s.len() - 1]));
    }
}

/// A longer run of digits is worth at least as much as its prefix.
proof fn lemma_digits_value_grows(s: Seq<char>, k: int)
    requires
        all_digits(s),
        0 <= k <= s.len(),
    ensures
        digits_value(s.take(k)) <= digits_value(s),
    decreases s.len(),
{
    if k < s.len() {
        assert(all_digits(s.drop_last()));
        assert(s.drop_last().take(k) =~= s.take(k));
        lemma_digits_value_grows(s.drop_last(), k);
        lemma_digits_value_nonneg(s.drop_last());
        assert(is_digit(s[s.len() - 1]));
    } else {
        assert(s.take(k) =~= s);
    }
}

/// The digits `s[from..]`, when there is at least one, all are digits and
/// their value is at most `cap`.
fn read_digits(s: &str, from: usize, cap: u128) -> (r: Option<u128>)
    requires
        from <= s@.len(),
    ensures
        r matches Some(v) ==> s@.len() > from && all_digits(s@.skip(from as int)) && v == digits_value(
            s@.skip(from as int),
        ) && v <= cap,
        r is None ==> !(s@.len() > from && all_digits(s@.skip(from as int)) && digits_value(
            s@.skip(from as int),
        ) <= cap),
{
    let n = s.unicode_len();
    if n == from {
        return None;
    }
    let ghost body = s@.skip(from as int);
    let mut acc: u128 = 0;
    let mut i: usize = from;
    while i < n
        invariant
            n == s@.len(),
            from <= i <= n,
            body == s@.skip(from as int),
            all_digits(body.take(i - from)),
            acc == digits_value(body.take(i - from)),
            acc <= cap,
        decreases n - i,
    {
        let c = s.get_char(i);
        let ghost k = i - from;
        proof {
            assert(body[k] == c);
            assert(body.take(k + 1).drop_last() =~= body.take(k));
        }
        if (c as u32) < 48 || (c as u32) > 57 {
            proof {
                assert(!is_digit(body[k]));
            }
            return None;
        }
        let d = ((c as u32) - 48) as u128;
        proof {
            assert(all_digits(body.take(k + 1)));
        }
        if d > cap || acc > (cap - d) / 10 {
            proof {
                assert(acc * 10 + d > cap) by (nonlinear_arith)
                    requires
                        d > cap || (d <= cap && acc > (cap - d) / 10),
                        0 <= d <= 9,
                        acc >= 0,
                ;
                if all_digits(body) {
                    lemma_digits_value_grows(body, k + 1);
                }
            }
            return None;
        }
        acc = acc * 10 + d;
        i = i + 1;
    }
    proof {
        assert(body.take(n - from) =~= body);
    }
    Some(acc)
}

/// Reads `s` as `s.parse::<i64>()` does.
pub fn parse_i64(s: &str) -> (r: Option<i64>)
    ensures
        r is Some <==> i64_text_value(s@) is Some,
        r matches Some(v) ==> i64_text_value(s@) == Some(v as int),
{
    let n = s.unicode_len();
    if n == 0 {
        return None;
    }
    let c = s.get_char(0);
    if c == '-' {
        match read_digits(s, 1, 9223372036854775808) {
            Some(v) => {
                if v == 9223372036854775808 {
                    Some(i64::MIN)
                } else {
                    Some(-(v as i64))
                }
            },
            None => {
                proof {
                    if s@.skip(1).len() > 0 && all_digits(s@.skip(1)) {
                        lemma_digits_value_nonneg(s@.skip(1));
                    }
                }
                None
            },
        }
    } else if c == '+' {
        match read_digits(s, 1, 9223372036854775807) {
            Some(v) => Some(v as i64),
            None => None,
        }
    } else {
        proof {
            assert(s@.skip(0) =~= s@);
        }
        match read_digits(s, 0, 9223372036854775807) {
            Some(v) => Some(v as i64),
            None => None,
        }
    }
}

/// Reads `s` as `s.parse::<u32>()` does.
pub fn parse_u32(s: &str) -> (r: Option<u32>)
    ensures
        r is Some <==> u32_text_value(s@) is Some,
        r matches Some(v) ==> u32_text_value(s@) == Some(v as int),
{
    let n = s.unicode_len();
    if n == 0 {
        return None;
    }
    let c = s.get_char(0);
    if c == '+' {
        match read_digits(s, 1, 4294967295) {
            Some(v) => Some(v as u32),
            None => None,
        }
    } else {
        proof {
            assert(s@.skip(0) =~= s@);
        }
        match read_digits(s, 0, 4294967295) {
            Some(v) => Some(v as u32),
            None => None,
        }
    }
}

/// The characters of `s` from position `from` on.
pub fn tail_from(s: &str, from: usize) -> (r: String)
    requires
        from <= s@.len(),
    ensures
        r@ == s@.skip(from as int),
{
    let n = s.unicode_len();
    let mut r = String::new();
    let mut i: usize = from;
    while i < n
        invariant
            n == s@.len(),
            from <= i <= n,
            r@ == s@.subrange(from as int, i as int),
        decreases n - i,
    {
        push_char(&mut r, s.get_char(i));
        i = i + 1;
        proof {
            assert(r@ =~= s@.subrange(from as int, i as int));
        }
    }
    proof {
        assert(s@.subrange(from as int, n as int) =~= s@.skip(from as int));
    }
    r
}

/// `s` followed by spaces up to `w` characters (`{:<w}`).
pub open spec fn pad_right(s: Seq<char>, w: nat) -> Seq<char> {
    if s.len() >= w {
        s
    } else {
        s + Seq::new((w - s.len()) as nat, |i: int| ' ')
    }
}

/// Spaces up to `w` characters followed by `s` (`{:>w}`).
pub open spec fn pad_left(s: Seq<char>, w: nat) -> Seq<char> {
    if s.len() >= w {
        s
    } else {
        Seq::new((w - s.len()) as nat, |i: int| ' ') + s
    }
}

fn spaces(n: usize) -> (r: String)
    ensures
        r@ == Seq::new(n as nat, |i: int| ' '),
{
    let mut r = String::new();
    let mut i: usize = 0;
    while i < n
        invariant
            i <= n,
            r@ == Seq::new(i as nat, |k: int| ' '),
        decreases n - i,
    {
        push_char(&mut r, ' ');
        i = i + 1;
        proof {
            assert(r@ =~= Seq::new(i as nat, |k: int| ' '));
        }
    }
    r
}

/// `s` left-aligned in a field of `w` characters.
pub fn align_left(s: &str, w: usize) -> (r: String)
    ensures
        r@ == pad_right(s@, w as nat),
{
    let n = s.unicode_len();
    if n >= w {
        owned(s)
    } else {
        concat(s, spaces(w - n).as_str())
    }
}

/// `s` right-aligned in a field of `w` characters.
pub fn align_right(s: &str, w: usize) -> (r: String)
    ensures
        r@ == pad_left(s@, w as nat),
{
    let n = s.unicode_len();
    if n >= w {
        owned(s)
    } else {
        concat(spaces(w - n).as_str(), s)
    }
}

/// Unicode's White_Space characters, which std's `char::is_whitespace`
/// and `str::trim` go by.
pub open spec fn is_white_space(c: char) -> bool {
    let u = c as u32;
    (0x9 <= u <= 0xD) || u == 0x20 || u == 0x85 || u == 0xA0 || u == 0x1680 || (0x2000 <= u
        <= 0x200A) || u == 0x2028 || u == 0x2029 || u == 0x202F || u == 0x205F || u == 0x3000
}

/// `s` without its leading and trailing white space.
pub open spec fn trimmed(s: Seq<char>) -> Seq<char> {
    let lead = if exists|i: int| 0 <= i < s.len() && !is_white_space(#[trigger] s[i]) {
        choose|i: int|
            0 <= i < s.len() && !is_white_space(s[i]) && forall|j: int|
                0 <= j < i ==> is_white_space(#[trigger] s[j])
    } else {
        s.len() as int
    };
    let end = if exists|i: int| 0 <= i < s.len() && !is_white_space(#[trigger] s[i]) {
        1 + choose|i: int|
            0 <= i < s.len() && !is_white_space(s[i]) && forall|j: int|
                i < j < s.len() ==> is_white_space(#[trigger] s[j])
    } else {
        s.len() as int
    };
    s.subrange(lead, end)
}

fn white_space(c: char) -> (r: bool)
    ensures
        r == is_white_space(c),
{
    let u = c as u32;
    (0x9 <= u && u <= 0xD) || u == 0x20 || u == 0x85 || u == 0xA0 || u == 0x1680 || (0x2000 <= u
        && u <= 0x200A) || u == 0x2028 || u == 0x2029 || u == 0x202F || u == 0x205F || u == 0x3000
}

/// `s` without its leading and trailing white space (std's `str::trim`).
pub fn trim(s: &str) -> (r: String)
    ensures
        r@ == trimmed(s@),
{
    let n = s.unicode_len();
    let mut lead: usize = 0;
    while lead < n && white_space(s.get_char(lead))
        invariant
            n == s@.len(),
            lead <= n,
            forall|j: int| 0 <= j < lead ==> is_white_space(#[trigger] s@[j]),
        decreases n - lead,
    {
        lead = lead + 1;
    }
    if lead == n {
        proof {
            assert(!exists|i: int| 0 <= i < s@.len() && !is_white_space(#[trigger] s@[i]));
            assert(s@.subrange(n as int, n as int) =~= Seq::<char>::empty());
        }
        return String::new();
    }
    let mut end: usize = n;
    while end > lead && white_space(s.get_char(end - 1))
        invariant
            n == s@.len(),
            lead < n,
            !is_white_space(s@[lead as int]),
            lead <= end <= n,
            forall|j: int| end <= j < n ==> is_white_space(#[trigger] s@[j]),
        decreases end,
    {
        end = end - 1;
    }
    proof {
        assert(end > lead);
        let first = choose|i: int|
            0 <= i < s@.len() && !is_white_space(s@[i]) && forall|j: int|
                0 <= j < i ==> is_white_space(#[trigger] s@[j]);
        assert(0 <= lead < s@.len() && !is_white_space(s@[lead as int]) && forall|j: int|
            0 <= j < lead ==> is_white_space(#[trigger] s@[j]));
        if first < lead {
            assert(is_white_space(s@[first]));
        }
        if first > lead {
            assert(is_white_space(s@[lead as int]));
        }
        let last = choose|i: int|
            0 <= i < s@.len() && !is_white_space(s@[i]) && forall|j: int|
                i < j < s@.len() ==> is_white_space(#[trigger] s@[j]);
        assert(0 <= end - 1 < s@.len() && !is_white_space(s@[end - 1]) && forall|j: int|
            end - 1 < j < s@.len() ==> is_white_space(#[trigger] s@[j]));
        if last < end - 1 {
            assert(is_white_space(s@[end - 1]));
        }
        if last > end - 1 {
            assert(is_white_space(s@[last]));
        }
    }
    let mut r = String::new();
    let mut i: usize = lead;
    while i < end
        invariant
            n == s@.len(),
            lead <= i <= end <= n,
            r@ == s@.subrange(lead as int, i as int),
        decreases end - i,
    {
        push_char(&mut r, s.get_char(i));
        i = i + 1;
        proof {
            assert(r@ =~= s@.subrange(lead as int, i as int));
        }
    }
    r
}

fn digit_of(d: u64) -> (c: char)
    requires
        d < 10,
    ensures
        c == digit_char(d as int),
{
    if d == 0 {
        '0'
    } else if d == 1 {
        '1'
    } else if d == 2 {
        '2'
    } else if d == 3 {
        '3'
    } else if d == 4 {
        '4'
    } else if d == 5 {
        '5'
    } else if d == 6 {
        '6'
    } else if d == 7 {
        '7'
    } else if d == 8 {
        '8'
    } else {
        '9'
    }
}

/// Decimal text of `n`.
pub fn fmt_u64(n: u64) -> (s: String)
    ensures
        s@ == decimal(n as nat),
    decreases n,
{
    if n < 10 {
        let mut s = String::new();
        push_char(&mut s, digit_of(n));
        assert(s@ =~= decimal(n as nat));
        s
    } else {
        let mut s = fmt_u64(n / 10);
        push_char(&mut s, digit_of(n % 10));
        s
    }
}

/// `s` left-padded with zeros to `w` characters.
fn pad_zeros(s: String, w: usize) -> (r: String)
    ensures
        r@ == pad_zero(s@, w as nat),
{
    let n = s.as_str().unicode_len();
    if n >= w {
        return s;
    }
    let mut r = String::new();
    let mut i: usize = 0;
    while i < w - n
        invariant
            n == s@.len(),
            n < w,
            i <= w - n,
            r@ =~= Seq::new(i as nat, |k: int| '0'),
        decreases w - n - i,
    {
        push_char(&mut r, '0');
        i = i + 1;
    }
    let r = concat(r.as_str(), s.as_str());
    r
}

/// What `format!("{v:0w$}")` renders for `v`.
pub fn fmt_int_padded(v: i64, w: usize) -> (s: String)
    ensures
        s@ == int_text_pad(v as int, w as nat),
{
    if v >= 0 {
        pad_zeros(fmt_u64(v as u64), w)
    } else {
        let mag: u64 = if v == i64::MIN {
            9223372036854775808u64
        } else {
            (-v) as u64
        };
        let body = pad_zeros(fmt_u64(mag), if w >= 1 {
            w - 1
        } else {
            0
        });
        let r = concat("-", body.as_str());
        proof {
            reveal_strlit("-");
        }
        r
    }
}

/// Decimal text of a signed integer.
pub fn fmt_i64(v: i64) -> (s: String)
    ensures
        s@ == int_text_pad(v as int, 0),
{
    fmt_int_padded(v, 0)
}

/// A cent amount rendered as dollars with two decimals, `-12.05` style.
pub open spec fn cents_text(c: int) -> Seq<char> {
    let mag = if c >= 0 {
        c
    } else {
        -c
    };
    let body = decimal((mag / 100) as nat) + seq!['.'] + pad_zero(
        decimal((mag % 100) as nat),
        2,
    );
    if c >= 0 {
        body
    } else {
        seq!['-'] + body
    }
}

/// Renders a cent amount as dollars and cents.
pub fn fmt_cents(c: i128) -> (s: String)
    requires
        -18446744073709551615 <= c <= 18446744073709551615,
    ensures
        s@ == cents_text(c as int),
{
    let mag: u128 = if c >= 0 {
        c as u128
    } else {
        (-c) as u128
    };
    let whole = fmt_u64((mag / 100) as u64);
    let frac = pad_zeros(fmt_u64((mag % 100) as u64), 2);
    let mut body = whole;
    push_char(&mut body, '.');
    let body = concat(body.as_str(), frac.as_str());
    if c >= 0 {
        body
    } else {
        proof {
            reveal_strlit("-");
        }
        concat("-", body.as_str())
    }
}

} // verus!
