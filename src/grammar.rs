//! The grammar, stated as spec functions over the input bytes.
//!
//! Each function describes what parsing at a byte position yields: a value and
//! the position just past it, or the error. Whitespace (space, tab, line feed,
//! carriage return) may stand around every value and punctuation mark. Empty
//! arrays `[]` and empty objects `{}` are both accepted.
use vstd::prelude::*;
use crate::error::{error_at, ErrorKind, Expected, ParseError};
use crate::text::chars_of;
use crate::value::Json;

verus! {

/// How many containers may enclose one another.
pub const MAX_DEPTH: usize = 128;

pub open spec fn is_ws(c: u8) -> bool {
    c == 0x20 || c == 0x09 || c == 0x0a || c == 0x0d
}

pub open spec fn is_digit(c: u8) -> bool {
    0x30 <= c <= 0x39
}

/// The number of whitespace bytes starting at `p`.
pub open spec fn ws_len(s: Seq<u8>, p: int) -> nat
    decreases s.len() - p,
{
    if 0 <= p < s.len() && is_ws(s[p]) {
        1 + ws_len(s, p + 1)
    } else {
        0
    }
}

pub open spec fn skip_ws(s: Seq<u8>, p: int) -> int {
    p + ws_len(s, p)
}

/// The number of ASCII digits starting at `p`.
pub open spec fn digits_len(s: Seq<u8>, p: int) -> nat
    decreases s.len() - p,
{
    if 0 <= p < s.len() && is_digit(s[p]) {
        1 + digits_len(s, p + 1)
    } else {
        0
    }
}

/// The decimal number that the digits `s[a..e]` spell.
pub open spec fn digits_value(s: Seq<u8>, a: int, e: int) -> int
    decreases e - a,
{
    if e <= a {
        0
    } else {
        digits_value(s, a, e - 1) * 10 + (s[e - 1] - 0x30)
    }
}

/// The number of bytes from `p` up to the next `"`, or to the end of the input.
pub open spec fn unquoted_len(s: Seq<u8>, p: int) -> nat
    decreases s.len() - p,
{
    if 0 <= p < s.len() && s[p] != 0x22 {
        1 + unquoted_len(s, p + 1)
    } else {
        0
    }
}

pub open spec fn starts_with(s: Seq<u8>, p: int, lit: Seq<u8>) -> bool {
    0 <= p && p + lit.len() <= s.len() && s.subrange(p, p + lit.len()) == lit
}

pub open spec fn lit_null() -> Seq<u8> {
    seq![0x6e, 0x75, 0x6c, 0x6c]
}

pub open spec fn lit_true() -> Seq<u8> {
    seq![0x74, 0x72, 0x75, 0x65]
}

pub open spec fn lit_false() -> Seq<u8> {
    seq![0x66, 0x61, 0x6c, 0x73, 0x65]
}

/// A byte that, right after a digit run, makes the literal a floating-point one.
pub open spec fn is_float_marker(c: u8) -> bool {
    c == 0x2e || c == 0x65 || c == 0x45
}

pub open spec fn fits_i64(v: int) -> bool {
    i64::MIN <= v <= i64::MAX
}

/// An integer literal at `p`: an optional `-` and a digit run that is not followed
/// by `.`, `e` or `E`, whose value fits in 64 signed bits.
pub open spec fn spec_integer(s: Seq<u8>, p: int) -> Option<(Json, int)> {
    let q = if 0 <= p < s.len() && s[p] == 0x2d { p + 1 } else { p };
    let e = q + digits_len(s, q);
    let mag = digits_value(s, q, e);
    let v = if q > p { -mag } else { mag };
    if e > q && !(e < s.len() && is_float_marker(s[e])) && fits_i64(v) {
        Some((Json::Integer(v), e))
    } else {
        None
    }
}

/// The end of an optional fraction (`.` and a digit run) at `p`.
pub open spec fn fraction_end(s: Seq<u8>, p: int) -> int {
    if 0 <= p < s.len() && s[p] == 0x2e && digits_len(s, p + 1) > 0 {
        p + 1 + digits_len(s, p + 1)
    } else {
        p
    }
}

pub open spec fn is_sign(c: u8) -> bool {
    c == 0x2b || c == 0x2d
}

/// The end of an optional exponent (`e` or `E`, an optional sign, a digit run) at `p`.
pub open spec fn exponent_end(s: Seq<u8>, p: int) -> int {
    let q = if p + 1 < s.len() && is_sign(s[p + 1]) { p + 2 } else { p + 1 };
    if 0 <= p < s.len() && (s[p] == 0x65 || s[p] == 0x45) && digits_len(s, q) > 0 {
        q + digits_len(s, q)
    } else {
        p
    }
}

/// A floating-point literal at `p`: an optional sign, a digit run, an optional
/// fraction and an optional exponent. The value keeps the literal's text.
pub open spec fn spec_number(s: Seq<u8>, p: int) -> Option<(Json, int)> {
    let q = if 0 <= p < s.len() && is_sign(s[p]) { p + 1 } else { p };
    let e1 = q + digits_len(s, q);
    let e = exponent_end(s, fraction_end(s, e1));
    if digits_len(s, q) > 0 {
        Some((Json::Number(chars_of(s, p, e)), e))
    } else {
        None
    }
}

/// A quoted text at `p` (where `s[p]` is `"`): its raw content and the end.
pub open spec fn spec_quoted(s: Seq<u8>, p: int) -> Result<(Seq<char>, int), ParseError> {
    let c = p + 1 + unquoted_len(s, p + 1);
    if c >= s.len() {
        Err(error_at(p, ErrorKind::UnterminatedString))
    } else {
        Ok((chars_of(s, p + 1, c), c + 1))
    }
}

pub open spec fn unexpected(s: Seq<u8>, p: int, expected: Expected) -> ParseError {
    error_at(p, ErrorKind::UnexpectedToken { expected, found: if 0 <= p < s.len() { Some(s[p]) } else { None } })
}

pub open spec fn unterminated(s: Seq<u8>, delimiter: u8) -> ParseError {
    error_at(s.len() as int, ErrorKind::UnterminatedContainer { delimiter })
}

/// The value at `p` (no leading whitespace), `depth` containers deep: the forms are
/// tried in the order null, boolean, integer, number, string, array, object.
pub open spec fn spec_value(s: Seq<u8>, p: int, depth: int) -> Result<(Json, int), ParseError>
    decreases MAX_DEPTH - depth, s.len() - p, 2int,
{
    if p < 0 || p >= s.len() {
        Err(unexpected(s, p, Expected::Value))
    } else if starts_with(s, p, lit_null()) {
        Ok((Json::Null, p + 4))
    } else if starts_with(s, p, lit_true()) {
        Ok((Json::Boolean(true), p + 4))
    } else if starts_with(s, p, lit_false()) {
        Ok((Json::Boolean(false), p + 5))
    } else if spec_integer(s, p) is Some {
        Ok(spec_integer(s, p).unwrap())
    } else if spec_number(s, p) is Some {
        Ok(spec_number(s, p).unwrap())
    } else if s[p] == 0x22 {
        match spec_quoted(s, p) {
            Ok((t, e)) => Ok((Json::Str(t), e)),
            Err(err) => Err(err),
        }
    } else if s[p] == 0x5b {
        spec_array(s, p, depth)
    } else if s[p] == 0x7b {
        spec_object(s, p, depth)
    } else {
        Err(unexpected(s, p, Expected::Value))
    }
}

/// An array opening at `p`, itself `depth` containers deep.
pub open spec fn spec_array(s: Seq<u8>, p: int, depth: int) -> Result<(Json, int), ParseError>
    decreases MAX_DEPTH - depth, s.len() - p, 1int,
{
    let q = skip_ws(s, p + 1);
    if depth >= MAX_DEPTH {
        Err(error_at(p, ErrorKind::DepthExceeded))
    } else if q >= s.len() {
        Err(unterminated(s, 0x5b))
    } else if s[q] == 0x5d {
        Ok((Json::Array(seq![]), q + 1))
    } else {
        spec_elements(s, q, depth, seq![])
    }
}

/// The elements of an array from `q` on, after the elements `items`.
pub open spec fn spec_elements(s: Seq<u8>, q: int, depth: int, items: Seq<Json>) -> Result<(Json, int), ParseError>
    decreases MAX_DEPTH - depth, s.len() - q, 0int,
{
    if depth >= MAX_DEPTH || q < 0 || q >= s.len() {
        Err(error_at(q, ErrorKind::DepthExceeded))
    } else {
        match spec_value(s, q, depth + 1) {
            Err(err) => Err(err),
            Ok((v, e)) => {
                let r = skip_ws(s, e);
                let t = skip_ws(s, r + 1);
                if e <= q || r >= s.len() {
                    Err(unterminated(s, 0x5b))
                } else if s[r] == 0x5d {
                    Ok((Json::Array(items.push(v)), r + 1))
                } else if s[r] != 0x2c {
                    Err(unexpected(s, r, Expected::CommaOrClose))
                } else if t >= s.len() {
                    Err(unterminated(s, 0x5b))
                } else {
                    spec_elements(s, t, depth, items.push(v))
                }
            },
        }
    }
}

/// The index of the member with key `k` in `m`, from `i` on, or -1.
pub open spec fn find_key(m: Seq<(Seq<char>, Json)>, k: Seq<char>, i: int) -> int
    decreases m.len() - i,
{
    if i < 0 || i >= m.len() {
        -1
    } else if m[i].0 == k {
        i
    } else {
        find_key(m, k, i + 1)
    }
}

/// The members `m` with `k` set to `v`: a key seen before keeps its place and
/// takes the new value.
pub open spec fn put_member(m: Seq<(Seq<char>, Json)>, k: Seq<char>, v: Json) -> Seq<(Seq<char>, Json)> {
    let i = find_key(m, k, 0);
    if i >= 0 {
        m.update(i, (k, v))
    } else {
        m.push((k, v))
    }
}

/// An object opening at `p`, itself `depth` containers deep.
pub open spec fn spec_object(s: Seq<u8>, p: int, depth: int) -> Result<(Json, int), ParseError>
    decreases MAX_DEPTH - depth, s.len() - p, 1int,
{
    let q = skip_ws(s, p + 1);
    if depth >= MAX_DEPTH {
        Err(error_at(p, ErrorKind::DepthExceeded))
    } else if q >= s.len() {
        Err(unterminated(s, 0x7b))
    } else if s[q] == 0x7d {
        Ok((Json::Object(seq![]), q + 1))
    } else {
        spec_members(s, q, depth, seq![])
    }
}

/// The members of an object from `q` on, after the members `m`.
pub open spec fn spec_members(s: Seq<u8>, q: int, depth: int, m: Seq<(Seq<char>, Json)>) -> Result<(Json, int), ParseError>
    decreases MAX_DEPTH - depth, s.len() - q, 0int,
{
    if depth >= MAX_DEPTH || q < 0 || q >= s.len() {
        Err(error_at(q, ErrorKind::DepthExceeded))
    } else if s[q] != 0x22 {
        Err(unexpected(s, q, Expected::Key))
    } else {
        match spec_quoted(s, q) {
            Err(err) => Err(err),
            Ok((k, c)) => {
                let r = skip_ws(s, c);
                let t = skip_ws(s, r + 1);
                if r >= s.len() {
                    Err(unterminated(s, 0x7b))
                } else if s[r] != 0x3a {
                    Err(unexpected(s, r, Expected::Colon))
                } else if t >= s.len() {
                    Err(unterminated(s, 0x7b))
                } else {
                    match spec_value(s, t, depth + 1) {
                        Err(err) => Err(err),
                        Ok((v, e)) => {
                            let m2 = put_member(m, k, v);
                            let u = skip_ws(s, e);
                            let w = skip_ws(s, u + 1);
                            if e <= q || u >= s.len() {
                                Err(unterminated(s, 0x7b))
                            } else if s[u] == 0x7d {
                                Ok((Json::Object(m2), u + 1))
                            } else if s[u] != 0x2c {
                                Err(unexpected(s, u, Expected::CommaOrClose))
                            } else if w >= s.len() {
                                Err(unterminated(s, 0x7b))
                            } else {
                                spec_members(s, w, depth, m2)
                            }
                        },
                    }
                }
            },
        }
    }
}

/// A whole document: one value with only whitespace around it.
pub open spec fn spec_parse(s: Seq<u8>) -> Result<Json, ParseError> {
    let p = skip_ws(s, 0);
    if p >= s.len() {
        Err(error_at(s.len() as int, ErrorKind::EmptyInput))
    } else {
        match spec_value(s, p, 0) {
            Err(err) => Err(err),
            Ok((v, e)) => {
                let r = skip_ws(s, e);
                if r < s.len() {
                    Err(error_at(r, ErrorKind::TrailingContent))
                } else {
                    Ok(v)
                }
            },
        }
    }
}

/// A whole document that must be an object, with only whitespace around it.
pub open spec fn spec_parse_object_document(s: Seq<u8>) -> Result<Json, ParseError> {
    let p = skip_ws(s, 0);
    if p >= s.len() {
        Err(error_at(s.len() as int, ErrorKind::EmptyInput))
    } else if s[p] != 0x7b {
        Err(unexpected(s, p, Expected::Object))
    } else {
        spec_parse(s)
    }
}

} // verus!
