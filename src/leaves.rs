//! Parsers for the values without parts: literals, numbers and strings.
use vstd::prelude::*;
use vstd::string::StringSliceAdditionalSpecFns;
use crate::error::{ErrorKind, ParseError};
use crate::grammar::{
    digits_len, digits_value, exponent_end, fraction_end, is_digit, spec_integer, spec_number,
    spec_quoted,
};
use crate::scanner::{find_quote, scan_digit_run};
use crate::text::{ascii_edge, text_between};
use crate::value::Json;

verus! {

/// The largest magnitude that a 64-bit signed integer can have (that of `i64::MIN`).
const MAGNITUDE_LIMIT: u64 = 9223372036854775808;

/// An integer literal at `p`, or `None` where none stands (no digits, a fraction or
/// exponent follows, or the value does not fit in 64 signed bits).
pub fn parse_integer(b: &[u8], p: usize) -> (r: Option<(i64, usize)>)
    requires
        p < b@.len(),
    ensures
        match r {
            Some((v, e)) => spec_integer(b@, p as int) == Some((Json::Integer(v as int), e as int)),
            None => spec_integer(b@, p as int) is None,
        },
        r is Some ==> p < r->Some_0.1 <= b@.len(),
{
    let negative = b[p] == 0x2d;
    let q = if negative { p + 1 } else { p };
    let ghost s = b@;
    let mut mag: u64 = 0;
    let mut too_big = false;
    let mut i = q;
    while i < b.len() && 0x30 <= b[i] && b[i] <= 0x39
        invariant
            q <= i <= s.len(),
            s == b@,
            q + digits_len(s, q as int) == i + digits_len(s, i as int),
            !too_big ==> mag as int == digits_value(s, q as int, i as int) && mag <= MAGNITUDE_LIMIT,
            too_big ==> digits_value(s, q as int, i as int) > MAGNITUDE_LIMIT,
        decreases s.len() - i,
    {
        let d = (b[i] - 0x30) as u64;
        assert(digits_value(s, q as int, i + 1) == digits_value(s, q as int, i as int) * 10 + d);
        if !too_big {
            if mag > (MAGNITUDE_LIMIT - d) / 10 {
                too_big = true;
            } else {
                mag = mag * 10 + d;
            }
        }
        i = i + 1;
    }
    let e = i;
    if e == q || (e < b.len() && (b[e] == 0x2e || b[e] == 0x65 || b[e] == 0x45)) || too_big {
        return None;
    }
    if negative {
        if mag == MAGNITUDE_LIMIT {
            Some((i64::MIN, e))
        } else {
            Some((-(mag as i64), e))
        }
    } else if mag > i64::MAX as u64 {
        None
    } else {
        Some((mag as i64, e))
    }
}

/// The end of a floating-point literal at `p`, or `None` where none stands.
pub fn scan_number(b: &[u8], p: usize) -> (r: Option<usize>)
    requires
        p < b@.len(),
    ensures
        match r {
            Some(e) => spec_number(b@, p as int) is Some && spec_number(b@, p as int).unwrap().1 == e
                && p < e <= b@.len() && ascii_edge(b@, p as int) && ascii_edge(b@, e as int),
            None => spec_number(b@, p as int) is None,
        },
{
    let q = if b[p] == 0x2b || b[p] == 0x2d { p + 1 } else { p };
    let e1 = scan_digit_run(b, q);
    if e1 == q {
        return None;
    }
    let mut e = e1;
    if e < b.len() && b[e] == 0x2e {
        let f = scan_digit_run(b, e + 1);
        if f > e + 1 {
            e = f;
        }
    }
    assert(e == fraction_end(b@, e1 as int));
    let e2 = e;
    if e < b.len() && (b[e] == 0x65 || b[e] == 0x45) {
        let r = if e + 1 < b.len() && (b[e + 1] == 0x2b || b[e + 1] == 0x2d) { e + 2 } else { e + 1 };
        let x = scan_digit_run(b, r);
        if x > r {
            e = x;
        }
    }
    assert(e == exponent_end(b@, e2 as int));
    assert(is_digit(b@[e - 1]));
    Some(e)
}

/// A quoted text at `p`: its raw content, and the position after the closing quote.
pub fn scan_quoted_text(text: &str, b: &[u8], p: usize) -> (r: Result<(String, usize), ParseError>)
    requires
        b@ == text.spec_bytes(),
        p < b@.len(),
        b@[p as int] == 0x22,
    ensures
        match r {
            Ok((t, e)) => spec_quoted(b@, p as int) == Ok::<(Seq<char>, int), ParseError>((t@, e as int))
                && p < e <= b@.len(),
            Err(err) => spec_quoted(b@, p as int) == Err::<(Seq<char>, int), ParseError>(err),
        },
{
    let n = b.len();
    let c = find_quote(b, p + 1);
    if c >= n {
        return Err(ParseError::new(p, ErrorKind::UnterminatedString));
    }
    let t = text_between(text, p + 1, c);
    Ok((t, c + 1))
}

} // verus!
