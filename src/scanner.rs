//! Primitive scanners over the input bytes. Each takes a position and returns
//! the position after what it matched; the caller keeps the position it started
//! from, so a failed attempt consumes nothing.
use vstd::prelude::*;
use crate::grammar::{digits_len, is_digit, skip_ws, starts_with, unquoted_len, ws_len};

verus! {

/// Whether the bytes at `p` are exactly `lit`.
pub fn match_literal(b: &[u8], p: usize, lit: &[u8]) -> (r: bool)
    requires
        p <= b@.len(),
    ensures
        r == starts_with(b@, p as int, lit@),
{
    if lit.len() > b.len() - p {
        return false;
    }
    let n = b.len();
    let mut i: usize = 0;
    while i < lit.len()
        invariant
            n == b@.len(),
            p + lit@.len() <= b@.len(),
            0 <= i <= lit@.len(),
            forall|j: int| 0 <= j < i ==> b@[p + j] == lit@[j],
        decreases lit@.len() - i,
    {
        if b[p + i] != lit[i] {
            assert(b@.subrange(p as int, p + lit@.len())[i as int] != lit@[i as int]);
            return false;
        }
        i = i + 1;
    }
    assert(b@.subrange(p as int, p + lit@.len()) =~= lit@);
    true
}

/// The position after the whitespace at `p`; never fails.
pub fn skip_whitespace(b: &[u8], p: usize) -> (r: usize)
    requires
        p <= b@.len(),
    ensures
        r as int == skip_ws(b@, p as int),
        p <= r <= b@.len(),
{
    let mut i = p;
    while i < b.len() && (b[i] == 0x20 || b[i] == 0x09 || b[i] == 0x0a || b[i] == 0x0d)
        invariant
            p <= i <= b@.len(),
            p + ws_len(b@, p as int) == i + ws_len(b@, i as int),
        decreases b@.len() - i,
    {
        i = i + 1;
    }
    i
}

/// The position after the run of ASCII digits at `p` (equal to `p` when there is none).
pub fn scan_digit_run(b: &[u8], p: usize) -> (r: usize)
    requires
        p <= b@.len(),
    ensures
        r as int == p + digits_len(b@, p as int),
        p <= r <= b@.len(),
        forall|j: int| p <= j < r ==> is_digit(#[trigger] b@[j]),
{
    let mut i = p;
    while i < b.len() && 0x30 <= b[i] && b[i] <= 0x39
        invariant
            p <= i <= b@.len(),
            p + digits_len(b@, p as int) == i + digits_len(b@, i as int),
            forall|j: int| p <= j < i ==> is_digit(#[trigger] b@[j]),
        decreases b@.len() - i,
    {
        i = i + 1;
    }
    i
}

/// The position of the next `"` at or after `p`, or the end of the input.
pub fn find_quote(b: &[u8], p: usize) -> (r: usize)
    requires
        p <= b@.len(),
    ensures
        r as int == p + unquoted_len(b@, p as int),
        p <= r <= b@.len(),
        r < b@.len() ==> b@[r as int] == 0x22,
{
    let mut i = p;
    while i < b.len() && b[i] != 0x22
        invariant
            p <= i <= b@.len(),
            p + unquoted_len(b@, p as int) == i + unquoted_len(b@, i as int),
        decreases b@.len() - i,
    {
        i = i + 1;
    }
    i
}

} // verus!
