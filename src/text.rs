//! Cutting owned text out of a UTF-8 input at positions next to ASCII bytes.
use vstd::prelude::*;
use vstd::utf8::*;
use vstd::string::StringSliceAdditionalSpecFns;

verus! {

broadcast use {vstd::utf8::encode_utf8_valid_utf8, vstd::utf8::encode_utf8_decode_utf8};

/// The characters that the bytes `b[a..e]` encode.
pub open spec fn chars_of(b: Seq<u8>, a: int, e: int) -> Seq<char> {
    decode_utf8(b.subrange(a, e))
}

/// A byte position that cannot fall inside a multi-byte character: the ends of the
/// input, an ASCII byte, or the position right after one.
pub open spec fn ascii_edge(b: Seq<u8>, i: int) -> bool {
    ||| i == 0
    ||| i == b.len()
    ||| (0 <= i < b.len() && b[i] < 128)
    ||| (0 < i <= b.len() && b[i - 1] < 128)
}

proof fn lemma_ascii_edge_is_boundary(b: Seq<u8>, i: int)
    requires
        valid_utf8(b),
        0 <= i <= b.len(),
        ascii_edge(b, i),
    ensures
        is_char_boundary(b, i),
{
    is_char_boundary_start_end_of_seq(b);
    if 0 < i < b.len() {
        if b[i] < 128 {
            is_char_boundary_iff_not_is_continuation_byte(b, i);
        } else {
            is_char_boundary_iff_not_is_continuation_byte(b, i - 1);
            lemma_boundary_after_ascii(b, i - 1);
        }
    }
}

proof fn lemma_boundary_after_ascii(b: Seq<u8>, j: int)
    requires
        valid_utf8(b),
        0 <= j < b.len(),
        b[j] < 128,
        is_char_boundary(b, j),
    ensures
        is_char_boundary(b, j + 1),
    decreases b.len(),
{
    reveal_with_fuel(is_char_boundary, 2);
    if j > 0 {
        is_char_boundary_len_first(b, j);
        lemma_boundary_after_ascii(pop_first_scalar(b), j - length_of_first_scalar(b));
    }
}

proof fn is_char_boundary_len_first(b: Seq<u8>, j: int)
    requires
        valid_utf8(b),
        0 < j,
        is_char_boundary(b, j),
    ensures
        j >= length_of_first_scalar(b),
        valid_utf8(pop_first_scalar(b)),
        is_char_boundary(pop_first_scalar(b), j - length_of_first_scalar(b)),
{
    reveal_with_fuel(is_char_boundary, 2);
    reveal_with_fuel(valid_utf8, 2);
}

/// The text of `s` between byte positions `a` and `e`, as an owned string.
pub fn text_between(s: &str, a: usize, e: usize) -> (r: String)
    requires
        a <= e <= s.spec_bytes().len(),
        ascii_edge(s.spec_bytes(), a as int),
        ascii_edge(s.spec_bytes(), e as int),
    ensures
        r@ == chars_of(s.spec_bytes(), a as int, e as int),
{
    let ghost b = s.spec_bytes();
    proof {
        lemma_ascii_edge_is_boundary(b, e as int);
    }
    let (head, _) = s.split_at(e);
    let ghost hb = head.spec_bytes();
    proof {
        assert(hb =~= b.subrange(0, e as int));
        valid_utf8_split(b, e as int);
        assert(ascii_edge(hb, a as int));
        lemma_ascii_edge_is_boundary(hb, a as int);
    }
    let (_, piece) = head.split_at(a);
    proof {
        assert(piece.spec_bytes() =~= b.subrange(a as int, e as int));
    }
    piece.to_owned()
}

} // verus!
