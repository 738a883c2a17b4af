//! Properties of the grammar as a whole, proved over its spec functions.
use vstd::prelude::*;
use crate::error::{error_at, ErrorKind};
use crate::grammar::{
    digits_len, find_key, lit_false, lit_null, lit_true, put_member, skip_ws, spec_array,
    spec_elements, spec_integer, spec_members, spec_number, spec_object, spec_parse, spec_value,
    starts_with, unterminated, ws_len, MAX_DEPTH,
};
use crate::value::{keys_unique, well_keyed, Json};

verus! {

pub open spec fn all_open_brackets(s: Seq<u8>) -> bool {
    forall|i: int| 0 <= i < s.len() ==> s[i] == 0x5b
}

/// What a run of unclosed `[` yields: the depth limit is hit first when the run is
/// longer than the limit, otherwise the input ends inside the innermost array.
pub open spec fn unclosed_outcome(s: Seq<u8>) -> Result<Json, crate::error::ParseError> {
    if s.len() > MAX_DEPTH {
        Err(error_at(MAX_DEPTH as int, ErrorKind::DepthExceeded))
    } else {
        Err(unterminated(s, 0x5b))
    }
}

proof fn lemma_unclosed_from(s: Seq<u8>, d: int)
    requires
        all_open_brackets(s),
        0 <= d < s.len(),
        d <= MAX_DEPTH,
    ensures
        (match spec_value(s, d, d) {
            Ok(_) => false,
            Err(err) => Err::<Json, crate::error::ParseError>(err) == unclosed_outcome(s),
        }),
    decreases MAX_DEPTH - d,
{
    assert(s[d] == 0x5b);
    assert(!starts_with(s, d, lit_null())) by {
        if starts_with(s, d, lit_null()) {
            assert(s.subrange(d, d + 4)[0] == lit_null()[0]);
        }
    }
    assert(!starts_with(s, d, lit_true())) by {
        if starts_with(s, d, lit_true()) {
            assert(s.subrange(d, d + 4)[0] == lit_true()[0]);
        }
    }
    assert(!starts_with(s, d, lit_false())) by {
        if starts_with(s, d, lit_false()) {
            assert(s.subrange(d, d + 5)[0] == lit_false()[0]);
        }
    }
    assert(digits_len(s, d) == 0);
    assert(spec_integer(s, d) is None);
    assert(spec_number(s, d) is None);
    assert(ws_len(s, d + 1) == 0);
    assert(skip_ws(s, d + 1) == d + 1);
    if d < MAX_DEPTH && d + 1 < s.len() {
        lemma_unclosed_from(s, d + 1);
        assert(spec_array(s, d, d) == spec_elements(s, d + 1, d, seq![]));
    }
}

/// A document of nothing but opening brackets never parses, and fails with
/// `DepthExceeded` or `UnterminatedContainer`, however long it is.
pub proof fn lemma_unclosed_brackets_fail(s: Seq<u8>)
    requires
        s.len() > 0,
        all_open_brackets(s),
    ensures
        spec_parse(s) == unclosed_outcome(s),
        spec_parse(s) matches Err(err) && (err.kind == ErrorKind::DepthExceeded
            || err.kind == (ErrorKind::UnterminatedContainer { delimiter: 0x5b })),
{
    assert(ws_len(s, 0) == 0);
    lemma_unclosed_from(s, 0);
}

proof fn lemma_find_key(m: Seq<(Seq<char>, Json)>, k: Seq<char>, i: int)
    requires
        0 <= i,
    ensures
        find_key(m, k, i) == -1 ==> forall|x: int| i <= x < m.len() ==> #[trigger] m[x].0 != k,
        find_key(m, k, i) != -1 ==> i <= find_key(m, k, i) < m.len() && m[find_key(m, k, i)].0 == k,
    decreases m.len() - i,
{
    if i < m.len() {
        lemma_find_key(m, k, i + 1);
    }
}

pub open spec fn members_keyed(m: Seq<(Seq<char>, Json)>) -> bool {
    keys_unique(m) && forall|i: int| 0 <= i < m.len() ==> well_keyed(#[trigger] m[i].1)
}

proof fn lemma_put_member_keyed(m: Seq<(Seq<char>, Json)>, k: Seq<char>, v: Json)
    requires
        members_keyed(m),
        well_keyed(v),
    ensures
        members_keyed(put_member(m, k, v)),
{
    lemma_find_key(m, k, 0);
    let r = put_member(m, k, v);
    let i = find_key(m, k, 0);
    assert forall|a: int, c: int| 0 <= a < c < r.len() implies #[trigger] r[a].0 != #[trigger] r[c].0 by {
        if i == -1 {
            if c == m.len() {
                assert(r[a] == m[a]);
            } else {
                assert(r[a] == m[a] && r[c] == m[c]);
            }
        } else {
            assert(r[a].0 == m[a].0 && r[c].0 == m[c].0);
        }
    }
    assert forall|x: int| 0 <= x < r.len() implies well_keyed(#[trigger] r[x].1) by {
        if (i == -1 && x == m.len()) || x == i {
        } else {
            assert(r[x] == m[x]);
        }
    }
}

pub open spec fn keyed_result(r: Result<(Json, int), crate::error::ParseError>) -> bool {
    r matches Ok((v, _)) ==> well_keyed(v)
}

proof fn lemma_value_keyed(s: Seq<u8>, p: int, depth: int)
    ensures
        keyed_result(spec_value(s, p, depth)),
    decreases MAX_DEPTH - depth, s.len() - p, 2int,
{
    if 0 <= p < s.len() {
        if s[p] == 0x5b {
            lemma_array_keyed(s, p, depth);
        } else if s[p] == 0x7b {
            lemma_object_keyed(s, p, depth);
        }
    }
}

proof fn lemma_array_keyed(s: Seq<u8>, p: int, depth: int)
    ensures
        keyed_result(spec_array(s, p, depth)),
    decreases MAX_DEPTH - depth, s.len() - p, 1int,
{
    let q = skip_ws(s, p + 1);
    if depth < MAX_DEPTH && q < s.len() && s[q] != 0x5d {
        lemma_elements_keyed(s, q, depth, seq![]);
    }
}

proof fn lemma_elements_keyed(s: Seq<u8>, q: int, depth: int, items: Seq<Json>)
    requires
        forall|i: int| 0 <= i < items.len() ==> well_keyed(#[trigger] items[i]),
    ensures
        keyed_result(spec_elements(s, q, depth, items)),
    decreases MAX_DEPTH - depth, s.len() - q, 0int,
{
    if !(depth >= MAX_DEPTH || q < 0 || q >= s.len()) {
        lemma_value_keyed(s, q, depth + 1);
        if let Ok((v, e)) = spec_value(s, q, depth + 1) {
            let items2 = items.push(v);
            assert forall|i: int| 0 <= i < items2.len() implies well_keyed(#[trigger] items2[i]) by {
                if i < items.len() {
                    assert(items2[i] == items[i]);
                }
            }
            let r = skip_ws(s, e);
            let t = skip_ws(s, r + 1);
            if !(e <= q || r >= s.len()) && s[r] == 0x2c && t < s.len() {
                lemma_elements_keyed(s, t, depth, items2);
            }
        }
    }
}

proof fn lemma_object_keyed(s: Seq<u8>, p: int, depth: int)
    ensures
        keyed_result(spec_object(s, p, depth)),
    decreases MAX_DEPTH - depth, s.len() - p, 1int,
{
    let q = skip_ws(s, p + 1);
    if depth < MAX_DEPTH && q < s.len() && s[q] != 0x7d {
        lemma_members_keyed(s, q, depth, seq![]);
    }
}

proof fn lemma_members_keyed(s: Seq<u8>, q: int, depth: int, m: Seq<(Seq<char>, Json)>)
    requires
        members_keyed(m),
    ensures
        keyed_result(spec_members(s, q, depth, m)),
    decreases MAX_DEPTH - depth, s.len() - q, 0int,
{
    if !(depth >= MAX_DEPTH || q < 0 || q >= s.len()) && s[q] == 0x22 {
        if let Ok((k, c)) = crate::grammar::spec_quoted(s, q) {
            let r = skip_ws(s, c);
            let t = skip_ws(s, r + 1);
            if r < s.len() && s[r] == 0x3a && t < s.len() {
                lemma_value_keyed(s, t, depth + 1);
                if let Ok((v, e)) = spec_value(s, t, depth + 1) {
                    lemma_put_member_keyed(m, k, v);
                    let u = skip_ws(s, e);
                    let w = skip_ws(s, u + 1);
                    if !(e <= q || u >= s.len()) && s[u] == 0x2c && w < s.len() {
                        lemma_members_keyed(s, w, depth, put_member(m, k, v));
                    }
                }
            }
        }
    }
}

/// Every object in a parsed document, at every depth, has unique keys: a key
/// that appears twice keeps one member, with the value written last.
pub proof fn lemma_parsed_keys_unique(s: Seq<u8>)
    ensures
        spec_parse(s) matches Ok(j) ==> well_keyed(j),
{
    lemma_value_keyed(s, skip_ws(s, 0), 0);
}

} // verus!
