//! The value dispatcher, the container parsers and the document parser.
use vstd::prelude::*;
use vstd::string::StringSliceAdditionalSpecFns;
use crate::error::{ErrorKind, Expected, ParseError};
use crate::grammar::{
    find_key, spec_array, spec_elements, spec_members, spec_object, spec_parse, spec_parse_object_document, spec_value,
    unexpected, unterminated, lit_false, lit_null, lit_true, MAX_DEPTH,
};
use crate::leaves::{parse_integer, scan_number, scan_quoted_text};
use crate::scanner::{match_literal, skip_whitespace};
use crate::text::text_between;
use crate::value::{item_views, lemma_array_view, lemma_object_view, member_views, Json, Value};

verus! {

pub open spec fn value_result(r: Result<(Value, usize), ParseError>) -> Result<(Json, int), ParseError> {
    match r {
        Ok((v, e)) => Ok((v@, e as int)),
        Err(err) => Err(err),
    }
}

fn unexpected_at(b: &[u8], p: usize, expected: Expected) -> (r: ParseError)
    ensures
        r == unexpected(b@, p as int, expected),
{
    let found = if p < b.len() { Some(b[p]) } else { None };
    ParseError::new(p, ErrorKind::UnexpectedToken { expected, found })
}

fn unterminated_at(b: &[u8], delimiter: u8) -> (r: ParseError)
    ensures
        r == unterminated(b@, delimiter),
{
    ParseError::new(b.len(), ErrorKind::UnterminatedContainer { delimiter })
}

/// Parses one value at `p`, `depth` containers deep, trying each form in turn.
pub fn parse_value(text: &str, b: &[u8], p: usize, depth: usize) -> (r: Result<(Value, usize), ParseError>)
    requires
        b@ == text.spec_bytes(),
        p <= b@.len(),
        depth <= MAX_DEPTH,
    ensures
        value_result(r) == spec_value(b@, p as int, depth as int),
        r is Ok ==> p < r->Ok_0.1 <= b@.len(),
    decreases MAX_DEPTH - depth, b@.len() - p, 2int,
{
    if p >= b.len() {
        return Err(unexpected_at(b, p, Expected::Value));
    }
    let null_bytes: [u8; 4] = [0x6e, 0x75, 0x6c, 0x6c];
    let true_bytes: [u8; 4] = [0x74, 0x72, 0x75, 0x65];
    let false_bytes: [u8; 5] = [0x66, 0x61, 0x6c, 0x73, 0x65];
    proof {
        assert(null_bytes@ =~= lit_null());
        assert(true_bytes@ =~= lit_true());
        assert(false_bytes@ =~= lit_false());
    }
    if match_literal(b, p, null_bytes.as_slice()) {
        return Ok((Value::Null, p + 4));
    }
    if match_literal(b, p, true_bytes.as_slice()) {
        return Ok((Value::Boolean(true), p + 4));
    }
    if match_literal(b, p, false_bytes.as_slice()) {
        return Ok((Value::Boolean(false), p + 5));
    }
    if let Some((v, e)) = parse_integer(b, p) {
        return Ok((Value::Integer(v), e));
    }
    if let Some(e) = scan_number(b, p) {
        return Ok((Value::Number(text_between(text, p, e)), e));
    }
    if b[p] == 0x22 {
        match scan_quoted_text(text, b, p) {
            Ok((t, e)) => Ok((Value::String(t), e)),
            Err(err) => Err(err),
        }
    } else if b[p] == 0x5b {
        parse_array(text, b, p, depth)
    } else if b[p] == 0x7b {
        parse_object(text, b, p, depth)
    } else {
        Err(unexpected_at(b, p, Expected::Value))
    }
}

/// Parses an array whose `[` stands at `p`, the array itself `depth` containers deep.
pub fn parse_array(text: &str, b: &[u8], p: usize, depth: usize) -> (r: Result<(Value, usize), ParseError>)
    requires
        b@ == text.spec_bytes(),
        p < b@.len(),
        depth <= MAX_DEPTH,
    ensures
        value_result(r) == spec_array(b@, p as int, depth as int),
        r is Ok ==> p < r->Ok_0.1 <= b@.len(),
    decreases MAX_DEPTH - depth, b@.len() - p, 1int,
{
    if depth >= MAX_DEPTH {
        return Err(ParseError::new(p, ErrorKind::DepthExceeded));
    }
    let n = b.len();
    let mut q = skip_whitespace(b, p + 1);
    if q >= n {
        return Err(unterminated_at(b, 0x5b));
    }
    if b[q] == 0x5d {
        let empty: Vec<Value> = Vec::new();
        proof {
            lemma_array_view(empty);
            assert(item_views(empty@) =~= seq![]);
        }
        return Ok((Value::Array(empty), q + 1));
    }
    let mut items: Vec<Value> = Vec::new();
    proof {
        assert(item_views(items@) =~= seq![]);
    }
    loop
        invariant
            b@ == text.spec_bytes(),
            n == b@.len(),
            depth < MAX_DEPTH,
            p < q < n,
            spec_array(b@, p as int, depth as int) == spec_elements(b@, q as int, depth as int, item_views(items@)),
        decreases n - q,
    {
        let ghost before = item_views(items@);
        match parse_value(text, b, q, depth + 1) {
            Err(err) => return Err(err),
            Ok((v, e)) => {
                let r = skip_whitespace(b, e);
                if r >= n {
                    return Err(unterminated_at(b, 0x5b));
                }
                items.push(v);
                proof {
                    assert(item_views(items@) =~= before.push(v@));
                }
                if b[r] == 0x5d {
                    proof {
                        lemma_array_view(items);
                    }
                    return Ok((Value::Array(items), r + 1));
                }
                if b[r] != 0x2c {
                    return Err(unexpected_at(b, r, Expected::CommaOrClose));
                }
                let t = skip_whitespace(b, r + 1);
                if t >= n {
                    return Err(unterminated_at(b, 0x5b));
                }
                q = t;
            },
        }
    }
}

/// Sets `key` to `value` among `members`: an existing key keeps its place and
/// takes the new value (last write wins); a new key goes at the end.
pub fn insert_member(members: &mut Vec<(String, Value)>, key: String, value: Value)
    ensures
        member_views(final(members)@) == crate::grammar::put_member(member_views(old(members)@), key@, value@),
{
    let ghost m = member_views(members@);
    let mut i: usize = 0;
    while i < members.len()
        invariant
            m == member_views(members@),
            members@ == old(members)@,
            0 <= i <= members@.len(),
            find_key(m, key@, 0) == find_key(m, key@, i as int),
        decreases members@.len() - i,
    {
        if members[i].0 == key {
            assert(m[i as int].0 == key@);
            assert(find_key(m, key@, i as int) == i);
            members.set(i, (key, value));
            proof {
                assert(member_views(members@) =~= m.update(i as int, (key@, value@)));
                assert(crate::grammar::put_member(m, key@, value@) == m.update(i as int, (key@, value@)));
            }
            return;
        }
        i = i + 1;
    }
    members.push((key, value));
    proof {
        assert(member_views(members@) =~= m.push((key@, value@)));
    }
}

/// Parses an object whose `{` stands at `p`, the object itself `depth` containers deep.
pub fn parse_object(text: &str, b: &[u8], p: usize, depth: usize) -> (r: Result<(Value, usize), ParseError>)
    requires
        b@ == text.spec_bytes(),
        p < b@.len(),
        depth <= MAX_DEPTH,
    ensures
        value_result(r) == spec_object(b@, p as int, depth as int),
        r is Ok ==> p < r->Ok_0.1 <= b@.len(),
    decreases MAX_DEPTH - depth, b@.len() - p, 1int,
{
    if depth >= MAX_DEPTH {
        return Err(ParseError::new(p, ErrorKind::DepthExceeded));
    }
    let n = b.len();
    let mut q = skip_whitespace(b, p + 1);
    if q >= n {
        return Err(unterminated_at(b, 0x7b));
    }
    let mut members: Vec<(String, Value)> = Vec::new();
    proof {
        assert(member_views(members@) =~= seq![]);
    }
    if b[q] == 0x7d {
        proof {
            lemma_object_view(members);
        }
        return Ok((Value::Object(members), q + 1));
    }
    loop
        invariant
            b@ == text.spec_bytes(),
            n == b@.len(),
            depth < MAX_DEPTH,
            p < q < n,
            spec_object(b@, p as int, depth as int) == spec_members(b@, q as int, depth as int, member_views(members@)),
        decreases n - q,
    {
        if b[q] != 0x22 {
            return Err(unexpected_at(b, q, Expected::Key));
        }
        let (key, c) = match scan_quoted_text(text, b, q) {
            Ok(kc) => kc,
            Err(err) => return Err(err),
        };
        let r = skip_whitespace(b, c);
        if r >= n {
            return Err(unterminated_at(b, 0x7b));
        }
        if b[r] != 0x3a {
            return Err(unexpected_at(b, r, Expected::Colon));
        }
        let t = skip_whitespace(b, r + 1);
        if t >= n {
            return Err(unterminated_at(b, 0x7b));
        }
        match parse_value(text, b, t, depth + 1) {
            Err(err) => return Err(err),
            Ok((v, e)) => {
                insert_member(&mut members, key, v);
                let u = skip_whitespace(b, e);
                if u >= n {
                    return Err(unterminated_at(b, 0x7b));
                }
                if b[u] == 0x7d {
                    proof {
                        lemma_object_view(members);
                    }
                    return Ok((Value::Object(members), u + 1));
                }
                if b[u] != 0x2c {
                    return Err(unexpected_at(b, u, Expected::CommaOrClose));
                }
                let w = skip_whitespace(b, u + 1);
                if w >= n {
                    return Err(unterminated_at(b, 0x7b));
                }
                q = w;
            },
        }
    }
}

pub open spec fn document_result(r: Result<Value, ParseError>) -> Result<Json, ParseError> {
    match r {
        Ok(v) => Ok(v@),
        Err(err) => Err(err),
    }
}

/// Parses a whole document: exactly one value, with only whitespace around it.
pub fn parse(text: &str) -> (r: Result<Value, ParseError>)
    ensures
        document_result(r) == spec_parse(text.spec_bytes()),
{
    let b = text.as_bytes();
    let n = b.len();
    let p = skip_whitespace(b, 0);
    if p >= n {
        return Err(ParseError::new(n, ErrorKind::EmptyInput));
    }
    match parse_value(text, b, p, 0) {
        Err(err) => Err(err),
        Ok((v, e)) => {
            let r = skip_whitespace(b, e);
            if r < n {
                Err(ParseError::new(r, ErrorKind::TrailingContent))
            } else {
                Ok(v)
            }
        },
    }
}

/// Parses a whole document whose top-level value must be an object.
pub fn parse_object_document(text: &str) -> (r: Result<Value, ParseError>)
    ensures
        document_result(r) == spec_parse_object_document(text.spec_bytes()),
{
    let b = text.as_bytes();
    let n = b.len();
    let p = skip_whitespace(b, 0);
    if p >= n {
        return Err(ParseError::new(n, ErrorKind::EmptyInput));
    }
    if b[p] != 0x7b {
        return Err(unexpected_at(b, p, Expected::Object));
    }
    parse(text)
}

} // verus!
