//! Generated documents: a compact rendering of a value tree, and the law that
//! parsing the rendering of a well-formed tree gives that tree back.
use vstd::prelude::*;
use vstd::utf8::{encode_utf8, is_ascii_chars, is_ascii_chars_encode_utf8};
use crate::grammar::{
    digits_len, digits_value, exponent_end, fits_i64, fraction_end, is_digit, is_ws, lit_false,
    lit_null, lit_true, spec_elements, spec_parse, spec_integer, spec_number, spec_quoted, spec_value, starts_with,
    unquoted_len, MAX_DEPTH,
};
use crate::text::chars_of;
use crate::value::{keys_unique, Json};

verus! {

broadcast use vstd::utf8::encode_utf8_decode_utf8;

/// The decimal digits of `n`, most significant first.
pub open spec fn decimal(n: nat) -> Seq<u8>
    decreases n,
{
    if n < 10 {
        seq![(0x30 + n) as u8]
    } else {
        decimal(n / 10).push((0x30 + n % 10) as u8)
    }
}

/// The bytes of an ASCII text.
pub open spec fn ascii_bytes(t: Seq<char>) -> Seq<u8> {
    Seq::new(t.len(), |i: int| t[i] as u8)
}

/// Text that a generator may put between quotes: ASCII without `"`.
pub open spec fn plain_text(t: Seq<char>) -> bool {
    is_ascii_chars(t) && forall|i: int| 0 <= i < t.len() ==> #[trigger] t[i] != '"'
}

pub open spec fn is_digit_char(c: char) -> bool {
    '0' <= c <= '9'
}

/// A floating-point text of the form `[-]digits.digits`.
pub open spec fn float_text(t: Seq<char>) -> bool {
    let a: int = if t.len() > 0 && t[0] == '-' { 1 } else { 0 };
    exists|k: int|
        a < k < t.len() - 1 && #[trigger] t[k] == '.' && (forall|i: int|
            a <= i < t.len() && i != k ==> is_digit_char(#[trigger] t[i]))
}

pub open spec fn quoted(t: Seq<char>) -> Seq<u8> {
    seq![0x22u8] + ascii_bytes(t) + seq![0x22u8]
}

/// The compact text of a value: no whitespace, members in their order.
pub open spec fn render(j: Json) -> Seq<u8>
    decreases j, 1int, 0int,
{
    match j {
        Json::Null => lit_null(),
        Json::Boolean(b) => if b { lit_true() } else { lit_false() },
        Json::Integer(v) => if v < 0 { seq![0x2du8] + decimal((-v) as nat) } else { decimal(v as nat) },
        Json::Number(t) => ascii_bytes(t),
        Json::Str(t) => quoted(t),
        Json::Array(items) => seq![0x5bu8] + render_items(items, 0) + seq![0x5du8],
        Json::Object(m) => seq![0x7bu8] + render_members(m, 0) + seq![0x7du8],
    }
}

/// The items from index `i` on, with `,` between them.
pub open spec fn render_items(items: Seq<Json>, i: int) -> Seq<u8>
    decreases items, 0int, items.len() - i,
{
    if i < 0 || i >= items.len() {
        seq![]
    } else if i == items.len() - 1 {
        render(items[i])
    } else {
        render(items[i]) + seq![0x2cu8] + render_items(items, i + 1)
    }
}

/// The members from index `i` on, each as `"key":value`, with `,` between them.
pub open spec fn render_members(m: Seq<(Seq<char>, Json)>, i: int) -> Seq<u8>
    decreases m, 0int, m.len() - i,
{
    if i < 0 || i >= m.len() {
        seq![]
    } else {
        let part = quoted(m[i].0) + seq![0x3au8] + render(m[i].1);
        if i == m.len() - 1 {
            part
        } else {
            part + seq![0x2cu8] + render_members(m, i + 1)
        }
    }
}

/// A tree that a generator of documents may produce, `depth` containers deep:
/// integers fit in 64 bits, floating-point texts have a fraction, strings and keys
/// are plain, keys are unique, and containers stay within the depth limit.
pub open spec fn generated(j: Json, depth: int) -> bool
    decreases j,
{
    match j {
        Json::Null => true,
        Json::Boolean(_) => true,
        Json::Integer(v) => fits_i64(v),
        Json::Number(t) => float_text(t),
        Json::Str(t) => plain_text(t),
        Json::Array(items) => depth < MAX_DEPTH && forall|i: int|
            0 <= i < items.len() ==> generated(#[trigger] items[i], depth + 1),
        Json::Object(m) => depth < MAX_DEPTH && keys_unique(m) && forall|i: int|
            0 <= i < m.len() ==> plain_text(#[trigger] m[i].0) && generated(m[i].1, depth + 1),
    }
}

/// A byte that may follow a value in a container, or the end of the input.
pub open spec fn closes(s: Seq<u8>, e: int) -> bool {
    e == s.len() || (0 <= e < s.len() && (s[e] == 0x2c || s[e] == 0x5d || s[e] == 0x7d))
}

pub open spec fn placed(s: Seq<u8>, p: int, t: Seq<u8>) -> bool {
    0 <= p && p + t.len() <= s.len() && s.subrange(p, p + t.len()) == t
}

proof fn lemma_digit_run(s: Seq<u8>, x: int, n: int)
    requires
        0 <= x,
        0 <= n,
        x + n <= s.len(),
        forall|i: int| x <= i < x + n ==> is_digit(#[trigger] s[i]),
        x + n == s.len() || !is_digit(s[x + n]),
    ensures
        digits_len(s, x) == n,
    decreases n,
{
    if n > 0 {
        lemma_digit_run(s, x + 1, n - 1);
    }
}

proof fn lemma_decimal(s: Seq<u8>, x: int, n: nat)
    requires
        placed(s, x, decimal(n)),
    ensures
        decimal(n).len() >= 1,
        forall|i: int| x <= i < x + decimal(n).len() ==> is_digit(#[trigger] s[i]),
        digits_value(s, x, x + decimal(n).len()) == n,
    decreases n,
{
    let d = decimal(n);
    if n >= 10 {
        let h = decimal(n / 10);
        assert(s.subrange(x, x + h.len()) =~= s.subrange(x, x + d.len()).subrange(0, h.len() as int));
        assert(d.subrange(0, h.len() as int) =~= h);
        lemma_decimal(s, x, n / 10);
        assert(s[x + h.len()] == d[h.len() as int]);
        assert(digits_value(s, x, x + d.len()) == digits_value(s, x, x + h.len()) * 10 + (s[x + h.len()] - 0x30));
        assert(n == (n / 10) * 10 + n % 10);
        assert forall|i: int| x <= i < x + d.len() implies is_digit(#[trigger] s[i]) by {
            if i < x + h.len() {
            } else {
                assert(s[i] == d[i - x]);
            }
        }
    } else {
        assert(s[x] == d[0]);
        assert(digits_value(s, x, x) == 0);
    }
}

/// Parsing an integer's rendering gives the integer back.
proof fn lemma_integer(s: Seq<u8>, p: int, v: int)
    requires
        fits_i64(v),
        placed(s, p, render(Json::Integer(v))),
        closes(s, p + render(Json::Integer(v)).len()),
    ensures
        spec_integer(s, p) == Some((Json::Integer(v), p + render(Json::Integer(v)).len())),
{
    let r = render(Json::Integer(v));
    let mag: nat = if v < 0 { (-v) as nat } else { v as nat };
    let q = if v < 0 { p + 1 } else { p };
    assert(placed(s, q, decimal(mag))) by {
        assert(s.subrange(q, q + decimal(mag).len()) =~= s.subrange(p, p + r.len()).subrange(q - p, r.len() as int));
        assert(r.subrange(q - p, r.len() as int) =~= decimal(mag));
    }
    lemma_decimal(s, q, mag);
    assert(s[p] == r[0]);
    lemma_digit_run(s, q, decimal(mag).len() as int);
}

proof fn lemma_ascii_text(s: Seq<u8>, p: int, t: Seq<char>)
    requires
        is_ascii_chars(t),
        placed(s, p, ascii_bytes(t)),
    ensures
        chars_of(s, p, p + t.len()) == t,
        forall|i: int| 0 <= i < t.len() ==> s[p + i] == #[trigger] t[i] as u8,
{
    is_ascii_chars_encode_utf8(t);
    assert(s.subrange(p, p + t.len()) =~= encode_utf8(t));
    assert forall|i: int| 0 <= i < t.len() implies s[p + i] == #[trigger] t[i] as u8 by {
        assert(s.subrange(p, p + t.len())[i] == s[p + i]);
    }
}

proof fn lemma_unquoted_run(s: Seq<u8>, x: int, n: int)
    requires
        0 <= x,
        0 <= n,
        x + n < s.len(),
        forall|i: int| x <= i < x + n ==> #[trigger] s[i] != 0x22,
        s[x + n] == 0x22,
    ensures
        unquoted_len(s, x) == n,
    decreases n,
{
    if n > 0 {
        lemma_unquoted_run(s, x + 1, n - 1);
    }
}

/// Parsing a plain text between quotes gives the text back.
proof fn lemma_quoted(s: Seq<u8>, p: int, t: Seq<char>)
    requires
        plain_text(t),
        placed(s, p, quoted(t)),
    ensures
        spec_quoted(s, p) == Ok::<(Seq<char>, int), crate::error::ParseError>((t, p + t.len() + 2)),
        s[p] == 0x22,
{
    let r = quoted(t);
    assert(s[p] == r[0]);
    assert(s[p + t.len() + 1] == r[t.len() as int + 1]);
    assert(placed(s, p + 1, ascii_bytes(t))) by {
        assert(s.subrange(p + 1, p + 1 + t.len()) =~= s.subrange(p, p + r.len()).subrange(1, 1 + t.len() as int));
        assert(r.subrange(1, 1 + t.len() as int) =~= ascii_bytes(t));
    }
    lemma_ascii_text(s, p + 1, t);
    assert forall|i: int| p + 1 <= i < p + 1 + t.len() implies #[trigger] s[i] != 0x22 by {
        assert(s[p + 1 + (i - p - 1)] == t[i - p - 1] as u8);
        assert(t[i - p - 1] != '"');
    }
    lemma_unquoted_run(s, p + 1, t.len() as int);
}

/// Parsing a floating-point text gives the text back, and the integer form declines it.
proof fn lemma_float(s: Seq<u8>, p: int, t: Seq<char>)
    requires
        float_text(t),
        placed(s, p, ascii_bytes(t)),
        closes(s, p + t.len()),
    ensures
        spec_integer(s, p) is None,
        spec_number(s, p) == Some((Json::Number(t), p + t.len())),
{
    let a: int = if t.len() > 0 && t[0] == '-' { 1 } else { 0 };
    let k = choose|k: int|
        a < k < t.len() - 1 && #[trigger] t[k] == '.' && (forall|i: int|
            a <= i < t.len() && i != k ==> is_digit_char(#[trigger] t[i]));
    assert(is_ascii_chars(t)) by {
        assert forall|i: int| 0 <= i < t.len() implies '\0' <= #[trigger] t[i] <= '\u{7f}' by {
            if i != k && i >= a {
                assert(is_digit_char(t[i]));
            }
        }
    }
    lemma_ascii_text(s, p, t);
    assert forall|i: int| p + a <= i < p + k implies is_digit(#[trigger] s[i]) by {
        assert(s[p + (i - p)] == t[i - p] as u8);
        assert(is_digit_char(t[i - p]));
    }
    assert forall|i: int| p + k + 1 <= i < p + t.len() implies is_digit(#[trigger] s[i]) by {
        assert(s[p + (i - p)] == t[i - p] as u8);
        assert(is_digit_char(t[i - p]));
    }
    assert(s[p + k] == t[k] as u8);
    assert(s[p] == t[0] as u8);
    if a == 0 {
        assert(is_digit_char(t[0]));
    }
    lemma_digit_run(s, p + a, k - a);
    lemma_digit_run(s, p + k + 1, t.len() - k - 1);
    assert(fraction_end(s, p + k) == p + t.len());
    assert(exponent_end(s, p + t.len()) == p + t.len());
}

/// The first byte of a rendering: never whitespace nor punctuation that ends a value.
proof fn lemma_first_byte(j: Json)
    requires
        j matches Json::Number(t) ==> float_text(t),
    ensures
        render(j).len() >= 1,
        !is_ws(render(j)[0]),
        render(j)[0] != 0x2c && render(j)[0] != 0x5d && render(j)[0] != 0x7d && render(j)[0] != 0x3a,
        j matches Json::Str(_) ==> render(j)[0] == 0x22,
        j matches Json::Array(_) ==> render(j)[0] == 0x5b,
        j matches Json::Object(_) ==> render(j)[0] == 0x7b,
        (j is Integer || j is Number) ==> render(j)[0] == 0x2d || is_digit(render(j)[0]),
{
    match j {
        Json::Integer(v) => {
            let mag: nat = if v < 0 { (-v) as nat } else { v as nat };
            assert(placed(decimal(mag), 0, decimal(mag))) by {
                assert(decimal(mag).subrange(0, decimal(mag).len() as int) =~= decimal(mag));
            }
            lemma_decimal(decimal(mag), 0, mag);
        },
        Json::Number(t) => {
            let a: int = if t.len() > 0 && t[0] == '-' { 1 } else { 0 };
            let k = choose|k: int|
                a < k < t.len() - 1 && #[trigger] t[k] == '.' && (forall|i: int|
                    a <= i < t.len() && i != k ==> is_digit_char(#[trigger] t[i]));
            if a == 0 {
                assert(is_digit_char(t[0]));
            }
        },
        _ => {},
    }
}

proof fn lemma_placed_split(s: Seq<u8>, p: int, a: Seq<u8>, b: Seq<u8>)
    requires
        placed(s, p, a + b),
    ensures
        placed(s, p, a),
        placed(s, p + a.len(), b),
        b.len() > 0 ==> s[p + a.len()] == b[0],
{
    assert((a + b).subrange(0, a.len() as int) =~= a);
    assert((a + b).subrange(a.len() as int, (a.len() + b.len()) as int) =~= b);
    assert(s.subrange(p, p + a.len()) =~= s.subrange(p, p + a.len() + b.len()).subrange(0, a.len() as int));
    assert(s.subrange(p + a.len(), p + a.len() + b.len()) =~= s.subrange(p, p + a.len() + b.len()).subrange(
        a.len() as int,
        (a.len() + b.len()) as int,
    ));
    if b.len() > 0 {
        assert(s[p + a.len()] == (a + b)[a.len() as int]);
    }
}

proof fn lemma_not_literal(s: Seq<u8>, p: int, lit: Seq<u8>)
    requires
        0 <= p < s.len(),
        lit.len() > 0,
        s[p] != lit[0],
    ensures
        !starts_with(s, p, lit),
{
    if starts_with(s, p, lit) {
        assert(s.subrange(p, p + lit.len())[0] == lit[0]);
    }
}

proof fn lemma_key_absent(m: Seq<(Seq<char>, Json)>, k: Seq<char>, i: int)
    requires
        0 <= i,
        forall|x: int| 0 <= x < m.len() ==> #[trigger] m[x].0 != k,
    ensures
        crate::grammar::find_key(m, k, i) == -1,
    decreases m.len() - i,
{
    if i < m.len() {
        lemma_key_absent(m, k, i + 1);
    }
}

proof fn lemma_value_rt(s: Seq<u8>, p: int, j: Json, depth: int)
    requires
        generated(j, depth),
        0 <= depth <= MAX_DEPTH,
        placed(s, p, render(j)),
        closes(s, p + render(j).len()),
    ensures
        spec_value(s, p, depth) == Ok::<(Json, int), crate::error::ParseError>((j, p + render(j).len())),
    decreases j, 1int, 0int,
{
    lemma_first_byte(j);
    let r = render(j);
    assert(s[p] == r[0]);
    match j {
        Json::Null => {},
        Json::Boolean(b) => {
            lemma_not_literal(s, p, lit_null());
            if !b {
                lemma_not_literal(s, p, lit_true());
            }
        },
        Json::Integer(v) => {
            lemma_not_literal(s, p, lit_null());
            lemma_not_literal(s, p, lit_true());
            lemma_not_literal(s, p, lit_false());
            lemma_integer(s, p, v);
        },
        Json::Number(t) => {
            lemma_not_literal(s, p, lit_null());
            lemma_not_literal(s, p, lit_true());
            lemma_not_literal(s, p, lit_false());
            lemma_float(s, p, t);
        },
        Json::Str(t) => {
            lemma_not_literal(s, p, lit_null());
            lemma_not_literal(s, p, lit_true());
            lemma_not_literal(s, p, lit_false());
            lemma_quoted(s, p, t);
        },
        Json::Array(items) => {
            lemma_not_literal(s, p, lit_null());
            lemma_not_literal(s, p, lit_true());
            lemma_not_literal(s, p, lit_false());
            let body = render_items(items, 0);
            assert(r =~= seq![0x5bu8] + (body + seq![0x5du8]));
            lemma_placed_split(s, p, seq![0x5bu8], body + seq![0x5du8]);
            lemma_placed_split(s, p + 1, body, seq![0x5du8]);
            if items.len() == 0 {
                assert(items =~= seq![]);
            } else {
                assert(items.subrange(0, 0) =~= seq![]);
                lemma_elements_rt(s, p + 1, depth, j, 0);
                assert(generated(items[0], depth + 1));
                lemma_first_byte(items[0]);
                lemma_item_head(items, 0);
                assert(s[p + 1] == body[0]);
            }
        },
        Json::Object(m) => {
            lemma_not_literal(s, p, lit_null());
            lemma_not_literal(s, p, lit_true());
            lemma_not_literal(s, p, lit_false());
            let body = render_members(m, 0);
            assert(r =~= seq![0x7bu8] + (body + seq![0x7du8]));
            lemma_placed_split(s, p, seq![0x7bu8], body + seq![0x7du8]);
            lemma_placed_split(s, p + 1, body, seq![0x7du8]);
            if m.len() == 0 {
                assert(m =~= seq![]);
            } else {
                assert(m.subrange(0, 0) =~= seq![]);
                lemma_members_rt(s, p + 1, depth, j, 0);
                lemma_member_head(m, 0);
                assert(s[p + 1] == body[0]);
            }
        },
    }
}

/// The rendering of the items from `i` on starts with that of item `i`.
proof fn lemma_item_head(items: Seq<Json>, i: int)
    requires
        0 <= i < items.len(),
    ensures
        render_items(items, i) == render(items[i]) + (if i == items.len() - 1 { seq![] } else {
            seq![0x2cu8] + render_items(items, i + 1)
        }),
        render(items[i]).len() > 0 ==> render_items(items, i)[0] == render(items[i])[0],
{
    if i == items.len() - 1 {
        assert(render(items[i]) + seq![] =~= render(items[i]));
    } else {
        assert(render(items[i]) + seq![0x2cu8] + render_items(items, i + 1) =~= render(items[i]) + (seq![0x2cu8]
            + render_items(items, i + 1)));
    }
}

/// The rendering of the members from `i` on starts with that of member `i`.
proof fn lemma_member_head(m: Seq<(Seq<char>, Json)>, i: int)
    requires
        0 <= i < m.len(),
    ensures
        render_members(m, i) == (quoted(m[i].0) + seq![0x3au8] + render(m[i].1)) + (if i == m.len() - 1 {
            seq![]
        } else {
            seq![0x2cu8] + render_members(m, i + 1)
        }),
        render_members(m, i)[0] == 0x22,
{
    let part = quoted(m[i].0) + seq![0x3au8] + render(m[i].1);
    assert(part[0] == 0x22);
    if i == m.len() - 1 {
        assert(part + seq![] =~= part);
    } else {
        assert(part + seq![0x2cu8] + render_members(m, i + 1) =~= part + (seq![0x2cu8] + render_members(m, i + 1)));
    }
}

proof fn lemma_elements_rt(s: Seq<u8>, q: int, depth: int, j: Json, k: int)
    requires
        j is Array,
        generated(j, depth),
        0 <= depth <= MAX_DEPTH,
        0 <= k < j->Array_0.len(),
        placed(s, q, render_items(j->Array_0, k) + seq![0x5du8]),
    ensures
        spec_elements(s, q, depth, j->Array_0.subrange(0, k)) == Ok::<(Json, int), crate::error::ParseError>(
            (j, q + render_items(j->Array_0, k).len() + 1),
        ),
    decreases j, 0int, j->Array_0.len() - k,
{
    let items = j->Array_0;
    let n = items.len() as int;
    let x = items[k];
    let rx = render(x);
    assert(generated(x, depth + 1));
    lemma_first_byte(x);
    lemma_item_head(items, k);
    let body = render_items(items, k);
    if k == n - 1 {
        assert(body =~= rx);
        lemma_placed_split(s, q, rx, seq![0x5du8]);
        lemma_value_rt(s, q, x, depth + 1);
        assert(items.subrange(0, k).push(x) =~= items);
    } else {
        let tail = render_items(items, k + 1);
        assert(body + seq![0x5du8] =~= rx + (seq![0x2cu8] + (tail + seq![0x5du8])));
        lemma_placed_split(s, q, rx, seq![0x2cu8] + (tail + seq![0x5du8]));
        lemma_placed_split(s, q + rx.len(), seq![0x2cu8], tail + seq![0x5du8]);
        lemma_value_rt(s, q, x, depth + 1);
        let y = items[k + 1];
        assert(generated(y, depth + 1));
        lemma_first_byte(y);
        lemma_item_head(items, k + 1);
        lemma_placed_split(s, q + rx.len() + 1, tail, seq![0x5du8]);
        assert(s[q + rx.len() + 1] == tail[0]);
        lemma_elements_rt(s, q + rx.len() + 1, depth, j, k + 1);
        assert(items.subrange(0, k).push(x) =~= items.subrange(0, k + 1));
    }
}

proof fn lemma_members_rt(s: Seq<u8>, q: int, depth: int, j: Json, k: int)
    requires
        j is Object,
        generated(j, depth),
        0 <= depth <= MAX_DEPTH,
        0 <= k < j->Object_0.len(),
        placed(s, q, render_members(j->Object_0, k) + seq![0x7du8]),
    ensures
        crate::grammar::spec_members(s, q, depth, j->Object_0.subrange(0, k)) == Ok::<(Json, int), crate::error::ParseError>(
            (j, q + render_members(j->Object_0, k).len() + 1),
        ),
    decreases j, 0int, j->Object_0.len() - k,
{
    let m = j->Object_0;
    let n = m.len() as int;
    let key = m[k].0;
    let x = m[k].1;
    let rx = render(x);
    let px = quoted(key) + seq![0x3au8] + rx;
    assert(generated(x, depth + 1));
    assert(plain_text(key));
    lemma_first_byte(x);
    lemma_member_head(m, k);
    let body = render_members(m, k);
    let after: Seq<u8> = if k == n - 1 { seq![0x7du8] } else { seq![0x2cu8] + (render_members(m, k + 1) + seq![0x7du8]) };
    assert(body + seq![0x7du8] =~= px + after);
    lemma_placed_split(s, q, px, after);
    lemma_placed_split(s, q, quoted(key) + seq![0x3au8], rx);
    lemma_placed_split(s, q, quoted(key), seq![0x3au8]);
    lemma_quoted(s, q, key);
    let acc = m.subrange(0, k);
    assert forall|i: int| 0 <= i < acc.len() implies #[trigger] acc[i].0 != key by {
        assert(acc[i] == m[i]);
    }
    lemma_key_absent(acc, key, 0);
    assert(crate::grammar::put_member(acc, key, x) == acc.push((key, x)));
    assert(m[k] == (key, x));
    let t = q + quoted(key).len() + 1;
    assert(s[q + px.len()] == after[0]);
    lemma_value_rt(s, t, x, depth + 1);
    if k == n - 1 {
        assert(acc.push((key, x)) =~= m);
    } else {
        let tail = render_members(m, k + 1);
        lemma_placed_split(s, q + px.len(), seq![0x2cu8], tail + seq![0x7du8]);
        lemma_member_head(m, k + 1);
        lemma_placed_split(s, q + px.len() + 1, tail, seq![0x7du8]);
        assert(s[q + px.len() + 1] == tail[0]);
        lemma_members_rt(s, q + px.len() + 1, depth, j, k + 1);
        assert(acc.push((key, x)) =~= m.subrange(0, k + 1));
    }
}

/// Parsing the compact rendering of a generated tree succeeds and gives back
/// exactly that tree: the same variant, the same number of children and the
/// same leaves at every node.
pub proof fn lemma_generated_documents_parse(j: Json)
    requires
        generated(j, 0),
    ensures
        spec_parse(render(j)) == Ok::<Json, crate::error::ParseError>(j),
{
    let s = render(j);
    lemma_first_byte(j);
    assert(s.subrange(0, s.len() as int) =~= s);
    lemma_value_rt(s, 0, j, 0);
}

} // verus!
