//! What parsing gives back of what encoding wrote.
use vstd::prelude::*;
use super::encode::{
    ascii_bytes, encode_items, encode_json, encode_members, escape_char, escape_text,
    hex_digit_byte, lemma_encode_items_some, lemma_encode_members_some, quoted,
};
use super::error::ParseError;
use super::spec::{
    array_items, document, object_members, skip_ws, value, ws_len, MAX_DEPTH,
    ascii_chars, digits_len, escape, hex4, hex4_from, hex_val, is_digit, is_ws, literal,
    literal_from, number_end, string_body, string_literal, unicode_escape, utf8_decode,
    };
use super::value::Json;

verus! {

/// Bytes that may follow a value inside an encoding: `,` `]` `}`.
pub open spec fn is_delim(b: u8) -> bool {
    b == 0x2C || b == 0x5D || b == 0x7D
}

/// `e` stands in `s` at `p`.
pub open spec fn placed(s: Seq<u8>, p: int, e: Seq<u8>) -> bool {
    0 <= p && p + e.len() <= s.len() && s.subrange(p, p + e.len()) == e
}

/// What follows position `q` of `s` ends a value: the end, or a delimiter.
pub open spec fn ends_value(s: Seq<u8>, q: int) -> bool {
    q == s.len() || (0 <= q < s.len() && is_delim(s[q]))
}

proof fn lemma_placed_index(s: Seq<u8>, p: int, e: Seq<u8>, i: int)
    requires
        placed(s, p, e),
        0 <= i < e.len(),
    ensures
        s[p + i] == e[i],
{
    assert(s.subrange(p, p + e.len())[i] == s[p + i]);
}

pub proof fn lemma_placed_split(s: Seq<u8>, p: int, a: Seq<u8>, b: Seq<u8>)
    requires
        placed(s, p, a + b),
    ensures
        placed(s, p, a),
        placed(s, p + a.len(), b),
{
    let ab = a + b;
    assert(s.subrange(p, p + a.len()) =~= a) by {
        assert forall|i: int| 0 <= i < a.len() implies s.subrange(p, p + a.len())[i] == a[i] by {
            lemma_placed_index(s, p, ab, i);
        }
    }
    assert(s.subrange(p + a.len(), p + a.len() + b.len()) =~= b) by {
        assert forall|i: int| 0 <= i < b.len() implies s.subrange(
            p + a.len(),
            p + a.len() + b.len(),
        )[i] == b[i] by {
            lemma_placed_index(s, p, ab, a.len() + i);
        }
    }
}

proof fn lemma_literal_from_match(s: Seq<u8>, p: int, lit: Seq<u8>, i: int)
    requires
        placed(s, p, lit),
        0 <= i <= lit.len(),
    ensures
        literal_from(s, p, lit, i) == Ok::<int, ParseError>(p + lit.len()),
    decreases lit.len() - i,
{
    if i < lit.len() {
        lemma_placed_index(s, p, lit, i);
        lemma_literal_from_match(s, p, lit, i + 1);
    }
}

pub proof fn lemma_literal_match(s: Seq<u8>, p: int, lit: Seq<u8>)
    requires
        placed(s, p, lit),
    ensures
        literal(s, p, lit) == Ok::<int, ParseError>(p + lit.len()),
{
    lemma_literal_from_match(s, p, lit, 0);
}

proof fn lemma_digits_local(t: Seq<u8>, s: Seq<u8>, p: int, k: int)
    requires
        placed(s, p, t),
        p + t.len() == s.len() || !is_digit(s[p + t.len()]),
        0 <= k <= t.len(),
    ensures
        digits_len(s, p + k) == digits_len(t, k),
    decreases t.len() - k,
{
    if k < t.len() {
        lemma_placed_index(s, p, t, k);
        lemma_digits_local(t, s, p, k + 1);
    }
}

proof fn lemma_digits_le(t: Seq<u8>, k: int)
    requires
        0 <= k <= t.len(),
    ensures
        k + digits_len(t, k) <= t.len(),
    decreases t.len() - k,
{
    if k < t.len() && is_digit(t[k]) {
        lemma_digits_le(t, k + 1);
    }
}

/// A number literal ends where its text ends when a delimiter or the end of
/// input follows it.
#[verifier::rlimit(60)]
pub proof fn lemma_number_local(t: Seq<u8>, s: Seq<u8>, p: int)
    requires
        placed(s, p, t),
        ends_value(s, p + t.len()),
        number_end(t, 0) == Ok::<int, ParseError>(t.len() as int),
    ensures
        number_end(s, p) == Ok::<int, ParseError>(p + t.len()),
{
    let n = t.len() as int;
    assert(forall|k: int| 0 <= k < n ==> s[p + k] == t[k]) by {
        assert forall|k: int| 0 <= k < n implies s[p + k] == t[k] by {
            lemma_placed_index(s, p, t, k);
        }
    }
    assert(p + n == s.len() || !is_digit(s[p + n]));
    let ta = if 0 < t.len() && t[0] == 0x2D { 1int } else { 0int };
    let sa = if p < s.len() && s[p] == 0x2D { p + 1 } else { p };
    assert(sa == p + ta);
    lemma_digits_local(t, s, p, ta + 1);
    let tb = if t[ta] == 0x30 { ta + 1 } else { ta + 1 + digits_len(t, ta + 1) };
    let sb = if s[sa] == 0x30 { sa + 1 } else { sa + 1 + digits_len(s, sa + 1) };
    lemma_digits_le(t, ta + 1);
    assert(sb == p + tb);
    if tb < n && t[tb] == 0x2E {
        lemma_digits_local(t, s, p, tb + 1);
        lemma_digits_le(t, tb + 1);
    }
    let tfrac: int = if tb < n && t[tb] == 0x2E {
        tb + 1 + digits_len(t, tb + 1)
    } else {
        tb
    };
    assert(tfrac <= n);
    let tc = tfrac;
    if tc < n && (t[tc] == 0x65 || t[tc] == 0x45) {
        let td = if tc + 1 < n && (t[tc + 1] == 0x2B || t[tc + 1] == 0x2D) {
            tc + 2
        } else {
            tc + 1
        };
        lemma_digits_local(t, s, p, td);
        lemma_digits_le(t, td);
    }
}

pub proof fn lemma_hex_digit(v: u32)
    requires
        v < 16,
    ensures
        hex_val(hex_digit_byte(v)) == v,
        0x30 <= hex_digit_byte(v) <= 0x39 || 0x41 <= hex_digit_byte(v) <= 0x46,
{
}

proof fn lemma_escape_text_front(cs: Seq<char>)
    requires
        cs.len() > 0,
    ensures
        escape_text(cs) == escape_char(cs[0]) + escape_text(cs.drop_first()),
    decreases cs.len(),
{
    if cs.len() == 1 {
        assert(cs.drop_first() =~= Seq::<char>::empty());
        assert(cs.drop_last() =~= Seq::<char>::empty());
        assert(escape_text(cs) =~= escape_char(cs[0]) + escape_text(cs.drop_first()));
    } else {
        lemma_escape_text_front(cs.drop_last());
        assert(cs.drop_last().drop_first() =~= cs.drop_first().drop_last());
        assert(cs.drop_first().last() == cs.last());
        assert(escape_text(cs) =~= escape_char(cs[0]) + escape_text(cs.drop_first()));
    }
}

proof fn lemma_width2(c: u32)
    by (bit_vector)
    requires
        0x80 <= c <= 0x7FF,
    ensures
        0xC2 <= (0xC0 | ((c >> 6) & 0x1F) as u8) <= 0xDF,
        0x80 <= (0x80 | (c & 0x3F) as u8) <= 0xBF,
        ((((0xC0 | ((c >> 6) & 0x1F) as u8) & 0x1F) as u32) << 6u32) | (((0x80 | (c & 0x3F) as u8)
            & 0x3F) as u32) == c,
{
}

proof fn lemma_width3(c: u32)
    by (bit_vector)
    requires
        0x800 <= c <= 0xFFFF,
        !(0xD800 <= c <= 0xDFFF),
    ensures
        0xE0 <= (0xE0 | ((c >> 12) & 0x0F) as u8) <= 0xEF,
        0x80 <= (0x80 | ((c >> 6) & 0x3F) as u8) <= 0xBF,
        0x80 <= (0x80 | (c & 0x3F) as u8) <= 0xBF,
        (0xE0 | ((c >> 12) & 0x0F) as u8) == 0xE0 ==> 0xA0 <= (0x80 | ((c >> 6) & 0x3F) as u8),
        (0xE0 | ((c >> 12) & 0x0F) as u8) == 0xED ==> (0x80 | ((c >> 6) & 0x3F) as u8) <= 0x9F,
        ((((0xE0 | ((c >> 12) & 0x0F) as u8) & 0x0F) as u32) << 12u32) | ((((0x80 | ((c >> 6)
            & 0x3F) as u8) & 0x3F) as u32) << 6u32) | (((0x80 | (c & 0x3F) as u8) & 0x3F) as u32)
            == c,
{
}

proof fn lemma_width4(c: u32)
    by (bit_vector)
    requires
        0x10000 <= c <= 0x10FFFF,
    ensures
        0xF0 <= (0xF0 | ((c >> 18) & 0x7) as u8) <= 0xF4,
        0x80 <= (0x80 | ((c >> 12) & 0x3F) as u8) <= 0xBF,
        0x80 <= (0x80 | ((c >> 6) & 0x3F) as u8) <= 0xBF,
        0x80 <= (0x80 | (c & 0x3F) as u8) <= 0xBF,
        (0xF0 | ((c >> 18) & 0x7) as u8) == 0xF0 ==> 0x90 <= (0x80 | ((c >> 12) & 0x3F) as u8),
        (0xF0 | ((c >> 18) & 0x7) as u8) == 0xF4 ==> (0x80 | ((c >> 12) & 0x3F) as u8) <= 0x8F,
        ((((0xF0 | ((c >> 18) & 0x7) as u8) & 0x07) as u32) << 18u32) | ((((0x80 | ((c >> 12)
            & 0x3F) as u8) & 0x3F) as u32) << 12u32) | ((((0x80 | ((c >> 6) & 0x3F) as u8)
            & 0x3F) as u32) << 6u32) | (((0x80 | (c & 0x3F) as u8) & 0x3F) as u32) == c,
{
}

proof fn lemma_width1(c: u32)
    by (bit_vector)
    requires
        c < 0x80,
    ensures
        ((c & 0x7F) as u8) as u32 == c,
{
}

proof fn lemma_control_hex(c: u32)
    by (bit_vector)
    requires
        c < 0x20,
    ensures
        ((c >> 4) & 0x0F) < 16,
        (c & 0x0F) < 16,
        ((c >> 4) & 0x0F) * 16 + (c & 0x0F) == c,
{
}

/// One escaped character is read back as that character.
proof fn lemma_char_step(c: char, s: Seq<u8>, q: int, acc: Seq<char>)
    requires
        placed(s, q, escape_char(c)),
        q + escape_char(c).len() < s.len(),
    ensures
        string_body(s, q, acc) == string_body(s, q + escape_char(c).len(), acc.push(c)),
{
    let e = escape_char(c);
    let u = c as u32;
    vstd::utf8::char_is_scalar(c);
    assert(forall|i: int| 0 <= i < e.len() ==> s[q + i] == e[i]) by {
        assert forall|i: int| 0 <= i < e.len() implies s[q + i] == e[i] by {
            lemma_placed_index(s, q, e, i);
        }
    }
    if c == '"' || c == '\\' || c == '\u{0008}' || c == '\u{000C}' || c == '\n' || c == '\r' || c
        == '\t' {
        assert(s[q] == 0x5C);
    } else if u < 0x20 {
        lemma_control_hex(u);
        let hi = (u >> 4u32) & 0x0F;
        let lo = u & 0x0F;
        lemma_hex_digit(hi);
        lemma_hex_digit(lo);
        let t = q + 2;
        assert(s[t] == 0x30 && s[t + 1] == 0x30);
        assert(s[t + 2] == hex_digit_byte(hi) && s[t + 3] == hex_digit_byte(lo));
        assert(hex4_from(s, t, 3, hi) == hex4_from(s, t, 4, (hi * 16 + lo) as u32));
        assert(hex4_from(s, t, 2, 0) == hex4_from(s, t, 3, (0 * 16 + hi) as u32));
        assert(hex4_from(s, t, 1, 0) == hex4_from(s, t, 2, (0 * 16 + 0) as u32));
        assert(hex4_from(s, t, 0, 0) == hex4_from(s, t, 1, (0 * 16 + 0) as u32));
        assert(hex4(s, t) == Ok::<u32, ParseError>(u));
        vstd::utf8::char_u32_cast(c, u);
        assert(unicode_escape(s, t) == Ok::<(char, int), ParseError>((c, t + 4)));
        assert(escape(s, q + 1) == Ok::<(char, int), ParseError>((c, q + 6)));
    } else if u < 0x80 {
        lemma_width1(u);
        vstd::utf8::char_u32_cast(c, u);
        assert(e =~= seq![(u & 0x7F) as u8]);
        assert(s[q] as u32 == u);
        assert((s[q] as char) == c);
    } else if u < 0x800 {
        lemma_width2(u);
        let bs = s.subrange(q, q + 2);
        assert(bs =~= e);
        vstd::utf8::char_u32_cast(c, u);
        assert(utf8_decode(bs) == u);
    } else if u < 0x10000 {
        lemma_width3(u);
        let bs = s.subrange(q, q + 3);
        assert(bs =~= e);
        vstd::utf8::char_u32_cast(c, u);
        assert(utf8_decode(bs) == u);
    } else {
        lemma_width4(u);
        let bs = s.subrange(q, q + 4);
        assert(bs =~= e);
        vstd::utf8::char_u32_cast(c, u);
        assert(utf8_decode(bs) == u);
    }
}

proof fn lemma_string_chars(cs: Seq<char>, s: Seq<u8>, q: int, acc: Seq<char>)
    requires
        placed(s, q, escape_text(cs).push(0x22u8)),
    ensures
        string_body(s, q, acc) == Ok::<(Seq<char>, int), ParseError>(
            (acc + cs, q + escape_text(cs).len() + 1),
        ),
    decreases cs.len(),
{
    let et = escape_text(cs);
    if cs.len() == 0 {
        lemma_placed_index(s, q, et.push(0x22u8), 0);
        assert(acc + cs =~= acc);
    } else {
        lemma_escape_text_front(cs);
        let e = escape_char(cs[0]);
        let rest = escape_text(cs.drop_first());
        assert(et.push(0x22u8) =~= e + rest.push(0x22u8));
        lemma_placed_split(s, q, e, rest.push(0x22u8));
        lemma_char_step(cs[0], s, q, acc);
        lemma_string_chars(cs.drop_first(), s, q + e.len(), acc.push(cs[0]));
        assert(acc.push(cs[0]) + cs.drop_first() =~= acc + cs);
    }
}

/// A string literal that encoding wrote is read back as its text.
pub proof fn lemma_string_literal(cs: Seq<char>, s: Seq<u8>, p: int)
    requires
        placed(s, p, quoted(cs)),
    ensures
        string_literal(s, p) == Ok::<(Seq<char>, int), ParseError>((cs, p + quoted(cs).len())),
{
    let et = escape_text(cs);
    lemma_placed_index(s, p, quoted(cs), 0);
    assert(quoted(cs) =~= seq![0x22u8] + et.push(0x22u8));
    lemma_placed_split(s, p, seq![0x22u8], et.push(0x22u8));
    lemma_string_chars(cs, s, p + 1, Seq::empty());
    assert(Seq::<char>::empty() + cs =~= cs);
}

/// Reading the encoding of a string from its start gives the string back
/// and stops at the end of the encoding: the string reader (which reads
/// `string_literal`) undoes the string writer (which writes `quoted`).
pub proof fn law_string_round_trip(cs: Seq<char>)
    ensures
        string_literal(quoted(cs), 0) == Ok::<(Seq<char>, int), ParseError>((cs, quoted(cs).len() as int)),
{
    assert(quoted(cs).subrange(0, quoted(cs).len() as int) =~= quoted(cs));
    lemma_string_literal(cs, quoted(cs), 0);
}

/// How deeply arrays and objects nest in a value.
pub open spec fn depth(v: Json) -> nat
    decreases v,
{
    match v {
        Json::Array(items) => 1 + items_depth(items),
        Json::Object(fields) => 1 + members_depth(fields),
        _ => 0,
    }
}

pub open spec fn items_depth(items: Seq<Json>) -> nat
    decreases items,
{
    if items.len() == 0 {
        0
    } else {
        let a = items_depth(items.drop_last());
        let b = depth(items.last());
        if a >= b {
            a
        } else {
            b
        }
    }
}

pub open spec fn members_depth(fields: Seq<(Seq<char>, Json)>) -> nat
    decreases fields,
{
    if fields.len() == 0 {
        0
    } else {
        let a = members_depth(fields.drop_last());
        let b = depth(fields.last().1);
        if a >= b {
            a
        } else {
            b
        }
    }
}

proof fn lemma_items_depth(items: Seq<Json>, k: int)
    requires
        0 <= k < items.len(),
    ensures
        depth(items[k]) <= items_depth(items),
    decreases items.len(),
{
    if k < items.len() - 1 {
        lemma_items_depth(items.drop_last(), k);
    }
}

proof fn lemma_members_depth(fields: Seq<(Seq<char>, Json)>, k: int)
    requires
        0 <= k < fields.len(),
    ensures
        depth(fields[k].1) <= members_depth(fields),
    decreases fields.len(),
{
    if k < fields.len() - 1 {
        lemma_members_depth(fields.drop_last(), k);
    }
}

/// The first byte of an encoding: never whitespace, never a closing bracket.
proof fn lemma_first_byte(v: Json)
    requires
        encode_json(v) is Some,
    ensures
        encode_json(v).unwrap().len() >= 1,
        !is_ws(encode_json(v).unwrap()[0]),
        encode_json(v).unwrap()[0] != 0x5D,
        encode_json(v).unwrap()[0] != 0x7D,
{
    match v {
        Json::Number(t) => {
            let b = ascii_bytes(t);
            assert(number_end(b, 0) is Ok);
        },
        _ => {},
    }
}

/// The encodings of the first elements are a prefix of the encoding of all
/// elements, followed by a comma when elements remain.
proof fn lemma_items_prefix(items: Seq<Json>, m: int)
    requires
        encode_items(items) is Some,
        1 <= m <= items.len(),
    ensures
        encode_items(items.take(m)) is Some,
        encode_items(items.take(m)).unwrap().len() <= encode_items(items).unwrap().len(),
        encode_items(items).unwrap().subrange(0, encode_items(items.take(m)).unwrap().len() as int)
            == encode_items(items.take(m)).unwrap(),
        m < items.len() ==> encode_items(items.take(m)).unwrap().len() < encode_items(items).unwrap().len(),
        m < items.len() ==> encode_items(items).unwrap()[encode_items(items.take(m)).unwrap().len() as int] == 0x2Cu8,
    decreases items.len() - m,
{
    let all = encode_items(items).unwrap();
    if m == items.len() {
        assert(items.take(m) =~= items);
        assert(all.subrange(0, all.len() as int) =~= all);
    } else {
        lemma_items_prefix(items, m + 1);
        let t1 = items.take(m + 1);
        assert(t1.drop_last() =~= items.take(m));
        let p1 = encode_items(t1).unwrap();
        lemma_encode_items_some(items, m);
        let p = encode_items(items.take(m)).unwrap();
        assert(p1 == p.push(0x2Cu8) + encode_json(items[m]).unwrap());
        assert(all.subrange(0, p.len() as int) =~= p) by {
            assert forall|i: int| 0 <= i < p.len() implies all.subrange(0, p.len() as int)[i] == p[i] by {
                assert(all[i] == all.subrange(0, p1.len() as int)[i]);
                assert(p1[i] == p[i]);
            }
        }
        assert(all[p.len() as int] == all.subrange(0, p1.len() as int)[p.len() as int]);
    }
}

proof fn lemma_members_prefix(fields: Seq<(Seq<char>, Json)>, m: int)
    requires
        encode_members(fields) is Some,
        1 <= m <= fields.len(),
    ensures
        encode_members(fields.take(m)) is Some,
        encode_members(fields.take(m)).unwrap().len() <= encode_members(fields).unwrap().len(),
        encode_members(fields).unwrap().subrange(0, encode_members(fields.take(m)).unwrap().len() as int)
            == encode_members(fields.take(m)).unwrap(),
        m < fields.len() ==> encode_members(fields.take(m)).unwrap().len() < encode_members(fields).unwrap().len(),
        m < fields.len() ==> encode_members(fields).unwrap()[encode_members(fields.take(m)).unwrap().len() as int] == 0x2Cu8,
    decreases fields.len() - m,
{
    let all = encode_members(fields).unwrap();
    if m == fields.len() {
        assert(fields.take(m) =~= fields);
        assert(all.subrange(0, all.len() as int) =~= all);
    } else {
        lemma_members_prefix(fields, m + 1);
        let t1 = fields.take(m + 1);
        assert(t1.drop_last() =~= fields.take(m));
        let p1 = encode_members(t1).unwrap();
        lemma_encode_members_some(fields, m);
        let p = encode_members(fields.take(m)).unwrap();
        assert(p1 == p.push(0x2Cu8) + (quoted(fields[m].0).push(0x3Au8) + encode_json(fields[m].1).unwrap()));
        assert(all.subrange(0, p.len() as int) =~= p) by {
            assert forall|i: int| 0 <= i < p.len() implies all.subrange(0, p.len() as int)[i] == p[i] by {
                assert(all[i] == all.subrange(0, p1.len() as int)[i]);
                assert(p1[i] == p[i]);
            }
        }
        assert(all[p.len() as int] == all.subrange(0, p1.len() as int)[p.len() as int]);
    }
}

proof fn lemma_placed_prefix(s: Seq<u8>, p: int, whole: Seq<u8>, n: int)
    requires
        placed(s, p, whole),
        0 <= n <= whole.len(),
    ensures
        placed(s, p, whole.subrange(0, n)),
{
    assert(whole =~= whole.subrange(0, n) + whole.subrange(n, whole.len() as int));
    lemma_placed_split(s, p, whole.subrange(0, n), whole.subrange(n, whole.len() as int));
}

/// Every value that encoding writes is read back, whatever follows it as
/// long as a delimiter or the end of input does.
#[verifier::rlimit(100)]
pub proof fn lemma_value_at(v: Json, s: Seq<u8>, p: int, d: int)
    requires
        encode_json(v) is Some,
        placed(s, p, encode_json(v).unwrap()),
        ends_value(s, p + encode_json(v).unwrap().len()),
        0 <= d,
        d + depth(v) <= MAX_DEPTH,
    ensures
        value(s, p, d) == Ok::<(Json, int), ParseError>((v, p + encode_json(v).unwrap().len())),
    decreases v, 0int,
{
    let e = encode_json(v).unwrap();
    lemma_first_byte(v);
    lemma_placed_index(s, p, e, 0);
    assert(ws_len(s, p) == 0);
    assert(skip_ws(s, p) == p);
    match v {
        Json::Null => {
            lemma_literal_match(s, p, e);
        },
        Json::Bool(b) => {
            lemma_literal_match(s, p, e);
        },
        Json::Number(t) => {
            let b = ascii_bytes(t);
            assert(number_end(b, 0) is Ok);
            lemma_number_local(b, s, p);
            assert(ascii_chars(s, p, p + b.len()) =~= t) by {
                assert forall|i: int| 0 <= i < t.len() implies ascii_chars(s, p, p + b.len())[i] == t[i] by {
                    lemma_placed_index(s, p, b, i);
                    let c = t[i];
                    let u = c as u32;
                    assert(u < 0x80);
                    assert(s[p + i] == u as u8);
                    assert((u as u8) as u32 == u) by (bit_vector)
                        requires
                            u < 0x80,
                    ;
                    vstd::utf8::char_u32_cast(c, u);
                    assert(((u as u8) as char) == (u as char));
                }
            }
        },
        Json::Str(cs) => {
            lemma_string_literal(cs, s, p);
        },
        Json::Array(items) => {
            let ei = encode_items(items).unwrap();
            assert(e == seq![0x5Bu8] + ei + seq![0x5Du8]);
            assert(e =~= seq![0x5Bu8] + (ei + seq![0x5Du8]));
            lemma_placed_split(s, p, seq![0x5Bu8], ei + seq![0x5Du8]);
            lemma_placed_split(s, p + 1, ei, seq![0x5Du8]);
            lemma_placed_index(s, p + 1 + ei.len(), seq![0x5Du8], 0);
            if items.len() == 0 {
                assert(ei.len() == 0);
                assert(ws_len(s, p + 1) == 0);
                assert(items =~= Seq::<Json>::empty());
            } else {
                lemma_items_prefix(items, 1);
                assert(items.take(1).drop_last() =~= Seq::<Json>::empty());
                lemma_encode_items_some(items, 0);
                assert(encode_items(items.take(1)).unwrap() == encode_json(items[0]).unwrap());
                lemma_first_byte(items[0]);
                lemma_placed_prefix(s, p + 1, ei, encode_json(items[0]).unwrap().len() as int);
                lemma_placed_index(s, p + 1, encode_json(items[0]).unwrap(), 0);
                assert(ws_len(s, p + 1) == 0);
                assert(items.take(0) =~= Seq::<Json>::empty());
                assert(placed(s, p + 1, ei.push(0x5Du8))) by {
                    assert(ei.push(0x5Du8) =~= ei + seq![0x5Du8]);
                    assert(s.subrange(p + 1, p + 1 + ei.len() + 1) =~= ei + seq![0x5Du8]) by {
                        assert forall|i: int| 0 <= i < ei.len() + 1 implies s.subrange(p + 1, p + 1 + ei.len() + 1)[i] == (ei + seq![0x5Du8])[i] by {
                            if i < ei.len() {
                                lemma_placed_index(s, p + 1, ei, i);
                            }
                        }
                    }
                }
                lemma_items_at(items, 0, s, p + 1, d + 1);
            }
        },
        Json::Object(fields) => {
            let em = encode_members(fields).unwrap();
            assert(e == seq![0x7Bu8] + em + seq![0x7Du8]);
            assert(e =~= seq![0x7Bu8] + (em + seq![0x7Du8]));
            lemma_placed_split(s, p, seq![0x7Bu8], em + seq![0x7Du8]);
            lemma_placed_split(s, p + 1, em, seq![0x7Du8]);
            lemma_placed_index(s, p + 1 + em.len(), seq![0x7Du8], 0);
            if fields.len() == 0 {
                assert(em.len() == 0);
                assert(ws_len(s, p + 1) == 0);
                assert(fields =~= Seq::<(Seq<char>, Json)>::empty());
            } else {
                lemma_members_prefix(fields, 1);
                assert(fields.take(1).drop_last() =~= Seq::<(Seq<char>, Json)>::empty());
                lemma_encode_members_some(fields, 0);
                let m0 = quoted(fields[0].0).push(0x3Au8) + encode_json(fields[0].1).unwrap();
                assert(encode_members(fields.take(1)).unwrap() == m0);
                lemma_placed_prefix(s, p + 1, em, m0.len() as int);
                lemma_placed_index(s, p + 1, m0, 0);
                assert(ws_len(s, p + 1) == 0);
                assert(fields.take(0) =~= Seq::<(Seq<char>, Json)>::empty());
                assert(placed(s, p + 1, em.push(0x7Du8))) by {
                    assert(s.subrange(p + 1, p + 1 + em.len() + 1) =~= em.push(0x7Du8)) by {
                        assert forall|i: int| 0 <= i < em.len() + 1 implies s.subrange(p + 1, p + 1 + em.len() + 1)[i] == em.push(0x7Du8)[i] by {
                            if i < em.len() {
                                lemma_placed_index(s, p + 1, em, i);
                            }
                        }
                    }
                }
                lemma_members_at(fields, 0, s, p + 1, d + 1);
            }
        },
    }
}

pub open spec fn item_pos(items: Seq<Json>, k: int, q0: int) -> int {
    if k == 0 {
        q0
    } else {
        q0 + encode_items(items.take(k)).unwrap().len() + 1
    }
}

#[verifier::rlimit(40)]
proof fn lemma_items_at(items: Seq<Json>, k: int, s: Seq<u8>, q0: int, d: int)
    requires
        encode_items(items) is Some,
        0 <= k < items.len(),
        placed(s, q0, encode_items(items).unwrap().push(0x5Du8)),
        0 <= d,
        d + items_depth(items) <= MAX_DEPTH,
    ensures
        array_items(s, item_pos(items, k, q0), d, items.take(k)) == Ok::<(Json, int), ParseError>(
            (Json::Array(items), q0 + encode_items(items).unwrap().len() + 1),
        ),
    decreases items, items.len() - k,
{
    let all = encode_items(items).unwrap();
    let n = items.len();
    lemma_items_prefix(items, k + 1);
    lemma_encode_items_some(items, k);
    let a = encode_items(items.take(k + 1)).unwrap();
    let ek = encode_json(items[k]).unwrap();
    let pos = item_pos(items, k, q0);
    assert(items.take(k + 1).drop_last() =~= items.take(k));
    assert(items.take(k + 1).last() == items[k]);
    let pre = if k == 0 { Seq::<u8>::empty() } else { encode_items(items.take(k)).unwrap().push(0x2Cu8) };
    if k > 0 {
        lemma_items_prefix(items, k);
    }
    assert(a =~= pre + ek);
    assert(pos == q0 + pre.len());
    lemma_placed_prefix(s, q0, all.push(0x5Du8), a.len() as int);
    assert(all.push(0x5Du8).subrange(0, a.len() as int) =~= a) by {
        assert forall|i: int| 0 <= i < a.len() implies all.push(0x5Du8).subrange(0, a.len() as int)[i] == a[i] by {
            assert(all.subrange(0, a.len() as int)[i] == a[i]);
        }
    }
    lemma_placed_split(s, q0, pre, ek);
    let q1 = pos + ek.len();
    assert(q1 == q0 + a.len());
    lemma_placed_index(s, q0, all.push(0x5Du8), a.len() as int);
    if k + 1 < n {
        assert(all.push(0x5Du8)[a.len() as int] == all[a.len() as int]);
        assert(s[q1] == 0x2Cu8);
    } else {
        assert(items.take(k + 1) =~= items);
        assert(s[q1] == 0x5Du8);
    }
    lemma_items_depth(items, k);
    lemma_value_at(items[k], s, pos, d);
    assert(ws_len(s, q1) == 0);
    assert(skip_ws(s, q1) == q1);
    assert(items.take(k).push(items[k]) =~= items.take(k + 1));
    if k + 1 < n {
        assert(item_pos(items, k + 1, q0) == q1 + 1);
        lemma_items_at(items, k + 1, s, q0, d);
    } else {
        assert(items.take(k + 1) =~= items);
    }
}

pub open spec fn member_pos(fields: Seq<(Seq<char>, Json)>, k: int, q0: int) -> int {
    if k == 0 {
        q0
    } else {
        q0 + encode_members(fields.take(k)).unwrap().len() + 1
    }
}

#[verifier::rlimit(60)]
proof fn lemma_members_at(fields: Seq<(Seq<char>, Json)>, k: int, s: Seq<u8>, q0: int, d: int)
    requires
        encode_members(fields) is Some,
        0 <= k < fields.len(),
        placed(s, q0, encode_members(fields).unwrap().push(0x7Du8)),
        0 <= d,
        d + members_depth(fields) <= MAX_DEPTH,
    ensures
        object_members(s, member_pos(fields, k, q0), d, fields.take(k)) == Ok::<(Json, int), ParseError>(
            (Json::Object(fields), q0 + encode_members(fields).unwrap().len() + 1),
        ),
    decreases fields, fields.len() - k,
{
    let all = encode_members(fields).unwrap();
    let n = fields.len();
    lemma_members_prefix(fields, k + 1);
    lemma_encode_members_some(fields, k);
    let a = encode_members(fields.take(k + 1)).unwrap();
    let key = fields[k].0;
    let ek = encode_json(fields[k].1).unwrap();
    let qk = quoted(key);
    let mk = qk.push(0x3Au8) + ek;
    let pos = member_pos(fields, k, q0);
    assert(fields.take(k + 1).drop_last() =~= fields.take(k));
    assert(fields.take(k + 1).last() == fields[k]);
    let pre = if k == 0 { Seq::<u8>::empty() } else { encode_members(fields.take(k)).unwrap().push(0x2Cu8) };
    if k > 0 {
        lemma_members_prefix(fields, k);
    }
    assert(a =~= pre + mk);
    assert(pos == q0 + pre.len());
    lemma_placed_prefix(s, q0, all.push(0x7Du8), a.len() as int);
    assert(all.push(0x7Du8).subrange(0, a.len() as int) =~= a) by {
        assert forall|i: int| 0 <= i < a.len() implies all.push(0x7Du8).subrange(0, a.len() as int)[i] == a[i] by {
            assert(all.subrange(0, a.len() as int)[i] == a[i]);
        }
    }
    lemma_placed_split(s, q0, pre, mk);
    assert(mk =~= qk + (seq![0x3Au8] + ek));
    lemma_placed_split(s, pos, qk, seq![0x3Au8] + ek);
    lemma_placed_split(s, pos + qk.len(), seq![0x3Au8], ek);
    lemma_placed_index(s, pos, qk, 0);
    lemma_placed_index(s, pos + qk.len(), seq![0x3Au8], 0);
    lemma_string_literal(key, s, pos);
    let q1 = pos + qk.len();
    let q3 = q1 + 1 + ek.len();
    assert(q3 == q0 + a.len());
    lemma_placed_index(s, q0, all.push(0x7Du8), a.len() as int);
    if k + 1 < n {
        assert(all.push(0x7Du8)[a.len() as int] == all[a.len() as int]);
        assert(s[q3] == 0x2Cu8);
    } else {
        assert(fields.take(k + 1) =~= fields);
        assert(s[q3] == 0x7Du8);
    }
    lemma_members_depth(fields, k);
    assert(decreases_to!(fields => fields[k].1)) by {
        assert(decreases_to!(fields => fields[k]));
    }
    lemma_value_at(fields[k].1, s, q1 + 1, d);
    assert(ws_len(s, pos) == 0);
    assert(ws_len(s, q1) == 0);
    assert(ws_len(s, q3) == 0);
    assert(fields.take(k).push((key, fields[k].1)) =~= fields.take(k + 1));
    if k + 1 < n {
        assert(member_pos(fields, k + 1, q0) == q3 + 1);
        lemma_members_at(fields, k + 1, s, q0, d);
    } else {
        assert(fields.take(k + 1) =~= fields);
    }
}

/// Encoding then parsing gives back the value: for every value whose
/// numbers are finite JSON numbers and whose arrays and objects nest at most
/// `MAX_DEPTH` deep, `parse(encode(v))` is `v`.
pub proof fn law_parse_of_encode(v: Json)
    requires
        encode_json(v) is Some,
        depth(v) <= MAX_DEPTH,
    ensures
        document(encode_json(v).unwrap()) == Ok::<Json, ParseError>(v),
{
    let e = encode_json(v).unwrap();
    assert(e.subrange(0, e.len() as int) =~= e);
    lemma_value_at(v, e, 0, 0);
}

} // verus!
