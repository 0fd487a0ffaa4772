//! Plist values, and how a scalar text reads: booleans, null, bracketed
//! lists, numbers (kept as their text) and strings.
use vstd::prelude::*;
use crate::kdl_ast::nsid::split_on;
use super::chars::{
    eq_ignore_case, eq_ignore_case_chars, slice_chars, trim, trim_char, trim_char_chars,
    trim_chars, trim_end_char, trim_end_char_chars,
};

verus! {

/// A plist value. A number is kept as its text.
#[derive(Debug, PartialEq)]
pub enum PlistValue {
    Null,
    Bool(bool),
    Number(String),
    String(String),
    List(Vec<PlistValue>),
    Dict(Vec<(String, PlistValue)>),
}

/// The model of a plist value.
pub enum Plist {
    Null,
    Bool(bool),
    Number(Seq<char>),
    Str(Seq<char>),
    List(Seq<Plist>),
    Dict(Seq<(Seq<char>, Plist)>),
}

pub open spec fn plist_view(v: &PlistValue) -> Plist
    decreases v,
{
    match v {
        PlistValue::Null => Plist::Null,
        PlistValue::Bool(b) => Plist::Bool(*b),
        PlistValue::Number(t) => Plist::Number(t@),
        PlistValue::String(s) => Plist::Str(s@),
        PlistValue::List(items) => Plist::List(plist_items_view(items@)),
        PlistValue::Dict(fields) => Plist::Dict(plist_fields_view(fields@)),
    }
}

pub open spec fn plist_items_view(items: Seq<PlistValue>) -> Seq<Plist>
    decreases items,
{
    if items.len() == 0 {
        Seq::empty()
    } else {
        plist_items_view(items.drop_last()).push(plist_view(&items.last()))
    }
}

pub open spec fn plist_fields_view(fields: Seq<(String, PlistValue)>) -> Seq<(Seq<char>, Plist)>
    decreases fields,
{
    if fields.len() == 0 {
        Seq::empty()
    } else {
        plist_fields_view(fields.drop_last()).push((fields.last().0@, plist_view(&fields.last().1)))
    }
}

impl View for PlistValue {
    type V = Plist;

    open spec fn view(&self) -> Plist {
        plist_view(self)
    }
}

pub proof fn lemma_plist_items_push(items: Seq<PlistValue>, x: PlistValue)
    ensures
        plist_items_view(items.push(x)) == plist_items_view(items).push(x@),
{
    assert(items.push(x).drop_last() =~= items);
}

pub proof fn lemma_plist_fields_push(fields: Seq<(String, PlistValue)>, x: (String, PlistValue))
    ensures
        plist_fields_view(fields.push(x)) == plist_fields_view(fields).push((x.0@, x.1@)),
{
    assert(fields.push(x).drop_last() =~= fields);
}

pub proof fn lemma_plist_fields_view(fields: Seq<(String, PlistValue)>)
    ensures
        plist_fields_view(fields).len() == fields.len(),
        forall|i: int|
            0 <= i < fields.len() ==> #[trigger] plist_fields_view(fields)[i] == (
                fields[i].0@,
                fields[i].1@,
            ),
    decreases fields.len(),
{
    if fields.len() > 0 {
        lemma_plist_fields_view(fields.drop_last());
    }
}

pub open spec fn is_digit(c: char) -> bool {
    '0' <= c && c <= '9'
}

/// The first position at or after `p` that holds no decimal digit.
pub open spec fn digits_end(s: Seq<char>, p: int) -> int
    decreases s.len() - p,
{
    if 0 <= p < s.len() && is_digit(s[p]) {
        digits_end(s, p + 1)
    } else {
        p
    }
}

/// An exponent `e` or `E`, a sign, digits, reaching the end of `s`, or
/// nothing at `p` already at the end.
pub open spec fn exponent_ok(s: Seq<char>, p: int) -> bool {
    if p == s.len() {
        true
    } else if 0 <= p < s.len() && (s[p] == 'e' || s[p] == 'E') {
        let q = if p + 1 < s.len() && (s[p + 1] == '+' || s[p + 1] == '-') {
            p + 2
        } else {
            p + 1
        };
        q < s.len() && digits_end(s, q) == s.len()
    } else {
        false
    }
}

/// The text of a number that `f64::from_str` accepts: a sign, then `inf`,
/// `infinity`, `nan` (in any case), or digits with an optional point and
/// fraction (digits on at least one side) and an optional exponent.
pub open spec fn f64_text(s: Seq<char>) -> bool {
    let b = if s.len() > 0 && (s[0] == '+' || s[0] == '-') {
        s.drop_first()
    } else {
        s
    };
    let i = digits_end(b, 0);
    if eq_ignore_case(b, seq!['i', 'n', 'f']) || eq_ignore_case(
        b,
        seq!['i', 'n', 'f', 'i', 'n', 'i', 't', 'y'],
    ) || eq_ignore_case(b, seq!['n', 'a', 'n']) {
        true
    } else if i < b.len() && b[i] == '.' {
        let j = digits_end(b, i + 1);
        (i > 0 || j > i + 1) && exponent_ok(b, j)
    } else {
        i > 0 && exponent_ok(b, i)
    }
}

/// The text of a scalar: trimmed, without trailing commas, then without
/// surrounding double and single quotes.
pub open spec fn scalar_text(raw: Seq<char>) -> Seq<char> {
    trim_char(trim_char(trim_end_char(trim(raw), ','), '"'), '\'')
}

/// Whether `s` is a bracketed list `[..]`.
pub open spec fn bracketed(s: Seq<char>) -> bool {
    s.len() >= 2 && s[0] == '[' && s.last() == ']'
}

/// The value of a scalar text.
pub open spec fn scalar_of(raw: Seq<char>) -> Plist
    decreases raw.len(), 0nat,
{
    let s = scalar_text(raw);
    if eq_ignore_case(s, seq!['t', 'r', 'u', 'e']) {
        Plist::Bool(true)
    } else if eq_ignore_case(s, seq!['f', 'a', 'l', 's', 'e']) {
        Plist::Bool(false)
    } else if eq_ignore_case(s, seq!['n', 'u', 'l', 'l']) || s == seq!['~'] {
        Plist::Null
    } else if bracketed(s) && raw.len() > 0 {
        Plist::List(scalars_of(split_on(s.subrange(1, s.len() - 1), ','), (raw.len() - 1) as nat))
    } else if f64_text(s) {
        Plist::Number(s)
    } else {
        Plist::Str(s)
    }
}

/// The values of the parts that are not blank, in order (parts longer than
/// `bound` are not read).
pub open spec fn scalars_of(ps: Seq<Seq<char>>, bound: nat) -> Seq<Plist>
    decreases bound, ps.len(),
{
    if ps.len() == 0 {
        Seq::empty()
    } else if trim(ps.last()).len() == 0 || ps.last().len() > bound {
        scalars_of(ps.drop_last(), bound)
    } else {
        scalars_of(ps.drop_last(), bound).push(scalar_of(ps.last()))
    }
}

fn digits_end_exec(s: &[char], p: usize) -> (r: usize)
    requires
        p <= s@.len(),
    ensures
        r == digits_end(s@, p as int),
        p <= r <= s@.len(),
{
    let mut i: usize = p;
    while i < s.len() && '0' <= s[i] && s[i] <= '9'
        invariant
            p <= i <= s@.len(),
            digits_end(s@, p as int) == digits_end(s@, i as int),
        decreases s@.len() - i,
    {
        i = i + 1;
    }
    i
}

fn exponent_ok_exec(s: &[char], p: usize) -> (r: bool)
    requires
        p <= s@.len(),
    ensures
        r == exponent_ok(s@, p as int),
{
    let n = s.len();
    if p == n {
        return true;
    }
    if s[p] == 'e' || s[p] == 'E' {
        let q: usize = if p + 1 < n && (s[p + 1] == '+' || s[p + 1] == '-') {
            p + 2
        } else {
            p + 1
        };
        q < n && digits_end_exec(s, q) == n
    } else {
        false
    }
}

fn word_of(text: &str) -> (r: Vec<char>)
    ensures
        r@ == text@,
{
    crate::text::str_chars(text)
}

/// Whether `f64::from_str` accepts `s`, by the grammar that its
/// documentation gives.
pub fn is_f64_text(s: &[char]) -> (r: bool)
    ensures
        r == f64_text(s@),
{
    let start: usize = if s.len() > 0 && (s[0] == '+' || s[0] == '-') {
        1
    } else {
        0
    };
    let len = s.len();
    let b = slice_chars(s, start, len);
    proof {
        if start == 1 {
            assert(b@ =~= s@.drop_first());
        } else {
            assert(b@ =~= s@);
        }
    }
    let inf = word_of("inf");
    let infinity = word_of("infinity");
    let nan = word_of("nan");
    proof {
        reveal_strlit("inf");
        reveal_strlit("infinity");
        reveal_strlit("nan");
        assert(inf@ =~= seq!['i', 'n', 'f']);
        assert(infinity@ =~= seq!['i', 'n', 'f', 'i', 'n', 'i', 't', 'y']);
        assert(nan@ =~= seq!['n', 'a', 'n']);
    }
    if eq_ignore_case_chars(b.as_slice(), inf.as_slice()) || eq_ignore_case_chars(
        b.as_slice(),
        infinity.as_slice(),
    ) || eq_ignore_case_chars(b.as_slice(), nan.as_slice()) {
        return true;
    }
    let i = digits_end_exec(b.as_slice(), 0);
    if i < b.len() && b[i] == '.' {
        let j = digits_end_exec(b.as_slice(), i + 1);
        (i > 0 || j > i + 1) && exponent_ok_exec(b.as_slice(), j)
    } else {
        i > 0 && exponent_ok_exec(b.as_slice(), i)
    }
}

/// The pieces of `s` between occurrences of `sep`.
pub fn split_chars(s: &[char], sep: char) -> (r: Vec<Vec<char>>)
    ensures
        r@.len() == split_on(s@, sep).len(),
        forall|i: int| 0 <= i < r@.len() ==> (#[trigger] r@[i])@ == split_on(s@, sep)[i],
{
    let mut out: Vec<Vec<char>> = Vec::new();
    let mut current: Vec<char> = Vec::new();
    let mut i: usize = 0;
    proof {
        assert(s@.take(0) =~= Seq::<char>::empty());
    }
    while i < s.len()
        invariant
            0 <= i <= s@.len(),
            out@.len() + 1 == split_on(s@.take(i as int), sep).len(),
            forall|k: int|
                0 <= k < out@.len() ==> (#[trigger] out@[k])@ == split_on(s@.take(i as int), sep)[k],
            current@ == split_on(s@.take(i as int), sep).last(),
        decreases s@.len() - i,
    {
        let ghost prev = split_on(s@.take(i as int), sep);
        proof {
            assert(s@.take(i + 1).drop_last() =~= s@.take(i as int));
            assert(s@.take(i + 1).last() == s@[i as int]);
        }
        if s[i] == sep {
            let piece = current;
            out.push(piece);
            current = Vec::new();
            proof {
                assert(current@ =~= Seq::<char>::empty());
            }
        } else {
            current.push(s[i]);
        }
        i = i + 1;
    }
    proof {
        assert(s@.take(s@.len() as int) =~= s@);
    }
    out.push(current);
    out
}

proof fn lemma_split_piece_len(s: Seq<char>, sep: char)
    ensures
        forall|i: int|
            0 <= i < split_on(s, sep).len() ==> (#[trigger] split_on(s, sep)[i]).len() <= s.len(),
    decreases s.len(),
{
    if s.len() > 0 {
        lemma_split_piece_len(s.drop_last(), sep);
        crate::kdl_ast::nsid::lemma_split_on_nonempty(s.drop_last(), sep);
    }
}

/// The value of a scalar text.
pub fn parse_scalar(raw: &[char]) -> (r: PlistValue)
    ensures
        r@ == scalar_of(raw@),
    decreases raw@.len(),
{
    let t = trim_chars(raw);
    let t = trim_end_char_chars(t.as_slice(), ',');
    let t = trim_char_chars(t.as_slice(), '"');
    let s = trim_char_chars(t.as_slice(), '\'');
    let w_true = word_of("true");
    let w_false = word_of("false");
    let w_null = word_of("null");
    proof {
        reveal_strlit("true");
        reveal_strlit("false");
        reveal_strlit("null");
        assert(w_true@ =~= seq!['t', 'r', 'u', 'e']);
        assert(w_false@ =~= seq!['f', 'a', 'l', 's', 'e']);
        assert(w_null@ =~= seq!['n', 'u', 'l', 'l']);
        lemma_scalar_text_len(raw@);
    }
    if eq_ignore_case_chars(s.as_slice(), w_true.as_slice()) {
        return PlistValue::Bool(true);
    }
    if eq_ignore_case_chars(s.as_slice(), w_false.as_slice()) {
        return PlistValue::Bool(false);
    }
    let tilde = s.len() == 1 && s[0] == '~';
    proof {
        if s@.len() == 1 && s@[0] == '~' {
            assert(s@ =~= seq!['~']);
        }
    }
    if eq_ignore_case_chars(s.as_slice(), w_null.as_slice()) || tilde {
        return PlistValue::Null;
    }
    let n = s.len();
    if n >= 2 && s[0] == '[' && s[n - 1] == ']' {
        let inner = slice_chars(s.as_slice(), 1, n - 1);
        let parts = split_chars(inner.as_slice(), ',');
        let ghost ps = split_on(inner@, ',');
        let ghost bound = (raw@.len() - 1) as nat;
        proof {
            lemma_split_piece_len(inner@, ',');
        }
        let mut items: Vec<PlistValue> = Vec::new();
        let mut k: usize = 0;
        proof {
            assert(ps.take(0) =~= Seq::<Seq<char>>::empty());
        }
        while k < parts.len()
            invariant
                ps == split_on(inner@, ','),
                parts@.len() == ps.len(),
                forall|q: int| 0 <= q < parts@.len() ==> (#[trigger] parts@[q])@ == ps[q],
                forall|q: int| 0 <= q < ps.len() ==> (#[trigger] ps[q]).len() <= inner@.len(),
                inner@.len() + 2 <= raw@.len(),
                bound == raw@.len() - 1,
                0 <= k <= parts@.len(),
                plist_items_view(items@) == scalars_of(ps.take(k as int), bound),
            decreases parts@.len() - k,
        {
            proof {
                assert(ps.take(k + 1).drop_last() =~= ps.take(k as int));
                assert(ps.take(k + 1).last() == ps[k as int]);
                assert(parts@[k as int]@ == ps[k as int]);
            }
            let piece = trim_chars(parts[k].as_slice());
            if piece.len() > 0 {
                let v = parse_scalar(parts[k].as_slice());
                let ghost before = items@;
                items.push(v);
                proof {
                    lemma_plist_items_push(before, v);
                }
            }
            k = k + 1;
        }
        proof {
            assert(ps.take(parts@.len() as int) =~= ps);
        }
        return PlistValue::List(items);
    }
    proof {
        assert(s@.subrange(0, n as int) =~= s@);
    }
    if is_f64_text(s.as_slice()) {
        PlistValue::Number(crate::text::string_from_chars(s.as_slice(), 0, n))
    } else {
        PlistValue::String(crate::text::string_from_chars(s.as_slice(), 0, n))
    }
}

proof fn lemma_scalar_text_len(raw: Seq<char>)
    ensures
        scalar_text(raw).len() <= raw.len(),
{
    let a = trim(raw);
    super::chars::lemma_trim_lengths(raw, ',');
    let b = trim_end_char(a, ',');
    super::chars::lemma_trim_lengths(a, ',');
    let c = trim_char(b, '"');
    super::chars::lemma_trim_lengths(b, '"');
    super::chars::lemma_trim_lengths(c, '\'');
}

} // verus!
