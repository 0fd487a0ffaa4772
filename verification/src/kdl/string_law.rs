//! Reading back what the writer of KDL strings writes: a name or string
//! value written bare where it can be and quoted otherwise reads as itself.
use vstd::prelude::*;
use super::quote::{bare_ok, escape_char, escape_text, hex_upper, ident_text, quoted};
use super::scan::{disallowed, identifier_char, newline};
use super::string::{
    closer_at, decode, esc_close, escaped_space, hex_digit, hex_end, hex_val, hex_value,
    ident_end, ident_start, run_at, scalar, scalar_char, simple_escape,
    string_scan, unicode_escape, StrScan,
};

verus! {

proof fn lemma_hex_upper(d: u32)
    requires
        d < 16,
    ensures
        hex_digit(hex_upper(d)),
        hex_val(hex_upper(d)) == d,
        hex_upper(d) != '"',
        hex_upper(d) != '\\',
        hex_upper(d) != '}',
{
}

proof fn lemma_hex4(v: u32)
    requires
        v < 0x10000,
    ensures
        ((((v / 4096) % 16) * 16 + (v / 256) % 16) * 16 + (v / 16) % 16) * 16 + v % 16 == v,
{
    assert(((((v / 4096) % 16) * 16 + (v / 256) % 16) * 16 + (v / 16) % 16) * 16 + v % 16 == v)
        by (bit_vector)
        requires
            v < 0x10000,
    ;
}

/// The escaped form of a character ends before a `"` that stands alone.
pub(crate) proof fn lemma_unit_shape(c: char)
    ensures
        escape_char(c).len() >= 1,
        escape_char(c)[0] != '"',
        escape_char(c).len() == 1 ==> escape_char(c)[0] == c && c != '"' && c != '\\' && !newline(
            c,
        ) && !disallowed(c),
        escape_char(c).len() > 1 ==> escape_char(c)[0] == '\\',
{
}

pub(crate) proof fn lemma_escape_text_front(cs: Seq<char>)
    requires
        cs.len() > 0,
    ensures
        escape_text(cs) == escape_char(cs[0]) + escape_text(cs.drop_first()),
    decreases cs.len(),
{
    if cs.len() == 1 {
        assert(cs.drop_last() =~= Seq::<char>::empty());
        assert(cs.drop_first() =~= Seq::<char>::empty());
        assert(escape_text(cs.drop_last()) =~= Seq::<char>::empty());
        assert(escape_char(cs[0]) + escape_text(cs.drop_first()) =~= escape_char(cs[0]));
        assert(escape_text(cs) =~= Seq::<char>::empty() + escape_char(cs.last()));
    } else {
        lemma_escape_text_front(cs.drop_last());
        assert(cs.drop_last()[0] == cs[0]);
        assert(cs.drop_last().drop_first() =~= cs.drop_first().drop_last());
        assert(cs.drop_first().last() == cs.last());
        assert(escape_text(cs) =~= escape_char(cs[0]) + escape_text(cs.drop_first()));
    }
}

/// Where the escaped text `u` and a closing quote stand from `i`, the
/// closing quote is found after it, whatever follows.
pub(crate) proof fn lemma_close(s: Seq<char>, i: int, u: Seq<char>)
    requires
        0 <= i,
        i + escape_text(u).len() + 1 <= s.len(),
        s.subrange(i, i + escape_text(u).len() + 1) == escape_text(u) + seq!['"'],
    ensures
        esc_close(s, i, 1) == Some(i + escape_text(u).len()),
    decreases u.len(),
{
    let tail = escape_text(u) + seq!['"'];
    let e = i + escape_text(u).len() + 1;
    assert(s[i] == s.subrange(i, e)[0]);
    assert(s[i] == tail[0]);
    if u.len() == 0 {
        assert(escape_text(u).len() == 0);
        assert(s[i] == '"');
        assert(run_at(s, i + 1, 0, '"'));
        assert(run_at(s, i + 1, 0, '#'));
        assert(run_at(s, i, 1, '"'));
        assert(closer_at(s, i, 1, 0));
    } else {
        lemma_escape_text_front(u);
        let unit = escape_char(u[0]);
        let rest = escape_text(u.drop_first());
        lemma_unit_shape(u[0]);
        assert(tail =~= unit + (rest + seq!['"']));
        let j = i + unit.len();
        assert forall|k: int| 0 <= k < unit.len() implies s[i + k] == #[trigger] unit[k] by {
            assert(s[i + k] == s.subrange(i, e)[k]);
            assert(s[i + k] == tail[k]);
        }
        assert(s.subrange(j, j + rest.len() + 1) =~= rest + seq!['"']) by {
            assert forall|k: int| 0 <= k < rest.len() + 1 implies s.subrange(j, j + rest.len() + 1)[k] == (
            rest + seq!['"'])[k] by {
                assert(s[j + k] == s.subrange(i, e)[unit.len() + k]);
                assert(s[j + k] == tail[unit.len() + k]);
            }
        }
        assert(!closer_at(s, i, 1, 0)) by {
            assert(s[i] != '"');
        }
        if unit.len() == 1 {
            assert(s[i] != '\\');
            lemma_close(s, j, u.drop_first());
        } else if unit.len() == 2 {
            assert(s[i] == '\\');
            lemma_close(s, j, u.drop_first());
        } else {
            let c = u[0];
            let v = c as u32;
            assert(s[i] == '\\');
            assert(unit.len() == 8);
            lemma_hex_upper((v / 4096) % 16);
            lemma_hex_upper((v / 256) % 16);
            lemma_hex_upper((v / 16) % 16);
            lemma_hex_upper(v % 16);
            assert forall|k: int| 2 <= k < 8 implies (#[trigger] unit[k]) != '\\' && unit[k] != '"' by {}
            assert(!closer_at(s, i + 2, 1, 0));
            assert(!closer_at(s, i + 3, 1, 0));
            assert(!closer_at(s, i + 4, 1, 0));
            assert(!closer_at(s, i + 5, 1, 0));
            assert(!closer_at(s, i + 6, 1, 0));
            assert(!closer_at(s, i + 7, 1, 0));
            lemma_close(s, j, u.drop_first());
            assert(esc_close(s, i + 7, 1) == esc_close(s, j, 1));
            assert(esc_close(s, i + 6, 1) == esc_close(s, j, 1));
            assert(esc_close(s, i + 5, 1) == esc_close(s, j, 1));
            assert(esc_close(s, i + 4, 1) == esc_close(s, j, 1));
            assert(esc_close(s, i + 3, 1) == esc_close(s, j, 1));
            assert(esc_close(s, i + 2, 1) == esc_close(s, j, 1));
        }
    }
}

proof fn lemma_unicode_unit(b: Seq<char>, i: int, c: char)
    requires
        0 <= i,
        i + 8 <= b.len(),
        escape_char(c).len() == 8,
        forall|k: int| 0 <= k < 8 ==> b[i + k] == #[trigger] escape_char(c)[k],
    ensures
        b[i] == '\\',
        b[i + 1] == 'u',
        unicode_escape(b, i + 2) == Some((c, i + 8)),
{
    let unit = escape_char(c);
    assert(newline(c) || disallowed(c));
    let v = c as u32;
    assert(v < 0x10000);
    let d3 = (v / 4096) % 16;
    let d2 = (v / 256) % 16;
    let d1 = (v / 16) % 16;
    let d0 = v % 16;
    lemma_hex_upper(d3);
    lemma_hex_upper(d2);
    lemma_hex_upper(d1);
    lemma_hex_upper(d0);
    assert(b[i] == unit[0]);
    assert(b[i + 1] == unit[1]);
    assert(b[i + 2] == unit[2]);
    assert(b[i + 3] == unit[3] && unit[3] == hex_upper(d3));
    assert(b[i + 4] == unit[4] && unit[4] == hex_upper(d2));
    assert(b[i + 5] == unit[5] && unit[5] == hex_upper(d1));
    assert(b[i + 6] == unit[6] && unit[6] == hex_upper(d0));
    assert(b[i + 7] == unit[7] && unit[7] == '}');
    assert(!hex_digit('}'));
    assert(hex_end(b, i + 7) == i + 7);
    assert(hex_end(b, i + 6) == i + 7);
    assert(hex_end(b, i + 5) == i + 7);
    assert(hex_end(b, i + 4) == i + 7);
    assert(hex_end(b, i + 3) == i + 7);
    let ds = b.subrange(i + 3, i + 7);
    assert(ds.drop_last().drop_last().drop_last().drop_last() =~= Seq::<char>::empty());
    let x1 = ds.drop_last().drop_last().drop_last();
    assert(x1.len() == 1);
    assert(x1.drop_last() =~= Seq::<char>::empty());
    assert(hex_value(x1.drop_last()) == 0);
    assert(x1.last() == ds[0]);
    assert(ds[0] == b[i + 3]);
    assert(hex_value(x1) == d3);
    assert(hex_value(ds.drop_last().drop_last()) == d3 * 16 + d2) by {
        assert(ds.drop_last().drop_last().last() == hex_upper(d2));
    }
    assert(hex_value(ds.drop_last()) == (d3 * 16 + d2) * 16 + d1) by {
        assert(ds.drop_last().last() == hex_upper(d1));
    }
    assert(hex_value(ds) == ((d3 * 16 + d2) * 16 + d1) * 16 + d0) by {
        assert(ds.last() == hex_upper(d0));
    }
    lemma_hex4(v);
    assert(hex_value(ds) == v);
    vstd::utf8::char_u32_cast(c, v);
    assert(scalar(v as nat));
    assert(scalar_char(v as nat) == c);
}

pub(crate) proof fn lemma_decode(b: Seq<char>, i: int, u: Seq<char>, acc: Seq<char>)
    requires
        0 <= i,
        b.len() == i + escape_text(u).len(),
        b.subrange(i, b.len() as int) == escape_text(u),
    ensures
        decode(b, i, acc, false, false) == Ok::<Seq<char>, super::value::KdlErrorKind>(acc + u),
    decreases u.len(),
{
    if u.len() == 0 {
        assert(acc + u =~= acc);
    } else {
        lemma_escape_text_front(u);
        let c = u[0];
        let unit = escape_char(c);
        let rest = escape_text(u.drop_first());
        lemma_unit_shape(c);
        let j = i + unit.len();
        assert forall|k: int| 0 <= k < unit.len() implies b[i + k] == #[trigger] unit[k] by {
            assert(b.subrange(i, b.len() as int)[k] == escape_text(u)[k]);
        }
        assert(b.subrange(j, b.len() as int) =~= rest) by {
            assert forall|k: int| 0 <= k < b.len() - j implies b.subrange(j, b.len() as int)[k]
                == rest[k] by {
                assert(b.subrange(i, b.len() as int)[unit.len() + k] == escape_text(u)[unit.len() + k]);
            }
        }
        lemma_decode(b, j, u.drop_first(), acc.push(c));
        assert(acc.push(c) + u.drop_first() =~= acc + u);
        if unit.len() == 1 {
            assert(b[i] == c);
        } else if unit.len() == 2 {
            assert(b[i] == '\\');
            assert(simple_escape(b[i + 1]) == Some(c));
        } else {
            assert(unit.len() == 8);
            lemma_unicode_unit(b, i, c);
            assert(simple_escape('u') is None);
            assert(!escaped_space('u'));
        }
    }
}

pub(crate) proof fn lemma_ident_end(t: Seq<char>, k: int)
    requires
        0 <= k <= t.len(),
        forall|i: int| 0 <= i < t.len() ==> identifier_char(#[trigger] t[i]),
    ensures
        ident_end(t, k) == t.len(),
    decreases t.len() - k,
{
    if k < t.len() {
        lemma_ident_end(t, k + 1);
    }
}

/// A name or string value as the writer writes it (bare where it can be,
/// quoted with escapes otherwise) reads back as itself, and the reading
/// ends where the written text ends.
pub proof fn law_string_round_trip(t: Seq<char>)
    ensures
        string_scan(ident_text(t), 0) == (StrScan::Str { text: t, end: ident_text(t).len() as int }),
{
    if bare_ok(t) {
        assert(identifier_char(t[0]));
        assert(ident_start(t, 0));
        lemma_ident_end(t, 0);
        assert(t.subrange(0, t.len() as int) =~= t);
    } else {
        let s = quoted(t);
        let e = escape_text(t);
        assert(s.len() == e.len() + 2);
        assert(s[0] == '"');
        if t.len() > 0 {
            lemma_escape_text_front(t);
            lemma_unit_shape(t[0]);
            assert(s[1] == e[0]);
            assert(e[0] == escape_char(t[0])[0]);
        } else {
            assert(e.len() == 0);
        }
        assert(s.subrange(1, s.len() as int) =~= e + seq!['"']);
        lemma_close(s, 1, t);
        assert(s.subrange(1, s.len() - 1) =~= e);
        assert(e.subrange(0, e.len() as int) =~= e);
        lemma_decode(e, 0, t, Seq::empty());
        assert(Seq::<char>::empty() + t =~= t);
    }
}

} // verus!
