//! What a scalar text reads as: numbers, with or without a fraction.
use vstd::prelude::*;
use super::chars::{
    ascii_lower, char_back, char_front, eq_ignore_case, trim, trim_char, trim_end, trim_end_char,
    trim_start, white, white_back, white_front,
};
use super::scalar::{bracketed, digits_end, exponent_ok, f64_text, is_digit, scalar_of, scalar_text, Plist};

verus! {

/// Whether `s` reads as a boolean or as null.
pub open spec fn word_scalar(s: Seq<char>) -> bool {
    eq_ignore_case(s, seq!['t', 'r', 'u', 'e']) || eq_ignore_case(s, seq!['f', 'a', 'l', 's', 'e'])
        || eq_ignore_case(s, seq!['n', 'u', 'l', 'l']) || s == seq!['~']
}

/// Every scalar text that `f64::from_str` accepts, and that is no boolean,
/// null or bracketed list, reads as a number with that text, whatever its
/// form (with or without a point, a fraction or an exponent).
pub proof fn law_number_scalar(raw: Seq<char>)
    requires
        f64_text(scalar_text(raw)),
        !word_scalar(scalar_text(raw)),
        !bracketed(scalar_text(raw)),
    ensures
        scalar_of(raw) == Plist::Number(scalar_text(raw)),
{
}

proof fn lemma_digits_end(s: Seq<char>, p: int, e: int)
    requires
        0 <= p <= e <= s.len(),
        forall|k: int| p <= k < e ==> is_digit(#[trigger] s[k]),
        e < s.len() ==> !is_digit(s[e]),
    ensures
        digits_end(s, p) == e,
    decreases e - p,
{
    if p < e {
        lemma_digits_end(s, p + 1, e);
    }
}

/// Digits, a point and digits read as a number with exactly that text.
pub proof fn law_decimal_scalar(a: Seq<char>, b: Seq<char>)
    requires
        a.len() > 0,
        b.len() > 0,
        forall|k: int| 0 <= k < a.len() ==> is_digit(#[trigger] a[k]),
        forall|k: int| 0 <= k < b.len() ==> is_digit(#[trigger] b[k]),
    ensures
        scalar_of(a + seq!['.'] + b) == Plist::Number(a + seq!['.'] + b),
{
    let t = a + seq!['.'] + b;
    let n = t.len() as int;
    let i = a.len() as int;
    assert(t[0] == a[0]);
    assert(t[n - 1] == b[b.len() - 1]);
    assert(t.last() == t[n - 1]);
    assert(t[i] == '.');
    assert(!white(t[0]) && !white(t.last()));
    assert(white_front(t) == 0);
    assert(t.skip(0) =~= t);
    assert(trim_start(t) == t);
    assert(white_back(t) == 0);
    assert(t.take(n) =~= t);
    assert(trim_end(t) == t);
    assert(trim(t) == t);
    assert(char_back(t, ',') == 0);
    assert(trim_end_char(t, ',') == t);
    assert(char_front(t, '"') == 0 && char_back(t, '"') == 0);
    assert(trim_char(t, '"') == t);
    assert(char_front(t, '\'') == 0 && char_back(t, '\'') == 0);
    assert(trim_char(t, '\'') == t);
    assert(scalar_text(t) == t);
    assert(ascii_lower(t[0]) == t[0]);
    assert(!eq_ignore_case(t, seq!['t', 'r', 'u', 'e']));
    assert(!eq_ignore_case(t, seq!['f', 'a', 'l', 's', 'e']));
    assert(!eq_ignore_case(t, seq!['n', 'u', 'l', 'l']));
    assert(!eq_ignore_case(t, seq!['i', 'n', 'f']));
    assert(!eq_ignore_case(t, seq!['i', 'n', 'f', 'i', 'n', 'i', 't', 'y']));
    assert(!eq_ignore_case(t, seq!['n', 'a', 'n']));
    assert(t != seq!['~']);
    assert(!bracketed(t));
    assert forall|k: int| 0 <= k < i implies is_digit(#[trigger] t[k]) by {
        assert(t[k] == a[k]);
    }
    lemma_digits_end(t, 0, i);
    assert forall|k: int| i + 1 <= k < n implies is_digit(#[trigger] t[k]) by {
        assert(t[k] == b[k - i - 1]);
    }
    lemma_digits_end(t, i + 1, n);
    assert(exponent_ok(t, n));
    assert(f64_text(t));
    law_number_scalar(t);
}

} // verus!
