//! The normalised text of a KDL number: radix prefixes turned into decimal,
//! underscores removed, leading zeros dropped and exponents signed.
use vstd::prelude::*;
use super::value::KdlNumber;
use crate::text::{str_chars, string_from_chars};

verus! {

/// The digits 0 to 9 as characters.
pub open spec fn dchar(d: nat) -> char {
    ((d + 48) as u8) as char
}

/// The decimal digits of `n`, with no leading zero.
pub open spec fn decimal(n: nat) -> Seq<char>
    decreases n,
{
    if n < 10 {
        seq![dchar(n)]
    } else {
        decimal(n / 10).push(dchar(n % 10))
    }
}

/// Whether `c` is a digit in base `radix` (2, 8 or 16; both cases of the
/// letters in base 16).
pub open spec fn radix_digit(c: char, radix: nat) -> bool {
    if radix == 2 {
        c == '0' || c == '1'
    } else if radix == 8 {
        '0' <= c && c <= '7'
    } else if radix == 16 {
        ('0' <= c && c <= '9') || ('a' <= c && c <= 'f') || ('A' <= c && c <= 'F')
    } else {
        false
    }
}

/// The value of a digit character.
pub open spec fn digit_val(c: char) -> nat {
    if '0' <= c && c <= '9' {
        (c as u32 - 48) as nat
    } else if 'a' <= c && c <= 'f' {
        (c as u32 - 87) as nat
    } else if 'A' <= c && c <= 'F' {
        (c as u32 - 55) as nat
    } else {
        0
    }
}

pub open spec fn all_radix_digits(d: Seq<char>, radix: nat) -> bool {
    forall|i: int| 0 <= i < d.len() ==> radix_digit(#[trigger] d[i], radix)
}

/// The value of the digits `d` in base `radix` (0 for no digits).
pub open spec fn radix_value(d: Seq<char>, radix: nat) -> nat
    decreases d.len(),
{
    if d.len() == 0 {
        0
    } else {
        radix_value(d.drop_last(), radix) * radix + digit_val(d.last())
    }
}

/// `s` without its underscores.
pub open spec fn remove_underscores(s: Seq<char>) -> Seq<char>
    decreases s.len(),
{
    if s.len() == 0 {
        s
    } else if s.last() == '_' {
        remove_underscores(s.drop_last())
    } else {
        remove_underscores(s.drop_last()).push(s.last())
    }
}

/// The digits that an unsigned parse in base `radix` reads: those after a
/// leading `+`, when more follows it.
pub open spec fn unsigned_digits(d: Seq<char>) -> Seq<char> {
    if d.len() > 1 && d[0] == '+' {
        d.drop_first()
    } else {
        d
    }
}

/// Whether `d` parses as a `u128` in base `radix`.
pub open spec fn fits_u128(d: Seq<char>, radix: nat) -> bool {
    d.len() > 0 && all_radix_digits(unsigned_digits(d), radix) && radix_value(
        unsigned_digits(d),
        radix,
    ) <= u128::MAX
}

/// The digits of a prefixed number can be converted: they all are digits of
/// the radix, or they parse as a `u128`.
pub open spec fn prefixed_digits_ok(d: Seq<char>, radix: nat) -> bool {
    all_radix_digits(d, radix) || fits_u128(d, radix)
}

/// The decimal text of prefixed digits, with a `-` for a negative non-zero
/// value.
pub open spec fn prefixed_text(negative: bool, d: Seq<char>, radix: nat) -> Seq<char> {
    let v = radix_value(unsigned_digits(d), radix);
    if negative && v != 0 {
        seq!['-'] + decimal(v)
    } else {
        decimal(v)
    }
}

/// `s` without its leading zeros.
pub open spec fn trim_zeros(s: Seq<char>) -> Seq<char>
    decreases s.len(),
{
    if s.len() > 0 && s[0] == '0' {
        trim_zeros(s.drop_first())
    } else {
        s
    }
}

/// A decimal integer without leading zeros; `0` when nothing is left.
pub open spec fn norm_int(s: Seq<char>) -> Seq<char> {
    if trim_zeros(s).len() == 0 {
        seq!['0']
    } else {
        trim_zeros(s)
    }
}

/// The first position of `c` in `s`.
pub open spec fn find_char(s: Seq<char>, c: char) -> Option<int>
    decreases s.len(),
{
    if s.len() == 0 {
        None
    } else if s[0] == c {
        Some(0)
    } else {
        match find_char(s.drop_first(), c) {
            Some(k) => Some(k + 1),
            None => None,
        }
    }
}

/// The first position of `e` or `E` in `s`.
pub open spec fn find_exp(s: Seq<char>) -> Option<int>
    decreases s.len(),
{
    if s.len() == 0 {
        None
    } else if s[0] == 'e' || s[0] == 'E' {
        Some(0)
    } else {
        match find_exp(s.drop_first()) {
            Some(k) => Some(k + 1),
            None => None,
        }
    }
}

/// A mantissa with the leading zeros of its integer part dropped.
pub open spec fn norm_mantissa(s: Seq<char>) -> Seq<char> {
    match find_char(s, '.') {
        Some(k) => norm_int(s.take(k)) + seq!['.'] + s.skip(k + 1),
        None => norm_int(s),
    }
}

/// An exponent with an explicit sign.
pub open spec fn norm_exp(s: Seq<char>) -> Seq<char> {
    if s.len() > 0 && s[0] == '-' {
        seq!['-'] + norm_int(s.drop_first())
    } else if s.len() > 0 && s[0] == '+' {
        seq!['+'] + norm_int(s.drop_first())
    } else {
        seq!['+'] + norm_int(s)
    }
}

/// `s` begins with `0` and then `lower` or `upper`.
pub open spec fn has_prefix(s: Seq<char>, lower: char, upper: char) -> bool {
    s.len() >= 2 && s[0] == '0' && (s[1] == lower || s[1] == upper)
}

/// The number text without its sign.
pub open spec fn unsigned_part(raw: Seq<char>) -> Seq<char> {
    if raw.len() > 0 && (raw[0] == '-' || raw[0] == '+') {
        raw.drop_first()
    } else {
        raw
    }
}

pub open spec fn is_negative(raw: Seq<char>) -> bool {
    raw.len() > 0 && raw[0] == '-'
}

/// The radix that a prefix names: 16, 8, 2, or 10 without one.
pub open spec fn prefix_radix(rest: Seq<char>) -> nat {
    if has_prefix(rest, 'x', 'X') {
        16
    } else if has_prefix(rest, 'o', 'O') {
        8
    } else if has_prefix(rest, 'b', 'B') {
        2
    } else {
        10
    }
}

/// The numbers that can be normalised: keyword numbers, decimal text, and
/// prefixed text whose digits can be converted.
pub open spec fn number_raw_ok(raw: Seq<char>) -> bool {
    let rest = unsigned_part(raw);
    (raw.len() > 0 && raw[0] == '#') || prefix_radix(rest) == 10 || prefixed_digits_ok(
        remove_underscores(rest.skip(2)),
        prefix_radix(rest),
    )
}

/// The normalised text of a number written as `raw`.
pub open spec fn normal_number(raw: Seq<char>) -> Seq<char> {
    let rest = unsigned_part(raw);
    let neg = is_negative(raw);
    let sign = if neg {
        seq!['-']
    } else {
        Seq::<char>::empty()
    };
    if raw.len() > 0 && raw[0] == '#' {
        raw
    } else if prefix_radix(rest) != 10 {
        prefixed_text(neg, remove_underscores(rest.skip(2)), prefix_radix(rest))
    } else {
        let clean = remove_underscores(rest);
        match find_exp(clean) {
            Some(k) => sign + norm_mantissa(clean.take(k)) + seq!['E'] + norm_exp(
                clean.skip(k + 1),
            ),
            None => if find_char(clean, '.') is Some {
                sign + norm_mantissa(clean)
            } else if neg && norm_int(clean) != seq!['0'] {
                seq!['-'] + norm_int(clean)
            } else {
                norm_int(clean)
            },
        }
    }
}

// ---- little-endian decimal digit vectors ----
/// The value of little-endian decimal digits.
pub open spec fn le_val(v: Seq<u8>) -> nat
    decreases v.len(),
{
    if v.len() == 0 {
        0
    } else {
        v[0] as nat + 10 * le_val(v.drop_first())
    }
}

pub open spec fn pow10(n: nat) -> nat
    decreases n,
{
    if n == 0 {
        1
    } else {
        10 * pow10((n - 1) as nat)
    }
}

/// The characters of little-endian digits, most significant first.
pub open spec fn digits_text(v: Seq<u8>) -> Seq<char>
    decreases v.len(),
{
    if v.len() == 0 {
        Seq::empty()
    } else {
        digits_text(v.drop_first()).push(dchar(v[0] as nat))
    }
}

pub open spec fn small_digits(v: Seq<u8>) -> bool {
    forall|i: int| 0 <= i < v.len() ==> #[trigger] v[i] < 10
}

proof fn lemma_pow10_pos(n: nat)
    ensures
        pow10(n) >= 1,
    decreases n,
{
    if n > 0 {
        lemma_pow10_pos((n - 1) as nat);
    }
}

proof fn lemma_le_val_update(v: Seq<u8>, i: int, x: u8)
    requires
        0 <= i < v.len(),
    ensures
        le_val(v.update(i, x)) + pow10(i as nat) * v[i] == le_val(v) + pow10(i as nat) * x,
    decreases v.len(),
{
    let w = v.update(i, x);
    assert(le_val(w) == w[0] as nat + 10 * le_val(w.drop_first()));
    assert(le_val(v) == v[0] as nat + 10 * le_val(v.drop_first()));
    if i == 0 {
        assert(w.drop_first() =~= v.drop_first());
        assert(pow10(0) == 1);
        assert(w[0] == x);
        assert(i as nat == 0nat);
        assert(pow10(i as nat) == 1);
        assert(pow10(i as nat) * v[i] == v[i]) by (nonlinear_arith)
            requires
                pow10(i as nat) == 1,
        ;
        assert(pow10(i as nat) * x == x) by (nonlinear_arith)
            requires
                pow10(i as nat) == 1,
        ;
    } else {
        assert(w[0] == v[0]);
        assert(w.drop_first() =~= v.drop_first().update(i - 1, x));
        lemma_le_val_update(v.drop_first(), i - 1, x);
        let p = pow10((i - 1) as nat);
        assert(pow10(i as nat) == 10 * p);
        let a = le_val(w.drop_first());
        let b = le_val(v.drop_first());
        assert(v.drop_first()[i - 1] == v[i]);
        let vi = v[i] as nat;
        let xx = x as nat;
        assert(10 * a + 10 * p * vi == 10 * b + 10 * p * xx) by (nonlinear_arith)
            requires
                a + p * vi == b + p * xx,
        ;
        assert(pow10(i as nat) * vi == 10 * p * vi) by (nonlinear_arith)
            requires
                pow10(i as nat) == 10 * p,
        ;
        assert(pow10(i as nat) * xx == 10 * p * xx) by (nonlinear_arith)
            requires
                pow10(i as nat) == 10 * p,
        ;
    }
}

proof fn lemma_le_val_push(v: Seq<u8>, x: u8)
    ensures
        le_val(v.push(x)) == le_val(v) + pow10(v.len()) * x,
    decreases v.len(),
{
    let w = v.push(x);
    assert(le_val(w) == w[0] as nat + 10 * le_val(w.drop_first()));
    if v.len() == 0 {
        assert(w.drop_first() =~= Seq::<u8>::empty());
        assert(le_val(Seq::<u8>::empty()) == 0);
        assert(pow10(0) == 1);
    } else {
        assert(le_val(v) == v[0] as nat + 10 * le_val(v.drop_first()));
        assert(w.drop_first() =~= v.drop_first().push(x));
        lemma_le_val_push(v.drop_first(), x);
        let p = pow10((v.len() - 1) as nat);
        assert(pow10(v.len()) == 10 * p);
        let xx = x as nat;
        assert(10 * (le_val(v.drop_first()) + p * xx) == 10 * le_val(v.drop_first()) + 10 * p * xx)
            by (nonlinear_arith);
        assert(pow10(v.len()) * xx == 10 * p * xx) by (nonlinear_arith)
            requires
                pow10(v.len()) == 10 * p,
        ;
    }
}

proof fn lemma_le_val_take(v: Seq<u8>, i: int)
    requires
        0 <= i < v.len(),
    ensures
        le_val(v.take(i + 1)) == le_val(v.take(i)) + pow10(i as nat) * v[i],
{
    assert(v.take(i + 1) =~= v.take(i).push(v[i]));
    lemma_le_val_push(v.take(i), v[i]);
}

proof fn lemma_le_val_skip(v: Seq<u8>, i: int)
    requires
        0 <= i < v.len(),
    ensures
        le_val(v.skip(i)) == v[i] + 10 * le_val(v.skip(i + 1)),
{
    assert(v.skip(i).drop_first() =~= v.skip(i + 1));
}

proof fn lemma_le_val_pos(v: Seq<u8>)
    requires
        v.len() > 0,
        v.last() != 0,
    ensures
        le_val(v) >= 1,
{
    assert(v =~= v.drop_last().push(v.last()));
    lemma_le_val_push(v.drop_last(), v.last());
    lemma_pow10_pos(v.drop_last().len());
    assert(pow10(v.drop_last().len()) * v.last() >= 1) by (nonlinear_arith)
        requires
            pow10(v.drop_last().len()) >= 1,
            v.last() >= 1,
    ;
}

proof fn lemma_digits_text(v: Seq<u8>)
    requires
        v.len() > 0,
        small_digits(v),
        v.len() == 1 || v.last() != 0,
    ensures
        digits_text(v) == decimal(le_val(v)),
    decreases v.len(),
{
    let rest = v.drop_first();
    if v.len() == 1 {
        assert(rest =~= Seq::<u8>::empty());
        assert(le_val(rest) == 0);
        assert(le_val(v) == v[0]);
        assert(digits_text(rest) == Seq::<char>::empty());
    } else {
        assert(rest.last() == v.last());
        lemma_digits_text(rest);
        lemma_le_val_pos(rest);
        let n = le_val(v);
        assert(n == v[0] + 10 * le_val(rest));
        assert(n / 10 == le_val(rest) && n % 10 == v[0]) by (nonlinear_arith)
            requires
                n == v[0] + 10 * le_val(rest),
                v[0] < 10,
        ;
    }
}

/// Multiplies little-endian decimal digits by `radix`, in place.
fn mul_small(v: &mut Vec<u8>, radix: u32)
    requires
        2 <= radix <= 16,
        small_digits(old(v)@),
    ensures
        small_digits(final(v)@),
        le_val(final(v)@) == le_val(old(v)@) * radix,
        final(v)@.len() >= old(v)@.len(),
        old(v)@.len() > 0 ==> final(v)@.len() > 0,
{
    let ghost o = v@;
    let mut carry: u32 = 0;
    let mut i: usize = 0;
    proof {
        assert(o.take(0) =~= Seq::<u8>::empty());
        assert(le_val(o.take(0)) == 0);
        assert(o.skip(0) =~= o);
        assert(pow10(0) == 1);
    }
    while i < v.len()
        invariant
            2 <= radix <= 16,
            v@.len() == o.len(),
            0 <= i <= o.len(),
            carry <= 15,
            small_digits(v@),
            forall|j: int| i <= j < o.len() ==> v@[j] == o[j],
            le_val(v@) + pow10(i as nat) * carry == radix * le_val(o.take(i as int)) + pow10(
                i as nat,
            ) * le_val(o.skip(i as int)),
        decreases o.len() - i,
    {
        assert(v@[i as int] < 10);
        let d = v[i] as u32;
        assert(d * radix <= 9 * 16) by (nonlinear_arith)
            requires
                d < 10,
                radix <= 16,
        ;
        let prod = d * radix + carry;
        let nd = (prod % 10) as u8;
        let ghost before = v@;
        v.set(i, nd);
        proof {
            lemma_le_val_update(before, i as int, nd);
            lemma_le_val_take(o, i as int);
            lemma_le_val_skip(o, i as int);
            let p = pow10(i as nat);
            assert(pow10((i + 1) as nat) == 10 * p);
            let c2 = prod / 10;
            assert(le_val(v@) + 10 * p * c2 == radix * (le_val(o.take(i as int)) + p * d) + 10 * p
                * le_val(o.skip(i + 1))) by (nonlinear_arith)
                requires
                    le_val(v@) + p * d == le_val(before) + p * nd,
                    le_val(before) + p * carry == radix * le_val(o.take(i as int)) + p * (d + 10
                        * le_val(o.skip(i + 1))),
                    prod == d * radix + carry,
                    nd == prod % 10,
                    c2 == prod / 10,
            ;
        }
        carry = prod / 10;
        i = i + 1;
    }
    proof {
        assert(o.take(o.len() as int) =~= o);
        assert(o.skip(o.len() as int) =~= Seq::<u8>::empty());
        assert(le_val(o.skip(o.len() as int)) == 0);
        assert(i == o.len());
        assert(o.skip(i as int) =~= Seq::<u8>::empty());
        assert(le_val(o.skip(i as int)) == 0);
        assert(pow10(i as nat) * 0 == 0);
        assert(le_val(v@) + pow10(v@.len()) * carry == radix * le_val(o));
    }
    while carry > 0
        invariant
            v@.len() >= o.len(),
            small_digits(v@),
            le_val(v@) + pow10(v@.len()) * carry == radix * le_val(o),
        decreases carry,
    {
        let nd = (carry % 10) as u8;
        let ghost before = v@;
        v.push(nd);
        proof {
            lemma_le_val_push(before, nd);
            let p = pow10(before.len());
            assert(pow10(v@.len()) == 10 * p);
            assert(le_val(v@) + 10 * p * (carry / 10) == le_val(before) + p * carry) by (nonlinear_arith)
                requires
                    le_val(v@) == le_val(before) + p * nd,
                    nd == carry % 10,
            ;
        }
        carry = carry / 10;
    }
}

/// Adds `digit` to little-endian decimal digits, in place.
fn add_small(v: &mut Vec<u8>, digit: u32)
    requires
        digit < 16,
        small_digits(old(v)@),
    ensures
        small_digits(final(v)@),
        le_val(final(v)@) == le_val(old(v)@) + digit,
        final(v)@.len() >= old(v)@.len(),
{
    let ghost o = v@;
    let mut carry: u32 = digit;
    let mut i: usize = 0;
    proof {
        assert(pow10(0) == 1);
    }
    while i < v.len() && carry > 0
        invariant
            v@.len() == o.len(),
            0 <= i <= o.len(),
            carry <= 15,
            small_digits(v@),
            le_val(v@) + pow10(i as nat) * carry == le_val(o) + digit,
        decreases o.len() - i,
    {
        assert(v@[i as int] < 10);
        let d = v[i] as u32;
        let sum = d + carry;
        let nd = (sum % 10) as u8;
        let ghost before = v@;
        v.set(i, nd);
        proof {
            lemma_le_val_update(before, i as int, nd);
            let p = pow10(i as nat);
            assert(pow10((i + 1) as nat) == 10 * p);
            assert(le_val(v@) + 10 * p * (sum / 10) == le_val(before) + p * carry) by (nonlinear_arith)
                requires
                    le_val(v@) + p * d == le_val(before) + p * nd,
                    sum == d + carry,
                    nd == sum % 10,
            ;
        }
        carry = sum / 10;
        i = i + 1;
    }
    while carry > 0
        invariant
            v@.len() >= o.len(),
            small_digits(v@),
            i <= v@.len(),
            carry > 0 ==> i == v@.len(),
            le_val(v@) + pow10(i as nat) * carry == le_val(o) + digit,
        decreases carry,
    {
        let nd = (carry % 10) as u8;
        let ghost before = v@;
        v.push(nd);
        proof {
            lemma_le_val_push(before, nd);
            let p = pow10(before.len());
            assert(pow10(v@.len()) == 10 * p);
            assert(le_val(v@) + 10 * p * (carry / 10) == le_val(before) + p * carry) by (nonlinear_arith)
                requires
                    le_val(v@) == le_val(before) + p * nd,
                    nd == carry % 10,
            ;
        }
        carry = carry / 10;
        i = v.len();
    }
}

fn digit_value(c: char) -> (r: u32)
    ensures
        r == digit_val(c),
        r < 16 || digit_val(c) >= 16,
{
    if '0' <= c && c <= '9' {
        c as u32 - 48
    } else if 'a' <= c && c <= 'f' {
        c as u32 - 87
    } else if 'A' <= c && c <= 'F' {
        c as u32 - 55
    } else {
        0
    }
}

fn is_radix_digit(c: char, radix: u32) -> (r: bool)
    ensures
        r == radix_digit(c, radix as nat),
{
    if radix == 2 {
        c == '0' || c == '1'
    } else if radix == 8 {
        '0' <= c && c <= '7'
    } else if radix == 16 {
        ('0' <= c && c <= '9') || ('a' <= c && c <= 'f') || ('A' <= c && c <= 'F')
    } else {
        false
    }
}

proof fn lemma_radix_digit_val(c: char, radix: nat)
    requires
        radix_digit(c, radix),
    ensures
        digit_val(c) < radix,
{
}

/// The decimal digits of `digits` read in base `radix`, of any length.
fn big_radix_to_decimal(digits: &[char], radix: u32) -> (r: Vec<char>)
    requires
        radix == 2 || radix == 8 || radix == 16,
        all_radix_digits(digits@, radix as nat),
    ensures
        r@ == decimal(radix_value(digits@, radix as nat)),
{
    let mut result: Vec<u8> = Vec::new();
    result.push(0);
    let mut k: usize = 0;
    proof {
        assert(digits@.take(0) =~= Seq::<char>::empty());
        assert(result@.drop_first() =~= Seq::<u8>::empty());
        assert(le_val(result@.drop_first()) == 0);
        assert(le_val(result@) == 0);
    }
    while k < digits.len()
        invariant
            radix == 2 || radix == 8 || radix == 16,
            all_radix_digits(digits@, radix as nat),
            0 <= k <= digits@.len(),
            result@.len() > 0,
            small_digits(result@),
            le_val(result@) == radix_value(digits@.take(k as int), radix as nat),
        decreases digits@.len() - k,
    {
        let ch = digits[k];
        proof {
            assert(radix_digit(digits@[k as int], radix as nat));
            lemma_radix_digit_val(ch, radix as nat);
        }
        let d = digit_value(ch);
        mul_small(&mut result, radix);
        add_small(&mut result, d);
        proof {
            assert(digits@.take(k + 1).drop_last() =~= digits@.take(k as int));
        }
        k = k + 1;
    }
    proof {
        assert(digits@.take(digits@.len() as int) =~= digits@);
    }
    while result.len() > 1 && result[result.len() - 1] == 0
        invariant
            result@.len() > 0,
            small_digits(result@),
            le_val(result@) == radix_value(digits@, radix as nat),
        decreases result@.len(),
    {
        let ghost before = result@;
        result.pop();
        proof {
            assert(before =~= result@.push(0));
            lemma_le_val_push(result@, 0);
        }
    }
    proof {
        lemma_digits_text(result@);
    }
    let mut out: Vec<char> = Vec::new();
    let mut i: usize = result.len();
    proof {
        assert(result@.skip(result@.len() as int) =~= Seq::<u8>::empty());
    }
    while i > 0
        invariant
            0 <= i <= result@.len(),
            small_digits(result@),
            out@ == digits_text(result@.skip(i as int)),
        decreases i,
    {
        i = i - 1;
        let d = result[i];
        proof {
            assert(result@.skip(i as int).drop_first() =~= result@.skip(i + 1));
        }
        out.push(((d + 48) as u8) as char);
    }
    proof {
        assert(result@.skip(0) =~= result@);
    }
    out
}

/// Appends the decimal digits of `v`.
pub fn push_decimal(out: &mut Vec<char>, v: u128)
    ensures
        final(out)@ == old(out)@ + decimal(v as nat),
    decreases v,
{
    if v >= 10 {
        push_decimal(out, v / 10);
    }
    let d = (v % 10) as u8;
    out.push(((d + 48) as u8) as char);
    proof {
        if v >= 10 {
            assert(decimal(v as nat) == decimal((v / 10) as nat).push(dchar((v % 10) as nat)));
        }
    }
}

pub proof fn lemma_radix_value_mono(d: Seq<char>, k: int, radix: nat)
    requires
        0 <= k <= d.len(),
        radix >= 2,
    ensures
        radix_value(d.take(k), radix) <= radix_value(d, radix),
    decreases d.len() - k,
{
    if k < d.len() {
        lemma_radix_value_mono(d.drop_last(), k, radix);
        assert(d.drop_last().take(k) =~= d.take(k));
        let a = radix_value(d.drop_last(), radix);
        assert(a <= a * radix) by (nonlinear_arith)
            requires
                radix >= 2,
        ;
    } else {
        assert(d.take(k) =~= d);
    }
}

/// `digits` parsed as an unsigned 128-bit integer in base `radix`, as
/// `u128::from_str_radix` parses it: an optional leading `+`, then at least
/// one digit, and a value that fits.
fn parse_u128_radix(digits: &[char], radix: u32) -> (r: Option<u128>)
    requires
        radix == 2 || radix == 8 || radix == 16,
    ensures
        r is Some <==> fits_u128(digits@, radix as nat),
        r matches Some(v) ==> v == radix_value(unsigned_digits(digits@), radix as nat),
{
    if digits.len() == 0 {
        return None;
    }
    let start: usize = if digits.len() > 1 && digits[0] == '+' {
        1
    } else {
        0
    };
    let ghost ds = unsigned_digits(digits@);
    proof {
        assert(ds =~= digits@.skip(start as int));
    }
    let mut acc: u128 = 0;
    let mut k: usize = start;
    proof {
        assert(ds.take(0) =~= Seq::<char>::empty());
    }
    while k < digits.len()
        invariant
            radix == 2 || radix == 8 || radix == 16,
            ds == digits@.skip(start as int),
            ds == unsigned_digits(digits@),
            digits@.len() > 0,
            start <= k <= digits@.len(),
            forall|j: int| 0 <= j < k - start ==> radix_digit(#[trigger] ds[j], radix as nat),
            acc == radix_value(ds.take(k - start), radix as nat),
        decreases digits@.len() - k,
    {
        let ch = digits[k];
        if !is_radix_digit(ch, radix) {
            proof {
                assert(ds[k - start] == ch);
                assert(!radix_digit(ds[k - start], radix as nat));
            }
            return None;
        }
        proof {
            lemma_radix_digit_val(ch, radix as nat);
            assert(ds.take(k - start + 1).drop_last() =~= ds.take(k - start));
            assert(ds[k - start] == ch);
        }
        let d = digit_value(ch) as u128;
        let m = acc.checked_mul(radix as u128);
        match m {
            None => {
                proof {
                    assert(ds.take(k - start + 1).last() == ch);
                    lemma_radix_value_mono(ds, k - start + 1, radix as nat);
                }
                return None;
            },
            Some(m) => match m.checked_add(d) {
                None => {
                    proof {
                        assert(ds.take(k - start + 1).last() == ch);
                        lemma_radix_value_mono(ds, k - start + 1, radix as nat);
                    }
                    return None;
                },
                Some(a) => {
                    acc = a;
                },
            },
        }
        k = k + 1;
    }
    proof {
        assert(ds.take(digits@.len() - start) =~= ds);
    }
    Some(acc)
}

/// The decimal text of prefixed digits, with a `-` for a negative non-zero
/// value.
fn format_prefixed_number(negative: bool, digits: &[char], radix: u32) -> (r: Vec<char>)
    requires
        radix == 2 || radix == 8 || radix == 16,
        prefixed_digits_ok(digits@, radix as nat),
    ensures
        r@ == prefixed_text(negative, digits@, radix as nat),
{
    let mut out: Vec<char> = Vec::new();
    match parse_u128_radix(digits, radix) {
        Some(val) => {
            if negative && val != 0 {
                out.push('-');
            }
            push_decimal(&mut out, val);
            proof {
                assert(out@ =~= prefixed_text(negative, digits@, radix as nat));
            }
            out
        },
        None => {
            proof {
                if digits@.len() > 1 && digits@[0] == '+' {
                    assert(!radix_digit(digits@[0], radix as nat));
                }
                assert(unsigned_digits(digits@) == digits@);
            }
            let decimal_digits = big_radix_to_decimal(digits, radix);
            let ghost v = radix_value(digits@, radix as nat);
            proof {
                assert(dchar(0) == '0');
                assert(decimal_digits@.take(0) =~= Seq::<char>::empty());
                if v == 0 {
                    assert(decimal(v) == seq![dchar(0)]);
                }
                if v != 0 && v < 10 {
                    assert(decimal(v) == seq![dchar(v)]);
                    assert(dchar(v) != '0');
                }
                if v != 0 {
                    assert(decimal(v) != seq!['0']) by {
                        if v >= 10 {
                            lemma_decimal_len(v);
                        }
                    }
                }
            }
            proof {
                if decimal(v).len() == 1 && decimal(v)[0] == '0' {
                    assert(decimal(v) =~= seq!['0']);
                }
                assert((decimal_digits@.len() == 1 && decimal_digits@[0] == '0') == (v == 0));
            }
            if negative && !(decimal_digits.len() == 1 && decimal_digits[0] == '0') {
                out.push('-');
            }
            proof {
                assert(out@ =~= (if negative && v != 0 {
                    seq!['-']
                } else {
                    Seq::<char>::empty()
                }) + decimal_digits@.take(0));
            }
            let mut i: usize = 0;
            while i < decimal_digits.len()
                invariant
                    0 <= i <= decimal_digits@.len(),
                    out@ == (if negative && v != 0 {
                        seq!['-']
                    } else {
                        Seq::<char>::empty()
                    }) + decimal_digits@.take(i as int),
                decreases decimal_digits@.len() - i,
            {
                out.push(decimal_digits[i]);
                proof {
                    assert(decimal_digits@.take(i + 1) =~= decimal_digits@.take(i as int).push(
                        decimal_digits@[i as int],
                    ));
                }
                i = i + 1;
            }
            proof {
                assert(decimal_digits@.take(decimal_digits@.len() as int) =~= decimal_digits@);
                assert(out@ =~= prefixed_text(negative, digits@, radix as nat));
            }
            out
        },
    }
}

proof fn lemma_decimal_len(n: nat)
    requires
        n >= 10,
    ensures
        decimal(n).len() >= 2,
    decreases n,
{
    assert(decimal(n) == decimal(n / 10).push(dchar(n % 10)));
    assert(decimal(n / 10).len() >= 1) by {
        if n / 10 >= 10 {
            lemma_decimal_len(n / 10);
        }
    }
}

proof fn lemma_find_char_some(s: Seq<char>, c: char, k: int)
    requires
        0 <= k < s.len(),
        s[k] == c,
        forall|j: int| 0 <= j < k ==> s[j] != c,
    ensures
        find_char(s, c) == Some(k),
    decreases k,
{
    if k > 0 {
        lemma_find_char_some(s.drop_first(), c, k - 1);
    }
}

proof fn lemma_find_char_none(s: Seq<char>, c: char)
    requires
        forall|j: int| 0 <= j < s.len() ==> s[j] != c,
    ensures
        find_char(s, c) is None,
    decreases s.len(),
{
    if s.len() > 0 {
        lemma_find_char_none(s.drop_first(), c);
    }
}

proof fn lemma_find_exp_some(s: Seq<char>, k: int)
    requires
        0 <= k < s.len(),
        s[k] == 'e' || s[k] == 'E',
        forall|j: int| 0 <= j < k ==> s[j] != 'e' && s[j] != 'E',
    ensures
        find_exp(s) == Some(k),
    decreases k,
{
    if k > 0 {
        lemma_find_exp_some(s.drop_first(), k - 1);
    }
}

proof fn lemma_find_exp_none(s: Seq<char>)
    requires
        forall|j: int| 0 <= j < s.len() ==> s[j] != 'e' && s[j] != 'E',
    ensures
        find_exp(s) is None,
    decreases s.len(),
{
    if s.len() > 0 {
        lemma_find_exp_none(s.drop_first());
    }
}

/// The first position of `c` in `s`.
fn find_first(s: &[char], c: char) -> (r: Option<usize>)
    ensures
        match r {
            Some(k) => find_char(s@, c) == Some(k as int),
            None => find_char(s@, c) is None,
        },
{
    let mut i: usize = 0;
    while i < s.len()
        invariant
            0 <= i <= s@.len(),
            forall|j: int| 0 <= j < i ==> s@[j] != c,
        decreases s@.len() - i,
    {
        if s[i] == c {
            proof {
                lemma_find_char_some(s@, c, i as int);
            }
            return Some(i);
        }
        i = i + 1;
    }
    proof {
        lemma_find_char_none(s@, c);
    }
    None
}

/// The first position of `e` or `E` in `s`.
fn find_exponent(s: &[char]) -> (r: Option<usize>)
    ensures
        match r {
            Some(k) => find_exp(s@) == Some(k as int),
            None => find_exp(s@) is None,
        },
{
    let mut i: usize = 0;
    while i < s.len()
        invariant
            0 <= i <= s@.len(),
            forall|j: int| 0 <= j < i ==> s@[j] != 'e' && s@[j] != 'E',
        decreases s@.len() - i,
    {
        if s[i] == 'e' || s[i] == 'E' {
            proof {
                lemma_find_exp_some(s@, i as int);
            }
            return Some(i);
        }
        i = i + 1;
    }
    proof {
        lemma_find_exp_none(s@);
    }
    None
}

/// The characters `s[from..to]`.
fn sub_chars(s: &[char], from: usize, to: usize) -> (r: Vec<char>)
    requires
        from <= to <= s@.len(),
    ensures
        r@ == s@.subrange(from as int, to as int),
{
    let mut out: Vec<char> = Vec::new();
    let mut i: usize = from;
    while i < to
        invariant
            from <= i <= to <= s@.len(),
            out@ == s@.subrange(from as int, i as int),
        decreases to - i,
    {
        out.push(s[i]);
        proof {
            assert(out@ =~= s@.subrange(from as int, i + 1));
        }
        i = i + 1;
    }
    out
}

/// Appends the characters of `tail`.
fn append_chars(out: &mut Vec<char>, tail: &[char])
    ensures
        final(out)@ == old(out)@ + tail@,
{
    let ghost start = out@;
    let mut i: usize = 0;
    while i < tail.len()
        invariant
            0 <= i <= tail@.len(),
            out@ == start + tail@.take(i as int),
        decreases tail@.len() - i,
    {
        out.push(tail[i]);
        proof {
            assert(out@ =~= start + tail@.take(i + 1));
        }
        i = i + 1;
    }
    proof {
        assert(tail@.take(tail@.len() as int) =~= tail@);
    }
}

/// `s` without its underscores.
pub fn strip_underscores(s: &[char]) -> (r: Vec<char>)
    ensures
        r@ == remove_underscores(s@),
{
    let mut out: Vec<char> = Vec::new();
    let mut i: usize = 0;
    proof {
        assert(s@.take(0) =~= Seq::<char>::empty());
    }
    while i < s.len()
        invariant
            0 <= i <= s@.len(),
            out@ == remove_underscores(s@.take(i as int)),
        decreases s@.len() - i,
    {
        proof {
            assert(s@.take(i + 1).drop_last() =~= s@.take(i as int));
        }
        if s[i] != '_' {
            out.push(s[i]);
        }
        i = i + 1;
    }
    proof {
        assert(s@.take(s@.len() as int) =~= s@);
    }
    out
}

proof fn lemma_trim_zeros(s: Seq<char>, i: int)
    requires
        0 <= i <= s.len(),
        forall|j: int| 0 <= j < i ==> s[j] == '0',
    ensures
        trim_zeros(s) == trim_zeros(s.skip(i)),
    decreases i,
{
    if i > 0 {
        assert(s.drop_first().skip(i - 1) =~= s.skip(i));
        lemma_trim_zeros(s.drop_first(), i - 1);
    } else {
        assert(s.skip(0) =~= s);
    }
}

/// A decimal integer without leading zeros; `0` when nothing is left.
fn normalize_decimal_integer(s: &[char]) -> (r: Vec<char>)
    ensures
        r@ == norm_int(s@),
{
    let mut i: usize = 0;
    while i < s.len() && s[i] == '0'
        invariant
            0 <= i <= s@.len(),
            forall|j: int| 0 <= j < i ==> s@[j] == '0',
        decreases s@.len() - i,
    {
        i = i + 1;
    }
    proof {
        lemma_trim_zeros(s@, i as int);
    }
    if i == s.len() {
        proof {
            assert(s@.skip(i as int) =~= Seq::<char>::empty());
        }
        let mut out: Vec<char> = Vec::new();
        out.push('0');
        proof {
            assert(out@ =~= seq!['0']);
        }
        out
    } else {
        sub_chars(s, i, s.len())
    }
}

/// A mantissa with the leading zeros of its integer part dropped.
fn normalize_decimal_mantissa(s: &[char]) -> (r: Vec<char>)
    ensures
        r@ == norm_mantissa(s@),
{
    match find_first(s, '.') {
        Some(k) => {
            proof {
                lemma_find_char_bound(s@, '.');
            }
            let int_part = sub_chars(s, 0, k);
            let len = s.len();
            let frac_part = sub_chars(s, k + 1, len);
            let mut out = normalize_decimal_integer(int_part.as_slice());
            out.push('.');
            append_chars(&mut out, frac_part.as_slice());
            proof {
                assert(int_part@ =~= s@.take(k as int));
                assert(frac_part@ =~= s@.skip(k + 1));
            }
            out
        },
        None => normalize_decimal_integer(s),
    }
}

proof fn lemma_find_char_bound(s: Seq<char>, c: char)
    ensures
        find_char(s, c) matches Some(k) ==> 0 <= k < s.len(),
    decreases s.len(),
{
    if s.len() > 0 {
        lemma_find_char_bound(s.drop_first(), c);
    }
}

proof fn lemma_find_exp_bound(s: Seq<char>)
    ensures
        find_exp(s) matches Some(k) ==> 0 <= k < s.len(),
    decreases s.len(),
{
    if s.len() > 0 {
        lemma_find_exp_bound(s.drop_first());
    }
}

/// An exponent with an explicit sign.
fn normalize_exponent(s: &[char]) -> (r: Vec<char>)
    ensures
        r@ == norm_exp(s@),
{
    let mut out: Vec<char> = Vec::new();
    if s.len() > 0 && (s[0] == '-' || s[0] == '+') {
        out.push(s[0]);
        let rest = sub_chars(s, 1, s.len());
        let digits = normalize_decimal_integer(rest.as_slice());
        append_chars(&mut out, digits.as_slice());
        proof {
            assert(rest@ =~= s@.drop_first());
        }
    } else {
        out.push('+');
        let digits = normalize_decimal_integer(s);
        append_chars(&mut out, digits.as_slice());
    }
    proof {
        assert(out@ =~= norm_exp(s@));
    }
    out
}

/// The normalised text of a number: keyword numbers as written; prefixed
/// numbers in decimal; decimal numbers without underscores or leading
/// zeros, with `E` and a signed exponent; no sign on zero or on `+`.
pub fn normalize_number(n: &KdlNumber) -> (r: String)
    requires
        number_raw_ok(n.raw@),
    ensures
        r@ == normal_number(n.raw@),
{
    let raw = str_chars(n.raw.as_str());
    if raw.len() > 0 && raw[0] == '#' {
        return n.raw.clone();
    }
    let negative = raw.len() > 0 && raw[0] == '-';
    let start: usize = if raw.len() > 0 && (raw[0] == '-' || raw[0] == '+') {
        1
    } else {
        0
    };
    let rest = sub_chars(raw.as_slice(), start, raw.len());
    proof {
        assert(rest@ =~= unsigned_part(raw@));
    }
    let radix: u32 = if rest.len() >= 2 && rest[0] == '0' && (rest[1] == 'x' || rest[1] == 'X') {
        16
    } else if rest.len() >= 2 && rest[0] == '0' && (rest[1] == 'o' || rest[1] == 'O') {
        8
    } else if rest.len() >= 2 && rest[0] == '0' && (rest[1] == 'b' || rest[1] == 'B') {
        2
    } else {
        10
    };
    let mut out: Vec<char>;
    if radix != 10 {
        let digits_raw = sub_chars(rest.as_slice(), 2, rest.len());
        let digits = strip_underscores(digits_raw.as_slice());
        proof {
            assert(digits_raw@ =~= rest@.skip(2));
        }
        out = format_prefixed_number(negative, digits.as_slice(), radix);
    } else {
        let clean = strip_underscores(rest.as_slice());
        out = Vec::new();
        match find_exponent(clean.as_slice()) {
            Some(k) => {
                proof {
                    lemma_find_exp_bound(clean@);
                }
                if negative {
                    out.push('-');
                }
                let mantissa = sub_chars(clean.as_slice(), 0, k);
                let len = clean.len();
                let exp = sub_chars(clean.as_slice(), k + 1, len);
                let m = normalize_decimal_mantissa(mantissa.as_slice());
                let e = normalize_exponent(exp.as_slice());
                append_chars(&mut out, m.as_slice());
                out.push('E');
                append_chars(&mut out, e.as_slice());
                proof {
                    assert(mantissa@ =~= clean@.take(k as int));
                    assert(exp@ =~= clean@.skip(k + 1));
                    let sign = if negative {
                        seq!['-']
                    } else {
                        Seq::<char>::empty()
                    };
                    assert(out@ =~= sign + norm_mantissa(clean@.take(k as int)) + seq!['E']
                        + norm_exp(clean@.skip(k + 1)));
                }
            },
            None => {
                if find_first(clean.as_slice(), '.').is_some() {
                    if negative {
                        out.push('-');
                    }
                    let m = normalize_decimal_mantissa(clean.as_slice());
                    append_chars(&mut out, m.as_slice());
                    proof {
                        let sign = if negative {
                            seq!['-']
                        } else {
                            Seq::<char>::empty()
                        };
                        assert(out@ =~= sign + norm_mantissa(clean@));
                    }
                } else {
                    let m = normalize_decimal_integer(clean.as_slice());
                    let is_zero = m.len() == 1 && m[0] == '0';
                    proof {
                        if m@.len() == 1 && m@[0] == '0' {
                            assert(m@ =~= seq!['0']);
                        }
                    }
                    if negative && !is_zero {
                        out.push('-');
                    }
                    append_chars(&mut out, m.as_slice());
                    proof {
                        assert(out@ =~= normal_number(n.raw@));
                    }
                }
            },
        }
    }
    string_from_chars(out.as_slice(), 0, out.len())
}

} // verus!
