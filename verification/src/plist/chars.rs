//! Trimming, searching and splitting character sequences, as the plist
//! reader uses them.
use vstd::prelude::*;
use vstd::utf8::{encode_scalar, encode_utf8};
use vstd::string::StringSliceAdditionalSpecFns;

verus! {

/// Unicode White_Space, the space of `char::is_whitespace`.
pub open spec fn white(c: char) -> bool {
    ('\u{0009}' <= c && c <= '\u{000D}') || c == '\u{0020}' || c == '\u{0085}' || c == '\u{00A0}'
        || c == '\u{1680}' || ('\u{2000}' <= c && c <= '\u{200A}') || c == '\u{2028}' || c
        == '\u{2029}' || c == '\u{202F}' || c == '\u{205F}' || c == '\u{3000}'
}

pub fn is_white(c: char) -> (r: bool)
    ensures
        r == white(c),
{
    ('\u{0009}' <= c && c <= '\u{000D}') || c == '\u{0020}' || c == '\u{0085}' || c == '\u{00A0}'
        || c == '\u{1680}' || ('\u{2000}' <= c && c <= '\u{200A}') || c == '\u{2028}' || c
        == '\u{2029}' || c == '\u{202F}' || c == '\u{205F}' || c == '\u{3000}'
}

/// How many characters at the front of `s` are white space.
pub open spec fn white_front(s: Seq<char>) -> nat
    decreases s.len(),
{
    if s.len() > 0 && white(s[0]) {
        1 + white_front(s.drop_first())
    } else {
        0
    }
}

/// How many characters at the back of `s` are white space.
pub open spec fn white_back(s: Seq<char>) -> nat
    decreases s.len(),
{
    if s.len() > 0 && white(s.last()) {
        1 + white_back(s.drop_last())
    } else {
        0
    }
}

/// How many characters at the front of `s` are `c`.
pub open spec fn char_front(s: Seq<char>, c: char) -> nat
    decreases s.len(),
{
    if s.len() > 0 && s[0] == c {
        1 + char_front(s.drop_first(), c)
    } else {
        0
    }
}

/// How many characters at the back of `s` are `c`.
pub open spec fn char_back(s: Seq<char>, c: char) -> nat
    decreases s.len(),
{
    if s.len() > 0 && s.last() == c {
        1 + char_back(s.drop_last(), c)
    } else {
        0
    }
}

/// `s` without leading white space.
pub open spec fn trim_start(s: Seq<char>) -> Seq<char> {
    s.skip(white_front(s) as int)
}

/// `s` without trailing white space.
pub open spec fn trim_end(s: Seq<char>) -> Seq<char> {
    s.take(s.len() - white_back(s))
}

/// `s` without leading or trailing white space.
pub open spec fn trim(s: Seq<char>) -> Seq<char> {
    trim_end(trim_start(s))
}

/// `s` without trailing `c`.
pub open spec fn trim_end_char(s: Seq<char>, c: char) -> Seq<char> {
    s.take(s.len() - char_back(s, c))
}

/// `s` without leading or trailing `c`.
pub open spec fn trim_char(s: Seq<char>, c: char) -> Seq<char> {
    trim_end_char(s.skip(char_front(s, c) as int), c)
}

/// The counts of trimmed characters do not exceed the length.
pub proof fn lemma_trim_counts(s: Seq<char>, c: char)
    ensures
        white_front(s) <= s.len(),
        white_back(s) <= s.len(),
        char_front(s, c) <= s.len(),
        char_back(s, c) <= s.len(),
    decreases s.len(),
{
    if s.len() > 0 {
        lemma_trim_counts(s.drop_first(), c);
        lemma_trim_counts(s.drop_last(), c);
    }
}

/// Trimming never lengthens a text.
pub proof fn lemma_trim_lengths(s: Seq<char>, c: char)
    ensures
        trim_start(s).len() <= s.len(),
        trim_end(s).len() <= s.len(),
        trim(s).len() <= s.len(),
        trim_end_char(s, c).len() <= s.len(),
        trim_char(s, c).len() <= s.len(),
{
    lemma_trim_counts(s, c);
    lemma_trim_counts(trim_start(s), c);
    lemma_trim_counts(s.skip(char_front(s, c) as int), c);
}

proof fn lemma_white_front(s: Seq<char>, i: int)
    requires
        0 <= i <= s.len(),
        forall|j: int| 0 <= j < i ==> white(s[j]),
        i == s.len() || !white(s[i]),
    ensures
        white_front(s) == i,
    decreases i,
{
    if i > 0 {
        lemma_white_front(s.drop_first(), i - 1);
    }
}

proof fn lemma_white_back(s: Seq<char>, i: int)
    requires
        0 <= i <= s.len(),
        forall|j: int| s.len() - i <= j < s.len() ==> white(s[j]),
        i == s.len() || !white(s[s.len() - 1 - i]),
    ensures
        white_back(s) == i,
    decreases i,
{
    if i > 0 {
        lemma_white_back(s.drop_last(), i - 1);
    }
}

proof fn lemma_char_front(s: Seq<char>, c: char, i: int)
    requires
        0 <= i <= s.len(),
        forall|j: int| 0 <= j < i ==> s[j] == c,
        i == s.len() || s[i] != c,
    ensures
        char_front(s, c) == i,
    decreases i,
{
    if i > 0 {
        lemma_char_front(s.drop_first(), c, i - 1);
    }
}

/// The count of leading `c` is the first position that holds no `c`.
pub proof fn lemma_char_front_exact(s: Seq<char>, c: char, i: int)
    requires
        0 <= i <= s.len(),
        forall|j: int| 0 <= j < i ==> s[j] == c,
        i == s.len() || s[i] != c,
    ensures
        char_front(s, c) == i,
{
    lemma_char_front(s, c, i);
}

proof fn lemma_char_back(s: Seq<char>, c: char, i: int)
    requires
        0 <= i <= s.len(),
        forall|j: int| s.len() - i <= j < s.len() ==> s[j] == c,
        i == s.len() || s[s.len() - 1 - i] != c,
    ensures
        char_back(s, c) == i,
    decreases i,
{
    if i > 0 {
        lemma_char_back(s.drop_last(), c, i - 1);
    }
}

/// The characters `s[from..to]`.
pub fn slice_chars(s: &[char], from: usize, to: usize) -> (r: Vec<char>)
    requires
        from <= to <= s@.len(),
    ensures
        r@ == s@.subrange(from as int, to as int),
{
    let mut out: Vec<char> = Vec::new();
    let mut i: usize = from;
    while i < to
        invariant
            from <= i <= to <= s@.len(),
            out@ == s@.subrange(from as int, i as int),
        decreases to - i,
    {
        out.push(s[i]);
        proof {
            assert(out@ =~= s@.subrange(from as int, i + 1));
        }
        i = i + 1;
    }
    out
}

/// `s` without leading white space.
pub fn trim_start_chars(s: &[char]) -> (r: Vec<char>)
    ensures
        r@ == trim_start(s@),
{
    let mut i: usize = 0;
    while i < s.len() && is_white(s[i])
        invariant
            0 <= i <= s@.len(),
            forall|j: int| 0 <= j < i ==> white(s@[j]),
        decreases s@.len() - i,
    {
        i = i + 1;
    }
    proof {
        lemma_white_front(s@, i as int);
    }
    let len = s.len();
    slice_chars(s, i, len)
}

/// `s` without trailing white space.
pub fn trim_end_chars(s: &[char]) -> (r: Vec<char>)
    ensures
        r@ == trim_end(s@),
{
    let n = s.len();
    let mut k: usize = 0;
    while k < n && is_white(s[n - 1 - k])
        invariant
            n == s@.len(),
            0 <= k <= n,
            forall|j: int| n - k <= j < n ==> white(s@[j]),
        decreases n - k,
    {
        k = k + 1;
    }
    proof {
        lemma_white_back(s@, k as int);
    }
    slice_chars(s, 0, n - k)
}

/// `s` without leading or trailing white space.
pub fn trim_chars(s: &[char]) -> (r: Vec<char>)
    ensures
        r@ == trim(s@),
{
    let a = trim_start_chars(s);
    trim_end_chars(a.as_slice())
}

/// `s` without trailing `c`.
pub fn trim_end_char_chars(s: &[char], c: char) -> (r: Vec<char>)
    ensures
        r@ == trim_end_char(s@, c),
{
    let n = s.len();
    let mut k: usize = 0;
    while k < n && s[n - 1 - k] == c
        invariant
            n == s@.len(),
            0 <= k <= n,
            forall|j: int| n - k <= j < n ==> s@[j] == c,
        decreases n - k,
    {
        k = k + 1;
    }
    proof {
        lemma_char_back(s@, c, k as int);
    }
    slice_chars(s, 0, n - k)
}

/// `s` without leading or trailing `c`.
pub fn trim_char_chars(s: &[char], c: char) -> (r: Vec<char>)
    ensures
        r@ == trim_char(s@, c),
{
    let mut i: usize = 0;
    while i < s.len() && s[i] == c
        invariant
            0 <= i <= s@.len(),
            forall|j: int| 0 <= j < i ==> s@[j] == c,
        decreases s@.len() - i,
    {
        i = i + 1;
    }
    proof {
        lemma_char_front(s@, c, i as int);
    }
    let len = s.len();
    let rest = slice_chars(s, i, len);
    trim_end_char_chars(rest.as_slice(), c)
}

/// Where `pat` first stands in `s` at or after `from`.
pub open spec fn find_from(s: Seq<char>, pat: Seq<char>, from: int) -> Option<int>
    decreases s.len() + 1 - from,
{
    if from < 0 || from + pat.len() > s.len() {
        None
    } else if s.subrange(from, from + pat.len()) == pat {
        Some(from)
    } else {
        find_from(s, pat, from + 1)
    }
}

/// Where `pat` first stands in `s`.
pub open spec fn find_seq(s: Seq<char>, pat: Seq<char>) -> Option<int> {
    find_from(s, pat, 0)
}

pub proof fn lemma_find_from_bound(s: Seq<char>, pat: Seq<char>, from: int)
    ensures
        find_from(s, pat, from) matches Some(k) ==> from <= k && k + pat.len() <= s.len()
            && s.subrange(k, k + pat.len()) == pat,
    decreases s.len() + 1 - from,
{
    if !(from < 0 || from + pat.len() > s.len()) && s.subrange(from, from + pat.len()) != pat {
        lemma_find_from_bound(s, pat, from + 1);
    }
}

/// Where `pat` first stands in `s`.
pub fn find_chars(s: &[char], pat: &[char]) -> (r: Option<usize>)
    ensures
        match r {
            Some(k) => find_seq(s@, pat@) == Some(k as int) && k + pat@.len() <= s@.len(),
            None => find_seq(s@, pat@) is None,
        },
{
    let n = s.len();
    let m = pat.len();
    let mut i: usize = 0;
    proof {
        lemma_find_from_bound(s@, pat@, 0);
    }
    while i < n && m <= n - i
        invariant
            n == s@.len(),
            m == pat@.len(),
            0 <= i <= n,
            find_seq(s@, pat@) == find_from(s@, pat@, i as int),
        decreases n - i,
    {
        let mut j: usize = 0;
        let mut same = true;
        proof {
            assert(s@.subrange(i as int, i as int) =~= pat@.take(0));
        }
        while j < m
            invariant
                n == s@.len(),
                m == pat@.len(),
                i + m <= n,
                0 <= j <= m,
                same == (s@.subrange(i as int, i + j) == pat@.take(j as int)),
            decreases m - j,
        {
            let ok = s[i + j] == pat[j];
            proof {
                assert(s@.subrange(i as int, i + j + 1) =~= s@.subrange(i as int, i + j).push(
                    s@[i + j],
                ));
                assert(pat@.take(j + 1) =~= pat@.take(j as int).push(pat@[j as int]));
                if !same {
                    if s@.subrange(i as int, i + j + 1) == pat@.take(j + 1) {
                        assert(s@.subrange(i as int, i + j + 1).drop_last() =~= s@.subrange(
                            i as int,
                            i + j,
                        ));
                        assert(pat@.take(j + 1).drop_last() =~= pat@.take(j as int));
                    }
                }
                if same && !ok {
                    assert(s@.subrange(i as int, i + j + 1).last() != pat@.take(j + 1).last());
                }
            }
            same = same && ok;
            j = j + 1;
        }
        proof {
            assert(pat@.take(m as int) =~= pat@);
        }
        if same {
            return Some(i);
        }
        i = i + 1;
    }
    proof {
        lemma_find_from_bound(s@, pat@, i as int);
        if i == n && m == 0 {
            assert(s@.subrange(i as int, i as int) =~= pat@);
        }
    }
    if i == n && m == 0 {
        return Some(i);
    }
    None
}

/// The position of the first `c` in `s`.
pub fn find_char(s: &[char], c: char) -> (r: Option<usize>)
    ensures
        match r {
            Some(k) => find_seq(s@, seq![c]) == Some(k as int) && k < s@.len() && s@[k as int] == c,
            None => find_seq(s@, seq![c]) is None,
        },
{
    let mut pat: Vec<char> = Vec::new();
    pat.push(c);
    proof {
        assert(pat@ =~= seq![c]);
    }
    let r = find_chars(s, pat.as_slice());
    proof {
        lemma_find_from_bound(s@, seq![c], 0);
        if let Some(k) = find_seq(s@, seq![c]) {
            assert(s@.subrange(k, k + 1)[0] == s@[k]);
        }
    }
    r
}

/// Whether `s` equals `word` when ASCII letters are compared without case.
pub open spec fn ascii_lower(c: char) -> char {
    if 'A' <= c && c <= 'Z' {
        ((c as u32 + 32) as u8) as char
    } else {
        c
    }
}

pub open spec fn eq_ignore_case(s: Seq<char>, word: Seq<char>) -> bool {
    s.len() == word.len() && forall|i: int| 0 <= i < s.len() ==> ascii_lower(#[trigger] s[i])
        == ascii_lower(word[i])
}

fn lower(c: char) -> (r: char)
    ensures
        r == ascii_lower(c),
{
    if 'A' <= c && c <= 'Z' {
        ((c as u32 + 32) as u8) as char
    } else {
        c
    }
}

pub fn eq_ignore_case_chars(s: &[char], word: &[char]) -> (r: bool)
    ensures
        r == eq_ignore_case(s@, word@),
{
    if s.len() != word.len() {
        return false;
    }
    let mut i: usize = 0;
    while i < s.len()
        invariant
            s@.len() == word@.len(),
            0 <= i <= s@.len(),
            forall|j: int| 0 <= j < i ==> ascii_lower(#[trigger] s@[j]) == ascii_lower(word@[j]),
        decreases s@.len() - i,
    {
        if lower(s[i]) != lower(word[i]) {
            return false;
        }
        i = i + 1;
    }
    true
}

/// The UTF-8 length of a character.
pub open spec fn width(c: char) -> nat {
    if (c as u32) < 0x80 {
        1
    } else if (c as u32) < 0x800 {
        2
    } else if (c as u32) < 0x10000 {
        3
    } else {
        4
    }
}

/// The UTF-8 length of `s`: the byte offsets of the text.
pub open spec fn byte_len(s: Seq<char>) -> nat
    decreases s.len(),
{
    if s.len() == 0 {
        0
    } else {
        byte_len(s.drop_last()) + width(s.last())
    }
}

proof fn lemma_byte_len_push(s: Seq<char>, c: char)
    ensures
        byte_len(s.push(c)) == byte_len(s) + width(c),
{
    assert(s.push(c).drop_last() =~= s);
}

proof fn lemma_byte_len_front(s: Seq<char>)
    requires
        s.len() > 0,
    ensures
        byte_len(s) == width(s[0]) + byte_len(s.drop_first()),
    decreases s.len(),
{
    if s.len() > 1 {
        lemma_byte_len_front(s.drop_last());
        assert(s.drop_last().drop_first() =~= s.drop_first().drop_last());
    } else {
        assert(s.drop_first() =~= Seq::<char>::empty());
        assert(s.drop_last() =~= Seq::<char>::empty());
    }
}

proof fn lemma_encode_utf8_len(s: Seq<char>)
    ensures
        encode_utf8(s).len() == byte_len(s),
    decreases s.len(),
{
    if s.len() > 0 {
        lemma_encode_utf8_len(s.drop_first());
        lemma_byte_len_front(s);
        let u = s[0] as u32;
        vstd::utf8::char_is_scalar(s[0]);
        assert(encode_scalar(u).len() == width(s[0]));
    }
}

proof fn lemma_byte_len_prefix(s: Seq<char>, k: int)
    requires
        0 <= k <= s.len(),
    ensures
        byte_len(s.take(k)) <= byte_len(s),
    decreases s.len() - k,
{
    if k < s.len() {
        lemma_byte_len_prefix(s.drop_last(), k);
        assert(s.drop_last().take(k) =~= s.take(k));
    } else {
        assert(s.take(k) =~= s);
    }
}

fn char_width(c: char) -> (r: usize)
    ensures
        r == width(c),
{
    let u = c as u32;
    if u < 0x80 {
        1
    } else if u < 0x800 {
        2
    } else if u < 0x10000 {
        3
    } else {
        4
    }
}

pub proof fn lemma_byte_len_subrange(s: Seq<char>, a: int, b: int)
    requires
        0 <= a <= b <= s.len(),
    ensures
        byte_len(s.subrange(a, b)) <= byte_len(s),
    decreases s.len(),
{
    if b < s.len() {
        lemma_byte_len_subrange(s.drop_last(), a, b);
        assert(s.drop_last().subrange(a, b) =~= s.subrange(a, b));
    } else if a > 0 {
        lemma_byte_len_front(s);
        lemma_byte_len_subrange(s.drop_first(), a - 1, b - 1);
        assert(s.drop_first().subrange(a - 1, b - 1) =~= s.subrange(a, b));
    } else {
        assert(s.subrange(a, b) =~= s);
    }
}

/// The UTF-8 length of the first `k` characters of `cs`: the byte offset of
/// its character `k`.
pub fn byte_offset(cs: &[char], k: usize) -> (r: usize)
    requires
        byte_len(cs@) <= usize::MAX,
        k <= cs@.len(),
    ensures
        r == byte_len(cs@.take(k as int)),
{
    let mut sum: usize = 0;
    let mut i: usize = 0;
    proof {
        assert(cs@.take(0) =~= Seq::<char>::empty());
        lemma_byte_len_prefix(cs@, k as int);
    }
    while i < k
        invariant
            k <= cs@.len(),
            byte_len(cs@.take(k as int)) <= usize::MAX,
            0 <= i <= k,
            sum == byte_len(cs@.take(i as int)),
        decreases k - i,
    {
        proof {
            assert(cs@.take(i + 1) =~= cs@.take(i as int).push(cs@[i as int]));
            lemma_byte_len_push(cs@.take(i as int), cs@[i as int]);
            lemma_byte_len_prefix(cs@.take(k as int), i + 1);
            assert(cs@.take(k as int).take(i + 1) =~= cs@.take(i + 1));
        }
        sum = sum + char_width(cs[i]);
        i = i + 1;
    }
    sum
}

/// The byte length of a text is the UTF-8 length of its characters.
pub proof fn lemma_str_bytes(s: &str)
    ensures
        s.spec_bytes().len() == byte_len(s@),
{
    lemma_encode_utf8_len(s@);
}

} // verus!
