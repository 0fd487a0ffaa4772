use vstd::prelude::*;
use crate::text::{str_chars, string_from_chars};
use super::nsid::{
    join_with, law_nsid_display_of_parse, law_nsid_parse_of_display, lemma_split_on_nonempty,
    nsid_of, segments_well_formed, NsidPath,
};

verus! {

/// A reference to an entity (`a.b.c`), to a part of one (`a.b.c#frag`), or
/// to a part of the current document (`#frag`).
#[derive(Debug, Clone, PartialEq, Eq, Hash)]
pub struct CrossRef {
    pub path: NsidPath,
    pub fragment: Option<String>,
}

#[derive(Debug, Clone, Copy, PartialEq, Eq, Structural)]
pub enum CrossRefParseError {
    MultipleHashes,
    EmptyFragment,
    DotInFragment,
    EmptySegment,
}

/// How many times `c` occurs in `s`.
pub open spec fn count_char(s: Seq<char>, c: char) -> nat
    decreases s.len(),
{
    if s.len() == 0 {
        0
    } else {
        count_char(s.drop_last(), c) + if s.last() == c {
            1nat
        } else {
            0nat
        }
    }
}

/// `i` is the position of the first `c` in `s`.
pub open spec fn is_first_index(s: Seq<char>, c: char, i: int) -> bool {
    0 <= i < s.len() && s[i] == c && forall|j: int| 0 <= j < i ==> s[j] != c
}

/// The error that a fragment text gives, if any.
pub open spec fn fragment_error(f: Seq<char>) -> Option<CrossRefParseError> {
    if f.len() == 0 {
        Some(CrossRefParseError::EmptyFragment)
    } else if f.contains('.') {
        Some(CrossRefParseError::DotInFragment)
    } else {
        None
    }
}

/// The path that a text denotes, if it is well formed.
pub open spec fn path_of(t: Seq<char>) -> Result<Seq<Seq<char>>, CrossRefParseError> {
    if segments_well_formed(nsid_of(t)) {
        Ok(nsid_of(t))
    } else {
        Err(CrossRefParseError::EmptySegment)
    }
}

/// What a reference text denotes: its path and its fragment, or the error.
pub open spec fn cross_ref_of(s: Seq<char>) -> Result<
    (Seq<Seq<char>>, Option<Seq<char>>),
    CrossRefParseError,
> {
    if count_char(s, '#') > 1 {
        Err(CrossRefParseError::MultipleHashes)
    } else if !s.contains('#') {
        match path_of(s) {
            Ok(p) => Ok((p, None)),
            Err(e) => Err(e),
        }
    } else {
        let i = choose|i: int| is_first_index(s, '#', i);
        let pt = s.take(i);
        let f = s.skip(i + 1);
        if pt.len() == 0 {
            match fragment_error(f) {
                Some(e) => Err(e),
                None => Ok((Seq::empty(), Some(f))),
            }
        } else if f.len() == 0 {
            Err(CrossRefParseError::EmptyFragment)
        } else {
            match path_of(pt) {
                Err(e) => Err(e),
                Ok(p) => match fragment_error(f) {
                    Some(e) => Err(e),
                    None => Ok((p, Some(f))),
                },
            }
        }
    }
}

/// The text of a reference.
pub open spec fn cross_ref_text(path: Seq<Seq<char>>, fragment: Option<Seq<char>>) -> Seq<char> {
    match fragment {
        Some(f) => if path.len() == 0 {
            seq!['#'] + f
        } else {
            join_with(path, '.').push('#') + f
        },
        None => join_with(path, '.'),
    }
}

pub open spec fn opt_view(o: Option<String>) -> Option<Seq<char>> {
    match o {
        Some(s) => Some(s@),
        None => None,
    }
}

proof fn lemma_count_concat(a: Seq<char>, b: Seq<char>, c: char)
    ensures
        count_char(a + b, c) == count_char(a, c) + count_char(b, c),
    decreases b.len(),
{
    if b.len() == 0 {
        assert(a + b =~= a);
    } else {
        lemma_count_concat(a, b.drop_last(), c);
        assert((a + b).drop_last() =~= a + b.drop_last());
    }
}

proof fn lemma_count_zero(s: Seq<char>, c: char)
    ensures
        (count_char(s, c) == 0) <==> !s.contains(c),
    decreases s.len(),
{
    if s.len() > 0 {
        lemma_count_zero(s.drop_last(), c);
        if s.drop_last().contains(c) {
            let k = choose|k: int| 0 <= k < s.drop_last().len() && s.drop_last()[k] == c;
            assert(s[k] == c);
        }
        if s.contains(c) && s.last() != c {
            let k = choose|k: int| 0 <= k < s.len() && s[k] == c;
            assert(s.drop_last()[k] == c);
        }
        if s.last() == c {
            assert(s[s.len() - 1] == c);
        }
    }
}

proof fn lemma_join_lacks(p: Seq<Seq<char>>, sep: char, c: char)
    requires
        sep != c,
        forall|i: int| 0 <= i < p.len() ==> !(#[trigger] p[i]).contains(c),
    ensures
        !join_with(p, sep).contains(c),
    decreases p.len(),
{
    if p.len() == 1 {
        assert(!p[0].contains(c));
    } else if p.len() > 1 {
        let q = p.drop_last();
        assert forall|i: int| 0 <= i < q.len() implies !(#[trigger] q[i]).contains(c) by {
            assert(q[i] == p[i]);
        }
        lemma_join_lacks(q, sep, c);
        let a = join_with(q, sep).push(sep);
        let l = p.last();
        assert(!l.contains(c)) by {
            assert(l == p[p.len() - 1]);
        }
        if (a + l).contains(c) {
            let k = choose|k: int| 0 <= k < (a + l).len() && (a + l)[k] == c;
            if k < a.len() - 1 {
                assert(join_with(q, sep)[k] == c);
            } else if k >= a.len() {
                assert(l[k - a.len()] == c);
            }
        }
    }
}

proof fn lemma_first_index_exists(s: Seq<char>, c: char)
    requires
        s.contains(c),
    ensures
        exists|i: int| is_first_index(s, c, i),
    decreases s.len(),
{
    let d = s.drop_last();
    if d.contains(c) {
        lemma_first_index_exists(d, c);
        let i = choose|i: int| is_first_index(d, c, i);
        assert forall|j: int| 0 <= j < i implies s[j] != c by {
            assert(s[j] == d[j]);
        }
        assert(is_first_index(s, c, i));
    } else {
        let k = choose|k: int| 0 <= k < s.len() && s[k] == c;
        if k < s.len() - 1 {
            assert(d[k] == c);
        }
        assert forall|j: int| 0 <= j < s.len() - 1 implies s[j] != c by {
            if s[j] == c {
                assert(d[j] == c);
            }
        }
        assert(is_first_index(s, c, s.len() - 1));
    }
}

proof fn lemma_first_index_unique(s: Seq<char>, c: char, i: int, k: int)
    requires
        is_first_index(s, c, i),
        is_first_index(s, c, k),
    ensures
        i == k,
{
    if i < k {
        assert(s[i] != c);
    }
    if k < i {
        assert(s[k] != c);
    }
}

/// Showing a parsed reference gives back the text it was read from.
pub proof fn law_cross_ref_display_of_parse(s: Seq<char>)
    ensures
        cross_ref_of(s) matches Ok((p, f)) ==> cross_ref_text(p, f) == s,
{
    if let Ok((p, f)) = cross_ref_of(s) {
        if !s.contains('#') {
            law_nsid_display_of_parse(s);
        } else {
            lemma_first_index_exists(s, '#');
            let i = choose|i: int| is_first_index(s, '#', i);
            let pt = s.take(i);
            let fr = s.skip(i + 1);
            if pt.len() == 0 {
                assert(seq!['#'] + fr =~= s);
            } else {
                law_nsid_display_of_parse(pt);
                lemma_split_on_nonempty(pt, '.');
                assert(pt.push('#') + fr =~= s);
            }
        }
    }
}

/// Reading the text of a well-formed reference gives back that reference:
/// its path is well formed, and its fragment, if any, is non-empty and holds
/// neither `.` nor `#`.
pub proof fn law_cross_ref_parse_of_display(p: Seq<Seq<char>>, f: Option<Seq<char>>)
    requires
        segments_well_formed(p),
        f matches Some(x) ==> x.len() > 0 && !x.contains('.') && !x.contains('#'),
    ensures
        cross_ref_of(cross_ref_text(p, f)) == Ok::<_, CrossRefParseError>((p, f)),
{
    let t = cross_ref_text(p, f);
    lemma_join_lacks(p, '.', '#');
    if p.len() > 0 {
        law_nsid_parse_of_display(p);
        assert(p[0].len() > 0);
        if p =~= seq![Seq::<char>::empty()] {
            assert(p[0].len() == 0);
        }
    }
    let j = join_with(p, '.');
    match f {
        None => {
            lemma_count_zero(t, '#');
            if p.len() == 0 {
                assert(j =~= Seq::<char>::empty());
                assert(nsid_of(t) =~= Seq::<Seq<char>>::empty());
                assert(p =~= Seq::<Seq<char>>::empty());
            }
        },
        Some(x) => {
            let a = if p.len() == 0 {
                Seq::<char>::empty()
            } else {
                j
            };
            assert(t =~= a.push('#') + x);
            assert(!a.contains('#'));
            lemma_count_zero(a, '#');
            lemma_count_zero(x, '#');
            lemma_count_concat(a.push('#'), x, '#');
            assert(a.push('#').drop_last() =~= a);
            assert(is_first_index(t, '#', a.len() as int)) by {
                assert forall|k: int| 0 <= k < a.len() implies t[k] != '#' by {
                    assert(t[k] == a[k]);
                }
            }
            let i = choose|i: int| is_first_index(t, '#', i);
            lemma_first_index_unique(t, '#', i, a.len() as int);
            assert(t.take(i) =~= a);
            assert(t.skip(i + 1) =~= x);
            if p.len() == 0 {
                assert(p =~= Seq::<Seq<char>>::empty());
            } else {
                lemma_split_on_nonempty(j, '.');
                assert(a.len() > 0) by {
                    if p.len() == 1 {
                        assert(j == p[0]);
                    } else {
                        assert(j == join_with(p.drop_last(), '.').push('.') + p.last());
                    }
                }
            }
        },
    }
}

fn parse_path(s: &str) -> (r: Result<NsidPath, CrossRefParseError>)
    ensures
        match path_of(s@) {
            Ok(p) => r matches Ok(x) && x@ == p,
            Err(e) => r == Err::<NsidPath, CrossRefParseError>(e),
        },
{
    let path = NsidPath::parse(s);
    if path.is_well_formed() {
        Ok(path)
    } else {
        Err(CrossRefParseError::EmptySegment)
    }
}

fn validate_fragment(fragment: &str) -> (r: Result<&str, CrossRefParseError>)
    ensures
        match fragment_error(fragment@) {
            Some(e) => r == Err::<&str, CrossRefParseError>(e),
            None => r == Ok::<&str, CrossRefParseError>(fragment),
        },
{
    let chars = str_chars(fragment);
    if chars.len() == 0 {
        return Err(CrossRefParseError::EmptyFragment);
    }
    let mut i: usize = 0;
    while i < chars.len()
        invariant
            chars@ == fragment@,
            0 <= i <= chars@.len(),
            forall|j: int| 0 <= j < i ==> chars@[j] != '.',
        decreases chars@.len() - i,
    {
        if chars[i] == '.' {
            return Err(CrossRefParseError::DotInFragment);
        }
        i = i + 1;
    }
    Ok(fragment)
}

impl CrossRef {
    /// Reads `path`, `path#fragment` or `#fragment`.
    pub fn parse(s: &str) -> (r: Result<Self, CrossRefParseError>)
        ensures
            match cross_ref_of(s@) {
                Ok((p, f)) => r matches Ok(x) && x.path@ == p && opt_view(x.fragment) == f,
                Err(e) => r == Err::<CrossRef, CrossRefParseError>(e),
            },
    {
        let chars = str_chars(s);
        let n = chars.len();
        let mut hashes: usize = 0;
        let mut first: usize = n;
        let mut i: usize = 0;
        while i < n
            invariant
                chars@ == s@,
                n == chars@.len(),
                0 <= i <= n,
                hashes == count_char(chars@.take(i as int), '#'),
                hashes <= i,
                first <= n,
                first == n <==> hashes == 0,
                first < n ==> is_first_index(chars@, '#', first as int) && first < i,
                hashes == 0 ==> forall|j: int| 0 <= j < i ==> chars@[j] != '#',
            decreases n - i,
        {
            assert(chars@.take(i + 1).drop_last() =~= chars@.take(i as int));
            if chars[i] == '#' {
                if hashes == 0 {
                    first = i;
                }
                hashes = hashes + 1;
            }
            i = i + 1;
        }
        assert(chars@.take(n as int) =~= chars@);
        if hashes > 1 {
            return Err(CrossRefParseError::MultipleHashes);
        }
        if hashes == 0 {
            assert(!s@.contains('#'));
            return match parse_path(s) {
                Ok(path) => Ok(CrossRef { path, fragment: None }),
                Err(e) => Err(e),
            };
        }
        proof {
            assert(first < n);
            assert(is_first_index(s@, '#', first as int));
            assert(s@[first as int] == '#');
            assert(s@.contains('#'));
            let k = choose|k: int| is_first_index(s@, '#', k);
            assert(is_first_index(s@, '#', k));
            if k < first {
                assert(chars@[k] != '#');
            }
            if k > first {
                assert(s@[first as int] != '#');
            }
            assert(k == first);
        }
        let path_text = string_from_chars(chars.as_slice(), 0, first);
        let fragment = string_from_chars(chars.as_slice(), first + 1, n);
        assert(path_text@ =~= s@.take(first as int));
        assert(fragment@ =~= s@.skip(first + 1));
        if first == 0 {
            return match validate_fragment(fragment.as_str()) {
                Ok(_) => {
                    let path = NsidPath::new();
                    Ok(CrossRef { path, fragment: Some(fragment) })
                },
                Err(e) => Err(e),
            };
        }
        if first + 1 == n {
            return Err(CrossRefParseError::EmptyFragment);
        }
        let path = match parse_path(path_text.as_str()) {
            Ok(path) => path,
            Err(e) => {
                return Err(e);
            },
        };
        match validate_fragment(fragment.as_str()) {
            Ok(_) => Ok(CrossRef { path, fragment: Some(fragment) }),
            Err(e) => Err(e),
        }
    }

    pub fn from_path(path: NsidPath) -> (r: Self)
        ensures
            r.path == path,
            r.fragment is None,
    {
        CrossRef { path, fragment: None }
    }

    pub fn from_path_and_fragment(path: NsidPath, fragment: String) -> (r: Result<
        Self,
        CrossRefParseError,
    >)
        ensures
            match fragment_error(fragment@) {
                Some(e) => r == Err::<CrossRef, CrossRefParseError>(e),
                None => r matches Ok(x) && x.path == path && x.fragment == Some(fragment),
            },
    {
        match validate_fragment(fragment.as_str()) {
            Ok(_) => Ok(CrossRef { path, fragment: Some(fragment) }),
            Err(e) => Err(e),
        }
    }

    pub fn nsid(&self) -> (r: &NsidPath)
        ensures
            r == self.path,
    {
        &self.path
    }

    pub fn fragment(&self) -> (r: Option<&str>)
        ensures
            match self.fragment {
                Some(f) => r matches Some(x) && x@ == f@,
                None => r is None,
            },
    {
        match &self.fragment {
            Some(f) => Some(f.as_str()),
            None => None,
        }
    }

    pub fn has_fragment(&self) -> (r: bool)
        ensures
            r == self.fragment is Some,
    {
        self.fragment.is_some()
    }

    /// A reference into the current document: no path, only a fragment.
    pub fn is_local(&self) -> (r: bool)
        ensures
            r == (self.path@.len() == 0 && self.fragment is Some),
    {
        self.path.is_empty() && self.fragment.is_some()
    }

    pub fn display(&self) -> (r: String)
        ensures
            r@ == cross_ref_text(self.path@, opt_view(self.fragment)),
    {
        match &self.fragment {
            Some(fragment) => {
                if self.path.is_empty() {
                    let mut out = String::new();
                    out.push('#');
                    out.push_str(fragment.as_str());
                    assert(out@ =~= seq!['#'] + fragment@);
                    out
                } else {
                    let mut out = self.path.display();
                    out.push('#');
                    out.push_str(fragment.as_str());
                    out
                }
            },
            None => self.path.display(),
        }
    }
}

} // verus!
