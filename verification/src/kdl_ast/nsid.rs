use vstd::prelude::*;
use crate::text::str_chars;

verus! {

/// The pieces of `s` between occurrences of `sep` (`"a..b"` gives `a`, ``, `b`;
/// the empty text gives one empty piece).
pub open spec fn split_on(s: Seq<char>, sep: char) -> Seq<Seq<char>>
    decreases s.len(),
{
    if s.len() == 0 {
        seq![Seq::<char>::empty()]
    } else {
        let prev = split_on(s.drop_last(), sep);
        if s.last() == sep {
            prev.push(Seq::empty())
        } else {
            prev.update(prev.len() - 1, prev.last().push(s.last()))
        }
    }
}

/// The pieces of `p` with `sep` between consecutive ones.
pub open spec fn join_with(p: Seq<Seq<char>>, sep: char) -> Seq<char>
    decreases p.len(),
{
    if p.len() == 0 {
        Seq::empty()
    } else if p.len() == 1 {
        p[0]
    } else {
        join_with(p.drop_last(), sep).push(sep) + p.last()
    }
}

/// The segments that a dotted name denotes (the empty text denotes no segment).
pub open spec fn nsid_of(s: Seq<char>) -> Seq<Seq<char>> {
    if s.len() == 0 {
        Seq::empty()
    } else {
        split_on(s, '.')
    }
}

/// A well-formed path: every segment is non-empty and holds neither `.` nor `#`.
pub open spec fn segments_well_formed(p: Seq<Seq<char>>) -> bool {
    forall|i: int|
        0 <= i < p.len() ==> #[trigger] p[i].len() > 0 && !p[i].contains('.') && !p[i].contains(
            '#',
        )
}

pub open spec fn strings_view(v: Seq<String>) -> Seq<Seq<char>> {
    v.map_values(|s: String| s@)
}

/// A dotted namespace path such as `a.b.c`, held as its segments.
#[derive(Debug, Clone, PartialEq, Eq, Hash)]
pub struct NsidPath {
    segments: Vec<String>,
}

impl Default for NsidPath {
    fn default() -> (r: Self)
        ensures
            r@ == Seq::<Seq<char>>::empty(),
    {
        NsidPath::new()
    }
}

impl View for NsidPath {
    type V = Seq<Seq<char>>;

    closed spec fn view(&self) -> Seq<Seq<char>> {
        strings_view(self.segments@)
    }
}

pub proof fn lemma_split_on_nonempty(s: Seq<char>, sep: char)
    ensures
        split_on(s, sep).len() >= 1,
    decreases s.len(),
{
    if s.len() > 0 {
        lemma_split_on_nonempty(s.drop_last(), sep);
    }
}

proof fn lemma_join_extend_last(p: Seq<Seq<char>>, sep: char, x: char)
    requires
        p.len() >= 1,
    ensures
        join_with(p.update(p.len() - 1, p.last().push(x)), sep) == join_with(p, sep).push(x),
{
    let q = p.update(p.len() - 1, p.last().push(x));
    if p.len() > 1 {
        assert(q.drop_last() =~= p.drop_last());
        assert(join_with(q, sep) =~= join_with(p, sep).push(x));
    }
}

pub proof fn lemma_join_split(s: Seq<char>, sep: char)
    ensures
        join_with(split_on(s, sep), sep) == s,
    decreases s.len(),
{
    if s.len() == 0 {
        assert(join_with(split_on(s, sep), sep) =~= s);
    } else {
        let prev = split_on(s.drop_last(), sep);
        lemma_join_split(s.drop_last(), sep);
        lemma_split_on_nonempty(s.drop_last(), sep);
        if s.last() == sep {
            let q = prev.push(Seq::<char>::empty());
            assert(q.drop_last() =~= prev);
            assert(join_with(q, sep) =~= s);
        } else {
            lemma_join_extend_last(prev, sep, s.last());
            assert(s.drop_last().push(s.last()) =~= s);
        }
    }
}

proof fn lemma_split_append_plain(x: Seq<char>, y: Seq<char>, sep: char)
    requires
        !y.contains(sep),
    ensures
        split_on(x + y, sep) == split_on(x, sep).update(
            split_on(x, sep).len() - 1,
            split_on(x, sep).last() + y,
        ),
    decreases y.len(),
{
    lemma_split_on_nonempty(x, sep);
    let sx = split_on(x, sep);
    if y.len() == 0 {
        assert(x + y =~= x);
        assert(sx.last() + y =~= sx.last());
        assert(sx.update(sx.len() - 1, sx.last()) =~= sx);
    } else {
        let y2 = y.drop_last();
        assert(!y2.contains(sep)) by {
            if y2.contains(sep) {
                let k = choose|k: int| 0 <= k < y2.len() && y2[k] == sep;
                assert(y[k] == sep);
            }
        }
        lemma_split_append_plain(x, y2, sep);
        assert((x + y).drop_last() =~= x + y2);
        assert((x + y).last() == y.last());
        assert(y[y.len() - 1] != sep);
        let s2 = split_on(x + y2, sep);
        assert(s2.len() == sx.len());
        assert(s2.last() == sx.last() + y2);
        assert((sx.last() + y2).push(y.last()) =~= sx.last() + y);
        assert(s2.update(s2.len() - 1, s2.last().push(y.last())) =~= sx.update(
            sx.len() - 1,
            sx.last() + y,
        ));
    }
}

proof fn lemma_split_join(p: Seq<Seq<char>>, sep: char)
    requires
        p.len() >= 1,
        forall|i: int| 0 <= i < p.len() ==> !(#[trigger] p[i]).contains(sep),
    ensures
        split_on(join_with(p, sep), sep) == p,
    decreases p.len(),
{
    if p.len() == 1 {
        let e = Seq::<char>::empty();
        lemma_split_append_plain(e, p[0], sep);
        assert(e + p[0] =~= p[0]);
        assert(split_on(e, sep).update(0, split_on(e, sep).last() + p[0]) =~= p);
    } else {
        let q = p.drop_last();
        let j = join_with(q, sep).push(sep);
        lemma_split_join(q, sep);
        assert(j.drop_last() =~= join_with(q, sep));
        assert(split_on(j, sep) =~= q.push(Seq::<char>::empty()));
        lemma_split_append_plain(j, p.last(), sep);
        let sj = split_on(j, sep);
        assert(sj.update(sj.len() - 1, sj.last() + p.last()) =~= p);
    }
}

/// Showing a parsed path gives back the text it was parsed from: for every
/// text `s`, `NsidPath::parse(s).display()` is `s`.
pub proof fn law_nsid_display_of_parse(s: Seq<char>)
    ensures
        join_with(nsid_of(s), '.') == s,
{
    if s.len() > 0 {
        lemma_join_split(s, '.');
    }
}

/// Parsing the display of a path gives back the path, for every path whose
/// segments hold no `.`, except the path made of one empty segment (whose
/// display is the empty text, which parses to the empty path).
pub proof fn law_nsid_parse_of_display(p: Seq<Seq<char>>)
    requires
        forall|i: int| 0 <= i < p.len() ==> !(#[trigger] p[i]).contains('.'),
        p != seq![Seq::<char>::empty()],
    ensures
        nsid_of(join_with(p, '.')) == p,
{
    if p.len() >= 1 {
        lemma_split_join(p, '.');
        if join_with(p, '.').len() == 0 {
            if p.len() == 1 {
                assert(p =~= seq![Seq::<char>::empty()]);
            } else {
                assert(join_with(p, '.') == join_with(p.drop_last(), '.').push('.') + p.last());
            }
        }
    } else {
        assert(join_with(p, '.') =~= Seq::<char>::empty());
        assert(p =~= Seq::<Seq<char>>::empty());
    }
}

/// The parent of a child is the path the child was made from, and every
/// child starts with its parent.
pub proof fn law_nsid_child_parent(p: Seq<Seq<char>>, segment: Seq<char>)
    ensures
        p.push(segment).drop_last() == p,
        p.len() <= p.push(segment).len() && p.push(segment).take(p.len() as int) == p,
{
    assert(p.push(segment).drop_last() =~= p);
    assert(p.push(segment).take(p.len() as int) =~= p);
}

pub proof fn lemma_strings_view_push(v: Seq<String>, x: String)
    ensures
        strings_view(v.push(x)) == strings_view(v).push(x@),
{
    assert(strings_view(v.push(x)) =~= strings_view(v).push(x@));
}

fn clone_strings(v: &Vec<String>, from: usize, to: usize) -> (r: Vec<String>)
    requires
        from <= to <= v@.len(),
    ensures
        strings_view(r@) == strings_view(v@).subrange(from as int, to as int),
{
    let mut out: Vec<String> = Vec::new();
    let mut i = from;
    while i < to
        invariant
            from <= i <= to <= v@.len(),
            strings_view(out@) =~= strings_view(v@).subrange(from as int, i as int),
        decreases to - i,
    {
        let ghost before = out@;
        out.push(v[i].clone());
        proof {
            lemma_strings_view_push(before, v@[i as int]);
        }
        i = i + 1;
    }
    out
}

fn contains_char(s: &str, c: char) -> (r: bool)
    ensures
        r == s@.contains(c),
{
    let chars = str_chars(s);
    let mut i: usize = 0;
    while i < chars.len()
        invariant
            chars@ == s@,
            0 <= i <= chars@.len(),
            forall|j: int| 0 <= j < i ==> chars@[j] != c,
        decreases chars@.len() - i,
    {
        if chars[i] == c {
            return true;
        }
        i = i + 1;
    }
    false
}

impl NsidPath {
    pub fn new() -> (r: Self)
        ensures
            r@ == Seq::<Seq<char>>::empty(),
    {
        let r = NsidPath { segments: Vec::new() };
        assert(r@ =~= Seq::<Seq<char>>::empty());
        r
    }

    /// Splits a dotted name at each `.`; the empty text gives the empty path.
    pub fn parse(s: &str) -> (r: Self)
        ensures
            r@ == nsid_of(s@),
    {
        let chars = str_chars(s);
        if chars.len() == 0 {
            return Self::new();
        }
        let mut segments: Vec<String> = Vec::new();
        let mut current = String::new();
        let mut i: usize = 0;
        assert(chars@.take(0).len() == 0);
        while i < chars.len()
            invariant
                chars@ == s@,
                0 <= i <= chars@.len(),
                strings_view(segments@).push(current@) == split_on(chars@.take(i as int), '.'),
            decreases chars@.len() - i,
        {
            let c = chars[i];
            let ghost prev = chars@.take(i as int);
            assert(chars@.take(i + 1).drop_last() =~= prev);
            if c == '.' {
                let done = current;
                segments.push(done);
                current = String::new();
                assert(strings_view(segments@).push(current@) =~= split_on(prev, '.').push(
                    Seq::empty(),
                ));
            } else {
                current.push(c);
                assert(strings_view(segments@).push(current@) =~= split_on(prev, '.').update(
                    split_on(prev, '.').len() - 1,
                    split_on(prev, '.').last().push(c),
                ));
            }
            i = i + 1;
        }
        assert(chars@.take(chars@.len() as int) =~= chars@);
        segments.push(current);
        NsidPath { segments }
    }

    /// A path with the given segments, as they are.
    pub fn from_segments(segments: &[&str]) -> (r: Self)
        ensures
            r@ == segments@.map_values(|x: &str| x@),
    {
        let mut out: Vec<String> = Vec::new();
        let mut i: usize = 0;
        while i < segments.len()
            invariant
                0 <= i <= segments@.len(),
                strings_view(out@) =~= segments@.take(i as int).map_values(|x: &str| x@),
            decreases segments@.len() - i,
        {
            let ghost before = out@;
            let owned = segments[i].to_owned();
            out.push(owned);
            proof {
                lemma_strings_view_push(before, owned);
                assert(segments@.take(i + 1) =~= segments@.take(i as int).push(segments@[i as int]));
            }
            i = i + 1;
        }
        assert(segments@.take(segments@.len() as int) =~= segments@);
        NsidPath { segments: out }
    }

    /// The path with these segments.
    pub(crate) fn from_strings(segments: Vec<String>) -> (r: Self)
        ensures
            r@ == strings_view(segments@),
    {
        NsidPath { segments }
    }

    pub fn segments(&self) -> (r: &[String])
        ensures
            strings_view(r@) == self@,
    {
        self.segments.as_slice()
    }

    pub fn len(&self) -> (r: usize)
        ensures
            r == self@.len(),
    {
        self.segments.len()
    }

    pub fn is_empty(&self) -> (r: bool)
        ensures
            r == (self@.len() == 0),
    {
        self.segments.len() == 0
    }

    pub fn first(&self) -> (r: Option<&str>)
        ensures
            r is Some <==> self@.len() > 0,
            r matches Some(x) ==> x@ == self@[0],
    {
        if self.segments.len() == 0 {
            None
        } else {
            Some(self.segments[0].as_str())
        }
    }

    pub fn last(&self) -> (r: Option<&str>)
        ensures
            r is Some <==> self@.len() > 0,
            r matches Some(x) ==> x@ == self@.last(),
    {
        let n = self.segments.len();
        if n == 0 {
            None
        } else {
            Some(self.segments[n - 1].as_str())
        }
    }

    /// The path without its last segment; `None` for the empty path.
    pub fn parent(&self) -> (r: Option<Self>)
        ensures
            r is Some <==> self@.len() > 0,
            r matches Some(p) ==> p@ == self@.drop_last(),
    {
        let n = self.segments.len();
        if n == 0 {
            return None;
        }
        let segments = clone_strings(&self.segments, 0, n - 1);
        Some(NsidPath { segments })
    }

    /// The path with one more segment at the end.
    pub fn child(&self, segment: &str) -> (r: Self)
        ensures
            r@ == self@.push(segment@),
    {
        let mut segments = clone_strings(&self.segments, 0, self.segments.len());
        let ghost before = segments@;
        let owned = segment.to_owned();
        segments.push(owned);
        proof {
            lemma_strings_view_push(before, owned);
            assert(strings_view(self.segments@).subrange(0, self@.len() as int) =~= self@);
        }
        NsidPath { segments }
    }

    /// Whether `other`'s segments are the first segments of this path.
    /// A copy of the path.
    pub fn copy(&self) -> (r: Self)
        ensures
            r@ == self@,
    {
        let segments = clone_strings(&self.segments, 0, self.segments.len());
        proof {
            assert(strings_view(self.segments@).subrange(0, self.segments@.len() as int)
                =~= strings_view(self.segments@));
        }
        NsidPath { segments }
    }

    /// Whether the two paths have the same segments.
    pub fn same_as(&self, other: &NsidPath) -> (r: bool)
        ensures
            r == (self@ == other@),
    {
        if self.len() != other.len() {
            return false;
        }
        let r = self.starts_with(other);
        proof {
            assert(self@.take(self@.len() as int) =~= self@);
        }
        r
    }

    pub fn starts_with(&self, other: &NsidPath) -> (r: bool)
        ensures
            r == (other@.len() <= self@.len() && self@.take(other@.len() as int) == other@),
    {
        let n = other.segments.len();
        if n > self.segments.len() {
            return false;
        }
        let mut i: usize = 0;
        while i < n
            invariant
                n == other@.len() <= self@.len(),
                0 <= i <= n,
                self@.take(i as int) == other@.take(i as int),
            decreases n - i,
        {
            if self.segments[i] != other.segments[i] {
                assert(self@.take(n as int)[i as int] != other@[i as int]);
                return false;
            }
            assert(self@.take(i + 1) =~= self@.take(i as int).push(self@[i as int]));
            assert(other@.take(i + 1) =~= other@.take(i as int).push(other@[i as int]));
            i = i + 1;
        }
        assert(other@.take(n as int) =~= other@);
        true
    }

    /// The segments joined with `.`.
    pub fn display(&self) -> (r: String)
        ensures
            r@ == join_with(self@, '.'),
    {
        let mut out = String::new();
        let mut i: usize = 0;
        while i < self.segments.len()
            invariant
                0 <= i <= self@.len(),
                out@ == join_with(self@.take(i as int), '.'),
            decreases self@.len() - i,
        {
            assert(self@.take(i + 1).drop_last() =~= self@.take(i as int));
            if i > 0 {
                out.push('.');
            } else {
                assert(out@ =~= Seq::<char>::empty());
            }
            out.push_str(self.segments[i].as_str());
            assert(out@ =~= join_with(self@.take(i + 1), '.'));
            i = i + 1;
        }
        assert(self@.take(self@.len() as int) =~= self@);
        out
    }

    /// Whether every segment is non-empty and holds neither `.` nor `#`.
    pub fn is_well_formed(&self) -> (r: bool)
        ensures
            r == segments_well_formed(self@),
    {
        let mut i: usize = 0;
        while i < self.segments.len()
            invariant
                0 <= i <= self@.len(),
                segments_well_formed(self@.take(i as int)),
            decreases self@.len() - i,
        {
            let s = self.segments[i].as_str();
            if s.is_empty() || contains_char(s, '.') || contains_char(s, '#') {
                assert(!(self@[i as int].len() > 0 && !self@[i as int].contains('.')
                    && !self@[i as int].contains('#')));
                return false;
            }
            assert(segments_well_formed(self@.take(i + 1))) by {
                assert forall|j: int| 0 <= j < i + 1 implies #[trigger] self@.take(i + 1)[j].len()
                    > 0 && !self@.take(i + 1)[j].contains('.') && !self@.take(i + 1)[j].contains(
                    '#',
                ) by {
                    if j < i {
                        assert(self@.take(i + 1)[j] == self@.take(i as int)[j]);
                    }
                }
            }
            i = i + 1;
        }
        assert(self@.take(self@.len() as int) =~= self@);
        true
    }
}

} // verus!
