//! Namespace paths as file paths: `a.b.c` with extension `kdl` is the file
//! `a/b/c.kdl`, and a file below a base directory names the path of its
//! directories and its file stem.
use vstd::prelude::*;
use std::path::PathBuf;
use super::nsid::{lemma_strings_view_push, segments_well_formed, strings_view, NsidPath};

verus! {

/// `std::path::PathBuf`, carried through as it is.
#[verifier::external_type_specification]
#[verifier::external_body]
pub struct ExPathBuf(std::path::PathBuf);

/// The components of a path, as text.
pub uninterp spec fn path_components(p: PathBuf) -> Seq<Seq<char>>;

/// A component that a path holds as it is given: not empty, not `.` or
/// `..`, and free of separators and drive markers.
pub open spec fn simple_component(s: Seq<char>) -> bool {
    s.len() > 0 && s != seq!['.'] && s != seq!['.', '.'] && !s.contains('/') && !s.contains('\\')
        && !s.contains(':')
}

/// The stem of a file name: all of it when it holds no `.` but a leading
/// one, else the part before its last `.`.
pub open spec fn stem_of(name: Seq<char>) -> Seq<char> {
    match last_dot(name) {
        Some(k) => if k == 0 {
            name
        } else {
            name.take(k)
        },
        None => name,
    }
}

/// The position of the last `.` in `s`.
pub open spec fn last_dot(s: Seq<char>) -> Option<int>
    decreases s.len(),
{
    if s.len() == 0 {
        None
    } else if s.last() == '.' {
        Some(s.len() - 1)
    } else {
        last_dot(s.drop_last())
    }
}

/// `PathBuf::new`: the empty path, with no component.
#[verifier::external_body]
fn empty_path() -> (r: PathBuf)
    ensures
        path_components(r) == Seq::<Seq<char>>::empty(),
{
    PathBuf::new()
}

/// `PathBuf::push` with a relative component: the path gains `part` as its
/// last component. Of other parts (empty, `.`, `..`, with separators) no
/// more is stated here.
#[verifier::external_body]
fn push_component(p: &mut PathBuf, part: &str)
    ensures
        simple_component(part@) ==> path_components(*final(p)) == path_components(*old(p)).push(
            part@,
        ),
{
    p.push(part);
}

/// What `Path::strip_prefix` leaves of `path` once the leading components
/// that make up `base` are taken off, as text; `None` when `path` does not
/// start with `base`.
pub uninterp spec fn stripped_path(path: Seq<char>, base: Seq<char>) -> Option<Seq<char>>;

/// The components of a relative path in the order `Path::components` yields
/// them: the text of each normal component, `None` for a root, prefix, `.`
/// or `..` component.
pub uninterp spec fn path_parts(path: Seq<char>) -> Seq<Option<Seq<char>>>;

/// What `Path::file_stem` gives of a file name, as text.
pub uninterp spec fn file_stem_of(name: Seq<char>) -> Option<Seq<char>>;

/// A component as text, where it is a plain name.
pub open spec fn opt_text(o: Option<String>) -> Option<Seq<char>> {
    match o {
        Some(s) => Some(s@),
        None => None,
    }
}

/// Components as text.
pub open spec fn parts_view(parts: Seq<Option<String>>) -> Seq<Option<Seq<char>>> {
    parts.map_values(|o: Option<String>| opt_text(o))
}

/// `Path::strip_prefix`: the rest of `path` after the leading components
/// that make up `base`, as text, or `None` when `path` does not start with
/// `base`; the contract names that result `stripped_path`.
#[verifier::external_body]
fn strip_base(path: &str, base: &str) -> (r: Option<String>)
    ensures
        opt_text(r) == stripped_path(path@, base@),
{
    match std::path::Path::new(path).strip_prefix(std::path::Path::new(base)) {
        Ok(rest) => rest.to_str().map(|s| s.to_owned()),
        Err(_) => None,
    }
}

/// `Path::components` of a relative path: each component, as its text when
/// it is a normal one, or `None` for a root, prefix, `.` or `..` component;
/// the contract names that sequence `path_parts`.
#[verifier::external_body]
fn components_of(path: &str) -> (r: Vec<Option<String>>)
    ensures
        parts_view(r@) == path_parts(path@),
{
    std::path::Path::new(path).components().map(
        |c| match c {
            std::path::Component::Normal(part) => part.to_str().map(|s| s.to_owned()),
            _ => None,
        },
    ).collect()
}

/// The components of the file `path` below the directory `base`, as text
/// (`None`: the file is not below the base).
pub open spec fn relative_parts(path: Seq<char>, base: Seq<char>) -> Option<Seq<Option<Seq<char>>>> {
    match stripped_path(path, base) {
        Some(rest) => Some(path_parts(rest)),
        None => None,
    }
}

/// The components of the file `path` below the directory `base` (`None`
/// when it is not below it).
pub(crate) fn relative_components(path: &str, base: &str) -> (r: Option<Vec<Option<String>>>)
    ensures
        opt_parts(r) == relative_parts(path@, base@),
{
    match strip_base(path, base) {
        Some(rest) => Some(components_of(rest.as_str())),
        None => None,
    }
}

/// `Path::file_stem` of a file name, as text; the contract names it
/// `file_stem_of`, and states it for a name that is one simple component:
/// the whole name when it holds no `.` other than a leading one, else the
/// part before the last `.`.
#[verifier::external_body]
fn file_stem(name: &str) -> (r: Option<String>)
    ensures
        opt_text(r) == file_stem_of(name@),
        r is Some || !simple_component(name@),
        r matches Some(t) ==> (simple_component(name@) ==> t@ == stem_of(name@)),
{
    std::path::Path::new(name).file_stem().and_then(|s| s.to_str()).map(|s| s.to_owned())
}

/// The namespace path named by the components of a file path below its base
/// directory: the directories, then the file stem of the last; `None` when a
/// component is no plain name, when there is none, when the last has no
/// file stem, or when the result is not well formed.
pub open spec fn nsid_of_components(parts: Seq<Option<Seq<char>>>) -> Option<Seq<Seq<char>>> {
    if parts.len() == 0 || exists|i: int| 0 <= i < parts.len() && parts[i] is None {
        None
    } else {
        let names = parts.map_values(|o: Option<Seq<char>>| o.unwrap());
        match file_stem_of(names.last()) {
            None => None,
            Some(stem) => {
                let p = names.update(names.len() - 1, stem);
                if segments_well_formed(p) {
                    Some(p)
                } else {
                    None
                }
            },
        }
    }
}

/// What the stem of the last component is known to be: where every
/// component is a plain name and the last is a simple one, its file stem is
/// `stem_of` of it.
pub open spec fn stem_known(ps: Seq<Option<Seq<char>>>) -> bool {
    (ps.len() > 0 && (forall|i: int| 0 <= i < ps.len() ==> (#[trigger] ps[i]) is Some)
        && simple_component(ps.last()->0)) ==> file_stem_of(ps.last()->0) == Some(
        stem_of(ps.last()->0),
    )
}

/// The namespace path of the file `path` below the directory `base`.
pub open spec fn nsid_of_file(path: Seq<char>, base: Seq<char>) -> Option<Seq<Seq<char>>> {
    match relative_parts(path, base) {
        Some(ps) => nsid_of_components(ps),
        None => None,
    }
}

/// The components as text.
pub open spec fn opt_parts(o: Option<Vec<Option<String>>>) -> Option<Seq<Option<Seq<char>>>> {
    match o {
        Some(v) => Some(parts_view(v@)),
        None => None,
    }
}

/// The file path of a namespace path: each parent segment a directory, the
/// last the file, with extension `ext` (a leading `.` in it is dropped) unless
/// that is empty.
pub open spec fn fs_components(p: Seq<Seq<char>>, ext: Seq<char>) -> Seq<Seq<char>> {
    if p.len() == 0 {
        Seq::empty()
    } else {
        let e = if ext.len() > 0 && ext[0] == '.' {
            ext.drop_first()
        } else {
            ext
        };
        let leaf = if e.len() == 0 {
            p.last()
        } else {
            p.last() + seq!['.'] + e
        };
        p.drop_last().push(leaf)
    }
}

impl NsidPath {
    /// The file path `a/b/c.ext` of `a.b.c`; the empty path for no segment.
    pub fn to_fs_path(&self, ext: &str) -> (r: PathBuf)
        ensures
            (forall|i: int|
                0 <= i < fs_components(self@, ext@).len() ==> simple_component(
                    #[trigger] fs_components(self@, ext@)[i],
                )) ==> path_components(r) == fs_components(self@, ext@),
    {
        let parts = self.fs_component_strings(ext);
        let mut path = empty_path();
        let mut i: usize = 0;
        while i < parts.len()
            invariant
                0 <= i <= parts@.len(),
                strings_view(parts@) == fs_components(self@, ext@),
                (forall|j: int|
                    0 <= j < i ==> simple_component(#[trigger] fs_components(self@, ext@)[j]))
                    ==> path_components(path) == strings_view(parts@).take(i as int),
            decreases parts@.len() - i,
        {
            let ghost before = path;
            push_component(&mut path, parts[i].as_str());
            proof {
                assert(strings_view(parts@)[i as int] == parts@[i as int]@);
                assert(strings_view(parts@).take(i + 1) =~= strings_view(parts@).take(
                    i as int,
                ).push(parts@[i as int]@));
            }
            i = i + 1;
        }
        proof {
            assert(strings_view(parts@).take(parts@.len() as int) =~= strings_view(parts@));
        }
        path
    }

    /// The components of the file path of `self`, as text.
    pub fn fs_component_strings(&self, ext: &str) -> (r: Vec<String>)
        ensures
            strings_view(r@) == fs_components(self@, ext@),
    {
        let segs = self.segments();
        let n = segs.len();
        let mut out: Vec<String> = Vec::new();
        if n == 0 {
            proof {
                assert(strings_view(out@) =~= Seq::<Seq<char>>::empty());
            }
            return out;
        }
        let mut i: usize = 0;
        while i + 1 < n
            invariant
                n == segs@.len(),
                n > 0,
                strings_view(segs@) == self@,
                0 <= i <= n - 1,
                strings_view(out@) == self@.take(i as int),
            decreases n - i,
        {
            let ghost before = out@;
            out.push(segs[i].clone());
            proof {
                lemma_strings_view_push(before, segs@[i as int]);
                assert(strings_view(segs@)[i as int] == segs@[i as int]@);
                assert(strings_view(out@) =~= self@.take(i + 1));
            }
            i = i + 1;
        }
        let e = match crate::text::strip_char_prefix(ext, '.') {
            Some(rest) => rest,
            None => ext,
        };
        let mut leaf = segs[n - 1].clone();
        if !e.is_empty() {
            leaf.push('.');
            leaf.push_str(e);
        }
        let ghost before = out@;
        let ghost leaf_view = leaf@;
        out.push(leaf);
        proof {
            lemma_strings_view_push(before, out@.last());
            assert(strings_view(segs@)[n - 1] == segs@[n - 1]@);
            let ev = if ext@.len() > 0 && ext@[0] == '.' {
                ext@.drop_first()
            } else {
                ext@
            };
            assert(e@ == ev);
            assert(out@.last()@ == leaf_view);
            if ev.len() == 0 {
                assert(leaf_view == self@.last());
            } else {
                assert(leaf_view =~= self@.last() + seq!['.'] + ev);
            }
            assert(self@.take(n - 1) =~= self@.drop_last());
            assert(strings_view(out@) =~= fs_components(self@, ext@));
        }
        out
    }

    /// The namespace path of the file `path` below the directory `base`:
    /// `a/b/c.kdl` below the base names `a.b.c`. `None` when `path` is not
    /// below `base`, when a component is no plain name, or when the result
    /// is not well formed.
    pub fn from_fs_path(path: &str, base: &str) -> (r: Option<NsidPath>)
        ensures
            match nsid_of_file(path@, base@) {
                Some(p) => r matches Some(x) && x@ == p,
                None => r is None,
            },
            r matches Some(p) ==> p@.len() > 0 && segments_well_formed(p@),
            match relative_parts(path@, base@) {
                Some(ps) => stem_known(ps),
                None => true,
            },
    {
        match relative_components(path, base) {
            Some(parts) => NsidPath::from_components(&parts),
            None => None,
        }
    }

    /// The namespace path named by the components of a file path below its
    /// base directory (as `from_fs_path` finds them).
    pub fn from_components(parts: &Vec<Option<String>>) -> (r: Option<NsidPath>)
        ensures
            match nsid_of_components(parts_view(parts@)) {
                Some(p) => r matches Some(x) && x@ == p,
                None => r is None,
            },
            r matches Some(p) ==> p@.len() > 0 && segments_well_formed(p@),
            stem_known(parts_view(parts@)),
    {
        let n = parts.len();
        let mut segs: Vec<String> = Vec::new();
        let mut i: usize = 0;
        while i < n
            invariant
                n == parts@.len(),
                0 <= i <= n,
                forall|j: int| 0 <= j < i ==> parts@[j] is Some,
                strings_view(segs@) == parts@.take(i as int).map_values(
                    |o: Option<String>| o.unwrap()@,
                ),
            decreases n - i,
        {
            match &parts[i] {
                Some(s) => {
                    let ghost before = segs@;
                    segs.push(s.clone());
                    proof {
                        lemma_strings_view_push(before, segs@.last());
                        assert(parts@.take(i + 1).map_values(|o: Option<String>| o.unwrap()@)
                            =~= parts@.take(i as int).map_values(|o: Option<String>| o.unwrap()@).push(
                            s@,
                        ));
                        assert(strings_view(segs@) =~= parts@.take(i + 1).map_values(
                            |o: Option<String>| o.unwrap()@,
                        ));
                    }
                },
                None => {
                    assert(parts_view(parts@)[i as int] is None);
                    return None;
                },
            }
            i = i + 1;
        }
        if n == 0 {
            return None;
        }
        let ghost names = parts_view(parts@).map_values(|o: Option<Seq<char>>| o.unwrap());
        proof {
            assert(parts@.take(n as int) =~= parts@);
            assert forall|k: int| 0 <= k < n implies #[trigger] parts_view(parts@)[k] is Some by {
                assert(parts@[k] is Some);
            }
            assert(names =~= strings_view(segs@));
        }
        let stem = match file_stem(segs[n - 1].as_str()) {
            Some(stem) => stem,
            None => {
                return None;
            },
        };
        let ghost stem_view = stem@;
        segs.set(n - 1, stem);
        let candidate = NsidPath::from_strings(segs);
        proof {
            assert(candidate@ =~= names.update(names.len() - 1, stem_view));
        }
        if candidate.is_well_formed() {
            Some(candidate)
        } else {
            None
        }
    }
}

} // verus!
