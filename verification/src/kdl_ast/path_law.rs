//! Reading back the file path that a namespace path is written to.
use vstd::prelude::*;
use super::fs_path::{fs_components, last_dot, nsid_of_components, simple_component, stem_known, stem_of};
use super::nsid::segments_well_formed;

verus! {

/// The extension as it is appended: without a leading `.`.
pub open spec fn bare_ext(ext: Seq<char>) -> Seq<char> {
    if ext.len() > 0 && ext[0] == '.' {
        ext.drop_first()
    } else {
        ext
    }
}

proof fn lemma_last_dot_none(s: Seq<char>)
    requires
        !s.contains('.'),
    ensures
        last_dot(s) is None,
    decreases s.len(),
{
    if s.len() > 0 {
        assert(s.last() == s[s.len() - 1]);
        assert forall|i: int| 0 <= i < s.drop_last().len() implies s.drop_last()[i] != '.' by {
            assert(s.drop_last()[i] == s[i]);
        }
        lemma_last_dot_none(s.drop_last());
    }
}

proof fn lemma_last_dot_after(a: Seq<char>, e: Seq<char>)
    requires
        !e.contains('.'),
    ensures
        last_dot(a + seq!['.'] + e) == Some(a.len() as int),
    decreases e.len(),
{
    let s = a + seq!['.'] + e;
    if e.len() == 0 {
        assert(s =~= a.push('.'));
    } else {
        assert(s.last() == e[e.len() - 1]);
        assert(s.drop_last() =~= a + seq!['.'] + e.drop_last());
        assert forall|i: int| 0 <= i < e.drop_last().len() implies e.drop_last()[i] != '.' by {
            assert(e.drop_last()[i] == e[i]);
        }
        lemma_last_dot_after(a, e.drop_last());
    }
}

/// Writing a namespace path as a file path, with an extension that holds
/// no `.` past its leading one, keeps every segment but the last as a
/// directory and makes the last the file's stem; so where the components
/// are plain names and the stem of the file name is as `stem_of` says,
/// reading the components back gives the namespace path.
pub proof fn law_fs_components_round_trip(p: Seq<Seq<char>>, ext: Seq<char>)
    requires
        p.len() > 0,
        segments_well_formed(p),
        !bare_ext(ext).contains('.'),
    ensures
        fs_components(p, ext).len() == p.len(),
        fs_components(p, ext).drop_last() == p.drop_last(),
        stem_of(fs_components(p, ext).last()) == p.last(),
        ({
            let parts = fs_components(p, ext).map_values(|c: Seq<char>| Some(c));
            simple_component(fs_components(p, ext).last()) && stem_known(parts)
                ==> nsid_of_components(parts) == Some(p)
        }),
{
    let cs = fs_components(p, ext);
    let e = bare_ext(ext);
    let last = p.last();
    assert(segments_well_formed(p) ==> p[p.len() - 1].len() > 0 && !p[p.len() - 1].contains('.'));
    assert(last == p[p.len() - 1]);
    assert(cs.drop_last() =~= p.drop_last());
    if e.len() == 0 {
        lemma_last_dot_none(last);
        assert(cs.last() == last);
    } else {
        lemma_last_dot_after(last, e);
        assert(cs.last() == last + seq!['.'] + e);
        assert((last + seq!['.'] + e).take(last.len() as int) =~= last);
    }
    let parts = cs.map_values(|c: Seq<char>| Some(c));
    if simple_component(cs.last()) && stem_known(parts) {
        assert(parts.last() == Some(cs.last()));
        assert forall|i: int| 0 <= i < parts.len() implies (#[trigger] parts[i]) is Some by {}
        let names = parts.map_values(|o: Option<Seq<char>>| o.unwrap());
        assert(names =~= cs);
        assert(names.update(names.len() - 1, last) =~= p);
    }
}

} // verus!
