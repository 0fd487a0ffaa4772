//! What normalisation makes of the properties of a node: one per key, the
//! right-most written, in key order.
use vstd::prelude::*;
use super::normalize::{key_of, sorted_props, text_lt, upsert};
use super::value::KdlEntry;

verus! {

proof fn lemma_text_lt_irreflexive(a: Seq<char>)
    ensures
        !text_lt(a, a),
    decreases a.len(),
{
    if a.len() > 0 {
        lemma_text_lt_irreflexive(a.drop_first());
    }
}

proof fn lemma_text_lt_transitive(a: Seq<char>, b: Seq<char>, c: Seq<char>)
    requires
        text_lt(a, b),
        text_lt(b, c),
    ensures
        text_lt(a, c),
    decreases a.len(),
{
    if a.len() > 0 && b.len() > 0 && c.len() > 0 && a[0] == b[0] && b[0] == c[0] {
        lemma_text_lt_transitive(a.drop_first(), b.drop_first(), c.drop_first());
    }
}

proof fn lemma_text_lt_total(a: Seq<char>, b: Seq<char>)
    requires
        a != b,
    ensures
        text_lt(a, b) || text_lt(b, a),
    decreases a.len(),
{
    if a.len() > 0 && b.len() > 0 && a[0] == b[0] {
        if a.drop_first() == b.drop_first() {
            assert(a =~= seq![a[0]] + a.drop_first());
            assert(b =~= seq![b[0]] + b.drop_first());
        }
        lemma_text_lt_total(a.drop_first(), b.drop_first());
    } else if a.len() == 0 && b.len() == 0 {
        assert(a =~= b);
    }
}

/// Entries in strictly increasing order of key.
pub open spec fn key_sorted(s: Seq<KdlEntry>) -> bool {
    forall|i: int, j: int| 0 <= i < j < s.len() ==> text_lt(key_of(s[i]), key_of(s[j]))
}

/// `es[k]` is a property that no later property of `es` shares its key
/// with.
pub open spec fn last_of_key(es: Seq<KdlEntry>, k: int) -> bool {
    0 <= k < es.len() && es[k] is Property && forall|k2: int|
        k < k2 < es.len() && (#[trigger] es[k2]) is Property ==> key_of(es[k2]) != key_of(es[k])
}

/// `x` is a right-most property of `es`.
pub open spec fn drawn(es: Seq<KdlEntry>, x: KdlEntry) -> bool {
    exists|k: int| last_of_key(es, k) && es[k] == x
}

/// Each entry of `sp` is a right-most property of `es`.
pub open spec fn drawn_from(sp: Seq<KdlEntry>, es: Seq<KdlEntry>) -> bool {
    forall|i: int| 0 <= i < sp.len() ==> drawn(es, #[trigger] sp[i])
}

/// Each key of a property of `es` is the key of an entry of `sp`.
pub open spec fn covers(sp: Seq<KdlEntry>, es: Seq<KdlEntry>) -> bool {
    forall|k: int|
        0 <= k < es.len() && (#[trigger] es[k]) is Property ==> exists|i: int|
            0 <= i < sp.len() && key_of(sp[i]) == key_of(es[k])
}

/// An entry of `upsert(acc, e)` is `e`, or an entry of `acc` with another
/// key.
pub open spec fn upsert_member(acc: Seq<KdlEntry>, e: KdlEntry, x: KdlEntry) -> bool {
    x == e || (exists|j: int| 0 <= j < acc.len() && acc[j] == x && key_of(x) != key_of(e))
}

proof fn lemma_upsert_members(acc: Seq<KdlEntry>, e: KdlEntry)
    requires
        key_sorted(acc),
    ensures
        forall|i: int|
            0 <= i < upsert(acc, e).len() ==> upsert_member(acc, e, #[trigger] upsert(acc, e)[i]),
        exists|i: int| 0 <= i < upsert(acc, e).len() && upsert(acc, e)[i] == e,
    decreases acc.len(),
{
    let u = upsert(acc, e);
    if acc.len() == 0 {
        assert(u[0] == e);
    } else if key_of(acc[0]) == key_of(e) {
        assert(u[0] == e);
        assert forall|i: int| 0 <= i < u.len() implies upsert_member(acc, e, #[trigger] u[i]) by {
            if i > 0 {
                assert(u[i] == acc[i]);
                assert(text_lt(key_of(acc[0]), key_of(acc[i])));
                lemma_text_lt_irreflexive(key_of(e));
                assert(0 <= i < acc.len() && acc[i] == u[i] && key_of(u[i]) != key_of(e));
            }
        }
    } else if text_lt(key_of(e), key_of(acc[0])) {
        assert(u[0] == e);
        assert forall|i: int| 0 <= i < u.len() implies upsert_member(acc, e, #[trigger] u[i]) by {
            if i > 0 {
                assert(u[i] == acc[i - 1]);
                if i > 1 {
                    lemma_text_lt_transitive(key_of(e), key_of(acc[0]), key_of(acc[i - 1]));
                }
                lemma_text_lt_irreflexive(key_of(e));
                assert(0 <= i - 1 < acc.len() && acc[i - 1] == u[i] && key_of(u[i]) != key_of(e));
            }
        }
    } else {
        let rest = acc.drop_first();
        assert forall|i: int, j: int| 0 <= i < j < rest.len() implies text_lt(
            key_of(rest[i]),
            key_of(rest[j]),
        ) by {
            assert(rest[i] == acc[i + 1] && rest[j] == acc[j + 1]);
        }
        lemma_upsert_members(rest, e);
        let v = upsert(rest, e);
        assert(u =~= seq![acc[0]] + v);
        assert forall|i: int| 0 <= i < u.len() implies upsert_member(acc, e, #[trigger] u[i]) by {
            if i == 0 {
                assert(acc[0] == u[0]);
                lemma_text_lt_total(key_of(acc[0]), key_of(e));
                assert(0 <= 0 < acc.len() && acc[0] == u[0] && key_of(u[0]) != key_of(e));
            } else {
                assert(u[i] == v[i - 1]);
                assert(upsert_member(rest, e, v[i - 1]));
                if v[i - 1] != e {
                    let j = choose|j: int| 0 <= j < rest.len() && rest[j] == v[i - 1] && key_of(
                        v[i - 1],
                    ) != key_of(e);
                    assert(acc[j + 1] == rest[j]);
                    assert(0 <= j + 1 < acc.len() && acc[j + 1] == u[i] && key_of(u[i]) != key_of(e));
                }
            }
        }
        let k = choose|k: int| 0 <= k < v.len() && v[k] == e;
        assert(u[k + 1] == e);
    }
}

proof fn lemma_upsert_keeps(acc: Seq<KdlEntry>, e: KdlEntry)
    requires
        key_sorted(acc),
    ensures
        forall|j: int|
            0 <= j < acc.len() && key_of(#[trigger] acc[j]) != key_of(e) ==> exists|i: int|
                0 <= i < upsert(acc, e).len() && upsert(acc, e)[i] == acc[j],
    decreases acc.len(),
{
    let u = upsert(acc, e);
    if acc.len() == 0 {
    } else if key_of(acc[0]) == key_of(e) {
        assert forall|j: int| 0 <= j < acc.len() && key_of(#[trigger] acc[j]) != key_of(e) implies exists|
            i: int,
        | 0 <= i < u.len() && u[i] == acc[j] by {
            assert(u[j] == acc[j]);
        }
    } else if text_lt(key_of(e), key_of(acc[0])) {
        assert forall|j: int| 0 <= j < acc.len() && key_of(#[trigger] acc[j]) != key_of(e) implies exists|
            i: int,
        | 0 <= i < u.len() && u[i] == acc[j] by {
            assert(u[j + 1] == acc[j]);
        }
    } else {
        let rest = acc.drop_first();
        assert forall|i: int, j: int| 0 <= i < j < rest.len() implies text_lt(
            key_of(rest[i]),
            key_of(rest[j]),
        ) by {
            assert(rest[i] == acc[i + 1] && rest[j] == acc[j + 1]);
        }
        lemma_upsert_keeps(rest, e);
        let v = upsert(rest, e);
        assert(u =~= seq![acc[0]] + v);
        assert forall|j: int| 0 <= j < acc.len() && key_of(#[trigger] acc[j]) != key_of(e) implies exists|
            i: int,
        | 0 <= i < u.len() && u[i] == acc[j] by {
            if j == 0 {
                assert(u[0] == acc[0]);
            } else {
                assert(rest[j - 1] == acc[j]);
                assert(key_of(rest[j - 1]) != key_of(e));
                let k = choose|k: int| 0 <= k < v.len() && v[k] == rest[j - 1];
                assert(u[k + 1] == v[k]);
            }
        }
    }
}

proof fn lemma_upsert_sorted(acc: Seq<KdlEntry>, e: KdlEntry)
    requires
        key_sorted(acc),
    ensures
        key_sorted(upsert(acc, e)),
    decreases acc.len(),
{
    let u = upsert(acc, e);
    if acc.len() == 0 {
    } else if key_of(acc[0]) == key_of(e) {
        assert forall|i: int, j: int| 0 <= i < j < u.len() implies text_lt(
            key_of(u[i]),
            key_of(u[j]),
        ) by {
            if i == 0 {
                assert(u[j] == acc[j]);
            } else {
                assert(u[i] == acc[i] && u[j] == acc[j]);
            }
        }
    } else if text_lt(key_of(e), key_of(acc[0])) {
        assert forall|i: int, j: int| 0 <= i < j < u.len() implies text_lt(
            key_of(u[i]),
            key_of(u[j]),
        ) by {
            if i == 0 {
                assert(u[j] == acc[j - 1]);
                if j > 1 {
                    lemma_text_lt_transitive(key_of(e), key_of(acc[0]), key_of(acc[j - 1]));
                }
            } else {
                assert(u[i] == acc[i - 1] && u[j] == acc[j - 1]);
            }
        }
    } else {
        let rest = acc.drop_first();
        assert forall|i: int, j: int| 0 <= i < j < rest.len() implies text_lt(
            key_of(rest[i]),
            key_of(rest[j]),
        ) by {
            assert(rest[i] == acc[i + 1] && rest[j] == acc[j + 1]);
        }
        lemma_upsert_sorted(rest, e);
        lemma_upsert_members(rest, e);
        lemma_text_lt_total(key_of(acc[0]), key_of(e));
        let v = upsert(rest, e);
        assert(u =~= seq![acc[0]] + v);
        assert forall|i: int, j: int| 0 <= i < j < u.len() implies text_lt(
            key_of(u[i]),
            key_of(u[j]),
        ) by {
            if i == 0 {
                assert(u[j] == v[j - 1]);
                assert(upsert_member(rest, e, v[j - 1]));
                if v[j - 1] != e {
                    let k = choose|k: int| 0 <= k < rest.len() && rest[k] == v[j - 1] && key_of(
                        v[j - 1],
                    ) != key_of(e);
                    assert(acc[k + 1] == rest[k]);
                }
            } else {
                assert(u[i] == v[i - 1] && u[j] == v[j - 1]);
            }
        }
    }
}

proof fn lemma_sorted_props_sorted(es: Seq<KdlEntry>)
    ensures
        key_sorted(sorted_props(es)),
    decreases es.len(),
{
    if es.len() > 0 {
        lemma_sorted_props_sorted(es.drop_last());
        if es.last() is Property {
            lemma_upsert_sorted(sorted_props(es.drop_last()), es.last());
        }
    }
}

proof fn lemma_last_of_key_extend(prev: Seq<KdlEntry>, k: int, x: KdlEntry)
    requires
        last_of_key(prev, k),
        x is Property ==> key_of(x) != key_of(prev[k]),
    ensures
        last_of_key(prev.push(x), k),
{
    let es = prev.push(x);
    assert(es[k] == prev[k]);
    assert forall|k2: int| k < k2 < es.len() && (#[trigger] es[k2]) is Property implies key_of(
        es[k2],
    ) != key_of(es[k]) by {
        if k2 < prev.len() {
            assert(es[k2] == prev[k2]);
        }
    }
}

proof fn lemma_sorted_props_drawn(es: Seq<KdlEntry>)
    ensures
        drawn_from(sorted_props(es), es),
    decreases es.len(),
{
    if es.len() > 0 {
        let prev = es.drop_last();
        let last = es.last();
        let acc = sorted_props(prev);
        let sp = sorted_props(es);
        lemma_sorted_props_drawn(prev);
        lemma_sorted_props_sorted(prev);
        assert(es =~= prev.push(last));
        if last is Property {
            assert(sp == upsert(acc, last));
            lemma_upsert_members(acc, last);
            assert forall|i: int| 0 <= i < sp.len() implies drawn(es, #[trigger] sp[i]) by {
                lemma_drawn_one(es, prev, acc, last, sp, i);
            }
            assert(drawn_from(sp, es));
        } else {
            assert(sp == acc);
            assert forall|i: int| 0 <= i < sp.len() implies drawn(es, #[trigger] sp[i]) by {
                assert(drawn(prev, acc[i]));
                let k = choose|k: int| last_of_key(prev, k) && prev[k] == acc[i];
                lemma_last_of_key_extend(prev, k, last);
                assert(es[k] == prev[k]);
                assert(last_of_key(es, k) && es[k] == sp[i]);
            }
            assert(drawn_from(sp, es));
        }
    }
}

proof fn lemma_drawn_one(
    es: Seq<KdlEntry>,
    prev: Seq<KdlEntry>,
    acc: Seq<KdlEntry>,
    last: KdlEntry,
    sp: Seq<KdlEntry>,
    i: int,
)
    requires
        es == prev.push(last),
        last is Property,
        drawn_from(acc, prev),
        0 <= i < sp.len(),
        upsert_member(acc, last, sp[i]),
    ensures
        drawn(es, sp[i]),
{
    if sp[i] == last {
        assert(es[es.len() - 1] == last);
        assert(last_of_key(es, es.len() - 1));
        assert(last_of_key(es, es.len() - 1) && es[es.len() - 1] == sp[i]);
    } else {
        let j = choose|j: int| 0 <= j < acc.len() && acc[j] == sp[i] && key_of(sp[i]) != key_of(
            last,
        );
        assert(drawn(prev, acc[j]));
        let k = choose|k: int| last_of_key(prev, k) && prev[k] == acc[j];
        lemma_last_of_key_extend(prev, k, last);
        assert(es[k] == prev[k]);
        assert(last_of_key(es, k) && es[k] == sp[i]);
    }
}

proof fn lemma_sorted_props_covers(es: Seq<KdlEntry>)
    ensures
        covers(sorted_props(es), es),
    decreases es.len(),
{
    if es.len() > 0 {
        let prev = es.drop_last();
        let last = es.last();
        let acc = sorted_props(prev);
        let sp = sorted_props(es);
        lemma_sorted_props_covers(prev);
        lemma_sorted_props_sorted(prev);
        if last is Property {
            lemma_upsert_members(acc, last);
            lemma_upsert_keeps(acc, last);
            assert forall|k: int| 0 <= k < es.len() && (#[trigger] es[k]) is Property implies exists|
                i: int,
            | 0 <= i < sp.len() && key_of(sp[i]) == key_of(es[k]) by {
                if k == es.len() - 1 {
                    let i = choose|i: int| 0 <= i < sp.len() && sp[i] == last;
                } else {
                    assert(prev[k] == es[k]);
                    let j = choose|j: int| 0 <= j < acc.len() && key_of(acc[j]) == key_of(prev[k]);
                    if key_of(acc[j]) == key_of(last) {
                        let i = choose|i: int| 0 <= i < sp.len() && sp[i] == last;
                    } else {
                        let i = choose|i: int| 0 <= i < sp.len() && sp[i] == acc[j];
                    }
                }
            }
        } else {
            assert forall|k: int| 0 <= k < es.len() && (#[trigger] es[k]) is Property implies exists|
                i: int,
            | 0 <= i < sp.len() && key_of(sp[i]) == key_of(es[k]) by {
                assert(prev[k] == es[k]);
            }
        }
    }
}

/// The properties of a node as normalisation writes them are in strictly
/// increasing order of key; each is a property of the node that no later
/// property shares its key with (of properties with one key, the right-most
/// is kept); and every key of the node's properties is among them.
pub proof fn law_sorted_props(es: Seq<KdlEntry>)
    ensures
        key_sorted(sorted_props(es)),
        drawn_from(sorted_props(es), es),
        covers(sorted_props(es), es),
{
    lemma_sorted_props_sorted(es);
    lemma_sorted_props_drawn(es);
    lemma_sorted_props_covers(es);
}

} // verus!
