//! What converting a KDL document to a format-neutral value makes of
//! numbers written in decimal.
use vstd::prelude::*;
use super::convert::{args_of, entry_value, fields_value, float_type, node_value, ValueV};
use super::number::{number_i64, scan_number, NumberScan};
use super::value::{Entry, Node, Val};

verus! {

/// The value of a decimal number as an argument: its integer value where
/// it has one, and otherwise the float of its text.
pub open spec fn decimal_value(raw: Seq<char>, i: Option<i64>) -> ValueV {
    match i {
        Some(x) => ValueV::Integer(x),
        None => ValueV::Float(raw),
    }
}

/// A number written in decimal (neither `0x`, `0o` nor `0b`), as reading
/// it from text gives it, as an argument without an `f64` annotation,
/// converts to its integer value where it has one and else to the float of
/// its text: it never fails to convert.
pub proof fn law_decimal_argument(raw: Seq<char>, float: bool, ty: Option<Seq<char>>)
    requires
        scan_number(raw, 0) == (NumberScan::Number { end: raw.len() as int, radix: 10, float }),
        ty != Some(float_type()),
    ensures
        entry_value(Entry::Arg { ty, value: Val::Num(raw, number_i64(raw, 10, float)) }) == Some(
            decimal_value(raw, number_i64(raw, 10, float)),
        ),
{
    let ch = raw[0];
    let q: int = if ch == '+' || ch == '-' {
        1
    } else {
        0
    };
    assert(super::number::is_digit_at(raw, q));
    let body = if raw.len() > 0 && (raw[0] == '+' || raw[0] == '-') {
        raw.drop_first()
    } else {
        raw
    };
    if body.len() >= 2 {
        assert(body[0] == raw[q]);
        assert(body[1] == raw[q + 1]);
    }
}

/// A node whose only entry is such a decimal argument, and which has no
/// children, converts to a field named by the node with that value.
pub proof fn law_decimal_node(n: Node, raw: Seq<char>, float: bool, ty: Option<Seq<char>>)
    requires
        scan_number(raw, 0) == (NumberScan::Number { end: raw.len() as int, radix: 10, float }),
        ty != Some(float_type()),
        n.entries == seq![Entry::Arg { ty, value: Val::Num(raw, number_i64(raw, 10, float)) }],
        n.children is None,
    ensures
        node_value(n) == Some(decimal_value(raw, number_i64(raw, 10, float))),
        fields_value(seq![n]) == Some(
            seq![(n.name, decimal_value(raw, number_i64(raw, 10, float)))],
        ),
{
    law_decimal_argument(raw, float, ty);
    let es = n.entries;
    assert(es.drop_last() =~= Seq::<Entry>::empty());
    assert(args_of(es.drop_last()) =~= Seq::<Entry>::empty());
    assert(args_of(es) =~= es);
    let ns = seq![n];
    assert(ns.drop_last() =~= Seq::<Node>::empty());
    assert(ns.last() == n);
    assert(fields_value(ns.drop_last()) == Some(Seq::<(Seq<char>, ValueV)>::empty()));
    let v = decimal_value(raw, number_i64(raw, 10, float));
    assert(Seq::<(Seq<char>, ValueV)>::empty().push((n.name, v)) =~= seq![(n.name, v)]);
}

} // verus!
