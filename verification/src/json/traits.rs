//! Conversions of Rust values to and from JSON values.
use vstd::prelude::*;
use crate::kdl::builder::{int_number, int_text};
use crate::kdl::number_form::{decimal, push_decimal};
use crate::text::string_from_chars;
use super::access::is_mismatch;
use super::error::AccessError;
use super::value::{items_view, lemma_items_view, Json, JsonValue};

verus! {

/// A type whose values have a JSON form.
pub trait ToJson {
    /// The JSON form of the value.
    spec fn json_of(&self) -> Json;

    fn to_json(&self) -> (r: JsonValue)
        ensures
            r@ == self.json_of(),
    ;
}

/// A type whose values can be read from JSON values.
pub trait FromJson: Sized {
    /// Whether `v` can be read.
    spec fn reads(v: Json) -> bool;

    /// Whether `v` reads as `x`.
    spec fn read_as(v: Json, x: Self) -> bool;

    /// Whether `e` is the error of reading `v`.
    spec fn read_error(v: Json, e: AccessError) -> bool;

    fn from_json(value: &JsonValue) -> (r: Result<Self, AccessError>)
        ensures
            match r {
                Ok(x) => Self::reads(value@) && Self::read_as(value@, x),
                Err(e) => !Self::reads(value@) && Self::read_error(value@, e),
            },
    ;
}

fn mismatch(expected: &'static str) -> (r: AccessError)
    ensures
        is_mismatch(r, Seq::empty(), expected@),
{
    AccessError::TypeMismatch { field: String::new(), expected }
}

impl ToJson for bool {
    open spec fn json_of(&self) -> Json {
        Json::Bool(*self)
    }

    fn to_json(&self) -> (r: JsonValue) {
        JsonValue::Bool(*self)
    }
}

impl ToJson for i64 {
    /// An integer is written exactly, in decimal.
    open spec fn json_of(&self) -> Json {
        Json::Number(int_text(*self as int))
    }

    fn to_json(&self) -> (r: JsonValue) {
        JsonValue::Number(int_number(*self).raw)
    }
}

impl ToJson for u64 {
    /// An integer is written exactly, in decimal.
    open spec fn json_of(&self) -> Json {
        Json::Number(decimal(*self as nat))
    }

    fn to_json(&self) -> (r: JsonValue) {
        let mut digits: Vec<char> = Vec::new();
        push_decimal(&mut digits, *self as u128);
        let text = string_from_chars(digits.as_slice(), 0, digits.len());
        proof {
            assert(digits@.subrange(0, digits@.len() as int) =~= digits@);
        }
        JsonValue::Number(text)
    }
}

impl ToJson for String {
    open spec fn json_of(&self) -> Json {
        Json::Str(self@)
    }

    fn to_json(&self) -> (r: JsonValue) {
        JsonValue::String(self.clone())
    }
}

impl ToJson for str {
    open spec fn json_of(&self) -> Json {
        Json::Str(self@)
    }

    fn to_json(&self) -> (r: JsonValue) {
        JsonValue::String(self.to_owned())
    }
}

impl<T: ToJson> ToJson for Vec<T> {
    open spec fn json_of(&self) -> Json {
        Json::Array(self@.map_values(|x: T| x.json_of()))
    }

    fn to_json(&self) -> (r: JsonValue) {
        let mut out: Vec<JsonValue> = Vec::new();
        let mut i: usize = 0;
        while i < self.len()
            invariant
                0 <= i <= self@.len(),
                out@.len() == i,
                forall|k: int| 0 <= k < i ==> (#[trigger] out@[k])@ == self@[k].json_of(),
            decreases self@.len() - i,
        {
            out.push(self[i].to_json());
            i = i + 1;
        }
        proof {
            lemma_items_view(out@);
            assert(items_view(out@) =~= self@.map_values(|x: T| x.json_of()));
        }
        JsonValue::Array(out)
    }
}

impl<T: ToJson> ToJson for Option<T> {
    open spec fn json_of(&self) -> Json {
        match self {
            Some(v) => v.json_of(),
            None => Json::Null,
        }
    }

    fn to_json(&self) -> (r: JsonValue) {
        match self {
            Some(v) => v.to_json(),
            None => JsonValue::Null,
        }
    }
}

impl<T: ToJson> ToJson for Box<T> {
    open spec fn json_of(&self) -> Json {
        (**self).json_of()
    }

    fn to_json(&self) -> (r: JsonValue) {
        (**self).to_json()
    }
}

impl FromJson for bool {
    open spec fn reads(v: Json) -> bool {
        v is Bool
    }

    open spec fn read_as(v: Json, x: bool) -> bool {
        v == Json::Bool(x)
    }

    open spec fn read_error(v: Json, e: AccessError) -> bool {
        is_mismatch(e, Seq::empty(), "bool"@)
    }

    fn from_json(value: &JsonValue) -> (r: Result<bool, AccessError>) {
        match value.as_bool() {
            Some(b) => Ok(b),
            None => Err(mismatch("bool")),
        }
    }
}

impl FromJson for String {
    open spec fn reads(v: Json) -> bool {
        v is Str
    }

    open spec fn read_as(v: Json, x: String) -> bool {
        v == Json::Str(x@)
    }

    open spec fn read_error(v: Json, e: AccessError) -> bool {
        is_mismatch(e, Seq::empty(), "string"@)
    }

    fn from_json(value: &JsonValue) -> (r: Result<String, AccessError>) {
        match value.as_str() {
            Some(s) => Ok(s.to_owned()),
            None => Err(mismatch("string")),
        }
    }
}

/// Every item can be read.
pub open spec fn all_read<T: FromJson>(items: Seq<Json>) -> bool {
    forall|i: int| 0 <= i < items.len() ==> T::reads(#[trigger] items[i])
}

/// The position of the first item that cannot be read (the length when
/// all can).
pub open spec fn first_unreadable<T: FromJson>(items: Seq<Json>) -> int
    decreases items.len(),
{
    if items.len() == 0 {
        0
    } else if !T::reads(items[0]) {
        0
    } else {
        1 + first_unreadable::<T>(items.drop_first())
    }
}

proof fn lemma_first_unreadable<T: FromJson>(items: Seq<Json>, i: int)
    requires
        0 <= i < items.len(),
        !T::reads(items[i]),
        forall|j: int| 0 <= j < i ==> T::reads(#[trigger] items[j]),
    ensures
        first_unreadable::<T>(items) == i,
    decreases i,
{
    if i > 0 {
        assert(T::reads(items[0]));
        let rest = items.drop_first();
        assert forall|j: int| 0 <= j < i - 1 implies T::reads(#[trigger] rest[j]) by {
            assert(rest[j] == items[j + 1]);
        }
        lemma_first_unreadable::<T>(rest, i - 1);
    }
}

impl<T: FromJson> FromJson for Vec<T> {
    /// An array whose items can all be read.
    open spec fn reads(v: Json) -> bool {
        v is Array && all_read::<T>(v->Array_0)
    }

    /// Each item reads as the element at its position.
    open spec fn read_as(v: Json, x: Vec<T>) -> bool {
        v matches Json::Array(items) && x@.len() == items.len() && forall|i: int|
            0 <= i < items.len() ==> T::read_as(#[trigger] items[i], x@[i])
    }

    /// Not an array: a mismatch; else the error of the first item that
    /// cannot be read.
    open spec fn read_error(v: Json, e: AccessError) -> bool {
        if v is Array {
            T::read_error(v->Array_0[first_unreadable::<T>(v->Array_0)], e)
        } else {
            is_mismatch(e, Seq::empty(), "array"@)
        }
    }

    fn from_json(value: &JsonValue) -> (r: Result<Vec<T>, AccessError>) {
        let items = match value.as_array() {
            Some(items) => items,
            None => {
                return Err(mismatch("array"));
            },
        };
        let ghost iv = items_view(items@);
        proof {
            lemma_items_view(items@);
        }
        let mut out: Vec<T> = Vec::new();
        let mut i: usize = 0;
        while i < items.len()
            invariant
                value@ == Json::Array(iv),
                iv.len() == items@.len(),
                forall|k: int| 0 <= k < items@.len() ==> #[trigger] iv[k] == items@[k]@,
                0 <= i <= items@.len(),
                out@.len() == i,
                forall|k: int|
                    0 <= k < i ==> T::reads(#[trigger] iv[k]) && T::read_as(iv[k], out@[k]),
            decreases items@.len() - i,
        {
            match T::from_json(&items[i]) {
                Ok(x) => {
                    out.push(x);
                },
                Err(e) => {
                    proof {
                        assert(!T::reads(iv[i as int]));
                        assert(!all_read::<T>(iv));
                        lemma_first_unreadable::<T>(iv, i as int);
                        assert(Self::read_error(value@, e));
                        assert(!Self::reads(value@));
                    }
                    return Err(e);
                },
            }
            i = i + 1;
        }
        Ok(out)
    }
}

impl<T: FromJson> FromJson for Option<T> {
    /// Null, or a value that `T` reads.
    open spec fn reads(v: Json) -> bool {
        v is Null || T::reads(v)
    }

    open spec fn read_as(v: Json, x: Option<T>) -> bool {
        match x {
            None => v is Null,
            Some(y) => !(v is Null) && T::read_as(v, y),
        }
    }

    open spec fn read_error(v: Json, e: AccessError) -> bool {
        T::read_error(v, e)
    }

    fn from_json(value: &JsonValue) -> (r: Result<Option<T>, AccessError>) {
        if value.is_null() {
            Ok(None)
        } else {
            match T::from_json(value) {
                Ok(x) => Ok(Some(x)),
                Err(e) => Err(e),
            }
        }
    }
}

impl<T: FromJson> FromJson for Box<T> {
    open spec fn reads(v: Json) -> bool {
        T::reads(v)
    }

    open spec fn read_as(v: Json, x: Box<T>) -> bool {
        T::read_as(v, *x)
    }

    open spec fn read_error(v: Json, e: AccessError) -> bool {
        T::read_error(v, e)
    }

    fn from_json(value: &JsonValue) -> (r: Result<Box<T>, AccessError>) {
        match T::from_json(value) {
            Ok(x) => Ok(Box::new(x)),
            Err(e) => Err(e),
        }
    }
}

} // verus!
