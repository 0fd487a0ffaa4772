//! Reading values out of a `JsonValue`: by kind, and by object field.
use vstd::prelude::*;
use crate::text::str_eq;
use super::error::AccessError;
use super::value::JsonValue;

verus! {

/// The position of the first field named `key`, or -1.
pub open spec fn key_index(fields: Seq<(String, JsonValue)>, key: Seq<char>) -> int
    decreases fields.len(),
{
    if fields.len() == 0 {
        -1
    } else {
        let k = key_index(fields.drop_last(), key);
        if k >= 0 {
            k
        } else if fields.last().0@ == key {
            fields.len() - 1
        } else {
            -1
        }
    }
}

/// The value of the first field named `key` of an object; `None` when the
/// value is no object or has no such field.
pub open spec fn lookup(v: JsonValue, key: Seq<char>) -> Option<JsonValue> {
    match v {
        JsonValue::Object(fields) => if key_index(fields@, key) >= 0 {
            Some(fields@[key_index(fields@, key)].1)
        } else {
            None
        },
        _ => None,
    }
}

/// The error of a required field: `NotAnObject`, `MissingField(key)`, or
/// `TypeMismatch { field: key, expected }`.
pub open spec fn is_missing(e: AccessError, key: Seq<char>) -> bool {
    e matches AccessError::MissingField(f) && f@ == key
}

pub open spec fn is_mismatch(e: AccessError, key: Seq<char>, expected: Seq<char>) -> bool {
    e matches AccessError::TypeMismatch { field, expected: x } && field@ == key && x@ == expected
}

/// The error owed when a field is absent: `MissingField(key)` on an object,
/// `NotAnObject` on anything else.
pub open spec fn is_absent_error(v: JsonValue, e: AccessError, key: Seq<char>) -> bool {
    if v is Object {
        is_missing(e, key)
    } else {
        e is NotAnObject
    }
}

/// What an optional accessor owes when the field is absent: `Ok(None)` on an
/// object, `NotAnObject` on anything else.
pub open spec fn is_absent_optional<T>(v: JsonValue, r: Result<Option<T>, AccessError>) -> bool {
    if v is Object {
        r matches Ok(None)
    } else {
        r matches Err(AccessError::NotAnObject)
    }
}

proof fn lemma_key_index(fields: Seq<(String, JsonValue)>, key: Seq<char>)
    ensures
        -1 <= key_index(fields, key) < fields.len(),
        key_index(fields, key) >= 0 ==> fields[key_index(fields, key)].0@ == key,
        key_index(fields, key) >= 0 ==> forall|j: int|
            0 <= j < key_index(fields, key) ==> fields[j].0@ != key,
        key_index(fields, key) < 0 ==> forall|j: int| 0 <= j < fields.len() ==> fields[j].0@ != key,
    decreases fields.len(),
{
    if fields.len() > 0 {
        let p = fields.drop_last();
        lemma_key_index(p, key);
        assert(forall|j: int| 0 <= j < p.len() ==> p[j] == fields[j]);
    }
}

impl JsonValue {
    pub fn is_null(&self) -> (r: bool)
        ensures
            r == (*self is Null),
    {
        matches!(self, JsonValue::Null)
    }

    pub fn is_bool(&self) -> (r: bool)
        ensures
            r == (*self is Bool),
    {
        matches!(self, JsonValue::Bool(_))
    }

    pub fn is_number(&self) -> (r: bool)
        ensures
            r == (*self is Number),
    {
        matches!(self, JsonValue::Number(_))
    }

    pub fn is_string(&self) -> (r: bool)
        ensures
            r == (*self is String),
    {
        matches!(self, JsonValue::String(_))
    }

    pub fn is_array(&self) -> (r: bool)
        ensures
            r == (*self is Array),
    {
        matches!(self, JsonValue::Array(_))
    }

    pub fn is_object(&self) -> (r: bool)
        ensures
            r == (*self is Object),
    {
        matches!(self, JsonValue::Object(_))
    }

    pub fn as_bool(&self) -> (r: Option<bool>)
        ensures
            match *self {
                JsonValue::Bool(b) => r == Some(b),
                _ => r is None,
            },
    {
        match self {
            JsonValue::Bool(value) => Some(*value),
            _ => None,
        }
    }

    /// The literal text of a number.
    pub fn as_number(&self) -> (r: Option<&str>)
        ensures
            match *self {
                JsonValue::Number(t) => r matches Some(x) && x@ == t@,
                _ => r is None,
            },
    {
        match self {
            JsonValue::Number(text) => Some(text.as_str()),
            _ => None,
        }
    }

    pub fn as_str(&self) -> (r: Option<&str>)
        ensures
            match *self {
                JsonValue::String(t) => r matches Some(x) && x@ == t@,
                _ => r is None,
            },
    {
        match self {
            JsonValue::String(value) => Some(value.as_str()),
            _ => None,
        }
    }

    pub fn as_array(&self) -> (r: Option<&[JsonValue]>)
        ensures
            match *self {
                JsonValue::Array(items) => r matches Some(x) && x@ == items@,
                _ => r is None,
            },
    {
        match self {
            JsonValue::Array(values) => Some(values.as_slice()),
            _ => None,
        }
    }

    pub fn as_object(&self) -> (r: Option<&[(String, JsonValue)]>)
        ensures
            match *self {
                JsonValue::Object(fields) => r matches Some(x) && x@ == fields@,
                _ => r is None,
            },
    {
        match self {
            JsonValue::Object(fields) => Some(fields.as_slice()),
            _ => None,
        }
    }

    /// The first field named `key` of an object (a later field of the same
    /// name is not seen); `None` for anything else.
    pub fn get(&self, key: &str) -> (r: Option<&JsonValue>)
        ensures
            match lookup(*self, key@) {
                Some(x) => r matches Some(y) && *y == x,
                None => r is None,
            },
    {
        match self {
            JsonValue::Object(fields) => {
                let mut i: usize = 0;
                while i < fields.len()
                    invariant
                        *self == JsonValue::Object(*fields),
                        0 <= i <= fields@.len(),
                        key_index(fields@.take(i as int), key@) == -1,
                    decreases fields@.len() - i,
                {
                    proof {
                        assert(fields@.take(i + 1).drop_last() =~= fields@.take(i as int));
                        lemma_key_index(fields@.take(i as int), key@);
                    }
                    if str_eq(fields[i].0.as_str(), key) {
                        proof {
                            lemma_prefix_index(fields@, key@, i as int);
                        }
                        return Some(&fields[i].1);
                    }
                    i = i + 1;
                }
                assert(fields@.take(fields@.len() as int) =~= fields@);
                None
            },
            _ => None,
        }
    }

    /// The string in field `key`.
    pub fn required_str(&self, key: &str) -> (r: Result<&str, AccessError>)
        ensures
            match lookup(*self, key@) {
                Some(JsonValue::String(t)) => r matches Ok(x) && x@ == t@,
                Some(_) => r matches Err(e) && is_mismatch(e, key@, "string"@),
                None => r matches Err(e) && is_absent_error(*self, e, key@),
            },
    {
        let value = match self.object_field(key) {
            Ok(value) => value,
            Err(e) => return Err(e),
        };
        match value.as_str() {
            Some(x) => Ok(x),
            None => Err(AccessError::TypeMismatch { field: key.to_owned(), expected: "string" }),
        }
    }

    /// The boolean in field `key`.
    pub fn required_bool(&self, key: &str) -> (r: Result<bool, AccessError>)
        ensures
            match lookup(*self, key@) {
                Some(JsonValue::Bool(b)) => r == Ok::<bool, AccessError>(b),
                Some(_) => r matches Err(e) && is_mismatch(e, key@, "bool"@),
                None => r matches Err(e) && is_absent_error(*self, e, key@),
            },
    {
        let value = match self.object_field(key) {
            Ok(value) => value,
            Err(e) => return Err(e),
        };
        match value.as_bool() {
            Some(x) => Ok(x),
            None => Err(AccessError::TypeMismatch { field: key.to_owned(), expected: "bool" }),
        }
    }

    /// The literal text of the number in field `key`.
    pub fn required_number(&self, key: &str) -> (r: Result<&str, AccessError>)
        ensures
            match lookup(*self, key@) {
                Some(JsonValue::Number(t)) => r matches Ok(x) && x@ == t@,
                Some(_) => r matches Err(e) && is_mismatch(e, key@, "number"@),
                None => r matches Err(e) && is_absent_error(*self, e, key@),
            },
    {
        let value = match self.object_field(key) {
            Ok(value) => value,
            Err(e) => return Err(e),
        };
        match value.as_number() {
            Some(x) => Ok(x),
            None => Err(AccessError::TypeMismatch { field: key.to_owned(), expected: "number" }),
        }
    }

    /// The items of the array in field `key`.
    pub fn required_array(&self, key: &str) -> (r: Result<&[JsonValue], AccessError>)
        ensures
            match lookup(*self, key@) {
                Some(JsonValue::Array(items)) => r matches Ok(x) && x@ == items@,
                Some(_) => r matches Err(e) && is_mismatch(e, key@, "array"@),
                None => r matches Err(e) && is_absent_error(*self, e, key@),
            },
    {
        let value = match self.object_field(key) {
            Ok(value) => value,
            Err(e) => return Err(e),
        };
        match value.as_array() {
            Some(x) => Ok(x),
            None => Err(AccessError::TypeMismatch { field: key.to_owned(), expected: "array" }),
        }
    }

    /// The fields of the object in field `key`.
    pub fn required_object(&self, key: &str) -> (r: Result<&[(String, JsonValue)], AccessError>)
        ensures
            match lookup(*self, key@) {
                Some(JsonValue::Object(fields)) => r matches Ok(x) && x@ == fields@,
                Some(_) => r matches Err(e) && is_mismatch(e, key@, "object"@),
                None => r matches Err(e) && is_absent_error(*self, e, key@),
            },
    {
        let value = match self.object_field(key) {
            Ok(value) => value,
            Err(e) => return Err(e),
        };
        match value.as_object() {
            Some(x) => Ok(x),
            None => Err(AccessError::TypeMismatch { field: key.to_owned(), expected: "object" }),
        }
    }

    /// The string in field `key`; `None` when the field is absent or null.
    pub fn optional_str(&self, key: &str) -> (r: Result<Option<&str>, AccessError>)
        ensures
            match lookup(*self, key@) {
                Some(JsonValue::String(t)) => r matches Ok(Some(x)) && x@ == t@,
                Some(JsonValue::Null) => r matches Ok(None),
                Some(_) => r matches Err(e) && is_mismatch(e, key@, "string"@),
                None => is_absent_optional(*self, r),
            },
    {
        let value = match self.object_field_optional(key) {
            Ok(Some(value)) => value,
            Ok(None) => return Ok(None),
            Err(e) => return Err(e),
        };
        if value.is_null() {
            return Ok(None);
        }
        match value.as_str() {
            Some(x) => Ok(Some(x)),
            None => Err(AccessError::TypeMismatch { field: key.to_owned(), expected: "string" }),
        }
    }

    /// The boolean in field `key`; `None` when the field is absent or null.
    pub fn optional_bool(&self, key: &str) -> (r: Result<Option<bool>, AccessError>)
        ensures
            match lookup(*self, key@) {
                Some(JsonValue::Bool(b)) => r matches Ok(Some(x)) && x == b,
                Some(JsonValue::Null) => r matches Ok(None),
                Some(_) => r matches Err(e) && is_mismatch(e, key@, "bool"@),
                None => is_absent_optional(*self, r),
            },
    {
        let value = match self.object_field_optional(key) {
            Ok(Some(value)) => value,
            Ok(None) => return Ok(None),
            Err(e) => return Err(e),
        };
        if value.is_null() {
            return Ok(None);
        }
        match value.as_bool() {
            Some(x) => Ok(Some(x)),
            None => Err(AccessError::TypeMismatch { field: key.to_owned(), expected: "bool" }),
        }
    }

    /// The literal text of the number in field `key`; `None` when the field
    /// is absent or null.
    pub fn optional_number(&self, key: &str) -> (r: Result<Option<&str>, AccessError>)
        ensures
            match lookup(*self, key@) {
                Some(JsonValue::Number(t)) => r matches Ok(Some(x)) && x@ == t@,
                Some(JsonValue::Null) => r matches Ok(None),
                Some(_) => r matches Err(e) && is_mismatch(e, key@, "number"@),
                None => is_absent_optional(*self, r),
            },
    {
        let value = match self.object_field_optional(key) {
            Ok(Some(value)) => value,
            Ok(None) => return Ok(None),
            Err(e) => return Err(e),
        };
        if value.is_null() {
            return Ok(None);
        }
        match value.as_number() {
            Some(x) => Ok(Some(x)),
            None => Err(AccessError::TypeMismatch { field: key.to_owned(), expected: "number" }),
        }
    }

    /// The items of the array in field `key`; `None` when the field is absent
    /// or null.
    pub fn optional_array(&self, key: &str) -> (r: Result<Option<&[JsonValue]>, AccessError>)
        ensures
            match lookup(*self, key@) {
                Some(JsonValue::Array(items)) => r matches Ok(Some(x)) && x@ == items@,
                Some(JsonValue::Null) => r matches Ok(None),
                Some(_) => r matches Err(e) && is_mismatch(e, key@, "array"@),
                None => is_absent_optional(*self, r),
            },
    {
        let value = match self.object_field_optional(key) {
            Ok(Some(value)) => value,
            Ok(None) => return Ok(None),
            Err(e) => return Err(e),
        };
        if value.is_null() {
            return Ok(None);
        }
        match value.as_array() {
            Some(x) => Ok(Some(x)),
            None => Err(AccessError::TypeMismatch { field: key.to_owned(), expected: "array" }),
        }
    }

    fn object_field_optional(&self, key: &str) -> (r: Result<Option<&JsonValue>, AccessError>)
        ensures
            match *self {
                JsonValue::Object(_) => match lookup(*self, key@) {
                    Some(x) => r matches Ok(Some(y)) && *y == x,
                    None => r matches Ok(None),
                },
                _ => r matches Err(AccessError::NotAnObject),
            },
    {
        match self {
            JsonValue::Object(_) => Ok(self.get(key)),
            _ => Err(AccessError::NotAnObject),
        }
    }

    fn object_field(&self, key: &str) -> (r: Result<&JsonValue, AccessError>)
        ensures
            match *self {
                JsonValue::Object(_) => match lookup(*self, key@) {
                    Some(x) => r matches Ok(y) && *y == x,
                    None => r matches Err(e) && is_missing(e, key@),
                },
                _ => r matches Err(AccessError::NotAnObject),
            },
    {
        match self.object_field_optional(key) {
            Ok(Some(value)) => Ok(value),
            Ok(None) => Err(AccessError::MissingField(key.to_owned())),
            Err(e) => Err(e),
        }
    }
}

proof fn lemma_prefix_index(fields: Seq<(String, JsonValue)>, key: Seq<char>, i: int)
    requires
        0 <= i < fields.len(),
        key_index(fields.take(i), key) == -1,
        fields[i].0@ == key,
    ensures
        key_index(fields, key) == i,
    decreases fields.len(),
{
    if i < fields.len() - 1 {
        assert(fields.drop_last().take(i) =~= fields.take(i));
        lemma_prefix_index(fields.drop_last(), key, i);
    } else {
        assert(fields.drop_last() =~= fields.take(i));
    }
}

} // verus!
