use vstd::prelude::*;
use vstd::utf8::encode_scalar;
use crate::text::str_chars;
use super::error::EncodeError;
use super::parse::number_length;
use super::spec::number_end;
use super::value::{Json, JsonValue, items_view, fields_view, json_view, lemma_items_view, lemma_fields_view};

verus! {

/// The characters of an ASCII text as bytes.
pub open spec fn ascii_bytes(t: Seq<char>) -> Seq<u8> {
    t.map_values(|c: char| (c as u32) as u8)
}

/// A number text that can be written as it is: ASCII, and exactly one JSON
/// number literal.
pub open spec fn is_number_text(t: Seq<char>) -> bool {
    (forall|i: int| 0 <= i < t.len() ==> (#[trigger] t[i] as u32) < 0x80) && number_end(
        ascii_bytes(t),
        0,
    ) == Ok::<int, super::error::ParseError>(t.len() as int)
}

/// Upper-case hex digit for a value below 16.
pub open spec fn hex_digit_byte(v: u32) -> u8 {
    if v < 10 {
        (0x30 + v) as u8
    } else {
        (0x41 + v - 10) as u8
    }
}

/// How one character is written inside a string literal.
pub open spec fn escape_char(c: char) -> Seq<u8> {
    if c == '"' {
        seq![0x5Cu8, 0x22u8]
    } else if c == '\\' {
        seq![0x5Cu8, 0x5Cu8]
    } else if c == '\u{0008}' {
        seq![0x5Cu8, 0x62u8]
    } else if c == '\u{000C}' {
        seq![0x5Cu8, 0x66u8]
    } else if c == '\n' {
        seq![0x5Cu8, 0x6Eu8]
    } else if c == '\r' {
        seq![0x5Cu8, 0x72u8]
    } else if c == '\t' {
        seq![0x5Cu8, 0x74u8]
    } else if (c as u32) < 0x20 {
        seq![
            0x5Cu8,
            0x75u8,
            0x30u8,
            0x30u8,
            hex_digit_byte(((c as u32) >> 4u32) & 0x0F),
            hex_digit_byte((c as u32) & 0x0F),
        ]
    } else {
        encode_scalar(c as u32)
    }
}

/// The escaped characters of a text.
pub open spec fn escape_text(s: Seq<char>) -> Seq<u8>
    decreases s.len(),
{
    if s.len() == 0 {
        Seq::empty()
    } else {
        escape_text(s.drop_last()) + escape_char(s.last())
    }
}

/// A text as a string literal.
pub open spec fn quoted(s: Seq<char>) -> Seq<u8> {
    seq![0x22u8] + escape_text(s) + seq![0x22u8]
}

/// The minimal encoding of a value; `None` when one of its numbers is not a
/// finite JSON number.
pub open spec fn encode_json(v: Json) -> Option<Seq<u8>>
    decreases v,
{
    match v {
        Json::Null => Some(seq![0x6Eu8, 0x75u8, 0x6Cu8, 0x6Cu8]),
        Json::Bool(b) => if b {
            Some(seq![0x74u8, 0x72u8, 0x75u8, 0x65u8])
        } else {
            Some(seq![0x66u8, 0x61u8, 0x6Cu8, 0x73u8, 0x65u8])
        },
        Json::Number(t) => if is_number_text(t) {
            Some(ascii_bytes(t))
        } else {
            None
        },
        Json::Str(s) => Some(quoted(s)),
        Json::Array(items) => match encode_items(items) {
            Some(b) => Some(seq![0x5Bu8] + b + seq![0x5Du8]),
            None => None,
        },
        Json::Object(fields) => match encode_members(fields) {
            Some(b) => Some(seq![0x7Bu8] + b + seq![0x7Du8]),
            None => None,
        },
    }
}

/// Array elements separated by commas.
pub open spec fn encode_items(items: Seq<Json>) -> Option<Seq<u8>>
    decreases items,
{
    if items.len() == 0 {
        Some(Seq::empty())
    } else {
        match (encode_items(items.drop_last()), encode_json(items.last())) {
            (Some(a), Some(b)) => if items.len() == 1 {
                Some(b)
            } else {
                Some(a.push(0x2Cu8) + b)
            },
            _ => None,
        }
    }
}

/// Object members (`"key":value`) separated by commas.
pub open spec fn encode_members(fields: Seq<(Seq<char>, Json)>) -> Option<Seq<u8>>
    decreases fields,
{
    if fields.len() == 0 {
        Some(Seq::empty())
    } else {
        match (encode_members(fields.drop_last()), encode_json(fields.last().1)) {
            (Some(a), Some(b)) => {
                let m = quoted(fields.last().0).push(0x3Au8) + b;
                if fields.len() == 1 {
                    Some(m)
                } else {
                    Some(a.push(0x2Cu8) + m)
                }
            },
            _ => None,
        }
    }
}

pub proof fn lemma_encode_items_some(items: Seq<Json>, i: int)
    requires
        0 <= i < items.len(),
        encode_items(items) is Some,
    ensures
        encode_json(items[i]) is Some,
    decreases items.len(),
{
    if i < items.len() - 1 {
        lemma_encode_items_some(items.drop_last(), i);
    }
}

pub proof fn lemma_encode_members_some(fields: Seq<(Seq<char>, Json)>, i: int)
    requires
        0 <= i < fields.len(),
        encode_members(fields) is Some,
    ensures
        encode_json(fields[i].1) is Some,
    decreases fields.len(),
{
    if i < fields.len() - 1 {
        lemma_encode_members_some(fields.drop_last(), i);
    }
}

/// Encodes a `JsonValue` into its minimal JSON byte representation.
pub fn encode(value: &JsonValue) -> (r: Result<Vec<u8>, EncodeError>)
    ensures
        match encode_json(value@) {
            Some(b) => r matches Ok(out) && out@ == b,
            None => r == Err::<Vec<u8>, EncodeError>(EncodeError::NonFiniteNumber),
        },
{
    let mut output: Vec<u8> = Vec::new();
    match encode_value(value, &mut output) {
        Ok(()) => {
            assert(output@ =~= Seq::<u8>::empty() + output@);
            Ok(output)
        },
        Err(e) => Err(e),
    }
}

fn push_all(output: &mut Vec<u8>, bytes: &[u8])
    ensures
        final(output)@ == old(output)@ + bytes@,
{
    let mut i: usize = 0;
    while i < bytes.len()
        invariant
            0 <= i <= bytes@.len(),
            output@ == old(output)@ + bytes@.take(i as int),
        decreases bytes@.len() - i,
    {
        output.push(bytes[i]);
        i = i + 1;
        assert(output@ =~= old(output)@ + bytes@.take(i as int));
    }
    assert(bytes@.take(bytes@.len() as int) =~= bytes@);
}

fn encode_value(value: &JsonValue, output: &mut Vec<u8>) -> (r: Result<(), EncodeError>)
    ensures
        match encode_json(value@) {
            Some(b) => r is Ok && final(output)@ == old(output)@ + b,
            None => r == Err::<(), EncodeError>(EncodeError::NonFiniteNumber),
        },
    decreases value,
{
    match value {
        JsonValue::Null => {
            let lit: [u8; 4] = [0x6E, 0x75, 0x6C, 0x6C];
            assert(lit@ =~= seq![0x6Eu8, 0x75u8, 0x6Cu8, 0x6Cu8]);
            push_all(output, &lit);
        },
        JsonValue::Bool(b) => {
            if *b {
                let lit: [u8; 4] = [0x74, 0x72, 0x75, 0x65];
                assert(lit@ =~= seq![0x74u8, 0x72u8, 0x75u8, 0x65u8]);
                push_all(output, &lit);
            } else {
                let lit: [u8; 5] = [0x66, 0x61, 0x6C, 0x73, 0x65];
                assert(lit@ =~= seq![0x66u8, 0x61u8, 0x6Cu8, 0x73u8, 0x65u8]);
                push_all(output, &lit);
            }
        },
        JsonValue::Number(text) => {
            encode_number(text, output)?;
        },
        JsonValue::String(text) => {
            encode_string(text, output);
        },
        JsonValue::Array(items) => {
            proof {
                assert(decreases_to!(value => items));
            }
            encode_array(items, output)?;
        },
        JsonValue::Object(fields) => {
            proof {
                assert(decreases_to!(value => fields));
            }
            encode_object(fields, output)?;
        },
    }
    Ok(())
}

fn encode_array(items: &Vec<JsonValue>, output: &mut Vec<u8>) -> (r: Result<(), EncodeError>)
    ensures
        match encode_json(Json::Array(items_view(items@))) {
            Some(b) => r is Ok && final(output)@ == old(output)@ + b,
            None => r == Err::<(), EncodeError>(EncodeError::NonFiniteNumber),
        },
    decreases items,
{
        let ghost start = output@;
        let ghost iv = items_view(items@);
        proof {
            lemma_items_view(items@);
            assert(iv.take(0) =~= Seq::<Json>::empty());
        }
        output.push(0x5B);
        let mut index: usize = 0;
        while index < items.len()
            invariant
                iv == items_view(items@),
                iv.len() == items@.len(),
                forall|i: int| 0 <= i < items@.len() ==> #[trigger] iv[i] == json_view(&items@[i]),
                0 <= index <= items@.len(),
                encode_items(iv.take(index as int)) matches Some(b) && output@ == start.push(
                    0x5Bu8,
                ) + b,
            decreases items@.len() - index,
        {
            let ghost before = output@;
            if index > 0 {
                output.push(0x2C);
            }
            let item = &items[index];
            proof {
                assert(iv.take(index + 1).drop_last() =~= iv.take(index as int));
                assert(iv.take(index + 1).last() == iv[index as int]);
            }
            proof {
                assert(decreases_to!(items => items@[index as int]));
            }
            match encode_value(item, output) {
                Ok(()) => {},
                Err(e) => {
                    proof {
                        if encode_items(iv) is Some {
                            lemma_encode_items_some(iv, index as int);
                        }
                    }
                    return Err(e);
                },
            }
            index = index + 1;
            proof {
                let b = encode_items(iv.take(index as int)).unwrap();
                assert(output@ =~= start.push(0x5Bu8) + b);
            }
        }
        proof {
            assert(iv.take(items@.len() as int) =~= iv);
        }
        output.push(0x5D);
        proof {
            let b = encode_items(iv).unwrap();
            assert(output@ =~= start + (seq![0x5Bu8] + b + seq![0x5Du8]));
        }
        Ok(())
}

fn encode_object(fields: &Vec<(String, JsonValue)>, output: &mut Vec<u8>) -> (r: Result<(), EncodeError>)
    ensures
        match encode_json(Json::Object(fields_view(fields@))) {
            Some(b) => r is Ok && final(output)@ == old(output)@ + b,
            None => r == Err::<(), EncodeError>(EncodeError::NonFiniteNumber),
        },
    decreases fields,
{
        let ghost start = output@;
        let ghost fv = fields_view(fields@);
        proof {
            lemma_fields_view(fields@);
            assert(fv.take(0) =~= Seq::<(Seq<char>, Json)>::empty());
        }
        output.push(0x7B);
        let mut index: usize = 0;
        while index < fields.len()
            invariant
                fv == fields_view(fields@),
                fv.len() == fields@.len(),
                forall|i: int|
                    0 <= i < fields@.len() ==> #[trigger] fv[i] == (
                        fields@[i].0@,
                        json_view(&fields@[i].1),
                    ),
                0 <= index <= fields@.len(),
                encode_members(fv.take(index as int)) matches Some(b) && output@ == start.push(
                    0x7Bu8,
                ) + b,
            decreases fields@.len() - index,
        {
            let ghost before = output@;
            if index > 0 {
                output.push(0x2C);
            }
            let field = &fields[index];
            let key = &field.0;
            let value = &field.1;
            proof {
                assert(fv.take(index + 1).drop_last() =~= fv.take(index as int));
                assert(fv.take(index + 1).last() == fv[index as int]);
            }
            let ghost mid = output@;
            encode_string(key, output);
            output.push(0x3A);
            let ghost mid2 = output@;
            proof {
                assert(decreases_to!(fields => fields@[index as int].1));
            }
            match encode_value(value, output) {
                Ok(()) => {},
                Err(e) => {
                    proof {
                        if encode_members(fv) is Some {
                            lemma_encode_members_some(fv, index as int);
                        }
                    }
                    return Err(e);
                },
            }
            index = index + 1;
            proof {
                let b = encode_members(fv.take(index as int)).unwrap();
                assert(output@ =~= start.push(0x7Bu8) + b);
            }
        }
        proof {
            assert(fv.take(fields@.len() as int) =~= fv);
        }
        output.push(0x7D);
        proof {
            let b = encode_members(fv).unwrap();
            assert(output@ =~= start + (seq![0x7Bu8] + b + seq![0x7Du8]));
        }
        Ok(())
}

fn encode_number(text: &String, output: &mut Vec<u8>) -> (r: Result<(), EncodeError>)
    ensures
        is_number_text(text@) ==> r is Ok && final(output)@ == old(output)@ + ascii_bytes(text@),
        !is_number_text(text@) ==> r == Err::<(), EncodeError>(EncodeError::NonFiniteNumber),
{
    let chars = str_chars(text.as_str());
    let mut bytes: Vec<u8> = Vec::new();
    let mut i: usize = 0;
    while i < chars.len()
        invariant
            chars@ == text@,
            0 <= i <= chars@.len(),
            bytes@ == ascii_bytes(chars@.take(i as int)),
            forall|j: int| 0 <= j < i ==> (#[trigger] chars@[j] as u32) < 0x80,
        decreases chars@.len() - i,
    {
        let c = chars[i];
        if (c as u32) >= 0x80 {
            return Err(EncodeError::NonFiniteNumber);
        }
        bytes.push((c as u32) as u8);
        i = i + 1;
        assert(bytes@ =~= ascii_bytes(chars@.take(i as int)));
    }
    assert(chars@.take(chars@.len() as int) =~= chars@);
    match number_length(bytes.as_slice()) {
        Some(n) => {
            if n == bytes.len() {
                push_all(output, bytes.as_slice());
                Ok(())
            } else {
                Err(EncodeError::NonFiniteNumber)
            }
        },
        None => Err(EncodeError::NonFiniteNumber),
    }
}

fn hex_digit(value: u32) -> (r: u8)
    requires
        value < 16,
    ensures
        r == hex_digit_byte(value),
{
    if value < 10 {
        (0x30 + value) as u8
    } else {
        (0x41 + (value - 10)) as u8
    }
}

fn encode_string(text: &String, output: &mut Vec<u8>)
    ensures
        final(output)@ == old(output)@ + quoted(text@),
{
    let ghost start = output@;
    output.push(0x22);
    let chars = str_chars(text.as_str());
    let mut i: usize = 0;
    while i < chars.len()
        invariant
            chars@ == text@,
            0 <= i <= chars@.len(),
            output@ == start.push(0x22u8) + escape_text(chars@.take(i as int)),
        decreases chars@.len() - i,
    {
        let ch = chars[i];
        let ghost before = output@;
        encode_char(ch, output);
        assert(chars@.take(i + 1).drop_last() =~= chars@.take(i as int));
        i = i + 1;
        assert(output@ =~= start.push(0x22u8) + escape_text(chars@.take(i as int)));
    }
    assert(chars@.take(chars@.len() as int) =~= chars@);
    output.push(0x22);
    assert(output@ =~= start + quoted(text@));
}

fn encode_char(ch: char, output: &mut Vec<u8>)
    ensures
        final(output)@ == old(output)@ + escape_char(ch),
{
    let code = ch as u32;
    if ch == '"' {
        output.push(0x5C);
        output.push(0x22);
    } else if ch == '\\' {
        output.push(0x5C);
        output.push(0x5C);
    } else if ch == '\u{0008}' {
        output.push(0x5C);
        output.push(0x62);
    } else if ch == '\u{000C}' {
        output.push(0x5C);
        output.push(0x66);
    } else if ch == '\n' {
        output.push(0x5C);
        output.push(0x6E);
    } else if ch == '\r' {
        output.push(0x5C);
        output.push(0x72);
    } else if ch == '\t' {
        output.push(0x5C);
        output.push(0x74);
    } else if code < 0x20 {
        encode_control_escape(code, output);
    } else if code < 0x80 {
        output.push((code & 0x7F) as u8);
    } else if code < 0x800 {
        output.push(0xC0 | ((code >> 6u32) & 0x1F) as u8);
        output.push(0x80 | (code & 0x3F) as u8);
    } else if code < 0x10000 {
        output.push(0xE0 | ((code >> 12u32) & 0x0F) as u8);
        output.push(0x80 | ((code >> 6u32) & 0x3F) as u8);
        output.push(0x80 | (code & 0x3F) as u8);
    } else {
        output.push(0xF0 | ((code >> 18u32) & 0x7) as u8);
        output.push(0x80 | ((code >> 12u32) & 0x3F) as u8);
        output.push(0x80 | ((code >> 6u32) & 0x3F) as u8);
        output.push(0x80 | (code & 0x3F) as u8);
    }
    proof {
        vstd::utf8::char_is_scalar(ch);
    }
    assert(final(output)@ =~= old(output)@ + escape_char(ch));
}

fn encode_control_escape(code: u32, output: &mut Vec<u8>)
    requires
        code < 0x20,
    ensures
        final(output)@ == old(output)@ + seq![
            0x5Cu8,
            0x75u8,
            0x30u8,
            0x30u8,
            hex_digit_byte((code >> 4u32) & 0x0F),
            hex_digit_byte(code & 0x0F),
        ],
{
    output.push(0x5C);
    output.push(0x75);
    output.push(0x30);
    output.push(0x30);
    assert((code >> 4u32) & 0x0F < 16) by (bit_vector);
    assert(code & 0x0F < 16) by (bit_vector);
    output.push(hex_digit((code >> 4u32) & 0x0F));
    output.push(hex_digit(code & 0x0F));
}

} // verus!
