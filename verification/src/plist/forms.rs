//! The two forms of a property list: nested XML-like tags, and lines of
//! `key = value` with `- item` list lines.
use vstd::prelude::*;
use crate::kdl_ast::nsid::split_on;
use crate::text::{str_chars, str_eq, string_from_chars};
use super::chars::{
    byte_len, byte_offset, char_front, find_char, find_chars, find_seq, lemma_byte_len_subrange,
    lemma_trim_counts, lemma_trim_lengths, slice_chars, trim, trim_char, trim_char_chars,
    trim_chars, trim_end, trim_end_char, trim_end_char_chars, trim_end_chars, trim_start,
    trim_start_chars, white_back, white_front,
};
use super::scalar::{
    lemma_plist_items_push, parse_scalar, plist_fields_view, plist_items_view, scalar_of, split_chars,
    Plist, PlistValue,
};

verus! {

/// An error of reading a property list: where, and what.
#[derive(Debug, Clone, PartialEq, Eq)]
pub struct ParseError {
    pub position: usize,
    pub message: String,
}

impl ParseError {
    /// An error at `position` with `message`.
    pub fn new(position: usize, message: &str) -> (r: Self)
        ensures
            r.position == position,
            r.message@ == message@,
    {
        ParseError { position, message: message.to_owned() }
    }
}

/// `p` without a carriage return at its end.
pub open spec fn strip_cr(p: Seq<char>) -> Seq<char> {
    if p.len() > 0 && p.last() == '\r' {
        p.drop_last()
    } else {
        p
    }
}

/// The lines of `s` as `str::lines` gives them: split at each `\n`, each
/// line ended by one without a `\r` before it, and no empty last line.
pub open spec fn lines_of(s: Seq<char>) -> Seq<Seq<char>> {
    let pieces = split_on(s, '\n');
    let full = pieces.drop_last().map_values(|p: Seq<char>| strip_cr(p));
    if pieces.last().len() > 0 {
        full.push(pieces.last())
    } else {
        full
    }
}

/// The position of the last field named `key`, or -1.
pub open spec fn last_key(fields: Seq<(Seq<char>, Plist)>, key: Seq<char>) -> int
    decreases fields.len(),
{
    if fields.len() == 0 {
        -1
    } else if fields.last().0 == key {
        fields.len() - 1
    } else {
        last_key(fields.drop_last(), key)
    }
}

/// `value` added to the list of the last field named `key`; a new field
/// with a one-item list when there is none or it holds no list.
pub open spec fn push_item(fields: Seq<(Seq<char>, Plist)>, key: Seq<char>, value: Plist) -> Seq<
    (Seq<char>, Plist),
> {
    let j = last_key(fields, key);
    if j >= 0 && fields[j].1 is List {
        fields.update(j, (key, Plist::List(fields[j].1->List_0.push(value))))
    } else {
        fields.push((key, Plist::List(seq![value])))
    }
}

/// The state of reading lines: the fields so far and the key of the last
/// key line.
pub struct LinesState {
    pub fields: Seq<(Seq<char>, Plist)>,
    pub current: Option<Seq<char>>,
}

pub open spec fn items_word() -> Seq<char> {
    seq!['i', 't', 'e', 'm', 's']
}

/// One line read: blank lines and `#` comments are passed over; `- x` adds
/// `x` to the list of the last key (`items` before any); `k = v` adds a
/// field, an empty list when `v` is blank. Anything else is an error.
pub open spec fn line_step(st: LinesState, raw: Seq<char>, sep: Seq<char>) -> Option<LinesState> {
    let line = trim(raw);
    if line.len() == 0 || line[0] == '#' {
        Some(st)
    } else if line.len() >= 2 && line[0] == '-' && line[1] == ' ' {
        let key = match st.current {
            Some(k) => k,
            None => items_word(),
        };
        Some(
            LinesState {
                fields: push_item(st.fields, key, scalar_of(line.skip(2))),
                current: st.current,
            },
        )
    } else {
        match find_seq(line, sep) {
            None => None,
            Some(k) => {
                let key = trim_char(trim_char(trim(line.take(k)), '['), ']');
                let value = trim(line.skip(k + sep.len()));
                Some(
                    LinesState {
                        fields: st.fields.push(
                            (
                                key,
                                if value.len() == 0 {
                                    Plist::List(Seq::empty())
                                } else {
                                    scalar_of(value)
                                },
                            ),
                        ),
                        current: Some(key),
                    },
                )
            },
        }
    }
}

/// Lines read one after the other: the state, or the number of the first
/// line that could not be read.
pub open spec fn lines_read(ls: Seq<Seq<char>>, sep: Seq<char>) -> Result<LinesState, nat>
    decreases ls.len(),
{
    if ls.len() == 0 {
        Ok(LinesState { fields: Seq::empty(), current: None })
    } else {
        match lines_read(ls.drop_last(), sep) {
            Err(n) => Err(n),
            Ok(st) => match line_step(st, ls.last(), sep) {
                Some(st2) => Ok(st2),
                None => Err((ls.len() - 1) as nat),
            },
        }
    }
}

/// The lines of `s`.
pub fn lines(s: &[char]) -> (r: Vec<Vec<char>>)
    ensures
        r@.len() == lines_of(s@).len(),
        forall|i: int| 0 <= i < r@.len() ==> (#[trigger] r@[i])@ == lines_of(s@)[i],
{
    let pieces = split_chars(s, '\n');
    let ghost ps = split_on(s@, '\n');
    proof {
        crate::kdl_ast::nsid::lemma_split_on_nonempty(s@, '\n');
    }
    let n = pieces.len();
    let mut out: Vec<Vec<char>> = Vec::new();
    let mut i: usize = 0;
    while i + 1 < n
        invariant
            n == pieces@.len(),
            n == ps.len(),
            n >= 1,
            ps == split_on(s@, '\n'),
            forall|q: int| 0 <= q < n ==> (#[trigger] pieces@[q])@ == ps[q],
            0 <= i <= n - 1,
            out@.len() == i,
            forall|q: int| 0 <= q < i ==> (#[trigger] out@[q])@ == strip_cr(ps[q]),
        decreases n - i,
    {
        let p = &pieces[i];
        let m = p.len();
        let line = if m > 0 && p[m - 1] == '\r' {
            slice_chars(p.as_slice(), 0, m - 1)
        } else {
            slice_chars(p.as_slice(), 0, m)
        };
        proof {
            assert(p@ == ps[i as int]);
            if m > 0 && p@[m - 1] == '\r' {
                assert(line@ =~= p@.drop_last());
            } else {
                assert(line@ =~= p@);
            }
        }
        out.push(line);
        i = i + 1;
    }
    let last = &pieces[n - 1];
    if last.len() > 0 {
        out.push(slice_chars(last.as_slice(), 0, last.len()));
        proof {
            assert(out@[n - 1]@ =~= ps[n - 1]);
        }
    }
    proof {
        let full = ps.drop_last().map_values(|p: Seq<char>| strip_cr(p));
        assert forall|q: int| 0 <= q < out@.len() implies (#[trigger] out@[q])@ == lines_of(s@)[q] by {
            if q < n - 1 {
                assert(full[q] == strip_cr(ps[q]));
            }
        }
    }
    out
}

fn last_key_exec(fields: &Vec<(String, PlistValue)>, key: &str) -> (r: Option<usize>)
    ensures
        match r {
            Some(j) => j < fields@.len() && last_key(plist_fields_view(fields@), key@) == j,
            None => last_key(plist_fields_view(fields@), key@) == -1,
        },
{
    let ghost fv = plist_fields_view(fields@);
    proof {
        super::scalar::lemma_plist_fields_view(fields@);
    }
    let mut k: usize = fields.len();
    proof {
        assert(fv.take(fields@.len() as int) =~= fv);
    }
    while k > 0
        invariant
            fv == plist_fields_view(fields@),
            fv.len() == fields@.len(),
            forall|q: int| 0 <= q < fields@.len() ==> #[trigger] fv[q] == (fields@[q].0@, fields@[q].1@),
            0 <= k <= fields@.len(),
            last_key(fv, key@) == last_key(fv.take(k as int), key@),
        decreases k,
    {
        proof {
            assert(fv.take(k as int).drop_last() =~= fv.take(k - 1));
            assert(fv.take(k as int).last() == fv[k - 1]);
        }
        if str_eq(fields[k - 1].0.as_str(), key) {
            return Some(k - 1);
        }
        k = k - 1;
    }
    proof {
        assert(fv.take(0) =~= Seq::<(Seq<char>, Plist)>::empty());
    }
    None
}

/// Adds `value` to the list of the last field named `key`, or adds a field
/// with a one-item list.
fn push_list_item(fields: &mut Vec<(String, PlistValue)>, key: &str, value: PlistValue)
    ensures
        plist_fields_view(final(fields)@) == push_item(plist_fields_view(old(fields)@), key@, value@),
{
    let ghost fv = plist_fields_view(fields@);
    proof {
        super::scalar::lemma_plist_fields_view(fields@);
    }
    match last_key_exec(fields, key) {
        Some(j) => {
            let is_list = match &fields[j].1 {
                PlistValue::List(_) => true,
                _ => false,
            };
            if is_list {
                let (k, v) = fields.remove(j);
                let mut items = match v {
                    PlistValue::List(items) => items,
                    _ => Vec::new(),
                };
                let ghost before = items@;
                items.push(value);
                proof {
                    lemma_plist_items_push(before, value);
                }
                let ghost removed = fields@;
                let entry = (k, PlistValue::List(items));
                fields.insert(j, entry);
                proof {
                    lemma_last_key(fv, key@);
                    assert(fields@ =~= old(fields)@.update(j as int, entry));
                    super::scalar::lemma_plist_fields_view(fields@);
                    assert(plist_fields_view(fields@) =~= fv.update(
                        j as int,
                        (key@, Plist::List(fv[j as int].1->List_0.push(value@))),
                    ));
                }
                return;
            }
        },
        None => {},
    }
    let mut items: Vec<PlistValue> = Vec::new();
    items.push(value);
    proof {
        lemma_plist_items_push(Seq::empty(), value);
        assert(Seq::<PlistValue>::empty().push(value) =~= items@);
        assert(plist_items_view(Seq::<PlistValue>::empty()) =~= Seq::<Plist>::empty());
    }
    let ghost before = fields@;
    let entry = (key.to_owned(), PlistValue::List(items));
    fields.push(entry);
    proof {
        super::scalar::lemma_plist_fields_push(before, entry);
    }
}

proof fn lemma_last_key(fields: Seq<(Seq<char>, Plist)>, key: Seq<char>)
    ensures
        -1 <= last_key(fields, key) < fields.len(),
        last_key(fields, key) >= 0 ==> fields[last_key(fields, key)].0 == key,
    decreases fields.len(),
{
    if fields.len() > 0 {
        lemma_last_key(fields.drop_last(), key);
    }
}

pub open spec fn lines_message() -> Seq<char> {
    "expected key/value line"@
}

/// Reads the line form: `key = value` lines (the separator is `sep`),
/// `- item` lines, blank lines and `#` comments. A line of another shape is
/// an error at its line number.
pub fn parse_lines(input: &str, sep: &str) -> (r: Result<PlistValue, ParseError>)
    ensures
        match lines_read(lines_of(input@), sep@) {
            Ok(st) => r matches Ok(v) && v@ == Plist::Dict(st.fields),
            Err(n) => r matches Err(e) && e.position == n && e.message@ == lines_message(),
        },
{
    let text = str_chars(input);
    let sep_chars = str_chars(sep);
    let ls = lines(text.as_slice());
    let ghost lv = lines_of(input@);
    let mut fields: Vec<(String, PlistValue)> = Vec::new();
    let mut current: Option<String> = None;
    let mut i: usize = 0;
    let items_key = "items";
    proof {
        reveal_strlit("items");
        assert(items_key@ =~= items_word());
        assert(lv.take(0) =~= Seq::<Seq<char>>::empty());
        assert(plist_fields_view(fields@) =~= Seq::<(Seq<char>, Plist)>::empty());
    }
    while i < ls.len()
        invariant
            lv == lines_of(input@),
            ls@.len() == lv.len(),
            forall|q: int| 0 <= q < ls@.len() ==> (#[trigger] ls@[q])@ == lv[q],
            sep_chars@ == sep@,
            items_key@ == items_word(),
            0 <= i <= ls@.len(),
            lines_read(lv.take(i as int), sep@) == Ok::<LinesState, nat>(
                LinesState {
                    fields: plist_fields_view(fields@),
                    current: match current {
                        Some(k) => Some(k@),
                        None => None,
                    },
                },
            ),
        decreases ls@.len() - i,
    {
        proof {
            assert(lv.take(i + 1).drop_last() =~= lv.take(i as int));
            assert(lv.take(i + 1).last() == ls@[i as int]@);
        }
        let line = trim_chars(ls[i].as_slice());
        let n = line.len();
        if n == 0 || line[0] == '#' {
        } else if n >= 2 && line[0] == '-' && line[1] == ' ' {
            let key = match &current {
                Some(k) => k.clone(),
                None => items_key.to_owned(),
            };
            let rest = slice_chars(line.as_slice(), 2, n);
            proof {
                assert(rest@ =~= line@.skip(2));
            }
            let value = parse_scalar(rest.as_slice());
            push_list_item(&mut fields, key.as_str(), value);
        } else {
            match find_chars(line.as_slice(), sep_chars.as_slice()) {
                None => {
                    proof {
                        lemma_lines_err_extends(lv, i as int, sep@);
                    }
                    return Err(ParseError::new(i, "expected key/value line"));
                },
                Some(k) => {
                    let m = sep_chars.len();
                    let head = slice_chars(line.as_slice(), 0, k);
                    let head = trim_chars(head.as_slice());
                    let head = trim_char_chars(head.as_slice(), '[');
                    let key_chars = trim_char_chars(head.as_slice(), ']');
                    let tail = slice_chars(line.as_slice(), k + m, n);
                    let value_chars = trim_chars(tail.as_slice());
                    proof {
                        assert(line@.take(k as int) =~= line@.subrange(0, k as int));
                        assert(tail@ =~= line@.skip(k + m));
                    }
                    let key = string_from_chars(key_chars.as_slice(), 0, key_chars.len());
                    let value = if value_chars.len() == 0 {
                        PlistValue::List(Vec::new())
                    } else {
                        parse_scalar(value_chars.as_slice())
                    };
                    proof {
                        assert(key_chars@.subrange(0, key_chars@.len() as int) =~= key_chars@);
                        if value_chars@.len() == 0 {
                            assert(plist_items_view(Seq::<PlistValue>::empty()) =~= Seq::<Plist>::empty());
                        }
                    }
                    current = Some(key.clone());
                    let entry = (key, value);
                    let ghost before = fields@;
                    fields.push(entry);
                    proof {
                        super::scalar::lemma_plist_fields_push(before, entry);
                    }
                },
            }
        }
        i = i + 1;
    }
    proof {
        assert(lv.take(ls@.len() as int) =~= lv);
    }
    Ok(PlistValue::Dict(fields))
}

proof fn lemma_lines_err_extends(ls: Seq<Seq<char>>, i: int, sep: Seq<char>)
    requires
        0 <= i < ls.len(),
        lines_read(ls.take(i + 1), sep) is Err,
    ensures
        lines_read(ls, sep) == lines_read(ls.take(i + 1), sep),
    decreases ls.len() - i,
{
    if i + 1 < ls.len() {
        assert(ls.drop_last().take(i + 1) =~= ls.take(i + 1));
        lemma_lines_err_extends(ls.drop_last(), i, sep);
    } else {
        assert(ls.take(i + 1) =~= ls);
    }
}

/// The XML-like form: after the first `>` (the opening root tag), each
/// `<name>text</name>` is a field, its text read as a scalar or, when it
/// starts with `<`, as nested fields; `<name/>` is a field with an empty
/// string; a closing tag where a tag should open ends the fields. An error
/// holds the byte position of the tag's `<` in the text being read, and a
/// message.
pub open spec fn xml_doc(s: Seq<char>) -> Result<Seq<(Seq<char>, Plist)>, (nat, Seq<char>)>
    decreases s.len(), 1nat,
{
    let t = trim(s);
    let rest = match find_seq(t, seq!['>']) {
        Some(p) => t.skip(p + 1),
        None => t,
    };
    if rest.len() <= s.len() {
        xml_tags(rest, Seq::empty())
    } else {
        Ok(Seq::empty())
    }
}

/// The tags of `rest` added to `fields`.
pub open spec fn xml_tags(rest: Seq<char>, fields: Seq<(Seq<char>, Plist)>) -> Result<
    Seq<(Seq<char>, Plist)>,
    (nat, Seq<char>),
>
    decreases rest.len(), 0nat,
{
    match find_seq(rest, seq!['<']) {
        None => Ok(fields),
        Some(open) => {
            let after = rest.skip(open + 1);
            if open < 0 || open >= rest.len() {
                Ok(fields)
            } else if after.len() > 0 && after[0] == '/' {
                Ok(fields)
            } else {
                match find_seq(after, seq!['>']) {
                    None => Err((byte_len(rest.take(open)), "unterminated tag"@)),
                    Some(e) => {
                        let raw_name = after.take(e);
                        let name = trim_end_char(trim(raw_name), '/');
                        let rest2 = after.skip(e + 1);
                        let tn = trim_end(raw_name);
                        if e < 0 || e >= after.len() {
                            Ok(fields)
                        } else if tn.len() > 0 && tn.last() == '/' {
                            xml_tags(rest2, fields.push((name, Plist::Str(Seq::empty()))))
                        } else {
                            let close = seq!['<', '/'] + name + seq!['>'];
                            match find_seq(rest2, close) {
                                None => Err((byte_len(rest.take(open)), "missing close tag"@)),
                                Some(cp) => {
                                    let text = trim(rest2.take(cp));
                                    let after_close = rest2.skip(cp + close.len());
                                    if cp < 0 || cp + close.len() > rest2.len() || text.len()
                                        >= rest.len() {
                                        Ok(fields)
                                    } else if text.len() > 0 && text[0] == '<' {
                                        match xml_doc(text) {
                                            Err(x) => Err(x),
                                            Ok(fs) => xml_tags(
                                                after_close,
                                                fields.push((name, Plist::Dict(fs))),
                                            ),
                                        }
                                    } else {
                                        xml_tags(after_close, fields.push((name, scalar_of(text))))
                                    }
                                },
                            }
                        }
                    },
                }
            }
        },
    }
}

proof fn lemma_trim_is_subrange(s: Seq<char>)
    ensures
        exists|a: int, b: int| 0 <= a <= b <= s.len() && trim(s) == s.subrange(a, b),
{
    lemma_trim_counts(s, ' ');
    let st = trim_start(s);
    lemma_trim_counts(st, ' ');
    let a = white_front(s) as int;
    let b = a + st.len() - white_back(st);
    assert(trim(s) =~= s.subrange(a, b));
}

/// Reads the tags of the XML-like form.
fn parse_xml_like(s: &[char]) -> (r: Result<Vec<(String, PlistValue)>, ParseError>)
    requires
        byte_len(s@) <= usize::MAX,
    ensures
        match xml_doc(s@) {
            Ok(fs) => r matches Ok(v) && plist_fields_view(v@) == fs,
            Err((p, m)) => r matches Err(e) && e.position == p && e.message@ == m,
        },
    decreases s@.len(),
{
    let t = trim_chars(s);
    proof {
        lemma_trim_is_subrange(s@);
        let (a, b) = choose|a: int, b: int| 0 <= a <= b <= s@.len() && trim(s@) == s@.subrange(a, b);
        lemma_byte_len_subrange(s@, a, b);
        lemma_trim_lengths(s@, ' ');
    }
    let mut rest = match find_char(t.as_slice(), '>') {
        Some(p) => {
            let len = t.len();
            let r = slice_chars(t.as_slice(), p + 1, len);
            proof {
                assert(r@ =~= t@.skip(p + 1));
            }
            r
        },
        None => {
            let r = slice_chars(t.as_slice(), 0, t.len());
            proof {
                assert(r@ =~= t@);
            }
            r
        },
    };
    proof {
        lemma_byte_len_subrange(t@, t@.len() - rest@.len(), t@.len() as int);
        assert(t@.subrange(t@.len() - rest@.len(), t@.len() as int) =~= rest@);
    }
    let mut fields: Vec<(String, PlistValue)> = Vec::new();
    proof {
        assert(plist_fields_view(fields@) =~= Seq::<(Seq<char>, Plist)>::empty());
    }
    loop
        invariant
            rest@.len() <= s@.len(),
            byte_len(rest@) <= usize::MAX,
            xml_doc(s@) == xml_tags(rest@, plist_fields_view(fields@)),
        ensures
            xml_doc(s@) == Ok::<Seq<(Seq<char>, Plist)>, (nat, Seq<char>)>(
                plist_fields_view(fields@),
            ),
        decreases rest@.len(),
    {
        let open = match find_char(rest.as_slice(), '<') {
            Some(open) => open,
            None => {
                break;
            },
        };
        let n = rest.len();
        let after = slice_chars(rest.as_slice(), open + 1, n);
        proof {
            assert(after@ =~= rest@.skip(open + 1));
            lemma_byte_len_subrange(rest@, open + 1, n as int);
        }
        if after.len() > 0 && after[0] == '/' {
            break;
        }
        let end_name = match find_char(after.as_slice(), '>') {
            Some(e) => e,
            None => {
                let pos = byte_offset(rest.as_slice(), open);
                return Err(ParseError::new(pos, "unterminated tag"));
            },
        };
        let raw_name = slice_chars(after.as_slice(), 0, end_name);
        let trimmed = trim_chars(raw_name.as_slice());
        let name_chars = trim_end_char_chars(trimmed.as_slice(), '/');
        let an = after.len();
        let rest2 = slice_chars(after.as_slice(), end_name + 1, an);
        let tn = trim_end_chars(raw_name.as_slice());
        proof {
            assert(raw_name@ =~= after@.take(end_name as int));
            assert(rest2@ =~= after@.skip(end_name + 1));
            lemma_byte_len_subrange(after@, end_name + 1, an as int);
        }
        let name = string_from_chars(name_chars.as_slice(), 0, name_chars.len());
        proof {
            assert(name_chars@.subrange(0, name_chars@.len() as int) =~= name_chars@);
        }
        if tn.len() > 0 && tn[tn.len() - 1] == '/' {
            let entry = (name, PlistValue::String(String::new()));
            let ghost before = fields@;
            fields.push(entry);
            proof {
                super::scalar::lemma_plist_fields_push(before, entry);
            }
            rest = rest2;
            continue;
        }
        let mut close: Vec<char> = Vec::new();
        close.push('<');
        close.push('/');
        let mut q: usize = 0;
        while q < name_chars.len()
            invariant
                0 <= q <= name_chars@.len(),
                close@ == seq!['<', '/'] + name_chars@.take(q as int),
            decreases name_chars@.len() - q,
        {
            close.push(name_chars[q]);
            proof {
                assert(close@ =~= seq!['<', '/'] + name_chars@.take(q + 1));
            }
            q = q + 1;
        }
        close.push('>');
        proof {
            assert(name_chars@.take(name_chars@.len() as int) =~= name_chars@);
            assert(close@ =~= seq!['<', '/'] + name_chars@ + seq!['>']);
        }
        let cp = match find_chars(rest2.as_slice(), close.as_slice()) {
            Some(cp) => cp,
            None => {
                let pos = byte_offset(rest.as_slice(), open);
                return Err(ParseError::new(pos, "missing close tag"));
            },
        };
        let inner = slice_chars(rest2.as_slice(), 0, cp);
        let text = trim_chars(inner.as_slice());
        let r2 = rest2.len();
        let after_close = slice_chars(rest2.as_slice(), cp + close.len(), r2);
        proof {
            assert(inner@ =~= rest2@.take(cp as int));
            assert(after_close@ =~= rest2@.skip(cp + close@.len()));
            lemma_byte_len_subrange(rest2@, cp + close@.len(), r2 as int);
            lemma_byte_len_subrange(rest2@, 0, cp as int);
            lemma_trim_lengths(inner@, ' ');
            lemma_trim_is_subrange(inner@);
            let (a, b) = choose|a: int, b: int|
                0 <= a <= b <= inner@.len() && trim(inner@) == inner@.subrange(a, b);
            lemma_byte_len_subrange(inner@, a, b);
        }
        let value = if text.len() > 0 && text[0] == '<' {
            match parse_xml_like(text.as_slice()) {
                Ok(fs) => PlistValue::Dict(fs),
                Err(e) => {
                    return Err(e);
                },
            }
        } else {
            parse_scalar(text.as_slice())
        };
        let entry = (name, value);
        let ghost before = fields@;
        fields.push(entry);
        proof {
            super::scalar::lemma_plist_fields_push(before, entry);
        }
        rest = after_close;
    }
    Ok(fields)
}

/// Reads a property list: the XML-like form when its text starts with `<`
/// (after white space), else the line form with `=` between key and value.
pub fn parse(input: &str) -> (r: Result<PlistValue, ParseError>)
    requires
        byte_len(input@) <= usize::MAX,
    ensures
        if trim_start(input@).len() > 0 && trim_start(input@)[0] == '<' {
            match xml_doc(input@) {
                Ok(fs) => r matches Ok(v) && v@ == Plist::Dict(fs),
                Err((p, m)) => r matches Err(e) && e.position == p && e.message@ == m,
            }
        } else {
            match lines_read(lines_of(input@), seq!['=']) {
                Ok(st) => r matches Ok(v) && v@ == Plist::Dict(st.fields),
                Err(n) => r matches Err(e) && e.position == n && e.message@ == lines_message(),
            }
        },
{
    let text = str_chars(input);
    let start = trim_start_chars(text.as_slice());
    if start.len() > 0 && start[0] == '<' {
        match parse_xml_like(text.as_slice()) {
            Ok(fields) => Ok(PlistValue::Dict(fields)),
            Err(e) => Err(e),
        }
    } else {
        let sep = "=";
        proof {
            reveal_strlit("=");
            assert(sep@ =~= seq!['=']);
        }
        parse_lines(input, sep)
    }
}

/// The body of the brace form: trimmed, without leading `{` and trailing
/// `}`.
pub open spec fn brace_body(s: Seq<char>) -> Seq<char> {
    trim_end_char(trim(s).skip(char_front(trim(s), '{') as int), '}')
}

/// The fields of the parts of the brace form, in order: blank parts and
/// `//` comments are passed over; a part without `:` is an error.
pub open spec fn brace_fields(ps: Seq<Seq<char>>) -> Option<Seq<(Seq<char>, Plist)>>
    decreases ps.len(),
{
    if ps.len() == 0 {
        Some(Seq::empty())
    } else {
        match brace_fields(ps.drop_last()) {
            None => None,
            Some(fs) => {
                let part = trim(ps.last());
                if part.len() == 0 || (part.len() >= 2 && part[0] == '/' && part[1] == '/') {
                    Some(fs)
                } else {
                    match find_seq(part, seq![':']) {
                        None => None,
                        Some(k) => Some(
                            fs.push(
                                (
                                    trim_char(trim_char(trim(part.take(k)), '"'), '\''),
                                    scalar_of(trim(part.skip(k + 1))),
                                ),
                            ),
                        ),
                    }
                }
            },
        }
    }
}

proof fn lemma_brace_fields_none(ps: Seq<Seq<char>>, i: int)
    requires
        0 <= i < ps.len(),
        brace_fields(ps.take(i + 1)) is None,
    ensures
        brace_fields(ps) is None,
    decreases ps.len() - i,
{
    if i + 1 < ps.len() {
        assert(ps.drop_last().take(i + 1) =~= ps.take(i + 1));
        lemma_brace_fields_none(ps.drop_last(), i);
    } else {
        assert(ps.take(i + 1) =~= ps);
    }
}

/// Reads a brace form `{ key: value, ... }`; a part without `:` is an
/// error at position 0.
pub fn parse_json5_like(input: &str) -> (r: Result<PlistValue, ParseError>)
    ensures
        match brace_fields(split_on(brace_body(input@), ',')) {
            Some(fs) => r matches Ok(v) && v@ == Plist::Dict(fs),
            None => r matches Err(e) && e.position == 0 && e.message@ == "expected object field"@,
        },
{
    let text = str_chars(input);
    let t = trim_chars(text.as_slice());
    let mut k: usize = 0;
    while k < t.len() && t[k] == '{'
        invariant
            0 <= k <= t@.len(),
            forall|j: int| 0 <= j < k ==> t@[j] == '{',
        decreases t@.len() - k,
    {
        k = k + 1;
    }
    proof {
        super::chars::lemma_char_front_exact(t@, '{', k as int);
    }
    let tl = t.len();
    let front = slice_chars(t.as_slice(), k, tl);
    let body = trim_end_char_chars(front.as_slice(), '}');
    proof {
        assert(front@ =~= t@.skip(k as int));
    }
    let parts = split_chars(body.as_slice(), ',');
    let ghost ps = split_on(body@, ',');
    let mut fields: Vec<(String, PlistValue)> = Vec::new();
    let mut i: usize = 0;
    proof {
        assert(ps.take(0) =~= Seq::<Seq<char>>::empty());
        assert(plist_fields_view(fields@) =~= Seq::<(Seq<char>, Plist)>::empty());
    }
    while i < parts.len()
        invariant
            ps == split_on(body@, ','),
            body@ == brace_body(input@),
            parts@.len() == ps.len(),
            forall|q: int| 0 <= q < parts@.len() ==> (#[trigger] parts@[q])@ == ps[q],
            0 <= i <= parts@.len(),
            brace_fields(ps.take(i as int)) == Some(plist_fields_view(fields@)),
        decreases parts@.len() - i,
    {
        proof {
            assert(ps.take(i + 1).drop_last() =~= ps.take(i as int));
            assert(ps.take(i + 1).last() == ps[i as int]);
        }
        let part = trim_chars(parts[i].as_slice());
        let n = part.len();
        if n == 0 || (n >= 2 && part[0] == '/' && part[1] == '/') {
        } else {
            match find_char(part.as_slice(), ':') {
                None => {
                    proof {
                        lemma_brace_fields_none(ps, i as int);
                    }
                    return Err(ParseError::new(0, "expected object field"));
                },
                Some(c) => {
                    let head = slice_chars(part.as_slice(), 0, c);
                    let head = trim_chars(head.as_slice());
                    let head = trim_char_chars(head.as_slice(), '"');
                    let key_chars = trim_char_chars(head.as_slice(), '\'');
                    let tail = slice_chars(part.as_slice(), c + 1, n);
                    let value_chars = trim_chars(tail.as_slice());
                    proof {
                        assert(part@.take(c as int) =~= part@.subrange(0, c as int));
                        assert(tail@ =~= part@.skip(c + 1));
                        assert(key_chars@.subrange(0, key_chars@.len() as int) =~= key_chars@);
                    }
                    let key = string_from_chars(key_chars.as_slice(), 0, key_chars.len());
                    let value = parse_scalar(value_chars.as_slice());
                    let entry = (key, value);
                    let ghost before = fields@;
                    fields.push(entry);
                    proof {
                        super::scalar::lemma_plist_fields_push(before, entry);
                    }
                },
            }
        }
        i = i + 1;
    }
    proof {
        assert(ps.take(parts@.len() as int) =~= ps);
    }
    Ok(PlistValue::Dict(fields))
}

} // verus!
