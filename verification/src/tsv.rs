//! Typed rows of tab-separated text.
//!
//! A row is a sequence of fields; a line is the text of one row. A schema is a
//! row of which only the kinds of the fields count. A row is written as its
//! line and the terminator. A text is decoded against a schema with or without
//! the terminator at its end, and fails to decode where it has another number
//! of fields or where a field does not read as the kind the schema gives it.

use crate::numeral::{
    float_of, float_text, is_digit, lemma_float_round_trip, lemma_float_text,
    lemma_long_round_trip, lemma_numeral, long_of, numeral, parse_float, parse_long, push_float,
    push_numeral, SCALE,
};
use crate::text::{
    chars_of, free_of, join, lemma_join_last, lemma_join_push, lemma_split_join, split,
    split_bounds, string_of,
};
use vstd::prelude::*;
use vstd::string::StringExecFns;

verus! {

/// The character between two fields of a line.
pub const DELIMITER: char = '\t';

/// The character that ends a line.
pub const TERMINATOR: char = '\n';

/// One field of a row.
#[derive(Clone, Debug, PartialEq, Eq)]
pub enum Field {
    /// A fixed-point number, held in millionths.
    Float(u64),
    /// An unsigned integer.
    Long(u64),
    /// A text.
    Text(String),
}

/// What a field holds.
pub ghost enum Value {
    /// A fixed-point number, in millionths.
    Float(u64),
    /// An unsigned integer.
    Long(u64),
    /// A text.
    Text(Seq<char>),
}

impl View for Field {
    type V = Value;

    open spec fn view(&self) -> Value {
        match self {
            Field::Float(v) => Value::Float(*v),
            Field::Long(n) => Value::Long(*n),
            Field::Text(s) => Value::Text(s@),
        }
    }
}

/// What the fields of a row hold, in order.
pub open spec fn row(fields: Seq<Field>) -> Seq<Value> {
    Seq::new(fields.len(), |i: int| fields[i]@)
}

/// Whether `a` and `b` are of one kind.
pub open spec fn same_kind(a: Value, b: Value) -> bool {
    match a {
        Value::Float(_) => b is Float,
        Value::Long(_) => b is Long,
        Value::Text(_) => b is Text,
    }
}

/// Whether `r` has as many fields as `schema`, each of the kind that `schema`
/// gives it.
pub open spec fn matches_schema(r: Seq<Value>, schema: Seq<Value>) -> bool {
    &&& r.len() == schema.len()
    &&& forall|i: int| 0 <= i < r.len() ==> same_kind(schema[i], #[trigger] r[i])
}

/// The text of one field: the numeral of a number, and a text as it is.
pub open spec fn rendered(v: Value) -> Seq<char> {
    match v {
        Value::Float(x) => float_text(x),
        Value::Long(n) => numeral(n as nat),
        Value::Text(s) => s,
    }
}

/// The texts of the fields of a row, in order.
pub open spec fn rendered_all(r: Seq<Value>) -> Seq<Seq<char>> {
    Seq::new(r.len(), |i: int| rendered(r[i]))
}

/// The line of a row, without what ends it: the texts of its fields with the
/// delimiter between them.
pub open spec fn line_of(r: Seq<Value>) -> Seq<char> {
    join(rendered_all(r), DELIMITER)
}

/// The text that a row is written as: its line and the terminator.
pub open spec fn encoded(r: Seq<Value>) -> Seq<char> {
    line_of(r).push(TERMINATOR)
}

/// What `part` holds when read as a field of the kind of `kind`; `None` where
/// it does not read as a number of that kind.
pub open spec fn read_as(kind: Value, part: Seq<char>) -> Option<Value> {
    match kind {
        Value::Float(_) => match float_of(part) {
            Some(x) => Some(Value::Float(x)),
            None => None,
        },
        Value::Long(_) => match long_of(part) {
            Some(n) => Some(Value::Long(n)),
            None => None,
        },
        Value::Text(_) => Some(Value::Text(part)),
    }
}

/// `text` without the terminator at its end, where it ends with one.
pub open spec fn chomped(text: Seq<char>) -> Seq<char> {
    if text.len() > 0 && text.last() == TERMINATOR {
        text.drop_last()
    } else {
        text
    }
}

/// The row that the line `line` holds under `schema`: its parts between
/// delimiters, each read as the kind that `schema` gives it. `None` where the
/// number of parts is not that of `schema`, or where a part does not read as
/// its kind.
pub open spec fn decoded_line(schema: Seq<Value>, line: Seq<char>) -> Option<Seq<Value>> {
    let parts = split(line, DELIMITER);
    if parts.len() == schema.len() && forall|i: int|
        0 <= i < parts.len() ==> (#[trigger] read_as(schema[i], parts[i])) is Some {
        Some(Seq::new(parts.len(), |i: int| read_as(schema[i], parts[i]).unwrap()))
    } else {
        None
    }
}

/// The row that `text` holds under `schema`: the row of its line, which is
/// `text` without the terminator at its end.
pub open spec fn decoded(schema: Seq<Value>, text: Seq<char>) -> Option<Seq<Value>> {
    decoded_line(schema, chomped(text))
}

/// Whether no text field of `r` holds the delimiter.
pub open spec fn delimiter_free(r: Seq<Value>) -> bool {
    forall|i: int|
        0 <= i < r.len() ==> ((#[trigger] r[i]) matches Value::Text(s) ==> free_of(s, DELIMITER))
}

/// The whole number that a field stands for: an integer itself, the whole part
/// of a fixed-point number, and zero for a text.
pub open spec fn whole_of(v: Value) -> u64 {
    match v {
        Value::Float(x) => x / SCALE,
        Value::Long(n) => n,
        Value::Text(_) => 0,
    }
}

/// The fixed-point number that a field stands for, in millionths: a
/// fixed-point number itself, an integer as far as its millionths fit, the
/// largest number where they do not, and zero for a text.
pub open spec fn millionths_of(v: Value) -> u64 {
    match v {
        Value::Float(x) => x,
        Value::Long(n) => if n * SCALE <= u64::MAX {
            (n * SCALE) as u64
        } else {
            u64::MAX
        },
        Value::Text(_) => 0,
    }
}

/// A row that a text decodes to matches the schema it was decoded against.
pub proof fn lemma_decoded_matches(schema: Seq<Value>, text: Seq<char>)
    ensures
        decoded(schema, text) matches Some(r) ==> matches_schema(r, schema),
{
    if let Some(r) = decoded(schema, text) {
        let parts = split(chomped(text), DELIMITER);
        assert forall|i: int| 0 <= i < r.len() implies same_kind(schema[i], #[trigger] r[i]) by {
            assert(read_as(schema[i], parts[i]) is Some);
        }
    }
}

/// The text of a number is not empty, and holds neither the delimiter nor the
/// terminator.
pub proof fn lemma_number_plain(v: Value)
    requires
        !(v is Text),
    ensures
        rendered(v).len() > 0,
        free_of(rendered(v), DELIMITER),
        free_of(rendered(v), TERMINATOR),
{
    let s = rendered(v);
    match v {
        Value::Float(x) => {
            lemma_float_text(x);
            assert forall|i: int| 0 <= i < s.len() implies s[i] != DELIMITER && s[i]
                != TERMINATOR by {
                assert(is_digit(s[i]) || s[i] == '.');
            }
        },
        Value::Long(n) => {
            lemma_numeral(n as nat);
            assert forall|i: int| 0 <= i < s.len() implies s[i] != DELIMITER && s[i]
                != TERMINATOR by {
                assert(is_digit(s[i]));
            }
        },
        Value::Text(_) => {},
    }
}

/// The line of a row decodes to the row, under a schema that the row matches.
/// The row has at least one field, and no text in it holds the delimiter.
pub proof fn lemma_line_decodes(schema: Seq<Value>, r: Seq<Value>)
    requires
        matches_schema(r, schema),
        r.len() > 0,
        delimiter_free(r),
    ensures
        decoded_line(schema, line_of(r)) == Some(r),
{
    let parts = rendered_all(r);
    assert forall|i: int| 0 <= i < parts.len() implies free_of(#[trigger] parts[i], DELIMITER) by {
        if !(r[i] is Text) {
            lemma_number_plain(r[i]);
        }
    }
    lemma_split_join(parts, DELIMITER);
    assert forall|i: int| 0 <= i < parts.len() implies (#[trigger] read_as(schema[i], parts[i]))
        == Some(r[i]) by {
        assert(same_kind(schema[i], r[i]));
        match r[i] {
            Value::Float(x) => {
                lemma_float_round_trip(x);
            },
            Value::Long(n) => {
                lemma_long_round_trip(n);
            },
            Value::Text(_) => {},
        }
    }
    assert(Seq::new(parts.len(), |i: int| read_as(schema[i], parts[i]).unwrap()) =~= r);
}

/// Round trip: a row is decoded from the text it was encoded to, under a
/// schema that the row matches. The row has at least one field, and no text in
/// it holds the delimiter.
pub proof fn lemma_round_trip(schema: Seq<Value>, r: Seq<Value>)
    requires
        matches_schema(r, schema),
        r.len() > 0,
        delimiter_free(r),
    ensures
        decoded(schema, encoded(r)) == Some(r),
{
    assert(chomped(encoded(r)) =~= line_of(r));
    lemma_line_decodes(schema, r);
}

/// Round trip through the line: a row is also decoded from its line alone, as
/// it is read back without the terminator, where the text of its last field is
/// not empty and does not end with the terminator.
pub proof fn lemma_line_round_trip(schema: Seq<Value>, r: Seq<Value>)
    requires
        matches_schema(r, schema),
        r.len() > 0,
        delimiter_free(r),
        rendered(r.last()).len() > 0,
        rendered(r.last()).last() != TERMINATOR,
    ensures
        decoded(schema, line_of(r)) == Some(r),
{
    assert(rendered_all(r).last() == rendered(r.last()));
    lemma_join_last(rendered_all(r), DELIMITER);
    lemma_line_decodes(schema, r);
}

impl Field {
    /// The text of the field: the numeral of a number, and a text as it is.
    pub fn to_text(&self) -> (text: String)
        ensures
            text@ == rendered(self@),
    {
        let mut text = String::new();
        match self {
            Field::Float(x) => push_float(&mut text, *x),
            Field::Long(n) => push_numeral(&mut text, *n),
            Field::Text(s) => text.append(s.as_str()),
        }
        assert(text@ =~= rendered(self@));
        text
    }

    /// The whole number that the field stands for: an integer itself, the whole
    /// part of a fixed-point number, and zero for a text.
    pub fn to_long(&self) -> (n: u64)
        ensures
            n == whole_of(self@),
    {
        match self {
            Field::Float(x) => *x / SCALE,
            Field::Long(n) => *n,
            Field::Text(_) => 0,
        }
    }

    /// The fixed-point number that the field stands for, in millionths: a
    /// fixed-point number itself, an integer as far as its millionths fit, the
    /// largest number where they do not, and zero for a text.
    pub fn to_float(&self) -> (x: u64)
        ensures
            x == millionths_of(self@),
    {
        match self {
            Field::Float(x) => *x,
            Field::Long(n) => match n.checked_mul(SCALE) {
                Some(x) => x,
                None => u64::MAX,
            },
            Field::Text(_) => 0,
        }
    }
}

/// Decodes `line` against the schema `buffer`, of which only the kinds of the
/// fields count. One terminator at the end of `line` is left out.
pub fn parse(buffer: &Vec<Field>, line: &String) -> (out: Option<Vec<Field>>)
    ensures
        match out {
            Some(fields) => decoded(row(buffer@), line@) == Some(row(fields@)),
            None => decoded(row(buffer@), line@) is None,
        },
{
    let mut chars = chars_of(line.as_str());
    if chars.len() > 0 && chars[chars.len() - 1] == TERMINATOR {
        chars.pop();
    }
    let ghost body = chomped(line@);
    assert(chars@ =~= body);
    let bounds = split_bounds(&chars, DELIMITER);
    let ghost schema = row(buffer@);
    let ghost parts = split(body, DELIMITER);
    if buffer.len() != bounds.len() {
        return None;
    }
    let mut out: Vec<Field> = Vec::new();
    let mut i: usize = 0;
    while i < buffer.len()
        invariant
            i <= buffer.len(),
            out.len() == i,
            chars@ == body,
            body == chomped(line@),
            schema == row(buffer@),
            parts == split(body, DELIMITER),
            parts.len() == buffer.len(),
            bounds.len() == parts.len(),
            forall|k: int|
                0 <= k < bounds.len() ==> (#[trigger] bounds[k]).0 <= bounds[k].1 <= chars.len(),
            forall|k: int|
                0 <= k < bounds.len() ==> chars@.subrange(
                    (#[trigger] bounds[k]).0 as int,
                    bounds[k].1 as int,
                ) == parts[k],
            forall|k: int| 0 <= k < i ==> (#[trigger] read_as(schema[k], parts[k])) == Some(out[k]@),
        decreases buffer.len() - i,
    {
        let (lo, hi) = bounds[i];
        assert(chars@.subrange(lo as int, hi as int) == parts[i as int]);
        let field = match &buffer[i] {
            Field::Float(_) => match parse_float(&chars, lo, hi) {
                Some(x) => Field::Float(x),
                None => {
                    assert(read_as(schema[i as int], parts[i as int]) is None);
                    return None;
                },
            },
            Field::Long(_) => match parse_long(&chars, lo, hi) {
                Some(n) => Field::Long(n),
                None => {
                    assert(read_as(schema[i as int], parts[i as int]) is None);
                    return None;
                },
            },
            Field::Text(_) => Field::Text(string_of(&chars, lo, hi)),
        };
        assert(read_as(schema[i as int], parts[i as int]) == Some(field@));
        out.push(field);
        i = i + 1;
    }
    assert(row(out@) =~= Seq::new(parts.len(), |k: int| read_as(schema[k], parts[k]).unwrap()));
    Some(out)
}

/// Encodes a row: the texts of its fields with the delimiter between them, and
/// the terminator after the last.
pub fn format(data: &Vec<Field>) -> (out: String)
    ensures
        out@ == encoded(row(data@)),
{
    let ghost parts = rendered_all(row(data@));
    let mut out = String::new();
    let mut i: usize = 0;
    assert(parts.take(0) =~= Seq::<Seq<char>>::empty());
    while i < data.len()
        invariant
            i <= data.len(),
            parts == rendered_all(row(data@)),
            out@ == join(parts.take(i as int), DELIMITER),
        decreases data.len() - i,
    {
        proof {
            lemma_join_push(parts.take(i as int), parts[i as int], DELIMITER);
            assert(parts.take(i + 1) =~= parts.take(i as int).push(parts[i as int]));
        }
        if i > 0 {
            out.push(DELIMITER);
        }
        match &data[i] {
            Field::Float(x) => push_float(&mut out, *x),
            Field::Long(n) => push_numeral(&mut out, *n),
            Field::Text(s) => out.append(s.as_str()),
        }
        i = i + 1;
    }
    assert(parts.take(data.len() as int) =~= parts);
    out.push(TERMINATOR);
    out
}

} // verus!
