//! Field values: a JSON-like scalar/array/object value as the record
//! store holds it, and the typed-or-absent accessor over a record's
//! named fields.

use crate::text::{i64_to_dec, int_dec};
use vstd::prelude::*;

verus! {

/// One JSON-like value attached to a field name.
///
/// String scalars are held verbatim. Integers in `i64` range are held
/// as numbers, so severity-level conversion can read them. Every other
/// JSON value (null, booleans, non-integer numbers, arrays, objects) is
/// held as its canonical compact JSON text, which is all the engine
/// ever reads of it.
#[derive(Debug, PartialEq, Eq, Clone)]
pub enum JsonValue {
    /// A JSON string scalar; displays verbatim, without quotes.
    Str(String),
    /// A JSON integer that fits `i64`.
    Int(i64),
    /// Any other JSON value, as its canonical compact text.
    Other(String),
}

impl JsonValue {
    /// The display text of the value: string contents verbatim, numbers
    /// in decimal, anything else its canonical text.
    pub open spec fn display_spec(&self) -> Seq<char> {
        match self {
            JsonValue::Str(s) => s@,
            JsonValue::Int(i) => int_dec(*i as int),
            JsonValue::Other(t) => t@,
        }
    }
}

/// The mathematical view of a field value: its contents with all
/// strings taken as character sequences.
pub enum ValueView {
    /// A string scalar's characters.
    Str(Seq<char>),
    /// An integer value.
    Int(i64),
    /// The canonical text of any other JSON value.
    Other(Seq<char>),
}

impl JsonValue {
    /// The view of this value.
    pub open spec fn view_spec(&self) -> ValueView {
        match self {
            JsonValue::Str(s) => ValueView::Str(s@),
            JsonValue::Int(i) => ValueView::Int(*i),
            JsonValue::Other(t) => ValueView::Other(t@),
        }
    }
}

/// The name/value views of a rendered display slice.
pub open spec fn slice_view(s: Seq<(String, String)>) -> Seq<(Seq<char>, Seq<char>)> {
    s.map(|i: int, p: (String, String)| (p.0@, p.1@))
}

/// The fixed sentinel text shown for an absent field.
pub open spec fn missing_text() -> Seq<char> {
    seq!['[', ' ', '-', '-', '-', ' ', ']']
}

/// The sentinel text shown for an absent field.
pub fn text_for_empty() -> (r: &'static str)
    ensures
        r@ == missing_text(),
{
    proof {
        reveal_strlit("[ --- ]");
        assert("[ --- ]"@ =~= missing_text());
    }
    "[ --- ]"
}

/// A typed-or-absent view of one named field of a record. Absent fields
/// are a valid, first-class result, not an error.
#[derive(Debug, PartialEq, Eq, Clone, Copy)]
pub enum FieldContent<'a> {
    /// The field is present and holds the referenced value.
    Present(&'a JsonValue),
    /// The record has no field of the requested name.
    Missing,
}

impl<'a> FieldContent<'a> {
    /// The display text: the value's own display text, or the sentinel
    /// text when the field is absent.
    pub open spec fn display_spec(&self) -> Seq<char> {
        match self {
            FieldContent::Present(v) => v.display_spec(),
            FieldContent::Missing => missing_text(),
        }
    }

    /// Renders the field for display.
    pub fn display(&self) -> (r: String)
        ensures
            r@ == self.display_spec(),
    {
        match self {
            FieldContent::Present(v) => match v {
                JsonValue::Str(s) => s.clone(),
                JsonValue::Int(i) => i64_to_dec(*i),
                JsonValue::Other(t) => t.clone(),
            },
            FieldContent::Missing => text_for_empty().to_owned(),
        }
    }
}

} // verus!
