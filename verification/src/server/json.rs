//! Reading single values out of JSON texts.

use vstd::prelude::*;

verus! {

/// What lies at a place of a JSON text.
#[derive(Debug)]
pub enum JsonAt {
    Missing,
    Text(String),
    /// A number, where it is a whole one that fits.
    Number(Option<u64>),
    Null,
    Bool(bool),
    Array,
    Object,
}

/// What lies at a place, as a value.
pub enum JsonAtV {
    Missing,
    Text(Seq<char>),
    Number(Option<u64>),
    Null,
    Bool(bool),
    Array,
    Object,
}

impl View for JsonAt {
    type V = JsonAtV;

    open spec fn view(&self) -> JsonAtV {
        match self {
            JsonAt::Missing => JsonAtV::Missing,
            JsonAt::Text(s) => JsonAtV::Text(s@),
            JsonAt::Number(n) => JsonAtV::Number(*n),
            JsonAt::Null => JsonAtV::Null,
            JsonAt::Bool(b) => JsonAtV::Bool(*b),
            JsonAt::Array => JsonAtV::Array,
            JsonAt::Object => JsonAtV::Object,
        }
    }
}

pub open spec fn at_in(r: Result<JsonAt, String>) -> Result<JsonAtV, Seq<char>> {
    match r {
        Ok(v) => Ok(v@),
        Err(e) => Err(e@),
    }
}

/// What lies in a JSON text where a JSON pointer leads; or why the text is no
/// JSON, in the parser's words.
pub uninterp spec fn value_under_of(json: Seq<char>, pointer: Seq<char>) -> Result<
    JsonAtV,
    Seq<char>,
>;

/// `serde_json::from_str` into a `Value`, and `Value::pointer` on it; a number
/// is taken by `Number::as_u64`. The contract names what comes out.
#[verifier::external_body]
pub(crate) fn value_under(json: &str, pointer: &str) -> (r: Result<JsonAt, String>)
    ensures
        at_in(r) == value_under_of(json@, pointer@),
{
    match serde_json::from_str::<serde_json::Value>(json) {
        Err(e) => Err(e.to_string()),
        Ok(v) => Ok(match v.pointer(pointer) {
            None => JsonAt::Missing,
            Some(serde_json::Value::String(s)) => JsonAt::Text(s.to_string()),
            Some(serde_json::Value::Number(n)) => JsonAt::Number(n.as_u64()),
            Some(serde_json::Value::Null) => JsonAt::Null,
            Some(serde_json::Value::Bool(b)) => JsonAt::Bool(*b),
            Some(serde_json::Value::Array(_)) => JsonAt::Array,
            Some(serde_json::Value::Object(_)) => JsonAt::Object,
        }),
    }
}

/// The text at a place; none where there is something else.
pub open spec fn text_at(v: JsonAtV) -> Option<Seq<char>> {
    match v {
        JsonAtV::Text(s) => Some(s),
        _ => None,
    }
}

/// The whole number at a place; none where there is something else.
pub open spec fn number_at(v: JsonAtV) -> Option<u64> {
    match v {
        JsonAtV::Number(n) => n,
        _ => None,
    }
}

pub open spec fn text_in(s: Option<String>) -> Option<Seq<char>> {
    match s {
        Some(s) => Some(s@),
        None => None,
    }
}

impl JsonAt {
    pub fn text(self) -> (r: Option<String>)
        ensures
            text_in(r) == text_at(self@),
    {
        match self {
            JsonAt::Text(s) => Some(s),
            _ => None,
        }
    }

    pub fn number(&self) -> (r: Option<u64>)
        ensures
            r == number_at(self@),
    {
        match self {
            JsonAt::Number(n) => *n,
            _ => None,
        }
    }

    /// Whether there is anything, be it null.
    pub fn is_there(&self) -> (r: bool)
        ensures
            r == (self@ != JsonAtV::Missing),
    {
        match self {
            JsonAt::Missing => false,
            _ => true,
        }
    }
}

} // verus!
