use vstd::prelude::*;

verus! {

/// The mathematical form of a document: what contracts speak of.
pub enum Json {
    Null,
    Boolean(bool),
    /// The decimal text of a number, as written in the document.
    Number(Seq<char>),
    Str(Seq<char>),
    Array(Seq<Json>),
    /// Members in order of first appearance of their keys.
    Object(Seq<(Seq<char>, Json)>),
}

/// A parsed document. Numbers keep the exact decimal text that the
/// document holds, so no precision is lost between reading and writing.
#[derive(Debug)]
pub enum JsonValue {
    Null,
    Boolean(bool),
    Number(String),
    String(String),
    Array(Vec<JsonValue>),
    /// Members in order of first appearance of their keys, each key once.
    /// A `Vec` of pairs rather than an `IndexMap`: Verus refuses a type that
    /// holds itself inside an outside type's parameter ("recursively uses
    /// type ... in a non-positive position"), so the parser keeps an
    /// `IndexMap` of the keys beside the members while it reads an object.
    Object(Vec<(String, JsonValue)>),
}

#[derive(Debug, Clone, Copy, PartialEq, Eq, Structural)]
pub enum ParseError {
    UnexpectedToken(usize),
    UnexpectedEndOfInput,
    TrailingComma(usize),
    MaxDepthExceeded(usize),
    LeadingZero(usize),
}

impl JsonValue {
    pub open spec fn view(&self) -> Json
        decreases self,
    {
        match self {
            JsonValue::Null => Json::Null,
            JsonValue::Boolean(b) => Json::Boolean(*b),
            JsonValue::Number(t) => Json::Number(t@),
            JsonValue::String(t) => Json::Str(t@),
            JsonValue::Array(a) => Json::Array(elements_view(a@)),
            JsonValue::Object(m) => Json::Object(members_view(m@)),
        }
    }
}

/// The views of a sequence of array elements.
pub open spec fn elements_view(a: Seq<JsonValue>) -> Seq<Json>
    decreases a,
{
    Seq::new(
        a.len(),
        |i: int|
            if 0 <= i < a.len() {
                a[i].view()
            } else {
                Json::Null
            },
    )
}

/// The views of a sequence of object members.
pub open spec fn members_view(m: Seq<(String, JsonValue)>) -> Seq<(Seq<char>, Json)>
    decreases m,
{
    Seq::new(
        m.len(),
        |i: int|
            if 0 <= i < m.len() {
                (m[i].0@, m[i].1.view())
            } else {
                (Seq::empty(), Json::Null)
            },
    )
}

} // verus!
