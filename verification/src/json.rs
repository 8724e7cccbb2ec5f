//! The JSON values that textures and animation frames are written with, as far
//! as they are read: texts, whole numbers, and objects of these.
use crate::name_map::{NameMap, Replicate};
use vstd::prelude::*;

verus! {

/// A member of an object.
#[derive(Debug)]
pub enum JsonScalar {
    /// A string.
    Text(String),
    /// A number that is a whole number and not negative.
    Unsigned(u64),
    /// Any other value.
    Other,
}

/// A value.
#[derive(Debug)]
pub enum JsonValue {
    /// A string.
    Text(String),
    /// A number that is a whole number and not negative.
    Unsigned(u64),
    /// An object.
    Object(NameMap<JsonScalar>),
    /// Any other value.
    Other,
}

/// What a member of an object stands for.
pub enum ScalarView {
    Text(Seq<char>),
    Unsigned(u64),
    Other,
}

/// What a value stands for.
pub enum ValueView {
    Text(Seq<char>),
    Unsigned(u64),
    Object(Map<Seq<char>, ScalarView>),
    Other,
}

impl ScalarView {
    /// The number, where this is one.
    pub open spec fn unsigned(self) -> Option<u64> {
        match self {
            ScalarView::Unsigned(n) => Some(n),
            _ => None,
        }
    }

    /// The text, where this is one.
    pub open spec fn text(self) -> Option<Seq<char>> {
        match self {
            ScalarView::Text(t) => Some(t),
            _ => None,
        }
    }
}

/// The number under `name`, where there is one.
pub open spec fn unsigned_member(object: Map<Seq<char>, ScalarView>, name: Seq<char>) -> Option<u64> {
    if object.dom().contains(name) {
        object[name].unsigned()
    } else {
        None
    }
}

/// The text under `name`, where there is one.
pub open spec fn text_member(object: Map<Seq<char>, ScalarView>, name: Seq<char>) -> Option<
    Seq<char>,
> {
    if object.dom().contains(name) {
        object[name].text()
    } else {
        None
    }
}

impl View for JsonScalar {
    type V = ScalarView;

    open spec fn view(&self) -> ScalarView {
        match self {
            JsonScalar::Text(t) => ScalarView::Text(t@),
            JsonScalar::Unsigned(n) => ScalarView::Unsigned(*n),
            JsonScalar::Other => ScalarView::Other,
        }
    }
}

impl View for JsonValue {
    type V = ValueView;

    open spec fn view(&self) -> ValueView {
        match self {
            JsonValue::Text(t) => ValueView::Text(t@),
            JsonValue::Unsigned(n) => ValueView::Unsigned(*n),
            JsonValue::Object(members) => ValueView::Object(members@),
            JsonValue::Other => ValueView::Other,
        }
    }
}

impl Replicate for JsonScalar {
    fn replicate(&self) -> (r: Self) {
        match self {
            JsonScalar::Text(t) => JsonScalar::Text(t.clone()),
            JsonScalar::Unsigned(n) => JsonScalar::Unsigned(*n),
            JsonScalar::Other => JsonScalar::Other,
        }
    }
}

impl Replicate for JsonValue {
    fn replicate(&self) -> (r: Self) {
        match self {
            JsonValue::Text(t) => JsonValue::Text(t.clone()),
            JsonValue::Unsigned(n) => JsonValue::Unsigned(*n),
            JsonValue::Object(members) => JsonValue::Object(members.replicate()),
            JsonValue::Other => JsonValue::Other,
        }
    }
}

impl Clone for JsonScalar {
    fn clone(&self) -> (r: Self)
        ensures
            r@ == self@,
    {
        self.replicate()
    }
}

impl Clone for JsonValue {
    fn clone(&self) -> (r: Self)
        ensures
            r@ == self@,
    {
        self.replicate()
    }
}

/// The number under `name`, where there is one.
pub fn get_unsigned(object: &NameMap<JsonScalar>, name: &str) -> (r: Option<u64>)
    ensures
        r == unsigned_member(object@, name@),
{
    match object.get(name) {
        Some(JsonScalar::Unsigned(n)) => Some(*n),
        _ => None,
    }
}

/// The text under `name`, where there is one.
pub fn get_text<'a>(object: &'a NameMap<JsonScalar>, name: &str) -> (r: Option<&'a String>)
    ensures
        (match r {
            Some(t) => Some(t@),
            None => None,
        }) == text_member(object@, name@),
{
    match object.get(name) {
        Some(JsonScalar::Text(t)) => Some(t),
        _ => None,
    }
}

}
