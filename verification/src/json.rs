//! JSON values, as far as lenient parsing looks at them.

use vstd::prelude::*;

use crate::text::{lowered, to_lower, trim, trimmed};

verus! {

/// What lenient parsing reads of a JSON value.
#[derive(Debug, Clone, PartialEq, Eq)]
pub enum Json {
    Bool(bool),
    /// A whole number that is not negative.
    Unsigned(u64),
    Text(String),
    /// An array: each element's text, where the element is a string.
    List(Vec<Option<String>>),
    /// Anything else.
    Other,
}

/// The model of [`Json`].
pub enum JsonView {
    Bool(bool),
    Unsigned(u64),
    Text(Seq<char>),
    List(Seq<Option<Seq<char>>>),
    Other,
}

impl JsonView {
    /// The value's text, where it is a string.
    pub open spec fn text(self) -> Option<Seq<char>> {
        match self {
            JsonView::Text(t) => Some(t),
            _ => None,
        }
    }

    /// The value's text without surrounding whitespace and in lower case,
    /// where it is a string.
    pub open spec fn word(self) -> Option<Seq<char>> {
        match self {
            JsonView::Text(t) => Some(lowered(trimmed(t))),
            _ => None,
        }
    }

    /// The value's number, where it is whole, not negative and fits 32 bits.
    pub open spec fn small(self) -> Option<u32> {
        match self {
            JsonView::Unsigned(n) if n <= u32::MAX => Some(n as u32),
            _ => None,
        }
    }
}

/// The text that an element of a list may have.
pub open spec fn text_view(t: Option<String>) -> Option<Seq<char>> {
    match t {
        Some(s) => Some(s@),
        None => None,
    }
}

impl View for Json {
    type V = JsonView;

    open spec fn view(&self) -> JsonView {
        match self {
            Json::Bool(b) => JsonView::Bool(*b),
            Json::Unsigned(n) => JsonView::Unsigned(*n),
            Json::Text(t) => JsonView::Text(t@),
            Json::List(l) => JsonView::List(l@.map_values(|t: Option<String>| text_view(t))),
            Json::Other => JsonView::Other,
        }
    }
}

/// A JSON value as `serde_json` holds it.
#[verifier::external_type_specification]
#[verifier::external_body]
pub struct ExValue(serde_json::Value);

/// What a `serde_json::Value` holds, as far as lenient parsing reads it: a
/// bool, a number that is a whole one and not negative, a string, the elements
/// of an array, or something else.
pub uninterp spec fn json_of(value: serde_json::Value) -> JsonView;

/// `serde_json::Value::as_bool` hands out the bool of a value that is one.
pub assume_specification [serde_json::Value::as_bool](value: &serde_json::Value) -> (res: Option<
    bool,
>)
    ensures
        res == match json_of(*value) {
            JsonView::Bool(b) => Some(b),
            _ => None,
        },
;

/// `serde_json::Value::as_u64` hands out the number of a value that is a whole
/// number and not negative; a negative number or a fraction gives `None`.
pub assume_specification [serde_json::Value::as_u64](value: &serde_json::Value) -> (res: Option<
    u64,
>)
    ensures
        res == match json_of(*value) {
            JsonView::Unsigned(n) => Some(n),
            _ => None,
        },
;

/// `serde_json::Value::as_str` hands out the text of a value that is a string.
pub assume_specification [serde_json::Value::as_str](value: &serde_json::Value) -> (res: Option<
    &str,
>)
    ensures
        match json_of(*value) {
            JsonView::Text(t) => res is Some && res->0@ == t,
            _ => res is None,
        },
;

/// `serde_json::Value::as_array` hands out the elements of a value that is an
/// array, in order.
pub assume_specification [serde_json::Value::as_array](value: &serde_json::Value) -> (res: Option<
    &Vec<serde_json::Value>,
>)
    ensures
        match json_of(*value) {
            JsonView::List(l) => res is Some && res->0@.len() == l.len() && forall|i: int|
                0 <= i < l.len() ==> l[i] == json_of(#[trigger] res->0@[i]).text(),
            _ => res is None,
        },
;

impl Json {
    /// What lenient parsing reads of `value`.
    pub fn from_value(value: &serde_json::Value) -> (res: Json)
        ensures
            res@ == json_of(*value),
    {
        if let Some(b) = value.as_bool() {
            return Json::Bool(b);
        }
        if let Some(n) = value.as_u64() {
            return Json::Unsigned(n);
        }
        if let Some(t) = value.as_str() {
            return Json::Text(t.to_owned());
        }
        match value.as_array() {
            Some(items) => {
                let mut list: Vec<Option<String>> = Vec::new();
                let ghost l = json_of(*value)->List_0;
                let mut i: usize = 0;
                while i < items.len()
                    invariant
                        i <= items@.len(),
                        l.len() == items@.len(),
                        forall|k: int|
                            0 <= k < l.len() ==> l[k] == json_of(#[trigger] items@[k]).text(),
                        list@.len() == i,
                        forall|k: int| 0 <= k < i ==> text_view(#[trigger] list@[k]) == l[k],
                    decreases items@.len() - i,
                {
                    assert(l[i as int] == json_of(items@[i as int]).text());
                    match items[i].as_str() {
                        Some(t) => list.push(Some(t.to_owned())),
                        None => list.push(None),
                    }
                    i = i + 1;
                }
                assert(list@.map_values(|t: Option<String>| text_view(t)) =~= l);
                Json::List(list)
            },
            None => Json::Other,
        }
    }

    /// The value's text without surrounding whitespace and in lower case, where
    /// it is a string.
    pub fn word(&self) -> (res: Option<String>)
        ensures
            match self@.word() {
                Some(w) => res is Some && res->0@ == w,
                None => res is None,
            },
    {
        match self {
            Json::Text(t) => Some(to_lower(trim(t.as_str()).as_str())),
            _ => None,
        }
    }

    /// The value's number, where it is whole, not negative and fits 32 bits.
    pub fn small(&self) -> (res: Option<u32>)
        ensures
            res == self@.small(),
    {
        match self {
            Json::Unsigned(n) => if *n <= u32::MAX as u64 {
                Some(*n as u32)
            } else {
                None
            },
            _ => None,
        }
    }
}

/// Texts are read from strings and small numbers from whole numbers of 32 bits;
/// nothing is read from a value of another kind.
pub proof fn values_are_read_by_kind(b: bool, n: u64, t: Seq<char>, l: Seq<Option<Seq<char>>>)
    ensures
        JsonView::Text(t).text() == Some(t),
        JsonView::Text(t).word() == Some(lowered(trimmed(t))),
        JsonView::Text(t).small() is None,
        n < 0x1_0000_0000 ==> JsonView::Unsigned(n).small() == Some(n as u32),
        n >= 0x1_0000_0000 ==> JsonView::Unsigned(n).small() is None,
        JsonView::Unsigned(n).text() is None,
        JsonView::Unsigned(n).word() is None,
        JsonView::Bool(b).text() is None,
        JsonView::Bool(b).word() is None,
        JsonView::Bool(b).small() is None,
        JsonView::List(l).text() is None,
        JsonView::List(l).word() is None,
        JsonView::List(l).small() is None,
        JsonView::Other.text() is None,
        JsonView::Other.word() is None,
        JsonView::Other.small() is None,
{
}

/// A value is modelled by its kind and all that it holds.
pub proof fn values_are_modelled_faithfully(
    b: bool,
    n: u64,
    t: String,
    l: Vec<Option<String>>,
    i: int,
)
    requires
        0 <= i < l@.len(),
    ensures
        Json::Bool(b)@ == JsonView::Bool(b),
        Json::Unsigned(n)@ == JsonView::Unsigned(n),
        Json::Text(t)@ == JsonView::Text(t@),
        Json::Other@ == JsonView::Other,
        Json::List(l)@ matches JsonView::List(s) && s.len() == l@.len() && (match l@[i] {
            Some(e) => s[i] == Some(e@),
            None => s[i] is None,
        }),
        text_view(Some(t)) == Some(t@),
        text_view(None) is None,
{
}

} // verus!
