//! Attributes of resources, by key.

use crate::json::{Json, JsonView, opt_text, reference_views};
use crate::text::same_text;
use vstd::prelude::*;

verus! {

/// The truth value under a key, or a default where there is none.
pub open spec fn bool_attr(attrs: JsonView, key: Seq<char>, default: bool) -> bool {
    match attrs.get(key) {
        Some(v) => match v.as_bool() {
            Some(b) => b,
            None => default,
        },
        None => default,
    }
}

/// The text under a key.
pub open spec fn text_attr(attrs: JsonView, key: Seq<char>) -> Option<Seq<char>> {
    match attrs.get(key) {
        Some(v) => v.as_str(),
        None => None,
    }
}

/// The truth value under a key, or a default where there is none.
pub(crate) fn attr_bool(attrs: &Json, key: &str, default: bool) -> (r: bool)
    ensures
        r == bool_attr(attrs@, key@, default),
{
    match attrs.get(key) {
        Some(v) => match v.as_bool() {
            Some(b) => b,
            None => default,
        },
        None => default,
    }
}

/// The text under a key.
pub(crate) fn attr_text<'a>(attrs: &'a Json, key: &str) -> (r: Option<&'a str>)
    ensures
        opt_text(r) == text_attr(attrs@, key@),
{
    match attrs.get(key) {
        Some(v) => v.as_str(),
        None => None,
    }
}

/// Whether the text under a key is the given one.
pub(crate) fn attr_is(attrs: &Json, key: &str, text: &str) -> (r: bool)
    ensures
        r == (text_attr(attrs@, key@) == Some(text@)),
{
    match attr_text(attrs, key) {
        Some(s) => same_text(s, text),
        None => false,
    }
}

/// An empty list.
pub(crate) fn no_values<'a>() -> (r: Vec<&'a Json>)
    ensures
        reference_views(r@) == Seq::<JsonView>::empty(),
{
    let r: Vec<&'a Json> = Vec::new();
    assert(reference_views(r@) =~= Seq::<JsonView>::empty());
    r
}

/// The integer under a key, or zero where there is none.
pub open spec fn int_attr(attrs: JsonView, key: Seq<char>) -> i64 {
    match attrs.get(key) {
        Some(v) => match v.as_i64() {
            Some(n) => n,
            None => 0,
        },
        None => 0,
    }
}

/// The integer under a key, or zero where there is none.
pub(crate) fn attr_int(attrs: &Json, key: &str) -> (r: i64)
    ensures
        r == int_attr(attrs@, key@),
{
    match attrs.get(key) {
        Some(v) => match v.as_i64() {
            Some(n) => n,
            None => 0,
        },
        None => 0,
    }
}

} // verus!
