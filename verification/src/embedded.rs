//! JSON documents written into strings: reading them, and replacing such strings by what they hold.

use crate::json::{
    Json,
    JsonNumber,
    JsonNumberView,
    JsonView,
    json_entries,
    json_items,
    lemma_json_model,
};
use crate::text::{ends_with, starts_with, trim, trimmed};
use vstd::prelude::*;

verus! {

/// `serde_json::Value`, a JSON value.
#[verifier::external_type_specification]
#[verifier::external_body]
pub struct ExValue(serde_json::Value);

/// `serde_json::Number`, a JSON number.
#[verifier::external_type_specification]
#[verifier::external_body]
pub struct ExNumber(serde_json::Number);

/// What a `serde_json::Number` holds: a natural number, a negative integer, or the text of a
/// number with a fraction or an exponent.
pub uninterp spec fn number_contents(n: serde_json::Number) -> JsonNumberView;

/// What a `serde_json::Value` holds.
pub uninterp spec fn value_contents(v: serde_json::Value) -> JsonView;

/// What `serde_json::from_str` reads in a text, where the text is a JSON document.
pub uninterp spec fn json_document(text: Seq<char>) -> Option<JsonView>;

/// A `serde_json::Value` taken apart, one level deep.
enum ValueParts<'a> {
    Null,
    Bool(bool),
    Number(&'a serde_json::Number),
    String(&'a String),
    Array(&'a Vec<serde_json::Value>),
    Object(Vec<(&'a String, &'a serde_json::Value)>),
}

/// The contents of a list of values.
spec fn items_contents(items: Seq<serde_json::Value>) -> Seq<JsonView> {
    items.map_values(|v: serde_json::Value| value_contents(v))
}

/// The contents of a list of entries.
spec fn entries_contents(entries: Seq<(&String, &serde_json::Value)>) -> Seq<
    (Seq<char>, JsonView),
> {
    entries.map_values(|e: (&String, &serde_json::Value)| (e.0@, value_contents(*e.1)))
}

/// Tells the variants of `serde_json::Value` apart: the parts are the variant's own fields, and
/// the entries of an object are those that `serde_json::Map::iter` gives, in its order.
#[verifier::external_body]
fn value_parts(v: &serde_json::Value) -> (r: ValueParts<'_>)
    ensures
        match r {
            ValueParts::Null => value_contents(*v) == JsonView::Null,
            ValueParts::Bool(b) => value_contents(*v) == JsonView::Bool(b),
            ValueParts::Number(n) => value_contents(*v) == JsonView::Number(number_contents(*n)),
            ValueParts::String(s) => value_contents(*v) == JsonView::String(s@),
            ValueParts::Array(items) => value_contents(*v) == JsonView::Array(
                items_contents(items@),
            ),
            ValueParts::Object(entries) => value_contents(*v) == JsonView::Object(
                entries_contents(entries@),
            ),
        },
{
    match v {
        serde_json::Value::Null => ValueParts::Null,
        serde_json::Value::Bool(b) => ValueParts::Bool(*b),
        serde_json::Value::Number(n) => ValueParts::Number(n),
        serde_json::Value::String(s) => ValueParts::String(s),
        serde_json::Value::Array(items) => ValueParts::Array(items),
        serde_json::Value::Object(entries) => ValueParts::Object(entries.iter().collect()),
    }
}

/// `serde_json::Number::as_u64`: the number, where it is a natural one.
#[verifier::external_body]
fn number_u64(n: &serde_json::Number) -> (r: Option<u64>)
    ensures
        r == match number_contents(*n) {
            JsonNumberView::PosInt(k) => Some(k),
            _ => None,
        },
{
    n.as_u64()
}

/// `serde_json::Number::as_i64`: the number, where it is an integer that fits.
#[verifier::external_body]
fn number_i64(n: &serde_json::Number) -> (r: Option<i64>)
    ensures
        r == number_contents(*n).as_i64(),
{
    n.as_i64()
}

/// `serde_json::Number`'s `Display`: the text of a number with a fraction or an exponent.
#[verifier::external_body]
fn number_text(n: &serde_json::Number) -> (r: String)
    ensures
        number_contents(*n) matches JsonNumberView::Float(t) ==> r@ == t,
{
    n.to_string()
}

/// `serde_json::from_str`: reads a JSON document. Every string in the document is shorter than the
/// text, for the text holds it between quotes and an escape is never shorter than what it stands
/// for.
#[verifier::external_body]
fn read_document(text: &str) -> (r: Option<serde_json::Value>)
    ensures
        match r {
            Some(v) => json_document(text@) == Some(value_contents(v)) && longest_string(
                value_contents(v),
            ) < text@.len(),
            None => json_document(text@) is None,
        },
{
    serde_json::from_str(text).ok()
}

/// A number as this library holds it.
pub(crate) fn lift_number(n: &serde_json::Number) -> (r: JsonNumber)
    ensures
        r@ == number_contents(*n),
{
    if let Some(k) = number_u64(n) {
        return JsonNumber::PosInt(k);
    }
    if let Some(k) = number_i64(n) {
        return JsonNumber::NegInt(k);
    }
    JsonNumber::Float(number_text(n))
}

/// A value as this library holds it.
fn lift_value(v: &serde_json::Value) -> (r: Json)
    ensures
        r@ == value_contents(*v),
    decreases value_contents(*v),
{
    broadcast use lemma_json_model;

    match value_parts(v) {
        ValueParts::Null => Json::Null,
        ValueParts::Bool(b) => Json::Bool(b),
        ValueParts::Number(n) => Json::Number(lift_number(n)),
        ValueParts::String(s) => Json::String(s.clone()),
        ValueParts::Array(items) => {
            let mut out: Vec<Json> = Vec::new();
            let mut i: usize = 0;
            while i < items.len()
                invariant
                    value_contents(*v) == JsonView::Array(items_contents(items@)),
                    i <= items@.len(),
                    out@.len() == i,
                    forall|k: int| 0 <= k < i ==> (#[trigger] out@[k])@ == value_contents(items@[k]),
                decreases items@.len() - i,
            {
                proof {
                    let whole = value_contents(*v);
                    assert(whole->Array_0[i as int] == value_contents(items@[i as int]));
                    assert(decreases_to!(whole => whole->Array_0[i as int]));
                }
                let item: Json = lift_value(&items[i]);
                out.push(item);
                i = i + 1;
            }
            assert(json_items(out@) =~= items_contents(items@));
            Json::Array(out)
        },
        ValueParts::Object(entries) => {
            let mut out: Vec<(String, Json)> = Vec::new();
            let mut i: usize = 0;
            while i < entries.len()
                invariant
                    value_contents(*v) == JsonView::Object(entries_contents(entries@)),
                    i <= entries@.len(),
                    out@.len() == i,
                    forall|k: int|
                        0 <= k < i ==> (#[trigger] out@[k]).0@ == entries@[k].0@ && out@[k].1@
                            == value_contents(*entries@[k].1),
                decreases entries@.len() - i,
            {
                proof {
                    let whole = value_contents(*v);
                    let entry = whole->Object_0[i as int];
                    assert(entry == (entries@[i as int].0@, value_contents(*entries@[i as int].1)));
                    assert(decreases_to!(whole => whole->Object_0[i as int]));
                    assert(decreases_to!(entry => entry.1));
                }
                let value: Json = lift_value(entries[i].1);
                out.push((entries[i].0.clone(), value));
                i = i + 1;
            }
            assert(json_entries(out@) =~= entries_contents(entries@));
            Json::Object(out)
        },
    }
}

/// Reads a JSON document.
pub fn parse_json(text: &str) -> (r: Option<Json>)
    ensures
        match r {
            Some(v) => json_document(text@) == Some(v@) && longest_string(v@) < text@.len(),
            None => json_document(text@) is None,
        },
{
    match read_document(text) {
        Some(v) => Some(lift_value(&v)),
        None => None,
    }
}

/// The larger of two numbers.
pub open spec fn larger(a: nat, b: nat) -> nat {
    if a < b {
        b
    } else {
        a
    }
}

/// The length of the longest string value inside a value; keys do not count.
pub open spec fn longest_string(v: JsonView) -> nat
    decreases v,
{
    match v {
        JsonView::String(s) => s.len(),
        JsonView::Array(items) => longest_item(items),
        JsonView::Object(entries) => longest_entry(entries),
        _ => 0,
    }
}

/// The length of the longest string value inside some values.
pub open spec fn longest_item(items: Seq<JsonView>) -> nat
    decreases items,
{
    if items.len() == 0 {
        0
    } else {
        larger(
            longest_item(items.subrange(0, items.len() - 1)),
            longest_string(items[items.len() - 1]),
        )
    }
}

/// The length of the longest string value inside the values of some entries.
pub open spec fn longest_entry(entries: Seq<(Seq<char>, JsonView)>) -> nat
    decreases entries,
{
    if entries.len() == 0 {
        0
    } else {
        larger(
            longest_entry(entries.subrange(0, entries.len() - 1)),
            longest_string(entries[entries.len() - 1].1),
        )
    }
}

proof fn lemma_longest_item(items: Seq<JsonView>, i: int)
    requires
        0 <= i < items.len(),
    ensures
        longest_string(items[i]) <= longest_item(items),
    decreases items.len(),
{
    if i < items.len() - 1 {
        let init = items.subrange(0, items.len() - 1);
        lemma_longest_item(init, i);
        assert(init[i] == items[i]);
    }
}

proof fn lemma_longest_entry(entries: Seq<(Seq<char>, JsonView)>, i: int)
    requires
        0 <= i < entries.len(),
    ensures
        longest_string(entries[i].1) <= longest_entry(entries),
    decreases entries.len(),
{
    if i < entries.len() - 1 {
        let init = entries.subrange(0, entries.len() - 1);
        lemma_longest_entry(init, i);
        assert(init[i] == entries[i]);
    }
}

/// Whether a text has the outer shape of a JSON object or array.
pub open spec fn looks_like_document(text: Seq<char>) -> bool {
    ||| ("{"@.is_prefix_of(text) && "}"@.is_suffix_of(text))
    ||| ("["@.is_prefix_of(text) && "]"@.is_suffix_of(text))
}

/// The document that a string holds, where it holds one.
pub open spec fn embedded_document(s: Seq<char>) -> Option<JsonView> {
    if looks_like_document(trimmed(s)) {
        match json_document(trimmed(s)) {
            Some(v) => if longest_string(v) < s.len() {
                Some(v)
            } else {
                None
            },
            None => None,
        }
    } else {
        None
    }
}

/// A value with every string that holds a JSON object or array replaced by what it holds, and so on
/// inside what it holds.
pub open spec fn promoted(v: JsonView) -> JsonView
    decreases longest_string(v), v,
    via promoted_decreases
{
    match v {
        JsonView::String(s) => match embedded_document(s) {
            Some(inner) => promoted(inner),
            None => v,
        },
        JsonView::Array(items) => JsonView::Array(
            Seq::new(
                items.len(),
                |i: int|
                    if 0 <= i < items.len() {
                        promoted(items[i])
                    } else {
                        JsonView::Null
                    },
            ),
        ),
        JsonView::Object(entries) => JsonView::Object(
            Seq::new(
                entries.len(),
                |i: int|
                    if 0 <= i < entries.len() {
                        (entries[i].0, promoted(entries[i].1))
                    } else {
                        (Seq::empty(), JsonView::Null)
                    },
            ),
        ),
        _ => v,
    }
}

#[via_fn]
proof fn promoted_decreases(v: JsonView) {
    match v {
        JsonView::Array(items) => {
            assert forall|i: int| 0 <= i < items.len() implies longest_string(#[trigger] items[i])
                <= longest_string(v) by {
                lemma_longest_item(items, i);
            }
        },
        JsonView::Object(entries) => {
            assert forall|i: int| 0 <= i < entries.len() implies longest_string(
                (#[trigger] entries[i]).1,
            ) <= longest_string(v) && decreases_to!(v => entries[i].1) by {
                lemma_longest_entry(entries, i);
                assert(decreases_to!(entries => entries[i]));
                assert(decreases_to!(entries[i] => entries[i].1));
            }
        },
        _ => {},
    }
}

/// A value with every string that holds a JSON object or array replaced by what it holds, and so on
/// inside what it holds, so that a policy written as a JSON text and one written as an object look
/// alike.
pub fn promote_embedded_json(v: Json) -> (r: Json)
    ensures
        r@ == promoted(v@),
    decreases longest_string(v@), v@,
{
    broadcast use lemma_json_model;

    match v {
        Json::String(s) => {
            let text = trim(s.as_str());
            let is_object = starts_with(text, "{") && ends_with(text, "}");
            let is_array = starts_with(text, "[") && ends_with(text, "]");
            if is_object || is_array {
                match parse_json(text) {
                    Some(inner) => promote_embedded_json(inner),
                    None => Json::String(s),
                }
            } else {
                Json::String(s)
            }
        },
        Json::Array(items) => {
            let ghost whole = JsonView::Array(json_items(items@));
            let mut out: Vec<Json> = Vec::new();
            let mut i: usize = 0;
            while i < items.len()
                invariant
                    v@ == whole,
                    whole == JsonView::Array(json_items(items@)),
                    i <= items@.len(),
                    out@.len() == i,
                    forall|k: int| 0 <= k < i ==> (#[trigger] out@[k])@ == promoted(items@[k]@),
                decreases items@.len() - i,
            {
                proof {
                    let views = json_items(items@);
                    lemma_longest_item(views, i as int);
                    assert(views[i as int] == items@[i as int]@);
                    assert(decreases_to!(whole => whole->Array_0[i as int]));
                }
                let item: Json = promote_embedded_json(items[i].clone());
                out.push(item);
                i = i + 1;
            }
            assert(json_items(out@) =~= promoted(whole)->Array_0);
            Json::Array(out)
        },
        Json::Object(entries) => {
            let ghost whole = JsonView::Object(json_entries(entries@));
            let mut out: Vec<(String, Json)> = Vec::new();
            let mut i: usize = 0;
            while i < entries.len()
                invariant
                    v@ == whole,
                    whole == JsonView::Object(json_entries(entries@)),
                    i <= entries@.len(),
                    out@.len() == i,
                    forall|k: int|
                        0 <= k < i ==> (#[trigger] out@[k]).0@ == entries@[k].0@ && out@[k].1@
                            == promoted(entries@[k].1@),
                decreases entries@.len() - i,
            {
                proof {
                    let views = json_entries(entries@);
                    lemma_longest_entry(views, i as int);
                    let entry = whole->Object_0[i as int];
                    assert(entry == (entries@[i as int].0@, entries@[i as int].1@));
                    assert(decreases_to!(whole => whole->Object_0[i as int]));
                    assert(decreases_to!(entry => entry.1));
                }
                let value: Json = promote_embedded_json(entries[i].1.clone());
                out.push((entries[i].0.clone(), value));
                i = i + 1;
            }
            assert(json_entries(out@) =~= promoted(whole)->Object_0);
            Json::Object(out)
        },
        other => other,
    }
}

/// Replacing strings by the documents that they hold leaves nothing more to replace.
pub proof fn law_promotion_is_done_at_once(v: JsonView)
    ensures
        promoted(promoted(v)) == promoted(v),
    decreases longest_string(v), v,
{
    match v {
        JsonView::String(s) => {
            if let Some(inner) = embedded_document(s) {
                law_promotion_is_done_at_once(inner);
            }
        },
        JsonView::Array(items) => {
            let once = promoted(v)->Array_0;
            assert forall|i: int| 0 <= i < items.len() implies promoted(#[trigger] once[i])
                == once[i] by {
                lemma_longest_item(items, i);
                law_promotion_is_done_at_once(items[i]);
            }
            assert(promoted(promoted(v))->Array_0 =~= once);
        },
        JsonView::Object(entries) => {
            let once = promoted(v)->Object_0;
            assert forall|i: int| 0 <= i < entries.len() implies promoted((#[trigger] once[i]).1)
                == once[i].1 by {
                lemma_longest_entry(entries, i);
                assert(decreases_to!(v => v->Object_0[i]));
                assert(decreases_to!(entries[i] => entries[i].1));
                law_promotion_is_done_at_once(entries[i].1);
            }
            assert(promoted(promoted(v))->Object_0 =~= once);
        },
        _ => {},
    }
}

/// A string that holds a document stands for what the document stands for.
pub proof fn law_document_stands_for_its_text(s: Seq<char>, document: JsonView)
    requires
        embedded_document(s) == Some(document),
    ensures
        promoted(JsonView::String(s)) == promoted(document),
{
}

} // verus!
