//! JSON values: what a resource's attributes are turned into, and what predicates are asked about.

use crate::text::same_text;
use vstd::prelude::*;

verus! {

/// A JSON number. A number with a fraction or an exponent is kept as the shortest text that reads
/// back as the same number.
#[derive(Debug)]
pub enum JsonNumber {
    PosInt(u64),
    NegInt(i64),
    Float(String),
}

/// The contents of a [`JsonNumber`].
pub enum JsonNumberView {
    PosInt(u64),
    NegInt(i64),
    Float(Seq<char>),
}

impl View for JsonNumber {
    type V = JsonNumberView;

    open spec fn view(&self) -> JsonNumberView {
        match self {
            JsonNumber::PosInt(n) => JsonNumberView::PosInt(*n),
            JsonNumber::NegInt(n) => JsonNumberView::NegInt(*n),
            JsonNumber::Float(t) => JsonNumberView::Float(t@),
        }
    }
}

impl Clone for JsonNumber {
    fn clone(&self) -> (r: Self)
        ensures
            r@ == self@,
    {
        match self {
            JsonNumber::PosInt(n) => JsonNumber::PosInt(*n),
            JsonNumber::NegInt(n) => JsonNumber::NegInt(*n),
            JsonNumber::Float(t) => JsonNumber::Float(t.clone()),
        }
    }
}

impl JsonNumberView {
    /// The JSON number for an integer.
    pub open spec fn from_int(n: int) -> JsonNumberView {
        if n < 0 {
            JsonNumberView::NegInt(n as i64)
        } else {
            JsonNumberView::PosInt(n as u64)
        }
    }

    /// The number as a signed integer, where it is one that fits.
    pub open spec fn as_i64(self) -> Option<i64> {
        match self {
            JsonNumberView::PosInt(n) => if n <= i64::MAX {
                Some(n as i64)
            } else {
                None
            },
            JsonNumberView::NegInt(n) => Some(n),
            JsonNumberView::Float(_) => None,
        }
    }
}

impl JsonNumber {
    /// The JSON number for an integer.
    pub fn from_int(n: i64) -> (r: JsonNumber)
        ensures
            r@ == JsonNumberView::from_int(n as int),
    {
        if n < 0 {
            JsonNumber::NegInt(n)
        } else {
            JsonNumber::PosInt(n as u64)
        }
    }

    /// The number as a signed integer, where it is one that fits.
    pub fn as_i64(&self) -> (r: Option<i64>)
        ensures
            r == self@.as_i64(),
    {
        match self {
            JsonNumber::PosInt(n) => if *n <= i64::MAX as u64 {
                Some(*n as i64)
            } else {
                None
            },
            JsonNumber::NegInt(n) => Some(*n),
            JsonNumber::Float(_) => None,
        }
    }
}

/// A JSON value. The entries of an object stand in the order in which they were added.
#[derive(Debug)]
pub enum Json {
    Null,
    Bool(bool),
    Number(JsonNumber),
    String(String),
    Array(Vec<Json>),
    Object(Vec<(String, Json)>),
}

/// The contents of a [`Json`].
pub enum JsonView {
    Null,
    Bool(bool),
    Number(JsonNumberView),
    String(Seq<char>),
    Array(Seq<JsonView>),
    Object(Seq<(Seq<char>, JsonView)>),
}

impl Json {
    /// The contents of the value.
    pub open spec fn model(self) -> JsonView
        decreases self,
    {
        match self {
            Json::Null => JsonView::Null,
            Json::Bool(b) => JsonView::Bool(b),
            Json::Number(n) => JsonView::Number(n@),
            Json::String(s) => JsonView::String(s@),
            Json::Array(items) => JsonView::Array(
                Seq::new(
                    items@.len(),
                    |i: int|
                        if 0 <= i < items@.len() {
                            items@[i].model()
                        } else {
                            JsonView::Null
                        },
                ),
            ),
            Json::Object(entries) => JsonView::Object(
                Seq::new(
                    entries@.len(),
                    |i: int|
                        if 0 <= i < entries@.len() {
                            (entries@[i].0@, entries@[i].1.model())
                        } else {
                            (Seq::empty(), JsonView::Null)
                        },
                ),
            ),
        }
    }
}

impl View for Json {
    type V = JsonView;

    open spec fn view(&self) -> JsonView {
        self.model()
    }
}

/// The contents of a list of values.
pub open spec fn json_items(items: Seq<Json>) -> Seq<JsonView> {
    items.map_values(|v: Json| v@)
}

/// The contents of a list of object entries.
pub open spec fn json_entries(entries: Seq<(String, Json)>) -> Seq<(Seq<char>, JsonView)> {
    entries.map_values(|e: (String, Json)| (e.0@, e.1@))
}

/// An array holds the contents of its items, an object those of its entries.
pub broadcast proof fn lemma_json_model(v: Json)
    ensures
        match v {
            Json::Array(items) => #[trigger] v.model() == JsonView::Array(json_items(items@)),
            Json::Object(entries) => v.model() == JsonView::Object(json_entries(entries@)),
            _ => true,
        },
{
    match v {
        Json::Array(items) => {
            assert(v.model()->Array_0 =~= json_items(items@));
        },
        Json::Object(entries) => {
            assert(v.model()->Object_0 =~= json_entries(entries@));
        },
        _ => {},
    }
}

/// The position of the first entry with this key, from `from` on.
pub open spec fn key_from(entries: Seq<(Seq<char>, JsonView)>, key: Seq<char>, from: int) -> Option<
    int,
>
    decreases entries.len() - from,
{
    if from < 0 || from >= entries.len() {
        None
    } else if entries[from].0 == key {
        Some(from)
    } else {
        key_from(entries, key, from + 1)
    }
}

/// The value that an object's entries give a key.
pub open spec fn lookup(entries: Seq<(Seq<char>, JsonView)>, key: Seq<char>) -> Option<JsonView> {
    match key_from(entries, key, 0) {
        Some(i) => Some(entries[i].1),
        None => None,
    }
}

/// An object's entries with a key given a value: in place where the key is there, else at the end.
pub open spec fn with_entry(
    entries: Seq<(Seq<char>, JsonView)>,
    key: Seq<char>,
    value: JsonView,
) -> Seq<(Seq<char>, JsonView)> {
    match key_from(entries, key, 0) {
        Some(i) => entries.update(i, (key, value)),
        None => entries.push((key, value)),
    }
}

/// The position that is found holds the key, and no earlier one does.
pub proof fn lemma_key_from(entries: Seq<(Seq<char>, JsonView)>, key: Seq<char>, from: int)
    requires
        0 <= from,
    ensures
        match key_from(entries, key, from) {
            Some(i) => from <= i < entries.len() && entries[i].0 == key && (forall|j: int|
                from <= j < i ==> (#[trigger] entries[j]).0 != key),
            None => forall|j: int| from <= j < entries.len() ==> (#[trigger] entries[j]).0 != key,
        },
    decreases entries.len() - from,
{
    if from < entries.len() && entries[from].0 != key {
        lemma_key_from(entries, key, from + 1);
    }
}

/// Where the key stands first is where it is found.
pub proof fn lemma_key_found(
    entries: Seq<(Seq<char>, JsonView)>,
    key: Seq<char>,
    from: int,
    at: int,
)
    requires
        0 <= from <= at < entries.len(),
        entries[at].0 == key,
        forall|j: int| from <= j < at ==> (#[trigger] entries[j]).0 != key,
    ensures
        key_from(entries, key, from) == Some(at),
    decreases at - from,
{
    if from < at {
        lemma_key_found(entries, key, from + 1, at);
    }
}

/// Giving a key a value is seen when that key is looked up, and by no other key.
pub proof fn law_lookup_after_insert(
    entries: Seq<(Seq<char>, JsonView)>,
    key: Seq<char>,
    value: JsonView,
    asked: Seq<char>,
)
    ensures
        lookup(with_entry(entries, key, value), asked) == if asked == key {
            Some(value)
        } else {
            lookup(entries, asked)
        },
{
    let after = with_entry(entries, key, value);
    lemma_key_from(entries, key, 0);
    lemma_key_from(entries, asked, 0);
    lemma_key_from(after, asked, 0);
    match key_from(entries, key, 0) {
        Some(i) => {
            if asked == key {
                lemma_key_found(after, key, 0, i);
            } else {
                match key_from(entries, asked, 0) {
                    Some(j) => {
                        assert(after[j] == entries[j]);
                        assert forall|k: int| 0 <= k < j implies (#[trigger] after[k]).0
                            != asked by {
                            assert(entries[k].0 != asked);
                        }
                        lemma_key_found(after, asked, 0, j);
                    },
                    None => {
                        if let Some(j) = key_from(after, asked, 0) {
                            assert(entries[j].0 != asked);
                        }
                    },
                }
            }
        },
        None => {
            if asked == key {
                assert forall|k: int| 0 <= k < entries.len() implies (#[trigger] after[k]).0
                    != asked by {
                    assert(after[k] == entries[k]);
                }
                lemma_key_found(after, key, 0, entries.len() as int);
            } else {
                match key_from(entries, asked, 0) {
                    Some(j) => {
                        assert(after[j] == entries[j]);
                        assert forall|k: int| 0 <= k < j implies (#[trigger] after[k]).0
                            != asked by {
                            assert(after[k] == entries[k]);
                        }
                        lemma_key_found(after, asked, 0, j);
                    },
                    None => {
                        if let Some(j) = key_from(after, asked, 0) {
                            if j < entries.len() {
                                assert(entries[j].0 != asked);
                            }
                        }
                    },
                }
            }
        },
    }
}

impl JsonView {
    /// The value under a key, where this is an object that has it.
    pub open spec fn get(self, key: Seq<char>) -> Option<JsonView> {
        match self {
            JsonView::Object(entries) => lookup(entries, key),
            _ => None,
        }
    }

    /// The item at a position, where this is an array that is long enough.
    pub open spec fn at(self, i: int) -> Option<JsonView> {
        match self {
            JsonView::Array(items) => if 0 <= i < items.len() {
                Some(items[i])
            } else {
                None
            },
            _ => None,
        }
    }

    /// The text, where this is a string.
    pub open spec fn as_str(self) -> Option<Seq<char>> {
        match self {
            JsonView::String(s) => Some(s),
            _ => None,
        }
    }

    /// The truth value, where this is one.
    pub open spec fn as_bool(self) -> Option<bool> {
        match self {
            JsonView::Bool(b) => Some(b),
            _ => None,
        }
    }

    /// The signed integer, where this is a number that is one.
    pub open spec fn as_i64(self) -> Option<i64> {
        match self {
            JsonView::Number(n) => n.as_i64(),
            _ => None,
        }
    }

    /// The items of an array, or the value itself as the only item.
    pub open spec fn listed(self) -> Seq<JsonView> {
        match self {
            JsonView::Array(items) => items,
            other => seq![other],
        }
    }
}

/// The contents behind an optional reference.
pub open spec fn opt_view(v: Option<&Json>) -> Option<JsonView> {
    match v {
        Some(j) => Some(j@),
        None => None,
    }
}

/// The contents behind a list of references.
pub open spec fn reference_views(items: Seq<&Json>) -> Seq<JsonView> {
    items.map_values(|v: &Json| v@)
}

/// The text behind an optional reference.
pub open spec fn opt_text(v: Option<&str>) -> Option<Seq<char>> {
    match v {
        Some(s) => Some(s@),
        None => None,
    }
}

/// The position of the first entry with this key.
pub(crate) fn find_key(entries: &Vec<(String, Json)>, key: &str) -> (r: Option<usize>)
    ensures
        match r {
            Some(i) => i < entries@.len() && key_from(json_entries(entries@), key@, 0) == Some(
                i as int,
            ),
            None => key_from(json_entries(entries@), key@, 0) is None,
        },
{
    let mut i: usize = 0;
    while i < entries.len()
        invariant
            i <= entries@.len(),
            key_from(json_entries(entries@), key@, 0) == key_from(
                json_entries(entries@),
                key@,
                i as int,
            ),
        decreases entries@.len() - i,
    {
        if same_text(entries[i].0.as_str(), key) {
            return Some(i);
        }
        i = i + 1;
    }
    None
}

/// Gives a key a value: in place where the key is there, else at the end.
pub fn insert_entry(entries: &mut Vec<(String, Json)>, key: String, value: Json)
    ensures
        json_entries(final(entries)@) == with_entry(json_entries(old(entries)@), key@, value@),
{
    let ghost before = json_entries(entries@);
    let ghost entry = (key@, value@);
    match find_key(entries, key.as_str()) {
        Some(i) => {
            entries.set(i, (key, value));
            assert(json_entries(entries@) =~= before.update(i as int, entry));
        },
        None => {
            entries.push((key, value));
            assert(json_entries(entries@) =~= before.push(entry));
        },
    }
}

impl Json {
    /// The value under a key, where this is an object that has it.
    pub fn get(&self, key: &str) -> (r: Option<&Json>)
        ensures
            opt_view(r) == self@.get(key@),
            r matches Some(v) ==> decreases_to!(self => v),
    {
        broadcast use lemma_json_model;

        match self {
            Json::Object(entries) => {
                match find_key(entries, key) {
                    Some(i) => {
                        assert(decreases_to!(entries@ => entries@[i as int]));
                        assert(decreases_to!(entries@[i as int] => entries@[i as int].1));
                        Some(&entries[i].1)
                    },
                    None => None,
                }
            },
            _ => None,
        }
    }

    /// The item at a position, where this is an array that is long enough.
    pub fn at(&self, i: usize) -> (r: Option<&Json>)
        ensures
            opt_view(r) == self@.at(i as int),
    {
        broadcast use lemma_json_model;

        match self {
            Json::Array(items) => {
                if i < items.len() {
                    Some(&items[i])
                } else {
                    None
                }
            },
            _ => None,
        }
    }

    /// The text, where this is a string.
    pub fn as_str(&self) -> (r: Option<&str>)
        ensures
            opt_text(r) == self@.as_str(),
    {
        match self {
            Json::String(s) => Some(s.as_str()),
            _ => None,
        }
    }

    /// The truth value, where this is one.
    pub fn as_bool(&self) -> (r: Option<bool>)
        ensures
            r == self@.as_bool(),
    {
        match self {
            Json::Bool(b) => Some(*b),
            _ => None,
        }
    }

    /// The signed integer, where this is a number that is one.
    pub fn as_i64(&self) -> (r: Option<i64>)
        ensures
            r == self@.as_i64(),
    {
        match self {
            Json::Number(n) => n.as_i64(),
            _ => None,
        }
    }

    /// The items of an array, or the value itself as the only item.
    pub fn listed(&self) -> (r: Vec<&Json>)
        ensures
            reference_views(r@) == self@.listed(),
    {
        broadcast use lemma_json_model;

        let mut out: Vec<&Json> = Vec::new();
        match self {
            Json::Array(items) => {
                let mut i: usize = 0;
                while i < items.len()
                    invariant
                        i <= items@.len(),
                        out@.len() == i,
                        forall|k: int| 0 <= k < i ==> *(#[trigger] out@[k]) == items@[k],
                    decreases items@.len() - i,
                {
                    out.push(&items[i]);
                    i = i + 1;
                }
            },
            _ => {
                out.push(self);
            },
        }
        assert(reference_views(out@) =~= self@.listed());
        out
    }
}

impl Clone for Json {
    fn clone(&self) -> (r: Self)
        ensures
            r@ == self@,
        decreases self,
    {
        broadcast use lemma_json_model;

        match self {
            Json::Null => Json::Null,
            Json::Bool(b) => Json::Bool(*b),
            Json::Number(n) => Json::Number(n.clone()),
            Json::String(s) => Json::String(s.clone()),
            Json::Array(items) => {
                let mut out: Vec<Json> = Vec::new();
                let mut i: usize = 0;
                while i < items.len()
                    invariant
                        self matches Json::Array(own) && own == items,
                        i <= items@.len(),
                        out@.len() == i,
                        forall|k: int| 0 <= k < i ==> (#[trigger] out@[k])@ == items@[k]@,
                    decreases items@.len() - i,
                {
                    assert(decreases_to!(self => items@[i as int]));
                    let item: Json = (&items[i]).clone();
                    out.push(item);
                    i = i + 1;
                }
                assert(json_items(out@) =~= json_items(items@));
                Json::Array(out)
            },
            Json::Object(entries) => {
                let mut out: Vec<(String, Json)> = Vec::new();
                let mut i: usize = 0;
                while i < entries.len()
                    invariant
                        self matches Json::Object(own) && own == entries,
                        i <= entries@.len(),
                        out@.len() == i,
                        forall|k: int|
                            0 <= k < i ==> (#[trigger] out@[k]).0@ == entries@[k].0@ && out@[k].1@
                                == entries@[k].1@,
                    decreases entries@.len() - i,
                {
                    assert(decreases_to!(entries@ => entries@[i as int]));
                    assert(decreases_to!(entries@[i as int] => entries@[i as int].1));
                    let value: Json = (&entries[i].1).clone();
                    out.push((entries[i].0.clone(), value));
                    i = i + 1;
                }
                assert(json_entries(out@) =~= json_entries(entries@));
                Json::Object(out)
            },
        }
    }
}

} // verus!
