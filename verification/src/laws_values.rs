//! What becomes of values: lookups in objects, texts that hold documents, and positions in a graph.

use crate::embedded::{json_document, larger, longest_entry, longest_item, longest_string, promoted};
use crate::graph::{
    GraphView,
    LinkView,
    ResourceView,
    all_distinct,
    first_duplicate,
    lemma_position_of,
    links_from,
    links_into,
    position_of,
};
use crate::json::{
    JsonNumberView,
    JsonView,
    law_lookup_after_insert,
    lemma_key_found,
    lemma_key_from,
    with_entry,
};
use crate::laws_graph::address;
use crate::text::trimmed;
use vstd::prelude::*;

verus! {

/// An object that is given a value under a key has it there, and under every other key what it had. Its
/// entries keep their places, and there is one more exactly if the key is new.
pub proof fn law_values_are_put_in_place(
    entries: Seq<(Seq<char>, JsonView)>,
    key: Seq<char>,
    value: JsonView,
    asked: Seq<char>,
    i: int,
)
    ensures
        JsonView::Object(with_entry(entries, key, value)).get(key) == Some(value),
        asked != key ==> JsonView::Object(with_entry(entries, key, value)).get(asked)
            == JsonView::Object(entries).get(asked),
        JsonView::Object(entries).get(key) is None ==> with_entry(entries, key, value)
            == entries.push((key, value)),
        JsonView::Object(entries).get(key) is Some ==> with_entry(entries, key, value).len()
            == entries.len(),
        0 <= i < entries.len() ==> with_entry(entries, key, value)[i].0 == entries[i].0,
        0 <= i < entries.len() && entries[i].0 != key ==> with_entry(entries, key, value)[i]
            == entries[i],
{
    law_lookup_after_insert(entries, key, value, asked);
    law_lookup_after_insert(entries, key, value, key);
    lemma_key_from(entries, key, 0);
}

/// An object has under a key what the first entry with the key holds, and nothing where there is none;
/// nothing else has anything under a key.
pub proof fn law_objects_are_asked_by_key(
    entries: Seq<(Seq<char>, JsonView)>,
    key: Seq<char>,
    at: int,
    other: JsonView,
    i: int,
)
    ensures
        0 <= at < entries.len() && entries[at].0 == key && (forall|j: int|
            0 <= j < at ==> (#[trigger] entries[j]).0 != key) ==> JsonView::Object(entries).get(key)
            == Some(entries[at].1),
        (forall|j: int| 0 <= j < entries.len() ==> (#[trigger] entries[j]).0 != key)
            ==> JsonView::Object(entries).get(key) is None,
        !(other is Object) ==> other.get(key) is None,
        !(other is Array) ==> other.at(i) is None,
        other matches JsonView::Array(items) ==> other.at(i) == if 0 <= i < items.len() {
            Some(items[i])
        } else {
            None
        },
{
    lemma_key_from(entries, key, 0);
    if 0 <= at < entries.len() && entries[at].0 == key && (forall|j: int|
        0 <= j < at ==> (#[trigger] entries[j]).0 != key) {
        lemma_key_found(entries, key, 0, at);
    }
}

/// A number made of an integer reads back as it.
pub proof fn law_integers_are_read_back(n: int)
    requires
        i64::MIN <= n <= i64::MAX,
    ensures
        JsonView::Number(JsonNumberView::from_int(n)).as_i64() == Some(n as i64),
        JsonView::Number(JsonNumberView::from_int(n)) is Number,
{
}

/// Whether a text, but for white space around it, is in braces or in brackets.
pub open spec fn is_enclosed(s: Seq<char>) -> bool {
    let t = trimmed(s);
    t.len() > 0 && (t[0] == '{' && t.last() == '}' || t[0] == '[' && t.last() == ']')
}

/// A text in braces or brackets that reads as a document stands for the document, with the texts in
/// it that hold documents replaced as well. Every other text stays as it is.
pub proof fn law_enclosed_texts_are_read(s: Seq<char>, v: JsonView)
    ensures
        is_enclosed(s) && json_document(trimmed(s)) == Some(v) && longest_string(v) < s.len()
            ==> promoted(JsonView::String(s)) == promoted(v),
        !is_enclosed(s) ==> promoted(JsonView::String(s)) == JsonView::String(s),
        json_document(trimmed(s)) is None ==> promoted(JsonView::String(s)) == JsonView::String(s),
{
    reveal_strlit("{");
    reveal_strlit("}");
    reveal_strlit("[");
    reveal_strlit("]");
    let t = trimmed(s);
    if t.len() > 0 {
        assert(t.subrange(0, 1)[0] == t[0]);
        assert(t.subrange(t.len() - 1, t.len() as int)[0] == t.last());
        assert("{"@.is_prefix_of(t) <==> t[0] == '{') by {
            if t[0] == '{' {
                assert(t.subrange(0, 1) =~= "{"@);
            }
        }
        assert("["@.is_prefix_of(t) <==> t[0] == '[') by {
            if t[0] == '[' {
                assert(t.subrange(0, 1) =~= "["@);
            }
        }
        assert("}"@.is_suffix_of(t) <==> t.last() == '}') by {
            if t.last() == '}' {
                assert(t.subrange(t.len() - 1, t.len() as int) =~= "}"@);
            }
        }
        assert("]"@.is_suffix_of(t) <==> t.last() == ']') by {
            if t.last() == ']' {
                assert(t.subrange(t.len() - 1, t.len() as int) =~= "]"@);
            }
        }
    }
}

/// Texts that hold documents are replaced in every item of a list and under every key of an object,
/// and nothing else changes.
pub proof fn law_promotion_goes_everywhere(
    items: Seq<JsonView>,
    entries: Seq<(Seq<char>, JsonView)>,
    other: JsonView,
)
    ensures
        promoted(JsonView::Array(items)) matches JsonView::Array(after) && after.len()
            == items.len() && forall|i: int|
            0 <= i < items.len() ==> #[trigger] after[i] == promoted(items[i]),
        promoted(JsonView::Object(entries)) matches JsonView::Object(after) && after.len()
            == entries.len() && forall|i: int|
            0 <= i < entries.len() ==> (#[trigger] after[i]).0 == entries[i].0 && after[i].1
                == promoted(entries[i].1),
        other is Null || other is Bool || other is Number ==> promoted(other) == other,
{
}

/// The edges that leave a node are those whose source it is, and those that enter it are those whose
/// target it is; the newest comes first. One more edge comes first in the lists of its ends, and changes
/// no other list.
pub proof fn law_edges_are_listed_at_their_ends(links: Seq<LinkView>, link: LinkView, ix: int)
    ensures
        links_from(Seq::empty(), ix) == Seq::<int>::empty(),
        links_into(Seq::empty(), ix) == Seq::<int>::empty(),
        links_from(links.push(link), ix) == if link.from == ix {
            seq![links.len() as int] + links_from(links, ix)
        } else {
            links_from(links, ix)
        },
        links_into(links.push(link), ix) == if link.to == ix {
            seq![links.len() as int] + links_into(links, ix)
        } else {
            links_into(links, ix)
        },
{
    assert(links.push(link).drop_last() =~= links);
}

/// A node is found by its address exactly if there is one that has it, and is the one that has it.
pub proof fn law_nodes_are_found_by_address(g: GraphView, id: Seq<char>, i: int)
    requires
        g.wf(),
        0 <= i < g.nodes.len(),
    ensures
        position_of(g.nodes, id) == Some(i) <==> g.nodes[i].id == id,
        position_of(g.nodes, id) is None ==> g.nodes[i].id != id,
{
    lemma_position_of(g.nodes, id);
    if g.nodes[i].id == id {
        let p = position_of(g.nodes, id)->Some_0;
        if p < i {
            assert(g.nodes[p].id != g.nodes[i].id);
        }
    }
}

/// Of the resources of which two have the same address, the first pair is told: the second of it comes
/// before the second of any other pair. There is such a pair exactly if not all addresses differ.
pub proof fn law_first_duplicates_are_told(rs: Seq<ResourceView>, i: int, j: int, a: int, b: int)
    ensures
        first_duplicate(rs, i, j) ==> 0 <= i < j < rs.len() && address(rs[i]) == address(rs[j]),
        first_duplicate(rs, i, j) && 0 <= a < b < rs.len() && address(rs[a]) == address(rs[b])
            ==> j <= b,
        first_duplicate(rs, i, j) ==> !all_distinct(rs),
        !all_distinct(rs) ==> exists|x: int, y: int| #[trigger] first_duplicate(rs, x, y),
        all_distinct(rs) && 0 <= a < b < rs.len() ==> address(rs[a]) != address(rs[b]),
{
    if first_duplicate(rs, i, j) && 0 <= a < b < rs.len() && address(rs[a]) == address(rs[b]) {
        if b < j {
            assert(rs[a].id() != rs[b].id());
        }
    }
    if first_duplicate(rs, i, j) && all_distinct(rs) {
        assert(rs[i].id() != rs[j].id());
    }
    if !all_distinct(rs) {
        lemma_first_duplicate(rs, rs.len());
    }
    if all_distinct(rs) && 0 <= a < b < rs.len() {
        assert(rs[a].id() != rs[b].id());
    }
}

proof fn lemma_first_duplicate(rs: Seq<ResourceView>, n: nat)
    requires
        n <= rs.len(),
        exists|a: int, b: int|
            0 <= a < b < n && (#[trigger] rs[a]).id() == (#[trigger] rs[b]).id(),
    ensures
        exists|x: int, y: int| #[trigger] first_duplicate(rs, x, y),
    decreases n,
{
    let (a, b) = choose|a: int, b: int|
        0 <= a < b < n && (#[trigger] rs[a]).id() == (#[trigger] rs[b]).id();
    if exists|x: int, y: int|
        0 <= x < y < b && (#[trigger] rs[x]).id() == (#[trigger] rs[y]).id() {
        lemma_first_duplicate(rs, b as nat);
    } else {
        assert(first_duplicate(rs, a, b));
    }
}

/// The longest text in a value is the text itself, or the longest of its items or of what stands under
/// its keys.
pub proof fn law_longest_texts(
    s: Seq<char>,
    items: Seq<JsonView>,
    x: JsonView,
    entries: Seq<(Seq<char>, JsonView)>,
    key: Seq<char>,
)
    ensures
        longest_string(JsonView::String(s)) == s.len(),
        x is Null || x is Bool || x is Number ==> longest_string(x) == 0,
        longest_string(JsonView::Array(Seq::empty())) == 0,
        longest_string(JsonView::Object(Seq::empty())) == 0,
        longest_string(JsonView::Array(items.push(x))) == larger(
            longest_string(JsonView::Array(items)),
            longest_string(x),
        ),
        longest_string(JsonView::Object(entries.push((key, x)))) == larger(
            longest_string(JsonView::Object(entries)),
            longest_string(x),
        ),
        larger(s.len(), items.len()) >= s.len() && larger(s.len(), items.len()) >= items.len(),
        larger(s.len(), items.len()) == s.len() || larger(s.len(), items.len()) == items.len(),
{
    let more = items.push(x);
    assert(more.subrange(0, more.len() - 1) =~= items);
    assert(longest_item(more) == larger(longest_item(items), longest_string(more[items.len() as int])));
    let long = entries.push((key, x));
    assert(long.subrange(0, long.len() - 1) =~= entries);
    assert(longest_entry(long) == larger(
        longest_entry(entries),
        longest_string(long[entries.len() as int].1),
    ));
    assert(longest_item(Seq::empty()) == 0);
    assert(longest_entry(Seq::empty()) == 0);
}

} // verus!
