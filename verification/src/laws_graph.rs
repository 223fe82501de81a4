//! Which resources, attributes and references the graph of some files holds, in terms of the blocks
//! that the files are made of.

use crate::embedded::promoted;
use crate::expr::{TraversalRefView, expr_unresolved, expr_value, is_reserved, refs};
use crate::graph::{
    FileView,
    LinkView,
    ResourceView,
    all_distinct,
    attributes_refs,
    attributes_value,
    block_list,
    blocks_refs,
    blocks_value,
    body_refs,
    body_unresolved,
    body_value,
    file_resources,
    files_resources,
    graph_of,
    inner_path,
    law_edges_are_the_references,
    lemma_position_of,
    link_of,
    makes_link,
    node_of,
    nodes_of,
    position_of,
    refs_links,
    resources,
    resources_links,
    with_block,
    within_limits,
};
use crate::json::{
    JsonView,
    key_from,
    law_lookup_after_insert,
    lemma_key_found,
    lemma_key_from,
    lookup,
};
use crate::laws_references::{law_traversals_refer, traversal};
use crate::laws_text::holds_char;
use crate::syntax::{ExprView, ItemView, StepView};
use crate::types::{ResourceKindView, kind_of};
use vstd::prelude::*;

verus! {

/// The address of a resource.
pub open spec fn address(r: ResourceView) -> Seq<char> {
    r.tf_type + "."@ + r.tf_name
}

/// Whether an edge is what a reference of one resource to another makes: from the one to the other,
/// with the file, the address and the attribute of the one as evidence.
pub open spec fn is_edge_of(
    rs: Seq<ResourceView>,
    link: LinkView,
    from: int,
    to: int,
    r: TraversalRefView,
) -> bool {
    &&& link.from == from
    &&& link.to == to
    &&& link.edge.kind is References
    &&& link.edge.evidence.file == rs[from].file
    &&& link.edge.evidence.resource_id == address(rs[from])
    &&& link.edge.evidence.attr_path == r.attr_path
    &&& link.edge.description == address(rs[from]) + "."@ + r.attr_path + " references "@
        + address(rs[to]) + " ("@ + r.full_path + ")"@
}

/// Every reference of a resource to the address of another makes an edge from the one to the other,
/// in whatever files the two stand and whichever comes first.
pub proof fn law_every_reference_is_resolved(
    rs: Seq<ResourceView>,
    from: int,
    to: int,
    r: TraversalRefView,
)
    requires
        all_distinct(rs),
        0 <= from < rs.len(),
        0 <= to < rs.len(),
        from != to,
        body_refs(rs[from].body, None).contains(r),
        r.target_id == address(rs[to]),
    ensures
        exists|i: int|
            0 <= i < graph_of(rs).links.len() && is_edge_of(
                rs,
                #[trigger] graph_of(rs).links[i],
                from,
                to,
                r,
            ),
{
    let nodes = nodes_of(rs);
    let list = body_refs(rs[from].body, None);
    let k = choose|k: int| 0 <= k < list.len() && list[k] == r;
    assert(nodes[from] == node_of(rs[from]));
    assert(nodes[to] == node_of(rs[to]));
    lemma_position_of(nodes, r.target_id);
    lemma_apart(rs, from, to);
    let p = position_of(nodes, r.target_id)->Some_0;
    assert(nodes[p] == node_of(rs[p]));
    if p != to {
        lemma_apart(rs, p, to);
    }
    let link = link_of(nodes, from, list[k])->Some_0;
    assert(makes_link(rs, from, link));
    law_edges_are_the_references(rs, link);
    let all = graph_of(rs).links;
    let i = choose|i: int| 0 <= i < all.len() && all[i] == link;
    assert(is_edge_of(rs, all[i], from, to, r));
}

proof fn lemma_apart(rs: Seq<ResourceView>, a: int, b: int)
    requires
        all_distinct(rs),
        0 <= a < rs.len(),
        0 <= b < rs.len(),
        a != b,
    ensures
        address(rs[a]) != address(rs[b]),
{
    if a < b {
        assert(rs[a].id() != rs[b].id());
    } else {
        assert(rs[b].id() != rs[a].id());
    }
}

/// Every edge of a graph is what a reference of one of its resources to the address of another makes.
pub proof fn law_every_edge_is_a_reference(rs: Seq<ResourceView>, i: int)
    requires
        0 <= i < graph_of(rs).links.len(),
    ensures
        exists|from: int, to: int, r: TraversalRefView|
            0 <= from < rs.len() && 0 <= to < rs.len() && address(rs[from]) != address(rs[to])
                && body_refs(rs[from].body, None).contains(r) && r.target_id == address(rs[to])
                && #[trigger] is_edge_of(rs, graph_of(rs).links[i], from, to, r),
{
    let nodes = nodes_of(rs);
    let link = graph_of(rs).links[i];
    assert(graph_of(rs).links.contains(link));
    law_edges_are_the_references(rs, link);
    let from = choose|from: int| 0 <= from < rs.len() && #[trigger] makes_link(rs, from, link);
    let list = body_refs(rs[from].body, None);
    let k = choose|k: int|
        0 <= k < list.len() && link_of(nodes, from, #[trigger] list[k]) == Some(link);
    lemma_position_of(nodes, list[k].target_id);
    assert(nodes[from] == node_of(rs[from]));
    assert(nodes[link.to] == node_of(rs[link.to]));
    assert(list.contains(list[k]));
    assert(is_edge_of(rs, link, from, link.to, list[k]));
}

/// Whether a reference of the resource at `from` leads to the address of another.
pub open spec fn leads_on(rs: Seq<ResourceView>, from: int, r: TraversalRefView) -> bool {
    r.target_id != address(rs[from]) && exists|to: int|
        0 <= to < rs.len() && address(#[trigger] rs[to]) == r.target_id
}

/// The number of those of the first `n` of some references that lead to the address of another
/// resource.
pub open spec fn leading_on(
    rs: Seq<ResourceView>,
    from: int,
    list: Seq<TraversalRefView>,
    n: nat,
) -> nat
    decreases n,
{
    if n == 0 {
        0
    } else if leads_on(rs, from, list[n - 1]) {
        leading_on(rs, from, list, (n - 1) as nat) + 1
    } else {
        leading_on(rs, from, list, (n - 1) as nat)
    }
}

/// The number of the references of the first `n` resources that lead to the address of another.
pub open spec fn all_leading_on(rs: Seq<ResourceView>, n: nat) -> nat
    decreases n,
{
    if n == 0 {
        0
    } else {
        all_leading_on(rs, (n - 1) as nat) + leading_on(
            rs,
            n - 1,
            body_refs(rs[n - 1].body, None),
            body_refs(rs[n - 1].body, None).len(),
        )
    }
}

proof fn lemma_leading_on(rs: Seq<ResourceView>, from: int, list: Seq<TraversalRefView>, n: nat)
    requires
        n <= list.len(),
        0 <= from < rs.len(),
    ensures
        refs_links(nodes_of(rs), from, list, n).len() == leading_on(rs, from, list, n),
    decreases n,
{
    if n > 0 {
        lemma_leading_on(rs, from, list, (n - 1) as nat);
        let nodes = nodes_of(rs);
        let r = list[n - 1];
        lemma_position_of(nodes, r.target_id);
        assert(nodes[from] == node_of(rs[from]));
        if let Some(p) = position_of(nodes, r.target_id) {
            assert(nodes[p] == node_of(rs[p]));
            assert(address(rs[p]) == r.target_id);
        } else if leads_on(rs, from, r) {
            let to = choose|to: int|
                0 <= to < rs.len() && address(#[trigger] rs[to]) == r.target_id;
            assert(nodes[to] == node_of(rs[to]));
        }
    }
}

proof fn lemma_all_leading_on(rs: Seq<ResourceView>, n: nat)
    requires
        n <= rs.len(),
    ensures
        resources_links(rs, n).len() == all_leading_on(rs, n),
    decreases n,
{
    if n > 0 {
        lemma_all_leading_on(rs, (n - 1) as nat);
        let list = body_refs(rs[n - 1].body, None);
        lemma_leading_on(rs, n - 1, list, list.len());
    }
}

/// There is one edge for each reference that leads to another resource, though several lead to the
/// same.
pub proof fn law_every_reference_counts(rs: Seq<ResourceView>)
    ensures
        graph_of(rs).links.len() == all_leading_on(rs, rs.len()),
{
    lemma_all_leading_on(rs, rs.len());
}

/// An attribute of a resource that traverses another resource makes an edge from the one to the
/// other, in whatever files the two stand.
pub proof fn law_traversed_resources_are_linked(
    rs: Seq<ResourceView>,
    from: int,
    to: int,
    at: int,
    key: Seq<char>,
    rest: Seq<StepView>,
    text: Seq<char>,
)
    requires
        all_distinct(rs),
        0 <= from < rs.len(),
        0 <= to < rs.len(),
        from != to,
        0 <= at < rs[from].body.len(),
        rs[from].body[at] == (ItemView::Attribute {
            key,
            expr: traversal(rs[to].tf_type, rs[to].tf_name, rest, text),
        }),
        !holds_char(rs[to].tf_type, '.'),
        !holds_char(rs[to].tf_name, '.'),
        !is_reserved(rs[to].tf_type),
    ensures
        exists|i: int|
            0 <= i < graph_of(rs).links.len() && (#[trigger] graph_of(rs).links[i]).from == from
                && graph_of(rs).links[i].to == to && graph_of(rs).links[i].edge.kind is References
                && graph_of(rs).links[i].edge.evidence.attr_path == key,
{
    let e = traversal(rs[to].tf_type, rs[to].tf_name, rest, text);
    law_traversals_refer(rs[to].tf_type, rs[to].tf_name, rest, text, key);
    let r = refs(e, key)[0];
    assert(refs(e, key).contains(r));
    law_attributes_refer(rs[from].body, None, at, key, e, r);
    law_every_reference_is_resolved(rs, from, to, r);
    let i = choose|i: int|
        0 <= i < graph_of(rs).links.len() && is_edge_of(
            rs,
            #[trigger] graph_of(rs).links[i],
            from,
            to,
            r,
        );
    assert(graph_of(rs).links[i].from == from);
}

proof fn lemma_attribute_among(
    body: Seq<ItemView>,
    prefix: Option<Seq<char>>,
    n: nat,
    at: int,
    key: Seq<char>,
    e: ExprView,
    r: TraversalRefView,
)
    requires
        0 <= at < n <= body.len(),
        body[at] == (ItemView::Attribute { key, expr: e }),
        refs(e, inner_path(prefix, key)).contains(r),
    ensures
        attributes_refs(body, prefix, n).contains(r),
    decreases n,
{
    let before = attributes_refs(body, prefix, (n - 1) as nat);
    let all = attributes_refs(body, prefix, n);
    if at == n - 1 {
        let own = refs(e, inner_path(prefix, key));
        let m = choose|m: int| 0 <= m < own.len() && own[m] == r;
        assert(all[before.len() + m] == r);
    } else {
        lemma_attribute_among(body, prefix, (n - 1) as nat, at, key, e, r);
        let m = choose|m: int| 0 <= m < before.len() && before[m] == r;
        assert(all[m] == r);
    }
}

/// Every attribute of a body makes the references of its expression, from its key behind the path of
/// the body.
pub proof fn law_attributes_refer(
    body: Seq<ItemView>,
    prefix: Option<Seq<char>>,
    at: int,
    key: Seq<char>,
    e: ExprView,
    r: TraversalRefView,
)
    requires
        0 <= at < body.len(),
        body[at] == (ItemView::Attribute { key, expr: e }),
        refs(
            e,
            match prefix {
                Some(p) => p + "."@ + key,
                None => key,
            },
        ).contains(r),
    ensures
        body_refs(body, prefix).contains(r),
{
    lemma_attribute_among(body, prefix, body.len(), at, key, e, r);
    let first = attributes_refs(body, prefix, body.len());
    let m = choose|m: int| 0 <= m < first.len() && first[m] == r;
    assert(body_refs(body, prefix)[m] == r);
}

proof fn lemma_block_among(
    body: Seq<ItemView>,
    prefix: Option<Seq<char>>,
    n: nat,
    at: int,
    identifier: Seq<char>,
    labels: Seq<Seq<char>>,
    inner: Seq<ItemView>,
    r: TraversalRefView,
)
    requires
        0 <= at < n <= body.len(),
        body[at] == (ItemView::Block { identifier, labels, body: inner }),
        body_refs(inner, Some(inner_path(prefix, identifier))).contains(r),
    ensures
        blocks_refs(body, prefix, n).contains(r),
    decreases n,
{
    let before = blocks_refs(body, prefix, (n - 1) as nat);
    let all = blocks_refs(body, prefix, n);
    if at == n - 1 {
        let own = body_refs(inner, Some(inner_path(prefix, identifier)));
        let m = choose|m: int| 0 <= m < own.len() && own[m] == r;
        assert(all == before + own);
        assert(all[before.len() + m] == r);
    } else {
        lemma_block_among(body, prefix, (n - 1) as nat, at, identifier, labels, inner, r);
        let m = choose|m: int| 0 <= m < before.len() && before[m] == r;
        assert(all[m] == r);
    }
}

/// Every block of a body makes the references of what it holds, from its identifier behind the path
/// of the body.
pub proof fn law_nested_blocks_refer(
    body: Seq<ItemView>,
    prefix: Option<Seq<char>>,
    at: int,
    identifier: Seq<char>,
    labels: Seq<Seq<char>>,
    inner: Seq<ItemView>,
    r: TraversalRefView,
)
    requires
        0 <= at < body.len(),
        body[at] == (ItemView::Block { identifier, labels, body: inner }),
        body_refs(
            inner,
            Some(
                match prefix {
                    Some(p) => p + "."@ + identifier,
                    None => identifier,
                },
            ),
        ).contains(r),
    ensures
        body_refs(body, prefix).contains(r),
{
    lemma_block_among(body, prefix, body.len(), at, identifier, labels, inner, r);
    let first = attributes_refs(body, prefix, body.len());
    let second = blocks_refs(body, prefix, body.len());
    let m = choose|m: int| 0 <= m < second.len() && second[m] == r;
    assert(body_refs(body, prefix) == first + second);
    assert(body_refs(body, prefix)[first.len() + m] == r);
}

/// The number of references of a body grows, with one more item, by those of the item.
pub proof fn law_items_add_their_references(
    body: Seq<ItemView>,
    item: ItemView,
    prefix: Option<Seq<char>>,
)
    ensures
        body_refs(Seq::empty(), prefix).len() == 0,
        body_refs(body.push(item), prefix).len() == body_refs(body, prefix).len() + match item {
            ItemView::Attribute { key, expr } => refs(
                expr,
                match prefix {
                    Some(p) => p + "."@ + key,
                    None => key,
                },
            ).len(),
            ItemView::Block { identifier, body: inner, .. } => body_refs(
                inner,
                Some(
                    match prefix {
                        Some(p) => p + "."@ + identifier,
                        None => identifier,
                    },
                ),
            ).len(),
        },
{
    let more = body.push(item);
    lemma_refs_prefix(body, item, prefix, body.len());
    assert(more[body.len() as int] == item);
    assert(body_refs(more, prefix) == attributes_refs(more, prefix, more.len()) + blocks_refs(
        more,
        prefix,
        more.len(),
    ));
    assert(body_refs(body, prefix) == attributes_refs(body, prefix, body.len()) + blocks_refs(
        body,
        prefix,
        body.len(),
    ));
    assert(blocks_refs(more, prefix, more.len()).len() == blocks_refs(
        more,
        prefix,
        body.len(),
    ).len() + match item {
        ItemView::Attribute { .. } => 0,
        ItemView::Block { identifier, body: inner, .. } => body_refs(
            inner,
            Some(inner_path(prefix, identifier)),
        ).len(),
    });
    let none = Seq::<ItemView>::empty();
    assert(body_refs(none, prefix) == attributes_refs(none, prefix, 0) + blocks_refs(
        none,
        prefix,
        0,
    ));
}

proof fn lemma_refs_prefix(
    body: Seq<ItemView>,
    item: ItemView,
    prefix: Option<Seq<char>>,
    n: nat,
)
    requires
        n <= body.len(),
    ensures
        attributes_refs(body.push(item), prefix, n) == attributes_refs(body, prefix, n),
        blocks_refs(body.push(item), prefix, n) == blocks_refs(body, prefix, n),
    decreases n,
{
    if n > 0 {
        lemma_refs_prefix(body, item, prefix, (n - 1) as nat);
        assert(body.push(item)[n - 1] == body[n - 1]);
    }
}

/// Each resource has the node at its position: with its address, its labels, its file and the kind of
/// its type, with its attributes in the form that they have once texts that hold documents are
/// replaced by what they hold, and with a mark exactly if something in its body is left open.
pub proof fn law_nodes_are_the_resources(rs: Seq<ResourceView>, i: int, key: Seq<char>)
    requires
        0 <= i < rs.len(),
    ensures
        graph_of(rs).nodes.len() == rs.len(),
        graph_of(rs).nodes[i].id == address(rs[i]),
        graph_of(rs).nodes[i].tf_type == rs[i].tf_type,
        graph_of(rs).nodes[i].tf_name == rs[i].tf_name,
        graph_of(rs).nodes[i].file == rs[i].file,
        graph_of(rs).nodes[i].kind == kind_of(rs[i].tf_type),
        graph_of(rs).nodes[i].has_unresolved_attrs == body_unresolved(rs[i].body),
        graph_of(rs).nodes[i].attrs is Object,
        graph_of(rs).nodes[i].attrs.get(key) == match lookup(body_value(rs[i].body), key) {
            Some(v) => Some(promoted(v)),
            None => None,
        },
{
    assert(graph_of(rs).nodes[i] == node_of(rs[i]));
    law_promotion_goes_into_objects(body_value(rs[i].body), key);
}

/// Under each key of an object stands, once texts that hold documents are replaced by what they hold,
/// what stood there, with the same done to it.
pub proof fn law_promotion_goes_into_objects(
    entries: Seq<(Seq<char>, JsonView)>,
    key: Seq<char>,
)
    ensures
        promoted(JsonView::Object(entries)) is Object,
        promoted(JsonView::Object(entries)).get(key) == match lookup(entries, key) {
            Some(v) => Some(promoted(v)),
            None => None,
        },
{
    let after = promoted(JsonView::Object(entries))->Object_0;
    assert(after.len() == entries.len());
    assert forall|i: int| 0 <= i < entries.len() implies (#[trigger] after[i]).0 == entries[i].0
        && after[i].1 == promoted(entries[i].1) by {}
    lemma_key_from(entries, key, 0);
    lemma_key_from(after, key, 0);
    match key_from(entries, key, 0) {
        Some(j) => {
            assert forall|k: int| 0 <= k < j implies (#[trigger] after[k]).0 != key by {
                assert(entries[k].0 != key);
            }
            lemma_key_found(after, key, 0, j);
        },
        None => {
            if let Some(j) = key_from(after, key, 0) {
                assert(entries[j].0 != key);
            }
        },
    }
}

/// Whether an item of a body has a key: as the key of an attribute or the identifier of a block.
pub open spec fn has_key(item: ItemView, key: Seq<char>) -> bool {
    match item {
        ItemView::Attribute { key: own, .. } => own == key,
        ItemView::Block { identifier, .. } => identifier == key,
    }
}

proof fn lemma_attributes_prefix(body: Seq<ItemView>, item: ItemView, n: nat)
    requires
        n <= body.len(),
    ensures
        attributes_value(body.push(item), n) == attributes_value(body, n),
    decreases n,
{
    if n > 0 {
        lemma_attributes_prefix(body, item, (n - 1) as nat);
        assert(body.push(item)[n - 1] == body[n - 1]);
    }
}

proof fn lemma_blocks_prefix(body: Seq<ItemView>, item: ItemView, n: nat, asked: Seq<char>)
    requires
        n <= body.len(),
        match item {
            ItemView::Attribute { key, .. } => asked != key || forall|i: int|
                0 <= i < body.len() ==> !has_key(#[trigger] body[i], key),
            ItemView::Block { .. } => true,
        },
    ensures
        lookup(blocks_value(body.push(item), n), asked) == match item {
            ItemView::Attribute { key, expr } => if asked == key {
                Some(expr_value(expr))
            } else {
                lookup(blocks_value(body, n), asked)
            },
            ItemView::Block { .. } => lookup(blocks_value(body, n), asked),
        },
    decreases n,
{
    let more = body.push(item);
    if n == 0 {
        lemma_attributes_prefix(body, item, body.len());
        assert(more[body.len() as int] == item);
        let before = attributes_value(body, body.len());
        assert(blocks_value(more, 0) == attributes_value(more, more.len()));
        assert(blocks_value(body, 0) == before);
        match item {
            ItemView::Attribute { key, expr } => {
                law_lookup_after_insert(before, key, expr_value(expr), asked);
            },
            ItemView::Block { .. } => {},
        }
    } else {
        lemma_blocks_prefix(body, item, (n - 1) as nat, asked);
        assert(more[n - 1] == body[n - 1]);
        let old_entries = blocks_value(body, (n - 1) as nat);
        let new_entries = blocks_value(more, (n - 1) as nat);
        match body[n - 1] {
            ItemView::Block { identifier, body: inner, .. } => {
                let value = JsonView::Object(body_value(inner));
                assert(blocks_value(body, n) == with_block(old_entries, identifier, value));
                assert(blocks_value(more, n) == with_block(new_entries, identifier, value));
                assert(has_key(body[n - 1], identifier));
                law_lookup_after_insert(
                    old_entries,
                    identifier,
                    JsonView::Array(
                        block_list(lookup(old_entries, identifier), value),
                    ),
                    asked,
                );
                law_lookup_after_insert(
                    new_entries,
                    identifier,
                    JsonView::Array(
                        block_list(lookup(new_entries, identifier), value),
                    ),
                    asked,
                );
            },
            ItemView::Attribute { .. } => {
                assert(blocks_value(body, n) == old_entries);
                assert(blocks_value(more, n) == new_entries);
            },
        }
    }
}

/// One more attribute, with a key that a body does not have yet, adds the value of its expression
/// under the key, and changes nothing under other keys.
pub proof fn law_attributes_are_recorded(
    body: Seq<ItemView>,
    key: Seq<char>,
    e: ExprView,
    asked: Seq<char>,
)
    requires
        asked == key ==> forall|i: int| 0 <= i < body.len() ==> !has_key(#[trigger] body[i], key),
    ensures
        lookup(body_value(Seq::empty()), asked) is None,
        lookup(body_value(body.push(ItemView::Attribute { key, expr: e })), asked) == if asked
            == key {
            Some(expr_value(e))
        } else {
            lookup(body_value(body), asked)
        },
{
    let item = ItemView::Attribute { key, expr: e };
    let more = body.push(item);
    lemma_blocks_prefix(body, item, body.len(), asked);
    assert(more[body.len() as int] == item);
    assert(blocks_value(more, more.len()) == blocks_value(more, body.len()));
    let none = Seq::<ItemView>::empty();
    assert(body_value(none) == blocks_value(none, 0));
    assert(blocks_value(none, 0) == attributes_value(none, 0));
    lemma_key_from(Seq::empty(), asked, 0);
}

/// One more block is added behind the blocks that stand under its identifier already, and changes
/// nothing under other keys.
pub proof fn law_blocks_are_recorded(
    body: Seq<ItemView>,
    identifier: Seq<char>,
    labels: Seq<Seq<char>>,
    inner: Seq<ItemView>,
    asked: Seq<char>,
)
    ensures
        lookup(
            body_value(body.push(ItemView::Block { identifier, labels, body: inner })),
            asked,
        ) == if asked == identifier {
            Some(
                JsonView::Array(
                    match lookup(body_value(body), identifier) {
                        Some(JsonView::Array(blocks)) => blocks.push(
                            JsonView::Object(body_value(inner)),
                        ),
                        Some(other) => seq![other, JsonView::Object(body_value(inner))],
                        None => seq![JsonView::Object(body_value(inner))],
                    },
                ),
            )
        } else {
            lookup(body_value(body), asked)
        },
{
    let item = ItemView::Block { identifier, labels, body: inner };
    let more = body.push(item);
    let value = JsonView::Object(body_value(inner));
    lemma_blocks_prefix(body, item, body.len(), asked);
    lemma_blocks_prefix(body, item, body.len(), identifier);
    assert(more[body.len() as int] == item);
    let before = blocks_value(more, body.len());
    assert(blocks_value(more, more.len()) == with_block(before, identifier, value));
    law_lookup_after_insert(
        before,
        identifier,
        JsonView::Array(block_list(lookup(before, identifier), value)),
        asked,
    );
}

/// Something in a body is left open exactly if something in one of its items is.
pub proof fn law_open_items_are_counted(body: Seq<ItemView>, item: ItemView)
    ensures
        !body_unresolved(Seq::empty()),
        body_unresolved(body.push(item)) <==> (body_unresolved(body) || match item {
            ItemView::Attribute { expr, .. } => expr_unresolved(expr),
            ItemView::Block { body: inner, .. } => body_unresolved(inner),
        }),
{
    let more = body.push(item);
    assert(more[body.len() as int] == item);
    if is_left_open(item) {
        lemma_open_body(more, body.len() as int);
    }
    if body_unresolved(body) {
        let i = lemma_open_at(body);
        assert(more[i] == body[i]);
        lemma_open_body(more, i);
    }
    if body_unresolved(more) {
        let i = lemma_open_at(more);
        if i < body.len() {
            assert(more[i] == body[i]);
            lemma_open_body(body, i);
        }
    }
    if body_unresolved(Seq::empty()) {
        let i = lemma_open_at(Seq::empty());
    }
}

/// Whether something in an item of a body is left open.
spec fn is_left_open(item: ItemView) -> bool {
    match item {
        ItemView::Attribute { expr, .. } => expr_unresolved(expr),
        ItemView::Block { body: inner, .. } => body_unresolved(inner),
    }
}

proof fn lemma_open_body(body: Seq<ItemView>, i: int)
    requires
        0 <= i < body.len(),
        is_left_open(body[i]),
    ensures
        body_unresolved(body),
{
    reveal_with_fuel(body_unresolved, 2);
}

proof fn lemma_open_at(body: Seq<ItemView>) -> (i: int)
    requires
        body_unresolved(body),
    ensures
        0 <= i < body.len(),
        is_left_open(body[i]),
{
    reveal_with_fuel(body_unresolved, 2);
    choose|i: int| 0 <= i < body.len() && is_left_open(#[trigger] body[i])
}

proof fn lemma_file_prefix(path: Seq<char>, body: Seq<ItemView>, item: ItemView, n: nat)
    requires
        n <= body.len(),
    ensures
        file_resources(FileView { path, body: body.push(item) }, n) == file_resources(
            FileView { path, body },
            n,
        ),
    decreases n,
{
    if n > 0 {
        lemma_file_prefix(path, body, item, (n - 1) as nat);
        assert(body.push(item)[n - 1] == body[n - 1]);
    }
}

/// One more item of a file declares one more resource, behind the others, if it is a `resource` block
/// with two labels or more, and none otherwise. Its type and its name are the first two.
pub proof fn law_resource_blocks_are_read(path: Seq<char>, body: Seq<ItemView>, item: ItemView)
    ensures
        resources(seq![FileView { path, body: Seq::empty() }]) == Seq::<ResourceView>::empty(),
        resources(seq![FileView { path, body: body.push(item) }]) == resources(
            seq![FileView { path, body }],
        ) + match item {
            ItemView::Block { identifier, labels, body: inner } => if identifier == "resource"@
                && labels.len() >= 2 {
                seq![
                    ResourceView {
                        file: path,
                        tf_type: labels[0],
                        tf_name: labels[1],
                        body: inner,
                    },
                ]
            } else {
                Seq::empty()
            },
            ItemView::Attribute { .. } => Seq::empty(),
        },
{
    let more = FileView { path, body: body.push(item) };
    let less = FileView { path, body };
    let none = FileView { path, body: Seq::empty() };
    lemma_file_prefix(path, body, item, body.len());
    assert(more.body[body.len() as int] == item);
    lemma_one_file(more);
    lemma_one_file(less);
    lemma_one_file(none);
}

proof fn lemma_one_file(f: FileView)
    ensures
        resources(seq![f]) == file_resources(f, f.body.len()),
{
    reveal_with_fuel(files_resources, 2);
    assert(seq![f][0] == f);
    assert(resources(seq![f]) =~= file_resources(f, f.body.len()));
}

proof fn lemma_files_prefix(files: Seq<FileView>, f: FileView, n: nat)
    requires
        n <= files.len(),
    ensures
        files_resources(files.push(f), n) == files_resources(files, n),
    decreases n,
{
    if n > 0 {
        lemma_files_prefix(files, f, (n - 1) as nat);
        assert(files.push(f)[n - 1] == files[n - 1]);
    }
}

/// One more file adds its resources behind those of the others.
pub proof fn law_every_file_is_read(files: Seq<FileView>, f: FileView)
    ensures
        resources(Seq::empty()) == Seq::<ResourceView>::empty(),
        resources(files.push(f)) == resources(files) + resources(seq![f]),
{
    lemma_files_prefix(files, f, files.len());
    lemma_one_file(f);
    assert(files.push(f)[files.len() as int] == f);
}

/// The kinds of the types of resources that are told apart, and of all others.
pub proof fn law_kinds_follow_types(tf_type: Seq<char>)
    ensures
        kind_of(tf_type) is S3Bucket <==> tf_type == "aws_s3_bucket"@,
        kind_of(tf_type) is S3BucketPolicy <==> tf_type == "aws_s3_bucket_policy"@,
        kind_of(tf_type) is S3BucketPublicAccessBlock <==> tf_type
            == "aws_s3_bucket_public_access_block"@,
        kind_of(tf_type) is S3BucketAcl <==> tf_type == "aws_s3_bucket_acl"@,
        kind_of(tf_type) is IamRole <==> tf_type == "aws_iam_role"@,
        kind_of(tf_type) is IamPolicy <==> tf_type == "aws_iam_policy"@,
        kind_of(tf_type) is IamRolePolicy <==> tf_type == "aws_iam_role_policy"@,
        kind_of(tf_type) is IamRolePolicyAttachment <==> tf_type
            == "aws_iam_role_policy_attachment"@,
        kind_of(tf_type) is IamInstanceProfile <==> tf_type == "aws_iam_instance_profile"@,
        kind_of(tf_type) is LambdaFunction <==> tf_type == "aws_lambda_function"@,
        kind_of(tf_type) is LambdaPermission <==> tf_type == "aws_lambda_permission"@,
        kind_of(tf_type) is SecurityGroup <==> tf_type == "aws_security_group"@,
        kind_of(tf_type) is SecurityGroupRule <==> tf_type == "aws_security_group_rule"@,
        kind_of(tf_type) is Instance <==> tf_type == "aws_instance"@,
        kind_of(tf_type) is SecretsManagerSecret <==> tf_type == "aws_secretsmanager_secret"@,
        kind_of(tf_type) matches ResourceKindView::Other(name) ==> name == tf_type,
{
    reveal_strlit("aws_s3_bucket");
    reveal_strlit("aws_s3_bucket_policy");
    reveal_strlit("aws_s3_bucket_public_access_block");
    reveal_strlit("aws_s3_bucket_acl");
    reveal_strlit("aws_iam_role");
    reveal_strlit("aws_iam_policy");
    reveal_strlit("aws_iam_role_policy");
    reveal_strlit("aws_iam_role_policy_attachment");
    reveal_strlit("aws_iam_instance_profile");
    reveal_strlit("aws_lambda_function");
    reveal_strlit("aws_lambda_permission");
    reveal_strlit("aws_security_group");
    reveal_strlit("aws_security_group_rule");
    reveal_strlit("aws_instance");
    reveal_strlit("aws_secretsmanager_secret");
    assert("aws_s3_bucket"@.len() == 13);
    assert("aws_s3_bucket_policy"@.len() == 20);
    assert("aws_s3_bucket_public_access_block"@.len() == 33);
    assert("aws_s3_bucket_acl"@.len() == 17);
    assert("aws_iam_role"@.len() == 12);
    assert("aws_iam_policy"@.len() == 14);
    assert("aws_iam_role_policy"@.len() == 19);
    assert("aws_iam_role_policy_attachment"@.len() == 30);
    assert("aws_iam_instance_profile"@.len() == 24);
    assert("aws_lambda_function"@.len() == 19);
    assert("aws_lambda_permission"@.len() == 21);
    assert("aws_security_group"@.len() == 18);
    assert("aws_security_group_rule"@.len() == 23);
    assert("aws_instance"@.len() == 12);
    assert("aws_secretsmanager_secret"@.len() == 25);
    assert("aws_iam_role"@[5] == 'a' && "aws_instance"@[5] == 'n');
    assert("aws_iam_role_policy"@[4] == 'i' && "aws_lambda_function"@[4] == 'l');
}

/// A graph is refused for its size exactly if it has more resources, or more references that lead to
/// another resource, than can be counted.
pub proof fn law_what_is_too_large(rs: Seq<ResourceView>)
    ensures
        within_limits(rs) <==> (rs.len() <= u32::MAX && all_leading_on(rs, rs.len()) <= u32::MAX),
{
    lemma_all_leading_on(rs, rs.len());
}

} // verus!
