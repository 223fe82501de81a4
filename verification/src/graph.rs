//! The resource graph: a node for each resource, and an edge for each reference between two.

use crate::digraph::{
    count_edges,
    count_nodes,
    edge_at,
    edges_into,
    edges_out_of,
    empty_graph,
    ends_at,
    graph_edges,
    graph_incoming,
    graph_nodes,
    graph_outgoing,
    node_at,
    node_at_mut,
    push_edge,
    push_node,
};
use crate::embedded::{promote_embedded_json, promoted};
use crate::expr::{
    RESERVED_ROOTS,
    TraversalRef,
    TraversalRefView,
    collect_traversals,
    expr_to_json,
    expr_unresolved,
    expr_value,
    ref_views,
    refs,
};
use crate::json::{
    Json,
    JsonView,
    find_key,
    insert_entry,
    json_entries,
    json_items,
    law_lookup_after_insert,
    lemma_json_model,
    lookup,
    with_entry,
};
use crate::parser::ParsedFile;
use crate::syntax::{Block, Item, ItemView, body_view, lemma_structure_model};
use crate::text::{plus, same_text, texts};
use crate::types::{
    Edge,
    EdgeKind,
    EdgeKindView,
    EdgeView,
    Node,
    NodeView,
    ResourceKind,
    SourceRef,
    SourceRefView,
    kind_of,
};
use petgraph::graph::DiGraph;
use vstd::hash_map::StringHashMap;
use vstd::prelude::*;

verus! {

/// An edge between the nodes at two positions.
pub struct LinkView {
    pub from: int,
    pub to: int,
    pub edge: EdgeView,
}

/// Positions, as numbers.
pub open spec fn positions(list: Seq<usize>) -> Seq<int> {
    list.map_values(|p: usize| p as int)
}

/// A resource graph: its nodes and its edges, by position.
pub struct GraphView {
    pub nodes: Seq<NodeView>,
    pub links: Seq<LinkView>,
}

/// The positions of the edges that leave a node, the newest first.
pub open spec fn links_from(links: Seq<LinkView>, ix: int) -> Seq<int>
    decreases links.len(),
{
    if links.len() == 0 {
        Seq::empty()
    } else if links.last().from == ix {
        seq![links.len() - 1] + links_from(links.drop_last(), ix)
    } else {
        links_from(links.drop_last(), ix)
    }
}

/// The positions of the edges that enter a node, the newest first.
pub open spec fn links_into(links: Seq<LinkView>, ix: int) -> Seq<int>
    decreases links.len(),
{
    if links.len() == 0 {
        Seq::empty()
    } else if links.last().to == ix {
        seq![links.len() - 1] + links_into(links.drop_last(), ix)
    } else {
        links_into(links.drop_last(), ix)
    }
}

/// The edges that leave a node are those whose source it is, each once.
pub proof fn lemma_links_from(links: Seq<LinkView>, ix: int)
    ensures
        forall|k: int|
            0 <= k < links_from(links, ix).len() ==> 0 <= #[trigger] links_from(links, ix)[k]
                < links.len() && links[links_from(links, ix)[k]].from == ix,
        forall|e: int|
            0 <= e < links.len() && (#[trigger] links[e]).from == ix ==> links_from(
                links,
                ix,
            ).contains(e),
        forall|j: int, k: int|
            0 <= j < k < links_from(links, ix).len() ==> links_from(links, ix)[j] > links_from(
                links,
                ix,
            )[k],
    decreases links.len(),
{
    if links.len() > 0 {
        let init = links.drop_last();
        lemma_links_from(init, ix);
        let rest = links_from(init, ix);
        let all = links_from(links, ix);
        if links.last().from == ix {
            assert(all[0] == links.len() - 1);
            assert forall|k: int| 0 < k < all.len() implies #[trigger] all[k] == rest[k - 1] by {}
            assert forall|e: int| 0 <= e < links.len() && (#[trigger] links[e]).from
                == ix implies all.contains(e) by {
                if e < init.len() {
                    assert(init[e].from == ix);
                    let k = choose|k: int| 0 <= k < rest.len() && rest[k] == e;
                    assert(all[k + 1] == e);
                }
            }
        } else {
            assert forall|e: int| 0 <= e < links.len() && (#[trigger] links[e]).from
                == ix implies all.contains(e) by {
                assert(init[e].from == ix);
            }
        }
    }
}

/// The edges that enter a node are those whose target it is, each once.
pub proof fn lemma_links_into(links: Seq<LinkView>, ix: int)
    ensures
        forall|k: int|
            0 <= k < links_into(links, ix).len() ==> 0 <= #[trigger] links_into(links, ix)[k]
                < links.len() && links[links_into(links, ix)[k]].to == ix,
        forall|e: int|
            0 <= e < links.len() && (#[trigger] links[e]).to == ix ==> links_into(
                links,
                ix,
            ).contains(e),
    decreases links.len(),
{
    if links.len() > 0 {
        let init = links.drop_last();
        lemma_links_into(init, ix);
        let rest = links_into(init, ix);
        let all = links_into(links, ix);
        if links.last().to == ix {
            assert(all[0] == links.len() - 1);
            assert forall|k: int| 0 < k < all.len() implies #[trigger] all[k] == rest[k - 1] by {}
            assert forall|e: int| 0 <= e < links.len() && (#[trigger] links[e]).to
                == ix implies all.contains(e) by {
                if e < init.len() {
                    assert(init[e].to == ix);
                    let k = choose|k: int| 0 <= k < rest.len() && rest[k] == e;
                    assert(all[k + 1] == e);
                }
            }
        } else {
            assert forall|e: int| 0 <= e < links.len() && (#[trigger] links[e]).to
                == ix implies all.contains(e) by {
                assert(init[e].to == ix);
            }
        }
    }
}

/// The position of the first node with this id.
pub open spec fn position_of(nodes: Seq<NodeView>, id: Seq<char>) -> Option<int>
    decreases nodes.len(),
{
    if nodes.len() == 0 {
        None
    } else {
        match position_of(nodes.drop_last(), id) {
            Some(i) => Some(i),
            None => if nodes.last().id == id {
                Some(nodes.len() - 1)
            } else {
                None
            },
        }
    }
}

/// The position is that of a node with the id, and no node before it has it.
pub proof fn lemma_position_of(nodes: Seq<NodeView>, id: Seq<char>)
    ensures
        match position_of(nodes, id) {
            Some(i) => 0 <= i < nodes.len() && nodes[i].id == id && (forall|j: int|
                0 <= j < i ==> (#[trigger] nodes[j]).id != id),
            None => forall|j: int| 0 <= j < nodes.len() ==> (#[trigger] nodes[j]).id != id,
        },
    decreases nodes.len(),
{
    if nodes.len() > 0 {
        let init = nodes.drop_last();
        lemma_position_of(init, id);
        assert forall|j: int| 0 <= j < init.len() implies nodes[j] == #[trigger] init[j] by {}
        match position_of(init, id) {
            Some(i) => {
                assert forall|j: int| 0 <= j < i implies (#[trigger] nodes[j]).id != id by {
                    assert(init[j].id != id);
                }
            },
            None => {
                assert forall|j: int| 0 <= j < init.len() implies (#[trigger] nodes[j]).id
                    != id by {
                    assert(init[j].id != id);
                }
            },
        }
    }
}

/// The number of nodes with an attribute that the text leaves open.
pub open spec fn unresolved_count(nodes: Seq<NodeView>) -> nat
    decreases nodes.len(),
{
    if nodes.len() == 0 {
        0
    } else {
        unresolved_count(nodes.drop_last()) + if nodes.last().has_unresolved_attrs {
            1nat
        } else {
            0nat
        }
    }
}

proof fn lemma_unresolved_count(nodes: Seq<NodeView>)
    ensures
        unresolved_count(nodes) <= nodes.len(),
    decreases nodes.len(),
{
    if nodes.len() > 0 {
        lemma_unresolved_count(nodes.drop_last());
    }
}

/// Addresses and counts do not depend on attributes.
proof fn lemma_same_but_attrs(a: Seq<NodeView>, b: Seq<NodeView>)
    requires
        a.len() == b.len(),
        forall|i: int|
            0 <= i < a.len() ==> (#[trigger] a[i]).id == b[i].id && a[i].has_unresolved_attrs
                == b[i].has_unresolved_attrs,
    ensures
        unresolved_count(a) == unresolved_count(b),
        forall|id: Seq<char>| #[trigger] position_of(a, id) == position_of(b, id),
    decreases a.len(),
{
    if a.len() > 0 {
        let n = a.len() - 1;
        assert(a[n].id == b[n].id);
        assert forall|i: int| 0 <= i < n implies (#[trigger] a.drop_last()[i]).id
            == b.drop_last()[i].id && a.drop_last()[i].has_unresolved_attrs
            == b.drop_last()[i].has_unresolved_attrs by {
            assert(a[i].id == b[i].id);
        }
        lemma_same_but_attrs(a.drop_last(), b.drop_last());
        assert forall|id: Seq<char>| #[trigger] position_of(a, id) == position_of(b, id) by {
            assert(position_of(a.drop_last(), id) == position_of(b.drop_last(), id));
        }
    }
}

/// The contents of a graph's nodes.
pub open spec fn node_views(nodes: Seq<Node>) -> Seq<NodeView> {
    nodes.map_values(|n: Node| n@)
}

/// The contents of a graph's edges.
pub open spec fn link_views(edges: Seq<(usize, usize, Edge)>) -> Seq<LinkView> {
    edges.map_values(
        |e: (usize, usize, Edge)| LinkView { from: e.0 as int, to: e.1 as int, edge: e.2@ },
    )
}

/// The resource graph, with its nodes also to be found by their addresses.
pub struct IacGraph {
    pub graph: DiGraph<Node, Edge>,
    pub index_of: StringHashMap<usize>,
    /// The number of nodes with an attribute that the text leaves open.
    pub unresolved_node_count: usize,
}

impl View for IacGraph {
    type V = GraphView;

    open spec fn view(&self) -> GraphView {
        GraphView {
            nodes: node_views(graph_nodes(self.graph)),
            links: link_views(graph_edges(self.graph)),
        }
    }
}

impl GraphView {
    /// Whether every edge joins two nodes of the graph, and no two nodes have the same address.
    pub open spec fn wf(self) -> bool {
        &&& forall|e: int|
            0 <= e < self.links.len() ==> 0 <= (#[trigger] self.links[e]).from < self.nodes.len()
                && 0 <= self.links[e].to < self.nodes.len()
        &&& forall|i: int, j: int|
            0 <= i < j < self.nodes.len() ==> (#[trigger] self.nodes[i]).id != (
            #[trigger] self.nodes[j]).id
    }
}

/// Whether a table of addresses is that of the nodes.
pub open spec fn is_index(index: Map<Seq<char>, usize>, nodes: Seq<NodeView>) -> bool {
    forall|id: Seq<char>|
        match position_of(nodes, id) {
            Some(i) => #[trigger] index.contains_key(id) && index[id] == i,
            None => !index.contains_key(id),
        }
}

/// Whether lists of positions are, node by node, the given ones.
pub open spec fn lists_match(lists: Seq<Seq<usize>>, n: nat, wanted: spec_fn(int) -> Seq<int>) -> bool {
    &&& lists.len() == n
    &&& forall|ix: int|
        0 <= ix < n ==> positions(#[trigger] lists[ix]) == wanted(ix)
}

impl IacGraph {
    /// Whether the graph is well formed, lists the edges of a node from the newest to the oldest,
    /// and has a table of addresses and a count that fit its nodes.
    pub open spec fn wf(self) -> bool {
        &&& self@.wf()
        &&& lists_match(
            graph_outgoing(self.graph),
            self@.nodes.len(),
            |ix: int| links_from(self@.links, ix),
        )
        &&& lists_match(
            graph_incoming(self.graph),
            self@.nodes.len(),
            |ix: int| links_into(self@.links, ix),
        )
        &&& is_index(self.index_of@, self@.nodes)
        &&& self.unresolved_node_count == unresolved_count(self@.nodes)
    }

    /// The resource at an address.
    pub fn node(&self, id: &str) -> (r: Option<&Node>)
        requires
            self.wf(),
        ensures
            match r {
                Some(node) => position_of(self@.nodes, id@) matches Some(i) && node@
                    == self@.nodes[i],
                None => position_of(self@.nodes, id@) is None,
            },
    {
        proof {
            lemma_position_of(self@.nodes, id@);
            assert(self.index_of@.contains_key(id@) || !self.index_of@.contains_key(id@));
        }
        match self.index_of.get(id) {
            Some(ix) => Some(node_at(&self.graph, *ix)),
            None => None,
        }
    }

    /// The number of nodes.
    pub fn node_count(&self) -> (r: usize)
        ensures
            r == self@.nodes.len(),
    {
        count_nodes(&self.graph)
    }

    /// The number of edges.
    pub fn edge_count(&self) -> (r: usize)
        ensures
            r == self@.links.len(),
    {
        count_edges(&self.graph)
    }

    /// The node at a position.
    pub fn node_by_index(&self, ix: usize) -> (r: &Node)
        requires
            ix < self@.nodes.len(),
        ensures
            r@ == self@.nodes[ix as int],
    {
        node_at(&self.graph, ix)
    }

    /// The edge at a position.
    pub fn edge_by_index(&self, e: usize) -> (r: &Edge)
        requires
            e < self@.links.len(),
        ensures
            r@ == self@.links[e as int].edge,
    {
        edge_at(&self.graph, e)
    }

    /// The positions of the nodes that the edge at a position joins: source and target.
    pub fn edge_ends(&self, e: usize) -> (r: (usize, usize))
        requires
            e < self@.links.len(),
        ensures
            r.0 == self@.links[e as int].from,
            r.1 == self@.links[e as int].to,
    {
        ends_at(&self.graph, e).unwrap()
    }

    /// The positions of the edges that leave a node, the newest first.
    pub fn outgoing(&self, ix: usize) -> (r: Vec<usize>)
        requires
            self.wf(),
            ix < self@.nodes.len(),
        ensures
            positions(r@) == links_from(self@.links, ix as int),
    {
        edges_out_of(&self.graph, ix)
    }

    /// The positions of the edges that enter a node, the newest first.
    pub fn incoming(&self, ix: usize) -> (r: Vec<usize>)
        requires
            self.wf(),
            ix < self@.nodes.len(),
        ensures
            positions(r@) == links_into(self@.links, ix as int),
    {
        edges_into(&self.graph, ix)
    }

    /// A graph without nodes.
    pub fn empty() -> (r: IacGraph)
        ensures
            r.wf(),
            r@.nodes == Seq::<NodeView>::empty(),
            r@.links == Seq::<LinkView>::empty(),
    {
        let r = IacGraph {
            graph: empty_graph(),
            index_of: StringHashMap::new(),
            unresolved_node_count: 0,
        };
        assert(r@.nodes =~= Seq::<NodeView>::empty());
        assert(r@.links =~= Seq::<LinkView>::empty());
        r
    }

    /// Adds a resource whose address is new.
    pub fn add_resource(&mut self, node: Node)
        requires
            old(self).wf(),
            old(self)@.nodes.len() < u32::MAX,
            position_of(old(self)@.nodes, node.id@) is None,
        ensures
            final(self).wf(),
            final(self)@.nodes == old(self)@.nodes.push(node@),
            final(self)@.links == old(self)@.links,
    {
        let ghost before = self@;
        let ghost index = self.index_of@;
        let ghost view = node@;
        let id: String = node.id.clone();
        let open: bool = node.has_unresolved_attrs;
        proof {
            lemma_unresolved_count(before.nodes);
            lemma_position_of(before.nodes, id@);
            assert forall|ix: int| ix == before.nodes.len() implies links_from(before.links, ix)
                =~= Seq::<int>::empty() by {
                lemma_links_from(before.links, ix);
                if links_from(before.links, ix).len() > 0 {
                    assert(before.links[links_from(before.links, ix)[0]].from == ix);
                }
            }
            assert forall|ix: int| ix == before.nodes.len() implies links_into(before.links, ix)
                =~= Seq::<int>::empty() by {
                lemma_links_into(before.links, ix);
                if links_into(before.links, ix).len() > 0 {
                    assert(before.links[links_into(before.links, ix)[0]].to == ix);
                }
            }
        }
        let ix: usize = push_node(&mut self.graph, node);
        self.index_of.insert(id, ix);
        if open {
            self.unresolved_node_count = self.unresolved_node_count + 1;
        }
        proof {
            let after = self@;
            assert(after.nodes =~= before.nodes.push(view));
            assert(after.nodes.drop_last() =~= before.nodes);
            assert(positions(Seq::<usize>::empty()) =~= Seq::<int>::empty());
            assert forall|key: Seq<char>|
                match position_of(after.nodes, key) {
                    Some(i) => #[trigger] self.index_of@.contains_key(key) && self.index_of@[key]
                        == i,
                    None => !self.index_of@.contains_key(key),
                } by {
                assert(index.contains_key(key) || !index.contains_key(key));
            }
        }
    }

    /// Adds an edge.
    pub fn add_link(&mut self, from: usize, to: usize, edge: Edge)
        requires
            old(self).wf(),
            from < old(self)@.nodes.len(),
            to < old(self)@.nodes.len(),
            old(self)@.links.len() < u32::MAX,
        ensures
            final(self).wf(),
            final(self)@.nodes == old(self)@.nodes,
            final(self)@.links == old(self)@.links.push(
                LinkView { from: from as int, to: to as int, edge: edge@ },
            ),
    {
        let ghost before = self@;
        let ghost lists = (graph_outgoing(self.graph), graph_incoming(self.graph));
        let ghost link = LinkView { from: from as int, to: to as int, edge: edge@ };
        let e: usize = push_edge(&mut self.graph, from, to, edge);
        proof {
            let after = self@;
            assert(after.links =~= before.links.push(link));
            assert(after.links.drop_last() =~= before.links);
            assert(positions(seq![e] + lists.0[from as int]) =~= seq![e as int] + positions(
                lists.0[from as int],
            ));
            assert(positions(seq![e] + lists.1[to as int]) =~= seq![e as int] + positions(
                lists.1[to as int],
            ));
        }
    }

    /// Replaces the attributes of a node.
    pub fn set_attrs(&mut self, ix: usize, attrs: Json)
        requires
            old(self).wf(),
            ix < old(self)@.nodes.len(),
        ensures
            final(self).wf(),
            final(self)@.nodes == old(self)@.nodes.update(
                ix as int,
                NodeView { attrs: attrs@, ..old(self)@.nodes[ix as int] },
            ),
            final(self)@.links == old(self)@.links,
    {
        let ghost before = self@;
        let ghost view = attrs@;
        let node = node_at_mut(&mut self.graph, ix);
        node.attrs = attrs;
        proof {
            let after = self@;
            let changed = NodeView { attrs: view, ..before.nodes[ix as int] };
            assert(after.nodes =~= before.nodes.update(ix as int, changed));
            assert forall|i: int| 0 <= i < before.nodes.len() implies (
            #[trigger] before.nodes[i]).id == after.nodes[i].id
                && before.nodes[i].has_unresolved_attrs == after.nodes[i].has_unresolved_attrs by {
            }
            lemma_same_but_attrs(before.nodes, after.nodes);
            assert forall|i: int, j: int| 0 <= i < j < after.nodes.len() implies (
            #[trigger] after.nodes[i]).id != (#[trigger] after.nodes[j]).id by {
                assert(before.nodes[i].id != before.nodes[j].id);
            }
        }
    }
}

/// The path of `name` inside what stands at `prefix`.
pub open spec fn inner_path(prefix: Option<Seq<char>>, name: Seq<char>) -> Seq<char> {
    match prefix {
        Some(p) => p + "."@ + name,
        None => name,
    }
}

/// The references that the attributes among the first `n` items of a body make.
pub open spec fn attributes_refs(body: Seq<ItemView>, prefix: Option<Seq<char>>, n: nat) -> Seq<
    TraversalRefView,
>
    decreases n,
{
    if n == 0 || n > body.len() {
        Seq::empty()
    } else {
        attributes_refs(body, prefix, (n - 1) as nat) + match body[n - 1] {
            ItemView::Attribute { key, expr } => refs(expr, inner_path(prefix, key)),
            ItemView::Block { .. } => Seq::empty(),
        }
    }
}

/// The references that the blocks among the first `n` items of a body make.
pub open spec fn blocks_refs(body: Seq<ItemView>, prefix: Option<Seq<char>>, n: nat) -> Seq<
    TraversalRefView,
>
    decreases body, n,
{
    if n == 0 || n > body.len() {
        Seq::empty()
    } else {
        blocks_refs(body, prefix, (n - 1) as nat) + match body[n - 1] {
            ItemView::Attribute { .. } => Seq::empty(),
            ItemView::Block { identifier, body: inner, .. } => body_refs(
                inner,
                Some(inner_path(prefix, identifier)),
            ),
        }
    }
}

/// The references that a body makes: those of its attributes, then those of its blocks.
pub open spec fn body_refs(body: Seq<ItemView>, prefix: Option<Seq<char>>) -> Seq<TraversalRefView>
    decreases body, body.len() + 1,
{
    attributes_refs(body, prefix, body.len()) + blocks_refs(body, prefix, body.len())
}

/// The list that a key holds once a block has been added to it. What stood there and was no list
/// becomes the list's first item.
pub open spec fn block_list(current: Option<JsonView>, value: JsonView) -> Seq<JsonView> {
    match current {
        Some(JsonView::Array(items)) => items.push(value),
        Some(other) => seq![other, value],
        None => seq![value],
    }
}

/// Entries with the value of a block added under its identifier.
pub open spec fn with_block(
    entries: Seq<(Seq<char>, JsonView)>,
    identifier: Seq<char>,
    value: JsonView,
) -> Seq<(Seq<char>, JsonView)> {
    with_entry(entries, identifier, JsonView::Array(block_list(lookup(entries, identifier), value)))
}

/// The values of the attributes among the first `n` items of a body.
pub open spec fn attributes_value(body: Seq<ItemView>, n: nat) -> Seq<(Seq<char>, JsonView)>
    decreases n,
{
    if n == 0 || n > body.len() {
        Seq::empty()
    } else {
        let before = attributes_value(body, (n - 1) as nat);
        match body[n - 1] {
            ItemView::Attribute { key, expr } => with_entry(before, key, expr_value(expr)),
            ItemView::Block { .. } => before,
        }
    }
}

/// The values of a body's attributes and of the blocks among its first `n` items.
pub open spec fn blocks_value(body: Seq<ItemView>, n: nat) -> Seq<(Seq<char>, JsonView)>
    decreases body, n,
{
    if n == 0 || n > body.len() {
        attributes_value(body, body.len())
    } else {
        let before = blocks_value(body, (n - 1) as nat);
        match body[n - 1] {
            ItemView::Attribute { .. } => before,
            ItemView::Block { identifier, body: inner, .. } => with_block(
                before,
                identifier,
                JsonView::Object(body_value(inner)),
            ),
        }
    }
}

/// A body as the entries of a JSON object: its attributes, and for each block identifier a list
/// of the blocks that have it.
pub open spec fn body_value(body: Seq<ItemView>) -> Seq<(Seq<char>, JsonView)>
    decreases body, body.len() + 1,
{
    blocks_value(body, body.len())
}

/// Whether the text leaves any attribute of a body, or of a block in it, open.
pub open spec fn body_unresolved(body: Seq<ItemView>) -> bool
    decreases body,
{
    exists|i: int|
        0 <= i < body.len() && match #[trigger] body[i] {
            ItemView::Attribute { expr, .. } => expr_unresolved(expr),
            ItemView::Block { body: inner, .. } => body_unresolved(inner),
        }
}

/// Adds to `out` the references that a body makes.
fn collect_body(body: &Vec<Item>, prefix: Option<&str>, out: &mut Vec<TraversalRef>)
    ensures
        ref_views(final(out)@) == ref_views(old(out)@) + body_refs(
            body_view(body@),
            match prefix {
                Some(p) => Some(p@),
                None => None,
            },
        ),
    decreases body,
{
    let ghost views = body_view(body@);
    let ghost path = match prefix {
        Some(p) => Some(p@),
        None => None,
    };
    let ghost start = ref_views(out@);
    let mut i: usize = 0;
    assert(start + attributes_refs(views, path, 0) =~= start);
    while i < body.len()
        invariant
            i <= body@.len(),
            views == body_view(body@),
            path == (match prefix {
                Some(p) => Some(p@),
                None => None,
            }),
            ref_views(out@) == start + attributes_refs(views, path, i as nat),
        decreases body@.len() - i,
    {
        let ghost before = ref_views(out@);
        assert(views[i as int] == body@[i as int]@);
        if let Item::Attribute(attr) = &body[i] {
            let attr_path = path_inside(prefix, attr.key.as_str());
            collect_traversals(&attr.expr, attr_path.as_str(), out);
        } else {
            assert(before + Seq::empty() =~= before);
        }
        assert(ref_views(out@) =~= start + attributes_refs(views, path, (i + 1) as nat));
        i = i + 1;
    }
    let ghost middle = ref_views(out@);
    let mut j: usize = 0;
    assert(middle + blocks_refs(views, path, 0) =~= middle);
    while j < body.len()
        invariant
            j <= body@.len(),
            views == body_view(body@),
            path == (match prefix {
                Some(p) => Some(p@),
                None => None,
            }),
            ref_views(out@) == middle + blocks_refs(views, path, j as nat),
        decreases body@.len() - j,
    {
        let ghost before = ref_views(out@);
        proof {
            assert(views[j as int] == body@[j as int]@);
            lemma_structure_model(body@[j as int]);
        }
        if let Item::Block(block) = &body[j] {
            walk_nested_block(block, prefix, out);
        } else {
            assert(before + Seq::empty() =~= before);
        }
        assert(ref_views(out@) =~= middle + blocks_refs(views, path, (j + 1) as nat));
        j = j + 1;
    }
    assert(ref_views(out@) =~= start + body_refs(views, path));
}

/// The path of `name` inside what stands at `prefix`.
fn path_inside(prefix: Option<&str>, name: &str) -> (r: String)
    ensures
        r@ == inner_path(
            match prefix {
                Some(p) => Some(p@),
                None => None,
            },
            name@,
        ),
{
    match prefix {
        Some(p) => plus(plus(p, ".").as_str(), name),
        None => name.to_string(),
    }
}

/// Adds to `out` the references that a block makes.
fn walk_nested_block(block: &Block, prefix: Option<&str>, out: &mut Vec<TraversalRef>)
    ensures
        ref_views(final(out)@) == ref_views(old(out)@) + body_refs(
            body_view(block.body@),
            Some(
                inner_path(
                    match prefix {
                        Some(p) => Some(p@),
                        None => None,
                    },
                    block.identifier@,
                ),
            ),
        ),
    decreases block,
{
    let path = path_inside(prefix, block.identifier.as_str());
    collect_body(&block.body, Some(path.as_str()), out);
}

/// Adds the value of a block under its identifier.
fn push_block(entries: &mut Vec<(String, Json)>, identifier: &String, value: Json)
    ensures
        json_entries(final(entries)@) == with_block(
            json_entries(old(entries)@),
            identifier@,
            value@,
        ),
{
    broadcast use lemma_json_model;

    let ghost before = json_entries(entries@);
    let ghost added = value@;
    let mut list: Vec<Json> = Vec::new();
    match find_key(entries, identifier.as_str()) {
        Some(i) => {
            assert(before[i as int].1 == entries@[i as int].1@);
            match &entries[i].1 {
                Json::Array(items) => {
                    let mut k: usize = 0;
                    while k < items.len()
                        invariant
                            k <= items@.len(),
                            list@.len() == k,
                            forall|m: int| 0 <= m < k ==> (#[trigger] list@[m])@ == items@[m]@,
                        decreases items@.len() - k,
                    {
                        list.push(items[k].clone());
                        k = k + 1;
                    }
                    list.push(value);
                    assert(json_items(list@) =~= json_items(items@).push(added));
                },
                other => {
                    list.push(other.clone());
                    list.push(value);
                    assert(json_items(list@) =~= seq![other@, added]);
                },
            }
        },
        None => {
            list.push(value);
            assert(json_items(list@) =~= seq![added]);
        },
    }
    insert_entry(entries, identifier.clone(), Json::Array(list));
}

/// A body as a JSON object, and whether the text leaves any of it open.
fn body_to_json(body: &Vec<Item>) -> (r: (Json, bool))
    ensures
        r.0@ == JsonView::Object(body_value(body_view(body@))),
        r.1 == body_unresolved(body_view(body@)),
    decreases body,
{
    broadcast use lemma_json_model;

    let ghost views = body_view(body@);
    let mut entries: Vec<(String, Json)> = Vec::new();
    let mut unresolved = false;
    let mut i: usize = 0;
    assert(json_entries(entries@) =~= attributes_value(views, 0));
    while i < body.len()
        invariant
            i <= body@.len(),
            views == body_view(body@),
            json_entries(entries@) == attributes_value(views, i as nat),
            unresolved == (exists|k: int|
                0 <= k < i && match #[trigger] views[k] {
                    ItemView::Attribute { expr, .. } => expr_unresolved(expr),
                    ItemView::Block { .. } => false,
                }),
        decreases body@.len() - i,
    {
        assert(views[i as int] == body@[i as int]@);
        if let Item::Attribute(attr) = &body[i] {
            let (value, open) = expr_to_json(&attr.expr);
            unresolved = unresolved || open;
            insert_entry(&mut entries, attr.key.clone(), value);
        }
        i = i + 1;
    }
    let mut j: usize = 0;
    while j < body.len()
        invariant
            j <= body@.len(),
            views == body_view(body@),
            json_entries(entries@) == blocks_value(views, j as nat),
            unresolved == (exists|k: int|
                0 <= k < views.len() && match #[trigger] views[k] {
                    ItemView::Attribute { expr, .. } => expr_unresolved(expr),
                    ItemView::Block { body: inner, .. } => k < j && body_unresolved(inner),
                }),
        decreases body@.len() - j,
    {
        proof {
            assert(views[j as int] == body@[j as int]@);
            lemma_structure_model(body@[j as int]);
        }
        if let Item::Block(block) = &body[j] {
            let (value, open) = body_to_json(&block.body);
            unresolved = unresolved || open;
            push_block(&mut entries, &block.identifier, value);
        }
        j = j + 1;
    }
    (Json::Object(entries), unresolved)
}

/// The contents of a [`ParsedFile`].
pub struct FileView {
    pub path: Seq<char>,
    pub body: Seq<ItemView>,
}

/// The contents of some files.
pub open spec fn file_views(files: Seq<ParsedFile>) -> Seq<FileView> {
    files.map_values(|f: ParsedFile| FileView { path: f.path@, body: body_view(f.body@) })
}

/// A `resource` block: where it stands, its two labels, and its body.
pub struct ResourceView {
    pub file: Seq<char>,
    pub tf_type: Seq<char>,
    pub tf_name: Seq<char>,
    pub body: Seq<ItemView>,
}

impl ResourceView {
    /// The resource's address.
    pub open spec fn id(self) -> Seq<char> {
        self.tf_type + "."@ + self.tf_name
    }
}

/// The resource that an item declares: a `resource` block with two labels, or more, does.
pub open spec fn resource_in(file: Seq<char>, item: ItemView) -> Option<ResourceView> {
    match item {
        ItemView::Block { identifier, labels, body } => if identifier == "resource"@
            && labels.len() >= 2 {
            Some(ResourceView { file, tf_type: labels[0], tf_name: labels[1], body })
        } else {
            None
        },
        ItemView::Attribute { .. } => None,
    }
}

/// The resources that the first `n` items of a file declare.
pub open spec fn file_resources(file: FileView, n: nat) -> Seq<ResourceView>
    decreases n,
{
    if n == 0 || n > file.body.len() {
        Seq::empty()
    } else {
        let before = file_resources(file, (n - 1) as nat);
        match resource_in(file.path, file.body[n - 1]) {
            Some(r) => before.push(r),
            None => before,
        }
    }
}

/// The resources that the first `n` files declare.
pub open spec fn files_resources(files: Seq<FileView>, n: nat) -> Seq<ResourceView>
    decreases n,
{
    if n == 0 || n > files.len() {
        Seq::empty()
    } else {
        files_resources(files, (n - 1) as nat) + file_resources(
            files[n - 1],
            files[n - 1].body.len(),
        )
    }
}

/// The resources that some files declare, in order.
pub open spec fn resources(files: Seq<FileView>) -> Seq<ResourceView> {
    files_resources(files, files.len())
}

/// The node of a resource. JSON texts among its attributes stand there as what they hold.
pub open spec fn node_of(r: ResourceView) -> NodeView {
    NodeView {
        id: r.id(),
        tf_type: r.tf_type,
        tf_name: r.tf_name,
        kind: kind_of(r.tf_type),
        file: r.file,
        attrs: promoted(JsonView::Object(body_value(r.body))),
        has_unresolved_attrs: body_unresolved(r.body),
    }
}

/// The nodes of some resources.
pub open spec fn nodes_of(rs: Seq<ResourceView>) -> Seq<NodeView> {
    rs.map_values(|r: ResourceView| node_of(r))
}

/// The edge that a reference of the node at `ix` makes: none where it leads to no node, or to the
/// node itself.
pub open spec fn link_of(nodes: Seq<NodeView>, ix: int, r: TraversalRefView) -> Option<LinkView> {
    if r.target_id == nodes[ix].id {
        None
    } else {
        match position_of(nodes, r.target_id) {
            Some(to) => Some(
                LinkView {
                    from: ix,
                    to,
                    edge: EdgeView {
                        kind: EdgeKindView::References,
                        evidence: SourceRefView {
                            file: nodes[ix].file,
                            resource_id: nodes[ix].id,
                            attr_path: r.attr_path,
                        },
                        description: nodes[ix].id + "."@ + r.attr_path + " references "@
                            + r.target_id + " ("@ + r.full_path + ")"@,
                    },
                },
            ),
            None => None,
        }
    }
}

/// The edges that the first `n` of some references of the node at `ix` make.
pub open spec fn refs_links(
    nodes: Seq<NodeView>,
    ix: int,
    refs: Seq<TraversalRefView>,
    n: nat,
) -> Seq<LinkView>
    decreases n,
{
    if n == 0 || n > refs.len() {
        Seq::empty()
    } else {
        let before = refs_links(nodes, ix, refs, (n - 1) as nat);
        match link_of(nodes, ix, refs[n - 1]) {
            Some(link) => before.push(link),
            None => before,
        }
    }
}

/// The edges that the references of a resource make.
pub open spec fn resource_links(nodes: Seq<NodeView>, rs: Seq<ResourceView>, ix: int) -> Seq<
    LinkView,
> {
    let list = body_refs(rs[ix].body, None);
    refs_links(nodes, ix, list, list.len())
}

/// The edges that the references of the first `n` resources make.
pub open spec fn resources_links(rs: Seq<ResourceView>, n: nat) -> Seq<LinkView>
    decreases n,
{
    if n == 0 || n > rs.len() {
        Seq::empty()
    } else {
        resources_links(rs, (n - 1) as nat) + resource_links(nodes_of(rs), rs, n - 1)
    }
}

/// The graph of some resources.
pub open spec fn graph_of(rs: Seq<ResourceView>) -> GraphView {
    GraphView { nodes: nodes_of(rs), links: resources_links(rs, rs.len()) }
}

/// Whether the resources at `i` and `j` are the first two that have the same address.
pub open spec fn first_duplicate(rs: Seq<ResourceView>, i: int, j: int) -> bool {
    &&& 0 <= i < j < rs.len()
    &&& rs[i].id() == rs[j].id()
    &&& forall|a: int, b: int|
        0 <= a < b < j ==> (#[trigger] rs[a]).id() != (#[trigger] rs[b]).id()
}

/// Whether all resources have different addresses.
pub open spec fn all_distinct(rs: Seq<ResourceView>) -> bool {
    forall|a: int, b: int|
        0 <= a < b < rs.len() ==> (#[trigger] rs[a]).id() != (#[trigger] rs[b]).id()
}

/// Whether the graph of some resources has no more nodes and edges than there are positions.
pub open spec fn within_limits(rs: Seq<ResourceView>) -> bool {
    rs.len() <= u32::MAX && resources_links(rs, rs.len()).len() <= u32::MAX
}

/// A `resource` block, borrowed from the file that holds it.
struct Resource<'a> {
    file: &'a String,
    tf_type: &'a String,
    tf_name: &'a String,
    body: &'a Vec<Item>,
}

impl<'a> View for Resource<'a> {
    type V = ResourceView;

    closed spec fn view(&self) -> ResourceView {
        ResourceView {
            file: self.file@,
            tf_type: self.tf_type@,
            tf_name: self.tf_name@,
            body: body_view(self.body@),
        }
    }
}

/// The contents of some resources.
spec fn resource_views<'a>(list: Seq<Resource<'a>>) -> Seq<ResourceView> {
    list.map_values(|r: Resource<'a>| r@)
}

/// The resources that some files declare, in order.
fn resource_blocks<'a>(files: &'a Vec<ParsedFile>) -> (r: Vec<Resource<'a>>)
    ensures
        resource_views(r@) == resources(file_views(files@)),
{
    let ghost views = file_views(files@);
    let mut out: Vec<Resource<'a>> = Vec::new();
    let mut i: usize = 0;
    assert(resource_views(out@) =~= Seq::empty());
    while i < files.len()
        invariant
            i <= files@.len(),
            views == file_views(files@),
            resource_views(out@) == files_resources(views, i as nat),
        decreases files@.len() - i,
    {
        let file: &'a ParsedFile = &files[i];
        let ghost view = views[i as int];
        let ghost start = resource_views(out@);
        assert(view == FileView { path: file.path@, body: body_view(file.body@) });
        let mut j: usize = 0;
        assert(start + file_resources(view, 0) =~= start);
        while j < file.body.len()
            invariant
                j <= file.body@.len(),
                view == (FileView { path: file.path@, body: body_view(file.body@) }),
                resource_views(out@) == start + file_resources(view, j as nat),
            decreases file.body@.len() - j,
        {
            let ghost before = resource_views(out@);
            proof {
                assert(view.body[j as int] == file.body@[j as int]@);
                lemma_structure_model(file.body@[j as int]);
            }
            if let Item::Block(block) = &file.body[j] {
                assert(texts(block.labels@).len() == block.labels@.len());
                if same_text(block.identifier.as_str(), "resource") && block.labels.len() >= 2 {
                    let resource = Resource {
                        file: &file.path,
                        tf_type: &block.labels[0],
                        tf_name: &block.labels[1],
                        body: &block.body,
                    };
                    assert(resource_in(view.path, view.body[j as int]) == Some(resource@));
                    out.push(resource);
                    assert(resource_views(out@) =~= before.push(resource@));
                }
            }
            assert(resource_views(out@) =~= start + file_resources(view, (j + 1) as nat));
            j = j + 1;
        }
        i = i + 1;
    }
    out
}

impl<'a> Resource<'a> {
    /// The resource's address.
    fn address(&self) -> (r: String)
        ensures
            r@ == self@.id(),
    {
        plus(plus(self.tf_type.as_str(), ".").as_str(), self.tf_name.as_str())
    }

    /// The resource's node.
    fn to_node(&self) -> (r: Node)
        ensures
            r@ == node_of(self@),
    {
        let (attrs, has_unresolved_attrs) = body_to_json(self.body);
        Node {
            id: self.address(),
            tf_type: self.tf_type.clone(),
            tf_name: self.tf_name.clone(),
            kind: ResourceKind::classify(self.tf_type.as_str()),
            file: self.file.clone(),
            attrs: promote_embedded_json(attrs),
            has_unresolved_attrs,
        }
    }
}

/// Why no graph could be built.
#[derive(Debug)]
pub enum GraphBuildError {
    /// Two resources have the same address.
    DuplicateResource { id: String, first_file: String, second_file: String },
}

impl GraphBuildError {
    /// What went wrong, in words.
    pub fn message(&self) -> (r: String)
        ensures
            match *self {
                GraphBuildError::DuplicateResource { id, first_file, second_file } => r@
                    == "duplicate resource address `"@ + id@ + "` (first seen in "@ + first_file@
                    + ", again in "@ + second_file@
                    + ") -- PolicyLens requires unique resource addresses within the scanned directory and refuses to silently overwrite one definition with another"@,
            },
    {
        match self {
            GraphBuildError::DuplicateResource { id, first_file, second_file } => {
                let mut out = plus("duplicate resource address `", id.as_str());
                out = plus(out.as_str(), "` (first seen in ");
                out = plus(out.as_str(), first_file.as_str());
                out = plus(out.as_str(), ", again in ");
                out = plus(out.as_str(), second_file.as_str());
                plus(
                    out.as_str(),
                    ") -- PolicyLens requires unique resource addresses within the scanned directory and refuses to silently overwrite one definition with another",
                )
            },
        }
    }
}

/// Builds the graph of the resources that some files declare. Two passes: nodes first, for a
/// resource may refer to one that is declared later.
pub fn build_graph(files: &Vec<ParsedFile>) -> (r: Result<IacGraph, GraphBuildError>)
    requires
        within_limits(resources(file_views(files@))),
    ensures
        match r {
            Ok(graph) => all_distinct(resources(file_views(files@))) && graph.wf() && graph@
                == graph_of(resources(file_views(files@))),
            Err(GraphBuildError::DuplicateResource { id, first_file, second_file }) => exists|
                i: int,
                j: int,
            | #[trigger]
                first_duplicate(resources(file_views(files@)), i, j) && id@ == resources(
                    file_views(files@),
                )[i].id() && first_file@ == resources(file_views(files@))[i].file && second_file@
                    == resources(file_views(files@))[j].file,
        },
{
    let list = resource_blocks(files);
    let ghost rs = resource_views(list@);
    let ghost nodes = nodes_of(rs);
    assert(rs.len() == list@.len());
    let mut graph = IacGraph::empty();
    let mut i: usize = 0;
    assert(nodes.take(0) =~= Seq::empty());
    while i < list.len()
        invariant
            i <= list@.len(),
            rs == resource_views(list@),
            rs.len() == list@.len(),
            rs.len() <= u32::MAX,
            rs == resources(file_views(files@)),
            nodes == nodes_of(rs),
            graph.wf(),
            graph@.nodes == nodes.take(i as int),
            graph@.links == Seq::<LinkView>::empty(),
            forall|a: int, b: int|
                0 <= a < b < i ==> (#[trigger] rs[a]).id() != (#[trigger] rs[b]).id(),
        decreases list@.len() - i,
    {
        let id = list[i].address();
        proof {
            assert(rs[i as int] == list@[i as int]@);
            assert(nodes[i as int] == node_of(rs[i as int]));
            lemma_position_of(graph@.nodes, id@);
            assert forall|a: int| 0 <= a < i implies graph@.nodes[a].id == (
            #[trigger] rs[a]).id() by {}
        }
        if let Some(first) = graph.node(id.as_str()) {
            proof {
                let a = position_of(graph@.nodes, id@)->Some_0;
                assert(rs[a].id() == id@);
                assert(nodes[a] == node_of(rs[a]));
                assert(first_duplicate(rs, a, i as int));
            }
            return Err(
                GraphBuildError::DuplicateResource {
                    id,
                    first_file: first.file.clone(),
                    second_file: list[i].file.clone(),
                },
            );
        }
        graph.add_resource(list[i].to_node());
        proof {
            assert(graph@.nodes =~= nodes.take(i + 1));
            assert forall|a: int| 0 <= a < i implies (#[trigger] rs[a]).id() != rs[i as int].id() by {
                assert(nodes.take(i as int)[a].id == rs[a].id());
            }
        }
        i = i + 1;
    }
    assert(nodes.take(i as int) =~= nodes);
    let mut k: usize = 0;
    assert(resources_links(rs, 0) =~= Seq::empty());
    while k < list.len()
        invariant
            k <= list@.len(),
            rs == resource_views(list@),
            rs.len() == list@.len(),
            rs == resources(file_views(files@)),
            all_distinct(rs),
            nodes == nodes_of(rs),
            within_limits(rs),
            graph.wf(),
            graph@.nodes == nodes,
            graph@.links == resources_links(rs, k as nat),
        decreases list@.len() - k,
    {
        assert(rs[k as int] == list@[k as int]@);
        let mut found: Vec<TraversalRef> = Vec::new();
        assert(ref_views(found@) =~= Seq::empty());
        collect_body(list[k].body, None, &mut found);
        let ghost refs = body_refs(rs[k as int].body, None);
        assert(ref_views(found@) =~= refs);
        let ghost start = graph@.links;
        proof {
            lemma_links_grow(rs, (k + 1) as nat);
            assert(start + refs_links(nodes, k as int, refs, 0) =~= start);
        }
        let mut m: usize = 0;
        while m < found.len()
            invariant
                m <= found@.len(),
                k < nodes.len(),
                nodes == nodes_of(rs),
                ref_views(found@) == refs,
                refs.len() == found@.len(),
                start.len() + refs_links(nodes, k as int, refs, refs.len()).len() <= u32::MAX,
                graph.wf(),
                graph@.nodes == nodes,
                graph@.links == start + refs_links(nodes, k as int, refs, m as nat),
            decreases found@.len() - m,
        {
            let ghost before = graph@.links;
            assert(refs[m as int] == found@[m as int]@);
            proof {
                lemma_refs_grow(nodes, k as int, refs, (m + 1) as nat);
            }
            if let Some((to, edge)) = resolve_ref(&graph, k, &found[m]) {
                graph.add_link(k, to, edge);
                assert(graph@.links =~= start + refs_links(nodes, k as int, refs, (m + 1) as nat));
            }
            m = m + 1;
        }
        assert(graph@.links =~= resources_links(rs, (k + 1) as nat));
        k = k + 1;
    }
    Ok(graph)
}

/// Whether [`build_graph`] can be given some files: whether their graph has no more nodes and edges
/// than there are positions.
pub fn can_build(files: &Vec<ParsedFile>) -> (r: bool)
    ensures
        r == within_limits(resources(file_views(files@))),
{
    let list = resource_blocks(files);
    let ghost rs = resource_views(list@);
    let ghost nodes = nodes_of(rs);
    assert(rs.len() == list@.len());
    if list.len() as u64 > u32::MAX as u64 {
        return false;
    }
    let mut known: StringHashMap<usize> = StringHashMap::new();
    let mut i: usize = 0;
    while i < list.len()
        invariant
            i <= list@.len(),
            rs == resource_views(list@),
            rs.len() == list@.len(),
            nodes == nodes_of(rs),
            forall|id: Seq<char>| #[trigger]
                known@.contains_key(id) <==> exists|j: int| 0 <= j < i && (#[trigger] nodes[j]).id == id,
        decreases list@.len() - i,
    {
        let ghost before = known@;
        let id = list[i].address();
        assert(rs[i as int] == list@[i as int]@);
        assert(nodes[i as int].id == id@);
        known.insert(id, i);
        assert forall|key: Seq<char>| #[trigger] known@.contains_key(key) <==> exists|j: int|
            0 <= j < i + 1 && (#[trigger] nodes[j]).id == key by {
            if before.contains_key(key) {
                let j = choose|j: int| 0 <= j < i && (#[trigger] nodes[j]).id == key;
                assert(nodes[j].id == key);
            }
        }
        i = i + 1;
    }
    let mut total: u64 = 0;
    let mut k: usize = 0;
    while k < list.len()
        invariant
            k <= list@.len(),
            rs == resource_views(list@),
            rs.len() == list@.len(),
            rs.len() <= u32::MAX,
            rs == resources(file_views(files@)),
            nodes == nodes_of(rs),
            forall|id: Seq<char>| #[trigger]
                known@.contains_key(id) <==> exists|j: int|
                    0 <= j < nodes.len() && (#[trigger] nodes[j]).id == id,
            total == resources_links(rs, k as nat).len(),
            total <= u32::MAX,
        decreases list@.len() - k,
    {
        assert(rs[k as int] == list@[k as int]@);
        let id = list[k].address();
        assert(nodes[k as int].id == id@);
        let mut found: Vec<TraversalRef> = Vec::new();
        assert(ref_views(found@) =~= Seq::empty());
        collect_body(list[k].body, None, &mut found);
        let ghost refs = body_refs(rs[k as int].body, None);
        assert(ref_views(found@) =~= refs);
        let ghost start = resources_links(rs, k as nat);
        let mut m: usize = 0;
        while m < found.len()
            invariant
                m <= found@.len(),
                k < nodes.len(),
                k < rs.len(),
                rs == resources(file_views(files@)),
                nodes == nodes_of(rs),
                id@ == nodes[k as int].id,
                refs == body_refs(rs[k as int].body, None),
                ref_views(found@) == refs,
                refs.len() == found@.len(),
                forall|id: Seq<char>| #[trigger]
                    known@.contains_key(id) <==> exists|j: int|
                        0 <= j < nodes.len() && (#[trigger] nodes[j]).id == id,
                start == resources_links(rs, k as nat),
                total == start.len() + refs_links(nodes, k as int, refs, m as nat).len(),
                total <= u32::MAX,
            decreases found@.len() - m,
        {
            assert(refs[m as int] == found@[m as int]@);
            let target = found[m].target_id.as_str();
            proof {
                lemma_position_of(nodes, target@);
                lemma_refs_grow(nodes, k as int, refs, (m + 1) as nat);
                lemma_links_grow(rs, (k + 1) as nat);
            }
            if !same_text(target, id.as_str()) && known.contains_key(target) {
                if total == u32::MAX as u64 {
                    return false;
                }
                total = total + 1;
            }
            m = m + 1;
        }
        k = k + 1;
    }
    true
}

/// The target and the edge of a reference that the node at `ix` makes, where it makes an edge.
fn resolve_ref(graph: &IacGraph, ix: usize, found: &TraversalRef) -> (r: Option<(usize, Edge)>)
    requires
        graph.wf(),
        ix < graph@.nodes.len(),
    ensures
        match r {
            Some((to, edge)) => to < graph@.nodes.len() && link_of(
                graph@.nodes,
                ix as int,
                found@,
            ) == Some(LinkView { from: ix as int, to: to as int, edge: edge@ }),
            None => link_of(graph@.nodes, ix as int, found@) is None,
        },
{
    proof {
        lemma_position_of(graph@.nodes, found.target_id@);
        assert(graph.index_of@.contains_key(found.target_id@) || !graph.index_of@.contains_key(
            found.target_id@,
        ));
    }
    let node = graph.node_by_index(ix);
    let from_id = node.id.as_str();
    if same_text(found.target_id.as_str(), from_id) {
        return None;
    }
    match graph.index_of.get(found.target_id.as_str()) {
        Some(to) => {
            let mut description = plus(from_id, ".");
            description = plus(description.as_str(), found.attr_path.as_str());
            description = plus(description.as_str(), " references ");
            description = plus(description.as_str(), found.target_id.as_str());
            description = plus(description.as_str(), " (");
            description = plus(description.as_str(), found.full_path.as_str());
            description = plus(description.as_str(), ")");
            let edge = Edge {
                kind: EdgeKind::References,
                evidence: SourceRef {
                    file: node.file.clone(),
                    resource_id: node.id.clone(),
                    attr_path: found.attr_path.clone(),
                },
                description,
            };
            Some((*to, edge))
        },
        None => None,
    }
}

proof fn lemma_refs_grow(nodes: Seq<NodeView>, ix: int, refs: Seq<TraversalRefView>, n: nat)
    requires
        n <= refs.len(),
    ensures
        refs_links(nodes, ix, refs, n).len() <= refs_links(nodes, ix, refs, refs.len()).len(),
    decreases refs.len() - n,
{
    if n < refs.len() {
        lemma_refs_grow(nodes, ix, refs, n + 1);
    }
}

proof fn lemma_links_grow(rs: Seq<ResourceView>, n: nat)
    requires
        n <= rs.len(),
    ensures
        resources_links(rs, n).len() <= resources_links(rs, rs.len()).len(),
    decreases rs.len() - n,
{
    if n < rs.len() {
        lemma_links_grow(rs, n + 1);
    }
}

/// The identifiers that begin a traversal but never name a resource type.
pub fn reserved_roots() -> (r: [&'static str; 9])
    ensures
        r == RESERVED_ROOTS,
{
    RESERVED_ROOTS
}

proof fn lemma_refs_links(
    nodes: Seq<NodeView>,
    ix: int,
    refs: Seq<TraversalRefView>,
    n: nat,
    link: LinkView,
)
    requires
        n <= refs.len(),
    ensures
        refs_links(nodes, ix, refs, n).contains(link) <==> exists|i: int|
            0 <= i < n && link_of(nodes, ix, #[trigger] refs[i]) == Some(link),
    decreases n,
{
    if n > 0 {
        let before = refs_links(nodes, ix, refs, (n - 1) as nat);
        let all = refs_links(nodes, ix, refs, n);
        lemma_refs_links(nodes, ix, refs, (n - 1) as nat, link);
        if let Some(last) = link_of(nodes, ix, refs[n - 1]) {
            if all.contains(link) {
                let i = choose|i: int| 0 <= i < all.len() && all[i] == link;
                if i < before.len() {
                    assert(before[i] == link);
                } else {
                    assert(link_of(nodes, ix, refs[n - 1]) == Some(link));
                }
            }
            if before.contains(link) {
                let i = choose|i: int| 0 <= i < before.len() && before[i] == link;
                assert(all[i] == link);
            }
            assert(all[before.len() as int] == last);
        }
    }
}

/// Whether a reference of the resource at `ix` makes an edge.
pub open spec fn makes_link(rs: Seq<ResourceView>, ix: int, link: LinkView) -> bool {
    exists|i: int|
        0 <= i < body_refs(rs[ix].body, None).len() && link_of(
            nodes_of(rs),
            ix,
            #[trigger] body_refs(rs[ix].body, None)[i],
        ) == Some(link)
}

proof fn lemma_resources_links(rs: Seq<ResourceView>, n: nat, link: LinkView)
    requires
        n <= rs.len(),
    ensures
        resources_links(rs, n).contains(link) <==> exists|ix: int|
            0 <= ix < n && #[trigger] makes_link(rs, ix, link),
    decreases n,
{
    if n > 0 {
        let before = resources_links(rs, (n - 1) as nat);
        let last = resource_links(nodes_of(rs), rs, n - 1);
        let all = resources_links(rs, n);
        let refs = body_refs(rs[n - 1].body, None);
        lemma_resources_links(rs, (n - 1) as nat, link);
        lemma_refs_links(nodes_of(rs), n - 1, refs, refs.len(), link);
        assert(all == before + last);
        if all.contains(link) {
            let i = choose|i: int| 0 <= i < all.len() && all[i] == link;
            if i < before.len() {
                assert(before[i] == link);
            } else {
                assert(last[i - before.len()] == link);
                assert(makes_link(rs, n - 1, link));
            }
        }
        if before.contains(link) {
            let i = choose|i: int| 0 <= i < before.len() && before[i] == link;
            assert(all[i] == link);
        }
        if last.contains(link) {
            let i = choose|i: int| 0 <= i < last.len() && last[i] == link;
            assert(all[before.len() + i] == link);
        }
    }
}

/// The edges of a graph are those that the references of its resources make, all of them and no
/// others.
pub proof fn law_edges_are_the_references(rs: Seq<ResourceView>, link: LinkView)
    ensures
        graph_of(rs).links.contains(link) <==> exists|ix: int|
            0 <= ix < rs.len() && #[trigger] makes_link(rs, ix, link),
{
    lemma_resources_links(rs, rs.len(), link);
}

/// An edge of a graph joins two different resources, and its evidence is the file and the address
/// of the one that refers to the other.
pub proof fn law_edges_join_known_resources(rs: Seq<ResourceView>, link: LinkView)
    requires
        graph_of(rs).links.contains(link),
    ensures
        0 <= link.from < rs.len(),
        0 <= link.to < rs.len(),
        rs[link.from].id() != rs[link.to].id(),
        link.edge.kind is References,
        link.edge.evidence.file == rs[link.from].file,
        link.edge.evidence.resource_id == rs[link.from].id(),
{
    law_edges_are_the_references(rs, link);
    let nodes = nodes_of(rs);
    let ix = choose|ix: int| 0 <= ix < rs.len() && #[trigger] makes_link(rs, ix, link);
    let refs = body_refs(rs[ix].body, None);
    let i = choose|i: int|
        0 <= i < refs.len() && link_of(nodes, ix, #[trigger] refs[i]) == Some(link);
    lemma_position_of(nodes, refs[i].target_id);
    assert(nodes[ix] == node_of(rs[ix]));
    assert(nodes[link.to] == node_of(rs[link.to]));
}

/// Two resources never have the same node address in a graph that could be built.
pub proof fn law_addresses_are_unique(rs: Seq<ResourceView>, i: int, j: int)
    requires
        all_distinct(rs),
        0 <= i < rs.len(),
        0 <= j < rs.len(),
        graph_of(rs).nodes[i].id == graph_of(rs).nodes[j].id,
    ensures
        i == j,
{
    assert(nodes_of(rs)[i] == node_of(rs[i]));
    assert(nodes_of(rs)[j] == node_of(rs[j]));
    if i < j {
        assert(rs[i].id() != rs[j].id());
    } else if j < i {
        assert(rs[j].id() != rs[i].id());
    }
}

/// Blocks with the same identifier are all kept: adding one to entries makes the list under its
/// identifier one longer, and keeps what was there.
pub proof fn law_repeated_blocks_are_kept(
    entries: Seq<(Seq<char>, JsonView)>,
    identifier: Seq<char>,
    value: JsonView,
)
    ensures
        lookup(with_block(entries, identifier, value), identifier) matches Some(
            JsonView::Array(items),
        ) && items.last() == value && match lookup(entries, identifier) {
            Some(JsonView::Array(before)) => items == before.push(value),
            Some(before) => items == seq![before, value],
            None => items == seq![value],
        },
{
    let list = block_list(lookup(entries, identifier), value);
    law_lookup_after_insert(entries, identifier, JsonView::Array(list), identifier);
}

} // verus!
