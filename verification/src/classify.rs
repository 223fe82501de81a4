//! What a resource graph means: the facts about its resources, and edges for grants, network
//! reachability and attached roles. All of it follows from what is already on the graph.

use crate::facts::{
    bucket_is_public,
    derive_facts,
    derived_entries,
    has_facts,
    has_open_ingress,
    has_wildcard_trust,
    is_publicly_invokable,
    law_fact_is_found,
    lemma_facts_keep,
    tagged_sensitive,
    takes_facts,
    with_fact,
    with_facts,
};
use crate::grants::{compute_iam_grant_edges, grant_links, lemma_same_grants};
use crate::graph::{GraphView, IacGraph, LinkView, positions};
use crate::json::{Json, JsonView, lookup};
use crate::links::{NewLink, all_within, new_views};
use crate::reach::{
    attached_links,
    compute_attached_edges,
    compute_network_reachable_edges,
    lemma_same_attached,
    lemma_same_network,
    network_links,
};
use crate::types::{NodeView, ResourceKind, ResourceKindView};
use vstd::prelude::*;

verus! {

/// The edges that follow from what a graph means: grants, network reachability, attached roles.
pub open spec fn semantic_links(g: GraphView) -> Seq<LinkView> {
    grant_links(g, g.nodes.len()) + network_links(g, g.nodes.len()) + attached_links(
        g,
        g.nodes.len(),
    )
}

/// A graph with the facts about its nodes and the edges that follow from what it means.
pub open spec fn classified(g: GraphView) -> GraphView {
    let f = with_facts(g);
    GraphView { nodes: f.nodes, links: f.links + semantic_links(f) }
}

/// Whether a graph can be classified: facts can be added to the nodes that have any, and there are
/// positions for the edges.
pub open spec fn classifiable(g: GraphView) -> bool {
    &&& forall|ix: int|
        0 <= ix < g.nodes.len() && has_facts((#[trigger] g.nodes[ix]).kind) ==> takes_facts(
            g.nodes[ix].attrs,
        )
    &&& classified(g).links.len() <= u32::MAX
}

/// The edges that follow from what a graph means.
fn compute_edges(graph: &IacGraph) -> (r: Vec<NewLink>)
    requires
        graph.wf(),
    ensures
        new_views(r@) == semantic_links(graph@),
        all_within(r@, graph@.nodes.len()),
{
    let mut out: Vec<NewLink> = Vec::new();
    assert(new_views(out@) =~= Seq::empty());
    compute_iam_grant_edges(graph, &mut out);
    compute_network_reachable_edges(graph, &mut out);
    compute_attached_edges(graph, &mut out);
    assert(new_views(out@) =~= semantic_links(graph@));
    out
}

/// Adds to a graph the facts about its nodes and the edges that follow from what it means.
pub fn classify(graph: &mut IacGraph)
    requires
        old(graph).wf(),
        classifiable(old(graph)@),
    ensures
        final(graph).wf(),
        final(graph)@ == classified(old(graph)@),
{
    derive_facts(graph);
    let ghost facts = graph@;
    let list = compute_edges(graph);
    let ghost wanted = semantic_links(facts);
    assert(wanted.len() == list@.len());
    let ghost all = list@;
    assert(facts.links + wanted.take(0) =~= facts.links);
    for link in it: list
        invariant
            it.seq() == all,
            wanted == new_views(all),
            all_within(all, facts.nodes.len()),
            facts.links.len() + wanted.len() <= u32::MAX,
            graph.wf(),
            graph@.nodes == facts.nodes,
            graph@.links == facts.links + wanted.take(it.index()),
    {
        let ghost k = it.index();
        assert(all[k] == link);
        assert(wanted[k] == link@);
        graph.add_link(link.from, link.to, link.edge);
        assert(wanted.take(k + 1) =~= wanted.take(k).push(wanted[k]));
        assert(graph@.links =~= facts.links + wanted.take(k + 1));
    }
    assert(wanted.take(wanted.len() as int) =~= wanted);
}

/// The edges that follow from what a graph means do not depend on whether the facts about its nodes
/// have been added.
pub proof fn law_facts_keep_edges(g: GraphView)
    requires
        g.wf(),
    ensures
        semantic_links(with_facts(g)) == semantic_links(g),
{
    lemma_same_grants(g, g.nodes.len());
    lemma_same_network(g, g.nodes.len());
    lemma_same_attached(g, g.nodes.len());
}

/// Whether [`classify`] can be given a graph.
pub fn can_classify(graph: &IacGraph) -> (r: bool)
    requires
        graph.wf(),
    ensures
        r == classifiable(graph@),
{
    let ghost g = graph@;
    let total: usize = graph.node_count();
    let mut ix: usize = 0;
    while ix < total
        invariant
            g == graph@,
            total == g.nodes.len(),
            ix <= total,
            forall|k: int|
                0 <= k < ix && has_facts((#[trigger] g.nodes[k]).kind) ==> takes_facts(
                    g.nodes[k].attrs,
                ),
        decreases total - ix,
    {
        let node = graph.node_by_index(ix);
        let derived = matches!(
            node.kind,
            ResourceKind::S3Bucket | ResourceKind::IamRole | ResourceKind::SecurityGroup
            | ResourceKind::LambdaFunction
        );
        if derived {
            if let Some(v) = node.attrs.get("_derived") {
                if !matches!(v, Json::Object(_)) {
                    assert(has_facts(g.nodes[ix as int].kind));
                    return false;
                }
            }
        }
        ix = ix + 1;
    }
    let edges: usize = graph.edge_count();
    let added: usize = compute_edges(graph).len();
    proof {
        law_facts_keep_edges(g);
    }
    edges as u64 <= u32::MAX as u64 && added as u64 <= u32::MAX as u64 - edges as u64
}

/// The fact about a node, once it has been classified.
pub open spec fn recorded(g: GraphView, ix: int, key: Seq<char>) -> Option<JsonView> {
    lookup(derived_entries(classified(g).nodes[ix].attrs), key)
}

/// After classification, every fact about a resource is recorded as it follows from the graph.
pub proof fn law_facts_are_recorded(g: GraphView, ix: int)
    requires
        0 <= ix < g.nodes.len(),
        g.nodes[ix].attrs is Object,
    ensures
        g.nodes[ix].kind is S3Bucket ==> recorded(g, ix, "public"@) == Some(
            JsonView::Bool(bucket_is_public(g, ix)),
        ) && recorded(g, ix, "sensitive"@) == Some(
            JsonView::Bool(tagged_sensitive(g.nodes[ix].attrs)),
        ),
        g.nodes[ix].kind is IamRole ==> recorded(g, ix, "wildcard_trust"@) == Some(
            JsonView::Bool(has_wildcard_trust(g.nodes[ix].attrs)),
        ),
        g.nodes[ix].kind is SecurityGroup ==> recorded(g, ix, "open_ingress"@) == Some(
            JsonView::Bool(has_open_ingress(g.nodes[ix].attrs)),
        ),
        g.nodes[ix].kind is LambdaFunction ==> recorded(g, ix, "publicly_invokable"@) == Some(
            JsonView::Bool(is_publicly_invokable(g, ix)),
        ),
{
    let attrs = g.nodes[ix].attrs;
    match g.nodes[ix].kind {
        ResourceKindView::S3Bucket => {
            let first = with_fact(attrs, "sensitive"@, tagged_sensitive(attrs));
            reveal_strlit("sensitive");
            reveal_strlit("public");
            assert("sensitive"@.len() != "public"@.len());
            law_fact_is_found(attrs, "sensitive"@, tagged_sensitive(attrs), "sensitive"@);
            law_fact_is_found(first, "public"@, bucket_is_public(g, ix), "public"@);
            law_fact_is_found(first, "public"@, bucket_is_public(g, ix), "sensitive"@);
        },
        ResourceKindView::IamRole => {
            law_fact_is_found(
                attrs,
                "wildcard_trust"@,
                has_wildcard_trust(attrs),
                "wildcard_trust"@,
            );
        },
        ResourceKindView::SecurityGroup => {
            law_fact_is_found(attrs, "open_ingress"@, has_open_ingress(attrs), "open_ingress"@);
        },
        ResourceKindView::LambdaFunction => {
            law_fact_is_found(
                attrs,
                "publicly_invokable"@,
                is_publicly_invokable(g, ix),
                "publicly_invokable"@,
            );
        },
        _ => {},
    }
}

/// Classification takes nothing away: nodes keep everything but their attributes, attributes keep
/// everything but what stands under `_derived`, and edges keep their positions.
pub proof fn law_classification_only_adds(g: GraphView, ix: int, asked: Seq<char>)
    requires
        0 <= ix < g.nodes.len(),
        asked != "_derived"@,
    ensures
        classified(g).nodes.len() == g.nodes.len(),
        classified(g).nodes[ix] == (NodeView {
            attrs: classified(g).nodes[ix].attrs,
            ..g.nodes[ix]
        }),
        classified(g).nodes[ix].attrs.get(asked) == g.nodes[ix].attrs.get(asked),
        g.links.is_prefix_of(classified(g).links),
{
    lemma_facts_keep(g, ix, asked);
    assert(classified(g).links.take(g.links.len() as int) =~= g.links);
}

} // verus!
