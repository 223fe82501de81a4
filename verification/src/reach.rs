//! What the internet reaches, and the roles that instances run as.

use crate::attrs::{attr_int, attr_text, int_attr, text_attr};
use crate::facts::{
    has_open_ingress,
    ingress_list,
    ingress_rules,
    is_open_rule,
    lemma_facts_keep,
    lemma_keys_differ,
    lemma_referenced_within,
    referenced,
    referenced_node,
    rule_is_open,
    with_facts,
};
use crate::graph::{GraphView, IacGraph, LinkView, lemma_links_from, links_from, positions};
use crate::json::{Json, JsonView, reference_views};
use crate::links::{NewLink, all_within, new_views};
use crate::text::{plus, starts_with};
use crate::types::{Edge, EdgeKind, EdgeKindView, EdgeView, ResourceKind, SourceRef, SourceRefView};
use vstd::prelude::*;

verus! {

/// The edge for what an ingress rule of the security group at `sg` lets in to a node.
pub open spec fn reach_link(g: GraphView, sg: int, ix: int, rule: JsonView) -> LinkView {
    LinkView {
        from: sg,
        to: ix,
        edge: EdgeView {
            kind: EdgeKindView::NetworkReachable {
                protocol: match text_attr(rule, "protocol"@) {
                    Some(s) => s,
                    None => "tcp"@,
                },
                from_port: int_attr(rule, "from_port"@),
                to_port: int_attr(rule, "to_port"@),
                cidr: "0.0.0.0/0"@,
            },
            evidence: SourceRefView {
                file: g.nodes[sg].file,
                resource_id: g.nodes[sg].id,
                attr_path: "ingress"@,
            },
            description: g.nodes[sg].id + " allows inbound from 0.0.0.0/0, reaching "@
                + g.nodes[ix].id,
        },
    }
}

/// The edges for those of the first `n` rules of the security group at `sg` that let in the whole
/// internet to a node.
pub open spec fn rules_links(g: GraphView, sg: int, ix: int, rules: Seq<JsonView>, n: nat) -> Seq<
    LinkView,
>
    decreases n,
{
    if n == 0 || n > rules.len() {
        Seq::empty()
    } else {
        let before = rules_links(g, sg, ix, rules, (n - 1) as nat);
        if is_open_rule(rules[n - 1]) {
            before.push(reach_link(g, sg, ix, rules[n - 1]))
        } else {
            before
        }
    }
}

/// The edges for what lets in the whole internet to a node, by an edge from an attribute that begins
/// with `prefix` to a security group.
pub open spec fn group_links(g: GraphView, ix: int, e: int, prefix: Seq<char>) -> Seq<LinkView> {
    let edge = g.links[e].edge;
    let sg = g.links[e].to;
    if edge.kind is References && prefix.is_prefix_of(edge.evidence.attr_path)
        && g.nodes[sg].kind is SecurityGroup {
        let rules = ingress_rules(g.nodes[sg].attrs);
        rules_links(g, sg, ix, rules, rules.len())
    } else {
        Seq::empty()
    }
}

/// The same for the first `n` of some edges.
pub open spec fn groups_links(
    g: GraphView,
    ix: int,
    edges: Seq<int>,
    prefix: Seq<char>,
    n: nat,
) -> Seq<LinkView>
    decreases n,
{
    if n == 0 || n > edges.len() {
        Seq::empty()
    } else {
        groups_links(g, ix, edges, prefix, (n - 1) as nat) + group_links(
            g,
            ix,
            edges[n - 1],
            prefix,
        )
    }
}

/// The edges for what lets in the whole internet to the node at `ix`, if it is an instance.
pub open spec fn instance_links(g: GraphView, ix: int) -> Seq<LinkView> {
    if g.nodes[ix].kind is Instance {
        let edges = links_from(g.links, ix);
        groups_links(g, ix, edges, "vpc_security_group_ids"@, edges.len()) + groups_links(
            g,
            ix,
            edges,
            "security_groups"@,
            edges.len(),
        )
    } else {
        Seq::empty()
    }
}

/// The edges for what lets in the whole internet to the first `n` nodes.
pub open spec fn network_links(g: GraphView, n: nat) -> Seq<LinkView>
    decreases n,
{
    if n == 0 || n > g.nodes.len() {
        Seq::empty()
    } else {
        network_links(g, (n - 1) as nat) + instance_links(g, n - 1)
    }
}

/// The instance profile and the role that a node, if it is an instance, runs as.
pub open spec fn role_of(g: GraphView, ix: int) -> Option<(int, int)> {
    if g.nodes[ix].kind is Instance {
        match referenced(g.links, ix, "iam_instance_profile"@) {
            Some(profile) => if g.nodes[profile].kind is IamInstanceProfile {
                match referenced(g.links, profile, "role"@) {
                    Some(role) => Some((profile, role)),
                    None => None,
                }
            } else {
                None
            },
            None => None,
        }
    } else {
        None
    }
}

/// The edge for the role that an instance runs as.
pub open spec fn attached_link(g: GraphView, ix: int, profile: int, role: int) -> LinkView {
    LinkView {
        from: ix,
        to: role,
        edge: EdgeView {
            kind: EdgeKindView::Attached,
            evidence: SourceRefView {
                file: g.nodes[ix].file,
                resource_id: g.nodes[ix].id,
                attr_path: "iam_instance_profile"@,
            },
            description: g.nodes[ix].id + " runs as "@ + g.nodes[role].id
                + " (via instance profile "@ + g.nodes[profile].id + ")"@,
        },
    }
}

/// The edges for the roles that those of the first `n` nodes that are instances run as.
pub open spec fn attached_links(g: GraphView, n: nat) -> Seq<LinkView>
    decreases n,
{
    if n == 0 || n > g.nodes.len() {
        Seq::empty()
    } else {
        let before = attached_links(g, (n - 1) as nat);
        match role_of(g, n - 1) {
            Some((profile, role)) => before.push(attached_link(g, n - 1, profile, role)),
            None => before,
        }
    }
}

/// The edge for what an ingress rule of the security group at `sg` lets in to a node.
fn make_reach(graph: &IacGraph, sg: usize, ix: usize, rule: &Json) -> (r: NewLink)
    requires
        sg < graph@.nodes.len(),
        ix < graph@.nodes.len(),
    ensures
        r@ == reach_link(graph@, sg as int, ix as int, rule@),
        r.from == sg,
        r.to == ix,
{
    let group = graph.node_by_index(sg);
    let protocol = match attr_text(rule, "protocol") {
        Some(s) => s.to_string(),
        None => "tcp".to_string(),
    };
    let description = plus(
        plus(group.id.as_str(), " allows inbound from 0.0.0.0/0, reaching ").as_str(),
        graph.node_by_index(ix).id.as_str(),
    );
    NewLink {
        from: sg,
        to: ix,
        edge: Edge {
            kind: EdgeKind::NetworkReachable {
                protocol,
                from_port: attr_int(rule, "from_port"),
                to_port: attr_int(rule, "to_port"),
                cidr: "0.0.0.0/0".to_string(),
            },
            evidence: SourceRef {
                file: group.file.clone(),
                resource_id: group.id.clone(),
                attr_path: "ingress".to_string(),
            },
            description,
        },
    }
}

/// Adds to `out` the edges for those rules of the security group at `sg` that let in the whole
/// internet to a node.
fn reach_by_open_rules(graph: &IacGraph, sg: usize, ix: usize, out: &mut Vec<NewLink>)
    requires
        sg < graph@.nodes.len(),
        ix < graph@.nodes.len(),
        all_within(old(out)@, graph@.nodes.len()),
    ensures
        new_views(final(out)@) == new_views(old(out)@) + rules_links(
            graph@,
            sg as int,
            ix as int,
            ingress_rules(graph@.nodes[sg as int].attrs),
            ingress_rules(graph@.nodes[sg as int].attrs).len(),
        ),
        all_within(final(out)@, graph@.nodes.len()),
{
    let ghost g = graph@;
    let ghost start = new_views(out@);
    let rules = ingress_list(&graph.node_by_index(sg).attrs);
    let ghost views = ingress_rules(g.nodes[sg as int].attrs);
    assert(views.len() == rules@.len());
    let mut i: usize = 0;
    assert(start + rules_links(g, sg as int, ix as int, views, 0) =~= start);
    while i < rules.len()
        invariant
            g == graph@,
            sg < g.nodes.len(),
            ix < g.nodes.len(),
            i <= rules@.len(),
            views.len() == rules@.len(),
            views == reference_views(rules@),
            new_views(out@) == start + rules_links(g, sg as int, ix as int, views, i as nat),
            all_within(out@, g.nodes.len()),
        decreases rules@.len() - i,
    {
        let ghost before = new_views(out@);
        let ghost listed = out@;
        assert(views[i as int] == rules@[i as int]@);
        if rule_is_open(rules[i]) {
            let link = make_reach(graph, sg, ix, rules[i]);
            out.push(link);
            assert(new_views(out@) =~= before.push(link@));
            assert forall|j: int| 0 <= j < out@.len() implies (#[trigger] out@[j]).from
                < g.nodes.len() && out@[j].to < g.nodes.len() by {
                if j < listed.len() {
                    assert(out@[j] == listed[j]);
                }
            }
        }
        assert(new_views(out@) =~= start + rules_links(
            g,
            sg as int,
            ix as int,
            views,
            (i + 1) as nat,
        ));
        i = i + 1;
    }
}

/// Adds to `out` the edges for what lets in the whole internet to a node, by its references from
/// attributes that begin with `prefix`.
fn reach_by_groups(graph: &IacGraph, ix: usize, prefix: &str, out: &mut Vec<NewLink>)
    requires
        graph.wf(),
        ix < graph@.nodes.len(),
        all_within(old(out)@, graph@.nodes.len()),
    ensures
        new_views(final(out)@) == new_views(old(out)@) + groups_links(
            graph@,
            ix as int,
            links_from(graph@.links, ix as int),
            prefix@,
            links_from(graph@.links, ix as int).len(),
        ),
        all_within(final(out)@, graph@.nodes.len()),
{
    let ghost g = graph@;
    let ghost start = new_views(out@);
    let list = graph.outgoing(ix);
    let ghost ids = links_from(g.links, ix as int);
    proof {
        lemma_links_from(g.links, ix as int);
        assert(ids.len() == list@.len());
    }
    let mut i: usize = 0;
    assert(start + groups_links(g, ix as int, ids, prefix@, 0) =~= start);
    while i < list.len()
        invariant
            graph.wf(),
            g == graph@,
            ix < g.nodes.len(),
            i <= list@.len(),
            ids.len() == list@.len(),
            ids == positions(list@),
            forall|j: int| 0 <= j < ids.len() ==> 0 <= #[trigger] ids[j] < g.links.len(),
            new_views(out@) == start + groups_links(g, ix as int, ids, prefix@, i as nat),
            all_within(out@, g.nodes.len()),
        decreases list@.len() - i,
    {
        let ghost before = new_views(out@);
        assert(ids[i as int] == list@[i as int]);
        let edge = graph.edge_by_index(list[i]);
        let sg: usize = graph.edge_ends(list[i]).1;
        if matches!(edge.kind, EdgeKind::References) && starts_with(
            edge.evidence.attr_path.as_str(),
            prefix,
        ) && matches!(graph.node_by_index(sg).kind, ResourceKind::SecurityGroup) {
            reach_by_open_rules(graph, sg, ix, out);
        }
        assert(new_views(out@) =~= before + group_links(g, ix as int, ids[i as int], prefix@));
        assert(new_views(out@) =~= start + groups_links(
            g,
            ix as int,
            ids,
            prefix@,
            (i + 1) as nat,
        ));
        i = i + 1;
    }
}

/// Adds to `out` the edges for what lets in the whole internet to instances. They lead from the
/// security group to the instance: into what the open door exposes.
pub(crate) fn compute_network_reachable_edges(graph: &IacGraph, out: &mut Vec<NewLink>)
    requires
        graph.wf(),
        all_within(old(out)@, graph@.nodes.len()),
    ensures
        new_views(final(out)@) == new_views(old(out)@) + network_links(graph@, graph@.nodes.len()),
        all_within(final(out)@, graph@.nodes.len()),
{
    let ghost g = graph@;
    let ghost start = new_views(out@);
    let total: usize = graph.node_count();
    let mut ix: usize = 0;
    assert(start + network_links(g, 0) =~= start);
    while ix < total
        invariant
            graph.wf(),
            g == graph@,
            total == g.nodes.len(),
            ix <= total,
            new_views(out@) == start + network_links(g, ix as nat),
            all_within(out@, g.nodes.len()),
        decreases total - ix,
    {
        let ghost before = new_views(out@);
        if let ResourceKind::Instance = graph.node_by_index(ix).kind {
            reach_by_groups(graph, ix, "vpc_security_group_ids", out);
            reach_by_groups(graph, ix, "security_groups", out);
        }
        assert(new_views(out@) =~= before + instance_links(g, ix as int));
        assert(new_views(out@) =~= start + network_links(g, (ix + 1) as nat));
        ix = ix + 1;
    }
}

/// The edge for the role that a node, if it is an instance, runs as.
fn make_attached(graph: &IacGraph, ix: usize) -> (r: Option<NewLink>)
    requires
        graph.wf(),
        ix < graph@.nodes.len(),
    ensures
        match r {
            Some(link) => link.from < graph@.nodes.len() && link.to < graph@.nodes.len() && (
            role_of(graph@, ix as int) matches Some(found) && link@ == attached_link(
                graph@,
                ix as int,
                found.0,
                found.1,
            )),
            None => role_of(graph@, ix as int) is None,
        },
{
    let node = graph.node_by_index(ix);
    if !matches!(node.kind, ResourceKind::Instance) {
        return None;
    }
    let profile_ix: usize = match referenced_node(graph, ix, "iam_instance_profile") {
        Some(p) => p,
        None => {
            return None;
        },
    };
    let profile = graph.node_by_index(profile_ix);
    if !matches!(profile.kind, ResourceKind::IamInstanceProfile) {
        return None;
    }
    let role_ix: usize = match referenced_node(graph, profile_ix, "role") {
        Some(p) => p,
        None => {
            return None;
        },
    };
    let mut description = plus(node.id.as_str(), " runs as ");
    description = plus(description.as_str(), graph.node_by_index(role_ix).id.as_str());
    description = plus(description.as_str(), " (via instance profile ");
    description = plus(description.as_str(), profile.id.as_str());
    description = plus(description.as_str(), ")");
    Some(
        NewLink {
            from: ix,
            to: role_ix,
            edge: Edge {
                kind: EdgeKind::Attached,
                evidence: SourceRef {
                    file: node.file.clone(),
                    resource_id: node.id.clone(),
                    attr_path: "iam_instance_profile".to_string(),
                },
                description,
            },
        },
    )
}

/// Adds to `out` the edges for the roles that instances run as, without the instance profile
/// between the two.
pub(crate) fn compute_attached_edges(graph: &IacGraph, out: &mut Vec<NewLink>)
    requires
        graph.wf(),
        all_within(old(out)@, graph@.nodes.len()),
    ensures
        new_views(final(out)@) == new_views(old(out)@) + attached_links(graph@, graph@.nodes.len()),
        all_within(final(out)@, graph@.nodes.len()),
{
    let ghost g = graph@;
    let ghost start = new_views(out@);
    let total: usize = graph.node_count();
    let mut ix: usize = 0;
    assert(start + attached_links(g, 0) =~= start);
    while ix < total
        invariant
            graph.wf(),
            g == graph@,
            total == g.nodes.len(),
            ix <= total,
            new_views(out@) == start + attached_links(g, ix as nat),
            all_within(out@, g.nodes.len()),
        decreases total - ix,
    {
        let ghost before = new_views(out@);
        let ghost listed = out@;
        if let Some(link) = make_attached(graph, ix) {
            out.push(link);
            assert(new_views(out@) =~= before.push(link@));
            assert forall|j: int| 0 <= j < out@.len() implies (#[trigger] out@[j]).from
                < g.nodes.len() && out@[j].to < g.nodes.len() by {
                if j < listed.len() {
                    assert(out@[j] == listed[j]);
                }
            }
        }
        assert(new_views(out@) =~= start + attached_links(g, (ix + 1) as nat));
        ix = ix + 1;
    }
}

proof fn lemma_same_rules(g: GraphView, sg: int, ix: int, rules: Seq<JsonView>, n: nat)
    requires
        0 <= sg < g.nodes.len(),
        0 <= ix < g.nodes.len(),
    ensures
        rules_links(with_facts(g), sg, ix, rules, n) == rules_links(g, sg, ix, rules, n),
    decreases n,
{
    if 0 < n <= rules.len() {
        lemma_same_rules(g, sg, ix, rules, (n - 1) as nat);
        lemma_keys_differ();
        lemma_facts_keep(g, sg, "ingress"@);
        lemma_facts_keep(g, ix, "ingress"@);
    }
}

proof fn lemma_same_groups(g: GraphView, ix: int, edges: Seq<int>, prefix: Seq<char>, n: nat)
    requires
        g.wf(),
        0 <= ix < g.nodes.len(),
        forall|j: int| 0 <= j < edges.len() ==> 0 <= #[trigger] edges[j] < g.links.len(),
    ensures
        groups_links(with_facts(g), ix, edges, prefix, n) == groups_links(g, ix, edges, prefix, n),
    decreases n,
{
    if 0 < n <= edges.len() {
        lemma_same_groups(g, ix, edges, prefix, (n - 1) as nat);
        let sg = g.links[edges[n - 1]].to;
        let rules = ingress_rules(g.nodes[sg].attrs);
        lemma_keys_differ();
        lemma_facts_keep(g, sg, "ingress"@);
        lemma_same_rules(g, sg, ix, rules, rules.len());
    }
}

pub proof fn lemma_same_network(g: GraphView, n: nat)
    requires
        g.wf(),
        n <= g.nodes.len(),
    ensures
        network_links(with_facts(g), n) == network_links(g, n),
    decreases n,
{
    if n > 0 {
        let ix = n - 1;
        let edges = links_from(g.links, ix);
        lemma_same_network(g, (n - 1) as nat);
        lemma_keys_differ();
        lemma_facts_keep(g, ix, "ingress"@);
        lemma_links_from(g.links, ix);
        lemma_same_groups(g, ix, edges, "vpc_security_group_ids"@, edges.len());
        lemma_same_groups(g, ix, edges, "security_groups"@, edges.len());
    }
}

pub proof fn lemma_same_attached(g: GraphView, n: nat)
    requires
        g.wf(),
        n <= g.nodes.len(),
    ensures
        attached_links(with_facts(g), n) == attached_links(g, n),
    decreases n,
{
    if n > 0 {
        let ix = n - 1;
        lemma_same_attached(g, (n - 1) as nat);
        lemma_keys_differ();
        lemma_facts_keep(g, ix, "policy"@);
        lemma_referenced_within(g, ix, "iam_instance_profile"@);
        if let Some(profile) = referenced(g.links, ix, "iam_instance_profile"@) {
            lemma_facts_keep(g, profile, "policy"@);
            lemma_referenced_within(g, profile, "role"@);
            if let Some(role) = referenced(g.links, profile, "role"@) {
                lemma_facts_keep(g, role, "policy"@);
            }
        }
    }
}

/// Whether an edge leads from a security group that lets in the whole internet to an instance.
pub open spec fn is_open_door(g: GraphView, link: LinkView) -> bool {
    &&& link.edge.kind is NetworkReachable
    &&& g.nodes[link.from].kind is SecurityGroup
    &&& has_open_ingress(g.nodes[link.from].attrs)
    &&& g.nodes[link.to].kind is Instance
}

proof fn lemma_rules_open(g: GraphView, sg: int, ix: int, n: nat, i: int)
    requires
        g.nodes[sg].kind is SecurityGroup,
        g.nodes[ix].kind is Instance,
        0 <= i < rules_links(g, sg, ix, ingress_rules(g.nodes[sg].attrs), n).len(),
    ensures
        is_open_door(g, rules_links(g, sg, ix, ingress_rules(g.nodes[sg].attrs), n)[i]),
    decreases n,
{
    let rules = ingress_rules(g.nodes[sg].attrs);
    if 0 < n <= rules.len() {
        let before = rules_links(g, sg, ix, rules, (n - 1) as nat);
        if i < before.len() {
            lemma_rules_open(g, sg, ix, (n - 1) as nat, i);
        } else {
            assert(is_open_rule(rules[n - 1]));
        }
    }
}

proof fn lemma_groups_open(
    g: GraphView,
    ix: int,
    edges: Seq<int>,
    prefix: Seq<char>,
    n: nat,
    i: int,
)
    requires
        g.nodes[ix].kind is Instance,
        0 <= i < groups_links(g, ix, edges, prefix, n).len(),
    ensures
        is_open_door(g, groups_links(g, ix, edges, prefix, n)[i]),
        groups_links(g, ix, edges, prefix, n)[i].to == ix,
    decreases n,
{
    if 0 < n <= edges.len() {
        let before = groups_links(g, ix, edges, prefix, (n - 1) as nat);
        if i < before.len() {
            lemma_groups_open(g, ix, edges, prefix, (n - 1) as nat, i);
        } else {
            let e = edges[n - 1];
            let sg = g.links[e].to;
            let rules = ingress_rules(g.nodes[sg].attrs);
            lemma_rules_open(g, sg, ix, rules.len(), i - before.len());
            lemma_rules_target(g, sg, ix, rules, rules.len(), i - before.len());
        }
    }
}

proof fn lemma_rules_target(
    g: GraphView,
    sg: int,
    ix: int,
    rules: Seq<JsonView>,
    n: nat,
    i: int,
)
    requires
        0 <= i < rules_links(g, sg, ix, rules, n).len(),
    ensures
        rules_links(g, sg, ix, rules, n)[i].to == ix,
    decreases n,
{
    if 0 < n <= rules.len() {
        let before = rules_links(g, sg, ix, rules, (n - 1) as nat);
        if i < before.len() {
            lemma_rules_target(g, sg, ix, rules, (n - 1) as nat, i);
        }
    }
}

/// Every edge for network reachability leads from a security group that lets in the whole internet
/// to an instance.
pub proof fn law_reachability_starts_at_open_groups(g: GraphView, n: nat, i: int)
    requires
        0 <= i < network_links(g, n).len(),
    ensures
        is_open_door(g, network_links(g, n)[i]),
    decreases n,
{
    if 0 < n <= g.nodes.len() {
        let before = network_links(g, (n - 1) as nat);
        if i < before.len() {
            law_reachability_starts_at_open_groups(g, (n - 1) as nat, i);
        } else {
            let ix = n - 1;
            let edges = links_from(g.links, ix);
            let first = groups_links(g, ix, edges, "vpc_security_group_ids"@, edges.len());
            let k = i - before.len();
            if k < first.len() {
                lemma_groups_open(g, ix, edges, "vpc_security_group_ids"@, edges.len(), k);
            } else {
                lemma_groups_open(
                    g,
                    ix,
                    edges,
                    "security_groups"@,
                    edges.len(),
                    k - first.len(),
                );
            }
        }
    }
}

/// Every edge for an attached role leads from an instance to what its instance profile refers to.
pub proof fn law_attachments_start_at_instances(g: GraphView, n: nat, i: int)
    requires
        0 <= i < attached_links(g, n).len(),
    ensures
        ({
            let link = attached_links(g, n)[i];
            &&& link.edge.kind is Attached
            &&& 0 <= link.from < n
            &&& g.nodes[link.from].kind is Instance
            &&& role_of(g, link.from) matches Some(found) && link.to == found.1
        }),
    decreases n,
{
    if 0 < n <= g.nodes.len() {
        let before = attached_links(g, (n - 1) as nat);
        if i < before.len() {
            law_attachments_start_at_instances(g, (n - 1) as nat, i);
        }
    }
}

} // verus!
