//! What the steps of a rule ask for, and which chains of a graph are found by it, in terms of nodes
//! and edges.

use crate::actions::edge_facts;
use crate::chains::{described, flat, is_chain, is_trail, law_findings_are_the_chains};
use crate::graph::GraphView;
use crate::json::{JsonView, lemma_key_found};
use crate::matcher::{
    BadWhere,
    ChainView,
    FindingView,
    WalkView,
    all_compile,
    all_extended,
    all_findings,
    bad_clause,
    bad_clause_from,
    chains,
    edge_fits,
    edge_step,
    edge_steps,
    edge_value,
    extended,
    extensions,
    is_bad_where,
    node_fits,
    node_step,
    reported,
    rule_compiles,
    rule_findings,
    starts,
};
use crate::predicate::{clause_holds, predicate_of};
use crate::rule::{EdgeMatcher, NodeMatcher, PathStep, Rule};
use crate::types::{EdgeKindView, EdgeView, NodeView, ResourceKindView};
use vstd::prelude::*;

verus! {

/// Whether a condition, if there is one, is met by a value: it is well formed, and each of its
/// clauses holds.
pub open spec fn meets(clause: Option<String>, root: JsonView) -> bool {
    match clause {
        None => true,
        Some(s) => predicate_of(s@) matches Some(list) && forall|i: int|
            0 <= i < list.len() ==> clause_holds(#[trigger] list[i], root),
    }
}

/// Whether a kind of resource goes by a name.
pub open spec fn goes_by(kind: ResourceKindView, name: Seq<char>) -> bool {
    match kind {
        ResourceKindView::S3Bucket => name == "S3Bucket"@,
        ResourceKindView::S3BucketPolicy => name == "S3BucketPolicy"@,
        ResourceKindView::S3BucketPublicAccessBlock => name == "S3BucketPublicAccessBlock"@,
        ResourceKindView::S3BucketAcl => name == "S3BucketAcl"@,
        ResourceKindView::IamRole => name == "IamRole"@,
        ResourceKindView::IamPolicy => name == "IamPolicy"@,
        ResourceKindView::IamRolePolicy => name == "IamRolePolicy"@,
        ResourceKindView::IamRolePolicyAttachment => name == "IamRolePolicyAttachment"@,
        ResourceKindView::IamInstanceProfile => name == "IamInstanceProfile"@,
        ResourceKindView::LambdaFunction => name == "LambdaFunction"@,
        ResourceKindView::LambdaPermission => name == "LambdaPermission"@,
        ResourceKindView::SecurityGroup => name == "SecurityGroup"@,
        ResourceKindView::SecurityGroupRule => name == "SecurityGroupRule"@,
        ResourceKindView::Instance => name == "Instance"@,
        ResourceKindView::SecretsManagerSecret => name == "SecretsManagerSecret"@,
        ResourceKindView::Other(tf_type) => name == tf_type,
    }
}

/// Whether a kind of edge goes by a name.
pub open spec fn edge_goes_by(kind: EdgeKindView, name: Seq<char>) -> bool {
    match kind {
        EdgeKindView::References => name == "References"@,
        EdgeKindView::IamTrust { .. } => name == "IamTrust"@,
        EdgeKindView::IamGrants { .. } => name == "IamGrants"@,
        EdgeKindView::Attached => name == "Attached"@,
        EdgeKindView::NetworkReachable { .. } => name == "NetworkReachable"@,
    }
}

/// A step without a kind asks for every node that meets its condition, and for every node at all if
/// it has no condition either.
pub proof fn law_steps_without_a_kind(node: NodeView, m: NodeMatcher)
    requires
        m.kind is None,
    ensures
        node_fits(node, m) <==> meets(m.where_clause, node.attrs),
        m.where_clause is None ==> node_fits(node, m),
{
}

/// A step with a kind asks for those of the nodes which the same step without it asks for whose kind
/// goes by its name.
pub proof fn law_steps_with_a_kind(node: NodeView, m: NodeMatcher, free: NodeMatcher)
    requires
        m.kind is Some,
        free.kind is None,
        m.where_clause == free.where_clause,
    ensures
        node_fits(node, m) <==> (node_fits(node, free) && goes_by(node.kind, m.kind->Some_0@)),
{
}

/// An edge step asks for the edges whose kind goes by its name, and which meet its condition.
pub proof fn law_edge_steps(edge: EdgeView, m: EdgeMatcher, free: EdgeMatcher)
    requires
        m.kind == free.kind,
        free.where_clause is None,
    ensures
        edge_fits(edge, free) <==> edge_goes_by(edge.kind, m.kind@),
        edge_fits(edge, m) <==> (edge_fits(edge, free) && meets(
            m.where_clause,
            edge_value(edge),
        )),
{
}

/// What a step says of a node depends on its attributes and its kind alone.
pub proof fn law_nodes_are_told_apart_by_kind_and_attributes(
    a: NodeView,
    b: NodeView,
    m: NodeMatcher,
)
    requires
        a.attrs == b.attrs,
        a.kind == b.kind || m.kind is None,
    ensures
        node_fits(a, m) == node_fits(b, m),
{
}

/// Whether a node step of a rule asks for a node.
pub open spec fn asks_for_node(rule: Rule, k: int, node: NodeView) -> bool {
    rule.path@[2 * k] matches PathStep::Node(step) && (step.node.kind matches Some(name) ==> goes_by(
        node.kind,
        name@,
    )) && meets(step.node.where_clause, node.attrs)
}

/// Whether an edge step of a rule asks for an edge.
pub open spec fn asks_for_edge(rule: Rule, k: int, edge: EdgeView) -> bool {
    rule.path@[2 * k + 1] matches PathStep::Edge(step) && edge_goes_by(edge.kind, step.edge.kind@)
        && meets(step.edge.where_clause, edge_value(edge))
}

/// Whether edges lead, one after the other, from a node to another.
pub open spec fn lead(g: GraphView, from: int, trail: Seq<int>, to: int) -> bool {
    &&& trail.len() > 0
    &&& forall|j: int| 0 <= j < trail.len() ==> 0 <= #[trigger] trail[j] < g.links.len()
    &&& g.links[trail[0]].from == from
    &&& g.links[trail.last()].to == to
    &&& forall|j: int|
        0 <= j < trail.len() - 1 ==> g.links[#[trigger] trail[j]].to == g.links[trail[j + 1]].from
}

/// Whether nodes, with edges between them, are what a rule asks for: each of its node steps asks for
/// the node in its place, and each of its edge steps for the edges in its place, which lead from one
/// node to the next, no fewer and no more than the step allows. There are no more edges, all in all,
/// than the rule allows.
pub open spec fn is_match(
    g: GraphView,
    rule: Rule,
    nodes: Seq<int>,
    trails: Seq<Seq<int>>,
) -> bool {
    &&& nodes.len() == trails.len() + 1
    &&& rule.path@.len() == nodes.len() + trails.len()
    &&& forall|k: int|
        0 <= k < nodes.len() ==> 0 <= #[trigger] nodes[k] < g.nodes.len() && asks_for_node(
            rule,
            k,
            g.nodes[nodes[k]],
        )
    &&& forall|k: int|
        0 <= k < trails.len() ==> lead(g, nodes[k], #[trigger] trails[k], nodes[k + 1])
            && rule.path@[2 * k + 1]->Edge_0.edge.min_hops <= trails[k].len()
            <= rule.path@[2 * k + 1]->Edge_0.edge.max_hops
    &&& forall|k: int, j: int|
        0 <= k < trails.len() && 0 <= j < trails[k].len() ==> asks_for_edge(
            rule,
            k,
            g.links[#[trigger] trails[k][j]].edge,
        )
    &&& trails.flatten().len() <= rule.max_total_hops
}

/// Whether a finding reports nodes with edges between them.
pub open spec fn reports(
    g: GraphView,
    rule: Rule,
    f: FindingView,
    nodes: Seq<int>,
    trails: Seq<Seq<int>>,
) -> bool {
    &&& f.rule_id == rule.id@
    &&& f.node_ids.len() == nodes.len()
    &&& forall|k: int|
        0 <= k < nodes.len() ==> #[trigger] f.node_ids[k] == g.nodes[nodes[k]].id
    &&& f.edges == trails.flatten()
}

proof fn lemma_flat_is_flatten(trails: Seq<Seq<int>>)
    ensures
        flat(trails) == trails.flatten(),
    decreases trails.len(),
{
    trails.lemma_flatten_and_flatten_alt_are_equivalent();
    if trails.len() > 0 {
        lemma_flat_is_flatten(trails.drop_last());
        trails.drop_last().lemma_flatten_and_flatten_alt_are_equivalent();
    }
}

proof fn lemma_trail_leads(g: GraphView, m: EdgeMatcher, from: int, trail: Seq<int>, to: int)
    requires
        trail.len() > 0,
    ensures
        is_trail(g, m, from, trail, to) <==> (lead(g, from, trail, to) && forall|j: int|
            0 <= j < trail.len() ==> edge_fits(g.links[#[trigger] trail[j]].edge, m)),
    decreases trail.len(),
{
    reveal_with_fuel(is_trail, 2);
    let rest = trail.skip(1);
    let next = g.links[trail[0]].to;
    let fits = lead(g, from, trail, to) && forall|j: int|
        0 <= j < trail.len() ==> edge_fits(g.links[#[trigger] trail[j]].edge, m);
    if trail.len() > 1 {
        lemma_trail_leads(g, m, next, rest, to);
        if fits {
            assert forall|j: int| 0 <= j < rest.len() implies 0 <= #[trigger] rest[j]
                < g.links.len() && edge_fits(g.links[rest[j]].edge, m) by {
                assert(rest[j] == trail[j + 1]);
            }
            assert forall|j: int| 0 <= j < rest.len() - 1 implies g.links[#[trigger] rest[j]].to
                == g.links[rest[j + 1]].from by {
                assert(rest[j] == trail[j + 1]);
                assert(rest[j + 1] == trail[j + 2]);
            }
            assert(g.links[trail[0]].to == g.links[trail[1]].from);
            assert(rest[0] == trail[1]);
            assert(rest.last() == trail.last());
        }
        if is_trail(g, m, from, trail, to) {
            assert forall|j: int| 0 <= j < trail.len() implies 0 <= #[trigger] trail[j]
                < g.links.len() && edge_fits(g.links[trail[j]].edge, m) by {
                if j > 0 {
                    assert(trail[j] == rest[j - 1]);
                }
            }
            assert forall|j: int| 0 <= j < trail.len() - 1 implies g.links[#[trigger] trail[j]].to
                == g.links[trail[j + 1]].from by {
                if j > 0 {
                    assert(trail[j] == rest[j - 1]);
                    assert(trail[j + 1] == rest[j]);
                } else {
                    assert(rest[0] == trail[1]);
                }
            }
            assert(rest.last() == trail.last());
        }
    } else {
        assert(rest.len() == 0);
        assert(trail.last() == trail[0]);
        if is_trail(g, m, from, trail, to) {
            assert(is_trail(g, m, next, rest, to));
        }
        if fits {
            assert(edge_fits(g.links[trail[0]].edge, m));
        }
    }
}

/// Whether nodes and edges of a rule take turns, from a node to a node.
pub open spec fn takes_turns(rule: Rule) -> bool {
    &&& rule.path@.len() % 2 == 1
    &&& forall|i: int| 0 <= i < rule.path@.len() ==> ((#[trigger] rule.path@[i]) is Node <==> i % 2
        == 0)
}

proof fn lemma_match_is_chain(g: GraphView, rule: Rule, nodes: Seq<int>, trails: Seq<Seq<int>>)
    requires
        takes_turns(rule),
        trails.len() == edge_steps(rule),
    ensures
        is_chain(g, rule, nodes, trails) <==> is_match(g, rule, nodes, trails),
{
    lemma_flat_is_flatten(trails);
    if nodes.len() == trails.len() + 1 {
        assert forall|k: int| 0 <= k < nodes.len() implies (node_fits(
            g.nodes[#[trigger] nodes[k]],
            node_step(rule, k),
        ) <==> asks_for_node(rule, k, g.nodes[nodes[k]])) by {
            assert(rule.path@[2 * k] is Node);
        }
        assert forall|k: int, edge: EdgeView| 0 <= k < trails.len() implies (edge_fits(
            edge,
            edge_step(rule, k),
        ) <==> #[trigger] asks_for_edge(rule, k, edge)) by {
            assert(!(rule.path@[2 * k + 1] is Node));
        }
        assert forall|k: int| 0 <= k < trails.len() && trails[k].len() > 0 implies (is_trail(
            g,
            edge_step(rule, k),
            nodes[k],
            #[trigger] trails[k],
            nodes[k + 1],
        ) <==> (lead(g, nodes[k], trails[k], nodes[k + 1]) && forall|j: int|
            0 <= j < trails[k].len() ==> asks_for_edge(
                rule,
                k,
                g.links[#[trigger] trails[k][j]].edge,
            ))) by {
            lemma_trail_leads(g, edge_step(rule, k), nodes[k], trails[k], nodes[k + 1]);
            assert forall|j: int| 0 <= j < trails[k].len() implies (edge_fits(
                g.links[#[trigger] trails[k][j]].edge,
                edge_step(rule, k),
            ) <==> asks_for_edge(rule, k, g.links[trails[k][j]].edge)) by {}
        }
        if is_chain(g, rule, nodes, trails) {
            assert forall|k: int, j: int|
                0 <= k < trails.len() && 0 <= j < trails[k].len() implies asks_for_edge(
                rule,
                k,
                g.links[#[trigger] trails[k][j]].edge,
            ) by {
                assert(0 < trails[k].len());
            }
            assert forall|k: int| 0 <= k < trails.len() implies lead(
                g,
                nodes[k],
                #[trigger] trails[k],
                nodes[k + 1],
            ) by {}
            assert(is_match(g, rule, nodes, trails));
        }
        if is_match(g, rule, nodes, trails) {
            assert forall|k: int| 0 <= k < trails.len() implies is_trail(
                g,
                edge_step(rule, k),
                nodes[k],
                #[trigger] trails[k],
                nodes[k + 1],
            ) by {
                assert(lead(g, nodes[k], trails[k], nodes[k + 1]));
            }
            assert(is_chain(g, rule, nodes, trails));
        }
    }
}

proof fn lemma_found_is_asked_for(g: GraphView, rule: Rule, f: FindingView)
    requires
        g.wf(),
        takes_turns(rule),
        rule_findings(g, rule).contains(f),
    ensures
        is_asked_for(g, rule, f),
{
    law_findings_are_the_chains(g, rule, f);
    let c = choose|c: ChainView| #[trigger]
        described(g, rule, edge_steps(rule), c) && f == reported(g, rule, c);
    let trails = choose|trails: Seq<Seq<int>>|
        trails.len() == edge_steps(rule) && #[trigger] is_chain(g, rule, c.nodes, trails) && c.edges
            == flat(trails);
    lemma_match_is_chain(g, rule, c.nodes, trails);
    lemma_flat_is_flatten(trails);
    assert(reports(g, rule, f, c.nodes, trails));
}

proof fn lemma_asked_for_is_found(
    g: GraphView,
    rule: Rule,
    f: FindingView,
    nodes: Seq<int>,
    trails: Seq<Seq<int>>,
)
    requires
        g.wf(),
        takes_turns(rule),
        is_match(g, rule, nodes, trails),
        reports(g, rule, f, nodes, trails),
    ensures
        rule_findings(g, rule).contains(f),
{
    assert(trails.len() == edge_steps(rule));
    lemma_match_is_chain(g, rule, nodes, trails);
    lemma_flat_is_flatten(trails);
    let c = ChainView { nodes, edges: flat(trails) };
    assert(is_chain(g, rule, c.nodes, trails));
    assert(c.edges == flat(trails));
    assert(described(g, rule, edge_steps(rule), c));
    assert(f.node_ids =~= reported(g, rule, c).node_ids);
    assert(f == reported(g, rule, c));
    law_findings_are_the_chains(g, rule, f);
}

/// Whether a finding reports something that a rule asks for.
pub open spec fn is_asked_for(g: GraphView, rule: Rule, f: FindingView) -> bool {
    exists|nodes: Seq<int>, trails: Seq<Seq<int>>| #[trigger]
        is_match(g, rule, nodes, trails) && reports(g, rule, f, nodes, trails)
}

/// What is found by a rule is whatever it asks for, all of it and nothing else.
pub proof fn law_whatever_is_asked_for_is_found(g: GraphView, rule: Rule, f: FindingView)
    requires
        g.wf(),
        takes_turns(rule),
    ensures
        rule_findings(g, rule).contains(f) <==> is_asked_for(g, rule, f),
{
    if rule_findings(g, rule).contains(f) {
        lemma_found_is_asked_for(g, rule, f);
    }
    if is_asked_for(g, rule, f) {
        let (nodes, trails) = choose|nodes: Seq<int>, trails: Seq<Seq<int>>| #[trigger]
            is_match(g, rule, nodes, trails) && reports(g, rule, f, nodes, trails);
        lemma_asked_for_is_found(g, rule, f, nodes, trails);
    }
}

/// One more rule adds what is found by it behind what is found by the others.
pub proof fn law_every_rule_is_tried(g: GraphView, rules: Seq<Rule>, rule: Rule)
    ensures
        all_findings(g, Seq::empty(), 0) == Seq::<FindingView>::empty(),
        all_findings(g, rules.push(rule), rules.len() + 1) == all_findings(g, rules, rules.len())
            + rule_findings(g, rule),
{
    lemma_rules_prefix(g, rules, rule, rules.len());
    assert(rules.push(rule)[rules.len() as int] == rule);
}

proof fn lemma_rules_prefix(g: GraphView, rules: Seq<Rule>, rule: Rule, n: nat)
    requires
        n <= rules.len(),
    ensures
        all_findings(g, rules.push(rule), n) == all_findings(g, rules, n),
    decreases n,
{
    if n > 0 {
        lemma_rules_prefix(g, rules, rule, (n - 1) as nat);
        assert(rules.push(rule)[n - 1] == rules[n - 1]);
    }
}

/// Conditions on an edge are about the fields of its kind, the attribute that it comes from, and the
/// facts about its kind.
pub proof fn law_edges_are_asked_about(edge: EdgeView)
    ensures
        edge_value(edge).get("attr_path"@) == Some(JsonView::String(edge.evidence.attr_path)),
        edge_value(edge).get("_derived"@) == Some(edge_facts(edge.kind)),
        match edge.kind {
            EdgeKindView::IamGrants { actions, effect, resource_match } => {
                &&& edge_value(edge).get("effect"@) == Some(JsonView::String(effect))
                &&& edge_value(edge).get("resource_match"@) == Some(
                    JsonView::String(resource_match),
                )
                &&& edge_value(edge).get("actions"@) matches Some(JsonView::Array(items))
                    && items.len() == actions.len() && forall|i: int|
                    0 <= i < items.len() ==> #[trigger] items[i] == JsonView::String(actions[i])
            },
            EdgeKindView::NetworkReachable { protocol, from_port, to_port, cidr } => {
                &&& edge_value(edge).get("protocol"@) == Some(JsonView::String(protocol))
                &&& edge_value(edge).get("cidr"@) == Some(JsonView::String(cidr))
                &&& edge_value(edge).get("from_port"@) matches Some(JsonView::Number(n))
                    && n.as_i64() == Some(from_port)
                &&& edge_value(edge).get("to_port"@) matches Some(JsonView::Number(n))
                    && n.as_i64() == Some(to_port)
            },
            EdgeKindView::IamTrust { principal } => edge_value(edge).get("principal"@) == Some(
                JsonView::String(principal),
            ),
            _ => true,
        },
{
    lemma_edge_keys();
    let entries = edge_value(edge)->Object_0;
    match edge.kind {
        EdgeKindView::IamGrants { .. } => {
            lemma_key_found(entries, "_derived"@, 0, 0);
            lemma_key_found(entries, "actions"@, 0, 1);
            lemma_key_found(entries, "attr_path"@, 0, 2);
            lemma_key_found(entries, "effect"@, 0, 3);
            lemma_key_found(entries, "resource_match"@, 0, 4);
        },
        EdgeKindView::NetworkReachable { .. } => {
            lemma_key_found(entries, "_derived"@, 0, 0);
            lemma_key_found(entries, "attr_path"@, 0, 1);
            lemma_key_found(entries, "cidr"@, 0, 2);
            lemma_key_found(entries, "from_port"@, 0, 3);
            lemma_key_found(entries, "protocol"@, 0, 4);
            lemma_key_found(entries, "to_port"@, 0, 5);
        },
        EdgeKindView::IamTrust { .. } => {
            lemma_key_found(entries, "_derived"@, 0, 0);
            lemma_key_found(entries, "attr_path"@, 0, 1);
            lemma_key_found(entries, "principal"@, 0, 2);
        },
        _ => {
            lemma_key_found(entries, "_derived"@, 0, 0);
            lemma_key_found(entries, "attr_path"@, 0, 1);
        },
    }
}

proof fn lemma_edge_keys()
    ensures
        "_derived"@[0] == '_' && "_derived"@.len() == 8,
        "actions"@[1] == 'c' && "actions"@[0] == 'a' && "actions"@.len() == 7,
        "attr_path"@[1] == 't' && "attr_path"@[0] == 'a' && "attr_path"@.len() == 9,
        "effect"@[0] == 'e' && "effect"@.len() == 6,
        "resource_match"@[0] == 'r' && "resource_match"@.len() == 14,
        "cidr"@[0] == 'c' && "cidr"@.len() == 4,
        "from_port"@[0] == 'f' && "from_port"@.len() == 9,
        "protocol"@[1] == 'r' && "protocol"@[0] == 'p' && "protocol"@.len() == 8,
        "to_port"@[0] == 't' && "to_port"@.len() == 7,
        "principal"@[0] == 'p' && "principal"@.len() == 9,
{
    reveal_strlit("_derived");
    reveal_strlit("actions");
    reveal_strlit("attr_path");
    reveal_strlit("effect");
    reveal_strlit("resource_match");
    reveal_strlit("cidr");
    reveal_strlit("from_port");
    reveal_strlit("protocol");
    reveal_strlit("to_port");
    reveal_strlit("principal");
}

/// Whether a condition, if there is one, is not well formed.
pub open spec fn is_ill_formed(clause: Option<String>) -> bool {
    clause matches Some(s) && predicate_of(s@) is None
}

/// A condition that is complained of is one of the rule's, and is not well formed. One that is not
/// well formed is complained of where it belongs to the first node step, to the first edge step or the
/// node step behind it, or to a later one that a chain comes to; or another one before it is.
pub proof fn law_ill_formed_conditions_are_complained_of(g: GraphView, rule: Rule, k: nat)
    ensures
        is_ill_formed(node_step(rule, 0).where_clause) ==> bad_clause(g, rule) == Some(
            node_step(rule, 0).where_clause->Some_0@,
        ),
        k < edge_steps(rule) && (forall|j: nat|
            0 < j <= k ==> (#[trigger] chains(g, rule, j)).len() > 0) && (is_ill_formed(
            edge_step(rule, k as int).where_clause,
        ) || is_ill_formed(node_step(rule, k as int + 1).where_clause)) ==> bad_clause(g, rule) is Some,
        bad_clause(g, rule) matches Some(text) ==> predicate_of(text) is None,
        (forall|j: int| 0 <= j <= edge_steps(rule) ==> !is_ill_formed((#[trigger] node_step(rule, j)).where_clause)) && (forall|
            j: int,
        |
            0 <= j < edge_steps(rule) ==> !is_ill_formed((#[trigger] edge_step(rule, j)).where_clause))
            ==> bad_clause(g, rule) is None,
{
    lemma_bad_clause_from(g, rule, 0);
    if k < edge_steps(rule) && (forall|j: nat| 0 < j <= k ==> (#[trigger] chains(g, rule, j)).len() > 0)
        && (is_ill_formed(edge_step(rule, k as int).where_clause) || is_ill_formed(
        node_step(rule, k as int + 1).where_clause,
    )) {
        lemma_complained(g, rule, 0, k);
    }
}

proof fn lemma_bad_clause_from(g: GraphView, rule: Rule, k: nat)
    ensures
        bad_clause_from(g, rule, k) matches Some(text) ==> predicate_of(text) is None,
        (forall|j: int| 0 <= j <= edge_steps(rule) ==> !is_ill_formed((#[trigger] node_step(rule, j)).where_clause)) && (forall|
            j: int,
        |
            0 <= j < edge_steps(rule) ==> !is_ill_formed((#[trigger] edge_step(rule, j)).where_clause))
            ==> bad_clause_from(g, rule, k) is None,
    decreases edge_steps(rule) - k,
{
    if k < edge_steps(rule) {
        lemma_bad_clause_from(g, rule, k + 1);
    }
}

proof fn lemma_complained(g: GraphView, rule: Rule, i: nat, k: nat)
    requires
        i <= k < edge_steps(rule),
        forall|j: nat| 0 < j <= k ==> (#[trigger] chains(g, rule, j)).len() > 0,
        is_ill_formed(edge_step(rule, k as int).where_clause) || is_ill_formed(
            node_step(rule, k as int + 1).where_clause,
        ),
    ensures
        bad_clause_from(g, rule, i) is Some,
    decreases k - i,
{
    assert(i > 0 ==> chains(g, rule, i).len() > 0);
    if i < k {
        lemma_complained(g, rule, i + 1, k);
    }
}

/// Each node that the first step asks for begins a chain of its own, each walk that leads to a node
/// that the next step asks for goes on with it, and each chain that has come so far goes on in all of
/// these ways: nothing is left out for being like something else, and everything keeps its order.
pub proof fn law_every_beginning_goes_on(
    g: GraphView,
    em: EdgeMatcher,
    nm: NodeMatcher,
    n: nat,
    list: Seq<ChainView>,
    chain: ChainView,
    found: Seq<WalkView>,
    walk: WalkView,
    total: nat,
)
    ensures
        starts(g, nm, 0) == Seq::<ChainView>::empty(),
        n < g.nodes.len() ==> starts(g, nm, n + 1) == starts(g, nm, n) + (if node_fits(
            g.nodes[n as int],
            nm,
        ) {
            seq![ChainView { nodes: seq![n as int], edges: Seq::empty() }]
        } else {
            Seq::empty()
        }),
        extensions(g, nm, chain, found.push(walk), found.len() + 1) == extensions(
            g,
            nm,
            chain,
            found,
            found.len(),
        ) + (if node_fits(g.nodes[walk.node], nm) {
            seq![ChainView { nodes: chain.nodes.push(walk.node), edges: chain.edges + walk.trail }]
        } else {
            Seq::empty()
        }),
        all_extended(g, em, nm, list.push(chain), total, list.len() + 1) == all_extended(
            g,
            em,
            nm,
            list,
            total,
            list.len(),
        ) + extended(g, em, nm, chain, total),
{
    lemma_extensions_prefix(g, nm, chain, found, walk, found.len());
    assert(found.push(walk)[found.len() as int] == walk);
    lemma_extended_prefix(g, em, nm, list, chain, total, list.len());
    assert(list.push(chain)[list.len() as int] == chain);
}

proof fn lemma_extensions_prefix(
    g: GraphView,
    nm: NodeMatcher,
    chain: ChainView,
    found: Seq<WalkView>,
    walk: WalkView,
    n: nat,
)
    requires
        n <= found.len(),
    ensures
        extensions(g, nm, chain, found.push(walk), n) == extensions(g, nm, chain, found, n),
    decreases n,
{
    if n > 0 {
        lemma_extensions_prefix(g, nm, chain, found, walk, (n - 1) as nat);
        assert(found.push(walk)[n - 1] == found[n - 1]);
    }
}

proof fn lemma_extended_prefix(
    g: GraphView,
    em: EdgeMatcher,
    nm: NodeMatcher,
    list: Seq<ChainView>,
    chain: ChainView,
    total: nat,
    n: nat,
)
    requires
        n <= list.len(),
    ensures
        all_extended(g, em, nm, list.push(chain), total, n) == all_extended(
            g,
            em,
            nm,
            list,
            total,
            n,
        ),
    decreases n,
{
    if n > 0 {
        lemma_extended_prefix(g, em, nm, list, chain, total, (n - 1) as nat);
        assert(list.push(chain)[n - 1] == list[n - 1]);
    }
}

/// There is one finding for each chain that has come to the last step, in the same order.
pub proof fn law_every_chain_is_reported(g: GraphView, rule: Rule, i: int)
    ensures
        rule_findings(g, rule).len() == chains(g, rule, edge_steps(rule)).len(),
        0 <= i < rule_findings(g, rule).len() ==> rule_findings(g, rule)[i].rule_id == rule.id@
            && rule_findings(g, rule)[i].edges == chains(g, rule, edge_steps(rule))[i].edges
            && rule_findings(g, rule)[i].node_ids.len() == chains(
            g,
            rule,
            edge_steps(rule),
        )[i].nodes.len(),
{
}

/// What is complained of is the condition of the first rule that has one to complain of.
pub proof fn law_the_first_rule_is_complained_of(
    g: GraphView,
    rules: Seq<Rule>,
    bad: BadWhere,
    i: int,
)
    requires
        is_bad_where(g, rules, bad),
        0 <= i < rules.len(),
        bad_clause(g, rules[i]) is Some,
        forall|j: int| 0 <= j < i ==> bad_clause(g, #[trigger] rules[j]) is None,
    ensures
        bad_clause(g, rules[i]) == Some(bad.clause@),
        predicate_of(bad.clause@) is None,
        !all_compile(g, rules),
{
    let k = choose|k: int|
        0 <= k < rules.len() && bad_clause(g, #[trigger] rules[k]) == Some(bad.clause@) && (forall|
            j: int,
        |
            0 <= j < k ==> rule_compiles(g, #[trigger] rules[j]));
    if k < i {
        assert(bad_clause(g, rules[k]) is None);
    }
    if i < k {
        assert(rule_compiles(g, rules[i]));
    }
    law_ill_formed_conditions_are_complained_of(g, rules[i], 0);
    assert(!rule_compiles(g, rules[i]));
}

} // verus!
