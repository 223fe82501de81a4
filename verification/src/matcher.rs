//! Finding the chains of a graph that a rule describes.

use crate::actions::{edge_derived_facts, edge_facts};
use crate::graph::{GraphView, IacGraph, lemma_links_from, links_from, positions};
use crate::json::{
    Json,
    JsonNumber,
    JsonNumberView,
    JsonView,
    json_entries,
    json_items,
    lemma_json_model,
};
use crate::predicate::{
    Predicate,
    PredicateParseError,
    all_hold,
    error_text,
    evaluate,
    is_parse_error,
    parse,
    predicate_of,
};
use crate::rule::{EdgeMatcher, NodeMatcher, PathStep, Rule, is_linear};
use crate::text::{plus, same_text, texts};
use crate::types::{
    Edge,
    EdgeKind,
    EdgeKindView,
    EdgeView,
    Node,
    NodeView,
    ResourceKind,
    ResourceKindView,
};
use vstd::prelude::*;

verus! {

/// A chain that a rule describes: the addresses of the nodes at its steps, and the positions of all
/// its edges, in order.
#[derive(Debug, Clone)]
pub struct Finding {
    pub rule_id: String,
    pub node_ids: Vec<String>,
    pub edges: Vec<usize>,
}

/// The contents of a [`Finding`].
pub struct FindingView {
    pub rule_id: Seq<char>,
    pub node_ids: Seq<Seq<char>>,
    pub edges: Seq<int>,
}

impl View for Finding {
    type V = FindingView;

    open spec fn view(&self) -> FindingView {
        FindingView {
            rule_id: self.rule_id@,
            node_ids: texts(self.node_ids@),
            edges: positions(self.edges@),
        }
    }
}

/// The contents of some findings.
pub open spec fn finding_views(list: Seq<Finding>) -> Seq<FindingView> {
    list.map_values(|f: Finding| f@)
}

/// The name of a kind of resource.
pub open spec fn kind_name(kind: ResourceKindView) -> Seq<char> {
    match kind {
        ResourceKindView::S3Bucket => "S3Bucket"@,
        ResourceKindView::S3BucketPolicy => "S3BucketPolicy"@,
        ResourceKindView::S3BucketPublicAccessBlock => "S3BucketPublicAccessBlock"@,
        ResourceKindView::S3BucketAcl => "S3BucketAcl"@,
        ResourceKindView::IamRole => "IamRole"@,
        ResourceKindView::IamPolicy => "IamPolicy"@,
        ResourceKindView::IamRolePolicy => "IamRolePolicy"@,
        ResourceKindView::IamRolePolicyAttachment => "IamRolePolicyAttachment"@,
        ResourceKindView::IamInstanceProfile => "IamInstanceProfile"@,
        ResourceKindView::LambdaFunction => "LambdaFunction"@,
        ResourceKindView::LambdaPermission => "LambdaPermission"@,
        ResourceKindView::SecurityGroup => "SecurityGroup"@,
        ResourceKindView::SecurityGroupRule => "SecurityGroupRule"@,
        ResourceKindView::Instance => "Instance"@,
        ResourceKindView::SecretsManagerSecret => "SecretsManagerSecret"@,
        ResourceKindView::Other(tf_type) => tf_type,
    }
}

/// The name of a kind of edge.
pub open spec fn edge_name(kind: EdgeKindView) -> Seq<char> {
    match kind {
        EdgeKindView::References => "References"@,
        EdgeKindView::IamTrust { .. } => "IamTrust"@,
        EdgeKindView::IamGrants { .. } => "IamGrants"@,
        EdgeKindView::Attached => "Attached"@,
        EdgeKindView::NetworkReachable { .. } => "NetworkReachable"@,
    }
}

/// Some texts as JSON strings.
pub open spec fn string_values(list: Seq<Seq<char>>) -> Seq<JsonView> {
    list.map_values(|s: Seq<char>| JsonView::String(s))
}

/// An edge as the JSON object that conditions on it are about: the fields of its kind, the path of
/// the attribute that it comes from, and the facts about it.
pub open spec fn edge_value(edge: EdgeView) -> JsonView {
    let derived = ("_derived"@, edge_facts(edge.kind));
    let attr_path = ("attr_path"@, JsonView::String(edge.evidence.attr_path));
    JsonView::Object(
        match edge.kind {
            EdgeKindView::IamGrants { actions, effect, resource_match } => seq![
                derived,
                ("actions"@, JsonView::Array(string_values(actions))),
                attr_path,
                ("effect"@, JsonView::String(effect)),
                ("resource_match"@, JsonView::String(resource_match)),
            ],
            EdgeKindView::NetworkReachable { protocol, from_port, to_port, cidr } => seq![
                derived,
                attr_path,
                ("cidr"@, JsonView::String(cidr)),
                ("from_port"@, JsonView::Number(JsonNumberView::from_int(from_port as int))),
                ("protocol"@, JsonView::String(protocol)),
                ("to_port"@, JsonView::Number(JsonNumberView::from_int(to_port as int))),
            ],
            EdgeKindView::IamTrust { principal } => seq![
                derived,
                attr_path,
                ("principal"@, JsonView::String(principal)),
            ],
            EdgeKindView::References | EdgeKindView::Attached => seq![derived, attr_path],
        },
    )
}

/// Whether a condition, if there is one, is well formed.
pub open spec fn compiles(clause: Option<String>) -> bool {
    clause matches Some(s) ==> predicate_of(s@) is Some
}

/// Whether a condition, if there is one, holds of a value.
pub open spec fn where_holds(clause: Option<String>, root: JsonView) -> bool {
    match clause {
        Some(s) => match predicate_of(s@) {
            Some(clauses) => all_hold(clauses, root),
            None => false,
        },
        None => true,
    }
}

/// Whether a node is one that a step asks for.
pub open spec fn node_fits(node: NodeView, m: NodeMatcher) -> bool {
    (m.kind matches Some(name) ==> kind_name(node.kind) == name@) && where_holds(
        m.where_clause,
        node.attrs,
    )
}

/// Whether an edge is one that a step asks for.
pub open spec fn edge_fits(edge: EdgeView, m: EdgeMatcher) -> bool {
    edge_name(edge.kind) == m.kind@ && where_holds(m.where_clause, edge_value(edge))
}

/// A walk along edges: where it has come, and the positions of the edges that it took.
pub struct WalkView {
    pub node: int,
    pub trail: Seq<int>,
}

/// The walks that go on from a walk along edges that a step asks for, to a length from `min` to
/// `max`. A walk comes before those that go on from it.
pub open spec fn walks(
    g: GraphView,
    m: EdgeMatcher,
    walk: WalkView,
    min: nat,
    max: nat,
) -> Seq<WalkView>
    decreases max - walk.trail.len(), 1nat, 0nat,
{
    let here = if walk.trail.len() >= min {
        seq![walk]
    } else {
        Seq::empty()
    };
    if walk.trail.len() >= max {
        here
    } else {
        let edges = links_from(g.links, walk.node);
        here + branches(g, m, walk, edges, min, max, edges.len())
    }
}

/// The walks that go on from a walk along one of the first `n` of some edges.
pub open spec fn branches(
    g: GraphView,
    m: EdgeMatcher,
    walk: WalkView,
    edges: Seq<int>,
    min: nat,
    max: nat,
    n: nat,
) -> Seq<WalkView>
    decreases max - walk.trail.len(), 0nat, n,
{
    if n == 0 || n > edges.len() || walk.trail.len() >= max {
        Seq::empty()
    } else {
        let e = edges[n - 1];
        branches(g, m, walk, edges, min, max, (n - 1) as nat) + if edge_fits(g.links[e].edge, m) {
            walks(
                g,
                m,
                WalkView { node: g.links[e].to, trail: walk.trail.push(e) },
                min,
                max,
            )
        } else {
            Seq::empty()
        }
    }
}

/// Those of the first `n` of some walks that took an edge.
pub open spec fn moved(list: Seq<WalkView>, n: nat) -> Seq<WalkView>
    decreases n,
{
    if n == 0 || n > list.len() {
        Seq::empty()
    } else if list[n - 1].trail.len() > 0 {
        moved(list, (n - 1) as nat).push(list[n - 1])
    } else {
        moved(list, (n - 1) as nat)
    }
}

/// The most edges that a step may take, where a chain already has `hops` and may have `total`.
pub open spec fn hop_limit(m: EdgeMatcher, hops: nat, total: nat) -> nat {
    let left = if total > hops {
        (total - hops) as nat
    } else {
        0
    };
    if (m.max_hops as nat) < left {
        m.max_hops as nat
    } else {
        left
    }
}

/// The walks that a step may take from a node.
pub open spec fn step_walks(
    g: GraphView,
    m: EdgeMatcher,
    from: int,
    hops: nat,
    total: nat,
) -> Seq<WalkView> {
    let max = hop_limit(m, hops, total);
    if max == 0 {
        Seq::empty()
    } else {
        let all = walks(
            g,
            m,
            WalkView { node: from, trail: Seq::empty() },
            m.min_hops as nat,
            max,
        );
        moved(all, all.len())
    }
}

/// A chain, or the beginning of one: the positions of the nodes at its steps, and of all its edges.
pub struct ChainView {
    pub nodes: Seq<int>,
    pub edges: Seq<int>,
}

/// The chains of one node, among the first `n` nodes, that a step asks for.
pub open spec fn starts(g: GraphView, m: NodeMatcher, n: nat) -> Seq<ChainView>
    decreases n,
{
    if n == 0 || n > g.nodes.len() {
        Seq::empty()
    } else {
        let before = starts(g, m, (n - 1) as nat);
        if node_fits(g.nodes[n - 1], m) {
            before.push(ChainView { nodes: seq![n - 1], edges: Seq::empty() })
        } else {
            before
        }
    }
}

/// A chain with a walk added to it.
pub open spec fn joined_to(chain: ChainView, walk: WalkView) -> ChainView {
    ChainView { nodes: chain.nodes.push(walk.node), edges: chain.edges + walk.trail }
}

/// A chain with those of the first `n` of some walks added to it that lead to a node that a step
/// asks for.
pub open spec fn extensions(
    g: GraphView,
    m: NodeMatcher,
    chain: ChainView,
    list: Seq<WalkView>,
    n: nat,
) -> Seq<ChainView>
    decreases n,
{
    if n == 0 || n > list.len() {
        Seq::empty()
    } else {
        let before = extensions(g, m, chain, list, (n - 1) as nat);
        if node_fits(g.nodes[list[n - 1].node], m) {
            before.push(joined_to(chain, list[n - 1]))
        } else {
            before
        }
    }
}

/// A chain with every walk of an edge step and a node step added to it.
pub open spec fn extended(
    g: GraphView,
    em: EdgeMatcher,
    nm: NodeMatcher,
    chain: ChainView,
    total: nat,
) -> Seq<ChainView> {
    let list = step_walks(g, em, chain.nodes.last(), chain.edges.len(), total);
    extensions(g, nm, chain, list, list.len())
}

/// The first `n` of some chains, each with every walk of an edge step and a node step added to it.
pub open spec fn all_extended(
    g: GraphView,
    em: EdgeMatcher,
    nm: NodeMatcher,
    list: Seq<ChainView>,
    total: nat,
    n: nat,
) -> Seq<ChainView>
    decreases n,
{
    if n == 0 || n > list.len() {
        Seq::empty()
    } else {
        all_extended(g, em, nm, list, total, (n - 1) as nat) + extended(
            g,
            em,
            nm,
            list[n - 1],
            total,
        )
    }
}

/// The node step number `k` of a rule, counted from zero.
pub open spec fn node_step(rule: Rule, k: int) -> NodeMatcher {
    rule.path@[2 * k]->Node_0.node
}

/// The edge step behind the node step number `k` of a rule.
pub open spec fn edge_step(rule: Rule, k: int) -> EdgeMatcher {
    rule.path@[2 * k + 1]->Edge_0.edge
}

/// The number of edge steps of a rule.
pub open spec fn edge_steps(rule: Rule) -> nat {
    ((rule.path@.len() - 1) / 2) as nat
}

/// The beginnings, with `k` edge steps, of chains that a rule describes.
pub open spec fn chains(g: GraphView, rule: Rule, k: nat) -> Seq<ChainView>
    decreases k,
{
    if k == 0 {
        starts(g, node_step(rule, 0), g.nodes.len())
    } else {
        let before = chains(g, rule, (k - 1) as nat);
        all_extended(
            g,
            edge_step(rule, k - 1),
            node_step(rule, k as int),
            before,
            rule.max_total_hops as nat,
            before.len(),
        )
    }
}

/// A chain as it is reported.
pub open spec fn reported(g: GraphView, rule: Rule, chain: ChainView) -> FindingView {
    FindingView {
        rule_id: rule.id@,
        node_ids: chain.nodes.map_values(|ix: int| g.nodes[ix].id),
        edges: chain.edges,
    }
}

/// The chains that a rule describes, as they are reported.
pub open spec fn rule_findings(g: GraphView, rule: Rule) -> Seq<FindingView> {
    chains(g, rule, edge_steps(rule)).map_values(|c: ChainView| reported(g, rule, c))
}

/// The chains that the first `n` of some rules describe, as they are reported.
pub open spec fn all_findings(g: GraphView, rules: Seq<Rule>, n: nat) -> Seq<FindingView>
    decreases n,
{
    if n == 0 || n > rules.len() {
        Seq::empty()
    } else {
        all_findings(g, rules, (n - 1) as nat) + rule_findings(g, rules[n - 1])
    }
}

/// The first condition that is not well formed, of those of the edge steps from number `k` on and the
/// node steps behind them. An edge step other than the first is looked at only where a chain has
/// come that far.
pub open spec fn bad_clause_from(g: GraphView, rule: Rule, k: nat) -> Option<Seq<char>>
    decreases edge_steps(rule) - k,
{
    if k >= edge_steps(rule) || (k > 0 && chains(g, rule, k).len() == 0) {
        None
    } else if !compiles(edge_step(rule, k as int).where_clause) {
        Some(edge_step(rule, k as int).where_clause->Some_0@)
    } else if !compiles(node_step(rule, k as int + 1).where_clause) {
        Some(node_step(rule, k as int + 1).where_clause->Some_0@)
    } else {
        bad_clause_from(g, rule, k + 1)
    }
}

/// The first condition of a rule that is looked at and is not well formed.
pub open spec fn bad_clause(g: GraphView, rule: Rule) -> Option<Seq<char>> {
    if !compiles(node_step(rule, 0).where_clause) {
        Some(node_step(rule, 0).where_clause->Some_0@)
    } else {
        bad_clause_from(g, rule, 0)
    }
}

/// Whether all conditions of a rule that are looked at are well formed.
pub open spec fn rule_compiles(g: GraphView, rule: Rule) -> bool {
    bad_clause(g, rule) is None
}

/// Whether an error is the one that is to be reported of some rules: the first condition of the
/// first rule with one that is looked at and is not well formed, and what is wrong with it.
pub open spec fn is_bad_where(g: GraphView, rules: Seq<Rule>, bad: BadWhere) -> bool {
    is_parse_error(bad.clause@, bad.error) && exists|i: int|
        0 <= i < rules.len() && bad_clause(g, #[trigger] rules[i]) == Some(bad.clause@) && (forall|
            j: int,
        |
            0 <= j < i ==> rule_compiles(g, #[trigger] rules[j]))
}

/// Whether every rule is linear.
pub open spec fn all_linear(rules: Seq<Rule>) -> bool {
    forall|i: int| 0 <= i < rules.len() ==> is_linear((#[trigger] rules[i]).path@)
}

/// Whether the conditions of all rules that are looked at are well formed.
pub open spec fn all_compile(g: GraphView, rules: Seq<Rule>) -> bool {
    forall|i: int| 0 <= i < rules.len() ==> rule_compiles(g, #[trigger] rules[i])
}

/// In a linear path, the steps at even positions are nodes and the others edges.
proof fn lemma_linear(path: Seq<PathStep>, i: int)
    requires
        is_linear(path),
        0 <= i < path.len(),
    ensures
        path[i] is Node <==> i % 2 == 0,
        path.len() % 2 == 1,
    decreases i,
{
    lemma_parity(path, i);
    lemma_parity(path, path.len() - 1);
}

proof fn lemma_parity(path: Seq<PathStep>, i: int)
    requires
        is_linear(path),
        0 <= i < path.len(),
    ensures
        path[i] is Node <==> i % 2 == 0,
    decreases i,
{
    if i > 0 {
        lemma_parity(path, i - 1);
        assert((path[i - 1] is Node) != (path[i - 1 + 1] is Node));
    }
}

/// Why a rule could not be run: a condition that is not well formed.
#[derive(Debug)]
pub struct BadWhere {
    pub clause: String,
    pub error: PredicateParseError,
}

impl BadWhere {
    /// What is wrong, in words.
    pub fn message(&self) -> (r: String)
        ensures
            r@ == "invalid where-clause `"@ + self.clause@ + "`: "@ + error_text(self.error)
                + " (should have been caught at rule load time)"@,
    {
        let mut out = plus("invalid where-clause `", self.clause.as_str());
        out = plus(out.as_str(), "`: ");
        out = plus(out.as_str(), self.error.message().as_str());
        plus(out.as_str(), " (should have been caught at rule load time)")
    }
}

/// Whether a compiled condition is that of a clause.
spec fn is_compiled(pred: Option<Predicate>, clause: Option<String>) -> bool {
    match (pred, clause) {
        (Some(p), Some(s)) => predicate_of(s@) == Some(p@.clauses),
        (None, None) => true,
        _ => false,
    }
}

/// Reads a condition, if there is one.
fn compile_where(clause: &Option<String>) -> (r: Result<Option<Predicate>, BadWhere>)
    ensures
        match r {
            Ok(pred) => compiles(*clause) && is_compiled(pred, *clause),
            Err(bad) => !compiles(*clause) && bad.clause@ == clause->Some_0@ && is_parse_error(
                bad.clause@,
                bad.error,
            ),
        },
{
    match clause {
        Some(s) => match parse(s.as_str()) {
            Ok(p) => Ok(Some(p)),
            Err(error) => Err(BadWhere { clause: s.clone(), error }),
        },
        None => Ok(None),
    }
}

/// Whether a compiled condition, if there is one, holds of a value.
fn holds(pred: &Option<Predicate>, root: &Json, Ghost(clause): Ghost<Option<String>>) -> (r: bool)
    requires
        is_compiled(*pred, clause),
    ensures
        r == where_holds(clause, root@),
{
    match pred {
        Some(p) => evaluate(p, root),
        None => true,
    }
}

/// The name of a kind of resource.
pub(crate) fn resource_kind_name(kind: &ResourceKind) -> (r: &str)
    ensures
        r@ == kind_name(kind@),
{
    match kind {
        ResourceKind::S3Bucket => "S3Bucket",
        ResourceKind::S3BucketPolicy => "S3BucketPolicy",
        ResourceKind::S3BucketPublicAccessBlock => "S3BucketPublicAccessBlock",
        ResourceKind::S3BucketAcl => "S3BucketAcl",
        ResourceKind::IamRole => "IamRole",
        ResourceKind::IamPolicy => "IamPolicy",
        ResourceKind::IamRolePolicy => "IamRolePolicy",
        ResourceKind::IamRolePolicyAttachment => "IamRolePolicyAttachment",
        ResourceKind::IamInstanceProfile => "IamInstanceProfile",
        ResourceKind::LambdaFunction => "LambdaFunction",
        ResourceKind::LambdaPermission => "LambdaPermission",
        ResourceKind::SecurityGroup => "SecurityGroup",
        ResourceKind::SecurityGroupRule => "SecurityGroupRule",
        ResourceKind::Instance => "Instance",
        ResourceKind::SecretsManagerSecret => "SecretsManagerSecret",
        ResourceKind::Other(tf_type) => tf_type.as_str(),
    }
}

/// The name of a kind of edge.
pub fn edge_kind_name(kind: &EdgeKind) -> (r: &'static str)
    ensures
        r@ == edge_name(kind@),
{
    match kind {
        EdgeKind::References => "References",
        EdgeKind::IamTrust { .. } => "IamTrust",
        EdgeKind::IamGrants { .. } => "IamGrants",
        EdgeKind::Attached => "Attached",
        EdgeKind::NetworkReachable { .. } => "NetworkReachable",
    }
}

/// Whether a node is one that a step asks for.
fn node_matches(node: &Node, m: &NodeMatcher, pred: &Option<Predicate>) -> (r: bool)
    requires
        is_compiled(*pred, m.where_clause),
    ensures
        r == node_fits(node@, *m),
{
    if let Some(name) = &m.kind {
        if !same_text(resource_kind_name(&node.kind), name.as_str()) {
            return false;
        }
    }
    holds(pred, &node.attrs, Ghost(m.where_clause))
}

/// Whether an edge is one that a step asks for.
fn edge_matches(edge: &Edge, m: &EdgeMatcher, pred: &Option<Predicate>) -> (r: bool)
    requires
        is_compiled(*pred, m.where_clause),
    ensures
        r == edge_fits(edge@, *m),
{
    if !same_text(edge_kind_name(&edge.kind), m.kind.as_str()) {
        return false;
    }
    holds(pred, &edge_json(edge), Ghost(m.where_clause))
}

/// Some texts as JSON strings.
pub(crate) fn string_list(list: &Vec<String>) -> (r: Json)
    ensures
        r@ == JsonView::Array(string_values(texts(list@))),
{
    broadcast use lemma_json_model;

    let mut out: Vec<Json> = Vec::new();
    let mut i: usize = 0;
    while i < list.len()
        invariant
            i <= list@.len(),
            out@.len() == i,
            forall|k: int| 0 <= k < i ==> (#[trigger] out@[k])@ == JsonView::String(list@[k]@),
        decreases list@.len() - i,
    {
        out.push(Json::String(list[i].clone()));
        i = i + 1;
    }
    assert(json_items(out@) =~= string_values(texts(list@)));
    Json::Array(out)
}

/// An edge as the JSON object that conditions on it are about.
pub fn edge_json(edge: &Edge) -> (r: Json)
    ensures
        r@ == edge_value(edge@),
{
    broadcast use lemma_json_model;

    let mut entries: Vec<(String, Json)> = Vec::new();
    entries.push(("_derived".to_string(), edge_derived_facts(&edge.kind)));
    let attr_path = Json::String(edge.evidence.attr_path.clone());
    match &edge.kind {
        EdgeKind::IamGrants { actions, effect, resource_match } => {
            entries.push(("actions".to_string(), string_list(actions)));
            entries.push(("attr_path".to_string(), attr_path));
            entries.push(("effect".to_string(), Json::String(effect.clone())));
            entries.push(("resource_match".to_string(), Json::String(resource_match.clone())));
        },
        EdgeKind::NetworkReachable { protocol, from_port, to_port, cidr } => {
            entries.push(("attr_path".to_string(), attr_path));
            entries.push(("cidr".to_string(), Json::String(cidr.clone())));
            entries.push(("from_port".to_string(), Json::Number(JsonNumber::from_int(*from_port))));
            entries.push(("protocol".to_string(), Json::String(protocol.clone())));
            entries.push(("to_port".to_string(), Json::Number(JsonNumber::from_int(*to_port))));
        },
        EdgeKind::IamTrust { principal } => {
            entries.push(("attr_path".to_string(), attr_path));
            entries.push(("principal".to_string(), Json::String(principal.clone())));
        },
        EdgeKind::References | EdgeKind::Attached => {
            entries.push(("attr_path".to_string(), attr_path));
        },
    }
    assert(json_entries(entries@) =~= edge_value(edge@)->Object_0);
    Json::Object(entries)
}

/// A walk along edges.
struct Walk {
    node: usize,
    trail: Vec<usize>,
}

impl View for Walk {
    type V = WalkView;

    closed spec fn view(&self) -> WalkView {
        WalkView { node: self.node as int, trail: positions(self.trail@) }
    }
}

/// The contents of some walks.
spec fn walk_views(list: Seq<Walk>) -> Seq<WalkView> {
    list.map_values(|w: Walk| w@)
}

/// Whether walks come to nodes of a graph with `n` nodes.
spec fn walks_within(list: Seq<Walk>, n: nat) -> bool {
    forall|i: int| 0 <= i < list.len() ==> (#[trigger] list[i]).node < n
}

/// A copy of some positions.
fn copy_positions(list: &Vec<usize>) -> (r: Vec<usize>)
    ensures
        r@ == list@,
{
    let mut out: Vec<usize> = Vec::new();
    let mut i: usize = 0;
    while i < list.len()
        invariant
            i <= list@.len(),
            out@ == list@.take(i as int),
        decreases list@.len() - i,
    {
        out.push(list[i]);
        assert(list@.take(i + 1) =~= list@.take(i as int).push(list@[i as int]));
        i = i + 1;
    }
    assert(list@.take(i as int) =~= list@);
    out
}

/// Adds to `out` the walks that go on from `node`, to which `trail` leads.
fn dfs(
    graph: &IacGraph,
    m: &EdgeMatcher,
    pred: &Option<Predicate>,
    node: usize,
    trail: &mut Vec<usize>,
    max: usize,
    out: &mut Vec<Walk>,
)
    requires
        graph.wf(),
        node < graph@.nodes.len(),
        is_compiled(*pred, m.where_clause),
        old(trail)@.len() <= max,
        walks_within(old(out)@, graph@.nodes.len()),
    ensures
        final(trail)@ == old(trail)@,
        walk_views(final(out)@) == walk_views(old(out)@) + walks(
            graph@,
            *m,
            (WalkView { node: node as int, trail: positions(old(trail)@) }),
            m.min_hops as nat,
            max as nat,
        ),
        walks_within(final(out)@, graph@.nodes.len()),
    decreases max - old(trail)@.len(),
{
    let ghost g = graph@;
    let ghost first = trail@;
    let ghost walk = WalkView { node: node as int, trail: positions(first) };
    let ghost min = m.min_hops as nat;
    let ghost start = walk_views(out@);
    let ghost kept = out@;
    assert(walk.trail.len() == first.len());
    if trail.len() >= m.min_hops {
        out.push(Walk { node, trail: copy_positions(trail) });
        assert(walk_views(out@) =~= start + seq![walk]);
        assert forall|i: int| 0 <= i < out@.len() implies (#[trigger] out@[i]).node
            < g.nodes.len() by {
            if i < kept.len() {
                assert(out@[i] == kept[i]);
            }
        }
    } else {
        assert(start + Seq::empty() =~= start);
    }
    if trail.len() >= max {
        return;
    }
    let ghost middle = walk_views(out@);
    let list = graph.outgoing(node);
    let ghost ids = links_from(g.links, node as int);
    proof {
        lemma_links_from(g.links, node as int);
        assert(ids.len() == list@.len());
    }
    let mut i: usize = 0;
    assert(middle + branches(g, *m, walk, ids, min, max as nat, 0) =~= middle);
    while i < list.len()
        invariant
            graph.wf(),
            g == graph@,
            is_compiled(*pred, m.where_clause),
            trail@ == first,
            first.len() < max,
            first == old(trail)@,
            walk == (WalkView { node: node as int, trail: positions(first) }),
            walk.trail.len() == first.len(),
            min == m.min_hops,
            i <= list@.len(),
            ids.len() == list@.len(),
            ids == positions(list@),
            forall|j: int| 0 <= j < ids.len() ==> 0 <= #[trigger] ids[j] < g.links.len(),
            walks_within(out@, g.nodes.len()),
            walk_views(out@) == middle + branches(g, *m, walk, ids, min, max as nat, i as nat),
        decreases list@.len() - i,
    {
        let e: usize = list[i];
        assert(ids[i as int] == e);
        let ghost before = walk_views(out@);
        if edge_matches(graph.edge_by_index(e), m, pred) {
            let to: usize = graph.edge_ends(e).1;
            trail.push(e);
            assert(positions(trail@) =~= walk.trail.push(e as int));
            dfs(graph, m, pred, to, trail, max, out);
            trail.pop();
            assert(trail@ =~= first);
        }
        assert(walk_views(out@) =~= middle + branches(
            g,
            *m,
            walk,
            ids,
            min,
            max as nat,
            (i + 1) as nat,
        ));
        i = i + 1;
    }
    assert(walk_views(out@) =~= start + walks(g, *m, walk, min, max as nat));
}

/// The walks that a step may take from a node.
fn walk_bounded_hops(
    graph: &IacGraph,
    m: &EdgeMatcher,
    pred: &Option<Predicate>,
    from: usize,
    hops: usize,
    total: usize,
) -> (r: Vec<Walk>)
    requires
        graph.wf(),
        from < graph@.nodes.len(),
        is_compiled(*pred, m.where_clause),
    ensures
        walk_views(r@) == step_walks(graph@, *m, from as int, hops as nat, total as nat),
        walks_within(r@, graph@.nodes.len()),
{
    let left: usize = total.saturating_sub(hops);
    let max: usize = if m.max_hops < left {
        m.max_hops
    } else {
        left
    };
    let mut kept: Vec<Walk> = Vec::new();
    assert(walk_views(kept@) =~= Seq::empty());
    if max == 0 {
        return kept;
    }
    let mut trail: Vec<usize> = Vec::new();
    let mut all: Vec<Walk> = Vec::new();
    assert(positions(trail@) =~= Seq::empty());
    assert(walk_views(all@) =~= Seq::empty());
    dfs(graph, m, pred, from, &mut trail, max, &mut all);
    let ghost views = walk_views(all@);
    assert(views =~= walks(
        graph@,
        *m,
        WalkView { node: from as int, trail: Seq::empty() },
        m.min_hops as nat,
        max as nat,
    ));
    let ghost found = all@;
    for walk in it: all
        invariant
            it.seq() == found,
            views == walk_views(found),
            walks_within(found, graph@.nodes.len()),
            walks_within(kept@, graph@.nodes.len()),
            walk_views(kept@) == moved(views, it.index() as nat),
    {
        let ghost before = walk_views(kept@);
        let ghost list = kept@;
        let ghost k = it.index();
        assert(found[k] == walk);
        assert(views[k] == walk@);
        assert(walk@.trail.len() == walk.trail@.len());
        if walk.trail.len() > 0 {
            kept.push(walk);
            assert(walk_views(kept@) =~= before.push(walk@));
            assert forall|i: int| 0 <= i < kept@.len() implies (#[trigger] kept@[i]).node
                < graph@.nodes.len() by {
                if i < list.len() {
                    assert(kept@[i] == list[i]);
                }
            }
        }
    }
    kept
}

/// A chain, or the beginning of one.
struct Chain {
    nodes: Vec<usize>,
    edges: Vec<usize>,
}

impl View for Chain {
    type V = ChainView;

    closed spec fn view(&self) -> ChainView {
        ChainView { nodes: positions(self.nodes@), edges: positions(self.edges@) }
    }
}

/// The contents of some chains.
spec fn chain_views(list: Seq<Chain>) -> Seq<ChainView> {
    list.map_values(|c: Chain| c@)
}

/// Whether a chain has a node, and all its nodes are those of a graph with `n` nodes.
spec fn chain_within(chain: Chain, n: nat) -> bool {
    chain.nodes@.len() > 0 && forall|i: int|
        0 <= i < chain.nodes@.len() ==> #[trigger] chain.nodes@[i] < n
}

/// Whether chains have nodes, all of them those of a graph with `n` nodes.
spec fn chains_within(list: Seq<Chain>, n: nat) -> bool {
    forall|i: int| 0 <= i < list.len() ==> chain_within(#[trigger] list[i], n)
}

/// The chains of one node that a step asks for.
fn find_starts(graph: &IacGraph, m: &NodeMatcher, pred: &Option<Predicate>) -> (r: Vec<Chain>)
    requires
        is_compiled(*pred, m.where_clause),
    ensures
        chain_views(r@) == starts(graph@, *m, graph@.nodes.len()),
        chains_within(r@, graph@.nodes.len()),
{
    let ghost g = graph@;
    let total: usize = graph.node_count();
    let mut out: Vec<Chain> = Vec::new();
    let mut ix: usize = 0;
    assert(chain_views(out@) =~= Seq::empty());
    while ix < total
        invariant
            g == graph@,
            total == g.nodes.len(),
            ix <= total,
            is_compiled(*pred, m.where_clause),
            chains_within(out@, total as nat),
            chain_views(out@) == starts(g, *m, ix as nat),
        decreases total - ix,
    {
        let ghost before = chain_views(out@);
        let ghost list = out@;
        if node_matches(graph.node_by_index(ix), m, pred) {
            let mut nodes: Vec<usize> = Vec::new();
            nodes.push(ix);
            let chain = Chain { nodes, edges: Vec::new() };
            assert(chain@.nodes =~= seq![ix as int]);
            assert(chain@.edges =~= Seq::empty());
            out.push(chain);
            assert(chain_views(out@) =~= before.push(chain@));
            assert forall|i: int| 0 <= i < out@.len() implies chain_within(
                #[trigger] out@[i],
                total as nat,
            ) by {
                if i < list.len() {
                    assert(out@[i] == list[i]);
                }
            }
        }
        ix = ix + 1;
    }
    out
}

/// A chain with a walk added to it.
fn join_walk(chain: &Chain, walk: &Walk) -> (r: Chain)
    ensures
        r@ == joined_to(chain@, walk@),
        r.nodes@ == chain.nodes@.push(walk.node),
{
    let mut nodes: Vec<usize> = copy_positions(&chain.nodes);
    nodes.push(walk.node);
    let mut edges: Vec<usize> = copy_positions(&chain.edges);
    let mut i: usize = 0;
    assert(chain.edges@ + walk.trail@.take(0) =~= chain.edges@);
    while i < walk.trail.len()
        invariant
            i <= walk.trail@.len(),
            edges@ == chain.edges@ + walk.trail@.take(i as int),
        decreases walk.trail@.len() - i,
    {
        edges.push(walk.trail[i]);
        assert(edges@ =~= chain.edges@ + walk.trail@.take(i + 1));
        i = i + 1;
    }
    let r = Chain { nodes, edges };
    proof {
        assert(walk.trail@.take(i as int) =~= walk.trail@);
        assert(r@.nodes =~= chain@.nodes.push(walk@.node));
        assert(r@.edges =~= chain@.edges + walk@.trail);
    }
    r
}

/// Adds to `out` a chain with every walk of an edge step and a node step added to it.
fn extend_chain(
    graph: &IacGraph,
    em: &EdgeMatcher,
    edge_pred: &Option<Predicate>,
    nm: &NodeMatcher,
    node_pred: &Option<Predicate>,
    chain: &Chain,
    total: usize,
    out: &mut Vec<Chain>,
)
    requires
        graph.wf(),
        is_compiled(*edge_pred, em.where_clause),
        is_compiled(*node_pred, nm.where_clause),
        chain_within(*chain, graph@.nodes.len()),
        chains_within(old(out)@, graph@.nodes.len()),
    ensures
        chain_views(final(out)@) == chain_views(old(out)@) + extended(
            graph@,
            *em,
            *nm,
            chain@,
            total as nat,
        ),
        chains_within(final(out)@, graph@.nodes.len()),
{
    let ghost g = graph@;
    let ghost start = chain_views(out@);
    let last: usize = chain.nodes[chain.nodes.len() - 1];
    assert(chain@.nodes.last() == last);
    assert(chain@.edges.len() == chain.edges@.len());
    let list = walk_bounded_hops(graph, em, edge_pred, last, chain.edges.len(), total);
    let ghost views = walk_views(list@);
    assert(views.len() == list@.len());
    let mut i: usize = 0;
    assert(start + extensions(g, *nm, chain@, views, 0) =~= start);
    while i < list.len()
        invariant
            g == graph@,
            is_compiled(*node_pred, nm.where_clause),
            chain_within(*chain, g.nodes.len()),
            i <= list@.len(),
            views.len() == list@.len(),
            views == walk_views(list@),
            walks_within(list@, g.nodes.len()),
            chains_within(out@, g.nodes.len()),
            chain_views(out@) == start + extensions(g, *nm, chain@, views, i as nat),
        decreases list@.len() - i,
    {
        let ghost before = chain_views(out@);
        let ghost kept = out@;
        assert(views[i as int] == list@[i as int]@);
        assert(views[i as int].node == list@[i as int].node);
        if node_matches(graph.node_by_index(list[i].node), nm, node_pred) {
            let longer = join_walk(chain, &list[i]);
            assert forall|j: int| 0 <= j < longer.nodes@.len() implies #[trigger] longer.nodes@[j]
                < g.nodes.len() by {
                if j < chain.nodes@.len() {
                    assert(longer.nodes@[j] == chain.nodes@[j]);
                }
            }
            out.push(longer);
            assert(chain_views(out@) =~= before.push(longer@));
            assert forall|j: int| 0 <= j < out@.len() implies chain_within(
                #[trigger] out@[j],
                g.nodes.len(),
            ) by {
                if j < kept.len() {
                    assert(out@[j] == kept[j]);
                }
            }
        }
        assert(chain_views(out@) =~= start + extensions(g, *nm, chain@, views, (i + 1) as nat));
        i = i + 1;
    }
}

/// Some chains, each with every walk of an edge step and a node step added to it.
fn extend_all(
    graph: &IacGraph,
    em: &EdgeMatcher,
    edge_pred: &Option<Predicate>,
    nm: &NodeMatcher,
    node_pred: &Option<Predicate>,
    list: &Vec<Chain>,
    total: usize,
) -> (r: Vec<Chain>)
    requires
        graph.wf(),
        is_compiled(*edge_pred, em.where_clause),
        is_compiled(*node_pred, nm.where_clause),
        chains_within(list@, graph@.nodes.len()),
    ensures
        chain_views(r@) == all_extended(
            graph@,
            *em,
            *nm,
            chain_views(list@),
            total as nat,
            list@.len(),
        ),
        chains_within(r@, graph@.nodes.len()),
{
    let ghost g = graph@;
    let ghost views = chain_views(list@);
    let mut out: Vec<Chain> = Vec::new();
    let mut i: usize = 0;
    assert(chain_views(out@) =~= Seq::empty());
    while i < list.len()
        invariant
            graph.wf(),
            g == graph@,
            is_compiled(*edge_pred, em.where_clause),
            is_compiled(*node_pred, nm.where_clause),
            chains_within(list@, g.nodes.len()),
            i <= list@.len(),
            views == chain_views(list@),
            chains_within(out@, g.nodes.len()),
            chain_views(out@) == all_extended(g, *em, *nm, views, total as nat, i as nat),
        decreases list@.len() - i,
    {
        assert(views[i as int] == list@[i as int]@);
        extend_chain(graph, em, edge_pred, nm, node_pred, &list[i], total, &mut out);
        i = i + 1;
    }
    out
}

/// Where no chain has come, none goes on.
proof fn lemma_no_chains(g: GraphView, rule: Rule, k: nat, n: nat)
    requires
        k <= n,
        chains(g, rule, k).len() == 0,
    ensures
        chains(g, rule, n).len() == 0,
    decreases n - k,
{
    if k < n {
        lemma_no_chains(g, rule, k, (n - 1) as nat);
    }
}

/// A chain as it is reported.
fn report_chain(graph: &IacGraph, rule: &Rule, chain: &Chain) -> (r: Finding)
    requires
        chain_within(*chain, graph@.nodes.len()),
    ensures
        r@ == reported(graph@, *rule, chain@),
{
    let ghost g = graph@;
    let mut node_ids: Vec<String> = Vec::new();
    let mut i: usize = 0;
    while i < chain.nodes.len()
        invariant
            g == graph@,
            chain_within(*chain, g.nodes.len()),
            i <= chain.nodes@.len(),
            node_ids@.len() == i,
            forall|k: int|
                0 <= k < i ==> (#[trigger] node_ids@[k])@ == g.nodes[chain.nodes@[k] as int].id,
        decreases chain.nodes@.len() - i,
    {
        node_ids.push(graph.node_by_index(chain.nodes[i]).id.clone());
        i = i + 1;
    }
    let r = Finding {
        rule_id: rule.id.clone(),
        node_ids,
        edges: copy_positions(&chain.edges),
    };
    assert(r@.node_ids =~= reported(g, *rule, chain@).node_ids);
    r
}

/// Chains with the edge step number `k` of a rule, and the node step behind it, added to them.
fn run_step(graph: &IacGraph, rule: &Rule, k: usize, frontier: &Vec<Chain>) -> (r: Result<
    Vec<Chain>,
    BadWhere,
>)
    requires
        graph.wf(),
        is_linear(rule.path@),
        k < edge_steps(*rule),
        chain_views(frontier@) == chains(graph@, *rule, k as nat),
        chains_within(frontier@, graph@.nodes.len()),
    ensures
        match r {
            Ok(next) => compiles(edge_step(*rule, k as int).where_clause) && compiles(
                node_step(*rule, k as int + 1).where_clause,
            ) && chain_views(next@) == chains(graph@, *rule, (k + 1) as nat) && chains_within(
                next@,
                graph@.nodes.len(),
            ),
            Err(bad) => (k == 0 || frontier@.len() > 0) ==> bad_clause_from(
                graph@,
                *rule,
                k as nat,
            ) == Some(bad.clause@) && is_parse_error(bad.clause@, bad.error),
        },
{
    let path = &rule.path;
    proof {
        lemma_linear(path@, 0);
        lemma_linear(path@, 2 * k + 1);
        lemma_linear(path@, 2 * k + 2);
        assert(chains(graph@, *rule, k as nat).len() == frontier@.len());
    }
    let last: usize = path.len() - 1;
    assert(2 * k + 2 <= last);
    let edge: &EdgeMatcher = match &path[2 * k + 1] {
        PathStep::Edge(step) => &step.edge,
        PathStep::Node(_) => {
            return Ok(Vec::new());
        },
    };
    let node: &NodeMatcher = match &path[2 * k + 2] {
        PathStep::Node(step) => &step.node,
        PathStep::Edge(_) => {
            return Ok(Vec::new());
        },
    };
    let edge_pred = match compile_where(&edge.where_clause) {
        Ok(pred) => pred,
        Err(bad) => {
            return Err(bad);
        },
    };
    let node_pred = match compile_where(&node.where_clause) {
        Ok(pred) => pred,
        Err(bad) => {
            return Err(bad);
        },
    };
    Ok(extend_all(graph, edge, &edge_pred, node, &node_pred, frontier, rule.max_total_hops))
}

/// The chains that a rule describes.
fn run_rule(graph: &IacGraph, rule: &Rule) -> (r: Result<Vec<Finding>, BadWhere>)
    requires
        graph.wf(),
        is_linear(rule.path@),
    ensures
        match r {
            Ok(list) => rule_compiles(graph@, *rule) && finding_views(list@) == rule_findings(
                graph@,
                *rule,
            ),
            Err(bad) => bad_clause(graph@, *rule) == Some(bad.clause@) && is_parse_error(
                bad.clause@,
                bad.error,
            ),
        },
{
    let ghost g = graph@;
    let path = &rule.path;
    proof {
        lemma_linear(path@, 0);
    }
    let mut frontier: Vec<Chain> = Vec::new();
    if let PathStep::Node(first) = &path[0] {
        match compile_where(&first.node.where_clause) {
            Ok(pred) => {
                frontier = find_starts(graph, &first.node, &pred);
            },
            Err(bad) => {
                return Err(bad);
            },
        }
    }
    let steps: usize = (path.len() - 1) / 2;
    let mut k: usize = 0;
    while k < steps
        invariant_except_break
            chain_views(frontier@) == chains(g, *rule, k as nat),
            k > 0 ==> frontier@.len() > 0,
        invariant
            graph.wf(),
            g == graph@,
            is_linear(rule.path@),
            steps == edge_steps(*rule),
            k <= steps,
            chains_within(frontier@, g.nodes.len()),
            compiles(node_step(*rule, 0).where_clause),
            bad_clause_from(g, *rule, 0) == bad_clause_from(g, *rule, k as nat),
        ensures
            rule_compiles(g, *rule),
            chain_views(frontier@) == chains(g, *rule, edge_steps(*rule)),
        decreases steps - k,
    {
        assert(chains(g, *rule, k as nat).len() == frontier@.len());
        match run_step(graph, rule, k, &frontier) {
            Ok(next) => {
                frontier = next;
            },
            Err(bad) => {
                return Err(bad);
            },
        }
        k = k + 1;
        if frontier.len() == 0 {
            proof {
                assert(chains(g, *rule, k as nat).len() == 0);
                lemma_no_chains(g, *rule, k as nat, edge_steps(*rule));
                assert(chain_views(frontier@) =~= chains(g, *rule, edge_steps(*rule)));
            }
            break;
        }
    }
    let ghost views = chain_views(frontier@);
    let mut out: Vec<Finding> = Vec::new();
    let mut i: usize = 0;
    while i < frontier.len()
        invariant
            g == graph@,
            i <= frontier@.len(),
            views == chain_views(frontier@),
            chains_within(frontier@, g.nodes.len()),
            out@.len() == i,
            forall|j: int| 0 <= j < i ==> (#[trigger] out@[j])@ == reported(g, *rule, views[j]),
        decreases frontier@.len() - i,
    {
        assert(views[i as int] == frontier@[i as int]@);
        out.push(report_chain(graph, rule, &frontier[i]));
        i = i + 1;
    }
    assert(finding_views(out@) =~= rule_findings(g, *rule));
    Ok(out)
}

/// The chains that some rules describe, rule by rule, unless a condition that is looked at is not
/// well formed.
pub fn try_run_rules(graph: &IacGraph, rules: &Vec<Rule>) -> (r: Result<Vec<Finding>, BadWhere>)
    requires
        graph.wf(),
        all_linear(rules@),
    ensures
        match r {
            Ok(list) => all_compile(graph@, rules@) && finding_views(list@) == all_findings(
                graph@,
                rules@,
                rules@.len(),
            ),
            Err(bad) => !all_compile(graph@, rules@) && is_bad_where(graph@, rules@, bad),
        },
{
    let ghost g = graph@;
    let mut out: Vec<Finding> = Vec::new();
    let mut i: usize = 0;
    assert(finding_views(out@) =~= Seq::empty());
    while i < rules.len()
        invariant
            graph.wf(),
            g == graph@,
            all_linear(rules@),
            i <= rules@.len(),
            forall|j: int| 0 <= j < i ==> rule_compiles(g, #[trigger] rules@[j]),
            finding_views(out@) == all_findings(g, rules@, i as nat),
        decreases rules@.len() - i,
    {
        let ghost before = finding_views(out@);
        let mut list = match run_rule(graph, &rules[i]) {
            Ok(list) => list,
            Err(bad) => {
                assert(!rule_compiles(g, rules@[i as int]));
                assert(is_bad_where(g, rules@, bad));
                return Err(bad);
            },
        };
        let ghost added = finding_views(list@);
        out.append(&mut list);
        assert(finding_views(out@) =~= before + added);
        i = i + 1;
    }
    Ok(out)
}

/// The chains that some rules describe, rule by rule.
pub fn run_rules(graph: &IacGraph, rules: &Vec<Rule>) -> (r: Vec<Finding>)
    requires
        graph.wf(),
        all_linear(rules@),
        all_compile(graph@, rules@),
    ensures
        finding_views(r@) == all_findings(graph@, rules@, rules@.len()),
{
    match try_run_rules(graph, rules) {
        Ok(list) => list,
        Err(_) => Vec::new(),
    }
}

} // verus!
