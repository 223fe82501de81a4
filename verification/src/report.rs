//! Reports: what was found, how severe it is, and where in the source every hop of it comes from.

use crate::chains::{
    described,
    is_address,
    law_chains_are_paths,
    law_findings_are_bounded,
    law_findings_are_the_chains,
    lemma_path_steps,
};
use crate::graph::{GraphView, IacGraph, lemma_position_of, position_of, positions};
use crate::json::{
    Json,
    JsonNumber,
    JsonNumberView,
    JsonView,
    json_entries,
    lemma_json_model,
};
use crate::matcher::{
    ChainView,
    Finding,
    FindingView,
    all_findings,
    edge_kind_name,
    edge_name,
    edge_steps,
    finding_views,
    kind_name,
    reported,
    resource_kind_name,
    rule_findings,
    string_list,
    string_values,
};
use crate::rendering::{debug_quoted, debug_string};
use crate::rule::Rule;
use crate::scoring::{
    SeverityLabel,
    any_exposed,
    any_sensitive,
    explanation_of,
    label_name,
    label_of,
    score_finding,
    score_of,
};
use crate::text::{decimal, decimal_signed, plus, same_text, signed_text, size_text, texts};
use crate::types::{EdgeKind, EdgeKindView, ResourceKind, ResourceKindView};
use vstd::prelude::*;

verus! {

/// A node of a chain.
#[derive(Debug)]
pub struct ChainNode {
    pub id: String,
    pub kind: String,
    pub file: String,
}

/// The contents of a [`ChainNode`].
pub struct ChainNodeView {
    pub id: Seq<char>,
    pub kind: Seq<char>,
    pub file: Seq<char>,
}

impl View for ChainNode {
    type V = ChainNodeView;

    open spec fn view(&self) -> ChainNodeView {
        ChainNodeView { id: self.id@, kind: self.kind@, file: self.file@ }
    }
}

/// An edge of a chain, with the evidence for it.
#[derive(Debug)]
pub struct ChainEdge {
    pub from: String,
    pub to: String,
    pub kind: String,
    pub details: Json,
    pub description: String,
    pub evidence_file: String,
    pub evidence_attr_path: String,
}

/// The contents of a [`ChainEdge`].
pub struct ChainEdgeView {
    pub from: Seq<char>,
    pub to: Seq<char>,
    pub kind: Seq<char>,
    pub details: JsonView,
    pub description: Seq<char>,
    pub evidence_file: Seq<char>,
    pub evidence_attr_path: Seq<char>,
}

impl View for ChainEdge {
    type V = ChainEdgeView;

    open spec fn view(&self) -> ChainEdgeView {
        ChainEdgeView {
            from: self.from@,
            to: self.to@,
            kind: self.kind@,
            details: self.details@,
            description: self.description@,
            evidence_file: self.evidence_file@,
            evidence_attr_path: self.evidence_attr_path@,
        }
    }
}

/// How severe a chain is, and why.
#[derive(Debug)]
pub struct SeverityReport {
    pub label: String,
    pub score: i64,
    pub explanation: String,
}

/// The contents of a [`SeverityReport`].
pub struct SeverityReportView {
    pub label: Seq<char>,
    pub score: int,
    pub explanation: Seq<char>,
}

impl View for SeverityReport {
    type V = SeverityReportView;

    open spec fn view(&self) -> SeverityReportView {
        SeverityReportView {
            label: self.label@,
            score: self.score as int,
            explanation: self.explanation@,
        }
    }
}

/// A chain, reported.
#[derive(Debug)]
pub struct FindingReport {
    pub rule_id: String,
    pub title: String,
    pub description: String,
    pub severity: SeverityReport,
    pub chain_length_hops: usize,
    pub nodes: Vec<ChainNode>,
    pub edges: Vec<ChainEdge>,
}

/// The contents of a [`FindingReport`].
pub struct FindingReportView {
    pub rule_id: Seq<char>,
    pub title: Seq<char>,
    pub description: Seq<char>,
    pub severity: SeverityReportView,
    pub chain_length_hops: nat,
    pub nodes: Seq<ChainNodeView>,
    pub edges: Seq<ChainEdgeView>,
}

impl View for FindingReport {
    type V = FindingReportView;

    open spec fn view(&self) -> FindingReportView {
        FindingReportView {
            rule_id: self.rule_id@,
            title: self.title@,
            description: self.description@,
            severity: self.severity@,
            chain_length_hops: self.chain_length_hops as nat,
            nodes: self.nodes@.map_values(|n: ChainNode| n@),
            edges: self.edges@.map_values(|e: ChainEdge| e@),
        }
    }
}

/// The contents of some reported chains.
pub open spec fn report_views(list: Seq<FindingReport>) -> Seq<FindingReportView> {
    list.map_values(|f: FindingReport| f@)
}

/// The numbers of a report.
#[derive(Debug)]
pub struct Summary {
    pub total_findings: usize,
    /// How many chains have a severity, for each severity that any has, in the order of the
    /// severities' texts.
    pub by_severity: Vec<(String, usize)>,
    pub node_count: usize,
    pub edge_count: usize,
    pub unresolved_node_count: usize,
}

/// The contents of a [`Summary`].
pub struct SummaryView {
    pub total_findings: nat,
    pub by_severity: Seq<(Seq<char>, nat)>,
    pub node_count: nat,
    pub edge_count: nat,
    pub unresolved_node_count: nat,
}

/// The contents of counts by severity.
pub open spec fn count_views(list: Seq<(String, usize)>) -> Seq<(Seq<char>, nat)> {
    list.map_values(|c: (String, usize)| (c.0@, c.1 as nat))
}

impl View for Summary {
    type V = SummaryView;

    open spec fn view(&self) -> SummaryView {
        SummaryView {
            total_findings: self.total_findings as nat,
            by_severity: count_views(self.by_severity@),
            node_count: self.node_count as nat,
            edge_count: self.edge_count as nat,
            unresolved_node_count: self.unresolved_node_count as nat,
        }
    }
}

/// What a scan of a directory found, the worst first.
#[derive(Debug)]
pub struct Report {
    pub directory: String,
    pub summary: Summary,
    pub findings: Vec<FindingReport>,
}

/// The contents of a [`Report`].
pub struct ReportView {
    pub directory: Seq<char>,
    pub summary: SummaryView,
    pub findings: Seq<FindingReportView>,
}

impl View for Report {
    type V = ReportView;

    open spec fn view(&self) -> ReportView {
        ReportView {
            directory: self.directory@,
            summary: self.summary@,
            findings: report_views(self.findings@),
        }
    }
}

/// The text of a kind of resource.
pub open spec fn kind_text(kind: ResourceKindView) -> Seq<char> {
    match kind {
        ResourceKindView::Other(tf_type) => "Other("@ + debug_quoted(tf_type) + ")"@,
        _ => kind_name(kind),
    }
}

/// The fields of a kind of edge, as JSON.
pub open spec fn details_of(kind: EdgeKindView) -> JsonView {
    JsonView::Object(
        match kind {
            EdgeKindView::IamGrants { actions, effect, resource_match } => seq![
                ("actions"@, JsonView::Array(string_values(actions))),
                ("effect"@, JsonView::String(effect)),
                ("resource_match"@, JsonView::String(resource_match)),
            ],
            EdgeKindView::NetworkReachable { protocol, from_port, to_port, cidr } => seq![
                ("cidr"@, JsonView::String(cidr)),
                ("from_port"@, JsonView::Number(JsonNumberView::from_int(from_port as int))),
                ("protocol"@, JsonView::String(protocol)),
                ("to_port"@, JsonView::Number(JsonNumberView::from_int(to_port as int))),
            ],
            EdgeKindView::IamTrust { principal } => seq![
                ("principal"@, JsonView::String(principal)),
            ],
            EdgeKindView::References | EdgeKindView::Attached => Seq::empty(),
        },
    )
}

/// The position of the first rule with an id, from `from` on.
pub open spec fn rule_from(rules: Seq<Rule>, id: Seq<char>, from: int) -> Option<int>
    decreases rules.len() - from,
{
    if from < 0 || from >= rules.len() {
        None
    } else if rules[from].id@ == id {
        Some(from)
    } else {
        rule_from(rules, id, from + 1)
    }
}

/// Whether a chain can be reported: its rule, its nodes and its edges are known.
pub open spec fn is_known(g: GraphView, rules: Seq<Rule>, f: FindingView) -> bool {
    &&& rule_from(rules, f.rule_id, 0) is Some
    &&& forall|i: int|
        0 <= i < f.node_ids.len() ==> position_of(g.nodes, #[trigger] f.node_ids[i]) is Some
    &&& forall|i: int| 0 <= i < f.edges.len() ==> 0 <= #[trigger] f.edges[i] < g.links.len()
}

/// Whether all of some chains can be reported.
pub open spec fn all_known(g: GraphView, rules: Seq<Rule>, list: Seq<FindingView>) -> bool {
    forall|i: int| 0 <= i < list.len() ==> is_known(g, rules, #[trigger] list[i])
}

/// The positions of the nodes of a chain.
pub open spec fn node_positions(g: GraphView, ids: Seq<Seq<char>>) -> Seq<int> {
    ids.map_values(|id: Seq<char>| position_of(g.nodes, id)->Some_0)
}

/// A node of a chain, reported.
pub open spec fn chain_node(g: GraphView, ix: int) -> ChainNodeView {
    ChainNodeView { id: g.nodes[ix].id, kind: kind_text(g.nodes[ix].kind), file: g.nodes[ix].file }
}

/// An edge of a chain, reported.
pub open spec fn chain_edge(g: GraphView, e: int) -> ChainEdgeView {
    let link = g.links[e];
    ChainEdgeView {
        from: g.nodes[link.from].id,
        to: g.nodes[link.to].id,
        kind: edge_name(link.edge.kind),
        details: details_of(link.edge.kind),
        description: link.edge.description,
        evidence_file: link.edge.evidence.file,
        evidence_attr_path: link.edge.evidence.attr_path,
    }
}

/// A chain, reported.
pub open spec fn finding_report(g: GraphView, rules: Seq<Rule>, f: FindingView) -> FindingReportView {
    let rule = rules[rule_from(rules, f.rule_id, 0)->Some_0];
    let nodes = node_positions(g, f.node_ids);
    let sensitive = any_sensitive(g, nodes);
    let exposed = any_exposed(g, nodes);
    let score = score_of(rule.severity_base, f.edges.len(), sensitive, exposed);
    FindingReportView {
        rule_id: rule.id@,
        title: rule.title@,
        description: rule.description@,
        severity: SeverityReportView {
            label: label_name(label_of(score)),
            score,
            explanation: explanation_of(rule.severity_base, f.edges.len(), sensitive, exposed),
        },
        chain_length_hops: f.edges.len(),
        nodes: nodes.map_values(|ix: int| chain_node(g, ix)),
        edges: f.edges.map_values(|e: int| chain_edge(g, e)),
    }
}

/// A list, the worst first, with one more chain in its place: behind those that are as severe.
pub open spec fn placed(list: Seq<FindingReportView>, f: FindingReportView) -> Seq<
    FindingReportView,
>
    decreases list.len(),
{
    if list.len() == 0 || list.last().severity.score >= f.severity.score {
        list.push(f)
    } else {
        placed(list.drop_last(), f).push(list.last())
    }
}

/// The first `n` of some chains, reported, the worst first.
pub open spec fn worst_first(
    g: GraphView,
    rules: Seq<Rule>,
    list: Seq<FindingView>,
    n: nat,
) -> Seq<FindingReportView>
    decreases n,
{
    if n == 0 || n > list.len() {
        Seq::empty()
    } else {
        placed(
            worst_first(g, rules, list, (n - 1) as nat),
            finding_report(g, rules, list[n - 1]),
        )
    }
}

/// How many of some chains have a severity.
pub open spec fn count_of(list: Seq<FindingReportView>, label: Seq<char>) -> nat
    decreases list.len(),
{
    if list.len() == 0 {
        0
    } else {
        count_of(list.drop_last(), label) + if list.last().severity.label == label {
            1nat
        } else {
            0nat
        }
    }
}

/// A severity and how many of some chains have it, if any has.
pub open spec fn counted(list: Seq<FindingReportView>, label: Seq<char>) -> Seq<(Seq<char>, nat)> {
    if count_of(list, label) > 0 {
        seq![(label, count_of(list, label))]
    } else {
        Seq::empty()
    }
}

/// The severities that any of some chains has, and how many have it.
pub open spec fn counts(list: Seq<FindingReportView>) -> Seq<(Seq<char>, nat)> {
    counted(list, "CRITICAL"@) + counted(list, "HIGH"@) + counted(list, "LOW"@) + counted(
        list,
        "MEDIUM"@,
    )
}

/// The report on some chains of a graph.
pub open spec fn report_of(
    directory: Seq<char>,
    g: GraphView,
    unresolved: nat,
    rules: Seq<Rule>,
    list: Seq<FindingView>,
) -> ReportView {
    let findings = worst_first(g, rules, list, list.len());
    ReportView {
        directory,
        summary: SummaryView {
            total_findings: list.len(),
            by_severity: counts(findings),
            node_count: g.nodes.len(),
            edge_count: g.links.len(),
            unresolved_node_count: unresolved,
        },
        findings,
    }
}

/// The text of a kind of resource.
fn kind_debug(kind: &ResourceKind) -> (r: String)
    ensures
        r@ == kind_text(kind@),
{
    match kind {
        ResourceKind::Other(tf_type) => {
            plus(plus("Other(", debug_string(tf_type.as_str()).as_str()).as_str(), ")")
        },
        _ => resource_kind_name(kind).to_string(),
    }
}

/// The fields of a kind of edge, as JSON.
fn edge_kind_details(kind: &EdgeKind) -> (r: Json)
    ensures
        r@ == details_of(kind@),
{
    broadcast use lemma_json_model;

    let mut entries: Vec<(String, Json)> = Vec::new();
    match kind {
        EdgeKind::IamGrants { actions, effect, resource_match } => {
            entries.push(("actions".to_string(), string_list(actions)));
            entries.push(("effect".to_string(), Json::String(effect.clone())));
            entries.push(("resource_match".to_string(), Json::String(resource_match.clone())));
        },
        EdgeKind::NetworkReachable { protocol, from_port, to_port, cidr } => {
            entries.push(("cidr".to_string(), Json::String(cidr.clone())));
            entries.push(("from_port".to_string(), Json::Number(JsonNumber::from_int(*from_port))));
            entries.push(("protocol".to_string(), Json::String(protocol.clone())));
            entries.push(("to_port".to_string(), Json::Number(JsonNumber::from_int(*to_port))));
        },
        EdgeKind::IamTrust { principal } => {
            entries.push(("principal".to_string(), Json::String(principal.clone())));
        },
        EdgeKind::References | EdgeKind::Attached => {},
    }
    assert(json_entries(entries@) =~= details_of(kind@)->Object_0);
    Json::Object(entries)
}

/// The first rule with an id.
fn find_rule<'a>(rules: &'a Vec<Rule>, id: &str) -> (r: Option<&'a Rule>)
    ensures
        match r {
            Some(rule) => rule_from(rules@, id@, 0) matches Some(i) && *rule == rules@[i],
            None => rule_from(rules@, id@, 0) is None,
        },
{
    let mut i: usize = 0;
    while i < rules.len()
        invariant
            i <= rules@.len(),
            rule_from(rules@, id@, 0) == rule_from(rules@, id@, i as int),
        decreases rules@.len() - i,
    {
        if same_text(rules[i].id.as_str(), id) {
            return Some(&rules[i]);
        }
        i = i + 1;
    }
    None
}

/// The positions of the nodes of a chain.
fn find_nodes(graph: &IacGraph, ids: &Vec<String>) -> (r: Vec<usize>)
    requires
        graph.wf(),
        forall|i: int|
            0 <= i < ids@.len() ==> position_of(graph@.nodes, #[trigger] texts(ids@)[i]) is Some,
    ensures
        positions(r@) == node_positions(graph@, texts(ids@)),
        forall|i: int| 0 <= i < r@.len() ==> #[trigger] r@[i] < graph@.nodes.len(),
{
    let ghost g = graph@;
    let ghost views = texts(ids@);
    let mut out: Vec<usize> = Vec::new();
    let mut i: usize = 0;
    while i < ids.len()
        invariant
            graph.wf(),
            g == graph@,
            views == texts(ids@),
            i <= ids@.len(),
            forall|k: int|
                0 <= k < ids@.len() ==> position_of(g.nodes, #[trigger] views[k]) is Some,
            out@.len() == i,
            forall|k: int|
                0 <= k < i ==> #[trigger] out@[k] == position_of(g.nodes, views[k])->Some_0
                    && out@[k] < g.nodes.len(),
        decreases ids@.len() - i,
    {
        proof {
            assert(views[i as int] == ids@[i as int]@);
            lemma_position_of(g.nodes, ids@[i as int]@);
            assert(graph.index_of@.contains_key(ids@[i as int]@));
        }
        if let Some(ix) = graph.index_of.get(ids[i].as_str()) {
            out.push(*ix);
        }
        i = i + 1;
    }
    assert(positions(out@) =~= node_positions(g, views));
    out
}

/// A chain, reported.
fn build_finding_report(graph: &IacGraph, rules: &Vec<Rule>, finding: &Finding) -> (r:
    FindingReport)
    requires
        graph.wf(),
        is_known(graph@, rules@, finding@),
    ensures
        r@ == finding_report(graph@, rules@, finding@),
{
    let ghost g = graph@;
    let rule = find_rule(rules, finding.rule_id.as_str()).unwrap();
    let node_ixs = find_nodes(graph, &finding.node_ids);
    assert(finding@.edges.len() == finding.edges@.len());
    let score = score_finding(graph, rule.severity_base, &node_ixs, finding.edges.len());
    let mut nodes: Vec<ChainNode> = Vec::new();
    let mut i: usize = 0;
    while i < node_ixs.len()
        invariant
            g == graph@,
            forall|k: int| 0 <= k < node_ixs@.len() ==> #[trigger] node_ixs@[k] < g.nodes.len(),
            i <= node_ixs@.len(),
            nodes@.len() == i,
            forall|k: int|
                0 <= k < i ==> (#[trigger] nodes@[k])@ == chain_node(g, node_ixs@[k] as int),
        decreases node_ixs@.len() - i,
    {
        let node = graph.node_by_index(node_ixs[i]);
        nodes.push(
            ChainNode {
                id: node.id.clone(),
                kind: kind_debug(&node.kind),
                file: node.file.clone(),
            },
        );
        i = i + 1;
    }
    let mut edges: Vec<ChainEdge> = Vec::new();
    let mut j: usize = 0;
    while j < finding.edges.len()
        invariant
            graph.wf(),
            g == graph@,
            is_known(g, rules@, finding@),
            j <= finding.edges@.len(),
            edges@.len() == j,
            forall|k: int|
                0 <= k < j ==> (#[trigger] edges@[k])@ == chain_edge(g, finding.edges@[k] as int),
        decreases finding.edges@.len() - j,
    {
        let e: usize = finding.edges[j];
        assert(finding@.edges[j as int] == e);
        let ends = graph.edge_ends(e);
        let edge = graph.edge_by_index(e);
        edges.push(
            ChainEdge {
                from: graph.node_by_index(ends.0).id.clone(),
                to: graph.node_by_index(ends.1).id.clone(),
                kind: edge_kind_name(&edge.kind).to_string(),
                details: edge_kind_details(&edge.kind),
                description: edge.description.clone(),
                evidence_file: edge.evidence.file.clone(),
                evidence_attr_path: edge.evidence.attr_path.clone(),
            },
        );
        j = j + 1;
    }
    let r = FindingReport {
        rule_id: rule.id.clone(),
        title: rule.title.clone(),
        description: rule.description.clone(),
        severity: SeverityReport {
            label: score.label.text().to_string(),
            score: score.total,
            explanation: score.explanation,
        },
        chain_length_hops: finding.edges.len(),
        nodes,
        edges,
    };
    proof {
        let wanted = finding_report(g, rules@, finding@);
        assert(node_positions(g, finding@.node_ids) == positions(node_ixs@));
        assert(r@.nodes =~= wanted.nodes);
        assert(r@.edges =~= wanted.edges);
    }
    r
}

/// Puts a chain in its place in a list, the worst first.
fn place(list: &mut Vec<FindingReport>, f: FindingReport)
    ensures
        report_views(final(list)@) == placed(report_views(old(list)@), f@),
{
    let ghost views = report_views(list@);
    let ghost view = f@;
    let mut p: usize = list.len();
    assert(views.take(p as int) =~= views);
    assert(placed(views, view) =~= placed(views.take(p as int), view) + views.skip(p as int));
    while p > 0 && list[p - 1].severity.score < f.severity.score
        invariant
            p <= list@.len(),
            view == f@,
            views == report_views(list@),
            placed(views, view) == placed(views.take(p as int), view) + views.skip(p as int),
        decreases p,
    {
        proof {
            let before = views.take(p as int);
            assert(before.last() == views[p - 1]);
            assert(views[p - 1] == list@[p - 1]@);
            assert(before.drop_last() =~= views.take(p - 1));
            assert(placed(views.take(p - 1), view).push(views[p - 1]) + views.skip(p as int)
                =~= placed(views.take(p - 1), view) + views.skip(p - 1));
        }
        p = p - 1;
    }
    proof {
        let before = views.take(p as int);
        if p > 0 {
            assert(before.last() == views[p - 1]);
            assert(views[p - 1] == list@[p - 1]@);
        }
        assert(placed(before, view) == before.push(view));
    }
    list.insert(p, f);
    assert(report_views(list@) =~= views.take(p as int).push(view) + views.skip(p as int));
}

/// How many of some chains have a severity.
fn count_label(list: &Vec<FindingReport>, label: &str) -> (r: usize)
    ensures
        r == count_of(report_views(list@), label@),
{
    let ghost views = report_views(list@);
    let mut total: usize = 0;
    let mut i: usize = 0;
    assert(views.take(0) =~= Seq::empty());
    while i < list.len()
        invariant
            i <= list@.len(),
            views == report_views(list@),
            total <= i,
            total == count_of(views.take(i as int), label@),
        decreases list@.len() - i,
    {
        proof {
            assert(views.take(i + 1).drop_last() =~= views.take(i as int));
            assert(views.take(i + 1).last() == list@[i as int]@);
        }
        if same_text(list[i].severity.label.as_str(), label) {
            total = total + 1;
        }
        i = i + 1;
    }
    assert(views.take(i as int) =~= views);
    total
}

/// Adds a severity and how many of some chains have it, if any has.
fn push_count(list: &Vec<FindingReport>, label: &str, out: &mut Vec<(String, usize)>)
    ensures
        count_views(final(out)@) == count_views(old(out)@) + counted(report_views(list@), label@),
{
    let ghost before = count_views(out@);
    let total: usize = count_label(list, label);
    if total > 0 {
        out.push((label.to_string(), total));
    }
    assert(count_views(out@) =~= before + counted(report_views(list@), label@));
}

/// The report on some chains of a graph.
pub fn build_report(
    directory: &str,
    graph: &IacGraph,
    rules: &Vec<Rule>,
    findings: &Vec<Finding>,
) -> (r: Report)
    requires
        graph.wf(),
        all_known(graph@, rules@, finding_views(findings@)),
    ensures
        r@ == report_of(
            directory@,
            graph@,
            graph.unresolved_node_count as nat,
            rules@,
            finding_views(findings@),
        ),
{
    let ghost g = graph@;
    let ghost views = finding_views(findings@);
    let mut reports: Vec<FindingReport> = Vec::new();
    let mut i: usize = 0;
    assert(report_views(reports@) =~= Seq::empty());
    while i < findings.len()
        invariant
            graph.wf(),
            g == graph@,
            views == finding_views(findings@),
            all_known(g, rules@, views),
            i <= findings@.len(),
            reports@.len() == i,
            report_views(reports@) == worst_first(g, rules@, views, i as nat),
        decreases findings@.len() - i,
    {
        assert(views[i as int] == findings@[i as int]@);
        let ghost before = report_views(reports@);
        let report = build_finding_report(graph, rules, &findings[i]);
        proof {
            lemma_placed_length(before, report@);
        }
        place(&mut reports, report);
        assert(report_views(reports@).len() == reports@.len());
        i = i + 1;
    }
    let mut by_severity: Vec<(String, usize)> = Vec::new();
    assert(count_views(by_severity@) =~= Seq::empty());
    push_count(&reports, "CRITICAL", &mut by_severity);
    push_count(&reports, "HIGH", &mut by_severity);
    push_count(&reports, "LOW", &mut by_severity);
    push_count(&reports, "MEDIUM", &mut by_severity);
    assert(count_views(by_severity@) =~= counts(report_views(reports@)));
    Report {
        directory: directory.to_string(),
        summary: Summary {
            total_findings: reports.len(),
            by_severity,
            node_count: graph.node_count(),
            edge_count: graph.edge_count(),
            unresolved_node_count: graph.unresolved_node_count,
        },
        findings: reports,
    }
}

proof fn lemma_placed_length(list: Seq<FindingReportView>, f: FindingReportView)
    ensures
        placed(list, f).len() == list.len() + 1,
    decreases list.len(),
{
    if list.len() > 0 && list.last().severity.score < f.severity.score {
        lemma_placed_length(list.drop_last(), f);
    }
}

/// A hop of a chain, with its evidence.
pub open spec fn hop_text(e: ChainEdgeView) -> Seq<char> {
    "\n      --["@ + e.kind + "]--> "@ + e.to + "\n          evidence: "@ + e.description + " ("@
        + e.evidence_file + ", attribute `"@ + e.evidence_attr_path + "`)"@
}

/// The first `n` hops of a chain, with their evidence.
pub open spec fn hops_text(edges: Seq<ChainEdgeView>, n: nat) -> Seq<char>
    decreases n,
{
    if n == 0 || n > edges.len() {
        Seq::empty()
    } else {
        hops_text(edges, (n - 1) as nat) + hop_text(edges[n - 1])
    }
}

/// A chain, under its number in the report.
pub open spec fn finding_text(f: FindingReportView, number: nat) -> Seq<char> {
    "\n["@ + decimal(number) + "] "@ + f.severity.label + " -- "@ + f.title + " (score "@
        + decimal_signed(f.severity.score) + ")\n  rule: "@ + f.rule_id
        + "\n  why this severity: "@ + f.severity.explanation + "\n  chain ("@ + decimal(
        f.chain_length_hops,
    ) + " hop(s)):\n    "@ + f.nodes[0].id + hops_text(f.edges, f.edges.len()) + "\n"@
}

/// The first `n` chains of a report.
pub open spec fn findings_text(list: Seq<FindingReportView>, n: nat) -> Seq<char>
    decreases n,
{
    if n == 0 || n > list.len() {
        Seq::empty()
    } else {
        findings_text(list, (n - 1) as nat) + finding_text(list[n - 1], n)
    }
}

/// The first `n` counts of a report.
pub open spec fn counts_text(list: Seq<(Seq<char>, nat)>, n: nat) -> Seq<char>
    decreases n,
{
    if n == 0 || n > list.len() {
        Seq::empty()
    } else {
        counts_text(list, (n - 1) as nat) + "  "@ + list[n - 1].0 + ": "@ + decimal(list[n - 1].1)
            + "\n"@
    }
}

/// A report as plain text: the numbers of the scan, then every chain with every hop of it and where
/// in the source the hop comes from.
pub open spec fn report_text(r: ReportView) -> Seq<char> {
    let head = "PolicyLens scan: "@ + r.directory + "\n  "@ + decimal(r.summary.node_count)
        + " resource(s), "@ + decimal(r.summary.edge_count) + " edge(s), "@ + decimal(
        r.summary.unresolved_node_count,
    ) + " unresolved attribute(s)\n"@;
    if r.summary.total_findings == 0 {
        head + "\nNo cross-resource attack chains found.\n"@
    } else {
        head + "\n"@ + decimal(r.summary.total_findings) + " finding(s):\n"@ + counts_text(
            r.summary.by_severity,
            r.summary.by_severity.len(),
        ) + findings_text(r.findings, r.findings.len())
    }
}

/// Adds a hop of a chain, with its evidence.
fn render_hop(out: String, e: &ChainEdge) -> (r: String)
    ensures
        r@ == out@ + hop_text(e@),
{
    let mut text = plus("\n      --[", e.kind.as_str());
    text = plus(text.as_str(), "]--> ");
    text = plus(text.as_str(), e.to.as_str());
    text = plus(text.as_str(), "\n          evidence: ");
    text = plus(text.as_str(), e.description.as_str());
    text = plus(text.as_str(), " (");
    text = plus(text.as_str(), e.evidence_file.as_str());
    text = plus(text.as_str(), ", attribute `");
    text = plus(text.as_str(), e.evidence_attr_path.as_str());
    text = plus(text.as_str(), "`)");
    plus(out.as_str(), text.as_str())
}

/// A chain, under its number in the report.
fn render_finding(f: &FindingReport, number: usize) -> (r: String)
    requires
        f@.nodes.len() > 0,
    ensures
        r@ == finding_text(f@, number as nat),
{
    let ghost view = f@;
    assert(view.nodes.len() == f.nodes@.len());
    assert(view.nodes[0] == f.nodes@[0]@);
    let mut text = plus("\n[", size_text(number).as_str());
    text = plus(text.as_str(), "] ");
    text = plus(text.as_str(), f.severity.label.as_str());
    text = plus(text.as_str(), " -- ");
    text = plus(text.as_str(), f.title.as_str());
    text = plus(text.as_str(), " (score ");
    text = plus(text.as_str(), signed_text(f.severity.score).as_str());
    text = plus(text.as_str(), ")\n  rule: ");
    text = plus(text.as_str(), f.rule_id.as_str());
    text = plus(text.as_str(), "\n  why this severity: ");
    text = plus(text.as_str(), f.severity.explanation.as_str());
    text = plus(text.as_str(), "\n  chain (");
    text = plus(text.as_str(), size_text(f.chain_length_hops).as_str());
    text = plus(text.as_str(), " hop(s)):\n    ");
    text = plus(text.as_str(), f.nodes[0].id.as_str());
    let ghost head = text@;
    let ghost edges = view.edges;
    assert(edges.len() == f.edges@.len());
    let mut i: usize = 0;
    assert(head + hops_text(edges, 0) =~= head);
    while i < f.edges.len()
        invariant
            i <= f.edges@.len(),
            edges == f@.edges,
            edges.len() == f.edges@.len(),
            text@ == head + hops_text(edges, i as nat),
        decreases f.edges@.len() - i,
    {
        assert(edges[i as int] == f.edges@[i as int]@);
        text = render_hop(text, &f.edges[i]);
        assert(text@ =~= head + hops_text(edges, (i + 1) as nat));
        i = i + 1;
    }
    plus(text.as_str(), "\n")
}

/// A report as plain text.
pub fn render_human(report: &Report) -> (r: String)
    requires
        forall|i: int|
            0 <= i < report@.findings.len() ==> (#[trigger] report@.findings[i]).nodes.len() > 0,
    ensures
        r@ == report_text(report@),
{
    let ghost view = report@;
    let mut text = plus("PolicyLens scan: ", report.directory.as_str());
    text = plus(text.as_str(), "\n  ");
    text = plus(text.as_str(), size_text(report.summary.node_count).as_str());
    text = plus(text.as_str(), " resource(s), ");
    text = plus(text.as_str(), size_text(report.summary.edge_count).as_str());
    text = plus(text.as_str(), " edge(s), ");
    text = plus(text.as_str(), size_text(report.summary.unresolved_node_count).as_str());
    text = plus(text.as_str(), " unresolved attribute(s)\n");
    if report.summary.total_findings == 0 {
        return plus(text.as_str(), "\nNo cross-resource attack chains found.\n");
    }
    text = plus(text.as_str(), "\n");
    text = plus(text.as_str(), size_text(report.summary.total_findings).as_str());
    text = plus(text.as_str(), " finding(s):\n");
    let ghost head = text@;
    let ghost numbers = view.summary.by_severity;
    let mut i: usize = 0;
    assert(numbers.len() == report.summary.by_severity@.len());
    assert(head + counts_text(numbers, 0) =~= head);
    while i < report.summary.by_severity.len()
        invariant
            i <= report.summary.by_severity@.len(),
            numbers == count_views(report.summary.by_severity@),
            text@ == head + counts_text(numbers, i as nat),
        decreases report.summary.by_severity@.len() - i,
    {
        let ghost before = text@;
        let entry = &report.summary.by_severity[i];
        assert(numbers[i as int] == (entry.0@, entry.1 as nat));
        text = plus(text.as_str(), "  ");
        text = plus(text.as_str(), entry.0.as_str());
        text = plus(text.as_str(), ": ");
        text = plus(text.as_str(), size_text(entry.1).as_str());
        text = plus(text.as_str(), "\n");
        assert(text@ =~= head + counts_text(numbers, (i + 1) as nat));
        i = i + 1;
    }
    let ghost middle = text@;
    let mut j: usize = 0;
    assert(view.findings.len() == report.findings@.len());
    assert(middle + findings_text(view.findings, 0) =~= middle);
    while j < report.findings.len()
        invariant
            j <= report.findings@.len(),
            view == report@,
            view.findings.len() == report.findings@.len(),
            forall|k: int|
                0 <= k < view.findings.len() ==> (#[trigger] view.findings[k]).nodes.len() > 0,
            text@ == middle + findings_text(view.findings, j as nat),
        decreases report.findings@.len() - j,
    {
        assert(view.findings[j as int] == report.findings@[j as int]@);
        let part = render_finding(&report.findings[j], j + 1);
        text = plus(text.as_str(), part.as_str());
        assert(text@ =~= middle + findings_text(view.findings, (j + 1) as nat));
        j = j + 1;
    }
    text
}

/// Whether a list is the worst first.
pub open spec fn is_worst_first(list: Seq<FindingReportView>) -> bool {
    forall|i: int, j: int|
        0 <= i < j < list.len() ==> (#[trigger] list[i]).severity.score >= (
        #[trigger] list[j]).severity.score
}

/// Those of some chains that have a score, in order.
pub open spec fn of_score(list: Seq<FindingReportView>, score: int) -> Seq<FindingReportView>
    decreases list.len(),
{
    if list.len() == 0 {
        Seq::empty()
    } else if list.last().severity.score == score {
        of_score(list.drop_last(), score).push(list.last())
    } else {
        of_score(list.drop_last(), score)
    }
}

proof fn lemma_placed(list: Seq<FindingReportView>, f: FindingReportView, score: int)
    requires
        is_worst_first(list),
    ensures
        is_worst_first(placed(list, f)),
        forall|i: int|
            0 <= i < placed(list, f).len() ==> (#[trigger] placed(list, f)[i]).severity.score
                == f.severity.score || (exists|j: int|
                0 <= j < list.len() && list[j] == placed(list, f)[i]),
        of_score(placed(list, f), score) == if f.severity.score == score {
            of_score(list, score).push(f)
        } else {
            of_score(list, score)
        },
        placed(list, f).to_multiset() == list.to_multiset().insert(f),
    decreases list.len(),
{
    broadcast use vstd::seq_lib::group_to_multiset_ensures;

    let all = placed(list, f);
    if list.len() == 0 || list.last().severity.score >= f.severity.score {
        assert(all == list.push(f));
        assert(all.drop_last() =~= list);
        assert forall|i: int, j: int| 0 <= i < j < all.len() implies (
        #[trigger] all[i]).severity.score >= (#[trigger] all[j]).severity.score by {
            if j == list.len() {
                assert(list[i].severity.score >= list[list.len() - 1].severity.score || i
                    == list.len() - 1);
            }
        }
        assert forall|i: int| 0 <= i < all.len() implies (#[trigger] all[i]).severity.score
            == f.severity.score || (exists|j: int| 0 <= j < list.len() && list[j] == all[i]) by {
            if i < list.len() {
                assert(list[i] == all[i]);
            }
        }
    } else {
        let init = list.drop_last();
        let before = placed(init, f);
        assert(is_worst_first(init)) by {
            assert forall|i: int, j: int| 0 <= i < j < init.len() implies (
            #[trigger] init[i]).severity.score >= (#[trigger] init[j]).severity.score by {
                assert(list[i].severity.score >= list[j].severity.score);
            }
        }
        lemma_placed(init, f, score);
        assert(all == before.push(list.last()));
        assert(all.drop_last() =~= before);
        assert forall|i: int| 0 <= i < before.len() implies (#[trigger] before[i]).severity.score
            >= list.last().severity.score by {
            if before[i].severity.score != f.severity.score {
                let j = choose|j: int| 0 <= j < init.len() && init[j] == before[i];
                assert(list[j].severity.score >= list[list.len() - 1].severity.score);
            }
        }
        assert forall|i: int, j: int| 0 <= i < j < all.len() implies (
        #[trigger] all[i]).severity.score >= (#[trigger] all[j]).severity.score by {
            if j < before.len() {
                assert(before[i].severity.score >= before[j].severity.score);
            } else {
                assert(before[i].severity.score >= list.last().severity.score);
            }
        }
        assert forall|i: int| 0 <= i < all.len() implies (#[trigger] all[i]).severity.score
            == f.severity.score || (exists|j: int| 0 <= j < list.len() && list[j] == all[i]) by {
            if i < before.len() {
                assert(all[i] == before[i]);
                if before[i].severity.score != f.severity.score {
                    let j = choose|j: int| 0 <= j < init.len() && init[j] == before[i];
                    assert(list[j] == all[i]);
                }
            } else {
                assert(list[list.len() - 1] == all[i]);
            }
        }
        assert(list =~= init.push(list.last()));
        if list.last().severity.score == score {
            assert(f.severity.score != score);
        }
        assert(all.to_multiset() =~= before.to_multiset().insert(list.last()));
        assert(list.to_multiset() =~= init.to_multiset().insert(list.last()));
        assert(all.to_multiset() =~= list.to_multiset().insert(f));
    }
}

/// The chains of a list, reported, in the order of the list.
pub open spec fn unsorted(g: GraphView, rules: Seq<Rule>, list: Seq<FindingView>, n: nat) -> Seq<
    FindingReportView,
>
    decreases n,
{
    if n == 0 || n > list.len() {
        Seq::empty()
    } else {
        unsorted(g, rules, list, (n - 1) as nat).push(finding_report(g, rules, list[n - 1]))
    }
}

/// A report gives the worst chains first, holds every chain as often as it was found, and keeps
/// chains that are equally severe in the order in which they were found.
pub proof fn law_report_is_worst_first(
    g: GraphView,
    rules: Seq<Rule>,
    list: Seq<FindingView>,
    n: nat,
    score: int,
)
    requires
        n <= list.len(),
    ensures
        is_worst_first(worst_first(g, rules, list, n)),
        worst_first(g, rules, list, n).to_multiset() == unsorted(
            g,
            rules,
            list,
            n,
        ).to_multiset(),
        of_score(worst_first(g, rules, list, n), score) == of_score(
            unsorted(g, rules, list, n),
            score,
        ),
    decreases n,
{
    broadcast use vstd::seq_lib::group_to_multiset_ensures;

    if n > 0 {
        law_report_is_worst_first(g, rules, list, (n - 1) as nat, score);
        let before = worst_first(g, rules, list, (n - 1) as nat);
        let plain = unsorted(g, rules, list, (n - 1) as nat);
        let f = finding_report(g, rules, list[n - 1]);
        lemma_placed(before, f, score);
        assert(plain.push(f).drop_last() =~= plain);
        assert(plain.push(f).to_multiset() =~= plain.to_multiset().insert(f));
    } else {
        assert(worst_first(g, rules, list, n) =~= unsorted(g, rules, list, n));
    }
}

/// The sum of some counts.
pub open spec fn sum_of(list: Seq<(Seq<char>, nat)>) -> nat
    decreases list.len(),
{
    if list.len() == 0 {
        0
    } else {
        sum_of(list.drop_last()) + list.last().1
    }
}

proof fn lemma_sum_of(a: Seq<(Seq<char>, nat)>, b: Seq<(Seq<char>, nat)>)
    ensures
        sum_of(a + b) == sum_of(a) + sum_of(b),
    decreases b.len(),
{
    if b.len() == 0 {
        assert(a + b =~= a);
    } else {
        assert((a + b).drop_last() =~= a + b.drop_last());
        lemma_sum_of(a, b.drop_last());
    }
}

proof fn lemma_counted(list: Seq<FindingReportView>, label: Seq<char>)
    ensures
        sum_of(counted(list, label)) == count_of(list, label),
{
    if count_of(list, label) > 0 {
        let one = counted(list, label);
        assert(one.drop_last() =~= Seq::empty());
        assert(sum_of(one.drop_last()) == 0);
    }
}

/// Whether a text is that of one of the four severities.
pub open spec fn is_label(text: Seq<char>) -> bool {
    exists|label: SeverityLabel| text == #[trigger] label_name(label)
}

/// Whether every one of some chains has one of the four severities.
pub open spec fn are_labelled(list: Seq<FindingReportView>) -> bool {
    forall|i: int| 0 <= i < list.len() ==> is_label((#[trigger] list[i]).severity.label)
}

proof fn lemma_labels_differ()
    ensures
        "CRITICAL"@ != "HIGH"@,
        "CRITICAL"@ != "LOW"@,
        "CRITICAL"@ != "MEDIUM"@,
        "HIGH"@ != "LOW"@,
        "HIGH"@ != "MEDIUM"@,
        "LOW"@ != "MEDIUM"@,
{
    reveal_strlit("CRITICAL");
    reveal_strlit("HIGH");
    reveal_strlit("LOW");
    reveal_strlit("MEDIUM");
    assert("CRITICAL"@.len() == 8 && "HIGH"@.len() == 4 && "LOW"@.len() == 3 && "MEDIUM"@.len()
        == 6);
}

proof fn lemma_each_counted_once(list: Seq<FindingReportView>)
    requires
        are_labelled(list),
    ensures
        count_of(list, "CRITICAL"@) + count_of(list, "HIGH"@) + count_of(list, "LOW"@) + count_of(
            list,
            "MEDIUM"@,
        ) == list.len(),
    decreases list.len(),
{
    if list.len() > 0 {
        let init = list.drop_last();
        assert(are_labelled(init)) by {
            assert forall|i: int| 0 <= i < init.len() implies is_label(
                (#[trigger] init[i]).severity.label,
            ) by {
                assert(list[i] == init[i]);
            }
        }
        lemma_each_counted_once(init);
        lemma_labels_differ();
        let last = list[list.len() - 1];
        assert(is_label(last.severity.label));
        let label = choose|label: SeverityLabel| last.severity.label == #[trigger] label_name(label);
        assert(last.severity.label == label_name(label));
    }
}

proof fn lemma_placed_labelled(list: Seq<FindingReportView>, f: FindingReportView)
    requires
        are_labelled(list),
        is_label(f.severity.label),
    ensures
        are_labelled(placed(list, f)),
    decreases list.len(),
{
    let all = placed(list, f);
    let init = if list.len() == 0 || list.last().severity.score >= f.severity.score {
        list
    } else {
        let shorter = list.drop_last();
        assert(are_labelled(shorter)) by {
            assert forall|i: int| 0 <= i < shorter.len() implies is_label(
                (#[trigger] shorter[i]).severity.label,
            ) by {
                assert(list[i] == shorter[i]);
            }
        }
        lemma_placed_labelled(shorter, f);
        placed(shorter, f)
    };
    assert forall|i: int| 0 <= i < all.len() implies is_label(
        (#[trigger] all[i]).severity.label,
    ) by {
        if i < init.len() {
            assert(all[i] == init[i]);
        } else if list.len() > 0 && list.last().severity.score < f.severity.score {
            assert(all[i] == list[list.len() - 1]);
        }
    }
}

proof fn lemma_worst_first_labelled(
    g: GraphView,
    rules: Seq<Rule>,
    list: Seq<FindingView>,
    n: nat,
)
    requires
        n <= list.len(),
    ensures
        are_labelled(worst_first(g, rules, list, n)),
        worst_first(g, rules, list, n).len() == n,
    decreases n,
{
    if n > 0 {
        let before = worst_first(g, rules, list, (n - 1) as nat);
        let f = finding_report(g, rules, list[n - 1]);
        lemma_worst_first_labelled(g, rules, list, (n - 1) as nat);
        assert(f.severity.label == label_name(label_of(f.severity.score)));
        lemma_placed_labelled(before, f);
        lemma_placed_length(before, f);
    }
}

/// The counts by severity of a report add up to the number of its chains.
pub proof fn law_counts_add_up(
    directory: Seq<char>,
    g: GraphView,
    unresolved: nat,
    rules: Seq<Rule>,
    list: Seq<FindingView>,
)
    ensures
        ({
            let r = report_of(directory, g, unresolved, rules, list);
            sum_of(r.summary.by_severity) == r.summary.total_findings && r.findings.len()
                == r.summary.total_findings
        }),
{
    let findings = worst_first(g, rules, list, list.len());
    lemma_worst_first_labelled(g, rules, list, list.len());
    lemma_each_counted_once(findings);
    let a = counted(findings, "CRITICAL"@);
    let b = counted(findings, "HIGH"@);
    let c = counted(findings, "LOW"@);
    let d = counted(findings, "MEDIUM"@);
    lemma_sum_of(a, b);
    lemma_sum_of(a + b, c);
    lemma_sum_of(a + b + c, d);
    lemma_counted(findings, "CRITICAL"@);
    lemma_counted(findings, "HIGH"@);
    lemma_counted(findings, "LOW"@);
    lemma_counted(findings, "MEDIUM"@);
}

proof fn lemma_placed_nodes(list: Seq<FindingReportView>, f: FindingReportView)
    requires
        f.nodes.len() > 0,
        forall|i: int| 0 <= i < list.len() ==> (#[trigger] list[i]).nodes.len() > 0,
    ensures
        forall|i: int|
            0 <= i < placed(list, f).len() ==> (#[trigger] placed(list, f)[i]).nodes.len() > 0,
    decreases list.len(),
{
    if list.len() > 0 && list.last().severity.score < f.severity.score {
        let init = list.drop_last();
        assert forall|i: int| 0 <= i < init.len() implies (#[trigger] init[i]).nodes.len() > 0 by {
            assert(list[i] == init[i]);
        }
        lemma_placed_nodes(init, f);
        let before = placed(init, f);
        assert forall|i: int| 0 <= i < placed(list, f).len() implies (
        #[trigger] placed(list, f)[i]).nodes.len() > 0 by {
            if i < before.len() {
                assert(before[i] == placed(list, f)[i]);
            } else {
                assert(list[list.len() - 1] == placed(list, f)[i]);
            }
        }
    }
}

/// A report on chains that have nodes can be rendered.
pub proof fn law_report_can_be_rendered(
    g: GraphView,
    rules: Seq<Rule>,
    list: Seq<FindingView>,
    n: nat,
)
    requires
        n <= list.len(),
        forall|i: int| 0 <= i < list.len() ==> (#[trigger] list[i]).node_ids.len() > 0,
    ensures
        forall|i: int|
            0 <= i < worst_first(g, rules, list, n).len() ==> (#[trigger] worst_first(
                g,
                rules,
                list,
                n,
            )[i]).nodes.len() > 0,
    decreases n,
{
    if n > 0 {
        law_report_can_be_rendered(g, rules, list, (n - 1) as nat);
        assert(list[n - 1].node_ids.len() > 0);
        lemma_placed_nodes(
            worst_first(g, rules, list, (n - 1) as nat),
            finding_report(g, rules, list[n - 1]),
        );
    }
}

proof fn lemma_rule_found(rules: Seq<Rule>, id: Seq<char>, from: int, at: int)
    requires
        0 <= from <= at < rules.len(),
        rules[at].id@ == id,
    ensures
        rule_from(rules, id, from) is Some,
    decreases at - from,
{
    if rules[from].id@ != id {
        lemma_rule_found(rules, id, from + 1, at);
    }
}

/// Every chain that is found can be reported.
pub proof fn law_findings_can_be_reported(g: GraphView, rules: Seq<Rule>, n: nat)
    requires
        g.wf(),
        n <= rules.len(),
    ensures
        all_known(g, rules, all_findings(g, rules, n)),
        forall|i: int|
            0 <= i < all_findings(g, rules, n).len() ==> (#[trigger] all_findings(
                g,
                rules,
                n,
            )[i]).node_ids.len() > 0,
    decreases n,
{
    if n > 0 {
        law_findings_can_be_reported(g, rules, (n - 1) as nat);
        let before = all_findings(g, rules, (n - 1) as nat);
        let last = rule_findings(g, rules[n - 1]);
        let all = all_findings(g, rules, n);
        assert forall|i: int| 0 <= i < all.len() implies is_known(g, rules, #[trigger] all[i])
            && all[i].node_ids.len() > 0 by {
            if i < before.len() {
                assert(all[i] == before[i]);
            } else {
                let f = last[i - before.len()];
                assert(all[i] == f);
                assert(last.contains(f));
                law_findings_are_bounded(g, rules[n - 1], f);
                lemma_rule_found(rules, f.rule_id, 0, n - 1);
                assert forall|k: int| 0 <= k < f.node_ids.len() implies position_of(
                    g.nodes,
                    #[trigger] f.node_ids[k],
                ) is Some by {
                    lemma_position_of(g.nodes, f.node_ids[k]);
                    assert(is_address(g, f.node_ids[k]));
                }
            }
        }
    }
}

/// Whether the edges of a reported chain lead, one after the other, from its first node to its last.
pub open spec fn is_connected(r: FindingReportView) -> bool {
    let n = r.edges.len();
    &&& r.nodes.len() > 0
    &&& n == 0 ==> r.nodes.len() == 1
    &&& n > 0 ==> r.edges[0].from == r.nodes[0].id && r.edges[n - 1].to == r.nodes[r.nodes.len()
        - 1].id
    &&& forall|i: int| 0 < i < n ==> (#[trigger] r.edges[i]).from == r.edges[i - 1].to
}

/// The edges of a chain, as it is reported, lead one after the other from its first node to its
/// last.
pub proof fn law_reported_chains_are_connected(
    g: GraphView,
    rules: Seq<Rule>,
    rule: Rule,
    f: FindingView,
)
    requires
        g.wf(),
        rule_findings(g, rule).contains(f),
    ensures
        is_connected(finding_report(g, rules, f)),
{
    let r = finding_report(g, rules, f);
    law_findings_are_bounded(g, rule, f);
    law_findings_are_the_chains(g, rule, f);
    let c = choose|c: ChainView| #[trigger]
        described(g, rule, edge_steps(rule), c) && f == reported(g, rule, c);
    law_chains_are_paths(g, rule, edge_steps(rule), c);
    let nodes = node_positions(g, f.node_ids);
    assert forall|i: int| 0 <= i < c.nodes.len() implies r.nodes[i].id
        == #[trigger] g.nodes[c.nodes[i]].id by {
        lemma_position_of(g.nodes, f.node_ids[i]);
        assert(is_address(g, f.node_ids[i]));
        assert(nodes[i] == position_of(g.nodes, f.node_ids[i])->Some_0);
    }
    let n = c.edges.len() as int;
    if n > 0 {
        lemma_path_steps(g, c.nodes[0], c.edges, c.nodes.last(), 0);
        lemma_path_steps(g, c.nodes[0], c.edges, c.nodes.last(), n - 1);
        assert(r.nodes[0].id == g.nodes[c.nodes[0]].id);
        assert(r.nodes[c.nodes.len() - 1].id == g.nodes[c.nodes[c.nodes.len() - 1]].id);
    }
    assert forall|i: int| 0 < i < r.edges.len() implies (#[trigger] r.edges[i]).from == r.edges[i
        - 1].to by {
        lemma_path_steps(g, c.nodes[0], c.edges, c.nodes.last(), i);
    }
}

} // verus!
