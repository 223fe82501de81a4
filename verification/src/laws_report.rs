//! How chains are scored, and what a report says of them.

use crate::graph::{GraphView, lemma_position_of, position_of, unresolved_count};
use crate::json::{JsonView, lemma_key_found};
use crate::laws_matching::{edge_goes_by, goes_by};
use crate::matcher::FindingView;
use crate::report::{
    ChainEdgeView,
    FindingReportView,
    ReportView,
    chain_node,
    count_of,
    counted,
    counts,
    counts_text,
    details_of,
    finding_report,
    findings_text,
    hops_text,
    law_report_is_worst_first,
    node_positions,
    report_of,
    report_text,
    rule_from,
    unsorted,
};
use crate::rule::{Rule, Severity};
use crate::scoring::{
    SeverityLabel,
    any_exposed,
    any_sensitive,
    explanation_of,
    fact_holds,
    is_exposed,
    label_name,
    label_of,
    penalty_of,
    score_of,
};
use crate::text::{decimal, decimal_signed};
use crate::types::{EdgeKindView, NodeView};
use vstd::prelude::*;

verus! {

/// What a severity begins with.
pub open spec fn points(severity: Severity) -> int {
    match severity {
        Severity::Critical => 90,
        Severity::High => 70,
        Severity::Medium => 50,
        Severity::Low => 30,
    }
}

/// A chain of one edge scores what its severity begins with. Each edge more, up to the fifth, costs
/// five points, and those beyond cost nothing. A sensitive resource is worth ten points and an exposed
/// one eight, as long as the score stays within a hundred.
pub proof fn law_scores_add_up(
    severity: Severity,
    edges: nat,
    sensitive: bool,
    exposed: bool,
)
    ensures
        score_of(severity, 0, false, false) == points(severity),
        score_of(severity, 1, false, false) == points(severity),
        1 <= edges < 5 ==> score_of(severity, edges + 1, false, false) == score_of(
            severity,
            edges,
            false,
            false,
        ) - 5,
        edges >= 5 ==> score_of(severity, edges + 1, sensitive, exposed) == score_of(
            severity,
            edges,
            sensitive,
            exposed,
        ),
        ({
            let plain = score_of(severity, edges, false, false);
            let more = plain + (if sensitive {
                10int
            } else {
                0int
            }) + (if exposed {
                8int
            } else {
                0int
            });
            score_of(severity, edges, sensitive, exposed) == if more > 100 {
                100
            } else {
                more
            }
        }),
{
}

/// A score is critical from 85 on, high from 65, medium from 40, and low below that; and is so called
/// in a report.
pub proof fn law_labels_begin_where_they_do(score: int)
    ensures
        label_of(score) is Critical <==> score >= 85,
        label_of(score) is High <==> 65 <= score < 85,
        label_of(score) is Medium <==> 40 <= score < 65,
        label_of(score) is Low <==> score < 40,
        label_name(SeverityLabel::Critical) == "CRITICAL"@,
        label_name(SeverityLabel::High) == "HIGH"@,
        label_name(SeverityLabel::Medium) == "MEDIUM"@,
        label_name(SeverityLabel::Low) == "LOW"@,
{
}

/// Whether one of the facts about a node, by its key, is true.
pub open spec fn is_fact(attrs: JsonView, key: Seq<char>) -> bool {
    attrs.get("_derived"@) matches Some(facts) && facts.get(key) == Some(JsonView::Bool(true))
}

/// A chain reaches something sensitive exactly if one of its nodes, whichever, is; and something
/// exposed exactly if one of them is public, can be invoked by everybody, or lets everybody in.
pub proof fn law_any_node_raises_the_score(g: GraphView, nodes: Seq<int>, ix: int)
    ensures
        !any_sensitive(g, Seq::empty()),
        !any_exposed(g, Seq::empty()),
        any_sensitive(g, nodes.push(ix)) <==> (any_sensitive(g, nodes) || is_fact(
            g.nodes[ix].attrs,
            "sensitive"@,
        )),
        any_exposed(g, nodes.push(ix)) <==> (any_exposed(g, nodes) || is_fact(
            g.nodes[ix].attrs,
            "public"@,
        ) || is_fact(g.nodes[ix].attrs, "publicly_invokable"@) || is_fact(
            g.nodes[ix].attrs,
            "open_ingress"@,
        )),
{
    let more = nodes.push(ix);
    assert(more[nodes.len() as int] == ix);
    lemma_fact_holds(g.nodes[ix].attrs, "sensitive"@);
    lemma_fact_holds(g.nodes[ix].attrs, "public"@);
    lemma_fact_holds(g.nodes[ix].attrs, "publicly_invokable"@);
    lemma_fact_holds(g.nodes[ix].attrs, "open_ingress"@);
    if any_sensitive(g, nodes) {
        let i = choose|i: int|
            0 <= i < nodes.len() && fact_holds(g.nodes[#[trigger] nodes[i]].attrs, "sensitive"@);
        assert(more[i] == nodes[i]);
    }
    if any_sensitive(g, more) {
        let i = choose|i: int|
            0 <= i < more.len() && fact_holds(g.nodes[#[trigger] more[i]].attrs, "sensitive"@);
        if i < nodes.len() {
            assert(more[i] == nodes[i]);
        }
    }
    if any_exposed(g, nodes) {
        let i = choose|i: int|
            0 <= i < nodes.len() && is_exposed(g.nodes[#[trigger] nodes[i]].attrs);
        assert(more[i] == nodes[i]);
    }
    if any_exposed(g, more) {
        let i = choose|i: int| 0 <= i < more.len() && is_exposed(g.nodes[#[trigger] more[i]].attrs);
        if i < nodes.len() {
            assert(more[i] == nodes[i]);
        }
    }
}

proof fn lemma_fact_holds(attrs: JsonView, key: Seq<char>)
    ensures
        fact_holds(attrs, key) <==> is_fact(attrs, key),
{
}

/// What is said of a score names what it begins with, what the length of the chain costs, what it
/// gains, and what it comes to.
pub proof fn law_scores_are_explained(
    severity: Severity,
    edges: nat,
    sensitive: bool,
    exposed: bool,
)
    ensures
        ({
            let beyond = if edges > 0 {
                edges - 1
            } else {
                0
            };
            let cost = if beyond < 4 {
                beyond * 5
            } else {
                20
            };
            let total = score_of(severity, edges, sensitive, exposed);
            explanation_of(severity, edges, sensitive, exposed) == "base "@ + decimal(
                points(severity) as nat,
            ) + " ("@ + (match severity {
                Severity::Critical => "Critical"@,
                Severity::High => "High"@,
                Severity::Medium => "Medium"@,
                Severity::Low => "Low"@,
            }) + ") − hop penalty "@ + decimal(cost as nat) + " ("@ + decimal(beyond as nat)
                + " extra hop(s) beyond the first, capped at 20) + sensitivity bonus "@ + (
            if sensitive {
                decimal(10) + " ("@ + "chain reaches a resource tagged sensitive"@
            } else {
                decimal(0) + " ("@ + "no sensitive-tagged resource in chain"@
            }) + ") + exposure bonus "@ + (if exposed {
                decimal(8) + " ("@ + "chain includes a publicly-reachable entry point"@
            } else {
                decimal(0) + " ("@ + "no publicly-reachable entry point in chain"@
            }) + ") = "@ + decimal(total as nat) + " -> "@ + label_name(label_of(total))
        }),
{
    let total = score_of(severity, edges, sensitive, exposed);
    assert(total >= 0);
    let beyond = if edges > 0 {
        edges - 1
    } else {
        0
    };
    assert(beyond < 4 ==> beyond * 5 < 20);
    let head = "base "@ + decimal(points(severity) as nat) + " ("@ + (match severity {
        Severity::Critical => "Critical"@,
        Severity::High => "High"@,
        Severity::Medium => "Medium"@,
        Severity::Low => "Low"@,
    }) + ") − hop penalty "@ + decimal(penalty_of(edges) as nat) + " ("@ + decimal(
        beyond as nat,
    ) + " extra hop(s) beyond the first, capped at 20) + sensitivity bonus "@;
    let gain = if sensitive {
        decimal(10)
    } else {
        decimal(0)
    };
    let why = if sensitive {
        "chain reaches a resource tagged sensitive"@
    } else {
        "no sensitive-tagged resource in chain"@
    };
    assert(head + (gain + " ("@ + why) =~= head + gain + " ("@ + why);
    let next = head + gain + " ("@ + why + ") + exposure bonus "@;
    let more = if exposed {
        decimal(8)
    } else {
        decimal(0)
    };
    let door = if exposed {
        "chain includes a publicly-reachable entry point"@
    } else {
        "no publicly-reachable entry point in chain"@
    };
    assert(next + (more + " ("@ + door) =~= next + more + " ("@ + door);
}

proof fn lemma_rule_from(rules: Seq<Rule>, id: Seq<char>, from: int, k: int)
    requires
        0 <= from <= k < rules.len(),
        rules[k].id@ == id,
        forall|j: int| from <= j < k ==> (#[trigger] rules[j]).id@ != id,
    ensures
        rule_from(rules, id, from) == Some(k),
    decreases k - from,
{
    if from < k {
        assert(rules[from].id@ != id);
        lemma_rule_from(rules, id, from + 1, k);
    }
}

/// Whether an edge of a report is an edge of a graph: it joins what the edge joins, and says of it what
/// the edge says.
pub open spec fn shows_edge(g: GraphView, e: int, shown: ChainEdgeView) -> bool {
    &&& shown.from == g.nodes[g.links[e].from].id
    &&& shown.to == g.nodes[g.links[e].to].id
    &&& edge_goes_by(g.links[e].edge.kind, shown.kind)
    &&& shown.details == details_of(g.links[e].edge.kind)
    &&& shown.description == g.links[e].edge.description
    &&& shown.evidence_file == g.links[e].edge.evidence.file
    &&& shown.evidence_attr_path == g.links[e].edge.evidence.attr_path
}

/// What is reported of a chain is its rule, by id the first one, with its title and description; each
/// of its nodes and edges in order; and the score that its nodes and its length make with the severity
/// of the rule.
pub proof fn law_chains_are_reported_whole(
    g: GraphView,
    rules: Seq<Rule>,
    f: FindingView,
    k: int,
    nodes: Seq<int>,
)
    requires
        g.wf(),
        0 <= k < rules.len(),
        rules[k].id@ == f.rule_id,
        forall|j: int| 0 <= j < k ==> (#[trigger] rules[j]).id@ != f.rule_id,
        nodes.len() == f.node_ids.len(),
        forall|i: int|
            0 <= i < nodes.len() ==> 0 <= #[trigger] nodes[i] < g.nodes.len() && g.nodes[nodes[i]].id
                == f.node_ids[i],
    ensures
        ({
            let r = finding_report(g, rules, f);
            let score = score_of(
                rules[k].severity_base,
                f.edges.len(),
                any_sensitive(g, nodes),
                any_exposed(g, nodes),
            );
            &&& r.rule_id == rules[k].id@
            &&& r.title == rules[k].title@
            &&& r.description == rules[k].description@
            &&& r.chain_length_hops == f.edges.len()
            &&& r.severity.score == score
            &&& r.severity.label == label_name(label_of(score))
            &&& r.severity.explanation == explanation_of(
                rules[k].severity_base,
                f.edges.len(),
                any_sensitive(g, nodes),
                any_exposed(g, nodes),
            )
            &&& r.nodes.len() == nodes.len()
            &&& forall|i: int|
                0 <= i < nodes.len() ==> (#[trigger] r.nodes[i]).id == f.node_ids[i]
                    && r.nodes[i].file == g.nodes[nodes[i]].file && (!(
                g.nodes[nodes[i]].kind is Other) ==> goes_by(
                    g.nodes[nodes[i]].kind,
                    r.nodes[i].kind,
                ))
            &&& r.edges.len() == f.edges.len()
            &&& forall|i: int|
                0 <= i < f.edges.len() ==> shows_edge(g, f.edges[i], #[trigger] r.edges[i])
        }),
{
    lemma_rule_from(rules, f.rule_id, 0, k);
    let found = node_positions(g, f.node_ids);
    assert forall|i: int| 0 <= i < nodes.len() implies found[i] == #[trigger] nodes[i] by {
        lemma_position_of(g.nodes, f.node_ids[i]);
        let p = position_of(g.nodes, f.node_ids[i])->Some_0;
        assert(found[i] == p);
        if p < nodes[i] {
            assert(g.nodes[p].id != g.nodes[nodes[i]].id);
        } else if nodes[i] < p {
            assert(g.nodes[nodes[i]].id != g.nodes[p].id);
        }
    }
    assert(found =~= nodes);
    let r = finding_report(g, rules, f);
    assert forall|i: int| 0 <= i < nodes.len() implies (#[trigger] r.nodes[i]).id == f.node_ids[i]
        && r.nodes[i].file == g.nodes[nodes[i]].file && (!(g.nodes[nodes[i]].kind is Other)
        ==> goes_by(g.nodes[nodes[i]].kind, r.nodes[i].kind)) by {
        assert(r.nodes[i] == chain_node(g, nodes[i]));
    }
}

/// A report has each chain as it is reported, as often as it was found, and never one that scores
/// higher behind one that scores lower. Its numbers are those of the graph and of the chains.
pub proof fn law_reports_hold_every_chain(
    directory: Seq<char>,
    g: GraphView,
    unresolved: nat,
    rules: Seq<Rule>,
    list: Seq<FindingView>,
)
    ensures
        ({
            let r = report_of(directory, g, unresolved, rules, list);
            &&& r.directory == directory
            &&& r.summary.total_findings == list.len()
            &&& r.summary.node_count == g.nodes.len()
            &&& r.summary.edge_count == g.links.len()
            &&& r.summary.unresolved_node_count == unresolved
            &&& r.findings.to_multiset() == list.map_values(
                |f: FindingView| finding_report(g, rules, f),
            ).to_multiset()
            &&& forall|i: int, j: int|
                0 <= i < j < r.findings.len() ==> (#[trigger] r.findings[i]).severity.score >= (
                #[trigger] r.findings[j]).severity.score
        }),
{
    law_report_is_worst_first(g, rules, list, list.len(), 0);
    lemma_unsorted(g, rules, list, list.len());
    let all = list.map_values(|f: FindingView| finding_report(g, rules, f));
    assert(all.take(list.len() as int) =~= all);
}

proof fn lemma_unsorted(g: GraphView, rules: Seq<Rule>, list: Seq<FindingView>, n: nat)
    requires
        n <= list.len(),
    ensures
        unsorted(g, rules, list, n) == list.map_values(
            |f: FindingView| finding_report(g, rules, f),
        ).take(n as int),
    decreases n,
{
    let all = list.map_values(|f: FindingView| finding_report(g, rules, f));
    if n > 0 {
        lemma_unsorted(g, rules, list, (n - 1) as nat);
        assert(all.take(n as int) =~= all.take(n - 1).push(all[n - 1]));
    } else {
        assert(all.take(0) =~= Seq::empty());
    }
}

/// One more chain counts for its own severity and for no other.
pub proof fn law_chains_are_counted(
    list: Seq<FindingReportView>,
    f: FindingReportView,
    label: Seq<char>,
)
    ensures
        count_of(Seq::empty(), label) == 0,
        count_of(list.push(f), label) == count_of(list, label) + (if f.severity.label == label {
            1int
        } else {
            0int
        }),
{
    assert(list.push(f).drop_last() =~= list);
}

/// The severities that a report counts are those that one of its chains has, each with how many have
/// it, in the order of their names.
pub proof fn law_counts_name_each_severity(list: Seq<FindingReportView>)
    ensures
        forall|label: Seq<char>, n: nat|
            #![trigger counts(list).contains((label, n))]
            (label == "CRITICAL"@ || label == "HIGH"@ || label == "LOW"@ || label == "MEDIUM"@) ==> (
            counts(list).contains((label, n)) <==> n > 0 && n == count_of(list, label)),
        counts(list).len() <= 4,
        counts(list).len() > 0 && count_of(list, "CRITICAL"@) > 0 ==> counts(list)[0].0
            == "CRITICAL"@,
{
    reveal_strlit("CRITICAL");
    reveal_strlit("HIGH");
    reveal_strlit("LOW");
    reveal_strlit("MEDIUM");
    assert("CRITICAL"@.len() == 8 && "HIGH"@.len() == 4 && "LOW"@.len() == 3 && "MEDIUM"@.len()
        == 6);
    let a = counted(list, "CRITICAL"@);
    let b = counted(list, "HIGH"@);
    let c = counted(list, "LOW"@);
    let d = counted(list, "MEDIUM"@);
    let all = counts(list);
    assert(all == a + b + c + d);
    assert forall|label: Seq<char>, n: nat|
        #![trigger all.contains((label, n))]
        (label == "CRITICAL"@ || label == "HIGH"@ || label == "LOW"@ || label
            == "MEDIUM"@) implies (all.contains((label, n)) <==> n > 0 && n == count_of(
        list,
        label,
    )) by {
        if all.contains((label, n)) {
            let i = choose|i: int| 0 <= i < all.len() && all[i] == (label, n);
            if i < a.len() {
                assert(all[i] == a[i]);
            } else if i < a.len() + b.len() {
                assert(all[i] == b[i - a.len()]);
            } else if i < a.len() + b.len() + c.len() {
                assert(all[i] == c[i - a.len() - b.len()]);
            } else {
                assert(all[i] == d[i - a.len() - b.len() - c.len()]);
            }
        }
        if n > 0 && n == count_of(list, label) {
            if label == "CRITICAL"@ {
                assert(all[0] == (label, n));
            } else if label == "HIGH"@ {
                assert(all[a.len() as int] == (label, n));
            } else if label == "LOW"@ {
                assert(all[(a.len() + b.len()) as int] == (label, n));
            } else {
                assert(all[(a.len() + b.len() + c.len()) as int] == (label, n));
            }
        }
    }
}

/// One more node counts as unresolved exactly if something of its attributes is left open.
pub proof fn law_unresolved_nodes_are_counted(nodes: Seq<NodeView>, node: NodeView)
    ensures
        unresolved_count(Seq::empty()) == 0,
        unresolved_count(nodes.push(node)) == unresolved_count(nodes) + (
        if node.has_unresolved_attrs {
            1int
        } else {
            0int
        }),
{
    assert(nodes.push(node).drop_last() =~= nodes);
}

/// The details of an edge in a report are the fields of its kind.
pub proof fn law_details_are_the_fields(kind: EdgeKindView)
    ensures
        match kind {
            EdgeKindView::IamGrants { actions, effect, resource_match } => {
                &&& details_of(kind).get("effect"@) == Some(JsonView::String(effect))
                &&& details_of(kind).get("resource_match"@) == Some(
                    JsonView::String(resource_match),
                )
                &&& details_of(kind).get("actions"@) matches Some(JsonView::Array(items))
                    && items.len() == actions.len() && forall|i: int|
                    0 <= i < items.len() ==> #[trigger] items[i] == JsonView::String(actions[i])
            },
            EdgeKindView::NetworkReachable { protocol, from_port, to_port, cidr } => {
                &&& details_of(kind).get("protocol"@) == Some(JsonView::String(protocol))
                &&& details_of(kind).get("cidr"@) == Some(JsonView::String(cidr))
                &&& details_of(kind).get("from_port"@) matches Some(JsonView::Number(n))
                    && n.as_i64() == Some(from_port)
                &&& details_of(kind).get("to_port"@) matches Some(JsonView::Number(n)) && n.as_i64()
                    == Some(to_port)
            },
            EdgeKindView::IamTrust { principal } => details_of(kind).get("principal"@) == Some(
                JsonView::String(principal),
            ),
            _ => details_of(kind) == JsonView::Object(Seq::empty()),
        },
{
    reveal_strlit("actions");
    reveal_strlit("effect");
    reveal_strlit("resource_match");
    reveal_strlit("cidr");
    reveal_strlit("from_port");
    reveal_strlit("protocol");
    reveal_strlit("to_port");
    reveal_strlit("principal");
    assert("actions"@.len() == 7 && "effect"@.len() == 6 && "resource_match"@.len() == 14);
    assert("cidr"@.len() == 4 && "from_port"@.len() == 9 && "protocol"@.len() == 8
        && "to_port"@.len() == 7);
    let entries = details_of(kind)->Object_0;
    match kind {
        EdgeKindView::IamGrants { .. } => {
            lemma_key_found(entries, "actions"@, 0, 0);
            lemma_key_found(entries, "effect"@, 0, 1);
            lemma_key_found(entries, "resource_match"@, 0, 2);
        },
        EdgeKindView::NetworkReachable { .. } => {
            lemma_key_found(entries, "cidr"@, 0, 0);
            lemma_key_found(entries, "from_port"@, 0, 1);
            lemma_key_found(entries, "protocol"@, 0, 2);
            lemma_key_found(entries, "to_port"@, 0, 3);
        },
        EdgeKindView::IamTrust { .. } => {
            lemma_key_found(entries, "principal"@, 0, 0);
        },
        _ => {},
    }
}

proof fn lemma_findings_prefix(list: Seq<FindingReportView>, f: FindingReportView, n: nat)
    requires
        n <= list.len(),
    ensures
        findings_text(list.push(f), n) == findings_text(list, n),
    decreases n,
{
    if n > 0 {
        lemma_findings_prefix(list, f, (n - 1) as nat);
        assert(list.push(f)[n - 1] == list[n - 1]);
    }
}

proof fn lemma_hops_prefix(edges: Seq<ChainEdgeView>, e: ChainEdgeView, n: nat)
    requires
        n <= edges.len(),
    ensures
        hops_text(edges.push(e), n) == hops_text(edges, n),
    decreases n,
{
    if n > 0 {
        lemma_hops_prefix(edges, e, (n - 1) as nat);
        assert(edges.push(e)[n - 1] == edges[n - 1]);
    }
}

/// The text of a report that has a chain more is longer by the chain, under its number: its severity
/// and score, its rule, why it has the severity, and its first node with all of its hops behind it.
pub proof fn law_texts_show_every_chain(list: Seq<FindingReportView>, f: FindingReportView)
    ensures
        findings_text(Seq::empty(), 0) == Seq::<char>::empty(),
        findings_text(list.push(f), list.len() + 1) == findings_text(list, list.len()) + ("\n["@
            + decimal(list.len() + 1) + "] "@ + f.severity.label + " -- "@ + f.title + " (score "@
            + decimal_signed(f.severity.score) + ")\n  rule: "@ + f.rule_id
            + "\n  why this severity: "@ + f.severity.explanation + "\n  chain ("@ + decimal(
            f.chain_length_hops,
        ) + " hop(s)):\n    "@ + f.nodes[0].id + hops_text(f.edges, f.edges.len()) + "\n"@),
{
    lemma_findings_prefix(list, f, list.len());
    assert(list.push(f)[list.len() as int] == f);
}

/// The text of a chain that has a hop more is longer by the hop: what kind of edge it is, where it
/// leads, and the evidence for it.
pub proof fn law_texts_show_every_hop(edges: Seq<ChainEdgeView>, e: ChainEdgeView)
    ensures
        hops_text(Seq::empty(), 0) == Seq::<char>::empty(),
        hops_text(edges.push(e), edges.len() + 1) == hops_text(edges, edges.len()) + (
        "\n      --["@ + e.kind + "]--> "@ + e.to + "\n          evidence: "@ + e.description
            + " ("@ + e.evidence_file + ", attribute `"@ + e.evidence_attr_path + "`)"@),
{
    lemma_hops_prefix(edges, e, edges.len());
    assert(edges.push(e)[edges.len() as int] == e);
}

proof fn lemma_counts_prefix(list: Seq<(Seq<char>, nat)>, c: (Seq<char>, nat), n: nat)
    requires
        n <= list.len(),
    ensures
        counts_text(list.push(c), n) == counts_text(list, n),
    decreases n,
{
    if n > 0 {
        lemma_counts_prefix(list, c, (n - 1) as nat);
        assert(list.push(c)[n - 1] == list[n - 1]);
    }
}

/// The text of a report begins with what was scanned and how much there is of it. It goes on with the
/// number of chains, the number for each severity and the chains, or says that there are none.
pub proof fn law_texts_show_the_numbers(
    r: ReportView,
    list: Seq<(Seq<char>, nat)>,
    label: Seq<char>,
    n: nat,
)
    ensures
        ({
            let head = "PolicyLens scan: "@ + r.directory + "\n  "@ + decimal(r.summary.node_count)
                + " resource(s), "@ + decimal(r.summary.edge_count) + " edge(s), "@ + decimal(
                r.summary.unresolved_node_count,
            ) + " unresolved attribute(s)\n"@;
            &&& r.summary.total_findings == 0 ==> report_text(r) == head
                + "\nNo cross-resource attack chains found.\n"@
            &&& r.summary.total_findings > 0 ==> report_text(r) == head + "\n"@ + decimal(
                r.summary.total_findings,
            ) + " finding(s):\n"@ + counts_text(
                r.summary.by_severity,
                r.summary.by_severity.len(),
            ) + findings_text(r.findings, r.findings.len())
        }),
        counts_text(Seq::empty(), 0) == Seq::<char>::empty(),
        counts_text(list.push((label, n)), list.len() + 1) == counts_text(list, list.len()) + "  "@
            + label + ": "@ + decimal(n) + "\n"@,
{
    lemma_counts_prefix(list, (label, n), list.len());
    assert(list.push((label, n))[list.len() as int] == (label, n));
}

} // verus!
