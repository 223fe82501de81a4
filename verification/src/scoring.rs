//! How severe a chain is.
//!
//! The score is the base of the rule's severity, less a penalty for every edge beyond the first, plus
//! a bonus where the chain reaches something tagged as sensitive and another where it begins at
//! something that is exposed. Length and bonuses refine the base; they do not override it.

use crate::graph::{GraphView, IacGraph, positions};
use crate::json::JsonView;
use crate::rule::Severity;
use crate::text::{decimal, decimal_signed, plus, signed_text, size_text};
use vstd::prelude::*;

verus! {

/// The severity of a chain.
#[derive(Debug, Clone, Copy, PartialEq, Eq, PartialOrd, Ord, Structural)]
pub enum SeverityLabel {
    Low,
    Medium,
    High,
    Critical,
}

/// The text of a severity.
pub open spec fn label_name(label: SeverityLabel) -> Seq<char> {
    match label {
        SeverityLabel::Low => "LOW"@,
        SeverityLabel::Medium => "MEDIUM"@,
        SeverityLabel::High => "HIGH"@,
        SeverityLabel::Critical => "CRITICAL"@,
    }
}

impl SeverityLabel {
    /// The text of the severity.
    pub fn text(&self) -> (r: &'static str)
        ensures
            r@ == label_name(*self),
    {
        match self {
            SeverityLabel::Low => "LOW",
            SeverityLabel::Medium => "MEDIUM",
            SeverityLabel::High => "HIGH",
            SeverityLabel::Critical => "CRITICAL",
        }
    }
}

/// A score and what it is made of.
#[derive(Debug)]
pub struct ScoreBreakdown {
    pub base: i64,
    pub hop_penalty: i64,
    pub sensitivity_bonus: i64,
    pub exposure_bonus: i64,
    pub total: i64,
    pub label: SeverityLabel,
    /// How the score comes about, in words.
    pub explanation: String,
}

/// The score that a severity begins with.
pub open spec fn base_of(severity: Severity) -> int {
    match severity {
        Severity::Critical => 90,
        Severity::High => 70,
        Severity::Medium => 50,
        Severity::Low => 30,
    }
}

/// The name of a rule's severity.
pub open spec fn severity_name(severity: Severity) -> Seq<char> {
    match severity {
        Severity::Critical => "Critical"@,
        Severity::High => "High"@,
        Severity::Medium => "Medium"@,
        Severity::Low => "Low"@,
    }
}

/// The number of edges of a chain beyond the first.
pub open spec fn extra_hops(edge_count: nat) -> nat {
    if edge_count > 0 {
        (edge_count - 1) as nat
    } else {
        0
    }
}

/// What a chain loses by its length: five points for every edge beyond the first, but no more than
/// twenty.
pub open spec fn penalty_of(edge_count: nat) -> int {
    if extra_hops(edge_count) * 5 < 20 {
        (extra_hops(edge_count) * 5) as int
    } else {
        20
    }
}

/// What a chain gains where it reaches something tagged as sensitive.
pub open spec fn sensitivity_of(sensitive: bool) -> int {
    if sensitive {
        10
    } else {
        0
    }
}

/// What a chain gains where it begins at something that is exposed.
pub open spec fn exposure_of(exposed: bool) -> int {
    if exposed {
        8
    } else {
        0
    }
}

/// A number, brought into the range from zero to a hundred.
pub open spec fn clamped(n: int) -> int {
    if n < 0 {
        0
    } else if n > 100 {
        100
    } else {
        n
    }
}

/// The score of a chain.
pub open spec fn score_of(
    severity: Severity,
    edge_count: nat,
    sensitive: bool,
    exposed: bool,
) -> int {
    clamped(
        base_of(severity) - penalty_of(edge_count) + sensitivity_of(sensitive) + exposure_of(
            exposed,
        ),
    )
}

/// The severity that a score stands for.
pub open spec fn label_of(score: int) -> SeverityLabel {
    if score >= 85 {
        SeverityLabel::Critical
    } else if score >= 65 {
        SeverityLabel::High
    } else if score >= 40 {
        SeverityLabel::Medium
    } else {
        SeverityLabel::Low
    }
}

/// Whether a fact about a node holds.
pub open spec fn fact_holds(attrs: JsonView, key: Seq<char>) -> bool {
    match attrs.get("_derived"@) {
        Some(derived) => match derived.get(key) {
            Some(v) => v.as_bool() == Some(true),
            None => false,
        },
        None => false,
    }
}

/// Whether a node is directly exposed.
pub open spec fn is_exposed(attrs: JsonView) -> bool {
    fact_holds(attrs, "public"@) || fact_holds(attrs, "publicly_invokable"@) || fact_holds(
        attrs,
        "open_ingress"@,
    )
}

/// Whether any of some nodes is tagged as sensitive.
pub open spec fn any_sensitive(g: GraphView, nodes: Seq<int>) -> bool {
    exists|i: int|
        0 <= i < nodes.len() && fact_holds(g.nodes[#[trigger] nodes[i]].attrs, "sensitive"@)
}

/// Whether any of some nodes is directly exposed.
pub open spec fn any_exposed(g: GraphView, nodes: Seq<int>) -> bool {
    exists|i: int| 0 <= i < nodes.len() && is_exposed(g.nodes[#[trigger] nodes[i]].attrs)
}

/// How the score of a chain comes about, in words.
pub open spec fn explanation_of(
    severity: Severity,
    edge_count: nat,
    sensitive: bool,
    exposed: bool,
) -> Seq<char> {
    let total = score_of(severity, edge_count, sensitive, exposed);
    "base "@ + decimal_signed(base_of(severity)) + " ("@ + severity_name(severity)
        + ") − hop penalty "@ + decimal_signed(penalty_of(edge_count)) + " ("@ + decimal(
        extra_hops(edge_count),
    ) + " extra hop(s) beyond the first, capped at 20) + sensitivity bonus "@ + decimal_signed(
        sensitivity_of(sensitive),
    ) + " ("@ + (if sensitive {
        "chain reaches a resource tagged sensitive"@
    } else {
        "no sensitive-tagged resource in chain"@
    }) + ") + exposure bonus "@ + decimal_signed(exposure_of(exposed)) + " ("@ + (if exposed {
        "chain includes a publicly-reachable entry point"@
    } else {
        "no publicly-reachable entry point in chain"@
    }) + ") = "@ + decimal_signed(total) + " -> "@ + label_name(label_of(total))
}

/// The score that a severity begins with.
fn base_score(severity: Severity) -> (r: i64)
    ensures
        r == base_of(severity),
{
    match severity {
        Severity::Critical => 90,
        Severity::High => 70,
        Severity::Medium => 50,
        Severity::Low => 30,
    }
}

/// The name of a rule's severity.
fn severity_text(severity: Severity) -> (r: &'static str)
    ensures
        r@ == severity_name(severity),
{
    match severity {
        Severity::Critical => "Critical",
        Severity::High => "High",
        Severity::Medium => "Medium",
        Severity::Low => "Low",
    }
}

/// The severity that a score stands for.
pub fn label_for(score: i64) -> (r: SeverityLabel)
    ensures
        r == label_of(score as int),
{
    if score >= 85 {
        SeverityLabel::Critical
    } else if score >= 65 {
        SeverityLabel::High
    } else if score >= 40 {
        SeverityLabel::Medium
    } else {
        SeverityLabel::Low
    }
}

/// Whether a fact about a node holds.
fn derived_bool(graph: &IacGraph, ix: usize, key: &str) -> (r: bool)
    requires
        ix < graph@.nodes.len(),
    ensures
        r == fact_holds(graph@.nodes[ix as int].attrs, key@),
{
    match graph.node_by_index(ix).attrs.get("_derived") {
        Some(derived) => match derived.get(key) {
            Some(v) => match v.as_bool() {
                Some(b) => b,
                None => false,
            },
            None => false,
        },
        None => false,
    }
}

/// The score of a chain with these nodes and as many edges.
pub fn score_finding(
    graph: &IacGraph,
    severity_base: Severity,
    node_ixs: &Vec<usize>,
    edge_count: usize,
) -> (r: ScoreBreakdown)
    requires
        forall|i: int| 0 <= i < node_ixs@.len() ==> #[trigger] node_ixs@[i] < graph@.nodes.len(),
    ensures
        ({
            let sensitive = any_sensitive(graph@, positions(node_ixs@));
            let exposed = any_exposed(graph@, positions(node_ixs@));
            &&& r.base == base_of(severity_base)
            &&& r.hop_penalty == penalty_of(edge_count as nat)
            &&& r.sensitivity_bonus == sensitivity_of(sensitive)
            &&& r.exposure_bonus == exposure_of(exposed)
            &&& r.total == score_of(severity_base, edge_count as nat, sensitive, exposed)
            &&& r.label == label_of(r.total as int)
            &&& r.explanation@ == explanation_of(
                severity_base,
                edge_count as nat,
                sensitive,
                exposed,
            )
        }),
{
    let ghost g = graph@;
    let ghost nodes = positions(node_ixs@);
    let mut sensitive = false;
    let mut exposed = false;
    let mut i: usize = 0;
    while i < node_ixs.len()
        invariant
            g == graph@,
            nodes == positions(node_ixs@),
            forall|k: int| 0 <= k < node_ixs@.len() ==> #[trigger] node_ixs@[k] < g.nodes.len(),
            i <= node_ixs@.len(),
            sensitive == (exists|k: int|
                0 <= k < i && fact_holds(g.nodes[#[trigger] nodes[k]].attrs, "sensitive"@)),
            exposed == (exists|k: int|
                0 <= k < i && is_exposed(g.nodes[#[trigger] nodes[k]].attrs)),
        decreases node_ixs@.len() - i,
    {
        let ix: usize = node_ixs[i];
        assert(nodes[i as int] == ix);
        if derived_bool(graph, ix, "sensitive") {
            sensitive = true;
        }
        if derived_bool(graph, ix, "public") || derived_bool(graph, ix, "publicly_invokable")
            || derived_bool(graph, ix, "open_ingress") {
            exposed = true;
        }
        i = i + 1;
    }
    let base: i64 = base_score(severity_base);
    let extra: usize = edge_count.saturating_sub(1);
    let hop_penalty: i64 = if extra < 4 {
        extra as i64 * 5
    } else {
        20
    };
    let sensitivity_bonus: i64 = if sensitive {
        10
    } else {
        0
    };
    let exposure_bonus: i64 = if exposed {
        8
    } else {
        0
    };
    let sum: i64 = base - hop_penalty + sensitivity_bonus + exposure_bonus;
    let total: i64 = if sum > 100 {
        100
    } else {
        sum
    };
    let label = label_for(total);
    let mut out = plus("base ", signed_text(base).as_str());
    out = plus(out.as_str(), " (");
    out = plus(out.as_str(), severity_text(severity_base));
    out = plus(out.as_str(), ") − hop penalty ");
    out = plus(out.as_str(), signed_text(hop_penalty).as_str());
    out = plus(out.as_str(), " (");
    out = plus(out.as_str(), size_text(extra).as_str());
    out = plus(out.as_str(), " extra hop(s) beyond the first, capped at 20) + sensitivity bonus ");
    out = plus(out.as_str(), signed_text(sensitivity_bonus).as_str());
    out = plus(out.as_str(), " (");
    out = plus(
        out.as_str(),
        if sensitive {
            "chain reaches a resource tagged sensitive"
        } else {
            "no sensitive-tagged resource in chain"
        },
    );
    out = plus(out.as_str(), ") + exposure bonus ");
    out = plus(out.as_str(), signed_text(exposure_bonus).as_str());
    out = plus(out.as_str(), " (");
    out = plus(
        out.as_str(),
        if exposed {
            "chain includes a publicly-reachable entry point"
        } else {
            "no publicly-reachable entry point in chain"
        },
    );
    out = plus(out.as_str(), ") = ");
    out = plus(out.as_str(), signed_text(total).as_str());
    out = plus(out.as_str(), " -> ");
    out = plus(out.as_str(), label.text());
    ScoreBreakdown {
        base,
        hop_penalty,
        sensitivity_bonus,
        exposure_bonus,
        total,
        label,
        explanation: out,
    }
}

/// A score lies between zero and a hundred.
pub proof fn law_score_is_in_range(
    severity: Severity,
    edge_count: nat,
    sensitive: bool,
    exposed: bool,
)
    ensures
        0 <= score_of(severity, edge_count, sensitive, exposed) <= 100,
{
}

/// Of two chains that are alike but for their length, the longer one never scores higher.
pub proof fn law_longer_chains_score_no_higher(
    severity: Severity,
    shorter: nat,
    longer: nat,
    sensitive: bool,
    exposed: bool,
)
    requires
        shorter <= longer,
    ensures
        score_of(severity, longer, sensitive, exposed) <= score_of(
            severity,
            shorter,
            sensitive,
            exposed,
        ),
{
}

/// Length takes no more than twenty points off a score.
pub proof fn law_length_costs_at_most_twenty(
    severity: Severity,
    edge_count: nat,
    sensitive: bool,
    exposed: bool,
)
    ensures
        score_of(severity, edge_count, sensitive, exposed) >= score_of(
            severity,
            1,
            sensitive,
            exposed,
        ) - 20,
{
}

/// To reach something sensitive, or to begin at something exposed, never lowers a score.
pub proof fn law_bonuses_never_lower(severity: Severity, edge_count: nat, sensitive: bool, exposed: bool)
    ensures
        score_of(severity, edge_count, sensitive, exposed) <= score_of(
            severity,
            edge_count,
            true,
            exposed,
        ),
        score_of(severity, edge_count, sensitive, exposed) <= score_of(
            severity,
            edge_count,
            sensitive,
            true,
        ),
{
}

/// A chain of a rule never scores as high as one of a rule that is two steps more severe, whatever
/// the lengths and the bonuses of the two: low severity never reaches high, nor medium critical.
pub proof fn law_two_steps_are_never_made_up(
    lower: Severity,
    higher: Severity,
    edge_count: nat,
    sensitive: bool,
    exposed: bool,
    other_edge_count: nat,
    other_sensitive: bool,
    other_exposed: bool,
)
    requires
        lower is Low && (higher is High || higher is Critical) || lower is Medium
            && higher is Critical,
    ensures
        score_of(lower, edge_count, sensitive, exposed) < score_of(
            higher,
            other_edge_count,
            other_sensitive,
            other_exposed,
        ),
{
}

/// A higher score never stands for a lower severity.
pub proof fn law_labels_follow_scores(lower: int, higher: int)
    requires
        lower <= higher,
    ensures
        label_of(higher) is Low ==> label_of(lower) is Low,
        label_of(higher) is Medium ==> label_of(lower) is Low || label_of(lower) is Medium,
        label_of(lower) is Critical ==> label_of(higher) is Critical,
        label_of(lower) is High ==> label_of(higher) is High || label_of(higher) is Critical,
{
}

} // verus!
