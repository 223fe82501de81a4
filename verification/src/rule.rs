//! Rules: linear patterns of nodes and edges, and what makes one valid.

use crate::text::{plus, size_text, decimal};
use vstd::prelude::*;

verus! {

/// How dangerous a kind of chain is in the abstract.
#[derive(Debug, Clone, Copy, PartialEq, Eq, PartialOrd, Ord, Structural)]
pub enum Severity {
    Low,
    Medium,
    High,
    Critical,
}

/// What a node of a chain has to be.
#[derive(Debug, Clone)]
pub struct NodeMatcher {
    /// The name of a kind of resource, or the type of a resource that has no kind of its own. Any
    /// kind will do where there is none.
    pub kind: Option<String>,
    /// A condition on the node's attributes, with the facts about it under `_derived`.
    pub where_clause: Option<String>,
    /// A label for the node.
    pub bind: Option<String>,
}

/// What an edge of a chain has to be, and how many of them may follow one another.
#[derive(Debug, Clone)]
pub struct EdgeMatcher {
    /// The name of a kind of edge.
    pub kind: String,
    /// A condition on the edge's fields, with the facts about it under `_derived`.
    pub where_clause: Option<String>,
    pub min_hops: usize,
    pub max_hops: usize,
}

/// A step of a path that is a node.
#[derive(Debug, Clone)]
pub struct NodeStep {
    pub node: NodeMatcher,
}

/// A step of a path that is an edge.
#[derive(Debug, Clone)]
pub struct EdgeStep {
    pub edge: EdgeMatcher,
}

/// A step of a path.
#[derive(Debug, Clone)]
pub enum PathStep {
    Node(NodeStep),
    Edge(EdgeStep),
}

/// A pattern of chains.
#[derive(Debug, Clone)]
pub struct Rule {
    pub id: String,
    pub title: String,
    pub description: String,
    /// The severity of a chain before what makes it shorter, longer or more exposed is counted.
    pub severity_base: Severity,
    /// The most edges that a chain may have, whatever its steps allow.
    pub max_total_hops: usize,
    pub path: Vec<PathStep>,
}

/// Why a rule is not valid.
#[derive(Debug)]
pub enum RuleLoadError {
    /// The text is not that of a rule.
    Yaml { message: String },
    PathMustStartAndEndWithNode { id: String },
    PathMustAlternate { id: String },
    PathEmpty { id: String },
    InvalidHopRange { id: String, min: usize, max: usize },
    MaxTotalHopsTooSmall { id: String, total: usize, min_required: usize },
}

/// The number of hops that a step takes where its rule says nothing.
pub fn one() -> (r: usize)
    ensures
        r == 1,
{
    1
}

/// Whether a path begins and ends with a node.
pub open spec fn ends_in_nodes(path: Seq<PathStep>) -> bool {
    path.len() > 0 && path[0] is Node && path.last() is Node
}

/// Whether nodes and edges of a path take turns.
pub open spec fn alternates(path: Seq<PathStep>) -> bool {
    forall|i: int| 0 <= i < path.len() - 1 ==> (#[trigger] path[i] is Node) != (path[i + 1] is Node)
}

/// Whether a path is a node, or a node, an edge, a node, and so on.
pub open spec fn is_linear(path: Seq<PathStep>) -> bool {
    ends_in_nodes(path) && alternates(path)
}

/// Whether a step is an edge that must be taken more often than it may.
pub open spec fn has_bad_range(step: PathStep) -> bool {
    step matches PathStep::Edge(e) && e.edge.min_hops > e.edge.max_hops
}

/// The least number of edges that a step stands for.
pub open spec fn least_hops(step: PathStep) -> nat {
    match step {
        PathStep::Node(_) => 0,
        PathStep::Edge(e) => e.edge.min_hops as nat,
    }
}

/// The least number of edges that the first `n` steps stand for.
pub open spec fn required_hops(path: Seq<PathStep>, n: nat) -> nat
    decreases n,
{
    if n == 0 || n > path.len() {
        0
    } else {
        required_hops(path, (n - 1) as nat) + least_hops(path[n - 1])
    }
}

/// Whether step `k` is the first that must be taken more often than it may.
pub open spec fn first_bad_range(path: Seq<PathStep>, k: int) -> bool {
    &&& 0 <= k < path.len()
    &&& has_bad_range(path[k])
    &&& forall|j: int| 0 <= j < k ==> !has_bad_range(#[trigger] path[j])
}

/// Whether no step must be taken more often than it may.
pub open spec fn ranges_fit(path: Seq<PathStep>) -> bool {
    forall|j: int| 0 <= j < path.len() ==> !has_bad_range(#[trigger] path[j])
}

/// Whether the least number of edges can be counted, up to the first step that must be taken more
/// often than it may.
pub open spec fn hops_countable(path: Seq<PathStep>) -> bool {
    forall|n: nat|
        n <= path.len() && (forall|j: int| 0 <= j < n ==> !has_bad_range(#[trigger] path[j]))
            ==> #[trigger] required_hops(path, n) <= usize::MAX
}

impl Rule {
    /// Whether the rule is valid: its path is linear, and its bounds can be met.
    pub open spec fn is_valid(self) -> bool {
        &&& is_linear(self.path@)
        &&& ranges_fit(self.path@)
        &&& required_hops(self.path@, self.path@.len()) <= self.max_total_hops
    }
}

/// Whether an error is the one that is to be reported of a rule.
pub open spec fn error_fits(rule: Rule, e: RuleLoadError) -> bool {
    let path = rule.path@;
    match e {
        RuleLoadError::Yaml { .. } => false,
        RuleLoadError::PathEmpty { id } => id@ == rule.id@ && path.len() == 0,
        RuleLoadError::PathMustStartAndEndWithNode { id } => id@ == rule.id@ && path.len() > 0
            && !ends_in_nodes(path),
        RuleLoadError::PathMustAlternate { id } => id@ == rule.id@ && ends_in_nodes(path)
            && !alternates(path),
        RuleLoadError::InvalidHopRange { id, min, max } => id@ == rule.id@ && is_linear(path)
            && exists|k: int| #[trigger]
            first_bad_range(path, k) && min == path[k]->Edge_0.edge.min_hops && max
                == path[k]->Edge_0.edge.max_hops,
        RuleLoadError::MaxTotalHopsTooSmall { id, total, min_required } => id@ == rule.id@
            && is_linear(path) && ranges_fit(path) && total == rule.max_total_hops && min_required
            == required_hops(path, path.len()) && min_required > total,
    }
}

/// Whether a step is a node.
fn is_node(step: &PathStep) -> (r: bool)
    ensures
        r == (*step is Node),
{
    matches!(step, PathStep::Node(_))
}

/// Whether nodes and edges of a path take turns.
fn steps_alternate(path: &Vec<PathStep>) -> (r: bool)
    ensures
        r == alternates(path@),
{
    let mut i: usize = 1;
    while i < path.len()
        invariant
            1 <= i,
            forall|k: int|
                0 <= k < i - 1 && k < path@.len() - 1 ==> (#[trigger] path@[k] is Node) != (path@[k
                    + 1] is Node),
        decreases path@.len() - i,
    {
        if is_node(&path[i - 1]) == is_node(&path[i]) {
            assert(!((path@[i - 1] is Node) != (path@[i - 1 + 1] is Node)));
            return false;
        }
        i = i + 1;
    }
    true
}

/// Finds out whether a rule is valid, and if not, why.
pub fn validate(rule: &Rule) -> (r: Result<(), RuleLoadError>)
    requires
        is_linear(rule.path@) ==> hops_countable(rule.path@),
    ensures
        r is Ok <==> rule.is_valid(),
        r matches Err(e) ==> error_fits(*rule, e),
{
    let id: String = rule.id.clone();
    let path = &rule.path;
    if path.len() == 0 {
        return Err(RuleLoadError::PathEmpty { id });
    }
    if !is_node(&path[0]) || !is_node(&path[path.len() - 1]) {
        return Err(RuleLoadError::PathMustStartAndEndWithNode { id });
    }
    if !steps_alternate(path) {
        return Err(RuleLoadError::PathMustAlternate { id });
    }
    let mut min_required: usize = 0;
    let mut i: usize = 0;
    while i < path.len()
        invariant
            i <= path@.len(),
            path@ == rule.path@,
            is_linear(path@),
            hops_countable(path@),
            id@ == rule.id@,
            forall|k: int| 0 <= k < i ==> !has_bad_range(#[trigger] path@[k]),
            min_required == required_hops(path@, i as nat),
        decreases path@.len() - i,
    {
        if let PathStep::Edge(step) = &path[i] {
            if step.edge.min_hops > step.edge.max_hops {
                assert(first_bad_range(path@, i as int));
                return Err(
                    RuleLoadError::InvalidHopRange {
                        id,
                        min: step.edge.min_hops,
                        max: step.edge.max_hops,
                    },
                );
            }
            assert(required_hops(path@, (i + 1) as nat) <= usize::MAX);
            min_required = min_required + step.edge.min_hops;
        }
        i = i + 1;
    }
    if min_required > rule.max_total_hops {
        return Err(
            RuleLoadError::MaxTotalHopsTooSmall { id, total: rule.max_total_hops, min_required },
        );
    }
    Ok(())
}

/// Whether [`validate`] can be given a rule.
pub fn can_validate(rule: &Rule) -> (r: bool)
    ensures
        r == (is_linear(rule.path@) ==> hops_countable(rule.path@)),
{
    let path = &rule.path;
    if path.len() == 0 || !is_node(&path[0]) || !is_node(&path[path.len() - 1])
        || !steps_alternate(path) {
        return true;
    }
    let mut total: usize = 0;
    let mut i: usize = 0;
    assert forall|n: nat| n <= 0 implies #[trigger] required_hops(path@, n) <= usize::MAX by {}
    while i < path.len()
        invariant
            i <= path@.len(),
            path@ == rule.path@,
            is_linear(path@),
            forall|k: int| 0 <= k < i ==> !has_bad_range(#[trigger] path@[k]),
            total == required_hops(path@, i as nat),
            forall|n: nat| n <= i ==> #[trigger] required_hops(path@, n) <= usize::MAX,
        decreases path@.len() - i,
    {
        if let PathStep::Edge(step) = &path[i] {
            if step.edge.min_hops > step.edge.max_hops {
                assert(has_bad_range(path@[i as int]));
                return true;
            }
            if step.edge.min_hops > usize::MAX - total {
                assert(required_hops(path@, (i + 1) as nat) > usize::MAX);
                return false;
            }
            total = total + step.edge.min_hops;
        }
        i = i + 1;
    }
    true
}

/// Rules that are all valid.
#[derive(Debug)]
pub struct RuleSet {
    pub rules: Vec<Rule>,
}

impl RuleSet {
    /// Whether every rule is valid.
    pub open spec fn wf(self) -> bool {
        forall|i: int| 0 <= i < self.rules@.len() ==> (#[trigger] self.rules@[i]).is_valid()
    }

    /// No rules.
    pub fn new() -> (r: RuleSet)
        ensures
            r.wf(),
            r.rules@ == Seq::<Rule>::empty(),
    {
        RuleSet { rules: Vec::new() }
    }

    /// Takes what came of reading the text of a rule: the rule, if it is valid, or why there is
    /// none.
    pub fn parse_one(parsed: Result<Rule, String>) -> (r: Result<Rule, RuleLoadError>)
        requires
            parsed matches Ok(rule) ==> is_linear(rule.path@) ==> hops_countable(rule.path@),
        ensures
            match parsed {
                Ok(rule) => match r {
                    Ok(kept) => kept == rule && rule.is_valid(),
                    Err(e) => !rule.is_valid() && error_fits(rule, e),
                },
                Err(text) => r matches Err(RuleLoadError::Yaml { message }) && message == text,
            },
    {
        match parsed {
            Ok(rule) => match validate(&rule) {
                Ok(_) => Ok(rule),
                Err(e) => Err(e),
            },
            Err(message) => Err(RuleLoadError::Yaml { message }),
        }
    }

    /// Adds a valid rule behind the others.
    pub fn insert(&mut self, rule: Rule)
        requires
            old(self).wf(),
            rule.is_valid(),
        ensures
            final(self).wf(),
            final(self).rules@ == old(self).rules@.push(rule),
    {
        self.rules.push(rule);
    }
}

impl RuleLoadError {
    /// What is wrong, in words.
    pub fn message(&self) -> (r: String)
        ensures
            match *self {
                RuleLoadError::Yaml { message } => r@ == "failed to parse rule YAML: "@ + message@,
                RuleLoadError::PathMustStartAndEndWithNode { id } => r@ == "rule `"@ + id@
                    + "`: path must start and end with a `node` step"@,
                RuleLoadError::PathMustAlternate { id } => r@ == "rule `"@ + id@
                    + "`: path steps must strictly alternate node/edge/node/edge/..."@,
                RuleLoadError::PathEmpty { id } => r@ == "rule `"@ + id@
                    + "`: path must contain at least one node step"@,
                RuleLoadError::InvalidHopRange { id, min, max } => r@ == "rule `"@ + id@
                    + "`: edge step has min_hops ("@ + decimal(min as nat) + ") > max_hops ("@
                    + decimal(max as nat) + ")"@,
                RuleLoadError::MaxTotalHopsTooSmall { id, total, min_required } => r@ == "rule `"@
                    + id@ + "`: max_total_hops ("@ + decimal(total as nat)
                    + ") is smaller than the path's own minimum hop count ("@ + decimal(
                    min_required as nat,
                ) + ") -- this rule could never match"@,
            },
    {
        match self {
            RuleLoadError::Yaml { message } => {
                plus("failed to parse rule YAML: ", message.as_str())
            },
            RuleLoadError::PathMustStartAndEndWithNode { id } => {
                plus(
                    plus("rule `", id.as_str()).as_str(),
                    "`: path must start and end with a `node` step",
                )
            },
            RuleLoadError::PathMustAlternate { id } => {
                plus(
                    plus("rule `", id.as_str()).as_str(),
                    "`: path steps must strictly alternate node/edge/node/edge/...",
                )
            },
            RuleLoadError::PathEmpty { id } => {
                plus(
                    plus("rule `", id.as_str()).as_str(),
                    "`: path must contain at least one node step",
                )
            },
            RuleLoadError::InvalidHopRange { id, min, max } => {
                let mut out = plus("rule `", id.as_str());
                out = plus(out.as_str(), "`: edge step has min_hops (");
                out = plus(out.as_str(), size_text(*min).as_str());
                out = plus(out.as_str(), ") > max_hops (");
                out = plus(out.as_str(), size_text(*max).as_str());
                plus(out.as_str(), ")")
            },
            RuleLoadError::MaxTotalHopsTooSmall { id, total, min_required } => {
                let mut out = plus("rule `", id.as_str());
                out = plus(out.as_str(), "`: max_total_hops (");
                out = plus(out.as_str(), size_text(*total).as_str());
                out = plus(
                    out.as_str(),
                    ") is smaller than the path's own minimum hop count (",
                );
                out = plus(out.as_str(), size_text(*min_required).as_str());
                plus(out.as_str(), ") -- this rule could never match")
            },
        }
    }
}

} // verus!
