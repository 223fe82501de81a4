//! Which rules are valid, and what is said of those that are not.

use crate::laws_matching::takes_turns;
use crate::rule::{
    PathStep,
    Rule,
    RuleLoadError,
    error_fits,
    first_bad_range,
    has_bad_range,
    is_linear,
    ranges_fit,
    required_hops,
};
use vstd::prelude::*;

verus! {

/// Whether no edge step of a rule must be taken more often than it may.
pub open spec fn ranges_hold(rule: Rule) -> bool {
    forall|i: int|
        0 <= i < rule.path@.len() ==> (#[trigger] rule.path@[i] matches PathStep::Edge(step)
            ==> step.edge.min_hops <= step.edge.max_hops)
}

proof fn lemma_turns(path: Seq<PathStep>, i: int)
    requires
        is_linear(path),
        0 <= i < path.len(),
    ensures
        path[i] is Node <==> i % 2 == 0,
    decreases i,
{
    if i > 0 {
        lemma_turns(path, i - 1);
        assert((path[i - 1] is Node) != (path[i - 1 + 1] is Node));
    }
}

proof fn lemma_linear_takes_turns(rule: Rule)
    ensures
        is_linear(rule.path@) <==> takes_turns(rule),
{
    let path = rule.path@;
    if is_linear(path) {
        assert forall|i: int| 0 <= i < path.len() implies ((#[trigger] path[i]) is Node <==> i % 2
            == 0) by {
            lemma_turns(path, i);
        }
        lemma_turns(path, path.len() - 1);
    }
    if takes_turns(rule) {
        assert(path[0] is Node);
        assert(path[path.len() - 1] is Node);
        assert forall|i: int| 0 <= i < path.len() - 1 implies (#[trigger] path[i] is Node) != (
        path[i + 1] is Node) by {
            assert(path[i + 1] is Node <==> (i + 1) % 2 == 0);
        }
    }
}

/// A rule is valid exactly if its nodes and edges take turns from a node to a node, none of its steps
/// must be taken more often than it may, and all of them together may be taken as often as they must.
pub proof fn law_valid_rules(rule: Rule)
    ensures
        rule.is_valid() <==> (takes_turns(rule) && ranges_hold(rule) && required_hops(
            rule.path@,
            rule.path@.len(),
        ) <= rule.max_total_hops),
        is_linear(rule.path@) <==> takes_turns(rule),
{
    lemma_linear_takes_turns(rule);
    lemma_ranges(rule);
}

proof fn lemma_ranges(rule: Rule)
    ensures
        ranges_fit(rule.path@) <==> ranges_hold(rule),
{
    let path = rule.path@;
    if ranges_fit(path) {
        assert forall|i: int| 0 <= i < path.len() implies (#[trigger] path[i] matches PathStep::Edge(
            step,
        ) ==> step.edge.min_hops <= step.edge.max_hops) by {
            assert(!has_bad_range(path[i]));
        }
    }
    if ranges_hold(rule) {
        assert forall|i: int| 0 <= i < path.len() implies !has_bad_range(#[trigger] path[i]) by {}
    }
}

/// One more edge step must be taken as often as it says, one more node step asks for no edge.
pub proof fn law_every_step_needs_its_hops(path: Seq<PathStep>, step: PathStep)
    ensures
        required_hops(Seq::empty(), 0) == 0,
        required_hops(path.push(step), path.len() + 1) == required_hops(path, path.len())
            + match step {
            PathStep::Node(_) => 0,
            PathStep::Edge(e) => e.edge.min_hops as nat,
        },
{
    lemma_hops_prefix(path, step, path.len());
    assert(path.push(step)[path.len() as int] == step);
}

proof fn lemma_hops_prefix(path: Seq<PathStep>, step: PathStep, n: nat)
    requires
        n <= path.len(),
    ensures
        required_hops(path.push(step), n) == required_hops(path, n),
    decreases n,
{
    if n > 0 {
        lemma_hops_prefix(path, step, (n - 1) as nat);
        assert(path.push(step)[n - 1] == path[n - 1]);
    }
}

/// What is said of a rule is true of it, is said of its id, and is the first thing that is wrong with
/// it: that it has no steps, then that it does not begin and end with a node, then that nodes and
/// edges do not take turns, then its first step that must be taken more often than it may, then that
/// its steps must be taken more often than all in all they may. A valid rule has nothing said of it.
pub proof fn law_errors_are_true(rule: Rule, e: RuleLoadError)
    requires
        error_fits(rule, e),
    ensures
        !rule.is_valid(),
        match e {
            RuleLoadError::Yaml { .. } => false,
            RuleLoadError::PathEmpty { id } => id@ == rule.id@ && rule.path@.len() == 0,
            RuleLoadError::PathMustStartAndEndWithNode { id } => id@ == rule.id@
                && rule.path@.len() > 0 && !(rule.path@[0] is Node && rule.path@.last() is Node),
            RuleLoadError::PathMustAlternate { id } => id@ == rule.id@ && rule.path@.len() > 0
                && rule.path@[0] is Node && rule.path@.last() is Node && exists|i: int|
                0 <= i < rule.path@.len() - 1 && (#[trigger] rule.path@[i] is Node) == (
                rule.path@[i + 1] is Node),
            RuleLoadError::InvalidHopRange { id, min, max } => id@ == rule.id@ && takes_turns(rule)
                && min > max && exists|k: int|
                0 <= k < rule.path@.len() && (#[trigger] rule.path@[k] matches PathStep::Edge(step)
                    && step.edge.min_hops == min && step.edge.max_hops == max) && forall|j: int|
                    0 <= j < k ==> (#[trigger] rule.path@[j] matches PathStep::Edge(step)
                        ==> step.edge.min_hops <= step.edge.max_hops),
            RuleLoadError::MaxTotalHopsTooSmall { id, total, min_required } => id@ == rule.id@
                && takes_turns(rule) && ranges_hold(rule) && total == rule.max_total_hops
                && min_required == required_hops(rule.path@, rule.path@.len()) && total
                < min_required,
        },
{
    let path = rule.path@;
    lemma_linear_takes_turns(rule);
    lemma_ranges(rule);
    match e {
        RuleLoadError::PathMustAlternate { .. } => {
            let i = choose|i: int|
                0 <= i < path.len() - 1 && !((#[trigger] path[i] is Node) != (path[i + 1] is Node));
            assert((path[i] is Node) == (path[i + 1] is Node));
        },
        RuleLoadError::InvalidHopRange { min, max, .. } => {
            let k = choose|k: int| #[trigger]
                first_bad_range(path, k) && min == path[k]->Edge_0.edge.min_hops && max
                    == path[k]->Edge_0.edge.max_hops;
            assert(has_bad_range(path[k]));
            assert forall|j: int| 0 <= j < k implies (#[trigger] path[j] matches PathStep::Edge(step)
                ==> step.edge.min_hops <= step.edge.max_hops) by {
                assert(!has_bad_range(path[j]));
            }
            assert(path[k] matches PathStep::Edge(step) && step.edge.min_hops == min);
        },
        _ => {},
    }
}

} // verus!
