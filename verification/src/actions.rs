//! What the actions of a grant amount to, by their names.

use crate::json::{Json, JsonView, json_entries, lemma_json_model};
use crate::rendering::{lowercase, to_lowercase};
use crate::text::{contains, ends_with, occurs, same_text, texts};
use crate::types::{EdgeKind, EdgeKindView};
use vstd::prelude::*;

verus! {

/// The substrings of an action's name that mark it as one that changes its target.
pub const WRITE_ACTION_MARKERS: [&'static str; 6] = [
    "Put",
    "Delete",
    "Write",
    "Create",
    "Update",
    "Upload",
];

/// The actions, in lower case, by which a principal can change what a role or a policy permits.
pub const IAM_ESCALATION_ACTIONS: [&'static str; 9] = [
    "iam:putrolepolicy",
    "iam:attachrolepolicy",
    "iam:createpolicyversion",
    "iam:setdefaultpolicyversion",
    "iam:attachuserpolicy",
    "iam:attachgrouppolicy",
    "iam:addusertogroup",
    "iam:updateassumerolepolicy",
    "iam:passrole",
];

/// Whether an action changes its target: it is `*`, or its name holds a marker of writing.
pub open spec fn is_write(action: Seq<char>) -> bool {
    ||| action == "*"@
    ||| occurs(action, "Put"@)
    ||| occurs(action, "Delete"@)
    ||| occurs(action, "Write"@)
    ||| occurs(action, "Create"@)
    ||| occurs(action, "Update"@)
    ||| occurs(action, "Upload"@)
}

/// Whether an action stands for all of them, or for all of one service.
pub open spec fn is_wildcard(action: Seq<char>) -> bool {
    action == "*"@ || ":*"@.is_suffix_of(action)
}

/// Whether an action, whatever the case of its letters, changes what a role or a policy permits.
pub open spec fn is_escalation(action: Seq<char>) -> bool {
    let lower = lowercase(action);
    ||| lower == "*"@
    ||| lower == "iam:*"@
    ||| lower == "iam:putrolepolicy"@
    ||| lower == "iam:attachrolepolicy"@
    ||| lower == "iam:createpolicyversion"@
    ||| lower == "iam:setdefaultpolicyversion"@
    ||| lower == "iam:attachuserpolicy"@
    ||| lower == "iam:attachgrouppolicy"@
    ||| lower == "iam:addusertogroup"@
    ||| lower == "iam:updateassumerolepolicy"@
    ||| lower == "iam:passrole"@
}

/// Whether any of some actions changes its target.
pub open spec fn grants_write(actions: Seq<Seq<char>>) -> bool {
    exists|i: int| 0 <= i < actions.len() && is_write(#[trigger] actions[i])
}

/// Whether any of some actions stands for all of them, or for all of one service.
pub open spec fn grants_wildcard(actions: Seq<Seq<char>>) -> bool {
    exists|i: int| 0 <= i < actions.len() && is_wildcard(#[trigger] actions[i])
}

/// Whether any of some actions changes what a role or a policy permits.
pub open spec fn grants_escalation(actions: Seq<Seq<char>>) -> bool {
    exists|i: int| 0 <= i < actions.len() && is_escalation(#[trigger] actions[i])
}

/// The facts about an edge: those about its actions, where it is a grant, and else none.
pub open spec fn edge_facts(kind: EdgeKindView) -> JsonView {
    match kind {
        EdgeKindView::IamGrants { actions, .. } => JsonView::Object(
            seq![
                ("grants_iam_escalation"@, JsonView::Bool(grants_escalation(actions))),
                ("grants_wildcard"@, JsonView::Bool(grants_wildcard(actions))),
                ("grants_write"@, JsonView::Bool(grants_write(actions))),
            ],
        ),
        _ => JsonView::Object(Seq::empty()),
    }
}

/// Whether an action changes its target.
fn action_is_write(action: &str) -> (r: bool)
    ensures
        r == is_write(action@),
{
    if same_text(action, "*") {
        return true;
    }
    let mut i: usize = 0;
    while i < WRITE_ACTION_MARKERS.len()
        invariant
            i <= 6,
            WRITE_ACTION_MARKERS@.len() == 6,
            action@ != "*"@,
            forall|k: int| 0 <= k < i ==> !occurs(action@, (#[trigger] WRITE_ACTION_MARKERS@[k])@),
        decreases 6 - i,
    {
        if contains(action, WRITE_ACTION_MARKERS[i]) {
            return true;
        }
        i = i + 1;
    }
    proof {
        assert(WRITE_ACTION_MARKERS@[0]@ == "Put"@);
        assert(WRITE_ACTION_MARKERS@[1]@ == "Delete"@);
        assert(WRITE_ACTION_MARKERS@[2]@ == "Write"@);
        assert(WRITE_ACTION_MARKERS@[3]@ == "Create"@);
        assert(WRITE_ACTION_MARKERS@[4]@ == "Update"@);
        assert(WRITE_ACTION_MARKERS@[5]@ == "Upload"@);
    }
    false
}

/// Whether an action stands for all of them, or for all of one service.
fn action_is_wildcard(action: &str) -> (r: bool)
    ensures
        r == is_wildcard(action@),
{
    same_text(action, "*") || ends_with(action, ":*")
}

/// Whether an action changes what a role or a policy permits.
fn action_is_escalation(action: &str) -> (r: bool)
    ensures
        r == is_escalation(action@),
{
    let lower: String = to_lowercase(action);
    if same_text(lower.as_str(), "*") || same_text(lower.as_str(), "iam:*") {
        return true;
    }
    let mut i: usize = 0;
    while i < IAM_ESCALATION_ACTIONS.len()
        invariant
            i <= 9,
            IAM_ESCALATION_ACTIONS@.len() == 9,
            lower@ == lowercase(action@),
            lower@ != "*"@,
            lower@ != "iam:*"@,
            forall|k: int| 0 <= k < i ==> lower@ != (#[trigger] IAM_ESCALATION_ACTIONS@[k])@,
        decreases 9 - i,
    {
        if same_text(lower.as_str(), IAM_ESCALATION_ACTIONS[i]) {
            return true;
        }
        i = i + 1;
    }
    proof {
        assert(IAM_ESCALATION_ACTIONS@[0]@ == "iam:putrolepolicy"@);
        assert(IAM_ESCALATION_ACTIONS@[1]@ == "iam:attachrolepolicy"@);
        assert(IAM_ESCALATION_ACTIONS@[2]@ == "iam:createpolicyversion"@);
        assert(IAM_ESCALATION_ACTIONS@[3]@ == "iam:setdefaultpolicyversion"@);
        assert(IAM_ESCALATION_ACTIONS@[4]@ == "iam:attachuserpolicy"@);
        assert(IAM_ESCALATION_ACTIONS@[5]@ == "iam:attachgrouppolicy"@);
        assert(IAM_ESCALATION_ACTIONS@[6]@ == "iam:addusertogroup"@);
        assert(IAM_ESCALATION_ACTIONS@[7]@ == "iam:updateassumerolepolicy"@);
        assert(IAM_ESCALATION_ACTIONS@[8]@ == "iam:passrole"@);
    }
    false
}

/// The facts about an edge: those about its actions, where it is a grant, and else none.
pub fn edge_derived_facts(kind: &EdgeKind) -> (r: Json)
    ensures
        r@ == edge_facts(kind@),
{
    broadcast use lemma_json_model;

    let mut entries: Vec<(String, Json)> = Vec::new();
    if let EdgeKind::IamGrants { actions, .. } = kind {
        let ghost views = texts(actions@);
        let mut write = false;
        let mut wildcard = false;
        let mut escalation = false;
        let mut i: usize = 0;
        while i < actions.len()
            invariant
                i <= actions@.len(),
                views == texts(actions@),
                write == (exists|k: int| 0 <= k < i && is_write(#[trigger] views[k])),
                wildcard == (exists|k: int| 0 <= k < i && is_wildcard(#[trigger] views[k])),
                escalation == (exists|k: int| 0 <= k < i && is_escalation(#[trigger] views[k])),
            decreases actions@.len() - i,
        {
            let action = actions[i].as_str();
            assert(views[i as int] == action@);
            write = action_is_write(action) || write;
            wildcard = action_is_wildcard(action) || wildcard;
            escalation = action_is_escalation(action) || escalation;
            i = i + 1;
        }
        entries.push(("grants_iam_escalation".to_string(), Json::Bool(escalation)));
        entries.push(("grants_wildcard".to_string(), Json::Bool(wildcard)));
        entries.push(("grants_write".to_string(), Json::Bool(write)));
    }
    assert(json_entries(entries@) =~= edge_facts(kind@)->Object_0);
    Json::Object(entries)
}

} // verus!
