//! What policies grant: which edges for grants a classified graph has, in terms of the statements and
//! references that it has before it is classified.

use crate::classify::{classified, law_facts_keep_edges, semantic_links};
use crate::facts::{referenced, statements};
use crate::grants::{
    attached_role,
    attachments_links,
    behind_statement,
    debug_list,
    grant_link,
    grant_links,
    grant_targets,
    holder_links,
    is_grant,
    is_indexed,
    is_loose,
    is_named,
    is_named_at,
    is_precise,
    law_other_paths_tell_no_statement,
    law_references_are_granted,
    law_statement_number_is_read_back,
    law_targets_are_resources,
    leads_to_resource,
    lemma_begins_with_resource,
    loose_targets,
    names_as_resource,
    policy_links,
    precise_targets,
    resource_match_of,
    statement_index,
    statement_links,
    statements_links,
    string_items,
    strings_of,
    within_statement,
    without_mark,
};
use crate::graph::{GraphView, LinkView};
use crate::json::JsonView;
use crate::laws_facts::{is_reference, lemma_referenced, refers_to};
use crate::laws_reach::lemma_other_kinds;
use crate::rendering::debug_quoted;
use crate::text::{decimal, first_of, joined, lemma_first_from, occurs, occurs_at};
use crate::types::{EdgeKindView, ResourceKindView};
use vstd::prelude::*;

verus! {

/// Whether a text is what a value gives as a text, or among the texts of a list.
pub open spec fn gives_text(v: Option<JsonView>, s: Seq<char>) -> bool {
    match v {
        Some(JsonView::Array(items)) => items.contains(JsonView::String(s)),
        Some(other) => other == JsonView::String(s),
        None => false,
    }
}

proof fn lemma_string_items(items: Seq<JsonView>, n: nat, s: Seq<char>)
    requires
        n <= items.len(),
    ensures
        string_items(items, n).contains(s) <==> items.take(n as int).contains(JsonView::String(s)),
    decreases n,
{
    if n > 0 {
        lemma_string_items(items, (n - 1) as nat, s);
        let before = string_items(items, (n - 1) as nat);
        let first = items.take(n - 1);
        let all = items.take(n as int);
        assert(all =~= first.push(items[n - 1]));
        if first.contains(JsonView::String(s)) {
            let i = choose|i: int| 0 <= i < first.len() && first[i] == JsonView::String(s);
            assert(all[i] == JsonView::String(s));
        }
        if all.contains(JsonView::String(s)) {
            let i = choose|i: int| 0 <= i < all.len() && all[i] == JsonView::String(s);
            if i < n - 1 {
                assert(first[i] == JsonView::String(s));
            }
        }
        if items[n - 1] == JsonView::String(s) {
            assert(all[n - 1] == JsonView::String(s));
            assert(before.push(s)[before.len() as int] == s);
        }
        let now = string_items(items, n);
        if before.contains(s) {
            let i = choose|i: int| 0 <= i < before.len() && before[i] == s;
            assert(now[i] == s);
        }
        if now.contains(s) {
            let i = choose|i: int| 0 <= i < now.len() && now[i] == s;
            if i < before.len() {
                assert(before[i] == s);
            }
        }
    }
}

/// The texts that a value stands for are those that it gives.
proof fn lemma_gives_text(v: Option<JsonView>, s: Seq<char>)
    ensures
        strings_of(v).contains(s) <==> gives_text(v, s),
{
    match v {
        Some(JsonView::Array(items)) => {
            lemma_string_items(items, items.len(), s);
            assert(items.take(items.len() as int) =~= items);
        },
        Some(JsonView::String(t)) => {
            assert(strings_of(v)[0] == t);
        },
        _ => {},
    }
}

/// A value that is one text, or a list of texts, stands for these texts in their order.
pub proof fn law_texts_are_taken_in_order(items: Seq<JsonView>, list: Seq<Seq<char>>, s: Seq<char>)
    requires
        items.len() == list.len(),
        forall|i: int| 0 <= i < items.len() ==> #[trigger] items[i] == JsonView::String(list[i]),
    ensures
        strings_of(Some(JsonView::Array(items))) == list,
        strings_of(Some(JsonView::String(s))) == seq![s],
        strings_of(None) == Seq::<Seq<char>>::empty(),
{
    lemma_all_strings(items, list, items.len());
    assert(list.take(list.len() as int) =~= list);
}

proof fn lemma_all_strings(items: Seq<JsonView>, list: Seq<Seq<char>>, n: nat)
    requires
        n <= items.len(),
        items.len() == list.len(),
        forall|i: int| 0 <= i < items.len() ==> #[trigger] items[i] == JsonView::String(list[i]),
    ensures
        string_items(items, n) == list.take(n as int),
    decreases n,
{
    if n > 0 {
        lemma_all_strings(items, list, (n - 1) as nat);
        assert(items[n - 1] == JsonView::String(list[n - 1]));
        assert(list.take(n as int) =~= list.take(n - 1).push(list[n - 1]));
    } else {
        assert(list.take(0) =~= Seq::empty());
    }
}

/// Whether a value is statement `k` of the policy of a node.
pub open spec fn is_statement_at(attrs: JsonView, k: int, statement: JsonView) -> bool {
    attrs.get("policy"@) matches Some(document) && document.get("Statement"@) matches Some(list)
        && match list {
        JsonView::Array(items) => 0 <= k < items.len() && items[k] == statement,
        _ => k == 0 && statement == list,
    }
}

proof fn lemma_is_statement_at(attrs: JsonView, k: int, statement: JsonView)
    ensures
        is_statement_at(attrs, k, statement) <==> 0 <= k < statements(attrs, "policy"@).len()
            && statements(attrs, "policy"@)[k] == statement,
{
}

/// Whether an edge stands for what statement `k` of the policy at `holder` allows a role on a target:
/// the actions are those of the statement, and the evidence is the statement.
pub open spec fn is_grant_of(
    g: GraphView,
    link: LinkView,
    holder: int,
    role: int,
    k: int,
    statement: JsonView,
    target: int,
) -> bool {
    &&& link.from == role
    &&& link.to == target
    &&& link.edge.kind matches EdgeKindView::IamGrants { actions, effect, resource_match } && effect
        == "Allow"@ && (forall|a: Seq<char>| #[trigger]
        actions.contains(a) <==> gives_text(statement.get("Action"@), a)) && actions == strings_of(
        statement.get("Action"@),
    ) && resource_match == resource_match_of(statement) && link.edge.description
        == g.nodes[role].id + " (via "@ + g.nodes[holder].id + ", statement "@ + decimal(k as nat)
        + ") is granted "@ + debug_list(actions) + " on "@ + g.nodes[target].id
    &&& link.edge.evidence.file == g.nodes[holder].file
    &&& link.edge.evidence.resource_id == g.nodes[holder].id
    &&& link.edge.evidence.attr_path == "policy.Statement["@ + decimal(k as nat) + "]"@
}

/// Whether a statement allows an action.
pub open spec fn allows(statement: JsonView, action: Seq<char>) -> bool {
    statement.get("Effect"@) == Some(JsonView::String("Allow"@)) && gives_text(
        statement.get("Action"@),
        action,
    )
}

/// Whether a policy applies to a role: it is written for it, or an attachment, wherever it is
/// declared, names the two.
pub open spec fn applies_to(g: GraphView, policy: int, role: int) -> bool {
    ||| g.nodes[policy].kind is IamRolePolicy && refers_to(g, policy, "role"@, role)
    ||| g.nodes[policy].kind is IamPolicy && exists|a: int| #[trigger]
        attaches(g, a, policy, role)
}

/// Whether the node at `a` attaches a policy to a role.
pub open spec fn attaches(g: GraphView, a: int, policy: int, role: int) -> bool {
    &&& 0 <= a < g.nodes.len()
    &&& g.nodes[a].kind is IamRolePolicyAttachment
    &&& refers_to(g, a, "policy_arn"@, policy)
    &&& refers_to(g, a, "role"@, role)
}

proof fn lemma_grant_of(
    g: GraphView,
    holder: int,
    role: int,
    statement: JsonView,
    k: int,
    target: int,
)
    ensures
        is_grant_of(
            g,
            grant_link(g, holder, role, statement, k, target),
            holder,
            role,
            k,
            statement,
            target,
        ),
{
    let actions = strings_of(statement.get("Action"@));
    assert forall|a: Seq<char>| #[trigger] actions.contains(a) <==> gives_text(
        statement.get("Action"@),
        a,
    ) by {
        lemma_gives_text(statement.get("Action"@), a);
    }
}

proof fn lemma_attachment_among(g: GraphView, ix: int, n: nat, a: int, role: int, link: LinkView)
    requires
        0 <= a < n <= g.nodes.len(),
        attached_role(g, a, ix) == Some(role),
        holder_links(g, ix, role).contains(link),
    ensures
        attachments_links(g, ix, n).contains(link),
    decreases n,
{
    let before = attachments_links(g, ix, (n - 1) as nat);
    let own = match attached_role(g, n - 1, ix) {
        Some(role) => holder_links(g, ix, role),
        None => Seq::empty(),
    };
    if a == n - 1 {
        let m = choose|m: int| 0 <= m < own.len() && own[m] == link;
        assert((before + own)[before.len() + m] == link);
    } else {
        lemma_attachment_among(g, ix, (n - 1) as nat, a, role, link);
        let m = choose|m: int| 0 <= m < before.len() && before[m] == link;
        assert((before + own)[m] == link);
    }
}

proof fn lemma_policy_among(g: GraphView, n: nat, ix: int, link: LinkView)
    requires
        0 <= ix < n <= g.nodes.len(),
        policy_links(g, ix).contains(link),
    ensures
        grant_links(g, n).contains(link),
    decreases n,
{
    let before = grant_links(g, (n - 1) as nat);
    let own = policy_links(g, n - 1);
    if ix == n - 1 {
        let m = choose|m: int| 0 <= m < own.len() && own[m] == link;
        assert((before + own)[before.len() + m] == link);
    } else {
        lemma_policy_among(g, (n - 1) as nat, ix, link);
        let m = choose|m: int| 0 <= m < before.len() && before[m] == link;
        assert((before + own)[m] == link);
    }
}

/// Everything that a policy grants a role to which it applies is on the classified graph, in whatever
/// order the policy, the role and the attachment are declared.
pub proof fn law_whatever_applies_is_granted(g: GraphView, policy: int, role: int, link: LinkView)
    requires
        g.wf(),
        0 <= policy < g.nodes.len(),
        applies_to(g, policy, role),
        holder_links(g, policy, role).contains(link),
    ensures
        classified(g).links.contains(link),
{
    law_facts_keep_edges(g);
    if g.nodes[policy].kind is IamRolePolicy {
        lemma_referenced(g, policy, "role"@, role);
    } else {
        let a = choose|a: int| #[trigger] attaches(g, a, policy, role);
        lemma_referenced(g, a, "policy_arn"@, policy);
        lemma_referenced(g, a, "role"@, role);
        lemma_attachment_among(g, policy, g.nodes.len(), a, role, link);
    }
    lemma_policy_among(g, g.nodes.len(), policy, link);
    let grants = grant_links(g, g.nodes.len());
    let all = classified(g).links;
    let m = choose|m: int| 0 <= m < grants.len() && grants[m] == link;
    assert(semantic_links(g)[m] == link);
    assert(all[g.links.len() + m] == link);
}

/// Whether what remains of a path within a statement leads to its resource: to the field itself, an
/// item of a list there, or an argument of a call there.
pub open spec fn is_resource_part(rest: Seq<char>) -> bool {
    rest == ".Resource"@ || ".Resource["@.is_prefix_of(rest) || ".Resource/"@.is_prefix_of(rest)
}

/// Whether a path leads from a node to the resource of its statement `k`, which may be the argument
/// of a call. Nothing before it looks like a statement.
pub open spec fn is_resource_path(path: Seq<char>, k: int) -> bool {
    exists|p: Seq<char>, rest: Seq<char>| #[trigger]
        is_statement_path(path, p, k, rest) && (is_resource_part(rest) || "/arg0"@.is_prefix_of(
            rest,
        ) && is_resource_part(rest.skip(5)))
}

/// Whether a path consists of `p`, the mark of statement `k`, and `rest`, and no such mark begins
/// earlier.
pub open spec fn is_statement_path(path: Seq<char>, p: Seq<char>, k: int, rest: Seq<char>) -> bool {
    &&& k >= 0
    &&& path == p + "Statement["@ + decimal(k as nat) + "]"@ + rest
    &&& forall|i: int| 0 <= i < p.len() ==> !#[trigger] occurs_at(
        p + "Statement["@,
        "Statement["@,
        i,
    )
}

proof fn lemma_statement_path(path: Seq<char>, p: Seq<char>, k: int, rest: Seq<char>)
    requires
        is_statement_path(path, p, k, rest),
        k <= usize::MAX,
    ensures
        statement_index(path) == Some(k as usize),
        within_statement(path) == rest,
{
    let head = p + "Statement["@;
    lemma_first_from(head, "Statement["@, 0);
    assert(head.subrange(p.len() as int, head.len() as int) =~= "Statement["@);
    assert(occurs_at(head, "Statement["@, p.len() as int));
    assert(first_of(head, "Statement["@) == Some(p.len() as int));
    law_statement_number_is_read_back(p, k as usize, rest);
}

/// A statement that allows an action grants it, to every role to which its policy applies, on
/// everything that its resource refers to.
pub proof fn law_allowed_actions_are_granted(
    g: GraphView,
    policy: int,
    role: int,
    k: int,
    statement: JsonView,
    action: Seq<char>,
    e: int,
)
    requires
        g.wf(),
        0 <= policy < g.nodes.len(),
        applies_to(g, policy, role),
        0 <= k <= usize::MAX,
        is_statement_at(g.nodes[policy].attrs, k, statement),
        allows(statement, action),
        0 <= e < g.links.len(),
        g.links[e].from == policy,
        g.links[e].edge.kind is References,
        is_resource_path(g.links[e].edge.evidence.attr_path, k),
    ensures
        exists|i: int|
            0 <= i < classified(g).links.len() && is_grant_of(
                g,
                #[trigger] classified(g).links[i],
                policy,
                role,
                k,
                statement,
                g.links[e].to,
            ),
{
    let path = g.links[e].edge.evidence.attr_path;
    let (p, rest) = choose|p: Seq<char>, rest: Seq<char>| #[trigger]
        is_statement_path(path, p, k, rest) && (is_resource_part(rest) || "/arg0"@.is_prefix_of(
            rest,
        ) && is_resource_part(rest.skip(5)));
    lemma_statement_path(path, p, k, rest);
    if is_resource_part(rest) {
        lemma_begins_with_resource(rest);
    } else {
        reveal_strlit("/arg0");
        lemma_begins_with_resource(rest.skip(5));
    }
    assert(is_precise(g.links[e].edge, k));
    lemma_granted(g, policy, role, k, statement, action, e);
}

proof fn lemma_granted(
    g: GraphView,
    policy: int,
    role: int,
    k: int,
    statement: JsonView,
    action: Seq<char>,
    e: int,
)
    requires
        g.wf(),
        0 <= policy < g.nodes.len(),
        applies_to(g, policy, role),
        is_statement_at(g.nodes[policy].attrs, k, statement),
        allows(statement, action),
        0 <= e < g.links.len(),
        g.links[e].from == policy,
        is_precise(g.links[e].edge, k) || is_loose(g, policy, g.links[e]) && (forall|i: int|
            0 <= i < g.links.len() && (#[trigger] g.links[i]).from == policy ==> !is_indexed(
                g.links[i].edge,
            )),
    ensures
        exists|i: int|
            0 <= i < classified(g).links.len() && is_grant_of(
                g,
                #[trigger] classified(g).links[i],
                policy,
                role,
                k,
                statement,
                g.links[e].to,
            ),
{
    let target = g.links[e].to;
    lemma_is_statement_at(g.nodes[policy].attrs, k, statement);
    lemma_gives_text(statement.get("Action"@), action);
    assert(strings_of(statement.get("Action"@)).contains(action));
    assert(is_grant(statement));
    law_references_are_granted(g, policy, role, k, e);
    let link = grant_link(g, policy, role, statement, k, target);
    law_whatever_applies_is_granted(g, policy, role, link);
    lemma_grant_of(g, policy, role, statement, k, target);
    let all = classified(g).links;
    let i = choose|i: int| 0 <= i < all.len() && all[i] == link;
    assert(is_grant_of(g, all[i], policy, role, k, statement, target));
}

/// Whether no reference of a node tells the statement that it comes from.
pub open spec fn tells_no_statement(g: GraphView, policy: int) -> bool {
    forall|i: int|
        0 <= i < g.links.len() && (#[trigger] g.links[i]).from == policy
            && g.links[i].edge.kind is References ==> !occurs(
            g.links[i].edge.evidence.attr_path,
            "Statement["@,
        )
}

/// Whether a name may go on with a character.
pub open spec fn goes_on_with(c: char) -> bool {
    'a' <= c <= 'z' || 'A' <= c <= 'Z' || '0' <= c <= '9' || c == '_' || c == '-'
}

/// Whether an address stands in a text between `before` and `after`, and is not part of a longer one.
pub open spec fn names(
    text: Seq<char>,
    before: Seq<char>,
    id: Seq<char>,
    after: Seq<char>,
) -> bool {
    &&& text == before + id + after
    &&& (before.len() > 0 ==> !goes_on_with(before.last()) && before.last() != '.')
    &&& (after.len() > 0 ==> !goes_on_with(after[0]))
}

/// Where no reference of a policy tells its statement, a statement that allows an action grants it on
/// everything that a resource refers to: by a path that leads to it, or in a policy that is one text
/// by its address among the resources of any statement.
pub proof fn law_unnumbered_policies_grant(
    g: GraphView,
    policy: int,
    role: int,
    k: int,
    statement: JsonView,
    action: Seq<char>,
    e: int,
    other: JsonView,
    j: int,
    text: Seq<char>,
    before: Seq<char>,
    after: Seq<char>,
)
    requires
        g.wf(),
        0 <= policy < g.nodes.len(),
        applies_to(g, policy, role),
        is_statement_at(g.nodes[policy].attrs, k, statement),
        allows(statement, action),
        0 <= e < g.links.len(),
        g.links[e].from == policy,
        g.links[e].edge.kind is References,
        tells_no_statement(g, policy),
        g.links[e].edge.evidence.attr_path == "policy.Statement.Resource"@
            || g.links[e].edge.evidence.attr_path == "policy/arg0.Statement.Resource"@ || (
        g.links[e].edge.evidence.attr_path == "policy"@ && is_statement_at(
            g.nodes[policy].attrs,
            j,
            other,
        ) && gives_text(other.get("Resource"@), text) && names(
            text,
            before,
            g.nodes[g.links[e].to].id,
            after,
        )),
    ensures
        exists|i: int|
            0 <= i < classified(g).links.len() && is_grant_of(
                g,
                #[trigger] classified(g).links[i],
                policy,
                role,
                k,
                statement,
                g.links[e].to,
            ),
{
    let path = g.links[e].edge.evidence.attr_path;
    let id = g.nodes[g.links[e].to].id;
    reveal_strlit("policy");
    reveal_strlit("policy.Statement.Resource");
    reveal_strlit("policy/arg0.Statement.Resource");
    assert forall|i: int|
        0 <= i < g.links.len() && (#[trigger] g.links[i]).from == policy implies !is_indexed(
        g.links[i].edge,
    ) by {
        if g.links[i].edge.kind is References {
            law_other_paths_tell_no_statement(g.links[i].edge.evidence.attr_path);
        }
    }
    if path == "policy"@ {
        lemma_is_statement_at(g.nodes[policy].attrs, j, other);
        lemma_gives_text(other.get("Resource"@), text);
        let list = strings_of(other.get("Resource"@));
        let i = choose|i: int| 0 <= i < list.len() && list[i] == text;
        assert(text.subrange(before.len() as int, (before.len() + id.len()) as int) =~= id);
        assert(is_named_at(text, id, before.len() as int));
        assert(is_named(list[i], id));
        assert(names_as_resource(statements(g.nodes[policy].attrs, "policy"@)[j], id));
    } else {
        lemma_plain_paths();
    }
    assert(is_loose(g, policy, g.links[e]));
    lemma_granted(g, policy, role, k, statement, action, e);
}

proof fn lemma_plain_paths()
    ensures
        leads_to_resource(behind_statement("policy.Statement.Resource"@)),
        leads_to_resource(behind_statement("policy/arg0.Statement.Resource"@)),
{
    reveal_strlit("Statement");
    reveal_strlit(".Resource");
    reveal_strlit("policy.Statement.Resource");
    reveal_strlit("policy/arg0.Statement.Resource");
    let a = "policy.Statement.Resource"@;
    let b = "policy/arg0.Statement.Resource"@;
    let mark = "Statement"@;
    lemma_first_from(a, mark, 0);
    lemma_first_from(b, mark, 0);
    assert(a.subrange(7, 16) =~= mark);
    assert(occurs_at(a, mark, 7));
    assert forall|i: int| 0 <= i < 7 implies !#[trigger] occurs_at(a, mark, i) by {
        if occurs_at(a, mark, i) {
            assert(a.subrange(i, i + 9)[0] == 'S');
            assert(a[i] == 'S');
        }
    }
    assert(first_of(a, mark) == Some(7int));
    assert(b.subrange(12, 21) =~= mark);
    assert(occurs_at(b, mark, 12));
    assert forall|i: int| 0 <= i < 12 implies !#[trigger] occurs_at(b, mark, i) by {
        if occurs_at(b, mark, i) {
            assert(b.subrange(i, i + 9)[0] == 'S');
            assert(b[i] == 'S');
        }
    }
    assert(first_of(b, mark) == Some(12int));
    assert(a.skip(16) =~= ".Resource"@);
    assert(b.skip(21) =~= ".Resource"@);
    lemma_begins_with_resource(".Resource"@);
}

/// Whether a link is what statement `k` of the policy at `holder` grants a role on a target.
spec fn comes_from(
    g: GraphView,
    link: LinkView,
    holder: int,
    role: int,
    k: int,
    target: int,
) -> bool {
    let list = statements(g.nodes[holder].attrs, "policy"@);
    &&& 0 <= k < list.len()
    &&& is_grant(list[k])
    &&& grant_targets(g, holder, k).contains(target)
    &&& link == grant_link(g, holder, role, list[k], k, target)
}

proof fn lemma_statement_origin(
    g: GraphView,
    holder: int,
    role: int,
    list: Seq<JsonView>,
    n: nat,
    link: LinkView,
)
    requires
        list == statements(g.nodes[holder].attrs, "policy"@),
        n <= list.len(),
        statements_links(g, holder, role, list, n).contains(link),
    ensures
        exists|k: int, target: int| #[trigger] comes_from(g, link, holder, role, k, target),
    decreases n,
{
    if n > 0 {
        let before = statements_links(g, holder, role, list, (n - 1) as nat);
        let own = statement_links(g, holder, role, list[n - 1], n - 1);
        let all = statements_links(g, holder, role, list, n);
        let m = choose|m: int| 0 <= m < all.len() && all[m] == link;
        if m < before.len() {
            assert(before[m] == link);
            lemma_statement_origin(g, holder, role, list, (n - 1) as nat, link);
        } else {
            assert(own[m - before.len()] == link);
            let target = grant_targets(g, holder, n - 1)[m - before.len()];
            assert(grant_targets(g, holder, n - 1).contains(target));
            assert(comes_from(g, link, holder, role, n - 1, target));
        }
    }
}

proof fn lemma_attachment_origin(g: GraphView, ix: int, n: nat, link: LinkView)
    requires
        n <= g.nodes.len(),
        attachments_links(g, ix, n).contains(link),
    ensures
        exists|a: int, role: int|
            0 <= a < n && #[trigger] attached_role(g, a, ix) == Some(role) && #[trigger] holder_links(
                g,
                ix,
                role,
            ).contains(link),
    decreases n,
{
    if n > 0 {
        let before = attachments_links(g, ix, (n - 1) as nat);
        let own = match attached_role(g, n - 1, ix) {
            Some(role) => holder_links(g, ix, role),
            None => Seq::empty(),
        };
        let all = before + own;
        let m = choose|m: int| 0 <= m < all.len() && all[m] == link;
        if m < before.len() {
            assert(before[m] == link);
            lemma_attachment_origin(g, ix, (n - 1) as nat, link);
        } else {
            assert(own[m - before.len()] == link);
            let role = attached_role(g, n - 1, ix)->Some_0;
            assert(holder_links(g, ix, role).contains(link));
        }
    }
}

proof fn lemma_grant_origin(g: GraphView, n: nat, link: LinkView)
    requires
        n <= g.nodes.len(),
        grant_links(g, n).contains(link),
    ensures
        exists|holder: int, role: int|
            0 <= holder < n && #[trigger] applies_to(g, holder, role) && holder_links(
                g,
                holder,
                role,
            ).contains(link),
    decreases n,
{
    if n > 0 {
        let before = grant_links(g, (n - 1) as nat);
        let own = policy_links(g, n - 1);
        let all = before + own;
        let m = choose|m: int| 0 <= m < all.len() && all[m] == link;
        if m < before.len() {
            assert(before[m] == link);
            lemma_grant_origin(g, (n - 1) as nat, link);
        } else {
            assert(own[m - before.len()] == link);
            if g.nodes[n - 1].kind is IamRolePolicy {
                let role = referenced(g.links, n - 1, "role"@)->Some_0;
                lemma_referenced(g, n - 1, "role"@, role);
                assert(applies_to(g, n - 1, role));
            } else {
                lemma_attachment_origin(g, n - 1, g.nodes.len(), link);
                let (a, role) = choose|a: int, role: int|
                    0 <= a < g.nodes.len() && #[trigger] attached_role(g, a, n - 1) == Some(role)
                        && #[trigger] holder_links(g, n - 1, role).contains(link);
                lemma_referenced(g, a, "policy_arn"@, n - 1);
                lemma_referenced(g, a, "role"@, role);
                assert(attaches(g, a, n - 1, role));
                assert(applies_to(g, n - 1, role));
            }
        }
    }
}

/// Whether edge `e` is a reference of a policy to a target that can make statement `k` grant
/// something on it: it comes from something called `Resource` or from a policy that is one text, and
/// tells no other statement.
pub open spec fn can_grant(g: GraphView, e: int, holder: int, k: int, target: int) -> bool {
    let path = g.links[e].edge.evidence.attr_path;
    &&& is_reference(g, e, holder, path, target)
    &&& (path == "policy"@ || occurs(path, ".Resource"@))
    &&& forall|p: Seq<char>, j: int, rest: Seq<char>|
        0 <= j <= usize::MAX && #[trigger] is_statement_path(path, p, j, rest) ==> j == k
}

proof fn lemma_leads(rest: Seq<char>)
    requires
        leads_to_resource(rest),
    ensures
        occurs(rest, ".Resource"@),
    decreases rest.len(),
{
    reveal_strlit("/arg0");
    reveal_strlit(".Resource");
    reveal_strlit(".Resource[");
    reveal_strlit(".Resource/");
    let name = ".Resource"@;
    if "/arg0"@.is_prefix_of(rest) && rest.len() >= 5 {
        let inner = rest.skip(5);
        lemma_leads(inner);
        let i = choose|i: int| occurs_at(inner, name, i);
        assert(rest.subrange(i + 5, i + 5 + name.len()) =~= inner.subrange(i, i + name.len()));
        assert(occurs_at(rest, name, i + 5));
    } else {
        assert(rest.subrange(0, 9) =~= name) by {
            if ".Resource["@.is_prefix_of(rest) {
                assert(rest.subrange(0, 10) =~= ".Resource["@);
                assert forall|i: int| 0 <= i < 9 implies rest[i] == name[i] by {
                    assert(rest.subrange(0, 10)[i] == ".Resource["@[i]);
                }
            } else if ".Resource/"@.is_prefix_of(rest) {
                assert(rest.subrange(0, 10) =~= ".Resource/"@);
                assert forall|i: int| 0 <= i < 9 implies rest[i] == name[i] by {
                    assert(rest.subrange(0, 10)[i] == ".Resource/"@[i]);
                }
            }
        }
        assert(occurs_at(rest, name, 0));
    }
}

proof fn lemma_skipped(path: Seq<char>, n: int, pat: Seq<char>)
    requires
        0 <= n <= path.len(),
        occurs(path.skip(n), pat),
    ensures
        occurs(path, pat),
{
    let i = choose|i: int| occurs_at(path.skip(n), pat, i);
    assert(path.subrange(n + i, n + i + pat.len()) =~= path.skip(n).subrange(i, i + pat.len()));
    assert(occurs_at(path, pat, n + i));
}

proof fn lemma_can_grant(g: GraphView, e: int, holder: int, k: int, target: int)
    requires
        0 <= e < g.links.len(),
        g.links[e].from == holder,
        g.links[e].to == target,
        is_precise(g.links[e].edge, k) || is_loose(g, holder, g.links[e]) && !is_indexed(
            g.links[e].edge,
        ),
    ensures
        can_grant(g, e, holder, k, target),
{
    reveal_strlit("Statement[");
    reveal_strlit("Statement");
    reveal_strlit("]");
    reveal_strlit("/arg0");
    reveal_strlit(".Resource");
    reveal_strlit(".Resource[");
    reveal_strlit(".Resource/");
    let path = g.links[e].edge.evidence.attr_path;
    assert(is_reference(g, e, holder, path, target));
    if is_precise(g.links[e].edge, k) {
        lemma_leads(within_statement(path));
        lemma_first_from(path, "Statement["@, 0);
        let a = first_of(path, "Statement["@)->Some_0;
        let rest = path.skip(a + 10);
        lemma_first_from(rest, "]"@, 0);
        let b = first_of(rest, "]"@)->Some_0;
        lemma_skipped(rest, b + 1, ".Resource"@);
        lemma_skipped(path, a + 10, ".Resource"@);
    } else if path != "policy"@ {
        lemma_leads(behind_statement(path));
        lemma_first_from(path, "Statement"@, 0);
        if first_of(path, "Statement"@) is Some {
            lemma_skipped(path, first_of(path, "Statement"@)->Some_0 + 9, ".Resource"@);
        } else {
            let i = choose|i: int| occurs_at(Seq::<char>::empty(), ".Resource"@, i);
        }
    }
    assert forall|p: Seq<char>, j: int, rest: Seq<char>|
        0 <= j <= usize::MAX && #[trigger] is_statement_path(path, p, j, rest) implies j == k by {
        lemma_statement_path(path, p, j, rest);
    }
}

/// Every edge for a grant that a classified graph has and the graph before had not is what a statement
/// allows: of a policy that applies to the role, and on something that the policy refers to as a
/// resource.
pub proof fn law_grants_have_grounds(g: GraphView, i: int)
    requires
        g.wf(),
        g.links.len() <= i < classified(g).links.len(),
        classified(g).links[i].edge.kind is IamGrants,
    ensures
        exists|policy: int, role: int, k: int, statement: JsonView, action: Seq<char>, e: int|
            0 <= policy < g.nodes.len() && applies_to(g, policy, role) && is_statement_at(
                g.nodes[policy].attrs,
                k,
                statement,
            ) && #[trigger] allows(statement, action) && #[trigger] can_grant(
                g,
                e,
                policy,
                k,
                g.links[e].to,
            ) && #[trigger] is_grant_of(
                g,
                classified(g).links[i],
                policy,
                role,
                k,
                statement,
                g.links[e].to,
            ),
{
    law_facts_keep_edges(g);
    let link = classified(g).links[i];
    let grants = grant_links(g, g.nodes.len());
    let j = i - g.links.len();
    assert(semantic_links(g)[j] == link);
    if j >= grants.len() {
        lemma_other_kinds(g, j - grants.len());
    }
    assert(grants[j] == link);
    assert(grants.contains(link));
    lemma_grant_origin(g, g.nodes.len(), link);
    let (holder, role) = choose|holder: int, role: int|
        0 <= holder < g.nodes.len() && #[trigger] applies_to(g, holder, role) && holder_links(
            g,
            holder,
            role,
        ).contains(link);
    let list = statements(g.nodes[holder].attrs, "policy"@);
    lemma_statement_origin(g, holder, role, list, list.len(), link);
    let (k, target) = choose|k: int, target: int| #[trigger]
        comes_from(g, link, holder, role, k, target);
    let statement = list[k];
    law_targets_are_resources(g, holder, k, target);
    let e = choose|e: int|
        0 <= e < g.links.len() && (#[trigger] g.links[e]).from == holder && g.links[e].to == target
            && (is_precise(g.links[e].edge, k) || is_loose(g, holder, g.links[e]) && !is_indexed(
            g.links[e].edge,
        ));
    lemma_can_grant(g, e, holder, k, target);
    lemma_is_statement_at(g.nodes[holder].attrs, k, statement);
    let action = strings_of(statement.get("Action"@))[0];
    assert(strings_of(statement.get("Action"@)).contains(action));
    lemma_gives_text(statement.get("Action"@), action);
    lemma_effect(statement);
    assert(allows(statement, action));
    lemma_grant_of(g, holder, role, statement, k, target);
    assert(is_grant_of(g, link, holder, role, k, statement, g.links[e].to));
}

proof fn lemma_effect(statement: JsonView)
    requires
        is_grant(statement),
    ensures
        statement.get("Effect"@) == Some(JsonView::String("Allow"@)),
{
}

/// What a grant gives as the resource of its statement is the text there, without the mark of what
/// could not be resolved. Several are set apart by commas.
pub proof fn law_resources_are_given_as_written(
    statement: JsonView,
    one: Seq<char>,
    first: Seq<char>,
    second: Seq<char>,
)
    ensures
        statement.get("Resource"@) == Some(JsonView::String("unresolved:ref:"@ + one))
            ==> resource_match_of(statement) == one,
        statement.get("Resource"@) == Some(JsonView::String(one)) && !"unresolved:ref:"@.is_prefix_of(
            one,
        ) ==> resource_match_of(statement) == one,
        statement.get("Resource"@) == Some(
            JsonView::Array(
                seq![
                    JsonView::String("unresolved:ref:"@ + first),
                    JsonView::String("unresolved:ref:"@ + second),
                ],
            ),
        ) ==> resource_match_of(statement) == first + ","@ + second,
{
    let mark = "unresolved:ref:"@;
    reveal_with_fuel(joined, 3);
    reveal_with_fuel(string_items, 3);
    assert forall|x: Seq<char>| without_mark(#[trigger] (mark + x)) == x by {
        assert((mark + x).subrange(0, mark.len() as int) =~= mark);
        assert((mark + x).skip(mark.len() as int) =~= x);
    }
    let given = strings_of(statement.get("Resource"@)).map_values(|s: Seq<char>| without_mark(s));
    if statement.get("Resource"@) == Some(JsonView::String(mark + one)) {
        assert(given =~= seq![one]);
        assert(given.drop_last() =~= Seq::empty());
    } else if statement.get("Resource"@) == Some(JsonView::String(one)) {
        if !mark.is_prefix_of(one) {
            assert(given =~= seq![one]);
            assert(given.drop_last() =~= Seq::empty());
        }
    } else if statement.get("Resource"@) == Some(
        JsonView::Array(seq![JsonView::String(mark + first), JsonView::String(mark + second)]),
    ) {
        assert(given =~= seq![first, second]);
        assert(given.drop_last() =~= seq![first]);
        assert(given.drop_last().drop_last() =~= Seq::empty());
    }
}

/// One more text in a list of texts comes behind a comma, in the form that `Debug` gives it.
pub proof fn law_lists_are_written_out(items: Seq<Seq<char>>, last: Seq<char>)
    ensures
        debug_list(Seq::empty()) == "["@ + "]"@,
        debug_list(seq![last]) == "["@ + debug_quoted(last) + "]"@,
        debug_list(items) == "["@ + joined(
            items.map_values(|s: Seq<char>| debug_quoted(s)),
            ", "@,
        ) + "]"@,
        items.len() > 0 ==> joined(
            items.push(last).map_values(|s: Seq<char>| debug_quoted(s)),
            ", "@,
        ) == joined(items.map_values(|s: Seq<char>| debug_quoted(s)), ", "@) + ", "@
            + debug_quoted(last),
{
    let none = Seq::<Seq<char>>::empty().map_values(|s: Seq<char>| debug_quoted(s));
    assert(none =~= Seq::empty());
    assert("["@ + joined(none, ", "@) =~= "["@);
    let one = seq![last].map_values(|s: Seq<char>| debug_quoted(s));
    assert(one =~= seq![debug_quoted(last)]);
    let more = items.push(last).map_values(|s: Seq<char>| debug_quoted(s));
    let less = items.map_values(|s: Seq<char>| debug_quoted(s));
    assert(more =~= less.push(debug_quoted(last)));
    assert(more.drop_last() =~= less);
}

proof fn lemma_targets_prefix(
    g: GraphView,
    holder: int,
    edges: Seq<int>,
    e: int,
    k: int,
    n: nat,
)
    requires
        n <= edges.len(),
    ensures
        precise_targets(g.links, edges.push(e), k, n) == precise_targets(g.links, edges, k, n),
        loose_targets(g, holder, edges.push(e), n) == loose_targets(g, holder, edges, n),
    decreases n,
{
    if n > 0 {
        lemma_targets_prefix(g, holder, edges, e, k, (n - 1) as nat);
        assert(edges.push(e)[n - 1] == edges[n - 1]);
    }
}

/// Each reference that tells a statement is one more target of it, though there is another reference
/// to the same target already; and so is each that tells none, for every statement.
pub proof fn law_every_reference_is_a_target(
    g: GraphView,
    holder: int,
    edges: Seq<int>,
    e: int,
    k: int,
)
    ensures
        precise_targets(g.links, Seq::empty(), k, 0) == Seq::<int>::empty(),
        loose_targets(g, holder, Seq::empty(), 0) == Seq::<int>::empty(),
        precise_targets(g.links, edges.push(e), k, edges.len() + 1) == precise_targets(
            g.links,
            edges,
            k,
            edges.len(),
        ) + (if is_precise(g.links[e].edge, k) {
            seq![g.links[e].to]
        } else {
            Seq::empty()
        }),
        loose_targets(g, holder, edges.push(e), edges.len() + 1) == loose_targets(
            g,
            holder,
            edges,
            edges.len(),
        ) + (if is_loose(g, holder, g.links[e]) {
            seq![g.links[e].to]
        } else {
            Seq::empty()
        }),
{
    lemma_targets_prefix(g, holder, edges, e, k, edges.len());
    assert(edges.push(e)[edges.len() as int] == e);
}

/// What a policy grants is what each of its statements grants, one after the other, on each of the
/// statement's targets. What all of them grant is what each policy grants, one after the other: to the
/// role that it is written for, or to every role that an attachment gives it to.
pub proof fn law_every_statement_grants(
    g: GraphView,
    holder: int,
    role: int,
    list: Seq<JsonView>,
    statement: JsonView,
    n: nat,
)
    ensures
        statements_links(g, holder, role, list.push(statement), list.len() + 1)
            == statements_links(g, holder, role, list, list.len()) + (if strings_of(
            statement.get("Action"@),
        ).len() > 0 && statement.get("Effect"@) == Some(JsonView::String("Allow"@)) {
            grant_targets(g, holder, list.len() as int).map_values(
                |t: int| grant_link(g, holder, role, statement, list.len() as int, t),
            )
        } else {
            Seq::empty()
        }),
        n < g.nodes.len() ==> grant_links(g, n + 1) == grant_links(g, n) + (match g.nodes[n as int].kind {
            ResourceKindView::IamRolePolicy => match referenced(g.links, n as int, "role"@) {
                Some(to) => holder_links(g, n as int, to),
                None => Seq::empty(),
            },
            ResourceKindView::IamPolicy => attachments_links(g, n as int, g.nodes.len()),
            _ => Seq::empty(),
        }),
        n < g.nodes.len() ==> attachments_links(g, holder, n + 1) == attachments_links(
            g,
            holder,
            n,
        ) + (if g.nodes[n as int].kind is IamRolePolicyAttachment && referenced(
            g.links,
            n as int,
            "policy_arn"@,
        ) == Some(holder) {
            match referenced(g.links, n as int, "role"@) {
                Some(to) => holder_links(g, holder, to),
                None => Seq::empty(),
            }
        } else {
            Seq::empty()
        }),
{
    lemma_statements_prefix(g, holder, role, list, statement, list.len());
    assert(list.push(statement)[list.len() as int] == statement);
}

proof fn lemma_statements_prefix(
    g: GraphView,
    holder: int,
    role: int,
    list: Seq<JsonView>,
    statement: JsonView,
    n: nat,
)
    requires
        n <= list.len(),
    ensures
        statements_links(g, holder, role, list.push(statement), n) == statements_links(
            g,
            holder,
            role,
            list,
            n,
        ),
    decreases n,
{
    if n > 0 {
        lemma_statements_prefix(g, holder, role, list, statement, (n - 1) as nat);
        assert(list.push(statement)[n - 1] == list[n - 1]);
    }
}

} // verus!
