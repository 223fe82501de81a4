//! What the internet reaches and what instances run as: which edges for the two a classified graph
//! has, in terms of what it has before it is classified.

use crate::classify::{classified, law_facts_keep_edges, semantic_links};
use crate::facts::{ingress_rules, is_open_rule, referenced, statements};
use crate::grants::{attached_role, attachments_links, grant_links, statements_links};
use crate::graph::{GraphView, LinkView, lemma_links_from, links_from};
use crate::json::{JsonNumberView, JsonView};
use crate::laws_facts::{
    is_ingress_rule,
    lemma_is_ingress_rule,
    lemma_lets_in_everybody,
    lemma_referenced,
    lets_in_everybody,
    refers_to,
};
use crate::reach::{
    attached_link,
    attached_links,
    group_links,
    groups_links,
    instance_links,
    network_links,
    reach_link,
    role_of,
    rules_links,
};
use crate::types::EdgeKindView;
use vstd::prelude::*;

verus! {

/// Whether a port is the number under a key of a rule, or 0 where there is no number that fits.
pub open spec fn is_port(rule: JsonView, key: Seq<char>, port: int) -> bool {
    match rule.get(key) {
        Some(JsonView::Number(JsonNumberView::PosInt(n))) => if n <= i64::MAX {
            port == n
        } else {
            port == 0
        },
        Some(JsonView::Number(JsonNumberView::NegInt(n))) => port == n,
        _ => port == 0,
    }
}

/// Whether an edge stands for what an ingress rule of a security group lets in to a node: the protocol
/// and the ports are those of the rule, and the evidence is the group.
pub open spec fn is_reach_of(
    g: GraphView,
    link: LinkView,
    group: int,
    instance: int,
    rule: JsonView,
) -> bool {
    &&& link.from == group
    &&& link.to == instance
    &&& link.edge.kind matches EdgeKindView::NetworkReachable {
        protocol,
        from_port,
        to_port,
        cidr,
    } && (match rule.get("protocol"@) {
        Some(JsonView::String(s)) => protocol == s,
        _ => protocol == "tcp"@,
    }) && is_port(rule, "from_port"@, from_port as int) && is_port(rule, "to_port"@, to_port as int)
        && cidr == "0.0.0.0/0"@
    &&& link.edge.evidence.file == g.nodes[group].file
    &&& link.edge.evidence.resource_id == g.nodes[group].id
    &&& link.edge.evidence.attr_path == "ingress"@
    &&& link.edge.description == g.nodes[group].id
        + " allows inbound from 0.0.0.0/0, reaching "@ + g.nodes[instance].id
}

/// Whether edge `e` is how an instance names a security group.
pub open spec fn is_membership(g: GraphView, e: int, instance: int, group: int) -> bool {
    &&& 0 <= e < g.links.len()
    &&& g.links[e].from == instance
    &&& g.links[e].to == group
    &&& g.links[e].edge.kind is References
    &&& ("vpc_security_group_ids"@.is_prefix_of(g.links[e].edge.evidence.attr_path)
        || "security_groups"@.is_prefix_of(g.links[e].edge.evidence.attr_path))
    &&& g.nodes[instance].kind is Instance
    &&& g.nodes[group].kind is SecurityGroup
}

proof fn lemma_reach_of(g: GraphView, group: int, instance: int, rule: JsonView)
    ensures
        is_reach_of(g, reach_link(g, group, instance, rule), group, instance, rule),
{
}

proof fn lemma_rule_among(
    g: GraphView,
    group: int,
    instance: int,
    rules: Seq<JsonView>,
    n: nat,
    k: int,
)
    requires
        0 <= k < n <= rules.len(),
        is_open_rule(rules[k]),
    ensures
        rules_links(g, group, instance, rules, n).contains(
            reach_link(g, group, instance, rules[k]),
        ),
    decreases n,
{
    let before = rules_links(g, group, instance, rules, (n - 1) as nat);
    let link = reach_link(g, group, instance, rules[k]);
    let all = rules_links(g, group, instance, rules, n);
    if k == n - 1 {
        assert(all[before.len() as int] == link);
    } else {
        lemma_rule_among(g, group, instance, rules, (n - 1) as nat, k);
        let m = choose|m: int| 0 <= m < before.len() && before[m] == link;
        assert(all[m] == link);
    }
}

proof fn lemma_group_among(
    g: GraphView,
    instance: int,
    edges: Seq<int>,
    prefix: Seq<char>,
    n: nat,
    k: int,
    link: LinkView,
)
    requires
        0 <= k < n <= edges.len(),
        group_links(g, instance, edges[k], prefix).contains(link),
    ensures
        groups_links(g, instance, edges, prefix, n).contains(link),
    decreases n,
{
    let before = groups_links(g, instance, edges, prefix, (n - 1) as nat);
    let own = group_links(g, instance, edges[n - 1], prefix);
    if k == n - 1 {
        let m = choose|m: int| 0 <= m < own.len() && own[m] == link;
        assert((before + own)[before.len() + m] == link);
    } else {
        lemma_group_among(g, instance, edges, prefix, (n - 1) as nat, k, link);
        let m = choose|m: int| 0 <= m < before.len() && before[m] == link;
        assert((before + own)[m] == link);
    }
}

proof fn lemma_instance_among(g: GraphView, n: nat, instance: int, link: LinkView)
    requires
        0 <= instance < n <= g.nodes.len(),
        instance_links(g, instance).contains(link),
    ensures
        network_links(g, n).contains(link),
    decreases n,
{
    let before = network_links(g, (n - 1) as nat);
    let own = instance_links(g, n - 1);
    if instance == n - 1 {
        let m = choose|m: int| 0 <= m < own.len() && own[m] == link;
        assert((before + own)[before.len() + m] == link);
    } else {
        lemma_instance_among(g, (n - 1) as nat, instance, link);
        let m = choose|m: int| 0 <= m < before.len() && before[m] == link;
        assert((before + own)[m] == link);
    }
}

/// Whatever a security group lets in from the whole internet reaches the instances that name the
/// group: for every such rule, whichever of the group's it is, there is an edge with its protocol and
/// ports.
pub proof fn law_every_open_rule_reaches(
    g: GraphView,
    e: int,
    instance: int,
    group: int,
    rule: JsonView,
)
    requires
        g.wf(),
        is_membership(g, e, instance, group),
        is_ingress_rule(g.nodes[group].attrs, rule),
        lets_in_everybody(rule),
    ensures
        exists|i: int|
            0 <= i < classified(g).links.len() && is_reach_of(
                g,
                #[trigger] classified(g).links[i],
                group,
                instance,
                rule,
            ),
{
    let rules = ingress_rules(g.nodes[group].attrs);
    lemma_is_ingress_rule(g.nodes[group].attrs, rule);
    lemma_lets_in_everybody(rule);
    let r = choose|r: int| 0 <= r < rules.len() && rules[r] == rule;
    lemma_rule_among(g, group, instance, rules, rules.len(), r);
    let link = reach_link(g, group, instance, rule);
    lemma_reach_of(g, group, instance, rule);
    let edges = links_from(g.links, instance);
    lemma_links_from(g.links, instance);
    assert(edges.contains(e));
    let k = choose|k: int| 0 <= k < edges.len() && edges[k] == e;
    let first = groups_links(g, instance, edges, "vpc_security_group_ids"@, edges.len());
    let second = groups_links(g, instance, edges, "security_groups"@, edges.len());
    if "vpc_security_group_ids"@.is_prefix_of(g.links[e].edge.evidence.attr_path) {
        lemma_group_among(g, instance, edges, "vpc_security_group_ids"@, edges.len(), k, link);
        let m = choose|m: int| 0 <= m < first.len() && first[m] == link;
        assert((first + second)[m] == link);
    } else {
        lemma_group_among(g, instance, edges, "security_groups"@, edges.len(), k, link);
        let m = choose|m: int| 0 <= m < second.len() && second[m] == link;
        assert((first + second)[first.len() + m] == link);
    }
    lemma_instance_among(g, g.nodes.len(), instance, link);
    law_facts_keep_edges(g);
    let reach = network_links(g, g.nodes.len());
    let m = choose|m: int| 0 <= m < reach.len() && reach[m] == link;
    let at = grant_links(g, g.nodes.len()).len() + m;
    assert(semantic_links(g)[at] == link);
    assert(classified(g).links[g.links.len() + at] == link);
    assert(is_reach_of(g, classified(g).links[g.links.len() + at], group, instance, rule));
}

proof fn lemma_rule_origin(
    g: GraphView,
    group: int,
    instance: int,
    rules: Seq<JsonView>,
    n: nat,
    link: LinkView,
)
    requires
        n <= rules.len(),
        rules_links(g, group, instance, rules, n).contains(link),
    ensures
        exists|k: int|
            0 <= k < n && is_open_rule(#[trigger] rules[k]) && link == reach_link(
                g,
                group,
                instance,
                rules[k],
            ),
    decreases n,
{
    if n > 0 {
        let before = rules_links(g, group, instance, rules, (n - 1) as nat);
        let all = rules_links(g, group, instance, rules, n);
        let m = choose|m: int| 0 <= m < all.len() && all[m] == link;
        if m < before.len() {
            assert(before[m] == link);
            lemma_rule_origin(g, group, instance, rules, (n - 1) as nat, link);
        } else {
            assert(is_open_rule(rules[n - 1]));
        }
    }
}

proof fn lemma_groups_origin(
    g: GraphView,
    instance: int,
    edges: Seq<int>,
    prefix: Seq<char>,
    n: nat,
    link: LinkView,
)
    requires
        n <= edges.len(),
        groups_links(g, instance, edges, prefix, n).contains(link),
    ensures
        exists|k: int|
            0 <= k < n && group_links(g, instance, #[trigger] edges[k], prefix).contains(link),
    decreases n,
{
    if n > 0 {
        let before = groups_links(g, instance, edges, prefix, (n - 1) as nat);
        let own = group_links(g, instance, edges[n - 1], prefix);
        let all = before + own;
        let m = choose|m: int| 0 <= m < all.len() && all[m] == link;
        if m < before.len() {
            assert(before[m] == link);
            lemma_groups_origin(g, instance, edges, prefix, (n - 1) as nat, link);
        } else {
            assert(own[m - before.len()] == link);
            assert(own.contains(link));
        }
    }
}

proof fn lemma_network_origin(g: GraphView, n: nat, link: LinkView)
    requires
        n <= g.nodes.len(),
        network_links(g, n).contains(link),
    ensures
        exists|instance: int|
            0 <= instance < n && #[trigger] instance_links(g, instance).contains(link),
    decreases n,
{
    if n > 0 {
        let before = network_links(g, (n - 1) as nat);
        let own = instance_links(g, n - 1);
        let all = before + own;
        let m = choose|m: int| 0 <= m < all.len() && all[m] == link;
        if m < before.len() {
            assert(before[m] == link);
            lemma_network_origin(g, (n - 1) as nat, link);
        } else {
            assert(own[m - before.len()] == link);
            assert(own.contains(link));
        }
    }
}

/// Whether an edge stands for what some ingress rule lets in to an instance.
pub open spec fn has_open_door(g: GraphView, link: LinkView) -> bool {
    exists|e: int, instance: int, group: int, rule: JsonView| #[trigger]
        is_membership(g, e, instance, group) && lets_in_everybody(rule) && is_ingress_rule(
            g.nodes[group].attrs,
            rule,
        ) && #[trigger] is_reach_of(g, link, group, instance, rule)
}

proof fn lemma_open_door(g: GraphView, link: LinkView)
    requires
        g.wf(),
        network_links(g, g.nodes.len()).contains(link),
    ensures
        has_open_door(g, link),
{
    lemma_network_origin(g, g.nodes.len(), link);
    let instance = choose|instance: int|
        0 <= instance < g.nodes.len() && #[trigger] instance_links(g, instance).contains(link);
    let edges = links_from(g.links, instance);
    lemma_links_from(g.links, instance);
    let first = groups_links(g, instance, edges, "vpc_security_group_ids"@, edges.len());
    let second = groups_links(g, instance, edges, "security_groups"@, edges.len());
    let all = first + second;
    let m = choose|m: int| 0 <= m < all.len() && all[m] == link;
    let prefix = if m < first.len() {
        "vpc_security_group_ids"@
    } else {
        "security_groups"@
    };
    if m < first.len() {
        assert(first[m] == link);
    } else {
        assert(second[m - first.len()] == link);
    }
    lemma_groups_origin(g, instance, edges, prefix, edges.len(), link);
    let k = choose|k: int|
        0 <= k < edges.len() && group_links(g, instance, #[trigger] edges[k], prefix).contains(
            link,
        );
    let group = g.links[edges[k]].to;
    let rules = ingress_rules(g.nodes[group].attrs);
    lemma_rule_origin(g, group, instance, rules, rules.len(), link);
    let r = choose|r: int|
        0 <= r < rules.len() && is_open_rule(#[trigger] rules[r]) && link == reach_link(
            g,
            group,
            instance,
            rules[r],
        );
    assert(rules.contains(rules[r]));
    lemma_is_ingress_rule(g.nodes[group].attrs, rules[r]);
    lemma_lets_in_everybody(rules[r]);
    lemma_reach_of(g, group, instance, rules[r]);
    assert(is_membership(g, edges[k], instance, group));
}

/// Whether an instance runs as a role, through an instance profile.
pub open spec fn runs_as(g: GraphView, instance: int, profile: int, role: int) -> bool {
    &&& 0 <= instance < g.nodes.len()
    &&& g.nodes[instance].kind is Instance
    &&& refers_to(g, instance, "iam_instance_profile"@, profile)
    &&& g.nodes[profile].kind is IamInstanceProfile
    &&& refers_to(g, profile, "role"@, role)
}

/// Whether an edge says that an instance runs as a role.
pub open spec fn is_attachment_of(
    g: GraphView,
    link: LinkView,
    instance: int,
    profile: int,
    role: int,
) -> bool {
    &&& link.from == instance
    &&& link.to == role
    &&& link.edge.kind is Attached
    &&& link.edge.evidence.file == g.nodes[instance].file
    &&& link.edge.evidence.resource_id == g.nodes[instance].id
    &&& link.edge.evidence.attr_path == "iam_instance_profile"@
    &&& link.edge.description == g.nodes[instance].id + " runs as "@ + g.nodes[role].id
        + " (via instance profile "@ + g.nodes[profile].id + ")"@
}

proof fn lemma_role_of(g: GraphView, instance: int, profile: int, role: int)
    requires
        0 <= instance < g.nodes.len(),
    ensures
        role_of(g, instance) == Some((profile, role)) <==> runs_as(g, instance, profile, role),
{
    lemma_referenced(g, instance, "iam_instance_profile"@, profile);
    lemma_referenced(g, profile, "role"@, role);
}

proof fn lemma_attached_among(g: GraphView, n: nat, instance: int, profile: int, role: int)
    requires
        0 <= instance < n <= g.nodes.len(),
        role_of(g, instance) == Some((profile, role)),
    ensures
        attached_links(g, n).contains(attached_link(g, instance, profile, role)),
    decreases n,
{
    let before = attached_links(g, (n - 1) as nat);
    let all = attached_links(g, n);
    let link = attached_link(g, instance, profile, role);
    if instance == n - 1 {
        assert(all[before.len() as int] == link);
    } else {
        lemma_attached_among(g, (n - 1) as nat, instance, profile, role);
        let m = choose|m: int| 0 <= m < before.len() && before[m] == link;
        assert(all[m] == link);
    }
}

/// Every instance that names a profile which names a role runs as the role.
pub proof fn law_instances_run_as_their_roles(g: GraphView, instance: int, profile: int, role: int)
    requires
        g.wf(),
        runs_as(g, instance, profile, role),
    ensures
        exists|i: int|
            0 <= i < classified(g).links.len() && is_attachment_of(
                g,
                #[trigger] classified(g).links[i],
                instance,
                profile,
                role,
            ),
{
    lemma_role_of(g, instance, profile, role);
    lemma_attached_among(g, g.nodes.len(), instance, profile, role);
    law_facts_keep_edges(g);
    let list = attached_links(g, g.nodes.len());
    let link = attached_link(g, instance, profile, role);
    let m = choose|m: int| 0 <= m < list.len() && list[m] == link;
    let at = grant_links(g, g.nodes.len()).len() + network_links(g, g.nodes.len()).len() + m;
    assert(semantic_links(g)[at] == link);
    assert(is_attachment_of(g, classified(g).links[g.links.len() + at], instance, profile, role));
}

/// Whether an edge says that some instance runs as some role, and it does.
pub open spec fn has_profile(g: GraphView, link: LinkView) -> bool {
    exists|instance: int, profile: int, role: int| #[trigger]
        runs_as(g, instance, profile, role) && is_attachment_of(g, link, instance, profile, role)
}

proof fn lemma_attached_origin(g: GraphView, n: nat, link: LinkView)
    requires
        n <= g.nodes.len(),
        attached_links(g, n).contains(link),
    ensures
        has_profile(g, link),
    decreases n,
{
    if n > 0 {
        let before = attached_links(g, (n - 1) as nat);
        let all = attached_links(g, n);
        let m = choose|m: int| 0 <= m < all.len() && all[m] == link;
        if m < before.len() {
            assert(before[m] == link);
            lemma_attached_origin(g, (n - 1) as nat, link);
        } else {
            let (profile, role) = role_of(g, n - 1)->Some_0;
            lemma_role_of(g, n - 1, profile, role);
            assert(runs_as(g, n - 1, profile, role));
        }
    }
}

/// The edges behind those for grants are for reachability and for roles.
pub proof fn lemma_other_kinds(g: GraphView, i: int)
    requires
        g.wf(),
        0 <= i < network_links(g, g.nodes.len()).len() + attached_links(g, g.nodes.len()).len(),
    ensures
        !((network_links(g, g.nodes.len()) + attached_links(g, g.nodes.len()))[i].edge.kind is IamGrants),
{
    let reach = network_links(g, g.nodes.len());
    let roles = attached_links(g, g.nodes.len());
    if i < reach.len() {
        assert(reach.contains(reach[i]));
        lemma_open_door(g, reach[i]);
    } else {
        assert(roles.contains(roles[i - reach.len()]));
        lemma_attached_origin(g, g.nodes.len(), roles[i - reach.len()]);
    }
}

proof fn lemma_statements_grant(
    g: GraphView,
    holder: int,
    role: int,
    list: Seq<JsonView>,
    n: nat,
    i: int,
)
    requires
        0 <= i < statements_links(g, holder, role, list, n).len(),
    ensures
        statements_links(g, holder, role, list, n)[i].edge.kind is IamGrants,
    decreases n,
{
    let before = statements_links(g, holder, role, list, (n - 1) as nat);
    if i < before.len() {
        lemma_statements_grant(g, holder, role, list, (n - 1) as nat, i);
    }
}

proof fn lemma_attachments_grant(g: GraphView, ix: int, n: nat, i: int)
    requires
        0 <= i < attachments_links(g, ix, n).len(),
    ensures
        attachments_links(g, ix, n)[i].edge.kind is IamGrants,
    decreases n,
{
    let before = attachments_links(g, ix, (n - 1) as nat);
    if i < before.len() {
        lemma_attachments_grant(g, ix, (n - 1) as nat, i);
    } else {
        let role = attached_role(g, n - 1, ix)->Some_0;
        let list = statements(g.nodes[ix].attrs, "policy"@);
        lemma_statements_grant(g, ix, role, list, list.len(), i - before.len());
    }
}

proof fn lemma_grants_grant(g: GraphView, n: nat, i: int)
    requires
        0 <= i < grant_links(g, n).len(),
    ensures
        grant_links(g, n)[i].edge.kind is IamGrants,
    decreases n,
{
    let before = grant_links(g, (n - 1) as nat);
    if i < before.len() {
        lemma_grants_grant(g, (n - 1) as nat, i);
    } else if g.nodes[n - 1].kind is IamRolePolicy {
        let role = referenced(g.links, n - 1, "role"@)->Some_0;
        let list = statements(g.nodes[n - 1].attrs, "policy"@);
        lemma_statements_grant(g, n - 1, role, list, list.len(), i - before.len());
    } else {
        lemma_attachments_grant(g, n - 1, g.nodes.len(), i - before.len());
    }
}

/// Every edge that classification adds is a grant, or what an open rule lets in to an instance, or the
/// role that an instance runs as.
pub proof fn law_added_edges_have_grounds(g: GraphView, i: int)
    requires
        g.wf(),
        g.links.len() <= i < classified(g).links.len(),
    ensures
        match classified(g).links[i].edge.kind {
            EdgeKindView::IamGrants { .. } => true,
            EdgeKindView::NetworkReachable { .. } => has_open_door(g, classified(g).links[i]),
            EdgeKindView::Attached => has_profile(g, classified(g).links[i]),
            _ => false,
        },
{
    law_facts_keep_edges(g);
    let link = classified(g).links[i];
    let grants = grant_links(g, g.nodes.len());
    let reach = network_links(g, g.nodes.len());
    let roles = attached_links(g, g.nodes.len());
    let j = i - g.links.len();
    assert(semantic_links(g)[j] == link);
    if j < grants.len() {
        assert(grants[j] == link);
        lemma_grants_grant(g, g.nodes.len(), j);
    } else if j < grants.len() + reach.len() {
        assert(reach[j - grants.len()] == link);
        lemma_open_door(g, link);
    } else {
        assert(roles[j - grants.len() - reach.len()] == link);
        lemma_attached_origin(g, g.nodes.len(), link);
    }
}

proof fn lemma_reach_prefix(
    g: GraphView,
    group: int,
    instance: int,
    rules: Seq<JsonView>,
    rule: JsonView,
    n: nat,
)
    requires
        n <= rules.len(),
    ensures
        rules_links(g, group, instance, rules.push(rule), n) == rules_links(
            g,
            group,
            instance,
            rules,
            n,
        ),
    decreases n,
{
    if n > 0 {
        lemma_reach_prefix(g, group, instance, rules, rule, (n - 1) as nat);
        assert(rules.push(rule)[n - 1] == rules[n - 1]);
    }
}

proof fn lemma_groups_prefix(
    g: GraphView,
    instance: int,
    edges: Seq<int>,
    e: int,
    prefix: Seq<char>,
    n: nat,
)
    requires
        n <= edges.len(),
    ensures
        groups_links(g, instance, edges.push(e), prefix, n) == groups_links(
            g,
            instance,
            edges,
            prefix,
            n,
        ),
    decreases n,
{
    if n > 0 {
        lemma_groups_prefix(g, instance, edges, e, prefix, (n - 1) as nat);
        assert(edges.push(e)[n - 1] == edges[n - 1]);
    }
}

/// Each open rule of a group, and each reference to a group, is good for edges of its own, though
/// there are the same already.
pub proof fn law_every_open_rule_counts(
    g: GraphView,
    group: int,
    instance: int,
    rules: Seq<JsonView>,
    rule: JsonView,
    edges: Seq<int>,
    e: int,
    prefix: Seq<char>,
)
    ensures
        rules_links(g, group, instance, Seq::empty(), 0).len() == 0,
        rules_links(g, group, instance, rules.push(rule), rules.len() + 1).len() == rules_links(
            g,
            group,
            instance,
            rules,
            rules.len(),
        ).len() + (if lets_in_everybody(rule) {
            1int
        } else {
            0int
        }),
        groups_links(g, instance, Seq::empty(), prefix, 0).len() == 0,
        groups_links(g, instance, edges.push(e), prefix, edges.len() + 1).len() == groups_links(
            g,
            instance,
            edges,
            prefix,
            edges.len(),
        ).len() + (if g.links[e].edge.kind is References && prefix.is_prefix_of(
            g.links[e].edge.evidence.attr_path,
        ) && g.nodes[g.links[e].to].kind is SecurityGroup {
            rules_links(
                g,
                g.links[e].to,
                instance,
                ingress_rules(g.nodes[g.links[e].to].attrs),
                ingress_rules(g.nodes[g.links[e].to].attrs).len(),
            ).len()
        } else {
            0
        }),
{
    lemma_reach_prefix(g, group, instance, rules, rule, rules.len());
    assert(rules.push(rule)[rules.len() as int] == rule);
    lemma_lets_in_everybody(rule);
    lemma_groups_prefix(g, instance, edges, e, prefix, edges.len());
    assert(edges.push(e)[edges.len() as int] == e);
}

/// The number of edges for reachability grows, with each instance, by those that its two attributes
/// are good for; that of edges for roles by one for each instance that runs as a role.
pub proof fn law_every_instance_counts(g: GraphView, n: nat)
    requires
        n < g.nodes.len(),
    ensures
        network_links(g, 0).len() == 0,
        network_links(g, n + 1).len() == network_links(g, n).len() + (
        if g.nodes[n as int].kind is Instance {
            groups_links(
                g,
                n as int,
                links_from(g.links, n as int),
                "vpc_security_group_ids"@,
                links_from(g.links, n as int).len(),
            ).len() + groups_links(
                g,
                n as int,
                links_from(g.links, n as int),
                "security_groups"@,
                links_from(g.links, n as int).len(),
            ).len()
        } else {
            0
        }),
        attached_links(g, 0).len() == 0,
        attached_links(g, n + 1).len() == attached_links(g, n).len() + (
        if exists|profile: int, role: int| #[trigger] runs_as(g, n as int, profile, role) {
            1int
        } else {
            0int
        }),
{
    if let Some((profile, role)) = role_of(g, n as int) {
        lemma_role_of(g, n as int, profile, role);
        assert(runs_as(g, n as int, profile, role));
    } else if exists|profile: int, role: int| #[trigger] runs_as(g, n as int, profile, role) {
        let (profile, role) = choose|profile: int, role: int| #[trigger]
            runs_as(g, n as int, profile, role);
        lemma_role_of(g, n as int, profile, role);
    }
}

} // verus!
