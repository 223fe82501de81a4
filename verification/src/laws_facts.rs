//! What the facts about resources come to: when each of them holds, in terms of what the graph holds
//! before it is classified.

use crate::actions::{
    edge_facts,
    grants_escalation,
    grants_wildcard,
    grants_write,
    is_escalation,
    is_wildcard,
    is_write,
};
use crate::classify::{classifiable, classified, law_facts_are_recorded, recorded};
use crate::facts::{
    bucket_is_public,
    derived_entries,
    has_open_ingress,
    has_star,
    has_wildcard_trust,
    ingress_rules,
    is_open_cidr,
    is_open_rule,
    is_publicly_invokable,
    is_truthy,
    opens_bucket,
    opens_function,
    referenced,
    refers_at,
    statements,
    tagged_sensitive,
    takes_facts,
    target_from,
    trusts_everyone,
};
use crate::graph::{GraphView, lemma_links_from, links_from};
use crate::json::{JsonView, lemma_key_found};
use crate::rendering::lowercase;
use crate::text::occurs;
use crate::types::EdgeKindView;
use vstd::prelude::*;

verus! {

/// The fact under a key about the node at `ix`, once the graph has been classified.
pub open spec fn fact(g: GraphView, ix: int, key: Seq<char>) -> Option<JsonView> {
    match classified(g).nodes[ix].attrs.get("_derived"@) {
        Some(facts) => facts.get(key),
        None => None,
    }
}

/// A fact that has been recorded is found.
proof fn lemma_fact(g: GraphView, ix: int, key: Seq<char>, value: bool)
    requires
        0 <= ix < g.nodes.len(),
        recorded(g, ix, key) == Some(JsonView::Bool(value)),
    ensures
        fact(g, ix, key) == Some(JsonView::Bool(value)),
{
    let attrs = classified(g).nodes[ix].attrs;
    if !(attrs.get("_derived"@) matches Some(JsonView::Object(_))) {
        assert(derived_entries(attrs) =~= Seq::empty());
    }
}

/// Whether edge `e` leads from the attribute at `path` of a node to another.
pub open spec fn is_reference(g: GraphView, e: int, from: int, path: Seq<char>, to: int) -> bool {
    &&& 0 <= e < g.links.len()
    &&& g.links[e].from == from
    &&& g.links[e].to == to
    &&& g.links[e].edge.kind is References
    &&& g.links[e].edge.evidence.attr_path == path
}

/// Whether the last reference from the attribute at `path` of a node leads to another.
pub open spec fn refers_to(g: GraphView, from: int, path: Seq<char>, to: int) -> bool {
    exists|e: int| #[trigger]
        is_reference(g, e, from, path, to) && forall|d: int, other: int|
            d > e ==> !#[trigger] is_reference(g, d, from, path, other)
}

proof fn lemma_target_from(g: GraphView, from: int, path: Seq<char>, k: int, to: int)
    requires
        0 <= k <= links_from(g.links, from).len(),
    ensures
        target_from(g.links, links_from(g.links, from), path, k) == Some(to) <==> exists|j: int|
            k <= j < links_from(g.links, from).len() && is_reference(
                g,
                #[trigger] links_from(g.links, from)[j],
                from,
                path,
                to,
            ) && forall|i: int|
                k <= i < j ==> !refers_at(
                    g.links[#[trigger] links_from(g.links, from)[i]].edge,
                    path,
                ),
    decreases links_from(g.links, from).len() - k,
{
    let edges = links_from(g.links, from);
    lemma_links_from(g.links, from);
    if k < edges.len() {
        lemma_target_from(g, from, path, k + 1, to);
        let here = refers_at(g.links[edges[k]].edge, path);
        if here {
            if g.links[edges[k]].to == to {
                assert(is_reference(g, edges[k], from, path, to));
            }
        } else if target_from(g.links, edges, path, k + 1) == Some(to) {
            let j = choose|j: int|
                k + 1 <= j < edges.len() && is_reference(g, #[trigger] edges[j], from, path, to)
                    && forall|i: int|
                    k + 1 <= i < j ==> !refers_at(g.links[#[trigger] edges[i]].edge, path);
            assert(is_reference(g, edges[j], from, path, to));
        }
    }
}

/// What an attribute refers to is where its last reference leads.
pub proof fn lemma_referenced(g: GraphView, from: int, path: Seq<char>, to: int)
    ensures
        referenced(g.links, from, path) == Some(to) <==> refers_to(g, from, path, to),
{
    let edges = links_from(g.links, from);
    lemma_links_from(g.links, from);
    lemma_target_from(g, from, path, 0, to);
    if referenced(g.links, from, path) == Some(to) {
        let j = choose|j: int|
            0 <= j < edges.len() && is_reference(g, #[trigger] edges[j], from, path, to)
                && forall|i: int|
                0 <= i < j ==> !refers_at(g.links[#[trigger] edges[i]].edge, path);
        let e = edges[j];
        assert forall|d: int, other: int| d > e implies !#[trigger] is_reference(
            g,
            d,
            from,
            path,
            other,
        ) by {
            if is_reference(g, d, from, path, other) {
                let i = choose|i: int| 0 <= i < edges.len() && edges[i] == d;
                assert(i < j) by {
                    if j < i {
                        assert(edges[j] > edges[i]);
                    }
                }
                assert(refers_at(g.links[edges[i]].edge, path));
            }
        }
    }
    if refers_to(g, from, path, to) {
        let e = choose|e: int| #[trigger]
            is_reference(g, e, from, path, to) && forall|d: int, other: int|
                d > e ==> !#[trigger] is_reference(g, d, from, path, other);
        let j = choose|j: int| 0 <= j < edges.len() && edges[j] == e;
        assert forall|i: int| 0 <= i < j implies !refers_at(
            g.links[#[trigger] edges[i]].edge,
            path,
        ) by {
            assert(edges[i] > edges[j]);
            if refers_at(g.links[edges[i]].edge, path) {
                assert(is_reference(g, edges[i], from, path, g.links[edges[i]].to));
            }
        }
        assert(is_reference(g, edges[j], from, path, to));
    }
}

/// Whether a key is one of the four protections of a public access block.
pub open spec fn is_protection(key: Seq<char>) -> bool {
    ||| key == "block_public_acls"@
    ||| key == "block_public_policy"@
    ||| key == "ignore_public_acls"@
    ||| key == "restrict_public_buckets"@
}

/// A bucket is public if a public access block refers to it that has the value `false` under any of
/// its four protections.
pub proof fn law_a_protection_switched_off_makes_public(
    g: GraphView,
    bucket: int,
    e: int,
    protection: Seq<char>,
)
    requires
        0 <= bucket < g.nodes.len(),
        g.nodes[bucket].kind is S3Bucket,
        g.nodes[bucket].attrs is Object,
        0 <= e < g.links.len(),
        g.links[e].to == bucket,
        g.nodes[g.links[e].from].kind is S3BucketPublicAccessBlock,
        is_protection(protection),
        g.nodes[g.links[e].from].attrs.get(protection) == Some(JsonView::Bool(false)),
    ensures
        fact(g, bucket, "public"@) == Some(JsonView::Bool(true)),
{
    law_facts_are_recorded(g, bucket);
    assert(opens_bucket(g.nodes[g.links[e].from]));
    lemma_fact(g, bucket, "public"@, bucket_is_public(g, bucket));
}

/// A bucket is public if an access control list refers to it that lets everybody read, or read and
/// write.
pub proof fn law_a_public_list_makes_public(g: GraphView, bucket: int, e: int, acl: Seq<char>)
    requires
        0 <= bucket < g.nodes.len(),
        g.nodes[bucket].kind is S3Bucket,
        g.nodes[bucket].attrs is Object,
        0 <= e < g.links.len(),
        g.links[e].to == bucket,
        g.nodes[g.links[e].from].kind is S3BucketAcl,
        acl == "public-read"@ || acl == "public-read-write"@,
        g.nodes[g.links[e].from].attrs.get("acl"@) == Some(JsonView::String(acl)),
    ensures
        fact(g, bucket, "public"@) == Some(JsonView::Bool(true)),
{
    law_facts_are_recorded(g, bucket);
    assert(opens_bucket(g.nodes[g.links[e].from]));
    lemma_fact(g, bucket, "public"@, bucket_is_public(g, bucket));
}

/// A bucket is not public if no public access block refers to it that has the value `false` under a
/// protection, and no access control list that lets everybody in.
pub proof fn law_other_buckets_are_private(g: GraphView, bucket: int)
    requires
        0 <= bucket < g.nodes.len(),
        g.nodes[bucket].kind is S3Bucket,
        g.nodes[bucket].attrs is Object,
        forall|e: int, key: Seq<char>|
            0 <= e < g.links.len() && g.links[e].to == bucket
                && g.nodes[g.links[e].from].kind is S3BucketPublicAccessBlock && is_protection(key)
                ==> #[trigger] g.nodes[g.links[e].from].attrs.get(key) != Some(
                JsonView::Bool(false),
            ),
        forall|e: int|
            0 <= e < g.links.len() && (#[trigger] g.links[e]).to == bucket
                && g.nodes[g.links[e].from].kind is S3BucketAcl ==> {
                let acl = g.nodes[g.links[e].from].attrs.get("acl"@);
                acl != Some(JsonView::String("public-read"@)) && acl != Some(
                    JsonView::String("public-read-write"@),
                )
            },
    ensures
        fact(g, bucket, "public"@) == Some(JsonView::Bool(false)),
{
    law_facts_are_recorded(g, bucket);
    if bucket_is_public(g, bucket) {
        let e = choose|e: int|
            0 <= e < g.links.len() && (#[trigger] g.links[e]).to == bucket && opens_bucket(
                g.nodes[g.links[e].from],
            );
        let attrs = g.nodes[g.links[e].from].attrs;
        assert(is_protection("block_public_acls"@));
        assert(attrs.get("block_public_acls"@) != Some(JsonView::Bool(false)) || !(
        g.nodes[g.links[e].from].kind is S3BucketPublicAccessBlock));
        assert(attrs.get("block_public_policy"@) != Some(JsonView::Bool(false)) || !(
        g.nodes[g.links[e].from].kind is S3BucketPublicAccessBlock));
        assert(attrs.get("ignore_public_acls"@) != Some(JsonView::Bool(false)) || !(
        g.nodes[g.links[e].from].kind is S3BucketPublicAccessBlock));
        assert(attrs.get("restrict_public_buckets"@) != Some(JsonView::Bool(false)) || !(
        g.nodes[g.links[e].from].kind is S3BucketPublicAccessBlock));
    }
    lemma_fact(g, bucket, "public"@, false);
}

/// Whether the value of a tag means yes: it is true, or a text that reads `true`, `yes` or `1`.
pub open spec fn means_yes(v: JsonView) -> bool {
    ||| v == JsonView::Bool(true)
    ||| v matches JsonView::String(s) && (lowercase(s) == "true"@ || lowercase(s) == "yes"@
        || lowercase(s) == "1"@)
}

/// A bucket is sensitive exactly if one of its tags is called `sensitive`, whatever the case of the
/// letters, and means yes.
pub proof fn law_tags_make_sensitive(g: GraphView, bucket: int)
    requires
        0 <= bucket < g.nodes.len(),
        g.nodes[bucket].kind is S3Bucket,
        g.nodes[bucket].attrs is Object,
    ensures
        fact(g, bucket, "sensitive"@) == Some(
            JsonView::Bool(
                g.nodes[bucket].attrs.get("tags"@) matches Some(JsonView::Object(tags)) && exists|
                    i: int,
                |
                    0 <= i < tags.len() && lowercase((#[trigger] tags[i]).0) == "sensitive"@
                        && means_yes(tags[i].1),
            ),
        ),
{
    law_facts_are_recorded(g, bucket);
    let attrs = g.nodes[bucket].attrs;
    if let Some(JsonView::Object(tags)) = attrs.get("tags"@) {
        if tagged_sensitive(attrs) {
            let i = choose|i: int|
                0 <= i < tags.len() && lowercase((#[trigger] tags[i]).0) == "sensitive"@
                    && is_truthy(tags[i].1);
            assert(means_yes(tags[i].1));
        }
        if exists|i: int|
            0 <= i < tags.len() && lowercase((#[trigger] tags[i]).0) == "sensitive"@ && means_yes(
                tags[i].1,
            ) {
            let i = choose|i: int|
                0 <= i < tags.len() && lowercase((#[trigger] tags[i]).0) == "sensitive"@
                    && means_yes(tags[i].1);
            assert(is_truthy(tags[i].1));
        }
    }
    lemma_fact(g, bucket, "sensitive"@, tagged_sensitive(attrs));
}

/// Whether a value is an item of a list, or the only one where there is no list.
pub open spec fn is_item(list: JsonView, item: JsonView) -> bool {
    match list {
        JsonView::Array(items) => items.contains(item),
        _ => item == list,
    }
}

/// Whether a value is a statement of the policy document under a key.
pub open spec fn is_statement(attrs: JsonView, key: Seq<char>, statement: JsonView) -> bool {
    attrs.get(key) matches Some(document) && document.get("Statement"@) matches Some(list)
        && is_item(list, statement)
}

/// Statements are what stands under `Statement`.
pub proof fn lemma_is_statement(attrs: JsonView, key: Seq<char>, statement: JsonView)
    ensures
        statements(attrs, key).contains(statement) <==> is_statement(attrs, key, statement),
{
    if is_statement(attrs, key, statement) {
        let list = attrs.get(key)->Some_0.get("Statement"@)->Some_0;
        if !(list is Array) {
            assert(list.listed()[0] == statement);
        }
    }
}

/// Whether a value is `*`, or a list that holds one, or that holds a list that does.
pub open spec fn holds_star(v: JsonView) -> bool
    decreases v,
{
    match v {
        JsonView::String(s) => s == "*"@,
        JsonView::Array(items) => exists|i: int|
            0 <= i < items.len() && holds_star(#[trigger] items[i]),
        _ => false,
    }
}

proof fn lemma_holds_star(v: JsonView)
    ensures
        has_star(v) == holds_star(v),
    decreases v,
{
    if let JsonView::Array(items) = v {
        assert forall|i: int| 0 <= i < items.len() implies has_star(#[trigger] items[i])
            == holds_star(items[i]) by {
            lemma_holds_star(items[i]);
        }
        if has_star(v) {
            let i = choose|i: int| 0 <= i < items.len() && has_star(#[trigger] items[i]);
            assert(holds_star(items[i]));
        }
        if holds_star(v) {
            let i = choose|i: int| 0 <= i < items.len() && holds_star(#[trigger] items[i]);
            assert(has_star(items[i]));
        }
    }
}

/// Whether a statement allows something to everybody: its principal is `*`, or its AWS principal is
/// or holds a `*`.
pub open spec fn allows_everybody(statement: JsonView) -> bool {
    &&& statement.get("Effect"@) == Some(JsonView::String("Allow"@))
    &&& match statement.get("Principal"@) {
        Some(principal) => principal == JsonView::String("*"@) || match principal.get("AWS"@) {
            Some(v) => holds_star(v),
            None => false,
        },
        None => false,
    }
}

/// A role trusts everybody exactly if any statement of its trust policy, whichever, allows something
/// to everybody.
pub proof fn law_any_open_statement_is_wildcard_trust(g: GraphView, role: int)
    requires
        0 <= role < g.nodes.len(),
        g.nodes[role].kind is IamRole,
        g.nodes[role].attrs is Object,
    ensures
        fact(g, role, "wildcard_trust"@) == Some(
            JsonView::Bool(
                exists|statement: JsonView| #[trigger]
                    is_statement(g.nodes[role].attrs, "assume_role_policy"@, statement)
                        && allows_everybody(statement),
            ),
        ),
{
    law_facts_are_recorded(g, role);
    let attrs = g.nodes[role].attrs;
    let key = "assume_role_policy"@;
    let list = statements(attrs, key);
    assert forall|statement: JsonView| #[trigger]
        is_statement(attrs, key, statement) implies trusts_everyone(statement) == allows_everybody(
        statement,
    ) by {
        if let Some(principal) = statement.get("Principal"@) {
            if let Some(v) = principal.get("AWS"@) {
                lemma_holds_star(v);
            }
        }
    }
    if has_wildcard_trust(attrs) {
        let i = choose|i: int| 0 <= i < list.len() && trusts_everyone(#[trigger] list[i]);
        assert(list.contains(list[i]));
        lemma_is_statement(attrs, key, list[i]);
    }
    if exists|statement: JsonView| #[trigger]
        is_statement(attrs, key, statement) && allows_everybody(statement) {
        let statement = choose|statement: JsonView| #[trigger]
            is_statement(attrs, key, statement) && allows_everybody(statement);
        lemma_is_statement(attrs, key, statement);
        let i = choose|i: int| 0 <= i < list.len() && list[i] == statement;
        assert(trusts_everyone(list[i]));
    }
    lemma_fact(g, role, "wildcard_trust"@, has_wildcard_trust(attrs));
}

/// Whether an ingress rule lets in the whole internet: an address range of it is that of all IPv4 or
/// all IPv6 addresses.
pub open spec fn lets_in_everybody(rule: JsonView) -> bool {
    rule.get("cidr_blocks"@) matches Some(ranges) && (is_item(
        ranges,
        JsonView::String("0.0.0.0/0"@),
    ) || is_item(ranges, JsonView::String("::/0"@)))
}

/// Whether a value is an ingress rule of a security group.
pub open spec fn is_ingress_rule(attrs: JsonView, rule: JsonView) -> bool {
    attrs.get("ingress"@) matches Some(list) && is_item(list, rule)
}

/// A rule is open exactly if it lets in the whole internet.
pub proof fn lemma_lets_in_everybody(rule: JsonView)
    ensures
        is_open_rule(rule) <==> lets_in_everybody(rule),
{
    if let Some(ranges) = rule.get("cidr_blocks"@) {
        let list = ranges.listed();
        if is_open_rule(rule) {
            let i = choose|i: int| 0 <= i < list.len() && is_open_cidr(#[trigger] list[i]);
            assert(list.contains(list[i]));
            assert(list[i] == JsonView::String("0.0.0.0/0"@) || list[i] == JsonView::String(
                "::/0"@,
            ));
        }
        if lets_in_everybody(rule) {
            let range = if is_item(ranges, JsonView::String("0.0.0.0/0"@)) {
                JsonView::String("0.0.0.0/0"@)
            } else {
                JsonView::String("::/0"@)
            };
            if !(ranges is Array) {
                assert(list[0] == range);
            }
            let i = choose|i: int| 0 <= i < list.len() && list[i] == range;
            assert(is_open_cidr(list[i]));
        }
    }
}

/// The ingress rules are what stands under `ingress`.
pub proof fn lemma_is_ingress_rule(attrs: JsonView, rule: JsonView)
    ensures
        ingress_rules(attrs).contains(rule) <==> is_ingress_rule(attrs, rule),
{
    if is_ingress_rule(attrs, rule) {
        let list = attrs.get("ingress"@)->Some_0;
        if !(list is Array) {
            assert(list.listed()[0] == rule);
        }
    }
}

/// A security group is open exactly if one of its ingress rules, whichever, lets in the whole
/// internet.
pub proof fn law_any_open_rule_opens_a_group(g: GraphView, group: int)
    requires
        0 <= group < g.nodes.len(),
        g.nodes[group].kind is SecurityGroup,
        g.nodes[group].attrs is Object,
    ensures
        fact(g, group, "open_ingress"@) == Some(
            JsonView::Bool(
                exists|rule: JsonView| #[trigger]
                    is_ingress_rule(g.nodes[group].attrs, rule) && lets_in_everybody(rule),
            ),
        ),
{
    law_facts_are_recorded(g, group);
    let attrs = g.nodes[group].attrs;
    let list = ingress_rules(attrs);
    if has_open_ingress(attrs) {
        let i = choose|i: int| 0 <= i < list.len() && is_open_rule(#[trigger] list[i]);
        assert(list.contains(list[i]));
        lemma_is_ingress_rule(attrs, list[i]);
        lemma_lets_in_everybody(list[i]);
    }
    if exists|rule: JsonView| #[trigger]
        is_ingress_rule(attrs, rule) && lets_in_everybody(rule) {
        let rule = choose|rule: JsonView| #[trigger]
            is_ingress_rule(attrs, rule) && lets_in_everybody(rule);
        lemma_is_ingress_rule(attrs, rule);
        lemma_lets_in_everybody(rule);
        let i = choose|i: int| 0 <= i < list.len() && list[i] == rule;
        assert(is_open_rule(list[i]));
    }
    lemma_fact(g, group, "open_ingress"@, has_open_ingress(attrs));
}

/// Whether the node at `p` is a permission for everybody to invoke the function at `function`, which
/// no source restricts.
pub open spec fn permits_everybody(g: GraphView, p: int, function: int) -> bool {
    let attrs = g.nodes[p].attrs;
    &&& 0 <= p < g.nodes.len()
    &&& g.nodes[p].kind is LambdaPermission
    &&& refers_to(g, p, "function_name"@, function)
    &&& attrs.get("principal"@) == Some(JsonView::String("*"@))
    &&& (attrs.get("action"@) == Some(JsonView::String("lambda:InvokeFunction"@)) || attrs.get(
        "action"@,
    ) == Some(JsonView::String("*"@)))
    &&& attrs.get("source_arn"@) is None
}

/// A function is publicly invokable exactly if a permission, wherever it is declared, lets everybody
/// invoke it.
pub proof fn law_permissions_open_functions(g: GraphView, function: int)
    requires
        0 <= function < g.nodes.len(),
        g.nodes[function].kind is LambdaFunction,
        g.nodes[function].attrs is Object,
    ensures
        fact(g, function, "publicly_invokable"@) == Some(
            JsonView::Bool(exists|p: int| #[trigger] permits_everybody(g, p, function)),
        ),
{
    law_facts_are_recorded(g, function);
    if is_publicly_invokable(g, function) {
        let p = choose|p: int|
            0 <= p < g.nodes.len() && #[trigger] opens_function(g, p, function);
        lemma_referenced(g, p, "function_name"@, function);
        assert(permits_everybody(g, p, function));
    }
    if exists|p: int| #[trigger] permits_everybody(g, p, function) {
        let p = choose|p: int| #[trigger] permits_everybody(g, p, function);
        lemma_referenced(g, p, "function_name"@, function);
        assert(opens_function(g, p, function));
    }
    lemma_fact(g, function, "publicly_invokable"@, is_publicly_invokable(g, function));
}

/// Whether facts are kept about a kind of resource.
pub open spec fn is_watched(g: GraphView, ix: int) -> bool {
    let kind = g.nodes[ix].kind;
    kind is S3Bucket || kind is IamRole || kind is SecurityGroup || kind is LambdaFunction
}

/// Nothing at all changes about a resource of any other kind, and all resources keep what is not a
/// fact.
pub proof fn law_other_resources_stay_as_they_are(g: GraphView, ix: int)
    requires
        0 <= ix < g.nodes.len(),
        !is_watched(g, ix),
    ensures
        classified(g).nodes[ix] == g.nodes[ix],
{
}

/// Whether an action is one that changes its target: `*`, or one whose name holds one of six words.
pub open spec fn changes_target(action: Seq<char>) -> bool {
    action == "*"@ || exists|word: Seq<char>|
        (word == "Put"@ || word == "Delete"@ || word == "Write"@ || word == "Create"@ || word
            == "Update"@ || word == "Upload"@) && #[trigger] occurs(action, word)
}

/// Whether an action is one by which a principal can change what it may do.
pub open spec fn changes_permissions(action: Seq<char>) -> bool {
    let name = lowercase(action);
    ||| name == "*"@
    ||| name == "iam:*"@
    ||| name == "iam:putrolepolicy"@
    ||| name == "iam:attachrolepolicy"@
    ||| name == "iam:createpolicyversion"@
    ||| name == "iam:setdefaultpolicyversion"@
    ||| name == "iam:attachuserpolicy"@
    ||| name == "iam:attachgrouppolicy"@
    ||| name == "iam:addusertogroup"@
    ||| name == "iam:updateassumerolepolicy"@
    ||| name == "iam:passrole"@
}

proof fn lemma_wildcard(a: Seq<char>)
    ensures
        is_wildcard(a) <==> (a == "*"@ || exists|service: Seq<char>|
            a == #[trigger] (service + ":*"@)),
{
    let mark = ":*"@;
    if mark.is_suffix_of(a) {
        let service = a.take(a.len() - mark.len());
        assert(a =~= service + mark);
    }
    if exists|service: Seq<char>| a == #[trigger] (service + ":*"@) {
        let service = choose|service: Seq<char>| a == #[trigger] (service + ":*"@);
        assert(a.subrange(a.len() - mark.len(), a.len() as int) =~= mark);
    }
}

proof fn lemma_write(a: Seq<char>)
    ensures
        is_write(a) <==> changes_target(a),
{
    if is_write(a) && a != "*"@ {
        assert(occurs(a, "Put"@) || occurs(a, "Delete"@) || occurs(a, "Write"@) || occurs(
            a,
            "Create"@,
        ) || occurs(a, "Update"@) || occurs(a, "Upload"@));
    }
}

/// A grant writes, is a wildcard or escalates exactly if any of its actions does so, whichever: the
/// facts about a grant are those about its actions taken together.
pub proof fn law_any_action_tells(
    actions: Seq<Seq<char>>,
    effect: Seq<char>,
    resource_match: Seq<char>,
)
    ensures
        ({
            let facts = edge_facts(EdgeKindView::IamGrants { actions, effect, resource_match });
            &&& facts.get("grants_write"@) == Some(
                JsonView::Bool(exists|a: Seq<char>| #[trigger] actions.contains(a) && changes_target(a)),
            )
            &&& facts.get("grants_wildcard"@) == Some(
                JsonView::Bool(
                    exists|a: Seq<char>| #[trigger]
                        actions.contains(a) && (a == "*"@ || exists|service: Seq<char>|
                            a == #[trigger] (service + ":*"@)),
                ),
            )
            &&& facts.get("grants_iam_escalation"@) == Some(
                JsonView::Bool(
                    exists|a: Seq<char>| #[trigger] actions.contains(a) && changes_permissions(a),
                ),
            )
        }),
{
    reveal_strlit("grants_write");
    reveal_strlit("grants_wildcard");
    reveal_strlit("grants_iam_escalation");
    let entries = edge_facts(
        EdgeKindView::IamGrants { actions, effect, resource_match },
    )->Object_0;
    lemma_key_found(entries, "grants_iam_escalation"@, 0, 0);
    assert("grants_wildcard"@.len() != "grants_iam_escalation"@.len());
    assert("grants_write"@.len() != "grants_iam_escalation"@.len());
    assert("grants_write"@.len() != "grants_wildcard"@.len());
    lemma_key_found(entries, "grants_wildcard"@, 0, 1);
    lemma_key_found(entries, "grants_write"@, 0, 2);
    assert forall|a: Seq<char>| #[trigger] actions.contains(a) implies (is_write(a)
        == changes_target(a)) && (is_wildcard(a) == (a == "*"@ || exists|
        service: Seq<char>,
    | a == #[trigger] (service + ":*"@))) && (is_escalation(a)
        == changes_permissions(a)) by {
        lemma_write(a);
        lemma_wildcard(a);
    }
    if grants_write(actions) {
        let i = choose|i: int|
            0 <= i < actions.len() && is_write(#[trigger] actions[i]);
        assert(actions.contains(actions[i]));
    }
    if grants_wildcard(actions) {
        let i = choose|i: int|
            0 <= i < actions.len() && is_wildcard(#[trigger] actions[i]);
        assert(actions.contains(actions[i]));
    }
    if grants_escalation(actions) {
        let i = choose|i: int|
            0 <= i < actions.len() && is_escalation(#[trigger] actions[i]);
        assert(actions.contains(actions[i]));
    }
    assert forall|a: Seq<char>| #[trigger] actions.contains(a) implies (is_write(a)
        ==> grants_write(actions)) && (is_wildcard(a)
        ==> grants_wildcard(actions)) && (is_escalation(a)
        ==> grants_escalation(actions)) by {
        let i = choose|i: int| 0 <= i < actions.len() && actions[i] == a;
        assert(actions[i] == a);
    }
}

/// A graph can be classified exactly if the edges that it then has can be counted, and none of the
/// nodes that facts are about has something else where the facts go.
pub proof fn law_what_can_be_classified(g: GraphView)
    ensures
        classifiable(g) <==> (classified(g).links.len() <= u32::MAX && forall|ix: int|
            0 <= ix < g.nodes.len() && ((#[trigger] g.nodes[ix]).kind is S3Bucket
                || g.nodes[ix].kind is IamRole || g.nodes[ix].kind is SecurityGroup
                || g.nodes[ix].kind is LambdaFunction) ==> (g.nodes[ix].attrs.get("_derived"@) is None
                || g.nodes[ix].attrs.get("_derived"@)->Some_0 is Object)),
{
    if classifiable(g) {
        assert forall|ix: int|
            0 <= ix < g.nodes.len() && ((#[trigger] g.nodes[ix]).kind is S3Bucket
                || g.nodes[ix].kind is IamRole || g.nodes[ix].kind is SecurityGroup
                || g.nodes[ix].kind is LambdaFunction) implies (g.nodes[ix].attrs.get(
            "_derived"@,
        ) is None || g.nodes[ix].attrs.get("_derived"@)->Some_0 is Object) by {
            assert(takes_facts(g.nodes[ix].attrs));
        }
    }
}

} // verus!
