//! The facts about resources: whether a bucket is public or sensitive, whom a role trusts, what a
//! security group lets in, and who can invoke a function. They stand under `_derived` among the
//! attributes, so that the conditions of rules can be simple comparisons.

use crate::attrs::{attr_bool, attr_is, bool_attr, no_values, text_attr};
use crate::graph::{
    GraphView,
    IacGraph,
    LinkView,
    lemma_links_from,
    lemma_links_into,
    links_from,
    links_into,
    positions,
};
use crate::json::{
    Json,
    JsonView,
    find_key,
    insert_entry,
    json_entries,
    json_items,
    law_lookup_after_insert,
    lemma_json_model,
    lookup,
    reference_views,
    with_entry,
};
use crate::rendering::{lowercase, to_lowercase};
use crate::text::same_text;
use crate::types::{Edge, EdgeKind, EdgeView, Node, NodeView, ResourceKind, ResourceKindView};
use vstd::prelude::*;

verus! {

/// Whether a public access block leaves all four of its protections on.
pub open spec fn blocks_everything(attrs: JsonView) -> bool {
    &&& bool_attr(attrs, "block_public_acls"@, true)
    &&& bool_attr(attrs, "block_public_policy"@, true)
    &&& bool_attr(attrs, "ignore_public_acls"@, true)
    &&& bool_attr(attrs, "restrict_public_buckets"@, true)
}

/// Whether an access control list is one that lets everybody in.
pub open spec fn is_public_acl(attrs: JsonView) -> bool {
    text_attr(attrs, "acl"@) == Some("public-read"@) || text_attr(attrs, "acl"@) == Some(
        "public-read-write"@,
    )
}

/// Whether a node makes public the bucket that it refers to: it is a public access block with a
/// protection switched off, or a public access control list.
pub open spec fn opens_bucket(node: NodeView) -> bool {
    match node.kind {
        ResourceKindView::S3BucketPublicAccessBlock => !blocks_everything(node.attrs),
        ResourceKindView::S3BucketAcl => is_public_acl(node.attrs),
        _ => false,
    }
}

/// Whether a bucket is public. One that nothing refers to is not.
pub open spec fn bucket_is_public(g: GraphView, ix: int) -> bool {
    exists|e: int|
        0 <= e < g.links.len() && (#[trigger] g.links[e]).to == ix && opens_bucket(
            g.nodes[g.links[e].from],
        )
}

/// Whether the value of a tag means yes.
pub open spec fn is_truthy(v: JsonView) -> bool {
    match v {
        JsonView::Bool(b) => b,
        JsonView::String(s) => lowercase(s) == "true"@ || lowercase(s) == "yes"@ || lowercase(s)
            == "1"@,
        _ => false,
    }
}

/// Whether a resource has a tag `sensitive`, whatever the case of its letters, that means yes.
pub open spec fn tagged_sensitive(attrs: JsonView) -> bool {
    match attrs.get("tags"@) {
        Some(JsonView::Object(tags)) => exists|i: int|
            0 <= i < tags.len() && lowercase((#[trigger] tags[i]).0) == "sensitive"@ && is_truthy(
                tags[i].1,
            ),
        _ => false,
    }
}

/// Whether a value is `*`, or a list with a `*` in it.
pub open spec fn has_star(v: JsonView) -> bool
    decreases v,
{
    match v {
        JsonView::String(s) => s == "*"@,
        JsonView::Array(items) => exists|i: int|
            0 <= i < items.len() && has_star(#[trigger] items[i]),
        _ => false,
    }
}

/// Whether a statement allows something to every AWS principal.
pub open spec fn trusts_everyone(statement: JsonView) -> bool {
    text_attr(statement, "Effect"@) == Some("Allow"@) && match statement.get("Principal"@) {
        Some(JsonView::String(s)) => s == "*"@,
        Some(principal) => match principal.get("AWS"@) {
            Some(v) => has_star(v),
            None => false,
        },
        None => false,
    }
}

/// The statements of the policy document under a key.
pub open spec fn statements(attrs: JsonView, key: Seq<char>) -> Seq<JsonView> {
    match attrs.get(key) {
        Some(policy) => match policy.get("Statement"@) {
            Some(list) => list.listed(),
            None => Seq::empty(),
        },
        None => Seq::empty(),
    }
}

/// Whether a role lets every AWS principal assume it.
pub open spec fn has_wildcard_trust(attrs: JsonView) -> bool {
    exists|i: int|
        0 <= i < statements(attrs, "assume_role_policy"@).len() && trusts_everyone(
            #[trigger] statements(attrs, "assume_role_policy"@)[i],
        )
}

/// Whether a value is the address range of the whole internet.
pub open spec fn is_open_cidr(v: JsonView) -> bool {
    v.as_str() == Some("0.0.0.0/0"@) || v.as_str() == Some("::/0"@)
}

/// Whether an ingress rule lets in the whole internet.
pub open spec fn is_open_rule(rule: JsonView) -> bool {
    match rule.get("cidr_blocks"@) {
        Some(cidrs) => exists|i: int|
            0 <= i < cidrs.listed().len() && is_open_cidr(#[trigger] cidrs.listed()[i]),
        None => false,
    }
}

/// The ingress rules of a security group.
pub open spec fn ingress_rules(attrs: JsonView) -> Seq<JsonView> {
    match attrs.get("ingress"@) {
        Some(list) => list.listed(),
        None => Seq::empty(),
    }
}

/// Whether a security group lets in the whole internet.
pub open spec fn has_open_ingress(attrs: JsonView) -> bool {
    exists|i: int|
        0 <= i < ingress_rules(attrs).len() && is_open_rule(#[trigger] ingress_rules(attrs)[i])
}

/// Whether an edge is a reference from the attribute at a path.
pub open spec fn refers_at(edge: EdgeView, path: Seq<char>) -> bool {
    edge.kind is References && edge.evidence.attr_path == path
}

/// The target of the first of some edges, from the `k`-th on, that is a reference from the
/// attribute at a path.
pub open spec fn target_from(
    links: Seq<LinkView>,
    edges: Seq<int>,
    path: Seq<char>,
    k: int,
) -> Option<int>
    decreases edges.len() - k,
{
    if k < 0 || k >= edges.len() {
        None
    } else if refers_at(links[edges[k]].edge, path) {
        Some(links[edges[k]].to)
    } else {
        target_from(links, edges, path, k + 1)
    }
}

/// The node that the attribute at a path of a node refers to. Of several, the last one that the
/// source gives.
pub open spec fn referenced(links: Seq<LinkView>, ix: int, path: Seq<char>) -> Option<int> {
    target_from(links, links_from(links, ix), path, 0)
}

/// Whether a permission lets everybody invoke the function that it is for: it grants invocation to
/// the principal `*`, and no source restricts it.
pub open spec fn lets_everyone_invoke(attrs: JsonView) -> bool {
    &&& (text_attr(attrs, "action"@) == Some("lambda:InvokeFunction"@) || text_attr(
        attrs,
        "action"@,
    ) == Some("*"@))
    &&& text_attr(attrs, "principal"@) == Some("*"@)
    &&& attrs.get("source_arn"@) is None
}

/// Whether a node is a permission that lets everybody invoke the function at `ix`.
pub open spec fn opens_function(g: GraphView, p: int, ix: int) -> bool {
    &&& g.nodes[p].kind is LambdaPermission
    &&& referenced(g.links, p, "function_name"@) == Some(ix)
    &&& lets_everyone_invoke(g.nodes[p].attrs)
}

/// Whether everybody can invoke a function.
pub open spec fn is_publicly_invokable(g: GraphView, ix: int) -> bool {
    exists|p: int| 0 <= p < g.nodes.len() && #[trigger] opens_function(g, p, ix)
}

/// The entries of the object under `_derived`.
pub open spec fn derived_entries(attrs: JsonView) -> Seq<(Seq<char>, JsonView)> {
    match attrs.get("_derived"@) {
        Some(JsonView::Object(entries)) => entries,
        _ => Seq::empty(),
    }
}

/// Attributes with a fact added under `_derived`.
pub open spec fn with_fact(attrs: JsonView, key: Seq<char>, value: bool) -> JsonView {
    match attrs {
        JsonView::Object(entries) => JsonView::Object(
            with_entry(
                entries,
                "_derived"@,
                JsonView::Object(with_entry(derived_entries(attrs), key, JsonView::Bool(value))),
            ),
        ),
        other => other,
    }
}

/// Whether facts can be added to attributes: nothing but an object stands under `_derived`.
pub open spec fn takes_facts(attrs: JsonView) -> bool {
    match attrs.get("_derived"@) {
        Some(v) => v is Object,
        None => true,
    }
}

/// Whether facts are derived about resources of a kind.
pub open spec fn has_facts(kind: ResourceKindView) -> bool {
    kind is S3Bucket || kind is IamRole || kind is SecurityGroup || kind is LambdaFunction
}

/// The attributes of a node with the facts about it.
pub open spec fn attrs_with_facts(g: GraphView, ix: int) -> JsonView {
    let attrs = g.nodes[ix].attrs;
    match g.nodes[ix].kind {
        ResourceKindView::S3Bucket => with_fact(
            with_fact(attrs, "sensitive"@, tagged_sensitive(attrs)),
            "public"@,
            bucket_is_public(g, ix),
        ),
        ResourceKindView::IamRole => with_fact(
            attrs,
            "wildcard_trust"@,
            has_wildcard_trust(attrs),
        ),
        ResourceKindView::SecurityGroup => with_fact(
            attrs,
            "open_ingress"@,
            has_open_ingress(attrs),
        ),
        ResourceKindView::LambdaFunction => with_fact(
            attrs,
            "publicly_invokable"@,
            is_publicly_invokable(g, ix),
        ),
        _ => attrs,
    }
}

/// A graph with the facts about its nodes.
pub open spec fn with_facts(g: GraphView) -> GraphView {
    GraphView {
        nodes: Seq::new(
            g.nodes.len(),
            |ix: int| NodeView { attrs: attrs_with_facts(g, ix), ..g.nodes[ix] },
        ),
        links: g.links,
    }
}

/// Whether a node makes public the bucket that it refers to.
fn node_opens_bucket(node: &Node) -> (r: bool)
    ensures
        r == opens_bucket(node@),
{
    let a = &node.attrs;
    match &node.kind {
        ResourceKind::S3BucketPublicAccessBlock => {
            !(attr_bool(a, "block_public_acls", true) && attr_bool(a, "block_public_policy", true)
                && attr_bool(a, "ignore_public_acls", true) && attr_bool(
                a,
                "restrict_public_buckets",
                true,
            ))
        },
        ResourceKind::S3BucketAcl => {
            attr_is(a, "acl", "public-read") || attr_is(a, "acl", "public-read-write")
        },
        _ => false,
    }
}

/// Whether a bucket is public.
fn derive_public(graph: &IacGraph, ix: usize) -> (r: bool)
    requires
        graph.wf(),
        ix < graph@.nodes.len(),
    ensures
        r == bucket_is_public(graph@, ix as int),
{
    let list = graph.incoming(ix);
    let ghost ids = links_into(graph@.links, ix as int);
    proof {
        lemma_links_into(graph@.links, ix as int);
        assert(ids.len() == list@.len());
    }
    let mut k: usize = 0;
    while k < list.len()
        invariant
            graph.wf(),
            ix < graph@.nodes.len(),
            k <= list@.len(),
            ids == links_into(graph@.links, ix as int),
            ids == positions(list@),
            forall|j: int|
                0 <= j < ids.len() ==> 0 <= #[trigger] ids[j] < graph@.links.len()
                    && graph@.links[ids[j]].to == ix,
            forall|j: int|
                0 <= j < k ==> !opens_bucket(graph@.nodes[graph@.links[#[trigger] ids[j]].from]),
        decreases list@.len() - k,
    {
        assert(ids[k as int] == list@[k as int]);
        let ends = graph.edge_ends(list[k]);
        if node_opens_bucket(graph.node_by_index(ends.0)) {
            assert(graph@.links[ids[k as int]].to == ix);
            return true;
        }
        k = k + 1;
    }
    proof {
        assert forall|e: int| 0 <= e < graph@.links.len() && (#[trigger] graph@.links[e]).to
            == ix implies !opens_bucket(graph@.nodes[graph@.links[e].from]) by {
            assert(ids.contains(e));
            let j = choose|j: int| 0 <= j < ids.len() && ids[j] == e;
            assert(!opens_bucket(graph@.nodes[graph@.links[ids[j]].from]));
        }
    }
    false
}

/// Whether the value of a tag means yes.
fn value_is_truthy(v: &Json) -> (r: bool)
    ensures
        r == is_truthy(v@),
{
    match v {
        Json::Bool(b) => *b,
        Json::String(s) => {
            let lower: String = to_lowercase(s.as_str());
            same_text(lower.as_str(), "true") || same_text(lower.as_str(), "yes") || same_text(
                lower.as_str(),
                "1",
            )
        },
        _ => false,
    }
}

/// Whether a resource has a tag `sensitive` that means yes.
fn is_tagged_sensitive(attrs: &Json) -> (r: bool)
    ensures
        r == tagged_sensitive(attrs@),
{
    broadcast use lemma_json_model;

    if let Some(Json::Object(tags)) = attrs.get("tags") {
        let ghost views = json_entries(tags@);
        assert(attrs@.get("tags"@) == Some(JsonView::Object(views)));
        let mut i: usize = 0;
        while i < tags.len()
            invariant
                i <= tags@.len(),
                views == json_entries(tags@),
                attrs@.get("tags"@) == Some(JsonView::Object(views)),
                forall|k: int|
                    0 <= k < i ==> !(lowercase((#[trigger] views[k]).0) == "sensitive"@
                        && is_truthy(views[k].1)),
            decreases tags@.len() - i,
        {
            assert(views[i as int] == (tags@[i as int].0@, tags@[i as int].1@));
            let lower: String = to_lowercase(tags[i].0.as_str());
            if same_text(lower.as_str(), "sensitive") && value_is_truthy(&tags[i].1) {
                assert(attrs@.get("tags"@)->Some_0->Object_0 == views);
                assert(is_truthy(attrs@.get("tags"@)->Some_0->Object_0[i as int].1));
                return true;
            }
            i = i + 1;
        }
    }
    false
}

/// Whether a value is `*`, or a list with a `*` in it.
fn value_contains_star(v: &Json) -> (r: bool)
    ensures
        r == has_star(v@),
    decreases v,
{
    broadcast use lemma_json_model;

    match v {
        Json::String(s) => same_text(s.as_str(), "*"),
        Json::Array(items) => {
            let ghost views = json_items(items@);
            let mut i: usize = 0;
            while i < items.len()
                invariant
                    decreases_to!(v => items@),
                    i <= items@.len(),
                    v@ == JsonView::Array(views),
                    views == json_items(items@),
                    forall|k: int| 0 <= k < i ==> !has_star(#[trigger] views[k]),
                decreases items@.len() - i,
            {
                assert(views[i as int] == items@[i as int]@);
                if value_contains_star(&items[i]) {
                    assert(v@->Array_0 == views);
                    assert(has_star(v@->Array_0[i as int]));
                    return true;
                }
                i = i + 1;
            }
            false
        },
        _ => false,
    }
}

/// Whether a statement allows something to every AWS principal.
fn statement_has_wildcard_principal(statement: &Json) -> (r: bool)
    ensures
        r == trusts_everyone(statement@),
{
    if !attr_is(statement, "Effect", "Allow") {
        return false;
    }
    match statement.get("Principal") {
        Some(Json::String(s)) => same_text(s.as_str(), "*"),
        Some(principal) => match principal.get("AWS") {
            Some(v) => value_contains_star(v),
            None => false,
        },
        None => false,
    }
}

/// The statements of the policy document under a key.
pub(crate) fn statement_list<'a>(attrs: &'a Json, key: &str) -> (r: Vec<&'a Json>)
    ensures
        reference_views(r@) == statements(attrs@, key@),
{
    match attrs.get(key) {
        Some(policy) => match policy.get("Statement") {
            Some(list) => list.listed(),
            None => no_values(),
        },
        None => no_values(),
    }
}

/// Whether a role lets every AWS principal assume it.
fn derive_wildcard_trust(attrs: &Json) -> (r: bool)
    ensures
        r == has_wildcard_trust(attrs@),
{
    let list = statement_list(attrs, "assume_role_policy");
    let ghost views = statements(attrs@, "assume_role_policy"@);
    assert(views.len() == list@.len());
    let mut i: usize = 0;
    while i < list.len()
        invariant
            i <= list@.len(),
            views == statements(attrs@, "assume_role_policy"@),
            views == reference_views(list@),
            forall|k: int| 0 <= k < i ==> !trusts_everyone(#[trigger] views[k]),
        decreases list@.len() - i,
    {
        assert(views[i as int] == list@[i as int]@);
        if statement_has_wildcard_principal(list[i]) {
            return true;
        }
        i = i + 1;
    }
    false
}

/// Whether an ingress rule lets in the whole internet.
pub(crate) fn rule_is_open(rule: &Json) -> (r: bool)
    ensures
        r == is_open_rule(rule@),
{
    match rule.get("cidr_blocks") {
        Some(cidrs) => {
            let list = cidrs.listed();
            let ghost views = cidrs@.listed();
            assert(views.len() == list@.len());
            let mut i: usize = 0;
            while i < list.len()
                invariant
                    i <= list@.len(),
                    views == cidrs@.listed(),
                    rule@.get("cidr_blocks"@) == Some(cidrs@),
                    views == reference_views(list@),
                    forall|k: int| 0 <= k < i ==> !is_open_cidr(#[trigger] views[k]),
                decreases list@.len() - i,
            {
                assert(views[i as int] == list@[i as int]@);
                if let Some(cidr) = list[i].as_str() {
                    if same_text(cidr, "0.0.0.0/0") || same_text(cidr, "::/0") {
                        return true;
                    }
                }
                i = i + 1;
            }
            false
        },
        None => false,
    }
}

/// The ingress rules of a security group.
pub(crate) fn ingress_list<'a>(attrs: &'a Json) -> (r: Vec<&'a Json>)
    ensures
        reference_views(r@) == ingress_rules(attrs@),
{
    match attrs.get("ingress") {
        Some(list) => list.listed(),
        None => no_values(),
    }
}

/// Whether a security group lets in the whole internet.
fn derive_open_ingress(attrs: &Json) -> (r: bool)
    ensures
        r == has_open_ingress(attrs@),
{
    let list = ingress_list(attrs);
    let ghost views = ingress_rules(attrs@);
    assert(views.len() == list@.len());
    let mut i: usize = 0;
    while i < list.len()
        invariant
            i <= list@.len(),
            views == ingress_rules(attrs@),
            views == reference_views(list@),
            forall|k: int| 0 <= k < i ==> !is_open_rule(#[trigger] views[k]),
        decreases list@.len() - i,
    {
        assert(views[i as int] == list@[i as int]@);
        if rule_is_open(list[i]) {
            return true;
        }
        i = i + 1;
    }
    false
}

/// The node that the attribute at a path of a node refers to.
pub(crate) fn referenced_node(graph: &IacGraph, ix: usize, path: &str) -> (r: Option<usize>)
    requires
        graph.wf(),
        ix < graph@.nodes.len(),
    ensures
        match r {
            Some(to) => referenced(graph@.links, ix as int, path@) == Some(to as int) && to
                < graph@.nodes.len(),
            None => referenced(graph@.links, ix as int, path@) is None,
        },
{
    let list = graph.outgoing(ix);
    let ghost ids = links_from(graph@.links, ix as int);
    proof {
        lemma_links_from(graph@.links, ix as int);
        assert(ids.len() == list@.len());
    }
    let mut k: usize = 0;
    while k < list.len()
        invariant
            graph.wf(),
            ix < graph@.nodes.len(),
            k <= list@.len(),
            ids.len() == list@.len(),
            ids == links_from(graph@.links, ix as int),
            ids == positions(list@),
            forall|j: int| 0 <= j < ids.len() ==> 0 <= #[trigger] ids[j] < graph@.links.len(),
            target_from(graph@.links, ids, path@, 0) == target_from(
                graph@.links,
                ids,
                path@,
                k as int,
            ),
        decreases list@.len() - k,
    {
        assert(ids[k as int] == list@[k as int]);
        if edge_refers_at(graph.edge_by_index(list[k]), path) {
            return Some(graph.edge_ends(list[k]).1);
        }
        k = k + 1;
    }
    None
}

/// Whether an edge is a reference from the attribute at a path.
fn edge_refers_at(edge: &Edge, path: &str) -> (r: bool)
    ensures
        r == refers_at(edge@, path@),
{
    matches!(edge.kind, EdgeKind::References) && same_text(edge.evidence.attr_path.as_str(), path)
}

/// Whether a permission lets everybody invoke the function that it is for.
fn permits_everyone(attrs: &Json) -> (r: bool)
    ensures
        r == lets_everyone_invoke(attrs@),
{
    (attr_is(attrs, "action", "lambda:InvokeFunction") || attr_is(attrs, "action", "*")) && attr_is(
        attrs,
        "principal",
        "*",
    ) && attrs.get("source_arn").is_none()
}

/// Whether everybody can invoke a function.
fn derive_public_invoke(graph: &IacGraph, ix: usize) -> (r: bool)
    requires
        graph.wf(),
        ix < graph@.nodes.len(),
    ensures
        r == is_publicly_invokable(graph@, ix as int),
{
    let total: usize = graph.node_count();
    let mut p: usize = 0;
    while p < total
        invariant
            graph.wf(),
            total == graph@.nodes.len(),
            p <= total,
            ix < total,
            forall|q: int| 0 <= q < p ==> !#[trigger] opens_function(graph@, q, ix as int),
        decreases total - p,
    {
        let node = graph.node_by_index(p);
        if let ResourceKind::LambdaPermission = node.kind {
            if let Some(to) = referenced_node(graph, p, "function_name") {
                if to == ix && permits_everyone(&node.attrs) {
                    assert(opens_function(graph@, p as int, ix as int));
                    return true;
                }
            }
        }
        p = p + 1;
    }
    false
}

/// Adds a fact under `_derived`.
fn set_derived(attrs: Json, key: &str, value: bool) -> (r: Json)
    ensures
        r@ == with_fact(attrs@, key@, value),
{
    broadcast use lemma_json_model;

    match attrs {
        Json::Object(list) => {
            let mut entries = list;
            let ghost before = json_entries(entries@);
            assert(attrs@ == JsonView::Object(before));
            let mut inner: Vec<(String, Json)> = Vec::new();
            assert(json_entries(inner@) =~= Seq::empty());
            if let Some(i) = find_key(&entries, "_derived") {
                assert(before[i as int].1 == entries@[i as int].1@);
                if let Json::Object(current) = entries[i].1.clone() {
                    inner = current;
                }
            }
            assert(json_entries(inner@) == derived_entries(attrs@));
            insert_entry(&mut inner, key.to_string(), Json::Bool(value));
            insert_entry(&mut entries, "_derived".to_string(), Json::Object(inner));
            Json::Object(entries)
        },
        other => other,
    }
}

/// The attributes of a node with the facts about it, where there are any.
fn facts_about(graph: &IacGraph, ix: usize) -> (r: Option<Json>)
    requires
        graph.wf(),
        ix < graph@.nodes.len(),
    ensures
        match r {
            Some(attrs) => attrs@ == attrs_with_facts(graph@, ix as int),
            None => attrs_with_facts(graph@, ix as int) == graph@.nodes[ix as int].attrs,
        },
{
    let node = graph.node_by_index(ix);
    match &node.kind {
        ResourceKind::S3Bucket => {
            let sensitive = is_tagged_sensitive(&node.attrs);
            let attrs = set_derived(node.attrs.clone(), "sensitive", sensitive);
            Some(set_derived(attrs, "public", derive_public(graph, ix)))
        },
        ResourceKind::IamRole => {
            let wildcard = derive_wildcard_trust(&node.attrs);
            Some(set_derived(node.attrs.clone(), "wildcard_trust", wildcard))
        },
        ResourceKind::SecurityGroup => {
            let open = derive_open_ingress(&node.attrs);
            Some(set_derived(node.attrs.clone(), "open_ingress", open))
        },
        ResourceKind::LambdaFunction => {
            let public = derive_public_invoke(graph, ix);
            Some(set_derived(node.attrs.clone(), "publicly_invokable", public))
        },
        _ => None,
    }
}

/// Adds to every node the facts about it.
pub(crate) fn derive_facts(graph: &mut IacGraph)
    requires
        old(graph).wf(),
    ensures
        final(graph).wf(),
        final(graph)@ == with_facts(old(graph)@),
{
    let ghost before = graph@;
    let total: usize = graph.node_count();
    let mut facts: Vec<Option<Json>> = Vec::new();
    let mut i: usize = 0;
    while i < total
        invariant
            graph.wf(),
            graph@ == before,
            total == before.nodes.len(),
            i <= total,
            facts@.len() == i,
            forall|k: int|
                0 <= k < i ==> match #[trigger] facts@[k] {
                    Some(attrs) => attrs@ == attrs_with_facts(before, k),
                    None => attrs_with_facts(before, k) == before.nodes[k].attrs,
                },
        decreases total - i,
    {
        facts.push(facts_about(graph, i));
        i = i + 1;
    }
    let ghost wanted = with_facts(before).nodes;
    let mut j: usize = 0;
    while j < total
        invariant
            graph.wf(),
            total == before.nodes.len(),
            j <= total,
            facts@.len() == total,
            wanted == with_facts(before).nodes,
            forall|k: int|
                0 <= k < total ==> match #[trigger] facts@[k] {
                    Some(attrs) => attrs@ == attrs_with_facts(before, k),
                    None => attrs_with_facts(before, k) == before.nodes[k].attrs,
                },
            graph@.links == before.links,
            graph@.nodes == wanted.take(j as int) + before.nodes.skip(j as int),
        decreases total - j,
    {
        assert(graph@.nodes[j as int] == before.nodes[j as int]);
        if let Some(attrs) = &facts[j] {
            graph.set_attrs(j, attrs.clone());
        }
        assert(graph@.nodes[j as int] == wanted[j as int]);
        assert(graph@.nodes =~= wanted.take(j + 1) + before.nodes.skip(j + 1));
        j = j + 1;
    }
    assert(graph@.nodes =~= wanted);
}

/// A fact is added under `_derived` and nowhere else.
pub proof fn law_fact_changes_only_derived(
    attrs: JsonView,
    key: Seq<char>,
    value: bool,
    asked: Seq<char>,
)
    requires
        asked != "_derived"@,
    ensures
        with_fact(attrs, key, value).get(asked) == attrs.get(asked),
{
    if let JsonView::Object(entries) = attrs {
        let inner = JsonView::Object(
            with_entry(derived_entries(attrs), key, JsonView::Bool(value)),
        );
        law_lookup_after_insert(entries, "_derived"@, inner, asked);
    }
}

/// Facts change nothing that edges follow from.
pub proof fn lemma_facts_keep(g: GraphView, ix: int, asked: Seq<char>)
    requires
        0 <= ix < g.nodes.len(),
        asked != "_derived"@,
    ensures
        with_facts(g).nodes[ix].attrs.get(asked) == g.nodes[ix].attrs.get(asked),
        with_facts(g).nodes[ix].kind == g.nodes[ix].kind,
        with_facts(g).nodes[ix].id == g.nodes[ix].id,
        with_facts(g).nodes[ix].file == g.nodes[ix].file,
{
    let attrs = g.nodes[ix].attrs;
    match g.nodes[ix].kind {
        ResourceKindView::S3Bucket => {
            let first = with_fact(attrs, "sensitive"@, tagged_sensitive(attrs));
            law_fact_changes_only_derived(attrs, "sensitive"@, tagged_sensitive(attrs), asked);
            law_fact_changes_only_derived(first, "public"@, bucket_is_public(g, ix), asked);
        },
        ResourceKindView::IamRole => {
            law_fact_changes_only_derived(
                attrs,
                "wildcard_trust"@,
                has_wildcard_trust(attrs),
                asked,
            );
        },
        ResourceKindView::SecurityGroup => {
            law_fact_changes_only_derived(attrs, "open_ingress"@, has_open_ingress(attrs), asked);
        },
        ResourceKindView::LambdaFunction => {
            law_fact_changes_only_derived(
                attrs,
                "publicly_invokable"@,
                is_publicly_invokable(g, ix),
                asked,
            );
        },
        _ => {},
    }
}

proof fn lemma_target_within(g: GraphView, edges: Seq<int>, path: Seq<char>, k: int)
    requires
        g.wf(),
        forall|j: int| 0 <= j < edges.len() ==> 0 <= #[trigger] edges[j] < g.links.len(),
    ensures
        target_from(g.links, edges, path, k) matches Some(t) ==> 0 <= t < g.nodes.len(),
    decreases edges.len() - k,
{
    if 0 <= k < edges.len() {
        lemma_target_within(g, edges, path, k + 1);
        assert(0 <= edges[k] < g.links.len());
    }
}

/// The keys that edges follow from are none that facts stand under.
pub proof fn lemma_keys_differ()
    ensures
        "policy"@ != "_derived"@,
        "ingress"@ != "_derived"@,
{
    reveal_strlit("policy");
    reveal_strlit("ingress");
    reveal_strlit("_derived");
    assert("policy"@.len() != "_derived"@.len());
    assert("ingress"@.len() != "_derived"@.len());
}

/// What an attribute refers to is a node of the graph.
pub proof fn lemma_referenced_within(g: GraphView, ix: int, path: Seq<char>)
    requires
        g.wf(),
    ensures
        referenced(g.links, ix, path) matches Some(t) ==> 0 <= t < g.nodes.len(),
{
    lemma_links_from(g.links, ix);
    lemma_target_within(g, links_from(g.links, ix), path, 0);
}

/// A fact that has been added is found, and no other fact changes.
pub proof fn law_fact_is_found(attrs: JsonView, key: Seq<char>, value: bool, asked: Seq<char>)
    requires
        attrs is Object,
    ensures
        lookup(derived_entries(with_fact(attrs, key, value)), asked) == if asked == key {
            Some(JsonView::Bool(value))
        } else {
            lookup(derived_entries(attrs), asked)
        },
{
    let inner = with_entry(derived_entries(attrs), key, JsonView::Bool(value));
    law_lookup_after_insert(attrs->Object_0, "_derived"@, JsonView::Object(inner), "_derived"@);
    law_lookup_after_insert(derived_entries(attrs), key, JsonView::Bool(value), asked);
}

/// A bucket that no public access block and no access control list refers to is private.
pub proof fn law_buckets_are_private_by_default(g: GraphView, ix: int)
    requires
        forall|e: int|
            0 <= e < g.links.len() && (#[trigger] g.links[e]).to == ix ==> !(
            g.nodes[g.links[e].from].kind is S3BucketPublicAccessBlock)
                && !(g.nodes[g.links[e].from].kind is S3BucketAcl),
    ensures
        !bucket_is_public(g, ix),
{
}

} // verus!
