//! What policies grant to roles.

use crate::attrs::{attr_is, text_attr};
use crate::expr::{argument_path, item_path};
use crate::facts::{
    lemma_facts_keep,
    lemma_keys_differ,
    lemma_referenced_within,
    referenced,
    referenced_node,
    statement_list,
    statements,
    with_facts,
};
use crate::graph::{GraphView, IacGraph, LinkView, lemma_links_from, links_from, positions};
use crate::json::{Json, JsonView, json_items, lemma_json_model, opt_view, reference_views};
use crate::links::{NewLink, all_within, new_views};
use crate::rendering::{debug_quoted, debug_string};
use crate::lexical::{Class, is_of, of_class};
use crate::text::{
    chars_of,
    decimal,
    find,
    first_of,
    is_digit,
    join,
    joined,
    lemma_decimal_digits,
    lemma_first_from,
    occurs,
    occurs_at,
    parse_size,
    plus,
    same_text,
    size_digits,
    size_text,
    size_value,
    stands_at,
    starts_with,
    strip_prefix,
    texts,
    without_prefix,
};
use crate::types::{
    Edge,
    EdgeKind,
    EdgeKindView,
    EdgeView,
    ResourceKind,
    ResourceKindView,
    SourceRef,
    SourceRefView,
};
use vstd::prelude::*;
use vstd::string::StrSliceExecFns;

verus! {

/// Some texts as `Debug` writes a list of strings.
pub open spec fn debug_list(items: Seq<Seq<char>>) -> Seq<char> {
    "["@ + joined(items.map_values(|s: Seq<char>| debug_quoted(s)), ", "@) + "]"@
}

/// Some texts as `Debug` writes a list of strings.
fn debug_text(items: &Vec<String>) -> (r: String)
    ensures
        r@ == debug_list(texts(items@)),
{
    let mut parts: Vec<String> = Vec::new();
    let mut i: usize = 0;
    while i < items.len()
        invariant
            i <= items@.len(),
            parts@.len() == i,
            forall|k: int| 0 <= k < i ==> (#[trigger] parts@[k])@ == debug_quoted(items@[k]@),
        decreases items@.len() - i,
    {
        parts.push(debug_string(items[i].as_str()));
        i = i + 1;
    }
    assert(texts(parts@) =~= texts(items@).map_values(|s: Seq<char>| debug_quoted(s)));
    plus(plus("[", join(&parts, ", ").as_str()).as_str(), "]")
}

/// The strings among the first `n` of some values.
pub open spec fn string_items(items: Seq<JsonView>, n: nat) -> Seq<Seq<char>>
    decreases n,
{
    if n == 0 || n > items.len() {
        Seq::empty()
    } else {
        let before = string_items(items, (n - 1) as nat);
        match items[n - 1] {
            JsonView::String(s) => before.push(s),
            _ => before,
        }
    }
}

/// The strings that a value stands for: itself, or the strings of a list.
pub open spec fn strings_of(v: Option<JsonView>) -> Seq<Seq<char>> {
    match v {
        Some(JsonView::String(s)) => seq![s],
        Some(JsonView::Array(items)) => string_items(items, items.len()),
        _ => Seq::empty(),
    }
}

/// The number between the first `Statement[` of a path and the next `]`.
pub open spec fn statement_index(path: Seq<char>) -> Option<usize> {
    match first_of(path, "Statement["@) {
        Some(a) => {
            let rest = path.skip(a + 10);
            match first_of(rest, "]"@) {
                Some(b) => size_value(rest.take(b)),
                None => None,
            }
        },
        None => None,
    }
}

/// What follows the first `Statement[` of a path and the next `]`.
pub open spec fn within_statement(path: Seq<char>) -> Seq<char> {
    match first_of(path, "Statement["@) {
        Some(a) => {
            let rest = path.skip(a + 10);
            match first_of(rest, "]"@) {
                Some(b) => rest.skip(b + 1),
                None => Seq::empty(),
            }
        },
        None => Seq::empty(),
    }
}

/// Whether a path within a statement leads to its resource, to an item of a list of resources or to
/// an argument of a call that gives the resource. A statement may be the argument of `jsonencode`.
pub open spec fn leads_to_resource(rest: Seq<char>) -> bool
    decreases rest.len(),
{
    if "/arg0"@.is_prefix_of(rest) && rest.len() >= 5 {
        leads_to_resource(rest.skip(5))
    } else {
        rest == ".Resource"@ || ".Resource["@.is_prefix_of(rest) || ".Resource/"@.is_prefix_of(rest)
    }
}

/// Whether an edge is a reference from the resource of statement `k`.
pub open spec fn is_precise(edge: EdgeView, k: int) -> bool {
    let path = edge.evidence.attr_path;
    &&& edge.kind is References
    &&& statement_index(path) matches Some(i) && i == k
    &&& leads_to_resource(within_statement(path))
}

/// What follows the first `Statement` of a path.
pub open spec fn behind_statement(path: Seq<char>) -> Seq<char> {
    match first_of(path, "Statement"@) {
        Some(a) => path.skip(a + 9),
        None => Seq::empty(),
    }
}

/// Whether an address stands in a text at `i`, and is not part of a longer one.
pub open spec fn is_named_at(text: Seq<char>, id: Seq<char>, i: int) -> bool {
    &&& occurs_at(text, id, i)
    &&& (i > 0 ==> !is_of(Class::Name, text[i - 1]) && text[i - 1] != '.')
    &&& (i + id.len() < text.len() ==> !is_of(Class::Name, text[i + id.len()]))
}

/// Whether an address stands in a text.
pub open spec fn is_named(text: Seq<char>, id: Seq<char>) -> bool {
    exists|i: int| is_named_at(text, id, i)
}

/// Whether a statement gives an address as one of its resources.
pub open spec fn names_as_resource(statement: JsonView, id: Seq<char>) -> bool {
    exists|i: int|
        0 <= i < strings_of(statement.get("Resource"@)).len() && is_named(
            #[trigger] strings_of(statement.get("Resource"@))[i],
            id,
        )
}

/// Whether any of some statements gives an address as one of its resources.
pub open spec fn named_as_resource(list: Seq<JsonView>, id: Seq<char>) -> bool {
    exists|k: int| 0 <= k < list.len() && names_as_resource(#[trigger] list[k], id)
}

/// Whether an edge that leaves a policy is a reference from a resource, of whatever statement. In a
/// policy that is written as one text, it is one where a statement of that text gives what it refers
/// to as a resource.
pub open spec fn is_loose(g: GraphView, holder: int, link: LinkView) -> bool {
    let path = link.edge.evidence.attr_path;
    &&& link.edge.kind is References
    &&& leads_to_resource(behind_statement(path)) || path == "policy"@ && named_as_resource(
        statements(g.nodes[holder].attrs, "policy"@),
        g.nodes[link.to].id,
    )
}

/// Whether an edge is a reference from a statement that is known by its number.
pub open spec fn is_indexed(edge: EdgeView) -> bool {
    edge.kind is References && statement_index(edge.evidence.attr_path) is Some
}

/// The targets of those of the first `n` edges that come from the resource of statement `k`.
pub open spec fn precise_targets(links: Seq<LinkView>, edges: Seq<int>, k: int, n: nat) -> Seq<int>
    decreases n,
{
    if n == 0 || n > edges.len() {
        Seq::empty()
    } else {
        let before = precise_targets(links, edges, k, (n - 1) as nat);
        if is_precise(links[edges[n - 1]].edge, k) {
            before.push(links[edges[n - 1]].to)
        } else {
            before
        }
    }
}

/// The targets of those of the first `n` edges that come from a resource of any statement.
pub open spec fn loose_targets(g: GraphView, holder: int, edges: Seq<int>, n: nat) -> Seq<int>
    decreases n,
{
    if n == 0 || n > edges.len() {
        Seq::empty()
    } else {
        let before = loose_targets(g, holder, edges, (n - 1) as nat);
        if is_loose(g, holder, g.links[edges[n - 1]]) {
            before.push(g.links[edges[n - 1]].to)
        } else {
            before
        }
    }
}

/// The nodes that statement `k` of a policy is about: those that its own resource refers to. Where
/// no reference of the policy tells its statement, those that any resource refers to.
pub open spec fn grant_targets(g: GraphView, holder: int, k: int) -> Seq<int> {
    let edges = links_from(g.links, holder);
    let precise = precise_targets(g.links, edges, k, edges.len());
    if precise.len() > 0 {
        precise
    } else if exists|j: int| 0 <= j < edges.len() && is_indexed(g.links[#[trigger] edges[j]].edge) {
        Seq::empty()
    } else {
        loose_targets(g, holder, edges, edges.len())
    }
}

/// A text without the mark of an unresolved reference.
pub open spec fn without_mark(s: Seq<char>) -> Seq<char> {
    match without_prefix(s, "unresolved:ref:"@) {
        Some(rest) => rest,
        None => s,
    }
}

/// The resources of a statement, as written.
pub open spec fn resource_match_of(statement: JsonView) -> Seq<char> {
    joined(
        strings_of(statement.get("Resource"@)).map_values(|s: Seq<char>| without_mark(s)),
        ","@,
    )
}

/// Whether a statement grants anything.
pub open spec fn is_grant(statement: JsonView) -> bool {
    text_attr(statement, "Effect"@) == Some("Allow"@) && strings_of(statement.get("Action"@)).len()
        > 0
}

/// The edge for what statement `k` of the policy at `holder` grants a role on a target.
pub open spec fn grant_link(
    g: GraphView,
    holder: int,
    role: int,
    statement: JsonView,
    k: int,
    target: int,
) -> LinkView {
    let actions = strings_of(statement.get("Action"@));
    LinkView {
        from: role,
        to: target,
        edge: EdgeView {
            kind: EdgeKindView::IamGrants {
                actions,
                effect: "Allow"@,
                resource_match: resource_match_of(statement),
            },
            evidence: SourceRefView {
                file: g.nodes[holder].file,
                resource_id: g.nodes[holder].id,
                attr_path: "policy.Statement["@ + decimal(k as nat) + "]"@,
            },
            description: g.nodes[role].id + " (via "@ + g.nodes[holder].id + ", statement "@
                + decimal(k as nat) + ") is granted "@ + debug_list(actions) + " on "@
                + g.nodes[target].id,
        },
    }
}

/// The edges for what statement `k` of the policy at `holder` grants a role.
pub open spec fn statement_links(
    g: GraphView,
    holder: int,
    role: int,
    statement: JsonView,
    k: int,
) -> Seq<LinkView> {
    if is_grant(statement) {
        grant_targets(g, holder, k).map_values(
            |t: int| grant_link(g, holder, role, statement, k, t),
        )
    } else {
        Seq::empty()
    }
}

/// The edges for what the first `n` of some statements of the policy at `holder` grant a role.
pub open spec fn statements_links(
    g: GraphView,
    holder: int,
    role: int,
    list: Seq<JsonView>,
    n: nat,
) -> Seq<LinkView>
    decreases n,
{
    if n == 0 || n > list.len() {
        Seq::empty()
    } else {
        statements_links(g, holder, role, list, (n - 1) as nat) + statement_links(
            g,
            holder,
            role,
            list[n - 1],
            n - 1,
        )
    }
}

/// The edges for what the policy at `holder` grants a role.
pub open spec fn holder_links(g: GraphView, holder: int, role: int) -> Seq<LinkView> {
    let list = statements(g.nodes[holder].attrs, "policy"@);
    statements_links(g, holder, role, list, list.len())
}

/// The role that the node at `a` attaches the policy at `ix` to.
pub open spec fn attached_role(g: GraphView, a: int, ix: int) -> Option<int> {
    if g.nodes[a].kind is IamRolePolicyAttachment && referenced(g.links, a, "policy_arn"@) == Some(
        ix,
    ) {
        referenced(g.links, a, "role"@)
    } else {
        None
    }
}

/// The edges for what the policy at `ix` grants by those of the first `n` nodes that attach it.
pub open spec fn attachments_links(g: GraphView, ix: int, n: nat) -> Seq<LinkView>
    decreases n,
{
    if n == 0 || n > g.nodes.len() {
        Seq::empty()
    } else {
        attachments_links(g, ix, (n - 1) as nat) + match attached_role(g, n - 1, ix) {
            Some(role) => holder_links(g, ix, role),
            None => Seq::empty(),
        }
    }
}

/// The edges for what the node at `ix`, if it is a policy, grants to roles.
pub open spec fn policy_links(g: GraphView, ix: int) -> Seq<LinkView> {
    match g.nodes[ix].kind {
        ResourceKindView::IamRolePolicy => match referenced(g.links, ix, "role"@) {
            Some(role) => holder_links(g, ix, role),
            None => Seq::empty(),
        },
        ResourceKindView::IamPolicy => attachments_links(g, ix, g.nodes.len()),
        _ => Seq::empty(),
    }
}

/// The edges for what the first `n` nodes grant.
pub open spec fn grant_links(g: GraphView, n: nat) -> Seq<LinkView>
    decreases n,
{
    if n == 0 || n > g.nodes.len() {
        Seq::empty()
    } else {
        grant_links(g, (n - 1) as nat) + policy_links(g, n - 1)
    }
}

/// The strings that a value stands for.
fn normalize_string_or_array(v: Option<&Json>) -> (r: Vec<String>)
    ensures
        texts(r@) == strings_of(opt_view(v)),
{
    broadcast use lemma_json_model;

    let mut out: Vec<String> = Vec::new();
    match v {
        Some(Json::String(s)) => {
            out.push(s.clone());
            assert(texts(out@) =~= seq![s@]);
        },
        Some(Json::Array(items)) => {
            let ghost views = json_items(items@);
            let mut i: usize = 0;
            assert(texts(out@) =~= Seq::empty());
            while i < items.len()
                invariant
                    i <= items@.len(),
                    views == json_items(items@),
                    texts(out@) == string_items(views, i as nat),
                decreases items@.len() - i,
            {
                let ghost before = texts(out@);
                assert(views[i as int] == items@[i as int]@);
                if let Json::String(s) = &items[i] {
                    out.push(s.clone());
                    assert(texts(out@) =~= before.push(s@));
                }
                i = i + 1;
            }
        },
        _ => {
            assert(texts(out@) =~= Seq::empty());
        },
    }
    out
}

/// The number between the first `Statement[` of a path and the next `]`.
fn statement_index_from_attr_path(path: &str) -> (r: Option<usize>)
    ensures
        r == statement_index(path@),
{
    proof {
        reveal_strlit("Statement[");
        reveal_strlit("]");
    }
    let total: usize = path.unicode_len();
    match find(path, "Statement[") {
        Some(a) => {
            let rest = path.substring_char(a + 10, total);
            assert(rest@ =~= path@.skip(a + 10));
            match find(rest, "]") {
                Some(b) => {
                    let number = rest.substring_char(0, b);
                    assert(number@ =~= rest@.take(b as int));
                    parse_size(number)
                },
                None => None,
            }
        },
        None => None,
    }
}

/// Whether a path within a statement leads to its resource.
fn is_resource_path(rest: &str) -> (r: bool)
    ensures
        r == leads_to_resource(rest@),
    decreases rest@.len(),
{
    proof {
        reveal_strlit("/arg0");
    }
    match strip_prefix(rest, "/arg0") {
        Some(inner) => {
            assert(inner@ =~= rest@.skip(5));
            is_resource_path(inner)
        },
        None => same_text(rest, ".Resource") || starts_with(rest, ".Resource[") || starts_with(
            rest,
            ".Resource/",
        ),
    }
}

/// Whether the part of a path that follows the number of a statement leads to its resource.
fn names_resource(path: &str) -> (r: bool)
    ensures
        r == leads_to_resource(within_statement(path@)),
{
    proof {
        reveal_strlit("Statement[");
        reveal_strlit("]");
        reveal_strlit("/arg0");
        reveal_strlit(".Resource");
        reveal_strlit(".Resource[");
        reveal_strlit(".Resource/");
    }
    let total: usize = path.unicode_len();
    if let Some(a) = find(path, "Statement[") {
        let rest = path.substring_char(a + 10, total);
        assert(rest@ =~= path@.skip(a + 10));
        if let Some(b) = find(rest, "]") {
            let within = rest.substring_char(b + 1, total - a - 10);
            assert(within@ =~= rest@.skip(b + 1));
            return is_resource_path(within);
        }
    }
    false
}

/// Whether an edge is a reference from the resource of statement `k`.
fn edge_is_precise(edge: &Edge, k: usize) -> (r: bool)
    ensures
        r == is_precise(edge@, k as int),
{
    let path = edge.evidence.attr_path.as_str();
    matches!(edge.kind, EdgeKind::References) && names_resource(path) && match
    statement_index_from_attr_path(path) {
        Some(i) => i == k,
        None => false,
    }
}

/// Whether an address stands in a text.
fn mentions(text: &str, id: &str) -> (r: bool)
    ensures
        r == is_named(text@, id@),
{
    let s = chars_of(text);
    let pattern = chars_of(id);
    let size: usize = pattern.len();
    let total: usize = s.len();
    if size > total {
        assert forall|i: int| !is_named_at(text@, id@, i) by {}
        return false;
    }
    let mut i: usize = 0;
    while i <= total - size
        invariant
            s@ == text@,
            pattern@ == id@,
            size == id@.len(),
            total == text@.len(),
            size <= total,
            i <= total - size + 1,
            forall|j: int| j < i ==> !is_named_at(text@, id@, j),
        decreases total - size + 1 - i,
    {
        let begins = i == 0 || !of_class(Class::Name, s[i - 1]) && s[i - 1] != '.';
        let ends = i == total - size || !of_class(Class::Name, s[i + size]);
        if begins && ends && stands_at(&s, &pattern, i) {
            assert(is_named_at(text@, id@, i as int));
            return true;
        }
        assert(!is_named_at(text@, id@, i as int));
        if i == total - size {
            assert forall|j: int| !is_named_at(text@, id@, j) by {}
            return false;
        }
        i = i + 1;
    }
    false
}

/// Whether a statement gives an address as one of its resources.
fn gives_resource(statement: &Json, id: &str) -> (r: bool)
    ensures
        r == names_as_resource(statement@, id@),
{
    let list = normalize_string_or_array(statement.get("Resource"));
    let ghost views = strings_of(statement@.get("Resource"@));
    let mut i: usize = 0;
    assert(views.len() == list@.len());
    while i < list.len()
        invariant
            i <= list@.len(),
            views == strings_of(statement@.get("Resource"@)),
            views.len() == list@.len(),
            views == texts(list@),
            forall|k: int| 0 <= k < i ==> !is_named(#[trigger] views[k], id@),
        decreases list@.len() - i,
    {
        assert(views[i as int] == list@[i as int]@);
        if mentions(list[i].as_str(), id) {
            assert(is_named(views[i as int], id@));
            return true;
        }
        i = i + 1;
    }
    false
}

/// Whether any statement of the policy at `holder` gives an address as one of its resources.
fn policy_gives_resource(graph: &IacGraph, holder: usize, id: &str) -> (r: bool)
    requires
        graph.wf(),
        holder < graph@.nodes.len(),
    ensures
        r == named_as_resource(statements(graph@.nodes[holder as int].attrs, "policy"@), id@),
{
    let list = statement_list(&graph.node_by_index(holder).attrs, "policy");
    let ghost views = statements(graph@.nodes[holder as int].attrs, "policy"@);
    let mut i: usize = 0;
    assert(views.len() == list@.len());
    while i < list.len()
        invariant
            i <= list@.len(),
            views == statements(graph@.nodes[holder as int].attrs, "policy"@),
            views.len() == list@.len(),
            views == reference_views(list@),
            forall|k: int| 0 <= k < i ==> !names_as_resource(#[trigger] views[k], id@),
        decreases list@.len() - i,
    {
        assert(views[i as int] == list@[i as int]@);
        if gives_resource(list[i], id) {
            assert(names_as_resource(views[i as int], id@));
            return true;
        }
        i = i + 1;
    }
    false
}

/// Whether a path leads to a resource of some statement.
fn names_any_resource(path: &str) -> (r: bool)
    ensures
        r == leads_to_resource(behind_statement(path@)),
{
    proof {
        reveal_strlit("Statement");
        reveal_strlit("/arg0");
        reveal_strlit(".Resource");
        reveal_strlit(".Resource[");
        reveal_strlit(".Resource/");
    }
    let total: usize = path.unicode_len();
    match find(path, "Statement") {
        Some(a) => {
            let rest = path.substring_char(a + 9, total);
            assert(rest@ =~= path@.skip(a + 9));
            is_resource_path(rest)
        },
        None => false,
    }
}

/// The nodes that statement `k` of a policy is about.
fn find_targets(graph: &IacGraph, holder: usize, k: usize) -> (r: Vec<usize>)
    requires
        graph.wf(),
        holder < graph@.nodes.len(),
    ensures
        positions(r@) == grant_targets(graph@, holder as int, k as int),
        forall|i: int| 0 <= i < r@.len() ==> #[trigger] r@[i] < graph@.nodes.len(),
{
    let list = graph.outgoing(holder);
    let ghost links = graph@.links;
    let ghost ids = links_from(links, holder as int);
    proof {
        lemma_links_from(links, holder as int);
        assert(ids.len() == list@.len());
    }
    let mut precise: Vec<usize> = Vec::new();
    let mut loose: Vec<usize> = Vec::new();
    let mut indexed = false;
    let mut i: usize = 0;
    assert(positions(precise@) =~= Seq::empty());
    assert(positions(loose@) =~= Seq::empty());
    while i < list.len()
        invariant
            graph.wf(),
            links == graph@.links,
            holder < graph@.nodes.len(),
            i <= list@.len(),
            ids.len() == list@.len(),
            ids == positions(list@),
            forall|j: int| 0 <= j < ids.len() ==> 0 <= #[trigger] ids[j] < links.len(),
            positions(precise@) == precise_targets(links, ids, k as int, i as nat),
            positions(loose@) == loose_targets(graph@, holder as int, ids, i as nat),
            indexed == (exists|j: int| 0 <= j < i && is_indexed(links[#[trigger] ids[j]].edge)),
            forall|j: int| 0 <= j < precise@.len() ==> #[trigger] precise@[j] < graph@.nodes.len(),
            forall|j: int| 0 <= j < loose@.len() ==> #[trigger] loose@[j] < graph@.nodes.len(),
        decreases list@.len() - i,
    {
        let ghost before = (positions(precise@), positions(loose@));
        assert(ids[i as int] == list@[i as int]);
        let edge = graph.edge_by_index(list[i]);
        let ends = graph.edge_ends(list[i]);
        if edge_is_precise(edge, k) {
            precise.push(ends.1);
            assert(positions(precise@) =~= before.0.push(ends.1 as int));
        }
        if let EdgeKind::References = edge.kind {
            let path = edge.evidence.attr_path.as_str();
            if names_any_resource(path) || same_text(path, "policy") && policy_gives_resource(
                graph,
                holder,
                graph.node_by_index(ends.1).id.as_str(),
            ) {
                loose.push(ends.1);
                assert(positions(loose@) =~= before.1.push(ends.1 as int));
            }
            if statement_index_from_attr_path(path).is_some() {
                indexed = true;
                assert(is_indexed(links[ids[i as int]].edge));
            }
        }
        i = i + 1;
    }
    if precise.len() > 0 {
        precise
    } else if indexed {
        let none: Vec<usize> = Vec::new();
        assert(positions(none@) =~= Seq::empty());
        none
    } else {
        loose
    }
}

/// The resources of a statement, as written.
fn resource_text(statement: &Json) -> (r: String)
    ensures
        r@ == resource_match_of(statement@),
{
    let list = normalize_string_or_array(statement.get("Resource"));
    let ghost views = strings_of(statement@.get("Resource"@));
    let mut out: Vec<String> = Vec::new();
    let mut i: usize = 0;
    assert(views.len() == list@.len());
    while i < list.len()
        invariant
            i <= list@.len(),
            views.len() == list@.len(),
            views == texts(list@),
            out@.len() == i,
            forall|k: int| 0 <= k < i ==> (#[trigger] out@[k])@ == without_mark(views[k]),
        decreases list@.len() - i,
    {
        assert(views[i as int] == list@[i as int]@);
        match strip_prefix(list[i].as_str(), "unresolved:ref:") {
            Some(rest) => out.push(rest.to_string()),
            None => out.push(list[i].clone()),
        }
        i = i + 1;
    }
    assert(texts(out@) =~= views.map_values(|s: Seq<char>| without_mark(s)));
    join(&out, ",")
}

/// A copy of some strings.
fn copy_texts(list: &Vec<String>) -> (r: Vec<String>)
    ensures
        texts(r@) == texts(list@),
{
    let mut out: Vec<String> = Vec::new();
    let mut i: usize = 0;
    while i < list.len()
        invariant
            i <= list@.len(),
            out@.len() == i,
            forall|k: int| 0 <= k < i ==> (#[trigger] out@[k])@ == list@[k]@,
        decreases list@.len() - i,
    {
        out.push(list[i].clone());
        i = i + 1;
    }
    assert(texts(out@) =~= texts(list@));
    out
}

/// The edge for what statement `k` of the policy at `holder` grants a role on a target.
fn make_grant(
    graph: &IacGraph,
    holder: usize,
    role: usize,
    statement: &Json,
    actions: &Vec<String>,
    k: usize,
    target: usize,
) -> (r: NewLink)
    requires
        holder < graph@.nodes.len(),
        role < graph@.nodes.len(),
        target < graph@.nodes.len(),
        texts(actions@) == strings_of(statement@.get("Action"@)),
    ensures
        r@ == grant_link(graph@, holder as int, role as int, statement@, k as int, target as int),
        r.from == role,
        r.to == target,
{
    let node = graph.node_by_index(holder);
    let number = size_text(k);
    let mut description = plus(graph.node_by_index(role).id.as_str(), " (via ");
    description = plus(description.as_str(), node.id.as_str());
    description = plus(description.as_str(), ", statement ");
    description = plus(description.as_str(), number.as_str());
    description = plus(description.as_str(), ") is granted ");
    description = plus(description.as_str(), debug_text(actions).as_str());
    description = plus(description.as_str(), " on ");
    description = plus(description.as_str(), graph.node_by_index(target).id.as_str());
    NewLink {
        from: role,
        to: target,
        edge: Edge {
            kind: EdgeKind::IamGrants {
                actions: copy_texts(actions),
                effect: "Allow".to_string(),
                resource_match: resource_text(statement),
            },
            evidence: SourceRef {
                file: node.file.clone(),
                resource_id: node.id.clone(),
                attr_path: plus(plus("policy.Statement[", number.as_str()).as_str(), "]"),
            },
            description,
        },
    }
}

/// Adds to `out` the edges for what the policy at `holder` grants a role.
fn grants_from_policy_holder(graph: &IacGraph, holder: usize, role: usize, out: &mut Vec<NewLink>)
    requires
        graph.wf(),
        holder < graph@.nodes.len(),
        role < graph@.nodes.len(),
        all_within(old(out)@, graph@.nodes.len()),
    ensures
        new_views(final(out)@) == new_views(old(out)@) + holder_links(
            graph@,
            holder as int,
            role as int,
        ),
        all_within(final(out)@, graph@.nodes.len()),
{
    let ghost g = graph@;
    let ghost start = new_views(out@);
    let list = statement_list(&graph.node_by_index(holder).attrs, "policy");
    let ghost views = statements(g.nodes[holder as int].attrs, "policy"@);
    assert(views.len() == list@.len());
    let mut k: usize = 0;
    assert(start + statements_links(g, holder as int, role as int, views, 0) =~= start);
    while k < list.len()
        invariant
            graph.wf(),
            g == graph@,
            holder < g.nodes.len(),
            role < g.nodes.len(),
            k <= list@.len(),
            views.len() == list@.len(),
            views == reference_views(list@),
            new_views(out@) == start + statements_links(
                g,
                holder as int,
                role as int,
                views,
                k as nat,
            ),
            all_within(out@, g.nodes.len()),
        decreases list@.len() - k,
    {
        assert(views[k as int] == list@[k as int]@);
        grants_from_statement(graph, holder, role, list[k], k, out);
        assert(new_views(out@) =~= start + statements_links(
            g,
            holder as int,
            role as int,
            views,
            (k + 1) as nat,
        ));
        k = k + 1;
    }
}

/// Adds to `out` the edges for what statement `k` of the policy at `holder` grants a role.
fn grants_from_statement(
    graph: &IacGraph,
    holder: usize,
    role: usize,
    statement: &Json,
    k: usize,
    out: &mut Vec<NewLink>,
)
    requires
        graph.wf(),
        holder < graph@.nodes.len(),
        role < graph@.nodes.len(),
        all_within(old(out)@, graph@.nodes.len()),
    ensures
        new_views(final(out)@) == new_views(old(out)@) + statement_links(
            graph@,
            holder as int,
            role as int,
            statement@,
            k as int,
        ),
        all_within(final(out)@, graph@.nodes.len()),
{
    let ghost g = graph@;
    let ghost start = new_views(out@);
    let ghost wanted = statement_links(g, holder as int, role as int, statement@, k as int);
    let actions = normalize_string_or_array(statement.get("Action"));
    assert(texts(actions@).len() == actions@.len());
    if !attr_is(statement, "Effect", "Allow") || actions.len() == 0 {
        assert(new_views(out@) =~= start + wanted);
        return;
    }
    let targets = find_targets(graph, holder, k);
    assert(wanted.len() == targets@.len());
    let mut i: usize = 0;
    assert(start + wanted.take(0) =~= start);
    while i < targets.len()
        invariant
            graph.wf(),
            g == graph@,
            holder < g.nodes.len(),
            role < g.nodes.len(),
            i <= targets@.len(),
            texts(actions@) == strings_of(statement@.get("Action"@)),
            is_grant(statement@),
            positions(targets@) == grant_targets(g, holder as int, k as int),
            forall|j: int| 0 <= j < targets@.len() ==> #[trigger] targets@[j] < g.nodes.len(),
            wanted == statement_links(g, holder as int, role as int, statement@, k as int),
            wanted.len() == targets@.len(),
            new_views(out@) == start + wanted.take(i as int),
            all_within(out@, g.nodes.len()),
        decreases targets@.len() - i,
    {
        let ghost before = new_views(out@);
        let ghost listed = out@;
        assert(positions(targets@)[i as int] == targets@[i as int]);
        let link = make_grant(graph, holder, role, statement, &actions, k, targets[i]);
        assert(wanted[i as int] == link@);
        out.push(link);
        proof {
            assert(new_views(out@) =~= before.push(link@));
            assert(wanted.take(i + 1) =~= wanted.take(i as int).push(wanted[i as int]));
            assert(new_views(out@) =~= start + wanted.take(i + 1));
            assert forall|j: int| 0 <= j < out@.len() implies (#[trigger] out@[j]).from
                < g.nodes.len() && out@[j].to < g.nodes.len() by {
                if j < listed.len() {
                    assert(out@[j] == listed[j]);
                }
            }
        }
        i = i + 1;
    }
    assert(wanted.take(i as int) =~= wanted);
}

/// Adds to `out` the edges for what policies grant to roles.
pub(crate) fn compute_iam_grant_edges(graph: &IacGraph, out: &mut Vec<NewLink>)
    requires
        graph.wf(),
        all_within(old(out)@, graph@.nodes.len()),
    ensures
        new_views(final(out)@) == new_views(old(out)@) + grant_links(graph@, graph@.nodes.len()),
        all_within(final(out)@, graph@.nodes.len()),
{
    let ghost g = graph@;
    let ghost start = new_views(out@);
    let total: usize = graph.node_count();
    let mut ix: usize = 0;
    assert(start + grant_links(g, 0) =~= start);
    while ix < total
        invariant
            graph.wf(),
            g == graph@,
            total == g.nodes.len(),
            ix <= total,
            new_views(out@) == start + grant_links(g, ix as nat),
            all_within(out@, g.nodes.len()),
        decreases total - ix,
    {
        let ghost before = new_views(out@);
        match &graph.node_by_index(ix).kind {
            ResourceKind::IamRolePolicy => {
                if let Some(role) = referenced_node(graph, ix, "role") {
                    grants_from_policy_holder(graph, ix, role, out);
                }
            },
            ResourceKind::IamPolicy => {
                grants_from_attachments(graph, ix, out);
            },
            _ => {},
        }
        assert(new_views(out@) =~= before + policy_links(g, ix as int));
        assert(new_views(out@) =~= start + grant_links(g, (ix + 1) as nat));
        ix = ix + 1;
    }
}

/// Adds to `out` the edges for what the policy at `ix` grants by the nodes that attach it.
fn grants_from_attachments(graph: &IacGraph, ix: usize, out: &mut Vec<NewLink>)
    requires
        graph.wf(),
        ix < graph@.nodes.len(),
        all_within(old(out)@, graph@.nodes.len()),
    ensures
        new_views(final(out)@) == new_views(old(out)@) + attachments_links(
            graph@,
            ix as int,
            graph@.nodes.len(),
        ),
        all_within(final(out)@, graph@.nodes.len()),
{
    let ghost g = graph@;
    let ghost start = new_views(out@);
    let total: usize = graph.node_count();
    let mut a: usize = 0;
    assert(start + attachments_links(g, ix as int, 0) =~= start);
    while a < total
        invariant
            graph.wf(),
            g == graph@,
            total == g.nodes.len(),
            ix < total,
            a <= total,
            new_views(out@) == start + attachments_links(g, ix as int, a as nat),
            all_within(out@, g.nodes.len()),
        decreases total - a,
    {
        let ghost before = new_views(out@);
        if let ResourceKind::IamRolePolicyAttachment = graph.node_by_index(a).kind {
            if let Some(policy) = referenced_node(graph, a, "policy_arn") {
                if policy == ix {
                    if let Some(role) = referenced_node(graph, a, "role") {
                        grants_from_policy_holder(graph, ix, role, out);
                    }
                }
            }
        }
        assert(new_views(out@) =~= before + match attached_role(g, a as int, ix as int) {
            Some(role) => holder_links(g, ix as int, role),
            None => Seq::empty(),
        });
        assert(new_views(out@) =~= start + attachments_links(g, ix as int, (a + 1) as nat));
        a = a + 1;
    }
}

/// Each target is that of an edge of the right kind.
proof fn lemma_targets_of_edges(g: GraphView, holder: int, edges: Seq<int>, k: int, n: nat, i: int)
    requires
        n <= edges.len(),
    ensures
        0 <= i < precise_targets(g.links, edges, k, n).len() ==> exists|j: int|
            0 <= j < n && precise_targets(g.links, edges, k, n)[i] == g.links[#[trigger] edges[j]].to
                && is_precise(g.links[edges[j]].edge, k),
        0 <= i < loose_targets(g, holder, edges, n).len() ==> exists|j: int|
            0 <= j < n && loose_targets(g, holder, edges, n)[i] == g.links[#[trigger] edges[j]].to
                && is_loose(g, holder, g.links[edges[j]]),
    decreases n,
{
    if n > 0 {
        lemma_targets_of_edges(g, holder, edges, k, (n - 1) as nat, i);
        let precise = precise_targets(g.links, edges, k, (n - 1) as nat);
        let loose = loose_targets(g, holder, edges, (n - 1) as nat);
        if 0 <= i < precise.len() {
            let j = choose|j: int|
                0 <= j < n - 1 && precise[i] == g.links[#[trigger] edges[j]].to && is_precise(
                    g.links[edges[j]].edge,
                    k,
                );
            assert(precise_targets(g.links, edges, k, n)[i] == g.links[edges[j]].to);
        } else if i == precise.len() && is_precise(g.links[edges[n - 1]].edge, k) {
            assert(precise_targets(g.links, edges, k, n)[i] == g.links[edges[n - 1]].to);
        }
        if 0 <= i < loose.len() {
            let j = choose|j: int|
                0 <= j < n - 1 && loose[i] == g.links[#[trigger] edges[j]].to && is_loose(
                    g,
                    holder,
                    g.links[edges[j]],
                );
            assert(loose_targets(g, holder, edges, n)[i] == g.links[edges[j]].to);
        } else if i == loose.len() && is_loose(g, holder, g.links[edges[n - 1]]) {
            assert(loose_targets(g, holder, edges, n)[i] == g.links[edges[n - 1]].to);
        }
    }
}

/// What a statement is about are nodes of the graph.
proof fn lemma_targets_within(g: GraphView, holder: int, k: int)
    requires
        g.wf(),
    ensures
        forall|i: int|
            0 <= i < grant_targets(g, holder, k).len() ==> 0 <= #[trigger] grant_targets(
                g,
                holder,
                k,
            )[i] < g.nodes.len(),
{
    let edges = links_from(g.links, holder);
    lemma_links_from(g.links, holder);
    assert forall|i: int| 0 <= i < grant_targets(g, holder, k).len() implies 0
        <= #[trigger] grant_targets(g, holder, k)[i] < g.nodes.len() by {
        lemma_targets_of_edges(g, holder, edges, k, edges.len(), i);
    }
}

/// Facts change nothing about what any resource of a policy refers to.
proof fn lemma_same_loose_targets(g: GraphView, holder: int, edges: Seq<int>, n: nat)
    requires
        g.wf(),
        0 <= holder < g.nodes.len(),
        forall|j: int| 0 <= j < edges.len() ==> 0 <= #[trigger] edges[j] < g.links.len(),
    ensures
        loose_targets(with_facts(g), holder, edges, n) == loose_targets(g, holder, edges, n),
    decreases n,
{
    if 0 < n <= edges.len() {
        lemma_same_loose_targets(g, holder, edges, (n - 1) as nat);
        lemma_keys_differ();
        lemma_facts_keep(g, holder, "policy"@);
        assert(0 <= edges[n - 1] < g.links.len());
        lemma_facts_keep(g, g.links[edges[n - 1]].to, "policy"@);
    }
}

proof fn lemma_same_statements(
    g: GraphView,
    holder: int,
    role: int,
    list: Seq<JsonView>,
    n: nat,
)
    requires
        g.wf(),
        0 <= holder < g.nodes.len(),
        0 <= role < g.nodes.len(),
    ensures
        statements_links(with_facts(g), holder, role, list, n) == statements_links(
            g,
            holder,
            role,
            list,
            n,
        ),
    decreases n,
{
    if 0 < n <= list.len() {
        lemma_same_statements(g, holder, role, list, (n - 1) as nat);
        lemma_keys_differ();
        lemma_facts_keep(g, holder, "policy"@);
        lemma_facts_keep(g, role, "policy"@);
        lemma_targets_within(g, holder, n - 1);
        let f = with_facts(g);
        let edges = links_from(g.links, holder);
        lemma_links_from(g.links, holder);
        lemma_same_loose_targets(g, holder, edges, edges.len());
        assert(grant_targets(f, holder, n - 1) == grant_targets(g, holder, n - 1));
        let targets = grant_targets(g, holder, n - 1);
        assert forall|i: int| 0 <= i < targets.len() implies grant_link(
            f,
            holder,
            role,
            list[n - 1],
            n - 1,
            #[trigger] targets[i],
        ) == grant_link(g, holder, role, list[n - 1], n - 1, targets[i]) by {
            lemma_facts_keep(g, targets[i], "policy"@);
        }
        assert(statement_links(f, holder, role, list[n - 1], n - 1) =~= statement_links(
            g,
            holder,
            role,
            list[n - 1],
            n - 1,
        ));
    }
}

proof fn lemma_same_holder(g: GraphView, holder: int, role: int)
    requires
        g.wf(),
        0 <= holder < g.nodes.len(),
        0 <= role < g.nodes.len(),
    ensures
        holder_links(with_facts(g), holder, role) == holder_links(g, holder, role),
{
    let list = statements(g.nodes[holder].attrs, "policy"@);
    lemma_keys_differ();
    lemma_facts_keep(g, holder, "policy"@);
    lemma_same_statements(g, holder, role, list, list.len());
}

proof fn lemma_same_attachments(g: GraphView, ix: int, n: nat)
    requires
        g.wf(),
        0 <= ix < g.nodes.len(),
        n <= g.nodes.len(),
    ensures
        attachments_links(with_facts(g), ix, n) == attachments_links(g, ix, n),
    decreases n,
{
    if n > 0 {
        lemma_same_attachments(g, ix, (n - 1) as nat);
        lemma_keys_differ();
        lemma_facts_keep(g, n - 1, "policy"@);
        if let Some(role) = attached_role(g, n - 1, ix) {
            lemma_referenced_within(g, n - 1, "role"@);
            lemma_same_holder(g, ix, role);
        }
    }
}

pub proof fn lemma_same_grants(g: GraphView, n: nat)
    requires
        g.wf(),
        n <= g.nodes.len(),
    ensures
        grant_links(with_facts(g), n) == grant_links(g, n),
    decreases n,
{
    if n > 0 {
        lemma_same_grants(g, (n - 1) as nat);
        lemma_keys_differ();
        lemma_facts_keep(g, n - 1, "policy"@);
        lemma_same_attachments(g, n - 1, g.nodes.len());
        if let Some(role) = referenced(g.links, n - 1, "role"@) {
            lemma_referenced_within(g, n - 1, "role"@);
            lemma_same_holder(g, n - 1, role);
        }
    }
}

/// Whether an edge is a grant of at least one action.
pub open spec fn is_allowed(edge: EdgeView) -> bool {
    edge.kind matches EdgeKindView::IamGrants { actions, effect, .. } && effect == "Allow"@
        && actions.len() > 0
}

proof fn lemma_statements_allowed(
    g: GraphView,
    holder: int,
    role: int,
    list: Seq<JsonView>,
    n: nat,
    i: int,
)
    requires
        0 <= i < statements_links(g, holder, role, list, n).len(),
    ensures
        is_allowed(statements_links(g, holder, role, list, n)[i].edge),
        statements_links(g, holder, role, list, n)[i].from == role,
    decreases n,
{
    if 0 < n <= list.len() {
        let before = statements_links(g, holder, role, list, (n - 1) as nat);
        if i < before.len() {
            lemma_statements_allowed(g, holder, role, list, (n - 1) as nat, i);
        } else {
            let last = statement_links(g, holder, role, list[n - 1], n - 1);
            assert(statements_links(g, holder, role, list, n)[i] == last[i - before.len()]);
        }
    }
}

proof fn lemma_attachments_allowed(g: GraphView, ix: int, n: nat, i: int)
    requires
        0 <= i < attachments_links(g, ix, n).len(),
    ensures
        is_allowed(attachments_links(g, ix, n)[i].edge),
    decreases n,
{
    if 0 < n <= g.nodes.len() {
        let before = attachments_links(g, ix, (n - 1) as nat);
        if i < before.len() {
            lemma_attachments_allowed(g, ix, (n - 1) as nat, i);
        } else if let Some(role) = attached_role(g, n - 1, ix) {
            let list = statements(g.nodes[ix].attrs, "policy"@);
            lemma_statements_allowed(g, ix, role, list, list.len(), i - before.len());
        }
    }
}

/// Every edge for a grant stands for a statement that allows at least one action.
pub proof fn law_grants_are_allowed(g: GraphView, n: nat, i: int)
    requires
        0 <= i < grant_links(g, n).len(),
    ensures
        is_allowed(grant_links(g, n)[i].edge),
    decreases n,
{
    if 0 < n <= g.nodes.len() {
        let before = grant_links(g, (n - 1) as nat);
        if i < before.len() {
            law_grants_are_allowed(g, (n - 1) as nat, i);
        } else {
            let k = i - before.len();
            assert(grant_links(g, n)[i] == policy_links(g, n - 1)[k]);
            if g.nodes[n - 1].kind is IamPolicy {
                lemma_attachments_allowed(g, n - 1, g.nodes.len(), k);
            } else {
                let role = referenced(g.links, n - 1, "role"@)->Some_0;
                let list = statements(g.nodes[n - 1].attrs, "policy"@);
                lemma_statements_allowed(g, n - 1, role, list, list.len(), k);
            }
        }
    }
}

/// The number of a statement that is written into a path is the one that is read from it, and what
/// is written behind it is what stands within the statement.
pub proof fn law_statement_number_is_read_back(p: Seq<char>, n: usize, q: Seq<char>)
    requires
        first_of(p + "Statement["@, "Statement["@) == Some(p.len() as int),
    ensures
        statement_index(p + "Statement["@ + decimal(n as nat) + "]"@ + q) == Some(n),
        within_statement(p + "Statement["@ + decimal(n as nat) + "]"@ + q) == q,
{
    reveal_strlit("Statement[");
    reveal_strlit("]");
    let mark = "Statement["@;
    let digits = decimal(n as nat);
    let head = p + mark;
    let path = head + digits + "]"@ + q;
    lemma_first_from(head, mark, 0);
    lemma_first_from(path, mark, 0);
    assert(path.subrange(p.len() as int, p.len() + 10int) =~= mark);
    assert(occurs_at(path, mark, p.len() as int));
    assert forall|j: int| 0 <= j < p.len() implies !#[trigger] occurs_at(path, mark, j) by {
        assert(!occurs_at(head, mark, j));
        assert(path.subrange(j, j + 10) =~= head.subrange(j, j + 10));
    }
    assert(first_of(path, mark) == Some(p.len() as int));
    let rest = path.skip(p.len() + 10int);
    assert(rest =~= digits + "]"@ + q);
    lemma_decimal_digits(n as nat);
    lemma_first_from(rest, "]"@, 0);
    assert(rest.subrange(digits.len() as int, digits.len() + 1int) =~= "]"@);
    assert(occurs_at(rest, "]"@, digits.len() as int));
    assert forall|j: int| 0 <= j < digits.len() implies !#[trigger] occurs_at(rest, "]"@, j) by {
        assert(rest.subrange(j, j + 1)[0] == digits[j]);
        assert(is_digit(digits[j]));
    }
    assert(first_of(rest, "]"@) == Some(digits.len() as int));
    assert(rest.take(digits.len() as int) =~= digits);
    assert(is_digit(digits[0]));
    assert(size_digits(digits) == digits);
    assert(rest.skip(digits.len() + 1int) =~= q);
}

/// A path without `Statement[` tells no statement.
pub proof fn law_other_paths_tell_no_statement(path: Seq<char>)
    requires
        !occurs(path, "Statement["@),
    ensures
        statement_index(path) is None,
{
    lemma_first_from(path, "Statement["@, 0);
}

/// A path within a statement that begins with the name of its resource does not begin with an
/// argument.
pub proof fn lemma_begins_with_resource(rest: Seq<char>)
    requires
        rest == ".Resource"@ || ".Resource["@.is_prefix_of(rest) || ".Resource/"@.is_prefix_of(rest),
    ensures
        leads_to_resource(rest),
{
    reveal_strlit("/arg0");
    reveal_strlit(".Resource");
    reveal_strlit(".Resource[");
    reveal_strlit(".Resource/");
    assert(rest[0] == '.') by {
        if ".Resource["@.is_prefix_of(rest) {
            assert(rest.subrange(0, 10)[0] == ".Resource["@[0]);
        } else if ".Resource/"@.is_prefix_of(rest) {
            assert(rest.subrange(0, 10)[0] == ".Resource/"@[0]);
        }
    }
    if "/arg0"@.is_prefix_of(rest) {
        assert(rest.subrange(0, 5)[0] == "/arg0"@[0]);
    }
}

/// A reference from the resource of a statement is found as one of that statement, also where it
/// stands in a list of resources or in a call.
pub proof fn law_resources_are_resolved(edge: EdgeView, p: Seq<char>, k: usize, rest: Seq<char>)
    requires
        edge.kind is References,
        first_of(p + "Statement["@, "Statement["@) == Some(p.len() as int),
        edge.evidence.attr_path == p + "Statement["@ + decimal(k as nat) + "]"@ + rest,
        rest == ".Resource"@ || (exists|i: nat, q: Seq<char>|
            rest == #[trigger] (item_path(".Resource"@, i as int) + q) || rest == argument_path(
                ".Resource"@,
                i as int,
            ) + q),
    ensures
        is_precise(edge, k as int),
{
    reveal_strlit(".Resource");
    reveal_strlit(".Resource[");
    reveal_strlit(".Resource/");
    reveal_strlit("[");
    reveal_strlit("/arg");
    if rest != ".Resource"@ {
        let (i, q) = choose|i: nat, q: Seq<char>|
            rest == #[trigger] (item_path(".Resource"@, i as int) + q) || rest == argument_path(
                ".Resource"@,
                i as int,
            ) + q;
        if rest == item_path(".Resource"@, i as int) + q {
            assert(rest.subrange(0, 10) =~= ".Resource["@);
        } else {
            assert(rest.subrange(0, 10) =~= ".Resource/"@);
        }
    }
    lemma_begins_with_resource(rest);
    law_statement_number_is_read_back(p, k, rest);
}

/// The target of an edge from the resource of statement `k` is among the targets of that statement.
proof fn lemma_precise_target(links: Seq<LinkView>, edges: Seq<int>, k: int, n: nat, j: int)
    requires
        0 <= j < n <= edges.len(),
        is_precise(links[edges[j]].edge, k),
    ensures
        precise_targets(links, edges, k, n).contains(links[edges[j]].to),
    decreases n,
{
    let before = precise_targets(links, edges, k, (n - 1) as nat);
    let target = links[edges[j]].to;
    if j == n - 1 {
        assert(before.push(target)[before.len() as int] == target);
    } else {
        lemma_precise_target(links, edges, k, (n - 1) as nat, j);
        let m = choose|m: int| 0 <= m < before.len() && before[m] == target;
        assert(precise_targets(links, edges, k, n)[m] == target);
    }
}

/// What a statement grants is among what its policy grants.
proof fn lemma_statement_among(
    g: GraphView,
    holder: int,
    role: int,
    list: Seq<JsonView>,
    n: nat,
    k: int,
    link: LinkView,
)
    requires
        0 <= k < n <= list.len(),
        statement_links(g, holder, role, list[k], k).contains(link),
    ensures
        statements_links(g, holder, role, list, n).contains(link),
    decreases n,
{
    let before = statements_links(g, holder, role, list, (n - 1) as nat);
    let own = statement_links(g, holder, role, list[n - 1], n - 1);
    if k == n - 1 {
        let m = choose|m: int| 0 <= m < own.len() && own[m] == link;
        assert((before + own)[before.len() + m] == link);
    } else {
        lemma_statement_among(g, holder, role, list, (n - 1) as nat, k, link);
        let m = choose|m: int| 0 <= m < before.len() && before[m] == link;
        assert((before + own)[m] == link);
    }
}

/// The target of an edge from any resource is among those of all of them.
proof fn lemma_loose_target(g: GraphView, holder: int, edges: Seq<int>, n: nat, j: int)
    requires
        0 <= j < n <= edges.len(),
        is_loose(g, holder, g.links[edges[j]]),
    ensures
        loose_targets(g, holder, edges, n).contains(g.links[edges[j]].to),
    decreases n,
{
    let before = loose_targets(g, holder, edges, (n - 1) as nat);
    let target = g.links[edges[j]].to;
    if j == n - 1 {
        assert(before.push(target)[before.len() as int] == target);
    } else {
        lemma_loose_target(g, holder, edges, (n - 1) as nat, j);
        let m = choose|m: int| 0 <= m < before.len() && before[m] == target;
        assert(loose_targets(g, holder, edges, n)[m] == target);
    }
}

/// A statement that allows something grants it on whatever its resource refers to and, where no
/// reference of the policy tells its statement, on whatever any resource refers to.
pub proof fn law_references_are_granted(g: GraphView, holder: int, role: int, k: int, e: int)
    requires
        0 <= e < g.links.len(),
        g.links[e].from == holder,
        is_precise(g.links[e].edge, k) || is_loose(g, holder, g.links[e]) && (forall|i: int|
            0 <= i < g.links.len() && (#[trigger] g.links[i]).from == holder ==> !is_indexed(
                g.links[i].edge,
            )),
        0 <= k < statements(g.nodes[holder].attrs, "policy"@).len(),
        is_grant(statements(g.nodes[holder].attrs, "policy"@)[k]),
    ensures
        holder_links(g, holder, role).contains(
            grant_link(
                g,
                holder,
                role,
                statements(g.nodes[holder].attrs, "policy"@)[k],
                k,
                g.links[e].to,
            ),
        ),
{
    let list = statements(g.nodes[holder].attrs, "policy"@);
    let edges = links_from(g.links, holder);
    let target = g.links[e].to;
    lemma_links_from(g.links, holder);
    let j = choose|j: int| 0 <= j < edges.len() && edges[j] == e;
    if is_precise(g.links[e].edge, k) {
        lemma_precise_target(g.links, edges, k, edges.len(), j);
    } else {
        lemma_targets_of_edges(g, holder, edges, k, edges.len(), 0);
        lemma_loose_target(g, holder, edges, edges.len(), j);
    }
    let targets = grant_targets(g, holder, k);
    let m = choose|m: int| 0 <= m < targets.len() && targets[m] == target;
    let link = grant_link(g, holder, role, list[k], k, target);
    assert(statement_links(g, holder, role, list[k], k)[m] == link);
    lemma_statement_among(g, holder, role, list, list.len(), k, link);
}

/// Whatever a statement grants something on, the policy refers to it from a resource: from that of
/// the statement itself or, where no reference of the policy tells its statement, from any.
pub proof fn law_targets_are_resources(g: GraphView, holder: int, k: int, target: int)
    requires
        grant_targets(g, holder, k).contains(target),
    ensures
        exists|e: int|
            0 <= e < g.links.len() && (#[trigger] g.links[e]).from == holder && g.links[e].to
                == target && (is_precise(g.links[e].edge, k) || is_loose(g, holder, g.links[e])
                && !is_indexed(g.links[e].edge)),
{
    let edges = links_from(g.links, holder);
    lemma_links_from(g.links, holder);
    let targets = grant_targets(g, holder, k);
    let i = choose|i: int| 0 <= i < targets.len() && targets[i] == target;
    lemma_targets_of_edges(g, holder, edges, k, edges.len(), i);
    let j = choose|j: int|
        0 <= j < edges.len() && target == g.links[#[trigger] edges[j]].to && (is_precise(
            g.links[edges[j]].edge,
            k,
        ) || is_loose(g, holder, g.links[edges[j]]) && !is_indexed(g.links[edges[j]].edge));
    assert(g.links[edges[j]].from == holder);
}

} // verus!
