//! What the chains that a rule describes are: the paths of the graph that its steps allow, all of
//! them and no others.

use crate::graph::{GraphView, lemma_links_from, links_from};
use crate::matcher::{
    ChainView,
    FindingView,
    WalkView,
    all_extended,
    branches,
    chains,
    edge_fits,
    edge_step,
    edge_steps,
    extended,
    extensions,
    hop_limit,
    joined_to,
    moved,
    node_fits,
    node_step,
    reported,
    rule_findings,
    starts,
    step_walks,
    walks,
};
use crate::rule::{EdgeMatcher, NodeMatcher, Rule};
use vstd::prelude::*;

verus! {

/// Whether edges, one after the other, lead from a node to another, and each is one that a step
/// asks for.
pub open spec fn is_trail(
    g: GraphView,
    m: EdgeMatcher,
    from: int,
    trail: Seq<int>,
    to: int,
) -> bool
    decreases trail.len(),
{
    if trail.len() == 0 {
        from == to
    } else {
        let e = trail[0];
        &&& 0 <= e < g.links.len()
        &&& g.links[e].from == from
        &&& edge_fits(g.links[e].edge, m)
        &&& is_trail(g, m, g.links[e].to, trail.skip(1), to)
    }
}

/// Some trails, one after the other.
pub open spec fn flat(trails: Seq<Seq<int>>) -> Seq<int>
    decreases trails.len(),
{
    if trails.len() == 0 {
        Seq::empty()
    } else {
        flat(trails.drop_last()) + trails.last()
    }
}

/// Whether nodes, with trails between them, are what a rule asks for in its first steps: each node
/// is one that its step asks for, each trail leads from a node to the next along edges that its
/// step asks for and is as long as its step allows, and all of them together are not longer than
/// the rule allows.
pub open spec fn is_chain(
    g: GraphView,
    rule: Rule,
    nodes: Seq<int>,
    trails: Seq<Seq<int>>,
) -> bool {
    &&& nodes.len() == trails.len() + 1
    &&& forall|i: int|
        0 <= i < nodes.len() ==> 0 <= #[trigger] nodes[i] < g.nodes.len() && node_fits(
            g.nodes[nodes[i]],
            node_step(rule, i),
        )
    &&& forall|i: int|
        0 <= i < trails.len() ==> is_trail(
            g,
            edge_step(rule, i),
            nodes[i],
            #[trigger] trails[i],
            nodes[i + 1],
        ) && 0 < trails[i].len() && edge_step(rule, i).min_hops <= trails[i].len() <= edge_step(
            rule,
            i,
        ).max_hops
    &&& flat(trails).len() <= rule.max_total_hops
}

/// Whether a chain is what a rule asks for in its first `k` edge steps and the nodes around them.
pub open spec fn described(g: GraphView, rule: Rule, k: nat, c: ChainView) -> bool {
    exists|trails: Seq<Seq<int>>|
        trails.len() == k && #[trigger] is_chain(g, rule, c.nodes, trails) && c.edges == flat(
            trails,
        )
}

/// Whether a walk goes on from another along edges that a step asks for.
spec fn goes_on(g: GraphView, m: EdgeMatcher, walk: WalkView, x: WalkView) -> bool {
    &&& walk.trail.is_prefix_of(x.trail)
    &&& is_trail(g, m, walk.node, x.trail.skip(walk.trail.len() as int), x.node)
}

/// A walk with one more edge.
spec fn one_more(g: GraphView, walk: WalkView, e: int) -> WalkView {
    WalkView { node: g.links[e].to, trail: walk.trail.push(e) }
}

/// The walks along some edges are those along one of them.
proof fn lemma_branches(
    g: GraphView,
    m: EdgeMatcher,
    walk: WalkView,
    edges: Seq<int>,
    min: nat,
    max: nat,
    n: nat,
    x: WalkView,
)
    requires
        n <= edges.len(),
        walk.trail.len() < max,
    ensures
        branches(g, m, walk, edges, min, max, n).contains(x) <==> exists|j: int|
            0 <= j < n && edge_fits(g.links[#[trigger] edges[j]].edge, m) && walks(
                g,
                m,
                one_more(g, walk, edges[j]),
                min,
                max,
            ).contains(x),
    decreases n,
{
    if n > 0 {
        let before = branches(g, m, walk, edges, min, max, (n - 1) as nat);
        let all = branches(g, m, walk, edges, min, max, n);
        let e = edges[n - 1];
        let last = walks(g, m, one_more(g, walk, e), min, max);
        lemma_branches(g, m, walk, edges, min, max, (n - 1) as nat, x);
        if edge_fits(g.links[e].edge, m) {
            assert(all == before + last);
            if all.contains(x) {
                let i = choose|i: int| 0 <= i < all.len() && all[i] == x;
                if i < before.len() {
                    assert(before[i] == x);
                } else {
                    assert(last[i - before.len()] == x);
                    assert(edges[n - 1] == e);
                }
            }
            if before.contains(x) {
                let i = choose|i: int| 0 <= i < before.len() && before[i] == x;
                assert(all[i] == x);
            }
            if last.contains(x) {
                let i = choose|i: int| 0 <= i < last.len() && last[i] == x;
                assert(all[before.len() + i] == x);
            }
        } else {
            assert(all =~= before);
        }
    }
}

/// The walks that go on from a walk are all those that do, as long as is allowed.
proof fn lemma_walks(
    g: GraphView,
    m: EdgeMatcher,
    walk: WalkView,
    min: nat,
    max: nat,
    x: WalkView,
)
    requires
        walk.trail.len() <= max,
    ensures
        walks(g, m, walk, min, max).contains(x) <==> goes_on(g, m, walk, x) && min <= x.trail.len()
            <= max,
    decreases max - walk.trail.len(),
{
    let all = walks(g, m, walk, min, max);
    let n = walk.trail.len();
    let here: Seq<WalkView> = if n >= min {
        seq![walk]
    } else {
        Seq::empty()
    };
    let rest = x.trail.skip(n as int);
    if walk == x {
        assert(rest =~= Seq::<int>::empty());
        assert(goes_on(g, m, walk, x));
    }
    if goes_on(g, m, walk, x) && x.trail.len() == n {
        assert(x.trail =~= walk.trail);
        assert(x == walk);
    }
    if n >= max {
        assert(all =~= here);
        if all.contains(x) {
            assert(x == walk);
        }
        if goes_on(g, m, walk, x) && min <= x.trail.len() <= max {
            assert(all[0] == x);
        }
    } else {
        let edges = links_from(g.links, walk.node);
        let more = branches(g, m, walk, edges, min, max, edges.len());
        assert(all =~= here + more);
        lemma_branches(g, m, walk, edges, min, max, edges.len(), x);
        lemma_links_from(g.links, walk.node);
        if all.contains(x) {
            let i = choose|i: int| 0 <= i < all.len() && all[i] == x;
            if i < here.len() {
                assert(x == walk);
            } else {
                assert(more[i - here.len()] == x);
                let j = choose|j: int|
                    0 <= j < edges.len() && edge_fits(g.links[#[trigger] edges[j]].edge, m)
                        && walks(g, m, one_more(g, walk, edges[j]), min, max).contains(x);
                let next = one_more(g, walk, edges[j]);
                lemma_walks(g, m, next, min, max, x);
                assert(x.trail[n as int] == next.trail[n as int]);
                assert(rest[0] == edges[j]);
                assert(rest.skip(1) =~= x.trail.skip(next.trail.len() as int));
                assert(walk.trail =~= next.trail.take(n as int));
                assert(walk.trail.is_prefix_of(x.trail));
            }
        }
        if goes_on(g, m, walk, x) && min <= x.trail.len() <= max {
            if x.trail.len() == n {
                assert(all[0] == x);
            } else {
                let e = rest[0];
                assert(edges.contains(e));
                let j = choose|j: int| 0 <= j < edges.len() && edges[j] == e;
                let next = one_more(g, walk, e);
                assert(next.trail =~= x.trail.take(n as int + 1));
                assert(x.trail.skip(next.trail.len() as int) =~= rest.skip(1));
                lemma_walks(g, m, next, min, max, x);
                assert(edges[j] == e);
                assert(more.contains(x));
                let i = choose|i: int| 0 <= i < more.len() && more[i] == x;
                assert(all[here.len() + i] == x);
            }
        }
    }
}

/// The walks that took an edge are those of a list that did.
proof fn lemma_moved(list: Seq<WalkView>, n: nat, x: WalkView)
    requires
        n <= list.len(),
    ensures
        moved(list, n).contains(x) <==> x.trail.len() > 0 && exists|i: int|
            0 <= i < n && #[trigger] list[i] == x,
    decreases n,
{
    if n > 0 {
        let before = moved(list, (n - 1) as nat);
        let all = moved(list, n);
        lemma_moved(list, (n - 1) as nat, x);
        if list[n - 1].trail.len() > 0 {
            if all.contains(x) {
                let i = choose|i: int| 0 <= i < all.len() && all[i] == x;
                if i < before.len() {
                    assert(before[i] == x);
                } else {
                    assert(list[n - 1] == x);
                }
            }
            if before.contains(x) {
                let i = choose|i: int| 0 <= i < before.len() && before[i] == x;
                assert(all[i] == x);
            }
            assert(all[before.len() as int] == list[n - 1]);
        }
    }
}

/// A step may take the walks along edges that it asks for, as long as it and the rule allow.
proof fn lemma_step_walks(
    g: GraphView,
    m: EdgeMatcher,
    from: int,
    hops: nat,
    total: nat,
    x: WalkView,
)
    ensures
        step_walks(g, m, from, hops, total).contains(x) <==> is_trail(g, m, from, x.trail, x.node)
            && 0 < x.trail.len() && m.min_hops <= x.trail.len() <= hop_limit(m, hops, total),
{
    let max = hop_limit(m, hops, total);
    if max > 0 {
        let start = WalkView { node: from, trail: Seq::empty() };
        let all = walks(g, m, start, m.min_hops as nat, max);
        lemma_walks(g, m, start, m.min_hops as nat, max, x);
        lemma_moved(all, all.len(), x);
        assert(x.trail.skip(0) =~= x.trail);
        if all.contains(x) {
            let i = choose|i: int| 0 <= i < all.len() && all[i] == x;
            assert(all[i] == x);
        }
        if exists|i: int| 0 <= i < all.len() && #[trigger] all[i] == x {
            assert(all.contains(x));
        }
    }
}

/// A chain is extended by the walks that lead to a node that a step asks for.
proof fn lemma_extensions(
    g: GraphView,
    m: NodeMatcher,
    chain: ChainView,
    list: Seq<WalkView>,
    n: nat,
    c: ChainView,
)
    requires
        n <= list.len(),
    ensures
        extensions(g, m, chain, list, n).contains(c) <==> exists|i: int|
            0 <= i < n && node_fits(g.nodes[(#[trigger] list[i]).node], m) && c == joined_to(
                chain,
                list[i],
            ),
    decreases n,
{
    if n > 0 {
        let before = extensions(g, m, chain, list, (n - 1) as nat);
        let all = extensions(g, m, chain, list, n);
        lemma_extensions(g, m, chain, list, (n - 1) as nat, c);
        if node_fits(g.nodes[list[n - 1].node], m) {
            if all.contains(c) {
                let i = choose|i: int| 0 <= i < all.len() && all[i] == c;
                if i < before.len() {
                    assert(before[i] == c);
                } else {
                    assert(c == joined_to(chain, list[n - 1]));
                }
            }
            if before.contains(c) {
                let i = choose|i: int| 0 <= i < before.len() && before[i] == c;
                assert(all[i] == c);
            }
            assert(all[before.len() as int] == joined_to(chain, list[n - 1]));
        }
    }
}

/// Some chains are extended each by itself.
proof fn lemma_all_extended(
    g: GraphView,
    em: EdgeMatcher,
    nm: NodeMatcher,
    list: Seq<ChainView>,
    total: nat,
    n: nat,
    c: ChainView,
)
    requires
        n <= list.len(),
    ensures
        all_extended(g, em, nm, list, total, n).contains(c) <==> exists|i: int|
            0 <= i < n && extended(g, em, nm, #[trigger] list[i], total).contains(c),
    decreases n,
{
    if n > 0 {
        let before = all_extended(g, em, nm, list, total, (n - 1) as nat);
        let last = extended(g, em, nm, list[n - 1], total);
        let all = all_extended(g, em, nm, list, total, n);
        lemma_all_extended(g, em, nm, list, total, (n - 1) as nat, c);
        assert(all == before + last);
        if all.contains(c) {
            let i = choose|i: int| 0 <= i < all.len() && all[i] == c;
            if i < before.len() {
                assert(before[i] == c);
            } else {
                assert(last[i - before.len()] == c);
                assert(extended(g, em, nm, list[n - 1], total).contains(c));
            }
        }
        if before.contains(c) {
            let i = choose|i: int| 0 <= i < before.len() && before[i] == c;
            assert(all[i] == c);
        }
        if last.contains(c) {
            let i = choose|i: int| 0 <= i < last.len() && last[i] == c;
            assert(all[before.len() + i] == c);
        }
    }
}

/// The chains of one node are those of the nodes that the first step asks for.
proof fn lemma_starts(g: GraphView, m: NodeMatcher, n: nat, c: ChainView)
    requires
        n <= g.nodes.len(),
    ensures
        starts(g, m, n).contains(c) <==> c.edges.len() == 0 && c.nodes.len() == 1 && 0 <= c.nodes[0]
            < n && node_fits(g.nodes[c.nodes[0]], m),
    decreases n,
{
    if n > 0 {
        let before = starts(g, m, (n - 1) as nat);
        let all = starts(g, m, n);
        let new = ChainView { nodes: seq![n - 1], edges: Seq::empty() };
        lemma_starts(g, m, (n - 1) as nat, c);
        if c.nodes.len() == 1 && c.edges.len() == 0 && c.nodes[0] == n - 1 {
            assert(c.nodes =~= new.nodes);
            assert(c.edges =~= new.edges);
            assert(c == new);
        }
        if node_fits(g.nodes[n - 1], m) {
            if all.contains(c) {
                let i = choose|i: int| 0 <= i < all.len() && all[i] == c;
                if i < before.len() {
                    assert(before[i] == c);
                } else {
                    assert(c == new);
                }
            }
            if before.contains(c) {
                let i = choose|i: int| 0 <= i < before.len() && before[i] == c;
                assert(all[i] == c);
            }
            assert(all[before.len() as int] == new);
        }
    }
}

/// A trail that takes an edge leads to a node of the graph.
proof fn lemma_trail_within(g: GraphView, m: EdgeMatcher, from: int, trail: Seq<int>, to: int)
    requires
        g.wf(),
        is_trail(g, m, from, trail, to),
        trail.len() > 0,
    ensures
        0 <= to < g.nodes.len(),
        forall|i: int| 0 <= i < trail.len() ==> 0 <= #[trigger] trail[i] < g.links.len(),
    decreases trail.len(),
{
    let e = trail[0];
    let rest = trail.skip(1);
    assert(0 <= g.links[e].to < g.nodes.len());
    assert(is_trail(g, m, g.links[e].to, rest, to));
    if rest.len() > 0 {
        lemma_trail_within(g, m, g.links[e].to, rest, to);
        assert forall|i: int| 0 <= i < trail.len() implies 0 <= #[trigger] trail[i]
            < g.links.len() by {
            if i > 0 {
                assert(trail[i] == rest[i - 1]);
            }
        }
    }
}

/// The beginning of a chain is one.
proof fn lemma_shorter(g: GraphView, rule: Rule, nodes: Seq<int>, trails: Seq<Seq<int>>)
    requires
        is_chain(g, rule, nodes, trails),
        trails.len() > 0,
    ensures
        is_chain(g, rule, nodes.drop_last(), trails.drop_last()),
{
    let fewer = nodes.drop_last();
    let before = trails.drop_last();
    assert forall|i: int| 0 <= i < fewer.len() implies 0 <= #[trigger] fewer[i] < g.nodes.len()
        && node_fits(g.nodes[fewer[i]], node_step(rule, i)) by {
        assert(nodes[i] == fewer[i]);
    }
    assert forall|i: int| 0 <= i < before.len() implies is_trail(
        g,
        edge_step(rule, i),
        fewer[i],
        #[trigger] before[i],
        fewer[i + 1],
    ) && 0 < before[i].len() && edge_step(rule, i).min_hops <= before[i].len() <= edge_step(
        rule,
        i,
    ).max_hops by {
        assert(trails[i] == before[i]);
        assert(nodes[i] == fewer[i]);
        assert(nodes[i + 1] == fewer[i + 1]);
    }
}

/// A chain with a walk of the next step added to it is one.
proof fn lemma_longer(
    g: GraphView,
    rule: Rule,
    nodes: Seq<int>,
    trails: Seq<Seq<int>>,
    walk: WalkView,
)
    requires
        g.wf(),
        is_chain(g, rule, nodes, trails),
        is_trail(g, edge_step(rule, trails.len() as int), nodes.last(), walk.trail, walk.node),
        0 < walk.trail.len(),
        edge_step(rule, trails.len() as int).min_hops <= walk.trail.len() <= hop_limit(
            edge_step(rule, trails.len() as int),
            flat(trails).len(),
            rule.max_total_hops as nat,
        ),
        node_fits(g.nodes[walk.node], node_step(rule, nodes.len() as int)),
    ensures
        is_chain(g, rule, nodes.push(walk.node), trails.push(walk.trail)),
        flat(trails.push(walk.trail)) == flat(trails) + walk.trail,
{
    let more = nodes.push(walk.node);
    let after = trails.push(walk.trail);
    let k = trails.len() as int;
    lemma_trail_within(g, edge_step(rule, k), nodes.last(), walk.trail, walk.node);
    assert(after.drop_last() =~= trails);
    assert forall|i: int| 0 <= i < more.len() implies 0 <= #[trigger] more[i] < g.nodes.len()
        && node_fits(g.nodes[more[i]], node_step(rule, i)) by {
        if i < nodes.len() {
            assert(more[i] == nodes[i]);
        }
    }
    assert forall|i: int| 0 <= i < after.len() implies is_trail(
        g,
        edge_step(rule, i),
        more[i],
        #[trigger] after[i],
        more[i + 1],
    ) && 0 < after[i].len() && edge_step(rule, i).min_hops <= after[i].len() <= edge_step(
        rule,
        i,
    ).max_hops by {
        if i < trails.len() {
            assert(after[i] == trails[i]);
            assert(more[i] == nodes[i]);
            assert(more[i + 1] == nodes[i + 1]);
        }
    }
}

/// The chains that are found after `k` edge steps are all those that the rule describes so far, and
/// no others.
pub proof fn law_chains_are_those_described(g: GraphView, rule: Rule, k: nat, c: ChainView)
    requires
        g.wf(),
    ensures
        chains(g, rule, k).contains(c) <==> described(g, rule, k, c),
    decreases k,
{
    let total = rule.max_total_hops as nat;
    if k == 0 {
        lemma_starts(g, node_step(rule, 0), g.nodes.len(), c);
        if chains(g, rule, 0).contains(c) {
            let none = Seq::<Seq<int>>::empty();
            assert(c.edges =~= flat(none));
            assert(is_chain(g, rule, c.nodes, none));
        }
        if described(g, rule, 0, c) {
            let trails = choose|trails: Seq<Seq<int>>|
                trails.len() == 0 && #[trigger] is_chain(g, rule, c.nodes, trails) && c.edges
                    == flat(trails);
            assert(0 <= c.nodes[0] < g.nodes.len());
        }
    } else {
        let em = edge_step(rule, k - 1);
        let nm = node_step(rule, k as int);
        let before = chains(g, rule, (k - 1) as nat);
        lemma_all_extended(g, em, nm, before, total, before.len(), c);
        if chains(g, rule, k).contains(c) {
            let i = choose|i: int|
                0 <= i < before.len() && extended(g, em, nm, #[trigger] before[i], total).contains(
                    c,
                );
            let p = before[i];
            assert(before.contains(p));
            law_chains_are_those_described(g, rule, (k - 1) as nat, p);
            let trails = choose|trails: Seq<Seq<int>>|
                trails.len() == k - 1 && #[trigger] is_chain(g, rule, p.nodes, trails) && p.edges
                    == flat(trails);
            let list = step_walks(g, em, p.nodes.last(), p.edges.len(), total);
            lemma_extensions(g, nm, p, list, list.len(), c);
            let j = choose|j: int|
                0 <= j < list.len() && node_fits(g.nodes[(#[trigger] list[j]).node], nm) && c
                    == joined_to(p, list[j]);
            let walk = list[j];
            assert(list.contains(walk));
            lemma_step_walks(g, em, p.nodes.last(), p.edges.len(), total, walk);
            lemma_longer(g, rule, p.nodes, trails, walk);
            assert(is_chain(g, rule, c.nodes, trails.push(walk.trail)));
        }
        if described(g, rule, k, c) {
            let trails = choose|trails: Seq<Seq<int>>|
                trails.len() == k && #[trigger] is_chain(g, rule, c.nodes, trails) && c.edges
                    == flat(trails);
            let p = ChainView { nodes: c.nodes.drop_last(), edges: flat(trails.drop_last()) };
            let walk = WalkView { node: c.nodes.last(), trail: trails.last() };
            lemma_shorter(g, rule, c.nodes, trails);
            assert(described(g, rule, (k - 1) as nat, p)) by {
                assert(is_chain(g, rule, p.nodes, trails.drop_last()));
            }
            law_chains_are_those_described(g, rule, (k - 1) as nat, p);
            let i = choose|i: int| 0 <= i < before.len() && before[i] == p;
            let list = step_walks(g, em, p.nodes.last(), p.edges.len(), total);
            assert(trails[k - 1] == walk.trail);
            assert(c.nodes[k - 1] == p.nodes.last());
            assert(c.nodes[k as int] == walk.node);
            lemma_step_walks(g, em, p.nodes.last(), p.edges.len(), total, walk);
            assert(list.contains(walk));
            let j = choose|j: int| 0 <= j < list.len() && list[j] == walk;
            assert(joined_to(p, walk).nodes =~= c.nodes);
            assert(joined_to(p, walk).edges =~= c.edges);
            lemma_extensions(g, nm, p, list, list.len(), c);
            assert(list[j] == walk);
            assert(extended(g, em, nm, before[i], total).contains(c));
        }
    }
}

/// What is reported of a rule are the chains that it describes, all of them and nothing else.
pub proof fn law_findings_are_the_chains(g: GraphView, rule: Rule, f: FindingView)
    requires
        g.wf(),
    ensures
        rule_findings(g, rule).contains(f) <==> exists|c: ChainView| #[trigger]
            described(g, rule, edge_steps(rule), c) && f == reported(g, rule, c),
{
    let found = chains(g, rule, edge_steps(rule));
    let list = rule_findings(g, rule);
    if list.contains(f) {
        let i = choose|i: int| 0 <= i < list.len() && list[i] == f;
        let c = found[i];
        assert(found.contains(c));
        law_chains_are_those_described(g, rule, edge_steps(rule), c);
        assert(f == reported(g, rule, c));
    }
    if exists|c: ChainView| #[trigger]
        described(g, rule, edge_steps(rule), c) && f == reported(g, rule, c) {
        let c = choose|c: ChainView| #[trigger]
            described(g, rule, edge_steps(rule), c) && f == reported(g, rule, c);
        law_chains_are_those_described(g, rule, edge_steps(rule), c);
        let i = choose|i: int| 0 <= i < found.len() && found[i] == c;
        assert(list[i] == f);
    }
}

/// Some trails that each take an edge, one after the other, have at least as many edges as there
/// are trails. All their edges are edges of the trails.
proof fn lemma_flat(g: GraphView, trails: Seq<Seq<int>>)
    requires
        forall|i: int| 0 <= i < trails.len() ==> (#[trigger] trails[i]).len() > 0,
        forall|i: int, j: int|
            0 <= i < trails.len() && 0 <= j < trails[i].len() ==> 0 <= #[trigger] trails[i][j]
                < g.links.len(),
    ensures
        flat(trails).len() >= trails.len(),
        forall|k: int| 0 <= k < flat(trails).len() ==> 0 <= #[trigger] flat(trails)[k] < g.links.len(),
    decreases trails.len(),
{
    if trails.len() > 0 {
        let before = trails.drop_last();
        assert forall|i: int, j: int| 0 <= i < before.len() && 0 <= j < before[i].len() implies 0
            <= #[trigger] before[i][j] < g.links.len() by {
            assert(trails[i][j] == before[i][j]);
        }
        assert forall|i: int| 0 <= i < before.len() implies (#[trigger] before[i]).len() > 0 by {
            assert(trails[i] == before[i]);
        }
        lemma_flat(g, before);
        assert(trails[trails.len() - 1].len() > 0);
        assert forall|k: int| 0 <= k < flat(trails).len() implies 0 <= #[trigger] flat(trails)[k]
            < g.links.len() by {
            let n = flat(before).len();
            if k < n {
                assert(flat(trails)[k] == flat(before)[k]);
            } else {
                assert(flat(trails)[k] == trails[trails.len() - 1][k - n]);
            }
        }
    }
}

/// Whether a node of the graph has an address.
pub open spec fn is_address(g: GraphView, id: Seq<char>) -> bool {
    exists|ix: int| 0 <= ix < g.nodes.len() && (#[trigger] g.nodes[ix]).id == id
}

/// A chain that is reported has a node for each node step of its rule, an edge or more for each
/// edge step, and never more edges than the rule allows. Its edges are edges of the graph.
pub proof fn law_findings_are_bounded(g: GraphView, rule: Rule, f: FindingView)
    requires
        g.wf(),
        rule_findings(g, rule).contains(f),
    ensures
        f.rule_id == rule.id@,
        f.node_ids.len() == edge_steps(rule) + 1,
        edge_steps(rule) <= f.edges.len() <= rule.max_total_hops,
        forall|i: int| 0 <= i < f.edges.len() ==> 0 <= #[trigger] f.edges[i] < g.links.len(),
        forall|i: int| 0 <= i < f.node_ids.len() ==> is_address(g, #[trigger] f.node_ids[i]),
{
    law_findings_are_the_chains(g, rule, f);
    let c = choose|c: ChainView| #[trigger]
        described(g, rule, edge_steps(rule), c) && f == reported(g, rule, c);
    let trails = choose|trails: Seq<Seq<int>>|
        trails.len() == edge_steps(rule) && #[trigger] is_chain(g, rule, c.nodes, trails) && c.edges
            == flat(trails);
    assert forall|i: int, j: int| 0 <= i < trails.len() && 0 <= j < trails[i].len() implies 0
        <= #[trigger] trails[i][j] < g.links.len() by {
        lemma_trail_within(g, edge_step(rule, i), c.nodes[i], trails[i], c.nodes[i + 1]);
    }
    lemma_flat(g, trails);
    assert forall|i: int| 0 <= i < f.node_ids.len() implies is_address(
        g,
        #[trigger] f.node_ids[i],
    ) by {
        assert(f.node_ids[i] == g.nodes[c.nodes[i]].id);
    }
}

/// Where no path of the graph is what a rule asks for, nothing is reported of the rule.
pub proof fn law_no_chain_no_finding(g: GraphView, rule: Rule)
    requires
        g.wf(),
        forall|c: ChainView| !#[trigger] described(g, rule, edge_steps(rule), c),
    ensures
        rule_findings(g, rule).len() == 0,
{
    let list = rule_findings(g, rule);
    if list.len() > 0 {
        assert(list.contains(list[0]));
        law_findings_are_the_chains(g, rule, list[0]);
    }
}

/// Whether edges, one after the other, lead from a node to another.
pub open spec fn is_path(g: GraphView, from: int, edges: Seq<int>, to: int) -> bool
    decreases edges.len(),
{
    if edges.len() == 0 {
        from == to
    } else {
        let e = edges[0];
        &&& 0 <= e < g.links.len()
        &&& g.links[e].from == from
        &&& is_path(g, g.links[e].to, edges.skip(1), to)
    }
}

proof fn lemma_trail_is_path(g: GraphView, m: EdgeMatcher, from: int, trail: Seq<int>, to: int)
    requires
        is_trail(g, m, from, trail, to),
    ensures
        is_path(g, from, trail, to),
    decreases trail.len(),
{
    if trail.len() > 0 {
        lemma_trail_is_path(g, m, g.links[trail[0]].to, trail.skip(1), to);
    }
}

proof fn lemma_paths_join(
    g: GraphView,
    from: int,
    first: Seq<int>,
    middle: int,
    second: Seq<int>,
    to: int,
)
    requires
        is_path(g, from, first, middle),
        is_path(g, middle, second, to),
    ensures
        is_path(g, from, first + second, to),
    decreases first.len(),
{
    if first.len() == 0 {
        assert(first + second =~= second);
    } else {
        lemma_paths_join(g, g.links[first[0]].to, first.skip(1), middle, second, to);
        assert((first + second).skip(1) =~= first.skip(1) + second);
    }
}

proof fn lemma_chain_is_path(g: GraphView, rule: Rule, nodes: Seq<int>, trails: Seq<Seq<int>>)
    requires
        is_chain(g, rule, nodes, trails),
    ensures
        is_path(g, nodes[0], flat(trails), nodes.last()),
    decreases trails.len(),
{
    if trails.len() > 0 {
        let k = trails.len() - 1;
        lemma_shorter(g, rule, nodes, trails);
        lemma_chain_is_path(g, rule, nodes.drop_last(), trails.drop_last());
        assert(nodes.drop_last().last() == nodes[k]);
        assert(trails[k] == trails.last());
        lemma_trail_is_path(g, edge_step(rule, k), nodes[k], trails[k], nodes[k + 1]);
        lemma_paths_join(
            g,
            nodes[0],
            flat(trails.drop_last()),
            nodes[k],
            trails.last(),
            nodes[k + 1],
        );
    }
}

/// The edges of a chain that a rule describes lead, one after the other, from its first node to its
/// last.
pub proof fn law_chains_are_paths(g: GraphView, rule: Rule, k: nat, c: ChainView)
    requires
        described(g, rule, k, c),
    ensures
        c.nodes.len() == k + 1,
        is_path(g, c.nodes[0], c.edges, c.nodes.last()),
{
    let trails = choose|trails: Seq<Seq<int>>|
        trails.len() == k && #[trigger] is_chain(g, rule, c.nodes, trails) && c.edges == flat(
            trails,
        );
    lemma_chain_is_path(g, rule, c.nodes, trails);
}

/// On a path, every edge begins where the one before ends.
pub proof fn lemma_path_steps(g: GraphView, from: int, edges: Seq<int>, to: int, i: int)
    requires
        is_path(g, from, edges, to),
        0 <= i < edges.len(),
    ensures
        0 <= edges[i] < g.links.len(),
        i == 0 ==> g.links[edges[i]].from == from,
        i > 0 ==> g.links[edges[i]].from == g.links[edges[i - 1]].to,
        i == edges.len() - 1 ==> g.links[edges[i]].to == to,
    decreases edges.len(),
{
    let rest = edges.skip(1);
    let next = g.links[edges[0]].to;
    assert(is_path(g, next, rest, to));
    if i > 0 {
        assert(edges[i] == rest[i - 1]);
        lemma_path_steps(g, next, rest, to, i - 1);
        if i > 1 {
            assert(edges[i - 1] == rest[i - 2]);
        }
    }
}

} // verus!
