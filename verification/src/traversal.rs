//! BFS neighborhood traversal and unweighted shortest paths over the
//! graph store, with parent-pointer visit records and lazy path
//! reconstruction.

use std::collections::HashMap;
use vstd::prelude::*;

use crate::graph::{Edge, Graph, GraphModel, NodeId, RelTypeId};
use crate::reachability::{
    dist_is, edge_at, lemma_dist_chain, lemma_dist_exists, lemma_dist_unique, lemma_reach_mono,
    lemma_step_extend, lemma_step_tagged_step, list_of, passes, reach, step, step_tagged,
    tagged_path_ok, uses_in, uses_out, Direction, Exclusions, TraversalDirection,
};

verus! {

broadcast use vstd::std_specs::hash::group_hash_axioms;

/// A node found during BFS neighborhood traversal.
#[derive(Debug)]
pub struct NeighborResult {
    pub node_id: NodeId,
    pub label: String,
    pub app_id: Option<String>,
    pub distance: u32,
    /// Relationship-type names on one shortest path from the start to this
    /// node (names that are not interned are skipped).
    pub path_types: Vec<String>,
    /// Traversal direction of each edge on that path.
    pub path_directions: Vec<Direction>,
}

/// A single step in a shortest path.
#[derive(Debug)]
pub struct PathStep {
    pub node_id: NodeId,
    pub label: String,
    pub app_id: Option<String>,
    pub rel_type: Option<String>,
    /// Direction the edge was traversed to reach this node; absent for the
    /// start node.
    pub direction: Option<Direction>,
}

/// Result of a BFS neighborhood traversal.
#[derive(Debug)]
pub struct TraversalResult {
    pub neighbors: Vec<NeighborResult>,
    pub nodes_visited: usize,
}

/// The confidence-filtered, direction-tagged entries of one adjacency list.
pub open spec fn filter_tag(s: Seq<Edge>, d: Direction, mc: Option<u32>) -> Seq<(Edge, Direction)>
    decreases s.len(),
{
    if s.len() == 0 {
        Seq::empty()
    } else {
        filter_tag(s.drop_last(), d, mc) + if passes(s.last().confidence, mc) {
            seq![(s.last(), d)]
        } else {
            Seq::empty()
        }
    }
}

/// The fused neighbor sequence of a node: qualifying outgoing entries in
/// insertion order, then qualifying incoming entries in insertion order,
/// as the direction filter allows.
pub open spec fn spec_neighbors(
    m: GraphModel,
    u: NodeId,
    dir: TraversalDirection,
    mc: Option<u32>,
) -> Seq<(Edge, Direction)> {
    (if uses_out(dir) {
        filter_tag(m.out_edges(u), Direction::Outgoing, mc)
    } else {
        Seq::empty()
    }) + (if uses_in(dir) {
        filter_tag(m.in_edges(u), Direction::Incoming, mc)
    } else {
        Seq::empty()
    })
}

/// Every entry of `filter_tag` is an entry of the underlying list that
/// passes the filter.
proof fn lemma_filter_tag_sound(s: Seq<Edge>, d: Direction, mc: Option<u32>, idx: int)
    requires
        0 <= idx < filter_tag(s, d, mc).len(),
    ensures
        filter_tag(s, d, mc)[idx].1 == d,
        exists|i: int|
            0 <= i < s.len() && s[i] == (#[trigger] filter_tag(s, d, mc)[idx]).0 && passes(
                s[i].confidence,
                mc,
            ),
    decreases s.len(),
{
    if s.len() > 0 {
        let rest = filter_tag(s.drop_last(), d, mc);
        if idx < rest.len() {
            lemma_filter_tag_sound(s.drop_last(), d, mc, idx);
            let i = choose|i: int|
                0 <= i < s.drop_last().len() && s.drop_last()[i] == (#[trigger] filter_tag(
                    s.drop_last(),
                    d,
                    mc,
                )[idx]).0 && passes(s.drop_last()[i].confidence, mc);
            assert(s[i] == s.drop_last()[i]);
            assert(filter_tag(s, d, mc)[idx] == rest[idx]);
        } else {
            assert(passes(s.last().confidence, mc));
            assert(filter_tag(s, d, mc)[idx] == (s.last(), d));
            assert(s[s.len() - 1] == s.last());
        }
    }
}

/// Every entry of the underlying list that passes the filter appears in
/// `filter_tag`.
proof fn lemma_filter_tag_complete(s: Seq<Edge>, d: Direction, mc: Option<u32>, i: int)
    requires
        0 <= i < s.len(),
        passes(s[i].confidence, mc),
    ensures
        exists|idx: int|
            0 <= idx < filter_tag(s, d, mc).len() && #[trigger] filter_tag(s, d, mc)[idx] == (
            s[i],
            d,
            ),
    decreases s.len(),
{
    let ft = filter_tag(s, d, mc);
    if i == s.len() - 1 {
        let idx = ft.len() - 1;
        assert(ft[idx] == (s[i], d));
    } else {
        lemma_filter_tag_complete(s.drop_last(), d, mc, i);
        let rest = filter_tag(s.drop_last(), d, mc);
        let idx = choose|idx: int|
            0 <= idx < rest.len() && #[trigger] rest[idx] == (s.drop_last()[i], d);
        assert(ft[idx] == rest[idx]);
        assert(s.drop_last()[i] == s[i]);
    }
}

/// An entry of the fused neighbor sequence witnesses a tagged step, once
/// the exclusions allow it.
pub proof fn lemma_spec_neighbors_sound(
    m: GraphModel,
    x: Exclusions,
    u: NodeId,
    dir: TraversalDirection,
    mc: Option<u32>,
    idx: int,
)
    requires
        0 <= idx < spec_neighbors(m, u, dir, mc).len(),
        !x.nodes.contains(spec_neighbors(m, u, dir, mc)[idx].0.target),
        !x.edges.contains((u, spec_neighbors(m, u, dir, mc)[idx].0.target)),
    ensures
        step_tagged(
            m,
            x,
            dir,
            mc,
            u,
            spec_neighbors(m, u, dir, mc)[idx].0.target,
            spec_neighbors(m, u, dir, mc)[idx].0.rel_type,
            spec_neighbors(m, u, dir, mc)[idx].1,
        ),
{
    let sn = spec_neighbors(m, u, dir, mc);
    let e = sn[idx].0;
    let d = sn[idx].1;
    let out_part: Seq<(Edge, Direction)> = if uses_out(dir) {
        filter_tag(m.out_edges(u), Direction::Outgoing, mc)
    } else {
        Seq::empty()
    };
    let in_part: Seq<(Edge, Direction)> = if uses_in(dir) {
        filter_tag(m.in_edges(u), Direction::Incoming, mc)
    } else {
        Seq::empty()
    };
    if idx < out_part.len() {
        assert(sn[idx] == out_part[idx]);
        lemma_filter_tag_sound(m.out_edges(u), Direction::Outgoing, mc, idx);
        let i = choose|i: int|
            0 <= i < m.out_edges(u).len() && m.out_edges(u)[i] == e && passes(
                m.out_edges(u)[i].confidence,
                mc,
            );
        assert(edge_at(m, dir, mc, u, e.target, Direction::Outgoing, i));
        assert(list_of(m, u, Direction::Outgoing)[i].rel_type == e.rel_type);
    } else {
        assert(sn[idx] == in_part[idx - out_part.len()]);
        lemma_filter_tag_sound(m.in_edges(u), Direction::Incoming, mc, idx - out_part.len());
        let i = choose|i: int|
            0 <= i < m.in_edges(u).len() && m.in_edges(u)[i] == e && passes(
                m.in_edges(u)[i].confidence,
                mc,
            );
        assert(edge_at(m, dir, mc, u, e.target, Direction::Incoming, i));
        assert(list_of(m, u, Direction::Incoming)[i].rel_type == e.rel_type);
    }
}

/// Every admissible step from u is witnessed by an entry of the fused
/// neighbor sequence.
pub proof fn lemma_spec_neighbors_complete(
    m: GraphModel,
    x: Exclusions,
    u: NodeId,
    v: NodeId,
    dir: TraversalDirection,
    mc: Option<u32>,
)
    requires
        step(m, x, dir, mc, u, v),
    ensures
        exists|idx: int|
            0 <= idx < spec_neighbors(m, u, dir, mc).len() && (#[trigger] spec_neighbors(
                m,
                u,
                dir,
                mc,
            )[idx]).0.target == v,
{
    let sn = spec_neighbors(m, u, dir, mc);
    let (d, i): (Direction, int) = choose|d: Direction, i: int| edge_at(m, dir, mc, u, v, d, i);
    let out_part: Seq<(Edge, Direction)> = if uses_out(dir) {
        filter_tag(m.out_edges(u), Direction::Outgoing, mc)
    } else {
        Seq::empty()
    };
    match d {
        Direction::Outgoing => {
            lemma_filter_tag_complete(m.out_edges(u), Direction::Outgoing, mc, i);
            let idx = choose|idx: int|
                0 <= idx < out_part.len() && #[trigger] out_part[idx] == (m.out_edges(u)[i],
                Direction::Outgoing,
                );
            assert(sn[idx] == out_part[idx]);
            assert(sn[idx].0.target == v);
        },
        Direction::Incoming => {
            let in_part = filter_tag(m.in_edges(u), Direction::Incoming, mc);
            lemma_filter_tag_complete(m.in_edges(u), Direction::Incoming, mc, i);
            let idx = choose|idx: int|
                0 <= idx < in_part.len() && #[trigger] in_part[idx] == (m.in_edges(u)[i],
                Direction::Incoming,
                );
            assert(sn[out_part.len() + idx] == in_part[idx]);
            assert(sn[out_part.len() + idx].0.target == v);
        },
    }
}

/// Collect the confidence-filtered neighbors of a node in fused order:
/// outgoing entries first, then incoming, as the direction filter allows.
fn filtered_neighbors(g: &Graph, u: NodeId, dir: TraversalDirection, mc: Option<u32>) -> (r: Vec<
    (Edge, Direction),
>)
    ensures
        r@ == spec_neighbors(g@, u, dir, mc),
{
    let mut r: Vec<(Edge, Direction)> = Vec::new();
    let use_out = dir == TraversalDirection::Outgoing || dir == TraversalDirection::Both;
    let use_in = dir == TraversalDirection::Incoming || dir == TraversalDirection::Both;
    if use_out {
        let out = g.neighbors_out(u);
        let n = out.len();
        for i in 0..n
            invariant
                n == out@.len(),
                out@ == g@.out_edges(u),
                r@ == filter_tag(out@.take(i as int), Direction::Outgoing, mc),
        {
            let e = out[i];
            if conf_passes(e.confidence, mc) {
                r.push((e, Direction::Outgoing));
            }
            proof {
                assert(out@.take(i + 1).drop_last() =~= out@.take(i as int));
                assert(out@.take(i + 1).last() == out@[i as int]);
                assert(r@ =~= filter_tag(out@.take(i + 1), Direction::Outgoing, mc));
            }
        }
        proof {
            assert(out@.take(n as int) =~= out@);
        }
    }
    let ghost out_part: Seq<(Edge, Direction)> = if uses_out(dir) {
        filter_tag(g@.out_edges(u), Direction::Outgoing, mc)
    } else {
        Seq::empty()
    };
    proof {
        assert(r@ == out_part);
    }
    if use_in {
        let inc = g.neighbors_in(u);
        let n = inc.len();
        for i in 0..n
            invariant
                n == inc@.len(),
                inc@ == g@.in_edges(u),
                r@ == out_part + filter_tag(inc@.take(i as int), Direction::Incoming, mc),
        {
            let e = inc[i];
            if conf_passes(e.confidence, mc) {
                r.push((e, Direction::Incoming));
            }
            proof {
                assert(inc@.take(i + 1).drop_last() =~= inc@.take(i as int));
                assert(inc@.take(i + 1).last() == inc@[i as int]);
                assert(r@ =~= out_part + filter_tag(inc@.take(i + 1), Direction::Incoming, mc));
            }
        }
        proof {
            assert(inc@.take(n as int) =~= inc@);
        }
    }
    proof {
        assert(r@ =~= spec_neighbors(g@, u, dir, mc));
    }
    r
}

/// Whether a confidence passes the optional minimum threshold; an unknown
/// confidence always passes.
pub(crate) fn conf_passes(conf: Option<u32>, mc: Option<u32>) -> (r: bool)
    ensures
        r == passes(conf, mc),
{
    match mc {
        None => true,
        Some(m) => match conf {
            None => true,
            Some(c) => c >= m,
        },
    }
}

/// One visit record: distance from the start, the parent a node was
/// discovered from, and the relationship type and direction of the
/// discovering edge. The start node points at itself with filler
/// relationship type and direction.
#[derive(Debug, Clone, Copy)]
pub(crate) struct Visit {
    pub dist: u32,
    pub parent: NodeId,
    pub rel_type: RelTypeId,
    pub dir: Direction,
}

/// The exclusions held by two plain lists.
pub open spec fn excl_of(ns: Seq<NodeId>, es: Seq<(NodeId, NodeId)>) -> Exclusions {
    Exclusions {
        nodes: Set::new(|v: NodeId| ns.contains(v)),
        edges: Set::new(|p: (NodeId, NodeId)| es.contains(p)),
    }
}

fn contains_id(v: &Vec<NodeId>, t: NodeId) -> (r: bool)
    ensures
        r == v@.contains(t),
{
    let n = v.len();
    for i in 0..n
        invariant
            n == v@.len(),
            forall|j: int| 0 <= j < i ==> v@[j] != t,
    {
        if v[i] == t {
            return true;
        }
    }
    false
}

fn contains_pair(v: &Vec<(NodeId, NodeId)>, a: NodeId, b: NodeId) -> (r: bool)
    ensures
        r == v@.contains((a, b)),
{
    let n = v.len();
    for i in 0..n
        invariant
            n == v@.len(),
            forall|j: int| 0 <= j < i ==> #[trigger] v@[j] != (a, b),
    {
        if v[i].0 == a && v[i].1 == b {
            assert(v@[i as int] == (a, b));
            return true;
        }
    }
    false
}

/// A consistent BFS visit map: the start sits at distance 0, every record
/// carries its node's exact admissible distance, and every other record
/// points at a parent one step closer via a qualifying stored edge.
pub(crate) open spec fn visited_ok(
    m: GraphModel,
    x: Exclusions,
    dir: TraversalDirection,
    mc: Option<u32>,
    start: NodeId,
    vis: Map<NodeId, Visit>,
) -> bool {
    &&& vis.contains_key(start)
    &&& vis[start].dist == 0
    &&& forall|v: NodeId| #[trigger]
        vis.contains_key(v) ==> dist_is(m, x, dir, mc, start, v, vis[v].dist as nat)
    &&& forall|v: NodeId| #[trigger]
        vis.contains_key(v) && v != start ==> {
            &&& vis[v].dist >= 1
            &&& vis.contains_key(vis[v].parent)
            &&& vis[vis[v].parent].dist + 1 == vis[v].dist
            &&& step_tagged(m, x, dir, mc, vis[v].parent, v, vis[v].rel_type, vis[v].dir)
        }
}

/// Everything a finished depth-bounded BFS guarantees: a consistent visit
/// map whose domain is exactly the set of nodes admissibly reachable
/// within the bound, and the discovery order of those nodes.
pub(crate) open spec fn bfs_post(
    m: GraphModel,
    x: Exclusions,
    dir: TraversalDirection,
    mc: Option<u32>,
    start: NodeId,
    max_depth: u32,
    vis: Map<NodeId, Visit>,
    order: Seq<NodeId>,
) -> bool {
    &&& visited_ok(m, x, dir, mc, start, vis)
    &&& forall|v: NodeId| #[trigger] vis.contains_key(v) ==> vis[v].dist <= max_depth
    &&& forall|v: NodeId| reach(m, x, dir, mc, start, v, max_depth as nat) ==> vis.contains_key(v)
    &&& order.no_duplicates()
    &&& forall|i: int| 0 <= i < order.len() ==> vis.contains_key(#[trigger] order[i])
    &&& forall|v: NodeId| #[trigger] vis.contains_key(v) ==> order.contains(v)
    &&& order.len() >= 1
    &&& order[0] == start
}

/// Depth-bounded BFS from `start` over the admissible steps, returning the
/// visit map and the nodes in discovery order (the start first).
pub(crate) fn bfs_core(
    g: &Graph,
    start: NodeId,
    max_depth: u32,
    dir: TraversalDirection,
    mc: Option<u32>,
    excl_nodes: &Vec<NodeId>,
    excl_edges: &Vec<(NodeId, NodeId)>,
) -> (res: (HashMap<NodeId, Visit>, Vec<NodeId>))
    ensures
        bfs_post(
            g@,
            excl_of(excl_nodes@, excl_edges@),
            dir,
            mc,
            start,
            max_depth,
            res.0@,
            res.1@,
        ),
{
    let ghost m = g@;
    let ghost x = excl_of(excl_nodes@, excl_edges@);
    let mut visited: HashMap<NodeId, Visit> = HashMap::new();
    let mut order: Vec<NodeId> = Vec::new();
    let mut frontier: Vec<NodeId> = Vec::new();
    visited.insert(
        start,
        Visit { dist: 0, parent: start, rel_type: 0, dir: Direction::Outgoing },
    );
    order.push(start);
    frontier.push(start);
    let mut depth: u32 = 0;
    proof {
        assert(reach(m, x, dir, mc, start, start, 0));
        assert(frontier@[0] == start);
        assert(frontier@.contains(start));
        assert(order@[0] == start);
        assert(order@.contains(start));
    }
    while depth < max_depth && frontier.len() > 0
        invariant
            m == g@,
            x == excl_of(excl_nodes@, excl_edges@),
            depth <= max_depth,
            visited_ok(m, x, dir, mc, start, visited@),
            forall|v: NodeId| #[trigger] visited@.contains_key(v) ==> visited@[v].dist <= depth,
            forall|v: NodeId|
                reach(m, x, dir, mc, start, v, depth as nat) ==> visited@.contains_key(v),
            frontier@.no_duplicates(),
            forall|i: int|
                0 <= i < frontier@.len() ==> visited@.contains_key(#[trigger] frontier@[i])
                    && visited@[frontier@[i]].dist == depth,
            forall|v: NodeId| #[trigger]
                visited@.contains_key(v) && visited@[v].dist == depth ==> frontier@.contains(v),
            order@.no_duplicates(),
            forall|i: int| 0 <= i < order@.len() ==> visited@.contains_key(#[trigger] order@[i]),
            forall|v: NodeId| #[trigger] visited@.contains_key(v) ==> order@.contains(v),
            order@.len() >= 1,
            order@[0] == start,
        decreases max_depth - depth,
    {
        let mut next: Vec<NodeId> = Vec::new();
        let flen = frontier.len();
        for fi in 0..flen
            invariant
                m == g@,
                x == excl_of(excl_nodes@, excl_edges@),
                depth < max_depth,
                visited_ok(m, x, dir, mc, start, visited@),
                forall|v: NodeId| #[trigger]
                    visited@.contains_key(v) ==> visited@[v].dist <= depth + 1,
                forall|v: NodeId|
                    reach(m, x, dir, mc, start, v, depth as nat) ==> visited@.contains_key(v),
                flen == frontier@.len(),
                frontier@.no_duplicates(),
                forall|i: int|
                    0 <= i < frontier@.len() ==> visited@.contains_key(#[trigger] frontier@[i])
                        && visited@[frontier@[i]].dist == depth,
                forall|v: NodeId| #[trigger]
                    visited@.contains_key(v) && visited@[v].dist == depth ==> frontier@.contains(v),
                next@.no_duplicates(),
                forall|i: int|
                    0 <= i < next@.len() ==> visited@.contains_key(#[trigger] next@[i])
                        && visited@[next@[i]].dist == depth + 1,
                forall|v: NodeId| #[trigger]
                    visited@.contains_key(v) && visited@[v].dist == depth + 1 ==> next@.contains(v),
                forall|k: int, v: NodeId|
                    0 <= k < fi && #[trigger] step(m, x, dir, mc, frontier@[k], v)
                        ==> visited@.contains_key(v),
                order@.no_duplicates(),
                forall|i: int|
                    0 <= i < order@.len() ==> visited@.contains_key(#[trigger] order@[i]),
                forall|v: NodeId| #[trigger] visited@.contains_key(v) ==> order@.contains(v),
                order@.len() >= 1,
                order@[0] == start,
        {
            let u = frontier[fi];
            let nbrs = filtered_neighbors(g, u, dir, mc);
            let nlen = nbrs.len();
            for j in 0..nlen
                invariant
                    m == g@,
                    x == excl_of(excl_nodes@, excl_edges@),
                    depth < max_depth,
                    visited_ok(m, x, dir, mc, start, visited@),
                    forall|v: NodeId| #[trigger]
                        visited@.contains_key(v) ==> visited@[v].dist <= depth + 1,
                    forall|v: NodeId|
                        reach(m, x, dir, mc, start, v, depth as nat) ==> visited@.contains_key(v),
                    flen == frontier@.len(),
                    0 <= fi < flen,
                    u == frontier@[fi as int],
                    visited@.contains_key(u),
                    visited@[u].dist == depth,
                    frontier@.no_duplicates(),
                    forall|i: int|
                        0 <= i < frontier@.len() ==> visited@.contains_key(#[trigger] frontier@[i])
                            && visited@[frontier@[i]].dist == depth,
                    forall|v: NodeId| #[trigger]
                        visited@.contains_key(v) && visited@[v].dist == depth
                            ==> frontier@.contains(v),
                    next@.no_duplicates(),
                    forall|i: int|
                        0 <= i < next@.len() ==> visited@.contains_key(#[trigger] next@[i])
                            && visited@[next@[i]].dist == depth + 1,
                    forall|v: NodeId| #[trigger]
                        visited@.contains_key(v) && visited@[v].dist == depth + 1
                            ==> next@.contains(v),
                    forall|k: int, v: NodeId|
                        0 <= k < fi && #[trigger] step(m, x, dir, mc, frontier@[k], v)
                            ==> visited@.contains_key(v),
                    nbrs@ == spec_neighbors(m, u, dir, mc),
                    nlen == nbrs@.len(),
                    forall|jj: int|
                        0 <= jj < j && !x.nodes.contains((#[trigger] nbrs@[jj]).0.target)
                            && !x.edges.contains((u, nbrs@[jj].0.target))
                            ==> visited@.contains_key(nbrs@[jj].0.target),
                    order@.no_duplicates(),
                    forall|i: int|
                        0 <= i < order@.len() ==> visited@.contains_key(#[trigger] order@[i]),
                    forall|v: NodeId| #[trigger] visited@.contains_key(v) ==> order@.contains(v),
                    order@.len() >= 1,
                    order@[0] == start,
            {
                let e = nbrs[j].0;
                let dd = nbrs[j].1;
                let t = e.target;
                if !contains_id(excl_nodes, t) && !contains_pair(excl_edges, u, t) {
                    if !visited.contains_key(&t) {
                        let ghost vis0 = visited@;
                        let ghost ord0 = order@;
                        let ghost nxt0 = next@;
                        proof {
                            lemma_spec_neighbors_sound(m, x, u, dir, mc, j as int);
                            assert(step_tagged(m, x, dir, mc, u, t, e.rel_type, dd));
                            lemma_step_tagged_step(m, x, dir, mc, u, t, e.rel_type, dd);
                            assert(reach(m, x, dir, mc, start, t, (depth + 1) as nat)) by {
                                lemma_step_extend(m, x, dir, mc, start, u, t, depth as nat);
                                lemma_reach_mono(
                                    m,
                                    x,
                                    dir,
                                    mc,
                                    start,
                                    t,
                                    (visited@[u].dist + 1) as nat,
                                    (depth + 1) as nat,
                                );
                            }
                            assert(!reach(m, x, dir, mc, start, t, depth as nat));
                            assert(dist_is(m, x, dir, mc, start, t, (depth + 1) as nat));
                        }
                        visited.insert(
                            t,
                            Visit { dist: depth + 1, parent: u, rel_type: e.rel_type, dir: dd },
                        );
                        order.push(t);
                        next.push(t);
                        proof {
                            assert(visited@ == vis0.insert(
                                t,
                                Visit {
                                    dist: (depth + 1) as u32,
                                    parent: u,
                                    rel_type: e.rel_type,
                                    dir: dd,
                                },
                            ));
                            assert(visited_ok(m, x, dir, mc, start, visited@)) by {
                                assert(t != start);
                                assert forall|v: NodeId| #[trigger]
                                    visited@.contains_key(v) implies dist_is(
                                    m,
                                    x,
                                    dir,
                                    mc,
                                    start,
                                    v,
                                    visited@[v].dist as nat,
                                ) by {
                                    if v != t {
                                        assert(vis0.contains_key(v));
                                        assert(visited@[v] == vis0[v]);
                                    }
                                }
                                assert forall|v: NodeId| #[trigger]
                                    visited@.contains_key(v) && v != start implies {
                                    &&& visited@[v].dist >= 1
                                    &&& visited@.contains_key(visited@[v].parent)
                                    &&& visited@[visited@[v].parent].dist + 1 == visited@[v].dist
                                    &&& step_tagged(
                                        m,
                                        x,
                                        dir,
                                        mc,
                                        visited@[v].parent,
                                        v,
                                        visited@[v].rel_type,
                                        visited@[v].dir,
                                    )
                                } by {
                                    if v != t {
                                        assert(vis0.contains_key(v));
                                        assert(visited@[v] == vis0[v]);
                                        assert(vis0[v].parent != t);
                                    } else {
                                        assert(visited@[t].parent == u);
                                        assert(visited@[u] == vis0[u]);
                                    }
                                }
                            }
                            assert(order@ == ord0.push(t));
                            assert(next@ == nxt0.push(t));
                            assert forall|a: int, b: int|
                                0 <= a < b < order@.len() implies order@[a] != order@[b] by {
                                if b < order@.len() - 1 {
                                    assert(ord0[a] != ord0[b]);
                                } else {
                                    assert(order@[b] == t);
                                    assert(vis0.contains_key(ord0[a]));
                                }
                            }
                            assert forall|a: int, b: int|
                                0 <= a < b < next@.len() implies next@[a] != next@[b] by {
                                if b < next@.len() - 1 {
                                    assert(nxt0[a] != nxt0[b]);
                                } else {
                                    assert(next@[b] == t);
                                    assert(vis0.contains_key(nxt0[a]));
                                }
                            }
                            assert forall|v: NodeId| #[trigger]
                                visited@.contains_key(v) implies order@.contains(v) by {
                                if v == t {
                                    assert(order@.last() == t);
                                } else {
                                    assert(vis0.contains_key(v));
                                    assert(ord0.contains(v));
                                    let i = choose|i: int| 0 <= i < ord0.len() && ord0[i] == v;
                                    assert(order@[i] == v);
                                }
                            }
                            assert forall|v: NodeId| #[trigger]
                                visited@.contains_key(v) && visited@[v].dist == depth + 1 implies
                                next@.contains(v) by {
                                if v == t {
                                    assert(next@.last() == t);
                                } else {
                                    assert(vis0.contains_key(v) && vis0[v].dist == depth + 1);
                                    assert(nxt0.contains(v));
                                    let i = choose|i: int| 0 <= i < nxt0.len() && nxt0[i] == v;
                                    assert(next@[i] == v);
                                }
                            }
                        }
                    }
                }
            }
            proof {
                assert forall|v: NodeId| #[trigger] step(m, x, dir, mc, u, v) implies
                    visited@.contains_key(v) by {
                    lemma_spec_neighbors_complete(m, x, u, v, dir, mc);
                    let idx = choose|idx: int|
                        0 <= idx < spec_neighbors(m, u, dir, mc).len() && (#[trigger] spec_neighbors(
                            m,
                            u,
                            dir,
                            mc,
                        )[idx]).0.target == v;
                    assert(!x.nodes.contains(v) && !x.edges.contains((u, v)));
                    assert(nbrs@[idx].0.target == v);
                }
            }
        }
        proof {
            assert forall|v: NodeId|
                reach(m, x, dir, mc, start, v, (depth + 1) as nat) implies visited@.contains_key(
                v) by {
                if v == start {
                } else if reach(m, x, dir, mc, start, v, depth as nat) {
                } else {
                    let u = choose|u: NodeId|
                        #[trigger] step(m, x, dir, mc, u, v) && reach(
                            m,
                            x,
                            dir,
                            mc,
                            start,
                            u,
                            depth as nat,
                        );
                    assert(visited@.contains_key(u));
                    let du = visited@[u].dist;
                    if du < depth {
                        lemma_step_extend(m, x, dir, mc, start, u, v, du as nat);
                        lemma_reach_mono(m, x, dir, mc, start, v, (du + 1) as nat, depth as nat);
                        assert(false);
                    } else {
                        assert(du == depth);
                        assert(frontier@.contains(u));
                        let k = choose|k: int|
                            0 <= k < frontier@.len() && frontier@[k] == u;
                        assert(step(m, x, dir, mc, frontier@[k], v));
                    }
                }
            }
        }
        frontier = next;
        depth = depth + 1;
    }
    proof {
        if depth < max_depth {
            assert(frontier@.len() == 0);
            assert forall|v: NodeId|
                reach(m, x, dir, mc, start, v, max_depth as nat) implies visited@.contains_key(
                v) by {
                lemma_dist_exists(m, x, dir, mc, start, v, max_depth as nat);
                let dv = choose|dv: nat|
                    dv <= max_depth as nat && #[trigger] dist_is(m, x, dir, mc, start, v, dv);
                if dv <= depth as nat {
                    lemma_reach_mono(m, x, dir, mc, start, v, dv, depth as nat);
                } else {
                    lemma_dist_chain(m, x, dir, mc, start, v, dv, depth as nat);
                    let w = choose|w: NodeId| #[trigger] dist_is(m, x, dir, mc, start, w, depth as nat);
                    assert(visited@.contains_key(w));
                    lemma_dist_unique(
                        m,
                        x,
                        dir,
                        mc,
                        start,
                        w,
                        visited@[w].dist as nat,
                        depth as nat,
                    );
                    assert(visited@[w].dist == depth);
                    assert(frontier@.contains(w));
                    assert(false);
                }
            }
        }
    }
    (visited, order)
}

/// Walk parent pointers from `v` back to the start and return the node
/// sequence from the start to `v` with the relationship type and direction
/// of each step.
fn reconstruct_chain(
    visited: &HashMap<NodeId, Visit>,
    start: NodeId,
    v: NodeId,
    Ghost(m): Ghost<GraphModel>,
    Ghost(x): Ghost<Exclusions>,
    Ghost(dir): Ghost<TraversalDirection>,
    Ghost(mc): Ghost<Option<u32>>,
) -> (r: (Vec<NodeId>, Vec<(RelTypeId, Direction)>))
    requires
        visited_ok(m, x, dir, mc, start, visited@),
        visited@.contains_key(v),
    ensures
        ({
            let ids = r.0@;
            let tags = r.1@;
            &&& tagged_path_ok(m, x, dir, mc, ids, tags)
            &&& ids.len() == visited@[v].dist + 1
            &&& tags.len() == visited@[v].dist
            &&& ids[0] == start
            &&& ids.last() == v
            &&& forall|p: int|
                0 <= p < ids.len() ==> visited@.contains_key(#[trigger] ids[p])
                    && visited@[ids[p]].dist == p
            &&& ids.no_duplicates()
        }),
{
    let dv = visited.get(&v).unwrap().dist;
    let mut rev_ids: Vec<NodeId> = Vec::new();
    let mut rev_tags: Vec<(RelTypeId, Direction)> = Vec::new();
    let mut cur = v;
    rev_ids.push(v);
    while cur != start
        invariant
            visited_ok(m, x, dir, mc, start, visited@),
            visited@.contains_key(v),
            dv == visited@[v].dist,
            visited@.contains_key(cur),
            rev_ids@.len() >= 1,
            rev_ids@[0] == v,
            rev_ids@.last() == cur,
            rev_ids@.len() == dv - visited@[cur].dist + 1,
            rev_tags@.len() == rev_ids@.len() - 1,
            forall|p: int|
                0 <= p < rev_ids@.len() ==> visited@.contains_key(#[trigger] rev_ids@[p])
                    && visited@[rev_ids@[p]].dist == dv - p,
            forall|p: int|
                0 <= p < rev_tags@.len() ==> step_tagged(
                    m,
                    x,
                    dir,
                    mc,
                    rev_ids@[p + 1],
                    rev_ids@[p],
                    (#[trigger] rev_tags@[p]).0,
                    rev_tags@[p].1,
                ),
        decreases visited@[cur].dist,
    {
        let rec = *visited.get(&cur).unwrap();
        rev_tags.push((rec.rel_type, rec.dir));
        rev_ids.push(rec.parent);
        proof {
            assert(rev_ids@.last() == rec.parent);
            assert forall|p: int|
                0 <= p < rev_tags@.len() implies step_tagged(
                m,
                x,
                dir,
                mc,
                rev_ids@[p + 1],
                rev_ids@[p],
                (#[trigger] rev_tags@[p]).0,
                rev_tags@[p].1,
            ) by {
                if p < rev_tags@.len() - 1 {
                    assert(rev_ids@[p + 1] == rev_ids@.drop_last()[p + 1]);
                    assert(rev_ids@[p] == rev_ids@.drop_last()[p]);
                    assert(rev_tags@[p] == rev_tags@.drop_last()[p]);
                } else {
                    assert(rev_ids@[p] == cur);
                    assert(rev_ids@[p + 1] == rec.parent);
                    assert(step_tagged(m, x, dir, mc, rec.parent, cur, rec.rel_type, rec.dir));
                }
            }
        }
        cur = rec.parent;
    }
    proof {
        assert(visited@[start].dist == 0);
        assert(rev_ids@.len() == dv + 1);
    }
    let n = rev_ids.len();
    let mut ids: Vec<NodeId> = Vec::new();
    let mut tags: Vec<(RelTypeId, Direction)> = Vec::new();
    for k in 0..n
        invariant
            n == rev_ids@.len(),
            ids@.len() == k,
            forall|p: int| 0 <= p < k ==> #[trigger] ids@[p] == rev_ids@[n - 1 - p],
    {
        ids.push(rev_ids[n - 1 - k]);
    }
    let tn = rev_tags.len();
    for k in 0..tn
        invariant
            tn == rev_tags@.len(),
            tn == n - 1,
            n == rev_ids@.len(),
            tags@.len() == k,
            forall|p: int| 0 <= p < k ==> #[trigger] tags@[p] == rev_tags@[tn - 1 - p],
    {
        tags.push(rev_tags[tn - 1 - k]);
    }
    proof {
        assert forall|p: int|
            0 <= p < ids@.len() implies visited@.contains_key(#[trigger] ids@[p])
            && visited@[ids@[p]].dist == p by {
            assert(ids@[p] == rev_ids@[n - 1 - p]);
        }
        assert forall|j: int|
            0 <= j < tags@.len() implies step_tagged(
            m,
            x,
            dir,
            mc,
            ids@[j],
            ids@[j + 1],
            (#[trigger] tags@[j]).0,
            tags@[j].1,
        ) by {
            let p = tn - 1 - j;
            assert(tags@[j] == rev_tags@[p]);
            assert(ids@[j] == rev_ids@[n - 1 - j]);
            assert(ids@[j + 1] == rev_ids@[n - 2 - j]);
            assert(step_tagged(
                m,
                x,
                dir,
                mc,
                rev_ids@[p + 1],
                rev_ids@[p],
                rev_tags@[p].0,
                rev_tags@[p].1,
            ));
        }
        assert(ids@[0] == rev_ids@[n - 1]);
        assert(ids@.last() == rev_ids@[0]);
        assert forall|a: int, b: int| 0 <= a < b < ids@.len() implies ids@[a] != ids@[b] by {
            assert(visited@[ids@[a]].dist == a);
            assert(visited@[ids@[b]].dist == b);
        }
    }
    (ids, tags)
}

/// The node ids of a neighbor-result sequence, in order.
pub open spec fn neighbor_ids(ns: Seq<NeighborResult>) -> Seq<NodeId> {
    ns.map(|i: int, n: NeighborResult| n.node_id)
}

/// A neighbor row is correct: a node other than the start, at its exact
/// admissible distance within the depth bound, carrying the node's
/// metadata and a shortest witnessing path.
pub open spec fn neighbor_entry_ok(
    m: GraphModel,
    dir: TraversalDirection,
    mc: Option<u32>,
    start: NodeId,
    max_depth: u32,
    n: NeighborResult,
) -> bool {
    &&& n.node_id != start
    &&& 1 <= n.distance <= max_depth
    &&& dist_is(m, Exclusions::none(), dir, mc, start, n.node_id, n.distance as nat)
    &&& n.label@ == m.label_or_empty(n.node_id)
    &&& (match n.app_id {
        Some(s) => m.app_id_or_none(n.node_id) == Some(s@),
        None => m.app_id_or_none(n.node_id) == None::<Seq<char>>,
    })
    &&& n.path_directions@.len() == n.distance
    &&& n.path_types@.len() <= n.distance
    &&& exists|ids: Seq<NodeId>, tags: Seq<(RelTypeId, Direction)>|
        path_witness(m, dir, mc, start, n, ids, tags)
}

/// One shortest path realizing a neighbor row: its directions are the
/// reported ones, and when every relationship type on it is interned, the
/// reported type names are exactly the names along it.
pub open spec fn path_witness(
    m: GraphModel,
    dir: TraversalDirection,
    mc: Option<u32>,
    start: NodeId,
    n: NeighborResult,
    ids: Seq<NodeId>,
    tags: Seq<(RelTypeId, Direction)>,
) -> bool {
    &&& tagged_path_ok(m, Exclusions::none(), dir, mc, ids, tags)
    &&& ids[0] == start
    &&& ids.last() == n.node_id
    &&& ids.len() == n.distance + 1
    &&& ids.no_duplicates()
    &&& n.path_directions@ == tags.map(|j: int, t: (RelTypeId, Direction)| t.1)
    &&& (forall|j: int| 0 <= j < tags.len() ==> (#[trigger] tags[j]).0 < m.rel_count()) ==> {
        &&& n.path_types@.len() == tags.len()
        &&& forall|j: int|
            0 <= j < tags.len() ==> (#[trigger] n.path_types@[j])@ == m.rel_names[tags[j].0 as int]
    }
}

/// BFS neighborhood: every node admissibly reachable from `start` within
/// `max_depth` hops, each once, at its exact distance, with one shortest
/// path per node. If `start` is not a registered node the result is empty
/// with no node visited; otherwise `nodes_visited` counts the start too.
pub fn bfs_neighborhood(
    g: &Graph,
    start: NodeId,
    max_depth: u32,
    dir: TraversalDirection,
    mc: Option<u32>,
) -> (r: TraversalResult)
    ensures
        !g@.has_node(start) ==> r.neighbors@.len() == 0 && r.nodes_visited == 0,
        g@.has_node(start) ==> {
            &&& r.nodes_visited == r.neighbors@.len() + 1
            &&& neighbor_ids(r.neighbors@).no_duplicates()
            &&& forall|i: int|
                0 <= i < r.neighbors@.len() ==> neighbor_entry_ok(
                    g@,
                    dir,
                    mc,
                    start,
                    max_depth,
                    #[trigger] r.neighbors@[i],
                )
            &&& forall|v: NodeId|
                reach(g@, Exclusions::none(), dir, mc, start, v, max_depth as nat) && v != start
                    ==> neighbor_ids(r.neighbors@).contains(v)
        },
{
    let ghost m = g@;
    if g.node(start).is_none() {
        return TraversalResult { neighbors: Vec::new(), nodes_visited: 0 };
    }
    let excl_n: Vec<NodeId> = Vec::new();
    let excl_e: Vec<(NodeId, NodeId)> = Vec::new();
    let (visited, order) = bfs_core(g, start, max_depth, dir, mc, &excl_n, &excl_e);
    let ghost x = excl_of(excl_n@, excl_e@);
    proof {
        assert(x.nodes =~= Set::<NodeId>::empty());
        assert(x.edges =~= Set::<(NodeId, NodeId)>::empty());
        assert(x == Exclusions::none());
    }
    let mut neighbors: Vec<NeighborResult> = Vec::new();
    let n = order.len();
    for i in 0..n
        invariant
            m == g@,
            x == Exclusions::none(),
            bfs_post(m, x, dir, mc, start, max_depth, visited@, order@),
            n == order@.len(),
            neighbors@.len() == if i == 0 {
                0int
            } else {
                i - 1
            },
            forall|k: int|
                0 <= k < neighbors@.len() ==> (#[trigger] neighbors@[k]).node_id == order@[k + 1],
            forall|k: int|
                0 <= k < neighbors@.len() ==> neighbor_entry_ok(
                    m,
                    dir,
                    mc,
                    start,
                    max_depth,
                    #[trigger] neighbors@[k],
                ),
    {
        let v = order[i];
        if v != start {
            proof {
                assert(i >= 1) by {
                    if i == 0 {
                        assert(order@[0] == start);
                    }
                }
            }
            let rec = *visited.get(&v).unwrap();
            let (ids, tags) = reconstruct_chain(
                &visited,
                start,
                v,
                Ghost(m),
                Ghost(x),
                Ghost(dir),
                Ghost(mc),
            );
            let (label, app_id) = match g.node(v) {
                Some(info) => (info.label.clone(), clone_opt_string(&info.app_id)),
                None => (String::new(), None),
            };
            let mut path_types: Vec<String> = Vec::new();
            let mut path_dirs: Vec<Direction> = Vec::new();
            let tlen = tags.len();
            for j in 0..tlen
                invariant
                    m == g@,
                    tlen == tags@.len(),
                    path_dirs@ == tags@.take(j as int).map(
                        |jj: int, t: (RelTypeId, Direction)| t.1,
                    ),
                    path_types@.len() <= j,
                    (forall|jj: int| 0 <= jj < j ==> (#[trigger] tags@[jj]).0 < m.rel_count())
                        ==> path_types@.len() == j && forall|jj: int|
                        0 <= jj < j ==> (#[trigger] path_types@[jj])@ == m.rel_names[tags@[jj].0 as int],
            {
                path_dirs.push(tags[j].1);
                proof {
                    assert(path_dirs@ =~= tags@.take(j + 1).map(
                        |jj: int, t: (RelTypeId, Direction)| t.1,
                    ));
                }
                match g.rel_type_name(tags[j].0) {
                    Some(name) => {
                        path_types.push(name.to_owned());
                    },
                    None => {},
                }
            }
            proof {
                assert(tags@.take(tlen as int) =~= tags@);
            }
            let nr = NeighborResult {
                node_id: v,
                label,
                app_id,
                distance: rec.dist,
                path_types,
                path_directions: path_dirs,
            };
            proof {
                assert(path_witness(m, dir, mc, start, nr, ids@, tags@));
                assert(neighbor_entry_ok(m, dir, mc, start, max_depth, nr)) by {
                    assert(v != start);
                    assert(visited@[v].dist >= 1);
                }
            }
            neighbors.push(nr);
        }
    }
    proof {
        assert forall|v: NodeId|
            reach(m, x, dir, mc, start, v, max_depth as nat) && v != start implies neighbor_ids(
            neighbors@,
        ).contains(v) by {
            assert(visited@.contains_key(v));
            assert(order@.contains(v));
            let i = choose|i: int| 0 <= i < order@.len() && order@[i] == v;
            assert(i >= 1) by {
                if i == 0 {
                    assert(order@[0] == start);
                }
            }
            assert(neighbors@[i - 1].node_id == v);
            assert(neighbor_ids(neighbors@)[i - 1] == v);
        }
        assert forall|a: int, b: int|
            0 <= a < b < neighbor_ids(neighbors@).len() implies neighbor_ids(neighbors@)[a]
            != neighbor_ids(neighbors@)[b] by {
            assert(neighbors@[a].node_id == order@[a + 1]);
            assert(neighbors@[b].node_id == order@[b + 1]);
        }
    }
    let count = order.len();
    TraversalResult { neighbors, nodes_visited: count }
}

fn clone_opt_string(o: &Option<String>) -> (r: Option<String>)
    ensures
        r == *o,
{
    match o {
        Some(s) => Some(s.clone()),
        None => None,
    }
}

/// The node ids of a path, in order.
pub open spec fn ids_of(p: Seq<PathStep>) -> Seq<NodeId> {
    p.map(|i: int, s: PathStep| s.node_id)
}

/// A path step carries the metadata of its node.
pub open spec fn step_meta_ok(m: GraphModel, s: PathStep) -> bool {
    &&& s.label@ == m.label_or_empty(s.node_id)
    &&& (match s.app_id {
        Some(a) => m.app_id_or_none(s.node_id) == Some(a@),
        None => m.app_id_or_none(s.node_id) == None::<Seq<char>>,
    })
}

/// The tags realize the path, and each step after the first reports the
/// direction it was traversed in and the name of its relationship type
/// (absent when the type id is not interned).
pub open spec fn tagged_steps_ok(
    m: GraphModel,
    x: Exclusions,
    dir: TraversalDirection,
    mc: Option<u32>,
    p: Seq<PathStep>,
    tags: Seq<(RelTypeId, Direction)>,
) -> bool {
    &&& tagged_path_ok(m, x, dir, mc, ids_of(p), tags)
    &&& tags.len() == p.len() - 1
    &&& forall|i: int|
        1 <= i < p.len() ==> {
            let t = tags[i - 1];
            &&& (#[trigger] p[i]).direction == Some(t.1)
            &&& (t.0 < m.rel_count() ==> (p[i].rel_type matches Some(s) && s@ == m.rel_names[t.0 as int]))
            &&& (t.0 >= m.rel_count() ==> p[i].rel_type is None)
        }
}

/// A correct shortest-path result from `start` to `target`: a loop-free
/// path of exactly the admissible distance, within the hop bound, touching
/// no excluded node, whose rows carry node metadata and per-step
/// relationship names and directions.
pub open spec fn path_steps_ok(
    m: GraphModel,
    x: Exclusions,
    dir: TraversalDirection,
    mc: Option<u32>,
    start: NodeId,
    target: NodeId,
    max_hops: u32,
    p: Seq<PathStep>,
) -> bool {
    &&& p.len() >= 1
    &&& p.len() - 1 <= max_hops
    &&& p[0].node_id == start
    &&& p.last().node_id == target
    &&& p[0].rel_type is None
    &&& p[0].direction is None
    &&& dist_is(m, x, dir, mc, start, target, (p.len() - 1) as nat)
    &&& ids_of(p).no_duplicates()
    &&& forall|i: int| 0 <= i < p.len() ==> step_meta_ok(m, #[trigger] p[i])
    &&& forall|i: int| 0 <= i < p.len() ==> !x.nodes.contains((#[trigger] p[i]).node_id)
    &&& exists|tags: Seq<(RelTypeId, Direction)>| tagged_steps_ok(m, x, dir, mc, p, tags)
}

/// Build the result rows for a reconstructed chain.
fn chain_to_steps(
    g: &Graph,
    ids: &Vec<NodeId>,
    tags: &Vec<(RelTypeId, Direction)>,
) -> (p: Vec<PathStep>)
    requires
        ids@.len() >= 1,
        tags@.len() == ids@.len() - 1,
    ensures
        p@.len() == ids@.len(),
        ids_of(p@) =~= ids@,
        p@[0].rel_type is None,
        p@[0].direction is None,
        forall|i: int| 0 <= i < p@.len() ==> step_meta_ok(g@, #[trigger] p@[i]),
        forall|i: int|
            1 <= i < p@.len() ==> {
                let t = tags@[i - 1];
                &&& (#[trigger] p@[i]).direction == Some(t.1)
                &&& (t.0 < g@.rel_count() ==> (p@[i].rel_type matches Some(s) && s@ == g@.rel_names[t.0 as int]))
                &&& (t.0 >= g@.rel_count() ==> p@[i].rel_type is None)
            },
{
    let ghost m = g@;
    let mut p: Vec<PathStep> = Vec::new();
    let n = ids.len();
    for i in 0..n
        invariant
            m == g@,
            n == ids@.len(),
            tags@.len() == ids@.len() - 1,
            p@.len() == i,
            forall|k: int| 0 <= k < i ==> (#[trigger] p@[k]).node_id == ids@[k],
            i >= 1 ==> p@[0].rel_type is None && p@[0].direction is None,
            forall|k: int| 0 <= k < i ==> step_meta_ok(m, #[trigger] p@[k]),
            forall|k: int|
                1 <= k < i ==> {
                    let t = tags@[k - 1];
                    &&& (#[trigger] p@[k]).direction == Some(t.1)
                    &&& (t.0 < m.rel_count() ==> (p@[k].rel_type matches Some(s) && s@ == m.rel_names[t.0 as int]))
                    &&& (t.0 >= m.rel_count() ==> p@[k].rel_type is None)
                },
    {
        let v = ids[i];
        let (label, app_id) = match g.node(v) {
            Some(info) => (info.label.clone(), clone_opt_string(&info.app_id)),
            None => (String::new(), None),
        };
        let (rel_type, direction): (Option<String>, Option<Direction>) = if i == 0 {
            (None, None)
        } else {
            let t = tags[i - 1];
            let name = match g.rel_type_name(t.0) {
                Some(s) => Some(s.to_owned()),
                None => None,
            };
            (name, Some(t.1))
        };
        p.push(PathStep { node_id: v, label, app_id, rel_type, direction });
    }
    p
}

/// Shortest path search shared by the plain and the exclusion-aware entry
/// points.
pub(crate) fn shortest_path_impl(
    g: &Graph,
    start: NodeId,
    target: NodeId,
    max_hops: u32,
    dir: TraversalDirection,
    mc: Option<u32>,
    excl_nodes: &Vec<NodeId>,
    excl_edges: &Vec<(NodeId, NodeId)>,
) -> (r: Option<Vec<PathStep>>)
    ensures
        ({
            let m = g@;
            let x = excl_of(excl_nodes@, excl_edges@);
            &&& (r is Some <==> m.has_node(start) && m.has_node(target) && !x.nodes.contains(start)
                && !x.nodes.contains(target) && reach(m, x, dir, mc, start, target, max_hops as nat))
            &&& (match r {
                Some(p) => path_steps_ok(m, x, dir, mc, start, target, max_hops, p@),
                None => true,
            })
        }),
{
    let ghost m = g@;
    let ghost x = excl_of(excl_nodes@, excl_edges@);
    if g.node(start).is_none() || g.node(target).is_none() {
        return None;
    }
    if contains_id(excl_nodes, start) || contains_id(excl_nodes, target) {
        return None;
    }
    if start == target {
        let (label, app_id) = match g.node(start) {
            Some(info) => (info.label.clone(), clone_opt_string(&info.app_id)),
            None => (String::new(), None),
        };
        let p: Vec<PathStep> = vec![
            PathStep { node_id: start, label, app_id, rel_type: None, direction: None },
        ];
        proof {
            assert(p@.len() == 1);
            assert(ids_of(p@) =~= seq![start]);
            assert(reach(m, x, dir, mc, start, target, 0));
            assert(dist_is(m, x, dir, mc, start, target, 0));
            let tags = Seq::<(RelTypeId, Direction)>::empty();
            assert(tagged_steps_ok(m, x, dir, mc, p@, tags)) by {
                assert(tagged_path_ok(m, x, dir, mc, ids_of(p@), tags));
            }
            assert(reach(m, x, dir, mc, start, target, max_hops as nat));
        }
        return Some(p);
    }
    if max_hops == 0 {
        proof {
            assert(!reach(m, x, dir, mc, start, target, 0));
        }
        return None;
    }
    let (visited, order) = bfs_core(g, start, max_hops, dir, mc, excl_nodes, excl_edges);
    if !visited.contains_key(&target) {
        proof {
            assert(!reach(m, x, dir, mc, start, target, max_hops as nat));
        }
        return None;
    }
    let rec = *visited.get(&target).unwrap();
    let (ids, tags) = reconstruct_chain(
        &visited,
        start,
        target,
        Ghost(m),
        Ghost(x),
        Ghost(dir),
        Ghost(mc),
    );
    let p = chain_to_steps(g, &ids, &tags);
    proof {
        assert(p@.len() - 1 == visited@[target].dist);
        assert(dist_is(m, x, dir, mc, start, target, (p@.len() - 1) as nat));
        assert(reach(m, x, dir, mc, start, target, max_hops as nat)) by {
            lemma_reach_mono(
                m,
                x,
                dir,
                mc,
                start,
                target,
                visited@[target].dist as nat,
                max_hops as nat,
            );
        }
        assert(tagged_steps_ok(m, x, dir, mc, p@, tags@)) by {
            assert(tagged_path_ok(m, x, dir, mc, ids@, tags@));
            assert(ids_of(p@) =~= ids@);
        }
        assert(ids_of(p@).no_duplicates()) by {
            assert(ids_of(p@) =~= ids@);
        }
        assert(p@[0].node_id == start);
        assert(p@.last().node_id == target);
        assert forall|i: int| 0 <= i < p@.len() implies !x.nodes.contains(
            (#[trigger] p@[i]).node_id,
        ) by {
            if i == 0 {
                assert(p@[0].node_id == start);
                assert(!excl_nodes@.contains(start));
            } else {
                let tags0 = tags@;
                assert(step_tagged(
                    m,
                    x,
                    dir,
                    mc,
                    ids@[i - 1],
                    ids@[i],
                    tags0[i - 1].0,
                    tags0[i - 1].1,
                ));
                assert(p@[i].node_id == ids@[i]);
            }
        }
        assert(path_steps_ok(m, x, dir, mc, start, target, max_hops, p@));
    }
    Some(p)
}

/// Unweighted shortest path from `start` to `target` within `max_hops`
/// steps, as a row per node including both endpoints. Absent exactly when
/// an endpoint is not registered or no admissible path exists within the
/// bound; when `start == target` the path is the single start row even
/// with a zero bound.
pub fn shortest_path(
    g: &Graph,
    start: NodeId,
    target: NodeId,
    max_hops: u32,
    dir: TraversalDirection,
    mc: Option<u32>,
) -> (r: Option<Vec<PathStep>>)
    ensures
        r is Some <==> g@.has_node(start) && g@.has_node(target) && reach(
            g@,
            Exclusions::none(),
            dir,
            mc,
            start,
            target,
            max_hops as nat,
        ),
        match r {
            Some(p) => path_steps_ok(
                g@,
                Exclusions::none(),
                dir,
                mc,
                start,
                target,
                max_hops,
                p@,
            ),
            None => true,
        },
{
    let excl_n: Vec<NodeId> = Vec::new();
    let excl_e: Vec<(NodeId, NodeId)> = Vec::new();
    let r = shortest_path_impl(g, start, target, max_hops, dir, mc, &excl_n, &excl_e);
    proof {
        let x = excl_of(excl_n@, excl_e@);
        assert(x.nodes =~= Set::<NodeId>::empty());
        assert(x.edges =~= Set::<(NodeId, NodeId)>::empty());
        assert(x == Exclusions::none());
    }
    r
}

} // verus!

