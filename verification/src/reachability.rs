//! The mathematical theory of filtered traversal: admissible steps,
//! bounded reachability, tagged paths, and their laws. Every traversal
//! contract is stated over these definitions.

use crate::graph::{count_matching, Edge, GraphModel, NodeId, RelTypeId};
use vstd::prelude::*;

verus! {

/// Direction in which one stored edge was traversed.
#[derive(Debug, Clone, Copy, PartialEq, Eq, Structural)]
pub enum Direction {
    Outgoing,
    Incoming,
}

/// Which adjacency lists a traversal may follow.
#[derive(Debug, Clone, Copy, PartialEq, Eq, Structural)]
pub enum TraversalDirection {
    Outgoing,
    Incoming,
    Both,
}

/// The traversal direction that sees every edge the other way round.
pub open spec fn opposite(dir: TraversalDirection) -> TraversalDirection {
    match dir {
        TraversalDirection::Outgoing => TraversalDirection::Incoming,
        TraversalDirection::Incoming => TraversalDirection::Outgoing,
        TraversalDirection::Both => TraversalDirection::Both,
    }
}

/// Whether the filter allows steps over the forward adjacency.
pub open spec fn uses_out(dir: TraversalDirection) -> bool {
    dir == TraversalDirection::Outgoing || dir == TraversalDirection::Both
}

/// Whether the filter allows steps over the reverse adjacency.
pub open spec fn uses_in(dir: TraversalDirection) -> bool {
    dir == TraversalDirection::Incoming || dir == TraversalDirection::Both
}

pub open spec fn allows(dir: TraversalDirection, d: Direction) -> bool {
    match d {
        Direction::Outgoing => uses_out(dir),
        Direction::Incoming => uses_in(dir),
    }
}

/// Whether an edge's confidence passes an optional minimum threshold.
/// An unknown confidence always passes.
pub open spec fn passes(conf: Option<u32>, min: Option<u32>) -> bool {
    match min {
        None => true,
        Some(m) => match conf {
            None => true,
            Some(c) => c >= m,
        },
    }
}

/// Nodes and node pairs that a constrained search may not step onto.
pub struct Exclusions {
    pub nodes: Set<NodeId>,
    pub edges: Set<(NodeId, NodeId)>,
}

impl Exclusions {
    /// The unconstrained search.
    pub open spec fn none() -> Exclusions {
        Exclusions { nodes: Set::empty(), edges: Set::empty() }
    }
}

/// The adjacency list of u that a step in direction d reads.
pub open spec fn list_of(m: GraphModel, u: NodeId, d: Direction) -> Seq<Edge> {
    match d {
        Direction::Outgoing => m.out_edges(u),
        Direction::Incoming => m.in_edges(u),
    }
}

/// Entry i of the d-list of u is a qualifying edge from u to v.
pub open spec fn edge_at(
    m: GraphModel,
    dir: TraversalDirection,
    mc: Option<u32>,
    u: NodeId,
    v: NodeId,
    d: Direction,
    i: int,
) -> bool {
    &&& allows(dir, d)
    &&& 0 <= i < list_of(m, u, d).len()
    &&& list_of(m, u, d)[i].target == v
    &&& passes(list_of(m, u, d)[i].confidence, mc)
}

/// One admissible traversal step from u to v.
pub open spec fn step(
    m: GraphModel,
    x: Exclusions,
    dir: TraversalDirection,
    mc: Option<u32>,
    u: NodeId,
    v: NodeId,
) -> bool {
    &&& !x.nodes.contains(v)
    &&& !x.edges.contains((u, v))
    &&& exists|d: Direction, i: int| edge_at(m, dir, mc, u, v, d, i)
}

/// An admissible step from u to v traversing an edge with relationship
/// type rt in direction d.
pub open spec fn step_tagged(
    m: GraphModel,
    x: Exclusions,
    dir: TraversalDirection,
    mc: Option<u32>,
    u: NodeId,
    v: NodeId,
    rt: RelTypeId,
    d: Direction,
) -> bool {
    &&& !x.nodes.contains(v)
    &&& !x.edges.contains((u, v))
    &&& exists|i: int| edge_at(m, dir, mc, u, v, d, i) && list_of(m, u, d)[i].rel_type == rt
}

/// v is reachable from s in at most k admissible steps.
pub open spec fn reach(
    m: GraphModel,
    x: Exclusions,
    dir: TraversalDirection,
    mc: Option<u32>,
    s: NodeId,
    v: NodeId,
    k: nat,
) -> bool
    decreases k,
{
    if v == s {
        true
    } else if k == 0 {
        false
    } else {
        exists|u: NodeId| #[trigger] step(m, x, dir, mc, u, v) && reach(
            m,
            x,
            dir,
            mc,
            s,
            u,
            (k - 1) as nat,
        )
    }
}

/// k is the exact (shortest) admissible distance from s to v.
pub open spec fn dist_is(
    m: GraphModel,
    x: Exclusions,
    dir: TraversalDirection,
    mc: Option<u32>,
    s: NodeId,
    v: NodeId,
    k: nat,
) -> bool {
    &&& reach(m, x, dir, mc, s, v, k)
    &&& k == 0 || !reach(m, x, dir, mc, s, v, (k - 1) as nat)
}

/// ids is a node sequence and tags records, for each consecutive pair, the
/// relationship type and direction of a qualifying stored edge between them.
pub open spec fn tagged_path_ok(
    m: GraphModel,
    x: Exclusions,
    dir: TraversalDirection,
    mc: Option<u32>,
    ids: Seq<NodeId>,
    tags: Seq<(RelTypeId, Direction)>,
) -> bool {
    &&& ids.len() >= 1
    &&& tags.len() == ids.len() - 1
    &&& forall|j: int|
        0 <= j < tags.len() ==> step_tagged(
            m,
            x,
            dir,
            mc,
            ids[j],
            ids[j + 1],
            (#[trigger] tags[j]).0,
            tags[j].1,
        )
}

/// Reachability grows monotonically with the step budget.
pub proof fn lemma_reach_mono(
    m: GraphModel,
    x: Exclusions,
    dir: TraversalDirection,
    mc: Option<u32>,
    s: NodeId,
    v: NodeId,
    k1: nat,
    k2: nat,
)
    requires
        reach(m, x, dir, mc, s, v, k1),
        k1 <= k2,
    ensures
        reach(m, x, dir, mc, s, v, k2),
    decreases k1,
{
    if v == s {
    } else {
        let u = choose|u: NodeId|
            #[trigger] step(m, x, dir, mc, u, v) && reach(m, x, dir, mc, s, u, (k1 - 1) as nat);
        lemma_reach_mono(m, x, dir, mc, s, u, (k1 - 1) as nat, (k2 - 1) as nat);
        assert(step(m, x, dir, mc, u, v) && reach(m, x, dir, mc, s, u, (k2 - 1) as nat));
    }
}

/// A step extends reachability by one.
pub proof fn lemma_step_extend(
    m: GraphModel,
    x: Exclusions,
    dir: TraversalDirection,
    mc: Option<u32>,
    s: NodeId,
    u: NodeId,
    v: NodeId,
    k: nat,
)
    requires
        reach(m, x, dir, mc, s, u, k),
        step(m, x, dir, mc, u, v),
    ensures
        reach(m, x, dir, mc, s, v, k + 1),
{
    if v == s {
    } else {
        assert(step(m, x, dir, mc, u, v) && reach(m, x, dir, mc, s, u, ((k + 1) - 1) as nat));
    }
}

/// A valid tagged path witnesses reachability within its hop count.
pub proof fn lemma_path_reach(
    m: GraphModel,
    x: Exclusions,
    dir: TraversalDirection,
    mc: Option<u32>,
    ids: Seq<NodeId>,
    tags: Seq<(RelTypeId, Direction)>,
)
    requires
        tagged_path_ok(m, x, dir, mc, ids, tags),
    ensures
        reach(m, x, dir, mc, ids[0], ids.last(), (ids.len() - 1) as nat),
    decreases ids.len(),
{
    if ids.len() == 1 {
    } else {
        let short_ids = ids.drop_last();
        let short_tags = tags.drop_last();
        assert(tagged_path_ok(m, x, dir, mc, short_ids, short_tags)) by {
            assert forall|j: int| 0 <= j < short_tags.len() implies step_tagged(
                m,
                x,
                dir,
                mc,
                short_ids[j],
                short_ids[j + 1],
                (#[trigger] short_tags[j]).0,
                short_tags[j].1,
            ) by {
                assert(short_tags[j] == tags[j]);
                assert(short_ids[j] == ids[j]);
                assert(short_ids[j + 1] == ids[j + 1]);
                assert(step_tagged(m, x, dir, mc, ids[j], ids[j + 1], tags[j].0, tags[j].1));
            }
        }
        lemma_path_reach(m, x, dir, mc, short_ids, short_tags);
        let j = tags.len() - 1;
        assert(step_tagged(m, x, dir, mc, ids[j], ids[j + 1], tags[j].0, tags[j].1));
        lemma_step_tagged_step(m, x, dir, mc, ids[j], ids[j + 1], tags[j].0, tags[j].1);
        lemma_step_extend(m, x, dir, mc, ids[0], ids[j], ids[j + 1], (ids.len() - 2) as nat);
        assert(ids.last() == ids[j + 1]);
    }
}

/// A tagged step is a step.
pub proof fn lemma_step_tagged_step(
    m: GraphModel,
    x: Exclusions,
    dir: TraversalDirection,
    mc: Option<u32>,
    u: NodeId,
    v: NodeId,
    rt: RelTypeId,
    d: Direction,
)
    requires
        step_tagged(m, x, dir, mc, u, v, rt, d),
    ensures
        step(m, x, dir, mc, u, v),
{
    let i = choose|i: int| edge_at(m, dir, mc, u, v, d, i) && list_of(m, u, d)[i].rel_type == rt;
    assert(edge_at(m, dir, mc, u, v, d, i));
}

/// A positive match count yields a matching entry, and conversely.
pub proof fn lemma_count_matching_pos(s: Seq<Edge>, target: NodeId, rt: RelTypeId, c: Option<u32>)
    ensures
        count_matching(s, target, rt, c) > 0 <==> exists|i: int|
            0 <= i < s.len() && (#[trigger] s[i]).target == target && s[i].rel_type == rt
                && s[i].confidence == c,
    decreases s.len(),
{
    if s.len() > 0 {
        lemma_count_matching_pos(s.drop_last(), target, rt, c);
        if count_matching(s, target, rt, c) > 0 {
            if count_matching(s.drop_last(), target, rt, c) > 0 {
                let i = choose|i: int|
                    0 <= i < s.drop_last().len() && (#[trigger] s.drop_last()[i]).target == target
                        && s.drop_last()[i].rel_type == rt && s.drop_last()[i].confidence == c;
                assert(s[i] == s.drop_last()[i]);
            } else {
                assert(s[s.len() - 1].target == target && s[s.len() - 1].rel_type == rt && s[s.len()
                    - 1].confidence == c);
            }
        }
        if exists|i: int|
            0 <= i < s.len() && (#[trigger] s[i]).target == target && s[i].rel_type == rt
                && s[i].confidence == c {
            let i = choose|i: int|
                0 <= i < s.len() && (#[trigger] s[i]).target == target && s[i].rel_type == rt
                    && s[i].confidence == c;
            if i < s.len() - 1 {
                assert(s.drop_last()[i] == s[i]);
            }
        }
    }
}

/// In a mirror-consistent graph without exclusions, a step reverses when
/// the allowed directions are reversed, traversing the same stored edge.
pub proof fn lemma_step_dual(
    m: GraphModel,
    dir: TraversalDirection,
    mc: Option<u32>,
    u: NodeId,
    v: NodeId,
)
    requires
        m.mirror_ok(),
        step(m, Exclusions::none(), dir, mc, u, v),
    ensures
        step(m, Exclusions::none(), opposite(dir), mc, v, u),
{
    let (d, i): (Direction, int) = choose|d: Direction, i: int| edge_at(m, dir, mc, u, v, d, i);
    let e = list_of(m, u, d)[i];
    match d {
        Direction::Outgoing => {
            // e sits in out_edges(u) targeting v: the mirror entry sits in
            // in_edges(v) targeting u.
            assert(count_matching(m.out_edges(u), v, e.rel_type, e.confidence) > 0) by {
                lemma_count_matching_pos(m.out_edges(u), v, e.rel_type, e.confidence);
            }
            assert(m.count_out(u, v, e.rel_type, e.confidence) == m.count_in(
                u,
                v,
                e.rel_type,
                e.confidence,
            ));
            lemma_count_matching_pos(m.in_edges(v), u, e.rel_type, e.confidence);
            let j = choose|j: int|
                0 <= j < m.in_edges(v).len() && (#[trigger] m.in_edges(v)[j]).target == u
                    && m.in_edges(v)[j].rel_type == e.rel_type && m.in_edges(v)[j].confidence
                    == e.confidence;
            assert(edge_at(m, opposite(dir), mc, v, u, Direction::Incoming, j));
        },
        Direction::Incoming => {
            // e sits in in_edges(u) targeting v: the forward entry sits in
            // out_edges(v) targeting u.
            assert(count_matching(m.in_edges(u), v, e.rel_type, e.confidence) > 0) by {
                lemma_count_matching_pos(m.in_edges(u), v, e.rel_type, e.confidence);
            }
            assert(m.count_out(v, u, e.rel_type, e.confidence) == m.count_in(
                v,
                u,
                e.rel_type,
                e.confidence,
            ));
            lemma_count_matching_pos(m.out_edges(v), u, e.rel_type, e.confidence);
            let j = choose|j: int|
                0 <= j < m.out_edges(v).len() && (#[trigger] m.out_edges(v)[j]).target == u
                    && m.out_edges(v)[j].rel_type == e.rel_type && m.out_edges(v)[j].confidence
                    == e.confidence;
            assert(edge_at(m, opposite(dir), mc, v, u, Direction::Outgoing, j));
        },
    }
}

/// In a mirror-consistent graph without exclusions, reachability reverses
/// when the allowed directions are reversed.
pub proof fn lemma_reach_dual(
    m: GraphModel,
    dir: TraversalDirection,
    mc: Option<u32>,
    s: NodeId,
    v: NodeId,
    k: nat,
)
    requires
        m.mirror_ok(),
        reach(m, Exclusions::none(), dir, mc, s, v, k),
    ensures
        reach(m, Exclusions::none(), opposite(dir), mc, v, s, k),
    decreases k,
{
    if v == s {
    } else {
        let u = choose|u: NodeId|
            #[trigger] step(m, Exclusions::none(), dir, mc, u, v) && reach(
                m,
                Exclusions::none(),
                dir,
                mc,
                s,
                u,
                (k - 1) as nat,
            );
        lemma_reach_dual(m, dir, mc, s, u, (k - 1) as nat);
        lemma_step_dual(m, dir, mc, u, v);
        // v steps back to u, and u reaches s in k-1 reversed steps; splice
        // the step onto the front by induction over the reversed suffix.
        lemma_reach_prepend(m, Exclusions::none(), opposite(dir), mc, v, u, s, (k - 1) as nat);
    }
}

/// A step from s to u prepended to a bounded path from u extends the bound
/// by one.
pub proof fn lemma_reach_prepend(
    m: GraphModel,
    x: Exclusions,
    dir: TraversalDirection,
    mc: Option<u32>,
    s: NodeId,
    u: NodeId,
    v: NodeId,
    k: nat,
)
    requires
        step(m, x, dir, mc, s, u),
        reach(m, x, dir, mc, u, v, k),
    ensures
        reach(m, x, dir, mc, s, v, k + 1),
    decreases k,
{
    if v == u {
        if v == s {
        } else {
            assert(step(m, x, dir, mc, s, v) && reach(m, x, dir, mc, s, s, k));
        }
    } else if v == s {
    } else {
        let w = choose|w: NodeId|
            #[trigger] step(m, x, dir, mc, w, v) && reach(m, x, dir, mc, u, w, (k - 1) as nat);
        lemma_reach_prepend(m, x, dir, mc, s, u, w, (k - 1) as nat);
        assert(step(m, x, dir, mc, w, v) && reach(m, x, dir, mc, s, w, k));
        lemma_reach_mono(m, x, dir, mc, s, w, k, ((k + 1) - 1) as nat);
    }
}

/// A step under a one-sided direction filter is a step under `Both`.
pub proof fn lemma_step_widen(
    m: GraphModel,
    x: Exclusions,
    dir: TraversalDirection,
    mc: Option<u32>,
    u: NodeId,
    v: NodeId,
)
    requires
        step(m, x, dir, mc, u, v),
    ensures
        step(m, x, TraversalDirection::Both, mc, u, v),
{
    let (d, i): (Direction, int) = choose|d: Direction, i: int| edge_at(m, dir, mc, u, v, d, i);
    assert(edge_at(m, TraversalDirection::Both, mc, u, v, d, i));
}

/// Reachability under a one-sided direction filter implies reachability
/// under `Both`.
pub proof fn lemma_reach_widen(
    m: GraphModel,
    x: Exclusions,
    dir: TraversalDirection,
    mc: Option<u32>,
    s: NodeId,
    v: NodeId,
    k: nat,
)
    requires
        reach(m, x, dir, mc, s, v, k),
    ensures
        reach(m, x, TraversalDirection::Both, mc, s, v, k),
    decreases k,
{
    if v == s {
    } else {
        let u = choose|u: NodeId|
            #[trigger] step(m, x, dir, mc, u, v) && reach(m, x, dir, mc, s, u, (k - 1) as nat);
        lemma_reach_widen(m, x, dir, mc, s, u, (k - 1) as nat);
        lemma_step_widen(m, x, dir, mc, u, v);
        assert(step(m, x, TraversalDirection::Both, mc, u, v) && reach(
            m,
            x,
            TraversalDirection::Both,
            mc,
            s,
            u,
            (k - 1) as nat,
        ));
    }
}

/// Every reachable node has an exact distance within the same bound.
pub proof fn lemma_dist_exists(
    m: GraphModel,
    x: Exclusions,
    dir: TraversalDirection,
    mc: Option<u32>,
    s: NodeId,
    v: NodeId,
    k: nat,
)
    requires
        reach(m, x, dir, mc, s, v, k),
    ensures
        exists|dv: nat| dv <= k && #[trigger] dist_is(m, x, dir, mc, s, v, dv),
    decreases k,
{
    if k == 0 {
        assert(dist_is(m, x, dir, mc, s, v, 0));
    } else if reach(m, x, dir, mc, s, v, (k - 1) as nat) {
        lemma_dist_exists(m, x, dir, mc, s, v, (k - 1) as nat);
        let dv = choose|dv: nat|
            dv <= (k - 1) as nat && #[trigger] dist_is(m, x, dir, mc, s, v, dv);
        assert(dv <= k && dist_is(m, x, dir, mc, s, v, dv));
    } else {
        assert(dist_is(m, x, dir, mc, s, v, k));
    }
}

/// A node has only one exact distance.
pub proof fn lemma_dist_unique(
    m: GraphModel,
    x: Exclusions,
    dir: TraversalDirection,
    mc: Option<u32>,
    s: NodeId,
    v: NodeId,
    a: nat,
    b: nat,
)
    requires
        dist_is(m, x, dir, mc, s, v, a),
        dist_is(m, x, dir, mc, s, v, b),
    ensures
        a == b,
{
    if a < b {
        lemma_reach_mono(m, x, dir, mc, s, v, a, (b - 1) as nat);
    } else if b < a {
        lemma_reach_mono(m, x, dir, mc, s, v, b, (a - 1) as nat);
    }
}

/// On the way to a node at exact distance k there is a node at every exact
/// distance up to k.
pub proof fn lemma_dist_chain(
    m: GraphModel,
    x: Exclusions,
    dir: TraversalDirection,
    mc: Option<u32>,
    s: NodeId,
    v: NodeId,
    k: nat,
    j: nat,
)
    requires
        dist_is(m, x, dir, mc, s, v, k),
        j <= k,
    ensures
        exists|w: NodeId| #[trigger] dist_is(m, x, dir, mc, s, w, j),
    decreases k,
{
    if j == k {
        assert(dist_is(m, x, dir, mc, s, v, j));
    } else {
        assert(k > 0);
        assert(v != s);
        let u = choose|u: NodeId|
            #[trigger] step(m, x, dir, mc, u, v) && reach(m, x, dir, mc, s, u, (k - 1) as nat);
        assert(dist_is(m, x, dir, mc, s, u, (k - 1) as nat)) by {
            if k >= 2 && reach(m, x, dir, mc, s, u, (k - 2) as nat) {
                lemma_step_extend(m, x, dir, mc, s, u, v, (k - 2) as nat);
                assert(reach(m, x, dir, mc, s, v, (k - 1) as nat));
            }
        }
        lemma_dist_chain(m, x, dir, mc, s, u, (k - 1) as nat, j);
    }
}

/// Two graphs whose admissible steps agree reach the same nodes.
pub proof fn lemma_reach_congruent(
    m1: GraphModel,
    m2: GraphModel,
    x: Exclusions,
    dir: TraversalDirection,
    mc: Option<u32>,
    s: NodeId,
    v: NodeId,
    k: nat,
)
    requires
        forall|a: NodeId, b: NodeId|
            #[trigger] step(m1, x, dir, mc, a, b) <==> #[trigger] step(m2, x, dir, mc, a, b),
        reach(m1, x, dir, mc, s, v, k),
    ensures
        reach(m2, x, dir, mc, s, v, k),
    decreases k,
{
    if v == s {
    } else {
        let u = choose|u: NodeId|
            #[trigger] step(m1, x, dir, mc, u, v) && reach(m1, x, dir, mc, s, u, (k - 1) as nat);
        lemma_reach_congruent(m1, m2, x, dir, mc, s, u, (k - 1) as nat);
        assert(step(m2, x, dir, mc, u, v) && reach(m2, x, dir, mc, s, u, (k - 1) as nat));
    }
}

} // verus!
