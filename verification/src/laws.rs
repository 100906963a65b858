//! Laws of the traversal engine that relate several operations, stated
//! over the same reachability theory the function contracts use.

use vstd::prelude::*;

use crate::graph::{Edge, EdgeRecordV, GraphModel, NodeId, RelTypeId};
use crate::reachability::{
    edge_at, lemma_count_matching_pos, lemma_reach_congruent, lemma_reach_dual, lemma_reach_widen,
    list_of, passes, reach, step, Direction, Exclusions, TraversalDirection,
};

verus! {

/// Every endpoint of every stored edge is a registered node.
pub open spec fn endpoints_registered(m: GraphModel) -> bool {
    &&& forall|u: NodeId| #![trigger m.out_edges(u)] m.out_edges(u).len() > 0 ==> m.has_node(u)
    &&& forall|u: NodeId, i: int|
        0 <= i < m.out_edges(u).len() ==> m.has_node((#[trigger] m.out_edges(u)[i]).target)
    &&& forall|u: NodeId| #![trigger m.in_edges(u)] m.in_edges(u).len() > 0 ==> m.has_node(u)
    &&& forall|u: NodeId, i: int|
        0 <= i < m.in_edges(u).len() ==> m.has_node((#[trigger] m.in_edges(u)[i]).target)
}

/// Every application-id entry points at a registered node.
pub open spec fn app_index_registered(m: GraphModel) -> bool {
    forall|k: Seq<char>| #[trigger] m.app_index.contains_key(k) ==> m.has_node(m.app_index[k])
}

/// Every stored edge carries an interned relationship-type id.
pub open spec fn rel_ids_valid(m: GraphModel) -> bool {
    &&& forall|u: NodeId, i: int|
        0 <= i < m.out_edges(u).len() ==> (#[trigger] m.out_edges(u)[i]).rel_type < m.rel_count()
    &&& forall|u: NodeId, i: int|
        0 <= i < m.in_edges(u).len() ==> (#[trigger] m.in_edges(u)[i]).rel_type < m.rel_count()
}

/// Registering nodes and application ids keeps every previously registered
/// node registered and leaves the adjacency untouched.
proof fn lemma_register_endpoints_grows_nodes(m: GraphModel, r: EdgeRecordV)
    ensures
        ({
            let m4 = m.register_endpoints_m(r);
            &&& m4.out_adj == m.out_adj
            &&& m4.in_adj == m.in_adj
            &&& m4.rel_names == m.rel_names
            &&& forall|id: NodeId| m.has_node(id) ==> #[trigger] m4.has_node(id)
            &&& m4.has_node(r.from_id)
            &&& m4.has_node(r.to_id)
            &&& forall|k: Seq<char>|
                #[trigger] m4.app_index.contains_key(k) ==> m.app_index.contains_key(k) || (
                m4.app_index[k] == r.from_id || m4.app_index[k] == r.to_id)
            &&& forall|k: Seq<char>|
                m.app_index.contains_key(k) ==> #[trigger] m4.app_index.contains_key(k)
                    && m4.app_index[k] == m.app_index[k]
        }),
{
}

/// Loading one record keeps the three store invariants.
proof fn lemma_load_one_keeps_invariants(m: GraphModel, r: EdgeRecordV)
    requires
        endpoints_registered(m),
        app_index_registered(m),
        rel_ids_valid(m),
        m.register_endpoints_m(r).intern_ok(r.rel_type),
    ensures
        endpoints_registered(m.load_one_m(r)),
        app_index_registered(m.load_one_m(r)),
        rel_ids_valid(m.load_one_m(r)),
{
    let m4 = m.register_endpoints_m(r);
    let m5 = m4.intern_m(r.rel_type);
    let m6 = m.load_one_m(r);
    lemma_register_endpoints_grows_nodes(m, r);
    let rid = m4.rel_id_m(r.rel_type);
    assert(rid < m5.rel_count()) by {
        if m4.rel_names.contains(r.rel_type) {
            assert(m4.rel_names[m4.rel_names.index_of(r.rel_type)] == r.rel_type);
        }
    }
    let eo = Edge { target: r.to_id, rel_type: rid as RelTypeId, confidence: r.confidence };
    let ei = Edge { target: r.from_id, rel_type: rid as RelTypeId, confidence: r.confidence };
    assert(m6.out_adj == m5.out_adj.insert(r.from_id, m5.out_edges(r.from_id).push(eo)));
    assert(m6.in_adj == m5.in_adj.insert(r.to_id, m5.in_edges(r.to_id).push(ei)));
    assert(m6.nodes == m4.nodes);
    assert(m6.rel_names == m5.rel_names);
    assert forall|u: NodeId, i: int|
        0 <= i < m6.out_edges(u).len() implies m6.has_node((#[trigger] m6.out_edges(u)[i]).target)
        && m6.out_edges(u)[i].rel_type < m6.rel_count() by {
        if u == r.from_id && i == m6.out_edges(u).len() - 1 {
            assert(m6.out_edges(u) == m.out_edges(u).push(eo));
            assert(m6.out_edges(u)[i] == eo);
        } else {
            assert(m6.out_edges(u) == if u == r.from_id {
                m.out_edges(u).push(eo)
            } else {
                m.out_edges(u)
            });
            assert(m6.out_edges(u)[i] == m.out_edges(u)[i]);
        }
    }
    assert forall|u: NodeId, i: int|
        0 <= i < m6.in_edges(u).len() implies m6.has_node((#[trigger] m6.in_edges(u)[i]).target)
        && m6.in_edges(u)[i].rel_type < m6.rel_count() by {
        if u == r.to_id && i == m6.in_edges(u).len() - 1 {
            assert(m6.in_edges(u) == m.in_edges(u).push(ei));
            assert(m6.in_edges(u)[i] == ei);
        } else {
            assert(m6.in_edges(u) == if u == r.to_id {
                m.in_edges(u).push(ei)
            } else {
                m.in_edges(u)
            });
            assert(m6.in_edges(u)[i] == m.in_edges(u)[i]);
        }
    }
    assert forall|u: NodeId| #![trigger m6.out_edges(u)] m6.out_edges(u).len() > 0 implies
        m6.has_node(u) by {
        if u != r.from_id {
            assert(m6.out_edges(u) == m.out_edges(u));
        }
    }
    assert forall|u: NodeId| #![trigger m6.in_edges(u)] m6.in_edges(u).len() > 0 implies
        m6.has_node(u) by {
        if u != r.to_id {
            assert(m6.in_edges(u) == m.in_edges(u));
        }
    }
    assert forall|k: Seq<char>|
        #[trigger] m6.app_index.contains_key(k) implies m6.has_node(m6.app_index[k]) by {
        assert(m6.app_index == m4.app_index);
        if m.app_index.contains_key(k) {
            assert(m4.app_index[k] == m.app_index[k]);
            assert(m.has_node(m.app_index[k]));
        }
    }
}

/// At the end of a successful bulk load over a store satisfying them, the
/// structural invariants hold: every edge endpoint is a registered node,
/// every application-id entry points at a registered node, and every edge
/// carries an interned relationship-type id. A fresh store satisfies all
/// three, so they hold of any graph built by loading records.
pub proof fn lemma_load_keeps_store_invariants(m: GraphModel, rs: Seq<EdgeRecordV>)
    requires
        endpoints_registered(m),
        app_index_registered(m),
        rel_ids_valid(m),
        m.load_ok(rs),
    ensures
        endpoints_registered(m.load_m(rs)),
        app_index_registered(m.load_m(rs)),
        rel_ids_valid(m.load_m(rs)),
    decreases rs.len(),
{
    if rs.len() > 0 {
        lemma_load_keeps_store_invariants(m, rs.drop_last());
        lemma_load_one_keeps_invariants(m.load_m(rs.drop_last()), rs.last());
    }
}

/// A graph with no nodes, edges or application ids satisfies the
/// structural store invariants.
pub proof fn lemma_empty_store_invariants()
    ensures
        endpoints_registered(GraphModel::empty()),
        app_index_registered(GraphModel::empty()),
        rel_ids_valid(GraphModel::empty()),
{
    let m = GraphModel::empty();
    assert forall|u: NodeId| #![trigger m.out_edges(u)] true implies m.out_edges(u).len() == 0 by {
        assert(m.out_edges(u) =~= Seq::<Edge>::empty());
    }
    assert forall|u: NodeId| #![trigger m.in_edges(u)] true implies m.in_edges(u).len() == 0 by {
        assert(m.in_edges(u) =~= Seq::<Edge>::empty());
    }
}

/// An edge whose confidence was never loaded passes every threshold
/// filter.
pub proof fn lemma_unknown_confidence_passes(mc: Option<u32>)
    ensures
        passes(None, mc),
{
}

/// Direction duality: over a mirror-consistent graph, a node v lies within
/// k forward hops of u exactly when u lies within k reverse hops of v.
/// The membership clause of `bfs_neighborhood` ties its result to `reach`,
/// so the neighborhoods agree the same way.
pub proof fn lemma_direction_duality(
    m: GraphModel,
    mc: Option<u32>,
    u: NodeId,
    v: NodeId,
    k: nat,
)
    requires
        m.mirror_ok(),
    ensures
        reach(m, Exclusions::none(), TraversalDirection::Outgoing, mc, u, v, k) <==> reach(
            m,
            Exclusions::none(),
            TraversalDirection::Incoming,
            mc,
            v,
            u,
            k,
        ),
{
    if reach(m, Exclusions::none(), TraversalDirection::Outgoing, mc, u, v, k) {
        lemma_reach_dual(m, TraversalDirection::Outgoing, mc, u, v, k);
    }
    if reach(m, Exclusions::none(), TraversalDirection::Incoming, mc, v, u, k) {
        lemma_reach_dual(m, TraversalDirection::Incoming, mc, v, u, k);
    }
}

/// A strict reachability fact leaves the start over some admissible step.
proof fn lemma_reach_first_step(
    m: GraphModel,
    x: Exclusions,
    dir: TraversalDirection,
    mc: Option<u32>,
    s: NodeId,
    v: NodeId,
    k: nat,
)
    requires
        reach(m, x, dir, mc, s, v, k),
        v != s,
    ensures
        exists|w: NodeId| #[trigger] step(m, x, dir, mc, s, w),
    decreases k,
{
    let u = choose|u: NodeId|
        #[trigger] step(m, x, dir, mc, u, v) && reach(m, x, dir, mc, s, u, (k - 1) as nat);
    if u == s {
        assert(step(m, x, dir, mc, s, v));
    } else {
        lemma_reach_first_step(m, x, dir, mc, s, u, (k - 1) as nat);
    }
}

/// When every edge endpoint is registered, both ends of a strict
/// reachability fact are registered nodes.
pub proof fn lemma_reach_endpoints_registered(
    m: GraphModel,
    x: Exclusions,
    dir: TraversalDirection,
    mc: Option<u32>,
    s: NodeId,
    v: NodeId,
    k: nat,
)
    requires
        endpoints_registered(m),
        reach(m, x, dir, mc, s, v, k),
        v != s,
    ensures
        m.has_node(s),
        m.has_node(v),
{
    let u = choose|u: NodeId|
        #[trigger] step(m, x, dir, mc, u, v) && reach(m, x, dir, mc, s, u, (k - 1) as nat);
    let (d, i): (Direction, int) = choose|d: Direction, i: int| edge_at(m, dir, mc, u, v, d, i);
    match d {
        Direction::Outgoing => {
            assert(m.has_node(m.out_edges(u)[i].target));
        },
        Direction::Incoming => {
            assert(m.has_node(m.in_edges(u)[i].target));
        },
    }
    lemma_reach_first_step(m, x, dir, mc, s, v, k);
    let w = choose|w: NodeId| #[trigger] step(m, x, dir, mc, s, w);
    let (d2, i2): (Direction, int) = choose|d2: Direction, i2: int|
        edge_at(m, dir, mc, s, w, d2, i2);
    match d2 {
        Direction::Outgoing => {
            assert(m.out_edges(s).len() > 0);
        },
        Direction::Incoming => {
            assert(m.in_edges(s).len() > 0);
        },
    }
}

/// Direction duality at the neighborhood level: over a mirror-consistent
/// store whose edge endpoints are all registered, v lies in the k-hop
/// forward neighborhood of u exactly when u lies in the k-hop reverse
/// neighborhood of v. Each side of the equivalence is precisely the
/// membership condition the ensures of `bfs_neighborhood` reports for a
/// neighbor row: the start is registered, and the other node is a
/// different one reachable within the bound.
pub proof fn lemma_neighborhood_duality(
    m: GraphModel,
    mc: Option<u32>,
    u: NodeId,
    v: NodeId,
    k: nat,
)
    requires
        m.mirror_ok(),
        endpoints_registered(m),
    ensures
        (m.has_node(u) && v != u && reach(
            m,
            Exclusions::none(),
            TraversalDirection::Outgoing,
            mc,
            u,
            v,
            k,
        )) <==> (m.has_node(v) && u != v && reach(
            m,
            Exclusions::none(),
            TraversalDirection::Incoming,
            mc,
            v,
            u,
            k,
        )),
{
    if m.has_node(u) && v != u && reach(
        m,
        Exclusions::none(),
        TraversalDirection::Outgoing,
        mc,
        u,
        v,
        k,
    ) {
        lemma_reach_dual(m, TraversalDirection::Outgoing, mc, u, v, k);
        lemma_reach_endpoints_registered(
            m,
            Exclusions::none(),
            TraversalDirection::Outgoing,
            mc,
            u,
            v,
            k,
        );
    }
    if m.has_node(v) && u != v && reach(
        m,
        Exclusions::none(),
        TraversalDirection::Incoming,
        mc,
        v,
        u,
        k,
    ) {
        lemma_reach_dual(m, TraversalDirection::Incoming, mc, v, u, k);
        lemma_reach_endpoints_registered(
            m,
            Exclusions::none(),
            TraversalDirection::Incoming,
            mc,
            v,
            u,
            k,
        );
    }
}

/// The undirected neighborhood contains the union of the forward and the
/// reverse neighborhoods: any node within k one-sided hops is within k
/// undirected hops. (Equality fails in general: an undirected path may mix
/// forward and reverse steps, as from 0 over 0→1 and 2→1 to 2, which no
/// one-sided traversal from 0 reaches.)
pub proof fn lemma_both_contains_directed(
    m: GraphModel,
    x: Exclusions,
    dir: TraversalDirection,
    mc: Option<u32>,
    s: NodeId,
    v: NodeId,
    k: nat,
)
    requires
        reach(m, x, dir, mc, s, v, k),
    ensures
        reach(m, x, TraversalDirection::Both, mc, s, v, k),
{
    lemma_reach_widen(m, x, dir, mc, s, v, k);
}

/// Parallel-edge idempotence: adding a duplicate edge u→v to a
/// mirror-consistent graph that already holds an edge u→v changes no
/// unfiltered reachability, whatever the duplicate's relationship type and
/// confidence. BFS neighbor counts are therefore unchanged.
pub proof fn lemma_parallel_edge_idempotent(
    m: GraphModel,
    u0: NodeId,
    v0: NodeId,
    rt: RelTypeId,
    conf: Option<u32>,
    dir: TraversalDirection,
    s: NodeId,
    v: NodeId,
    k: nat,
)
    requires
        m.mirror_ok(),
        exists|i: int|
            0 <= i < m.out_edges(u0).len() && (#[trigger] m.out_edges(u0)[i]).target == v0,
    ensures
        reach(m.add_edge_m(u0, v0, rt, conf), Exclusions::none(), dir, None, s, v, k) == reach(
            m,
            Exclusions::none(),
            dir,
            None,
            s,
            v,
            k,
        ),
{
    let m2 = m.add_edge_m(u0, v0, rt, conf);
    let x = Exclusions::none();
    let i0 = choose|i: int|
        0 <= i < m.out_edges(u0).len() && (#[trigger] m.out_edges(u0)[i]).target == v0;
    let e0 = m.out_edges(u0)[i0];
    // The mirror property puts a reverse entry for the existing edge in the
    // incoming list of v0.
    lemma_count_matching_pos(m.out_edges(u0), v0, e0.rel_type, e0.confidence);
    assert(m.count_out(u0, v0, e0.rel_type, e0.confidence) == m.count_in(
        u0,
        v0,
        e0.rel_type,
        e0.confidence,
    ));
    lemma_count_matching_pos(m.in_edges(v0), u0, e0.rel_type, e0.confidence);
    let j0 = choose|j: int|
        0 <= j < m.in_edges(v0).len() && (#[trigger] m.in_edges(v0)[j]).target == u0 && m.in_edges(
            v0,
        )[j].rel_type == e0.rel_type && m.in_edges(v0)[j].confidence == e0.confidence;
    assert forall|a: NodeId, b: NodeId|
        #[trigger] step(m, x, dir, None, a, b) <==> #[trigger] step(m2, x, dir, None, a, b) by {
        if step(m, x, dir, None, a, b) {
            let (d, i): (Direction, int) = choose|d: Direction, i: int|
                edge_at(m, dir, None, a, b, d, i);
            assert(list_of(m2, a, d)[i] == list_of(m, a, d)[i]) by {
                match d {
                    Direction::Outgoing => {
                        if a == u0 {
                            assert(m2.out_edges(a) == m.out_edges(a).push(
                                Edge { target: v0, rel_type: rt, confidence: conf },
                            ));
                        } else {
                            assert(m2.out_edges(a) == m.out_edges(a));
                        }
                    },
                    Direction::Incoming => {
                        if a == v0 {
                            assert(m2.in_edges(a) == m.in_edges(a).push(
                                Edge { target: u0, rel_type: rt, confidence: conf },
                            ));
                        } else {
                            assert(m2.in_edges(a) == m.in_edges(a));
                        }
                    },
                }
            }
            assert(edge_at(m2, dir, None, a, b, d, i));
        }
        if step(m2, x, dir, None, a, b) {
            let (d, i): (Direction, int) = choose|d: Direction, i: int|
                edge_at(m2, dir, None, a, b, d, i);
            match d {
                Direction::Outgoing => {
                    if a == u0 && i == m.out_edges(u0).len() {
                        // the duplicate edge itself: the existing edge makes
                        // the same step
                        assert(m2.out_edges(a) == m.out_edges(a).push(
                            Edge { target: v0, rel_type: rt, confidence: conf },
                        ));
                        assert(b == v0);
                        assert(edge_at(m, dir, None, a, b, Direction::Outgoing, i0));
                    } else {
                        if a == u0 {
                            assert(m2.out_edges(a) == m.out_edges(a).push(
                                Edge { target: v0, rel_type: rt, confidence: conf },
                            ));
                        } else {
                            assert(m2.out_edges(a) == m.out_edges(a));
                        }
                        assert(edge_at(m, dir, None, a, b, d, i));
                    }
                },
                Direction::Incoming => {
                    if a == v0 && i == m.in_edges(v0).len() {
                        // the duplicate's mirror entry: the existing edge's
                        // mirror entry makes the same step
                        assert(m2.in_edges(a) == m.in_edges(a).push(
                            Edge { target: u0, rel_type: rt, confidence: conf },
                        ));
                        assert(b == u0);
                        assert(edge_at(m, dir, None, a, b, Direction::Incoming, j0));
                    } else {
                        if a == v0 {
                            assert(m2.in_edges(a) == m.in_edges(a).push(
                                Edge { target: u0, rel_type: rt, confidence: conf },
                            ));
                        } else {
                            assert(m2.in_edges(a) == m.in_edges(a));
                        }
                        assert(edge_at(m, dir, None, a, b, d, i));
                    }
                },
            }
        }
    }
    if reach(m, x, dir, None, s, v, k) {
        lemma_reach_congruent(m, m2, x, dir, None, s, v, k);
    }
    if reach(m2, x, dir, None, s, v, k) {
        lemma_reach_congruent(m2, m, x, dir, None, s, v, k);
    }
}

} // verus!
