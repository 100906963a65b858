//! Reachable-subgraph extraction: the set of nodes a BFS discovers plus
//! every qualifying stored edge between two discovered nodes.

use vstd::prelude::*;

use crate::graph::{Edge, Graph, GraphModel, NodeId};
use crate::reachability::{passes, reach, Direction, Exclusions, TraversalDirection};
use crate::traversal::{bfs_core, bfs_post, conf_passes, excl_of};

verus! {

broadcast use vstd::std_specs::hash::group_hash_axioms;

/// A single edge in an extracted subgraph.
#[derive(Debug)]
pub struct SubgraphEdge {
    pub from_id: NodeId,
    pub from_label: String,
    pub from_app_id: Option<String>,
    pub to_id: NodeId,
    pub to_label: String,
    pub to_app_id: Option<String>,
    pub rel_type: String,
}

/// Result of subgraph extraction.
#[derive(Debug)]
pub struct SubgraphResult {
    pub node_count: usize,
    pub edges: Vec<SubgraphEdge>,
}

/// Whether a node belongs to the extracted subgraph: admissibly reachable
/// from the start within the depth bound.
pub open spec fn in_sub(
    m: GraphModel,
    dir: TraversalDirection,
    mc: Option<u32>,
    start: NodeId,
    max_depth: u32,
    v: NodeId,
) -> bool {
    reach(m, Exclusions::none(), dir, mc, start, v, max_depth as nat)
}

/// The qualifying (source, edge) pairs of one outgoing list: confidence
/// passes and the target is in the subgraph.
pub open spec fn sub_pairs_node(
    m: GraphModel,
    dir: TraversalDirection,
    mc: Option<u32>,
    start: NodeId,
    max_depth: u32,
    u: NodeId,
    s: Seq<Edge>,
) -> Seq<(NodeId, Edge)>
    decreases s.len(),
{
    if s.len() == 0 {
        Seq::empty()
    } else {
        sub_pairs_node(m, dir, mc, start, max_depth, u, s.drop_last()) + if passes(
            s.last().confidence,
            mc,
        ) && in_sub(m, dir, mc, start, max_depth, s.last().target) {
            seq![(u, s.last())]
        } else {
            Seq::empty()
        }
    }
}

/// The qualifying (source, edge) pairs over the discovered nodes, in
/// discovery order, each node contributing its outgoing list in insertion
/// order.
pub open spec fn sub_pairs(
    m: GraphModel,
    dir: TraversalDirection,
    mc: Option<u32>,
    start: NodeId,
    max_depth: u32,
    order: Seq<NodeId>,
) -> Seq<(NodeId, Edge)>
    decreases order.len(),
{
    if order.len() == 0 {
        Seq::empty()
    } else {
        sub_pairs(m, dir, mc, start, max_depth, order.drop_last()) + sub_pairs_node(
            m,
            dir,
            mc,
            start,
            max_depth,
            order.last(),
            m.out_edges(order.last()),
        )
    }
}

/// An emitted row reports one stored edge with the metadata of both
/// endpoints and the name of its relationship type (`UNKNOWN` when the id
/// is not interned).
pub open spec fn row_ok(m: GraphModel, u: NodeId, e: Edge, row: SubgraphEdge) -> bool {
    &&& row.from_id == u
    &&& row.to_id == e.target
    &&& row.from_label@ == m.label_or_empty(u)
    &&& (match row.from_app_id {
        Some(a) => m.app_id_or_none(u) == Some(a@),
        None => m.app_id_or_none(u) == None::<Seq<char>>,
    })
    &&& row.to_label@ == m.label_or_empty(e.target)
    &&& (match row.to_app_id {
        Some(a) => m.app_id_or_none(e.target) == Some(a@),
        None => m.app_id_or_none(e.target) == None::<Seq<char>>,
    })
    &&& (e.rel_type < m.rel_count() ==> row.rel_type@ == m.rel_names[e.rel_type as int])
    &&& (e.rel_type >= m.rel_count() ==> row.rel_type@ == "UNKNOWN"@)
}

/// The rows realize the qualifying pairs, one to one and in order.
pub open spec fn rows_match(
    m: GraphModel,
    pairs: Seq<(NodeId, Edge)>,
    rows: Seq<SubgraphEdge>,
) -> bool {
    &&& rows.len() == pairs.len()
    &&& forall|i: int|
        0 <= i < rows.len() ==> row_ok(m, (#[trigger] pairs[i]).0, pairs[i].1, rows[i])
}

/// A discovery order of the subgraph: each discovered node once, the start
/// first, covering exactly the nodes in the subgraph.
pub open spec fn order_ok(
    m: GraphModel,
    dir: TraversalDirection,
    mc: Option<u32>,
    start: NodeId,
    max_depth: u32,
    order: Seq<NodeId>,
) -> bool {
    &&& order.no_duplicates()
    &&& order.len() >= 1
    &&& order[0] == start
    &&& forall|v: NodeId| #[trigger]
        order.contains(v) <==> in_sub(m, dir, mc, start, max_depth, v)
}

/// Extract the subgraph reachable from `start` within `max_depth` hops:
/// the discovered node count, and one row for each stored outgoing edge
/// whose confidence passes and whose endpoints are both discovered
/// (outgoing lists only, so no edge is reported twice).
pub fn extract_subgraph(
    g: &Graph,
    start: NodeId,
    max_depth: u32,
    dir: TraversalDirection,
    mc: Option<u32>,
) -> (r: SubgraphResult)
    ensures
        !g@.has_node(start) ==> r.node_count == 0 && r.edges@.len() == 0,
        g@.has_node(start) ==> {
            &&& r.node_count >= 1
            &&& exists|order: Seq<NodeId>|
                {
                    &&& #[trigger] order_ok(g@, dir, mc, start, max_depth, order)
                    &&& r.node_count == order.len()
                    &&& rows_match(g@, sub_pairs(g@, dir, mc, start, max_depth, order), r.edges@)
                }
            &&& forall|i: int|
                0 <= i < r.edges@.len() ==> in_sub(
                    g@,
                    dir,
                    mc,
                    start,
                    max_depth,
                    (#[trigger] r.edges@[i]).from_id,
                ) && in_sub(g@, dir, mc, start, max_depth, r.edges@[i].to_id)
        },
{
    let ghost m = g@;
    if g.node(start).is_none() {
        return SubgraphResult { node_count: 0, edges: Vec::new() };
    }
    let excl_n: Vec<NodeId> = Vec::new();
    let excl_e: Vec<(NodeId, NodeId)> = Vec::new();
    let (visited, order) = bfs_core(g, start, max_depth, dir, mc, &excl_n, &excl_e);
    let ghost x = excl_of(excl_n@, excl_e@);
    proof {
        assert(x.nodes =~= Set::<NodeId>::empty());
        assert(x.edges =~= Set::<(NodeId, NodeId)>::empty());
        assert(x == Exclusions::none());
        assert(order_ok(m, dir, mc, start, max_depth, order@)) by {
            assert forall|v: NodeId| #[trigger]
                order@.contains(v) <==> in_sub(m, dir, mc, start, max_depth, v) by {
                if order@.contains(v) {
                    let i = choose|i: int| 0 <= i < order@.len() && order@[i] == v;
                    assert(visited@.contains_key(v));
                    assert(reach(m, x, dir, mc, start, v, visited@[v].dist as nat));
                    crate::reachability::lemma_reach_mono(
                        m,
                        x,
                        dir,
                        mc,
                        start,
                        v,
                        visited@[v].dist as nat,
                        max_depth as nat,
                    );
                }
                if in_sub(m, dir, mc, start, max_depth, v) {
                    assert(visited@.contains_key(v));
                }
            }
        }
    }
    let mut edges: Vec<SubgraphEdge> = Vec::new();
    let n = order.len();
    for i in 0..n
        invariant
            m == g@,
            x == Exclusions::none(),
            bfs_post(m, x, dir, mc, start, max_depth, visited@, order@),
            n == order@.len(),
            rows_match(m, sub_pairs(m, dir, mc, start, max_depth, order@.take(i as int)), edges@),
    {
        let u = order[i];
        let out = g.neighbors_out(u);
        let olen = out.len();
        let ghost pairs0 = sub_pairs(m, dir, mc, start, max_depth, order@.take(i as int));
        for j in 0..olen
            invariant
                m == g@,
                x == Exclusions::none(),
                bfs_post(m, x, dir, mc, start, max_depth, visited@, order@),
                n == order@.len(),
                0 <= i < n,
                u == order@[i as int],
                olen == out@.len(),
                out@ == m.out_edges(u),
                pairs0 == sub_pairs(m, dir, mc, start, max_depth, order@.take(i as int)),
                rows_match(
                    m,
                    pairs0 + sub_pairs_node(m, dir, mc, start, max_depth, u, out@.take(j as int)),
                    edges@,
                ),
        {
            let e = out[j];
            if conf_passes(e.confidence, mc) && visited.contains_key(&e.target) {
                proof {
                    assert(reach(m, x, dir, mc, start, e.target, visited@[e.target].dist as nat));
                    crate::reachability::lemma_reach_mono(
                        m,
                        x,
                        dir,
                        mc,
                        start,
                        e.target,
                        visited@[e.target].dist as nat,
                        max_depth as nat,
                    );
                    assert(in_sub(m, dir, mc, start, max_depth, e.target));
                }
                let (from_label, from_app_id) = match g.node(u) {
                    Some(info) => (info.label.clone(), clone_opt_str(&info.app_id)),
                    None => (String::new(), None),
                };
                let (to_label, to_app_id) = match g.node(e.target) {
                    Some(info) => (info.label.clone(), clone_opt_str(&info.app_id)),
                    None => (String::new(), None),
                };
                let rel_type: String = match g.rel_type_name(e.rel_type) {
                    Some(s) => s.to_owned(),
                    None => "UNKNOWN".to_owned(),
                };
                let row = SubgraphEdge {
                    from_id: u,
                    from_label,
                    from_app_id,
                    to_id: e.target,
                    to_label,
                    to_app_id,
                    rel_type,
                };
                proof {
                    assert(row_ok(m, u, e, row));
                }
                edges.push(row);
            } else {
                proof {
                    if passes(e.confidence, mc) && in_sub(m, dir, mc, start, max_depth, e.target) {
                        assert(visited@.contains_key(e.target));
                    }
                }
            }
            proof {
                assert(out@.take(j + 1).drop_last() =~= out@.take(j as int));
                assert(out@.take(j + 1).last() == out@[j as int]);
                let sp1 = sub_pairs_node(m, dir, mc, start, max_depth, u, out@.take(j + 1));
                let sp0 = sub_pairs_node(m, dir, mc, start, max_depth, u, out@.take(j as int));
                if passes(e.confidence, mc) && in_sub(m, dir, mc, start, max_depth, e.target) {
                    assert(sp1 =~= sp0 + seq![(u, e)]);
                    assert(rows_match(m, pairs0 + sp1, edges@)) by {
                        assert((pairs0 + sp1) =~= (pairs0 + sp0).push((u, e)));
                        assert(edges@.last() == edges@[edges@.len() - 1]);
                    }
                } else {
                    assert(sp1 =~= sp0);
                }
            }
        }
        proof {
            assert(out@.take(olen as int) =~= out@);
            assert(order@.take(i + 1).drop_last() =~= order@.take(i as int));
            assert(order@.take(i + 1).last() == order@[i as int]);
            assert(sub_pairs(m, dir, mc, start, max_depth, order@.take(i + 1)) == sub_pairs(
                m,
                dir,
                mc,
                start,
                max_depth,
                order@.take(i as int),
            ) + sub_pairs_node(m, dir, mc, start, max_depth, u, m.out_edges(u)));
        }
    }
    proof {
        assert(order@.take(n as int) =~= order@);
    }
    let count = order.len();
    proof {
        let pairs = sub_pairs(m, dir, mc, start, max_depth, order@);
        lemma_sub_pairs_sound(m, dir, mc, start, max_depth, order@);
        assert forall|i: int|
            0 <= i < edges@.len() implies in_sub(
            m,
            dir,
            mc,
            start,
            max_depth,
            (#[trigger] edges@[i]).from_id,
        ) && in_sub(m, dir, mc, start, max_depth, edges@[i].to_id) by {
            assert(row_ok(m, pairs[i].0, pairs[i].1, edges@[i]));
            assert(order@.contains(pairs[i].0) && passes(pairs[i].1.confidence, mc) && in_sub(
                m,
                dir,
                mc,
                start,
                max_depth,
                pairs[i].1.target,
            ));
            assert(order_ok(m, dir, mc, start, max_depth, order@));
        }
    }
    SubgraphResult { node_count: count, edges }
}

/// Every qualifying pair names a discovered source node, a passing
/// confidence and a discovered target.
proof fn lemma_sub_pairs_sound(
    m: GraphModel,
    dir: TraversalDirection,
    mc: Option<u32>,
    start: NodeId,
    max_depth: u32,
    order: Seq<NodeId>,
)
    ensures
        forall|i: int|
            0 <= i < sub_pairs(m, dir, mc, start, max_depth, order).len() ==> {
                let p = #[trigger] sub_pairs(m, dir, mc, start, max_depth, order)[i];
                &&& order.contains(p.0)
                &&& passes(p.1.confidence, mc)
                &&& in_sub(m, dir, mc, start, max_depth, p.1.target)
            },
    decreases order.len(),
{
    if order.len() > 0 {
        lemma_sub_pairs_sound(m, dir, mc, start, max_depth, order.drop_last());
        let u = order.last();
        lemma_sub_pairs_node_sound(m, dir, mc, start, max_depth, u, m.out_edges(u));
        let rest = sub_pairs(m, dir, mc, start, max_depth, order.drop_last());
        let own = sub_pairs_node(m, dir, mc, start, max_depth, u, m.out_edges(u));
        assert forall|i: int|
            0 <= i < sub_pairs(m, dir, mc, start, max_depth, order).len() implies {
            let p = #[trigger] sub_pairs(m, dir, mc, start, max_depth, order)[i];
            &&& order.contains(p.0)
            &&& passes(p.1.confidence, mc)
            &&& in_sub(m, dir, mc, start, max_depth, p.1.target)
        } by {
            let p = sub_pairs(m, dir, mc, start, max_depth, order)[i];
            if i < rest.len() {
                assert(p == rest[i]);
                assert(order.drop_last().contains(p.0));
                let t = choose|t: int|
                    0 <= t < order.drop_last().len() && order.drop_last()[t] == p.0;
                assert(order[t] == p.0);
            } else {
                assert(p == own[i - rest.len()]);
                assert(order[order.len() - 1] == u);
            }
        }
    }
}

/// Every pair of one node's contribution carries that node and one of its
/// qualifying outgoing entries.
proof fn lemma_sub_pairs_node_sound(
    m: GraphModel,
    dir: TraversalDirection,
    mc: Option<u32>,
    start: NodeId,
    max_depth: u32,
    u: NodeId,
    s: Seq<Edge>,
)
    ensures
        forall|i: int|
            0 <= i < sub_pairs_node(m, dir, mc, start, max_depth, u, s).len() ==> {
                let p = #[trigger] sub_pairs_node(m, dir, mc, start, max_depth, u, s)[i];
                &&& p.0 == u
                &&& passes(p.1.confidence, mc)
                &&& in_sub(m, dir, mc, start, max_depth, p.1.target)
            },
    decreases s.len(),
{
    if s.len() > 0 {
        lemma_sub_pairs_node_sound(m, dir, mc, start, max_depth, u, s.drop_last());
    }
}

fn clone_opt_str(o: &Option<String>) -> (r: Option<String>)
    ensures
        r == *o,
{
    match o {
        Some(s) => Some(s.clone()),
        None => None,
    }
}

} // verus!
