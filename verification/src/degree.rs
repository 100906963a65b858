//! Degree centrality: every registered node with its out-, in- and total
//! degree, sorted by total degree descending with node id ascending as the
//! tie-break, optionally truncated to the top entries.

use vstd::prelude::*;

use crate::graph::{Graph, GraphModel, NodeId};

verus! {

/// Degree information for a single node.
#[derive(Debug)]
pub struct DegreeResult {
    pub node_id: NodeId,
    pub label: String,
    pub app_id: Option<String>,
    pub out_degree: u32,
    pub in_degree: u32,
    pub total_degree: u32,
}

/// The sort order: total degree descending, then node id ascending.
pub open spec fn deg_le(a: DegreeResult, b: DegreeResult) -> bool {
    a.total_degree > b.total_degree || (a.total_degree == b.total_degree && a.node_id <= b.node_id)
}

/// A count capped at the largest representable value.
pub open spec fn capped(n: nat) -> nat {
    if n > u32::MAX {
        u32::MAX as nat
    } else {
        n
    }
}

/// A degree row is correct for its node.
pub open spec fn degree_row_ok(m: GraphModel, d: DegreeResult) -> bool {
    &&& m.has_node(d.node_id)
    &&& d.out_degree as nat == capped(m.out_edges(d.node_id).len())
    &&& d.in_degree as nat == capped(m.in_edges(d.node_id).len())
    &&& d.total_degree as nat == capped(
        m.out_edges(d.node_id).len() + m.in_edges(d.node_id).len(),
    )
    &&& d.label@ == m.label_or_empty(d.node_id)
    &&& (match d.app_id {
        Some(a) => m.app_id_or_none(d.node_id) == Some(a@),
        None => m.app_id_or_none(d.node_id) == None::<Seq<char>>,
    })
}

/// The node ids of a sequence of degree rows.
pub open spec fn deg_ids(s: Seq<DegreeResult>) -> Seq<NodeId> {
    s.map(|i: int, d: DegreeResult| d.node_id)
}

/// Sorted by total degree descending, node id ascending.
pub open spec fn deg_sorted(s: Seq<DegreeResult>) -> bool {
    forall|i: int, j: int| 0 <= i < j < s.len() ==> deg_le(#[trigger] s[i], #[trigger] s[j])
}

/// The degree ranking is unique up to the model: two sorted,
/// duplicate-free rankings of the same node set whose rows are correct
/// carry the same nodes and degrees in the same positions. Combined with
/// the ensures of `degree_centrality` (whose result is a prefix of such a
/// ranking), a truncated call returns exactly the first rows of the full
/// one.
pub proof fn lemma_degree_ranking_unique(
    m: GraphModel,
    s1: Seq<DegreeResult>,
    s2: Seq<DegreeResult>,
)
    requires
        deg_sorted(s1),
        deg_sorted(s2),
        deg_ids(s1).no_duplicates(),
        deg_ids(s2).no_duplicates(),
        forall|v: NodeId| deg_ids(s1).contains(v) <==> deg_ids(s2).contains(v),
        forall|i: int| 0 <= i < s1.len() ==> degree_row_ok(m, #[trigger] s1[i]),
        forall|i: int| 0 <= i < s2.len() ==> degree_row_ok(m, #[trigger] s2[i]),
    ensures
        s1.len() == s2.len(),
        forall|i: int|
            0 <= i < s1.len() ==> {
                &&& (#[trigger] s1[i]).node_id == s2[i].node_id
                &&& s1[i].out_degree == s2[i].out_degree
                &&& s1[i].in_degree == s2[i].in_degree
                &&& s1[i].total_degree == s2[i].total_degree
            },
    decreases s1.len(),
{
    if s1.len() == 0 {
        if s2.len() > 0 {
            assert(deg_ids(s2)[0] == s2[0].node_id);
            assert(deg_ids(s2).contains(s2[0].node_id));
            assert(deg_ids(s1).contains(s2[0].node_id));
        }
    } else {
        let a = s1[0];
        assert(deg_ids(s1)[0] == a.node_id);
        assert(deg_ids(s1).contains(a.node_id));
        assert(deg_ids(s2).contains(a.node_id));
        let j2 = choose|j: int| 0 <= j < s2.len() && (#[trigger] deg_ids(s2)[j]) == a.node_id;
        assert(s2.len() > 0);
        let b = s2[0];
        assert(deg_ids(s2)[0] == b.node_id);
        assert(deg_ids(s2).contains(b.node_id));
        assert(deg_ids(s1).contains(b.node_id));
        let j1 = choose|j: int| 0 <= j < s1.len() && (#[trigger] deg_ids(s1)[j]) == b.node_id;
        // the heads carry the same node: each head ranks no worse than the
        // other's node, and rows with one id have one set of degrees
        assert(s2[j2].node_id == a.node_id);
        assert(s2[j2].total_degree == a.total_degree);
        assert(s1[j1].node_id == b.node_id);
        assert(s1[j1].total_degree == b.total_degree);
        assert(deg_le(b, s2[j2])) by {
            if j2 > 0 {
                assert(deg_le(s2[0], s2[j2]));
            }
        }
        assert(deg_le(a, s1[j1])) by {
            if j1 > 0 {
                assert(deg_le(s1[0], s1[j1]));
            }
        }
        assert(a.node_id == b.node_id && a.total_degree == b.total_degree);
        assert(a.out_degree == b.out_degree && a.in_degree == b.in_degree);
        // the tails rank the remaining nodes
        let t1 = s1.subrange(1, s1.len() as int);
        let t2 = s2.subrange(1, s2.len() as int);
        assert(deg_ids(t1) =~= deg_ids(s1).subrange(1, s1.len() as int));
        assert(deg_ids(t2) =~= deg_ids(s2).subrange(1, s2.len() as int));
        assert forall|v: NodeId| deg_ids(t1).contains(v) <==> deg_ids(t2).contains(v) by {
            if deg_ids(t1).contains(v) {
                let i = choose|i: int| 0 <= i < t1.len() && (#[trigger] deg_ids(t1)[i]) == v;
                assert(deg_ids(s1)[i + 1] == v);
                assert(v != a.node_id) by {
                    assert(deg_ids(s1)[0] == a.node_id);
                }
                assert(deg_ids(s1).contains(v));
                assert(deg_ids(s2).contains(v));
                let j = choose|j: int| 0 <= j < s2.len() && (#[trigger] deg_ids(s2)[j]) == v;
                assert(j != 0);
                assert(deg_ids(t2)[j - 1] == v);
                assert(deg_ids(t2).contains(v));
            }
            if deg_ids(t2).contains(v) {
                let i = choose|i: int| 0 <= i < t2.len() && (#[trigger] deg_ids(t2)[i]) == v;
                assert(deg_ids(s2)[i + 1] == v);
                assert(v != b.node_id) by {
                    assert(deg_ids(s2)[0] == b.node_id);
                }
                assert(deg_ids(s2).contains(v));
                assert(deg_ids(s1).contains(v));
                let j = choose|j: int| 0 <= j < s1.len() && (#[trigger] deg_ids(s1)[j]) == v;
                assert(j != 0);
                assert(deg_ids(t1)[j - 1] == v);
                assert(deg_ids(t1).contains(v));
            }
        }
        assert forall|i: int, j: int|
            0 <= i < j < t1.len() implies deg_le(#[trigger] t1[i], #[trigger] t1[j]) by {
            assert(t1[i] == s1[i + 1] && t1[j] == s1[j + 1]);
            assert(deg_le(s1[i + 1], s1[j + 1]));
        }
        assert forall|i: int, j: int|
            0 <= i < j < t2.len() implies deg_le(#[trigger] t2[i], #[trigger] t2[j]) by {
            assert(t2[i] == s2[i + 1] && t2[j] == s2[j + 1]);
            assert(deg_le(s2[i + 1], s2[j + 1]));
        }
        assert forall|i: int, j: int|
            0 <= i < j < deg_ids(t1).len() implies deg_ids(t1)[i] != deg_ids(t1)[j] by {
            assert(deg_ids(s1)[i + 1] != deg_ids(s1)[j + 1]);
        }
        assert forall|i: int, j: int|
            0 <= i < j < deg_ids(t2).len() implies deg_ids(t2)[i] != deg_ids(t2)[j] by {
            assert(deg_ids(s2)[i + 1] != deg_ids(s2)[j + 1]);
        }
        assert forall|i: int| 0 <= i < t1.len() implies degree_row_ok(m, #[trigger] t1[i]) by {
            assert(t1[i] == s1[i + 1]);
        }
        assert forall|i: int| 0 <= i < t2.len() implies degree_row_ok(m, #[trigger] t2[i]) by {
            assert(t2[i] == s2[i + 1]);
        }
        lemma_degree_ranking_unique(m, t1, t2);
        assert forall|i: int| 0 <= i < s1.len() implies {
            &&& (#[trigger] s1[i]).node_id == s2[i].node_id
            &&& s1[i].out_degree == s2[i].out_degree
            &&& s1[i].in_degree == s2[i].in_degree
            &&& s1[i].total_degree == s2[i].total_degree
        } by {
            if i > 0 {
                assert(s1[i] == t1[i - 1] && s2[i] == t2[i - 1]);
            }
        }
    }
}

fn cap_usize(n: usize) -> (r: u32)
    ensures
        r as nat == capped(n as nat),
{
    if n > u32::MAX as usize {
        u32::MAX
    } else {
        n as u32
    }
}

/// Return nodes ranked by degree. If `top_n` is zero every node is
/// returned; otherwise the `top_n` best-ranked nodes. The rows are sorted
/// by total degree descending with node id ascending as the tie-break, and
/// are a prefix of the full ranking, so truncation keeps the order.
pub fn degree_centrality(g: &Graph, top_n: usize) -> (r: Vec<DegreeResult>)
    requires
        g.wf(),
    ensures
        forall|i: int| 0 <= i < r@.len() ==> degree_row_ok(g@, #[trigger] r@[i]),
        deg_sorted(r@),
        deg_ids(r@).no_duplicates(),
        r@.len() == if top_n > 0 && top_n < g@.node_order.len() {
            top_n as int
        } else {
            g@.node_order.len() as int
        },
        exists|full: Seq<DegreeResult>|
            {
                &&& full.len() == g@.node_order.len()
                &&& #[trigger] deg_sorted(full)
                &&& deg_ids(full).no_duplicates()
                &&& forall|v: NodeId| g@.has_node(v) <==> #[trigger] deg_ids(full).contains(v)
                &&& forall|i: int| 0 <= i < full.len() ==> degree_row_ok(g@, #[trigger] full[i])
                &&& r@ == full.take(r@.len() as int)
            },
{
    let ghost m = g@;
    let mut rest: Vec<DegreeResult> = Vec::new();
    let n = g.node_count();
    for i in 0..n
        invariant
            m == g@,
            g.wf(),
            n == m.node_order.len(),
            rest@.len() == i,
            forall|t: int| 0 <= t < i ==> (#[trigger] rest@[t]).node_id == m.node_order[t],
            forall|t: int| 0 <= t < i ==> degree_row_ok(m, #[trigger] rest@[t]),
    {
        let id = g.node_order_at(i);
        let out_degree = cap_usize(g.neighbors_out(id).len());
        let in_degree = cap_usize(g.neighbors_in(id).len());
        let total = {
            let a = g.neighbors_out(id).len();
            let b = g.neighbors_in(id).len();
            if a <= usize::MAX - b {
                cap_usize(a + b)
            } else {
                u32::MAX
            }
        };
        proof {
            assert(m.node_order.contains(id)) by {
                assert(m.node_order[i as int] == id);
            }
            assert(m.has_node(id));
        }
        let (label, app_id) = match g.node(id) {
            Some(info) => (info.label.clone(), clone_opt_s(&info.app_id)),
            None => (String::new(), None),
        };
        let row = DegreeResult {
            node_id: id,
            label,
            app_id,
            out_degree,
            in_degree,
            total_degree: total,
        };
        proof {
            assert(degree_row_ok(m, row));
        }
        rest.push(row);
    }
    // Selection sort: repeatedly move the best-ranked remaining row over.
    let mut sorted: Vec<DegreeResult> = Vec::new();
    proof {
        assert forall|v: NodeId|
            m.has_node(v) <==> #[trigger] deg_ids(rest@).contains(v) by {
            if m.has_node(v) {
                assert(m.node_order.contains(v));
                let t = choose|t: int| 0 <= t < m.node_order.len() && m.node_order[t] == v;
                assert(deg_ids(rest@)[t] == v);
            }
            if deg_ids(rest@).contains(v) {
                let t = choose|t: int| 0 <= t < deg_ids(rest@).len() && deg_ids(rest@)[t] == v;
                assert(rest@[t].node_id == m.node_order[t]);
                assert(m.node_order.contains(m.node_order[t]));
            }
        }
        assert forall|a: int, b: int|
            0 <= a < b < deg_ids(rest@).len() implies deg_ids(rest@)[a] != deg_ids(rest@)[b] by {
            assert(rest@[a].node_id == m.node_order[a]);
            assert(rest@[b].node_id == m.node_order[b]);
        }
    }
    while rest.len() > 0
        invariant
            m == g@,
            n == m.node_order.len(),
            sorted@.len() + rest@.len() == n,
            forall|t: int| 0 <= t < sorted@.len() ==> degree_row_ok(m, #[trigger] sorted@[t]),
            forall|t: int| 0 <= t < rest@.len() ==> degree_row_ok(m, #[trigger] rest@[t]),
            deg_sorted(sorted@),
            forall|a: int, b: int|
                0 <= a < sorted@.len() && 0 <= b < rest@.len() ==> deg_le(
                    #[trigger] sorted@[a],
                    #[trigger] rest@[b],
                ),
            forall|v: NodeId|
                m.has_node(v) <==> (#[trigger] deg_ids(sorted@).contains(v) || #[trigger] deg_ids(
                    rest@,
                ).contains(v)),
            deg_ids(sorted@).no_duplicates(),
            deg_ids(rest@).no_duplicates(),
            forall|a: int, b: int|
                0 <= a < sorted@.len() && 0 <= b < rest@.len() ==> (#[trigger] sorted@[a]).node_id
                    != (#[trigger] rest@[b]).node_id,
        decreases rest@.len(),
    {
        let mut best: usize = 0;
        let rlen = rest.len();
        for ci in 1..rlen
            invariant
                rlen == rest@.len(),
                rlen >= 1,
                best < ci,
                forall|t: int|
                    0 <= t < ci ==> deg_le(rest@[best as int], #[trigger] rest@[t]),
        {
            let swap = {
                let a = &rest[ci];
                let b = &rest[best];
                a.total_degree > b.total_degree || (a.total_degree == b.total_degree && a.node_id
                    < b.node_id)
            };
            if swap {
                best = ci;
            }
        }
        let ghost rest0 = rest@;
        let ghost sorted0 = sorted@;
        let chosen = rest.remove(best);
        proof {
            assert(chosen == rest0[best as int]);
            assert(rest@ == rest0.remove(best as int));
            assert forall|ci: int|
                0 <= ci < rest@.len() implies (#[trigger] rest@[ci]) == (if ci < best as int {
                rest0[ci]
            } else {
                rest0[ci + 1]
            }) by {}
        }
        sorted.push(chosen);
        proof {
            assert forall|a: int, b: int|
                0 <= a < b < sorted@.len() implies deg_le(
                #[trigger] sorted@[a],
                #[trigger] sorted@[b],
            ) by {
                if b < sorted@.len() - 1 {
                    assert(sorted@[a] == sorted0[a]);
                    assert(sorted@[b] == sorted0[b]);
                } else {
                    assert(sorted@[b] == chosen);
                    if a < sorted@.len() - 1 {
                        assert(sorted@[a] == sorted0[a]);
                        assert(deg_le(sorted0[a], rest0[best as int]));
                    }
                }
            }
            assert forall|v: NodeId|
                m.has_node(v) <==> (#[trigger] deg_ids(sorted@).contains(v) || #[trigger] deg_ids(
                rest@,
            ).contains(v)) by {
                if m.has_node(v) {
                    if deg_ids(sorted0).contains(v) {
                        let t = choose|t: int|
                            0 <= t < sorted0.len() && deg_ids(sorted0)[t] == v;
                        assert(deg_ids(sorted@)[t] == v);
                    } else {
                        assert(deg_ids(rest0).contains(v));
                        let t = choose|t: int| 0 <= t < rest0.len() && deg_ids(rest0)[t] == v;
                        if t == best as int {
                            assert(deg_ids(sorted@)[sorted@.len() - 1] == v);
                        } else if t < best as int {
                            assert(deg_ids(rest@)[t] == v);
                        } else {
                            assert(deg_ids(rest@)[t - 1] == v);
                        }
                    }
                }
                if deg_ids(sorted@).contains(v) {
                    let t = choose|t: int|
                        0 <= t < sorted@.len() && deg_ids(sorted@)[t] == v;
                    if t < sorted@.len() - 1 {
                        assert(deg_ids(sorted0)[t] == v);
                        assert(deg_ids(sorted0).contains(v));
                    } else {
                        assert(deg_ids(rest0)[best as int] == v);
                        assert(deg_ids(rest0).contains(v));
                    }
                }
                if deg_ids(rest@).contains(v) {
                    let t = choose|t: int| 0 <= t < rest@.len() && deg_ids(rest@)[t] == v;
                    if t < best as int {
                        assert(deg_ids(rest0)[t] == v);
                        assert(deg_ids(rest0).contains(v));
                    } else {
                        assert(deg_ids(rest0)[t + 1] == v);
                        assert(deg_ids(rest0).contains(v));
                    }
                }
            }
            assert forall|a: int, b: int|
                0 <= a < b < deg_ids(sorted@).len() implies deg_ids(sorted@)[a] != deg_ids(
                sorted@,
            )[b] by {
                if b < sorted@.len() - 1 {
                    assert(deg_ids(sorted0)[a] == deg_ids(sorted@)[a]);
                    assert(deg_ids(sorted0)[b] == deg_ids(sorted@)[b]);
                } else {
                    assert(sorted@[b] == chosen);
                    assert(sorted@[a] == sorted0[a]);
                    assert(sorted0[a].node_id != rest0[best as int].node_id);
                }
            }
            assert forall|a: int, b: int|
                0 <= a < b < deg_ids(rest@).len() implies deg_ids(rest@)[a] != deg_ids(rest@)[b] by {
                let a0 = if a < best as int {
                    a
                } else {
                    a + 1
                };
                let b0 = if b < best as int {
                    b
                } else {
                    b + 1
                };
                assert(deg_ids(rest0)[a0] == deg_ids(rest@)[a]);
                assert(deg_ids(rest0)[b0] == deg_ids(rest@)[b]);
            }
            assert forall|a: int, b: int|
                0 <= a < sorted@.len() && 0 <= b < rest@.len() implies (
            #[trigger] sorted@[a]).node_id != (#[trigger] rest@[b]).node_id by {
                let b0 = if b < best as int {
                    b
                } else {
                    b + 1
                };
                assert(rest@[b] == rest0[b0]);
                if a < sorted@.len() - 1 {
                    assert(sorted@[a] == sorted0[a]);
                } else {
                    assert(sorted@[a] == chosen);
                    assert(deg_ids(rest0)[best as int] != deg_ids(rest0)[b0]) by {
                        if (best as int) < b0 {
                        } else {
                        }
                    }
                }
            }
            assert forall|a: int, b: int|
                0 <= a < sorted@.len() && 0 <= b < rest@.len() implies deg_le(
                #[trigger] sorted@[a],
                #[trigger] rest@[b],
            ) by {
                let b0 = if b < best as int {
                    b
                } else {
                    b + 1
                };
                assert(rest@[b] == rest0[b0]);
                if a < sorted@.len() - 1 {
                    assert(sorted@[a] == sorted0[a]);
                    assert(deg_le(sorted0[a], rest0[b0]));
                } else {
                    assert(sorted@[a] == chosen);
                    assert(deg_le(rest0[best as int], rest0[b0]));
                }
            }
        }
    }
    proof {
        assert(rest@.len() == 0);
        assert forall|v: NodeId| m.has_node(v) <==> #[trigger] deg_ids(sorted@).contains(v) by {
            if m.has_node(v) && !deg_ids(sorted@).contains(v) {
                assert(deg_ids(rest@).contains(v));
                let t = choose|t: int| 0 <= t < deg_ids(rest@).len() && deg_ids(rest@)[t] == v;
                assert(false);
            }
        }
    }
    let ghost full = sorted@;
    let keep = if top_n > 0 && top_n < sorted.len() {
        top_n
    } else {
        sorted.len()
    };
    sorted.truncate(keep);
    proof {
        assert(sorted@ =~= full.take(keep as int));
        assert forall|a: int, b: int|
            0 <= a < b < deg_ids(sorted@).len() implies deg_ids(sorted@)[a] != deg_ids(
            sorted@,
        )[b] by {
            assert(sorted@[a] == full[a]);
            assert(sorted@[b] == full[b]);
            assert(deg_ids(full)[a] != deg_ids(full)[b]);
        }
        assert(full.len() == m.node_order.len());
        assert({
            &&& full.len() == g@.node_order.len()
            &&& deg_sorted(full)
            &&& deg_ids(full).no_duplicates()
            &&& forall|v: NodeId| g@.has_node(v) <==> #[trigger] deg_ids(full).contains(v)
            &&& forall|i: int| 0 <= i < full.len() ==> degree_row_ok(g@, #[trigger] full[i])
            &&& sorted@ == full.take(sorted@.len() as int)
        });
    }
    sorted
}

fn clone_opt_s(o: &Option<String>) -> (r: Option<String>)
    ensures
        r == *o,
{
    match o {
        Some(s) => Some(s.clone()),
        None => None,
    }
}

} // verus!
