//! K-shortest loop-free paths by spur/root decomposition over the BFS
//! shortest-path search with node and edge exclusions.

use vstd::prelude::*;

use crate::graph::{Graph, GraphModel, NodeId, RelTypeId};
use crate::reachability::{
    dist_is, edge_at, lemma_path_reach, lemma_reach_mono, list_of, reach, step_tagged,
    tagged_path_ok, Direction, Exclusions, TraversalDirection,
};
use crate::traversal::{
    excl_of, ids_of, path_steps_ok, shortest_path, shortest_path_impl, step_meta_ok,
    tagged_steps_ok, PathStep,
};

verus! {

/// A correct entry of a k-shortest-paths result: a loop-free admissible
/// path from `start` to `target` within the hop bound, whose rows carry
/// node metadata and per-step relationship names and directions.
pub open spec fn yen_path_ok(
    m: GraphModel,
    dir: TraversalDirection,
    mc: Option<u32>,
    start: NodeId,
    target: NodeId,
    max_hops: u32,
    p: Seq<PathStep>,
) -> bool {
    &&& p.len() >= 1
    &&& p.len() - 1 <= max_hops
    &&& p[0].node_id == start
    &&& p.last().node_id == target
    &&& p[0].rel_type is None
    &&& p[0].direction is None
    &&& ids_of(p).no_duplicates()
    &&& forall|i: int| 0 <= i < p.len() ==> step_meta_ok(m, #[trigger] p[i])
    &&& exists|tags: Seq<(RelTypeId, Direction)>|
        tagged_steps_ok(m, Exclusions::none(), dir, mc, p, tags)
}

/// q runs through the same first s hops as root and continues past them.
pub open spec fn shares_root(q: Seq<PathStep>, root: Seq<PathStep>, s: int) -> bool {
    q.len() > s && forall|j: int| 0 <= j <= s ==> (#[trigger] q[j]).node_id == root[j].node_id
}

/// The exclusions of the final search round at spur index s: the first s
/// nodes of the last returned path, and the continuation edge at s of every
/// returned path that runs through the same first s hops.
pub open spec fn spur_exclusions(rs: Seq<Vec<PathStep>>, s: int) -> Exclusions {
    let last = rs[rs.len() - 1]@;
    Exclusions {
        nodes: Set::new(
            |v: NodeId| exists|t: int| 0 <= t < s && (#[trigger] last[t]).node_id == v,
        ),
        edges: Set::new(
            |pr: (NodeId, NodeId)|
                exists|pi: int|
                    0 <= pi < rs.len() && shares_root((#[trigger] rs[pi])@, last, s) && pr == (
                        rs[pi]@[s].node_id,
                        rs[pi]@[s + 1].node_id,
                    ),
        ),
    }
}

/// The final search round found nothing at spur index s: from that node of
/// the last returned path, no admissible path reaches the target within the
/// remaining hop budget once the exclusions of that round are in force.
pub open spec fn spur_blocked(
    m: GraphModel,
    dir: TraversalDirection,
    mc: Option<u32>,
    target: NodeId,
    max_hops: u32,
    rs: Seq<Vec<PathStep>>,
    s: int,
) -> bool {
    let last = rs[rs.len() - 1]@;
    !(m.has_node(last[s].node_id) && reach(
        m,
        spur_exclusions(rs, s),
        dir,
        mc,
        last[s].node_id,
        target,
        (max_hops - s) as nat,
    ))
}

/// Dropping the exclusions preserves a tagged step.
proof fn lemma_step_tagged_relax(
    m: GraphModel,
    x: Exclusions,
    dir: TraversalDirection,
    mc: Option<u32>,
    u: NodeId,
    v: NodeId,
    rt: RelTypeId,
    d: Direction,
)
    requires
        step_tagged(m, x, dir, mc, u, v, rt, d),
    ensures
        step_tagged(m, Exclusions::none(), dir, mc, u, v, rt, d),
{
    let i = choose|i: int| edge_at(m, dir, mc, u, v, d, i) && list_of(m, u, d)[i].rel_type == rt;
    assert(edge_at(m, dir, mc, u, v, d, i) && list_of(m, u, d)[i].rel_type == rt);
}

/// A satisfied result path spends at least the exact distance in hops.
proof fn lemma_yen_path_min(
    m: GraphModel,
    dir: TraversalDirection,
    mc: Option<u32>,
    start: NodeId,
    target: NodeId,
    max_hops: u32,
    d: nat,
    p: Seq<PathStep>,
)
    requires
        yen_path_ok(m, dir, mc, start, target, max_hops, p),
        dist_is(m, Exclusions::none(), dir, mc, start, target, d),
    ensures
        p.len() - 1 >= d,
{
    let tags = choose|tags: Seq<(RelTypeId, Direction)>|
        tagged_steps_ok(m, Exclusions::none(), dir, mc, p, tags);
    lemma_path_reach(m, Exclusions::none(), dir, mc, ids_of(p), tags);
    assert(ids_of(p)[0] == start);
    assert(ids_of(p).last() == target);
    if p.len() - 1 < d {
        lemma_reach_mono(
            m,
            Exclusions::none(),
            dir,
            mc,
            start,
            target,
            (p.len() - 1) as nat,
            (d - 1) as nat,
        );
    }
}

/// Clone one path row.
fn clone_step(s: &PathStep) -> (r: PathStep)
    ensures
        r == *s,
{
    PathStep {
        node_id: s.node_id,
        label: s.label.clone(),
        app_id: match &s.app_id {
            Some(a) => Some(a.clone()),
            None => None,
        },
        rel_type: match &s.rel_type {
            Some(a) => Some(a.clone()),
            None => None,
        },
        direction: s.direction,
    }
}

/// Whether two paths visit the same node sequence.
fn same_ids(a: &Vec<PathStep>, b: &Vec<PathStep>) -> (r: bool)
    ensures
        r == (ids_of(a@) == ids_of(b@)),
{
    if a.len() != b.len() {
        proof {
            assert(ids_of(a@).len() != ids_of(b@).len());
        }
        return false;
    }
    let n = a.len();
    for i in 0..n
        invariant
            n == a@.len(),
            n == b@.len(),
            forall|j: int| 0 <= j < i ==> (#[trigger] a@[j]).node_id == b@[j].node_id,
    {
        if a[i].node_id != b[i].node_id {
            proof {
                assert(ids_of(a@)[i as int] != ids_of(b@)[i as int]);
            }
            return false;
        }
    }
    proof {
        assert(ids_of(a@) =~= ids_of(b@));
    }
    true
}

/// Whether the pool already holds a path with this node sequence.
fn pool_contains(pool: &Vec<Vec<PathStep>>, cand: &Vec<PathStep>) -> (r: bool)
    ensures
        r == exists|i: int|
            0 <= i < pool@.len() && ids_of((#[trigger] pool@[i])@) == ids_of(cand@),
{
    let n = pool.len();
    for i in 0..n
        invariant
            n == pool@.len(),
            forall|j: int| 0 <= j < i ==> ids_of((#[trigger] pool@[j])@) != ids_of(cand@),
    {
        if same_ids(&pool[i], cand) {
            return true;
        }
    }
    false
}

/// Splicing a root prefix of an accepted path with a spur path found under
/// the matching exclusions yields another loop-free admissible path.
proof fn lemma_candidate_ok(
    m: GraphModel,
    dir: TraversalDirection,
    mc: Option<u32>,
    start: NodeId,
    target: NodeId,
    max_hops: u32,
    prev: Seq<PathStep>,
    spur_idx: int,
    x_spur: Exclusions,
    excl_nodes: Seq<NodeId>,
    remaining: u32,
    spur: Seq<PathStep>,
    cand: Seq<PathStep>,
)
    requires
        yen_path_ok(m, dir, mc, start, target, max_hops, prev),
        0 <= spur_idx < prev.len() - 1,
        x_spur.nodes == Set::new(|v: NodeId| excl_nodes.contains(v)),
        excl_nodes.len() == spur_idx,
        forall|t: int| 0 <= t < spur_idx ==> #[trigger] excl_nodes[t] == prev[t].node_id,
        remaining == max_hops - spur_idx,
        path_steps_ok(m, x_spur, dir, mc, prev[spur_idx].node_id, target, remaining, spur),
        cand == prev.take(spur_idx + 1) + spur.subrange(1, spur.len() as int),
    ensures
        yen_path_ok(m, dir, mc, start, target, max_hops, cand),
{
    let spur_node = prev[spur_idx].node_id;
    let slen = spur.len() as int;
    assert(ids_of(spur)[0] == spur[0].node_id);
    assert(ids_of(spur)[slen - 1] == spur.last().node_id);
    assert(spur[0].node_id == spur_node);
    assert(spur.last().node_id == target);
    assert(prev[spur_idx].node_id != target) by {
        assert(ids_of(prev)[spur_idx] == prev[spur_idx].node_id);
        assert(ids_of(prev)[prev.len() - 1] == prev.last().node_id);
    }
    assert(slen >= 2) by {
        if slen == 1 {
            assert(spur.last() == spur[0]);
        }
    }
    assert(cand.len() == spur_idx + slen);
    assert forall|j: int| 0 <= j <= spur_idx implies cand[j] == prev[j] by {
        assert(cand[j] == prev.take(spur_idx + 1)[j]);
    }
    assert forall|t: int| 1 <= t < slen implies cand[spur_idx + t] == spur[t] by {
        assert(cand[spur_idx + t] == spur.subrange(1, slen)[t - 1]);
    }
    assert(cand[0] == prev[0]);
    assert(cand[0].node_id == start);
    assert(cand.last() == spur[slen - 1]);
    assert(cand.last().node_id == target);
    assert(cand.len() - 1 <= max_hops) by {
        assert(slen - 1 <= remaining);
    }
    assert forall|i: int| 0 <= i < cand.len() implies step_meta_ok(m, #[trigger] cand[i]) by {
        if i <= spur_idx {
            assert(cand[i] == prev[i]);
        } else {
            assert(cand[i] == spur[i - spur_idx]);
        }
    }
    // node ids along the candidate: the root part holds excluded prev
    // nodes plus the spur node; the spur part repeats none of them.
    assert forall|i: int| spur_idx <= i < cand.len() implies (#[trigger] cand[i]).node_id == spur[
        i - spur_idx].node_id by {
        if i == spur_idx {
            assert(cand[i] == prev[spur_idx]);
        } else {
            assert(cand[i] == spur[i - spur_idx]);
        }
    }
    assert forall|a: int, b: int| 0 <= a < b < cand.len() implies ids_of(cand)[a] != ids_of(
        cand,
    )[b] by {
        assert(ids_of(cand)[a] == cand[a].node_id);
        assert(ids_of(cand)[b] == cand[b].node_id);
        if b <= spur_idx {
            assert(cand[a].node_id == prev[a].node_id);
            assert(cand[b].node_id == prev[b].node_id);
            assert(ids_of(prev)[a] == prev[a].node_id);
            assert(ids_of(prev)[b] == prev[b].node_id);
        } else if a >= spur_idx {
            assert(cand[a].node_id == spur[a - spur_idx].node_id);
            assert(cand[b].node_id == spur[b - spur_idx].node_id);
            assert(ids_of(spur)[a - spur_idx] == spur[a - spur_idx].node_id);
            assert(ids_of(spur)[b - spur_idx] == spur[b - spur_idx].node_id);
        } else {
            assert(a < spur_idx);
            assert(cand[a].node_id == prev[a].node_id);
            assert(cand[b].node_id == spur[b - spur_idx].node_id);
            assert(excl_nodes[a] == prev[a].node_id);
            assert(excl_nodes.contains(prev[a].node_id));
            assert(x_spur.nodes.contains(prev[a].node_id));
            assert(!x_spur.nodes.contains(spur[b - spur_idx].node_id));
        }
    }
    // tags: the root steps of the accepted path followed by the spur steps.
    let prev_tags = choose|tags: Seq<(RelTypeId, Direction)>|
        tagged_steps_ok(m, Exclusions::none(), dir, mc, prev, tags);
    let spur_tags = choose|tags: Seq<(RelTypeId, Direction)>|
        tagged_steps_ok(m, x_spur, dir, mc, spur, tags);
    let cand_tags = prev_tags.take(spur_idx) + spur_tags;
    assert(prev_tags.len() == prev.len() - 1);
    assert(spur_tags.len() == slen - 1);
    assert(cand_tags.len() == cand.len() - 1);
    assert(tagged_steps_ok(m, Exclusions::none(), dir, mc, cand, cand_tags)) by {
        assert(tagged_path_ok(m, Exclusions::none(), dir, mc, ids_of(cand), cand_tags)) by {
            assert(ids_of(cand).len() == cand.len());
            assert forall|j: int| 0 <= j < cand_tags.len() implies step_tagged(
                m,
                Exclusions::none(),
                dir,
                mc,
                ids_of(cand)[j],
                ids_of(cand)[j + 1],
                (#[trigger] cand_tags[j]).0,
                cand_tags[j].1,
            ) by {
                if j < spur_idx {
                    assert(cand_tags[j] == prev_tags[j]);
                    assert(ids_of(cand)[j] == cand[j].node_id);
                    assert(cand[j] == prev[j]);
                    assert(ids_of(cand)[j + 1] == cand[j + 1].node_id);
                    assert(cand[j + 1] == prev[j + 1]);
                    assert(ids_of(prev)[j] == prev[j].node_id);
                    assert(ids_of(prev)[j + 1] == prev[j + 1].node_id);
                    assert(step_tagged(
                        m,
                        Exclusions::none(),
                        dir,
                        mc,
                        ids_of(prev)[j],
                        ids_of(prev)[j + 1],
                        prev_tags[j].0,
                        prev_tags[j].1,
                    ));
                } else {
                    let t = j - spur_idx;
                    assert(cand_tags[j] == spur_tags[t]);
                    assert(ids_of(cand)[j] == cand[j].node_id);
                    assert(cand[j].node_id == spur[t].node_id);
                    assert(ids_of(cand)[j + 1] == cand[j + 1].node_id);
                    assert(cand[j + 1].node_id == spur[t + 1].node_id);
                    assert(ids_of(spur)[t] == spur[t].node_id);
                    assert(ids_of(spur)[t + 1] == spur[t + 1].node_id);
                    assert(step_tagged(
                        m,
                        x_spur,
                        dir,
                        mc,
                        ids_of(spur)[t],
                        ids_of(spur)[t + 1],
                        spur_tags[t].0,
                        spur_tags[t].1,
                    ));
                    lemma_step_tagged_relax(
                        m,
                        x_spur,
                        dir,
                        mc,
                        ids_of(spur)[t],
                        ids_of(spur)[t + 1],
                        spur_tags[t].0,
                        spur_tags[t].1,
                    );
                }
            }
        }
        assert forall|i: int| 1 <= i < cand.len() implies {
            let t = cand_tags[i - 1];
            &&& (#[trigger] cand[i]).direction == Some(t.1)
            &&& (t.0 < m.rel_count() ==> (cand[i].rel_type matches Some(s) && s@ == m.rel_names[t.0 as int]))
            &&& (t.0 >= m.rel_count() ==> cand[i].rel_type is None)
        } by {
            if i <= spur_idx {
                assert(cand[i] == prev[i]);
                assert(cand_tags[i - 1] == prev_tags[i - 1]);
            } else {
                let t = i - spur_idx;
                assert(cand[i] == spur[t]);
                assert(cand_tags[i - 1] == spur_tags[t - 1]);
            }
        }
    }
}

/// Up to `k` loop-free admissible paths from `start` to `target`, sorted
/// by hop count ascending. The first entry, when present, has exactly the
/// admissible distance; no two entries visit the same node sequence. The
/// result is empty exactly when `k` is zero, an endpoint is not
/// registered, or no admissible path exists within `max_hops`. When fewer
/// than `k` paths come back, the final search round found nothing more:
/// from every spur node of the last returned path, no admissible path
/// reaches the target within the remaining budget once that round's
/// exclusions (`spur_exclusions`, a function of the returned paths) are in
/// force.
#[verifier::rlimit(100)]
pub fn k_shortest_paths(
    g: &Graph,
    start: NodeId,
    target: NodeId,
    max_hops: u32,
    k: usize,
    dir: TraversalDirection,
    mc: Option<u32>,
) -> (r: Vec<Vec<PathStep>>)
    ensures
        r@.len() <= k,
        r@.len() >= 1 <==> (k >= 1 && g@.has_node(start) && g@.has_node(target) && reach(
            g@,
            Exclusions::none(),
            dir,
            mc,
            start,
            target,
            max_hops as nat,
        )),
        forall|pi: int|
            0 <= pi < r@.len() ==> yen_path_ok(
                g@,
                dir,
                mc,
                start,
                target,
                max_hops,
                (#[trigger] r@[pi])@,
            ),
        r@.len() >= 1 ==> dist_is(
            g@,
            Exclusions::none(),
            dir,
            mc,
            start,
            target,
            (r@[0]@.len() - 1) as nat,
        ),
        forall|pi: int, pj: int|
            0 <= pi < pj < r@.len() ==> (#[trigger] r@[pi])@.len() <= (#[trigger] r@[pj])@.len(),
        forall|pi: int, pj: int|
            0 <= pi < pj < r@.len() ==> ids_of((#[trigger] r@[pi])@) != ids_of(
                (#[trigger] r@[pj])@,
            ),
        r@.len() >= 1 && r@.len() < k ==> forall|s: int|
            0 <= s < r@[r@.len() - 1]@.len() - 1 ==> #[trigger] spur_blocked(
                g@,
                dir,
                mc,
                target,
                max_hops,
                r@,
                s,
            ),
{
    let ghost m = g@;
    let mut result: Vec<Vec<PathStep>> = Vec::new();
    if k == 0 {
        return result;
    }
    let first = match shortest_path(g, start, target, max_hops, dir, mc) {
        Some(p) => p,
        None => {
            return result;
        },
    };
    proof {
        assert(yen_path_ok(m, dir, mc, start, target, max_hops, first@));
    }
    result.push(first);
    let mut candidates: Vec<Vec<PathStep>> = Vec::new();
    let mut ki: usize = 1;
    while ki < k
        invariant
            m == g@,
            1 <= ki <= k,
            result@.len() == ki,
            g@.has_node(start),
            g@.has_node(target),
            dist_is(m, Exclusions::none(), dir, mc, start, target, (result@[0]@.len() - 1) as nat),
            forall|pi: int|
                0 <= pi < result@.len() ==> yen_path_ok(
                    m,
                    dir,
                    mc,
                    start,
                    target,
                    max_hops,
                    (#[trigger] result@[pi])@,
                ),
            forall|pi: int, pj: int|
                0 <= pi < pj < result@.len() ==> (#[trigger] result@[pi])@.len() <= (
                #[trigger] result@[pj])@.len(),
            forall|pi: int, pj: int|
                0 <= pi < pj < result@.len() ==> ids_of((#[trigger] result@[pi])@) != ids_of(
                    (#[trigger] result@[pj])@,
                ),
            forall|ci: int|
                0 <= ci < candidates@.len() ==> yen_path_ok(
                    m,
                    dir,
                    mc,
                    start,
                    target,
                    max_hops,
                    (#[trigger] candidates@[ci])@,
                ),
            forall|pi: int, ci: int|
                0 <= pi < result@.len() && 0 <= ci < candidates@.len() ==> ids_of(
                    (#[trigger] result@[pi])@,
                ) != ids_of((#[trigger] candidates@[ci])@),
            forall|ci: int, cj: int|
                0 <= ci < cj < candidates@.len() ==> ids_of((#[trigger] candidates@[ci])@)
                    != ids_of((#[trigger] candidates@[cj])@),
        ensures
            result@.len() < k ==> forall|s: int|
                0 <= s < result@[result@.len() - 1]@.len() - 1 ==> #[trigger] spur_blocked(
                    m,
                    dir,
                    mc,
                    target,
                    max_hops,
                    result@,
                    s,
                ),
        decreases k - ki,
    {
        let ghost prev = result@[ki - 1]@;
        proof {
            assert(yen_path_ok(m, dir, mc, start, target, max_hops, prev));
        }
        let prev_len = result[ki - 1].len();
        for spur_idx in 0..(prev_len - 1)
            invariant
                m == g@,
                1 <= ki <= k,
                result@.len() == ki,
                g@.has_node(start),
                g@.has_node(target),
                prev == result@[ki - 1]@,
                prev_len == prev.len(),
                yen_path_ok(m, dir, mc, start, target, max_hops, prev),
                forall|pi: int|
                    0 <= pi < result@.len() ==> yen_path_ok(
                        m,
                        dir,
                        mc,
                        start,
                        target,
                        max_hops,
                        (#[trigger] result@[pi])@,
                    ),
                forall|ci: int|
                    0 <= ci < candidates@.len() ==> yen_path_ok(
                        m,
                        dir,
                        mc,
                        start,
                        target,
                        max_hops,
                        (#[trigger] candidates@[ci])@,
                    ),
                forall|pi: int, ci: int|
                    0 <= pi < result@.len() && 0 <= ci < candidates@.len() ==> ids_of(
                        (#[trigger] result@[pi])@,
                    ) != ids_of((#[trigger] candidates@[ci])@),
                forall|ci: int, cj: int|
                    0 <= ci < cj < candidates@.len() ==> ids_of((#[trigger] candidates@[ci])@)
                        != ids_of((#[trigger] candidates@[cj])@),
                candidates@.len() > 0 || forall|s2: int|
                    0 <= s2 < spur_idx ==> #[trigger] spur_blocked(
                        m,
                        dir,
                        mc,
                        target,
                        max_hops,
                        result@,
                        s2,
                    ),
        {
            proof {
                assert(ids_of(prev)[spur_idx as int] == prev[spur_idx as int].node_id);
                assert(ids_of(prev)[prev.len() - 1] == prev.last().node_id);
                assert(prev[spur_idx as int].node_id != target);
                assert(prev.len() - 1 <= max_hops);
            }
            let mut root: Vec<PathStep> = Vec::new();
            for q in 0..(spur_idx + 1)
                invariant
                    spur_idx + 1 <= prev_len,
                    prev == result@[ki - 1]@,
                    prev_len == prev.len(),
                    result@.len() == ki,
                    1 <= ki,
                    root@.len() == q,
                    forall|t: int| 0 <= t < q ==> #[trigger] root@[t] == prev[t],
            {
                root.push(clone_step(&result[ki - 1][q]));
            }
            proof {
                assert(root@ =~= prev.take(spur_idx + 1));
            }
            let spur_node = root[spur_idx].node_id;
            let mut excl_nodes: Vec<NodeId> = Vec::new();
            for q in 0..spur_idx
                invariant
                    spur_idx < root@.len(),
                    root@ == prev.take(spur_idx + 1),
                    prev_len == prev.len(),
                    spur_idx + 1 <= prev_len,
                    excl_nodes@.len() == q,
                    forall|t: int| 0 <= t < q ==> #[trigger] excl_nodes@[t] == root@[t].node_id,
            {
                excl_nodes.push(root[q].node_id);
            }
            let mut excl_edges: Vec<(NodeId, NodeId)> = Vec::new();
            let rlen = result.len();
            for pi in 0..rlen
                invariant
                    m == g@,
                    rlen == result@.len(),
                    1 <= ki <= rlen,
                    spur_idx < root@.len(),
                    root@ == prev.take(spur_idx + 1),
                    spur_idx + 1 < prev_len,
                    prev_len == prev.len(),
                    prev == result@[ki - 1]@,
                    prev[spur_idx as int].node_id != target,
                    forall|pj: int|
                        0 <= pj < result@.len() ==> yen_path_ok(
                            m,
                            dir,
                            mc,
                            start,
                            target,
                            max_hops,
                            (#[trigger] result@[pj])@,
                        ),
                    forall|pr: (NodeId, NodeId)|
                        #[trigger] excl_edges@.contains(pr) <==> exists|pj: int|
                            0 <= pj < pi && shares_root(
                                (#[trigger] result@[pj])@,
                                prev,
                                spur_idx as int,
                            ) && pr == (
                                result@[pj]@[spur_idx as int].node_id,
                                result@[pj]@[spur_idx + 1].node_id,
                            ),
            {
                let ghost ee0 = excl_edges@;
                if prefix_matches(&result[pi], &root) {
                    proof {
                        let p = result@[pi as int]@;
                        assert(yen_path_ok(m, dir, mc, start, target, max_hops, p));
                        assert(p.len() >= root@.len());
                        if p.len() == spur_idx + 1 {
                            assert(p.last().node_id == target);
                            assert(p[spur_idx as int].node_id == root@[spur_idx as int].node_id);
                            assert(root@[spur_idx as int].node_id == prev[spur_idx as int].node_id);
                            assert(false);
                        }
                        assert(p.len() > spur_idx + 1);
                    }
                    excl_edges.push(
                        (result[pi][spur_idx].node_id, result[pi][spur_idx + 1].node_id),
                    );
                    proof {
                        let p = result@[pi as int]@;
                        let pair = (p[spur_idx as int].node_id, p[spur_idx + 1].node_id);
                        assert(excl_edges@ == ee0.push(pair));
                        assert(shares_root(p, prev, spur_idx as int)) by {
                            assert forall|j: int| 0 <= j <= spur_idx implies (
                            #[trigger] p[j]).node_id == prev[j].node_id by {
                                assert(p[j].node_id == root@[j].node_id);
                                assert(root@[j] == prev[j]);
                            }
                        }
                        assert forall|pr: (NodeId, NodeId)| #[trigger]
                            excl_edges@.contains(pr) <==> exists|pj: int|
                                0 <= pj < pi + 1 && shares_root(
                                    (#[trigger] result@[pj])@,
                                    prev,
                                    spur_idx as int,
                                ) && pr == (
                                    result@[pj]@[spur_idx as int].node_id,
                                    result@[pj]@[spur_idx + 1].node_id,
                                ) by {
                            if excl_edges@.contains(pr) {
                                let t = choose|t: int|
                                    0 <= t < excl_edges@.len() && excl_edges@[t] == pr;
                                if t < ee0.len() {
                                    assert(ee0[t] == pr);
                                    assert(ee0.contains(pr));
                                } else {
                                    assert(pr == pair);
                                }
                            }
                            if exists|pj: int|
                                0 <= pj < pi + 1 && shares_root(
                                    (#[trigger] result@[pj])@,
                                    prev,
                                    spur_idx as int,
                                ) && pr == (
                                    result@[pj]@[spur_idx as int].node_id,
                                    result@[pj]@[spur_idx + 1].node_id,
                                ) {
                                let pj = choose|pj: int|
                                    0 <= pj < pi + 1 && shares_root(
                                        (#[trigger] result@[pj])@,
                                        prev,
                                        spur_idx as int,
                                    ) && pr == (
                                        result@[pj]@[spur_idx as int].node_id,
                                        result@[pj]@[spur_idx + 1].node_id,
                                    );
                                if pj < pi as int {
                                    assert(ee0.contains(pr));
                                    let t = choose|t: int| 0 <= t < ee0.len() && ee0[t] == pr;
                                    assert(excl_edges@[t] == pr);
                                    assert(excl_edges@.contains(pr));
                                } else {
                                    assert(pr == pair);
                                    assert(excl_edges@.last() == pr);
                                    assert(excl_edges@.contains(pr));
                                }
                            }
                        }
                    }
                } else {
                    proof {
                        let p = result@[pi as int]@;
                        assert(!shares_root(p, prev, spur_idx as int)) by {
                            if shares_root(p, prev, spur_idx as int) {
                                assert(p.len() >= root@.len());
                                assert forall|j: int|
                                    0 <= j < root@.len() implies (#[trigger] p[j]).node_id
                                    == root@[j].node_id by {
                                    assert(root@[j] == prev[j]);
                                }
                            }
                        }
                        assert forall|pr: (NodeId, NodeId)| #[trigger]
                            excl_edges@.contains(pr) <==> exists|pj: int|
                                0 <= pj < pi + 1 && shares_root(
                                    (#[trigger] result@[pj])@,
                                    prev,
                                    spur_idx as int,
                                ) && pr == (
                                    result@[pj]@[spur_idx as int].node_id,
                                    result@[pj]@[spur_idx + 1].node_id,
                                ) by {
                            if exists|pj: int|
                                0 <= pj < pi + 1 && shares_root(
                                    (#[trigger] result@[pj])@,
                                    prev,
                                    spur_idx as int,
                                ) && pr == (
                                    result@[pj]@[spur_idx as int].node_id,
                                    result@[pj]@[spur_idx + 1].node_id,
                                ) {
                                let pj = choose|pj: int|
                                    0 <= pj < pi + 1 && shares_root(
                                        (#[trigger] result@[pj])@,
                                        prev,
                                        spur_idx as int,
                                    ) && pr == (
                                        result@[pj]@[spur_idx as int].node_id,
                                        result@[pj]@[spur_idx + 1].node_id,
                                    );
                                assert(pj < pi as int);
                            }
                        }
                    }
                }
            }
            proof {
                assert(spur_idx < max_hops);
            }
            let remaining: u32 = max_hops - (spur_idx as u32);
            let ghost x_spur = excl_of(excl_nodes@, excl_edges@);
            proof {
                let sx = spur_exclusions(result@, spur_idx as int);
                assert(result@[result@.len() - 1]@ == prev);
                assert(x_spur.nodes =~= sx.nodes) by {
                    assert forall|v: NodeId|
                        excl_nodes@.contains(v) <==> exists|t: int|
                            0 <= t < spur_idx && (#[trigger] prev[t]).node_id == v by {
                        if excl_nodes@.contains(v) {
                            let t = choose|t: int|
                                0 <= t < excl_nodes@.len() && excl_nodes@[t] == v;
                            assert(root@[t] == prev[t]);
                            assert((prev[t]).node_id == v);
                        }
                        if exists|t: int| 0 <= t < spur_idx && (#[trigger] prev[t]).node_id == v {
                            let t = choose|t: int|
                                0 <= t < spur_idx && (#[trigger] prev[t]).node_id == v;
                            assert(root@[t] == prev[t]);
                            assert(excl_nodes@[t] == v);
                            assert(excl_nodes@.contains(v));
                        }
                    }
                }
                assert(x_spur.edges =~= sx.edges);
                assert(x_spur == sx);
                assert(!sx.nodes.contains(prev[spur_idx as int].node_id)) by {
                    if exists|t: int|
                        0 <= t < spur_idx && (#[trigger] prev[t]).node_id == prev[
                        spur_idx as int].node_id {
                        let t = choose|t: int|
                            0 <= t < spur_idx && (#[trigger] prev[t]).node_id == prev[
                            spur_idx as int].node_id;
                        assert(ids_of(prev)[t] == ids_of(prev)[spur_idx as int]);
                    }
                }
                assert(!sx.nodes.contains(target)) by {
                    if exists|t: int| 0 <= t < spur_idx && (#[trigger] prev[t]).node_id == target {
                        let t = choose|t: int|
                            0 <= t < spur_idx && (#[trigger] prev[t]).node_id == target;
                        assert(ids_of(prev)[t] == ids_of(prev)[prev.len() - 1]);
                    }
                }
            }
            match shortest_path_impl(g, spur_node, target, remaining, dir, mc, &excl_nodes,
                &excl_edges) {
                Some(spur) => {
                    let ghost root_seq = root@;
                    let mut cand = root;
                    let slen = spur.len();
                    proof {
                        assert(path_steps_ok(m, x_spur, dir, mc, spur_node, target, remaining,
                            spur@));
                        assert(spur@[0].node_id == spur_node);
                        assert(ids_of(spur@)[0] == spur_node);
                        assert(ids_of(spur@)[slen - 1] == target);
                        assert(slen >= 2) by {
                            if slen == 1 {
                                assert(spur@.last() == spur@[0]);
                            }
                        }
                    }
                    for q in 1..slen
                        invariant
                            slen == spur@.len(),
                            root_seq.len() >= 1,
                            cand@.len() == root_seq.len() + q - 1,
                            cand@ == root_seq + spur@.subrange(1, q as int),
                    {
                        cand.push(clone_step(&spur[q]));
                        proof {
                            assert(cand@ =~= root_seq + spur@.subrange(1, q + 1));
                        }
                    }
                    proof {
                        lemma_candidate_ok(
                            m,
                            dir,
                            mc,
                            start,
                            target,
                            max_hops,
                            prev,
                            spur_idx as int,
                            x_spur,
                            excl_nodes@,
                            remaining,
                            spur@,
                            cand@,
                        );
                        // no returned path has the candidate's node sequence:
                        // a path sharing the root continues over an excluded
                        // edge, and any other differs inside the root already
                        assert forall|pi2: int|
                            0 <= pi2 < result@.len() implies ids_of((#[trigger] result@[pi2])@)
                            != ids_of(cand@) by {
                            let q = result@[pi2]@;
                            assert(yen_path_ok(m, dir, mc, start, target, max_hops, q));
                            assert(cand@.len() >= spur_idx + 2);
                            assert(cand@[spur_idx + 1] == spur@.subrange(1, slen as int)[0]);
                            assert(cand@[spur_idx + 1] == spur@[1]);
                            if shares_root(q, prev, spur_idx as int) {
                                assert(q[spur_idx as int].node_id == prev[spur_idx as int].node_id);
                                assert(q.len() > spur_idx + 1) by {
                                    if q.len() == spur_idx + 1 {
                                        assert(ids_of(q)[q.len() - 1] == q.last().node_id);
                                        assert(q.last().node_id == target);
                                    }
                                }
                                assert(x_spur.edges.contains(
                                    (q[spur_idx as int].node_id, q[spur_idx + 1].node_id),
                                ));
                                let tags = choose|tags: Seq<(RelTypeId, Direction)>|
                                    tagged_steps_ok(m, x_spur, dir, mc, spur@, tags);
                                assert(step_tagged(
                                    m,
                                    x_spur,
                                    dir,
                                    mc,
                                    ids_of(spur@)[0],
                                    ids_of(spur@)[1],
                                    (tags[0]).0,
                                    tags[0].1,
                                ));
                                assert(!x_spur.edges.contains(
                                    (spur@[0].node_id, spur@[1].node_id),
                                ));
                                assert(ids_of(spur@)[1] == spur@[1].node_id);
                                assert(spur@[1].node_id != q[spur_idx + 1].node_id);
                                if ids_of(q) == ids_of(cand@) {
                                    assert(ids_of(q)[spur_idx + 1] == ids_of(cand@)[spur_idx + 1]);
                                    assert(ids_of(cand@)[spur_idx + 1] == spur@[1].node_id);
                                    assert(ids_of(q)[spur_idx + 1] == q[spur_idx + 1].node_id);
                                }
                            } else {
                                if q.len() <= spur_idx as int {
                                    assert(ids_of(q).len() != ids_of(cand@).len());
                                } else {
                                    let j = choose|j: int|
                                        0 <= j <= spur_idx && (#[trigger] q[j]).node_id != prev[
                                        j].node_id;
                                    assert(cand@[j] == prev[j]);
                                    if ids_of(q) == ids_of(cand@) {
                                        assert(ids_of(q)[j] == ids_of(cand@)[j]);
                                        assert(ids_of(cand@)[j] == prev[j].node_id);
                                        assert(ids_of(q)[j] == q[j].node_id);
                                    }
                                }
                            }
                        }
                    }
                    if !pool_contains(&result, &cand) && !pool_contains(&candidates, &cand) {
                        let ghost cands0 = candidates@;
                        candidates.push(cand);
                        proof {
                            assert(candidates@.len() > 0);
                            assert forall|ci: int, cj: int|
                                0 <= ci < cj < candidates@.len() implies ids_of(
                                (#[trigger] candidates@[ci])@,
                            ) != ids_of((#[trigger] candidates@[cj])@) by {
                                if cj < candidates@.len() - 1 {
                                    assert(candidates@[ci] == cands0[ci]);
                                    assert(candidates@[cj] == cands0[cj]);
                                } else {
                                    assert(candidates@[ci] == cands0[ci]);
                                }
                            }
                        }
                    } else {
                        proof {
                            assert(exists|i: int|
                                0 <= i < candidates@.len() && ids_of((#[trigger] candidates@[i])@)
                                    == ids_of(cand@));
                            assert(candidates@.len() > 0);
                        }
                    }
                },
                None => {
                    proof {
                        assert(spur_blocked(m, dir, mc, target, max_hops, result@, spur_idx as int))
                            by {
                            assert(prev[spur_idx as int].node_id == spur_node);
                            assert(remaining as nat == (max_hops - spur_idx) as nat);
                            assert(!(m.has_node(spur_node) && m.has_node(target)
                                && !x_spur.nodes.contains(spur_node) && !x_spur.nodes.contains(
                                target,
                            ) && reach(m, x_spur, dir, mc, spur_node, target, remaining as nat)));
                        }
                    }
                },
            }
            proof {
                if candidates@.len() == 0 {
                    assert forall|s2: int| 0 <= s2 < spur_idx + 1 implies #[trigger] spur_blocked(
                        m,
                        dir,
                        mc,
                        target,
                        max_hops,
                        result@,
                        s2,
                    ) by {
                        if s2 < spur_idx {
                        }
                    }
                }
            }
        }
        if candidates.len() == 0 {
            proof {
                assert forall|s: int|
                    0 <= s < result@[result@.len() - 1]@.len() - 1 implies #[trigger] spur_blocked(
                    m,
                    dir,
                    mc,
                    target,
                    max_hops,
                    result@,
                    s,
                ) by {
                    assert(result@[result@.len() - 1]@ == prev);
                }
            }
            break ;
        }
        let mut best: usize = 0;
        let clen = candidates.len();
        for ci in 1..clen
            invariant
                clen == candidates@.len(),
                clen >= 1,
                best < clen,
                forall|t: int|
                    0 <= t < ci ==> candidates@[best as int]@.len() <= (#[trigger] candidates@[t])@.len(),
        {
            if candidates[ci].len() < candidates[best].len() {
                best = ci;
            }
        }
        let ghost cands0 = candidates@;
        let chosen = candidates.remove(best);
        proof {
            assert(chosen == cands0[best as int]);
            assert(candidates@ == cands0.remove(best as int));
            assert forall|ci: int|
                0 <= ci < candidates@.len() implies (#[trigger] candidates@[ci]) == (if ci
                < best as int {
                cands0[ci]
            } else {
                cands0[ci + 1]
            }) by {}
        }
        let ghost res0 = result@;
        proof {
            lemma_yen_path_min(
                m,
                dir,
                mc,
                start,
                target,
                max_hops,
                (res0[0]@.len() - 1) as nat,
                chosen@,
            );
        }
        // Place the accepted path at its position in the hop-count order.
        // The pool minimum is never shorter than an already accepted path,
        // so on every run the position is the end; placing by order makes
        // the ordering of the result part of its contract.
        let mut ins: usize = 0;
        let rl = result.len();
        while ins < rl && result[ins].len() <= chosen.len()
            invariant
                rl == result@.len(),
                ins <= rl,
                result@ == res0,
                forall|t: int| 0 <= t < ins ==> (#[trigger] result@[t])@.len() <= chosen@.len(),
            decreases rl - ins,
        {
            ins = ins + 1;
        }
        proof {
            assert(res0[0]@.len() <= chosen@.len());
            if ins == 0 {
                assert(res0[0]@.len() > chosen@.len());
                assert(false);
            }
        }
        result.insert(ins, chosen);
        proof {
            assert(result@ == res0.insert(ins as int, chosen));
            assert forall|t: int|
                0 <= t < result@.len() implies (#[trigger] result@[t]) == (if t < ins as int {
                res0[t]
            } else if t == ins as int {
                chosen
            } else {
                res0[t - 1]
            }) by {}
            assert(result@[0] == res0[0]);
            assert forall|pi: int, pj: int|
                0 <= pi < pj < result@.len() implies (#[trigger] result@[pi])@.len() <= (
            #[trigger] result@[pj])@.len() by {
                if pj < ins as int {
                    assert(result@[pi] == res0[pi] && result@[pj] == res0[pj]);
                } else if pj == ins as int {
                    assert(result@[pj] == chosen);
                    assert(result@[pi] == res0[pi]);
                    assert(res0[pi]@.len() <= chosen@.len());
                } else if pi < ins as int {
                    assert(result@[pi] == res0[pi] && result@[pj] == res0[pj - 1]);
                    assert(res0[pi]@.len() <= chosen@.len());
                    assert(ins as int <= pj - 1 < rl);
                    assert(chosen@.len() < res0[ins as int]@.len());
                    if (ins as int) < pj - 1 {
                        assert(res0[ins as int]@.len() <= res0[pj - 1]@.len());
                    }
                } else if pi == ins as int {
                    assert(result@[pi] == chosen && result@[pj] == res0[pj - 1]);
                    assert(ins as int <= pj - 1 < rl);
                    assert(chosen@.len() < res0[ins as int]@.len());
                    if (ins as int) < pj - 1 {
                        assert(res0[ins as int]@.len() <= res0[pj - 1]@.len());
                    }
                } else {
                    assert(result@[pi] == res0[pi - 1] && result@[pj] == res0[pj - 1]);
                }
            }
            assert forall|pi: int, pj: int|
                0 <= pi < pj < result@.len() implies ids_of((#[trigger] result@[pi])@) != ids_of(
                (#[trigger] result@[pj])@,
            ) by {
                if pi != ins as int && pj != ins as int {
                    let i0 = if pi < ins as int {
                        pi
                    } else {
                        pi - 1
                    };
                    let j0 = if pj < ins as int {
                        pj
                    } else {
                        pj - 1
                    };
                    assert(result@[pi] == res0[i0] && result@[pj] == res0[j0]);
                    assert(0 <= i0 < j0 < res0.len());
                    assert(ids_of(res0[i0]@) != ids_of(res0[j0]@));
                } else if pi == ins as int {
                    assert(result@[pi] == chosen && result@[pj] == res0[pj - 1]);
                    assert(ids_of(res0[pj - 1]@) != ids_of(cands0[best as int]@));
                } else {
                    assert(result@[pj] == chosen && result@[pi] == res0[pi]);
                    assert(ids_of(res0[pi]@) != ids_of(cands0[best as int]@));
                }
            }
            assert forall|pi: int, ci: int|
                0 <= pi < result@.len() && 0 <= ci < candidates@.len() implies ids_of(
                (#[trigger] result@[pi])@,
            ) != ids_of((#[trigger] candidates@[ci])@) by {
                let cj = if ci < best as int {
                    ci
                } else {
                    ci + 1
                };
                assert(candidates@[ci] == cands0[cj]);
                if pi == ins as int {
                    assert(result@[pi] == chosen);
                    assert(chosen == cands0[best as int]);
                    if cj != best as int {
                        if (best as int) < cj {
                            assert(ids_of(cands0[best as int]@) != ids_of(cands0[cj]@));
                        } else {
                            assert(ids_of(cands0[cj]@) != ids_of(cands0[best as int]@));
                        }
                    }
                } else {
                    let i0 = if pi < ins as int {
                        pi
                    } else {
                        pi - 1
                    };
                    assert(result@[pi] == res0[i0]);
                }
            }
        }
        ki = ki + 1;
    }
    result
}

/// Whether `path` starts with the node sequence of `root`.
fn prefix_matches(path: &Vec<PathStep>, root: &Vec<PathStep>) -> (r: bool)
    ensures
        r == (path@.len() >= root@.len() && forall|j: int|
            0 <= j < root@.len() ==> (#[trigger] path@[j]).node_id == root@[j].node_id),
{
    if path.len() < root.len() {
        return false;
    }
    let n = root.len();
    for i in 0..n
        invariant
            n == root@.len(),
            path@.len() >= root@.len(),
            forall|j: int| 0 <= j < i ==> (#[trigger] path@[j]).node_id == root@[j].node_id,
    {
        if path[i].node_id != root[i].node_id {
            return false;
        }
    }
    true
}

} // verus!
