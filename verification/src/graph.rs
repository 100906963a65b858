//! The in-memory graph store: adjacency lists keyed by node id, node
//! metadata, an application-level identifier index, and the
//! relationship-type interner.

use std::collections::HashMap;
use vstd::prelude::*;

verus! {

broadcast use vstd::std_specs::hash::group_hash_axioms;

/// Internal node identifier assigned by the source database.
pub type NodeId = u64;

/// Interned relationship-type index.
pub type RelTypeId = u16;

/// Maximum number of distinct relationship types that can be interned.
pub const MAX_REL_TYPES: usize = 65535;

/// Errors raised by the graph store.
#[derive(Debug, Clone, Copy, PartialEq, Eq, Structural)]
pub enum GraphError {
    /// More than `MAX_REL_TYPES` distinct relationship-type names were interned.
    RelTypeOverflow,
}

/// Metadata about a node.
#[derive(Debug, Clone)]
pub struct NodeInfo {
    pub label: String,
    pub app_id: Option<String>,
}

/// Mathematical value of a `NodeInfo`.
pub struct NodeInfoV {
    pub label: Seq<char>,
    pub app_id: Option<Seq<char>>,
}

impl View for NodeInfo {
    type V = NodeInfoV;

    open spec fn view(&self) -> NodeInfoV {
        NodeInfoV {
            label: self.label@,
            app_id: match self.app_id {
                Some(s) => Some(s@),
                None => None,
            },
        }
    }
}

/// A directed edge as stored in an adjacency list.
///
/// `confidence` is an optional score; `None` means the score was never
/// loaded, and such an edge passes every confidence filter. A known score
/// is an unsigned integer under any order-preserving encoding chosen by
/// the caller (for scores that originate as nonnegative IEEE-754 floats,
/// the raw bit pattern is such an encoding).
#[derive(Debug, Clone, Copy)]
pub struct Edge {
    pub target: NodeId,
    pub rel_type: RelTypeId,
    pub confidence: Option<u32>,
}

/// A record describing an edge to load into the graph.
/// Named fields prevent the field-ordering bugs that tuples invite.
#[derive(Debug, Clone)]
pub struct EdgeRecord {
    pub from_id: NodeId,
    pub to_id: NodeId,
    pub rel_type: String,
    pub from_label: String,
    pub to_label: String,
    pub from_app_id: Option<String>,
    pub to_app_id: Option<String>,
    pub confidence: Option<u32>,
}

/// Mathematical value of an `EdgeRecord`.
pub struct EdgeRecordV {
    pub from_id: NodeId,
    pub to_id: NodeId,
    pub rel_type: Seq<char>,
    pub from_label: Seq<char>,
    pub to_label: Seq<char>,
    pub from_app_id: Option<Seq<char>>,
    pub to_app_id: Option<Seq<char>>,
    pub confidence: Option<u32>,
}

impl View for EdgeRecord {
    type V = EdgeRecordV;

    open spec fn view(&self) -> EdgeRecordV {
        EdgeRecordV {
            from_id: self.from_id,
            to_id: self.to_id,
            rel_type: self.rel_type@,
            from_label: self.from_label@,
            to_label: self.to_label@,
            from_app_id: match self.from_app_id {
                Some(s) => Some(s@),
                None => None,
            },
            to_app_id: match self.to_app_id {
                Some(s) => Some(s@),
                None => None,
            },
            confidence: self.confidence,
        }
    }
}

/// Mathematical value of a whole graph store.
pub struct GraphModel {
    /// Node metadata, keyed by node id.
    pub nodes: Map<NodeId, NodeInfoV>,
    /// Node ids in first-registration order.
    pub node_order: Seq<NodeId>,
    /// Forward adjacency: edges leaving each node, in insertion order.
    pub out_adj: Map<NodeId, Seq<Edge>>,
    /// Reverse adjacency: for each node, the mirrored entries of the edges
    /// that reach it, in insertion order. The mirrored entry of an edge
    /// u→v records u as its target.
    pub in_adj: Map<NodeId, Seq<Edge>>,
    /// Application-level identifier index.
    pub app_index: Map<Seq<char>, NodeId>,
    /// Interned relationship-type names; the id of a name is its index.
    pub rel_names: Seq<Seq<char>>,
    /// Number of edges added so far.
    pub edge_total: nat,
}

impl GraphModel {
    pub open spec fn empty() -> GraphModel {
        GraphModel {
            nodes: Map::empty(),
            node_order: Seq::empty(),
            out_adj: Map::empty(),
            in_adj: Map::empty(),
            app_index: Map::empty(),
            rel_names: Seq::empty(),
            edge_total: 0,
        }
    }

    pub open spec fn has_node(self, id: NodeId) -> bool {
        self.nodes.contains_key(id)
    }

    pub open spec fn out_edges(self, u: NodeId) -> Seq<Edge> {
        if self.out_adj.contains_key(u) {
            self.out_adj[u]
        } else {
            Seq::empty()
        }
    }

    pub open spec fn in_edges(self, u: NodeId) -> Seq<Edge> {
        if self.in_adj.contains_key(u) {
            self.in_adj[u]
        } else {
            Seq::empty()
        }
    }

    pub open spec fn rel_count(self) -> nat {
        self.rel_names.len()
    }

    /// Label of a node, or the empty string for an unregistered node.
    pub open spec fn label_or_empty(self, id: NodeId) -> Seq<char> {
        if self.nodes.contains_key(id) {
            self.nodes[id].label
        } else {
            Seq::empty()
        }
    }

    /// Application id of a node, absent for an unregistered node.
    pub open spec fn app_id_or_none(self, id: NodeId) -> Option<Seq<char>> {
        if self.nodes.contains_key(id) {
            self.nodes[id].app_id
        } else {
            None
        }
    }

    /// How many edges u→v with the given relationship type and confidence
    /// stand in the outgoing list of u.
    pub open spec fn count_out(self, u: NodeId, v: NodeId, rt: RelTypeId, c: Option<u32>) -> nat {
        count_matching(self.out_edges(u), v, rt, c)
    }

    /// How many mirrored entries for an edge u→v with the given relationship
    /// type and confidence stand in the incoming list of v.
    pub open spec fn count_in(self, u: NodeId, v: NodeId, rt: RelTypeId, c: Option<u32>) -> nat {
        count_matching(self.in_edges(v), u, rt, c)
    }

    /// Every edge u→v appears the same number of times in the outgoing list
    /// of u and, mirrored, in the incoming list of v, agreeing on
    /// relationship type and confidence.
    pub open spec fn mirror_ok(self) -> bool {
        forall|u: NodeId, v: NodeId, rt: RelTypeId, c: Option<u32>|
            #[trigger] self.count_out(u, v, rt, c) == self.count_in(u, v, rt, c)
    }

    /// Interned relationship-type names are pairwise distinct.
    pub open spec fn rels_unique(self) -> bool {
        forall|i: int, j: int|
            0 <= i < j < self.rel_names.len() ==> #[trigger] self.rel_names[i] != #[trigger] self.rel_names[j]
    }

    /// Effect of registering (or overwriting) node metadata.
    pub open spec fn add_node_m(self, id: NodeId, info: NodeInfoV) -> GraphModel {
        GraphModel {
            nodes: self.nodes.insert(id, info),
            node_order: if self.nodes.contains_key(id) {
                self.node_order
            } else {
                self.node_order.push(id)
            },
            app_index: match info.app_id {
                Some(a) => self.app_index.insert(a, id),
                None => self.app_index,
            },
            ..self
        }
    }

    /// Effect of adding a directed edge to both adjacency lists.
    pub open spec fn add_edge_m(
        self,
        from: NodeId,
        to: NodeId,
        rt: RelTypeId,
        conf: Option<u32>,
    ) -> GraphModel {
        GraphModel {
            out_adj: self.out_adj.insert(
                from,
                self.out_edges(from).push(Edge { target: to, rel_type: rt, confidence: conf }),
            ),
            in_adj: self.in_adj.insert(
                to,
                self.in_edges(to).push(Edge { target: from, rel_type: rt, confidence: conf }),
            ),
            edge_total: self.edge_total + 1,
            ..self
        }
    }

    /// Effect of registering an application id, first occurrence winning.
    pub open spec fn register_app_m(self, key: Option<Seq<char>>, id: NodeId) -> GraphModel {
        match key {
            Some(k) => if self.app_index.contains_key(k) {
                self
            } else {
                GraphModel { app_index: self.app_index.insert(k, id), ..self }
            },
            None => self,
        }
    }

    /// Effect of registering node metadata, first occurrence winning.
    pub open spec fn register_node_m(self, id: NodeId, info: NodeInfoV) -> GraphModel {
        if self.nodes.contains_key(id) {
            self
        } else {
            GraphModel {
                nodes: self.nodes.insert(id, info),
                node_order: self.node_order.push(id),
                ..self
            }
        }
    }

    /// Effect of a loaded record on app-id index and node metadata.
    pub open spec fn register_endpoints_m(self, r: EdgeRecordV) -> GraphModel {
        self.register_app_m(r.from_app_id, r.from_id).register_app_m(
            r.to_app_id,
            r.to_id,
        ).register_node_m(
            r.from_id,
            NodeInfoV { label: r.from_label, app_id: r.from_app_id },
        ).register_node_m(r.to_id, NodeInfoV { label: r.to_label, app_id: r.to_app_id })
    }

    /// Interned id of a relationship-type name: its index when present,
    /// else the next free id.
    pub open spec fn rel_id_m(self, name: Seq<char>) -> int {
        if self.rel_names.contains(name) {
            self.rel_names.index_of(name)
        } else {
            self.rel_names.len() as int
        }
    }

    /// Effect of interning a relationship-type name.
    pub open spec fn intern_m(self, name: Seq<char>) -> GraphModel {
        if self.rel_names.contains(name) {
            self
        } else {
            GraphModel { rel_names: self.rel_names.push(name), ..self }
        }
    }

    /// Whether interning one more name succeeds on this model.
    pub open spec fn intern_ok(self, name: Seq<char>) -> bool {
        self.rel_names.contains(name) || self.rel_names.len() < MAX_REL_TYPES
    }

    /// Effect of loading a single edge record.
    pub open spec fn load_one_m(self, r: EdgeRecordV) -> GraphModel {
        let m = self.register_endpoints_m(r);
        m.intern_m(r.rel_type).add_edge_m(
            r.from_id,
            r.to_id,
            m.rel_id_m(r.rel_type) as RelTypeId,
            r.confidence,
        )
    }

    /// Effect of loading a stream of edge records, in order.
    pub open spec fn load_m(self, rs: Seq<EdgeRecordV>) -> GraphModel
        decreases rs.len(),
    {
        if rs.len() == 0 {
            self
        } else {
            self.load_m(rs.drop_last()).load_one_m(rs.last())
        }
    }

    /// Whether loading the whole stream interns every name successfully.
    pub open spec fn load_ok(self, rs: Seq<EdgeRecordV>) -> bool
        decreases rs.len(),
    {
        if rs.len() == 0 {
            true
        } else {
            self.load_ok(rs.drop_last()) && self.load_m(rs.drop_last()).register_endpoints_m(
                rs.last(),
            ).intern_ok(rs.last().rel_type)
        }
    }
}

/// Mathematical values of a sequence of edge records.
pub open spec fn recs_view(s: Seq<EdgeRecord>) -> Seq<EdgeRecordV> {
    s.map(|i: int, r: EdgeRecord| r@)
}

/// After a failed bulk load: the records before `i` were loaded, record `i`
/// could not intern its relationship-type name, and only its endpoint
/// registrations were kept.
pub open spec fn load_failed_at(
    m: GraphModel,
    rs: Seq<EdgeRecordV>,
    i: int,
    result: GraphModel,
) -> bool {
    &&& 0 <= i < rs.len()
    &&& m.load_ok(rs.take(i))
    &&& !m.load_m(rs.take(i)).register_endpoints_m(rs[i]).intern_ok(rs[i].rel_type)
    &&& result == m.load_m(rs.take(i)).register_endpoints_m(rs[i])
}

/// Whether an adjacency entry records the given target, relationship type
/// and confidence.
pub open spec fn edge_matches(e: Edge, target: NodeId, rt: RelTypeId, c: Option<u32>) -> bool {
    e.target == target && e.rel_type == rt && e.confidence == c
}

/// How many entries of an adjacency list match the given target,
/// relationship type and confidence.
pub open spec fn count_matching(s: Seq<Edge>, target: NodeId, rt: RelTypeId, c: Option<u32>) -> nat
    decreases s.len(),
{
    if s.len() == 0 {
        0
    } else {
        count_matching(s.drop_last(), target, rt, c) + if edge_matches(
            s.last(),
            target,
            rt,
            c,
        ) {
            1nat
        } else {
            0nat
        }
    }
}

proof fn lemma_count_matching_push(s: Seq<Edge>, e: Edge, target: NodeId, rt: RelTypeId, c: Option<
    u32,
>)
    ensures
        count_matching(s.push(e), target, rt, c) == count_matching(s, target, rt, c) + if
            edge_matches(e, target, rt, c) {
            1nat
        } else {
            0nat
        },
{
    assert(s.push(e).drop_last() =~= s);
    assert(s.push(e).last() == e);
}

/// Association-list view: the map held by a sequence of (key, value) pairs.
pub open spec fn assoc_view<V>(s: Seq<(String, V)>) -> Map<Seq<char>, V>
    decreases s.len(),
{
    if s.len() == 0 {
        Map::empty()
    } else {
        assoc_view(s.drop_last()).insert(s.last().0@, s.last().1)
    }
}

/// The keys of an association list are pairwise distinct.
pub open spec fn assoc_keys_unique<V>(s: Seq<(String, V)>) -> bool {
    forall|i: int, j: int| 0 <= i < j < s.len() ==> (#[trigger] s[i]).0@ != (#[trigger] s[j]).0@
}

pub(crate) proof fn lemma_assoc_view_entry<V>(s: Seq<(String, V)>, i: int)
    requires
        assoc_keys_unique(s),
        0 <= i < s.len(),
    ensures
        assoc_view(s).contains_key(s[i].0@),
        assoc_view(s)[s[i].0@] == s[i].1,
    decreases s.len(),
{
    if i < s.len() - 1 {
        lemma_assoc_view_entry(s.drop_last(), i);
        assert(s[i].0@ != s.last().0@);
    }
}

pub(crate) proof fn lemma_assoc_view_absent<V>(s: Seq<(String, V)>, k: Seq<char>)
    requires
        forall|i: int| 0 <= i < s.len() ==> (#[trigger] s[i]).0@ != k,
    ensures
        !assoc_view(s).contains_key(k),
    decreases s.len(),
{
    if s.len() > 0 {
        lemma_assoc_view_absent(s.drop_last(), k);
    }
}

pub(crate) proof fn lemma_assoc_view_update<V>(s: Seq<(String, V)>, i: int, p: (String, V))
    requires
        assoc_keys_unique(s),
        0 <= i < s.len(),
        p.0@ == s[i].0@,
    ensures
        assoc_view(s.update(i, p)) == assoc_view(s).insert(p.0@, p.1),
    decreases s.len(),
{
    let t = s.update(i, p);
    if i == s.len() - 1 {
        assert(t.drop_last() =~= s.drop_last());
        assert(t.last() == p);
        assert(assoc_view(t) =~= assoc_view(s).insert(p.0@, p.1));
    } else {
        assert(t.drop_last() =~= s.drop_last().update(i, p));
        lemma_assoc_view_update(s.drop_last(), i, p);
        assert(t.last() == s.last());
        assert(s[i].0@ != s.last().0@);
        assert(assoc_view(t) =~= assoc_view(s).insert(p.0@, p.1));
    }
}

/// The in-memory graph store.
///
/// Adjacency is stored bidirectionally: an edge u→v is appended to the
/// outgoing list of u and, mirrored, to the incoming list of v.
pub struct Graph {
    outgoing: HashMap<NodeId, Vec<Edge>>,
    incoming: HashMap<NodeId, Vec<Edge>>,
    nodes: HashMap<NodeId, NodeInfo>,
    node_order: Vec<NodeId>,
    app_id_index: Vec<(String, NodeId)>,
    rel_types: Vec<String>,
    /// Hint for adjacency-list pre-allocation in `add_edge`.
    estimated_avg_degree: usize,
    n_edges: usize,
}

impl View for Graph {
    type V = GraphModel;

    closed spec fn view(&self) -> GraphModel {
        GraphModel {
            nodes: self.nodes@.map_values(|ni: NodeInfo| ni@),
            node_order: self.node_order@,
            out_adj: self.outgoing@.map_values(|v: Vec<Edge>| v@),
            in_adj: self.incoming@.map_values(|v: Vec<Edge>| v@),
            app_index: assoc_view(self.app_id_index@),
            rel_names: self.rel_types@.map(|i: int, s: String| s@),
            edge_total: self.n_edges as nat,
        }
    }
}

impl Graph {
    /// Internal representation consistency not visible through the model.
    pub closed spec fn repr_inv(&self) -> bool {
        assoc_keys_unique(self.app_id_index@)
    }

    /// Well-formedness: representation consistency, the mirror-adjacency
    /// property, distinctness of interned names, and consistency of the
    /// node-registration order with the metadata map.
    pub open spec fn wf(&self) -> bool {
        &&& self.repr_inv()
        &&& self@.mirror_ok()
        &&& self@.rels_unique()
        &&& self@.rel_names.len() <= MAX_REL_TYPES
        &&& self@.node_order.no_duplicates()
        &&& forall|id: NodeId|
            self@.nodes.contains_key(id) <==> #[trigger] self@.node_order.contains(id)
    }

    pub fn new() -> (g: Graph)
        ensures
            g@ == GraphModel::empty(),
            g.wf(),
    {
        let g = Graph {
            outgoing: HashMap::new(),
            incoming: HashMap::new(),
            nodes: HashMap::new(),
            node_order: Vec::new(),
            app_id_index: Vec::new(),
            rel_types: Vec::new(),
            estimated_avg_degree: 4,
            n_edges: 0,
        };
        proof {
            lemma_fresh_graph(&g);
        }
        g
    }

    /// Pre-allocate for a known graph size.
    ///
    /// `edge_count` estimates the average number of edges per node, used to
    /// pre-allocate adjacency lists in `add_edge` and avoid repeated
    /// re-allocation during bulk loading.
    pub fn with_capacity(node_count: usize, edge_count: usize) -> (g: Graph)
        ensures
            g@ == GraphModel::empty(),
            g.wf(),
    {
        let avg: usize = if node_count > 0 {
            let q = edge_count / node_count;
            if q > 1 {
                q
            } else {
                1
            }
        } else {
            4
        };
        let g = Graph {
            outgoing: HashMap::with_capacity(node_count),
            incoming: HashMap::with_capacity(node_count),
            nodes: HashMap::with_capacity(node_count),
            node_order: Vec::new(),
            app_id_index: Vec::new(),
            rel_types: Vec::new(),
            estimated_avg_degree: avg,
            n_edges: 0,
        };
        proof {
            lemma_fresh_graph(&g);
        }
        g
    }

    pub fn node_count(&self) -> (n: usize)
        ensures
            n == self@.node_order.len(),
    {
        self.node_order.len()
    }

    /// The node id registered at one position of the first-registration
    /// order.
    pub(crate) fn node_order_at(&self, i: usize) -> (id: NodeId)
        requires
            i < self@.node_order.len(),
        ensures
            id == self@.node_order[i as int],
    {
        self.node_order[i]
    }

    pub fn edge_count(&self) -> (n: usize)
        ensures
            n == self@.edge_total,
    {
        self.n_edges
    }

    pub fn rel_type_count(&self) -> (n: usize)
        ensures
            n == self@.rel_count(),
    {
        self.rel_types.len()
    }

    /// Resolve a `RelTypeId` back to its string name.
    /// Returns `None` if the id is out of range.
    pub fn rel_type_name(&self, id: RelTypeId) -> (r: Option<&str>)
        ensures
            match r {
                Some(s) => id < self@.rel_count() && s@ == self@.rel_names[id as int],
                None => id >= self@.rel_count(),
            },
    {
        if (id as usize) < self.rel_types.len() {
            Some(self.rel_types[id as usize].as_str())
        } else {
            None
        }
    }

    /// Intern a relationship-type string, returning its compact id: the
    /// existing id when the name was seen before, else the next free one.
    /// Fails when a 65,536th distinct name would be interned.
    pub fn intern_rel_type(&mut self, rel_type: &str) -> (r: Result<RelTypeId, GraphError>)
        requires
            old(self).wf(),
        ensures
            final(self).wf(),
            match r {
                Ok(id) => {
                    &&& (id as int) < final(self)@.rel_count()
                    &&& final(self)@.rel_names[id as int] == rel_type@
                    &&& if old(self)@.rel_names.contains(rel_type@) {
                        final(self)@ == old(self)@
                    } else {
                        id as int == old(self)@.rel_count() && final(self)@ == (GraphModel {
                            rel_names: old(self)@.rel_names.push(rel_type@),
                            ..old(self)@
                        })
                    }
                },
                Err(e) => {
                    &&& e == GraphError::RelTypeOverflow
                    &&& final(self)@ == old(self)@
                    &&& !old(self)@.rel_names.contains(rel_type@)
                    &&& old(self)@.rel_count() >= MAX_REL_TYPES
                },
            },
            r is Ok <==> (old(self)@.rel_names.contains(rel_type@) || old(self)@.rel_count()
                < MAX_REL_TYPES),
    {
        let name: String = rel_type.to_owned();
        let n = self.rel_types.len();
        let ghost rels = self@.rel_names;
        assert(rels.len() == n);
        for i in 0..n
            invariant
                old(self).wf(),
                n == self.rel_types.len(),
                self == old(self),
                rels == self@.rel_names,
                rels.len() == n,
                n <= MAX_REL_TYPES,
                forall|j: int| 0 <= j < i ==> rels[j] != rel_type@,
                name@ == rel_type@,
        {
            assert(rels[i as int] == self.rel_types@[i as int]@);
            if self.rel_types[i] == name {
                proof {
                    assert(rels[i as int] == rel_type@);
                    assert(rels.contains(rel_type@));
                }
                return Ok(i as RelTypeId);
            }
        }
        proof {
            assert(forall|j: int| 0 <= j < rels.len() ==> rels[j] != rel_type@);
            assert(!rels.contains(rel_type@));
        }
        if n >= MAX_REL_TYPES {
            return Err(GraphError::RelTypeOverflow);
        }
        let id = n as RelTypeId;
        self.rel_types.push(name);
        proof {
            assert(self@.rel_names =~= rels.push(rel_type@));
            assert(self@ =~= (GraphModel { rel_names: rels.push(rel_type@), ..old(self)@ }));
            assert(self@.rel_names[n as int] == rel_type@);
            assert forall|u: NodeId, v: NodeId, rt: RelTypeId, c: Option<u32>|
                #[trigger] self@.count_out(u, v, rt, c) == self@.count_in(u, v, rt, c) by {
                assert(self@.out_edges(u) == old(self)@.out_edges(u));
                assert(self@.in_edges(v) == old(self)@.in_edges(v));
                assert(old(self)@.count_out(u, v, rt, c) == old(self)@.count_in(u, v, rt, c));
            }
            assert forall|i: int, j: int| 0 <= i < j < self@.rel_names.len() implies #[trigger] self@.rel_names[i]
                != #[trigger] self@.rel_names[j] by {
                if j < n {
                    assert(old(self)@.rels_unique());
                } else {
                    assert(self@.rel_names[j] == rel_type@);
                    assert(rels[i] != rel_type@);
                }
            }
        }
        Ok(id)
    }

    /// Register a node with metadata, overwriting earlier metadata for the
    /// same id; a supplied application id is indexed, overwriting too.
    pub fn add_node(&mut self, id: NodeId, label: String, app_id: Option<String>)
        requires
            old(self).wf(),
        ensures
            final(self).wf(),
            final(self)@ == old(self)@.add_node_m(
                id,
                (NodeInfoV {
                    label: label@,
                    app_id: match app_id {
                        Some(s) => Some(s@),
                        None => None,
                    },
                }),
            ),
    {
        let ghost m0 = self@;
        let ghost info_v = (NodeInfoV {
            label: label@,
            app_id: match &app_id {
                Some(s) => Some(s@),
                None => None,
            },
        });
        match &app_id {
            Some(aid) => {
                assoc_put(&mut self.app_id_index, aid.clone(), id);
            },
            None => {},
        }
        let fresh = !self.nodes.contains_key(&id);
        if fresh {
            self.node_order.push(id);
        }
        self.nodes.insert(id, NodeInfo { label, app_id });
        proof {
            let target = m0.add_node_m(id, info_v);
            assert(self@.nodes =~= target.nodes);
            assert(self@.node_order =~= target.node_order);
            assert(self@.app_index =~= target.app_index);
            assert(self@.out_adj =~= target.out_adj);
            assert(self@.in_adj =~= target.in_adj);
            assert(self@ == target);
            lemma_mirror_preserved(m0, self@);
            if fresh {
                assert(!m0.node_order.contains(id));
                assert forall|a: int, b: int|
                    0 <= a < b < self@.node_order.len() implies self@.node_order[a]
                    != self@.node_order[b] by {
                    if b < self@.node_order.len() - 1 {
                        assert(m0.node_order[a] != m0.node_order[b]);
                    } else {
                        assert(self@.node_order[b] == id);
                        assert(m0.node_order[a] == self@.node_order[a]);
                        assert(m0.node_order.contains(m0.node_order[a]));
                    }
                }
                assert forall|nid: NodeId|
                    self@.nodes.contains_key(nid) <==> #[trigger] self@.node_order.contains(
                    nid) by {
                    if nid == id {
                        assert(self@.node_order.last() == id);
                        assert(self@.node_order.contains(id));
                    } else {
                        assert(self@.nodes.contains_key(nid) <==> m0.nodes.contains_key(nid));
                        assert(m0.node_order.contains(nid) <==> exists|j: int|
                            0 <= j < m0.node_order.len() && m0.node_order[j] == nid);
                        assert forall|j: int|
                            0 <= j < self@.node_order.len()
                                && self@.node_order[j] == nid implies m0.node_order.contains(
                            nid) by {
                            assert(j < m0.node_order.len());
                            assert(m0.node_order[j] == nid);
                        }
                        if m0.node_order.contains(nid) {
                            let j = choose|j: int|
                                0 <= j < m0.node_order.len() && m0.node_order[j] == nid;
                            assert(self@.node_order[j] == nid);
                            assert(self@.node_order.contains(nid));
                        }
                    }
                }
            } else {
                assert(self@.node_order == m0.node_order);
                assert forall|nid: NodeId|
                    self@.nodes.contains_key(nid) <==> #[trigger] self@.node_order.contains(
                    nid) by {
                    assert(self@.nodes.contains_key(nid) <==> (m0.nodes.contains_key(nid) || nid
                        == id));
                    assert(m0.nodes.contains_key(id));
                }
            }
        }
    }

    /// Add a directed edge. Appends to the outgoing list of `from` and,
    /// mirrored, to the incoming list of `to`. Neither node needs to be
    /// registered (`load_edges` registers them).
    pub fn add_edge(&mut self, from: NodeId, to: NodeId, rel_type: RelTypeId, confidence: Option<
        u32,
    >)
        requires
            old(self).wf(),
            old(self)@.edge_total < usize::MAX,
        ensures
            final(self).wf(),
            final(self)@ == old(self)@.add_edge_m(from, to, rel_type, confidence),
    {
        let ghost m0 = self@;
        let avg = self.estimated_avg_degree;
        let mut out_list: Vec<Edge> = match self.outgoing.remove(&from) {
            Some(v) => v,
            None => Vec::with_capacity(avg),
        };
        proof {
            assert(out_list@ == m0.out_edges(from));
        }
        out_list.push(Edge { target: to, rel_type: rel_type, confidence: confidence });
        self.outgoing.insert(from, out_list);
        let mut in_list: Vec<Edge> = match self.incoming.remove(&to) {
            Some(v) => v,
            None => Vec::with_capacity(avg),
        };
        proof {
            assert(in_list@ == m0.in_edges(to));
        }
        in_list.push(Edge { target: from, rel_type: rel_type, confidence: confidence });
        self.incoming.insert(to, in_list);
        self.n_edges = self.n_edges + 1;
        proof {
            let target = m0.add_edge_m(from, to, rel_type, confidence);
            assert(self@.out_adj =~= target.out_adj);
            assert(self@.in_adj =~= target.in_adj);
            assert(self@.nodes =~= target.nodes);
            assert(self@ == target);
            let eo = Edge { target: to, rel_type: rel_type, confidence: confidence };
            let ei = Edge { target: from, rel_type: rel_type, confidence: confidence };
            assert forall|u: NodeId, v: NodeId, rt: RelTypeId, c: Option<u32>|
                #[trigger] self@.count_out(u, v, rt, c) == self@.count_in(u, v, rt, c) by {
                lemma_count_matching_push(m0.out_edges(from), eo, v, rt, c);
                lemma_count_matching_push(m0.in_edges(to), ei, u, rt, c);
                assert(m0.count_out(u, v, rt, c) == m0.count_in(u, v, rt, c));
                if u == from {
                    assert(self@.out_edges(u) == m0.out_edges(from).push(eo));
                } else {
                    assert(self@.out_edges(u) == m0.out_edges(u));
                }
                if v == to {
                    assert(self@.in_edges(v) == m0.in_edges(to).push(ei));
                } else {
                    assert(self@.in_edges(v) == m0.in_edges(v));
                }
            }
        }
    }

    /// Get node metadata.
    pub fn node(&self, id: NodeId) -> (r: Option<&NodeInfo>)
        ensures
            match r {
                Some(ni) => self@.has_node(id) && ni@ == self@.nodes[id],
                None => !self@.has_node(id),
            },
    {
        self.nodes.get(&id)
    }

    /// Look up a node by its application-level identifier.
    pub fn resolve_app_id(&self, app_id: &str) -> (r: Option<NodeId>)
        requires
            self.wf(),
        ensures
            match r {
                Some(id) => self@.app_index.contains_key(app_id@) && id == self@.app_index[app_id@],
                None => !self@.app_index.contains_key(app_id@),
            },
    {
        let owned: String = app_id.to_owned();
        let n = self.app_id_index.len();
        for i in 0..n
            invariant
                self.wf(),
                n == self.app_id_index@.len(),
                owned@ == app_id@,
                forall|j: int| 0 <= j < i ==> (#[trigger] self.app_id_index@[j]).0@ != app_id@,
        {
            if self.app_id_index[i].0 == owned {
                proof {
                    lemma_assoc_view_entry(self.app_id_index@, i as int);
                }
                return Some(self.app_id_index[i].1);
            }
        }
        proof {
            lemma_assoc_view_absent(self.app_id_index@, app_id@);
        }
        None
    }

    /// Outgoing edges of a node, in insertion order (empty for a node with
    /// none recorded).
    pub fn neighbors_out(&self, id: NodeId) -> (r: Vec<Edge>)
        ensures
            r@ == self@.out_edges(id),
    {
        let mut out: Vec<Edge> = Vec::new();
        match self.outgoing.get(&id) {
            Some(v) => {
                let n = v.len();
                for j in 0..n
                    invariant
                        n == v@.len(),
                        v@ == self@.out_edges(id),
                        out@ == v@.take(j as int),
                {
                    out.push(v[j]);
                    proof {
                        assert(out@ =~= v@.take(j + 1));
                    }
                }
                proof {
                    assert(out@ =~= v@);
                }
            },
            None => {
                proof {
                    assert(self@.out_edges(id) =~= Seq::<Edge>::empty());
                }
            },
        }
        out
    }

    /// Incoming (mirrored) edges of a node, in insertion order.
    pub fn neighbors_in(&self, id: NodeId) -> (r: Vec<Edge>)
        ensures
            r@ == self@.in_edges(id),
    {
        let mut out: Vec<Edge> = Vec::new();
        match self.incoming.get(&id) {
            Some(v) => {
                let n = v.len();
                for j in 0..n
                    invariant
                        n == v@.len(),
                        v@ == self@.in_edges(id),
                        out@ == v@.take(j as int),
                {
                    out.push(v[j]);
                    proof {
                        assert(out@ =~= v@.take(j + 1));
                    }
                }
                proof {
                    assert(out@ =~= v@);
                }
            },
            None => {
                proof {
                    assert(self@.in_edges(id) =~= Seq::<Edge>::empty());
                }
            },
        }
        out
    }

    /// Outgoing then incoming edges of a node (undirected traversal order).
    pub fn neighbors_all(&self, id: NodeId) -> (r: Vec<Edge>)
        ensures
            r@ == self@.out_edges(id) + self@.in_edges(id),
    {
        let mut r = self.neighbors_out(id);
        let mut inc = self.neighbors_in(id);
        r.append(&mut inc);
        r
    }

    /// Load one edge record: register application ids and endpoint metadata
    /// (first occurrence winning), intern the relationship-type name, and
    /// add the edge. Fails only when the interner is full; the endpoint
    /// registrations are kept in that case.
    pub fn load_edge(&mut self, rec: &EdgeRecord) -> (r: Result<(), GraphError>)
        requires
            old(self).wf(),
            old(self)@.edge_total < usize::MAX,
        ensures
            final(self).wf(),
            match r {
                Ok(u) => old(self)@.register_endpoints_m(rec@).intern_ok(rec@.rel_type)
                    && final(self)@ == old(self)@.load_one_m(rec@),
                Err(e) => {
                    &&& e == GraphError::RelTypeOverflow
                    &&& !old(self)@.register_endpoints_m(rec@).intern_ok(rec@.rel_type)
                    &&& final(self)@ == old(self)@.register_endpoints_m(rec@)
                },
            },
    {
        let ghost m0 = self@;
        match &rec.from_app_id {
            Some(a) => {
                assoc_put_if_absent(&mut self.app_id_index, a.clone(), rec.from_id);
            },
            None => {},
        }
        proof {
            assert(self@ == m0.register_app_m(rec@.from_app_id, rec@.from_id)) by {
                assert(self@.app_index == m0.register_app_m(
                    rec@.from_app_id,
                    rec@.from_id,
                ).app_index);
            }
        }
        let ghost m1 = self@;
        match &rec.to_app_id {
            Some(a) => {
                assoc_put_if_absent(&mut self.app_id_index, a.clone(), rec.to_id);
            },
            None => {},
        }
        proof {
            assert(self@ == m1.register_app_m(rec@.to_app_id, rec@.to_id)) by {
                assert(self@.app_index == m1.register_app_m(rec@.to_app_id, rec@.to_id).app_index);
            }
        }
        let ghost m2 = self@;
        if !self.nodes.contains_key(&rec.from_id) {
            self.node_order.push(rec.from_id);
            self.nodes.insert(
                rec.from_id,
                NodeInfo { label: rec.from_label.clone(), app_id: clone_opt(&rec.from_app_id) },
            );
        }
        proof {
            let target = m2.register_node_m(
                rec@.from_id,
                NodeInfoV { label: rec@.from_label, app_id: rec@.from_app_id },
            );
            assert(self@.nodes =~= target.nodes);
            assert(self@.node_order =~= target.node_order);
            assert(self@ == target);
            lemma_register_node_wf(m2, rec@.from_id, self@);
        }
        let ghost m3 = self@;
        if !self.nodes.contains_key(&rec.to_id) {
            self.node_order.push(rec.to_id);
            self.nodes.insert(
                rec.to_id,
                NodeInfo { label: rec.to_label.clone(), app_id: clone_opt(&rec.to_app_id) },
            );
        }
        proof {
            let target = m3.register_node_m(
                rec@.to_id,
                NodeInfoV { label: rec@.to_label, app_id: rec@.to_app_id },
            );
            assert(self@.nodes =~= target.nodes);
            assert(self@.node_order =~= target.node_order);
            assert(self@ == target);
            lemma_register_node_wf(m3, rec@.to_id, self@);
            lemma_mirror_preserved(m0, self@);
            assert(self.wf());
            assert(self@ == m0.register_endpoints_m(rec@));
        }
        let rid = match self.intern_rel_type(rec.rel_type.as_str()) {
            Ok(id) => id,
            Err(e) => {
                return Err(e);
            },
        };
        proof {
            let m4 = m0.register_endpoints_m(rec@);
            assert(self@ == m4.intern_m(rec@.rel_type));
            assert(rid as int == m4.rel_id_m(rec@.rel_type)) by {
                if m4.rel_names.contains(rec@.rel_type) {
                    let ix = m4.rel_names.index_of(rec@.rel_type);
                    assert(0 <= ix < m4.rel_names.len() && m4.rel_names[ix] == rec@.rel_type);
                    assert(m4.rel_names[rid as int] == rec@.rel_type);
                    assert(m4.rels_unique());
                    if ix != rid as int {
                        assert(false);
                    }
                }
            }
        }
        self.add_edge(rec.from_id, rec.to_id, rid, rec.confidence);
        Ok(())
    }

    /// Bulk load from edge records, in order. This is the primary load
    /// path, mirroring what the host's source-database query returns.
    /// On interner overflow, the records before the failing one stay
    /// loaded, as do the failing record's endpoint registrations.
    pub fn load_edges(&mut self, edges: Vec<EdgeRecord>) -> (r: Result<(), GraphError>)
        requires
            old(self).wf(),
            old(self)@.edge_total + edges@.len() <= usize::MAX,
        ensures
            final(self).wf(),
            match r {
                Ok(u) => old(self)@.load_ok(recs_view(edges@))
                    && final(self)@ == old(self)@.load_m(recs_view(edges@)),
                Err(e) => {
                    &&& e == GraphError::RelTypeOverflow
                    &&& !old(self)@.load_ok(recs_view(edges@))
                    &&& exists|i: int|
                        load_failed_at(old(self)@, recs_view(edges@), i, final(self)@)
                },
            },
    {
        let ghost rv = recs_view(edges@);
        let n = edges.len();
        for i in 0..n
            invariant
                old(self).wf(),
                old(self)@.edge_total + n <= usize::MAX,
                n == edges@.len(),
                rv == recs_view(edges@),
                self.wf(),
                self@ == old(self)@.load_m(rv.take(i as int)),
                old(self)@.load_ok(rv.take(i as int)),
                self@.edge_total == old(self)@.edge_total + i,
        {
            proof {
                assert(rv[i as int] == edges@[i as int]@);
            }
            match self.load_edge(&edges[i]) {
                Ok(u) => {
                    proof {
                        assert(rv.take(i + 1).drop_last() =~= rv.take(i as int));
                        assert(rv.take(i + 1).last() == rv[i as int]);
                        assert(self@ == old(self)@.load_m(rv.take(i + 1)));
                        assert(old(self)@.load_ok(rv.take(i + 1)));
                    }
                },
                Err(e) => {
                    proof {
                        assert(load_failed_at(old(self)@, rv, i as int, self@));
                        lemma_load_ok_prefix_fails(old(self)@, rv, i as int);
                    }
                    return Err(e);
                },
            }
        }
        proof {
            assert(rv.take(n as int) =~= rv);
        }
        Ok(())
    }
}

/// Estimated bytes of one node-metadata table entry: the id and the label
/// and application-id string headers.
pub const NODE_KV_BYTES: usize = 56;

/// Estimated heap bytes of one node's metadata strings.
pub const NODE_HEAP_BYTES: usize = 32;

/// Estimated bytes of one adjacency entry: target, relationship type and
/// confidence.
pub const EDGE_BYTES: usize = 24;

/// Estimated bytes of one adjacency-table entry: the id and the list header.
pub const ADJ_KV_BYTES: usize = 32;

/// Estimated bytes of one application-id index entry.
pub const INDEX_ENTRY_BYTES: usize = 40;

/// Bytes of one string header.
pub const STRING_HEADER_BYTES: usize = 24;

/// Saturating addition on the machine word, in specification form.
pub open spec fn sat_add_s(a: nat, b: nat) -> nat {
    if a + b > usize::MAX {
        usize::MAX as nat
    } else {
        (a + b) as nat
    }
}

/// Saturating multiplication on the machine word, in specification form.
pub open spec fn sat_mul_s(a: nat, b: nat) -> nat {
    if a * b > usize::MAX {
        usize::MAX as nat
    } else {
        (a * b) as nat
    }
}

/// Remaining distance of the doubling scan below.
pub open spec fn pow2_fuel(p: nat, x: nat) -> nat {
    if p < x {
        (x - p) as nat
    } else {
        0
    }
}

/// The doubling scan behind the bucket count: double `p` until it reaches
/// `x`, stopping at the largest doubling that still fits the machine word.
pub open spec fn next_pow2_from(p: nat, x: nat) -> nat
    decreases pow2_fuel(p, x),
{
    if 1 <= p && p < x && p <= (usize::MAX as nat) / 2 {
        next_pow2_from(p * 2, x)
    } else {
        p
    }
}

/// Estimated hash-table footprint, in specification form: one control byte
/// plus one key-value pair per bucket, with buckets at the next power of
/// two above len * 8 / 7, and at least one byte.
pub open spec fn hashmap_overhead_s(len: nat, kv: nat) -> nat {
    let buckets = next_pow2_from(1, sat_mul_s(len, 8) / 7);
    let m = sat_mul_s(buckets, sat_add_s(1, kv));
    if m >= 1 {
        m
    } else {
        1
    }
}

/// Interned-string heap estimate: the UTF-8 length of each name (as the
/// machine-word length a string reports) plus one string header, summed
/// with saturation.
pub open spec fn rel_names_mem_s(names: Seq<Seq<char>>) -> nat
    decreases names.len(),
{
    if names.len() == 0 {
        0
    } else {
        sat_add_s(
            rel_names_mem_s(names.drop_last()),
            sat_add_s(
                (vstd::utf8::encode_utf8(names.last()).len() as usize) as nat,
                STRING_HEADER_BYTES as nat,
            ),
        )
    }
}

/// The memory estimate as a function of the model: hash-table overheads of
/// the three id-keyed tables, the adjacency entries of both sides, the
/// node-metadata heap, the application-id index entries, and the
/// interned-string heap — all in saturating machine-word arithmetic.
pub open spec fn spec_mem_estimate(m: GraphModel) -> nat {
    let nodes_mem = sat_add_s(
        hashmap_overhead_s(m.nodes.len(), NODE_KV_BYTES as nat),
        sat_mul_s(m.node_order.len(), NODE_HEAP_BYTES as nat),
    );
    let out_mem = sat_add_s(
        sat_mul_s(m.edge_total, EDGE_BYTES as nat),
        hashmap_overhead_s(m.out_adj.len(), ADJ_KV_BYTES as nat),
    );
    let in_mem = sat_add_s(
        sat_mul_s(m.edge_total, EDGE_BYTES as nat),
        hashmap_overhead_s(m.in_adj.len(), ADJ_KV_BYTES as nat),
    );
    let index_mem = sat_mul_s(m.app_index.len(), INDEX_ENTRY_BYTES as nat);
    sat_add_s(
        sat_add_s(sat_add_s(sat_add_s(nodes_mem, out_mem), in_mem), index_mem),
        rel_names_mem_s(m.rel_names),
    )
}

/// The map of an association list with distinct keys has one entry per
/// pair, and finitely many.
pub(crate) proof fn lemma_assoc_view_len<V>(s: Seq<(String, V)>)
    requires
        assoc_keys_unique(s),
    ensures
        assoc_view(s).dom().finite(),
        assoc_view(s).len() == s.len(),
    decreases s.len(),
{
    broadcast use vstd::set::group_set_axioms;

    if s.len() == 0 {
        assert(assoc_view(s).dom() =~= Set::<Seq<char>>::empty());
    } else {
        lemma_assoc_view_len(s.drop_last());
        assert(forall|i: int|
            0 <= i < s.drop_last().len() ==> (#[trigger] s.drop_last()[i]).0@ != s.last().0@);
        lemma_assoc_view_absent(s.drop_last(), s.last().0@);
        assert(assoc_view(s).dom() == assoc_view(s.drop_last()).dom().insert(s.last().0@));
    }
}

impl Graph {
    /// Approximate memory usage in bytes, computed exactly as
    /// `spec_mem_estimate` states over the model: hash-table bucket arrays
    /// at a load factor near 7/8 rounded up to a power of two, adjacency
    /// entries, index entries, and interned-string heap costs. The estimate
    /// is informational (the true allocator footprint differs), but the
    /// accounting itself is pinned.
    pub fn memory_usage(&self) -> (r: usize)
        requires
            self.wf(),
        ensures
            r == spec_mem_estimate(self@),
            r >= 1,
    {
        let ghost m = self@;
        proof {
            assert(m.nodes.dom() =~= self.nodes@.dom());
            assert(m.out_adj.dom() =~= self.outgoing@.dom());
            assert(m.in_adj.dom() =~= self.incoming@.dom());
            lemma_assoc_view_len(self.app_id_index@);
        }
        let nodes_mem = sat_add(
            hashmap_overhead(self.nodes.len(), NODE_KV_BYTES),
            sat_mul(self.node_order.len(), NODE_HEAP_BYTES),
        );
        let out_mem = sat_add(
            sat_mul(self.n_edges, EDGE_BYTES),
            hashmap_overhead(self.outgoing.len(), ADJ_KV_BYTES),
        );
        let in_mem = sat_add(
            sat_mul(self.n_edges, EDGE_BYTES),
            hashmap_overhead(self.incoming.len(), ADJ_KV_BYTES),
        );
        let index_mem = sat_mul(self.app_id_index.len(), INDEX_ENTRY_BYTES);
        let mut rel_mem: usize = 0;
        let nrels = self.rel_types.len();
        for i in 0..nrels
            invariant
                m == self@,
                nrels == self.rel_types@.len(),
                rel_mem == rel_names_mem_s(m.rel_names.take(i as int)),
        {
            proof {
                assert(m.rel_names[i as int] == self.rel_types@[i as int]@);
            }
            rel_mem = sat_add(
                rel_mem,
                sat_add(self.rel_types[i].as_str().len(), STRING_HEADER_BYTES),
            );
            proof {
                assert(m.rel_names.take(i + 1).drop_last() =~= m.rel_names.take(i as int));
                assert(m.rel_names.take(i + 1).last() == m.rel_names[i as int]);
            }
        }
        proof {
            assert(m.rel_names.take(nrels as int) =~= m.rel_names);
        }
        sat_add(sat_add(sat_add(sat_add(nodes_mem, out_mem), in_mem), index_mem), rel_mem)
    }
}

impl Default for Graph {
    fn default() -> (g: Graph)
        ensures
            g@ == GraphModel::empty(),
            g.wf(),
    {
        Graph::new()
    }
}

/// Saturating addition.
fn sat_add(a: usize, b: usize) -> (r: usize)
    ensures
        r == sat_add_s(a as nat, b as nat),
        r >= a,
        r >= b,
{
    if a <= usize::MAX - b {
        a + b
    } else {
        usize::MAX
    }
}

/// Saturating multiplication.
fn sat_mul(a: usize, b: usize) -> (r: usize)
    ensures
        r == sat_mul_s(a as nat, b as nat),
{
    if b == 0 {
        0
    } else {
        if a <= usize::MAX / b {
            proof {
                assert(a * b <= (usize::MAX / b) * b <= usize::MAX) by (nonlinear_arith)
                    requires
                        b > 0,
                        a <= usize::MAX / b,
                        usize::MAX / b == usize::MAX as int / b as int,
                ;
            }
            a * b
        } else {
            proof {
                assert(a * b > usize::MAX) by (nonlinear_arith)
                    requires
                        b > 0,
                        a > usize::MAX / b,
                        usize::MAX / b == usize::MAX as int / b as int,
                ;
            }
            usize::MAX
        }
    }
}

/// Estimated hash-table footprint: control byte plus key-value pair per
/// bucket, with buckets at the next power of two above len * 8 / 7.
fn hashmap_overhead(len: usize, kv_size: usize) -> (r: usize)
    ensures
        r == hashmap_overhead_s(len as nat, kv_size as nat),
        r >= 1,
{
    let scaled = sat_mul(len, 8) / 7;
    let buckets = next_pow2(scaled);
    let m = sat_mul(buckets, sat_add(1, kv_size));
    if m >= 1 {
        m
    } else {
        1
    }
}

/// Smallest power of two at or above `x` (saturating at the largest
/// representable power of two).
fn next_pow2(x: usize) -> (r: usize)
    ensures
        r == next_pow2_from(1, x as nat),
        r >= 1,
{
    let mut p: usize = 1;
    while p < x && p <= usize::MAX / 2
        invariant
            p >= 1,
            next_pow2_from(p as nat, x as nat) == next_pow2_from(1, x as nat),
        decreases usize::MAX - p,
    {
        p = p * 2;
    }
    p
}

/// When one step of a load fails to intern, the whole load fails.
proof fn lemma_load_ok_prefix_fails(m: GraphModel, rs: Seq<EdgeRecordV>, i: int)
    requires
        0 <= i < rs.len(),
        !m.load_m(rs.take(i)).register_endpoints_m(rs[i]).intern_ok(rs[i].rel_type),
    ensures
        !m.load_ok(rs),
    decreases rs.len(),
{
    if rs.len() == i + 1 {
        assert(rs.take(i) =~= rs.drop_last());
        assert(rs[i] == rs.last());
    } else {
        assert(rs.drop_last().take(i) =~= rs.take(i));
        assert(rs.drop_last()[i] == rs[i]);
        lemma_load_ok_prefix_fails(m, rs.drop_last(), i);
    }
}

/// Registering a node preserves order/metadata consistency.
proof fn lemma_register_node_wf(m: GraphModel, id: NodeId, m2: GraphModel)
    requires
        m.node_order.no_duplicates(),
        forall|nid: NodeId| m.nodes.contains_key(nid) <==> #[trigger] m.node_order.contains(nid),
        m2.nodes == if m.nodes.contains_key(id) {
            m.nodes
        } else {
            m.nodes.insert(id, m2.nodes[id])
        },
        m2.node_order == if m.nodes.contains_key(id) {
            m.node_order
        } else {
            m.node_order.push(id)
        },
    ensures
        m2.node_order.no_duplicates(),
        forall|nid: NodeId| m2.nodes.contains_key(nid) <==> #[trigger] m2.node_order.contains(nid),
{
    if m.nodes.contains_key(id) {
    } else {
        assert(!m.node_order.contains(id));
        assert forall|a: int, b: int|
            0 <= a < b < m2.node_order.len() implies m2.node_order[a] != m2.node_order[b] by {
            if b < m2.node_order.len() - 1 {
                assert(m.node_order[a] != m.node_order[b]);
            } else {
                assert(m2.node_order[b] == id);
                assert(m.node_order[a] == m2.node_order[a]);
                assert(m.node_order.contains(m.node_order[a]));
            }
        }
        assert forall|nid: NodeId|
            m2.nodes.contains_key(nid) <==> #[trigger] m2.node_order.contains(nid) by {
            if nid == id {
                assert(m2.node_order.last() == id);
                assert(m2.node_order.contains(id));
            } else {
                assert forall|j: int|
                    0 <= j < m2.node_order.len() && m2.node_order[j] == nid implies
                    m.node_order.contains(nid) by {
                    assert(j < m.node_order.len());
                    assert(m.node_order[j] == nid);
                }
                if m.node_order.contains(nid) {
                    let j = choose|j: int| 0 <= j < m.node_order.len() && m.node_order[j] == nid;
                    assert(m2.node_order[j] == nid);
                    assert(m2.node_order.contains(nid));
                }
            }
        }
    }
}

/// Mirror and interner well-formedness carry over to a model with the same
/// adjacency and relationship names.
proof fn lemma_mirror_preserved(a: GraphModel, b: GraphModel)
    requires
        a.mirror_ok(),
        b.out_adj == a.out_adj,
        b.in_adj == a.in_adj,
    ensures
        b.mirror_ok(),
{
    assert forall|u: NodeId, v: NodeId, rt: RelTypeId, c: Option<u32>|
        #[trigger] b.count_out(u, v, rt, c) == b.count_in(u, v, rt, c) by {
        assert(b.out_edges(u) == a.out_edges(u));
        assert(b.in_edges(v) == a.in_edges(v));
        assert(a.count_out(u, v, rt, c) == a.count_in(u, v, rt, c));
    }
}

fn clone_opt(o: &Option<String>) -> (r: Option<String>)
    ensures
        r == *o,
{
    match o {
        Some(s) => Some(s.clone()),
        None => None,
    }
}

/// Insert or overwrite a key in the association list.
fn assoc_put(v: &mut Vec<(String, NodeId)>, key: String, val: NodeId)
    requires
        assoc_keys_unique(old(v)@),
    ensures
        assoc_keys_unique(final(v)@),
        assoc_view(final(v)@) == assoc_view(old(v)@).insert(key@, val),
{
    let n = v.len();
    for i in 0..n
        invariant
            assoc_keys_unique(v@),
            v == old(v),
            n == v@.len(),
            forall|j: int| 0 <= j < i ==> (#[trigger] v@[j]).0@ != key@,
    {
        if v[i].0 == key {
            let ghost s = v@;
            v.set(i, (key, val));
            proof {
                lemma_assoc_view_update(s, i as int, v@[i as int]);
                assert forall|a: int, b: int|
                    0 <= a < b < v@.len() implies (#[trigger] v@[a]).0@ != (#[trigger] v@[b]).0@ by {
                    assert(v@[a].0@ == s[a].0@);
                    assert(v@[b].0@ == s[b].0@);
                }
            }
            return ;
        }
    }
    let ghost s = v@;
    v.push((key, val));
    proof {
        assert(v@.drop_last() =~= s);
        assert(v@.last().0@ == key@);
        assert(assoc_view(v@) == assoc_view(s).insert(key@, val));
        assert forall|a: int, b: int|
            0 <= a < b < v@.len() implies (#[trigger] v@[a]).0@ != (#[trigger] v@[b]).0@ by {
            if b < v@.len() - 1 {
                assert(v@[a].0@ == s[a].0@);
                assert(v@[b].0@ == s[b].0@);
            } else {
                assert(v@[a].0@ == s[a].0@);
                assert(v@[b].0@ == key@);
            }
        }
    }
}

/// Insert a key into the association list only when it is absent.
fn assoc_put_if_absent(v: &mut Vec<(String, NodeId)>, key: String, val: NodeId)
    requires
        assoc_keys_unique(old(v)@),
    ensures
        assoc_keys_unique(final(v)@),
        assoc_view(final(v)@) == if assoc_view(old(v)@).contains_key(key@) {
            assoc_view(old(v)@)
        } else {
            assoc_view(old(v)@).insert(key@, val)
        },
{
    let n = v.len();
    for i in 0..n
        invariant
            assoc_keys_unique(v@),
            v == old(v),
            n == v@.len(),
            forall|j: int| 0 <= j < i ==> (#[trigger] v@[j]).0@ != key@,
    {
        if v[i].0 == key {
            proof {
                lemma_assoc_view_entry(v@, i as int);
            }
            return ;
        }
    }
    proof {
        lemma_assoc_view_absent(v@, key@);
    }
    let ghost s = v@;
    v.push((key, val));
    proof {
        assert(v@.drop_last() =~= s);
        assert(v@.last().0@ == key@);
        assert(assoc_view(v@) == assoc_view(s).insert(key@, val));
        assert forall|a: int, b: int|
            0 <= a < b < v@.len() implies (#[trigger] v@[a]).0@ != (#[trigger] v@[b]).0@ by {
            if b < v@.len() - 1 {
                assert(v@[a].0@ == s[a].0@);
                assert(v@[b].0@ == s[b].0@);
            } else {
                assert(v@[a].0@ == s[a].0@);
                assert(v@[b].0@ == key@);
            }
        }
    }
}

/// A graph whose containers are all empty has the empty model and is
/// well formed.
proof fn lemma_fresh_graph(g: &Graph)
    requires
        g@.nodes =~= Map::<NodeId, NodeInfoV>::empty(),
        g@.node_order =~= Seq::<NodeId>::empty(),
        g@.out_adj =~= Map::<NodeId, Seq<Edge>>::empty(),
        g@.in_adj =~= Map::<NodeId, Seq<Edge>>::empty(),
        g@.app_index =~= Map::<Seq<char>, NodeId>::empty(),
        g@.rel_names =~= Seq::<Seq<char>>::empty(),
        g@.edge_total == 0,
        g.repr_inv(),
    ensures
        g@ =~= GraphModel::empty(),
        g.wf(),
{
    assert forall|u: NodeId, v: NodeId, rt: RelTypeId, c: Option<u32>|
        #[trigger] g@.count_out(u, v, rt, c) == g@.count_in(u, v, rt, c) by {
        assert(g@.out_edges(u) =~= Seq::<Edge>::empty());
        assert(g@.in_edges(v) =~= Seq::<Edge>::empty());
    }
}

} // verus!
