//! In-memory graph traversal engine.
//!
//! An adjacency-list graph store with interned relationship types and an
//! application-level identifier index, five traversal queries (BFS
//! neighborhood, unweighted shortest path, k-shortest simple paths,
//! reachable-subgraph extraction, degree centrality), and a
//! generation-based cache-freshness protocol.
//!
//! Edges are stored bidirectionally: an edge u→v appears once in the
//! outgoing list of u and once, mirrored, in the incoming list of v, so
//! that forward, reverse and undirected traversals all run in time
//! proportional to the degrees of the nodes they touch.

mod degree;
mod generation;
mod graph;
mod laws;
mod loader;
mod reachability;
mod subgraph;
mod traversal;
mod util;
mod yen;

pub use degree::{degree_centrality, lemma_degree_ranking_unique, DegreeResult};
pub use generation::{
    ensure_fresh, lemma_generation_monotonic, snapshot_status, FreshnessAction, GenerationStore,
    SnapshotStatus,
};
pub use graph::{Edge, EdgeRecord, Graph, GraphError, NodeId, NodeInfo, RelTypeId, MAX_REL_TYPES};
pub use laws::{
    app_index_registered, endpoints_registered, lemma_both_contains_directed,
    lemma_direction_duality, lemma_empty_store_invariants, lemma_load_keeps_store_invariants,
    lemma_neighborhood_duality, lemma_parallel_edge_idempotent,
    lemma_reach_endpoints_registered, lemma_unknown_confidence_passes, rel_ids_valid,
};
pub use loader::{exceeds_memory_limit, load_vertex_row, matches_filter, resolve_node};
pub use reachability::{Direction, TraversalDirection};
pub use subgraph::{extract_subgraph, SubgraphEdge, SubgraphResult};
pub use traversal::{bfs_neighborhood, shortest_path, NeighborResult, PathStep, TraversalResult};
pub use util::{check_non_negative, direction_str, parse_direction, parse_node_id};
pub use yen::{k_shortest_paths, shares_root, spur_blocked, spur_exclusions};
