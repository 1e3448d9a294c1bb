//! An embeddable in-memory property graph: a store of vertices and directed
//! labeled edges, with per-entity property tables, a reverse index from
//! (key, value) pairs to entity identifiers, per-vertex adjacency lists, and
//! chainable traversal steps over the store.

mod api;
mod graph;
mod index;
mod props;
mod seqs;
mod traversal;

pub use props::PropTable;
pub use props::pair_values;
pub use props::pairs_view;
pub use index::IndexTable;
pub use graph::Adj;
pub use graph::EdgeInfo;
pub use graph::EdgeRec;
pub use graph::Graph;
pub use graph::GraphError;
pub use graph::VertexRec;
pub use graph::edges_kept;
pub use graph::edge_kept_at;
pub use graph::same_entities;
pub use graph::same_eprops;
pub use graph::same_eprops_except;
pub use graph::same_vprops;
pub use graph::same_vprops_except;
pub use seqs::ascending;
pub use seqs::keep_ids;
pub use seqs::seq_remove_u64;
pub use traversal::ElemKind;
pub use traversal::Traversal;
pub use traversal::flat_in;
pub use traversal::flat_out;
pub use traversal::lemma_flat_in_props;
pub use traversal::lemma_flat_out_props;
pub use graph::lemma_no_dangling;
pub use graph::lemma_first_edge_adjacency;
pub use graph::lemma_snapshot_deterministic;
pub use graph::lemma_lookup_sees_set;
pub use graph::lemma_lookup_sees_remove;
pub use api::addV;
pub use api::addE;
pub use api::V;
pub use api::E;
pub use api::V_has;
pub use api::outE;
pub use api::inE;
