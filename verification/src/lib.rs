//! In-memory graph analytics core: a directed multigraph of content nodes
//! (documents, media, tags) with typed, weighted relationships, and the
//! read-only queries a visualizer issues against it — deterministic layout
//! seeding, dependency-impact analysis, unweighted shortest paths,
//! PageRank-style centrality and weakly-connected community detection.

mod community;
mod impact;
mod layout;
mod path;
mod rank;
mod store;

pub use community::communities_from;
pub use community::community_map;
pub use community::flood;
pub use community::is_upath;
pub use community::lemma_communities_partition;
pub use community::lemma_uconn_refl;
pub use community::lemma_uconn_step;
pub use community::lemma_uconn_sym;
pub use community::lemma_uconn_trans;
pub use community::lemma_uexpand_in_cover;
pub use community::lemma_uexpand_in_range;
pub use community::lemma_uexpand_out_cover;
pub use community::lemma_uexpand_out_range;
pub use community::linked;
pub use community::uconn;
pub use community::uexpand_in;
pub use community::uexpand_out;
pub use impact::ImpactAnalysis;
pub use impact::backlink_sources;
pub use impact::discovery;
pub use impact::expand;
pub use impact::impact_score_milli_of;
pub use impact::indirect_of;
pub use impact::lemma_edges_wf_drop_last;
pub use impact::lemma_expand_range;
pub use impact::lemma_isolated_node_impact;
pub use impact::out_targets;
pub use impact::resolve_all;
pub use impact::seed_handles;
pub use layout::LayoutSeed;
pub use path::bfs_dists;
pub use path::dist_expand;
pub use path::dist_map;
pub use path::first_pred;
pub use path::has_edge;
pub use path::lemma_dist_expand_props;
pub use path::lemma_first_pred_props;
pub use path::lemma_walk_back_valid;
pub use path::path_ids;
pub use path::walk_back;
pub use rank::RANK_BASE_TOTAL;
pub use rank::RANK_SCALE;
pub use rank::base_rank;
pub use rank::contrib_sum;
pub use rank::lemma_rank_mass_bounded;
pub use rank::lemma_rank_mass_drains;
pub use rank::next_rank;
pub use rank::outdeg;
pub use rank::rank_mass;
pub use rank::ranks_after;
pub use rank::share;
pub use rank::shares_sum;
pub use store::CartographyEngine;
pub use store::GraphEdge;
pub use store::GraphError;
pub use store::GraphNode;
pub use store::StoredEdge;
pub use store::edges_wf;
pub use store::lemma_resolve_in_range;
pub use store::resolve_id;
