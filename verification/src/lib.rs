//! Verified core of a graph-structured key/value-cache memory: nodes that
//! own token spans, directed weighted edges between them, region queries,
//! structural maintenance (pruning, merging, linking), zoning of regions
//! and heatmap layers, clustering by label, a delta/lineage store, the
//! decisions of the semantic firewall and roundabout, the launch plan of GPU
//! mask building, and the integer parts of the tuning loops.
//!
//! Floating-point attributes (scores, weights, polygon geometry) are carried
//! as opaque payloads (`WebNode::data`, `WebEdge::weight`); decisions that
//! depend on their values are taken by the caller and handed in as plain
//! values.

pub mod types;
pub mod web;
pub mod region;
pub mod prune;
pub mod dax;
pub mod zoning;
pub mod tuning;
pub mod masks;
pub mod parallel;
pub mod semantic;
pub mod export;
pub mod heatmap;
pub mod cluster;

pub use cluster::{Cluster, KvWebClusters};
pub use dax::{DeltaBuffer, DeltaRecord, DeltaStore, EffectiveView, MasterBuffer};
pub use masks::{kv_subset_indices, region_mask, select_region, soft_mask_levels, tokens_to_indices};
pub use parallel::bfs_region_parallel;
pub use region::bfs_region;
pub use semantic::{DoorPhase, FirewallHistory, RouteState, SemanticPriority, SemanticRoundaboutConfig};
pub use tuning::{
    chunk_region, enable_compression_at_threshold, optimize_kv_web_capacities, tune_gpu_state,
    GpuOptimizationConfig, GpuOptimizationState, KvWebOptimizationConfig, KvWebOptimizationState,
    RuntimeScheduler, RuntimeSchedulerConfig, RuntimeSchedulerState, TransformerOptimizationState,
};
pub use types::{EdgeKind, KvWebCompressor, TokenId, WebNodeId};
pub use web::{KvWeb, WebEdge, WebNode};
pub use zoning::{build_cross_link_grid_from_regions, build_zones, KvCrossLinkGrid, RegionZoning, Zone};
