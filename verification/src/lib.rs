//! Structural core of the Nagare holonomy learner: graph and lattice builders,
//! clique-tree geometry, index layouts of the closed-form kernels, adaptive
//! quadtree partitions and the small configuration types they share.
//!
//! Everything here is integer or index logic, stated and proved with Verus.
pub mod curvature_field;
pub mod curvature_task;
pub mod cv_data;
pub mod datasets;
pub mod junction_tree;
pub mod learner;
pub mod mesh_tensor;
pub mod ops;
pub mod tabular;
pub mod tabular_graph;
pub mod vision;

pub use datasets::{gather_batch, shuffle_point_order, Task};
pub use junction_tree::{balanced_binary_tree, Clique};
pub use learner::{GateMode, StressKind};
pub use ops::conv2d::ConvShape;
pub use ops::cpml_tier::{cycle_incidence_degrees, tier_cycle_indices};
pub use ops::dihedral::DihedralGroup;
pub use ops::hsikan::{HsikanConfig, HsikanEdges, SplineKind};
pub use ops::kan::KanConfig;
pub use ops::oriented_descriptor::oriented_dim;
pub use ops::patch_projection::{PatchCache, PatchConfig};
pub use ops::phase_pool::phase_pool_dim;
pub use ops::project_alpha_mix::ProjectAlphaMixShape;
pub use ops::quadtree::Quadtree;
pub use ops::rotor_spike::rotor_spike_dim;
pub use ops::signed_scatter::{SignedScatterLanes, SignedScatterLayout};
pub use vision::{phase_feature_dim, PhaseFeature};

use vstd::prelude::*;

verus! {

/// Per-vertex geometric features of the local learner.
pub const VERTEX_FEATURES: usize = 7;

/// Structural features pooled per sample.
pub const STRUCTURAL_FEATURES: usize = 4 * VERTEX_FEATURES;

/// Local features: the structural features and one entropy-gating term.
pub const LOCAL_FEATURES: usize = STRUCTURAL_FEATURES + 1;

/// Rank of the holonomy projection basis.
pub const PROJECTION_RANK: usize = 6;

} // verus!
