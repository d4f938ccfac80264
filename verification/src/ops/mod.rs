//! Index and shape logic of the closed-form operators.
pub mod dihedral;
pub mod fsr_mixer;
pub mod patch_projection;
pub mod quadtree;
pub mod catmull_rom;
pub mod conv2d;
pub mod kan;
pub mod kochanek_bartels;
pub mod oriented_descriptor;
pub mod oriented_head;
pub mod phase_pool;
pub mod project_alpha_mix;
pub mod rotor_spike;
pub mod cpml_tier;
pub mod hsikan;
pub mod signed_scatter;
