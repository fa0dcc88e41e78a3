//! Persistent simulation islands, contact and joint bookkeeping, and broad phase
//! bookkeeping for a rigid body engine.

pub mod bit_vec;
pub mod body_colliders;
pub mod body_size_metrics;
pub mod collider_tree;
pub mod contact_graph;
pub mod contact_laws;
pub mod entity;
pub mod float_bits;
pub mod islands;
pub mod joint_graph;
pub mod joint_laws;
pub mod joints;
pub mod narrow_phase;
pub mod rigid_body;
pub mod shapes;
pub mod solver_bodies;
pub mod stable_vec;
pub mod ticks;
