//! The bookkeeping of the collider trees of the broad phase.
//!
//! The bounding boxes of the colliders, and the hierarchies of boxes, are kept elsewhere. Here are the
//! proxies that stand for colliders in the trees, and the record of which proxies moved.

pub mod aabbs;
pub mod enlarged;
pub mod events;
pub mod laws;
pub mod moved;
pub mod proxy;
pub mod proxy_laws;
pub mod tree;
pub mod update;
