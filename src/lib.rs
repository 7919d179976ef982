//! Node identity and tree management for a flexbox-style layout engine.
//!
//! A [`node::Taffy`] owns a dense arena of node records. Hosts refer to nodes
//! through copyable [`node::Node`] handles, which stay valid while the arena is
//! compacted and are never handed out twice.
pub mod error;
pub mod geometry;
pub mod id;
pub mod laws;
pub mod node;
