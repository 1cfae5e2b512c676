//! The edge-collapse queue and the decisions of a decimation run.

pub mod edge;
pub mod edge_hasher;
pub mod queue;
pub mod decimate;

pub use edge::Edge;
pub use edge_hasher::EdgeHasher;
pub use decimate::{Decimator, Step};
