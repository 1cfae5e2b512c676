//! The two mesh representations and the conversions between them.

pub mod node;
pub mod topology;
pub mod collapse;
pub mod validate;
pub mod weld;
pub mod connected_mesh;
pub mod group;
pub mod shared_mesh;
pub mod builders;
pub mod queries;
pub mod laws;
pub mod decimate;

pub use connected_mesh::ConnectedMesh;
pub use group::Group;
pub use node::Node;
pub use shared_mesh::SharedMesh;
