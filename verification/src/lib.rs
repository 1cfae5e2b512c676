//! Triangle-mesh simplification by edge collapse.
//!
//! A flat indexed mesh ([`mesh::SharedMesh`]) is turned into a connected mesh
//! ([`mesh::ConnectedMesh`]), which has one node for each corner of each
//! triangle. The nodes are linked into triangles and, round each vertex, into
//! a ring. An edge collapse ([`mesh::ConnectedMesh::collapse_edge_to_a`])
//! merges two vertices and removes the triangles between them; a decimation
//! run ([`mesh::decimate::Decimator`]) collapses the edges in the order of
//! their priorities until few enough triangles are left. The connected mesh
//! is turned back into a flat mesh afterwards.
//!
//! The attributes of the vertices are values of a type parameter. The
//! library stores, copies and compares them; their arithmetic, and with it
//! the scoring of the edges, is the caller's.
//!
//! Every function is verified against its contract. The contracts of the
//! mesh are stated over its node array and its rings: see
//! [`mesh::topology`].

pub mod base;
pub mod mesh;
pub mod utils;
