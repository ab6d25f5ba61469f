//! Triangle meshes as corner tables: construction from indexed triangles, walks and
//! iteration over faces, vertices, edges and one-rings, and decimation by edge collapse.

pub mod corner_table;
pub mod traversal;
pub mod one_ring;
pub mod edge_collapse;
pub mod decimation;
