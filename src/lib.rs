//! Spatial structure of point clouds on an integer grid.
//!
//! A triangulation of the points is turned into a derived graph (edges with
//! their lengths, triangles with their longest "terminal" edge, vertex
//! adjacency). Two analyses run over it: DELFIN grows void regions from the
//! longest terminal edges, and DTSCAN clusters densely connected vertices.
//!
//! Coordinates are integers, so every measure is exact: edge lengths are kept
//! squared and triangle areas doubled, and thresholds are compared in the
//! same units.
use vstd::prelude::*;

pub mod construct;
pub mod delfin;
pub mod dtscan;
pub mod geometry;
pub mod graph;
pub mod hull;
pub mod merge;
pub mod mesh;
pub mod session;

pub use construct::{build_graph, build_graph_range, GraphError};
pub use delfin::delfin;
pub use dtscan::dtscan;
pub use geometry::{Edge, Point, TriangleData};
pub use graph::{EdgeRecord, GeometryData};
pub use hull::HullError;
pub use mesh::{build_mesh_graph, Cell, Point3D};
pub use session::Xenobalanus;

verus! {

} // verus!
