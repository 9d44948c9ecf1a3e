//! Dynamic-programming k-nearest-neighbor queries over birth-ordered point sets.
//!
//! Points are kept in the order in which they were inserted. Each point owns a
//! sorted list of later points (its successors); a query walks these lists from
//! the earliest active point, always moving to a strictly closer successor, and
//! expands the best records found. With a complete successor table the result
//! equals a brute-force scan.
use vstd::prelude::*;

pub mod error;
pub mod sorted;
pub mod table;
pub mod bounded;
pub mod query;
pub mod index;
pub mod mesh;
pub mod registry;

pub use error::Error;
pub use table::SuccessorTable;
pub use bounded::Neighbor;
pub use index::{DeleteReport, ManifoldKnn, QueryWorkspace};
pub use mesh::{KdNode, KdTree, TetMesh, Tetrahedron};
pub use registry::VertexRegistry;

verus! {

} // verus!
