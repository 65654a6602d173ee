//! A dependency resolver: register nodes and the nodes they depend on, then walk
//! the dependencies of a target in an order where each node comes after
//! everything it depends on.
//!
//! `DepGraph` holds nodes of any type with `==`; `DepGraph::dependencies_of`
//! gives a cursor that yields one node per call of `next`, the target last, and
//! stops on a dependency cycle. Nodes marked satisfied, and those only reached
//! through them, are left out. `dglr::DepGraph` is the same walk over string
//! names, computed at once.
//!
//! The walk is modelled in `model`; `laws` proves what holds of every walk.

pub mod dglr;
pub mod error;
pub mod graph;
pub mod laws;
pub mod model;
pub mod relation;

pub use error::SolventError;
pub use graph::{DepGraph, DepGraphIterator};
