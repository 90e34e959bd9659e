//! Verified core of a mesh-boolean benchmark harness: the generators, the
//! bookkeeping and the decision logic that every measurement depends on.

pub mod cellular;
pub mod contact;
pub mod corpus;
pub mod edge_sort;
pub mod enclosure;
pub mod memory;
pub mod menger;
pub mod mesh;
pub mod ops;
pub mod scorecard;
pub mod sphere;
pub mod sphere_grid;
pub mod watertight;
