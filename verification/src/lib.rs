//! A flattened index over a multi-stage, exponentially branching scenario
//! tree, together with the decision-grid projection and the historical-data
//! sampling and compression pipeline that assigns values to tree nodes.

pub mod cluster;
pub mod dedup;
pub mod grid;
pub mod regrid;
pub mod sample;
pub mod shape;
pub mod types;
pub mod weights;
