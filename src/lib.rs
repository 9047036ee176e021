//! Spatial indices for mapping moving agents to nearby buildings: a 2-d k-d tree
//! with bounded k-nearest-neighbour queries, and a Morton-order quadtree that
//! co-partitions agents and buildings before handing small cells to a mapper.
pub mod buildings;
pub mod counting;
pub mod geo;
pub mod kd_tree;
mod parallel;
pub mod quadtree;
pub mod unit_fixed;
pub mod vehicle_sim;
pub mod z_order;

pub use buildings::Building;
pub use geo::{Region, UTMCoordinates};
pub use kd_tree::UTMTree;
pub use vehicle_sim::{parse_timestamp, Agent};
