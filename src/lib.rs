//! Integer core of a diamond-square heightmap generator: sizing of the padded
//! square grid, the dimensions a run is configured with, the order in which the
//! subdivision passes visit the grid, and cropping of the finished grid.

pub mod sizing;
pub mod extent;
pub mod schedule;
pub mod schedule_facts;
pub mod output;
