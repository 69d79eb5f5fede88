//! Coordination core of a rigid-body simulation that is spread over many
//! worker processes: space is cut into grid regions, each region is simulated
//! by one owner, and bodies migrate between owners as they move.

pub mod api_types;
pub mod geometry;
pub mod partitionner;
pub mod runner;
pub mod sequences;
pub mod text;
