//! The types and keys that the coordinators, the workers and their clients share.

pub mod env;
pub mod ids;
pub mod messages;
pub mod objects;
pub mod partitionner;
pub mod region_db;
pub mod serialization;
pub mod simulation;
pub mod zenoh;
