//! The arguments of a coordinator.

use vstd::prelude::*;

verus! {

/// The arguments that a coordinator is started with.
#[derive(Debug, Clone)]
pub struct CliArgs {
    /// Whether the coordinator is the child coordinator of its host.
    pub runner: bool,
    /// Whether the coordinator stands alone on one host, without children.
    pub dev: bool,
}

} // verus!
