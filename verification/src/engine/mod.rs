//! The simulation engine's component logic.

use vstd::prelude::*;

pub mod func;

pub use func::{Component, ComponentFn, PortProperties, PortType, PortUpdate, RunContext};

verus! {

/// The key of a value node of a circuit: the value shared by every wire and
/// port of one connected mesh.
#[derive(Debug, Clone, Copy, PartialEq, Eq, PartialOrd, Ord, Hash, Structural)]
pub struct ValueKey(pub u64);

} // verus!
