//! Verified core of a digital-logic circuit simulator: four-state bit arrays,
//! logic components and their port behaviour, component geometry, and the
//! range map that keeps wires on a grid.

pub mod bitarray;
pub mod engine;
pub mod middle_end;
pub mod glue;
