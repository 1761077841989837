//! Digital logic components and the port interface they share.

pub mod ports;
pub mod gates;
pub mod wiring;
pub mod splitter;
pub mod component;

pub use ports::{
    lemma_update_views_push,
    BitSize, PortProperties, PortType, PortUpdate, RunContext, Sensitivity, floating_ports,
    port_list, ports_match, update_views, port_views,
};




pub use component::{Component, ComponentFn};
pub use gates::{Gate, GateKind, Not, TriState, MAX_GATE_INPUTS, MIN_GATE_INPUTS};
pub use wiring::{Constant, Input, Output};
pub use splitter::{Splitter, SplitterConfig, splitter_ports_range, splitter_ports_slice};
