use vstd::prelude::*;
use crate::bitarray::{BitArray, BitState};
use crate::engine::func::gates::{Gate, Not, TriState};
use crate::engine::func::wiring::{Constant, Input, Output};
use crate::engine::func::splitter::Splitter;
use crate::engine::func::ports::{
    PortProperties, PortUpdate, RunContext, ports_match, port_views, update_views,
};

verus! {

/// The interface defining how a digital logic component operates.
///
/// `port_spec` gives the properties of the component's ports, `init_spec`
/// its initial port values, and `run_spec` the updates it makes when run
/// with a given set of old and new port values.
pub trait Component {
    /// The properties of all ports of the component.
    spec fn port_spec(&self) -> Seq<PortProperties>;

    /// The initial port values, given the floating values of all ports.
    spec fn init_spec(&self, state: Seq<Seq<BitState>>) -> Seq<Seq<BitState>>;

    /// The (port index, value) updates of a run with the given port values.
    spec fn run_spec(&self, old_ports: Seq<Seq<BitState>>, new_ports: Seq<Seq<BitState>>) -> Seq<(int, Seq<BitState>)>;

    /// Returns the vector holding the properties of all ports associated with the component.
    fn ports(&self) -> (r: Vec<PortProperties>)
        ensures
            r@ == self.port_spec(),
    ;

    /// Initializes the port state of the component.
    fn initialize_port_state(&self, state: &mut [BitArray])
        requires
            ports_match(self.port_spec(), port_views(old(state)@)),
        ensures
            final(state)@.len() == old(state)@.len(),
            port_views(final(state)@) == self.init_spec(port_views(old(state)@)),
    ;

    /// "Runs" the component's function on a set of inputs, outputting a vector of updated ports
    /// after the function is applied.
    ///
    /// The port values must match the port properties given by [`Component::ports`].
    fn run(&self, ctx: RunContext<'_>) -> (r: Vec<PortUpdate>)
        requires
            ports_match(self.port_spec(), port_views(ctx.old_ports@)),
            ports_match(self.port_spec(), port_views(ctx.new_ports@)),
        ensures
            update_views(r@) == self.run_spec(port_views(ctx.old_ports@), port_views(ctx.new_ports@)),
    {
        self.run_inner(ctx)
    }

    /// Inner run function that, given a set of inputs, applies its modifications to output a vector
    /// of updated ports. This function is wrapped by run.
    fn run_inner(&self, ctx: RunContext<'_>) -> (r: Vec<PortUpdate>)
        requires
            ports_match(self.port_spec(), port_views(ctx.old_ports@)),
            ports_match(self.port_spec(), port_views(ctx.new_ports@)),
        ensures
            update_views(r@) == self.run_spec(port_views(ctx.old_ports@), port_views(ctx.new_ports@)),
    ;
}

/// An enum that represents all supported digital logic components.
#[derive(Debug, PartialEq, Eq, Clone, Copy, Hash)]
pub enum ComponentFn {
    // Gates
    Gate(Gate),
    Not(Not),
    TriState(TriState),
    // Wiring
    Input(Input),
    Output(Output),
    Constant(Constant),
    Splitter(Splitter),
}

impl Component for ComponentFn {
    open spec fn port_spec(&self) -> Seq<PortProperties> {
        match self {
            ComponentFn::Gate(c) => c.port_spec(),
            ComponentFn::Not(c) => c.port_spec(),
            ComponentFn::TriState(c) => c.port_spec(),
            ComponentFn::Input(c) => c.port_spec(),
            ComponentFn::Output(c) => c.port_spec(),
            ComponentFn::Constant(c) => c.port_spec(),
            ComponentFn::Splitter(c) => c.port_spec(),
        }
    }

    open spec fn init_spec(&self, state: Seq<Seq<BitState>>) -> Seq<Seq<BitState>> {
        match self {
            ComponentFn::Gate(c) => c.init_spec(state),
            ComponentFn::Not(c) => c.init_spec(state),
            ComponentFn::TriState(c) => c.init_spec(state),
            ComponentFn::Input(c) => c.init_spec(state),
            ComponentFn::Output(c) => c.init_spec(state),
            ComponentFn::Constant(c) => c.init_spec(state),
            ComponentFn::Splitter(c) => c.init_spec(state),
        }
    }

    open spec fn run_spec(&self, old_ports: Seq<Seq<BitState>>, new_ports: Seq<Seq<BitState>>) -> Seq<(int, Seq<BitState>)> {
        match self {
            ComponentFn::Gate(c) => c.run_spec(old_ports, new_ports),
            ComponentFn::Not(c) => c.run_spec(old_ports, new_ports),
            ComponentFn::TriState(c) => c.run_spec(old_ports, new_ports),
            ComponentFn::Input(c) => c.run_spec(old_ports, new_ports),
            ComponentFn::Output(c) => c.run_spec(old_ports, new_ports),
            ComponentFn::Constant(c) => c.run_spec(old_ports, new_ports),
            ComponentFn::Splitter(c) => c.run_spec(old_ports, new_ports),
        }
    }

    fn ports(&self) -> (r: Vec<PortProperties>) {
        match self {
            ComponentFn::Gate(c) => c.ports(),
            ComponentFn::Not(c) => c.ports(),
            ComponentFn::TriState(c) => c.ports(),
            ComponentFn::Input(c) => c.ports(),
            ComponentFn::Output(c) => c.ports(),
            ComponentFn::Constant(c) => c.ports(),
            ComponentFn::Splitter(c) => c.ports(),
        }
    }

    fn initialize_port_state(&self, state: &mut [BitArray]) {
        match self {
            ComponentFn::Gate(c) => c.initialize_port_state(state),
            ComponentFn::Not(c) => c.initialize_port_state(state),
            ComponentFn::TriState(c) => c.initialize_port_state(state),
            ComponentFn::Input(c) => c.initialize_port_state(state),
            ComponentFn::Output(c) => c.initialize_port_state(state),
            ComponentFn::Constant(c) => c.initialize_port_state(state),
            ComponentFn::Splitter(c) => c.initialize_port_state(state),
        }
    }

    fn run(&self, ctx: RunContext<'_>) -> (r: Vec<PortUpdate>) {
        match self {
            ComponentFn::Gate(c) => c.run(ctx),
            ComponentFn::Not(c) => c.run(ctx),
            ComponentFn::TriState(c) => c.run(ctx),
            ComponentFn::Input(c) => c.run(ctx),
            ComponentFn::Output(c) => c.run(ctx),
            ComponentFn::Constant(c) => c.run(ctx),
            ComponentFn::Splitter(c) => c.run(ctx),
        }
    }

    fn run_inner(&self, ctx: RunContext<'_>) -> (r: Vec<PortUpdate>) {
        match self {
            ComponentFn::Gate(c) => c.run_inner(ctx),
            ComponentFn::Not(c) => c.run_inner(ctx),
            ComponentFn::TriState(c) => c.run_inner(ctx),
            ComponentFn::Input(c) => c.run_inner(ctx),
            ComponentFn::Output(c) => c.run_inner(ctx),
            ComponentFn::Constant(c) => c.run_inner(ctx),
            ComponentFn::Splitter(c) => c.run_inner(ctx),
        }
    }
}

} // verus!
