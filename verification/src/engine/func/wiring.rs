use vstd::prelude::*;
use crate::bitarray::{BitArray, BitState};
use crate::bitarray::ranged::clamp_u8;
use crate::engine::func::component::Component;
use crate::engine::func::ports::{
    BitSize, PortProperties, PortType, PortUpdate, RunContext, port_views, update_views,
};

verus! {

/// An input.
#[derive(Debug, PartialEq, Eq, Clone, Copy, Hash)]
pub struct Input {
    bitsize: BitSize,
}

impl View for Input {
    /// The bitsize.
    type V = u8;

    closed spec fn view(&self) -> u8 {
        self.bitsize@
    }
}

impl Input {
    /// Creates a new input with specified bitsize.
    pub fn new(bitsize: u8) -> (r: Self)
        ensures
            r@ == clamp_u8(bitsize, 1, 64),
    {
        Input { bitsize: BitSize::new_clamped(bitsize) }
    }

    /// Gets the bitsize of this component.
    pub fn get_bitsize(&self) -> (r: u8)
        ensures
            r == self@,
            1 <= r <= 64,
    {
        self.bitsize.get()
    }
}

impl Component for Input {
    open spec fn port_spec(&self) -> Seq<PortProperties> {
        seq![PortProperties { ty: PortType::Output, bitsize: self@ }]
    }

    open spec fn init_spec(&self, state: Seq<Seq<BitState>>) -> Seq<Seq<BitState>> {
        state
    }

    open spec fn run_spec(&self, old_ports: Seq<Seq<BitState>>, new_ports: Seq<Seq<BitState>>) -> Seq<(int, Seq<BitState>)> {
        Seq::empty()
    }

    fn ports(&self) -> (r: Vec<PortProperties>) {
        vec![PortProperties { ty: PortType::Output, bitsize: self.bitsize.get() }]
    }

    fn initialize_port_state(&self, state: &mut [BitArray]) {
    }

    fn run_inner(&self, ctx: RunContext<'_>) -> (r: Vec<PortUpdate>) {
        let r: Vec<PortUpdate> = Vec::new();
        assert(update_views(r@) =~= Seq::empty());
        r
    }
}

/// An output.
#[derive(Debug, PartialEq, Eq, Clone, Copy, Hash)]
pub struct Output {
    bitsize: BitSize,
}

impl View for Output {
    /// The bitsize.
    type V = u8;

    closed spec fn view(&self) -> u8 {
        self.bitsize@
    }
}

impl Output {
    /// Creates a new output with specified bitsize.
    pub fn new(bitsize: u8) -> (r: Self)
        ensures
            r@ == clamp_u8(bitsize, 1, 64),
    {
        Output { bitsize: BitSize::new_clamped(bitsize) }
    }

    /// Gets the bitsize of this component.
    pub fn get_bitsize(&self) -> (r: u8)
        ensures
            r == self@,
            1 <= r <= 64,
    {
        self.bitsize.get()
    }
}

impl Component for Output {
    open spec fn port_spec(&self) -> Seq<PortProperties> {
        seq![PortProperties { ty: PortType::Input, bitsize: self@ }]
    }

    open spec fn init_spec(&self, state: Seq<Seq<BitState>>) -> Seq<Seq<BitState>> {
        state
    }

    open spec fn run_spec(&self, old_ports: Seq<Seq<BitState>>, new_ports: Seq<Seq<BitState>>) -> Seq<(int, Seq<BitState>)> {
        Seq::empty()
    }

    fn ports(&self) -> (r: Vec<PortProperties>) {
        vec![PortProperties { ty: PortType::Input, bitsize: self.bitsize.get() }]
    }

    fn initialize_port_state(&self, state: &mut [BitArray]) {
    }

    fn run_inner(&self, ctx: RunContext<'_>) -> (r: Vec<PortUpdate>) {
        let r: Vec<PortUpdate> = Vec::new();
        assert(update_views(r@) =~= Seq::empty());
        r
    }
}

/// A constant.
#[derive(Debug, PartialEq, Eq, Clone, Copy, Hash)]
pub struct Constant {
    value: BitArray,
}

impl View for Constant {
    /// The value held.
    type V = Seq<BitState>;

    closed spec fn view(&self) -> Seq<BitState> {
        self.value@
    }
}

impl Constant {
    /// Creates a new constant holding `value`.
    pub fn new(value: BitArray) -> (r: Self)
        ensures
            r@ == value@,
    {
        Constant { value }
    }

    /// Gets the value which this constant holds.
    pub fn get_value(&self) -> (r: BitArray)
        ensures
            r@ == self@,
    {
        self.value
    }
}

impl Component for Constant {
    open spec fn port_spec(&self) -> Seq<PortProperties> {
        seq![PortProperties { ty: PortType::Output, bitsize: self@.len() as u8 }]
    }

    open spec fn init_spec(&self, state: Seq<Seq<BitState>>) -> Seq<Seq<BitState>> {
        state.update(0, self@)
    }

    open spec fn run_spec(&self, old_ports: Seq<Seq<BitState>>, new_ports: Seq<Seq<BitState>>) -> Seq<(int, Seq<BitState>)> {
        Seq::empty()
    }

    fn ports(&self) -> (r: Vec<PortProperties>) {
        vec![PortProperties { ty: PortType::Output, bitsize: self.value.len() }]
    }

    fn initialize_port_state(&self, state: &mut [BitArray]) {
        state[0] = self.value;
        assert(port_views(state@) =~= port_views(old(state)@).update(0, self@));
    }

    fn run_inner(&self, ctx: RunContext<'_>) -> (r: Vec<PortUpdate>) {
        let r: Vec<PortUpdate> = Vec::new();
        assert(update_views(r@) =~= Seq::empty());
        r
    }
}


/// Initializing a constant puts its value on its output, port 0, and leaves the other
/// ports as they were.
pub proof fn lemma_constant_drives_value(c: Constant, state: Seq<Seq<BitState>>)
    requires
        state.len() >= 1,
    ensures
        c.init_spec(state).len() == state.len(),
        c.init_spec(state)[0] == c@,
        forall|i: int| 1 <= i < state.len() ==> #[trigger] c.init_spec(state)[i] == state[i],
{
}

} // verus!
