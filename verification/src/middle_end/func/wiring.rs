use vstd::prelude::*;
use vstd::string::StringSliceAdditionalSpecFns;
use vstd::utf8::encode_utf8;
use crate::bitarray::{BitArray, BitState};
use crate::bitarray::ranged::clamp_u8;
use crate::engine::func as engine;
use crate::engine::func::{BitSize, Component, ComponentFn, SplitterConfig};
use crate::middle_end::CoordDelta;
use crate::middle_end::func::{
    Handedness, Orientation, RelativeComponentBounds, delta_spec, is_oriented, single_port_box,
    tile_dims,
};

verus! {

/// A pin: an input or output of the circuit.
#[derive(Debug, PartialEq, Eq, Clone, Copy, Hash)]
pub struct Pin {
    bitsize: BitSize,
    is_input: bool,
    orientation: Orientation,
}

impl View for Pin {
    /// (bitsize, is input, orientation)
    type V = (u8, bool, Orientation);

    closed spec fn view(&self) -> (u8, bool, Orientation) {
        (self.bitsize@, self.is_input, self.orientation)
    }
}

impl Pin {
    /// Creates a new instance of the pin with specified bitsize and whether it's an input or output.
    pub fn new(bitsize: u8, is_input: bool, orientation: Orientation) -> (r: Self)
        ensures
            r@ == (clamp_u8(bitsize, 1, 64), is_input, orientation),
    {
        Pin { bitsize: BitSize::new_clamped(bitsize), is_input, orientation }
    }

    /// The contract of [`Self::init_engine`].
    pub open spec fn engine_match(&self, r: Option<ComponentFn>) -> bool {
        &&& self@.1 ==> (r matches Some(ComponentFn::Input(c)) && c@ == self@.0)
        &&& !self@.1 ==> (r matches Some(ComponentFn::Output(c)) && c@ == self@.0)
    }

    /// The engine component: an input pin drives, an output pin reads.
    pub fn init_engine(&self) -> (r: Option<ComponentFn>)
        ensures
            self.engine_match(r),
    {
        let b = self.bitsize.get();
        Some(if self.is_input {
            ComponentFn::Input(engine::Input::new(b))
        } else {
            ComponentFn::Output(engine::Output::new(b))
        })
    }

    /// The contract of [`Self::component_name`].
    pub open spec fn name_match(&self, r: &'static str) -> bool {
        &&& self@.1 ==> r@ == "Input"@
        &&& !self@.1 ==> r@ == "Output"@
    }

    /// The name of the component.
    pub fn component_name(&self) -> (r: &'static str)
        ensures
            self.name_match(r),
    {
        if self.is_input { "Input" } else { "Output" }
    }

    /// The contract of [`Self::init_bounds`].
    pub open spec fn bounds_match(&self, r: RelativeComponentBounds) -> bool {
        &&& is_oriented(r, single_port_box(tile_dims(self@.0).0, tile_dims(self@.0).1),
            seq![(0i32, 0i32)], self@.2, Handedness::DownRight)
    }

    /// The bounds and port of the pin, sized to show its value.
    pub fn init_bounds(&self) -> (r: RelativeComponentBounds)
        ensures
            self.bounds_match(r),
    {
        RelativeComponentBounds::single_port_from_bitsize(self.bitsize.get(), self.orientation)
    }
}

/// A constant.
#[derive(Debug, PartialEq, Eq, Clone, Copy, Hash)]
pub struct Constant {
    value: BitArray,
    orientation: Orientation,
}

impl View for Constant {
    /// (value, orientation)
    type V = (Seq<BitState>, Orientation);

    closed spec fn view(&self) -> (Seq<BitState>, Orientation) {
        (self.value@, self.orientation)
    }
}

impl Constant {
    /// Creates a new instance of the constant with specified value.
    pub fn new(value: BitArray, orientation: Orientation) -> (r: Self)
        ensures
            r@ == (value@, orientation),
    {
        Constant { value, orientation }
    }

    /// Gets the value associated with this constant.
    pub fn get_value(&self) -> (r: BitArray)
        ensures
            r@ == self@.0,
    {
        self.value
    }

    /// The contract of [`Self::init_engine`].
    pub open spec fn engine_match(&self, r: Option<ComponentFn>) -> bool {
        &&& r matches Some(ComponentFn::Constant(c)) && c@ == self@.0
    }

    /// The engine component: a constant driving the value.
    pub fn init_engine(&self) -> (r: Option<ComponentFn>)
        ensures
            self.engine_match(r),
    {
        Some(ComponentFn::Constant(engine::Constant::new(self.value)))
    }

    /// The contract of [`Self::component_name`].
    pub open spec fn name_match(&self, r: &'static str) -> bool {
        &&& r@ == "Constant"@
    }

    /// The name of the component.
    pub fn component_name(&self) -> (r: &'static str)
        ensures
            self.name_match(r),
    {
        "Constant"
    }

    /// The contract of [`Self::init_bounds`].
    pub open spec fn bounds_match(&self, r: RelativeComponentBounds) -> bool {
        let shown = if self@.0.len() >= 2 { self@.0.len() as u8 } else { 2u8 };
        is_oriented(r, single_port_box(tile_dims(shown).0, tile_dims(shown).1),
            seq![(0i32, 0i32)], self@.1, Handedness::DownRight)
    }

    /// The bounds and port of the constant, sized to show its value (at least two bits wide).
    pub fn init_bounds(&self) -> (r: RelativeComponentBounds)
        ensures
            self.bounds_match(r),
    {
        let n = self.value.len();
        let shown = if n >= 2 { n } else { 2 };
        RelativeComponentBounds::single_port_from_bitsize(shown, self.orientation)
    }
}

/// The bounds of a 2 x 3 single-port component relative to its port at `(1, port_y)`.
pub open spec fn supply_box(port_y: u32) -> [CoordDelta; 2] {
    [(delta_spec(0, 1), delta_spec(0, port_y)), (delta_spec(2, 1), delta_spec(3, port_y))]
}

/// Power (essentially a constant 1).
#[derive(Debug, Default, PartialEq, Eq, Clone, Copy, Hash)]
pub struct Power;

impl Power {
    /// The contract of [`Self::init_engine`].
    pub open spec fn engine_match(&self, r: Option<ComponentFn>) -> bool {
        &&& r matches Some(ComponentFn::Constant(c)) && c@ == seq![BitState::High]
    }

    /// The engine component: a one-bit constant high.
    pub fn init_engine(&self) -> (r: Option<ComponentFn>)
        ensures
            self.engine_match(r),
    {
        Some(ComponentFn::Constant(engine::Constant::new(BitArray::from_state(BitState::High))))
    }

    /// The contract of [`Self::component_name`].
    pub open spec fn name_match(&self, r: &'static str) -> bool {
        &&& r@ == "Power"@
    }

    /// The name of the component.
    pub fn component_name(&self) -> (r: &'static str)
        ensures
            self.name_match(r),
    {
        "Power"
    }

    /// The contract of [`Self::init_bounds`].
    pub open spec fn bounds_match(&self, r: RelativeComponentBounds) -> bool {
        &&& r.bounds == supply_box(3)
        &&& r.ports@ == seq![(0i32, 0i32)]
    }

    /// The bounds of the 2 x 3 component relative to its port at the bottom centre.
    pub fn init_bounds(&self) -> (r: RelativeComponentBounds)
        ensures
            self.bounds_match(r),
    {
        let r = RelativeComponentBounds::single_port_with_origin(2, 3, (1, 3));
        assert(r.bounds =~= supply_box(3));
        r
    }
}

/// Ground (essentially a constant 0).
#[derive(Debug, Default, PartialEq, Eq, Clone, Copy, Hash)]
pub struct Ground;

impl Ground {
    /// The contract of [`Self::init_engine`].
    pub open spec fn engine_match(&self, r: Option<ComponentFn>) -> bool {
        &&& r matches Some(ComponentFn::Constant(c)) && c@ == seq![BitState::Low]
    }

    /// The engine component: a one-bit constant low.
    pub fn init_engine(&self) -> (r: Option<ComponentFn>)
        ensures
            self.engine_match(r),
    {
        Some(ComponentFn::Constant(engine::Constant::new(BitArray::from_state(BitState::Low))))
    }

    /// The contract of [`Self::component_name`].
    pub open spec fn name_match(&self, r: &'static str) -> bool {
        &&& r@ == "Ground"@
    }

    /// The name of the component.
    pub fn component_name(&self) -> (r: &'static str)
        ensures
            self.name_match(r),
    {
        "Ground"
    }

    /// The contract of [`Self::init_bounds`].
    pub open spec fn bounds_match(&self, r: RelativeComponentBounds) -> bool {
        &&& r.bounds == supply_box(0)
        &&& r.ports@ == seq![(0i32, 0i32)]
    }

    /// The bounds of the 2 x 3 component relative to its port at the top centre.
    pub fn init_bounds(&self) -> (r: RelativeComponentBounds)
        ensures
            self.bounds_match(r),
    {
        let r = RelativeComponentBounds::single_port_with_origin(2, 3, (1, 0));
        assert(r.bounds =~= supply_box(0));
        r
    }
}

/// The ports of a splitter of `bitsize` bits: the joined port at the origin,
/// then one port every two columns along the bottom.
pub open spec fn splitter_port_spec(bitsize: u8) -> Seq<CoordDelta> {
    seq![(0i32, 0i32)] + Seq::new(bitsize as nat, |i: int| ((2 * (i + 1)) as i32, 2i32))
}

/// A splitter component.
#[derive(Debug, PartialEq, Eq, Clone, Copy, Hash)]
pub struct Splitter {
    config: SplitterConfig,
    orientation: Orientation,
    handedness: Handedness,
}

impl View for Splitter {
    /// (configuration, orientation, handedness)
    type V = ((Seq<Option<u8>>, u8, u8), Orientation, Handedness);

    closed spec fn view(&self) -> ((Seq<Option<u8>>, u8, u8), Orientation, Handedness) {
        (self.config@, self.orientation, self.handedness)
    }
}

impl Splitter {
    /// Creates a new splitter from its port assignments, number of legs and bitsize.
    pub fn new(
        port_assignments: [Option<u8>; 64],
        num_legs: u8,
        bitsize: u8,
        orientation: Orientation,
        handedness: Handedness,
    ) -> (r: Self)
        ensures
            r@.0 == SplitterConfig::new_spec(port_assignments@, num_legs, bitsize),
            r@.1 == orientation,
            r@.2 == handedness,
    {
        Splitter { config: SplitterConfig::new(port_assignments, num_legs, bitsize), orientation, handedness }
    }

    /// The contract of [`Self::init_engine`].
    pub open spec fn engine_match(&self, r: Option<ComponentFn>) -> bool {
        &&& r matches Some(ComponentFn::Splitter(c)) && c@ == self@.0
    }

    /// The engine component: a splitter with this configuration.
    pub fn init_engine(&self) -> (r: Option<ComponentFn>)
        ensures
            self.engine_match(r),
    {
        Some(ComponentFn::Splitter(engine::Splitter::new(self.config)))
    }

    /// The contract of [`Self::component_name`].
    pub open spec fn name_match(&self, r: &'static str) -> bool {
        &&& r@ == "Splitter"@
    }

    /// The name of the component.
    pub fn component_name(&self) -> (r: &'static str)
        ensures
            self.name_match(r),
    {
        "Splitter"
    }

    /// The contract of [`Self::init_bounds`].
    pub open spec fn bounds_match(&self, r: RelativeComponentBounds) -> bool {
        &&& is_oriented(r, [(0i32, 0i32), ((2 * self@.0.2) as i32, 2i32)], splitter_port_spec(self@.0.2),
            self@.1, self@.2)
    }

    /// The bounds and ports of the splitter.
    pub fn init_bounds(&self) -> (r: RelativeComponentBounds)
        ensures
            self.bounds_match(r),
    {
        let bitsize = self.config.get_bitsize() as i32;
        let mut ports: Vec<CoordDelta> = vec![(0, 0)];
        let mut i: i32 = 1;
        while i <= bitsize
            invariant
                1 <= i <= bitsize + 1,
                bitsize == self@.0.2,
                1 <= bitsize <= 64,
                ports@ == splitter_port_spec(self@.0.2).subrange(0, i as int),
            decreases bitsize + 1 - i,
        {
            ports.push((2 * i, 2));
            i = i + 1;
            assert(ports@ =~= splitter_port_spec(self@.0.2).subrange(0, i as int));
        }
        assert(ports@ =~= splitter_port_spec(self@.0.2));
        RelativeComponentBounds::new((bitsize * 2, 2), ports).orient(self.orientation, self.handedness)
    }
}

/// The width of a tunnel showing a label of `len` bytes:
/// at least two, rounded up to an even number.
pub open spec fn tunnel_width(len: nat) -> u32 {
    let w = if len >= 2 { len } else { 2 };
    (if w % 2 == 0 { w } else { w + 1 }) as u32
}

/// A tunnel: a connection by label between distant points.
#[derive(Debug, PartialEq, Eq, Clone, Copy, Hash)]
pub struct Tunnel {
    orientation: Orientation,
}

impl View for Tunnel {
    /// The orientation.
    type V = Orientation;

    closed spec fn view(&self) -> Orientation {
        self.orientation
    }
}

impl Tunnel {
    /// Creates a new instance of a tunnel with the specified orientation.
    pub fn new(orientation: Orientation) -> (r: Self)
        ensures
            r@ == orientation,
    {
        Tunnel { orientation }
    }

    /// The contract of [`Self::init_engine`].
    pub open spec fn engine_match(&self, r: Option<ComponentFn>) -> bool {
        &&& r is None
    }

    /// A tunnel has no engine component.
    pub fn init_engine(&self) -> (r: Option<ComponentFn>)
        ensures
            self.engine_match(r),
    {
        None
    }

    /// The contract of [`Self::component_name`].
    pub open spec fn name_match(&self, r: &'static str) -> bool {
        &&& r@ == "Tunnel"@
    }

    /// The name of the component.
    pub fn component_name(&self) -> (r: &'static str)
        ensures
            self.name_match(r),
    {
        "Tunnel"
    }

    /// The contract of [`Self::init_bounds`].
    pub open spec fn bounds_match(&self, r: RelativeComponentBounds, label: Seq<char>) -> bool {
        &&& is_oriented(r, single_port_box(tunnel_width(encode_utf8(label).len()), 2),
            seq![(0i32, 0i32)], self@, Handedness::DownRight)
    }

    /// The bounds and port of the tunnel, two rows high and as wide as its label.
    pub fn init_bounds(&self, label: &str) -> (r: RelativeComponentBounds)
        requires
            label.spec_bytes().len() < i32::MAX,
        ensures
            self.bounds_match(r, label@),
    {
        let len = label.len() as u32;
        let w = if len >= 2 { len } else { 2 };
        let width = if w % 2 == 0 { w } else { w + 1 };
        RelativeComponentBounds::single_port(width, 2, self.orientation)
    }
}

/// A probe, showing the value at a point.
#[derive(Debug, PartialEq, Eq, Clone, Copy, Hash)]
pub struct Probe {
    orientation: Orientation,
    bitsize: BitSize,
}

impl View for Probe {
    /// (orientation, bitsize)
    type V = (Orientation, u8);

    closed spec fn view(&self) -> (Orientation, u8) {
        (self.orientation, self.bitsize@)
    }
}

impl Probe {
    /// Creates a new instance of the probe with specified orientation.
    pub fn new(orientation: Orientation, bitsize: u8) -> (r: Self)
        ensures
            r@ == (orientation, clamp_u8(bitsize, 1, 64)),
    {
        Probe { orientation, bitsize: BitSize::new_clamped(bitsize) }
    }

    /// The contract of [`Self::init_engine`].
    pub open spec fn engine_match(&self, r: Option<ComponentFn>) -> bool {
        &&& r is None
    }

    /// A probe has no engine component.
    pub fn init_engine(&self) -> (r: Option<ComponentFn>)
        ensures
            self.engine_match(r),
    {
        None
    }

    /// The contract of [`Self::component_name`].
    pub open spec fn name_match(&self, r: &'static str) -> bool {
        &&& r@ == "Probe"@
    }

    /// The name of the component.
    pub fn component_name(&self) -> (r: &'static str)
        ensures
            self.name_match(r),
    {
        "Probe"
    }

    /// The contract of [`Self::init_bounds`].
    pub open spec fn bounds_match(&self, r: RelativeComponentBounds) -> bool {
        &&& is_oriented(r, single_port_box(tile_dims(self@.1).0, tile_dims(self@.1).1),
            seq![(0i32, 0i32)], self@.0, Handedness::DownRight)
    }

    /// The bounds and port of the probe, sized to show its value.
    pub fn init_bounds(&self) -> (r: RelativeComponentBounds)
        ensures
            self.bounds_match(r),
    {
        RelativeComponentBounds::single_port_from_bitsize(self.bitsize.get(), self.orientation)
    }
}


/// The engine component of a power supply drives a single high bit onto its port once
/// initialized.
pub proof fn lemma_power_drives_high(p: Power, r: Option<ComponentFn>, state: Seq<Seq<BitState>>)
    requires
        p.engine_match(r),
        state.len() >= 1,
    ensures
        r matches Some(ComponentFn::Constant(c)) && c.init_spec(state)[0] == seq![BitState::High],
{
    engine::wiring::lemma_constant_drives_value(r->Some_0->Constant_0, state);
}

/// The engine component of a ground drives a single low bit onto its port once
/// initialized.
pub proof fn lemma_ground_drives_low(g: Ground, r: Option<ComponentFn>, state: Seq<Seq<BitState>>)
    requires
        g.engine_match(r),
        state.len() >= 1,
    ensures
        r matches Some(ComponentFn::Constant(c)) && c.init_spec(state)[0] == seq![BitState::Low],
{
    engine::wiring::lemma_constant_drives_value(r->Some_0->Constant_0, state);
}

} // verus!
