use vstd::prelude::*;
use crate::engine::func as engine;
use crate::engine::func::{Component, ComponentFn};
use crate::middle_end::CoordDelta;
use crate::middle_end::func::{
    AbsoluteComponentBounds, Handedness, Orientation, RelativeComponentBounds, ints, is_oriented, orient_spec,
};

pub use crate::engine::func::GateKind;

verus! {

/// The ports of a gate with `n` inputs relative to its output: the inputs are
/// spaced two apart on the west side, centred on the output; the output comes last.
pub open spec fn gate_port_spec(n: u8) -> Seq<CoordDelta> {
    Seq::new(n as nat, |i: int| (-4i32, (2 * i - (n - 1)) as i32)) + seq![(0i32, 0i32)]
}

/// A gate component with a variable number of inputs.
#[derive(Debug, PartialEq, Eq, Clone, Copy, Hash)]
pub struct Gate {
    kind: GateKind,
    bitsize: u8,
    n_inputs: u8,
    orientation: Orientation,
}

impl View for Gate {
    /// (kind, bitsize, number of inputs, orientation)
    type V = (GateKind, u8, u8, Orientation);

    closed spec fn view(&self) -> (GateKind, u8, u8, Orientation) {
        (self.kind, self.bitsize, self.n_inputs, self.orientation)
    }
}

impl Gate {
    /// Creates a new gate of the given kind, bitsize, number of inputs and orientation.
    pub fn new(kind: GateKind, bitsize: u8, n_inputs: u8, orientation: Orientation) -> (r: Self)
        ensures
            r@ == (kind, bitsize, n_inputs, orientation),
    {
        Gate { kind, bitsize, n_inputs, orientation }
    }

    /// The contract of [`Self::init_engine`].
    pub open spec fn engine_match(&self, r: Option<ComponentFn>) -> bool {
        &&& r matches Some(ComponentFn::Gate(g)) && g@ == engine::Gate::new_spec(self@.0, self@.1, self@.2)
    }

    /// The engine component for this gate.
    pub fn init_engine(&self) -> (r: Option<ComponentFn>)
        ensures
            self.engine_match(r),
    {
        Some(ComponentFn::Gate(engine::Gate::new(self.kind, self.bitsize, self.n_inputs)))
    }

    /// The contract of [`Self::component_name`].
    pub open spec fn name_match(&self, r: &'static str) -> bool {
        &&& r@ == self@.0.name_spec()@
    }

    /// The name of the component.
    pub fn component_name(&self) -> (r: &'static str)
        ensures
            self.name_match(r),
    {
        self.kind.name()
    }

    /// The contract of [`Self::init_bounds`].
    pub open spec fn bounds_match(&self, r: RelativeComponentBounds) -> bool {
        &&& is_oriented(r, [(-4i32, -2i32), (0i32, 2i32)], gate_port_spec(self@.2), self@.3, Handedness::DownRight)
    }

    /// The bounds and ports of this gate: the inputs, then the output at the origin.
    pub fn init_bounds(&self) -> (r: RelativeComponentBounds)
        ensures
            self.bounds_match(r),
    {
        let bounds: [CoordDelta; 2] = [(-4, -2), (0, 2)];
        let inputs = self.n_inputs as i32;
        let mut ports: Vec<CoordDelta> = Vec::new();
        let mut i: i32 = 0;
        while i < inputs
            invariant
                0 <= i <= inputs,
                inputs == self@.2,
                ports@ == gate_port_spec(self@.2).subrange(0, i as int),
            decreases inputs - i,
        {
            ports.push((-4, 2 * i - (inputs - 1)));
            i = i + 1;
            assert(ports@ =~= gate_port_spec(self@.2).subrange(0, i as int));
        }
        ports.push((0, 0));
        assert(ports@ =~= gate_port_spec(self@.2));
        RelativeComponentBounds { bounds, ports }.orient(self.orientation, Handedness::DownRight)
    }
}

/// The point four units behind the output of a gate facing `o`: its inputs are centred on it.
pub open spec fn gate_input_centre(o: Orientation) -> (int, int) {
    match o {
        Orientation::East => (-4, 0),
        Orientation::West => (4, 0),
        Orientation::North => (0, -4),
        Orientation::South => (0, 4),
    }
}

/// The step from one input of a gate facing `o` to the next: two units across its facing.
pub open spec fn gate_input_step(o: Orientation) -> (int, int) {
    match o {
        Orientation::East => (0, 2),
        Orientation::West => (0, -2),
        Orientation::North => (-2, 0),
        Orientation::South => (2, 0),
    }
}

/// A gate's ports, in every orientation: the output last, at the origin; the inputs two
/// apart, each pair of inputs `i` and `n - 1 - i` mirror images about the point four
/// units behind the output.
pub proof fn lemma_gate_ports_centred(g: Gate, r: RelativeComponentBounds)
    requires
        g.bounds_match(r),
    ensures
        r.ports@.len() == g@.2 + 1,
        r.ports@[g@.2 as int] == (0i32, 0i32),
        forall|i: int| 0 <= i < g@.2 ==> {
            let a = ints(#[trigger] r.ports@[i]);
            let b = ints(r.ports@[g@.2 - 1 - i]);
            let c = gate_input_centre(g@.3);
            a.0 + b.0 == 2 * c.0 && a.1 + b.1 == 2 * c.1
        },
        forall|i: int| 0 <= i && i + 1 < g@.2 ==> ints(#[trigger] r.ports@[i + 1]).0 - ints(r.ports@[i]).0 == gate_input_step(g@.3).0
            && ints(r.ports@[i + 1]).1 - ints(r.ports@[i]).1 == gate_input_step(g@.3).1,
{
    let n = g@.2 as int;
    let base = gate_port_spec(g@.2);
    assert(ints(r.ports@[n]) == orient_spec(base[n], g@.3, Handedness::DownRight));
    assert forall|i: int| 0 <= i < n implies {
        let a = ints(#[trigger] r.ports@[i]);
        let b = ints(r.ports@[n - 1 - i]);
        let c = gate_input_centre(g@.3);
        a.0 + b.0 == 2 * c.0 && a.1 + b.1 == 2 * c.1
    } by {
        assert(ints(r.ports@[i]) == orient_spec(base[i], g@.3, Handedness::DownRight));
        assert(ints(r.ports@[n - 1 - i]) == orient_spec(base[n - 1 - i], g@.3, Handedness::DownRight));
    }
    assert forall|i: int| 0 <= i && i + 1 < n implies ints(#[trigger] r.ports@[i + 1]).0 - ints(r.ports@[i]).0 == gate_input_step(g@.3).0
        && ints(r.ports@[i + 1]).1 - ints(r.ports@[i]).1 == gate_input_step(g@.3).1 by {
        assert(ints(r.ports@[i]) == orient_spec(base[i], g@.3, Handedness::DownRight));
        assert(ints(r.ports@[i + 1]) == orient_spec(base[i + 1], g@.3, Handedness::DownRight));
    }
}

/// A gate facing east has input `i` of `n` at `(-4, 2i - (n - 1))` and its output at
/// the origin.
pub proof fn lemma_gate_ports_east(g: Gate, r: RelativeComponentBounds)
    requires
        g.bounds_match(r),
        g@.3 == Orientation::East,
    ensures
        r.ports@.len() == g@.2 + 1,
        r.ports@[g@.2 as int] == (0i32, 0i32),
        forall|i: int| 0 <= i < g@.2 ==> ints(#[trigger] r.ports@[i]) == (-4int, 2 * i - (g@.2 - 1)),
{
    lemma_gate_ports_centred(g, r);
    let base = gate_port_spec(g@.2);
    assert forall|i: int| 0 <= i < g@.2 implies ints(#[trigger] r.ports@[i]) == (-4int, 2 * i - (g@.2 - 1)) by {
        assert(ints(r.ports@[i]) == orient_spec(base[i], g@.3, Handedness::DownRight));
    }
}

/// A NOT gate component.
#[derive(Debug, PartialEq, Eq, Clone, Copy, Hash)]
pub struct Not {
    bitsize: u8,
    orientation: Orientation,
}

impl View for Not {
    /// (bitsize, orientation)
    type V = (u8, Orientation);

    closed spec fn view(&self) -> (u8, Orientation) {
        (self.bitsize, self.orientation)
    }
}

impl Not {
    /// Creates a new NOT gate with the given bitsize and orientation.
    pub fn new(bitsize: u8, orientation: Orientation) -> (r: Self)
        ensures
            r@ == (bitsize, orientation),
    {
        Not { bitsize, orientation }
    }

    /// The contract of [`Self::init_engine`].
    pub open spec fn engine_match(&self, r: Option<ComponentFn>) -> bool {
        &&& r matches Some(ComponentFn::Not(g)) && g@ == engine::Not::new_spec(self@.0)
    }

    /// The engine component for this gate.
    pub fn init_engine(&self) -> (r: Option<ComponentFn>)
        ensures
            self.engine_match(r),
    {
        Some(ComponentFn::Not(engine::Not::new(self.bitsize)))
    }

    /// The contract of [`Self::component_name`].
    pub open spec fn name_match(&self, r: &'static str) -> bool {
        &&& r@ == "Not"@
    }

    /// The name of the component.
    pub fn component_name(&self) -> (r: &'static str)
        ensures
            self.name_match(r),
    {
        "Not"
    }

    /// The contract of [`Self::init_bounds`].
    pub open spec fn bounds_match(&self, r: RelativeComponentBounds) -> bool {
        &&& is_oriented(r, [(-3i32, -1i32), (0i32, 1i32)], seq![(-3i32, 0i32), (0i32, 0i32)], self@.1, Handedness::DownRight)
    }

    /// The bounds and ports of this gate: the input on the west, the output at the origin.
    pub fn init_bounds(&self) -> (r: RelativeComponentBounds)
        ensures
            self.bounds_match(r),
    {
        let origin = (3u32, 1u32);
        let base = AbsoluteComponentBounds::new((3, 2), vec![(0, 1), origin]).into_relative(origin);
        assert(base.ports@ =~= seq![(-3i32, 0i32), (0i32, 0i32)]);
        base.orient(self.orientation, Handedness::DownRight)
    }
}

/// A tri-state buffer.
#[derive(Debug, PartialEq, Eq, Clone, Copy, Hash)]
pub struct TriState {
    bitsize: u8,
    orientation: Orientation,
}

impl View for TriState {
    /// (bitsize, orientation)
    type V = (u8, Orientation);

    closed spec fn view(&self) -> (u8, Orientation) {
        (self.bitsize, self.orientation)
    }
}

impl TriState {
    /// Creates a new tri-state buffer with the given bitsize and orientation.
    pub fn new(bitsize: u8, orientation: Orientation) -> (r: Self)
        ensures
            r@ == (bitsize, orientation),
    {
        TriState { bitsize, orientation }
    }

    /// The contract of [`Self::init_engine`].
    pub open spec fn engine_match(&self, r: Option<ComponentFn>) -> bool {
        &&& r matches Some(ComponentFn::TriState(g)) && g@ == engine::TriState::new_spec(self@.0)
    }

    /// The engine component for this buffer.
    pub fn init_engine(&self) -> (r: Option<ComponentFn>)
        ensures
            self.engine_match(r),
    {
        Some(ComponentFn::TriState(engine::TriState::new(self.bitsize)))
    }

    /// The contract of [`Self::component_name`].
    pub open spec fn name_match(&self, r: &'static str) -> bool {
        &&& r@ == "TriState"@
    }

    /// The name of the component.
    pub fn component_name(&self) -> (r: &'static str)
        ensures
            self.name_match(r),
    {
        "TriState"
    }

    /// The contract of [`Self::init_bounds`].
    pub open spec fn bounds_match(&self, r: RelativeComponentBounds) -> bool {
        &&& is_oriented(r, [(-2i32, -1i32), (0i32, 1i32)], seq![(-2i32, 0i32), (-1i32, 1i32), (0i32, 0i32)],
            self@.1, Handedness::DownRight)
    }

    /// The bounds and ports of the buffer: input on the west, enable on the south,
    /// output at the origin.
    pub fn init_bounds(&self) -> (r: RelativeComponentBounds)
        ensures
            self.bounds_match(r),
    {
        let origin = (2u32, 1u32);
        let base = AbsoluteComponentBounds::new((2, 2), vec![(0, 1), (1, 2), origin]).into_relative(origin);
        assert(base.ports@ =~= seq![(-2i32, 0i32), (-1i32, 1i32), (0i32, 0i32)]);
        base.orient(self.orientation, Handedness::DownRight)
    }
}


/// The point `d` units behind a component facing `o` (against its facing).
pub open spec fn behind(o: Orientation, d: int) -> (int, int) {
    match o {
        Orientation::East => (-d, 0),
        Orientation::West => (d, 0),
        Orientation::North => (0, -d),
        Orientation::South => (0, d),
    }
}

/// The point `d` units to the side of a component facing `o`: south of it when it faces east.
pub open spec fn beside(o: Orientation, d: int) -> (int, int) {
    match o {
        Orientation::East => (0, d),
        Orientation::West => (0, -d),
        Orientation::North => (-d, 0),
        Orientation::South => (d, 0),
    }
}

/// A NOT gate in every orientation: its input three units behind its output, which
/// stands at the origin.
pub proof fn lemma_not_ports(g: Not, r: RelativeComponentBounds)
    requires
        g.bounds_match(r),
    ensures
        r.ports@.len() == 2,
        ints(r.ports@[0]) == behind(g@.1, 3),
        r.ports@[1] == (0i32, 0i32),
{
    assert(ints(r.ports@[0]) == orient_spec((-3i32, 0i32), g@.1, Handedness::DownRight));
    assert(ints(r.ports@[1]) == orient_spec((0i32, 0i32), g@.1, Handedness::DownRight));
}

/// A tri-state buffer in every orientation: its first port two units behind its output,
/// its second one unit behind and one to the side, and its output at the origin.
pub proof fn lemma_tristate_ports(t: TriState, r: RelativeComponentBounds)
    requires
        t.bounds_match(r),
    ensures
        r.ports@.len() == 3,
        ints(r.ports@[0]) == behind(t@.1, 2),
        ints(r.ports@[1]).0 == behind(t@.1, 1).0 + beside(t@.1, 1).0,
        ints(r.ports@[1]).1 == behind(t@.1, 1).1 + beside(t@.1, 1).1,
        r.ports@[2] == (0i32, 0i32),
{
    assert(ints(r.ports@[0]) == orient_spec((-2i32, 0i32), t@.1, Handedness::DownRight));
    assert(ints(r.ports@[1]) == orient_spec((-1i32, 1i32), t@.1, Handedness::DownRight));
    assert(ints(r.ports@[2]) == orient_spec((0i32, 0i32), t@.1, Handedness::DownRight));
}

} // verus!
