use vstd::prelude::*;
use crate::bitarray::{BitArray, BitState};
use crate::bitarray::logic::{and_state, or_state, xor_state, not_state, zip_states};
use crate::bitarray::ranged::clamp_u8;
use crate::engine::func::component::Component;
use crate::engine::func::ports::{
    PortProperties, PortType, PortUpdate, RunContext, port_list, port_list_spec, ports_match,
    port_views, update_views,
};

verus! {

/// Minimum number of inputs for multi-input logic gates.
pub const MIN_GATE_INPUTS: u8 = 2;
/// Maximum number of inputs for multi-input logic gates.
pub const MAX_GATE_INPUTS: u8 = 64;

/// The kind of a [`Gate`].
///
/// This defines the logic and appearance of a gate.
#[derive(Debug, PartialEq, Eq, Clone, Copy, Hash, Structural)]
pub enum GateKind {
    And,
    Or,
    Xor,
    Nand,
    Nor,
    Xnor,
}

/// The left fold of `inputs` with the bitwise operation `f`
/// (the first input alone when there is one).
pub open spec fn fold_states(inputs: Seq<Seq<BitState>>, f: spec_fn(BitState, BitState) -> BitState) -> Seq<BitState>
    decreases inputs.len(),
{
    if inputs.len() <= 1 {
        inputs[0]
    } else {
        zip_states(fold_states(inputs.drop_last(), f), inputs.last(), f)
    }
}

/// The inversion of every bit.
pub open spec fn not_states(s: Seq<BitState>) -> Seq<BitState> {
    s.map_values(|x: BitState| not_state(x))
}

/// The output of a gate of kind `kind` on the given (non-empty) inputs.
pub open spec fn gate_reduce(kind: GateKind, inputs: Seq<Seq<BitState>>) -> Seq<BitState> {
    let and_f = |x: BitState, y: BitState| and_state(x, y);
    let or_f = |x: BitState, y: BitState| or_state(x, y);
    let xor_f = |x: BitState, y: BitState| xor_state(x, y);
    match kind {
        GateKind::And => fold_states(inputs, and_f),
        GateKind::Or => fold_states(inputs, or_f),
        GateKind::Xor => fold_states(inputs, xor_f),
        GateKind::Nand => not_states(fold_states(inputs, and_f)),
        GateKind::Nor => not_states(fold_states(inputs, or_f)),
        GateKind::Xnor => not_states(fold_states(inputs, xor_f)),
    }
}

/// `n` unknown bits.
pub open spec fn unknown_bits(n: nat) -> Seq<BitState> {
    Seq::new(n, |i: int| BitState::Unk)
}

/// `n` floating bits.
pub open spec fn floating_bits(n: nat) -> Seq<BitState> {
    Seq::new(n, |i: int| BitState::Imped)
}

/// All sequences in `inputs` have length `n`.
pub open spec fn all_len(inputs: Seq<Seq<BitState>>, n: nat) -> bool {
    forall|i: int| 0 <= i < inputs.len() ==> #[trigger] inputs[i].len() == n
}

proof fn lemma_fold_len(inputs: Seq<Seq<BitState>>, f: spec_fn(BitState, BitState) -> BitState, n: nat)
    requires
        inputs.len() >= 1,
        all_len(inputs, n),
    ensures
        fold_states(inputs, f).len() == n,
    decreases inputs.len(),
{
    if inputs.len() > 1 {
        lemma_fold_len(inputs.drop_last(), f, n);
    }
}

impl GateKind {
    fn reduce(self, inputs: &[BitArray], count: usize) -> (r: Option<BitArray>)
        requires
            count <= inputs@.len(),
            count >= 1 ==> all_len(port_views(inputs@).subrange(0, count as int), inputs@[0]@.len()),
        ensures
            count == 0 ==> r is None,
            count >= 1 ==> (r matches Some(v) && v@ == gate_reduce(self, port_views(inputs@).subrange(0, count as int))),
    {
        if count == 0 {
            return None;
        }
        let ghost views = port_views(inputs@);
        let ghost n = inputs@[0]@.len();
        let mut acc = inputs[0];
        let mut i: usize = 1;
        assert(views.subrange(0, 1) =~= seq![inputs@[0]@]);
        while i < count
            invariant
                1 <= i <= count <= inputs@.len(),
                views == port_views(inputs@),
                n == inputs@[0]@.len(),
                all_len(views.subrange(0, count as int), n),
                acc@ == match self {
                    GateKind::And | GateKind::Nand => fold_states(views.subrange(0, i as int), |x: BitState, y: BitState| and_state(x, y)),
                    GateKind::Or | GateKind::Nor => fold_states(views.subrange(0, i as int), |x: BitState, y: BitState| or_state(x, y)),
                    GateKind::Xor | GateKind::Xnor => fold_states(views.subrange(0, i as int), |x: BitState, y: BitState| xor_state(x, y)),
                },
            decreases count - i,
        {
            proof {
                let pre = views.subrange(0, i as int);
                let post = views.subrange(0, i + 1);
                assert(post.drop_last() =~= pre);
                assert(post.last() == inputs@[i as int]@);
                assert(all_len(pre, n)) by {
                    assert forall|k: int| 0 <= k < pre.len() implies #[trigger] pre[k].len() == n by {
                        assert(pre[k] == views.subrange(0, count as int)[k]);
                    }
                }
                lemma_fold_len(pre, |x: BitState, y: BitState| and_state(x, y), n);
                lemma_fold_len(pre, |x: BitState, y: BitState| or_state(x, y), n);
                lemma_fold_len(pre, |x: BitState, y: BitState| xor_state(x, y), n);
                assert(views.subrange(0, count as int)[i as int] == inputs@[i as int]@);
            }
            let next = inputs[i];
            acc = match self {
                GateKind::And | GateKind::Nand => acc.and(next),
                GateKind::Or | GateKind::Nor => acc.or(next),
                GateKind::Xor | GateKind::Xnor => acc.xor(next),
            };
            i = i + 1;
        }
        let out = match self {
            GateKind::Nand | GateKind::Nor | GateKind::Xnor => acc.not(),
            _ => acc,
        };
        Some(out)
    }

    /// The name of each kind of gate.
    pub open spec fn name_spec(self) -> &'static str {
        match self {
            GateKind::And => "And",
            GateKind::Or => "Or",
            GateKind::Xor => "Xor",
            GateKind::Nand => "Nand",
            GateKind::Nor => "Nor",
            GateKind::Xnor => "Xnor",
        }
    }

    /// The name of this kind of gate.
    pub fn name(self) -> (r: &'static str)
        ensures
            r == self.name_spec(),
    {
        match self {
            GateKind::And => "And",
            GateKind::Or => "Or",
            GateKind::Xor => "Xor",
            GateKind::Nand => "Nand",
            GateKind::Nor => "Nor",
            GateKind::Xnor => "Xnor",
        }
    }
}

/// A multi-input logic gate.
#[derive(Debug, PartialEq, Eq, Clone, Copy, Hash)]
pub struct Gate {
    kind: GateKind,
    bitsize: u8,
    n_inputs: u8,
}

impl View for Gate {
    /// (kind, bitsize, number of inputs)
    type V = (GateKind, u8, u8);

    closed spec fn view(&self) -> (GateKind, u8, u8) {
        (self.kind, self.bitsize, self.n_inputs)
    }
}

/// The ports of a gate: `n` inputs, then one output, all of `bitsize` bits.
pub open spec fn gate_ports(bitsize: u8, n: u8) -> Seq<PortProperties> {
    Seq::new(n as nat, |i: int| PortProperties { ty: PortType::Input, bitsize })
        + seq![PortProperties { ty: PortType::Output, bitsize }]
}

impl Gate {
    #[verifier::type_invariant]
    spec fn valid(self) -> bool {
        &&& 1 <= self.bitsize <= 64
        &&& MIN_GATE_INPUTS <= self.n_inputs <= MAX_GATE_INPUTS
    }

    /// The view of `Gate::new(kind, bitsize, n_inputs)`.
    pub open spec fn new_spec(kind: GateKind, bitsize: u8, n_inputs: u8) -> (GateKind, u8, u8) {
        (kind, clamp_u8(bitsize, BitArray::MIN_BITSIZE, BitArray::MAX_BITSIZE),
            clamp_u8(n_inputs, MIN_GATE_INPUTS, MAX_GATE_INPUTS))
    }

    /// Creates a new gate with specified bitsize and number of inputs.
    pub fn new(kind: GateKind, bitsize: u8, n_inputs: u8) -> (r: Self)
        ensures
            r@ == Self::new_spec(kind, bitsize, n_inputs),
    {
        let b = if bitsize < BitArray::MIN_BITSIZE {
            BitArray::MIN_BITSIZE
        } else if bitsize > BitArray::MAX_BITSIZE {
            BitArray::MAX_BITSIZE
        } else {
            bitsize
        };
        let n = if n_inputs < MIN_GATE_INPUTS {
            MIN_GATE_INPUTS
        } else if n_inputs > MAX_GATE_INPUTS {
            MAX_GATE_INPUTS
        } else {
            n_inputs
        };
        Gate { kind, bitsize: b, n_inputs: n }
    }

    /// The kind of this gate.
    pub fn kind(&self) -> (r: GateKind)
        ensures
            r == self@.0,
    {
        self.kind
    }

    /// Returns the number of inputs for this gate.
    pub fn n_inputs(&self) -> (r: u8)
        ensures
            r == self@.2,
            MIN_GATE_INPUTS <= r <= MAX_GATE_INPUTS,
    {
        proof {
            use_type_invariant(self);
        }
        self.n_inputs
    }

    /// Returns the bitsize for this gate.
    pub fn bitsize(&self) -> (r: u8)
        ensures
            r == self@.1,
            1 <= r <= 64,
    {
        proof {
            use_type_invariant(self);
        }
        self.bitsize
    }
}

impl Component for Gate {
    open spec fn port_spec(&self) -> Seq<PortProperties> {
        gate_ports(self@.1, self@.2)
    }

    open spec fn init_spec(&self, state: Seq<Seq<BitState>>) -> Seq<Seq<BitState>> {
        state
    }

    open spec fn run_spec(&self, old_ports: Seq<Seq<BitState>>, new_ports: Seq<Seq<BitState>>) -> Seq<(int, Seq<BitState>)> {
        seq![(self@.2 as int, gate_reduce(self@.0, new_ports.subrange(0, self@.2 as int)))]
    }

    fn ports(&self) -> (r: Vec<PortProperties>) {
        let b = self.bitsize();
        let n = self.n_inputs();
        let groups = [
            (PortProperties { ty: PortType::Input, bitsize: b }, n as usize),
            (PortProperties { ty: PortType::Output, bitsize: b }, 1usize),
        ];
        let r = port_list(&groups);
        proof {
            let g = groups@;
            reveal_with_fuel(port_list_spec, 3);
            assert(g.drop_last().drop_last() =~= Seq::<(PortProperties, usize)>::empty());
            assert(port_list_spec(g) =~= gate_ports(b, n));
        }
        r
    }

    fn initialize_port_state(&self, state: &mut [BitArray]) {
    }

    fn run_inner(&self, ctx: RunContext<'_>) -> (r: Vec<PortUpdate>) {
        let n = self.n_inputs();
        let b = self.bitsize();
        let ghost views = port_views(ctx.new_ports@);
        proof {
            assert(views[0] == ctx.new_ports@[0]@);
            assert forall|k: int| 0 <= k < n implies #[trigger] views.subrange(0, n as int)[k].len() == b by {
                assert(views.subrange(0, n as int)[k] == views[k]);
            }
        }
        let output = match self.kind.reduce(ctx.new_ports, n as usize) {
            Some(v) => v,
            None => BitArray::repeat(BitState::Unk, b),
        };
        let r = vec![PortUpdate { index: n as usize, value: output }];
        assert(update_views(r@) =~= self.run_spec(port_views(ctx.old_ports@), views));
        r
    }
}

/// Folding with an operation that gives `abs` exactly when either side is `abs`, and `unit`
/// exactly when both sides are `unit`: a bit of the fold is `abs` exactly when some input
/// has `abs` there, and `unit` exactly when every input has `unit` there.
proof fn lemma_fold_absorbing(inputs: Seq<Seq<BitState>>, f: spec_fn(BitState, BitState) -> BitState, n: nat, k: int,
    abs: BitState, unit: BitState)
    requires
        inputs.len() >= 1,
        all_len(inputs, n),
        0 <= k < n,
        forall|a: BitState, b: BitState| (#[trigger] f(a, b) == abs) == (a == abs || b == abs),
        forall|a: BitState, b: BitState| (#[trigger] f(a, b) == unit) == (a == unit && b == unit),
    ensures
        fold_states(inputs, f).len() == n,
        (fold_states(inputs, f)[k] == abs) == exists|j: int| 0 <= j < inputs.len() && #[trigger] inputs[j][k] == abs,
        (fold_states(inputs, f)[k] == unit) == forall|j: int| 0 <= j < inputs.len() ==> #[trigger] inputs[j][k] == unit,
    decreases inputs.len(),
{
    lemma_fold_len(inputs, f, n);
    if inputs.len() > 1 {
        let init = inputs.drop_last();
        let last = inputs.len() - 1;
        assert(all_len(init, n)) by {
            assert forall|j: int| 0 <= j < init.len() implies #[trigger] init[j].len() == n by {
                assert(init[j] == inputs[j]);
            }
        }
        lemma_fold_absorbing(init, f, n, k, abs, unit);
        let acc = fold_states(init, f);
        assert(fold_states(inputs, f)[k] == f(acc[k], inputs[last][k]));
        if exists|j: int| 0 <= j < inputs.len() && #[trigger] inputs[j][k] == abs {
            let j = choose|j: int| 0 <= j < inputs.len() && #[trigger] inputs[j][k] == abs;
            if j < last {
                assert(init[j][k] == abs);
            }
        }
        if acc[k] == abs {
            let j = choose|j: int| 0 <= j < init.len() && #[trigger] init[j][k] == abs;
            assert(inputs[j][k] == abs);
        }
        if forall|j: int| 0 <= j < inputs.len() ==> #[trigger] inputs[j][k] == unit {
            assert forall|j: int| 0 <= j < init.len() implies #[trigger] init[j][k] == unit by {
                assert(inputs[j][k] == unit);
            }
        }
        if fold_states(inputs, f)[k] == unit {
            assert forall|j: int| 0 <= j < inputs.len() implies #[trigger] inputs[j][k] == unit by {
                if j < last {
                    assert(init[j][k] == unit);
                }
            }
        }
    }
}

/// AND and NAND gates on every input: a bit of an AND gate's output is low exactly when
/// some input is low there and high exactly when every input is high there; a NAND gate
/// gives the inverse.
pub proof fn lemma_and_gate_bits(inputs: Seq<Seq<BitState>>, n: nat, k: int)
    requires
        inputs.len() >= 1,
        all_len(inputs, n),
        0 <= k < n,
    ensures
        gate_reduce(GateKind::And, inputs).len() == n,
        (gate_reduce(GateKind::And, inputs)[k] == BitState::Low)
            == exists|j: int| 0 <= j < inputs.len() && #[trigger] inputs[j][k] == BitState::Low,
        (gate_reduce(GateKind::And, inputs)[k] == BitState::High)
            == forall|j: int| 0 <= j < inputs.len() ==> #[trigger] inputs[j][k] == BitState::High,
        (gate_reduce(GateKind::Nand, inputs)[k] == BitState::High)
            == exists|j: int| 0 <= j < inputs.len() && #[trigger] inputs[j][k] == BitState::Low,
        (gate_reduce(GateKind::Nand, inputs)[k] == BitState::Low)
            == forall|j: int| 0 <= j < inputs.len() ==> #[trigger] inputs[j][k] == BitState::High,
{
    let f = |x: BitState, y: BitState| and_state(x, y);
    lemma_fold_absorbing(inputs, f, n, k, BitState::Low, BitState::High);
}

/// OR and NOR gates on every input: a bit of an OR gate's output is high exactly when
/// some input is high there and low exactly when every input is low there; a NOR gate
/// gives the inverse.
pub proof fn lemma_or_gate_bits(inputs: Seq<Seq<BitState>>, n: nat, k: int)
    requires
        inputs.len() >= 1,
        all_len(inputs, n),
        0 <= k < n,
    ensures
        gate_reduce(GateKind::Or, inputs).len() == n,
        (gate_reduce(GateKind::Or, inputs)[k] == BitState::High)
            == exists|j: int| 0 <= j < inputs.len() && #[trigger] inputs[j][k] == BitState::High,
        (gate_reduce(GateKind::Or, inputs)[k] == BitState::Low)
            == forall|j: int| 0 <= j < inputs.len() ==> #[trigger] inputs[j][k] == BitState::Low,
        (gate_reduce(GateKind::Nor, inputs)[k] == BitState::Low)
            == exists|j: int| 0 <= j < inputs.len() && #[trigger] inputs[j][k] == BitState::High,
        (gate_reduce(GateKind::Nor, inputs)[k] == BitState::High)
            == forall|j: int| 0 <= j < inputs.len() ==> #[trigger] inputs[j][k] == BitState::Low,
{
    let f = |x: BitState, y: BitState| or_state(x, y);
    lemma_fold_absorbing(inputs, f, n, k, BitState::High, BitState::Low);
}

/// How many of the inputs are high at bit `k`.
pub open spec fn highs_at(inputs: Seq<Seq<BitState>>, k: int) -> nat
    decreases inputs.len(),
{
    if inputs.len() == 0 {
        0
    } else {
        highs_at(inputs.drop_last(), k) + if inputs.last()[k] == BitState::High { 1nat } else { 0nat }
    }
}

/// The parity fold: a bit of the fold is unknown exactly when some input is neither high
/// nor low there, and otherwise high exactly when an odd number of inputs are high there.
proof fn lemma_fold_parity(inputs: Seq<Seq<BitState>>, f: spec_fn(BitState, BitState) -> BitState, n: nat, k: int)
    requires
        inputs.len() >= 2,
        all_len(inputs, n),
        0 <= k < n,
        forall|a: BitState, b: BitState| #[trigger] f(a, b) == xor_state(a, b),
    ensures
        fold_states(inputs, f).len() == n,
        (fold_states(inputs, f)[k] == BitState::Unk) == exists|j: int| 0 <= j < inputs.len()
            && #[trigger] inputs[j][k] != BitState::High && inputs[j][k] != BitState::Low,
        fold_states(inputs, f)[k] != BitState::Unk ==>
            (fold_states(inputs, f)[k] == BitState::High) == (highs_at(inputs, k) % 2 == 1),
        fold_states(inputs, f)[k] != BitState::Unk ==> fold_states(inputs, f)[k] == BitState::High
            || fold_states(inputs, f)[k] == BitState::Low,
    decreases inputs.len(),
{
    lemma_fold_len(inputs, f, n);
    let last = inputs.len() - 1;
    let init = inputs.drop_last();
    assert(all_len(init, n)) by {
        assert forall|j: int| 0 <= j < init.len() implies #[trigger] init[j].len() == n by {
            assert(init[j] == inputs[j]);
        }
    }
    let acc = fold_states(init, f);
    assert(fold_states(inputs, f)[k] == xor_state(acc[k], inputs[last][k]));
    if inputs.len() == 2 {
        assert(init.len() == 1);
        assert(acc == inputs[0]);
        assert(init.drop_last().len() == 0);
        assert(highs_at(init.drop_last(), k) == 0);
        assert(init.last() == inputs[0]);
        assert(highs_at(init, k) == if inputs[0][k] == BitState::High { 1nat } else { 0nat });
        assert(highs_at(inputs, k) == highs_at(init, k) + if inputs[1][k] == BitState::High { 1nat } else { 0nat });
        if exists|j: int| 0 <= j < inputs.len() && #[trigger] inputs[j][k] != BitState::High && inputs[j][k] != BitState::Low {
            let j = choose|j: int| 0 <= j < inputs.len() && #[trigger] inputs[j][k] != BitState::High && inputs[j][k] != BitState::Low;
            assert(j == 0 || j == 1);
        }
        if fold_states(inputs, f)[k] == BitState::Unk {
            if inputs[0][k] != BitState::High && inputs[0][k] != BitState::Low {
                assert(inputs[0][k] != BitState::High && inputs[0][k] != BitState::Low);
            } else {
                assert(inputs[1][k] != BitState::High && inputs[1][k] != BitState::Low);
            }
        }
    } else {
        lemma_fold_parity(init, f, n, k);
        if exists|j: int| 0 <= j < inputs.len() && #[trigger] inputs[j][k] != BitState::High && inputs[j][k] != BitState::Low {
            let j = choose|j: int| 0 <= j < inputs.len() && #[trigger] inputs[j][k] != BitState::High && inputs[j][k] != BitState::Low;
            if j < last {
                assert(init[j][k] != BitState::High && init[j][k] != BitState::Low);
            }
        }
        if acc[k] == BitState::Unk {
            let j = choose|j: int| 0 <= j < init.len() && #[trigger] init[j][k] != BitState::High && init[j][k] != BitState::Low;
            assert(inputs[j][k] != BitState::High && inputs[j][k] != BitState::Low);
        }
    }
}

/// XOR and XNOR gates on every input (two or more): a bit of an XOR gate's output is unknown exactly
/// when some input is neither high nor low there; otherwise it is high exactly when an
/// odd number of the inputs are high there. An XNOR gate gives the inverse.
pub proof fn lemma_xor_gate_bits(inputs: Seq<Seq<BitState>>, n: nat, k: int)
    requires
        inputs.len() >= 2,
        all_len(inputs, n),
        0 <= k < n,
    ensures
        gate_reduce(GateKind::Xor, inputs).len() == n,
        (gate_reduce(GateKind::Xor, inputs)[k] == BitState::Unk) == exists|j: int| 0 <= j < inputs.len()
            && #[trigger] inputs[j][k] != BitState::High && inputs[j][k] != BitState::Low,
        (forall|j: int| 0 <= j < inputs.len() ==> #[trigger] inputs[j][k] == BitState::High || inputs[j][k] == BitState::Low) ==> {
            &&& (gate_reduce(GateKind::Xor, inputs)[k] == BitState::High) == (highs_at(inputs, k) % 2 == 1)
            &&& (gate_reduce(GateKind::Xor, inputs)[k] == BitState::Low) == (highs_at(inputs, k) % 2 == 0)
            &&& (gate_reduce(GateKind::Xnor, inputs)[k] == BitState::High) == (highs_at(inputs, k) % 2 == 0)
            &&& (gate_reduce(GateKind::Xnor, inputs)[k] == BitState::Low) == (highs_at(inputs, k) % 2 == 1)
        },
{
    let f = |x: BitState, y: BitState| xor_state(x, y);
    lemma_fold_parity(inputs, f, n, k);
    if forall|j: int| 0 <= j < inputs.len() ==> #[trigger] inputs[j][k] == BitState::High || inputs[j][k] == BitState::Low {
        if fold_states(inputs, f)[k] == BitState::Unk {
            let j = choose|j: int| 0 <= j < inputs.len() && #[trigger] inputs[j][k] != BitState::High && inputs[j][k] != BitState::Low;
            assert(inputs[j][k] == BitState::High || inputs[j][k] == BitState::Low);
        }
    }
}

/// Adding an input to a gate combines its previous output with the added input by the
/// gate's operation; a gate of a single input passes it (inverted for NAND, NOR and XNOR).
pub proof fn lemma_gate_one_more_input(kind: GateKind, inputs: Seq<Seq<BitState>>, x: Seq<BitState>, n: nat)
    requires
        inputs.len() >= 1,
        all_len(inputs, n),
        x.len() == n,
    ensures
        gate_reduce(kind, seq![x]) == match kind {
            GateKind::Nand | GateKind::Nor | GateKind::Xnor => x.map_values(|b: BitState| not_state(b)),
            _ => x,
        },
        gate_reduce(GateKind::And, inputs.push(x))
            == Seq::new(n, |i: int| and_state(gate_reduce(GateKind::And, inputs)[i], x[i])),
        gate_reduce(GateKind::Or, inputs.push(x))
            == Seq::new(n, |i: int| or_state(gate_reduce(GateKind::Or, inputs)[i], x[i])),
        gate_reduce(GateKind::Xor, inputs.push(x))
            == Seq::new(n, |i: int| xor_state(gate_reduce(GateKind::Xor, inputs)[i], x[i])),
        gate_reduce(GateKind::Nand, inputs.push(x))
            == Seq::new(n, |i: int| not_state(and_state(gate_reduce(GateKind::And, inputs)[i], x[i]))),
        gate_reduce(GateKind::Nor, inputs.push(x))
            == Seq::new(n, |i: int| not_state(or_state(gate_reduce(GateKind::Or, inputs)[i], x[i]))),
        gate_reduce(GateKind::Xnor, inputs.push(x))
            == Seq::new(n, |i: int| not_state(xor_state(gate_reduce(GateKind::Xor, inputs)[i], x[i]))),
{
    let and_f = |a: BitState, b: BitState| and_state(a, b);
    let or_f = |a: BitState, b: BitState| or_state(a, b);
    let xor_f = |a: BitState, b: BitState| xor_state(a, b);
    let s = inputs.push(x);
    assert(s.drop_last() =~= inputs);
    assert(s.last() == x);
    lemma_fold_len(inputs, and_f, n);
    lemma_fold_len(inputs, or_f, n);
    lemma_fold_len(inputs, xor_f, n);
    assert(fold_states(s, and_f) =~= Seq::new(n, |i: int| and_state(fold_states(inputs, and_f)[i], x[i])));
    assert(fold_states(s, or_f) =~= Seq::new(n, |i: int| or_state(fold_states(inputs, or_f)[i], x[i])));
    assert(fold_states(s, xor_f) =~= Seq::new(n, |i: int| xor_state(fold_states(inputs, xor_f)[i], x[i])));
    assert(gate_reduce(GateKind::Nand, s) =~= Seq::new(n, |i: int| not_state(and_state(gate_reduce(GateKind::And, inputs)[i], x[i]))));
    assert(gate_reduce(GateKind::Nor, s) =~= Seq::new(n, |i: int| not_state(or_state(gate_reduce(GateKind::Or, inputs)[i], x[i]))));
    assert(gate_reduce(GateKind::Xnor, s) =~= Seq::new(n, |i: int| not_state(xor_state(gate_reduce(GateKind::Xor, inputs)[i], x[i]))));
    assert(gate_reduce(kind, seq![x]) =~= match kind {
        GateKind::Nand | GateKind::Nor | GateKind::Xnor => x.map_values(|b: BitState| not_state(b)),
        _ => x,
    });
}

/// A run of an AND gate with `n` inputs updates only its output, port `n`, and a bit of
/// the output is low exactly when one of the `n` inputs, wherever it stands, is low there.
pub proof fn lemma_and_gate_run(g: Gate, old_ports: Seq<Seq<BitState>>, new_ports: Seq<Seq<BitState>>, k: int)
    requires
        g@.0 == GateKind::And,
        g@.2 >= 1,
        new_ports.len() >= g@.2,
        forall|j: int| 0 <= j < g@.2 ==> #[trigger] new_ports[j].len() == g@.1,
        0 <= k < g@.1,
    ensures
        g.run_spec(old_ports, new_ports).len() == 1,
        g.run_spec(old_ports, new_ports)[0].0 == g@.2,
        (g.run_spec(old_ports, new_ports)[0].1[k] == BitState::Low)
            == exists|j: int| 0 <= j < g@.2 && #[trigger] new_ports[j][k] == BitState::Low,
{
    let ins = new_ports.subrange(0, g@.2 as int);
    assert(all_len(ins, g@.1 as nat)) by {
        assert forall|j: int| 0 <= j < ins.len() implies #[trigger] ins[j].len() == g@.1 by {
            assert(ins[j] == new_ports[j]);
        }
    }
    lemma_and_gate_bits(ins, g@.1 as nat, k);
    if exists|j: int| 0 <= j < g@.2 && #[trigger] new_ports[j][k] == BitState::Low {
        let j = choose|j: int| 0 <= j < g@.2 && #[trigger] new_ports[j][k] == BitState::Low;
        assert(ins[j][k] == BitState::Low);
    }
    if exists|j: int| 0 <= j < ins.len() && #[trigger] ins[j][k] == BitState::Low {
        let j = choose|j: int| 0 <= j < ins.len() && #[trigger] ins[j][k] == BitState::Low;
        assert(new_ports[j][k] == BitState::Low);
    }
}

/// Clamps a bitsize into `MIN_BITSIZE..=MAX_BITSIZE`.
fn clamp_bitsize(bitsize: u8) -> (r: u8)
    ensures
        r == clamp_u8(bitsize, BitArray::MIN_BITSIZE, BitArray::MAX_BITSIZE),
{
    if bitsize < BitArray::MIN_BITSIZE {
        BitArray::MIN_BITSIZE
    } else if bitsize > BitArray::MAX_BITSIZE {
        BitArray::MAX_BITSIZE
    } else {
        bitsize
    }
}

/// A NOT gate component.
#[derive(Debug, PartialEq, Eq, Clone, Copy, Hash)]
pub struct Not {
    bitsize: u8,
}

impl View for Not {
    /// The bitsize.
    type V = u8;

    closed spec fn view(&self) -> u8 {
        self.bitsize
    }
}

impl Not {
    /// The view of `Not::new(bitsize)`.
    pub open spec fn new_spec(bitsize: u8) -> u8 {
        clamp_u8(bitsize, BitArray::MIN_BITSIZE, BitArray::MAX_BITSIZE)
    }

    #[verifier::type_invariant]
    spec fn valid(self) -> bool {
        1 <= self.bitsize <= 64
    }

    /// Creates a new instance of the NOT gate with specified bitsize.
    pub fn new(bitsize: u8) -> (r: Self)
        ensures
            r@ == Self::new_spec(bitsize),
    {
        Not { bitsize: clamp_bitsize(bitsize) }
    }
}

impl Component for Not {
    open spec fn port_spec(&self) -> Seq<PortProperties> {
        seq![
            PortProperties { ty: PortType::Input, bitsize: self@ },
            PortProperties { ty: PortType::Output, bitsize: self@ },
        ]
    }

    open spec fn init_spec(&self, state: Seq<Seq<BitState>>) -> Seq<Seq<BitState>> {
        state
    }

    open spec fn run_spec(&self, old_ports: Seq<Seq<BitState>>, new_ports: Seq<Seq<BitState>>) -> Seq<(int, Seq<BitState>)> {
        seq![(1int, not_states(new_ports[0]))]
    }

    fn ports(&self) -> (r: Vec<PortProperties>) {
        vec![
            PortProperties { ty: PortType::Input, bitsize: self.bitsize },
            PortProperties { ty: PortType::Output, bitsize: self.bitsize },
        ]
    }

    fn initialize_port_state(&self, state: &mut [BitArray]) {
    }

    fn run_inner(&self, ctx: RunContext<'_>) -> (r: Vec<PortUpdate>) {
        let r = vec![PortUpdate { index: 1, value: ctx.new_ports[0].not() }];
        assert(update_views(r@) =~= self.run_spec(port_views(ctx.old_ports@), port_views(ctx.new_ports@)));
        r
    }
}

/// A tri-state buffer component.
#[derive(Debug, PartialEq, Eq, Clone, Copy, Hash)]
pub struct TriState {
    bitsize: u8,
}

impl View for TriState {
    /// The bitsize.
    type V = u8;

    closed spec fn view(&self) -> u8 {
        self.bitsize
    }
}

/// The output of a tri-state buffer: the input when enabled, floating when
/// disabled or the enable line floats, unknown when the enable line is unknown.
pub open spec fn tristate_output(gate: BitState, input: Seq<BitState>, bitsize: nat) -> Seq<BitState> {
    match gate {
        BitState::High => input,
        BitState::Low | BitState::Imped => floating_bits(bitsize),
        BitState::Unk => unknown_bits(bitsize),
    }
}

impl TriState {
    /// The view of `TriState::new(bitsize)`.
    pub open spec fn new_spec(bitsize: u8) -> u8 {
        clamp_u8(bitsize, BitArray::MIN_BITSIZE, BitArray::MAX_BITSIZE)
    }

    #[verifier::type_invariant]
    spec fn valid(self) -> bool {
        1 <= self.bitsize <= 64
    }

    /// Creates a new instance of the tri-state buffer with specified bitsize.
    pub fn new(bitsize: u8) -> (r: Self)
        ensures
            r@ == Self::new_spec(bitsize),
    {
        TriState { bitsize: clamp_bitsize(bitsize) }
    }
}

impl Component for TriState {
    open spec fn port_spec(&self) -> Seq<PortProperties> {
        seq![
            PortProperties { ty: PortType::Input, bitsize: 1 },
            PortProperties { ty: PortType::Input, bitsize: self@ },
            PortProperties { ty: PortType::Output, bitsize: self@ },
        ]
    }

    open spec fn init_spec(&self, state: Seq<Seq<BitState>>) -> Seq<Seq<BitState>> {
        state
    }

    open spec fn run_spec(&self, old_ports: Seq<Seq<BitState>>, new_ports: Seq<Seq<BitState>>) -> Seq<(int, Seq<BitState>)> {
        seq![(2int, tristate_output(new_ports[0][0], new_ports[1], self@ as nat))]
    }

    fn ports(&self) -> (r: Vec<PortProperties>) {
        vec![
            PortProperties { ty: PortType::Input, bitsize: 1 },
            PortProperties { ty: PortType::Input, bitsize: self.bitsize },
            PortProperties { ty: PortType::Output, bitsize: self.bitsize },
        ]
    }

    fn initialize_port_state(&self, state: &mut [BitArray]) {
    }

    fn run_inner(&self, ctx: RunContext<'_>) -> (r: Vec<PortUpdate>) {
        proof {
            use_type_invariant(self);
            assert(port_views(ctx.new_ports@)[0] == ctx.new_ports@[0]@);
        }
        let gate = ctx.new_ports[0].index(0);
        let result = match gate {
            BitState::High => ctx.new_ports[1],
            BitState::Low | BitState::Imped => BitArray::repeat(BitState::Imped, self.bitsize),
            BitState::Unk => BitArray::repeat(BitState::Unk, self.bitsize),
        };
        let r = vec![PortUpdate { index: 2, value: result }];
        assert(update_views(r@) =~= self.run_spec(port_views(ctx.old_ports@), port_views(ctx.new_ports@)));
        r
    }
}

/// A tri-state buffer drives its input through only when its enable bit is high: with the
/// enable bit low or floating its output floats, and with it unknown its output is unknown.
pub proof fn lemma_tristate_enable(t: TriState, old_ports: Seq<Seq<BitState>>, new_ports: Seq<Seq<BitState>>)
    requires
        new_ports.len() >= 2,
        new_ports[0].len() >= 1,
    ensures
        t.run_spec(old_ports, new_ports).len() == 1,
        t.run_spec(old_ports, new_ports)[0].0 == 2,
        new_ports[0][0] == BitState::High ==> t.run_spec(old_ports, new_ports)[0].1 == new_ports[1],
        new_ports[0][0] == BitState::Low || new_ports[0][0] == BitState::Imped ==> {
            &&& t.run_spec(old_ports, new_ports)[0].1.len() == t@
            &&& forall|i: int| 0 <= i < t@ ==> #[trigger] t.run_spec(old_ports, new_ports)[0].1[i] == BitState::Imped
        },
        new_ports[0][0] == BitState::Unk ==> {
            &&& t.run_spec(old_ports, new_ports)[0].1.len() == t@
            &&& forall|i: int| 0 <= i < t@ ==> #[trigger] t.run_spec(old_ports, new_ports)[0].1[i] == BitState::Unk
        },
{
}



/// A run of a NOT gate updates only its output, port 1, with each bit of the input
/// inverted: high where the input is low, low where it is high, unknown elsewhere.
pub proof fn lemma_not_gate_run(g: Not, old_ports: Seq<Seq<BitState>>, new_ports: Seq<Seq<BitState>>)
    requires
        new_ports.len() >= 1,
    ensures
        g.run_spec(old_ports, new_ports).len() == 1,
        g.run_spec(old_ports, new_ports)[0].0 == 1,
        g.run_spec(old_ports, new_ports)[0].1.len() == new_ports[0].len(),
        forall|k: int| 0 <= k < new_ports[0].len() ==> {
            let out = #[trigger] g.run_spec(old_ports, new_ports)[0].1[k];
            &&& (out == BitState::High) == (new_ports[0][k] == BitState::Low)
            &&& (out == BitState::Low) == (new_ports[0][k] == BitState::High)
            &&& (out == BitState::Unk) == (new_ports[0][k] != BitState::High && new_ports[0][k] != BitState::Low)
        },
{
}

/// All ports of a gate share its bitsize: first the inputs, then the output.
pub proof fn lemma_gate_io_widths(g: Gate)
    ensures
        g.port_spec().len() == g@.2 + 1,
        forall|i: int| 0 <= i < g@.2 ==> #[trigger] g.port_spec()[i] == (PortProperties { ty: PortType::Input, bitsize: g@.1 }),
        g.port_spec()[g@.2 as int] == (PortProperties { ty: PortType::Output, bitsize: g@.1 }),
{
}

} // verus!
