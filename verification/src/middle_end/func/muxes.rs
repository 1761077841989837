use vstd::prelude::*;
use crate::engine::func::ComponentFn;
use crate::middle_end::CoordDelta;
use crate::middle_end::func::{
    AbsoluteComponentBounds, Handedness, Orientation, RelativeComponentBounds, is_oriented,
};

verus! {

/// The width of every plexer (mux, demux, decoder).
pub const PLEXER_WIDTH: u32 = 3;

/// The largest selector size whose layout fits on the grid.
pub const MAX_SELSIZE: u8 = 29;

/// The number of lines chosen by a selector of `selsize` bits: `2^selsize`.
pub open spec fn select_count(selsize: nat) -> nat
    decreases selsize,
{
    if selsize == 0 { 1 } else { 2 * select_count((selsize - 1) as nat) }
}

/// `2^selsize`, for a selector small enough to be laid out.
fn select_lines(selsize: u8) -> (n: u32)
    requires
        selsize <= MAX_SELSIZE,
    ensures
        n == select_count(selsize as nat),
        1 <= n <= 0x2000_0000,
{
    let mut n: u32 = 1;
    let mut i: u8 = 0;
    assert(select_count(MAX_SELSIZE as nat) == 0x2000_0000) by {
        reveal_with_fuel(select_count, 30);
    }
    while i < selsize
        invariant
            i <= selsize <= MAX_SELSIZE,
            n == select_count(i as nat),
            1 <= n,
            n as int * select_count((MAX_SELSIZE - i) as nat) == 0x2000_0000,
        decreases selsize - i,
    {
        assert(select_count((MAX_SELSIZE - i) as nat) == 2 * select_count((MAX_SELSIZE - i - 1) as nat));
        assert(select_count((MAX_SELSIZE - i - 1) as nat) >= 1) by {
            lemma_select_count_pos((MAX_SELSIZE - i - 1) as nat);
        }
        assert(n * 2 <= 0x2000_0000) by (nonlinear_arith)
            requires
                n as int * (2 * select_count((MAX_SELSIZE - i - 1) as nat)) == 0x2000_0000,
                select_count((MAX_SELSIZE - i - 1) as nat) >= 1,
        ;
        n = n * 2;
        i = i + 1;
        assert(n as int * select_count((MAX_SELSIZE - i) as nat) == 0x2000_0000) by (nonlinear_arith)
            requires
                n == 2 * (n / 2),
                (n / 2) as int * (2 * select_count((MAX_SELSIZE - i) as nat)) == 0x2000_0000,
        ;
    }
    assert(n <= 0x2000_0000) by (nonlinear_arith)
        requires
            n as int * select_count((MAX_SELSIZE - i) as nat) == 0x2000_0000,
            select_count((MAX_SELSIZE - i) as nat) >= 1,
    {
        lemma_select_count_pos((MAX_SELSIZE - i) as nat);
    }
    n
}

/// A selector always chooses among at least one line.
proof fn lemma_select_count_pos(s: nat)
    ensures
        select_count(s) >= 1,
    decreases s,
{
    if s > 0 {
        lemma_select_count_pos((s - 1) as nat);
    }
}

/// The ports of an east-facing mux choosing among `n` inputs, relative to its output:
/// the selector on the bottom, the inputs down the west side, the output.
pub open spec fn mux_port_spec(n: int) -> Seq<CoordDelta> {
    seq![(-2i32, n as i32)]
        + Seq::new(n as nat, |i: int| (-3i32, (1 + 2 * i - n) as i32))
        + seq![(0i32, 0i32)]
}

/// The ports of an east-facing demux with `n` outputs, relative to its input:
/// the selector on the bottom, the input, the outputs down the east side.
pub open spec fn demux_port_spec(n: int) -> Seq<CoordDelta> {
    seq![(1i32, n as i32), (0i32, 0i32)]
        + Seq::new(n as nat, |i: int| (3i32, (1 + 2 * i - n) as i32))
}

/// The ports of an east-facing decoder with `n` outputs, relative to its selector:
/// the selector, the outputs down the east side.
pub open spec fn decoder_port_spec(n: int) -> Seq<CoordDelta> {
    seq![(0i32, 0i32)]
        + Seq::new(n as nat, |i: int| (2i32, (1 + 2 * i - 2 * n) as i32))
}

/// A multiplexer (mux) component.
#[derive(Debug, PartialEq, Eq, Clone, Copy, Hash)]
pub struct Mux {
    bitsize: u8,
    selsize: u8,
    orientation: Orientation,
    handedness: Handedness,
}

impl View for Mux {
    /// (bitsize, selector size, orientation, handedness)
    type V = (u8, u8, Orientation, Handedness);

    closed spec fn view(&self) -> (u8, u8, Orientation, Handedness) {
        (self.bitsize, self.selsize, self.orientation, self.handedness)
    }
}

impl Mux {
    /// Creates a new instance of the mux with specified bitsize and selector size.
    pub fn new(bitsize: u8, selsize: u8, orientation: Orientation, handedness: Handedness) -> (r: Self)
        ensures
            r@ == (bitsize, selsize, orientation, handedness),
    {
        Mux { bitsize, selsize, orientation, handedness }
    }

    /// The contract of [`Self::init_engine`].
    pub open spec fn engine_match(&self, r: Option<ComponentFn>) -> bool {
        &&& r is None
    }

    /// The engine of this library has no multiplexer function, so a mux has no engine component.
    pub fn init_engine(&self) -> (r: Option<ComponentFn>)
        ensures
            self.engine_match(r),
    {
        None
    }

    /// The contract of [`Self::component_name`].
    pub open spec fn name_match(&self, r: &'static str) -> bool {
        &&& r@ == "Mux"@
    }

    /// The name of the component.
    pub fn component_name(&self) -> (r: &'static str)
        ensures
            self.name_match(r),
    {
        "Mux"
    }

    /// Whether the mux can be laid out on the grid.
    pub open spec fn has_bounds(&self) -> bool {
        self@.1 <= MAX_SELSIZE
    }

    /// The contract of [`Self::init_bounds`].
    pub open spec fn bounds_match(&self, r: RelativeComponentBounds) -> bool {
        let n = select_count(self@.1 as nat) as int;
        &&& is_oriented(r, [(-3i32, (-n) as i32), (0i32, n as i32)], mux_port_spec(n), self@.2, self@.3)
    }

    /// The bounds and ports of the mux.
    pub fn init_bounds(&self) -> (r: RelativeComponentBounds)
        requires
            self.has_bounds(),
        ensures
            self.bounds_match(r),
    {
        let n = select_lines(self.selsize);
        let height = 2 * n;
        let origin = (PLEXER_WIDTH, n);
        let mut ports: Vec<(u32, u32)> = vec![(1, height)];
        let mut i: u32 = 0;
        while i < n
            invariant
                1 <= n <= 0x2000_0000,
                height == 2 * n,
                i <= n,
                ports@.len() == 1 + i,
                ports@[0] == (1u32, height),
                forall|k: int| 1 <= k <= i ==> #[trigger] ports@[k] == (0u32, (2 * k - 1) as u32),
            decreases n - i,
        {
            ports.push((0, 1 + 2 * i));
            i = i + 1;
        }
        let ghost inputs = ports@;
        ports.push(origin);
        let base = AbsoluteComponentBounds::new((PLEXER_WIDTH, height), ports).into_relative(origin);
        let ghost nn = n as int;
        assert(base.ports@ =~= mux_port_spec(nn)) by {
            assert forall|j: int| 0 <= j < nn + 2 implies #[trigger] base.ports@[j] == mux_port_spec(nn)[j] by {
                if 1 <= j <= nn {
                    assert(inputs[j] == (0u32, (2 * j - 1) as u32));
                }
            }
        }
        base.orient(self.orientation, self.handedness)
    }
}

/// A demultiplexer (demux) component.
#[derive(Debug, PartialEq, Eq, Clone, Copy, Hash)]
pub struct Demux {
    bitsize: u8,
    selsize: u8,
    orientation: Orientation,
    handedness: Handedness,
}

impl View for Demux {
    /// (bitsize, selector size, orientation, handedness)
    type V = (u8, u8, Orientation, Handedness);

    closed spec fn view(&self) -> (u8, u8, Orientation, Handedness) {
        (self.bitsize, self.selsize, self.orientation, self.handedness)
    }
}

impl Demux {
    /// Creates a new instance of the demux with specified bitsize and selector size.
    pub fn new(bitsize: u8, selsize: u8, orientation: Orientation, handedness: Handedness) -> (r: Self)
        ensures
            r@ == (bitsize, selsize, orientation, handedness),
    {
        Demux { bitsize, selsize, orientation, handedness }
    }

    /// The contract of [`Self::init_engine`].
    pub open spec fn engine_match(&self, r: Option<ComponentFn>) -> bool {
        &&& r is None
    }

    /// The engine of this library has no demultiplexer function, so a demux has no engine component.
    pub fn init_engine(&self) -> (r: Option<ComponentFn>)
        ensures
            self.engine_match(r),
    {
        None
    }

    /// The contract of [`Self::component_name`].
    pub open spec fn name_match(&self, r: &'static str) -> bool {
        &&& r@ == "Demux"@
    }

    /// The name of the component.
    pub fn component_name(&self) -> (r: &'static str)
        ensures
            self.name_match(r),
    {
        "Demux"
    }

    /// Whether the demux can be laid out on the grid.
    pub open spec fn has_bounds(&self) -> bool {
        self@.1 <= MAX_SELSIZE
    }

    /// The contract of [`Self::init_bounds`].
    pub open spec fn bounds_match(&self, r: RelativeComponentBounds) -> bool {
        let n = select_count(self@.1 as nat) as int;
        &&& is_oriented(r, [(0i32, (-n) as i32), (3i32, n as i32)], demux_port_spec(n), self@.2, self@.3)
    }

    /// The bounds and ports of the demux.
    pub fn init_bounds(&self) -> (r: RelativeComponentBounds)
        requires
            self.has_bounds(),
        ensures
            self.bounds_match(r),
    {
        let n = select_lines(self.selsize);
        let height = 2 * n;
        let origin = (0u32, n);
        let mut ports: Vec<(u32, u32)> = vec![(1, height), origin];
        let mut i: u32 = 0;
        while i < n
            invariant
                1 <= n <= 0x2000_0000,
                height == 2 * n,
                i <= n,
                ports@.len() == 2 + i,
                ports@[0] == (1u32, height),
                ports@[1] == origin,
                forall|k: int| 2 <= k < 2 + i ==> #[trigger] ports@[k] == (PLEXER_WIDTH, (2 * k - 3) as u32),
            decreases n - i,
        {
            ports.push((PLEXER_WIDTH, 1 + 2 * i));
            i = i + 1;
        }
        let base = AbsoluteComponentBounds::new((PLEXER_WIDTH, height), ports).into_relative(origin);
        let ghost nn = n as int;
        assert(base.ports@ =~= demux_port_spec(nn)) by {
            assert forall|j: int| 0 <= j < nn + 2 implies #[trigger] base.ports@[j] == demux_port_spec(nn)[j] by {
                if 2 <= j {
                    assert(ports@[j] == (PLEXER_WIDTH, (2 * j - 3) as u32));
                }
            }
        }
        base.orient(self.orientation, self.handedness)
    }
}

/// A decoder component.
#[derive(Debug, PartialEq, Eq, Clone, Copy, Hash)]
pub struct Decoder {
    selsize: u8,
    orientation: Orientation,
    handedness: Handedness,
}

impl View for Decoder {
    /// (selector size, orientation, handedness)
    type V = (u8, Orientation, Handedness);

    closed spec fn view(&self) -> (u8, Orientation, Handedness) {
        (self.selsize, self.orientation, self.handedness)
    }
}

impl Decoder {
    /// Creates a new instance of the decoder with specified selector size.
    pub fn new(selsize: u8, orientation: Orientation, handedness: Handedness) -> (r: Self)
        ensures
            r@ == (selsize, orientation, handedness),
    {
        Decoder { selsize, orientation, handedness }
    }

    /// The contract of [`Self::init_engine`].
    pub open spec fn engine_match(&self, r: Option<ComponentFn>) -> bool {
        &&& r is None
    }

    /// The engine of this library has no decoder function, so a decoder has no engine component.
    pub fn init_engine(&self) -> (r: Option<ComponentFn>)
        ensures
            self.engine_match(r),
    {
        None
    }

    /// The contract of [`Self::component_name`].
    pub open spec fn name_match(&self, r: &'static str) -> bool {
        &&& r@ == "Decoder"@
    }

    /// The name of the component.
    pub fn component_name(&self) -> (r: &'static str)
        ensures
            self.name_match(r),
    {
        "Decoder"
    }

    /// Whether the decoder can be laid out on the grid.
    pub open spec fn has_bounds(&self) -> bool {
        self@.0 <= MAX_SELSIZE
    }

    /// The contract of [`Self::init_bounds`].
    pub open spec fn bounds_match(&self, r: RelativeComponentBounds) -> bool {
        let n = select_count(self@.0 as nat) as int;
        &&& is_oriented(r, [(-1i32, (-2 * n) as i32), (2i32, 0i32)], decoder_port_spec(n), self@.1, self@.2)
    }

    /// The bounds and ports of the decoder.
    pub fn init_bounds(&self) -> (r: RelativeComponentBounds)
        requires
            self.has_bounds(),
        ensures
            self.bounds_match(r),
    {
        let n = select_lines(self.selsize);
        let height = 2 * n;
        let origin = (1u32, height);
        let mut ports: Vec<(u32, u32)> = vec![origin];
        let mut i: u32 = 0;
        while i < n
            invariant
                1 <= n <= 0x2000_0000,
                height == 2 * n,
                i <= n,
                ports@.len() == 1 + i,
                ports@[0] == origin,
                forall|k: int| 1 <= k <= i ==> #[trigger] ports@[k] == (PLEXER_WIDTH, (2 * k - 1) as u32),
            decreases n - i,
        {
            ports.push((PLEXER_WIDTH, 1 + 2 * i));
            i = i + 1;
        }
        let base = AbsoluteComponentBounds::new((PLEXER_WIDTH, height), ports).into_relative(origin);
        let ghost nn = n as int;
        assert(base.ports@ =~= decoder_port_spec(nn)) by {
            assert forall|j: int| 0 <= j < nn + 1 implies #[trigger] base.ports@[j] == decoder_port_spec(nn)[j] by {
                if 1 <= j {
                    assert(ports@[j] == (PLEXER_WIDTH, (2 * j - 1) as u32));
                }
            }
        }
        base.orient(self.orientation, self.handedness)
    }
}

} // verus!
