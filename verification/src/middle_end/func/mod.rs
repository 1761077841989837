//! Logic components for middle-end circuits and their geometry.

use vstd::prelude::*;
use crate::middle_end::{Axis, Coord, CoordDelta};

verus! {

/// Orientation.
///
/// This is typically used to describe the orientation of a component which can be rotated.
#[derive(PartialEq, Eq, PartialOrd, Ord, Hash, Debug, Clone, Copy, Structural)]
pub enum Orientation {
    North,
    South,
    East,
    West,
}

/// The handedness (or mirror orientation).
///
/// This is typically used to describe the mirror orientation of
/// a chiral component (one which is not mirror-symmetric).
#[derive(PartialEq, Eq, PartialOrd, Ord, Hash, Debug, Clone, Copy, Structural)]
pub enum Handedness {
    /// Left-handedness.
    ///
    /// For east-oriented components, the chiral port is pointed northwards (top).
    /// For north-oriented components, the chiral port is pointed westwards (left).
    TopLeft,
    /// Right-handedness.
    ///
    /// For east-oriented components, the chiral port is pointed southwards (down).
    /// For north-oriented components, the chiral port is pointed eastwards (right).
    DownRight,
}

impl Default for Orientation {
    fn default() -> (r: Self)
        ensures
            r == Orientation::East,
    {
        Orientation::East
    }
}

impl Default for Handedness {
    fn default() -> (r: Self)
        ensures
            r == Handedness::DownRight,
    {
        Handedness::DownRight
    }
}

/// Whether a delta can be negated in both components.
pub open spec fn negatable(c: CoordDelta) -> bool {
    c.0 != i32::MIN && c.1 != i32::MIN
}

/// `c`, given for an east-oriented component, rotated to match the given orientation.
///
/// Both handednesses place the ports identically.
pub open spec fn orient_spec(c: CoordDelta, orientation: Orientation, handedness: Handedness) -> (int, int) {
    let x = c.0 as int;
    let y = c.1 as int;
    match orientation {
        Orientation::North => (-y, x),
        Orientation::East => (x, y),
        Orientation::South => (y, -x),
        Orientation::West => (-x, -y),
    }
}

/// Helper which rotates a coordinate around the origin to match the provided orientation.
///
/// By default, components are defined as having east orientation with down-right handedness.
/// This function assumes this port is on an east-oriented component and
/// rotates it to match what it should be on a component with specified `orientation`;
/// the port positions are the same for both handednesses.
pub fn orient_coord(c: CoordDelta, orientation: Orientation, handedness: Handedness) -> (r: CoordDelta)
    requires
        negatable(c),
    ensures
        (r.0 as int, r.1 as int) == orient_spec(c, orientation, handedness),
        negatable(r),
{
    let (x, y) = c;
    match orientation {
        Orientation::North => (-y, x),
        Orientation::East => (x, y),
        Orientation::South => (y, -x),
        Orientation::West => (-x, -y),
    }
}

/// `p` moved by `d`, if the result stays on the grid.
pub open spec fn coord_add_spec(p: Coord, d: CoordDelta) -> Option<Coord> {
    let x = p.0 + d.0;
    let y = p.1 + d.1;
    if 0 <= x <= u32::MAX && 0 <= y <= u32::MAX {
        Some((x as u32, y as u32))
    } else {
        None
    }
}

/// Moves `p` by `d`, returning `None` if the result would leave the grid.
pub fn coord_add(p: Coord, d: CoordDelta) -> (r: Option<Coord>)
    ensures
        r == coord_add_spec(p, d),
{
    match (p.0.checked_add_signed(d.0), p.1.checked_add_signed(d.1)) {
        (Some(x), Some(y)) => Some((x, y)),
        _ => None,
    }
}

/// The offset from `q` to `p`, wrapped into an `i32` (two's complement).
pub open spec fn delta_spec(p: Axis, q: Axis) -> i32 {
    let d = p - q;
    if d > i32::MAX {
        (d - 0x1_0000_0000) as i32
    } else if d < i32::MIN {
        (d + 0x1_0000_0000) as i32
    } else {
        d as i32
    }
}

/// The offset from `q` to `p` (`p - q`), wrapped into an `i32`.
fn axis_delta(p: Axis, q: Axis) -> (r: i32)
    ensures
        r == delta_spec(p, q),
{
    if p >= q {
        let d = p - q;
        if d <= 0x7fff_ffff {
            d as i32
        } else {
            ((d - 0x8000_0000) as i32) - 0x7fff_ffff - 1
        }
    } else {
        let d = q - p;
        if d <= 0x7fff_ffff {
            -(d as i32)
        } else if d == 0x8000_0000 {
            i32::MIN
        } else {
            (0xffff_ffff - d + 1) as i32
        }
    }
}

/// Struct containing the physical bounds of a component and location of ports.
///
/// This has two forms:
/// - [`RelativeComponentBounds`]: Bounds with coordinates relative to the origin (0, 0)
/// - [`AbsoluteComponentBounds`]: Bounds with physical coordinates
#[derive(Debug, Clone, PartialEq, Eq, Hash)]
pub struct ComponentBounds<C> {
    /// The bounds (the left-bottom-most point and the right-top-most point)
    pub bounds: [C; 2],
    /// The location of each port.
    pub ports: Vec<C>,
}

/// Component bounds with positions relative to the origin (0, 0).
pub type RelativeComponentBounds = ComponentBounds<CoordDelta>;
/// Component bounds with absolute physical positions.
pub type AbsoluteComponentBounds = ComponentBounds<Coord>;

/// The four corners of the box spanned by `b`.
pub open spec fn corners(b: [CoordDelta; 2]) -> Seq<CoordDelta> {
    seq![b[0], (b[0].0, b[1].1), (b[1].0, b[0].1), b[1]]
}

pub open spec fn min4(a: int, b: int, c: int, d: int) -> int {
    let m1 = if a <= b { a } else { b };
    let m2 = if c <= d { c } else { d };
    if m1 <= m2 { m1 } else { m2 }
}

pub open spec fn max4(a: int, b: int, c: int, d: int) -> int {
    let m1 = if a >= b { a } else { b };
    let m2 = if c >= d { c } else { d };
    if m1 >= m2 { m1 } else { m2 }
}

fn min4_exec(a: i32, b: i32, c: i32, d: i32) -> (r: i32)
    ensures
        r == min4(a as int, b as int, c as int, d as int),
{
    let m1 = if a <= b { a } else { b };
    let m2 = if c <= d { c } else { d };
    if m1 <= m2 { m1 } else { m2 }
}

fn max4_exec(a: i32, b: i32, c: i32, d: i32) -> (r: i32)
    ensures
        r == max4(a as int, b as int, c as int, d as int),
{
    let m1 = if a >= b { a } else { b };
    let m2 = if c >= d { c } else { d };
    if m1 >= m2 { m1 } else { m2 }
}

/// The smallest box holding the four corners of `b` after orienting them.
pub open spec fn oriented_box(b: [CoordDelta; 2], orientation: Orientation, handedness: Handedness) -> ((int, int), (int, int)) {
    let cs = corners(b).map_values(|c: CoordDelta| orient_spec(c, orientation, handedness));
    (
        (min4(cs[0].0, cs[1].0, cs[2].0, cs[3].0), min4(cs[0].1, cs[1].1, cs[2].1, cs[3].1)),
        (max4(cs[0].0, cs[1].0, cs[2].0, cs[3].0), max4(cs[0].1, cs[1].1, cs[2].1, cs[3].1)),
    )
}

/// A pair of `i32`s as a pair of integers.
pub open spec fn ints(c: CoordDelta) -> (int, int) {
    (c.0 as int, c.1 as int)
}

/// Whether `r` is the base bounds and ports, oriented as given.
pub open spec fn is_oriented(
    r: RelativeComponentBounds,
    base_bounds: [CoordDelta; 2],
    base_ports: Seq<CoordDelta>,
    orientation: Orientation,
    handedness: Handedness,
) -> bool {
    &&& (ints(r.bounds[0]), ints(r.bounds[1])) == oriented_box(base_bounds, orientation, handedness)
    &&& r.ports@.len() == base_ports.len()
    &&& forall|i: int| 0 <= i < base_ports.len() ==>
        ints(#[trigger] r.ports@[i]) == orient_spec(base_ports[i], orientation, handedness)
}

/// The bounds of a `width` x `height` single-port component, relative to its
/// port in the middle of the east side.
pub open spec fn single_port_box(width: u32, height: u32) -> [CoordDelta; 2] {
    [((-(width as int)) as i32, (-((height / 2) as int)) as i32), (0i32, (height - height / 2) as i32)]
}

/// The size of a single-port component showing `bitsize` bits:
/// two columns per bit up to eight, and two rows per started group of eight bits.
pub open spec fn tile_dims(bitsize: u8) -> (u32, u32) {
    let rows: int = if bitsize % 8 == 0 { (bitsize / 8) as int } else { bitsize / 8 + 1 };
    let height = (2 * rows) as u32;
    if bitsize <= 2 {
        (2u32, height)
    } else if bitsize <= 8 {
        ((2 * bitsize) as u32, height)
    } else {
        (16u32, height)
    }
}

/// Whether relative bounds and ports, placed at `origin`, stay on the grid.
pub open spec fn fits_at(bounds: [CoordDelta; 2], ports: Seq<CoordDelta>, origin: Coord) -> bool {
    &&& coord_add_spec(origin, bounds[0]) is Some
    &&& coord_add_spec(origin, bounds[1]) is Some
    &&& forall|i: int| 0 <= i < ports.len() ==> #[trigger] coord_add_spec(origin, ports[i]) is Some
}

/// Whether `abs_bounds` and `abs_ports` are the relative ones placed at `origin`.
pub open spec fn placed_at(
    abs_bounds: [Coord; 2],
    abs_ports: Seq<Coord>,
    bounds: [CoordDelta; 2],
    ports: Seq<CoordDelta>,
    origin: Coord,
) -> bool {
    &&& Some(abs_bounds[0]) == coord_add_spec(origin, bounds[0])
    &&& Some(abs_bounds[1]) == coord_add_spec(origin, bounds[1])
    &&& abs_ports.len() == ports.len()
    &&& forall|i: int| 0 <= i < abs_ports.len() ==> Some(#[trigger] abs_ports[i]) == coord_add_spec(origin, ports[i])
}

/// Orienting given base bounds and ports has a single outcome.
pub proof fn lemma_is_oriented_unique(
    r1: RelativeComponentBounds,
    r2: RelativeComponentBounds,
    base_bounds: [CoordDelta; 2],
    base_ports: Seq<CoordDelta>,
    orientation: Orientation,
    handedness: Handedness,
)
    requires
        is_oriented(r1, base_bounds, base_ports, orientation, handedness),
        is_oriented(r2, base_bounds, base_ports, orientation, handedness),
    ensures
        r1.bounds == r2.bounds,
        r1.ports@ == r2.ports@,
{
    assert(r1.bounds =~= r2.bounds);
    assert forall|i: int| 0 <= i < r1.ports@.len() implies r1.ports@[i] == r2.ports@[i] by {
        assert(ints(r1.ports@[i]) == ints(r2.ports@[i]));
    }
    assert(r1.ports@ =~= r2.ports@);
}

/// Orienting east leaves a coordinate where it is.
pub proof fn lemma_orient_east_identity(c: CoordDelta, handedness: Handedness)
    ensures
        orient_spec(c, Orientation::East, handedness) == ints(c),
{
}

/// Both handednesses place a coordinate at the same spot.
pub proof fn lemma_orient_ignores_handedness(c: CoordDelta, orientation: Orientation)
    ensures
        orient_spec(c, orientation, Handedness::TopLeft) == orient_spec(c, orientation, Handedness::DownRight),
{
}

/// A point made relative to an origin and placed back at that origin is the point
/// itself, when its offset from the origin fits in an `i32`.
pub proof fn lemma_relative_then_absolute(p: Coord, origin: Coord)
    requires
        i32::MIN <= p.0 - origin.0 <= i32::MAX,
        i32::MIN <= p.1 - origin.1 <= i32::MAX,
    ensures
        coord_add_spec(origin, (delta_spec(p.0, origin.0), delta_spec(p.1, origin.1))) == Some(p),
{
}

/// Whether every coordinate of the bounds and ports can be negated.
pub open spec fn relative_negatable(bounds: [CoordDelta; 2], ports: Seq<CoordDelta>) -> bool {
    &&& negatable(bounds[0])
    &&& negatable(bounds[1])
    &&& forall|i: int| 0 <= i < ports.len() ==> #[trigger] negatable(ports[i])
}

impl ComponentBounds<Coord> {
    /// Creates new bounds spanning `(0, 0)` to `dims`, with the given ports.
    pub fn new(dims: Coord, ports: Vec<Coord>) -> (r: Self)
        ensures
            r.bounds[0] == (0u32, 0u32),
            r.bounds[1] == dims,
            r.ports@ == ports@,
    {
        ComponentBounds { bounds: [(0, 0), dims], ports }
    }

    /// Expresses the bounds and ports relative to `origin` (wrapping offsets into `i32`).
    pub fn into_relative(self, origin: Coord) -> (r: RelativeComponentBounds)
        ensures
            r.bounds[0] == (delta_spec(self.bounds[0].0, origin.0), delta_spec(self.bounds[0].1, origin.1)),
            r.bounds[1] == (delta_spec(self.bounds[1].0, origin.0), delta_spec(self.bounds[1].1, origin.1)),
            r.ports@.len() == self.ports@.len(),
            forall|i: int| 0 <= i < r.ports@.len() ==> #[trigger] r.ports@[i]
                == (delta_spec(self.ports@[i].0, origin.0), delta_spec(self.ports@[i].1, origin.1)),
    {
        let b0 = self.bounds[0];
        let b1 = self.bounds[1];
        let bounds = [
            (axis_delta(b0.0, origin.0), axis_delta(b0.1, origin.1)),
            (axis_delta(b1.0, origin.0), axis_delta(b1.1, origin.1)),
        ];
        let mut ports: Vec<CoordDelta> = Vec::new();
        let mut i: usize = 0;
        while i < self.ports.len()
            invariant
                i <= self.ports@.len(),
                ports@.len() == i,
                forall|k: int| 0 <= k < i ==> #[trigger] ports@[k]
                    == (delta_spec(self.ports@[k].0, origin.0), delta_spec(self.ports@[k].1, origin.1)),
            decreases self.ports@.len() - i,
        {
            let p = self.ports[i];
            ports.push((axis_delta(p.0, origin.0), axis_delta(p.1, origin.1)));
            i = i + 1;
        }
        ComponentBounds { bounds, ports }
    }
}

impl ComponentBounds<CoordDelta> {
    /// Creates new bounds spanning `(0, 0)` to `dims`, with the given ports.
    pub fn new(dims: CoordDelta, ports: Vec<CoordDelta>) -> (r: Self)
        ensures
            r.bounds[0] == (0i32, 0i32),
            r.bounds[1] == dims,
            r.ports@ == ports@,
    {
        ComponentBounds { bounds: [(0, 0), dims], ports }
    }

    /// A component with one port at `origin`, spanning `(0, 0)` to `(width, height)`,
    /// expressed relative to `origin`.
    fn single_port_with_origin(width: u32, height: u32, origin: Coord) -> (r: Self)
        ensures
            r.bounds[0] == (delta_spec(0, origin.0), delta_spec(0, origin.1)),
            r.bounds[1] == (delta_spec(width, origin.0), delta_spec(height, origin.1)),
            r.ports@ == seq![(0i32, 0i32)],
    {
        let r = ComponentBounds::<Coord>::new((width, height), vec![origin]).into_relative(origin);
        assert(r.ports@ =~= seq![(0i32, 0i32)]);
        r
    }

    /// A component of size `width` x `height` whose single port (and origin)
    /// sits in the middle of its east side, oriented as given.
    fn single_port(width: u32, height: u32, orientation: Orientation) -> (r: Self)
        requires
            width <= i32::MAX,
            height <= i32::MAX,
        ensures
            is_oriented(r, single_port_box(width, height), seq![(0i32, 0i32)], orientation, Handedness::DownRight),
    {
        let base = Self::single_port_with_origin(width, height, (width, height / 2));
        assert(base.bounds == single_port_box(width, height));
        base.orient(orientation, Handedness::DownRight)
    }

    /// A single-port component sized to show a value of `bitsize` bits, oriented as given.
    fn single_port_from_bitsize(bitsize: u8, orientation: Orientation) -> (r: Self)
        ensures
            is_oriented(r, single_port_box(tile_dims(bitsize).0, tile_dims(bitsize).1),
                seq![(0i32, 0i32)], orientation, Handedness::DownRight),
    {
        let max_cols: u32 = 8;
        let bitsize = bitsize as u32;
        let n_rows = if bitsize % max_cols == 0 { bitsize / max_cols } else { bitsize / max_cols + 1 };
        let height = 2 * n_rows;
        if bitsize <= 2 {
            Self::single_port(2, height, orientation)
        } else if bitsize <= max_cols {
            Self::single_port(2 * bitsize, height, orientation)
        } else {
            Self::single_port(2 * max_cols, height, orientation)
        }
    }

    /// Orients the component bounds and ports around the origin
    /// in accordance to the specified orientation and handedness,
    /// assuming the coordinates were originally oriented eastwards with down-right handedness.
    ///
    /// The new bounds are the smallest box holding all four rotated corners of the old bounds.
    pub fn orient(self, orientation: Orientation, handedness: Handedness) -> (r: Self)
        requires
            relative_negatable(self.bounds, self.ports@),
        ensures
            is_oriented(r, self.bounds, self.ports@, orientation, handedness),
            ({
                let cs = corners(self.bounds).map_values(|c: CoordDelta| orient_spec(c, orientation, handedness));
                // The bounds stay normalized and hold every rotated corner.
                &&& r.bounds[0].0 <= r.bounds[1].0
                &&& r.bounds[0].1 <= r.bounds[1].1
                &&& forall|k: int| 0 <= k < 4 ==>
                    r.bounds[0].0 <= (#[trigger] cs[k]).0 <= r.bounds[1].0
                    && r.bounds[0].1 <= cs[k].1 <= r.bounds[1].1
            }),
            relative_negatable(r.bounds, r.ports@),
    {
        let b0 = self.bounds[0];
        let b1 = self.bounds[1];
        let c0 = orient_coord(b0, orientation, handedness);
        let c1 = orient_coord((b0.0, b1.1), orientation, handedness);
        let c2 = orient_coord((b1.0, b0.1), orientation, handedness);
        let c3 = orient_coord(b1, orientation, handedness);
        let min_x = min4_exec(c0.0, c1.0, c2.0, c3.0);
        let max_x = max4_exec(c0.0, c1.0, c2.0, c3.0);
        let min_y = min4_exec(c0.1, c1.1, c2.1, c3.1);
        let max_y = max4_exec(c0.1, c1.1, c2.1, c3.1);
        let bounds = [(min_x, min_y), (max_x, max_y)];

        let mut ports: Vec<CoordDelta> = Vec::new();
        let mut i: usize = 0;
        while i < self.ports.len()
            invariant
                i <= self.ports@.len(),
                relative_negatable(self.bounds, self.ports@),
                ports@.len() == i,
                forall|k: int| 0 <= k < i ==>
                    (#[trigger] ports@[k].0 as int, ports@[k].1 as int) == orient_spec(self.ports@[k], orientation, handedness),
                forall|k: int| 0 <= k < i ==> #[trigger] negatable(ports@[k]),
            decreases self.ports@.len() - i,
        {
            assert(negatable(self.ports@[i as int]));
            ports.push(orient_coord(self.ports[i], orientation, handedness));
            i = i + 1;
        }
        let r = ComponentBounds { bounds, ports };
        proof {
            assert forall|k: int| 0 <= k < self.ports@.len() implies
                ints(#[trigger] r.ports@[k]) == orient_spec(self.ports@[k], orientation, handedness) by {
                assert((r.ports@[k].0 as int, r.ports@[k].1 as int) == orient_spec(self.ports@[k], orientation, handedness));
            }
            let cs = corners(self.bounds).map_values(|c: CoordDelta| orient_spec(c, orientation, handedness));
            assert(cs[0] == (c0.0 as int, c0.1 as int));
            assert(cs[1] == (c1.0 as int, c1.1 as int));
            assert(cs[2] == (c2.0 as int, c2.1 as int));
            assert(cs[3] == (c3.0 as int, c3.1 as int));
        }
        r
    }

    /// Expresses the bounds and ports in absolute positions around `origin`,
    /// or `None` if any of them would leave the grid.
    pub(crate) fn into_absolute(self, origin: Coord) -> (r: Option<AbsoluteComponentBounds>)
        ensures
            r is Some <==> fits_at(self.bounds, self.ports@, origin),
            r matches Some(a) ==> placed_at(a.bounds, a.ports@, self.bounds, self.ports@, origin),
    {
        let b0 = match coord_add(origin, self.bounds[0]) {
            Some(c) => c,
            None => return None,
        };
        let b1 = match coord_add(origin, self.bounds[1]) {
            Some(c) => c,
            None => return None,
        };
        let mut ports: Vec<Coord> = Vec::new();
        let mut i: usize = 0;
        while i < self.ports.len()
            invariant
                i <= self.ports@.len(),
                ports@.len() == i,
                forall|k: int| 0 <= k < i ==> Some(#[trigger] ports@[k]) == coord_add_spec(origin, self.ports@[k]),
            decreases self.ports@.len() - i,
        {
            match coord_add(origin, self.ports[i]) {
                Some(c) => ports.push(c),
                None => {
                    assert(coord_add_spec(origin, self.ports@[i as int]) is None);
                    return None;
                },
            }
            i = i + 1;
        }
        assert forall|k: int| 0 <= k < self.ports@.len() implies #[trigger] coord_add_spec(origin, self.ports@[k]) is Some by {
            assert(Some(ports@[k]) == coord_add_spec(origin, self.ports@[k]));
        }
        Some(ComponentBounds { bounds: [b0, b1], ports })
    }
}

} // verus!

pub mod gates;
pub use gates::{Gate, GateKind, Not, TriState};
pub mod wiring;
pub use wiring::{Constant, Ground, Pin, Power, Probe, Splitter, Tunnel};
pub mod arithmetic;
pub use arithmetic::{Adder, Divider, Multiplier, SignType, Subtractor};
pub mod muxes;
pub use muxes::{Decoder, Demux, Mux};
pub mod misc;
pub use misc::Text;
pub mod component;
pub use component::PhysicalComponentEnum;
