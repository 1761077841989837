//! Wires: straight horizontal or vertical segments between two grid points.

use vstd::prelude::*;
use crate::middle_end::{Axis, Coord};

pub mod finalizer;
pub mod range_map;
pub mod wire_set;



verus! {

/// A wire: a horizontal or vertical segment of positive length, starting at
/// `(x, y)` and growing rightwards (horizontal) or downwards (vertical).
#[derive(PartialEq, Eq, Hash, Clone, Copy, Debug, Structural)]
pub struct Wire {
    x: Axis,
    y: Axis,
    length: Axis,
    horizontal: bool,
}

/// Whether a wire with these fields is valid: its length is positive and
/// its far endpoint stays on the grid.
pub open spec fn wire_valid(x: Axis, y: Axis, length: Axis, horizontal: bool) -> bool {
    &&& length > 0
    &&& if horizontal { x + length <= u32::MAX } else { y + length <= u32::MAX }
}

/// The far endpoint of a wire with these fields.
pub open spec fn far_end(x: Axis, y: Axis, length: Axis, horizontal: bool) -> Coord {
    if horizontal { ((x + length) as u32, y) } else { (x, (y + length) as u32) }
}

/// The fields `(x, y, length, horizontal)` of the wire between `p` and `q`,
/// if the two points differ in exactly one coordinate.
pub open spec fn endpoints_wire(p: Coord, q: Coord) -> Option<(Axis, Axis, Axis, bool)> {
    if p.1 == q.1 && p.0 != q.0 {
        let x = if p.0 < q.0 { p.0 } else { q.0 };
        let len = if p.0 < q.0 { q.0 - p.0 } else { p.0 - q.0 };
        Some((x, p.1, len as u32, true))
    } else if p.0 == q.0 && p.1 != q.1 {
        let y = if p.1 < q.1 { p.1 } else { q.1 };
        let len = if p.1 < q.1 { q.1 - p.1 } else { p.1 - q.1 };
        Some((p.0, y, len as u32, false))
    } else {
        None
    }
}

/// The wire between two points does not depend on their order.
pub proof fn lemma_endpoints_symmetric(p: Coord, q: Coord)
    ensures
        endpoints_wire(p, q) == endpoints_wire(q, p),
{
}

/// A valid wire is the wire between its start and its far end.
pub proof fn lemma_wire_of_endpoints(x: Axis, y: Axis, length: Axis, horizontal: bool)
    requires
        wire_valid(x, y, length, horizontal),
    ensures
        endpoints_wire((x, y), far_end(x, y, length, horizontal)) == Some((x, y, length, horizontal)),
{
}

impl View for Wire {
    /// (x, y, length, horizontal)
    type V = (Axis, Axis, Axis, bool);

    closed spec fn view(&self) -> (Axis, Axis, Axis, bool) {
        (self.x, self.y, self.length, self.horizontal)
    }
}

impl Wire {
    #[verifier::type_invariant]
    spec fn valid(self) -> bool {
        wire_valid(self.x, self.y, self.length, self.horizontal)
    }

    /// Creates a wire from its start, length and direction.
    pub fn new_raw(x: Axis, y: Axis, length: Axis, horizontal: bool) -> (r: Wire)
        requires
            wire_valid(x, y, length, horizontal),
        ensures
            r@ == (x, y, length, horizontal),
    {
        Wire { x, y, length, horizontal }
    }

    /// Creates the wire between two points, or `None` if the points do not
    /// differ in exactly one coordinate.
    pub fn from_endpoints(p: Coord, q: Coord) -> (r: Option<Wire>)
        ensures
            match endpoints_wire(p, q) {
                Some(f) => r matches Some(w) && w@ == f,
                None => r is None,
            },
    {
        if p.1 == q.1 && p.0 != q.0 {
            let (x, len) = if p.0 < q.0 { (p.0, q.0 - p.0) } else { (q.0, p.0 - q.0) };
            Some(Wire { x, y: p.1, length: len, horizontal: true })
        } else if p.0 == q.0 && p.1 != q.1 {
            let (y, len) = if p.1 < q.1 { (p.1, q.1 - p.1) } else { (q.1, p.1 - q.1) };
            Some(Wire { x: p.0, y, length: len, horizontal: false })
        } else {
            None
        }
    }

    /// The start of the wire.
    pub fn start(&self) -> (r: Coord)
        ensures
            r == (self@.0, self@.1),
    {
        (self.x, self.y)
    }

    /// The length of the wire.
    pub fn length(&self) -> (r: Axis)
        ensures
            r == self@.2,
            r > 0,
    {
        proof {
            use_type_invariant(self);
        }
        self.length
    }

    /// Whether the wire is horizontal.
    pub fn horizontal(&self) -> (r: bool)
        ensures
            r == self@.3,
    {
        self.horizontal
    }

    /// The two endpoints of the wire: its start, then its far end.
    pub open spec fn endpoints_spec(&self) -> [Coord; 2] {
        [(self@.0, self@.1), far_end(self@.0, self@.1, self@.2, self@.3)]
    }

    /// The two endpoints of the wire: its start, then its far end.
    pub fn endpoints(&self) -> (r: [Coord; 2])
        ensures
            r == self.endpoints_spec(),
            r[0] == (self@.0, self@.1),
            r[1] == far_end(self@.0, self@.1, self@.2, self@.3),
            wire_valid(self@.0, self@.1, self@.2, self@.3),
    {
        proof {
            use_type_invariant(self);
        }
        if self.horizontal {
            [(self.x, self.y), (self.x + self.length, self.y)]
        } else {
            [(self.x, self.y), (self.x, self.y + self.length)]
        }
    }
}

} // verus!
