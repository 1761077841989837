//! The middle end, which keeps track of component types, properties, and positions.

use vstd::prelude::*;
use crate::middle_end::func::{
    Orientation, PhysicalComponentEnum, RelativeComponentBounds, coord_add, coord_add_spec, fits_at,
    placed_at,
};
use crate::middle_end::wire::{Wire, far_end};

pub mod circuit;
pub mod func;
pub mod links;
pub mod wire;

verus! {

/// A coordinate along one axis of the grid.
pub type Axis = u32;
/// A point of the grid: (x, y).
pub type Coord = (Axis, Axis);

/// A signed offset along one axis.
pub type AxisDelta = i32;
/// A signed offset between points: (dx, dy).
pub type CoordDelta = (AxisDelta, AxisDelta);

/// The key of a middle-end component.
#[derive(Debug, Clone, Copy, PartialEq, Eq, PartialOrd, Ord, Hash, Structural)]
pub struct ComponentKey(pub u64);

/// The interned label of a tunnel: tunnels with the same label share a symbol.
#[derive(Debug, Clone, Copy, PartialEq, Eq, PartialOrd, Ord, Hash, Structural)]
pub struct TunnelSymbol(pub u32);

/// Errors which can occur when editing a middle-end circuit.
#[derive(Debug, PartialEq, Eq, Clone, Copy, Structural)]
pub enum ReprEditErr {
    /// Component is out of bounds (so it cannot be added).
    ComponentOutOfBounds,
    /// Component being specified doesn't exist (so it cannot be removed).
    ComponentDoesNotExist,
    /// Adding a tunnel at a spot where the same tunnel already exists.
    RedundantTunnel,
}

impl ReprEditErr {
    /// The message describing the error.
    pub fn message(&self) -> (r: &'static str)
        ensures
            *self == ReprEditErr::ComponentOutOfBounds ==> r@ == "component is out of bounds"@,
            *self == ReprEditErr::ComponentDoesNotExist ==> r@ == "component does not exist"@,
            *self == ReprEditErr::RedundantTunnel ==> r@ == "cannot place two identical tunnels with the same port"@,
    {
        match self {
            ReprEditErr::ComponentOutOfBounds => "component is out of bounds",
            ReprEditErr::ComponentDoesNotExist => "component does not exist",
            ReprEditErr::RedundantTunnel => "cannot place two identical tunnels with the same port",
        }
    }
}

/// Arguments used to add a component to a circuit.
#[derive(Debug, PartialEq, Eq, Clone, Copy)]
pub struct AddComponentArgs<'label> {
    /// The inner component properties.
    pub inner: PhysicalComponentEnum,
    /// The component's label (or "" if no label exists)
    pub label: &'label str,
    /// The location of the component label.
    pub label_location: Orientation,
    /// The component's origin.
    pub origin: Coord,
}

impl AddComponentArgs<'static> {
    /// Constructs an argument set assuming the component has no label.
    pub fn unlabeled(inner: PhysicalComponentEnum, origin: Coord) -> (r: Self)
        ensures
            r.inner == inner,
            r.label@ == ""@,
            r.label_location == Orientation::North,
            r.origin == origin,
    {
        AddComponentArgs { inner, label: "", label_location: Orientation::North, origin }
    }
}

/// Properties of a middle-end component.
#[derive(Debug)]
pub struct ComponentProps {
    /// The label for the component.
    pub label: String,
    /// The location of the label for the component.
    pub label_location: Orientation,
    /// The component's origin, which holds its fixed point.
    pub origin: Coord,
    /// The bounds of the component.
    pub bounds: [Coord; 2],
    /// The location of all ports for the component.
    pub ports: Vec<Coord>,
    /// Component-specific props.
    pub inner: PhysicalComponentEnum,
}

impl ComponentProps {
    /// Constructs the args needed to create these props.
    pub fn as_args(&self) -> (r: AddComponentArgs<'_>)
        ensures
            r.inner == self.inner,
            r.label@ == self.label@,
            r.label_location == self.label_location,
            r.origin == self.origin,
    {
        AddComponentArgs {
            inner: self.inner,
            label: self.label.as_str(),
            label_location: self.label_location,
            origin: self.origin,
        }
    }
}

/// Lays a component out at its origin: its relative bounds and ports are placed
/// at the origin; it is refused if any of them would leave the grid.
pub fn construct_component(args: AddComponentArgs<'_>) -> (r: Result<ComponentProps, ReprEditErr>)
    requires
        args.inner.has_bounds(args.label@),
    ensures
        forall|b: RelativeComponentBounds| #[trigger] args.inner.bounds_match(b, args.label@) ==> {
            &&& r is Ok <==> fits_at(b.bounds, b.ports@, args.origin)
            &&& r matches Ok(p) ==> placed_at(p.bounds, p.ports@, b.bounds, b.ports@, args.origin)
        },
        r matches Ok(p) ==> p.label@ == args.label@ && p.label_location == args.label_location
            && p.origin == args.origin && p.inner == args.inner,
        r matches Err(e) ==> e == ReprEditErr::ComponentOutOfBounds,
        exists|b: RelativeComponentBounds| #[trigger] args.inner.bounds_match(b, args.label@),
{
    let rel = args.inner.init_bounds(args.label);
    proof {
        args.inner.lemma_bounds_unique(rel, args.label@);
    }
    match rel.into_absolute(args.origin) {
        Some(abs) => Ok(ComponentProps {
            label: args.label.to_owned(),
            label_location: args.label_location,
            origin: args.origin,
            bounds: abs.bounds,
            ports: abs.ports,
            inner: args.inner,
        }),
        None => Err(ReprEditErr::ComponentOutOfBounds),
    }
}

/// The fields of wire `w` moved by `delta`, if both of its endpoints stay on the grid.
pub open spec fn moved_wire_spec(w: (Axis, Axis, Axis, bool), delta: CoordDelta) -> Option<(Axis, Axis, Axis, bool)> {
    match (coord_add_spec((w.0, w.1), delta), coord_add_spec(far_end(w.0, w.1, w.2, w.3), delta)) {
        (Some(p), Some(_)) => Some((p.0, p.1, w.2, w.3)),
        _ => None,
    }
}

/// Each wire paired with its copy moved by `delta`, or `None` if any of them
/// would leave the grid.
pub fn moved_wires(wires: &[Wire], delta: CoordDelta) -> (r: Option<Vec<(Wire, Wire)>>)
    ensures
        r is Some <==> forall|i: int| 0 <= i < wires@.len() ==> #[trigger] moved_wire_spec(wires@[i]@, delta) is Some,
        r matches Some(v) ==> {
            &&& v@.len() == wires@.len()
            &&& forall|i: int| 0 <= i < v@.len() ==> (#[trigger] v@[i]).0 == wires@[i]
                && Some(v@[i].1@) == moved_wire_spec(wires@[i]@, delta)
        },
{
    let mut moved: Vec<(Wire, Wire)> = Vec::new();
    let mut i: usize = 0;
    while i < wires.len()
        invariant
            i <= wires@.len(),
            moved@.len() == i,
            forall|k: int| 0 <= k < i ==> #[trigger] moved_wire_spec(wires@[k]@, delta) is Some,
            forall|k: int| 0 <= k < i ==> (#[trigger] moved@[k]).0 == wires@[k]
                && Some(moved@[k].1@) == moved_wire_spec(wires@[k]@, delta),
        decreases wires@.len() - i,
    {
        let w = wires[i];
        let ends = w.endpoints();
        let p = ends[0];
        let q = ends[1];
        let np = match coord_add(p, delta) {
            Some(c) => c,
            None => {
                assert(moved_wire_spec(wires@[i as int]@, delta) is None);
                return None;
            },
        };
        let nq = match coord_add(q, delta) {
            Some(c) => c,
            None => {
                assert(moved_wire_spec(wires@[i as int]@, delta) is None);
                return None;
            },
        };
        let nw = match Wire::from_endpoints(np, nq) {
            Some(nw) => nw,
            None => {
                proof {
                    assert(false);
                }
                return None;
            },
        };
        moved.push((w, nw));
        i = i + 1;
    }
    Some(moved)
}

/// The component `props` laid out again with its origin moved by `delta`, or
/// `None` if the origin or any part of the component would leave the grid.
pub fn moved_component(props: &ComponentProps, delta: CoordDelta) -> (r: Option<ComponentProps>)
    requires
        props.inner.has_bounds(props.label@),
    ensures
        match coord_add_spec(props.origin, delta) {
            None => r is None,
            Some(o) => forall|b: RelativeComponentBounds| #[trigger] props.inner.bounds_match(b, props.label@) ==> {
                &&& r is Some <==> fits_at(b.bounds, b.ports@, o)
                &&& r matches Some(p) ==> placed_at(p.bounds, p.ports@, b.bounds, b.ports@, o)
            },
        },
        r matches Some(p) ==> p.label@ == props.label@ && p.label_location == props.label_location
            && Some(p.origin) == coord_add_spec(props.origin, delta) && p.inner == props.inner,
{
    let origin = match coord_add(props.origin, delta) {
        Some(o) => o,
        None => return None,
    };
    let args = AddComponentArgs {
        inner: props.inner,
        label: props.label.as_str(),
        label_location: props.label_location,
        origin,
    };
    let r = match construct_component(args) {
        Ok(p) => Some(p),
        Err(_) => None,
    };
    assert(args.label@ == props.label@);
    assert forall|b: RelativeComponentBounds| #[trigger] props.inner.bounds_match(b, props.label@) implies {
        &&& r is Some <==> fits_at(b.bounds, b.ports@, origin)
        &&& r matches Some(p) ==> placed_at(p.bounds, p.ports@, b.bounds, b.ports@, origin)
    } by {
        assert(args.inner.bounds_match(b, args.label@));
    }
    r
}

/// Moving a wire by `delta` and back by `-delta` gives the wire back.
pub proof fn lemma_move_wire_back(w: (Axis, Axis, Axis, bool), delta: CoordDelta, back: CoordDelta)
    requires
        wire_fields_valid(w),
        back.0 == -delta.0,
        back.1 == -delta.1,
        moved_wire_spec(w, delta) is Some,
    ensures
        moved_wire_spec(moved_wire_spec(w, delta)->0, back) == Some(w),
{
}

/// Whether wire fields name a wire: a positive length whose far end stays on the grid.
pub open spec fn wire_fields_valid(w: (Axis, Axis, Axis, bool)) -> bool {
    crate::middle_end::wire::wire_valid(w.0, w.1, w.2, w.3)
}

} // verus!
