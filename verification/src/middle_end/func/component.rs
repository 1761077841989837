use vstd::prelude::*;
use vstd::string::StringSliceAdditionalSpecFns;
use vstd::utf8::encode_utf8;
use crate::engine::func::ComponentFn;
use crate::middle_end::CoordDelta;
use crate::middle_end::func::{Handedness, Orientation, RelativeComponentBounds, is_oriented, lemma_is_oriented_unique};
use crate::middle_end::func::gates::{Gate, Not, TriState};
use crate::middle_end::func::wiring::{Constant, Ground, Pin, Power, Probe, Splitter, Tunnel};
use crate::middle_end::func::misc::Text;
use crate::middle_end::func::muxes::{Decoder, Demux, Mux};

verus! {

/// An enum that represents all supported middle-end components.
#[derive(Debug, PartialEq, Eq, Clone, Copy, Hash)]
pub enum PhysicalComponentEnum {
    // Wiring
    Pin(Pin),
    Constant(Constant),
    Splitter(Splitter),
    Power(Power),
    Ground(Ground),
    Tunnel(Tunnel),
    Probe(Probe),
    // Muxes
    Mux(Mux),
    Demux(Demux),
    Decoder(Decoder),
    // Misc
    Text(Text),
    // Gates
    Gate(Gate),
    Not(Not),
    TriState(TriState),
}

impl PhysicalComponentEnum {
    /// The contract of [`Self::init_engine`].
    pub open spec fn engine_match(&self, r: Option<ComponentFn>) -> bool {
        match self {
            PhysicalComponentEnum::Pin(c) => c.engine_match(r),
            PhysicalComponentEnum::Constant(c) => c.engine_match(r),
            PhysicalComponentEnum::Splitter(c) => c.engine_match(r),
            PhysicalComponentEnum::Power(c) => c.engine_match(r),
            PhysicalComponentEnum::Ground(c) => c.engine_match(r),
            PhysicalComponentEnum::Tunnel(c) => c.engine_match(r),
            PhysicalComponentEnum::Probe(c) => c.engine_match(r),
            PhysicalComponentEnum::Mux(c) => c.engine_match(r),
            PhysicalComponentEnum::Demux(c) => c.engine_match(r),
            PhysicalComponentEnum::Decoder(c) => c.engine_match(r),
            PhysicalComponentEnum::Text(c) => c.engine_match(r),
            PhysicalComponentEnum::Gate(c) => c.engine_match(r),
            PhysicalComponentEnum::Not(c) => c.engine_match(r),
            PhysicalComponentEnum::TriState(c) => c.engine_match(r),
        }
    }

    /// Initializes the component which represents the engine logic of this physical component.
    ///
    /// This is `None` if this component has no engine logic.
    pub fn init_engine(&self) -> (r: Option<ComponentFn>)
        ensures
            self.engine_match(r),
    {
        match self {
            PhysicalComponentEnum::Pin(c) => c.init_engine(),
            PhysicalComponentEnum::Constant(c) => c.init_engine(),
            PhysicalComponentEnum::Splitter(c) => c.init_engine(),
            PhysicalComponentEnum::Power(c) => c.init_engine(),
            PhysicalComponentEnum::Ground(c) => c.init_engine(),
            PhysicalComponentEnum::Tunnel(c) => c.init_engine(),
            PhysicalComponentEnum::Probe(c) => c.init_engine(),
            PhysicalComponentEnum::Mux(c) => c.init_engine(),
            PhysicalComponentEnum::Demux(c) => c.init_engine(),
            PhysicalComponentEnum::Decoder(c) => c.init_engine(),
            PhysicalComponentEnum::Text(c) => c.init_engine(),
            PhysicalComponentEnum::Gate(c) => c.init_engine(),
            PhysicalComponentEnum::Not(c) => c.init_engine(),
            PhysicalComponentEnum::TriState(c) => c.init_engine(),
        }
    }

    /// The contract of [`Self::component_name`].
    pub open spec fn name_match(&self, r: &'static str) -> bool {
        match self {
            PhysicalComponentEnum::Pin(c) => c.name_match(r),
            PhysicalComponentEnum::Constant(c) => c.name_match(r),
            PhysicalComponentEnum::Splitter(c) => c.name_match(r),
            PhysicalComponentEnum::Power(c) => c.name_match(r),
            PhysicalComponentEnum::Ground(c) => c.name_match(r),
            PhysicalComponentEnum::Tunnel(c) => c.name_match(r),
            PhysicalComponentEnum::Probe(c) => c.name_match(r),
            PhysicalComponentEnum::Mux(c) => c.name_match(r),
            PhysicalComponentEnum::Demux(c) => c.name_match(r),
            PhysicalComponentEnum::Decoder(c) => c.name_match(r),
            PhysicalComponentEnum::Text(c) => c.name_match(r),
            PhysicalComponentEnum::Gate(c) => c.name_match(r),
            PhysicalComponentEnum::Not(c) => c.name_match(r),
            PhysicalComponentEnum::TriState(c) => c.name_match(r),
        }
    }

    /// The name of the component.
    pub fn component_name(&self) -> (r: &'static str)
        ensures
            self.name_match(r),
    {
        match self {
            PhysicalComponentEnum::Pin(c) => c.component_name(),
            PhysicalComponentEnum::Constant(c) => c.component_name(),
            PhysicalComponentEnum::Splitter(c) => c.component_name(),
            PhysicalComponentEnum::Power(c) => c.component_name(),
            PhysicalComponentEnum::Ground(c) => c.component_name(),
            PhysicalComponentEnum::Tunnel(c) => c.component_name(),
            PhysicalComponentEnum::Probe(c) => c.component_name(),
            PhysicalComponentEnum::Mux(c) => c.component_name(),
            PhysicalComponentEnum::Demux(c) => c.component_name(),
            PhysicalComponentEnum::Decoder(c) => c.component_name(),
            PhysicalComponentEnum::Text(c) => c.component_name(),
            PhysicalComponentEnum::Gate(c) => c.component_name(),
            PhysicalComponentEnum::Not(c) => c.component_name(),
            PhysicalComponentEnum::TriState(c) => c.component_name(),
        }
    }

    /// Whether [`Self::init_bounds`] can lay the component out with the given label.
    pub open spec fn has_bounds(&self, label: Seq<char>) -> bool {
        match self {
            PhysicalComponentEnum::Text(_) => false,
            PhysicalComponentEnum::Tunnel(_) => encode_utf8(label).len() < i32::MAX,
            PhysicalComponentEnum::Mux(c) => c.has_bounds(),
            PhysicalComponentEnum::Demux(c) => c.has_bounds(),
            PhysicalComponentEnum::Decoder(c) => c.has_bounds(),
            _ => true,
        }
    }

    /// The contract of [`Self::init_bounds`].
    pub open spec fn bounds_match(&self, r: RelativeComponentBounds, label: Seq<char>) -> bool {
        match self {
            PhysicalComponentEnum::Pin(c) => c.bounds_match(r),
            PhysicalComponentEnum::Constant(c) => c.bounds_match(r),
            PhysicalComponentEnum::Splitter(c) => c.bounds_match(r),
            PhysicalComponentEnum::Power(c) => c.bounds_match(r),
            PhysicalComponentEnum::Ground(c) => c.bounds_match(r),
            PhysicalComponentEnum::Tunnel(c) => c.bounds_match(r, label),
            PhysicalComponentEnum::Probe(c) => c.bounds_match(r),
            PhysicalComponentEnum::Mux(c) => c.bounds_match(r),
            PhysicalComponentEnum::Demux(c) => c.bounds_match(r),
            PhysicalComponentEnum::Decoder(c) => c.bounds_match(r),
            PhysicalComponentEnum::Text(c) => false,
            PhysicalComponentEnum::Gate(c) => c.bounds_match(r),
            PhysicalComponentEnum::Not(c) => c.bounds_match(r),
            PhysicalComponentEnum::TriState(c) => c.bounds_match(r),
        }
    }

    /// The bounds and ports of a component are determined by its properties and label.
    pub proof fn lemma_bounds_unique(&self, b: RelativeComponentBounds, label: Seq<char>)
        requires
            self.bounds_match(b, label),
        ensures
            forall|b2: RelativeComponentBounds| #[trigger] self.bounds_match(b2, label) ==>
                b2.bounds == b.bounds && b2.ports@ == b.ports@,
    {
        assert forall|r1: RelativeComponentBounds, r2: RelativeComponentBounds, bb: [CoordDelta; 2],
            bp: Seq<CoordDelta>, o: Orientation, h: Handedness|
            #[trigger] is_oriented(r1, bb, bp, o, h) && #[trigger] is_oriented(r2, bb, bp, o, h) implies
            r1.bounds == r2.bounds && r1.ports@ == r2.ports@ by {
            lemma_is_oriented_unique(r1, r2, bb, bp, o, h);
        }
        assert forall|b2: RelativeComponentBounds| #[trigger] self.bounds_match(b2, label) implies
            b2.bounds == b.bounds && b2.ports@ == b.ports@ by {
            assert(b2.bounds =~= b.bounds);
            assert(b2.ports@ =~= b.ports@);
        }
    }

    /// Initializes the bounds of the physical component, relative to its origin,
    /// based on its properties and label.
    pub fn init_bounds(&self, label: &str) -> (r: RelativeComponentBounds)
        requires
            self.has_bounds(label@),
        ensures
            self.bounds_match(r, label@),
    {
        match self {
            PhysicalComponentEnum::Pin(c) => c.init_bounds(),
            PhysicalComponentEnum::Constant(c) => c.init_bounds(),
            PhysicalComponentEnum::Splitter(c) => c.init_bounds(),
            PhysicalComponentEnum::Power(c) => c.init_bounds(),
            PhysicalComponentEnum::Ground(c) => c.init_bounds(),
            PhysicalComponentEnum::Tunnel(c) => c.init_bounds(label),
            PhysicalComponentEnum::Probe(c) => c.init_bounds(),
            PhysicalComponentEnum::Mux(c) => c.init_bounds(),
            PhysicalComponentEnum::Demux(c) => c.init_bounds(),
            PhysicalComponentEnum::Decoder(c) => c.init_bounds(),
            PhysicalComponentEnum::Gate(c) => c.init_bounds(),
            PhysicalComponentEnum::Not(c) => c.init_bounds(),
            PhysicalComponentEnum::TriState(c) => c.init_bounds(),
            PhysicalComponentEnum::Text(_) => {
                // Excluded by `has_bounds`.
                proof {
                    assert(false);
                }
                RelativeComponentBounds::new((0, 0), Vec::new())
            },
        }
    }
}

} // verus!
