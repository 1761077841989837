use vstd::prelude::*;
use crate::bitarray::ranged::clamp_u8;
use crate::engine::func::BitSize;
use crate::middle_end::CoordDelta;
use crate::middle_end::func::{Handedness, Orientation, RelativeComponentBounds, is_oriented};

verus! {

/// Whether an arithmetic component treats its operands as signed or unsigned.
#[derive(Debug, PartialEq, Eq, Clone, Copy, Hash, Structural)]
pub enum SignType {
    /// Two's complement operands.
    Signed,
    /// Unsigned operands.
    Unsigned,
}

/// The bounds of an arithmetic component, relative to its output.
pub open spec fn arithmetic_box() -> [CoordDelta; 2] {
    [(-4i32, -2i32), (0i32, 2i32)]
}

/// Adder with carry-in and inputs a, b.
#[derive(Debug, PartialEq, Eq, Clone, Copy, Hash)]
pub struct Adder {
    bitsize: BitSize,
    orientation: Orientation,
}

impl View for Adder {
    /// (bitsize, orientation)
    type V = (u8, Orientation);

    closed spec fn view(&self) -> (u8, Orientation) {
        (self.bitsize@, self.orientation)
    }
}

impl Adder {
    /// Creates a new adder.
    pub fn new(bitsize: u8, orientation: Orientation) -> (r: Self)
        ensures
            r@ == (clamp_u8(bitsize, 1, 64), orientation),
    {
        Adder { bitsize: BitSize::new_clamped(bitsize), orientation }
    }

    /// The contract of [`Self::component_name`].
    pub open spec fn name_match(&self, r: &'static str) -> bool {
        &&& r@ == "Adder"@
    }

    /// The name of the component.
    pub fn component_name(&self) -> (r: &'static str)
        ensures
            self.name_match(r),
    {
        "Adder"
    }

    /// The contract of [`Self::init_bounds`].
    pub open spec fn bounds_match(&self, r: RelativeComponentBounds) -> bool {
        &&& is_oriented(r, arithmetic_box(), seq![(-4i32, -1i32), (-4i32, 1i32), (-2i32, -2i32), (-2i32, 2i32), (0i32, 0i32)], self@.1, Handedness::DownRight)
    }

    /// The bounds and ports of the component, relative to its output.
    pub fn init_bounds(&self) -> (r: RelativeComponentBounds)
        ensures
            self.bounds_match(r),
    {
        let ports: Vec<CoordDelta> = vec![(-4, -1), (-4, 1), (-2, -2), (-2, 2), (0, 0)];
        assert(ports@ =~= seq![(-4i32, -1i32), (-4i32, 1i32), (-2i32, -2i32), (-2i32, 2i32), (0i32, 0i32)]);
        RelativeComponentBounds { bounds: [(-4, -2), (0, 2)], ports }.orient(self.orientation, Handedness::DownRight)
    }
}

/// Subtractor with borrow-in and inputs a, b.
#[derive(Debug, PartialEq, Eq, Clone, Copy, Hash)]
pub struct Subtractor {
    bitsize: BitSize,
    orientation: Orientation,
}

impl View for Subtractor {
    /// (bitsize, orientation)
    type V = (u8, Orientation);

    closed spec fn view(&self) -> (u8, Orientation) {
        (self.bitsize@, self.orientation)
    }
}

impl Subtractor {
    /// Creates a new subtractor.
    pub fn new(bitsize: u8, orientation: Orientation) -> (r: Self)
        ensures
            r@ == (clamp_u8(bitsize, 1, 64), orientation),
    {
        Subtractor { bitsize: BitSize::new_clamped(bitsize), orientation }
    }

    /// The contract of [`Self::component_name`].
    pub open spec fn name_match(&self, r: &'static str) -> bool {
        &&& r@ == "Subtractor"@
    }

    /// The name of the component.
    pub fn component_name(&self) -> (r: &'static str)
        ensures
            self.name_match(r),
    {
        "Subtractor"
    }

    /// The contract of [`Self::init_bounds`].
    pub open spec fn bounds_match(&self, r: RelativeComponentBounds) -> bool {
        &&& is_oriented(r, arithmetic_box(), seq![(-4i32, -1i32), (-4i32, 1i32), (-2i32, -2i32), (-2i32, 2i32), (0i32, 0i32)], self@.1, Handedness::DownRight)
    }

    /// The bounds and ports of the component, relative to its output.
    pub fn init_bounds(&self) -> (r: RelativeComponentBounds)
        ensures
            self.bounds_match(r),
    {
        let ports: Vec<CoordDelta> = vec![(-4, -1), (-4, 1), (-2, -2), (-2, 2), (0, 0)];
        assert(ports@ =~= seq![(-4i32, -1i32), (-4i32, 1i32), (-2i32, -2i32), (-2i32, 2i32), (0i32, 0i32)]);
        RelativeComponentBounds { bounds: [(-4, -2), (0, 2)], ports }.orient(self.orientation, Handedness::DownRight)
    }
}

/// Multiplier of inputs a, b, with carry-in.
#[derive(Debug, PartialEq, Eq, Clone, Copy, Hash)]
pub struct Multiplier {
    bitsize: BitSize,
    orientation: Orientation,
    signedness: SignType,
}

impl View for Multiplier {
    /// (bitsize, orientation, signedness)
    type V = (u8, Orientation, SignType);

    closed spec fn view(&self) -> (u8, Orientation, SignType) {
        (self.bitsize@, self.orientation, self.signedness)
    }
}

impl Multiplier {
    /// Creates a new multiplier.
    pub fn new(bitsize: u8, orientation: Orientation, signedness: SignType) -> (r: Self)
        ensures
            r@ == (clamp_u8(bitsize, 1, 64), orientation, signedness),
    {
        Multiplier { bitsize: BitSize::new_clamped(bitsize), orientation, signedness }
    }

    /// The contract of [`Self::component_name`].
    pub open spec fn name_match(&self, r: &'static str) -> bool {
        &&& r@ == "Multiplier"@
    }

    /// The name of the component.
    pub fn component_name(&self) -> (r: &'static str)
        ensures
            self.name_match(r),
    {
        "Multiplier"
    }

    /// The contract of [`Self::init_bounds`].
    pub open spec fn bounds_match(&self, r: RelativeComponentBounds) -> bool {
        &&& is_oriented(r, arithmetic_box(), seq![(-4i32, -1i32), (-4i32, 1i32), (-2i32, -2i32), (0i32, 0i32), (-2i32, 2i32)], self@.1, Handedness::DownRight)
    }

    /// The bounds and ports of the component, relative to its output.
    pub fn init_bounds(&self) -> (r: RelativeComponentBounds)
        ensures
            self.bounds_match(r),
    {
        let ports: Vec<CoordDelta> = vec![(-4, -1), (-4, 1), (-2, -2), (0, 0), (-2, 2)];
        assert(ports@ =~= seq![(-4i32, -1i32), (-4i32, 1i32), (-2i32, -2i32), (0i32, 0i32), (-2i32, 2i32)]);
        RelativeComponentBounds { bounds: [(-4, -2), (0, 2)], ports }.orient(self.orientation, Handedness::DownRight)
    }
}

/// Divider of inputs a, b.
#[derive(Debug, PartialEq, Eq, Clone, Copy, Hash)]
pub struct Divider {
    bitsize: BitSize,
    orientation: Orientation,
    signedness: SignType,
}

impl View for Divider {
    /// (bitsize, orientation, signedness)
    type V = (u8, Orientation, SignType);

    closed spec fn view(&self) -> (u8, Orientation, SignType) {
        (self.bitsize@, self.orientation, self.signedness)
    }
}

impl Divider {
    /// Creates a new divider.
    pub fn new(bitsize: u8, orientation: Orientation, signedness: SignType) -> (r: Self)
        ensures
            r@ == (clamp_u8(bitsize, 1, 64), orientation, signedness),
    {
        Divider { bitsize: BitSize::new_clamped(bitsize), orientation, signedness }
    }

    /// The contract of [`Self::component_name`].
    pub open spec fn name_match(&self, r: &'static str) -> bool {
        &&& r@ == "Divider"@
    }

    /// The name of the component.
    pub fn component_name(&self) -> (r: &'static str)
        ensures
            self.name_match(r),
    {
        "Divider"
    }

    /// The contract of [`Self::init_bounds`].
    pub open spec fn bounds_match(&self, r: RelativeComponentBounds) -> bool {
        &&& is_oriented(r, arithmetic_box(), seq![(-4i32, -1i32), (-4i32, 1i32), (-2i32, -2i32), (0i32, 0i32), (-2i32, 2i32)], self@.1, Handedness::DownRight)
    }

    /// The bounds and ports of the component, relative to its output.
    pub fn init_bounds(&self) -> (r: RelativeComponentBounds)
        ensures
            self.bounds_match(r),
    {
        let ports: Vec<CoordDelta> = vec![(-4, -1), (-4, 1), (-2, -2), (0, 0), (-2, 2)];
        assert(ports@ =~= seq![(-4i32, -1i32), (-4i32, 1i32), (-2i32, -2i32), (0i32, 0i32), (-2i32, 2i32)]);
        RelativeComponentBounds { bounds: [(-4, -2), (0, 2)], ports }.orient(self.orientation, Handedness::DownRight)
    }
}

} // verus!
