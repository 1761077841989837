use vstd::prelude::*;

verus! {

/// A `u8` which is restricted to the `MIN..=MAX` range.
#[derive(PartialEq, Eq, PartialOrd, Ord, Hash, Clone, Copy, Debug)]
pub struct RangedByte<const MIN: u8, const MAX: u8>(u8);

impl<const MIN: u8, const MAX: u8> View for RangedByte<MIN, MAX> {
    type V = u8;

    closed spec fn view(&self) -> u8 {
        self.0
    }
}

/// The value `n` clamped into `lo..=hi`.
pub open spec fn clamp_u8(n: u8, lo: u8, hi: u8) -> u8 {
    if n < lo {
        lo
    } else if n > hi {
        hi
    } else {
        n
    }
}

impl<const MIN: u8, const MAX: u8> RangedByte<MIN, MAX> {
    #[verifier::type_invariant]
    spec fn in_bounds(self) -> bool {
        MIN <= self.0 <= MAX
    }

    /// Creates a new [`RangedByte`],
    /// or returns None if value is out of bounds.
    pub fn new(n: u8) -> (r: Option<Self>)
        requires
            MIN <= MAX,
        ensures
            r is Some <==> MIN <= n <= MAX,
            r matches Some(b) ==> b@ == n,
    {
        if MIN <= n && n <= MAX {
            Some(RangedByte(n))
        } else {
            None
        }
    }

    /// Creates a new [`RangedByte`],
    /// clamping to the bounds if out of bounds.
    pub fn new_clamped(n: u8) -> (r: Self)
        requires
            MIN <= MAX,
        ensures
            r@ == clamp_u8(n, MIN, MAX),
    {
        let v = if n < MIN {
            MIN
        } else if n > MAX {
            MAX
        } else {
            n
        };
        RangedByte(v)
    }

    /// Gets the value.
    pub fn get(self) -> (r: u8)
        ensures
            r == self@,
            MIN <= r <= MAX,
    {
        proof {
            use_type_invariant(self);
        }
        self.0
    }

    /// Increments value if result would stay in bound.
    pub fn incremented(self) -> (r: Option<Self>)
        ensures
            r is Some <==> self@ < MAX,
            r matches Some(b) ==> b@ == self@ + 1,
    {
        proof {
            use_type_invariant(self);
        }
        if self.0 < MAX {
            Some(RangedByte(self.0 + 1))
        } else {
            None
        }
    }

    /// Decrements value if result would stay in bound.
    pub fn decremented(self) -> (r: Option<Self>)
        ensures
            r is Some <==> self@ > MIN,
            r matches Some(b) ==> b@ == self@ - 1,
    {
        proof {
            use_type_invariant(self);
        }
        if self.0 > MIN {
            Some(RangedByte(self.0 - 1))
        } else {
            None
        }
    }
}

} // verus!
