use vstd::prelude::*;
use vstd::string::StrSliceExecFns;

verus! {

/// The state of a single wire bit.
#[derive(Debug, PartialEq, Eq, Clone, Copy, Hash, Structural)]
pub enum BitState {
    /// Driven low (0).
    Low,
    /// Driven high (1).
    High,
    /// Floating, high impedance (Z).
    Imped,
    /// Unknown or conflicting (X).
    Unk,
}

/// Whether bit `i` of `x` is set.
pub open spec fn bit_of(x: u64, i: int) -> bool {
    (x >> (i as u64)) & 1u64 == 1u64
}

/// The state encoded by a driven-mask bit and a data bit:
/// driven bits carry their level in the data bit; undriven bits are
/// floating when the data bit is clear and unknown when it is set.
pub open spec fn decode(driven: bool, data: bool) -> BitState {
    if driven {
        if data { BitState::High } else { BitState::Low }
    } else {
        if data { BitState::Unk } else { BitState::Imped }
    }
}

/// The driven-mask bit that encodes a state.
pub open spec fn driven_of(s: BitState) -> bool {
    s == BitState::Low || s == BitState::High
}

/// The data bit that encodes a state.
pub open spec fn data_of(s: BitState) -> bool {
    s == BitState::High || s == BitState::Unk
}

/// `x` with bit `i` set to `b`.
pub open spec fn set_bit(x: u64, i: u64, b: bool) -> u64 {
    if b { x | (1u64 << i) } else { x & !(1u64 << i) }
}

proof fn lemma_set_bit(x: u64, i: u64, j: u64, b: bool)
    requires
        i < 64,
        j < 64,
    ensures
        bit_of(set_bit(x, i, b), j as int) == if i == j { b } else { bit_of(x, j as int) },
{
    if b {
        assert(((x | (1u64 << i)) >> j) & 1u64 == (if i == j { 1u64 } else { (x >> j) & 1u64 }))
            by (bit_vector)
            requires i < 64, j < 64;
    } else {
        assert(((x & !(1u64 << i)) >> j) & 1u64 == (if i == j { 0u64 } else { (x >> j) & 1u64 }))
            by (bit_vector)
            requires i < 64, j < 64;
    }
}

proof fn lemma_zero_bits(j: u64)
    requires
        j < 64,
    ensures
        !bit_of(0u64, j as int),
{
    assert((0u64 >> j) & 1u64 == 0u64) by (bit_vector);
}

/// Kleene AND: a driven low forces low; two driven highs give high.
pub open spec fn and_state(a: BitState, b: BitState) -> BitState {
    if a == BitState::Low || b == BitState::Low {
        BitState::Low
    } else if a == BitState::High && b == BitState::High {
        BitState::High
    } else {
        BitState::Unk
    }
}

/// Kleene OR: a driven high forces high; two driven lows give low.
pub open spec fn or_state(a: BitState, b: BitState) -> BitState {
    if a == BitState::High || b == BitState::High {
        BitState::High
    } else if a == BitState::Low && b == BitState::Low {
        BitState::Low
    } else {
        BitState::Unk
    }
}

/// XOR of two driven levels; unknown if either input is not driven.
pub open spec fn xor_state(a: BitState, b: BitState) -> BitState {
    if driven_of(a) && driven_of(b) {
        if a != b { BitState::High } else { BitState::Low }
    } else {
        BitState::Unk
    }
}

/// Inversion of a driven level; unknown if the input is not driven.
pub open spec fn not_state(a: BitState) -> BitState {
    match a {
        BitState::Low => BitState::High,
        BitState::High => BitState::Low,
        _ => BitState::Unk,
    }
}

/// Bitwise combination of two equal-length state sequences.
pub open spec fn zip_states(a: Seq<BitState>, b: Seq<BitState>, f: spec_fn(BitState, BitState) -> BitState) -> Seq<BitState> {
    Seq::new(a.len(), |i: int| f(a[i], b[i]))
}

fn and_bit(a: BitState, b: BitState) -> (r: BitState)
    ensures
        r == and_state(a, b),
{
    if a == BitState::Low || b == BitState::Low {
        BitState::Low
    } else if a == BitState::High && b == BitState::High {
        BitState::High
    } else {
        BitState::Unk
    }
}

fn or_bit(a: BitState, b: BitState) -> (r: BitState)
    ensures
        r == or_state(a, b),
{
    if a == BitState::High || b == BitState::High {
        BitState::High
    } else if a == BitState::Low && b == BitState::Low {
        BitState::Low
    } else {
        BitState::Unk
    }
}

fn xor_bit(a: BitState, b: BitState) -> (r: BitState)
    ensures
        r == xor_state(a, b),
{
    let da = a == BitState::Low || a == BitState::High;
    let db = b == BitState::Low || b == BitState::High;
    if da && db {
        if a != b { BitState::High } else { BitState::Low }
    } else {
        BitState::Unk
    }
}

fn not_bit(a: BitState) -> (r: BitState)
    ensures
        r == not_state(a),
{
    match a {
        BitState::Low => BitState::High,
        BitState::High => BitState::Low,
        _ => BitState::Unk,
    }
}

/// The operations on one bit: a low bit forces AND low and a high bit forces OR high;
/// against a high bit (AND) or a low bit (OR, XOR) a driven bit passes through while a
/// floating or unknown bit comes out unknown; XOR with a high bit inverts; inversion
/// swaps high and low and makes any other bit unknown.
pub proof fn lemma_bit_identities(x: BitState)
    ensures
        and_state(BitState::Low, x) == BitState::Low,
        or_state(BitState::High, x) == BitState::High,
        and_state(BitState::High, x) == (if x == BitState::High || x == BitState::Low { x } else { BitState::Unk }),
        or_state(BitState::Low, x) == (if x == BitState::High || x == BitState::Low { x } else { BitState::Unk }),
        xor_state(BitState::Low, x) == (if x == BitState::High || x == BitState::Low { x } else { BitState::Unk }),
        xor_state(BitState::High, x) == not_state(x),
        (not_state(x) == BitState::High) == (x == BitState::Low),
        (not_state(x) == BitState::Low) == (x == BitState::High),
        (not_state(x) == BitState::Unk) == (x != BitState::High && x != BitState::Low),
{
}

/// AND and OR of two arrays do not depend on the order of the operands,
/// and XOR likewise.
pub proof fn lemma_commutative(a: Seq<BitState>, b: Seq<BitState>)
    requires
        a.len() == b.len(),
    ensures
        zip_states(a, b, |x: BitState, y: BitState| and_state(x, y))
            == zip_states(b, a, |x: BitState, y: BitState| and_state(x, y)),
        zip_states(a, b, |x: BitState, y: BitState| or_state(x, y))
            == zip_states(b, a, |x: BitState, y: BitState| or_state(x, y)),
        zip_states(a, b, |x: BitState, y: BitState| xor_state(x, y))
            == zip_states(b, a, |x: BitState, y: BitState| xor_state(x, y)),
{
    assert(zip_states(a, b, |x: BitState, y: BitState| and_state(x, y))
        =~= zip_states(b, a, |x: BitState, y: BitState| and_state(x, y)));
    assert(zip_states(a, b, |x: BitState, y: BitState| or_state(x, y))
        =~= zip_states(b, a, |x: BitState, y: BitState| or_state(x, y)));
    assert(zip_states(a, b, |x: BitState, y: BitState| xor_state(x, y))
        =~= zip_states(b, a, |x: BitState, y: BitState| xor_state(x, y)));
}

/// De Morgan: inverting an AND gives the OR of the inverted operands,
/// for every combination of driven, floating and unknown bits.
pub proof fn lemma_de_morgan(a: Seq<BitState>, b: Seq<BitState>)
    requires
        a.len() == b.len(),
    ensures
        zip_states(a, b, |x: BitState, y: BitState| and_state(x, y)).map_values(|x: BitState| not_state(x))
            == zip_states(a.map_values(|x: BitState| not_state(x)), b.map_values(|x: BitState| not_state(x)),
                |x: BitState, y: BitState| or_state(x, y)),
        zip_states(a, b, |x: BitState, y: BitState| or_state(x, y)).map_values(|x: BitState| not_state(x))
            == zip_states(a.map_values(|x: BitState| not_state(x)), b.map_values(|x: BitState| not_state(x)),
                |x: BitState, y: BitState| and_state(x, y)),
{
    assert(zip_states(a, b, |x: BitState, y: BitState| and_state(x, y)).map_values(|x: BitState| not_state(x))
        =~= zip_states(a.map_values(|x: BitState| not_state(x)), b.map_values(|x: BitState| not_state(x)),
            |x: BitState, y: BitState| or_state(x, y)));
    assert(zip_states(a, b, |x: BitState, y: BitState| or_state(x, y)).map_values(|x: BitState| not_state(x))
        =~= zip_states(a.map_values(|x: BitState| not_state(x)), b.map_values(|x: BitState| not_state(x)),
            |x: BitState, y: BitState| and_state(x, y)));
}

/// Inverting twice restores an array whose bits are all driven;
/// floating and unknown bits become unknown.
pub proof fn lemma_double_not(a: Seq<BitState>)
    ensures
        a.map_values(|x: BitState| not_state(x)).map_values(|x: BitState| not_state(x))
            == a.map_values(|x: BitState| if driven_of(x) { x } else { BitState::Unk }),
{
    assert(a.map_values(|x: BitState| not_state(x)).map_values(|x: BitState| not_state(x))
        =~= a.map_values(|x: BitState| if driven_of(x) { x } else { BitState::Unk }));
}

/// The encoding of states into a driven bit and a data bit is faithful:
/// decoding the encoding of a state gives the state back.
pub proof fn lemma_decode_encode(s: BitState)
    ensures
        decode(driven_of(s), data_of(s)) == s,
{
}

/// `s` cut down or extended to `len` states; new states are `fill`.
pub open spec fn resize_spec(s: Seq<BitState>, len: nat, fill: BitState) -> Seq<BitState> {
    Seq::new(len, |i: int| if i < s.len() { s[i] } else { fill })
}

/// Resizing to the current length changes nothing.
pub proof fn lemma_resize_same_len(s: Seq<BitState>, fill: BitState)
    ensures
        resize_spec(s, s.len(), fill) == s,
{
    assert(resize_spec(s, s.len(), fill) =~= s);
}

/// Shrinking keeps the first states; growing then shrinking back gives the states back.
pub proof fn lemma_resize_grow_shrink(s: Seq<BitState>, len: nat, fill: BitState)
    requires
        s.len() <= len,
    ensures
        resize_spec(resize_spec(s, len, fill), s.len(), fill) == s,
{
    assert(resize_spec(resize_spec(s, len, fill), s.len(), fill) =~= s);
}

/// The state written as `c`: `0`, `1`, `Z` (floating) or `X` (unknown), in either case.
pub open spec fn state_of_char(c: char) -> Option<BitState> {
    if c == '0' {
        Some(BitState::Low)
    } else if c == '1' {
        Some(BitState::High)
    } else if c == 'z' || c == 'Z' {
        Some(BitState::Imped)
    } else if c == 'x' || c == 'X' {
        Some(BitState::Unk)
    } else {
        None
    }
}

/// The states written as `s`, most significant (last) state first;
/// `None` if a character is not a state or there are more than 64.
pub open spec fn parse_states_spec(s: Seq<char>) -> Option<Seq<BitState>> {
    if s.len() <= 64 && forall|i: int| 0 <= i < s.len() ==> #[trigger] state_of_char(s[i]) is Some {
        Some(Seq::new(s.len(), |k: int| state_of_char(s[s.len() - 1 - k])->0))
    } else {
        None
    }
}

/// The error returned when two bit arrays of different lengths are combined.
#[derive(Debug, PartialEq, Eq, Clone, Copy, Structural)]
pub struct LengthMismatch {
    /// The length that was expected.
    pub expected: u8,
    /// The length that was found.
    pub found: u8,
}

/// An array of up to 64 bit states.
#[derive(Debug, PartialEq, Eq, Clone, Copy, Hash)]
pub struct BitArray {
    driven: u64,
    data: u64,
    len: u8,
}

impl View for BitArray {
    type V = Seq<BitState>;

    closed spec fn view(&self) -> Seq<BitState> {
        Seq::new(self.len as nat, |i: int| decode(bit_of(self.driven, i), bit_of(self.data, i)))
    }
}

impl BitArray {
    /// The smallest bitsize a component port may have.
    pub const MIN_BITSIZE: u8 = 1;
    /// The largest bitsize a bit array may have.
    pub const MAX_BITSIZE: u8 = 64;

    #[verifier::type_invariant]
    spec fn canonical(self) -> bool {
        &&& self.len <= 64
        &&& forall|j: int| self.len <= j < 64 ==> !bit_of(self.driven, j) && !bit_of(self.data, j)
    }

    /// The empty bit array.
    pub fn empty() -> (r: BitArray)
        ensures
            r@ == Seq::<BitState>::empty(),
    {
        proof {
            assert forall|j: int| 0 <= j < 64 implies !bit_of(0u64, j) by {
                lemma_zero_bits(j as u64);
            }
        }
        let r = BitArray { driven: 0, data: 0, len: 0 };
        assert(r@ =~= Seq::<BitState>::empty());
        r
    }

    /// A bit array of `len` floating bits, with its bits stored as zero.
    fn blank(len: u8) -> (r: BitArray)
        requires
            len <= 64,
        ensures
            r.len == len,
            r.driven == 0,
            r.data == 0,
    {
        proof {
            assert forall|j: int| 0 <= j < 64 implies !bit_of(0u64, j) by {
                lemma_zero_bits(j as u64);
            }
        }
        BitArray { driven: 0, data: 0, len }
    }

    /// The number of bits in this array.
    pub fn len(&self) -> (r: u8)
        ensures
            r == self@.len(),
            r <= 64,
    {
        proof {
            use_type_invariant(self);
        }
        self.len
    }

    /// Whether this array holds no bits.
    pub fn is_empty(&self) -> (r: bool)
        ensures
            r == (self@.len() == 0),
    {
        self.len == 0
    }

    /// The state of bit `i`.
    pub fn index(&self, i: u8) -> (r: BitState)
        requires
            i < self@.len(),
        ensures
            r == self@[i as int],
    {
        proof {
            use_type_invariant(self);
        }
        let d = (self.driven >> (i as u64)) & 1u64 == 1u64;
        let v = (self.data >> (i as u64)) & 1u64 == 1u64;
        if d {
            if v { BitState::High } else { BitState::Low }
        } else {
            if v { BitState::Unk } else { BitState::Imped }
        }
    }

    /// A copy of this array with bit `i` set to `s`.
    pub fn with(self, i: u8, s: BitState) -> (r: BitArray)
        requires
            i < self@.len(),
        ensures
            r@ == self@.update(i as int, s),
    {
        proof {
            use_type_invariant(self);
        }
        let d = s == BitState::Low || s == BitState::High;
        let v = s == BitState::High || s == BitState::Unk;
        let driven = if d { self.driven | (1u64 << (i as u64)) } else { self.driven & !(1u64 << (i as u64)) };
        let data = if v { self.data | (1u64 << (i as u64)) } else { self.data & !(1u64 << (i as u64)) };
        proof {
            assert(driven == set_bit(self.driven, i as u64, d));
            assert(data == set_bit(self.data, i as u64, v));
            assert forall|j: int| 0 <= j < 64 implies
                bit_of(driven, j) == (if j == i { d } else { bit_of(self.driven, j) })
                && bit_of(data, j) == (if j == i { v } else { bit_of(self.data, j) }) by {
                lemma_set_bit(self.driven, i as u64, j as u64, d);
                lemma_set_bit(self.data, i as u64, j as u64, v);
            }
        }
        let r = BitArray { driven, data, len: self.len };
        assert(r@ =~= self@.update(i as int, s));
        r
    }

    /// A bit array of `len` copies of `s`.
    pub fn repeat(s: BitState, len: u8) -> (r: BitArray)
        requires
            len <= 64,
        ensures
            r@ == Seq::new(len as nat, |i: int| s),
    {
        let mut r = BitArray::blank(len);
        let mut i: u8 = 0;
        while i < len
            invariant
                i <= len,
                r@.len() == len,
                forall|j: int| 0 <= j < i ==> r@[j] == s,
            decreases len - i,
        {
            r = r.with(i, s);
            i = i + 1;
        }
        assert(r@ =~= Seq::new(len as nat, |i: int| s));
        r
    }

    /// A one-bit array holding `s`.
    pub fn from_state(s: BitState) -> (r: BitArray)
        ensures
            r@ == seq![s],
    {
        let r = BitArray::repeat(s, 1);
        assert(r@ =~= seq![s]);
        r
    }

    /// A bit array holding `states` in order.
    pub fn from_states(states: &[BitState]) -> (r: BitArray)
        requires
            states@.len() <= 64,
        ensures
            r@ == states@,
    {
        let n = states.len() as u8;
        let mut r = BitArray::blank(n);
        let mut i: u8 = 0;
        while i < n
            invariant
                n == states@.len(),
                i <= n,
                r@.len() == n,
                forall|j: int| 0 <= j < i ==> r@[j] == states@[j],
            decreases n - i,
        {
            r = r.with(i, states[i as usize]);
            i = i + 1;
        }
        assert(r@ =~= states@);
        r
    }

    /// The states of this array, in order.
    pub fn to_states(&self) -> (r: Vec<BitState>)
        ensures
            r@ == self@,
    {
        let n = self.len();
        let mut r: Vec<BitState> = Vec::new();
        let mut i: u8 = 0;
        while i < n
            invariant
                n == self@.len(),
                i <= n,
                r@ == self@.subrange(0, i as int),
            decreases n - i,
        {
            r.push(self.index(i));
            i = i + 1;
            assert(r@ =~= self@.subrange(0, i as int));
        }
        assert(self@.subrange(0, n as int) =~= self@);
        r
    }

    /// The bits `start..end` of this array.
    pub fn subslice(&self, start: u8, end: u8) -> (r: BitArray)
        requires
            start <= end <= self@.len(),
        ensures
            r@ == self@.subrange(start as int, end as int),
    {
        proof {
            use_type_invariant(self);
        }
        let n = end - start;
        let mut r = BitArray::blank(n);
        let mut i: u8 = 0;
        while i < n
            invariant
                n == end - start,
                start <= end <= self@.len(),
                i <= n,
                r@.len() == n,
                forall|j: int| 0 <= j < i ==> r@[j] == self@[start + j],
            decreases n - i,
        {
            r = r.with(i, self.index(start + i));
            i = i + 1;
        }
        assert(r@ =~= self@.subrange(start as int, end as int));
        r
    }

    /// Replaces this array with `other` if both have the same length.
    pub fn replace(&mut self, other: BitArray) -> (r: Result<(), LengthMismatch>)
        ensures
            r is Ok <==> old(self)@.len() == other@.len(),
            r is Ok ==> final(self)@ == other@,
            r is Err ==> final(self)@ == old(self)@,
            r matches Err(e) ==> e.expected == old(self)@.len() && e.found == other@.len(),
    {
        let expected = self.len();
        let found = other.len();
        if expected == found {
            *self = other;
            Ok(())
        } else {
            Err(LengthMismatch { expected, found })
        }
    }

    /// Bitwise AND of two arrays of the same length.
    pub fn and(self, rhs: BitArray) -> (r: BitArray)
        requires
            self@.len() == rhs@.len(),
        ensures
            r@ == zip_states(self@, rhs@, |x: BitState, y: BitState| and_state(x, y)),
    {
        proof {
            use_type_invariant(self);
        }
        let n = self.len;
        let mut r = BitArray::blank(n);
        let mut i: u8 = 0;
        while i < n
            invariant
                n == self@.len(),
                n == rhs@.len(),
                i <= n,
                r@.len() == n,
                forall|j: int| 0 <= j < i ==> r@[j] == and_state(self@[j], rhs@[j]),
            decreases n - i,
        {
            r = r.with(i, and_bit(self.index(i), rhs.index(i)));
            i = i + 1;
        }
        assert(r@ =~= zip_states(self@, rhs@, |x: BitState, y: BitState| and_state(x, y)));
        r
    }

    /// Bitwise OR of two arrays of the same length.
    pub fn or(self, rhs: BitArray) -> (r: BitArray)
        requires
            self@.len() == rhs@.len(),
        ensures
            r@ == zip_states(self@, rhs@, |x: BitState, y: BitState| or_state(x, y)),
    {
        proof {
            use_type_invariant(self);
        }
        let n = self.len;
        let mut r = BitArray::blank(n);
        let mut i: u8 = 0;
        while i < n
            invariant
                n == self@.len(),
                n == rhs@.len(),
                i <= n,
                r@.len() == n,
                forall|j: int| 0 <= j < i ==> r@[j] == or_state(self@[j], rhs@[j]),
            decreases n - i,
        {
            r = r.with(i, or_bit(self.index(i), rhs.index(i)));
            i = i + 1;
        }
        assert(r@ =~= zip_states(self@, rhs@, |x: BitState, y: BitState| or_state(x, y)));
        r
    }

    /// Bitwise XOR of two arrays of the same length.
    pub fn xor(self, rhs: BitArray) -> (r: BitArray)
        requires
            self@.len() == rhs@.len(),
        ensures
            r@ == zip_states(self@, rhs@, |x: BitState, y: BitState| xor_state(x, y)),
    {
        proof {
            use_type_invariant(self);
        }
        let n = self.len;
        let mut r = BitArray::blank(n);
        let mut i: u8 = 0;
        while i < n
            invariant
                n == self@.len(),
                n == rhs@.len(),
                i <= n,
                r@.len() == n,
                forall|j: int| 0 <= j < i ==> r@[j] == xor_state(self@[j], rhs@[j]),
            decreases n - i,
        {
            r = r.with(i, xor_bit(self.index(i), rhs.index(i)));
            i = i + 1;
        }
        assert(r@ =~= zip_states(self@, rhs@, |x: BitState, y: BitState| xor_state(x, y)));
        r
    }

    /// Bitwise inversion.
    pub fn not(self) -> (r: BitArray)
        ensures
            r@ == self@.map_values(|x: BitState| not_state(x)),
    {
        proof {
            use_type_invariant(self);
        }
        let n = self.len;
        let mut r = BitArray::blank(n);
        let mut i: u8 = 0;
        while i < n
            invariant
                n == self@.len(),
                i <= n,
                r@.len() == n,
                forall|j: int| 0 <= j < i ==> r@[j] == not_state(self@[j]),
            decreases n - i,
        {
            r = r.with(i, not_bit(self.index(i)));
            i = i + 1;
        }
        assert(r@ =~= self@.map_values(|x: BitState| not_state(x)));
        r
    }

    /// This array cut down or extended to `len` bits; new bits are `fill`.
    pub fn resize(self, len: u8, fill: BitState) -> (r: BitArray)
        requires
            len <= 64,
        ensures
            r@ == resize_spec(self@, len as nat, fill),
    {
        let mut r = BitArray::repeat(fill, len);
        let n = if self.len() < len { self.len() } else { len };
        let mut i: u8 = 0;
        while i < n
            invariant
                n <= len <= 64,
                n <= self@.len(),
                i <= n,
                r@.len() == len,
                forall|j: int| 0 <= j < i ==> r@[j] == self@[j],
                forall|j: int| n <= j < len ==> r@[j] == fill,
            decreases n - i,
        {
            r = r.with(i, self.index(i));
            i = i + 1;
        }
        assert(r@ =~= resize_spec(self@, len as nat, fill));
        r
    }

    /// Reads a bit array written as characters `0`, `1`, `Z` (floating) and `X` (unknown),
    /// in either case, most significant bit first.
    ///
    /// This is `None` if a character is not one of those, or if there are more than 64.
    pub fn parse(s: &str) -> (r: Option<BitArray>)
        ensures
            match r {
                Some(b) => parse_states_spec(s@) == Some(b@),
                None => parse_states_spec(s@) is None,
            },
    {
        let n = s.unicode_len();
        if n > 64 {
            return None;
        }
        let n = n as u8;
        let mut r = BitArray::blank(n);
        let mut i: u8 = 0;
        while i < n
            invariant
                n == s@.len() <= 64,
                i <= n,
                r@.len() == n,
                forall|j: int| 0 <= j < i ==> #[trigger] state_of_char(s@[j]) is Some,
                forall|j: int| 0 <= j < i ==> r@[n - 1 - j] == state_of_char(s@[j])->0,
            decreases n - i,
        {
            let c = s.get_char(i as usize);
            let st = if c == '0' {
                BitState::Low
            } else if c == '1' {
                BitState::High
            } else if c == 'z' || c == 'Z' {
                BitState::Imped
            } else if c == 'x' || c == 'X' {
                BitState::Unk
            } else {
                return None;
            };
            r = r.with(n - 1 - i, st);
            i = i + 1;
        }
        assert(r@ =~= Seq::new(s@.len(), |k: int| state_of_char(s@[s@.len() - 1 - k])->0)) by {
            assert forall|k: int| 0 <= k < n implies r@[k] == state_of_char(s@[s@.len() - 1 - k])->0 by {
                let j = n - 1 - k;
                assert(r@[n - 1 - j] == state_of_char(s@[j])->0);
            }
        }
        Some(r)
    }

    /// Whether both arrays hold the same states.
    pub fn same_states(&self, other: &BitArray) -> (r: bool)
        ensures
            r == (self@ == other@),
    {
        let n = self.len();
        if n != other.len() {
            return false;
        }
        let mut i: u8 = 0;
        while i < n
            invariant
                n == self@.len(),
                n == other@.len(),
                i <= n,
                forall|j: int| 0 <= j < i ==> self@[j] == other@[j],
            decreases n - i,
        {
            if self.index(i) != other.index(i) {
                return false;
            }
            i = i + 1;
        }
        assert(self@ =~= other@);
        true
    }
}

} // verus!
