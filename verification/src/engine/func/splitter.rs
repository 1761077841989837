//! The splitter component.

use vstd::prelude::*;
use crate::bitarray::{BitArray, BitState, RangedByte};
use crate::bitarray::ranged::clamp_u8;
use crate::engine::func::component::Component;
use crate::engine::func::gates::floating_bits;
use crate::engine::func::ports::{
    BitSize, PortProperties, PortType, PortUpdate, RunContext, Sensitivity, ports_match,
    port_views, update_views, lemma_update_views_push,
};

verus! {

/// Copies a slice into a 64-entry array, allowing for it to be used in port assignments.
///
/// Entries past the end of the slice are `None`; entries past 64 are dropped.
pub fn splitter_ports_slice<T: Copy>(a: &[Option<T>]) -> (r: [Option<T>; 64])
    ensures
        forall|i: int| 0 <= i < 64 ==> #[trigger] r@[i] == if i < a@.len() { a@[i] } else { None },
{
    let mut result: [Option<T>; 64] = [None; 64];
    let len = if a.len() < 64 { a.len() } else { 64 };
    let mut i: usize = 0;
    while i < len
        invariant
            len <= 64,
            len <= a@.len(),
            len == a@.len() || len == 64,
            i <= len,
            forall|k: int| 0 <= k < 64 ==> #[trigger] result@[k] == if k < i { a@[k] } else { None },
        decreases len - i,
    {
        result[i] = a[i];
        i = i + 1;
    }
    result
}

/// Creates a port assignment array from 0..`up_to`.
///
/// If `up_to` >= 64, this is equivalent to a port assignment array for `0..64`.
pub fn splitter_ports_range(up_to: u8) -> (r: [Option<u8>; 64])
    ensures
        forall|i: int| 0 <= i < 64 ==> #[trigger] r@[i] == if i < up_to { Some(i as u8) } else { None },
{
    let mut result: [Option<u8>; 64] = [None; 64];
    let mut i: u8 = 0;
    while i < 64
        invariant
            i <= 64,
            forall|k: int| 0 <= k < 64 ==> #[trigger] result@[k] == if k < i && k < up_to { Some(k as u8) } else { None },
        decreases 64 - i,
    {
        if i < up_to {
            result[i as usize] = Some(i);
        }
        i = i + 1;
    }
    result
}

/// The number of legs of a splitter: a value in `1..=64`.
pub type NumLegs = RangedByte<1, 64>;

/// The bit indices below `n` that are assigned to `leg`, in increasing order.
pub open spec fn bits_upto(pa: Seq<Option<u8>>, leg: u8, n: int) -> Seq<int>
    decreases n,
{
    if n <= 0 {
        Seq::empty()
    } else {
        bits_upto(pa, leg, n - 1) + if pa[n - 1] == Some(leg) { seq![n - 1] } else { Seq::empty() }
    }
}

/// The bit indices assigned to `leg`, in increasing order.
pub open spec fn leg_bits(pa: Seq<Option<u8>>, leg: u8) -> Seq<int> {
    bits_upto(pa, leg, 64)
}

/// The legs below `k` that have at least one bit, in increasing order.
pub open spec fn active_upto(pa: Seq<Option<u8>>, k: int) -> Seq<u8>
    decreases k,
{
    if k <= 0 {
        Seq::empty()
    } else {
        active_upto(pa, k - 1) + if leg_bits(pa, (k - 1) as u8).len() > 0 { seq![(k - 1) as u8] } else { Seq::empty() }
    }
}

/// The port assignments made by [`SplitterConfig::new`]: a leg is kept only for
/// bits below the bitsize and only when it is below the number of legs.
pub open spec fn normalized_assignments(pa: Seq<Option<u8>>, num_legs: u8, bitsize: u8) -> Seq<Option<u8>> {
    Seq::new(64, |i: int| if i < bitsize && (pa[i] matches Some(l) && l < num_legs) { pa[i] } else { None })
}

/// The value a leg takes when the joined port is split: the joined port's
/// bits assigned to that leg, in increasing bit order.
pub open spec fn leg_value(pa: Seq<Option<u8>>, leg: u8, joined: Seq<BitState>) -> Seq<BitState> {
    leg_bits(pa, leg).map_values(|b: int| joined[b])
}

/// The joined value when the legs drive it: a bit assigned to a leg takes the
/// leg's bit of the same rank; an unassigned bit keeps its current value.
pub open spec fn joined_value(pa: Seq<Option<u8>>, ports: Seq<Seq<BitState>>) -> Seq<BitState> {
    Seq::new(ports[0].len(), |b: int|
        match pa[b] {
            Some(l) => ports[1 + active_upto(pa, l as int).len() as int][bits_upto(pa, l, b).len() as int],
            None => ports[0][b],
        })
}

/// The ports of a splitter: the joined port, then one port per active leg.
pub open spec fn splitter_ports(pa: Seq<Option<u8>>, num_legs: u8, bitsize: u8) -> Seq<PortProperties> {
    seq![PortProperties { ty: PortType::Inout, bitsize }]
        + active_upto(pa, num_legs as int).map_values(|l: u8|
            PortProperties { ty: PortType::Inout, bitsize: leg_bits(pa, l).len() as u8 })
}

/// The updates of a splitter run.
///
/// A change of the joined port splits it onto the legs and floats the joined port;
/// otherwise a change of any leg joins the legs onto the joined port and floats the legs;
/// otherwise nothing is updated.
pub open spec fn splitter_run(
    pa: Seq<Option<u8>>,
    num_legs: u8,
    bitsize: u8,
    old_ports: Seq<Seq<BitState>>,
    new_ports: Seq<Seq<BitState>>,
) -> Seq<(int, Seq<BitState>)> {
    let act = active_upto(pa, num_legs as int);
    if old_ports[0] != new_ports[0] {
        Seq::new(act.len(), |k: int| (k + 1, leg_value(pa, act[k], new_ports[0])))
            + seq![(0int, floating_bits(bitsize as nat))]
    } else if exists|i: int| 1 <= i < old_ports.len() && #[trigger] old_ports[i] != new_ports[i] {
        seq![(0int, joined_value(pa, new_ports))]
            + Seq::new(act.len(), |k: int| (k + 1, floating_bits(leg_bits(pa, act[k]).len())))
    } else {
        Seq::empty()
    }
}

proof fn lemma_bits_upto(pa: Seq<Option<u8>>, leg: u8, n: int)
    requires
        0 <= n,
    ensures
        bits_upto(pa, leg, n).len() <= n,
        forall|j: int| 0 <= j < bits_upto(pa, leg, n).len() ==>
            0 <= #[trigger] bits_upto(pa, leg, n)[j] < n && pa[bits_upto(pa, leg, n)[j]] == Some(leg),
        forall|m: int| 0 <= m <= n ==> (#[trigger] bits_upto(pa, leg, m)).len() <= bits_upto(pa, leg, n).len()
            && bits_upto(pa, leg, n).subrange(0, bits_upto(pa, leg, m).len() as int) == bits_upto(pa, leg, m),
    decreases n,
{
    if n > 0 {
        lemma_bits_upto(pa, leg, n - 1);
        let prev = bits_upto(pa, leg, n - 1);
        let cur = bits_upto(pa, leg, n);
        assert(cur.subrange(0, prev.len() as int) =~= prev);
        assert forall|m: int| 0 <= m <= n implies (#[trigger] bits_upto(pa, leg, m)).len() <= cur.len()
            && cur.subrange(0, bits_upto(pa, leg, m).len() as int) == bits_upto(pa, leg, m) by {
            if m < n {
                let pm = bits_upto(pa, leg, m);
                assert(prev.subrange(0, pm.len() as int) == pm);
                assert(cur.subrange(0, pm.len() as int) =~= prev.subrange(0, pm.len() as int));
            } else {
                assert(cur.subrange(0, cur.len() as int) =~= cur);
            }
        }
    }
}

/// The rank of an assigned bit within its leg locates it in the leg's bit list.
proof fn lemma_rank(pa: Seq<Option<u8>>, leg: u8, b: int, n: int)
    requires
        0 <= b < n,
        pa[b] == Some(leg),
    ensures
        bits_upto(pa, leg, b).len() < bits_upto(pa, leg, n).len(),
        bits_upto(pa, leg, n)[bits_upto(pa, leg, b).len() as int] == b,
{
    lemma_bits_upto(pa, leg, n);
    lemma_bits_upto(pa, leg, b + 1);
    let pb = bits_upto(pa, leg, b);
    let pb1 = bits_upto(pa, leg, b + 1);
    assert(pb1 == pb + seq![b]);
    assert(bits_upto(pa, leg, n).subrange(0, pb1.len() as int) == pb1);
}

/// Bits of a leg have distinct ranks.
proof fn lemma_rank_of_listed(pa: Seq<Option<u8>>, leg: u8, j: int, n: int)
    requires
        0 <= n,
        0 <= j < bits_upto(pa, leg, n).len(),
    ensures
        bits_upto(pa, leg, bits_upto(pa, leg, n)[j]).len() == j,
    decreases n,
{
    lemma_bits_upto(pa, leg, n);
    let b = bits_upto(pa, leg, n)[j];
    lemma_rank(pa, leg, b, n);
    let r = bits_upto(pa, leg, b).len() as int;
    // Both j and r index b in an increasing list; so they coincide.
    lemma_increasing(pa, leg, n);
    if r < j {
        assert(bits_upto(pa, leg, n)[r] < bits_upto(pa, leg, n)[j]);
    } else if r > j {
        assert(bits_upto(pa, leg, n)[j] < bits_upto(pa, leg, n)[r]);
    }
}

proof fn lemma_increasing(pa: Seq<Option<u8>>, leg: u8, n: int)
    requires
        0 <= n,
    ensures
        forall|i: int, j: int| 0 <= i < j < bits_upto(pa, leg, n).len() ==>
            #[trigger] bits_upto(pa, leg, n)[i] < #[trigger] bits_upto(pa, leg, n)[j],
    decreases n,
{
    if n > 0 {
        lemma_increasing(pa, leg, n - 1);
        lemma_bits_upto(pa, leg, n - 1);
    }
}

proof fn lemma_active_upto(pa: Seq<Option<u8>>, k: int)
    requires
        0 <= k <= 256,
    ensures
        active_upto(pa, k).len() <= k,
        forall|j: int| 0 <= j < active_upto(pa, k).len() ==>
            (#[trigger] active_upto(pa, k)[j] as int) < k && leg_bits(pa, active_upto(pa, k)[j]).len() > 0,
        forall|l: int| 0 <= l < k && leg_bits(pa, l as u8).len() > 0 ==>
            active_upto(pa, l).len() < active_upto(pa, k).len()
            && active_upto(pa, k)[active_upto(pa, l).len() as int] == l as u8,
    decreases k,
{
    if k > 0 {
        lemma_active_upto(pa, k - 1);
        let prev = active_upto(pa, k - 1);
        let cur = active_upto(pa, k);
        assert forall|l: int| 0 <= l < k && leg_bits(pa, l as u8).len() > 0 implies
            active_upto(pa, l).len() < cur.len() && cur[active_upto(pa, l).len() as int] == l as u8 by {
            if l < k - 1 {
                assert(cur[active_upto(pa, l).len() as int] == prev[active_upto(pa, l).len() as int]);
            }
        }
    }
}

/// Splitting then joining: joining the leg values that a split of `v` produces
/// gives `v` back.
pub proof fn lemma_split_then_join(cfg: (Seq<Option<u8>>, u8, u8), v: Seq<BitState>)
    requires
        config_valid(cfg),
        v.len() == cfg.2,
    ensures
        ({
            let (pa, num_legs, bitsize) = cfg;
            let act = active_upto(pa, num_legs as int);
            joined_value(pa, seq![v] + Seq::new(act.len(), |k: int| leg_value(pa, act[k], v))) == v
        }),
{
    let (pa, num_legs, bitsize) = cfg;
    let act = active_upto(pa, num_legs as int);
    let ports = seq![v] + Seq::new(act.len(), |k: int| leg_value(pa, act[k], v));
    lemma_active_upto(pa, num_legs as int);
    assert forall|b: int| 0 <= b < v.len() implies #[trigger] joined_value(pa, ports)[b] == v[b] by {
        if let Some(l) = pa[b] {
            lemma_rank(pa, l, b, 64);
            lemma_bits_upto(pa, l, 64);
            let pos = active_upto(pa, l as int).len() as int;
            assert(leg_bits(pa, l).len() > 0);
            assert(act[pos] == l);
            assert(ports[1 + pos] == leg_value(pa, l, v));
        }
    }
    assert(joined_value(pa, ports) =~= v);
}

/// Joining then splitting: splitting the joined value of legs that fit the
/// splitter gives each active leg its value back.
pub proof fn lemma_join_then_split(cfg: (Seq<Option<u8>>, u8, u8), ports: Seq<Seq<BitState>>)
    requires
        config_valid(cfg),
        ports_match(splitter_ports(cfg.0, cfg.1, cfg.2), ports),
    ensures
        ({
            let (pa, num_legs, bitsize) = cfg;
            let act = active_upto(pa, num_legs as int);
            forall|k: int| 0 <= k < act.len() ==>
                #[trigger] leg_value(pa, act[k], joined_value(pa, ports)) == ports[k + 1]
        }),
{
    let (pa, num_legs, bitsize) = cfg;
    let act = active_upto(pa, num_legs as int);
    lemma_active_upto(pa, num_legs as int);
    assert forall|k: int| 0 <= k < act.len() implies
        #[trigger] leg_value(pa, act[k], joined_value(pa, ports)) == ports[k + 1] by {
        let l = act[k];
        lemma_bits_upto(pa, l, 64);
        assert(splitter_ports(pa, num_legs, bitsize)[k + 1].bitsize == leg_bits(pa, l).len() as u8);
        assert(ports[k + 1].len() == leg_bits(pa, l).len());
        // The active position of leg l is k.
        lemma_active_upto(pa, l as int);
        let pos = active_upto(pa, l as int).len() as int;
        assert(act[pos] == l);
        lemma_active_positions(pa, num_legs as int, k, pos);
        assert forall|j: int| 0 <= j < leg_bits(pa, l).len() implies
            #[trigger] leg_value(pa, l, joined_value(pa, ports))[j] == ports[k + 1][j] by {
            let b = leg_bits(pa, l)[j];
            lemma_rank_of_listed(pa, l, j, 64);
            assert(pa[b] == Some(l));
        }
        assert(leg_value(pa, l, joined_value(pa, ports)) =~= ports[k + 1]);
    }
}

/// Active legs are listed once: two positions holding the same leg coincide.
proof fn lemma_active_positions(pa: Seq<Option<u8>>, n: int, i: int, j: int)
    requires
        0 <= n <= 256,
        0 <= i < active_upto(pa, n).len(),
        0 <= j < active_upto(pa, n).len(),
        active_upto(pa, n)[i] == active_upto(pa, n)[j],
    ensures
        i == j,
    decreases n,
{
    if n > 0 {
        lemma_active_upto(pa, n - 1);
        let prev = active_upto(pa, n - 1);
        if i < prev.len() && j < prev.len() {
            lemma_active_positions(pa, n - 1, i, j);
        } else if i < prev.len() {
            assert(prev[i] < n - 1);
        } else if j < prev.len() {
            assert(prev[j] < n - 1);
        }
    }
}

/// Configuration properties for a [`Splitter`].
#[derive(Debug, PartialEq, Eq, Clone, Copy, Hash)]
pub struct SplitterConfig {
    /// Mapping of bits to legs.
    ///
    /// This field has the following invariants:
    /// - For all bit indices >= `bitsize`, it should be assigned to leg `None`.
    /// - All assigned legs should be less than `num_legs`.
    port_assignments: [Option<u8>; 64],
    num_legs: NumLegs,
    bitsize: BitSize,
}

impl View for SplitterConfig {
    /// (port assignments, number of legs, bitsize)
    type V = (Seq<Option<u8>>, u8, u8);

    closed spec fn view(&self) -> (Seq<Option<u8>>, u8, u8) {
        (self.port_assignments@, self.num_legs@, self.bitsize@)
    }
}

/// The properties that every splitter configuration has.
pub open spec fn config_valid(v: (Seq<Option<u8>>, u8, u8)) -> bool {
    let (pa, num_legs, bitsize) = v;
    &&& pa.len() == 64
    &&& 1 <= num_legs <= 64
    &&& 1 <= bitsize <= 64
    &&& forall|i: int| 0 <= i < 64 ==> (#[trigger] pa[i] matches Some(l) ==> i < bitsize && l < num_legs)
}

impl SplitterConfig {
    #[verifier::type_invariant]
    spec fn valid(self) -> bool {
        config_valid(self@)
    }

    /// The view of `SplitterConfig::new(port_assignments, num_legs, bitsize)`:
    /// the counts are clamped into `1..=64`, and the assignments are normalized.
    pub open spec fn new_spec(port_assignments: Seq<Option<u8>>, num_legs: u8, bitsize: u8) -> (Seq<Option<u8>>, u8, u8) {
        (normalized_assignments(port_assignments, clamp_u8(num_legs, 1, 64), clamp_u8(bitsize, 1, 64)),
            clamp_u8(num_legs, 1, 64), clamp_u8(bitsize, 1, 64))
    }

    /// Constructs a new splitter config.
    pub fn new(port_assignments: [Option<u8>; 64], num_legs: u8, bitsize: u8) -> (r: Self)
        ensures
            r@ == Self::new_spec(port_assignments@, num_legs, bitsize),
    {
        let num_legs = NumLegs::new_clamped(num_legs);
        let bitsize = BitSize::new_clamped(bitsize);
        let nl = num_legs.get();
        let bs = bitsize.get();
        let mut pa = port_assignments;
        let mut i: usize = 0;
        while i < 64
            invariant
                i <= 64,
                1 <= nl <= 64,
                1 <= bs <= 64,
                forall|k: int| 0 <= k < 64 ==> #[trigger] pa@[k] == if k < i {
                    normalized_assignments(port_assignments@, nl, bs)[k]
                } else {
                    port_assignments@[k]
                },
            decreases 64 - i,
        {
            if i >= bs as usize {
                pa[i] = None;
            } else if let Some(l) = pa[i] {
                if l >= nl {
                    pa[i] = None;
                }
            }
            i = i + 1;
        }
        let r = SplitterConfig { port_assignments: pa, num_legs, bitsize };
        assert(r@.0 =~= normalized_assignments(port_assignments@, nl, bs));
        r
    }

    /// Gets bitsize for splitter config.
    pub fn get_bitsize(&self) -> (r: u8)
        ensures
            r == self@.2,
            1 <= r <= 64,
    {
        self.bitsize.get()
    }

    /// Gets number of legs for splitter config.
    pub fn get_num_legs(&self) -> (r: u8)
        ensures
            r == self@.1,
            1 <= r <= 64,
    {
        self.num_legs.get()
    }

    /// The bits assigned to `leg`, in increasing order.
    fn bits_for_leg(&self, leg: u8) -> (r: Vec<u8>)
        ensures
            r@.len() == leg_bits(self@.0, leg).len(),
            forall|j: int| 0 <= j < r@.len() ==> #[trigger] r@[j] as int == leg_bits(self@.0, leg)[j],
    {
        let ghost pa = self@.0;
        let mut r: Vec<u8> = Vec::new();
        let mut i: u8 = 0;
        while i < 64
            invariant
                i <= 64,
                pa == self@.0,
                pa.len() == 64,
                r@.len() == bits_upto(pa, leg, i as int).len(),
                forall|j: int| 0 <= j < r@.len() ==> #[trigger] r@[j] as int == bits_upto(pa, leg, i as int)[j],
            decreases 64 - i,
        {
            if self.port_assignments[i as usize] == Some(leg) {
                r.push(i);
            }
            i = i + 1;
        }
        r
    }

    /// The number of bits assigned to `leg`.
    fn leg_width(&self, leg: u8) -> (r: u8)
        ensures
            r == leg_bits(self@.0, leg).len(),
            r <= 64,
    {
        let bits = self.bits_for_leg(leg);
        proof {
            lemma_bits_upto(self@.0, leg, 64);
        }
        bits.len() as u8
    }

    /// Gets number of active legs (legs with at least one bit assigned).
    pub fn get_num_active_legs(&self) -> (r: usize)
        ensures
            r == active_upto(self@.0, 64).len(),
    {
        let mut count: usize = 0;
        let mut l: u8 = 0;
        while l < 64
            invariant
                l <= 64,
                count == active_upto(self@.0, l as int).len(),
                count <= l,
            decreases 64 - l,
        {
            proof {
                lemma_active_upto(self@.0, l + 1);
            }
            if self.leg_width(l) > 0 {
                count = count + 1;
            }
            l = l + 1;
        }
        count
    }

    /// The active legs below the number of legs, in increasing order.
    fn active_legs(&self) -> (r: Vec<u8>)
        ensures
            r@ == active_upto(self@.0, self@.1 as int),
    {
        let n = self.get_num_legs();
        let mut r: Vec<u8> = Vec::new();
        let mut l: u8 = 0;
        while l < n
            invariant
                l <= n,
                n == self@.1,
                r@ == active_upto(self@.0, l as int),
            decreases n - l,
        {
            if self.leg_width(l) > 0 {
                r.push(l);
            }
            l = l + 1;
        }
        r
    }
}

/// A splitter component.
#[derive(Debug, PartialEq, Eq, Clone, Copy, Hash)]
pub struct Splitter {
    config: SplitterConfig,
}

impl View for Splitter {
    /// (port assignments, number of legs, bitsize) of the configuration.
    type V = (Seq<Option<u8>>, u8, u8);

    closed spec fn view(&self) -> (Seq<Option<u8>>, u8, u8) {
        self.config@
    }
}

impl Splitter {
    /// Creates a new splitter with the specified configuration.
    pub fn new(config: SplitterConfig) -> (r: Self)
        ensures
            r@ == config@,
    {
        Splitter { config }
    }
}

/// The joined value after the legs below `leg`, and the first `j` bits of `leg`,
/// have been copied onto it.
pub open spec fn partial_join(pa: Seq<Option<u8>>, ports: Seq<Seq<BitState>>, leg: int, j: int) -> Seq<BitState> {
    Seq::new(ports[0].len(), |b: int|
        match pa[b] {
            Some(l) => if l < leg || (l == leg && bits_upto(pa, l, b).len() < j) {
                ports[1 + active_upto(pa, l as int).len() as int][bits_upto(pa, l, b).len() as int]
            } else {
                ports[0][b]
            },
            None => ports[0][b],
        })
}

impl Component for Splitter {
    open spec fn port_spec(&self) -> Seq<PortProperties> {
        splitter_ports(self@.0, self@.1, self@.2)
    }

    open spec fn init_spec(&self, state: Seq<Seq<BitState>>) -> Seq<Seq<BitState>> {
        state
    }

    open spec fn run_spec(&self, old_ports: Seq<Seq<BitState>>, new_ports: Seq<Seq<BitState>>) -> Seq<(int, Seq<BitState>)> {
        splitter_run(self@.0, self@.1, self@.2, old_ports, new_ports)
    }

    fn ports(&self) -> (r: Vec<PortProperties>) {
        let ghost pa = self@.0;
        let mut ports = vec![PortProperties { ty: PortType::Inout, bitsize: self.config.get_bitsize() }];
        let n = self.config.get_num_legs();
        let mut leg: u8 = 0;
        while leg < n
            invariant
                leg <= n,
                n == self@.1,
                pa == self@.0,
                ports@ == seq![PortProperties { ty: PortType::Inout, bitsize: self@.2 }]
                    + active_upto(pa, leg as int).map_values(|l: u8|
                        PortProperties { ty: PortType::Inout, bitsize: leg_bits(pa, l).len() as u8 }),
            decreases n - leg,
        {
            let w = self.config.leg_width(leg);
            let ghost before = active_upto(pa, leg as int);
            if w > 0 {
                ports.push(PortProperties { ty: PortType::Inout, bitsize: w });
                assert((before + seq![leg]).map_values(|l: u8|
                    PortProperties { ty: PortType::Inout, bitsize: leg_bits(pa, l).len() as u8 })
                    =~= before.map_values(|l: u8|
                    PortProperties { ty: PortType::Inout, bitsize: leg_bits(pa, l).len() as u8 })
                    + seq![PortProperties { ty: PortType::Inout, bitsize: w }]);
            } else {
                assert(active_upto(pa, leg + 1) =~= before);
            }
            leg = leg + 1;
        }
        ports
    }

    fn initialize_port_state(&self, state: &mut [BitArray]) {
    }

    fn run_inner(&self, ctx: RunContext<'_>) -> (r: Vec<PortUpdate>) {
        let cfg = self.config;
        proof {
            use_type_invariant(cfg);
        }
        let ghost pa = cfg@.0;
        let ghost oldv = port_views(ctx.old_ports@);
        let ghost newv = port_views(ctx.new_ports@);
        let ghost act = active_upto(pa, cfg@.1 as int);
        let active = cfg.active_legs();
        proof {
            lemma_active_upto(pa, cfg@.1 as int);
            assert(splitter_ports(pa, cfg@.1, cfg@.2).len() == 1 + act.len());
            assert(newv[0] == ctx.new_ports@[0]@);
            assert(oldv[0] == ctx.old_ports@[0]@);
            assert(newv[0].len() == cfg@.2);
            assert forall|k: int| 0 <= k < act.len() implies
                #[trigger] newv[k + 1].len() == leg_bits(pa, act[k]).len() by {
                assert(splitter_ports(pa, cfg@.1, cfg@.2)[k + 1].bitsize == leg_bits(pa, act[k]).len() as u8);
                lemma_bits_upto(pa, act[k], 64);
            }
        }
        let len = ctx.new_ports.len();
        if Sensitivity::Anyedge.activated(ctx.old_ports[0], ctx.new_ports[0]) {
            // Split the joined value onto the legs.
            let mut updates: Vec<PortUpdate> = Vec::new();
            let mut k: usize = 0;
            while k < active.len()
                invariant
                    k <= active@.len(),
                    active@ == act,
                    pa == cfg@.0,
                    config_valid(cfg@),
                    newv == port_views(ctx.new_ports@),
                    ctx.new_ports@.len() >= 1,
                    newv[0] == ctx.new_ports@[0]@,
                    newv[0].len() == cfg@.2,
                    update_views(updates@) == Seq::new(k as nat, |i: int| (i + 1, leg_value(pa, act[i], newv[0]))),
                decreases active@.len() - k,
            {
                let leg = active[k];
                let bits = cfg.bits_for_leg(leg);
                proof {
                    lemma_bits_upto(pa, leg, 64);
                }
                let w = bits.len() as u8;
                let mut value = BitArray::repeat(BitState::Imped, w);
                let mut j: usize = 0;
                while j < bits.len()
                    invariant
                        j <= bits@.len(),
                        bits@.len() == leg_bits(pa, leg).len(),
                        bits@.len() <= 64,
                        w == bits@.len(),
                        forall|i: int| 0 <= i < bits@.len() ==> #[trigger] bits@[i] as int == leg_bits(pa, leg)[i],
                        forall|i: int| 0 <= i < leg_bits(pa, leg).len() ==>
                            pa[#[trigger] leg_bits(pa, leg)[i]] == Some(leg) && 0 <= leg_bits(pa, leg)[i] < 64,
                        config_valid(cfg@),
                        pa == cfg@.0,
                        ctx.new_ports@.len() >= 1,
                        newv[0] == ctx.new_ports@[0]@,
                        newv[0].len() == cfg@.2,
                        value@.len() == w,
                        forall|i: int| 0 <= i < j ==> #[trigger] value@[i] == newv[0][leg_bits(pa, leg)[i]],
                    decreases bits@.len() - j,
                {
                    let b = bits[j];
                    proof {
                        assert(pa[b as int] == Some(leg));
                    }
                    value = value.with(j as u8, ctx.new_ports[0].index(b));
                    j = j + 1;
                }
                assert(value@ =~= leg_value(pa, leg, newv[0]));
                let ghost before = updates@;
                let u = PortUpdate { index: k + 1, value };
                updates.push(u);
                proof {
                    lemma_update_views_push(before, u);
                    assert(active@[k as int] == act[k as int]);
                }
                k = k + 1;
                assert(update_views(updates@) =~= Seq::new(k as nat, |i: int| (i + 1, leg_value(pa, act[i], newv[0]))));
            }
            let ghost before = updates@;
            let u = PortUpdate { index: 0, value: BitArray::repeat(BitState::Imped, cfg.get_bitsize()) };
            updates.push(u);
            proof {
                lemma_update_views_push(before, u);
            }
            assert(update_views(updates@) =~= splitter_run(pa, cfg@.1, cfg@.2, oldv, newv));
            updates
        } else if Sensitivity::Anyedge.any_activated(&ctx.old_ports[1..len], &ctx.new_ports[1..len]) {
            proof {
                let o = ctx.old_ports@.subrange(1, len as int);
                let n = ctx.new_ports@.subrange(1, len as int);
                let i = choose|i: int| 0 <= i < o.len() && #[trigger] o[i]@ != n[i]@;
                assert(oldv[i + 1] != newv[i + 1]);
            }
            // Join the legs onto the joined value.
            let mut value = ctx.new_ports[0];
            let n = cfg.get_num_legs();
            let mut port: usize = 1;
            let mut leg: u8 = 0;
            assert(value@ =~= partial_join(pa, newv, 0, 0));
            while leg < n
                invariant
                    leg <= n,
                    n == cfg@.1,
                    pa == cfg@.0,
                    config_valid(cfg@),
                    act == active_upto(pa, n as int),
                    newv == port_views(ctx.new_ports@),
                    newv.len() == 1 + act.len(),
                    newv[0].len() == cfg@.2,
                    forall|k: int| 0 <= k < act.len() ==> #[trigger] newv[k + 1].len() == leg_bits(pa, act[k]).len(),
                    forall|l: int| 0 <= l < n && leg_bits(pa, l as u8).len() > 0 ==>
                        active_upto(pa, l).len() < act.len()
                        && act[active_upto(pa, l).len() as int] == l as u8,
                    port == 1 + active_upto(pa, leg as int).len(),
                    value@ == partial_join(pa, newv, leg as int, 0),
                decreases n - leg,
            {
                let bits = cfg.bits_for_leg(leg);
                proof {
                    lemma_bits_upto(pa, leg, 64);
                    lemma_active_upto(pa, leg + 1);
                }
                let mut j: usize = 0;
                while j < bits.len()
                    invariant
                        j <= bits@.len(),
                        bits@.len() == leg_bits(pa, leg).len(),
                        bits@.len() <= 64,
                        newv.len() == ctx.new_ports@.len(),
                        bits@.len() > 0 ==> port < newv.len() && newv[port as int].len() == bits@.len(),
                        forall|i: int| 0 <= i < bits@.len() ==> #[trigger] bits@[i] as int == leg_bits(pa, leg)[i],
                        forall|i: int| 0 <= i < leg_bits(pa, leg).len() ==>
                            pa[#[trigger] leg_bits(pa, leg)[i]] == Some(leg) && 0 <= leg_bits(pa, leg)[i] < 64,
                        leg < n,
                        pa == cfg@.0,
                        config_valid(cfg@),
                        newv == port_views(ctx.new_ports@),
                        newv[0].len() == cfg@.2,
                        port == 1 + active_upto(pa, leg as int).len(),
                        value@ == partial_join(pa, newv, leg as int, j as int),
                    decreases bits@.len() - j,
                {
                    let b = bits[j];
                    proof {
                        assert(pa[b as int] == Some(leg));
                        assert(ctx.new_ports@[port as int]@ == newv[port as int]);
                        lemma_rank_of_listed(pa, leg, j as int, 64);
                        assert forall|b2: int| 0 <= b2 < newv[0].len() && pa[b2] == Some(leg)
                            && bits_upto(pa, leg, b2).len() == j implies b2 == b by {
                            lemma_rank(pa, leg, b2, 64);
                        }
                    }
                    let ghost prev = value@;
                    let x = ctx.new_ports[port].index(j as u8);
                    value = value.with(b, x);
                    proof {
                        let pj = partial_join(pa, newv, leg as int, j + 1);
                        assert(x == newv[port as int][j as int]);
                        assert forall|b2: int| 0 <= b2 < value@.len() implies #[trigger] value@[b2] == pj[b2] by {
                            if b2 == b {
                                assert(bits_upto(pa, leg, b as int).len() == j);
                            } else {
                                assert(value@[b2] == prev[b2]);
                                if pa[b2] == Some(leg) {
                                    lemma_rank(pa, leg, b2, 64);
                                }
                            }
                        }
                    }
                    j = j + 1;
                    assert(value@ =~= partial_join(pa, newv, leg as int, j as int));
                }
                proof {
                    assert forall|b2: int| 0 <= b2 < newv[0].len() && pa[b2] == Some(leg) implies
                        bits_upto(pa, leg, b2).len() < bits@.len() by {
                        lemma_rank(pa, leg, b2, 64);
                    }
                    assert(value@ =~= partial_join(pa, newv, leg + 1, 0));
                }
                if bits.len() > 0 {
                    port = port + 1;
                }
                leg = leg + 1;
            }
            assert(value@ =~= joined_value(pa, newv));
            let mut updates = vec![PortUpdate { index: 0, value }];
            let mut k: usize = 0;
            while k < active.len()
                invariant
                    k <= active@.len(),
                    active@ == act,
                    pa == cfg@.0,
                    update_views(updates@) == seq![(0int, joined_value(pa, newv))]
                        + Seq::new(k as nat, |i: int| (i + 1, floating_bits(leg_bits(pa, act[i]).len()))),
                decreases active@.len() - k,
            {
                let w = cfg.leg_width(active[k]);
                let ghost before = updates@;
                let u = PortUpdate { index: k + 1, value: BitArray::repeat(BitState::Imped, w) };
                updates.push(u);
                proof {
                    lemma_update_views_push(before, u);
                }
                k = k + 1;
                assert(update_views(updates@) =~= seq![(0int, joined_value(pa, newv))]
                    + Seq::new(k as nat, |i: int| (i + 1, floating_bits(leg_bits(pa, act[i]).len()))));
            }
            updates
        } else {
            proof {
                assert forall|i: int| 1 <= i < oldv.len() implies #[trigger] oldv[i] == newv[i] by {
                    assert(ctx.old_ports@.subrange(1, len as int)[i - 1] == ctx.old_ports@[i]);
                    assert(ctx.new_ports@.subrange(1, len as int)[i - 1] == ctx.new_ports@[i]);
                }
            }
            let r: Vec<PortUpdate> = Vec::new();
            assert(update_views(r@) =~= Seq::empty());
            r
        }
    }
}

} // verus!
