//! A map from grid lines to the wires lying on them, keeping wires on a line disjoint.

use std::collections::{BTreeMap, HashMap};
use vstd::prelude::*;
use crate::middle_end::{Axis, Coord};
use crate::middle_end::wire::{Wire, wire_valid};
use vstd::std_specs::iter::IteratorSpec;

verus! {

broadcast use vstd::std_specs::btree::group_btree_axioms, vstd::laws_cmp::group_laws_cmp,
    vstd::std_specs::hash::group_hash_axioms;

/// Whether the segments `[s1, s1 + l1]` and `[s2, s2 + l2]` share more than an endpoint.
pub open spec fn overlaps(s1: int, l1: int, s2: int, l2: int) -> bool {
    s1 < s2 + l2 && s2 < s1 + l1
}

/// Whether a map from start to length holds valid, pairwise disjoint segments
/// (segments may touch at an endpoint).
pub open spec fn disjoint_segments(m: Map<Axis, Axis>) -> bool {
    &&& m.dom().finite()
    &&& forall|k: Axis| #[trigger] m.contains_key(k) ==> m[k] > 0 && k + m[k] <= u32::MAX
    &&& forall|k1: Axis, k2: Axis| #[trigger] m.contains_key(k1) && #[trigger] m.contains_key(k2) && k1 < k2
        ==> k1 + m[k1] <= k2
}

/// Whether `(start, length)` overlaps none of the segments of `m`.
pub open spec fn fits_in(m: Map<Axis, Axis>, start: Axis, length: Axis) -> bool {
    forall|k: Axis| #[trigger] m.contains_key(k) ==> !overlaps(k as int, m[k] as int, start as int, length as int)
}

/// Whether `s` lists, in increasing order of start, exactly the segments of `m`
/// that satisfy `keep`.
pub open spec fn lists_segments(s: Seq<(Axis, Axis)>, m: Map<Axis, Axis>, keep: spec_fn(Axis) -> bool) -> bool {
    &&& forall|i: int, j: int| 0 <= i < j < s.len() ==> (#[trigger] s[i]).0 < (#[trigger] s[j]).0
    &&& forall|i: int| 0 <= i < s.len() ==> m.contains_key((#[trigger] s[i]).0) && m[s[i].0] == s[i].1 && keep(s[i].0)
    &&& forall|k: Axis| #[trigger] m.contains_key(k) && keep(k) ==> exists|i: int| 0 <= i < s.len() && (#[trigger] s[i]).0 == k
}

/// The entry of `map` with the greatest key below `c`.
///
/// Calls `BTreeMap::range(..c).next_back()`. Trusted: std documents that `range`
/// yields the entries with keys in the range in ascending key order, so the last
/// one holds the greatest key below `c`.
#[verifier::external_body]
fn last_below(map: &BTreeMap<Axis, Axis>, c: Axis) -> (r: Option<(Axis, Axis)>)
    ensures
        r is None ==> forall|k: Axis| #[trigger] map@.contains_key(k) ==> k >= c,
        r matches Some(e) ==> {
            &&& map@.contains_key(e.0)
            &&& map@[e.0] == e.1
            &&& e.0 < c
            &&& forall|k: Axis| #[trigger] map@.contains_key(k) && k < c ==> k <= e.0
        },
{
    map.range(..c).next_back().map(|(&k, &v)| (k, v))
}

/// The entries of `map` with keys in `lo..hi`, in ascending key order.
///
/// Calls `BTreeMap::range(lo..hi)`. Trusted: std documents that `range` yields
/// exactly the entries whose keys lie in the range, in ascending key order.
#[verifier::external_body]
fn entries_between(map: &BTreeMap<Axis, Axis>, lo: Axis, hi: Axis) -> (r: Vec<(Axis, Axis)>)
    requires
        lo <= hi,
    ensures
        lists_segments(r@, map@, |k: Axis| lo <= k < hi),
{
    map.range(lo..hi).map(|(&k, &v)| (k, v)).collect()
}

/// Converts a coordinate of (x, y) into (main, cross) (based on the `horizontal` value)
/// or vice versa.
///
/// The "main" axis refers to the direction that the wire grows,
/// whereas the "cross" axis refers to the direction perpendicular.
fn switch_sys(coord: Coord, horizontal: bool) -> (r: Coord)
    ensures
        r == (if horizontal { coord } else { (coord.1, coord.0) }),
{
    let (x, y) = coord;
    if horizontal { (x, y) } else { (y, x) }
}

/// A 1-dimensional wire.
#[derive(PartialEq, Eq, Hash, Clone, Copy, Debug)]
pub struct Wire1D {
    start: Axis,
    length: Axis,
}

impl View for Wire1D {
    /// (start, length)
    type V = (Axis, Axis);

    closed spec fn view(&self) -> (Axis, Axis) {
        (self.start, self.length)
    }
}

impl Wire1D {
    #[verifier::type_invariant]
    spec fn valid(self) -> bool {
        self.length > 0 && self.start + self.length <= u32::MAX
    }

    /// Creates a 1D wire; its end must stay on the grid.
    pub fn new(start: Axis, length: Axis) -> (r: Self)
        requires
            length > 0,
            start + length <= u32::MAX,
        ensures
            r@ == (start, length),
    {
        Wire1D { start, length }
    }

    /// Projects the wire to 2D by specifying the wire's horizontality
    /// and the coordinate of the perpendicular axis
    /// (the "cross" axis; the x-coord if vertical, y-coord if horizontal).
    pub fn to_2d(self, cross: Axis, horizontal: bool) -> (r: Wire)
        ensures
            r@ == (if horizontal { (self@.0, cross, self@.1, true) } else { (cross, self@.0, self@.1, false) }),
    {
        proof {
            use_type_invariant(self);
        }
        let (x, y) = switch_sys((self.start, cross), horizontal);
        Wire::new_raw(x, y, self.length, horizontal)
    }

    /// Converts a 2D wire to its 1D wire, the cross-axis coordinate,
    /// and the wire's horizontality.
    pub fn from_2d(w: Wire) -> (r: (Self, Axis, bool))
        ensures
            r.0@ == (if w@.3 { (w@.0, w@.2) } else { (w@.1, w@.2) }),
            r.1 == (if w@.3 { w@.1 } else { w@.0 }),
            r.2 == w@.3,
    {
        proof {
            use_type_invariant(&w);
        }
        let (x, y) = w.start();
        let horizontal = w.horizontal();
        let (start, cross) = switch_sys((x, y), horizontal);
        (Wire1D { start, length: w.length() }, cross, horizontal)
    }

    fn end(self) -> (r: Axis)
        ensures
            r == self@.0 + self@.1,
    {
        proof {
            use_type_invariant(self);
        }
        self.start + self.length
    }

    fn contains(&self, c: Axis) -> (r: bool)
        ensures
            r == (self@.0 <= c <= self@.0 + self@.1),
    {
        proof {
            use_type_invariant(self);
        }
        self.start <= c && c <= self.start + self.length
    }
}

/// The possible wires at a given point.
#[derive(PartialEq, Eq, Clone, Copy)]
pub enum WireAtResult {
    /// No wires at this point.
    NoWire,
    /// 1 wire adjacent left at this point
    /// (this point acts as the right endpoint of this wire).
    LWire(Wire1D),
    /// 1 wire at this point, which the point intersects with.
    Intersect(Wire1D),
    /// 1 wire adjacent right at this point
    /// (this point acts as the left endpoint of this wire).
    RWire(Wire1D),
    /// 2 wires at this point
    /// (this point is the endpoint of both).
    BiWire([Wire1D; 2]),
}

/// The segment of `m` starting strictly before `c` and reaching `c`, if any.
pub open spec fn wire_left_of(m: Map<Axis, Axis>, c: Axis, w: (Axis, Axis)) -> bool {
    m.contains_key(w.0) && m[w.0] == w.1 && w.0 < c <= w.0 + w.1
}

/// Whether `r` classifies the wires of `m` at `c`: `left` is the segment
/// starting before `c` and reaching it, `right` the segment starting at `c`.
pub open spec fn classifies(r: WireAtResult, m: Map<Axis, Axis>, c: Axis) -> bool {
    let right_some = m.contains_key(c);
    let left_none = forall|k: Axis| !(#[trigger] m.contains_key(k) && k < c <= k + m[k]);
    match r {
        WireAtResult::NoWire => !right_some && left_none,
        WireAtResult::LWire(w) => !right_some && wire_left_of(m, c, w@) && w@.0 + w@.1 == c,
        WireAtResult::Intersect(w) => !right_some && wire_left_of(m, c, w@) && w@.0 + w@.1 != c,
        WireAtResult::RWire(w) => right_some && w@ == (c, m[c]) && left_none,
        WireAtResult::BiWire(ws) => right_some && ws[1]@ == (c, m[c]) && wire_left_of(m, c, ws[0]@),
    }
}

impl WireAtResult {
    /// The wires, in coordinate order.
    pub fn wires(self) -> (r: Vec<Wire1D>)
        ensures
            r@.len() == match self {
                WireAtResult::NoWire => 0int,
                WireAtResult::BiWire(_) => 2,
                _ => 1,
            },
            match self {
                WireAtResult::NoWire => true,
                WireAtResult::LWire(w) | WireAtResult::Intersect(w) | WireAtResult::RWire(w) => r@[0] == w,
                WireAtResult::BiWire(ws) => r@[0] == ws[0] && r@[1] == ws[1],
            },
    {
        match self {
            WireAtResult::NoWire => Vec::new(),
            WireAtResult::LWire(w) | WireAtResult::Intersect(w) | WireAtResult::RWire(w) => vec![w],
            WireAtResult::BiWire(ws) => vec![ws[0], ws[1]],
        }
    }
}

/// The wires of one grid line, keyed by start coordinate.
pub struct WireRangeMap1D {
    map: BTreeMap<Axis, Axis>,
}

impl View for WireRangeMap1D {
    /// start -> length
    type V = Map<Axis, Axis>;

    closed spec fn view(&self) -> Map<Axis, Axis> {
        self.map@
    }
}

impl Default for WireRangeMap1D {
    fn default() -> (r: Self)
        ensures
            r@ == Map::<Axis, Axis>::empty(),
            disjoint_segments(r@),
    {
        WireRangeMap1D::new()
    }
}

impl WireRangeMap1D {
    #[verifier::type_invariant]
    spec fn valid(self) -> bool {
        disjoint_segments(self.map@)
    }

    /// An empty line.
    fn new() -> (r: Self)
        ensures
            r@ == Map::<Axis, Axis>::empty(),
    {
        WireRangeMap1D { map: BTreeMap::new() }
    }

    /// Number of wires in this range map.
    pub fn len(&self) -> (r: usize)
        ensures
            r == self@.dom().len(),
    {
        self.map.len()
    }

    /// Returns `true` if the map contains no elements.
    pub fn is_empty(&self) -> (r: bool)
        ensures
            r == (self@ == Map::<Axis, Axis>::empty()),
            r == (self@.dom().len() == 0),
    {
        proof {
            use_type_invariant(self);
            if self@.dom().len() == 0 {
                assert(self@.dom() =~= Set::<Axis>::empty());
                assert(self@ =~= Map::<Axis, Axis>::empty());
            }
        }
        self.map.is_empty()
    }

    /// All wires of the range map, in order of their start.
    pub fn wires(&self) -> (r: Vec<Wire1D>)
        ensures
            lists_segments(r@.map_values(|w: Wire1D| w@), self@, |k: Axis| true),
            forall|i: int| 0 <= i < r@.len() - 1 ==> (#[trigger] r@[i])@.0 + r@[i]@.1 <= r@[i + 1]@.0,
    {
        proof {
            use_type_invariant(self);
        }
        let entries = entries_between(&self.map, 0, u32::MAX);
        let mut r: Vec<Wire1D> = Vec::new();
        let mut i: usize = 0;
        while i < entries.len()
            invariant
                i <= entries@.len(),
                disjoint_segments(self@),
                lists_segments(entries@, self@, |k: Axis| 0 <= k < u32::MAX),
                r@.map_values(|w: Wire1D| w@) == entries@.subrange(0, i as int),
            decreases entries@.len() - i,
        {
            let (start, length) = entries[i];
            assert(self@.contains_key(entries@[i as int].0));
            let ghost prev = r@;
            let nw = Wire1D::new(start, length);
            r.push(nw);
            assert(r@.map_values(|w: Wire1D| w@) =~= prev.map_values(|w: Wire1D| w@).push(nw@));
            i = i + 1;
            assert(r@.map_values(|w: Wire1D| w@) =~= entries@.subrange(0, i as int));
        }
        assert(entries@.subrange(0, entries@.len() as int) =~= entries@);
        proof {
            assert forall|k: Axis| #[trigger] self@.contains_key(k) implies
                exists|i: int| 0 <= i < entries@.len() && (#[trigger] entries@[i]).0 == k by {
                assert(k < u32::MAX);
            }
            assert forall|i: int| 0 <= i < r@.len() - 1 implies (#[trigger] r@[i])@.0 + r@[i]@.1 <= r@[i + 1]@.0 by {
                let segs = r@.map_values(|w: Wire1D| w@);
                assert(segs[i] == r@[i]@ && segs[i + 1] == r@[i + 1]@);
                assert(self@.contains_key(segs[i].0) && self@.contains_key(segs[i + 1].0));
            }
        }
        r
    }

    /// Finds all wires which overlap with the specified 1D wire
    /// (sharing more than an endpoint), in order of their start.
    pub fn overlapping_wires(&self, w: Wire1D) -> (r: Vec<Wire1D>)
        ensures
            lists_segments(r@.map_values(|x: Wire1D| x@), self@,
                |k: Axis| overlaps(k as int, self@[k] as int, w@.0 as int, w@.1 as int)),
    {
        proof {
            use_type_invariant(self);
            use_type_invariant(w);
        }
        let wire_left = w.start;
        let wire_right = w.end();

        let l = match self.wire_at(wire_left) {
            WireAtResult::Intersect(iw) => iw.start,
            _ => wire_left,
        };
        let r = match self.wire_at(wire_right) {
            WireAtResult::Intersect(iw) => iw.end(),
            _ => wire_right,
        };
        let ghost m = self@;
        let ghost keep = |k: Axis| overlaps(k as int, m[k] as int, w@.0 as int, w@.1 as int);
        let entries = entries_between(&self.map, l, r);
        proof {
            // The keys in l..r are exactly the starts of the overlapping wires.
            assert forall|k: Axis| #[trigger] m.contains_key(k) implies (l <= k < r <==> keep(k)) by {
                if keep(k) && k < wire_left {
                    assert(m.contains_key(k) && k < wire_left <= k + m[k]);
                }
            }
        }
        let mut out: Vec<Wire1D> = Vec::new();
        let mut i: usize = 0;
        while i < entries.len()
            invariant
                i <= entries@.len(),
                m == self@,
                disjoint_segments(m),
                lists_segments(entries@, m, |k: Axis| l <= k < r),
                forall|k: Axis| #[trigger] m.contains_key(k) ==> (l <= k < r <==> keep(k)),
                out@.map_values(|x: Wire1D| x@) == entries@.subrange(0, i as int),
            decreases entries@.len() - i,
        {
            let (start, length) = entries[i];
            assert(m.contains_key(entries@[i as int].0));
            let ghost prev = out@;
            let nw = Wire1D::new(start, length);
            out.push(nw);
            assert(out@.map_values(|x: Wire1D| x@) =~= prev.map_values(|x: Wire1D| x@).push(nw@));
            i = i + 1;
            assert(out@.map_values(|x: Wire1D| x@) =~= entries@.subrange(0, i as int));
        }
        assert(entries@.subrange(0, entries@.len() as int) =~= entries@);
        out
    }

    /// Insert a wire.
    ///
    /// This returns whether the wire was added.
    /// Note that for this wire to be added, it must not overlap any other wire.
    pub fn insert(&mut self, w: Wire1D) -> (r: bool)
        ensures
            disjoint_segments(final(self)@),
            r == fits_in(old(self)@, w@.0, w@.1),
            r ==> final(self)@ == old(self)@.insert(w@.0, w@.1),
            !r ==> final(self)@ == old(self)@,
    {
        proof {
            use_type_invariant(&*self);
            use_type_invariant(w);
        }
        let start = w.start;
        let end = w.end();
        let is_not_overlapping = match last_below(&self.map, end) {
            None => true,
            Some((st, sz)) => st + sz <= start,
        };
        let ghost m = self@;
        proof {
            if is_not_overlapping {
                assert forall|k: Axis| #[trigger] m.contains_key(k) implies
                    !overlaps(k as int, m[k] as int, w@.0 as int, w@.1 as int) by {
                }
            }
        }
        if is_not_overlapping {
            let mut map = BTreeMap::new();
            std::mem::swap(&mut map, &mut self.map);
            map.insert(w.start, w.length);
            proof {
                let m2 = map@;
                assert forall|k1: Axis, k2: Axis| #[trigger] m2.contains_key(k1) && #[trigger] m2.contains_key(k2) && k1 < k2
                    implies k1 + m2[k1] <= k2 by {
                    if k1 != start && k2 != start {
                        assert(m.contains_key(k1) && m.contains_key(k2));
                    } else if k1 == start {
                        assert(m.contains_key(k2));
                        assert(!overlaps(k2 as int, m[k2] as int, w@.0 as int, w@.1 as int));
                    } else {
                        assert(m.contains_key(k1));
                        assert(!overlaps(k1 as int, m[k1] as int, w@.0 as int, w@.1 as int));
                    }
                }
            }
            *self = WireRangeMap1D { map };
            true
        } else {
            false
        }
    }

    /// Removes a wire.
    ///
    /// This returns whether the wire was removed.
    /// Note that the wire must exist in the map EXACTLY as specified by the argument
    /// in order for removal to succeed.
    pub fn remove(&mut self, w: Wire1D) -> (r: bool)
        ensures
            disjoint_segments(final(self)@),
            r == (old(self)@.contains_key(w@.0) && old(self)@[w@.0] == w@.1),
            r ==> final(self)@ == old(self)@.remove(w@.0),
            !r ==> final(self)@ == old(self)@,
    {
        proof {
            use_type_invariant(&*self);
        }
        let found = match self.map.get(&w.start) {
            Some(length) => *length == w.length,
            None => false,
        };
        if found {
            let mut map = BTreeMap::new();
            std::mem::swap(&mut map, &mut self.map);
            map.remove(&w.start);
            *self = WireRangeMap1D { map };
            true
        } else {
            false
        }
    }

    /// If the index intersects a wire, then split the wires.
    ///
    /// Returns the wire that was split.
    pub fn split(&mut self, index: Axis) -> (r: Option<Wire1D>)
        ensures
            disjoint_segments(final(self)@),
            r is Some <==> exists|k: Axis| #[trigger] old(self)@.contains_key(k) && k < index < k + old(self)@[k],
            r matches Some(w) ==> {
                &&& old(self)@.contains_key(w@.0)
                &&& old(self)@[w@.0] == w@.1
                &&& w@.0 < index < w@.0 + w@.1
                &&& final(self)@ == old(self)@.insert(w@.0, (index - w@.0) as u32)
                    .insert(index, (w@.0 + w@.1 - index) as u32)
            },
            r is None ==> final(self)@ == old(self)@,
    {
        proof {
            use_type_invariant(&*self);
        }
        let ghost m = self@;
        let w = match self.wire_at(index) {
            WireAtResult::Intersect(w) => w,
            _ => {
                proof {
                    assert forall|k: Axis| !(#[trigger] m.contains_key(k) && k < index < k + m[k]) by {
                        if m.contains_key(k) && k < index < k + m[k] {
                            if m.contains_key(index) {
                                assert(k + m[k] <= index);
                            }
                        }
                    }
                }
                return None;
            },
        };
        proof {
            use_type_invariant(w);
        }
        let left_len = index - w.start;
        let right_len = w.start + w.length - index;
        let mut map = BTreeMap::new();
        std::mem::swap(&mut map, &mut self.map);
        map.insert(w.start, left_len);
        map.insert(index, right_len);
        proof {
            let m2 = map@;
            assert(!m.contains_key(index));
            assert forall|k1: Axis, k2: Axis| #[trigger] m2.contains_key(k1) && #[trigger] m2.contains_key(k2) && k1 < k2
                implies k1 + m2[k1] <= k2 by {
                if k1 != w@.0 && k1 != index && k2 != w@.0 && k2 != index {
                    assert(m.contains_key(k1) && m.contains_key(k2));
                } else if k2 == index && k1 != w@.0 {
                    assert(m.contains_key(k1) && m.contains_key(w@.0));
                } else if k1 == index {
                    assert(m.contains_key(k2) && m.contains_key(w@.0));
                } else if k2 == w@.0 {
                    assert(m.contains_key(k1));
                } else if k2 != index {
                    assert(m.contains_key(k2));
                }
            }
        }
        *self = WireRangeMap1D { map };
        Some(w)
    }

    /// The wires at `c`, in coordinate order.
    fn wires_at(&self, c: Axis) -> (r: Vec<Wire1D>)
        ensures
            r@.map_values(|w: Wire1D| w@) == segments_at(self@, c),
    {
        proof {
            use_type_invariant(self);
        }
        let at = self.wire_at(c);
        let r = at.wires();
        proof {
            let m = self@;
            let lefts = |k: Axis| m.contains_key(k) && k < c <= k + m[k];
            let lw: Option<Wire1D> = match at {
                WireAtResult::LWire(w) | WireAtResult::Intersect(w) => Some(w),
                WireAtResult::BiWire(ws) => Some(ws[0]),
                _ => None,
            };
            if let Some(w) = lw {
                assert(lefts(w@.0));
                let k = choose|k: Axis| #[trigger] m.contains_key(k) && k < c <= k + m[k];
                if k < w@.0 {
                    assert(m.contains_key(k) && m.contains_key(w@.0));
                } else if k > w@.0 {
                    assert(m.contains_key(k) && m.contains_key(w@.0));
                }
            }
            assert(r@.map_values(|w: Wire1D| w@) =~= segments_at(m, c));
        }
        r
    }

    /// Gets the wires at the specified coordinate
    /// (including when the coordinate is not an endpoint, but intersects the wire).
    pub fn wire_at(&self, c: Axis) -> (r: WireAtResult)
        ensures
            classifies(r, self@, c),
    {
        proof {
            use_type_invariant(self);
        }
        // Find wire that is directly adjacent right of `c`
        // (i.e., c is the left endpoint).
        let wire_right = match self.map.get(&c) {
            Some(length) => Some(Wire1D { start: c, length: *length }),
            None => None,
        };

        // Find the wire that is directly adjacent left of `c`
        //    or intersecting the middle of the wire.
        let wire_left = match last_below(&self.map, c) {
            Some((start, length)) => {
                let w = Wire1D { start, length };
                if w.contains(c) { Some(w) } else { None }
            },
            None => None,
        };
        proof {
            let m = self@;
            if wire_left is None {
                assert forall|k: Axis| !(#[trigger] m.contains_key(k) && k < c <= k + m[k]) by {
                }
            }
        }
        match (wire_left, wire_right) {
            (None, None) => WireAtResult::NoWire,
            (Some(w), None) => if w.end() == c { WireAtResult::LWire(w) } else { WireAtResult::Intersect(w) },
            (None, Some(w)) => WireAtResult::RWire(w),
            (Some(w1), Some(w2)) => WireAtResult::BiWire([w1, w2]),
        }
    }
}

/// The wire fields `(x, y, length, horizontal)` as `(start, length, cross, horizontal)`
/// on their grid line.
pub open spec fn on_line(w: (Axis, Axis, Axis, bool)) -> (Axis, Axis, Axis, bool) {
    if w.3 { (w.0, w.2, w.1, true) } else { (w.1, w.2, w.0, false) }
}

/// The wire fields of the segment `(start, length)` on line `cross` of the given direction.
pub open spec fn off_line(seg: (Axis, Axis), cross: Axis, horizontal: bool) -> (Axis, Axis, Axis, bool) {
    if horizontal { (seg.0, cross, seg.1, true) } else { (cross, seg.0, seg.1, false) }
}

/// The coordinate of `c` along the lines of the given direction.
pub open spec fn main_of(c: Coord, horizontal: bool) -> Axis {
    if horizontal { c.0 } else { c.1 }
}

/// The line of the given direction through `c`.
pub open spec fn cross_of(c: Coord, horizontal: bool) -> Axis {
    if horizontal { c.1 } else { c.0 }
}

/// Whether `new_lines` is `lines` with the wire `w` of line `cross` split at `main`.
pub open spec fn split_at(
    lines: Map<Axis, Map<Axis, Axis>>,
    new_lines: Map<Axis, Map<Axis, Axis>>,
    cross: Axis,
    main: Axis,
    horizontal: bool,
    w: (Axis, Axis, Axis, bool),
) -> bool {
    let line = line_of(lines, cross);
    let (start, length, wc, wh) = on_line(w);
    &&& wc == cross && wh == horizontal
    &&& line.contains_key(start) && line[start] == length
    &&& start < main < start + length
    &&& new_lines == lines.insert(cross,
        line.insert(start, (main - start) as u32).insert(main, (start + length - main) as u32))
}

/// Whether `x` is a wire of the given direction held in `lines`.
pub open spec fn is_wire_of(lines: Map<Axis, Map<Axis, Axis>>, horizontal: bool, x: (Axis, Axis, Axis, bool)) -> bool {
    let (start, length, cross, h) = on_line(x);
    &&& h == horizontal
    &&& line_of(lines, cross).contains_key(start)
    &&& line_of(lines, cross)[start] == length
}

/// The segments of the line `cross`, or none if the line holds no wire.
pub open spec fn line_of(lines: Map<Axis, Map<Axis, Axis>>, cross: Axis) -> Map<Axis, Axis> {
    if lines.contains_key(cross) { lines[cross] } else { Map::empty() }
}

/// The lines after setting line `cross` to `seg`: an empty line is dropped.
pub open spec fn with_line(lines: Map<Axis, Map<Axis, Axis>>, cross: Axis, seg: Map<Axis, Axis>) -> Map<Axis, Map<Axis, Axis>> {
    if seg.dom().len() == 0 { lines.remove(cross) } else { lines.insert(cross, seg) }
}

/// The start of wire fields on their line.
pub open spec fn line_start(w: (Axis, Axis, Axis, bool)) -> int {
    on_line(w).0 as int
}

/// The end of wire fields on their line.
pub open spec fn line_end(w: (Axis, Axis, Axis, bool)) -> int {
    on_line(w).0 + on_line(w).1
}

/// Whether the wires `ws` lie, in order of their start and without overlapping,
/// on the line of the wire `w`.
pub open spec fn ordered_on_line_of(ws: Seq<(Axis, Axis, Axis, bool)>, w: (Axis, Axis, Axis, bool)) -> bool {
    &&& forall|i: int| 0 <= i < ws.len() ==> on_line(#[trigger] ws[i]).2 == on_line(w).2
        && on_line(ws[i]).3 == on_line(w).3
    &&& forall|i: int, j: int| 0 <= i < j < ws.len() ==> line_end(#[trigger] ws[i]) <= line_start(#[trigger] ws[j])
}

/// Whether each of the wires ends where the next one starts.
pub open spec fn chained(ws: Seq<(Axis, Axis, Axis, bool)>) -> bool {
    forall|i: int| 0 <= i < ws.len() - 1 ==> line_end(#[trigger] ws[i]) == line_start(ws[i + 1])
}

/// The wire to draw when `w` is drawn over the wires `ws` of its line that it overlaps:
/// `w` itself if there are none; nothing if they already cover `w` without a gap;
/// else the wire spanning `w` and all of them.
pub open spec fn merged_wire_spec(w: (Axis, Axis, Axis, bool), ws: Seq<(Axis, Axis, Axis, bool)>) -> Option<(Axis, Axis, Axis, bool)> {
    if ws.len() == 0 {
        Some(w)
    } else {
        let l = line_start(ws[0]);
        let r = line_end(ws.last());
        if l <= line_start(w) && line_end(w) <= r && chained(ws) {
            None
        } else {
            let s = if l < line_start(w) { l } else { line_start(w) };
            let e = if r > line_end(w) { r } else { line_end(w) };
            Some(off_line((s as Axis, (e - s) as Axis), on_line(w).2, on_line(w).3))
        }
    }
}

/// The wire to add when `w` is drawn over the wires of its line that it overlaps,
/// given in order: `None` if they already cover `w` without a gap, else the wire
/// spanning `w` and all of them.
pub fn merged_wire(w: Wire, overlapping: &[Wire]) -> (r: Option<Wire>)
    requires
        ordered_on_line_of(overlapping@.map_values(|x: Wire| x@), w@),
    ensures
        match merged_wire_spec(w@, overlapping@.map_values(|x: Wire| x@)) {
            Some(f) => r matches Some(m) && m@ == f,
            None => r is None,
        },
{
    let ghost ws = overlapping@.map_values(|x: Wire| x@);
    let (w1, cross, horizontal) = Wire1D::from_2d(w);
    proof {
        use_type_invariant(w1);
    }
    let n = overlapping.len();
    if n == 0 {
        return Some(w);
    }
    let (first, _, _) = Wire1D::from_2d(overlapping[0]);
    let (last, _, _) = Wire1D::from_2d(overlapping[n - 1]);
    proof {
        use_type_invariant(first);
        use_type_invariant(last);
        assert(ws[0] == overlapping@[0]@);
        assert(ws.last() == overlapping@[n - 1]@);
    }
    let l = first.start;
    let r = last.end();
    let mut is_chained = true;
    let mut i: usize = 0;
    while i + 1 < n
        invariant
            n == overlapping@.len() == ws.len(),
            ws == overlapping@.map_values(|x: Wire| x@),
            i < n,
            is_chained == forall|k: int| 0 <= k < i ==> line_end(#[trigger] ws[k]) == line_start(ws[k + 1]),
        decreases n - i,
    {
        let (a, _, _) = Wire1D::from_2d(overlapping[i]);
        let (b, _, _) = Wire1D::from_2d(overlapping[i + 1]);
        proof {
            use_type_invariant(a);
            assert(ws[i as int] == overlapping@[i as int]@);
            assert(ws[i + 1] == overlapping@[i + 1]@);
        }
        if a.end() != b.start {
            is_chained = false;
        }
        i = i + 1;
    }
    assert(is_chained == chained(ws));
    let s = w1.start;
    let e = w1.end();
    if l <= s && e <= r && is_chained {
        None
    } else {
        let ns = if l < s { l } else { s };
        let ne = if r > e { r } else { e };
        Some(Wire1D::new(ns, ne - ns).to_2d(cross, horizontal))
    }
}

/// The lines `(horizontal, vertical)` with the wire `f` put on its line.
pub open spec fn view_with_wire(v: (Map<Axis, Map<Axis, Axis>>, Map<Axis, Map<Axis, Axis>>), f: (Axis, Axis, Axis, bool))
    -> (Map<Axis, Map<Axis, Axis>>, Map<Axis, Map<Axis, Axis>>) {
    let (start, length, cross, h) = on_line(f);
    if h {
        (v.0.insert(cross, line_of(v.0, cross).insert(start, length)), v.1)
    } else {
        (v.0, v.1.insert(cross, line_of(v.1, cross).insert(start, length)))
    }
}

/// Whether the wire `f` fits on its line of the lines `(horizontal, vertical)`.
pub open spec fn view_fits(v: (Map<Axis, Map<Axis, Axis>>, Map<Axis, Map<Axis, Axis>>), f: (Axis, Axis, Axis, bool)) -> bool {
    let (start, length, cross, h) = on_line(f);
    fits_in(line_of(if h { v.0 } else { v.1 }, cross), start, length)
}

/// The wires held by the lines `(horizontal, vertical)`.
pub open spec fn held_wires(v: (Map<Axis, Map<Axis, Axis>>, Map<Axis, Map<Axis, Axis>>)) -> Set<(Axis, Axis, Axis, bool)> {
    Set::new(|x: (Axis, Axis, Axis, bool)| is_wire_of(v.0, true, x) || is_wire_of(v.1, false, x))
}

/// The lines of an empty range map after adding the first `n` wires of `ws`.
pub open spec fn view_after_adds(ws: Seq<(Axis, Axis, Axis, bool)>, n: nat)
    -> (Map<Axis, Map<Axis, Axis>>, Map<Axis, Map<Axis, Axis>>)
    decreases n,
{
    if n == 0 {
        (Map::empty(), Map::empty())
    } else {
        view_with_wire(view_after_adds(ws, (n - 1) as nat), ws[n - 1])
    }
}

/// Adding to an empty range map the wires `ws`, each of which fits when it is added,
/// leaves exactly the wires of `ws` held, and no wire of `ws` is added twice.
pub proof fn lemma_adds_hold_exactly(ws: Seq<(Axis, Axis, Axis, bool)>)
    requires
        forall|i: int| 0 <= i < ws.len() ==> wire_valid((#[trigger] ws[i]).0, ws[i].1, ws[i].2, ws[i].3),
        forall|i: int| 0 <= i < ws.len() ==> #[trigger] view_fits(view_after_adds(ws, i as nat), ws[i]),
    ensures
        held_wires(view_after_adds(ws, ws.len())) == ws.to_set(),
        ws.no_duplicates(),
    decreases ws.len(),
{
    if ws.len() == 0 {
        assert(held_wires(view_after_adds(ws, 0)) =~= ws.to_set());
    } else {
        let n = (ws.len() - 1) as nat;
        let init = ws.drop_last();
        assert forall|i: nat| i <= n implies #[trigger] view_after_adds(init, i) == view_after_adds(ws, i) by {
            lemma_adds_prefix(ws, init, i);
        }
        assert forall|i: int| 0 <= i < init.len() implies #[trigger] view_fits(view_after_adds(init, i as nat), init[i]) by {
            assert(view_after_adds(init, i as nat) == view_after_adds(ws, i as nat));
            assert(view_fits(view_after_adds(ws, i as nat), ws[i]));
        }
        lemma_adds_hold_exactly(init);
        let v = view_after_adds(ws, n);
        let f = ws[n as int];
        assert(view_after_adds(init, init.len()) == v);
        assert(view_fits(v, f));
        let (start, length, cross, h) = on_line(f);
        let line = line_of(if h { v.0 } else { v.1 }, cross);
        assert(!line.contains_key(start)) by {
            if line.contains_key(start) {
                let x = off_line((start, line[start]), cross, h);
                assert(on_line(x) == (start, line[start], cross, h));
                assert(held_wires(v).contains(x));
                assert(init.to_set().contains(x));
                let i = choose|i: int| 0 <= i < init.len() && init[i] == x;
                assert(wire_valid(ws[i].0, ws[i].1, ws[i].2, ws[i].3));
                assert(overlaps(start as int, line[start] as int, start as int, length as int));
            }
        }
        let v2 = view_with_wire(v, f);
        assert(held_wires(v2) =~= held_wires(v).insert(f)) by {
            assert forall|x: (Axis, Axis, Axis, bool)| held_wires(v2).contains(x) == held_wires(v).insert(f).contains(x) by {
                if x == f {
                } else if is_wire_of(v2.0, true, x) || is_wire_of(v2.1, false, x) {
                    assert(on_line(x) != on_line(f));
                }
            }
        }
        assert(!held_wires(v).contains(f));
        assert(ws.to_set() =~= init.to_set().insert(f)) by {
            assert forall|x| ws.to_set().contains(x) implies init.to_set().insert(f).contains(x) by {
                let i = choose|i: int| 0 <= i < ws.len() && ws[i] == x;
                if i < n {
                    assert(init[i] == x);
                }
            }
            assert forall|x| init.to_set().contains(x) implies ws.to_set().contains(x) by {
                let i = choose|i: int| 0 <= i < init.len() && init[i] == x;
                assert(ws[i] == x);
            }
        }
        assert forall|i: int, j: int| 0 <= i < ws.len() && 0 <= j < ws.len() && i != j implies ws[i] != ws[j] by {
            if i < n && j < n {
                assert(init[i] == ws[i] && init[j] == ws[j]);
            } else if i == n {
                assert(init.to_set().contains(init[j]));
            } else {
                assert(init.to_set().contains(init[i]));
            }
        }
    }
}

/// Adding the wires of a prefix gives the same lines as adding the first wires of the whole.
proof fn lemma_adds_prefix(ws: Seq<(Axis, Axis, Axis, bool)>, init: Seq<(Axis, Axis, Axis, bool)>, i: nat)
    requires
        init.len() <= ws.len(),
        forall|j: int| 0 <= j < init.len() ==> init[j] == ws[j],
        i <= init.len(),
    ensures
        view_after_adds(init, i) == view_after_adds(ws, i),
    decreases i,
{
    if i > 0 {
        lemma_adds_prefix(ws, init, (i - 1) as nat);
    }
}

/// Inserting a wire that fits into a line and removing it gives back the line; removing
/// a wire the line does not hold exactly changes nothing.
pub proof fn lemma_insert_then_remove(line: Map<Axis, Axis>, start: Axis, length: Axis)
    requires
        disjoint_segments(line),
        length > 0,
        fits_in(line, start, length),
    ensures
        line.insert(start, length).remove(start) == line,
        line.insert(start, length).contains_key(start) && line.insert(start, length)[start] == length,
{
    assert(!line.contains_key(start)) by {
        if line.contains_key(start) {
            assert(overlaps(start as int, line[start] as int, start as int, length as int));
        }
    }
    assert(line.insert(start, length).remove(start) =~= line);
}

/// Adding a wire to a range map and removing it gives back the lines as they were.
pub proof fn lemma_add_then_remove_view(v: (Map<Axis, Map<Axis, Axis>>, Map<Axis, Map<Axis, Axis>>), f: (Axis, Axis, Axis, bool))
    requires
        lines_ok(v.0),
        lines_ok(v.1),
        f.2 > 0,
        view_fits(v, f),
    ensures
        ({
            let (start, length, cross, h) = on_line(f);
            let added = view_with_wire(v, f);
            let lines = if h { added.0 } else { added.1 };
            let line = line_of(lines, cross);
            &&& line.contains_key(start) && line[start] == length
            &&& with_line(lines, cross, line.remove(start)) == (if h { v.0 } else { v.1 })
        }),
{
    let (start, length, cross, h) = on_line(f);
    let lines = if h { v.0 } else { v.1 };
    if lines.contains_key(cross) {
        assert(disjoint_segments(line_of(lines, cross)));
    } else {
        assert(line_of(lines, cross) =~= Map::<Axis, Axis>::empty());
    }
    lemma_add_then_remove(lines, cross, start, length);
    assert(view_with_wire(v, f) == (if h { (lines.insert(cross, line_of(lines, cross).insert(start, length)), v.1) }
        else { (v.0, lines.insert(cross, line_of(lines, cross).insert(start, length))) }));
}

/// Removing a wire just added to a line gives back the lines as they were;
/// adding the same wire again fails.
pub proof fn lemma_add_then_remove(lines: Map<Axis, Map<Axis, Axis>>, cross: Axis, start: Axis, length: Axis)
    requires
        no_empty_line(lines),
        disjoint_segments(line_of(lines, cross)),
        length > 0,
        fits_in(line_of(lines, cross), start, length),
    ensures
        ({
            let added = lines.insert(cross, line_of(lines, cross).insert(start, length));
            let line = line_of(added, cross);
            &&& line.contains_key(start) && line[start] == length
            &&& with_line(added, cross, line.remove(start)) == lines
            &&& !fits_in(line, start, length)
        }),
{
    let old_line = line_of(lines, cross);
    let added = lines.insert(cross, old_line.insert(start, length));
    let line = line_of(added, cross);
    assert(!old_line.contains_key(start)) by {
        if old_line.contains_key(start) {
            assert(overlaps(start as int, old_line[start] as int, start as int, length as int));
        }
    }
    assert(line.remove(start) =~= old_line);
    if lines.contains_key(cross) {
        assert(old_line.dom().len() > 0);
        assert(with_line(added, cross, old_line) =~= lines);
    } else {
        assert(old_line =~= Map::<Axis, Axis>::empty());
        assert(old_line.dom() =~= Set::<Axis>::empty());
        assert(with_line(added, cross, old_line) =~= lines);
    }
    assert(overlaps(start as int, line[start] as int, start as int, length as int));
    assert(line.contains_key(start) && line[start] == length);
    assert(with_line(added, cross, line.remove(start)) == lines);
    assert(!fits_in(line, start, length));
}

/// The segments at `c` on a line: the one starting before `c` and reaching it, if any,
/// then the one starting at `c`, if any.
pub open spec fn segments_at(m: Map<Axis, Axis>, c: Axis) -> Seq<(Axis, Axis)> {
    let left = if exists|k: Axis| #[trigger] m.contains_key(k) && k < c <= k + m[k] {
        let k = choose|k: Axis| #[trigger] m.contains_key(k) && k < c <= k + m[k];
        seq![(k, m[k])]
    } else {
        Seq::empty()
    };
    left + if m.contains_key(c) { seq![(c, m[c])] } else { Seq::empty() }
}

/// All wires of one direction, line by line.
fn wires_all(lines: &HashMap<Axis, WireRangeMap1D>, horizontal: bool) -> (r: Vec<Wire>)
    ensures
        forall|i: int| 0 <= i < r@.len() ==> is_wire_of(lines_view(lines@), horizontal, (#[trigger] r@[i])@),
        forall|x: (Axis, Axis, Axis, bool)| #[trigger] is_wire_of(lines_view(lines@), horizontal, x) ==>
            exists|i: int| 0 <= i < r@.len() && (#[trigger] r@[i])@ == x,
        forall|i: int, j: int| 0 <= i < j < r@.len() ==> (#[trigger] r@[i])@ != (#[trigger] r@[j])@,
{
    let ghost lv = lines_view(lines@);
    let mut out: Vec<Wire> = Vec::new();
    let iter = lines.iter();
    let ghost v = iter.remaining();
    let ghost mut crosses: Set<Axis> = Set::empty();
    proof {
        assert(v.len() == lines@.dom().len());
    }
    for entry in it: iter
        invariant
            it.seq() == v,
            v.no_duplicates(),
            forall|i: int| 0 <= i < v.len() ==> lines@.contains_key(*(#[trigger] v[i]).0) && lines@[*v[i].0] == *v[i].1,
            forall|k: Axis| #[trigger] lines@.contains_key(k) ==> v.contains((&k, &lines@[k])),
            lv == lines_view(lines@),
            forall|i: int| 0 <= i < out@.len() ==> is_wire_of(lv, horizontal, (#[trigger] out@[i])@),
            forall|j: int, s: Axis| 0 <= j < it.index() && #[trigger] it.seq()[j].1@.contains_key(s) ==>
                exists|i: int| 0 <= i < out@.len() && (#[trigger] out@[i])@ == off_line((s, it.seq()[j].1@[s]), *it.seq()[j].0, horizontal),
            forall|j: int| 0 <= j < it.index() ==> crosses.contains(*(#[trigger] v[j]).0),
            forall|j: int| it.index() <= j < v.len() ==> !crosses.contains(*(#[trigger] v[j]).0),
            forall|i: int| 0 <= i < out@.len() ==> crosses.contains(on_line((#[trigger] out@[i])@).2)
                && on_line(out@[i]@).3 == horizontal,
            forall|i: int, j: int| 0 <= i < j < out@.len() ==> (#[trigger] out@[i])@ != (#[trigger] out@[j])@,
    {
        assert(entry == v[it.index()]);
        let (cross, line) = entry;
        let segs = line.wires();
        let ghost sv = segs@.map_values(|w: Wire1D| w@);
        assert(lines@.contains_key(*cross) && lines@[*cross] == *line);
        let ghost before = out@;
        let ghost idx = it.index();
        assert(!crosses.contains(*cross));
        let mut k: usize = 0;
        while k < segs.len()
            invariant
                k <= segs@.len(),
                sv == segs@.map_values(|w: Wire1D| w@),
                lists_segments(sv, line@, |k: Axis| true),
                lv == lines_view(lines@),
                lines@.contains_key(*cross) && lines@[*cross] == *line,
                !crosses.contains(*cross),
                out@.len() == before.len() + k,
                forall|i: int| 0 <= i < before.len() ==> out@[i] == before[i],
                forall|i: int| 0 <= i < out@.len() ==> is_wire_of(lv, horizontal, (#[trigger] out@[i])@),
                forall|i: int| 0 <= i < k ==> (#[trigger] out@[before.len() + i])@ == off_line(sv[i], *cross, horizontal),
                forall|i: int| 0 <= i < before.len() ==> crosses.contains(on_line((#[trigger] before[i])@).2)
                    && on_line(before[i]@).3 == horizontal,
                forall|i: int, j: int| 0 <= i < j < before.len() ==> (#[trigger] before[i])@ != (#[trigger] before[j])@,
                forall|i: int, j: int| 0 <= i < j < out@.len() ==> (#[trigger] out@[i])@ != (#[trigger] out@[j])@,
            decreases segs@.len() - k,
        {
            let x = segs[k].to_2d(*cross, horizontal);
            proof {
                assert(line@.contains_key(sv[k as int].0));
                assert(line_of(lv, *cross) == line@);
                assert forall|i: int| 0 <= i < out@.len() implies (#[trigger] out@[i])@ != x@ by {
                    if i < before.len() {
                        assert(out@[i] == before[i]);
                        assert(crosses.contains(on_line(before[i]@).2));
                    } else {
                        let t = i - before.len();
                        assert(out@[before.len() + t]@ == off_line(sv[t], *cross, horizontal));
                        assert(sv[t].0 < sv[k as int].0);
                    }
                }
            }
            out.push(x);
            k = k + 1;
        }
        proof {
            assert forall|s: Axis| #[trigger] line@.contains_key(s) implies
                exists|i: int| 0 <= i < out@.len() && (#[trigger] out@[i])@ == off_line((s, line@[s]), *cross, horizontal) by {
                let t = choose|t: int| 0 <= t < sv.len() && (#[trigger] sv[t]).0 == s;
                assert(out@[before.len() + t]@ == off_line(sv[t], *cross, horizontal));
            }
            let old_crosses = crosses;
            crosses = crosses.insert(*cross);
            assert forall|j: int| idx + 1 <= j < v.len() implies !crosses.contains(*(#[trigger] v[j]).0) by {
                assert(!old_crosses.contains(*v[j].0));
                if *v[j].0 == *cross {
                    assert(v[j] == v[idx]);
                }
            }
            assert forall|i: int| 0 <= i < out@.len() implies crosses.contains(on_line((#[trigger] out@[i])@).2)
                && on_line(out@[i]@).3 == horizontal by {
                if i < before.len() {
                    assert(out@[i] == before[i]);
                } else {
                    let t = i - before.len();
                    assert(out@[before.len() + t]@ == off_line(sv[t], *cross, horizontal));
                }
            }
        }
    }
    proof {
        assert forall|x: (Axis, Axis, Axis, bool)| #[trigger] is_wire_of(lv, horizontal, x) implies
            exists|i: int| 0 <= i < out@.len() && (#[trigger] out@[i])@ == x by {
            let (start, length, cross, h) = on_line(x);
            assert(lines@.contains_key(cross));
            assert(v.contains((&cross, &lines@[cross])));
            let j = choose|j: int| 0 <= j < v.len() && v[j] == (&cross, &lines@[cross]);
            assert(v[j].1@.contains_key(start));
            assert(x == off_line((start, v[j].1@[start]), *v[j].0, horizontal));
        }
    }
    out
}

/// A helper struct which is Coord-indexable, indicating whether a wire exists along a coord.
pub struct WireRangeMap {
    /// All horizontal wires. This is Map<y, Map<start x, length>>.
    horiz_wires: HashMap<Axis, WireRangeMap1D>,
    /// All vertical wires. This is Map<x, Map<start y, length>>.
    vert_wires: HashMap<Axis, WireRangeMap1D>,
}

/// The segments of each line.
pub open spec fn lines_view(hm: Map<Axis, WireRangeMap1D>) -> Map<Axis, Map<Axis, Axis>> {
    hm.map_values(|m: WireRangeMap1D| m@)
}

/// Every line holds at least one wire.
pub open spec fn no_empty_line(lines: Map<Axis, Map<Axis, Axis>>) -> bool {
    forall|cross: Axis| #[trigger] lines.contains_key(cross) ==> lines[cross].dom().len() > 0
}

/// Every line holds at least one wire, and the wires of each line are disjoint.
pub open spec fn lines_ok(lines: Map<Axis, Map<Axis, Axis>>) -> bool {
    &&& no_empty_line(lines)
    &&& forall|cross: Axis| #[trigger] lines.contains_key(cross) ==> disjoint_segments(lines[cross])
}

impl View for WireRangeMap {
    /// (horizontal lines by y, vertical lines by x), each mapping start to length.
    type V = (Map<Axis, Map<Axis, Axis>>, Map<Axis, Map<Axis, Axis>>);

    closed spec fn view(&self) -> (Map<Axis, Map<Axis, Axis>>, Map<Axis, Map<Axis, Axis>>) {
        (lines_view(self.horiz_wires@), lines_view(self.vert_wires@))
    }
}

impl Default for WireRangeMap {
    fn default() -> (r: Self)
        ensures
            r@.0 == Map::<Axis, Map<Axis, Axis>>::empty(),
            r@.1 == Map::<Axis, Map<Axis, Axis>>::empty(),
            lines_ok(r@.0),
            lines_ok(r@.1),
    {
        let r = WireRangeMap { horiz_wires: HashMap::new(), vert_wires: HashMap::new() };
        assert(r@.0 =~= Map::<Axis, Map<Axis, Axis>>::empty());
        assert(r@.1 =~= Map::<Axis, Map<Axis, Axis>>::empty());
        r
    }
}

impl WireRangeMap {
    #[verifier::type_invariant]
    spec fn valid(self) -> bool {
        &&& lines_ok(lines_view(self.horiz_wires@))
        &&& lines_ok(lines_view(self.vert_wires@))
    }

    /// The segments of line `cross` in the given direction.
    pub open spec fn line(self, horizontal: bool, cross: Axis) -> Map<Axis, Axis> {
        line_of(if horizontal { self@.0 } else { self@.1 }, cross)
    }

    /// The lines of the given direction.
    pub open spec fn lines(self, horizontal: bool) -> Map<Axis, Map<Axis, Axis>> {
        if horizontal { self@.0 } else { self@.1 }
    }

    /// Takes the lines of one direction out of the map.
    fn take_lines(&mut self, horizontal: bool) -> (r: HashMap<Axis, WireRangeMap1D>)
        ensures
            lines_view(r@) == old(self).lines(horizontal),
            final(self).lines(!horizontal) == old(self).lines(!horizontal),
            final(self).lines(horizontal) == Map::<Axis, Map<Axis, Axis>>::empty(),
            lines_ok(lines_view(r@)),
    {
        proof {
            use_type_invariant(&*self);
        }
        let mut lines = HashMap::new();
        if horizontal {
            std::mem::swap(&mut lines, &mut self.horiz_wires);
        } else {
            std::mem::swap(&mut lines, &mut self.vert_wires);
        }
        assert(self.lines(horizontal) =~= Map::<Axis, Map<Axis, Axis>>::empty());
        lines
    }

    /// Puts the lines of one direction back into the map.
    fn put_lines(&mut self, horizontal: bool, lines: HashMap<Axis, WireRangeMap1D>)
        requires
            lines_ok(lines_view(lines@)),
        ensures
            final(self).lines(horizontal) == lines_view(lines@),
            final(self).lines(!horizontal) == old(self).lines(!horizontal),
    {
        proof {
            use_type_invariant(&*self);
        }
        if horizontal {
            self.horiz_wires = lines;
        } else {
            self.vert_wires = lines;
        }
    }

    /// Adds a wire to the range map.
    ///
    /// This returns whether adding the wire was successful
    /// (this wire cannot overlap any other wire on its line).
    pub fn add_wire(&mut self, w: Wire) -> (r: bool)
        ensures
            ({
                let (start, length, cross, horizontal) = on_line(w@);
                &&& r == fits_in(old(self).line(horizontal, cross), start, length)
                &&& final(self).lines(!horizontal) == old(self).lines(!horizontal)
                &&& final(self).lines(horizontal) == if r {
                    old(self).lines(horizontal).insert(cross, old(self).line(horizontal, cross).insert(start, length))
                } else {
                    old(self).lines(horizontal)
                }
            }),
            r == view_fits(old(self)@, w@),
            final(self)@ == if r { view_with_wire(old(self)@, w@) } else { old(self)@ },
            lines_ok(final(self)@.0),
            lines_ok(final(self)@.1),
    {
        let (w1d, cross, horizontal) = Wire1D::from_2d(w);
        let ghost old_lines = self.lines(horizontal);
        let mut lines = self.take_lines(horizontal);
        let mut line = match lines.remove(&cross) {
            Some(m) => m,
            None => WireRangeMap1D::new(),
        };
        let ghost before = line@;
        assert(before == line_of(old_lines, cross));
        let added = line.insert(w1d);
        proof {
            use_type_invariant(&line);
        }
        if !line.is_empty() {
            lines.insert(cross, line);
        }
        proof {
            if added {
                assert(line@.contains_key(w1d@.0));
                assert(lines_view(lines@) =~= old_lines.insert(cross, before.insert(w1d@.0, w1d@.1)));
            } else {
                assert(lines_view(lines@) =~= old_lines);
            }
        }
        self.put_lines(horizontal, lines);
        proof {
            use_type_invariant(&*self);
        }
        added
    }

    /// Removes a wire from the range map.
    ///
    /// This returns whether removing the wire was successful
    /// (this wire must exist exactly as specified in the map).
    pub fn remove_wire(&mut self, w: Wire) -> (r: bool)
        ensures
            ({
                let (start, length, cross, horizontal) = on_line(w@);
                let line = old(self).line(horizontal, cross);
                &&& r == (line.contains_key(start) && line[start] == length)
                &&& final(self).lines(!horizontal) == old(self).lines(!horizontal)
                &&& final(self).lines(horizontal) == if r {
                    with_line(old(self).lines(horizontal), cross, line.remove(start))
                } else {
                    old(self).lines(horizontal)
                }
            }),
            lines_ok(final(self)@.0),
            lines_ok(final(self)@.1),
    {
        let (w1d, cross, horizontal) = Wire1D::from_2d(w);
        let ghost old_lines = self.lines(horizontal);
        let mut lines = self.take_lines(horizontal);
        let removed = match lines.remove(&cross) {
            Some(mut line) => {
                let ghost before = line@;
                let r = line.remove(w1d);
                proof {
                    use_type_invariant(&line);
                }
                if !line.is_empty() {
                    lines.insert(cross, line);
                }
                proof {
                    if r {
                        assert(lines_view(lines@) =~= with_line(old_lines, cross, before.remove(w1d@.0)));
                    } else {
                        assert(lines_view(lines@) =~= old_lines);
                    }
                }
                r
            },
            None => {
                assert(lines_view(lines@) =~= old_lines);
                false
            },
        };
        self.put_lines(horizontal, lines);
        proof {
            use_type_invariant(&*self);
        }
        removed
    }

    /// Splits the wire of the specified orientation at a given coordinate,
    /// if the coordinate lies strictly inside it.
    ///
    /// This returns the wire that was split.
    pub fn split_wire(&mut self, horizontal: bool, c: Coord) -> (r: Option<Wire>)
        ensures
            r is Some <==> exists|k: Axis| #[trigger] old(self).line(horizontal, cross_of(c, horizontal)).contains_key(k)
                && k < main_of(c, horizontal) < k + old(self).line(horizontal, cross_of(c, horizontal))[k],
            final(self).lines(!horizontal) == old(self).lines(!horizontal),
            r is None ==> final(self).lines(horizontal) == old(self).lines(horizontal),
            r matches Some(w) ==> split_at(old(self).lines(horizontal), final(self).lines(horizontal),
                cross_of(c, horizontal), main_of(c, horizontal), horizontal, w@),
            lines_ok(final(self)@.0),
            lines_ok(final(self)@.1),
    {
        let (main, cross) = switch_sys(c, horizontal);
        let ghost old_lines = self.lines(horizontal);
        let mut lines = self.take_lines(horizontal);
        let result = match lines.remove(&cross) {
            Some(mut line) => {
                let ghost before = line@;
                assert(before == line_of(old_lines, cross));
                let split = line.split(main);
                proof {
                    use_type_invariant(&line);
                    if split is Some {
                        assert(line@.contains_key(main));
                    } else {
                        assert(!exists|k: Axis| #[trigger] before.contains_key(k) && k < main < k + before[k]);
                    }
                }
                lines.insert(cross, line);
                match split {
                    Some(w) => {
                        let w2 = w.to_2d(cross, horizontal);
                        proof {
                            let (start, length, wc, wh) = on_line(w2@);
                            assert(start == w@.0 && length == w@.1);
                            assert(lines_view(lines@) =~= old_lines.insert(cross,
                                before.insert(start, (main - start) as u32).insert(main, (start + length - main) as u32)));
                        }
                        Some(w2)
                    },
                    None => {
                        assert(lines_view(lines@) =~= old_lines);
                        None
                    },
                }
            },
            None => {
                assert(lines_view(lines@) =~= old_lines);
                assert(line_of(old_lines, cross) =~= Map::<Axis, Axis>::empty());
                None
            },
        };
        self.put_lines(horizontal, lines);
        proof {
            use_type_invariant(&*self);
            let line = old(self).line(horizontal, cross_of(c, horizontal));
            assert(line == line_of(old_lines, cross));
            assert(main == main_of(c, horizontal));
            if result is Some {
                assert(exists|k: Axis| #[trigger] line.contains_key(k) && k < main < k + line[k]);
            } else {
                assert(!exists|k: Axis| #[trigger] line.contains_key(k) && k < main < k + line[k]);
            }
        }
        result
    }

    /// Gets all the wires which overlap with the specified wire, on the same line,
    /// in order of their start.
    pub fn parallel_overlapping_wires(&self, w: Wire) -> (r: Vec<Wire>)
        ensures
            ({
                let (start, length, cross, horizontal) = on_line(w@);
                let line = self.line(horizontal, cross);
                &&& lists_segments(r@.map_values(|x: Wire| (on_line(x@).0, on_line(x@).1)), line,
                    |k: Axis| overlaps(k as int, line[k] as int, start as int, length as int))
                &&& forall|i: int| 0 <= i < r@.len() ==> on_line((#[trigger] r@[i])@).2 == cross
                    && on_line(r@[i]@).3 == horizontal
            }),
            ordered_on_line_of(r@.map_values(|x: Wire| x@), w@),
    {
        let (w1d, cross, horizontal) = Wire1D::from_2d(w);
        let lines = if horizontal { &self.horiz_wires } else { &self.vert_wires };
        let ghost lm = self.line(horizontal, cross);
        let segs = match lines.get(&cross) {
            Some(line) => {
                proof {
                    use_type_invariant(line);
                    assert(line@ == lm);
                }
                line.overlapping_wires(w1d)
            },
            None => {
                assert(lm =~= Map::<Axis, Axis>::empty());
                let r: Vec<Wire1D> = Vec::new();
                assert(r@.map_values(|x: Wire1D| x@) =~= Seq::<(Axis, Axis)>::empty());
                r
            },
        };
        let ghost sv = segs@.map_values(|x: Wire1D| x@);
        let mut r: Vec<Wire> = Vec::new();
        let mut i: usize = 0;
        while i < segs.len()
            invariant
                i <= segs@.len(),
                sv == segs@.map_values(|x: Wire1D| x@),
                r@.map_values(|x: Wire| (on_line(x@).0, on_line(x@).1)) == sv.subrange(0, i as int),
                forall|j: int| 0 <= j < r@.len() ==> on_line((#[trigger] r@[j])@).2 == cross
                    && on_line(r@[j]@).3 == horizontal,
            decreases segs@.len() - i,
        {
            let ghost prev = r@;
            let x = segs[i].to_2d(cross, horizontal);
            r.push(x);
            assert(r@.map_values(|x: Wire| (on_line(x@).0, on_line(x@).1))
                =~= prev.map_values(|x: Wire| (on_line(x@).0, on_line(x@).1)).push((on_line(x@).0, on_line(x@).1)));
            i = i + 1;
            assert(r@.map_values(|x: Wire| (on_line(x@).0, on_line(x@).1)) =~= sv.subrange(0, i as int));
        }
        assert(sv.subrange(0, sv.len() as int) =~= sv);
        proof {
            let rv = r@.map_values(|x: Wire| x@);
            let pv = r@.map_values(|x: Wire| (on_line(x@).0, on_line(x@).1));
            assert(disjoint_segments(lm));
            assert forall|i: int| 0 <= i < rv.len() implies on_line(#[trigger] rv[i]).2 == on_line(w@).2
                && on_line(rv[i]).3 == on_line(w@).3 by {
                assert(rv[i] == r@[i]@);
            }
            assert forall|i: int, j: int| 0 <= i < j < rv.len() implies
                line_end(#[trigger] rv[i]) <= line_start(#[trigger] rv[j]) by {
                assert(rv[i] == r@[i]@ && rv[j] == r@[j]@);
                assert(pv[i] == sv[i] && pv[j] == sv[j]);
                assert(lm.contains_key(sv[i].0) && lm.contains_key(sv[j].0));
                assert(sv[i].0 < sv[j].0);
            }
        }
        r
    }

    /// Gets all of the wires defined in the map: the horizontal ones, then the vertical ones.
    pub fn wires(&self) -> (r: Vec<Wire>)
        ensures
            forall|i: int| 0 <= i < r@.len() ==>
                is_wire_of(self@.0, true, (#[trigger] r@[i])@) || is_wire_of(self@.1, false, r@[i]@),
            forall|x: (Axis, Axis, Axis, bool)| is_wire_of(self@.0, true, x) || is_wire_of(self@.1, false, x) ==>
                exists|i: int| 0 <= i < r@.len() && (#[trigger] r@[i])@ == x,
            forall|i: int, j: int| 0 <= i < j < r@.len() ==> (#[trigger] r@[i])@ != (#[trigger] r@[j])@,
    {
        let mut h = wires_all(&self.horiz_wires, true);
        let mut v = wires_all(&self.vert_wires, false);
        let ghost a = h@;
        let ghost b = v@;
        h.append(&mut v);
        proof {
            assert forall|x: (Axis, Axis, Axis, bool)| is_wire_of(self@.0, true, x) || is_wire_of(self@.1, false, x) implies
                exists|i: int| 0 <= i < h@.len() && (#[trigger] h@[i])@ == x by {
                if is_wire_of(self@.0, true, x) {
                    let i = choose|i: int| 0 <= i < a.len() && (#[trigger] a[i])@ == x;
                    assert(h@[i] == a[i]);
                } else {
                    let i = choose|i: int| 0 <= i < b.len() && (#[trigger] b[i])@ == x;
                    assert(h@[a.len() + i] == b[i]);
                }
            }
            assert forall|i: int| 0 <= i < h@.len() implies
                is_wire_of(self@.0, true, (#[trigger] h@[i])@) || is_wire_of(self@.1, false, h@[i]@) by {
                if i < a.len() {
                    assert(h@[i] == a[i]);
                } else {
                    assert(h@[i] == b[i - a.len()]);
                }
            }
            assert forall|i: int, j: int| 0 <= i < j < h@.len() implies (#[trigger] h@[i])@ != (#[trigger] h@[j])@ by {
                if j < a.len() {
                    assert(h@[i] == a[i] && h@[j] == a[j]);
                } else if i >= a.len() {
                    assert(h@[i] == b[i - a.len()] && h@[j] == b[j - a.len()]);
                } else {
                    assert(h@[i] == a[i] && h@[j] == b[j - a.len()]);
                    assert(is_wire_of(self@.0, true, a[i]@));
                    assert(is_wire_of(self@.1, false, b[j - a.len()]@));
                }
            }
        }
        h
    }

    /// The wires of one direction at `c`, as 2D wires.
    fn wires_at_coord_dir(&self, horizontal: bool, c: Coord) -> (r: Vec<Wire>)
        ensures
            ({
                let main = main_of(c, horizontal);
                let cross = cross_of(c, horizontal);
                r@.map_values(|x: Wire| x@)
                    == segments_at(self.line(horizontal, cross), main).map_values(|s: (Axis, Axis)| off_line(s, cross, horizontal))
            }),
    {
        let (main, cross) = switch_sys(c, horizontal);
        let lines = if horizontal { &self.horiz_wires } else { &self.vert_wires };
        let segs = match lines.get(&cross) {
            Some(line) => line.wires_at(main),
            None => {
                let r: Vec<Wire1D> = Vec::new();
                assert(r@.map_values(|x: Wire1D| x@) =~= segments_at(Map::<Axis, Axis>::empty(), main));
                r
            },
        };
        let ghost sv = segs@.map_values(|x: Wire1D| x@);
        let mut r: Vec<Wire> = Vec::new();
        let mut i: usize = 0;
        while i < segs.len()
            invariant
                i <= segs@.len(),
                sv == segs@.map_values(|x: Wire1D| x@),
                r@.map_values(|x: Wire| x@) == sv.subrange(0, i as int).map_values(|s: (Axis, Axis)| off_line(s, cross, horizontal)),
            decreases segs@.len() - i,
        {
            let ghost prev = r@;
            let x = segs[i].to_2d(cross, horizontal);
            r.push(x);
            assert(r@.map_values(|x: Wire| x@) =~= prev.map_values(|x: Wire| x@).push(x@));
            assert(sv.subrange(0, i + 1) =~= sv.subrange(0, i as int).push(sv[i as int]));
            i = i + 1;
            assert(r@.map_values(|x: Wire| x@)
                =~= sv.subrange(0, i as int).map_values(|s: (Axis, Axis)| off_line(s, cross, horizontal)));
        }
        assert(sv.subrange(0, sv.len() as int) =~= sv);
        r
    }

    /// Gets all of the wires at the coord (including those that coord only intersects,
    /// not necessarily just the ones coord is an endpoint of):
    /// the horizontal wires, then the vertical ones, each in coordinate order.
    pub fn wires_at_coord(&self, c: Coord) -> (r: Vec<Wire>)
        ensures
            r@.map_values(|x: Wire| x@)
                == segments_at(self.line(true, c.1), c.0).map_values(|s: (Axis, Axis)| off_line(s, c.1, true))
                + segments_at(self.line(false, c.0), c.1).map_values(|s: (Axis, Axis)| off_line(s, c.0, false)),
    {
        let mut r = self.wires_at_coord_dir(true, c);
        let mut v = self.wires_at_coord_dir(false, c);
        let ghost a = r@;
        let ghost b = v@;
        r.append(&mut v);
        assert(r@.map_values(|x: Wire| x@) =~= a.map_values(|x: Wire| x@) + b.map_values(|x: Wire| x@));
        r
    }
}

} // verus!
