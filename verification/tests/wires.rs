use circuitsim_engine::middle_end::wire::Wire;
use circuitsim_engine::middle_end::wire::range_map::{
    Wire1D, WireAtResult, WireRangeMap, WireRangeMap1D, merged_wire,
};

fn w(p: (u32, u32), q: (u32, u32)) -> Wire {
    Wire::from_endpoints(p, q).unwrap()
}

#[test]
fn wire_from_endpoints_is_symmetric() {
    assert_eq!(Wire::from_endpoints((5, 1), (1, 1)), Wire::from_endpoints((1, 1), (5, 1)));
    let h = w((5, 1), (1, 1));
    assert_eq!(h.endpoints(), [(1, 1), (5, 1)]);
    assert_eq!(h.start(), (1, 1));
    assert_eq!(h.length(), 4);
    assert!(h.horizontal());
    let v = w((2, 9), (2, 3));
    assert_eq!(v.endpoints(), [(2, 3), (2, 9)]);
    assert!(!v.horizontal());
}

#[test]
fn wire_needs_one_differing_coordinate() {
    assert!(Wire::from_endpoints((1, 1), (1, 1)).is_none());
    assert!(Wire::from_endpoints((1, 1), (2, 2)).is_none());
    assert_eq!(Wire::new_raw(3, 4, 2, false), w((3, 4), (3, 6)));
}

#[test]
fn wire1d_projection() {
    let (line, cross, horizontal) = Wire1D::from_2d(w((2, 7), (2, 3)));
    assert_eq!(line, Wire1D::new(3, 4));
    assert_eq!(cross, 2);
    assert!(!horizontal);
    assert_eq!(line.to_2d(cross, horizontal), w((2, 3), (2, 7)));
}

#[test]
fn range_map_insert_disjoint_only() {
    let mut m = WireRangeMap1D::default();
    assert!(m.is_empty());
    assert!(m.insert(Wire1D::new(0, 5)));
    assert!(m.insert(Wire1D::new(5, 3)), "wires may touch at an endpoint");
    assert!(!m.insert(Wire1D::new(4, 2)), "overlapping wire must be refused");
    assert!(!m.insert(Wire1D::new(0, 5)), "the same wire cannot be added twice");
    assert_eq!(m.len(), 2);
    assert_eq!(m.wires(), vec![Wire1D::new(0, 5), Wire1D::new(5, 3)]);
}

#[test]
fn range_map_remove_exact_only() {
    let mut m = WireRangeMap1D::default();
    assert!(m.insert(Wire1D::new(2, 5)));
    assert!(!m.remove(Wire1D::new(2, 4)), "a wire is removed only as it was added");
    assert!(m.remove(Wire1D::new(2, 5)));
    assert!(m.is_empty());
    assert!(!m.remove(Wire1D::new(2, 5)));
}

#[test]
fn range_map_wire_at() {
    let mut m = WireRangeMap1D::default();
    assert!(m.insert(Wire1D::new(0, 5)));
    assert!(m.insert(Wire1D::new(5, 3)));
    assert!(m.insert(Wire1D::new(10, 2)));
    assert!(matches!(m.wire_at(5), WireAtResult::BiWire([l, r]) if l == Wire1D::new(0, 5) && r == Wire1D::new(5, 3)));
    assert!(matches!(m.wire_at(2), WireAtResult::Intersect(x) if x == Wire1D::new(0, 5)));
    assert!(matches!(m.wire_at(0), WireAtResult::RWire(x) if x == Wire1D::new(0, 5)));
    assert!(matches!(m.wire_at(8), WireAtResult::LWire(x) if x == Wire1D::new(5, 3)));
    assert!(matches!(m.wire_at(9), WireAtResult::NoWire));
    assert_eq!(m.wire_at(5).wires(), vec![Wire1D::new(0, 5), Wire1D::new(5, 3)]);
    assert!(m.wire_at(9).wires().is_empty());
}

#[test]
fn range_map_overlapping_wires() {
    let mut m = WireRangeMap1D::default();
    assert!(m.insert(Wire1D::new(0, 5)));
    assert!(m.insert(Wire1D::new(5, 3)));
    assert!(m.insert(Wire1D::new(10, 2)));
    assert_eq!(m.overlapping_wires(Wire1D::new(4, 7)), vec![Wire1D::new(0, 5), Wire1D::new(5, 3), Wire1D::new(10, 2)]);
    assert_eq!(m.overlapping_wires(Wire1D::new(8, 2)), vec![]);
    assert_eq!(m.overlapping_wires(Wire1D::new(6, 1)), vec![Wire1D::new(5, 3)]);
}

#[test]
fn range_map_split() {
    let mut m = WireRangeMap1D::default();
    assert!(m.insert(Wire1D::new(0, 5)));
    assert_eq!(m.split(0), None, "an endpoint does not split a wire");
    assert_eq!(m.split(7), None);
    assert_eq!(m.split(2), Some(Wire1D::new(0, 5)));
    assert_eq!(m.wires(), vec![Wire1D::new(0, 2), Wire1D::new(2, 3)]);
}

#[test]
fn wire_range_map_add_and_remove() {
    let mut m = WireRangeMap::default();
    assert!(m.add_wire(w((0, 0), (5, 0))));
    assert!(m.add_wire(w((2, 0), (2, 4))), "wires of different directions may cross");
    assert!(!m.add_wire(w((3, 0), (9, 0))));
    assert_eq!(m.wires().len(), 2);
    assert!(m.remove_wire(w((0, 0), (5, 0))));
    assert!(!m.remove_wire(w((0, 0), (5, 0))));
    assert_eq!(m.wires(), vec![w((2, 0), (2, 4))]);
    // Adding then removing gives back the map as it was.
    assert!(m.add_wire(w((7, 7), (7, 9))));
    assert!(m.remove_wire(w((7, 7), (7, 9))));
    assert_eq!(m.wires(), vec![w((2, 0), (2, 4))]);
}

#[test]
fn wire_range_map_split_wire() {
    let mut m = WireRangeMap::default();
    assert!(m.add_wire(w((0, 3), (6, 3))));
    assert_eq!(m.split_wire(false, (2, 3)), None, "no vertical wire there");
    assert_eq!(m.split_wire(true, (2, 3)), Some(w((0, 3), (6, 3))));
    let mut ws = m.wires();
    ws.sort_by_key(|x| x.start());
    assert_eq!(ws, vec![w((0, 3), (2, 3)), w((2, 3), (6, 3))]);
}

#[test]
fn wire_range_map_queries() {
    let mut m = WireRangeMap::default();
    assert!(m.add_wire(w((0, 3), (4, 3))));
    assert!(m.add_wire(w((4, 3), (8, 3))));
    assert!(m.add_wire(w((4, 0), (4, 10))));
    assert_eq!(m.wires_at_coord((4, 3)), vec![w((0, 3), (4, 3)), w((4, 3), (8, 3)), w((4, 0), (4, 10))]);
    assert_eq!(m.wires_at_coord((2, 3)), vec![w((0, 3), (4, 3))]);
    assert_eq!(m.wires_at_coord((20, 20)), vec![]);
    assert_eq!(m.parallel_overlapping_wires(w((3, 3), (5, 3))), vec![w((0, 3), (4, 3)), w((4, 3), (8, 3))]);
    assert_eq!(m.parallel_overlapping_wires(w((4, 1), (4, 2))), vec![w((4, 0), (4, 10))]);
}

#[test]
fn merged_wire_over_covering_wires_adds_nothing() {
    let mut m = WireRangeMap::default();
    assert!(m.add_wire(w((0, 3), (4, 3))));
    assert!(m.add_wire(w((4, 3), (8, 3))));
    let new = w((2, 3), (6, 3));
    let over = m.parallel_overlapping_wires(new);
    assert_eq!(merged_wire(new, &over), None);
    // Drawing an existing wire again adds nothing.
    let again = w((0, 3), (4, 3));
    assert_eq!(merged_wire(again, &m.parallel_overlapping_wires(again)), None);
}

#[test]
fn merged_wire_extends_and_bridges() {
    let mut m = WireRangeMap::default();
    assert!(m.add_wire(w((0, 3), (4, 3))));
    assert!(m.add_wire(w((4, 3), (8, 3))));
    let longer = w((2, 3), (10, 3));
    assert_eq!(merged_wire(longer, &m.parallel_overlapping_wires(longer)), Some(w((0, 3), (10, 3))));

    let mut gap = WireRangeMap::default();
    assert!(gap.add_wire(w((0, 3), (2, 3))));
    assert!(gap.add_wire(w((4, 3), (8, 3))));
    let bridge = w((1, 3), (5, 3));
    assert_eq!(merged_wire(bridge, &gap.parallel_overlapping_wires(bridge)), Some(w((0, 3), (8, 3))));
}

#[test]
fn merged_wire_alone_is_itself() {
    let m = WireRangeMap::default();
    let v = w((5, 1), (5, 9));
    assert_eq!(merged_wire(v, &m.parallel_overlapping_wires(v)), Some(v));
}

#[test]
fn range_map_adds_hold_exactly() {
    let mut m = WireRangeMap::default();
    let added = [w((0, 0), (3, 0)), w((3, 0), (5, 0)), w((2, 1), (2, 6)), w((0, 2), (4, 2))];
    for x in added {
        assert!(m.add_wire(x));
    }
    let mut held = m.wires();
    held.sort_by_key(|x| (x.horizontal(), x.start(), x.length()));
    let mut expected = added.to_vec();
    expected.sort_by_key(|x| (x.horizontal(), x.start(), x.length()));
    assert_eq!(held, expected);
}
