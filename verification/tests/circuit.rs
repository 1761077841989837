use circuitsim_engine::middle_end::circuit::CircuitArea;
use circuitsim_engine::middle_end::func::{Not, Orientation, PhysicalComponentEnum, Tunnel};
use circuitsim_engine::middle_end::links::Linking;
use circuitsim_engine::middle_end::wire::Wire;
use circuitsim_engine::middle_end::wire::wire_set::{Keygen, MeshKey};
use circuitsim_engine::middle_end::{AddComponentArgs, ComponentKey, ReprEditErr, TunnelSymbol};

type Coord = (u32, u32);

fn w(p: Coord, q: Coord) -> Wire {
    Wire::from_endpoints(p, q).expect("points should be 1D")
}

fn not_gate(origin: Coord) -> AddComponentArgs<'static> {
    AddComponentArgs::unlabeled(PhysicalComponentEnum::Not(Not::new(1, Orientation::East)), origin)
}

fn sorted_wires(c: &CircuitArea) -> Vec<(Coord, Coord)> {
    let mut v: Vec<(Coord, Coord)> = c.wire_set_ref().wires().iter().map(|w| {
        let [p, q] = w.endpoints();
        (p, q)
    }).collect();
    v.sort();
    v
}

#[test]
fn circuit_add_and_remove_component() {
    let mut kg = Keygen::new();
    let mut c = CircuitArea::new();
    let k = c.add_component(not_gate((10, 10)), Linking::Ports, &mut kg).unwrap();
    assert!(c.has_component(k));
    let p = c.get_component(k).unwrap();
    assert_eq!(p.ports, vec![(7, 10), (10, 10)]);
    assert!(c.wire_set_ref().find_key(MeshKey::Port(k, 0)).is_some());
    assert_eq!(c.remove_component(k, &mut kg), Ok(()));
    assert!(!c.has_component(k));
    assert_eq!(c.wire_set_ref().find_key(MeshKey::Port(k, 0)), None);
    assert_eq!(c.remove_component(k, &mut kg), Err(ReprEditErr::ComponentDoesNotExist));
    assert_eq!(c.get_component(k).err(), Some(ReprEditErr::ComponentDoesNotExist));
}

#[test]
fn circuit_component_out_of_bounds() {
    let mut kg = Keygen::new();
    let mut c = CircuitArea::new();
    let r = c.add_component(not_gate((1, 10)), Linking::Ports, &mut kg);
    assert_eq!(r, Err(ReprEditErr::ComponentOutOfBounds));
}

#[test]
fn circuit_redundant_tunnel() {
    let mut kg = Keygen::new();
    let mut c = CircuitArea::new();
    let t = TunnelSymbol(1);
    let args = || AddComponentArgs {
        inner: PhysicalComponentEnum::Tunnel(Tunnel::new(Orientation::East)),
        label: "a",
        label_location: Orientation::North,
        origin: (5, 5),
    };
    assert!(c.add_component(args(), Linking::Tunnel(t), &mut kg).is_ok());
    assert_eq!(c.add_component(args(), Linking::Tunnel(t), &mut kg), Err(ReprEditErr::RedundantTunnel));
}

#[test]
fn circuit_port_takes_wire_key() {
    let mut kg = Keygen::new();
    let mut c = CircuitArea::new();
    assert!(c.add_wire(w((10, 0), (10, 20)), &mut kg));
    let k = c.add_component(not_gate((10, 10)), Linking::Ports, &mut kg).unwrap();
    let wk = c.wire_set_ref().find_key_of_wire(w((10, 0), (10, 10))).unwrap();
    assert_eq!(c.wire_set_ref().find_key(MeshKey::Port(k, 1)), Some(wk));
    assert!(!c.add_wire(w((10, 0), (10, 20)), &mut kg));
    assert!(c.remove_wire(w((10, 0), (10, 20)), &mut kg));
    assert!(sorted_wires(&c).is_empty());
}

#[test]
fn batch_move_moves_components_and_wires() {
    let mut kg = Keygen::new();
    let mut c = CircuitArea::new();
    let k = c.add_component(not_gate((10, 10)), Linking::Ports, &mut kg).unwrap();
    assert!(c.add_wire(w((10, 10), (15, 10)), &mut kg));
    assert!(c.batch_move(&[k], &[w((10, 10), (15, 10))], (2, 3), &mut kg));
    let p = c.get_component(k).unwrap();
    assert_eq!(p.origin, (12, 13));
    assert_eq!(p.ports, vec![(9, 13), (12, 13)]);
    assert_eq!(sorted_wires(&c), vec![((12, 13), (17, 13))]);
    let wk = c.wire_set_ref().find_key_of_wire(w((12, 13), (17, 13))).unwrap();
    assert_eq!(c.wire_set_ref().find_key(MeshKey::Port(k, 1)), Some(wk));
}

#[test]
fn batch_move_is_all_or_nothing() {
    let mut kg = Keygen::new();
    let mut c = CircuitArea::new();
    let k = c.add_component(not_gate((10, 10)), Linking::Ports, &mut kg).unwrap();
    assert!(c.add_wire(w((10, 10), (15, 10)), &mut kg));
    // The component would leave the grid:
    assert!(!c.batch_move(&[k], &[w((10, 10), (15, 10))], (-8, 0), &mut kg));
    assert_eq!(c.get_component(k).unwrap().origin, (10, 10));
    assert_eq!(sorted_wires(&c), vec![((10, 10), (15, 10))]);
    // A missing component:
    assert!(!c.batch_move(&[ComponentKey(99)], &[], (1, 1), &mut kg));
    // A wire that would leave the grid:
    assert!(!c.batch_move(&[], &[w((0, 0), (0, 5))], (-1, 0), &mut kg));
    // No movement succeeds and changes nothing:
    assert!(c.batch_move(&[ComponentKey(99)], &[], (0, 0), &mut kg));
    assert_eq!(sorted_wires(&c), vec![((10, 10), (15, 10))]);
}

#[test]
fn batch_overwrite_replaces_components_and_wires() {
    let mut kg = Keygen::new();
    let mut c = CircuitArea::new();
    let k = c.add_component(not_gate((10, 10)), Linking::Ports, &mut kg).unwrap();
    assert!(c.add_wire(w((10, 10), (15, 10)), &mut kg));
    let pairs = [(w((10, 10), (15, 10)), w((20, 20), (25, 20)))];
    assert!(c.batch_construct_and_overwrite(&[(k, not_gate((20, 20)), Linking::Ports)], &pairs, &mut kg));
    let p = c.get_component(k).unwrap();
    assert_eq!(p.origin, (20, 20));
    assert_eq!(p.ports, vec![(17, 20), (20, 20)]);
    assert_eq!(sorted_wires(&c), vec![((20, 20), (25, 20))]);

    // Out of bounds: nothing changes.
    let back = [(w((20, 20), (25, 20)), w((0, 0), (5, 0)))];
    assert!(!c.batch_construct_and_overwrite(&[(k, not_gate((0, 0)), Linking::Ports)], &back, &mut kg));
    assert_eq!(c.get_component(k).unwrap().origin, (20, 20));
    assert_eq!(sorted_wires(&c), vec![((20, 20), (25, 20))]);
}
