use circuitsim_engine::middle_end::func::{
    Decoder, Demux, Handedness, Mux, Not, Orientation, PhysicalComponentEnum, Pin, Text, Tunnel,
};
use circuitsim_engine::middle_end::wire::Wire;
use circuitsim_engine::middle_end::{
    AddComponentArgs, ReprEditErr, construct_component, moved_component, moved_wires,
};

#[test]
fn repr_edit_err_messages() {
    assert_eq!(ReprEditErr::ComponentOutOfBounds.message(), "component is out of bounds");
    assert_eq!(ReprEditErr::ComponentDoesNotExist.message(), "component does not exist");
    assert_eq!(
        ReprEditErr::RedundantTunnel.message(),
        "cannot place two identical tunnels with the same port"
    );
}

#[test]
fn unlabeled_args() {
    let inner = PhysicalComponentEnum::Pin(Pin::new(1, true, Orientation::East));
    let a = AddComponentArgs::unlabeled(inner, (10, 10));
    assert_eq!(a.inner, inner);
    assert_eq!(a.label, "");
    assert_eq!(a.label_location, Orientation::North);
    assert_eq!(a.origin, (10, 10));
}

#[test]
fn construct_places_bounds_and_ports() {
    let inner = PhysicalComponentEnum::Not(Not::new(1, Orientation::East));
    let props = construct_component(AddComponentArgs::unlabeled(inner, (10, 10))).unwrap();
    assert_eq!(props.bounds, [(7, 9), (10, 11)]);
    assert_eq!(props.ports, vec![(7, 10), (10, 10)]);
    assert_eq!(props.origin, (10, 10));
    assert_eq!(props.label, "");

    let back = props.as_args();
    assert_eq!(back.inner, inner);
    assert_eq!(back.origin, (10, 10));
}

#[test]
fn construct_refuses_out_of_bounds() {
    let inner = PhysicalComponentEnum::Not(Not::new(1, Orientation::East));
    let r = construct_component(AddComponentArgs::unlabeled(inner, (1, 10)));
    assert_eq!(r.err(), Some(ReprEditErr::ComponentOutOfBounds));
}

#[test]
fn construct_tunnel_keeps_label() {
    let inner = PhysicalComponentEnum::Tunnel(Tunnel::new(Orientation::East));
    let args = AddComponentArgs { inner, label: "abc", label_location: Orientation::West, origin: (20, 20) };
    let props = construct_component(args).unwrap();
    assert_eq!(props.label, "abc");
    assert_eq!(props.label_location, Orientation::West);
    assert_eq!(props.ports, vec![(20, 20)]);
}

#[test]
fn moved_component_follows_delta() {
    let inner = PhysicalComponentEnum::Not(Not::new(1, Orientation::East));
    let props = construct_component(AddComponentArgs::unlabeled(inner, (10, 10))).unwrap();

    let moved = moved_component(&props, (2, -1)).unwrap();
    assert_eq!(moved.origin, (12, 9));
    assert_eq!(moved.bounds, [(9, 8), (12, 10)]);
    assert_eq!(moved.ports, vec![(9, 9), (12, 9)]);

    // Moving back gives the component as it was.
    let back = moved_component(&moved, (-2, 1)).unwrap();
    assert_eq!(back.origin, props.origin);
    assert_eq!(back.bounds, props.bounds);
    assert_eq!(back.ports, props.ports);
}

#[test]
fn moved_component_refuses_leaving_grid() {
    let inner = PhysicalComponentEnum::Not(Not::new(1, Orientation::East));
    let props = construct_component(AddComponentArgs::unlabeled(inner, (10, 10))).unwrap();
    // The origin stays on the grid, but the input port does not.
    assert!(moved_component(&props, (-10, 0)).is_none());
    // The origin itself leaves the grid.
    assert!(moved_component(&props, (-20, 0)).is_none());
}

#[test]
fn moved_wires_pairs_old_and_new() {
    let a = Wire::from_endpoints((1, 1), (5, 1)).unwrap();
    let b = Wire::from_endpoints((2, 0), (2, 3)).unwrap();
    let moved = moved_wires(&[a, b], (2, 3)).unwrap();
    assert_eq!(moved.len(), 2);
    assert_eq!(moved[0].0, a);
    assert_eq!(moved[0].1.endpoints(), [(3, 4), (7, 4)]);
    assert_eq!(moved[1].0, b);
    assert_eq!(moved[1].1.endpoints(), [(4, 3), (4, 6)]);

    let back: Vec<Wire> = moved_wires(&[moved[0].1, moved[1].1], (-2, -3))
        .unwrap()
        .into_iter()
        .map(|(_, w)| w)
        .collect();
    assert_eq!(back, vec![a, b]);
}

#[test]
fn moved_wires_refuses_leaving_grid() {
    let a = Wire::from_endpoints((1, 1), (5, 1)).unwrap();
    let b = Wire::from_endpoints((0, 0), (0, 3)).unwrap();
    assert!(moved_wires(&[a, b], (-1, 0)).is_none());
    assert!(moved_wires(&[a], (-1, 0)).is_some());
    assert_eq!(moved_wires(&[], (-100, 0)).map(|v| v.len()), Some(0));
}

#[test]
fn mux_bounds() {
    let mux = PhysicalComponentEnum::Mux(Mux::new(8, 1, Orientation::East, Handedness::DownRight));
    let b = mux.init_bounds("");
    assert_eq!(b.bounds, [(-3, -2), (0, 2)]);
    assert_eq!(b.ports, vec![(-2, 2), (-3, -1), (-3, 1), (0, 0)]);

    let north = Mux::new(8, 1, Orientation::North, Handedness::DownRight).init_bounds();
    assert_eq!(north.bounds, [(-2, -3), (2, 0)]);
    assert_eq!(north.ports, vec![(-2, -2), (1, -3), (-1, -3), (0, 0)]);

    let wide = Mux::new(1, 2, Orientation::East, Handedness::DownRight).init_bounds();
    assert_eq!(wide.bounds, [(-3, -4), (0, 4)]);
    assert_eq!(wide.ports, vec![(-2, 4), (-3, -3), (-3, -1), (-3, 1), (-3, 3), (0, 0)]);
}

#[test]
fn demux_and_decoder_bounds() {
    let demux = Demux::new(4, 1, Orientation::East, Handedness::DownRight).init_bounds();
    assert_eq!(demux.bounds, [(0, -2), (3, 2)]);
    assert_eq!(demux.ports, vec![(1, 2), (0, 0), (3, -1), (3, 1)]);

    let decoder = Decoder::new(1, Orientation::East, Handedness::DownRight).init_bounds();
    assert_eq!(decoder.bounds, [(-1, -4), (2, 0)]);
    assert_eq!(decoder.ports, vec![(0, 0), (2, -3), (2, -1)]);
}

#[test]
fn component_names() {
    assert_eq!(PhysicalComponentEnum::Mux(Mux::new(1, 1, Orientation::East, Handedness::DownRight)).component_name(), "Mux");
    assert_eq!(PhysicalComponentEnum::Demux(Demux::new(1, 1, Orientation::East, Handedness::DownRight)).component_name(), "Demux");
    assert_eq!(PhysicalComponentEnum::Decoder(Decoder::new(1, Orientation::East, Handedness::DownRight)).component_name(), "Decoder");
    assert_eq!(PhysicalComponentEnum::Text(Text).component_name(), "Text");
    assert_eq!(PhysicalComponentEnum::Pin(Pin::new(1, true, Orientation::East)).component_name(), "Input");
    assert_eq!(PhysicalComponentEnum::Pin(Pin::new(1, false, Orientation::East)).component_name(), "Output");
}

#[test]
fn plexers_have_no_engine_function() {
    let mux = PhysicalComponentEnum::Mux(Mux::new(1, 1, Orientation::East, Handedness::DownRight));
    assert!(mux.init_engine().is_none());
    let not = PhysicalComponentEnum::Not(Not::new(1, Orientation::East));
    assert!(not.init_engine().is_some());
}
