use circuitsim_engine::bitarray::{BitArray, BitState};
use circuitsim_engine::glue::{
    ComponentArgsError, CreateComponentArgs, JsKey, KeyKind, KeyKindMismatch, Location,
    LocationOutOfRange, wire_between,
};
use circuitsim_engine::middle_end::wire::Wire;
use circuitsim_engine::middle_end::func::{
    Constant, Decoder, Demux, Gate, GateKind, Handedness, Mux, Not, Orientation, PhysicalComponentEnum,
    Pin, Probe, Splitter, TriState, Tunnel,
};
use circuitsim_engine::middle_end::AddComponentArgs;

/// Arguments of the given type at (3, 4), with nothing else given.
fn args(ty: &str) -> CreateComponentArgs {
    CreateComponentArgs {
        component_type: ty.to_string(),
        label: None,
        label_orientation: None,
        pos: Location { x: 3, y: 4 },
        bitsize: None,
        inputs: None,
        orientation: None,
        constant_value: None,
        is_input: None,
        selsize: None,
        text_content: None,
        handedness: None,
        port_assignments: None,
        num_legs: None,
    }
}

fn inner(a: &CreateComponentArgs) -> PhysicalComponentEnum {
    AddComponentArgs::try_from(a).expect("arguments should be accepted").inner
}

#[test]
fn key_raw_roundtrip() {
    let raw: u64 = 0x0000_0007_0000_0002;
    let key = JsKey::from_raw(KeyKind::Component, raw);
    assert_eq!(key.kind, KeyKind::Component);
    assert_eq!(key.id, (7, 2));
    assert!(key.__v_skip);
    assert_eq!(key.to_raw(KeyKind::Component), Ok(raw));
}

#[test]
fn key_halves_are_high_then_low() {
    let key = JsKey::from_raw(KeyKind::Value, u64::MAX - 1);
    assert_eq!(key.id, (u32::MAX, u32::MAX - 1));
    let key = JsKey { kind: KeyKind::Circuit, id: (1, 0), __v_skip: false };
    assert_eq!(key.to_raw(KeyKind::Circuit), Ok(1u64 << 32));
}

#[test]
fn key_of_wrong_kind_is_refused() {
    let key = JsKey::from_raw(KeyKind::Circuit, 5);
    assert_eq!(
        key.to_raw(KeyKind::Value),
        Err(KeyKindMismatch { expected: KeyKind::Value, found: KeyKind::Circuit })
    );
}

#[test]
fn location_roundtrip() {
    let l = Location::from_coord((10, 20));
    assert_eq!(l, Location { x: 10, y: 20 });
    assert_eq!(l.to_coord(), Ok((10, 20)));
    let far = Location::from_coord((i32::MAX as u32, 0));
    assert_eq!(far.to_coord(), Ok((i32::MAX as u32, 0)));
}

#[test]
fn negative_location_is_no_coord() {
    assert_eq!(Location { x: -1, y: 0 }.to_coord(), Err(LocationOutOfRange));
    assert_eq!(Location { x: 0, y: -5 }.to_coord(), Err(LocationOutOfRange));
}

#[test]
fn and_gate_defaults() {
    let a = args("AND");
    let r = AddComponentArgs::try_from(&a).unwrap();
    assert_eq!(r.inner, PhysicalComponentEnum::Gate(Gate::new(GateKind::And, 1, 2, Orientation::East)));
    assert_eq!(r.label, "");
    assert_eq!(r.label_location, Orientation::East);
    assert_eq!(r.origin, (3, 4));
}

#[test]
fn every_gate_type() {
    for (ty, kind) in [
        ("AND", GateKind::And),
        ("OR", GateKind::Or),
        ("NAND", GateKind::Nand),
        ("NOR", GateKind::Nor),
        ("XOR", GateKind::Xor),
        ("XNOR", GateKind::Xnor),
    ] {
        let mut a = args(ty);
        a.bitsize = Some(8);
        a.inputs = Some(5);
        a.orientation = Some(Orientation::West);
        assert_eq!(inner(&a), PhysicalComponentEnum::Gate(Gate::new(kind, 8, 5, Orientation::West)));
    }
}

#[test]
fn pin_and_probe() {
    let mut a = args("PIN");
    a.is_input = Some(true);
    a.bitsize = Some(4);
    assert_eq!(inner(&a), PhysicalComponentEnum::Pin(Pin::new(4, true, Orientation::East)));

    let a = args("PIN");
    assert_eq!(inner(&a), PhysicalComponentEnum::Pin(Pin::new(1, false, Orientation::East)));

    let mut a = args("PROBE");
    a.orientation = Some(Orientation::North);
    assert_eq!(inner(&a), PhysicalComponentEnum::Probe(Probe::new(Orientation::North, 1)));
}

#[test]
fn constant_value_is_read_and_resized() {
    let mut a = args("CONSTANT");
    a.bitsize = Some(4);
    a.constant_value = Some("101".to_string());
    let value = BitArray::from_states(&[BitState::High, BitState::Low, BitState::High, BitState::Low]);
    assert_eq!(inner(&a), PhysicalComponentEnum::Constant(Constant::new(value, Orientation::East)));

    let a = args("CONSTANT");
    assert_eq!(
        inner(&a),
        PhysicalComponentEnum::Constant(Constant::new(BitArray::from_state(BitState::Low), Orientation::East))
    );
}

#[test]
fn unreadable_constant_is_refused() {
    let mut a = args("CONSTANT");
    a.constant_value = Some("12".to_string());
    assert_eq!(AddComponentArgs::try_from(&a).err(), Some(ComponentArgsError::ConstantValue));

    // The constant is read before the type is looked at.
    let mut a = args("NOT A TYPE");
    a.constant_value = Some("hello".to_string());
    assert_eq!(AddComponentArgs::try_from(&a).err(), Some(ComponentArgsError::ConstantValue));
}

#[test]
fn unknown_type_is_refused() {
    let a = args("FLIPFLOP");
    assert_eq!(AddComponentArgs::try_from(&a).err(), Some(ComponentArgsError::UnknownComponentType));
    let a = args("and");
    assert_eq!(AddComponentArgs::try_from(&a).err(), Some(ComponentArgsError::UnknownComponentType));
}

#[test]
fn negative_position_is_refused() {
    let mut a = args("NOT");
    a.pos = Location { x: -3, y: 4 };
    assert_eq!(AddComponentArgs::try_from(&a).err(), Some(ComponentArgsError::LocationOutOfBounds));
}

#[test]
fn splitter_defaults() {
    let a = args("SPLITTER");
    let mut asg = [None; 64];
    asg[0] = Some(0);
    asg[1] = Some(1);
    let expected = Splitter::new(asg, 2, 2, Orientation::East, Handedness::TopLeft);
    assert_eq!(inner(&a), PhysicalComponentEnum::Splitter(expected));
}

#[test]
fn splitter_given_assignments() {
    let mut a = args("SPLITTER");
    a.bitsize = Some(3);
    a.num_legs = Some(3);
    a.handedness = Some(Handedness::DownRight);
    a.port_assignments = Some(vec![Some(2), None, Some(0)]);
    let mut asg = [None; 64];
    asg[0] = Some(2);
    asg[2] = Some(0);
    let expected = Splitter::new(asg, 3, 3, Orientation::East, Handedness::DownRight);
    assert_eq!(inner(&a), PhysicalComponentEnum::Splitter(expected));
}

#[test]
fn plexers_take_selector_size() {
    let mut a = args("MUX");
    a.bitsize = Some(8);
    a.selsize = Some(2);
    assert_eq!(
        inner(&a),
        PhysicalComponentEnum::Mux(Mux::new(8, 2, Orientation::East, Handedness::DownRight))
    );
    let a = args("DEMUX");
    assert_eq!(
        inner(&a),
        PhysicalComponentEnum::Demux(Demux::new(1, 1, Orientation::East, Handedness::DownRight))
    );
    let mut a = args("DECODER");
    a.handedness = Some(Handedness::TopLeft);
    assert_eq!(
        inner(&a),
        PhysicalComponentEnum::Decoder(Decoder::new(1, Orientation::East, Handedness::TopLeft))
    );
}

#[test]
fn simple_types() {
    assert!(matches!(inner(&args("POWER")), PhysicalComponentEnum::Power(_)));
    assert!(matches!(inner(&args("GROUND")), PhysicalComponentEnum::Ground(_)));
    assert!(matches!(inner(&args("TEXT")), PhysicalComponentEnum::Text(_)));
    assert_eq!(inner(&args("TUNNEL")), PhysicalComponentEnum::Tunnel(Tunnel::new(Orientation::East)));
    assert_eq!(inner(&args("NOT")), PhysicalComponentEnum::Not(Not::new(1, Orientation::East)));
    assert_eq!(inner(&args("BUFFER")), PhysicalComponentEnum::TriState(TriState::new(1, Orientation::East)));
}

#[test]
fn label_and_label_orientation() {
    let mut a = args("TUNNEL");
    a.label = Some("clk".to_string());
    a.label_orientation = Some(Orientation::South);
    let r = AddComponentArgs::try_from(&a).unwrap();
    assert_eq!(r.label, "clk");
    assert_eq!(r.label_location, Orientation::South);
}

#[test]
fn wire_between_locations() {
    let w = wire_between(Location { x: 4, y: 1 }, Location { x: 1, y: 1 }).unwrap();
    assert_eq!(w, Wire::from_endpoints((1, 1), (4, 1)).unwrap());
    assert!(wire_between(Location { x: 1, y: 1 }, Location { x: 2, y: 2 }).is_none());
    assert!(wire_between(Location { x: -1, y: 1 }, Location { x: 2, y: 1 }).is_none());
}
