use circuitsim_engine::bitarray::{BitArray, BitState};
use circuitsim_engine::engine::func::{Component, Gate, GateKind, Not, PortUpdate, RunContext, TriState};

/// A bit array from a list of 0/1 digits, first bit first.
fn bits(digits: &[u8]) -> BitArray {
    let states: Vec<BitState> = digits
        .iter()
        .map(|&d| if d == 0 { BitState::Low } else { BitState::High })
        .collect();
    BitArray::from_states(&states)
}

/// `n` floating bits.
fn z(n: u8) -> BitArray {
    BitArray::repeat(BitState::Imped, n)
}

/// `n` unknown bits.
fn x(n: u8) -> BitArray {
    BitArray::repeat(BitState::Unk, n)
}

#[test]
fn test_and_gate() {
    let gate = Gate::new(GateKind::And, 1, 2);
    let old_ports = [z(1); 3];
    let new_ports = [bits(&[0]), bits(&[1]), z(1)];

    let updates = gate.run(RunContext { old_ports: &old_ports, new_ports: &new_ports });

    assert_eq!(
        updates,
        vec![PortUpdate { index: 2, value: bits(&[0]) }],
        "Expected a single update with index=2 and value=0 (1 & 0 = 0)"
    );
}

#[test]
fn test_and_gate_multi_bit() {
    let gate = Gate::new(GateKind::And, 4, 2);
    let old_ports = [z(4); 3];
    let new_ports = [bits(&[1, 0, 1, 1]), bits(&[1, 1, 0, 0]), z(4)];

    let updates = gate.run(RunContext { old_ports: &old_ports, new_ports: &new_ports });

    assert_eq!(
        updates,
        vec![PortUpdate { index: 2, value: bits(&[1, 0, 0, 0]) }],
        "Expected a single update with index=2 and value=1000 (1011 & 1100 = 1000)"
    );
}

#[test]
fn test_and_gate_3input_4bit() {
    let gate = Gate::new(GateKind::And, 4, 3);
    let old_ports = [z(4); 4];
    let new_ports = [bits(&[1, 0, 1, 1]), bits(&[1, 1, 0, 0]), bits(&[1, 1, 1, 0]), z(4)];

    let updates = gate.run(RunContext { old_ports: &old_ports, new_ports: &new_ports });

    assert_eq!(
        updates,
        vec![PortUpdate { index: 3, value: bits(&[1, 0, 0, 0]) }],
        "Expected a single update with index=3 and value=1000 (1011 & 1100 & 1110 = 1000)"
    );
}

#[test]
fn test_or_gate() {
    let gate = Gate::new(GateKind::Or, 1, 2);
    let old_ports = [z(1); 3];
    let new_ports = [bits(&[0]), bits(&[1]), z(1)];

    let updates = gate.run(RunContext { old_ports: &old_ports, new_ports: &new_ports });

    assert_eq!(
        updates,
        vec![PortUpdate { index: 2, value: bits(&[1]) }],
        "Expected a single update with index=2 and value=1 (1 | 0 = 1)"
    );
}

#[test]
fn test_or_gate_multi_bit() {
    let gate = Gate::new(GateKind::Or, 4, 2);
    let old_ports = [z(4); 3];
    let new_ports = [bits(&[1, 0, 1, 1]), bits(&[1, 1, 0, 0]), z(4)];

    let updates = gate.run(RunContext { old_ports: &old_ports, new_ports: &new_ports });

    assert_eq!(
        updates,
        vec![PortUpdate { index: 2, value: bits(&[1, 1, 1, 1]) }],
        "Expected a single update with index=2 and value=1111 (1011 | 1100 = 1111)"
    );
}

#[test]
fn test_or_gate_3input_4bit() {
    let gate = Gate::new(GateKind::Or, 4, 3);
    let old_ports = [z(4); 4];
    let new_ports = [bits(&[1, 0, 1, 1]), bits(&[1, 1, 0, 0]), bits(&[0, 1, 1, 0]), z(4)];

    let updates = gate.run(RunContext { old_ports: &old_ports, new_ports: &new_ports });

    assert_eq!(
        updates,
        vec![PortUpdate { index: 3, value: bits(&[1, 1, 1, 1]) }],
        "Expected a single update with index=3 and value=1111 (1011 | 1100 | 0110 = 1111)"
    );
}

#[test]
fn test_xor_gate() {
    let gate = Gate::new(GateKind::Xor, 1, 2);
    let old_ports = [z(1); 3];
    let new_ports = [bits(&[0]), bits(&[1]), z(1)];

    let updates = gate.run(RunContext { old_ports: &old_ports, new_ports: &new_ports });

    assert_eq!(
        updates,
        vec![PortUpdate { index: 2, value: bits(&[1]) }],
        "Expected a single update with index=2 and value=1 (1 ^ 0 = 1)"
    );
}

#[test]
fn test_xor_gate_multi_bit() {
    let gate = Gate::new(GateKind::Xor, 4, 2);
    let old_ports = [z(4); 3];
    let new_ports = [bits(&[1, 0, 1, 1]), bits(&[1, 1, 0, 1]), z(4)];

    let updates = gate.run(RunContext { old_ports: &old_ports, new_ports: &new_ports });

    assert_eq!(
        updates,
        vec![PortUpdate { index: 2, value: bits(&[0, 1, 1, 0]) }],
        "Expected a single update with index=2 and value=0110 (1011 ^ 1101 = 0110)"
    );
}

#[test]
fn test_xor_gate_3input_4bit() {
    let gate = Gate::new(GateKind::Xor, 4, 3);
    let old_ports = [z(4); 4];
    let new_ports = [bits(&[1, 0, 1, 1]), bits(&[1, 1, 0, 1]), bits(&[0, 1, 1, 0]), z(4)];

    let updates = gate.run(RunContext { old_ports: &old_ports, new_ports: &new_ports });

    assert_eq!(
        updates,
        vec![PortUpdate { index: 3, value: bits(&[0, 0, 0, 0]) }],
        "Expected a single update with index=3 and value=0000 (1011 ^ 1101 ^ 0110 = 0000)"
    );
}

#[test]
fn test_nand_gate() {
    let gate = Gate::new(GateKind::Nand, 1, 2);
    let old_ports = [z(1); 3];
    let new_ports = [bits(&[0]), bits(&[1]), z(1)];

    let updates = gate.run(RunContext { old_ports: &old_ports, new_ports: &new_ports });

    assert_eq!(
        updates,
        vec![PortUpdate { index: 2, value: bits(&[1]) }],
        "Expected a single update with index=2 and value=1 (!(1 & 0) = 1)"
    );
}

#[test]
fn test_nand_gate_multi_bit() {
    let gate = Gate::new(GateKind::Nand, 4, 2);
    let old_ports = [z(4); 3];
    let new_ports = [bits(&[1, 0, 1, 1]), bits(&[1, 1, 0, 1]), z(4)];

    let updates = gate.run(RunContext { old_ports: &old_ports, new_ports: &new_ports });

    assert_eq!(
        updates,
        vec![PortUpdate { index: 2, value: bits(&[0, 1, 1, 0]) }],
        "Expected a single update with index=2 and value=0110 (!(1011 & 1101) = 0110)"
    );
}

#[test]
fn test_nand_gate_3input_4bit() {
    let gate = Gate::new(GateKind::Nand, 4, 3);
    let old_ports = [z(4); 4];
    let new_ports = [bits(&[1, 0, 1, 1]), bits(&[1, 1, 0, 1]), bits(&[1, 1, 1, 0]), z(4)];

    let updates = gate.run(RunContext { old_ports: &old_ports, new_ports: &new_ports });

    assert_eq!(
        updates,
        vec![PortUpdate { index: 3, value: bits(&[0, 1, 1, 1]) }],
        "Expected a single update with index=3 and value=0111 (!(1011 & 1101 & 1110) = 0111)"
    );
}

#[test]
fn test_nor_gate() {
    let gate = Gate::new(GateKind::Nor, 1, 2);
    let old_ports = [z(1); 3];
    let new_ports = [bits(&[0]), bits(&[1]), z(1)];

    let updates = gate.run(RunContext { old_ports: &old_ports, new_ports: &new_ports });

    assert_eq!(
        updates,
        vec![PortUpdate { index: 2, value: bits(&[0]) }],
        "Expected a single update with index=2 and value=0 (!(1 | 0) = 0)"
    );
}

#[test]
fn test_nor_gate_multi_bit() {
    let gate = Gate::new(GateKind::Nor, 4, 2);
    let old_ports = [z(4); 3];
    let new_ports = [bits(&[1, 0, 1, 1]), bits(&[1, 1, 0, 1]), z(4)];

    let updates = gate.run(RunContext { old_ports: &old_ports, new_ports: &new_ports });

    assert_eq!(
        updates,
        vec![PortUpdate { index: 2, value: bits(&[0, 0, 0, 0]) }],
        "Expected a single update with index=2 and value=0000 (!(1011 | 1101) = 0000)"
    );
}

#[test]
fn test_nor_gate_3input_4bit() {
    let gate = Gate::new(GateKind::Nor, 4, 3);
    let old_ports = [z(4); 4];
    let new_ports = [bits(&[1, 0, 1, 1]), bits(&[1, 1, 0, 1]), bits(&[0, 1, 1, 0]), z(4)];

    let updates = gate.run(RunContext { old_ports: &old_ports, new_ports: &new_ports });

    assert_eq!(
        updates,
        vec![PortUpdate { index: 3, value: bits(&[0, 0, 0, 0]) }],
        "Expected a single update with index=3 and value=0000 (!(1011 | 1101 | 0110) = 0000)"
    );
}

#[test]
fn test_xnor_gate() {
    let gate = Gate::new(GateKind::Xnor, 1, 2);
    let old_ports = [z(1); 3];
    let new_ports = [bits(&[0]), bits(&[1]), z(1)];

    let updates = gate.run(RunContext { old_ports: &old_ports, new_ports: &new_ports });

    assert_eq!(
        updates,
        vec![PortUpdate { index: 2, value: bits(&[0]) }],
        "Expected a single update with index=2 and value=0 (!(1 ^ 0) = 0)"
    );
}

#[test]
fn test_xnor_gate_multi_bit() {
    let gate = Gate::new(GateKind::Xnor, 4, 2);
    let old_ports = [z(4); 3];
    let new_ports = [bits(&[1, 0, 1, 1]), bits(&[1, 1, 0, 1]), z(4)];

    let updates = gate.run(RunContext { old_ports: &old_ports, new_ports: &new_ports });

    assert_eq!(
        updates,
        vec![PortUpdate { index: 2, value: bits(&[1, 0, 0, 1]) }],
        "Expected a single update with index=2 and value=1001 (!(1011 ^ 1101) = 1001)"
    );
}

#[test]
fn test_xnor_gate_3input_4bit() {
    let gate = Gate::new(GateKind::Xnor, 4, 3);
    let old_ports = [z(4); 4];
    let new_ports = [bits(&[1, 0, 1, 1]), bits(&[1, 1, 0, 1]), bits(&[0, 1, 1, 0]), z(4)];

    let updates = gate.run(RunContext { old_ports: &old_ports, new_ports: &new_ports });

    assert_eq!(
        updates,
        vec![PortUpdate { index: 3, value: bits(&[1, 1, 1, 1]) }],
        "Expected a single update with index=3 and value=1111 (!(1011 ^ 1101 ^ 0110) = 1111)"
    );
}

#[test]
fn test_not_gate() {
    let gate = Not::new(1);
    let old_ports = [z(1); 2];
    let new_ports = [bits(&[0]), z(1)];

    let updates = gate.run(RunContext { old_ports: &old_ports, new_ports: &new_ports });

    assert_eq!(
        updates,
        vec![PortUpdate { index: 1, value: bits(&[1]) }],
        "Expected a single update with index=1 and value=1 (!0 = 1)"
    );
}

#[test]
fn test_not_gate_multi_bit() {
    let gate = Not::new(4);
    let old_ports = [z(4); 2];
    let new_ports = [bits(&[1, 0, 1, 1]), z(4)];

    let updates = gate.run(RunContext { old_ports: &old_ports, new_ports: &new_ports });

    assert_eq!(
        updates,
        vec![PortUpdate { index: 1, value: bits(&[0, 1, 0, 0]) }],
        "Expected a single update with index=1 and value=0100 (!1011 = 0100)"
    );
}

#[test]
fn test_tristate_off() {
    let gate = TriState::new(1);
    let in_a = bits(&[0]);
    let old_ports = [z(1); 3];
    let new_ports = [bits(&[0]), in_a, z(1)];

    let updates = gate.run(RunContext { old_ports: &old_ports, new_ports: &new_ports });

    assert_eq!(updates, vec![PortUpdate { index: 2, value: z(1) }]);
}

#[test]
fn test_tristate_on() {
    let gate = TriState::new(1);
    let in_a = bits(&[0]);
    let old_ports = [z(1); 3];
    let new_ports = [bits(&[1]), in_a, z(1)];

    let updates = gate.run(RunContext { old_ports: &old_ports, new_ports: &new_ports });

    assert_eq!(updates, vec![PortUpdate { index: 2, value: in_a }]);
}

#[test]
fn test_tristate_multi_bit_off() {
    let gate = TriState::new(4);
    let in_a = bits(&[1, 0, 1, 1]);
    let old_ports = [z(1), z(4), z(4)];
    let new_ports = [bits(&[0]), in_a, z(4)];

    let updates = gate.run(RunContext { old_ports: &old_ports, new_ports: &new_ports });

    assert_eq!(updates, vec![PortUpdate { index: 2, value: z(4) }]);
}

#[test]
fn test_tristate_multi_bit_on() {
    let gate = TriState::new(4);
    let in_a = bits(&[1, 0, 1, 1]);
    let old_ports = [z(1), z(4), z(4)];
    let new_ports = [bits(&[1]), in_a, z(4)];

    let updates = gate.run(RunContext { old_ports: &old_ports, new_ports: &new_ports });

    assert_eq!(updates, vec![PortUpdate { index: 2, value: in_a }]);
}

#[test]
fn tristate_unknown_enable_gives_unknown() {
    let gate = TriState::new(4);
    let old_ports = [z(1), z(4), z(4)];
    let new_ports = [x(1), bits(&[1, 0, 1, 1]), z(4)];

    let updates = gate.run(RunContext { old_ports: &old_ports, new_ports: &new_ports });

    assert_eq!(updates, vec![PortUpdate { index: 2, value: x(4) }]);
}

#[test]
fn and_gate_floating_input_low_dominates() {
    // A driven low decides an AND; a floating input otherwise gives unknown.
    let gate = Gate::new(GateKind::And, 2, 2);
    let old_ports = [z(2); 3];
    let a = BitArray::from_states(&[BitState::Imped, BitState::Imped]);
    let b = bits(&[0, 1]);
    let new_ports = [a, b, z(2)];

    let updates = gate.run(RunContext { old_ports: &old_ports, new_ports: &new_ports });

    let expected = BitArray::from_states(&[BitState::Low, BitState::Unk]);
    assert_eq!(updates, vec![PortUpdate { index: 2, value: expected }]);
}

#[test]
fn gate_new_clamps_parameters() {
    let gate = Gate::new(GateKind::Or, 0, 1);
    assert_eq!(gate.bitsize(), 1);
    assert_eq!(gate.n_inputs(), 2);
    assert_eq!(gate.kind(), GateKind::Or);
    let gate = Gate::new(GateKind::Or, 200, 200);
    assert_eq!(gate.bitsize(), 64);
    assert_eq!(gate.n_inputs(), 64);
}

#[test]
fn gate_kind_names() {
    assert_eq!(GateKind::And.name(), "And");
    assert_eq!(GateKind::Or.name(), "Or");
    assert_eq!(GateKind::Xor.name(), "Xor");
    assert_eq!(GateKind::Nand.name(), "Nand");
    assert_eq!(GateKind::Nor.name(), "Nor");
    assert_eq!(GateKind::Xnor.name(), "Xnor");
}
