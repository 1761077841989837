use circuitsim_engine::bitarray::{BitArray, BitState};
use circuitsim_engine::engine::func::{
    Component, PortProperties, PortType, PortUpdate, RunContext, Splitter, SplitterConfig,
    floating_ports, splitter_ports_range, splitter_ports_slice,
};

/// A bit array from a list of 0/1 digits, first bit first.
fn bits(digits: &[u8]) -> BitArray {
    let states: Vec<BitState> = digits
        .iter()
        .map(|&d| if d == 0 { BitState::Low } else { BitState::High })
        .collect();
    BitArray::from_states(&states)
}

fn z(n: u8) -> BitArray {
    BitArray::repeat(BitState::Imped, n)
}

fn alternating(bitsize: u8) -> BitArray {
    let states: Vec<BitState> = (0..bitsize)
        .map(|i| if i % 2 == 0 { BitState::High } else { BitState::Low })
        .collect();
    BitArray::from_states(&states)
}

fn assert_port_updates_eq(mut actual: Vec<PortUpdate>, mut expected: Vec<PortUpdate>, msg: &str) {
    actual.sort_by_key(|u| u.index);
    expected.sort_by_key(|u| u.index);

    assert_eq!(actual, expected, "{msg}");
}

fn identity_config(bitsize: u8) -> SplitterConfig {
    SplitterConfig::new(splitter_ports_range(bitsize), bitsize, bitsize)
}

// ---------- SplitterConfig::new validation ----------

#[test]
fn config_rejects_leg_out_of_range() {
    let a = splitter_ports_slice(&[Some(5)]);
    let actual_cfg = SplitterConfig::new(a, 2, 1);

    let e = splitter_ports_slice(&[None]);
    let expected_cfg = SplitterConfig::new(e, 2, 1);

    assert_eq!(actual_cfg, expected_cfg);
}

#[test]
fn config_rejects_assignment_beyond_bitsize() {
    let a = splitter_ports_slice(&[Some(0), Some(0), None, Some(1)]);
    let actual_cfg = SplitterConfig::new(a, 2, 2);

    let e = splitter_ports_slice(&[Some(0), Some(0), None, None]);
    let expected_cfg = SplitterConfig::new(e, 2, 2);

    assert_eq!(actual_cfg, expected_cfg);
}

// ---------- identity split ----------

#[test]
fn test_splitter_split_identity() {
    for bitsize in BitArray::MIN_BITSIZE..=BitArray::MAX_BITSIZE {
        let config = identity_config(bitsize);
        let splitter = Splitter::new(config);
        let props = splitter.ports();

        assert_eq!(props.len(), 1 + bitsize as usize);
        assert_eq!(props[0], PortProperties { ty: PortType::Inout, bitsize });
        assert_eq!(
            props[1..],
            vec![PortProperties { ty: PortType::Inout, bitsize: 1 }; bitsize as usize]
        );

        let old_ports = floating_ports(&props);
        let mut new_ports = floating_ports(&props);

        let joined = alternating(bitsize);
        assert!(new_ports[0].replace(joined).is_ok());

        let actual = splitter.run(RunContext { old_ports: &old_ports, new_ports: &new_ports });
        let mut expected: Vec<_> = joined
            .to_states()
            .into_iter()
            .enumerate()
            .map(|(i, st)| PortUpdate { index: 1 + i, value: BitArray::from_state(st) })
            .collect();
        expected.push(PortUpdate { index: 0, value: z(bitsize) });

        assert_port_updates_eq(actual, expected, "identity splitter should split each bit to its own leg");
    }
}

#[test]
fn test_splitter_join_identity() {
    for bitsize in BitArray::MIN_BITSIZE..=BitArray::MAX_BITSIZE {
        let config = identity_config(bitsize);
        let splitter = Splitter::new(config);
        let props = splitter.ports();

        let old_ports = floating_ports(&props);
        let mut new_ports = floating_ports(&props);

        let joined = alternating(bitsize);
        let split: Vec<_> = joined.to_states().into_iter().map(BitArray::from_state).collect();

        for (p, arr) in std::iter::zip(new_ports[1..].iter_mut(), split) {
            assert!(p.replace(arr).is_ok());
        }

        let actual = splitter.run(RunContext { old_ports: &old_ports, new_ports: &new_ports });
        let mut expected = vec![PortUpdate { index: 0, value: joined }];
        expected.extend((0..bitsize).map(|i| PortUpdate { index: 1 + i as usize, value: z(1) }));
        assert_port_updates_eq(actual, expected, "identity splitter should rejoin legs into the bus");
    }
}

// ---------- uneven split ----------

#[test]
fn test_splitter_split_uneven_legs() {
    // 5-bit bus: leg 0 = bits [0,1,2], leg 1 = bits [3,4]
    let a = splitter_ports_slice(&[Some(0), Some(0), Some(0), Some(1), Some(1)]);
    let config = SplitterConfig::new(a, 2, 5);
    let splitter = Splitter::new(config);
    let props = splitter.ports();

    assert_eq!(props.len(), 3);
    assert_eq!(props[0], PortProperties { ty: PortType::Inout, bitsize: 5 });
    assert_eq!(props[1], PortProperties { ty: PortType::Inout, bitsize: 3 });
    assert_eq!(props[2], PortProperties { ty: PortType::Inout, bitsize: 2 });

    let old_ports = floating_ports(&props);
    let mut new_ports = floating_ports(&props);

    let joined = alternating(5);
    assert!(new_ports[0].replace(joined).is_ok());

    let actual = splitter.run(RunContext { old_ports: &old_ports, new_ports: &new_ports });

    let expected = vec![
        PortUpdate { index: 1, value: joined.subslice(0, 3) },
        PortUpdate { index: 2, value: joined.subslice(3, 5) },
        PortUpdate { index: 0, value: z(5) },
    ];

    assert_port_updates_eq(actual, expected, "uneven-leg join should reassemble the bus correctly");
}

#[test]
fn test_splitter_join_uneven_legs() {
    let a = splitter_ports_slice(&[Some(0), Some(0), Some(0), Some(1), Some(1)]);
    let config = SplitterConfig::new(a, 2, 5);
    let splitter = Splitter::new(config);
    let props = splitter.ports();

    let old_ports = floating_ports(&props);
    let mut new_ports = floating_ports(&props);

    let joined = alternating(5);
    let leg0 = joined.subslice(0, 3);
    let leg1 = joined.subslice(3, 5);

    assert!(new_ports[1].replace(leg0).is_ok());
    assert!(new_ports[2].replace(leg1).is_ok());

    let actual = splitter.run(RunContext { old_ports: &old_ports, new_ports: &new_ports });
    let expected = vec![
        PortUpdate { index: 0, value: joined },
        PortUpdate { index: 1, value: z(3) },
        PortUpdate { index: 2, value: z(2) },
    ];
    assert_port_updates_eq(actual, expected, "uneven-leg join should reassemble the bus correctly");
}

// ---------- floating bits ----------

#[test]
fn test_splitter_join_preserves_floating_bit() {
    // 3-bit bus, bit 1 unassigned (floating). leg 0 = bit 0, leg 1 = bit 2.
    let a = splitter_ports_slice(&[Some(0), None, Some(1)]);
    let config = SplitterConfig::new(a, 2, 3);
    let splitter = Splitter::new(config);
    let props = splitter.ports();

    assert_eq!(props[0], PortProperties { ty: PortType::Inout, bitsize: 3 });
    assert_eq!(props[1], PortProperties { ty: PortType::Inout, bitsize: 1 });
    assert_eq!(props[2], PortProperties { ty: PortType::Inout, bitsize: 1 });

    let mut old_ports = floating_ports(&props);
    // Seed the joined port's bit 1 before any leg activity,
    // so we can confirm it survives a leg-driven update untouched.
    let seeded = bits(&[0, 1, 0]);
    assert!(old_ports[0].replace(seeded).is_ok());

    let mut new_ports = old_ports.clone();
    assert!(new_ports[1].replace(bits(&[1])).is_ok());
    assert!(new_ports[2].replace(bits(&[1])).is_ok());

    let actual = splitter.run(RunContext { old_ports: &old_ports, new_ports: &new_ports });

    let expected_joined = bits(&[1, 1, 1]);
    let expected = vec![
        PortUpdate { index: 0, value: expected_joined },
        PortUpdate { index: 1, value: z(1) },
        PortUpdate { index: 2, value: z(1) },
    ];

    assert_port_updates_eq(
        actual,
        expected,
        "floating bit 1 should retain its prior value across a leg-driven join",
    );
}

// ---------- further cases ----------

#[test]
fn splitter_idle_when_nothing_changes() {
    let config = identity_config(4);
    let splitter = Splitter::new(config);
    let props = splitter.ports();
    let ports = floating_ports(&props);
    let actual = splitter.run(RunContext { old_ports: &ports, new_ports: &ports });
    assert!(actual.is_empty());
}

#[test]
fn splitter_skips_inactive_legs() {
    // Leg 0 is unused; leg 1 holds bits 0 and 1; leg 2 holds bit 2.
    let a = splitter_ports_slice(&[Some(1), Some(1), Some(2)]);
    let config = SplitterConfig::new(a, 3, 3);
    assert_eq!(config.get_num_active_legs(), 2);
    assert_eq!(config.get_num_legs(), 3);
    assert_eq!(config.get_bitsize(), 3);
    let splitter = Splitter::new(config);
    let props = splitter.ports();
    assert_eq!(props.len(), 3);
    assert_eq!(props[1], PortProperties { ty: PortType::Inout, bitsize: 2 });
    assert_eq!(props[2], PortProperties { ty: PortType::Inout, bitsize: 1 });

    // Join: the active legs are ports 1 and 2, in leg order.
    let old_ports = floating_ports(&props);
    let mut new_ports = floating_ports(&props);
    assert!(new_ports[1].replace(bits(&[1, 0])).is_ok());
    assert!(new_ports[2].replace(bits(&[1])).is_ok());
    let actual = splitter.run(RunContext { old_ports: &old_ports, new_ports: &new_ports });
    let expected = vec![
        PortUpdate { index: 0, value: bits(&[1, 0, 1]) },
        PortUpdate { index: 1, value: z(2) },
        PortUpdate { index: 2, value: z(1) },
    ];
    assert_eq!(actual, expected);
}

#[test]
fn config_clamps_counts() {
    let config = SplitterConfig::new(splitter_ports_range(0), 0, 0);
    assert_eq!(config.get_num_legs(), 1);
    assert_eq!(config.get_bitsize(), 1);
    assert_eq!(config.get_num_active_legs(), 0);
    let config = SplitterConfig::new(splitter_ports_range(100), 100, 100);
    assert_eq!(config.get_num_legs(), 64);
    assert_eq!(config.get_bitsize(), 64);
    assert_eq!(config.get_num_active_legs(), 64);
}

#[test]
fn ports_slice_truncates_and_pads() {
    let long: Vec<Option<u8>> = (0..70u8).map(Some).collect();
    let r = splitter_ports_slice(&long);
    assert_eq!(r[63], Some(63));
    let r = splitter_ports_slice(&[Some(3u8)]);
    assert_eq!(r[0], Some(3));
    assert_eq!(r[1], None);
    let r = splitter_ports_range(2);
    assert_eq!(r[0], Some(0));
    assert_eq!(r[1], Some(1));
    assert_eq!(r[2], None);
}
