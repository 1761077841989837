use std::collections::{BTreeSet, HashMap, HashSet};

use circuitsim_engine::engine::ValueKey;
use circuitsim_engine::middle_end::wire::Wire;
use circuitsim_engine::middle_end::wire::wire_set::{Keygen, MeshKey, WireSet};
use circuitsim_engine::middle_end::links::{Linking, add_component_ports, remove_component_ports};
use circuitsim_engine::middle_end::{ComponentKey, ReprEditErr, TunnelSymbol};

type Coord = (u32, u32);

fn w(p: Coord, q: Coord) -> Wire {
    Wire::from_endpoints(p, q).expect("points should be 1D")
}

fn minmax(a: MeshKey, b: MeshKey) -> (MeshKey, MeshKey) {
    if a <= b { (a, b) } else { (b, a) }
}

fn j(c: Coord) -> MeshKey {
    MeshKey::WireJoint(c)
}

/// Asserts the nodes of the graph are exactly the given joints.
fn assert_graph_nodes(ws: &WireSet, nodes: &[Coord]) {
    let actual: BTreeSet<MeshKey> = ws.mesh_nodes().into_iter().collect();
    let expected: BTreeSet<MeshKey> = nodes.iter().map(|&c| j(c)).collect();
    assert_eq!(actual, expected, "nodes in graph should match");
}

/// Asserts the edges of each key are exactly the given ones.
fn assert_graph_edges(ws: &WireSet, all_edges: Vec<(ValueKey, Vec<(MeshKey, MeshKey)>)>) {
    let expected: HashMap<ValueKey, Vec<(MeshKey, MeshKey)>> = all_edges.into_iter().collect();
    let mut actual: HashMap<ValueKey, Vec<(MeshKey, MeshKey)>> = HashMap::new();
    for (a, b, k) in ws.mesh_edges() {
        actual.entry(k).or_default().push(minmax(a, b));
    }
    for (k, mut edges) in actual {
        let mut exp: Vec<_> = expected[&k].iter().map(|&(a, b)| minmax(a, b)).collect();
        edges.sort();
        exp.sort();
        assert_eq!(edges, exp, "edges for key {k:?} should match");
    }
}

/// Asserts the edges, grouped by key, are exactly the given groups.
fn assert_graph_edges_unkeyed(ws: &WireSet, groups: Vec<Vec<(MeshKey, MeshKey)>>) {
    let expected: HashSet<Vec<(MeshKey, MeshKey)>> = groups
        .into_iter()
        .map(|g| {
            let mut v: Vec<_> = g.into_iter().map(|(a, b)| minmax(a, b)).collect();
            v.sort();
            v
        })
        .collect();
    let mut by_key: HashMap<ValueKey, Vec<(MeshKey, MeshKey)>> = HashMap::new();
    for (a, b, k) in ws.mesh_edges() {
        by_key.entry(k).or_default().push(minmax(a, b));
    }
    let actual: HashSet<Vec<(MeshKey, MeshKey)>> = by_key
        .into_values()
        .map(|mut v| {
            v.sort();
            v
        })
        .collect();
    assert_eq!(actual, expected, "edges did not match");
}

fn joints(edges: &[(Coord, Coord)]) -> Vec<(MeshKey, MeshKey)> {
    edges.iter().map(|&(a, b)| (j(a), j(b))).collect()
}

/// Asserts the wires held are exactly the given ones.
fn assert_range_map(ws: &WireSet, edges: &[(Coord, Coord)]) {
    let actual: HashSet<Wire> = ws.wires().into_iter().collect();
    let expected: HashSet<Wire> = edges.iter().map(|&(p, q)| w(p, q)).collect();
    assert_eq!(actual.len(), ws.wires().len());
    assert_eq!(actual, expected, "expected wires to match");
}

#[test]
fn wireset_add_basic() {
    let mut keygen = Keygen::new();
    let mut ws = WireSet::default();

    let nodes = [(0, 0), (0, 4), (4, 4), (4, 10), (0, 10)];
    let [n00, n01, n11, n12, n02] = nodes;

    let key = ws.add_wire(w(n00, n01), &mut keygen)
        .expect("Expected first wire add to be successful and require no joins");
    assert_eq!(ws.add_wire(w(n01, n11), &mut keygen), Some(key));
    assert_eq!(ws.add_wire(w(n11, n12), &mut keygen), Some(key));
    assert_eq!(ws.add_wire(w(n01, n02), &mut keygen), Some(key));

    assert_graph_nodes(&ws, &nodes);
    let edges = [(n00, n01), (n01, n11), (n11, n12), (n01, n02)];
    assert_graph_edges(&ws, vec![(key, joints(&edges))]);
    assert_range_map(&ws, &edges);
}

#[test]
fn wireset_add_duplicate() {
    let mut keygen = Keygen::new();
    let mut ws = WireSet::default();

    assert!(ws.add_wire(w((0, 0), (0, 1)), &mut keygen).is_some());
    assert!(ws.add_wire(w((0, 0), (0, 1)), &mut keygen).is_none());
}

#[test]
fn wireset_add_join() {
    let mut keygen = Keygen::new();
    let mut ws = WireSet::default();

    let nodes = [(2, 2), (2, 3), (1, 3), (3, 4), (3, 3), (4, 3)];
    let [n00, n01, n02, n10, n11, n12] = nodes;

    let k0 = ws.add_wire(w(n00, n01), &mut keygen)
        .expect("Expected first wire add to be successful and require no joins");
    assert_eq!(ws.add_wire(w(n01, n02), &mut keygen), Some(k0));

    let k1 = ws.add_wire(w(n10, n11), &mut keygen)
        .expect("Expected second wire add to be successful and require no joins");
    assert_eq!(ws.add_wire(w(n11, n12), &mut keygen), Some(k1));

    assert_graph_nodes(&ws, &nodes);
    let edges = [(n00, n01), (n01, n02), (n10, n11), (n11, n12)];
    assert_graph_edges(&ws, vec![(k0, joints(&edges[0..2])), (k1, joints(&edges[2..4]))]);
    assert_range_map(&ws, &edges);

    let join_key = ws.add_wire(w(n01, n11), &mut keygen).expect("Expected wire addition to succeed");

    assert_graph_nodes(&ws, &nodes);
    let all = [(n00, n01), (n01, n02), (n10, n11), (n11, n12), (n01, n11)];
    assert_graph_edges(&ws, vec![(join_key, joints(&all))]);
    assert_eq!(ws.mesh_edges().len(), 5);
    assert_range_map(&ws, &all);
}

#[test]
fn wireset_add_extend_wire() {
    let mut keygen = Keygen::new();
    let mut ws = WireSet::default();

    let [n00, n01, n02, n03, n04, n05, n13] = [(1, 1), (3, 1), (5, 1), (7, 1), (9, 1), (11, 1), (7, 3)];

    let key = ws.add_wire(w(n01, n02), &mut keygen)
        .expect("Expected first wire add to be successful and require no joins");
    assert_eq!(ws.add_wire(w(n02, n03), &mut keygen), Some(key));
    assert_eq!(ws.add_wire(w(n00, n01), &mut keygen), Some(key));

    assert_graph_nodes(&ws, &[n00, n03]);
    assert_graph_edges(&ws, vec![(key, joints(&[(n00, n03)]))]);
    assert_range_map(&ws, &[(n00, n03)]);

    assert_eq!(ws.add_wire(w(n13, n03), &mut keygen), Some(key));
    assert_eq!(ws.add_wire(w(n03, n04), &mut keygen), Some(key));
    assert_eq!(ws.add_wire(w(n04, n05), &mut keygen), Some(key));

    assert_graph_nodes(&ws, &[n00, n03, n13, n05]);
    let edges = [(n00, n03), (n03, n13), (n03, n05)];
    assert_graph_edges(&ws, vec![(key, joints(&edges))]);
    assert_range_map(&ws, &edges);
}

#[test]
fn wireset_add_subset() {
    let mut keygen = Keygen::new();
    let mut ws = WireSet::default();

    let [n00, n01, n02, n03] = [(1, 1), (3, 1), (5, 1), (7, 1)];

    let key = ws.add_wire(w(n00, n02), &mut keygen)
        .expect("Expected first wire add to be successful and require no joins");
    assert_eq!(ws.add_wire(w(n01, n03), &mut keygen), Some(key));
    assert!(ws.add_wire(w(n00, n03), &mut keygen).is_none());
    assert!(ws.add_wire(w(n00, n02), &mut keygen).is_none());

    assert_graph_nodes(&ws, &[n00, n03]);
    assert_graph_edges(&ws, vec![(key, joints(&[(n00, n03)]))]);
    assert_range_map(&ws, &[(n00, n03)]);
}

#[test]
fn wireset_add_split_wire() {
    let mut keygen = Keygen::new();
    let mut ws = WireSet::default();

    let [n00, n01, n02, n11] = [(1, 1), (3, 1), (5, 1), (3, 3)];

    let key = ws.add_wire(w(n00, n02), &mut keygen)
        .expect("Expected first wire add to be successful and require no joins");
    assert_eq!(ws.add_wire(w(n01, n11), &mut keygen), Some(key));

    assert_graph_nodes(&ws, &[n00, n01, n02, n11]);
    let edges = [(n00, n01), (n01, n02), (n01, n11)];
    assert_graph_edges(&ws, vec![(key, joints(&edges))]);
    assert_range_map(&ws, &edges);
}

#[test]
fn wireset_add_draw_along() {
    let mut keygen = Keygen::new();
    let mut ws = WireSet::default();

    let [n00, n01, n02, n11] = [(1, 1), (3, 1), (5, 1), (3, 3)];

    let key = ws.add_wire(w(n01, n11), &mut keygen)
        .expect("Expected first wire add to be successful and require no joins");
    assert_eq!(ws.add_wire(w(n00, n02), &mut keygen), Some(key));

    assert_graph_nodes(&ws, &[n00, n01, n02, n11]);
    let edges = [(n00, n01), (n01, n02), (n01, n11)];
    assert_graph_edges(&ws, vec![(key, joints(&edges))]);
    assert_range_map(&ws, &edges);
}

#[test]
fn wireset_remove_basic() {
    let mut keygen = Keygen::new();
    let mut ws = WireSet::default();

    let [n00, n01, n11, n12, n02] = [(0, 0), (0, 4), (4, 4), (4, 10), (0, 10)];

    let key = ws.add_wire(w(n00, n01), &mut keygen)
        .expect("Expected first wire add to be successful and require no joins");
    assert_eq!(ws.add_wire(w(n01, n11), &mut keygen), Some(key));
    assert_eq!(ws.add_wire(w(n11, n12), &mut keygen), Some(key));
    assert_eq!(ws.add_wire(w(n01, n02), &mut keygen), Some(key));

    assert!(ws.remove_wire(w(n01, n02), &mut keygen));
    assert!(ws.remove_wire(w(n11, n12), &mut keygen));
    assert!(ws.remove_wire(w(n01, n11), &mut keygen));
    assert!(ws.remove_wire(w(n00, n01), &mut keygen));

    assert_graph_nodes(&ws, &[]);
    assert_graph_edges(&ws, vec![]);
    assert_range_map(&ws, &[]);
    assert!(keygen.is_empty());
}

#[test]
fn wireset_remove_overlong() {
    let mut keygen = Keygen::new();
    let mut ws = WireSet::default();

    let [n0, n1, n2] = [(0, 1), (0, 2), (0, 3)];

    ws.add_wire(w(n0, n1), &mut keygen)
        .expect("Expected first wire add to be successful and require no joins");

    assert!(ws.remove_wire(w(n0, n2), &mut keygen));
    assert_graph_nodes(&ws, &[]);
    assert_graph_edges_unkeyed(&ws, vec![]);
    assert_range_map(&ws, &[]);
    assert!(keygen.is_empty());
}

#[test]
fn wireset_remove_overlong2() {
    let mut keygen = Keygen::new();
    let mut ws = WireSet::default();

    let [n0, n1, n2, n3, n4, n5] = [(0, 0), (0, 1), (0, 2), (0, 3), (0, 4), (0, 5)];
    ws.add_wire(w(n1, n2), &mut keygen)
        .expect("Expected first wire add to be successful and require no joins");
    ws.add_wire(w(n3, n4), &mut keygen)
        .expect("Expected first wire add to be successful and require no joins");

    assert!(ws.remove_wire(w(n0, n5), &mut keygen));
    assert_graph_nodes(&ws, &[]);
    assert_graph_edges_unkeyed(&ws, vec![]);
    assert_range_map(&ws, &[]);
    assert!(keygen.is_empty());
}

#[test]
fn wireset_remove_fail() {
    let mut keygen = Keygen::new();
    let mut ws = WireSet::default();

    assert!(!ws.remove_wire(w((0, 0), (0, 1)), &mut keygen));

    let _ = ws.add_wire(w((0, 1), (0, 2)), &mut keygen)
        .expect("Expected first wire add to be successful and require no joins");
    assert!(!ws.remove_wire(w((0, 5), (0, 9)), &mut keygen));
}

#[test]
fn wireset_remove_split() {
    let mut keygen = Keygen::new();
    let mut ws = WireSet::default();

    let nodes = [(2, 2), (2, 3), (1, 3), (3, 4), (3, 3), (4, 3)];
    let [n00, n01, n02, n10, n11, n12] = nodes;

    let k0 = ws.add_wire(w(n00, n01), &mut keygen)
        .expect("Expected first wire add to be successful and require no joins");
    assert_eq!(ws.add_wire(w(n01, n02), &mut keygen), Some(k0));
    assert_eq!(ws.add_wire(w(n01, n11), &mut keygen), Some(k0));
    assert_eq!(ws.add_wire(w(n10, n11), &mut keygen), Some(k0));
    assert_eq!(ws.add_wire(w(n11, n12), &mut keygen), Some(k0));

    assert!(ws.remove_wire(w(n01, n11), &mut keygen));

    assert_graph_nodes(&ws, &nodes);
    assert_graph_edges_unkeyed(&ws, vec![
        joints(&[(n00, n01), (n01, n02)]),
        joints(&[(n10, n11), (n11, n12)]),
    ]);
    assert_range_map(&ws, &[(n00, n01), (n01, n02), (n10, n11), (n11, n12)]);
    assert_eq!(keygen.len(), 2);
}

#[test]
fn wireset_remove_joint_erase() {
    let mut keygen = Keygen::new();
    let mut ws = WireSet::default();

    let [n00, n01, n02, n11] = [(0, 0), (0, 1), (0, 2), (1, 1)];

    let key = ws.add_wire(w(n00, n01), &mut keygen)
        .expect("Expected first wire add to be successful and require no joins");
    assert_eq!(ws.add_wire(w(n01, n11), &mut keygen), Some(key));
    assert_eq!(ws.add_wire(w(n01, n02), &mut keygen), Some(key));

    assert!(ws.remove_wire(w(n01, n11), &mut keygen));

    assert_graph_nodes(&ws, &[n00, n02]);
    assert_graph_edges(&ws, vec![(key, joints(&[(n00, n02)]))]);
    assert_range_map(&ws, &[(n00, n02)]);
    assert_eq!(keygen.len(), 1);
}

#[test]
fn wireset_remove_subset() {
    let mut keygen = Keygen::new();
    let mut ws = WireSet::default();

    let nodes = [(0, 0), (0, 1), (0, 2), (0, 3)];
    let [n00, n01, n02, n03] = nodes;

    ws.add_wire(w(n00, n03), &mut keygen)
        .expect("Expected first wire add to be successful and require no joins");
    assert!(ws.remove_wire(w(n01, n02), &mut keygen));

    assert_graph_nodes(&ws, &nodes);
    assert_graph_edges_unkeyed(&ws, vec![joints(&[(n00, n01)]), joints(&[(n02, n03)])]);
    assert_range_map(&ws, &[(n00, n01), (n02, n03)]);
    assert_eq!(keygen.len(), 2);
}

#[test]
fn wireset_remove_no_split() {
    let mut keygen = Keygen::new();
    let mut ws = WireSet::default();

    let [n00, n01, n02, n10, n11, n12] = [(0, 0), (0, 4), (0, 8), (4, 0), (4, 4), (4, 8)];

    let key = ws.add_wire(w(n00, n01), &mut keygen)
        .expect("Expected first wire add to be successful and require no joins");
    assert_eq!(ws.add_wire(w(n01, n11), &mut keygen), Some(key));
    assert_eq!(ws.add_wire(w(n11, n10), &mut keygen), Some(key));
    assert_eq!(ws.add_wire(w(n10, n00), &mut keygen), Some(key));
    assert_eq!(ws.add_wire(w(n11, n12), &mut keygen), Some(key));
    assert_eq!(ws.add_wire(w(n12, n02), &mut keygen), Some(key));
    assert_eq!(ws.add_wire(w(n02, n01), &mut keygen), Some(key));

    assert!(ws.remove_wire(w(n01, n11), &mut keygen));
    assert_eq!(keygen.len(), 1);
}

#[test]
fn wireset_remove_slice_two() {
    let mut keygen = Keygen::new();
    let mut ws = WireSet::default();

    let [n00, n01, n02, n03, n04, n05] = [(0, 0), (0, 1), (0, 2), (0, 3), (0, 4), (0, 5)];

    let k1 = ws.add_wire(w(n00, n02), &mut keygen)
        .expect("Expected first wire add to be successful and require no joins");
    let k2 = ws.add_wire(w(n03, n05), &mut keygen)
        .expect("Expected second wire add to be successful and require no joins");
    assert_ne!(k1, k2);

    assert!(ws.remove_wire(w(n01, n04), &mut keygen));

    assert_graph_nodes(&ws, &[n00, n01, n04, n05]);
    let edges = [(n00, n01), (n04, n05)];
    assert_graph_edges(&ws, vec![(k1, joints(&edges[..1])), (k2, joints(&edges[1..]))]);
    assert_range_map(&ws, &edges);
    assert_eq!(keygen.len(), 2);
}

#[test]
fn wireset_remove_intersect() {
    let mut keygen = Keygen::new();
    let mut ws = WireSet::default();

    let [n01, n02, n10, n11, n12, n13, n21, n22] =
        [(0, 1), (0, 2), (1, 0), (1, 1), (1, 2), (1, 3), (2, 1), (2, 2)];

    let k0 = ws.add_wire(w(n11, n12), &mut keygen)
        .expect("Expected first wire add to be successful and require no joins");
    assert_eq!(ws.add_wire(w(n01, n11), &mut keygen), Some(k0));
    assert_eq!(ws.add_wire(w(n11, n21), &mut keygen), Some(k0));
    assert_eq!(ws.add_wire(w(n02, n12), &mut keygen), Some(k0));
    assert_eq!(ws.add_wire(w(n12, n22), &mut keygen), Some(k0));
    assert_eq!(ws.add_wire(w(n10, n11), &mut keygen), Some(k0));
    assert_eq!(ws.add_wire(w(n12, n13), &mut keygen), Some(k0));

    assert!(ws.remove_wire(w(n10, n13), &mut keygen));

    assert_graph_nodes(&ws, &[n01, n21, n02, n22]);
    assert_graph_edges_unkeyed(&ws, vec![joints(&[(n01, n21)]), joints(&[(n02, n22)])]);
    assert_range_map(&ws, &[(n01, n21), (n02, n22)]);
    assert_eq!(keygen.len(), 2);
}

#[test]
fn wireset_mid_port() {
    let mut value_keygen = Keygen::new();
    let mut ws = WireSet::default();

    let [n00, n01, n02] = [(0, 0), (0, 1), (0, 2)];
    let gate = ComponentKey(0);
    let port = MeshKey::Port(gate, 0);

    let k1 = ws.add_wire(w(n00, n02), &mut value_keygen)
        .expect("Expected first wire add to be successful and require no joins");
    let k2 = ws.add_port(n01, gate, 0, &mut value_keygen).expect("Expected port creation to succeed");

    assert_eq!(k1, k2);
    assert_graph_edges(&ws, vec![(k1, vec![(j(n00), j(n01)), (j(n01), j(n02)), (j(n01), port)])]);
    assert_range_map(&ws, &[(n00, n01), (n01, n02)]);

    assert!(ws.remove_wire(w(n01, n02), &mut value_keygen));
    let k3 = ws.add_wire(w(n01, n02), &mut value_keygen)
        .expect("Expected second wire add to be successful and require no joins");
    assert_eq!(k1, k3);
    assert_graph_edges(&ws, vec![(k1, vec![(j(n00), j(n01)), (j(n01), j(n02)), (j(n01), port)])]);
    assert_range_map(&ws, &[(n00, n01), (n01, n02)]);

    assert!(ws.remove_port(gate, 0, &mut value_keygen));
    assert_graph_edges(&ws, vec![(k1, joints(&[(n00, n02)]))]);
    assert_range_map(&ws, &[(n00, n02)]);
}

#[test]
fn wireset_mid_port_2() {
    let mut value_keygen = Keygen::new();
    let mut ws = WireSet::default();

    let [n00, n01, n02] = [(0, 0), (0, 1), (0, 2)];
    let gate = ComponentKey(0);
    let port = MeshKey::Port(gate, 0);

    let k2 = ws.add_port(n01, gate, 0, &mut value_keygen).expect("Expected port creation to succeed");
    let k1 = ws.add_wire(w(n00, n02), &mut value_keygen)
        .expect("Expected first wire add to be successful and require no joins");

    assert_eq!(k1, k2);
    assert_graph_edges(&ws, vec![(k1, vec![(j(n00), j(n01)), (j(n01), j(n02)), (j(n01), port)])]);
    assert_range_map(&ws, &[(n00, n01), (n01, n02)]);

    assert!(ws.remove_wire(w(n01, n02), &mut value_keygen));
    let k3 = ws.add_wire(w(n01, n02), &mut value_keygen)
        .expect("Expected second wire add to be successful and require no joins");
    assert_eq!(k1, k3);
    assert_graph_edges(&ws, vec![(k1, vec![(j(n00), j(n01)), (j(n01), j(n02)), (j(n01), port)])]);
    assert_range_map(&ws, &[(n00, n01), (n01, n02)]);

    assert!(ws.remove_port(gate, 0, &mut value_keygen));
    assert_graph_edges(&ws, vec![(k1, joints(&[(n00, n02)]))]);
    assert_range_map(&ws, &[(n00, n02)]);
}

#[test]
fn wireset_useless_tunnel() {
    let mut value_keygen = Keygen::new();
    let mut ws = WireSet::default();

    let [n00, n01, n10, n11] = [(1, 1), (1, 2), (3, 2), (3, 3)];

    let tun = TunnelSymbol(0);
    let k1 = ws.add_tunnel(n00, tun, &mut value_keygen).expect("tunnel creation to succeed");
    let k2 = ws.add_tunnel(n11, tun, &mut value_keygen).expect("tunnel creation to succeed");
    assert_eq!(k1, k2);

    let k3 = ws.add_wire(Wire::from_endpoints(n00, n01).unwrap(), &mut value_keygen)
        .expect("wire creation to succeed");
    let k4 = ws.add_wire(Wire::from_endpoints(n10, n11).unwrap(), &mut value_keygen)
        .expect("wire creation to succeed");
    assert_eq!(k1, k3);
    assert_eq!(k3, k4);

    let k5 = ws.add_wire(Wire::from_endpoints(n01, n10).unwrap(), &mut value_keygen)
        .expect("wire creation to succeed");
    assert_eq!(k1, k5);

    assert!(ws.remove_tunnel(n00, tun, &mut value_keygen));
    assert_eq!(value_keygen.len(), 1);
}

#[test]
fn wireset_find_keys_of_joints_and_wires() {
    let mut keygen = Keygen::new();
    let mut ws = WireSet::default();

    let key = ws.add_wire(w((0, 0), (0, 4)), &mut keygen).unwrap();
    assert_eq!(ws.add_wire(w((0, 4), (4, 4)), &mut keygen), Some(key));

    assert_eq!(ws.find_key(MeshKey::WireJoint((0, 4))), Some(key));
    assert_eq!(ws.find_key(MeshKey::WireJoint((0, 2))), None);
    assert_eq!(ws.find_key_of_wire(w((0, 0), (0, 4))), Some(key));
    assert_eq!(ws.find_key_of_wire(w((0, 0), (0, 2))), None);

    let mut values = ws.wire_values_iter();
    values.sort_by_key(|(wire, _)| wire.endpoints());
    assert_eq!(values, vec![(w((0, 0), (0, 4)), key), (w((0, 4), (4, 4)), key)]);

    let at = ws.wires_at_coord((0, 2));
    assert_eq!(at, vec![w((0, 0), (0, 4))]);
}

#[test]
fn wireset_crossing_wires_stay_apart() {
    let mut keygen = Keygen::new();
    let mut ws = WireSet::default();

    let k1 = ws.add_wire(w((0, 5), (10, 5)), &mut keygen).unwrap();
    let k2 = ws.add_wire(w((5, 0), (5, 10)), &mut keygen).unwrap();
    assert_ne!(k1, k2);
    assert_eq!(keygen.len(), 2);
    assert_eq!(ws.find_key(MeshKey::WireJoint((5, 5))), None);
    assert_range_map(&ws, &[((0, 5), (10, 5)), ((5, 0), (5, 10))]);
}

#[test]
fn wireset_drawn_wire_adds_nothing() {
    let mut keygen = Keygen::new();
    let mut ws = WireSet::default();

    let key = ws.add_wire(w((0, 0), (4, 0)), &mut keygen).unwrap();
    assert_eq!(ws.add_wire(w((4, 0), (8, 0)), &mut keygen), Some(key));
    assert!(ws.add_wire(w((2, 0), (6, 0)), &mut keygen).is_none());
    assert_range_map(&ws, &[((0, 0), (8, 0))]);
}

#[test]
fn wireset_tunnel_links_meshes() {
    let mut keygen = Keygen::new();
    let mut ws = WireSet::default();
    let tun = TunnelSymbol(7);

    let k1 = ws.add_wire(w((0, 0), (0, 4)), &mut keygen).unwrap();
    let k2 = ws.add_wire(w((9, 0), (9, 4)), &mut keygen).unwrap();
    assert_ne!(k1, k2);
    assert_eq!(ws.add_tunnel((0, 4), tun, &mut keygen), Some(k1));
    assert_eq!(ws.add_tunnel((9, 4), tun, &mut keygen), Some(k1));
    assert_eq!(ws.find_key(MeshKey::WireJoint((9, 0))), Some(k1));
    assert_eq!(keygen.len(), 1);
    assert!(ws.add_tunnel((9, 4), tun, &mut keygen).is_none());

    assert!(ws.remove_tunnel((9, 4), tun, &mut keygen));
    assert_eq!(keygen.len(), 2);
    assert_ne!(ws.find_key(MeshKey::WireJoint((9, 0))), Some(k1));
    assert!(!ws.remove_tunnel((9, 4), tun, &mut keygen));
}

#[test]
fn component_ports_link_and_unlink() {
    let mut kg = Keygen::new();
    let mut ws = WireSet::new();
    let k = ws.add_wire(w((0, 0), (0, 4)), &mut kg).unwrap();
    let key = ComponentKey(1);
    assert_eq!(
        add_component_ports(&mut ws, key, &[(0, 1), (0, 3)], Linking::Ports, &mut kg),
        Ok(())
    );
    assert_eq!(ws.find_key(MeshKey::Port(key, 0)), Some(k));
    assert_eq!(ws.find_key(MeshKey::Port(key, 1)), Some(k));
    assert_eq!(kg.len(), 1);
    remove_component_ports(&mut ws, key, 2, (0, 1), Linking::Ports, &mut kg);
    assert_eq!(ws.find_key(MeshKey::Port(key, 0)), None);
    assert_eq!(ws.find_key(MeshKey::Port(key, 1)), None);
    assert_range_map(&ws, &[((0, 0), (0, 4))]);
}

#[test]
fn component_ports_redundant_tunnel() {
    let mut kg = Keygen::new();
    let mut ws = WireSet::new();
    let t = TunnelSymbol(3);
    assert_eq!(add_component_ports(&mut ws, ComponentKey(1), &[(1, 1)], Linking::Tunnel(t), &mut kg), Ok(()));
    assert_eq!(
        add_component_ports(&mut ws, ComponentKey(2), &[(1, 1)], Linking::Tunnel(t), &mut kg),
        Err(ReprEditErr::RedundantTunnel)
    );
    remove_component_ports(&mut ws, ComponentKey(1), 1, (1, 1), Linking::Tunnel(t), &mut kg);
    assert_eq!(ws.find_key(MeshKey::Tunnel(t)), None);
    assert!(kg.is_empty());
}

#[test]
fn component_ports_unlabeled_tunnel() {
    let mut kg = Keygen::new();
    let mut ws = WireSet::new();
    assert_eq!(
        add_component_ports(&mut ws, ComponentKey(1), &[(1, 1)], Linking::UnlabeledTunnel, &mut kg),
        Ok(())
    );
    assert!(ws.mesh_nodes().is_empty());
    assert!(kg.is_empty());
}

#[test]
fn remove_unit_wire_uncovers_it() {
    let mut kg = Keygen::new();
    let mut ws = WireSet::new();
    ws.add_wire(w((0, 0), (0, 3)), &mut kg).unwrap();
    assert!(ws.remove_wire(w((0, 1), (0, 2)), &mut kg));
    assert_range_map(&ws, &[((0, 0), (0, 1)), ((0, 2), (0, 3))]);
    assert!(!ws.remove_wire(w((0, 1), (0, 2)), &mut kg));
    assert_eq!(kg.len(), 2);
}

#[test]
fn added_wire_key_is_returned_key() {
    let mut kg = Keygen::new();
    let mut ws = WireSet::new();
    let k1 = ws.add_wire(w((1, 1), (5, 1)), &mut kg).unwrap();
    let k2 = ws.add_wire(w((3, 1), (7, 1)), &mut kg).unwrap();
    assert_eq!(k1, k2);
    assert_eq!(ws.find_key_of_wire(w((1, 1), (7, 1))), Some(k1));
    assert_eq!(ws.add_wire(w((1, 1), (7, 1)), &mut kg), None);
}

#[test]
fn port_takes_key_of_wire_it_splits() {
    let mut kg = Keygen::new();
    let mut ws = WireSet::new();
    let k1 = ws.add_wire(w((0, 0), (0, 2)), &mut kg).unwrap();
    assert_eq!(ws.add_port((0, 1), ComponentKey(7), 0, &mut kg), Some(k1));
    assert_range_map(&ws, &[((0, 0), (0, 1)), ((0, 1), (0, 2))]);
    assert_eq!(kg.len(), 1);
}

#[test]
fn wire_edits_keep_links() {
    let mut kg = Keygen::new();
    let mut ws = WireSet::new();
    let t = TunnelSymbol(9);
    ws.add_tunnel((2, 1), t, &mut kg).unwrap();
    ws.add_port((4, 1), ComponentKey(3), 0, &mut kg).unwrap();
    ws.add_wire(w((0, 1), (6, 1)), &mut kg).unwrap();
    assert!(ws.find_key(MeshKey::Tunnel(t)).is_some());
    assert!(ws.find_key(MeshKey::Port(ComponentKey(3), 0)).is_some());
    assert!(ws.remove_wire(w((0, 1), (6, 1)), &mut kg));
    assert!(ws.find_key(MeshKey::Tunnel(t)).is_some());
    assert!(ws.find_key(MeshKey::Port(ComponentKey(3), 0)).is_some());
    assert_range_map(&ws, &[]);
}

#[test]
fn connected_nodes_share_one_key() {
    let mut kg = Keygen::new();
    let mut ws = WireSet::new();
    ws.add_wire(w((0, 0), (0, 2)), &mut kg).unwrap();
    ws.add_wire(w((0, 2), (2, 2)), &mut kg).unwrap();
    ws.add_wire(w((2, 2), (2, 5)), &mut kg).unwrap();
    let k = ws.find_key(j((0, 0))).unwrap();
    assert_eq!(ws.find_key(j((2, 5))), Some(k));
    assert_eq!(ws.find_key(j((0, 2))), Some(k));
}
