//! A circuit's components and wires, kept in step: every component's ports are linked
//! into the wire set, and every link of the wire set belongs to a component.

use std::collections::HashMap;
use vstd::prelude::*;
use crate::middle_end::{
    AddComponentArgs, Axis, ComponentKey, ComponentProps, Coord, CoordDelta, ReprEditErr, TunnelSymbol, construct_component,
    moved_component, moved_wire_spec, moved_wires,
};
use crate::middle_end::func::{RelativeComponentBounds, coord_add_spec, fits_at, placed_at};
use crate::middle_end::links::{Linking, add_component_ports, own_link, others_kept, remove_component_ports};
use crate::middle_end::wire::Wire;
use crate::middle_end::wire::wire_set::{
    MeshEdge, MeshNode, ValueFinalizer, WireSet, covered, has_edge, inside_of, joint, lemma_node_has_edge_pub, on_wire,
    port_node, same_cover, same_links, tunnel_node, unit_covered, wire_drawn,
};
use crate::middle_end::wire::range_map::{cross_of, line_of, main_of, on_line};
use crate::engine::ValueKey;

verus! {

broadcast use vstd::std_specs::hash::group_hash_axioms;

/// Whether the component `k`, with properties `p` and linking `l`, is linked in `e`.
pub open spec fn comp_linked(e: Map<MeshEdge, ValueKey>, k: u64, p: ComponentProps, l: Linking) -> bool {
    match l {
        Linking::Ports => forall|i: int| 0 <= i < p.ports@.len() ==> #[trigger] has_edge(e, port_node(ComponentKey(k), i as usize)),
        Linking::Tunnel(t) => p.ports@.len() == 1 && e.contains_key((joint(p.ports@[0]), tunnel_node(t))),
        Linking::UnlabeledTunnel => true,
    }
}

/// Whether the port node `x` is a port of a component of `comps` linked by its ports.
pub open spec fn port_owned(comps: Map<u64, ComponentProps>, links: Map<u64, Linking>, x: MeshNode) -> bool {
    exists|k: u64, i: int| #[trigger] owns_port(comps, links, k, i, x)
}

/// Whether `x` is the port `i` of the component `k` of `comps`, linked by its ports.
pub open spec fn owns_port(comps: Map<u64, ComponentProps>, links: Map<u64, Linking>, k: u64, i: int, x: MeshNode) -> bool {
    comps.contains_key(k) && links[k] == Linking::Ports
        && 0 <= i < comps[k].ports@.len() && x == port_node(ComponentKey(k), i as usize)
}

/// Whether the link of the point `c` to the tunnel `t` belongs to a component of `comps`.
pub open spec fn tunnel_owned(comps: Map<u64, ComponentProps>, links: Map<u64, Linking>, c: Coord, t: TunnelSymbol) -> bool {
    exists|k: u64| #[trigger] comps.contains_key(k) && links[k] == Linking::Tunnel(t)
        && comps[k].ports@.len() == 1 && comps[k].ports@[0] == c
}

/// Whether the components are linked in `e`, and every link of `e` belongs to one.
pub open spec fn links_agree(comps: Map<u64, ComponentProps>, links: Map<u64, Linking>, e: Map<MeshEdge, ValueKey>) -> bool {
    &&& forall|k: u64| #[trigger] comps.contains_key(k) ==> comp_linked(e, k, comps[k], links[k])
    &&& forall|x: MeshNode| x.0 == 1 && #[trigger] has_edge(e, x) ==> port_owned(comps, links, x)
    &&& forall|c: Coord, t: TunnelSymbol| #[trigger] e.contains_key((joint(c), tunnel_node(t)))
        ==> tunnel_owned(comps, links, c, t)
}

/// A port or tunnel node has an edge in both or in neither of two graphs with the same links.
proof fn lemma_links_has_edge(e0: Map<MeshEdge, ValueKey>, e1: Map<MeshEdge, ValueKey>, x: MeshNode)
    requires
        same_links(e0, e1),
        x.0 != 0,
    ensures
        has_edge(e0, x) == has_edge(e1, x),
{
    if has_edge(e0, x) {
        let b = choose|b: MeshNode| #[trigger] e0.contains_key((x, b));
        assert(e1.contains_key((x, b)));
    }
    if has_edge(e1, x) {
        let b = choose|b: MeshNode| #[trigger] e1.contains_key((x, b));
        assert(e0.contains_key((x, b)));
    }
}

/// Edits of the wire set that keep its links keep the components linked and owning.
proof fn lemma_links_agree_kept(comps: Map<u64, ComponentProps>, links: Map<u64, Linking>,
    e0: Map<MeshEdge, ValueKey>, e1: Map<MeshEdge, ValueKey>, n0: Set<MeshNode>, n1: Set<MeshNode>)
    requires
        links_agree(comps, links, e0),
        same_links(e0, e1),
        crate::middle_end::wire::wire_set::graph_ok(e1, n1),
        crate::middle_end::wire::wire_set::graph_ok(e0, n0),
    ensures
        links_agree(comps, links, e1),
{
    assert forall|k: u64| #[trigger] comps.contains_key(k) implies comp_linked(e1, k, comps[k], links[k]) by {
        match links[k] {
            Linking::Ports => {
                assert forall|i: int| 0 <= i < comps[k].ports@.len() implies
                    #[trigger] has_edge(e1, port_node(ComponentKey(k), i as usize)) by {
                    lemma_links_has_edge(e0, e1, port_node(ComponentKey(k), i as usize));
                }
            },
            Linking::Tunnel(t) => {
                lemma_tunnel_link_sym(e0, n0, comps[k].ports@[0], t);
                lemma_tunnel_link_sym(e1, n1, comps[k].ports@[0], t);
            },
            Linking::UnlabeledTunnel => {},
        }
    }
    assert forall|x: MeshNode| x.0 == 1 && #[trigger] has_edge(e1, x) implies port_owned(comps, links, x) by {
        lemma_links_has_edge(e0, e1, x);
    }
    assert forall|c: Coord, t: TunnelSymbol| #[trigger] e1.contains_key((joint(c), tunnel_node(t)))
        implies tunnel_owned(comps, links, c, t) by {
        lemma_tunnel_link_sym(e0, n0, c, t);
        lemma_tunnel_link_sym(e1, n1, c, t);
    }
}

/// Whether `linking` is how a component of kind `inner` with the label `label` is linked.
pub open spec fn linking_fits(inner: crate::middle_end::func::PhysicalComponentEnum, label: Seq<char>, linking: Linking) -> bool {
    match linking {
        Linking::Ports => !(inner is Tunnel),
        Linking::Tunnel(_) => inner is Tunnel && label.len() > 0,
        Linking::UnlabeledTunnel => inner is Tunnel && label.len() == 0,
    }
}

/// Adding the links of a new component `key`, unknown to `comps`, keeps the old
/// components linked and every old link owned.
proof fn lemma_links_added(comps: Map<u64, ComponentProps>, links: Map<u64, Linking>,
    e0: Map<MeshEdge, ValueKey>, e1: Map<MeshEdge, ValueKey>, n0: Set<MeshNode>, n1: Set<MeshNode>,
    key: u64, linking: Linking, pt: Coord)
    requires
        links_agree(comps, links, e0),
        !comps.contains_key(key),
        others_kept(e0, e1, ComponentKey(key), linking, pt),
        crate::middle_end::wire::wire_set::graph_ok(e0, n0),
        crate::middle_end::wire::wire_set::graph_ok(e1, n1),
        linking matches Linking::Tunnel(t) ==> !e0.contains_key((joint(pt), tunnel_node(t))),
    ensures
        forall|k: u64| #[trigger] comps.contains_key(k) ==> comp_linked(e1, k, comps[k], links[k]),
        forall|x: MeshNode| x.0 == 1 && x.1 != key && #[trigger] has_edge(e1, x) ==> port_owned(comps, links, x),
        forall|c: Coord, t: TunnelSymbol| #[trigger] e1.contains_key((joint(c), tunnel_node(t)))
            && !(linking == Linking::Tunnel(t) && c == pt) ==> tunnel_owned(comps, links, c, t),
{
    assert forall|k: u64| #[trigger] comps.contains_key(k) implies comp_linked(e1, k, comps[k], links[k]) by {
        assert(k != key);
        match links[k] {
            Linking::Ports => {
                assert forall|i: int| 0 <= i < comps[k].ports@.len() implies
                    #[trigger] has_edge(e1, port_node(ComponentKey(k), i as usize)) by {
                    let x = port_node(ComponentKey(k), i as usize);
                    assert forall|b: MeshNode| #[trigger] e0.contains_key((x, b)) <==> e1.contains_key((x, b)) by {
                        assert(!own_link(ComponentKey(key), linking, pt, x, b));
                    }
                    lemma_has_edge_eq(e0, e1, x);
                }
            },
            Linking::Tunnel(t) => {
                let c = comps[k].ports@[0];
                lemma_tunnel_link_sym(e0, n0, c, t);
                lemma_tunnel_link_sym(e1, n1, c, t);
                assert(!own_link(ComponentKey(key), linking, pt, tunnel_node(t), joint(c)));
            },
            Linking::UnlabeledTunnel => {},
        }
    }
    assert forall|x: MeshNode| x.0 == 1 && x.1 != key && #[trigger] has_edge(e1, x) implies port_owned(comps, links, x) by {
        assert forall|b: MeshNode| #[trigger] e0.contains_key((x, b)) <==> e1.contains_key((x, b)) by {
            assert(!own_link(ComponentKey(key), linking, pt, x, b));
        }
        lemma_has_edge_eq(e0, e1, x);
    }
    assert forall|c: Coord, t: TunnelSymbol| #[trigger] e1.contains_key((joint(c), tunnel_node(t)))
        && !(linking == Linking::Tunnel(t) && c == pt) implies tunnel_owned(comps, links, c, t) by {
        lemma_tunnel_link_sym(e0, n0, c, t);
        lemma_tunnel_link_sym(e1, n1, c, t);
        assert(!own_link(ComponentKey(key), linking, pt, tunnel_node(t), joint(c)));
    }
}

/// The links agree once the new component `key`, linked in `e0`..`e1`, is recorded.
proof fn lemma_links_agree_insert(comps: Map<u64, ComponentProps>, links: Map<u64, Linking>,
    e0: Map<MeshEdge, ValueKey>, e1: Map<MeshEdge, ValueKey>, key: u64, p: ComponentProps, linking: Linking, pt: Coord)
    requires
        !comps.contains_key(key),
        comps.dom() == links.dom(),
        forall|x: MeshNode| x.0 == 1 && #[trigger] has_edge(e0, x) ==> port_owned(comps, links, x),
        forall|k: u64| #[trigger] comps.contains_key(k) ==> comp_linked(e1, k, comps[k], links[k]),
        forall|x: MeshNode| x.0 == 1 && x.1 != key && #[trigger] has_edge(e1, x) ==> port_owned(comps, links, x),
        forall|c: Coord, t: TunnelSymbol| #[trigger] e1.contains_key((joint(c), tunnel_node(t)))
            && !(linking == Linking::Tunnel(t) && c == pt) ==> tunnel_owned(comps, links, c, t),
        comp_linked(e1, key, p, linking),
        linking is Tunnel ==> pt == p.ports@[0],
        forall|x: MeshNode| x.0 == 1 && #[trigger] has_edge(e1, x) && !has_edge(e0, x)
            ==> linking is Ports && exists|i: int| 0 <= i < p.ports@.len() && x == #[trigger] port_node(ComponentKey(key), i as usize),
    ensures
        links_agree(comps.insert(key, p), links.insert(key, linking), e1),
{
    let c2 = comps.insert(key, p);
    let l2 = links.insert(key, linking);
    assert forall|k: u64| #[trigger] c2.contains_key(k) implies comp_linked(e1, k, c2[k], l2[k]) by {
        if k != key {
            assert(comps.contains_key(k));
        }
    }
    assert forall|x: MeshNode| x.0 == 1 && #[trigger] has_edge(e1, x) implies port_owned(c2, l2, x) by {
        if x.1 != key {
            assert(port_owned(comps, links, x));
            let (k, i) = choose|k: u64, i: int| #[trigger] owns_port(comps, links, k, i, x);
            assert(comps.contains_key(k));
            assert(x == port_node(ComponentKey(k), i as usize));
            assert(port_node(ComponentKey(k), i as usize).1 == k);
            assert(x.1 == k);
            assert(c2[k] == comps[k] && l2[k] == links[k]);
            assert(c2[k].ports@[i] == comps[k].ports@[i]);
            assert(owns_port(c2, l2, k, i, x));
        } else {
            if has_edge(e0, x) {
                assert(port_owned(comps, links, x));
                let (k, i) = choose|k: u64, i: int| #[trigger] owns_port(comps, links, k, i, x);
                assert(false);
            }
            let i = choose|i: int| 0 <= i < p.ports@.len() && x == #[trigger] port_node(ComponentKey(key), i as usize);
            assert(c2[key].ports@[i] == p.ports@[i]);
            assert(owns_port(c2, l2, key, i, x));
        }
    }
    assert forall|c: Coord, t: TunnelSymbol| #[trigger] e1.contains_key((joint(c), tunnel_node(t)))
        implies tunnel_owned(c2, l2, c, t) by {
        if linking == Linking::Tunnel(t) && c == pt {
            assert(c2.contains_key(key));
        } else {
            assert(tunnel_owned(comps, links, c, t));
            let k = choose|k: u64| #[trigger] comps.contains_key(k) && links[k] == Linking::Tunnel(t)
                && comps[k].ports@.len() == 1 && comps[k].ports@[0] == c;
            assert(c2.contains_key(k));
        }
    }
}

/// The links agree once the component `key`, unlinked in `e0`..`e1`, is dropped.
proof fn lemma_links_agree_remove(comps: Map<u64, ComponentProps>, links: Map<u64, Linking>,
    e0: Map<MeshEdge, ValueKey>, e1: Map<MeshEdge, ValueKey>, n0: Set<MeshNode>, n1: Set<MeshNode>, key: u64, pt: Coord)
    requires
        comps.contains_key(key),
        comps.dom() == links.dom(),
        links_agree(comps, links, e0),
        links[key] is Tunnel ==> pt == comps[key].ports@[0],
        forall|k1: u64, k2: u64| #[trigger] comps.contains_key(k1) && #[trigger] comps.contains_key(k2) && k1 != k2
            && links[k1] is Tunnel && links[k1] == links[k2] ==> comps[k1].ports@[0] != comps[k2].ports@[0],
        others_kept(e0, e1, ComponentKey(key), links[key], pt),
        forall|x: MeshNode| x.0 == 1 && #[trigger] has_edge(e1, x) ==> has_edge(e0, x),
        links[key] is Ports ==> forall|i: int| 0 <= i < comps[key].ports@.len()
            ==> !#[trigger] has_edge(e1, port_node(ComponentKey(key), i as usize)),
        links[key] matches Linking::Tunnel(t) ==> !e1.contains_key((joint(pt), tunnel_node(t))),
        crate::middle_end::wire::wire_set::graph_ok(e0, n0),
        crate::middle_end::wire::wire_set::graph_ok(e1, n1),
    ensures
        links_agree(comps.remove(key), links.remove(key), e1),
{
    let c2 = comps.remove(key);
    let l2 = links.remove(key);
    let linking = links[key];
    assert forall|k: u64| #[trigger] c2.contains_key(k) implies comp_linked(e1, k, c2[k], l2[k]) by {
        assert(comps.contains_key(k) && k != key);
        assert(comp_linked(e0, k, comps[k], links[k]));
        match links[k] {
            Linking::Ports => {
                assert forall|i: int| 0 <= i < comps[k].ports@.len() implies
                    #[trigger] has_edge(e1, port_node(ComponentKey(k), i as usize)) by {
                    let x = port_node(ComponentKey(k), i as usize);
                    assert forall|b: MeshNode| #[trigger] e0.contains_key((x, b)) <==> e1.contains_key((x, b)) by {
                        assert(!own_link(ComponentKey(key), linking, pt, x, b));
                    }
                    lemma_has_edge_eq(e0, e1, x);
                }
            },
            Linking::Tunnel(t) => {
                let c = comps[k].ports@[0];
                lemma_tunnel_link_sym(e0, n0, c, t);
                lemma_tunnel_link_sym(e1, n1, c, t);
                if linking == Linking::Tunnel(t) && c == pt {
                    assert(comps[key].ports@[0] != comps[k].ports@[0]);
                }
                assert(!own_link(ComponentKey(key), linking, pt, tunnel_node(t), joint(c)));
            },
            Linking::UnlabeledTunnel => {},
        }
    }
    assert forall|x: MeshNode| x.0 == 1 && #[trigger] has_edge(e1, x) implies port_owned(c2, l2, x) by {
        assert(has_edge(e0, x));
        let (k, i) = choose|k: u64, i: int| #[trigger] owns_port(comps, links, k, i, x);
        if k == key {
            assert(!has_edge(e1, port_node(ComponentKey(key), i as usize)));
        }
        assert(owns_port(c2, l2, k, i, x));
    }
    assert forall|c: Coord, t: TunnelSymbol| #[trigger] e1.contains_key((joint(c), tunnel_node(t)))
        implies tunnel_owned(c2, l2, c, t) by {
        lemma_tunnel_link_sym(e0, n0, c, t);
        lemma_tunnel_link_sym(e1, n1, c, t);
        if linking == Linking::Tunnel(t) && c == pt {
            assert(false);
        }
        assert(!own_link(ComponentKey(key), linking, pt, tunnel_node(t), joint(c)));
        assert(e0.contains_key((joint(c), tunnel_node(t))));
        let k = choose|k: u64| #[trigger] comps.contains_key(k) && links[k] == Linking::Tunnel(t)
            && comps[k].ports@.len() == 1 && comps[k].ports@[0] == c;
        assert(k != key);
        assert(c2.contains_key(k));
    }
}

/// A node whose pairs are the same in both graphs has an edge in both or in neither.
proof fn lemma_has_edge_eq(e0: Map<MeshEdge, ValueKey>, e1: Map<MeshEdge, ValueKey>, x: MeshNode)
    requires
        forall|b: MeshNode| #[trigger] e0.contains_key((x, b)) <==> e1.contains_key((x, b)),
    ensures
        has_edge(e0, x) == has_edge(e1, x),
{
    if has_edge(e0, x) {
        let b = choose|b: MeshNode| #[trigger] e0.contains_key((x, b));
    }
    if has_edge(e1, x) {
        let b = choose|b: MeshNode| #[trigger] e1.contains_key((x, b));
        assert(e0.contains_key((x, b)));
    }
}

/// A link between a point and a tunnel is held under both orders.
proof fn lemma_tunnel_link_sym(e: Map<MeshEdge, ValueKey>, n: Set<MeshNode>, c: Coord, t: TunnelSymbol)
    requires
        crate::middle_end::wire::wire_set::graph_ok(e, n),
    ensures
        e.contains_key((joint(c), tunnel_node(t))) == e.contains_key((tunnel_node(t), joint(c))),
{
    if e.contains_key((joint(c), tunnel_node(t))) {
        crate::middle_end::wire::wire_set::lemma_edge_facts_pub(e, n, joint(c), tunnel_node(t));
    }
    if e.contains_key((tunnel_node(t), joint(c))) {
        crate::middle_end::wire::wire_set::lemma_edge_facts_pub(e, n, tunnel_node(t), joint(c));
    }
}

/// Whether `pt` lies on one of `wires` in the direction `d`.
pub open spec fn on_any(wires: Seq<Wire>, pt: Coord, d: bool) -> bool {
    exists|i: int| 0 <= i < wires.len() && #[trigger] on_wire(wires[i]@, pt, d)
}

/// Whether `pt` lies strictly inside one of `wires` in the direction `d`.
pub open spec fn inside_any(wires: Seq<Wire>, pt: Coord, d: bool) -> bool {
    exists|i: int| 0 <= i < wires.len() && #[trigger] inside_of(wires[i]@, pt, d)
}

/// Whether `pt` lies on one of `wires` moved by `delta`, in the direction `d`.
pub open spec fn on_any_moved(wires: Seq<Wire>, delta: CoordDelta, pt: Coord, d: bool) -> bool {
    exists|i: int| 0 <= i < wires.len() && #[trigger] on_wire(moved_wire_spec(wires[i]@, delta)->0, pt, d)
}

/// Whether the component `p` can be laid out again with its origin moved by `delta`.
pub open spec fn movable(p: ComponentProps, delta: CoordDelta) -> bool {
    match coord_add_spec(p.origin, delta) {
        None => false,
        Some(o) => forall|b: RelativeComponentBounds| #[trigger] p.inner.bounds_match(b, p.label@)
            ==> fits_at(b.bounds, b.ports@, o),
    }
}

/// Whether `q` is the component `p` laid out again with its origin moved by `delta`.
pub open spec fn moved_props(p: ComponentProps, q: ComponentProps, delta: CoordDelta) -> bool {
    &&& q.label@ == p.label@
    &&& q.label_location == p.label_location
    &&& q.inner == p.inner
    &&& Some(q.origin) == coord_add_spec(p.origin, delta)
    &&& forall|b: RelativeComponentBounds| #[trigger] p.inner.bounds_match(b, p.label@)
        ==> placed_at(q.bounds, q.ports@, b.bounds, b.ports@, q.origin)
}

/// Along a wire whose units are all covered, every point is covered.
proof fn lemma_drawn_covers(l: crate::middle_end::wire::wire_set::Lines, f: (Axis, Axis, Axis, bool), pt: Coord, d: bool)
    requires
        wire_drawn(l, f),
        f.2 > 0,
        on_wire(f, pt, d),
    ensures
        covered(l, pt, d),
{
    let line = line_of(crate::middle_end::wire::wire_set::dir_lines(l, d), cross_of(pt, d));
    let m = main_of(pt, d) as int;
    if m < on_line(f).0 + on_line(f).1 {
        assert(unit_covered(line, m));
        let k = choose|k: Axis| #[trigger] line.contains_key(k) && k <= m && m + 1 <= k + line[k];
        assert(line.contains_key(k) && k <= main_of(pt, d) <= k + line[k]);
    } else {
        assert(unit_covered(line, m - 1));
        let k = choose|k: Axis| #[trigger] line.contains_key(k) && k <= m - 1 && m <= k + line[k];
        assert(line.contains_key(k) && k <= main_of(pt, d) <= k + line[k]);
    }
}

/// A moved tunnel's point is its old point moved by `delta`.
proof fn lemma_moved_first_port(p: ComponentProps, q: ComponentProps, delta: CoordDelta, b: RelativeComponentBounds)
    requires
        moved_props(p, q, delta),
        p.inner.bounds_match(b, p.label@),
        placed_at(p.bounds, p.ports@, b.bounds, b.ports@, p.origin),
        p.ports@.len() > 0,
    ensures
        q.ports@.len() == p.ports@.len(),
        Some(q.ports@[0]) == coord_add_spec(p.ports@[0], delta),
{
    assert(Some(p.ports@[0]) == coord_add_spec(p.origin, b.ports@[0]));
    assert(Some(q.ports@[0]) == coord_add_spec(q.origin, b.ports@[0]));
}

/// Whether `pt` lies on the second wire of one of the pairs, in the direction `d`.
pub open spec fn on_any_second(pairs: Seq<(Wire, Wire)>, pt: Coord, d: bool) -> bool {
    exists|i: int| 0 <= i < pairs.len() && #[trigger] on_wire(pairs[i].1@, pt, d)
}

/// A sequence with one more item at its end holds what it held and that item.
proof fn lemma_push_contains<A>(s: Seq<A>, a: A, x: A)
    ensures
        s.push(a).contains(x) == (s.contains(x) || a == x),
{
    if s.contains(x) {
        let j = choose|j: int| 0 <= j < s.len() && s[j] == x;
        assert(s.push(a)[j] == x);
    }
    if a == x {
        assert(s.push(a)[s.len() as int] == x);
    }
    if s.push(a).contains(x) && a != x {
        let j = choose|j: int| 0 <= j < s.push(a).len() && s.push(a)[j] == x;
        assert(s[j] == x);
    }
}

/// A sequence with one more item at its front holds what it held and that item.
proof fn lemma_cons_contains<A>(a: A, s: Seq<A>, x: A)
    ensures
        (seq![a] + s).contains(x) == (s.contains(x) || a == x),
{
    let t = seq![a] + s;
    if s.contains(x) {
        let j = choose|j: int| 0 <= j < s.len() && s[j] == x;
        assert(t[j + 1] == x);
    }
    if a == x {
        assert(t[0] == x);
    }
    if t.contains(x) && a != x {
        let j = choose|j: int| 0 <= j < t.len() && t[j] == x;
        assert(s[j - 1] == x);
    }
}

/// Whether `pt` lies on the first wire of one of the pairs, in the direction `d`.
pub open spec fn on_any_first(pairs: Seq<(Wire, Wire)>, pt: Coord, d: bool) -> bool {
    exists|i: int| 0 <= i < pairs.len() && #[trigger] on_wire(pairs[i].0@, pt, d)
}

/// Whether `pt` lies strictly inside the first wire of one of the pairs, in the direction `d`.
pub open spec fn inside_any_first(pairs: Seq<(Wire, Wire)>, pt: Coord, d: bool) -> bool {
    exists|i: int| 0 <= i < pairs.len() && #[trigger] inside_of(pairs[i].0@, pt, d)
}

/// Whether the component `p` is laid out at its origin as its kind says.
pub open spec fn props_placed(p: ComponentProps) -> bool {
    &&& p.inner.has_bounds(p.label@)
    &&& exists|b: RelativeComponentBounds| #[trigger] p.inner.bounds_match(b, p.label@)
    &&& forall|b: RelativeComponentBounds| #[trigger] p.inner.bounds_match(b, p.label@)
        ==> placed_at(p.bounds, p.ports@, b.bounds, b.ports@, p.origin)
}

/// Whether the listed components of `orig` can take the properties `props`, linked as
/// `lks`: each is laid out as its kind says, each tunnel has one point, and no tunnel
/// lands on the point of another with the same symbol, listed or not.
pub open spec fn batch_fits(orig: CircuitArea, components: Seq<ComponentKey>, props: Seq<ComponentProps>,
    lks: Seq<Linking>) -> bool {
    &&& forall|j: int| 0 <= j < props.len() ==> props_placed(#[trigger] props[j])
    &&& forall|j: int| 0 <= j < props.len() && lks[j] is Tunnel ==> (#[trigger] props[j]).ports@.len() == 1
    &&& forall|j: int, k2: u64| #![trigger props[j], orig.comps()[k2]]
        0 <= j < props.len() && orig.comps().contains_key(k2) && !components.contains(ComponentKey(k2))
        && lks[j] is Tunnel && orig.linking()[k2] == lks[j]
        ==> orig.comps()[k2].ports@[0] != props[j].ports@[0]
    &&& forall|j1: int, j2: int| #![trigger props[j1], props[j2]]
        0 <= j1 < props.len() && 0 <= j2 < props.len() && j1 != j2 && lks[j1] is Tunnel && lks[j1] == lks[j2]
        ==> props[j1].ports@[0] != props[j2].ports@[0]
}

/// Components of a well-formed circuit moved by `delta` fit, once no listed tunnel lands
/// on an unlisted one.
proof fn lemma_moved_batch_fits(orig: CircuitArea, components: Seq<ComponentKey>, props: Seq<ComponentProps>,
    lks: Seq<Linking>, delta: CoordDelta)
    requires
        orig.wf(),
        components.no_duplicates(),
        orig.tunnels_clear(components, delta),
        props.len() == components.len(),
        lks.len() == components.len(),
        forall|j: int| 0 <= j < components.len() ==> orig.comps().contains_key(#[trigger] components[j].0)
            && lks[j] == orig.linking()[components[j].0] && moved_props(orig.comps()[components[j].0], props[j], delta),
    ensures
        batch_fits(orig, components, props, lks),
{
    let c0 = orig.comps();
    let l0 = orig.linking();
    assert forall|j: int| 0 <= j < props.len() implies props_placed(#[trigger] props[j]) && (lks[j] is Tunnel ==> props[j].ports@.len() == 1)
        && (lks[j] is Tunnel ==> Some(props[j].ports@[0]) == coord_add_spec(c0[components[j].0].ports@[0], delta)) by {
        let k = components[j].0;
        let p0 = c0[k];
        assert(c0.contains_key(k));
        let b = choose|b: RelativeComponentBounds| #[trigger] p0.inner.bounds_match(b, p0.label@);
        assert(props[j].inner.bounds_match(b, props[j].label@));
        assert(comp_linked(orig.wire_set().edges(), k, p0, l0[k]));
        if lks[j] is Tunnel {
            lemma_moved_first_port(p0, props[j], delta, b);
        }
    }
    assert forall|j: int, k2: u64| #![trigger props[j], orig.comps()[k2]]
        0 <= j < props.len() && orig.comps().contains_key(k2) && !components.contains(ComponentKey(k2))
        && lks[j] is Tunnel && orig.linking()[k2] == lks[j]
        implies orig.comps()[k2].ports@[0] != props[j].ports@[0] by {
        assert(props_placed(props[j]));
        assert(components[j] == components[j]);
    }
    assert forall|j1: int, j2: int| #![trigger props[j1], props[j2]]
        0 <= j1 < props.len() && 0 <= j2 < props.len() && j1 != j2 && lks[j1] is Tunnel && lks[j1] == lks[j2]
        implies props[j1].ports@[0] != props[j2].ports@[0] by {
        assert(props_placed(props[j1]) && props_placed(props[j2]));
        let k1 = components[j1].0;
        let k2 = components[j2].0;
        assert(components[j1] != components[j2]);
        assert(c0.contains_key(k1) && c0.contains_key(k2));
    }
}

/// The keys of the listed components.
pub open spec fn keys_of(components: Seq<(ComponentKey, AddComponentArgs<'_>, Linking)>) -> Seq<ComponentKey> {
    components.map_values(|c: (ComponentKey, AddComponentArgs<'_>, Linking)| c.0)
}

/// How each listed component is to be linked.
pub open spec fn lks_of(components: Seq<(ComponentKey, AddComponentArgs<'_>, Linking)>) -> Seq<Linking> {
    components.map_values(|c: (ComponentKey, AddComponentArgs<'_>, Linking)| c.2)
}

/// Whether `p` is the component that `args` lays out at its origin.
pub open spec fn constructed_from(args: AddComponentArgs<'_>, p: ComponentProps) -> bool {
    &&& p.label@ == args.label@
    &&& p.label_location == args.label_location
    &&& p.origin == args.origin
    &&& p.inner == args.inner
    &&& forall|b: RelativeComponentBounds| #[trigger] args.inner.bounds_match(b, args.label@)
        ==> placed_at(p.bounds, p.ports@, b.bounds, b.ports@, args.origin)
}

/// Whether every listed component can be laid out at its origin without leaving the grid.
pub open spec fn all_fit(components: Seq<(ComponentKey, AddComponentArgs<'_>, Linking)>) -> bool {
    forall|j: int, b: RelativeComponentBounds| 0 <= j < components.len()
        && #[trigger] components[j].1.inner.bounds_match(b, components[j].1.label@)
        ==> fits_at(b.bounds, b.ports@, components[j].1.origin)
}

/// A circuit's components and wires.
pub struct CircuitArea {
    components: HashMap<u64, ComponentProps>,
    links: HashMap<u64, Linking>,
    next_key: u64,
    wires: WireSet,
}

impl CircuitArea {
    /// The components, by key.
    pub closed spec fn comps(&self) -> Map<u64, ComponentProps> {
        self.components@
    }

    /// How each component is linked into the wire set, by key.
    pub closed spec fn linking(&self) -> Map<u64, Linking> {
        self.links@
    }

    /// The wire set.
    pub closed spec fn wire_set(&self) -> WireSet {
        self.wires
    }

    /// The key the next added component gets.
    pub closed spec fn next(&self) -> u64 {
        self.next_key
    }

    /// Whether the components and the wire set are in step.
    pub open spec fn wf(&self) -> bool {
        let comps = self.comps();
        let links = self.linking();
        let e = self.wire_set().edges();
        &&& self.wire_set().wf()
        &&& comps.dom() == links.dom()
        &&& forall|k: u64| #[trigger] comps.contains_key(k) ==> k < self.next()
        &&& forall|k: u64| #[trigger] comps.contains_key(k) ==> comps[k].inner.has_bounds(comps[k].label@)
            && exists|b: RelativeComponentBounds| #[trigger] comps[k].inner.bounds_match(b, comps[k].label@)
        &&& forall|k: u64, b: RelativeComponentBounds| comps.contains_key(k) && #[trigger] comps[k].inner.bounds_match(b, comps[k].label@)
            ==> placed_at(comps[k].bounds, comps[k].ports@, b.bounds, b.ports@, comps[k].origin)
        &&& links_agree(comps, links, e)
        &&& forall|k1: u64, k2: u64| #[trigger] comps.contains_key(k1) && #[trigger] comps.contains_key(k2) && k1 != k2
            && links[k1] is Tunnel && links[k1] == links[k2] ==> comps[k1].ports@[0] != comps[k2].ports@[0]
    }

    /// Whether the circuit has a component with the given key.
    pub fn has_component(&self, key: ComponentKey) -> (r: bool)
        ensures
            r == self.comps().contains_key(key.0),
    {
        self.components.contains_key(&key.0)
    }

    /// The properties of the component with the given key, or
    /// [`ReprEditErr::ComponentDoesNotExist`] if there is none.
    pub fn get_component(&self, key: ComponentKey) -> (r: Result<&ComponentProps, ReprEditErr>)
        ensures
            self.comps().contains_key(key.0) ==> (r matches Ok(p) && *p == self.comps()[key.0]),
            !self.comps().contains_key(key.0) ==> r == Err::<&ComponentProps, ReprEditErr>(ReprEditErr::ComponentDoesNotExist),
    {
        match self.components.get(&key.0) {
            Some(p) => Ok(p),
            None => Err(ReprEditErr::ComponentDoesNotExist),
        }
    }

    /// Adds a wire to the circuit, merging it with the wires it overlaps and joining the
    /// meshes it meets; returns whether anything was added.
    pub fn add_wire<V: ValueFinalizer>(&mut self, w: Wire, vf: &mut V) -> (r: bool)
        requires
            old(self).wf(),
        ensures
            final(self).wf(),
            final(self).comps() == old(self).comps(),
            final(self).linking() == old(self).linking(),
            r == !crate::middle_end::wire::wire_set::wire_drawn(old(self).wire_set().lines(), w@),
            final(self).next() == old(self).next(),
            forall|pt: Coord, d: bool| #[trigger] covered(final(self).wire_set().lines(), pt, d)
                == (covered(old(self).wire_set().lines(), pt, d) || on_wire(w@, pt, d)),
    {
        let ghost e0 = self.wires.edges();
        let ghost n0 = self.wires.nodes();
        let ghost l0 = self.wires.lines();
        let _ = w.length();
        let r = self.wires.add_wire(w, vf);
        proof {
            lemma_links_agree_kept(self.comps(), self.linking(), e0, self.wires.edges(), n0, self.wires.nodes());
            if r is None {
                assert forall|pt: Coord, d: bool| on_wire(w@, pt, d) implies #[trigger] covered(l0, pt, d) by {
                    lemma_drawn_covers(l0, w@, pt, d);
                }
            }
        }
        r.is_some()
    }

    /// Removes the wires of the circuit that the wire overlaps, splitting meshes that
    /// fall apart; returns whether any wire overlapped it.
    pub fn remove_wire<V: ValueFinalizer>(&mut self, w: Wire, vf: &mut V) -> (r: bool)
        requires
            old(self).wf(),
        ensures
            final(self).wf(),
            final(self).comps() == old(self).comps(),
            final(self).linking() == old(self).linking(),
            !r ==> final(self).wire_set().lines() == old(self).wire_set().lines(),
            forall|m: int| crate::middle_end::wire::range_map::on_line(w@).0 <= m
                < crate::middle_end::wire::range_map::on_line(w@).0 + crate::middle_end::wire::range_map::on_line(w@).1
                ==> !#[trigger] crate::middle_end::wire::wire_set::unit_covered(
                    crate::middle_end::wire::range_map::line_of(
                        crate::middle_end::wire::wire_set::dir_lines(final(self).wire_set().lines(), w@.3),
                        crate::middle_end::wire::range_map::on_line(w@).2), m),
            final(self).next() == old(self).next(),
            forall|pt: Coord, d: bool| #[trigger] covered(final(self).wire_set().lines(), pt, d)
                ==> covered(old(self).wire_set().lines(), pt, d),
            forall|pt: Coord, d: bool| covered(old(self).wire_set().lines(), pt, d) && !on_wire(w@, pt, d)
                ==> #[trigger] covered(final(self).wire_set().lines(), pt, d),
            forall|pt: Coord, d: bool| inside_of(w@, pt, d) ==> !#[trigger] covered(final(self).wire_set().lines(), pt, d),
    {
        let ghost e0 = self.wires.edges();
        let ghost n0 = self.wires.nodes();
        let r = self.wires.remove_wire(w, vf);
        proof {
            lemma_links_agree_kept(self.comps(), self.linking(), e0, self.wires.edges(), n0, self.wires.nodes());
        }
        r
    }

    /// Adds a component to the circuit, laid out at its origin and linked into the wire
    /// set as `linking` says, and returns its key.
    ///
    /// This returns [`ReprEditErr::ComponentOutOfBounds`] if the component would leave the
    /// grid, and [`ReprEditErr::RedundantTunnel`] if it is a tunnel whose point already
    /// holds a link to its tunnel; either way the circuit is unchanged.
    pub fn add_component<V: ValueFinalizer>(&mut self, args: AddComponentArgs<'_>, linking: Linking, vf: &mut V)
        -> (r: Result<ComponentKey, ReprEditErr>)
        requires
            old(self).wf(),
            args.inner.has_bounds(args.label@),
            linking_fits(args.inner, args.label@, linking),
            linking is Tunnel ==> forall|b: RelativeComponentBounds| #[trigger] args.inner.bounds_match(b, args.label@)
                ==> b.ports@.len() == 1,
            old(self).next() < u64::MAX,
        ensures
            final(self).wf(),
            forall|b: RelativeComponentBounds| #[trigger] args.inner.bounds_match(b, args.label@) ==> {
                &&& !fits_at(b.bounds, b.ports@, args.origin) <==> r == Err::<ComponentKey, ReprEditErr>(ReprEditErr::ComponentOutOfBounds)
                &&& (linking matches Linking::Tunnel(t) ==> (fits_at(b.bounds, b.ports@, args.origin) ==>
                    (r == Err::<ComponentKey, ReprEditErr>(ReprEditErr::RedundantTunnel) <==> old(self).wire_set().edges().contains_key(
                        (joint(coord_add_spec(args.origin, b.ports@[0])->0), tunnel_node(t))))))
            },
            linking !is Tunnel ==> r != Err::<ComponentKey, ReprEditErr>(ReprEditErr::RedundantTunnel),
            r is Err ==> final(self).comps() == old(self).comps() && final(self).linking() == old(self).linking()
                && final(self).wire_set().edges() == old(self).wire_set().edges()
                && final(self).wire_set().lines() == old(self).wire_set().lines()
                && final(self).wire_set().nodes() == old(self).wire_set().nodes(),
            r matches Ok(k) ==> {
                &&& k.0 == old(self).next()
                &&& final(self).comps().dom() == old(self).comps().dom().insert(k.0)
                &&& forall|k2: u64| #[trigger] old(self).comps().contains_key(k2) ==> final(self).comps()[k2] == old(self).comps()[k2]
                &&& final(self).linking() == old(self).linking().insert(k.0, linking)
                &&& final(self).comps()[k.0].label@ == args.label@
                &&& final(self).comps()[k.0].label_location == args.label_location
                &&& final(self).comps()[k.0].origin == args.origin
                &&& final(self).comps()[k.0].inner == args.inner
                &&& forall|b: RelativeComponentBounds| #[trigger] args.inner.bounds_match(b, args.label@) ==>
                    placed_at(final(self).comps()[k.0].bounds, final(self).comps()[k.0].ports@, b.bounds, b.ports@, args.origin)
            },
    {
        let props = match construct_component(args) {
            Ok(p) => p,
            Err(e) => return Err(e),
        };
        let key = self.next_key;
        proof {
            let rel = choose|b: RelativeComponentBounds| #[trigger] args.inner.bounds_match(b, args.label@);
            assert(props.ports@.len() == rel.ports@.len());
        }
        self.next_key = key + 1;
        match self.place_component(key, props, linking, vf) {
            Ok(()) => {},
            Err(e) => return Err(e),
        }
        Ok(ComponentKey(key))
    }

    /// Records the component `key` with the properties `props`, linking it into the wire
    /// set as `linking` says.
    ///
    /// This returns [`ReprEditErr::RedundantTunnel`] if it is a tunnel whose point already
    /// holds a link to its tunnel, and then changes nothing.
    fn place_component<V: ValueFinalizer>(&mut self, key: u64, props: ComponentProps, linking: Linking, vf: &mut V)
        -> (r: Result<(), ReprEditErr>)
        requires
            old(self).wf(),
            !old(self).comps().contains_key(key),
            key < old(self).next(),
            props.inner.has_bounds(props.label@),
            exists|b: RelativeComponentBounds| #[trigger] props.inner.bounds_match(b, props.label@),
            forall|b: RelativeComponentBounds| #[trigger] props.inner.bounds_match(b, props.label@)
                ==> placed_at(props.bounds, props.ports@, b.bounds, b.ports@, props.origin),
            linking is Tunnel ==> props.ports@.len() == 1,
        ensures
            final(self).wf(),
            final(self).next() == old(self).next(),
            r is Err <==> (linking matches Linking::Tunnel(t)
                && old(self).wire_set().edges().contains_key((joint(props.ports@[0]), tunnel_node(t)))),
            r is Err ==> r == Err::<(), ReprEditErr>(ReprEditErr::RedundantTunnel)
                && final(self).comps() == old(self).comps() && final(self).linking() == old(self).linking()
                && final(self).wire_set().edges() == old(self).wire_set().edges()
                && final(self).wire_set().lines() == old(self).wire_set().lines()
                && final(self).wire_set().nodes() == old(self).wire_set().nodes(),
            r is Ok ==> final(self).comps() == old(self).comps().insert(key, props)
                && final(self).linking() == old(self).linking().insert(key, linking),
            same_cover(old(self).wire_set().lines(), final(self).wire_set().lines()),
    {
        let ghost e0 = self.wires.edges();
        let ghost n0 = self.wires.nodes();
        proof {
            assert forall|i: int| 0 <= i < props.ports@.len() implies !#[trigger] n0.contains(port_node(ComponentKey(key), i as usize)) by {
                lemma_node_has_edge_pub(e0, n0, port_node(ComponentKey(key), i as usize));
                if has_edge(e0, port_node(ComponentKey(key), i as usize)) {
                    assert(port_owned(self.comps(), self.linking(), port_node(ComponentKey(key), i as usize)));
                    let (k, j) = choose|k: u64, j: int| #[trigger] owns_port(self.comps(), self.linking(), k, j, port_node(ComponentKey(key), i as usize));
                }
            }
        }
        let added = add_component_ports(&mut self.wires, ComponentKey(key), props.ports.as_slice(), linking, vf);
        match added {
            Err(e) => {
                return Err(e);
            },
            Ok(()) => {},
        }
        let ghost pt = if props.ports@.len() > 0 { props.ports@[0] } else { (0u32, 0u32) };
        proof {
            lemma_links_added(self.comps(), self.linking(), e0, self.wires.edges(), n0, self.wires.nodes(), key, linking, pt);
            assert forall|i: int| 0 <= i < props.ports@.len() && linking is Ports implies
                #[trigger] has_edge(self.wires.edges(), port_node(ComponentKey(key), i as usize)) by {
                assert(self.wires.edges().contains_key((port_node(ComponentKey(key), i as usize), joint(props.ports@[i]))));
            }
            lemma_links_agree_insert(self.comps(), self.linking(), e0, self.wires.edges(), key, props, linking, pt);
            assert forall|k2: u64| #[trigger] self.comps().contains_key(k2) && k2 != key && self.linking()[k2] is Tunnel
                && self.linking()[k2] == linking implies self.comps()[k2].ports@[0] != pt by {
                let t = linking->Tunnel_0;
                lemma_tunnel_link_sym(e0, n0, self.comps()[k2].ports@[0], t);
            }
        }
        self.components.insert(key, props);
        self.links.insert(key, linking);
        Ok(())
    }

    /// Removes a component from the circuit, unlinking its ports from the wire set.
    ///
    /// This returns [`ReprEditErr::ComponentDoesNotExist`] if the component does not exist,
    /// and then changes nothing.
    pub fn remove_component<V: ValueFinalizer>(&mut self, key: ComponentKey, vf: &mut V) -> (r: Result<(), ReprEditErr>)
        requires
            old(self).wf(),
        ensures
            final(self).wf(),
            r is Err <==> !old(self).comps().contains_key(key.0),
            r is Err ==> r == Err::<(), ReprEditErr>(ReprEditErr::ComponentDoesNotExist) && *final(self) == *old(self)
                && *final(vf) == *old(vf),
            r is Ok ==> final(self).comps() == old(self).comps().remove(key.0)
                && final(self).linking() == old(self).linking().remove(key.0),
            final(self).next() == old(self).next(),
            same_cover(old(self).wire_set().lines(), final(self).wire_set().lines()),
    {
        let (n, pt, linking) = match self.components.get(&key.0) {
            Some(p) => {
                let pt = if p.ports.len() > 0 { p.ports[0] } else { p.origin };
                (p.ports.len(), pt, *self.links.get(&key.0).unwrap())
            },
            None => return Err(ReprEditErr::ComponentDoesNotExist),
        };
        let ghost e0 = self.wires.edges();
        let ghost n0 = self.wires.nodes();
        proof {
            assert(self.linking().contains_key(key.0));
            assert(comp_linked(e0, key.0, self.comps()[key.0], linking));
            if let Linking::Tunnel(t) = linking {
                lemma_tunnel_link_sym(e0, n0, pt, t);
            }
        }
        remove_component_ports(&mut self.wires, key, n, pt, linking, vf);
        proof {
            lemma_links_agree_remove(self.comps(), self.linking(), e0, self.wires.edges(), n0, self.wires.nodes(), key.0, pt);
        }
        self.components.remove(&key.0);
        self.links.remove(&key.0);
        Ok(())
    }

    /// Whether every wire and every listed component can be moved by `delta`: the
    /// components exist, and nothing would leave the grid.
    pub open spec fn batch_movable(&self, components: Seq<ComponentKey>, wires: Seq<Wire>, delta: CoordDelta) -> bool {
        &&& forall|i: int| 0 <= i < wires.len() ==> #[trigger] moved_wire_spec(wires[i]@, delta) is Some
        &&& forall|i: int| 0 <= i < components.len() ==> self.comps().contains_key(#[trigger] components[i].0)
            && movable(self.comps()[components[i].0], delta)
    }

    /// Whether no listed tunnel, moved by `delta`, lands on the point of an unlisted
    /// tunnel with the same symbol.
    pub open spec fn tunnels_clear(&self, components: Seq<ComponentKey>, delta: CoordDelta) -> bool {
        forall|i: int, k2: u64| #![trigger components[i], self.comps()[k2]]
            0 <= i < components.len() && self.comps().contains_key(k2)
            && self.linking()[components[i].0] is Tunnel && self.linking()[k2] == self.linking()[components[i].0]
            && !components.contains(ComponentKey(k2))
            ==> Some(self.comps()[k2].ports@[0]) != coord_add_spec(self.comps()[components[i].0].ports@[0], delta)
    }

    /// The listed components laid out again with their origins moved by `delta`, each with
    /// how it is linked, or `None` if one does not exist or would leave the grid.
    fn moved_batch(&self, components: &[ComponentKey], delta: CoordDelta) -> (r: Option<(Vec<ComponentProps>, Vec<Linking>)>)
        requires
            self.wf(),
        ensures
            r is Some <==> forall|i: int| 0 <= i < components@.len() ==> self.comps().contains_key(#[trigger] components@[i].0)
                && movable(self.comps()[components@[i].0], delta),
            r matches Some((ps, ls)) ==> {
                &&& ps@.len() == components@.len()
                &&& ls@.len() == components@.len()
                &&& forall|j: int| 0 <= j < components@.len() ==> ls@[j] == self.linking()[(#[trigger] components@[j]).0]
                    && moved_props(self.comps()[components@[j].0], ps@[j], delta)
            },
    {
        let mut props: Vec<ComponentProps> = Vec::new();
        let mut lks: Vec<Linking> = Vec::new();
        let mut i: usize = 0;
        while i < components.len()
            invariant
                self.wf(),
                i <= components@.len(),
                props@.len() == i,
                lks@.len() == i,
                forall|j: int| 0 <= j < i ==> self.comps().contains_key(#[trigger] components@[j].0)
                    && movable(self.comps()[components@[j].0], delta)
                    && lks@[j] == self.linking()[components@[j].0]
                    && moved_props(self.comps()[components@[j].0], props@[j], delta),
            decreases components@.len() - i,
        {
            let k = components[i];
            let p = match self.components.get(&k.0) {
                Some(p) => p,
                None => return None,
            };
            let np = match moved_component(p, delta) {
                Some(np) => np,
                None => {
                    proof {
                        let b = choose|b: RelativeComponentBounds| #[trigger] p.inner.bounds_match(b, p.label@);
                        assert(!movable(self.comps()[components@[i as int].0], delta));
                    }
                    return None;
                },
            };
            proof {
                assert(self.linking().contains_key(k.0));
            }
            props.push(np);
            lks.push(*self.links.get(&k.0).unwrap());
            i = i + 1;
        }
        Some((props, lks))
    }

    /// Removes the first wire of each pair in turn.
    fn remove_each_wire<V: ValueFinalizer>(&mut self, pairs: &[(Wire, Wire)], vf: &mut V)
        requires
            old(self).wf(),
        ensures
            final(self).wf(),
            final(self).comps() == old(self).comps(),
            final(self).linking() == old(self).linking(),
            final(self).next() == old(self).next(),
            forall|pt: Coord, d: bool| #[trigger] covered(final(self).wire_set().lines(), pt, d)
                ==> covered(old(self).wire_set().lines(), pt, d),
            forall|pt: Coord, d: bool| covered(old(self).wire_set().lines(), pt, d) && !on_any_first(pairs@, pt, d)
                ==> #[trigger] covered(final(self).wire_set().lines(), pt, d),
            forall|pt: Coord, d: bool| inside_any_first(pairs@, pt, d) ==> !#[trigger] covered(final(self).wire_set().lines(), pt, d),
    {
        let ghost lines0 = self.wire_set().lines();
        let mut i: usize = 0;
        while i < pairs.len()
            invariant
                self.wf(),
                self.comps() == old(self).comps(),
                self.linking() == old(self).linking(),
                self.next() == old(self).next(),
                lines0 == old(self).wire_set().lines(),
                i <= pairs@.len(),
                forall|pt: Coord, d: bool| #[trigger] covered(self.wire_set().lines(), pt, d) ==> covered(lines0, pt, d),
                forall|pt: Coord, d: bool| covered(lines0, pt, d) && !on_any_first(pairs@.take(i as int), pt, d)
                    ==> #[trigger] covered(self.wire_set().lines(), pt, d),
                forall|pt: Coord, d: bool| inside_any_first(pairs@.take(i as int), pt, d) ==> !#[trigger] covered(self.wire_set().lines(), pt, d),
            decreases pairs@.len() - i,
        {
            let w = pairs[i].0;
            let _ = self.remove_wire(w, vf);
            proof {
                let ii = i as int;
                assert(pairs@.take(ii + 1) =~= pairs@.take(ii).push(pairs@[ii]));
                assert forall|pt: Coord, d: bool| covered(lines0, pt, d) && !on_any_first(pairs@.take(ii + 1), pt, d)
                    implies #[trigger] covered(self.wire_set().lines(), pt, d) by {
                    if on_any_first(pairs@.take(ii), pt, d) {
                        let j = choose|j: int| 0 <= j < pairs@.take(ii).len() && #[trigger] on_wire(pairs@.take(ii)[j].0@, pt, d);
                        assert(pairs@.take(ii + 1)[j] == pairs@.take(ii)[j]);
                    }
                    if on_wire(w@, pt, d) {
                        assert(pairs@.take(ii + 1)[ii] == pairs@[ii]);
                    }
                }
                assert forall|pt: Coord, d: bool| inside_any_first(pairs@.take(ii + 1), pt, d)
                    implies !#[trigger] covered(self.wire_set().lines(), pt, d) by {
                    let j = choose|j: int| 0 <= j < pairs@.take(ii + 1).len() && #[trigger] inside_of(pairs@.take(ii + 1)[j].0@, pt, d);
                    if j < ii {
                        assert(pairs@.take(ii)[j] == pairs@.take(ii + 1)[j]);
                        assert(inside_any_first(pairs@.take(ii), pt, d));
                    }
                }
            }
            i = i + 1;
        }
        proof {
            assert(pairs@.take(pairs@.len() as int) =~= pairs@);
        }
    }

    /// Adds the second wire of each pair in turn.
    fn add_each_wire<V: ValueFinalizer>(&mut self, pairs: &[(Wire, Wire)], vf: &mut V)
        requires
            old(self).wf(),
        ensures
            final(self).wf(),
            final(self).comps() == old(self).comps(),
            final(self).linking() == old(self).linking(),
            final(self).next() == old(self).next(),
            forall|pt: Coord, d: bool| #[trigger] covered(final(self).wire_set().lines(), pt, d)
                == (covered(old(self).wire_set().lines(), pt, d) || on_any_second(pairs@, pt, d)),
    {
        let ghost lines0 = self.wire_set().lines();
        let mut i: usize = 0;
        while i < pairs.len()
            invariant
                self.wf(),
                self.comps() == old(self).comps(),
                self.linking() == old(self).linking(),
                self.next() == old(self).next(),
                lines0 == old(self).wire_set().lines(),
                i <= pairs@.len(),
                forall|pt: Coord, d: bool| #[trigger] covered(self.wire_set().lines(), pt, d)
                    == (covered(lines0, pt, d) || on_any_second(pairs@.take(i as int), pt, d)),
            decreases pairs@.len() - i,
        {
            let w = pairs[i].1;
            let _ = self.add_wire(w, vf);
            proof {
                let ii = i as int;
                assert(pairs@.take(ii + 1) =~= pairs@.take(ii).push(pairs@[ii]));
                assert forall|pt: Coord, d: bool| #[trigger] covered(self.wire_set().lines(), pt, d)
                    == (covered(lines0, pt, d) || on_any_second(pairs@.take(ii + 1), pt, d)) by {
                    if on_any_second(pairs@.take(ii), pt, d) {
                        let j = choose|j: int| 0 <= j < pairs@.take(ii).len() && #[trigger] on_wire(pairs@.take(ii)[j].1@, pt, d);
                        assert(pairs@.take(ii + 1)[j] == pairs@.take(ii)[j]);
                    }
                    if on_wire(w@, pt, d) {
                        assert(pairs@.take(ii + 1)[ii] == pairs@[ii]);
                    }
                    if on_any_second(pairs@.take(ii + 1), pt, d) {
                        let j = choose|j: int| 0 <= j < pairs@.take(ii + 1).len() && #[trigger] on_wire(pairs@.take(ii + 1)[j].1@, pt, d);
                        if j < ii {
                            assert(pairs@.take(ii)[j] == pairs@.take(ii + 1)[j]);
                        }
                    }
                }
            }
            i = i + 1;
        }
        proof {
            assert(pairs@.take(pairs@.len() as int) =~= pairs@);
        }
    }

    /// Removes each of the listed components, all of which exist, in turn.
    fn unlink_each<V: ValueFinalizer>(&mut self, components: &[ComponentKey], vf: &mut V)
        requires
            old(self).wf(),
            components@.no_duplicates(),
            forall|j: int| 0 <= j < components@.len() ==> old(self).comps().contains_key(#[trigger] components@[j].0),
        ensures
            final(self).wf(),
            final(self).next() == old(self).next(),
            forall|k: u64| #[trigger] final(self).comps().contains_key(k)
                <==> old(self).comps().contains_key(k) && !components@.contains(ComponentKey(k)),
            forall|k: u64| #[trigger] final(self).comps().contains_key(k)
                ==> final(self).comps()[k] == old(self).comps()[k] && final(self).linking()[k] == old(self).linking()[k],
            same_cover(old(self).wire_set().lines(), final(self).wire_set().lines()),
    {
        let ghost c0 = self.comps();
        let ghost l0 = self.linking();
        let ghost lines0 = self.wire_set().lines();
        let mut i: usize = 0;
        while i < components.len()
            invariant
                self.wf(),
                self.next() == old(self).next(),
                c0 == old(self).comps(),
                l0 == old(self).linking(),
                lines0 == old(self).wire_set().lines(),
                i <= components@.len(),
                components@.no_duplicates(),
                forall|j: int| 0 <= j < components@.len() ==> c0.contains_key(#[trigger] components@[j].0),
                forall|k: u64| #[trigger] self.comps().contains_key(k)
                    <==> c0.contains_key(k) && !components@.take(i as int).contains(ComponentKey(k)),
                forall|k: u64| #[trigger] self.comps().contains_key(k) ==> self.comps()[k] == c0[k] && self.linking()[k] == l0[k],
                same_cover(lines0, self.wire_set().lines()),
            decreases components@.len() - i,
        {
            let k = components[i];
            proof {
                let ii = i as int;
                assert(c0.contains_key(k.0));
                assert(ComponentKey(k.0) == k);
                if components@.take(ii).contains(k) {
                    let j = choose|j: int| 0 <= j < components@.take(ii).len() && #[trigger] components@.take(ii)[j] == k;
                    assert(components@[j] == components@[ii]);
                }
            }
            let _ = self.remove_component(k, vf);
            proof {
                let ii = i as int;
                assert(components@.take(ii + 1) =~= components@.take(ii).push(k));
                assert forall|k2: u64| #[trigger] self.comps().contains_key(k2)
                    <==> c0.contains_key(k2) && !components@.take(ii + 1).contains(ComponentKey(k2)) by {
                    lemma_push_contains(components@.take(ii), k, ComponentKey(k2));
                }
            }
            i = i + 1;
        }
        proof {
            assert(components@.take(components@.len() as int) =~= components@);
        }
    }

    /// Replaces the listed components, all of which exist, by `props` linked as `lks`,
    /// and the first wire of each pair by the second: the wires are removed and the
    /// components unlinked first, then the new wires are added and the components linked
    /// again, under their own keys.
    fn batch_overwrite<V: ValueFinalizer>(&mut self, components: &[ComponentKey], props: Vec<ComponentProps>,
        lks: &[Linking], pairs: &[(Wire, Wire)], vf: &mut V)
        requires
            old(self).wf(),
            components@.no_duplicates(),
            props@.len() == components@.len(),
            lks@.len() == components@.len(),
            forall|j: int| 0 <= j < components@.len() ==> old(self).comps().contains_key(#[trigger] components@[j].0),
            batch_fits(*old(self), components@, props@, lks@),
        ensures
            final(self).wf(),
            final(self).next() == old(self).next(),
            final(self).comps().dom() == old(self).comps().dom(),
            final(self).linking().dom() == old(self).linking().dom(),
            forall|j: int| 0 <= j < components@.len() ==> final(self).comps()[(#[trigger] components@[j]).0] == props@[j]
                && final(self).linking()[components@[j].0] == lks@[j],
            forall|k: u64| #[trigger] old(self).comps().contains_key(k) && !components@.contains(ComponentKey(k))
                ==> final(self).comps()[k] == old(self).comps()[k] && final(self).linking()[k] == old(self).linking()[k],
            forall|pt: Coord, d: bool| #[trigger] covered(final(self).wire_set().lines(), pt, d)
                ==> covered(old(self).wire_set().lines(), pt, d) || on_any_second(pairs@, pt, d),
            forall|pt: Coord, d: bool| on_any_second(pairs@, pt, d)
                || (covered(old(self).wire_set().lines(), pt, d) && !on_any_first(pairs@, pt, d))
                ==> #[trigger] covered(final(self).wire_set().lines(), pt, d),
            forall|pt: Coord, d: bool| inside_any_first(pairs@, pt, d) && !on_any_second(pairs@, pt, d)
                ==> !#[trigger] covered(final(self).wire_set().lines(), pt, d),
    {
        let ghost orig = *old(self);
        self.remove_each_wire(pairs, vf);
        let ghost lines1 = self.wire_set().lines();
        self.unlink_each(components, vf);
        let ghost lines2 = self.wire_set().lines();
        self.add_each_wire(pairs, vf);
        let ghost lines3 = self.wire_set().lines();
        self.relink_each(components, props, lks, Ghost(orig), vf);
        proof {
            let lf = self.wire_set().lines();
            assert forall|pt: Coord, d: bool| #[trigger] covered(lf, pt, d)
                == (covered(lines1, pt, d) || on_any_second(pairs@, pt, d)) by {
                assert(covered(lf, pt, d) == covered(lines3, pt, d));
                assert(covered(lines2, pt, d) == covered(lines1, pt, d));
            }
        }
    }

    /// Replaces the listed components by those their arguments lay out, linked as given,
    /// and the first wire of each pair by the second, all or nothing: if any component
    /// would leave the grid, nothing changes and this returns `false`.
    pub fn batch_construct_and_overwrite<V: ValueFinalizer>(&mut self,
        components: &[(ComponentKey, AddComponentArgs<'_>, Linking)], wires: &[(Wire, Wire)], vf: &mut V) -> (r: bool)
        requires
            old(self).wf(),
            forall|j: int| 0 <= j < components@.len() ==> (#[trigger] components@[j]).1.inner.has_bounds(components@[j].1.label@)
                && linking_fits(components@[j].1.inner, components@[j].1.label@, components@[j].2),
            forall|j: int, b: RelativeComponentBounds| 0 <= j < components@.len() && components@[j].2 is Tunnel
                && #[trigger] components@[j].1.inner.bounds_match(b, components@[j].1.label@) ==> b.ports@.len() == 1,
            all_fit(components@) ==> {
                &&& keys_of(components@).no_duplicates()
                &&& forall|j: int| 0 <= j < components@.len() ==> old(self).comps().contains_key((#[trigger] components@[j]).0.0)
                &&& forall|ps: Seq<ComponentProps>| ps.len() == components@.len()
                    && (forall|j: int| 0 <= j < ps.len() ==> constructed_from(components@[j].1, #[trigger] ps[j]))
                    ==> #[trigger] batch_fits(*old(self), keys_of(components@), ps, lks_of(components@))
            },
        ensures
            final(self).wf(),
            r == all_fit(components@),
            !r ==> *final(self) == *old(self) && *final(vf) == *old(vf),
            r ==> {
                &&& final(self).comps().dom() == old(self).comps().dom()
                &&& final(self).linking().dom() == old(self).linking().dom()
                &&& final(self).next() == old(self).next()
                &&& forall|j: int| 0 <= j < components@.len() ==> constructed_from(components@[j].1,
                    final(self).comps()[(#[trigger] components@[j]).0.0]) && final(self).linking()[components@[j].0.0] == components@[j].2
                &&& forall|k: u64| #[trigger] old(self).comps().contains_key(k) && !keys_of(components@).contains(ComponentKey(k))
                    ==> final(self).comps()[k] == old(self).comps()[k] && final(self).linking()[k] == old(self).linking()[k]
                &&& forall|pt: Coord, d: bool| #[trigger] covered(final(self).wire_set().lines(), pt, d)
                    ==> covered(old(self).wire_set().lines(), pt, d) || on_any_second(wires@, pt, d)
                &&& forall|pt: Coord, d: bool| on_any_second(wires@, pt, d)
                    || (covered(old(self).wire_set().lines(), pt, d) && !on_any_first(wires@, pt, d))
                    ==> #[trigger] covered(final(self).wire_set().lines(), pt, d)
                &&& forall|pt: Coord, d: bool| inside_any_first(wires@, pt, d) && !on_any_second(wires@, pt, d)
                    ==> !#[trigger] covered(final(self).wire_set().lines(), pt, d)
            },
    {
        let mut props: Vec<ComponentProps> = Vec::new();
        let mut keys: Vec<ComponentKey> = Vec::new();
        let mut lks: Vec<Linking> = Vec::new();
        let mut i: usize = 0;
        while i < components.len()
            invariant
                self.wf(),
                *self == *old(self),
                *vf == *old(vf),
                i <= components@.len(),
                props@.len() == i,
                keys@.len() == i,
                lks@.len() == i,
                forall|j: int| 0 <= j < components@.len() ==> (#[trigger] components@[j]).1.inner.has_bounds(components@[j].1.label@),
                forall|j: int| 0 <= j < i ==> keys@[j] == (#[trigger] components@[j]).0 && lks@[j] == components@[j].2
                    && constructed_from(components@[j].1, props@[j]),
                forall|j: int, b: RelativeComponentBounds| 0 <= j < i
                    && #[trigger] components@[j].1.inner.bounds_match(b, components@[j].1.label@)
                    ==> fits_at(b.bounds, b.ports@, components@[j].1.origin),
            decreases components@.len() - i,
        {
            let (k, args, linking) = components[i];
            let p = match construct_component(args) {
                Ok(p) => p,
                Err(_) => {
                    proof {
                        let b = choose|b: RelativeComponentBounds| #[trigger] args.inner.bounds_match(b, args.label@);
                        assert(components@[i as int].1 == args);
                        assert(!fits_at(b.bounds, b.ports@, components@[i as int].1.origin));
                    }
                    return false;
                },
            };
            props.push(p);
            keys.push(k);
            lks.push(linking);
            i = i + 1;
        }
        proof {
            assert(keys@ =~= keys_of(components@));
            assert(lks@ =~= lks_of(components@));
            assert(all_fit(components@));
            assert forall|j: int| 0 <= j < props@.len() implies constructed_from(components@[j].1, #[trigger] props@[j]) by {
                assert(components@[j] == components@[j]);
            }
            assert(batch_fits(*old(self), keys_of(components@), props@, lks_of(components@)));
            assert forall|j: int| 0 <= j < keys@.len() implies old(self).comps().contains_key(#[trigger] keys@[j].0) by {
                assert(components@[j] == components@[j]);
            }
        }
        let ghost ps = props@;
        self.batch_overwrite(keys.as_slice(), props, lks.as_slice(), wires, vf);
        proof {
            assert forall|j: int| 0 <= j < components@.len() implies constructed_from(components@[j].1,
                self.comps()[(#[trigger] components@[j]).0.0]) && self.linking()[components@[j].0.0] == components@[j].2 by {
                assert(keys@[j] == components@[j].0);
            }
        }
        true
    }

    /// Moves the listed components and wires by `delta`, all or nothing: if any wire or
    /// component would leave the grid, or a component does not exist, nothing moves and
    /// this returns `false`.
    ///
    /// The wires are removed and the components unlinked first, then the moved wires are
    /// added and the moved components linked again, under their own keys.
    pub fn batch_move<V: ValueFinalizer>(&mut self, components: &[ComponentKey], wires: &[Wire], delta: CoordDelta,
        vf: &mut V) -> (r: bool)
        requires
            old(self).wf(),
            delta != (0i32, 0i32) && old(self).batch_movable(components@, wires@, delta)
                ==> components@.no_duplicates() && old(self).tunnels_clear(components@, delta),
        ensures
            final(self).wf(),
            r == (delta == (0i32, 0i32) || old(self).batch_movable(components@, wires@, delta)),
            !r || delta == (0i32, 0i32) ==> *final(self) == *old(self) && *final(vf) == *old(vf),
            r && delta != (0i32, 0i32) ==> {
                &&& final(self).comps().dom() == old(self).comps().dom()
                &&& final(self).linking() == old(self).linking()
                &&& final(self).next() == old(self).next()
                &&& forall|i: int| 0 <= i < components@.len() ==> moved_props(old(self).comps()[(#[trigger] components@[i]).0],
                    final(self).comps()[components@[i].0], delta)
                &&& forall|k: u64| #[trigger] old(self).comps().contains_key(k) && !components@.contains(ComponentKey(k))
                    ==> final(self).comps()[k] == old(self).comps()[k]
                &&& forall|pt: Coord, d: bool| #[trigger] covered(final(self).wire_set().lines(), pt, d)
                    ==> covered(old(self).wire_set().lines(), pt, d) || on_any_moved(wires@, delta, pt, d)
                &&& forall|pt: Coord, d: bool| on_any_moved(wires@, delta, pt, d)
                    || (covered(old(self).wire_set().lines(), pt, d) && !on_any(wires@, pt, d))
                    ==> #[trigger] covered(final(self).wire_set().lines(), pt, d)
                &&& forall|pt: Coord, d: bool| inside_any(wires@, pt, d) && !on_any_moved(wires@, delta, pt, d)
                    ==> !#[trigger] covered(final(self).wire_set().lines(), pt, d)
            },
    {
        if delta.0 == 0 && delta.1 == 0 {
            return true;
        }
        proof {
            assert(delta != (0i32, 0i32));
        }
        let moved = match moved_wires(wires, delta) {
            Some(m) => m,
            None => return false,
        };
        let (props, lks) = match self.moved_batch(components, delta) {
            Some(x) => x,
            None => return false,
        };
        proof {
            assert(self.batch_movable(components@, wires@, delta));
            assert forall|pt: Coord, d: bool| on_any_second(moved@, pt, d) == on_any_moved(wires@, delta, pt, d) by {
                if on_any_second(moved@, pt, d) {
                    let j = choose|j: int| 0 <= j < moved@.len() && #[trigger] on_wire(moved@[j].1@, pt, d);
                    assert(Some(moved@[j].1@) == moved_wire_spec(wires@[j]@, delta));
                    assert(on_wire(moved_wire_spec(wires@[j]@, delta)->0, pt, d));
                }
                if on_any_moved(wires@, delta, pt, d) {
                    let j = choose|j: int| 0 <= j < wires@.len() && #[trigger] on_wire(moved_wire_spec(wires@[j]@, delta)->0, pt, d);
                    assert(Some(moved@[j].1@) == moved_wire_spec(wires@[j]@, delta));
                    assert(on_wire(moved@[j].1@, pt, d));
                }
            }
        }
        proof {
            assert forall|pt: Coord, d: bool| on_any_first(moved@, pt, d) == on_any(wires@, pt, d) by {
                if on_any_first(moved@, pt, d) {
                    let j = choose|j: int| 0 <= j < moved@.len() && #[trigger] on_wire(moved@[j].0@, pt, d);
                    assert(on_wire(wires@[j]@, pt, d));
                }
                if on_any(wires@, pt, d) {
                    let j = choose|j: int| 0 <= j < wires@.len() && #[trigger] on_wire(wires@[j]@, pt, d);
                    assert(on_wire(moved@[j].0@, pt, d));
                }
            }
            assert forall|pt: Coord, d: bool| inside_any_first(moved@, pt, d) == inside_any(wires@, pt, d) by {
                if inside_any_first(moved@, pt, d) {
                    let j = choose|j: int| 0 <= j < moved@.len() && #[trigger] inside_of(moved@[j].0@, pt, d);
                    assert(inside_of(wires@[j]@, pt, d));
                }
                if inside_any(wires@, pt, d) {
                    let j = choose|j: int| 0 <= j < wires@.len() && #[trigger] inside_of(wires@[j]@, pt, d);
                    assert(inside_of(moved@[j].0@, pt, d));
                }
            }
            lemma_moved_batch_fits(*old(self), components@, props@, lks@, delta);
        }
        self.batch_overwrite(components, props, lks.as_slice(), moved.as_slice(), vf);
        proof {
            assert(self.linking() =~= old(self).linking());
        }
        true
    }

    /// Links the listed components again, unlinked from `orig`, with the properties
    /// `props` and the linkings `lks`.
    fn relink_each<V: ValueFinalizer>(&mut self, components: &[ComponentKey], props: Vec<ComponentProps>, lks: &[Linking],
        Ghost(orig): Ghost<CircuitArea>, vf: &mut V)
        requires
            old(self).wf(),
            orig.wf(),
            old(self).next() == orig.next(),
            components@.no_duplicates(),
            props@.len() == components@.len(),
            lks@.len() == components@.len(),
            forall|j: int| 0 <= j < components@.len() ==> orig.comps().contains_key(#[trigger] components@[j].0),
            batch_fits(orig, components@, props@, lks@),
            forall|k: u64| #[trigger] old(self).comps().contains_key(k)
                <==> orig.comps().contains_key(k) && !components@.contains(ComponentKey(k)),
            forall|k: u64| #[trigger] old(self).comps().contains_key(k)
                ==> old(self).comps()[k] == orig.comps()[k] && old(self).linking()[k] == orig.linking()[k],
        ensures
            final(self).wf(),
            final(self).next() == orig.next(),
            final(self).comps().dom() == orig.comps().dom(),
            final(self).linking().dom() == orig.linking().dom(),
            forall|j: int| 0 <= j < components@.len() ==> final(self).comps()[(#[trigger] components@[j]).0] == props@[j]
                && final(self).linking()[components@[j].0] == lks@[j],
            forall|k: u64| #[trigger] orig.comps().contains_key(k) && !components@.contains(ComponentKey(k))
                ==> final(self).comps()[k] == orig.comps()[k] && final(self).linking()[k] == orig.linking()[k],
            same_cover(old(self).wire_set().lines(), final(self).wire_set().lines()),
    {
        let ghost c0 = orig.comps();
        let ghost l0 = orig.linking();
        let ghost ps = props@;
        let ghost lines0 = self.wire_set().lines();
        let mut props = props;
        proof {
            assert(components@.skip(0) =~= components@);
        }
        let mut i: usize = 0;
        while i < components.len()
            invariant
                self.wf(),
                self.next() == orig.next(),
                orig.wf(),
                c0 == orig.comps(),
                l0 == orig.linking(),
                lines0 == old(self).wire_set().lines(),
                batch_fits(orig, components@, ps, lks@),
                components@.no_duplicates(),
                i <= components@.len(),
                ps.len() == components@.len(),
                props@.len() == components@.len() - i,
                lks@.len() == components@.len(),
                forall|j: int| 0 <= j < components@.len() ==> c0.contains_key(#[trigger] components@[j].0),
                forall|j: int| 0 <= j < props@.len() ==> #[trigger] props@[j] == ps[i + j],
                forall|k: u64| #[trigger] self.comps().contains_key(k)
                    <==> c0.contains_key(k) && !components@.skip(i as int).contains(ComponentKey(k)),
                forall|k: u64| #[trigger] self.comps().contains_key(k) && !components@.contains(ComponentKey(k))
                    ==> self.comps()[k] == c0[k] && self.linking()[k] == l0[k],
                forall|j: int| 0 <= j < i ==> self.comps()[(#[trigger] components@[j]).0] == ps[j]
                    && self.linking()[components@[j].0] == lks@[j],
                same_cover(lines0, self.wire_set().lines()),
            decreases components@.len() - i,
        {
            let k = components[i];
            let ghost props_before = props@;
            let np = props.remove(0);
            let linking = lks[i];
            proof {
                let ii = i as int;
                assert(np == ps[ii]);
                assert(components@.skip(ii)[0] == k);
                assert(!self.comps().contains_key(k.0));
                if let Linking::Tunnel(t) = linking {
                    let e = self.wire_set().edges();
                    if e.contains_key((joint(np.ports@[0]), tunnel_node(t))) {
                        assert(tunnel_owned(self.comps(), self.linking(), np.ports@[0], t));
                        let k2 = choose|k2: u64| #[trigger] self.comps().contains_key(k2) && self.linking()[k2] == Linking::Tunnel(t)
                            && self.comps()[k2].ports@.len() == 1 && self.comps()[k2].ports@[0] == np.ports@[0];
                        if components@.contains(ComponentKey(k2)) {
                            let j = choose|j: int| 0 <= j < components@.len() && #[trigger] components@[j] == ComponentKey(k2);
                            if j >= ii {
                                assert(components@.skip(ii)[j - ii] == ComponentKey(k2));
                                assert(false);
                            }
                            assert(self.comps()[components@[j].0] == ps[j]);
                            assert(components@[j] != components@[ii]);
                            assert(false);
                        } else {
                            assert(components@[ii] == k);
                            assert(false);
                        }
                    }
                }
            }
            let res = self.place_component(k.0, np, linking, vf);
            proof {
                assert(res is Ok);
                let ii = i as int;
                assert(components@.skip(ii) =~= seq![k] + components@.skip(ii + 1));
                assert forall|k2: u64| #[trigger] self.comps().contains_key(k2)
                    <==> c0.contains_key(k2) && !components@.skip(ii + 1).contains(ComponentKey(k2)) by {
                    lemma_cons_contains(k, components@.skip(ii + 1), ComponentKey(k2));
                    if k2 == k.0 && components@.skip(ii + 1).contains(k) {
                        let j = choose|j: int| 0 <= j < components@.skip(ii + 1).len() && #[trigger] components@.skip(ii + 1)[j] == k;
                        assert(components@[ii + 1 + j] == components@[ii]);
                    }
                }
                assert forall|j: int| 0 <= j < ii + 1 implies self.comps()[(#[trigger] components@[j]).0] == ps[j]
                    && self.linking()[components@[j].0] == lks@[j] by {
                    if j < ii {
                        assert(components@[j] != components@[ii]);
                    }
                }
                assert forall|j: int| 0 <= j < props@.len() implies #[trigger] props@[j] == ps[ii + 1 + j] by {
                    assert(props@[j] == props_before[j + 1]);
                }
            }
            i = i + 1;
        }
        proof {
            assert(components@.skip(components@.len() as int) =~= Seq::<ComponentKey>::empty());
            assert(self.comps().dom() =~= c0.dom());
            assert(self.linking().dom() =~= l0.dom());
        }
    }

    /// The wire set of the circuit.
    pub fn wire_set_ref(&self) -> (r: &WireSet)
        ensures
            *r == self.wire_set(),
    {
        &self.wires
    }

    /// An empty circuit.
    pub fn new() -> (r: Self)
        ensures
            r.wf(),
            r.comps() == Map::<u64, ComponentProps>::empty(),
            r.wire_set().edges().dom() == Set::<MeshEdge>::empty(),
            r.wire_set().lines().0 == Map::<u32, Map<u32, u32>>::empty(),
            r.wire_set().lines().1 == Map::<u32, Map<u32, u32>>::empty(),
    {
        let r = CircuitArea { components: HashMap::new(), links: HashMap::new(), next_key: 0, wires: WireSet::new() };
        proof {
            assert(r.comps() =~= Map::<u64, ComponentProps>::empty());
            assert(r.linking() =~= Map::<u64, Linking>::empty());
        }
        r
    }
}

} // verus!
