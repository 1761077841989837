//! Linking the ports of a component into a wire set, and unlinking them.

use vstd::prelude::*;
use crate::middle_end::{ComponentKey, Coord, ReprEditErr, TunnelSymbol};
use crate::middle_end::wire::wire_set::{
    MeshNode, ValueFinalizer, WireSet, edges_without, has_edge, joint, lemma_edge_facts_pub, port_node, same_links,
    tunnel_node,
};

verus! {

/// How a component is linked into the wire set.
#[derive(Debug, Clone, Copy, PartialEq, Eq, Structural)]
pub enum Linking {
    /// Each port of the component is linked at its point.
    Ports,
    /// A tunnel with a label: its one point is linked to the tunnel of its label.
    Tunnel(TunnelSymbol),
    /// A tunnel without a label, which is linked to nothing.
    UnlabeledTunnel,
}

/// Whether the edge from `a` to `b` is a link of the component `key`, linked as
/// `linking` with its tunnel at the point `pt`.
pub open spec fn own_link(key: ComponentKey, linking: Linking, pt: Coord, a: MeshNode, b: MeshNode) -> bool {
    match linking {
        Linking::Ports => a.0 == 1 && a.1 == key.0,
        Linking::Tunnel(t) => a == tunnel_node(t) && b == joint(pt),
        Linking::UnlabeledTunnel => false,
    }
}

/// Whether the links other than those of the component are the same in both.
pub open spec fn others_kept(e0: Map<(MeshNode, MeshNode), crate::engine::ValueKey>, e1: Map<(MeshNode, MeshNode), crate::engine::ValueKey>,
    key: ComponentKey, linking: Linking, pt: Coord) -> bool {
    forall|a: MeshNode, b: MeshNode| a.0 != 0 && !own_link(key, linking, pt, a, b)
        ==> (#[trigger] e0.contains_key((a, b)) <==> e1.contains_key((a, b)))
}

/// A node whose pairs are the same in both graphs has an edge in both or in neither.
proof fn lemma_has_edge_kept(e0: Map<(MeshNode, MeshNode), crate::engine::ValueKey>, e1: Map<(MeshNode, MeshNode), crate::engine::ValueKey>, x: MeshNode)
    requires
        forall|b: MeshNode| #[trigger] e0.contains_key((x, b)) <==> e1.contains_key((x, b)),
    ensures
        has_edge(e0, x) == has_edge(e1, x),
{
    if has_edge(e0, x) {
        let b = choose|b: MeshNode| #[trigger] e0.contains_key((x, b));
    }
    if has_edge(e1, x) {
        let b = choose|b: MeshNode| #[trigger] e1.contains_key((x, b));
        assert(e0.contains_key((x, b)));
    }
}

/// The port nodes of `key` with index `i` differ for different indices.
proof fn lemma_port_nodes_distinct(key: ComponentKey, i: usize, j: usize)
    requires
        i != j,
    ensures
        port_node(key, i) != port_node(key, j),
        port_node(key, i).0 == 1,
{
}

/// Links the ports of the component `key`, at the points `ports`, into the wire set.
///
/// A component that is not a tunnel gets each of its ports linked at its point, in order.
/// A tunnel with a label has its one point linked to its tunnel; if that link already
/// exists, this fails with [`ReprEditErr::RedundantTunnel`] and changes nothing. A tunnel
/// without a label is linked to nothing.
pub fn add_component_ports<V: ValueFinalizer>(ws: &mut WireSet, key: ComponentKey, ports: &[Coord], linking: Linking, vf: &mut V)
    -> (r: Result<(), ReprEditErr>)
    requires
        old(ws).wf(),
        linking is Tunnel ==> ports@.len() == 1,
        linking is Ports ==> forall|i: int| 0 <= i < ports@.len() ==> !#[trigger] old(ws).nodes().contains(port_node(key, i as usize)),
    ensures
        final(ws).wf(),
        linking is Ports ==> r is Ok && forall|i: int| 0 <= i < ports@.len()
            ==> #[trigger] final(ws).edges().contains_key((port_node(key, i as usize), joint(ports@[i]))),
        linking matches Linking::Tunnel(t) ==> {
            &&& (r is Err <==> old(ws).edges().contains_key((joint(ports@[0]), tunnel_node(t))))
            &&& r is Err ==> r == Err::<(), ReprEditErr>(ReprEditErr::RedundantTunnel)
                && final(ws).edges() == old(ws).edges() && final(ws).nodes() == old(ws).nodes()
                && final(ws).lines() == old(ws).lines()
            &&& r is Ok ==> final(ws).edges().contains_key((joint(ports@[0]), tunnel_node(t)))
        },
        linking is UnlabeledTunnel ==> r is Ok && *final(ws) == *old(ws) && *final(vf) == *old(vf),
        linking is Tunnel || linking is Ports ==> others_kept(old(ws).edges(), final(ws).edges(), key, linking,
            if ports@.len() > 0 { ports@[0] } else { (0u32, 0u32) }),
        forall|x: MeshNode| x.0 == 1 && #[trigger] has_edge(final(ws).edges(), x) && !has_edge(old(ws).edges(), x)
            ==> linking is Ports && exists|i: int| 0 <= i < ports@.len() && x == #[trigger] port_node(key, i as usize),        crate::middle_end::wire::wire_set::same_cover(old(ws).lines(), final(ws).lines()),
{
    match linking {
        Linking::UnlabeledTunnel => Ok(()),
        Linking::Tunnel(t) => {
            let ghost e0 = ws.edges();
            let r = ws.add_tunnel(ports[0], t, vf);
            proof {
                assert forall|x: MeshNode| x.0 == 1 implies #[trigger] has_edge(ws.edges(), x) == has_edge(e0, x) by {
                    assert(x != tunnel_node(t));
                    lemma_has_edge_kept(e0, ws.edges(), x);
                }
            }
            match r {
                Some(_) => Ok(()),
                None => Err(ReprEditErr::RedundantTunnel),
            }
        },
        Linking::Ports => {
            let mut i: usize = 0;
            while i < ports.len()
                invariant
                    ws.wf(),
                    i <= ports@.len(),
                    others_kept(old(ws).edges(), ws.edges(), key, Linking::Ports, (0u32, 0u32)),
                    forall|x: MeshNode| x.0 == 1 && #[trigger] has_edge(ws.edges(), x) && !has_edge(old(ws).edges(), x)
                        ==> exists|j: int| 0 <= j < i && x == #[trigger] port_node(key, j as usize),
                    forall|j: int| 0 <= j < i ==> #[trigger] ws.edges().contains_key((port_node(key, j as usize), joint(ports@[j]))),
                    forall|j: int| i <= j < ports@.len() ==> !#[trigger] ws.nodes().contains(port_node(key, j as usize)),
                    crate::middle_end::wire::wire_set::same_cover(old(ws).lines(), ws.lines()),
                decreases ports@.len() - i,
            {
                let ghost e0 = ws.edges();
                let ghost n0 = ws.nodes();
                let r = ws.add_port(ports[i], key, i, vf);
                proof {
                    let ii = i as int;
                    assert(!n0.contains(port_node(key, ii as usize)));
                    assert(ii as usize == i);
                    lemma_edge_facts_pub(ws.edges(), ws.nodes(), joint(ports@[i as int]), port_node(key, i));
                    assert forall|j: int| 0 <= j < i + 1 implies #[trigger] ws.edges().contains_key((port_node(key, j as usize), joint(ports@[j]))) by {
                        if j < i {
                            lemma_port_nodes_distinct(key, j as usize, i);
                            assert(e0.contains_key((port_node(key, j as usize), joint(ports@[j]))));
                        }
                    }
                    assert forall|a: MeshNode, b: MeshNode| a.0 != 0 && !own_link(key, Linking::Ports, (0u32, 0u32), a, b)
                        implies (#[trigger] old(ws).edges().contains_key((a, b)) <==> ws.edges().contains_key((a, b))) by {
                        assert(a != port_node(key, i));
                        assert(old(ws).edges().contains_key((a, b)) <==> e0.contains_key((a, b)));
                    }
                    assert forall|x: MeshNode| x.0 == 1 && #[trigger] has_edge(ws.edges(), x) && !has_edge(old(ws).edges(), x)
                        implies exists|j: int| 0 <= j < i + 1 && x == #[trigger] port_node(key, j as usize) by {
                        if x != port_node(key, i) {
                            lemma_has_edge_kept(e0, ws.edges(), x);
                            let j = choose|j: int| 0 <= j < i && x == #[trigger] port_node(key, j as usize);
                        } else {
                            assert(x == port_node(key, ii as usize));
                        }
                    }
                    assert forall|j: int| i + 1 <= j < ports@.len() implies !#[trigger] ws.nodes().contains(port_node(key, j as usize)) by {
                        lemma_port_nodes_distinct(key, j as usize, i);
                        assert(!n0.contains(port_node(key, j as usize)));
                    }
                }
                i = i + 1;
            }
            Ok(())
        },
    }
}

/// Unlinks the ports of the component `key`, which has `n_ports` ports and, if it is a
/// tunnel, its point at `origin`, from the wire set.
///
/// A component that is not a tunnel has each of its ports unlinked; a tunnel with a
/// label has the link between its point and its tunnel removed; a tunnel without a label
/// changes nothing.
pub fn remove_component_ports<V: ValueFinalizer>(ws: &mut WireSet, key: ComponentKey, n_ports: usize, origin: Coord,
    linking: Linking, vf: &mut V)
    requires
        old(ws).wf(),
        linking is Ports ==> forall|i: int| 0 <= i < n_ports ==> #[trigger] has_edge(old(ws).edges(), port_node(key, i as usize)),
        linking matches Linking::Tunnel(t) ==> old(ws).edges().contains_key((joint(origin), tunnel_node(t))),
    ensures
        final(ws).wf(),
        linking is Ports ==> forall|i: int| 0 <= i < n_ports ==> !#[trigger] has_edge(final(ws).edges(), port_node(key, i as usize)),
        linking matches Linking::Tunnel(t) ==> !final(ws).edges().contains_key((joint(origin), tunnel_node(t))),
        linking is UnlabeledTunnel ==> *final(ws) == *old(ws) && *final(vf) == *old(vf),
        others_kept(old(ws).edges(), final(ws).edges(), key, linking, origin),
        forall|x: MeshNode| x.0 == 1 && #[trigger] has_edge(final(ws).edges(), x) ==> has_edge(old(ws).edges(), x),        crate::middle_end::wire::wire_set::same_cover(old(ws).lines(), final(ws).lines()),
{
    match linking {
        Linking::UnlabeledTunnel => {},
        Linking::Tunnel(t) => {
            let ghost e0 = ws.edges();
            let _ = ws.remove_tunnel(origin, t, vf);
            proof {
                assert forall|x: MeshNode| x.0 == 1 && #[trigger] has_edge(ws.edges(), x) implies has_edge(e0, x) by {
                    let b = choose|b: MeshNode| #[trigger] ws.edges().contains_key((x, b));
                    assert(edges_without(e0, joint(origin), tunnel_node(t)).contains_key((x, b)));
                }
            }
        },
        Linking::Ports => {
            let mut i: usize = 0;
            while i < n_ports
                invariant
                    ws.wf(),
                    i <= n_ports,
                    others_kept(old(ws).edges(), ws.edges(), key, Linking::Ports, origin),
                    forall|x: MeshNode| x.0 == 1 && #[trigger] has_edge(ws.edges(), x) ==> has_edge(old(ws).edges(), x),
                    forall|j: int| 0 <= j < i ==> !#[trigger] has_edge(ws.edges(), port_node(key, j as usize)),
                    forall|j: int| i <= j < n_ports ==> #[trigger] has_edge(ws.edges(), port_node(key, j as usize)),
                    crate::middle_end::wire::wire_set::same_cover(old(ws).lines(), ws.lines()),
                decreases n_ports - i,
            {
                let ghost e0 = ws.edges();
                proof {
                    let ii = i as int;
                    assert(has_edge(e0, port_node(key, ii as usize)));
                    assert(ii as usize == i);
                }
                let _ = ws.remove_port(key, i, vf);
                proof {
                    assert forall|x: MeshNode| x.0 == 1 && #[trigger] has_edge(ws.edges(), x) implies has_edge(old(ws).edges(), x) by {
                        let b = choose|b: MeshNode| #[trigger] ws.edges().contains_key((x, b));
                        let c = crate::middle_end::wire::wire_set::linked_point(e0, port_node(key, i));
                        assert(edges_without(e0, port_node(key, i), joint(c)).contains_key((x, b)));
                        assert(has_edge(e0, x));
                    }
                    assert forall|a: MeshNode, b: MeshNode| a.0 != 0 && !own_link(key, Linking::Ports, origin, a, b)
                        implies (#[trigger] old(ws).edges().contains_key((a, b)) <==> ws.edges().contains_key((a, b))) by {
                        assert(a != port_node(key, i));
                        assert(old(ws).edges().contains_key((a, b)) <==> e0.contains_key((a, b)));
                    }
                    assert forall|j: int| 0 <= j < i + 1 implies !#[trigger] has_edge(ws.edges(), port_node(key, j as usize)) by {
                        if j < i {
                            lemma_port_nodes_distinct(key, j as usize, i);
                            assert(!has_edge(e0, port_node(key, j as usize)));
                        }
                    }
                    assert forall|j: int| i + 1 <= j < n_ports implies #[trigger] has_edge(ws.edges(), port_node(key, j as usize)) by {
                        lemma_port_nodes_distinct(key, j as usize, i);
                        assert(has_edge(e0, port_node(key, j as usize)));
                    }
                }
                i = i + 1;
            }
        },
    }
}

} // verus!
