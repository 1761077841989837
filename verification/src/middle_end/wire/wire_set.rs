//! The connection of wires, component ports and tunnels of a circuit into meshes,
//! each carrying one value key.

use std::collections::hash_map::RandomState;
use std::hash::BuildHasher;
use petgraph::Undirected;
use petgraph::graphmap::GraphMap;
use petgraph::visit::{Bfs, Walker};
use vstd::prelude::*;
use crate::engine::ValueKey;
use crate::middle_end::{Axis, ComponentKey, Coord, TunnelSymbol};
pub use crate::middle_end::wire::finalizer::{Keygen, ValueFinalizer, VfCall};
use crate::middle_end::wire::{Wire, endpoints_wire, far_end, lemma_endpoints_symmetric, wire_valid};
use crate::middle_end::wire::range_map::{
    WireRangeMap, segments_at, chained, cross_of, disjoint_segments, fits_in, is_wire_of, line_end, line_of, line_start, lines_ok,
    lists_segments, main_of, merged_wire, merged_wire_spec, off_line, on_line, ordered_on_line_of, overlaps,
    split_at, with_line,
};

verus! {

/// A node of the wire graph: a mesh key written as a tag and two numbers.
pub type MeshNode = (u8, u64, u64);

/// An edge of the wire graph, by its two ends.
pub type MeshEdge = (MeshNode, MeshNode);

/// The graph of meshes: an undirected edge between two nodes carries their value key.
pub type WireGraph = GraphMap<MeshNode, ValueKey, Undirected, RandomState>;

#[verifier::external_type_specification]
#[verifier::external_body]
#[verifier::reject_recursive_types(N)]
#[verifier::reject_recursive_types(E)]
#[verifier::reject_recursive_types(Ty)]
#[verifier::reject_recursive_types(S)]
pub struct ExGraphMap<N, E, Ty, S: BuildHasher>(GraphMap<N, E, Ty, S>);

#[verifier::external_type_specification]
#[verifier::external_body]
pub struct ExUndirected(Undirected);

/// The edges of a wire graph with their keys, each edge under both orders of its ends.
pub uninterp spec fn graph_edges(g: WireGraph) -> Map<(MeshNode, MeshNode), ValueKey>;

/// The nodes of a wire graph.
pub uninterp spec fn graph_nodes(g: WireGraph) -> Set<MeshNode>;

/// Whether `p` is a walk along the edges.
pub open spec fn is_walk(edges: Map<(MeshNode, MeshNode), ValueKey>, p: Seq<MeshNode>) -> bool {
    &&& p.len() >= 1
    &&& forall|i: int| 0 <= i < p.len() - 1 ==> #[trigger] edges.contains_key((p[i], p[i + 1]))
}

/// Whether `b` can be reached from `a` along the edges.
pub open spec fn reachable(edges: Map<(MeshNode, MeshNode), ValueKey>, a: MeshNode, b: MeshNode) -> bool {
    exists|p: Seq<MeshNode>| #[trigger] is_walk(edges, p) && p[0] == a && p.last() == b
}

/// An empty graph.
///
/// Calls `GraphMap::new`, which makes a graph without nodes or edges.
#[verifier::external_body]
fn graph_new() -> (graph: WireGraph)
    ensures
        graph_edges(graph).dom() == Set::<MeshEdge>::empty(),
        graph_nodes(graph) == Set::<MeshNode>::empty(),
{
    GraphMap::new()
}

/// Adds the edge `a`–`b` with key `w`, adding its ends as nodes.
///
/// Calls `GraphMap::add_edge`: the edge's key is set to `w` and the previous key,
/// if the edge was there, is returned.
#[verifier::external_body]
fn graph_add_edge(g: &mut WireGraph, a: MeshNode, b: MeshNode, w: ValueKey) -> (r: Option<ValueKey>)
    ensures
        r == (if graph_edges(*old(g)).contains_key((a, b)) {
            Some(graph_edges(*old(g))[(a, b)])
        } else {
            None
        }),
        graph_edges(*final(g)) == graph_edges(*old(g)).insert((a, b), w).insert((b, a), w),
        graph_nodes(*final(g)) == graph_nodes(*old(g)).insert(a).insert(b),
{
    g.add_edge(a, b, w)
}

/// Removes the edge `a`–`b`, keeping its ends as nodes.
///
/// Calls `GraphMap::remove_edge`, which returns the key of the edge if it was there.
#[verifier::external_body]
fn graph_remove_edge_raw(g: &mut WireGraph, a: MeshNode, b: MeshNode) -> (r: Option<ValueKey>)
    ensures
        r == (if graph_edges(*old(g)).contains_key((a, b)) {
            Some(graph_edges(*old(g))[(a, b)])
        } else {
            None
        }),
        graph_edges(*final(g)) == graph_edges(*old(g)).remove((a, b)).remove((b, a)),
        graph_nodes(*final(g)) == graph_nodes(*old(g)),
{
    g.remove_edge(a, b)
}

/// Removes the node `n` and its edges.
///
/// Calls `GraphMap::remove_node`, which returns whether the node was there.
#[verifier::external_body]
fn graph_remove_node(g: &mut WireGraph, n: MeshNode) -> (r: bool)
    ensures
        r == graph_nodes(*old(g)).contains(n),
        graph_nodes(*final(g)) == graph_nodes(*old(g)).remove(n),
        graph_edges(*final(g)) == graph_edges(*old(g)).restrict(
            graph_edges(*old(g)).dom().filter(|e: (MeshNode, MeshNode)| e.0 != n && e.1 != n),
        ),
{
    g.remove_node(n)
}

/// Whether `n` is a node.
///
/// Calls `GraphMap::contains_node`.
#[verifier::external_body]
fn graph_contains_node(g: &WireGraph, n: MeshNode) -> (r: bool)
    ensures
        r == graph_nodes(*g).contains(n),
{
    g.contains_node(n)
}

/// Whether the edge `a`–`b` is there.
///
/// Calls `GraphMap::contains_edge`.
#[verifier::external_body]
fn graph_contains_edge(g: &WireGraph, a: MeshNode, b: MeshNode) -> (r: bool)
    ensures
        r == graph_edges(*g).contains_key((a, b)),
{
    g.contains_edge(a, b)
}

/// The key of the edge `a`–`b`, if it is there.
///
/// Calls `GraphMap::edge_weight`.
#[verifier::external_body]
fn graph_edge_weight(g: &WireGraph, a: MeshNode, b: MeshNode) -> (r: Option<ValueKey>)
    ensures
        r == (if graph_edges(*g).contains_key((a, b)) { Some(graph_edges(*g)[(a, b)]) } else { None }),
{
    g.edge_weight(a, b).copied()
}

/// Sets the key of the edge `a`–`b`, if it is there; returns whether it was.
///
/// Calls `GraphMap::edge_weight_mut` and writes through the reference it returns.
#[verifier::external_body]
fn graph_set_edge_weight(g: &mut WireGraph, a: MeshNode, b: MeshNode, w: ValueKey) -> (r: bool)
    ensures
        r == graph_edges(*old(g)).contains_key((a, b)),
        graph_edges(*final(g)) == if r {
            graph_edges(*old(g)).insert((a, b), w).insert((b, a), w)
        } else {
            graph_edges(*old(g))
        },
        graph_nodes(*final(g)) == graph_nodes(*old(g)),
{
    match g.edge_weight_mut(a, b) {
        Some(k) => {
            *k = w;
            true
        },
        None => false,
    }
}

/// The nodes joined to `a` by an edge, each once, in the graph's order.
///
/// Calls `GraphMap::neighbors`.
#[verifier::external_body]
fn graph_neighbors(g: &WireGraph, a: MeshNode) -> (r: Vec<MeshNode>)
    ensures
        r@.no_duplicates(),
        forall|b: MeshNode| r@.contains(b) <==> graph_edges(*g).contains_key((a, b)),
{
    g.neighbors(a).collect()
}

/// The edges at `a` as `(a, b, key)`, each once, in the graph's order.
///
/// Calls `GraphMap::edges`.
#[verifier::external_body]
fn graph_edges_at(g: &WireGraph, a: MeshNode) -> (r: Vec<(MeshNode, MeshNode, ValueKey)>)
    ensures
        forall|i: int| 0 <= i < r@.len() ==> (#[trigger] r@[i]).0 == a
            && graph_edges(*g).contains_key((a, r@[i].1)) && graph_edges(*g)[(a, r@[i].1)] == r@[i].2,
        forall|i: int, j: int| 0 <= i < j < r@.len() ==> (#[trigger] r@[i]).1 != (#[trigger] r@[j]).1,
        forall|b: MeshNode| graph_edges(*g).contains_key((a, b)) ==>
            exists|i: int| 0 <= i < r@.len() && (#[trigger] r@[i]).1 == b,
{
    g.edges(a).map(|(x, y, k)| (x, y, *k)).collect()
}

/// Every edge as `(a, b, key)`, once, under one of the orders of its ends.
///
/// Calls `GraphMap::all_edges`.
#[verifier::external_body]
fn graph_all_edges(g: &WireGraph) -> (r: Vec<(MeshNode, MeshNode, ValueKey)>)
    ensures
        forall|i: int| 0 <= i < r@.len() ==> graph_edges(*g).contains_key(((#[trigger] r@[i]).0, r@[i].1))
            && graph_edges(*g)[(r@[i].0, r@[i].1)] == r@[i].2,
        forall|i: int, j: int| 0 <= i < j < r@.len() ==> (#[trigger] r@[i]).0 != (#[trigger] r@[j]).0
            || r@[i].1 != r@[j].1,
        forall|i: int, j: int| 0 <= i < j < r@.len() ==> (#[trigger] r@[i]).0 != (#[trigger] r@[j]).1
            || r@[i].1 != r@[j].0,
        forall|e: (MeshNode, MeshNode)| graph_edges(*g).contains_key(e) ==>
            exists|i: int| 0 <= i < r@.len() && (((#[trigger] r@[i]).0, r@[i].1) == e || (r@[i].1, r@[i].0) == e),
{
    g.all_edges().map(|(x, y, k)| (x, y, *k)).collect()
}

/// Every node, once.
///
/// Calls `GraphMap::nodes`.
#[verifier::external_body]
fn graph_all_nodes(g: &WireGraph) -> (r: Vec<MeshNode>)
    ensures
        r@.no_duplicates(),
        forall|n: MeshNode| r@.contains(n) <==> graph_nodes(*g).contains(n),
{
    g.nodes().collect()
}

/// The nodes reachable from `start`, each once, `start` first, in breadth-first order.
///
/// Calls `Bfs::new(g, start)` and walks it over `g`.
#[verifier::external_body]
fn graph_bfs(g: &WireGraph, start: MeshNode) -> (r: Vec<MeshNode>)
    ensures
        r@.len() >= 1,
        r@[0] == start,
        r@.no_duplicates(),
        forall|n: MeshNode| r@.contains(n) <==> reachable(graph_edges(*g), start, n),
{
    Bfs::new(g, start).iter(g).collect()
}

/// A key to attach onto the wire set graph.
#[derive(Clone, Copy, Debug, PartialEq, Eq, PartialOrd, Ord, Hash)]
pub enum MeshKey {
    /// A joint (a wire point)
    WireJoint(Coord),
    /// A component port (excluding tunnels).
    Port(ComponentKey, usize),
    /// A tunnel.
    Tunnel(TunnelSymbol),
}

/// The node of a wire joint.
pub open spec fn joint(c: Coord) -> MeshNode {
    (0u8, c.0 as u64, c.1 as u64)
}

/// The node of a mesh key.
pub open spec fn mesh_node(k: MeshKey) -> MeshNode {
    match k {
        MeshKey::WireJoint(c) => joint(c),
        MeshKey::Port(key, index) => (1u8, key.0, index as u64),
        MeshKey::Tunnel(t) => (2u8, t.0 as u64, 0u64),
    }
}

/// Whether a node is the node of some mesh key.
pub open spec fn valid_node(n: MeshNode) -> bool {
    ||| n.0 == 0 && n.1 <= u32::MAX && n.2 <= u32::MAX
    ||| n.0 == 1 && n.2 <= usize::MAX
    ||| n.0 == 2 && n.1 <= u32::MAX && n.2 == 0
}

/// The mesh key of a valid node.
pub open spec fn mesh_of(n: MeshNode) -> MeshKey {
    if n.0 == 0 {
        MeshKey::WireJoint((n.1 as u32, n.2 as u32))
    } else if n.0 == 1 {
        MeshKey::Port(ComponentKey(n.1), n.2 as usize)
    } else {
        MeshKey::Tunnel(TunnelSymbol(n.1 as u32))
    }
}

impl MeshKey {
    /// The graph node of this key.
    pub fn node(self) -> (r: MeshNode)
        ensures
            r == mesh_node(self),
            valid_node(r),
            mesh_of(r) == self,
    {
        match self {
            MeshKey::WireJoint(c) => (0u8, c.0 as u64, c.1 as u64),
            MeshKey::Port(key, index) => (1u8, key.0, index as u64),
            MeshKey::Tunnel(t) => (2u8, t.0 as u64, 0u64),
        }
    }

    /// The key of a graph node.
    pub fn from_node(n: MeshNode) -> (r: MeshKey)
        requires
            valid_node(n),
        ensures
            r == mesh_of(n),
            mesh_node(r) == n,
    {
        if n.0 == 0 {
            MeshKey::WireJoint((n.1 as u32, n.2 as u32))
        } else if n.0 == 1 {
            MeshKey::Port(ComponentKey(n.1), n.2 as usize)
        } else {
            MeshKey::Tunnel(TunnelSymbol(n.1 as u32))
        }
    }
}


/// Whether the wire between `p` and `q` is held in the lines `(horizontal, vertical)`.
pub open spec fn wire_in(lines: (Map<Axis, Map<Axis, Axis>>, Map<Axis, Map<Axis, Axis>>), p: Coord, q: Coord) -> bool {
    match endpoints_wire(p, q) {
        Some(f) => is_wire_of(if f.3 { lines.0 } else { lines.1 }, f.3, f),
        None => false,
    }
}

/// The graph is undirected, its edges join nodes, and every node is a valid key with an edge.
#[verifier::opaque]
pub open spec fn graph_ok(e: Map<MeshEdge, ValueKey>, n: Set<MeshNode>) -> bool {
    &&& e.dom().finite()
    &&& forall|a: MeshNode, b: MeshNode| #[trigger] e.contains_key((a, b)) ==>
        e.contains_key((b, a)) && e[(b, a)] == e[(a, b)] && n.contains(a) && n.contains(b)
    &&& forall|x: MeshNode| #[trigger] n.contains(x) ==> valid_node(x) && exists|b: MeshNode| #[trigger] e.contains_key((x, b))
}

/// All edges at a node carry the same key.
#[verifier::opaque]
pub open spec fn key_uniform(e: Map<MeshEdge, ValueKey>) -> bool {
    forall|a: MeshNode, b: MeshNode, c: MeshNode| #[trigger] e.contains_key((a, b)) && #[trigger] e.contains_key((a, c))
        ==> e[(a, b)] == e[(a, c)]
}

/// The edges between joints are exactly the wires of the lines.
#[verifier::opaque]
pub open spec fn joints_match(e: Map<MeshEdge, ValueKey>, lines: (Map<Axis, Map<Axis, Axis>>, Map<Axis, Map<Axis, Axis>>)) -> bool {
    forall|p: Coord, q: Coord| #[trigger] e.contains_key((joint(p), joint(q))) <==> #[trigger] wire_in(lines, p, q)
}

/// Ports and tunnels are joined to joints only, and a port to one joint at most.
#[verifier::opaque]
pub open spec fn attachments_ok(e: Map<MeshEdge, ValueKey>) -> bool {
    &&& forall|a: MeshNode, b: MeshNode| #[trigger] e.contains_key((a, b)) && a.0 != 0 ==> b.0 == 0
    &&& forall|a: MeshNode, b: MeshNode, c: MeshNode| #[trigger] e.contains_key((a, b)) && #[trigger] e.contains_key((a, c))
        && a.0 == 1 ==> b == c
}

/// The connection of wires in a circuit.
pub struct WireSet {
    graph: WireGraph,
    ranges: WireRangeMap,
}

impl WireSet {
    /// The edges of the mesh graph, each under both orders of its ends, with their keys.
    pub closed spec fn edges(&self) -> Map<MeshEdge, ValueKey> {
        graph_edges(self.graph)
    }

    /// The nodes of the mesh graph.
    pub closed spec fn nodes(&self) -> Set<MeshNode> {
        graph_nodes(self.graph)
    }

    /// The wires held, as `(horizontal lines, vertical lines)`.
    pub closed spec fn lines(&self) -> (Map<Axis, Map<Axis, Axis>>, Map<Axis, Map<Axis, Axis>>) {
        self.ranges@
    }

    /// Whether the wire set is well formed.
    pub open spec fn wf(&self) -> bool {
        &&& graph_ok(self.edges(), self.nodes())
        &&& joints_match(self.edges(), self.lines())
        &&& attachments_ok(self.edges())
        &&& lines_ok(self.lines().0)
        &&& lines_ok(self.lines().1)
    }

    /// An empty wire set.
    pub fn new() -> (r: Self)
        ensures
            r.wf(),
            r.meshes_ok(),
            r.edges().dom() == Set::<MeshEdge>::empty(),
            r.nodes() == Set::<MeshNode>::empty(),
            r.lines().0 == Map::<Axis, Map<Axis, Axis>>::empty(),
            r.lines().1 == Map::<Axis, Map<Axis, Axis>>::empty(),
    {
        let r = WireSet { graph: graph_new(), ranges: WireRangeMap::default() };
        proof {
            reveal(graph_ok);
            reveal(joints_match);
            reveal(attachments_ok);
            assert forall|p: Coord, q: Coord| #[trigger] wire_in(r.lines(), p, q) implies false by {
                if let Some(f) = endpoints_wire(p, q) {
                    assert(!is_wire_of(if f.3 { r.lines().0 } else { r.lines().1 }, f.3, f));
                }
            }
            assert(!r.edges().dom().contains((joint((0, 0)), joint((0, 0)))));
            reveal(key_uniform);
            reveal(joints_outside);
        }
        r
    }

    /// Finds the [`ValueKey`] of a mesh key: the key of its edges.
    ///
    /// This is `None` if nothing is connected to it.
    pub fn find_key(&self, key: MeshKey) -> (r: Option<ValueKey>)
        requires
            self.wf(),
        ensures
            r is None <==> !exists|b: MeshNode| #[trigger] self.edges().contains_key((mesh_node(key), b)),
            r matches Some(k) ==> exists|b: MeshNode| #[trigger] self.edges().contains_key((mesh_node(key), b))
                && self.edges()[(mesh_node(key), b)] == k,
            self.meshes_ok() && r is Some ==> forall|b: MeshNode| #[trigger] self.edges().contains_key((mesh_node(key), b))
                ==> self.edges()[(mesh_node(key), b)] == r->0,
    {
        let n = key.node();
        let es = graph_edges_at(&self.graph, n);
        if es.len() == 0 {
            proof {
                assert forall|b: MeshNode| !#[trigger] self.edges().contains_key((n, b)) by {
                    if self.edges().contains_key((n, b)) {
                        let i = choose|i: int| 0 <= i < es@.len() && (#[trigger] es@[i]).1 == b;
                    }
                }
            }
            None
        } else {
            proof {
                assert(self.edges().contains_key((n, es@[0].1)));
                if self.meshes_ok() {
                    reveal(key_uniform);
                }
            }
            Some(es[0].2)
        }
    }

    /// Finds the [`ValueKey`] of a wire between two joints.
    ///
    /// This is `None` if the wire is not held; the wire's ends must be joints.
    pub fn find_key_of_wire(&self, w: Wire) -> (r: Option<ValueKey>)
        requires
            self.wf(),
        ensures
            ({
                let e = w.endpoints_spec();
                &&& r is Some <==> self.edges().contains_key((joint(e[0]), joint(e[1])))
                &&& r matches Some(k) ==> self.edges()[(joint(e[0]), joint(e[1]))] == k
            }),
    {
        let ends = w.endpoints();
        let p = MeshKey::WireJoint(ends[0]).node();
        let q = MeshKey::WireJoint(ends[1]).node();
        graph_edge_weight(&self.graph, p, q)
    }
}

/// Whether every edge is also held under the other order of its ends.
pub open spec fn symmetric(e: Map<MeshEdge, ValueKey>) -> bool {
    forall|a: MeshNode, b: MeshNode| #[trigger] e.contains_key((a, b)) ==> e.contains_key((b, a))
}

/// Whether some edge is at `x`.
pub open spec fn has_edge(e: Map<MeshEdge, ValueKey>, x: MeshNode) -> bool {
    exists|b: MeshNode| #[trigger] e.contains_key((x, b))
}

/// Whether all edges at `x` carry the same key.
#[verifier::opaque]
pub open spec fn uniform_at(e: Map<MeshEdge, ValueKey>, x: MeshNode) -> bool {
    forall|b: MeshNode, c: MeshNode| #[trigger] e.contains_key((x, b)) && #[trigger] e.contains_key((x, c))
        ==> e[(x, b)] == e[(x, c)]
}

/// Whether `x` is in `frontier` at or after `from`.
#[verifier::opaque]
pub open spec fn pending(frontier: Seq<MeshNode>, from: int, x: MeshNode) -> bool {
    exists|j: int| from <= j < frontier.len() && #[trigger] frontier[j] == x
}

/// Whether every node has edges of one key, or is still in `frontier` at or after `from`.
#[verifier::opaque]
pub open spec fn settled(e: Map<MeshEdge, ValueKey>, frontier: Seq<MeshNode>, from: int) -> bool {
    forall|x: MeshNode| #[trigger] uniform_at(e, x) || pending(frontier, from, x)
}

/// Whether all edges at `x` carry the key `k`.
#[verifier::opaque]
pub open spec fn all_keyed(e: Map<MeshEdge, ValueKey>, x: MeshNode, k: ValueKey) -> bool {
    forall|b: MeshNode| #[trigger] e.contains_key((x, b)) ==> e[(x, b)] == k
}

/// The edges whose key is not `k`.
pub open spec fn keyed_otherwise(e: Map<MeshEdge, ValueKey>, k: ValueKey) -> Set<MeshEdge> {
    e.dom().filter(|x: MeshEdge| e[x] != k)
}

impl WireSet {
    /// Removes an edge from the graph and removes any of its ends left without edges.
    fn graph_remove_edge(&mut self, l: MeshNode, r: MeshNode) -> (res: Option<ValueKey>)
        requires
            graph_ok(old(self).edges(), old(self).nodes()),
        ensures
            res == (if old(self).edges().contains_key((l, r)) { Some(old(self).edges()[(l, r)]) } else { None }),
            final(self).edges() == old(self).edges().remove((l, r)).remove((r, l)),
            final(self).nodes() == old(self).nodes().filter(|x: MeshNode| has_edge(final(self).edges(), x)),
            graph_ok(final(self).edges(), final(self).nodes()),
            final(self).lines() == old(self).lines(),
    {
        proof {
            reveal(graph_ok);
        }
        let result = graph_remove_edge_raw(&mut self.graph, l, r);
        let ghost e = self.edges();
        assert(symmetric(e)) by {
            assert forall|a: MeshNode, b: MeshNode| #[trigger] e.contains_key((a, b)) implies e.contains_key((b, a)) by {
                assert(old(self).edges().contains_key((a, b)));
            }
        }
        self.remove_if_singleton(l);
        self.remove_if_singleton(r);
        proof {
            let n0 = old(self).nodes();
            assert(self.edges() == e);
            assert(self.nodes() =~= n0.filter(|x: MeshNode| has_edge(e, x))) by {
                assert forall|x: MeshNode| n0.contains(x) && x != l && x != r implies has_edge(e, x) by {
                    let b = choose|b: MeshNode| #[trigger] old(self).edges().contains_key((x, b));
                    assert(e.contains_key((x, b)));
                }
            }
            assert forall|a: MeshNode, b: MeshNode| #[trigger] e.contains_key((a, b)) implies
                e.contains_key((b, a)) && e[(b, a)] == e[(a, b)] && self.nodes().contains(a) && self.nodes().contains(b) by {
                assert(old(self).edges().contains_key((a, b)));
                assert(has_edge(e, a));
                assert(e.contains_key((b, a)));
                assert(has_edge(e, b));
            }
            assert forall|x: MeshNode| #[trigger] self.nodes().contains(x) implies
                valid_node(x) && exists|b: MeshNode| #[trigger] e.contains_key((x, b)) by {
                assert(has_edge(e, x));
            }
        }
        result
    }

    /// Removes `n` if no edge is at it.
    fn remove_if_singleton(&mut self, n: MeshNode)
        requires
            symmetric(old(self).edges()),
        ensures
            final(self).edges() == old(self).edges(),
            final(self).nodes() == if has_edge(old(self).edges(), n) {
                old(self).nodes()
            } else {
                old(self).nodes().remove(n)
            },
            final(self).lines() == old(self).lines(),
    {
        let neighbors = graph_neighbors(&self.graph, n);
        if neighbors.len() == 0 {
            let ghost e = self.edges();
            proof {
                assert forall|b: MeshNode| !e.contains_key((n, b)) by {
                    if e.contains_key((n, b)) {
                        assert(neighbors@.contains(b));
                    }
                }
            }
            graph_remove_node(&mut self.graph, n);
            proof {
                assert(self.edges() =~= e) by {
                    assert forall|x: MeshEdge| e.contains_key(x) implies x.0 != n && x.1 != n by {
                        assert(e.contains_key((x.0, x.1)));
                        assert(e.contains_key((x.1, x.0)));
                    }
                }
            }
        } else {
            proof {
                assert(neighbors@.contains(neighbors@[0]));
                assert(self.edges().contains_key((n, neighbors@[0])));
            }
        }
    }
}

/// Setting the key of a held edge to `k`, under both orders, leaves the other
/// edges whose key is not `k`.
proof fn lemma_set_key_otherwise(e: Map<MeshEdge, ValueKey>, a: MeshNode, b: MeshNode, k: ValueKey)
    requires
        e.dom().finite(),
        e.contains_key((a, b)),
        e[(a, b)] != k,
    ensures
        keyed_otherwise(e.insert((a, b), k).insert((b, a), k), k)
            == keyed_otherwise(e, k).remove((a, b)).remove((b, a)),
        keyed_otherwise(e.insert((a, b), k).insert((b, a), k), k).len() < keyed_otherwise(e, k).len(),
{
    let e2 = e.insert((a, b), k).insert((b, a), k);
    assert(keyed_otherwise(e2, k) =~= keyed_otherwise(e, k).remove((a, b)).remove((b, a)));
    let s = keyed_otherwise(e, k);
    assert(s.contains((a, b)));
    assert(s.remove((a, b)).len() == s.len() - 1);
    assert(s.remove((a, b)).remove((b, a)).len() <= s.remove((a, b)).len());
}

/// The key of edge `(a, b)` after the edges between `k` and the nodes of `ends`
/// are set to `f`.
pub open spec fn flooded_key(e: Map<MeshEdge, ValueKey>, k: MeshNode, ends: Seq<MeshNode>, f: ValueKey, a: MeshNode, b: MeshNode) -> ValueKey {
    if (a == k && ends.contains(b)) || (b == k && ends.contains(a)) { f } else { e[(a, b)] }
}


/// One step of the flood: after the edges at `k` were set to `f`, and the changed
/// ends were queued, every node is uniform or queued, and every visited node has
/// only `f` edges.
proof fn lemma_flood_step(
    e1: Map<MeshEdge, ValueKey>,
    e2: Map<MeshEdge, ValueKey>,
    k: MeshNode,
    ends: Seq<MeshNode>,
    f: ValueKey,
    f1: Seq<MeshNode>,
    frontier: Seq<MeshNode>,
    consumed: int,
    uniform: bool,
)
    requires
        e2.dom() == e1.dom(),
        forall|a: MeshNode, b: MeshNode| #[trigger] e2.contains_key((a, b)) ==> e2[(a, b)] == flooded_key(e1, k, ends, f, a, b),
        forall|b: MeshNode| #[trigger] ends.contains(b) <==> e1.contains_key((k, b)) && e1[(k, b)] != f,
        1 <= consumed <= f1.len(),
        f1[consumed - 1] == k,
        frontier.len() == f1.len() + ends.len(),
        forall|j: int| 0 <= j < f1.len() ==> #[trigger] frontier[j] == f1[j],
        forall|j: int| 0 <= j < ends.len() ==> frontier[f1.len() + j] == #[trigger] ends[j],
        forall|j: int| 0 <= j < consumed - 1 ==> all_keyed(e1, #[trigger] f1[j], f),
        uniform ==> settled(e1, f1, consumed - 1),
    ensures
        forall|x: MeshEdge| #[trigger] e2.contains_key(x) ==> e2[x] == e1[x] || e2[x] == f,
        forall|j: int| 0 <= j < consumed ==> all_keyed(e2, #[trigger] frontier[j], f),
        uniform ==> settled(e2, frontier, consumed),
{
    reveal(settled);
    reveal(uniform_at);
    reveal(pending);
    reveal(all_keyed);
    assert forall|x: MeshEdge| #[trigger] e2.contains_key(x) implies e2[x] == e1[x] || e2[x] == f by {
        assert(e2.contains_key((x.0, x.1)));
    }
    assert(all_keyed(e2, k, f)) by {
        assert forall|b: MeshNode| #[trigger] e2.contains_key((k, b)) implies e2[(k, b)] == f by {
            assert(e1.contains_key((k, b)));
        }
    }
    assert forall|j: int| 0 <= j < consumed implies all_keyed(e2, #[trigger] frontier[j], f) by {
        let x = frontier[j];
        assert(x == f1[j]);
        if j < consumed - 1 {
            assert forall|b: MeshNode| #[trigger] e2.contains_key((x, b)) implies e2[(x, b)] == f by {
                assert(e1.contains_key((x, b)));
                assert(all_keyed(e1, x, f));
            }
        }
    }
    assert forall|x: MeshNode| uniform implies #[trigger] uniform_at(e2, x) || pending(frontier, consumed, x) by {
        if x != k {
            if ends.contains(x) {
                let j = choose|j: int| 0 <= j < ends.len() && ends[j] == x;
                assert(frontier[f1.len() + j] == ends[j]);
            } else if pending(f1, consumed - 1, x) {
                let j = choose|j: int| consumed - 1 <= j < f1.len() && #[trigger] f1[j] == x;
                assert(j != consumed - 1);
                assert(frontier[j] == f1[j]);
            } else {
                assert(uniform_at(e1, x));
                assert forall|b: MeshNode, c: MeshNode| #[trigger] e2.contains_key((x, b)) && #[trigger] e2.contains_key((x, c))
                    implies e2[(x, b)] == e2[(x, c)] by {
                    assert(e1.contains_key((x, b)) && e1.contains_key((x, c)));
                }
            }
        }
    }
}

/// When no node is left to visit, every node is uniform.
proof fn lemma_flood_done(e: Map<MeshEdge, ValueKey>, frontier: Seq<MeshNode>, consumed: int)
    requires
        consumed == frontier.len(),
        settled(e, frontier, consumed),
    ensures
        key_uniform(e),
{
    reveal(settled);
    reveal(uniform_at);
    reveal(pending);
    reveal(key_uniform);
    assert forall|a: MeshNode, b: MeshNode, c: MeshNode| #[trigger] e.contains_key((a, b)) && #[trigger] e.contains_key((a, c))
        implies e[(a, b)] == e[(a, c)] by {
        assert(uniform_at(e, a) || pending(frontier, consumed, a));
    }
}

impl WireSet {
    /// The other ends of the edges at `k` whose key is not `f`, each once.
    fn ends_keyed_otherwise(&self, k: MeshNode, f: ValueKey) -> (r: Vec<MeshNode>)
        ensures
            r@.no_duplicates(),
            forall|b: MeshNode| #[trigger] r@.contains(b) <==> self.edges().contains_key((k, b)) && self.edges()[(k, b)] != f,
    {
        let es = graph_edges_at(&self.graph, k);
        let mut r: Vec<MeshNode> = Vec::new();
        let ghost mut idx: Seq<int> = Seq::empty();
        let mut t: usize = 0;
        while t < es.len()
            invariant
                t <= es@.len(),
                forall|i: int| 0 <= i < es@.len() ==> (#[trigger] es@[i]).0 == k
                    && self.edges().contains_key((k, es@[i].1)) && self.edges()[(k, es@[i].1)] == es@[i].2,
                forall|i: int, j: int| 0 <= i < j < es@.len() ==> (#[trigger] es@[i]).1 != (#[trigger] es@[j]).1,
                r@.no_duplicates(),
                idx.len() == r@.len(),
                forall|j: int| 0 <= j < r@.len() ==> 0 <= #[trigger] idx[j] < t && r@[j] == es@[idx[j]].1 && es@[idx[j]].2 != f,
                forall|i: int| 0 <= i < t && (#[trigger] es@[i]).2 != f ==> r@.contains(es@[i].1),
            decreases es@.len() - t,
        {
            if es[t].2 != f {
                let ghost r0 = r@;
                proof {
                    assert forall|j: int| 0 <= j < r@.len() implies r@[j] != es@[t as int].1 by {
                        assert(idx[j] < t);
                    }
                    idx = idx.push(t as int);
                }
                r.push(es[t].1);
                proof {
                    assert forall|i: int| 0 <= i < t + 1 && (#[trigger] es@[i]).2 != f implies r@.contains(es@[i].1) by {
                        if i < t {
                            assert(r0.contains(es@[i].1));
                            let j = choose|j: int| 0 <= j < r0.len() && r0[j] == es@[i].1;
                            assert(r@[j] == r0[j]);
                        } else {
                            assert(r@[r@.len() - 1] == es@[i].1);
                        }
                    }
                }
            }
            t = t + 1;
        }
        proof {
            assert forall|b: MeshNode| #[trigger] r@.contains(b) <==> self.edges().contains_key((k, b)) && self.edges()[(k, b)] != f by {
                if r@.contains(b) {
                    let j = choose|j: int| 0 <= j < r@.len() && r@[j] == b;
                    assert(0 <= idx[j] < t);
                }
                if self.edges().contains_key((k, b)) && self.edges()[(k, b)] != f {
                    let i = choose|i: int| 0 <= i < es@.len() && (#[trigger] es@[i]).1 == b;
                }
            }
        }
        r
    }

    /// Sets the key of every edge at `k` to `f`; returns the other ends of the edges
    /// that changed, each once.
    #[verifier::spinoff_prover]
    fn flood_node(&mut self, k: MeshNode, f: ValueKey) -> (r: Vec<MeshNode>)
        requires
            graph_ok(old(self).edges(), old(self).nodes()),
        ensures
            r@.no_duplicates(),
            forall|b: MeshNode| #[trigger] r@.contains(b) <==> old(self).edges().contains_key((k, b)) && old(self).edges()[(k, b)] != f,
            final(self).edges().dom() == old(self).edges().dom(),
            forall|a: MeshNode, b: MeshNode| #[trigger] final(self).edges().contains_key((a, b)) ==>
                final(self).edges()[(a, b)] == flooded_key(old(self).edges(), k, r@, f, a, b),
            keyed_otherwise(final(self).edges(), f).len() + r@.len() <= keyed_otherwise(old(self).edges(), f).len(),
            graph_ok(final(self).edges(), final(self).nodes()),
            final(self).nodes() == old(self).nodes(),
            final(self).lines() == old(self).lines(),
    {
        proof {
            reveal(graph_ok);
        }
        let ends = self.ends_keyed_otherwise(k, f);
        let ghost e0 = self.edges();
        let mut u: usize = 0;
        while u < ends.len()
            invariant
                u <= ends@.len(),
                ends@.no_duplicates(),
                forall|b: MeshNode| #[trigger] ends@.contains(b) <==> e0.contains_key((k, b)) && e0[(k, b)] != f,
                e0 == old(self).edges(),
                graph_ok(e0, old(self).nodes()),
                self.edges().dom() == e0.dom(),
                self.nodes() == old(self).nodes(),
                self.lines() == old(self).lines(),
                forall|a: MeshNode, b: MeshNode| #[trigger] self.edges().contains_key((a, b)) ==>
                    self.edges()[(a, b)] == flooded_key(e0, k, ends@.subrange(0, u as int), f, a, b),
                keyed_otherwise(self.edges(), f).len() + u <= keyed_otherwise(e0, f).len(),
            decreases ends@.len() - u,
        {
            let b = ends[u];
            let ghost e2 = self.edges();
            proof {
                reveal(graph_ok);
                assert(ends@.contains(b));
                assert(!ends@.subrange(0, u as int).contains(b)) by {
                    if ends@.subrange(0, u as int).contains(b) {
                        let j = choose|j: int| 0 <= j < u && ends@.subrange(0, u as int)[j] == b;
                        assert(ends@[j] == ends@[u as int]);
                    }
                }
                assert(e2.contains_key((k, b)));
                assert(e2[(k, b)] == e0[(k, b)]);
                lemma_set_key_otherwise(e2, k, b, f);
            }
            graph_set_edge_weight(&mut self.graph, k, b, f);
            proof {
                let e3 = self.edges();
                let done0 = ends@.subrange(0, u as int);
                let done = ends@.subrange(0, u + 1);
                assert(done =~= done0.push(b));
                assert forall|c: MeshNode| done.contains(c) <==> done0.contains(c) || c == b by {
                    if done.contains(c) && c != b {
                        let j = choose|j: int| 0 <= j < done.len() && done[j] == c;
                        assert(done0[j] == c);
                    }
                    if done0.contains(c) {
                        let j = choose|j: int| 0 <= j < done0.len() && done0[j] == c;
                        assert(done[j] == c);
                    }
                    if c == b {
                        assert(done[u as int] == b);
                    }
                }
                assert forall|a: MeshNode, c: MeshNode| #[trigger] e3.contains_key((a, c)) implies
                    e3[(a, c)] == flooded_key(e0, k, done, f, a, c) by {
                    assert(e2.contains_key((a, c)));
                }
            }
            u = u + 1;
        }
        proof {
            let e = self.edges();
            assert(ends@.subrange(0, ends@.len() as int) =~= ends@);
            assert forall|a: MeshNode, b: MeshNode| #[trigger] e.contains_key((a, b)) implies
                e.contains_key((b, a)) && e[(b, a)] == e[(a, b)] && self.nodes().contains(a) && self.nodes().contains(b) by {
                assert(e0.contains_key((a, b)));
            }
            assert forall|x: MeshNode| #[trigger] self.nodes().contains(x) implies
                valid_node(x) && exists|c: MeshNode| #[trigger] e.contains_key((x, c)) by {
                let c = choose|c: MeshNode| #[trigger] e0.contains_key((x, c));
                assert(e.contains_key((x, c)));
            }
        }
        ends
    }

    /// Replaces the [`ValueKey`] of every edge with a path to one of the entry points
    /// by the flood key; edges already of the flood key are not crossed.
    #[verifier::spinoff_prover]
    #[verifier::rlimit(60)]
    fn flood_fill(&mut self, entry_points: &[Coord], flood_key: ValueKey)
        requires
            graph_ok(old(self).edges(), old(self).nodes()),
        ensures
            final(self).edges().dom() == old(self).edges().dom(),
            final(self).nodes() == old(self).nodes(),
            final(self).lines() == old(self).lines(),
            forall|x: MeshEdge| #[trigger] final(self).edges().contains_key(x) ==>
                final(self).edges()[x] == old(self).edges()[x] || final(self).edges()[x] == flood_key,
            graph_ok(final(self).edges(), final(self).nodes()),
            key_uniform(old(self).edges()) ==> key_uniform(final(self).edges()),
            forall|i: int| 0 <= i < entry_points@.len() ==> all_keyed(final(self).edges(), joint(#[trigger] entry_points@[i]), flood_key),
    {
        let ghost e0 = self.edges();
        let mut frontier: Vec<MeshNode> = Vec::new();
        let mut i: usize = 0;
        while i < entry_points.len()
            invariant
                i <= entry_points@.len(),
                frontier@.len() == i,
                forall|j: int| 0 <= j < i ==> frontier@[j] == joint(#[trigger] entry_points@[j]),
            decreases entry_points@.len() - i,
        {
            frontier.push(MeshKey::WireJoint(entry_points[i]).node());
            i = i + 1;
        }
        let mut consumed: usize = 0;
        proof {
            if key_uniform(e0) {
                reveal(settled);
                reveal(key_uniform);
                assert forall|x: MeshNode| #[trigger] uniform_at(e0, x) || pending(frontier@, 0, x) by {
                    reveal(uniform_at);
                }
            }
        }
        while consumed < frontier.len()
            invariant
                graph_ok(self.edges(), self.nodes()),
                self.edges().dom() == e0.dom(),
                self.nodes() == old(self).nodes(),
                self.lines() == old(self).lines(),
                e0 == old(self).edges(),
                forall|x: MeshEdge| #[trigger] self.edges().contains_key(x) ==>
                    self.edges()[x] == e0[x] || self.edges()[x] == flood_key,
                consumed <= frontier@.len(),
                frontier@.len() >= entry_points@.len(),
                forall|j: int| 0 <= j < entry_points@.len() ==> frontier@[j] == joint(#[trigger] entry_points@[j]),
                forall|j: int| 0 <= j < consumed ==> all_keyed(self.edges(), #[trigger] frontier@[j], flood_key),
                key_uniform(e0) ==> settled(self.edges(), frontier@, consumed as int),
            decreases keyed_otherwise(self.edges(), flood_key).len(), frontier@.len() - consumed,
        {
            let k = frontier[consumed];
            let ghost e1 = self.edges();
            let ghost f1 = frontier@;
            let ends = self.flood_node(k, flood_key);
            consumed = consumed + 1;
            let mut u: usize = 0;
            while u < ends.len()
                invariant
                    u <= ends@.len(),
                    frontier@.len() == f1.len() + u,
                    forall|j: int| 0 <= j < f1.len() ==> #[trigger] frontier@[j] == f1[j],
                    forall|j: int| 0 <= j < u ==> frontier@[f1.len() + j] == #[trigger] ends@[j],
                decreases ends@.len() - u,
            {
                frontier.push(ends[u]);
                u = u + 1;
            }
            proof {
                lemma_flood_step(e1, self.edges(), k, ends@, flood_key, f1, frontier@, consumed as int, key_uniform(e0));
                assert forall|x: MeshEdge| #[trigger] self.edges().contains_key(x) implies
                    self.edges()[x] == e0[x] || self.edges()[x] == flood_key by {
                    assert(e1.contains_key(x));
                }
                assert forall|j: int| 0 <= j < entry_points@.len() implies frontier@[j] == joint(#[trigger] entry_points@[j]) by {
                    assert(frontier@[j] == f1[j]);
                }
            }
        }
        proof {
            let e = self.edges();
            assert forall|i: int| 0 <= i < entry_points@.len() implies all_keyed(e, joint(#[trigger] entry_points@[i]), flood_key) by {
                assert(frontier@[i] == joint(entry_points@[i]));
            }
            if key_uniform(e0) {
                lemma_flood_done(e, frontier@, consumed as int);
            }
        }
    }
}

/// The lines of wires of both directions: `(horizontal, vertical)`.
pub type Lines = (Map<Axis, Map<Axis, Axis>>, Map<Axis, Map<Axis, Axis>>);

/// The lines of one direction.
pub open spec fn dir_lines(lines: Lines, h: bool) -> Map<Axis, Map<Axis, Axis>> {
    if h { lines.0 } else { lines.1 }
}

/// The lines with those of one direction replaced.
pub open spec fn with_dir(lines: Lines, h: bool, m: Map<Axis, Map<Axis, Axis>>) -> Lines {
    if h { (m, lines.1) } else { (lines.0, m) }
}

/// The start of wire fields.
pub open spec fn start_of(f: (Axis, Axis, Axis, bool)) -> Coord {
    (f.0, f.1)
}

/// The far end of wire fields.
pub open spec fn end_of(f: (Axis, Axis, Axis, bool)) -> Coord {
    far_end(f.0, f.1, f.2, f.3)
}

/// The lines with the wire `f` added.
pub open spec fn lines_with_wire(lines: Lines, f: (Axis, Axis, Axis, bool)) -> Lines {
    let (start, len, cross, h) = on_line(f);
    with_dir(lines, h, dir_lines(lines, h).insert(cross, line_of(dir_lines(lines, h), cross).insert(start, len)))
}

/// The lines with the wire `f` removed.
pub open spec fn lines_without_wire(lines: Lines, f: (Axis, Axis, Axis, bool)) -> Lines {
    let (start, len, cross, h) = on_line(f);
    with_dir(lines, h, with_line(dir_lines(lines, h), cross, line_of(dir_lines(lines, h), cross).remove(start)))
}

/// The edges with `a`–`b` set to key `k`.
pub open spec fn edges_with(e: Map<MeshEdge, ValueKey>, a: MeshNode, b: MeshNode, k: ValueKey) -> Map<MeshEdge, ValueKey> {
    e.insert((a, b), k).insert((b, a), k)
}

/// The edges without `a`–`b`.
pub open spec fn edges_without(e: Map<MeshEdge, ValueKey>, a: MeshNode, b: MeshNode) -> Map<MeshEdge, ValueKey> {
    e.remove((a, b)).remove((b, a))
}

/// The wire between two points has these two points as its ends.
proof fn lemma_endpoints_inverse(p: Coord, q: Coord)
    requires
        endpoints_wire(p, q) is Some,
    ensures
        ({
            let f = endpoints_wire(p, q)->0;
            &&& wire_valid(f.0, f.1, f.2, f.3)
            &&& (p == start_of(f) && q == end_of(f)) || (q == start_of(f) && p == end_of(f))
        }),
{
}

/// Valid wire fields are the wire between their ends, in either order.
proof fn lemma_fields_endpoints(f: (Axis, Axis, Axis, bool))
    requires
        wire_valid(f.0, f.1, f.2, f.3),
    ensures
        endpoints_wire(start_of(f), end_of(f)) == Some(f),
        endpoints_wire(end_of(f), start_of(f)) == Some(f),
        start_of(f) != end_of(f),
{
}

/// Two joints are the same node only for the same point.
proof fn lemma_joint_injective(p: Coord, q: Coord)
    ensures
        joint(p) == joint(q) <==> p == q,
{
}

/// Whether the points `p`, `q` are the two ends of the wire `f`, in either order.
pub open spec fn ends_of(p: Coord, q: Coord, f: (Axis, Axis, Axis, bool)) -> bool {
    (p == start_of(f) && q == end_of(f)) || (q == start_of(f) && p == end_of(f))
}

/// Adding to both the edges and the lines a wire that fits keeps them matching.
proof fn lemma_joints_add(e: Map<MeshEdge, ValueKey>, lines: Lines, f: (Axis, Axis, Axis, bool), k: ValueKey)
    requires
        joints_match(e, lines),
        wire_valid(f.0, f.1, f.2, f.3),
        !line_of(dir_lines(lines, f.3), on_line(f).2).contains_key(on_line(f).0),
    ensures
        joints_match(edges_with(e, joint(start_of(f)), joint(end_of(f)), k), lines_with_wire(lines, f)),
{
    reveal(joints_match);
    let (start, len, cross, h) = on_line(f);
    let line = line_of(dir_lines(lines, h), cross);
    let e2 = edges_with(e, joint(start_of(f)), joint(end_of(f)), k);
    let l2 = lines_with_wire(lines, f);
    lemma_fields_endpoints(f);
    assert forall|p: Coord, q: Coord| #[trigger] e2.contains_key((joint(p), joint(q))) <==> #[trigger] wire_in(l2, p, q) by {
        lemma_joint_injective(p, start_of(f));
        lemma_joint_injective(q, end_of(f));
        lemma_joint_injective(p, end_of(f));
        lemma_joint_injective(q, start_of(f));
        assert(e.contains_key((joint(p), joint(q))) <==> wire_in(lines, p, q));
        if let Some(g) = endpoints_wire(p, q) {
            lemma_endpoints_inverse(p, q);
            let (sg, lg, cg, hg) = on_line(g);
            if ends_of(p, q, f) {
                assert(g == f);
            } else {
                assert(g != f);
                assert(wire_in(l2, p, q) <==> wire_in(lines, p, q));
            }
        }
    }
}

/// Removing from both the edges and the lines a wire they hold keeps them matching.
proof fn lemma_joints_remove(e: Map<MeshEdge, ValueKey>, lines: Lines, f: (Axis, Axis, Axis, bool))
    requires
        joints_match(e, lines),
        wire_valid(f.0, f.1, f.2, f.3),
        is_wire_of(dir_lines(lines, f.3), f.3, f),
        line_of(dir_lines(lines, f.3), on_line(f).2).dom().finite(),
    ensures
        joints_match(edges_without(e, joint(start_of(f)), joint(end_of(f))), lines_without_wire(lines, f)),
{
    reveal(joints_match);
    let (start, len, cross, h) = on_line(f);
    let line = line_of(dir_lines(lines, h), cross);
    let e2 = edges_without(e, joint(start_of(f)), joint(end_of(f)));
    let l2 = lines_without_wire(lines, f);
    lemma_fields_endpoints(f);
    assert(line_of(dir_lines(l2, h), cross) =~= line.remove(start)) by {
        let seg = line.remove(start);
        if seg.dom().len() == 0 {
            assert(seg.dom().finite());
            assert(seg.dom() =~= Set::<Axis>::empty());
        }
    }
    assert forall|p: Coord, q: Coord| #[trigger] e2.contains_key((joint(p), joint(q))) <==> #[trigger] wire_in(l2, p, q) by {
        lemma_joint_injective(p, start_of(f));
        lemma_joint_injective(q, end_of(f));
        lemma_joint_injective(p, end_of(f));
        lemma_joint_injective(q, start_of(f));
        assert(e.contains_key((joint(p), joint(q))) <==> wire_in(lines, p, q));
        if let Some(g) = endpoints_wire(p, q) {
            lemma_endpoints_inverse(p, q);
            let (sg, lg, cg, hg) = on_line(g);
            if ends_of(p, q, f) {
                assert(g == f);
            } else {
                assert(g != f);
                if hg == h && cg == cross {
                    assert(line_of(dir_lines(l2, hg), cg) == line.remove(start));
                    if sg == start {
                        assert(line[start] == len);
                    }
                }
                assert(wire_in(l2, p, q) <==> wire_in(lines, p, q));
            }
        }
    }
}

/// Splitting the wire `f` at `main` is removing it and adding its two parts.
proof fn lemma_split_lines(l0: Lines, l1: Lines, f: (Axis, Axis, Axis, bool), c: Coord)
    requires
        lines_ok(dir_lines(l0, f.3)),
        split_at(dir_lines(l0, f.3), dir_lines(l1, f.3), cross_of(c, f.3), main_of(c, f.3), f.3, f),
        dir_lines(l1, !f.3) == dir_lines(l0, !f.3),
    ensures
        ({
            let (start, len, cross, h) = on_line(f);
            let main = main_of(c, h);
            let f1 = off_line((start, (main - start) as Axis), cross, h);
            let f2 = off_line((main, (start + len - main) as Axis), cross, h);
            let lw = lines_without_wire(l0, f);
            &&& l1 == lines_with_wire(lines_with_wire(lw, f1), f2)
            &&& !line_of(dir_lines(lw, h), cross).contains_key(start)
            &&& !line_of(dir_lines(lines_with_wire(lw, f1), h), cross).contains_key(main)
            &&& start_of(f1) == start_of(f) && end_of(f1) == c
            &&& start_of(f2) == c && end_of(f2) == end_of(f)
            &&& wire_valid(f1.0, f1.1, f1.2, f1.3) && wire_valid(f2.0, f2.1, f2.2, f2.3)
            &&& f1.3 == h && f2.3 == h
            &&& on_line(f1) == (start, (main - start) as Axis, cross, h)
            &&& on_line(f2) == (main, (start + len - main) as Axis, cross, h)
        }),
{
    let (start, len, cross, h) = on_line(f);
    let main = main_of(c, h);
    let d0 = dir_lines(l0, h);
    let line = line_of(d0, cross);
    assert(d0.contains_key(cross));
    assert(disjoint_segments(line));
    assert(!line.contains_key(main)) by {
        if line.contains_key(main) {
            assert(start < main);
        }
    }
    let lw = lines_without_wire(l0, f);
    assert(line_of(dir_lines(lw, h), cross) =~= line.remove(start)) by {
        let seg = line.remove(start);
        if seg.dom().len() == 0 {
            assert(seg.dom() =~= Set::<Axis>::empty());
        }
    }
    let f1 = off_line((start, (main - start) as Axis), cross, h);
    let f2 = off_line((main, (start + len - main) as Axis), cross, h);
    let lw1 = lines_with_wire(lw, f1);
    assert(line_of(dir_lines(lw1, h), cross) =~= line.remove(start).insert(start, (main - start) as Axis));
    assert(dir_lines(lines_with_wire(lw1, f2), h) =~= dir_lines(l1, h)) by {
        assert(line.remove(start).insert(start, (main - start) as Axis).insert(main, (start + len - main) as Axis)
            =~= line.insert(start, (main - start) as Axis).insert(main, (start + len - main) as Axis));
    }
    assert(dir_lines(lines_with_wire(lw1, f2), !h) =~= dir_lines(l1, !h));
    if h {
        assert(lines_with_wire(lw1, f2) == l1);
    } else {
        assert(lines_with_wire(lw1, f2) == l1);
    }
}



/// Whether `c` lies strictly inside a wire of the given direction held in `lines`.
pub open spec fn inside_wire(lines: Lines, c: Coord, h: bool) -> bool {
    exists|k: Axis| #[trigger] line_of(dir_lines(lines, h), cross_of(c, h)).contains_key(k)
        && k < main_of(c, h) < k + line_of(dir_lines(lines, h), cross_of(c, h))[k]
}

/// The edges with the wire between the ends of `f` replaced by the two wires
/// meeting at `c`, both of key `k`.
pub open spec fn edges_split(e: Map<MeshEdge, ValueKey>, f: (Axis, Axis, Axis, bool), c: Coord, k: ValueKey) -> Map<MeshEdge, ValueKey> {
    let p = joint(start_of(f));
    let q = joint(end_of(f));
    edges_with(edges_with(edges_without(e, p, q), p, joint(c), k), joint(c), q, k)
}

impl WireSet {
    /// Splits the wire of the given direction that `c` lies strictly inside, if there
    /// is one, into two wires of its key meeting at a joint at `c`; returns the wire
    /// that was split.
    #[verifier::spinoff_prover]
    fn split_wire_on_joint(&mut self, c: Coord, horizontal: bool) -> (r: Option<Wire>)
        requires
            old(self).wf(),
        ensures
            final(self).wf(),
            r is Some <==> inside_wire(old(self).lines(), c, horizontal),
            same_cover(old(self).lines(), final(self).lines()),
            r is None ==> final(self).lines() == old(self).lines() && final(self).edges() == old(self).edges()
                && final(self).nodes() == old(self).nodes(),
            r matches Some(w) ==> {
                let f = w@;
                let key = old(self).edges()[(joint(start_of(f)), joint(end_of(f)))];
                &&& split_at(dir_lines(old(self).lines(), horizontal), dir_lines(final(self).lines(), horizontal),
                    cross_of(c, horizontal), main_of(c, horizontal), horizontal, f)
                &&& dir_lines(final(self).lines(), !horizontal) == dir_lines(old(self).lines(), !horizontal)
                &&& old(self).edges().contains_key((joint(start_of(f)), joint(end_of(f))))
                &&& final(self).edges() == edges_split(old(self).edges(), f, c, key)
                &&& final(self).nodes() == old(self).nodes().insert(joint(c))
            },
    {
        let ghost l0 = self.lines();
        let ghost e0 = self.edges();
        let ghost n0 = self.nodes();
        let split = self.ranges.split_wire(horizontal, c);
        match split {
            Some(joined) => {
                let ends = joined.endpoints();
                let ghost f = joined@;
                proof {
                    let line = old(self).ranges.line(horizontal, cross_of(c, horizontal));
                    assert(line == line_of(dir_lines(l0, horizontal), cross_of(c, horizontal)));
                    let k0 = choose|k0: Axis| #[trigger] line.contains_key(k0)
                        && k0 < main_of(c, horizontal) < k0 + line[k0];
                    assert(line_of(dir_lines(l0, horizontal), cross_of(c, horizontal)).contains_key(k0));
                }
                let p = MeshKey::WireJoint(ends[0]).node();
                let q = MeshKey::WireJoint(ends[1]).node();
                let cn = MeshKey::WireJoint(c).node();
                proof {
                    assert(dir_lines(l0, horizontal) == old(self).ranges.lines(horizontal));
                    assert(is_wire_of(dir_lines(l0, f.3), f.3, f));
                    lemma_wire_edge(e0, l0, f);
                }
                let k = self.graph_remove_edge(p, q).unwrap();
                let ghost e1 = self.edges();
                let ghost n1 = self.nodes();
                proof {
                    lemma_attach_remove(e0, p, q);
                    lemma_graph_add(e1, n1, p, cn, k);
                    lemma_attach_add(e1, p, cn, k);
                    lemma_graph_add(edges_with(e1, p, cn, k), n1.insert(p).insert(cn), cn, q, k);
                    lemma_attach_add(edges_with(e1, p, cn, k), cn, q, k);
                }
                graph_add_edge(&mut self.graph, p, cn, k);
                graph_add_edge(&mut self.graph, cn, q, k);
                proof {
                    assert(self.edges() == edges_split(e0, f, c, k));
                    lemma_split_joints(e0, l0, self.lines(), f, c, k);
                    lemma_split_covered(l0, self.lines(), f, c);
                    lemma_split_nodes(e0, n0, p, q, cn);
                    assert(self.nodes() =~= n0.insert(cn));
                }
                Some(joined)
            },
            None => {
                proof {
                    let line = old(self).ranges.line(horizontal, cross_of(c, horizontal));
                    assert(line == line_of(dir_lines(l0, horizontal), cross_of(c, horizontal)));
                    assert(self.lines() == l0) by {
                        if horizontal {
                            assert(self.lines().0 == l0.0);
                        } else {
                            assert(self.lines().1 == l0.1);
                        }
                    }
                }
                None
            },
        }
    }
}

/// Splitting a held wire keeps the edges between joints matching the wires.
proof fn lemma_split_joints(
    e0: Map<MeshEdge, ValueKey>,
    l0: Lines,
    l1: Lines,
    f: (Axis, Axis, Axis, bool),
    c: Coord,
    k: ValueKey,
)
    requires
        joints_match(e0, l0),
        lines_ok(l0.0),
        lines_ok(l0.1),
        split_at(dir_lines(l0, f.3), dir_lines(l1, f.3), cross_of(c, f.3), main_of(c, f.3), f.3, f),
        dir_lines(l1, !f.3) == dir_lines(l0, !f.3),
    ensures
        joints_match(edges_split(e0, f, c, k), l1),
{
    let p = joint(start_of(f));
    let q = joint(end_of(f));
    let cn = joint(c);
    let e1 = edges_without(e0, p, q);
    let (start, len, cross, h) = on_line(f);
    let main = main_of(c, h);
    let f1 = off_line((start, (main - start) as Axis), cross, h);
    let f2 = off_line((main, (start + len - main) as Axis), cross, h);
    let lw = lines_without_wire(l0, f);
    lemma_split_lines(l0, l1, f, c);
    assert(line_of(dir_lines(l0, f.3), on_line(f).2).dom().finite()) by {
        assert(dir_lines(l0, h).contains_key(cross));
    }
    lemma_fields_endpoints(f);
    lemma_joints_remove(e0, l0, f);
    lemma_joints_add(e1, lw, f1, k);
    lemma_joints_add(edges_with(e1, p, cn, k), lines_with_wire(lw, f1), f2, k);
}

/// Adding an edge between two valid nodes keeps the graph well formed, with its ends as nodes.
proof fn lemma_graph_add(e: Map<MeshEdge, ValueKey>, n: Set<MeshNode>, a: MeshNode, b: MeshNode, k: ValueKey)
    requires
        graph_ok(e, n),
        valid_node(a),
        valid_node(b),
    ensures
        graph_ok(edges_with(e, a, b, k), n.insert(a).insert(b)),
{
    reveal(graph_ok);
    let e2 = edges_with(e, a, b, k);
    let n2 = n.insert(a).insert(b);
    assert(e2.dom() == e.dom().insert((a, b)).insert((b, a)));
    assert forall|x: MeshNode, y: MeshNode| #[trigger] e2.contains_key((x, y)) implies
        e2.contains_key((y, x)) && e2[(y, x)] == e2[(x, y)] && n2.contains(x) && n2.contains(y) by {
        if !((x == a && y == b) || (x == b && y == a)) {
            assert(e.contains_key((x, y)));
        }
    }
    assert forall|x: MeshNode| #[trigger] n2.contains(x) implies
        valid_node(x) && exists|y: MeshNode| #[trigger] e2.contains_key((x, y)) by {
        if x == a {
            assert(e2.contains_key((a, b)));
        } else if x == b {
            assert(e2.contains_key((b, a)));
        } else {
            let y = choose|y: MeshNode| #[trigger] e.contains_key((x, y));
            assert(e2.contains_key((x, y)));
        }
    }
}

/// Adding an edge between two joints keeps ports and tunnels attached as they were.
proof fn lemma_attach_add(e: Map<MeshEdge, ValueKey>, a: MeshNode, b: MeshNode, k: ValueKey)
    requires
        attachments_ok(e),
        a.0 == 0,
        b.0 == 0,
    ensures
        attachments_ok(edges_with(e, a, b, k)),
{
    reveal(attachments_ok);
    let e2 = edges_with(e, a, b, k);
    assert forall|x: MeshNode, y: MeshNode| #[trigger] e2.contains_key((x, y)) && x.0 != 0 implies y.0 == 0 by {
        assert(e.contains_key((x, y)));
    }
    assert forall|x: MeshNode, y: MeshNode, z: MeshNode| #[trigger] e2.contains_key((x, y)) && #[trigger] e2.contains_key((x, z))
        && x.0 == 1 implies y == z by {
        assert(e.contains_key((x, y)));
        assert(e.contains_key((x, z)));
    }
}

/// Removing an edge keeps ports and tunnels attached as they were.
proof fn lemma_attach_remove(e: Map<MeshEdge, ValueKey>, a: MeshNode, b: MeshNode)
    requires
        attachments_ok(e),
    ensures
        attachments_ok(edges_without(e, a, b)),
{
    reveal(attachments_ok);
    let e2 = edges_without(e, a, b);
    assert forall|x: MeshNode, y: MeshNode| #[trigger] e2.contains_key((x, y)) && x.0 != 0 implies y.0 == 0 by {
        assert(e.contains_key((x, y)));
    }
    assert forall|x: MeshNode, y: MeshNode, z: MeshNode| #[trigger] e2.contains_key((x, y)) && #[trigger] e2.contains_key((x, z))
        && x.0 == 1 implies y == z by {
        assert(e.contains_key((x, y)));
        assert(e.contains_key((x, z)));
    }
}

/// Removing or adding an edge does not depend on the order of its ends.
proof fn lemma_edges_sym(e: Map<MeshEdge, ValueKey>, a: MeshNode, b: MeshNode, k: ValueKey)
    ensures
        edges_without(e, a, b) == edges_without(e, b, a),
        edges_with(e, a, b, k) == edges_with(e, b, a, k),
{
    assert(edges_without(e, a, b) =~= edges_without(e, b, a));
    assert(edges_with(e, a, b, k) =~= edges_with(e, b, a, k));
}

/// The geometry of a join at `c` of the held wires `p`–`c` and `c`–`q`, where `p` and `q`
/// lie on one line: the three wires share a line, `c` lies strictly inside `p`–`q`, and
/// once both are removed the wire `p`–`q` fits where they were.
proof fn lemma_join_lines(l0: Lines, p: Coord, c: Coord, q: Coord)
    requires
        lines_ok(l0.0),
        lines_ok(l0.1),
        wire_in(l0, p, c),
        wire_in(l0, c, q),
        endpoints_wire(p, q) is Some,
    ensures
        ({
            let fl = endpoints_wire(p, c)->0;
            let fr = endpoints_wire(c, q)->0;
            let g = endpoints_wire(p, q)->0;
            let h = g.3;
            let cross = on_line(g).2;
            let l1 = lines_without_wire(l0, fl);
            let l2 = lines_without_wire(l1, fr);
            &&& fl.3 == h && fr.3 == h
            &&& on_line(fl).2 == cross && on_line(fr).2 == cross
            &&& wire_valid(fl.0, fl.1, fl.2, fl.3) && wire_valid(fr.0, fr.1, fr.2, fr.3) && wire_valid(g.0, g.1, g.2, g.3)
            &&& ends_of(p, c, fl) && ends_of(c, q, fr) && ends_of(p, q, g)
            &&& on_line(g).0 < main_of(c, h) < on_line(g).0 + on_line(g).1
            &&& cross_of(c, h) == cross
            &&& is_wire_of(dir_lines(l0, h), h, fl)
            &&& line_of(dir_lines(l0, h), cross).dom().finite()
            &&& is_wire_of(dir_lines(l1, h), h, fr)
            &&& line_of(dir_lines(l1, h), cross).dom().finite()
            &&& fits_in(line_of(dir_lines(l2, h), cross), on_line(g).0, on_line(g).1)
            &&& !line_of(dir_lines(l2, h), cross).contains_key(on_line(g).0)
        }),
{
    let fl = endpoints_wire(p, c)->0;
    let fr = endpoints_wire(c, q)->0;
    let g = endpoints_wire(p, q)->0;
    lemma_endpoints_inverse(p, c);
    lemma_endpoints_inverse(c, q);
    lemma_endpoints_inverse(p, q);
    let h = g.3;
    assert(fl.3 == h && fr.3 == h);
    let cross = on_line(g).2;
    let (sl, ll, cl, hl) = on_line(fl);
    let (sr, lr, cr, hr) = on_line(fr);
    assert(cl == cross && cr == cross);
    let line = line_of(dir_lines(l0, h), cross);
    assert(dir_lines(l0, h).contains_key(cross));
    assert(disjoint_segments(line));
    assert(line.contains_key(sl) && line[sl] == ll);
    assert(line.contains_key(sr) && line[sr] == lr);
    assert(sl != sr);
    if sl < sr {
        assert(sl + ll <= sr);
    } else {
        assert(sr + lr <= sl);
    }
    let (sg, lg, cg, hg) = on_line(g);
    assert(sg < main_of(c, h) < sg + lg);
    let l1 = lines_without_wire(l0, fl);
    let line1 = line_of(dir_lines(l1, h), cross);
    assert(line1 =~= line.remove(sl)) by {
        let seg = line.remove(sl);
        if seg.dom().len() == 0 {
            assert(seg.dom() =~= Set::<Axis>::empty());
        }
    }
    let l2 = lines_without_wire(l1, fr);
    let line2 = line_of(dir_lines(l2, h), cross);
    assert(line2 =~= line.remove(sl).remove(sr)) by {
        let seg = line1.remove(sr);
        if seg.dom().len() == 0 {
            assert(seg.dom() =~= Set::<Axis>::empty());
        }
    }
    assert forall|k: Axis| #[trigger] line2.contains_key(k) implies !overlaps(k as int, line2[k] as int, sg as int, lg as int) by {
        assert(line.contains_key(k) && k != sl && k != sr);
        if k < sl {
            assert(k + line[k] <= sl);
        } else {
            assert(sl + ll <= k);
        }
        if k < sr {
            assert(k + line[k] <= sr);
        } else {
            assert(sr + lr <= k);
        }
    }
}

/// Whether the joint at `c` has exactly the two joints `p` and `q` as neighbors,
/// and they lie on one line.
pub open spec fn joinable(e: Map<MeshEdge, ValueKey>, c: Coord, p: Coord, q: Coord) -> bool {
    &&& p != q
    &&& e.contains_key((joint(c), joint(p)))
    &&& e.contains_key((joint(c), joint(q)))
    &&& forall|b: MeshNode| #[trigger] e.contains_key((joint(c), b)) ==> b == joint(p) || b == joint(q)
    &&& endpoints_wire(p, q) is Some
}

/// The neighbors of a joinable joint are its two joints, in one order or the other.
proof fn lemma_joinable_neighbors(e: Map<MeshEdge, ValueKey>, c: Coord, nb: Seq<MeshNode>, p: Coord, q: Coord)
    requires
        nb.no_duplicates(),
        forall|b: MeshNode| nb.contains(b) <==> e.contains_key((joint(c), b)),
        joinable(e, c, p, q),
    ensures
        nb.len() == 2,
        (nb[0] == joint(p) && nb[1] == joint(q)) || (nb[0] == joint(q) && nb[1] == joint(p)),
{
    assert(nb.contains(joint(p)) && nb.contains(joint(q)));
    assert(joint(p) != joint(q));
    assert forall|b: MeshNode| nb.contains(b) implies b == joint(p) || b == joint(q) by {
        assert(e.contains_key((joint(c), b)));
    }
    assert(nb.to_set() =~= set![joint(p), joint(q)]);
    nb.unique_seq_to_set();
    assert(set![joint(p), joint(q)].len() == 2);
    assert(nb.contains(nb[0]) && nb.contains(nb[1]));
}

impl WireSet {
    /// Joins the wires `p`–`c` and `c`–`q` into the wire `p`–`q` of key `merge`, or of
    /// the key of `p`–`c` if `merge` is `None`.
    #[verifier::spinoff_prover]
    fn join_wires(&mut self, p: Coord, c: Coord, q: Coord, merge: Option<ValueKey>)
        requires
            old(self).wf(),
            joinable(old(self).edges(), c, p, q),
        ensures
            final(self).wf(),
            ({
                let fl = endpoints_wire(p, c)->0;
                let fr = endpoints_wire(c, q)->0;
                let g = endpoints_wire(p, q)->0;
                let key = match merge {
                    Some(k) => k,
                    None => old(self).edges()[(joint(p), joint(c))],
                };
                &&& final(self).lines() == lines_with_wire(lines_without_wire(lines_without_wire(old(self).lines(), fl), fr), g)
                &&& final(self).edges() == edges_with(edges_without(edges_without(old(self).edges(), joint(p), joint(c)),
                    joint(c), joint(q)), joint(p), joint(q), key)
                &&& final(self).nodes() == old(self).nodes().remove(joint(c))
            }),
            same_cover(old(self).lines(), final(self).lines()),
            same_units(old(self).lines(), final(self).lines()),
    {
        let ghost l0 = self.lines();
        let ghost e0 = self.edges();
        let ghost n0 = self.nodes();
        let pn = MeshKey::WireJoint(p).node();
        let qn = MeshKey::WireJoint(q).node();
        let cn = MeshKey::WireJoint(c).node();
        proof {
            lemma_join_lines_of(e0, n0, l0, p, c, q);
        }
        let joined = Wire::from_endpoints(p, q).unwrap();
        let left = Wire::from_endpoints(p, c).unwrap();
        let right = Wire::from_endpoints(c, q).unwrap();
        let lk = self.graph_remove_edge(pn, cn).unwrap();
        let ghost e1 = self.edges();
        let rk = self.graph_remove_edge(cn, qn).unwrap();
        let ghost e2 = self.edges();
        let ghost n2 = self.nodes();
        let key = match merge {
            Some(k) => k,
            None => lk,
        };
        graph_add_edge(&mut self.graph, pn, qn, key);
        let _ = self.ranges.remove_wire(left);
        let _ = self.ranges.remove_wire(right);
        let _ = self.ranges.add_wire(joined);
        proof {
            let fl = left@;
            let fr = right@;
            let g = joined@;
            let l1 = lines_without_wire(l0, fl);
            let l2 = lines_without_wire(l1, fr);
            assert(self.lines() =~= lines_with_wire(l2, g)) by {
                if g.3 {
                    assert(self.lines().1 == l0.1);
                } else {
                    assert(self.lines().0 == l0.0);
                }
            }
            lemma_join_wf(e0, n0, l0, p, c, q, key);
            lemma_join_covered(l0, p, c, q);
        }
    }

    /// Joins the two wires meeting at `c` into one, where `c` is a joint of exactly two
    /// wires that lie on one line; the joined wire gets the key `merge`, or that of the
    /// wire towards the first neighbor if `merge` is `None`. Returns the ends of the
    /// joined wire.
    fn join_at_coord_with(&mut self, c: Coord, merge: Option<ValueKey>) -> (r: Option<(Coord, Coord)>)
        requires
            old(self).wf(),
        ensures
            final(self).wf(),
            r is Some <==> exists|p: Coord, q: Coord| joinable(old(self).edges(), c, p, q),
            r is None ==> final(self).lines() == old(self).lines() && final(self).edges() == old(self).edges()
                && final(self).nodes() == old(self).nodes(),
            r matches Some((p, q)) ==> {
                let fl = endpoints_wire(p, c)->0;
                let fr = endpoints_wire(c, q)->0;
                let g = endpoints_wire(p, q)->0;
                let key = match merge {
                    Some(k) => k,
                    None => old(self).edges()[(joint(p), joint(c))],
                };
                &&& joinable(old(self).edges(), c, p, q)
                &&& final(self).lines() == lines_with_wire(lines_without_wire(lines_without_wire(old(self).lines(), fl), fr), g)
                &&& final(self).edges() == edges_with(edges_without(edges_without(old(self).edges(), joint(p), joint(c)),
                    joint(c), joint(q)), joint(p), joint(q), key)
                &&& final(self).nodes() == old(self).nodes().remove(joint(c))
            },
            same_cover(old(self).lines(), final(self).lines()),
            same_units(old(self).lines(), final(self).lines()),
            same_attachments(old(self).edges(), final(self).edges()),
            merge matches Some(k) ==> forall|x: MeshEdge| #[trigger] final(self).edges().contains_key(x)
                ==> final(self).edges()[x] == k || (old(self).edges().contains_key(x) && final(self).edges()[x] == old(self).edges()[x]),
            key_uniform(old(self).edges()) && (merge matches Some(k) ==> all_keyed(old(self).edges(), joint(c), k))
                ==> key_uniform(final(self).edges()),
            key_uniform(old(self).edges()) && (merge matches Some(k) ==> all_keyed(old(self).edges(), joint(c), k))
                ==> forall|x: MeshNode, k2: ValueKey| x != joint(c) && all_keyed(old(self).edges(), x, k2)
                    ==> #[trigger] all_keyed(final(self).edges(), x, k2),
            joints_outside(old(self).nodes(), old(self).lines()) ==> joints_outside(final(self).nodes(), final(self).lines()),
    {
        let ghost e0 = self.edges();
        let ghost n0 = self.nodes();
        let ghost l0 = self.lines();
        let cn = MeshKey::WireJoint(c).node();
        let neighbors = graph_neighbors(&self.graph, cn);
        if neighbors.len() == 2 && neighbors[0].0 == 0 && neighbors[1].0 == 0 {
            let pn = neighbors[0];
            let qn = neighbors[1];
            proof {
                reveal(graph_ok);
                assert(neighbors@.contains(pn) && neighbors@.contains(qn));
                assert(self.nodes().contains(pn) && self.nodes().contains(qn));
            }
            let p = match MeshKey::from_node(pn) {
                MeshKey::WireJoint(p) => p,
                _ => { return None; },
            };
            let q = match MeshKey::from_node(qn) {
                MeshKey::WireJoint(q) => q,
                _ => { return None; },
            };
            if Wire::from_endpoints(p, q).is_some() {
                proof {
                    assert(pn == joint(p) && qn == joint(q));
                    assert forall|b: MeshNode| #[trigger] e0.contains_key((joint(c), b)) implies b == joint(p) || b == joint(q) by {
                        assert(neighbors@.contains(b));
                    }
                    assert(joinable(e0, c, p, q));
                }
                self.join_wires(p, c, q, merge);
                proof {
                    lemma_join_lines_of(e0, n0, l0, p, c, q);
                    let key = match merge {
                        Some(k) => k,
                        None => e0[(joint(p), joint(c))],
                    };
                    assert(self.edges() == edges_joined(e0, p, c, q, key));
                    lemma_join_keys_kept(e0, p, c, q, key);
                    lemma_join_attach(e0, p, c, q, key);
                    if key_uniform(e0) && (merge matches Some(k) ==> all_keyed(e0, joint(c), k)) {
                        lemma_join_uniform(e0, n0, p, c, q, key);
                    }
                    if joints_outside(n0, l0) {
                        lemma_join_outside(e0, n0, l0, p, c, q);
                    }
                }
                Some((p, q))
            } else {
                proof {
                    assert(!exists|p: Coord, q: Coord| joinable(e0, c, p, q)) by {
                        if exists|p: Coord, q: Coord| joinable(e0, c, p, q) {
                            let (p2, q2) = choose|p2: Coord, q2: Coord| joinable(e0, c, p2, q2);
                            lemma_joinable_neighbors(e0, c, neighbors@, p2, q2);
                            lemma_endpoints_symmetric(p2, q2);
                        }
                    }
                }
                None
            }
        } else {
            proof {
                assert(!exists|p: Coord, q: Coord| joinable(e0, c, p, q)) by {
                    if exists|p: Coord, q: Coord| joinable(e0, c, p, q) {
                        let (p2, q2) = choose|p2: Coord, q2: Coord| joinable(e0, c, p2, q2);
                        lemma_joinable_neighbors(e0, c, neighbors@, p2, q2);
                    }
                }
            }
            None
        }
    }
}

/// The geometry of a join at a joinable joint `c` of a well-formed graph.
proof fn lemma_join_lines_of(e0: Map<MeshEdge, ValueKey>, n0: Set<MeshNode>, l0: Lines, p: Coord, c: Coord, q: Coord)
    requires
        graph_ok(e0, n0),
        joints_match(e0, l0),
        lines_ok(l0.0),
        lines_ok(l0.1),
        joinable(e0, c, p, q),
    ensures
        e0.contains_key((joint(p), joint(c))),
        e0.contains_key((joint(c), joint(q))),
        wire_in(l0, p, c),
        wire_in(l0, c, q),
        p != c,
        q != c,
        ({
            let fl = endpoints_wire(p, c)->0;
            let fr = endpoints_wire(c, q)->0;
            let g = endpoints_wire(p, q)->0;
            let h = g.3;
            let cross = on_line(g).2;
            let l1 = lines_without_wire(l0, fl);
            let l2 = lines_without_wire(l1, fr);
            &&& fl.3 == h && fr.3 == h
            &&& on_line(fl).2 == cross && on_line(fr).2 == cross
            &&& wire_valid(fl.0, fl.1, fl.2, fl.3) && wire_valid(fr.0, fr.1, fr.2, fr.3) && wire_valid(g.0, g.1, g.2, g.3)
            &&& ends_of(p, c, fl) && ends_of(c, q, fr) && ends_of(p, q, g)
            &&& is_wire_of(dir_lines(l0, h), h, fl)
            &&& line_of(dir_lines(l0, h), cross).dom().finite()
            &&& is_wire_of(dir_lines(l1, h), h, fr)
            &&& line_of(dir_lines(l1, h), cross).dom().finite()
            &&& fits_in(line_of(dir_lines(l2, h), cross), on_line(g).0, on_line(g).1)
            &&& !line_of(dir_lines(l2, h), cross).contains_key(on_line(g).0)
        }),
{
    reveal(joints_match);
    reveal(graph_ok);
    assert(e0.contains_key((joint(c), joint(p))));
    assert(e0.contains_key((joint(c), joint(q))));
    assert(wire_in(l0, c, p));
    assert(e0.contains_key((joint(p), joint(c))));
    assert(wire_in(l0, c, q));
    lemma_endpoints_symmetric(p, c);
    assert(wire_in(l0, p, c));
    lemma_join_lines(l0, p, c, q);
}

/// Joining at a joinable joint `c`, in the edges and the lines alike, keeps the wire
/// set well formed.
proof fn lemma_join_wf(e0: Map<MeshEdge, ValueKey>, n0: Set<MeshNode>, l0: Lines, p: Coord, c: Coord, q: Coord, key: ValueKey)
    requires
        graph_ok(e0, n0),
        joints_match(e0, l0),
        attachments_ok(e0),
        lines_ok(l0.0),
        lines_ok(l0.1),
        joinable(e0, c, p, q),
    ensures
        ({
            let fl = endpoints_wire(p, c)->0;
            let fr = endpoints_wire(c, q)->0;
            let g = endpoints_wire(p, q)->0;
            let e1 = edges_without(e0, joint(p), joint(c));
            let e2 = edges_without(e1, joint(c), joint(q));
            let e = edges_with(e2, joint(p), joint(q), key);
            let l = lines_with_wire(lines_without_wire(lines_without_wire(l0, fl), fr), g);
            let n = n0.filter(|x: MeshNode| has_edge(e1, x)).filter(|x: MeshNode| has_edge(e2, x)).insert(joint(p)).insert(joint(q));
            &&& graph_ok(e, n)
            &&& joints_match(e, l)
            &&& attachments_ok(e)
            &&& n == n0.remove(joint(c))
        }),
{
    let pn = joint(p);
    let qn = joint(q);
    let cn = joint(c);
    let fl = endpoints_wire(p, c)->0;
    let fr = endpoints_wire(c, q)->0;
    let g = endpoints_wire(p, q)->0;
    let e1 = edges_without(e0, pn, cn);
    let e2 = edges_without(e1, cn, qn);
    let l1 = lines_without_wire(l0, fl);
    let l2 = lines_without_wire(l1, fr);
    lemma_join_lines_of(e0, n0, l0, p, c, q);
    lemma_attach_remove(e0, pn, cn);
    lemma_attach_remove(e1, cn, qn);
    lemma_attach_add(e2, pn, qn, key);
    lemma_edges_sym(e0, pn, cn, key);
    lemma_edges_sym(e1, cn, qn, key);
    lemma_edges_sym(e2, pn, qn, key);
    lemma_joints_remove(e0, l0, fl);
    lemma_joints_remove(e1, l1, fr);
    lemma_joints_add(e2, l2, g, key);
    lemma_join_nodes(e0, n0, p, c, q);
    lemma_graph_remove(e0, n0, pn, cn);
    lemma_graph_remove(e1, n0.filter(|x: MeshNode| has_edge(e1, x)), cn, qn);
    lemma_graph_add(e2, n0.filter(|x: MeshNode| has_edge(e1, x)).filter(|x: MeshNode| has_edge(e2, x)), pn, qn, key);
}

/// Removing an edge, and its ends left without edges, keeps the graph well formed.
proof fn lemma_graph_remove(e: Map<MeshEdge, ValueKey>, n: Set<MeshNode>, a: MeshNode, b: MeshNode)
    requires
        graph_ok(e, n),
    ensures
        graph_ok(edges_without(e, a, b), n.filter(|x: MeshNode| has_edge(edges_without(e, a, b), x))),
{
    reveal(graph_ok);
    let e2 = edges_without(e, a, b);
    let n2 = n.filter(|x: MeshNode| has_edge(e2, x));
    assert forall|x: MeshNode, y: MeshNode| #[trigger] e2.contains_key((x, y)) implies
        e2.contains_key((y, x)) && e2[(y, x)] == e2[(x, y)] && n2.contains(x) && n2.contains(y) by {
        assert(e.contains_key((x, y)));
        assert(has_edge(e2, x));
        assert(e2.contains_key((y, x)));
        assert(has_edge(e2, y));
    }
    assert forall|x: MeshNode| #[trigger] n2.contains(x) implies
        valid_node(x) && exists|y: MeshNode| #[trigger] e2.contains_key((x, y)) by {
        assert(has_edge(e2, x));
    }
}

/// After a join at `c`, the nodes are those before without the joint at `c`.
proof fn lemma_join_nodes(e0: Map<MeshEdge, ValueKey>, n0: Set<MeshNode>, p: Coord, c: Coord, q: Coord)
    requires
        graph_ok(e0, n0),
        joinable(e0, c, p, q),
        p != c,
        q != c,
    ensures
        ({
            let e1 = edges_without(e0, joint(p), joint(c));
            let e2 = edges_without(e1, joint(c), joint(q));
            n0.filter(|x: MeshNode| has_edge(e1, x)).filter(|x: MeshNode| has_edge(e2, x)).insert(joint(p)).insert(joint(q))
                == n0.remove(joint(c))
        }),
{
    reveal(graph_ok);
    let pn = joint(p);
    let qn = joint(q);
    let cn = joint(c);
    let e1 = edges_without(e0, pn, cn);
    let e2 = edges_without(e1, cn, qn);
    let n = n0.filter(|x: MeshNode| has_edge(e1, x)).filter(|x: MeshNode| has_edge(e2, x)).insert(pn).insert(qn);
    assert forall|x: MeshNode| n0.contains(x) && x != cn implies #[trigger] n.contains(x) by {
        if x != pn && x != qn {
            let b = choose|b: MeshNode| #[trigger] e0.contains_key((x, b));
            assert(e0.contains_key((b, x)));
            assert(b != cn) by {
                if b == cn {
                    assert(e0.contains_key((cn, x)));
                }
            }
            assert(e1.contains_key((x, b)));
            assert(e2.contains_key((x, b)));
        }
    }
    assert(!has_edge(e2, cn)) by {
        if has_edge(e2, cn) {
            let b = choose|b: MeshNode| #[trigger] e2.contains_key((cn, b));
            assert(e0.contains_key((cn, b)));
        }
    }
    assert(n0.contains(qn)) by {
        assert(e0.contains_key((cn, qn)));
    }
    assert(n0.contains(pn)) by {
        assert(e0.contains_key((cn, pn)));
    }
    assert forall|x: MeshNode| #[trigger] n.contains(x) implies n0.remove(cn).contains(x) by {
        if x == pn || x == qn {
            assert(x != cn);
        }
    }
    assert(n =~= n0.remove(cn));
}

/// A held wire is an edge between the joints at its ends.
proof fn lemma_wire_edge(e: Map<MeshEdge, ValueKey>, l: Lines, f: (Axis, Axis, Axis, bool))
    requires
        joints_match(e, l),
        wire_valid(f.0, f.1, f.2, f.3),
        is_wire_of(dir_lines(l, f.3), f.3, f),
    ensures
        e.contains_key((joint(start_of(f)), joint(end_of(f)))),
{
    reveal(joints_match);
    lemma_fields_endpoints(f);
    assert(wire_in(l, start_of(f), end_of(f)));
}

/// Replacing the edge `p`–`q` by edges through `cn` adds `cn` to the nodes.
proof fn lemma_split_nodes(e0: Map<MeshEdge, ValueKey>, n0: Set<MeshNode>, p: MeshNode, q: MeshNode, cn: MeshNode)
    requires
        graph_ok(e0, n0),
        e0.contains_key((p, q)),
    ensures
        n0.filter(|x: MeshNode| has_edge(edges_without(e0, p, q), x)).insert(p).insert(cn).insert(q) == n0.insert(cn),
{
    reveal(graph_ok);
    let e1 = edges_without(e0, p, q);
    assert forall|x: MeshNode| n0.contains(x) && x != p && x != q implies has_edge(e1, x) by {
        let b = choose|b: MeshNode| #[trigger] e0.contains_key((x, b));
        assert(e0.contains_key((b, x)));
        assert(e1.contains_key((x, b)));
    }
    assert(n0.filter(|x: MeshNode| has_edge(e1, x)).insert(p).insert(cn).insert(q) =~= n0.insert(cn));
}

/// Whether the point `pt` lies on a held wire of the given direction, ends included.
pub open spec fn covered(l: Lines, pt: Coord, h: bool) -> bool {
    exists|k: Axis| #[trigger] line_of(dir_lines(l, h), cross_of(pt, h)).contains_key(k)
        && k <= main_of(pt, h) <= k + line_of(dir_lines(l, h), cross_of(pt, h))[k]
}

/// Whether two sets of lines cover the same points in each direction.
pub open spec fn same_cover(l1: Lines, l2: Lines) -> bool {
    forall|pt: Coord, h: bool| #[trigger] covered(l1, pt, h) == covered(l2, pt, h)
}

/// Whether two sets of lines cover the same unit segments on every line of each direction.
pub open spec fn same_units(l1: Lines, l2: Lines) -> bool {
    forall|h: bool, cr: Axis, m: int| #[trigger] unit_covered(line_of(dir_lines(l1, h), cr), m)
        == unit_covered(line_of(dir_lines(l2, h), cr), m)
}

/// Splitting a wire in two covers the same points.
proof fn lemma_split_covered(l0: Lines, l1: Lines, f: (Axis, Axis, Axis, bool), c: Coord)
    requires
        lines_ok(dir_lines(l0, f.3)),
        split_at(dir_lines(l0, f.3), dir_lines(l1, f.3), cross_of(c, f.3), main_of(c, f.3), f.3, f),
        dir_lines(l1, !f.3) == dir_lines(l0, !f.3),
    ensures
        same_cover(l0, l1),
{
    let (start, len, cross, h) = on_line(f);
    let main = main_of(c, h);
    assert forall|pt: Coord, d: bool| #[trigger] covered(l0, pt, d) == covered(l1, pt, d) by {
        if d == h && cross_of(pt, d) == cross {
            let line0 = line_of(dir_lines(l0, d), cross);
            let line1 = line_of(dir_lines(l1, d), cross);
            let m = main_of(pt, d);
            assert(line1 == line0.insert(start, (main - start) as u32).insert(main, (start + len - main) as u32));
            if covered(l0, pt, d) {
                let k = choose|k: Axis| #[trigger] line0.contains_key(k) && k <= m <= k + line0[k];
                if k == start {
                    if m <= main {
                        assert(line1.contains_key(start) && start <= m <= start + line1[start]);
                    } else {
                        assert(line1.contains_key(main) && main <= m <= main + line1[main]);
                    }
                } else if k == main {
                    assert(dir_lines(l0, d).contains_key(cross));
                    assert(start + len <= main);
                } else {
                    assert(line1.contains_key(k) && k <= m <= k + line1[k]);
                }
            }
            if covered(l1, pt, d) {
                let k = choose|k: Axis| #[trigger] line1.contains_key(k) && k <= m <= k + line1[k];
                if k == start || k == main {
                    assert(line0.contains_key(start) && start <= m <= start + line0[start]);
                } else {
                    assert(line0.contains_key(k) && k <= m <= k + line0[k]);
                }
            }
        } else if d == h {
            assert(line_of(dir_lines(l1, d), cross_of(pt, d)) == line_of(dir_lines(l0, d), cross_of(pt, d)));
        } else {
            assert(dir_lines(l1, d) == dir_lines(l0, d));
        }
    }
}

/// Joining two wires into one covers the same points.
proof fn lemma_join_covered(l0: Lines, p: Coord, c: Coord, q: Coord)
    requires
        lines_ok(l0.0),
        lines_ok(l0.1),
        wire_in(l0, p, c),
        wire_in(l0, c, q),
        endpoints_wire(p, q) is Some,
        ({
            let fl = endpoints_wire(p, c)->0;
            let fr = endpoints_wire(c, q)->0;
            let g = endpoints_wire(p, q)->0;
            lines_ok(dir_lines(lines_with_wire(lines_without_wire(lines_without_wire(l0, fl), fr), g), g.3))
        }),
    ensures
        ({
            let fl = endpoints_wire(p, c)->0;
            let fr = endpoints_wire(c, q)->0;
            let g = endpoints_wire(p, q)->0;
            &&& same_cover(l0, lines_with_wire(lines_without_wire(lines_without_wire(l0, fl), fr), g))
            &&& same_units(l0, lines_with_wire(lines_without_wire(lines_without_wire(l0, fl), fr), g))
        }),
{
    lemma_join_lines(l0, p, c, q);
    let fl = endpoints_wire(p, c)->0;
    let fr = endpoints_wire(c, q)->0;
    let g = endpoints_wire(p, q)->0;
    let lf = lines_with_wire(lines_without_wire(lines_without_wire(l0, fl), fr), g);
    let (sg, lg, cross, h) = on_line(g);
    let (sl, ll, cl, hl) = on_line(fl);
    let (sr, lr, cr, hr) = on_line(fr);
    let main = main_of(c, h);
    let line0 = line_of(dir_lines(l0, h), cross);
    assert(dir_lines(l0, h).contains_key(cross));
    let line2 = line_of(dir_lines(lines_without_wire(lines_without_wire(l0, fl), fr), h), cross);
    assert(line2 =~= line0.remove(sl).remove(sr)) by {
        let l1 = lines_without_wire(l0, fl);
        let line1 = line_of(dir_lines(l1, h), cross);
        assert(line1 =~= line0.remove(sl)) by {
            let seg = line0.remove(sl);
            if seg.dom().len() == 0 {
                assert(seg.dom() =~= Set::<Axis>::empty());
            }
        }
        let seg = line1.remove(sr);
        if seg.dom().len() == 0 {
            assert(seg.dom() =~= Set::<Axis>::empty());
        }
    }
    let linef = line_of(dir_lines(lf, h), cross);
    assert(linef == line2.insert(sg, lg));
    assert((sl == sg && sr == main) || (sr == sg && sl == main));
    assert(line0 =~= linef.insert(sg, (main - sg) as u32).insert(main, (sg + lg - main) as u32));
    assert(dir_lines(l0, h) =~= dir_lines(lf, h).insert(cross, linef.insert(sg, (main - sg) as u32).insert(main, (sg + lg - main) as u32)));
    assert(split_at(dir_lines(lf, g.3), dir_lines(l0, g.3), cross_of(c, g.3), main_of(c, g.3), g.3, g));
    assert(dir_lines(l0, !g.3) == dir_lines(lf, !g.3));
    lemma_split_covered(lf, l0, g, c);
    lemma_split_line_facts(lf, l0, g, c);
    assert forall|h2: bool, cr: Axis, m: int| #[trigger] unit_covered(line_of(dir_lines(l0, h2), cr), m)
        == unit_covered(line_of(dir_lines(lf, h2), cr), m) by {
        if h2 != g.3 {
            assert(dir_lines(l0, h2) == dir_lines(lf, h2));
        }
    }
}

/// Whether the wire between `p` and `q` holds `c` strictly inside.
pub open spec fn wire_through(p: Coord, q: Coord, c: Coord) -> bool {
    match endpoints_wire(p, q) {
        Some(f) => cross_of(c, f.3) == on_line(f).2 && on_line(f).0 < main_of(c, f.3) < on_line(f).0 + on_line(f).1,
        None => false,
    }
}

/// Whether `k` is the key of an edge at the joint `c`, or of a wire that holds `c`
/// strictly inside.
pub open spec fn key_near(e: Map<MeshEdge, ValueKey>, c: Coord, k: ValueKey) -> bool {
    ||| exists|b: MeshNode| #[trigger] e.contains_key((joint(c), b)) && e[(joint(c), b)] == k
    ||| exists|p: Coord, q: Coord| #[trigger] e.contains_key((joint(p), joint(q))) && e[(joint(p), joint(q))] == k
        && wire_through(p, q, c)
}

/// Splitting the wire `f` at the point `c` inside it: every edge at `c` afterwards
/// carries a key near `c` before, and every key near `c` afterwards was near `c` before.
proof fn lemma_split_near(e0: Map<MeshEdge, ValueKey>, f: (Axis, Axis, Axis, bool), c: Coord)
    requires
        wire_valid(f.0, f.1, f.2, f.3),
        e0.contains_key((joint(start_of(f)), joint(end_of(f)))),
        cross_of(c, f.3) == on_line(f).2,
        on_line(f).0 < main_of(c, f.3) < on_line(f).0 + on_line(f).1,
    ensures
        ({
            let e1 = edges_split(e0, f, c, e0[(joint(start_of(f)), joint(end_of(f)))]);
            &&& forall|b: MeshNode| #[trigger] e1.contains_key((joint(c), b)) ==> key_near(e0, c, e1[(joint(c), b)])
            &&& forall|k: ValueKey| key_near(e1, c, k) ==> #[trigger] key_near(e0, c, k)
        }),
{
    let k = e0[(joint(start_of(f)), joint(end_of(f)))];
    let e1 = edges_split(e0, f, c, k);
    lemma_fields_endpoints(f);
    assert(wire_through(start_of(f), end_of(f), c));
    assert(c != start_of(f) && c != end_of(f));
    lemma_joint_injective(c, start_of(f));
    lemma_joint_injective(c, end_of(f));
    assert forall|b: MeshNode| #[trigger] e1.contains_key((joint(c), b)) implies key_near(e0, c, e1[(joint(c), b)]) by {
        if e1[(joint(c), b)] == k {
        } else {
            assert(e0.contains_key((joint(c), b)));
        }
    }
    assert forall|k2: ValueKey| key_near(e1, c, k2) implies #[trigger] key_near(e0, c, k2) by {
        if exists|b: MeshNode| #[trigger] e1.contains_key((joint(c), b)) && e1[(joint(c), b)] == k2 {
            let b = choose|b: MeshNode| #[trigger] e1.contains_key((joint(c), b)) && e1[(joint(c), b)] == k2;
            assert(key_near(e0, c, e1[(joint(c), b)]));
        } else {
            let (p, q) = choose|p: Coord, q: Coord| #[trigger] e1.contains_key((joint(p), joint(q)))
                && e1[(joint(p), joint(q))] == k2 && wire_through(p, q, c);
            assert(p != c && q != c);
            lemma_joint_injective(p, c);
            lemma_joint_injective(q, c);
            if e1[(joint(p), joint(q))] == k {
                assert(e0.contains_key((joint(start_of(f)), joint(end_of(f)))));
            } else {
                assert(e0.contains_key((joint(p), joint(q))));
            }
        }
    }
}

/// Whether the edges at ports and tunnels, and their keys, are the same in both.
pub open spec fn same_attachments(e1: Map<MeshEdge, ValueKey>, e2: Map<MeshEdge, ValueKey>) -> bool {
    forall|a: MeshNode, b: MeshNode|
        #![trigger e1.contains_key((a, b))]
        #![trigger e2.contains_key((a, b))]
        a.0 != 0 ==> (e1.contains_key((a, b)) <==> e2.contains_key((a, b)))
            && (e1.contains_key((a, b)) ==> e1[(a, b)] == e2[(a, b)])
}

/// Whether the links of ports and tunnels are the same in both, whatever their keys.
pub open spec fn same_links(e1: Map<MeshEdge, ValueKey>, e2: Map<MeshEdge, ValueKey>) -> bool {
    forall|a: MeshNode, b: MeshNode|
        #![trigger e1.contains_key((a, b))]
        #![trigger e2.contains_key((a, b))]
        a.0 != 0 ==> (e1.contains_key((a, b)) <==> e2.contains_key((a, b)))
}

/// Links kept twice are kept.
proof fn lemma_same_links_trans(e0: Map<MeshEdge, ValueKey>, e1: Map<MeshEdge, ValueKey>, e2: Map<MeshEdge, ValueKey>)
    requires
        same_links(e0, e1),
        same_links(e1, e2),
    ensures
        same_links(e0, e2),
{
    assert forall|a: MeshNode, b: MeshNode|
        #![trigger e0.contains_key((a, b))]
        #![trigger e2.contains_key((a, b))]
        a.0 != 0 implies (e0.contains_key((a, b)) <==> e2.contains_key((a, b))) by {
        assert(e0.contains_key((a, b)) <==> e1.contains_key((a, b)));
    }
}

/// Edges with the same attachments, or on the same pairs, have the same links.
proof fn lemma_same_links_of(e0: Map<MeshEdge, ValueKey>, e1: Map<MeshEdge, ValueKey>)
    requires
        same_attachments(e0, e1) || e0.dom() == e1.dom(),
    ensures
        same_links(e0, e1),
{
    if e0.dom() == e1.dom() {
        assert forall|a: MeshNode, b: MeshNode|
            #![trigger e0.contains_key((a, b))]
            #![trigger e1.contains_key((a, b))]
            a.0 != 0 implies (e0.contains_key((a, b)) <==> e1.contains_key((a, b))) by {
            assert(e0.dom().contains((a, b)) == e1.dom().contains((a, b)));
        }
    }
}

/// A join changes edges between joints only.
proof fn lemma_join_attach(e: Map<MeshEdge, ValueKey>, p: Coord, c: Coord, q: Coord, k: ValueKey)
    ensures
        same_attachments(e, edges_joined(e, p, c, q, k)),
{
}

/// Attachments kept twice are kept.
proof fn lemma_attach_trans(e0: Map<MeshEdge, ValueKey>, e1: Map<MeshEdge, ValueKey>, e2: Map<MeshEdge, ValueKey>)
    requires
        same_attachments(e0, e1),
        same_attachments(e1, e2),
    ensures
        same_attachments(e0, e2),
{
    assert forall|a: MeshNode, b: MeshNode|
        #![trigger e0.contains_key((a, b))]
        #![trigger e2.contains_key((a, b))]
        a.0 != 0 implies (e0.contains_key((a, b)) <==> e2.contains_key((a, b)))
            && (e0.contains_key((a, b)) ==> e0[(a, b)] == e2[(a, b)]) by {
        assert(e0.contains_key((a, b)) <==> e1.contains_key((a, b)));
    }
}

/// Splitting a wire at `c` changes only edges between joints, keeps those at the joint
/// at `c`, and adds one at least if there was none.
proof fn lemma_split_edges(e0: Map<MeshEdge, ValueKey>, f: (Axis, Axis, Axis, bool), c: Coord, k: ValueKey)
    requires
        wire_valid(f.0, f.1, f.2, f.3),
        on_line(f).0 < main_of(c, f.3) < on_line(f).0 + on_line(f).1,
        cross_of(c, f.3) == on_line(f).2,
    ensures
        same_attachments(e0, edges_split(e0, f, c, k)),
        has_edge(edges_split(e0, f, c, k), joint(c)),
        forall|b: MeshNode| #[trigger] e0.contains_key((joint(c), b)) ==> edges_split(e0, f, c, k).contains_key((joint(c), b)),
{
    let e = edges_split(e0, f, c, k);
    lemma_fields_endpoints(f);
    assert(joint(c) != joint(start_of(f)) && joint(c) != joint(end_of(f)));
    assert(e.contains_key((joint(c), joint(end_of(f)))));
    assert forall|a: MeshNode, b: MeshNode|
        #![trigger e0.contains_key((a, b))]
        #![trigger e.contains_key((a, b))]
        a.0 != 0 implies (e0.contains_key((a, b)) <==> e.contains_key((a, b)))
            && (e0.contains_key((a, b)) ==> e0[(a, b)] == e[(a, b)]) by {
    }
}

impl WireSet {
    /// Splits the wires of both directions that `c` lies strictly inside, so that `c`
    /// becomes a joint of them.
    fn split_at_coord(&mut self, c: Coord)
        requires
            old(self).wf(),
        ensures
            final(self).wf(),
            same_cover(old(self).lines(), final(self).lines()),
            same_attachments(old(self).edges(), final(self).edges()),
            has_edge(final(self).edges(), joint(c)) <==> has_edge(old(self).edges(), joint(c))
                || inside_wire(old(self).lines(), c, true) || inside_wire(old(self).lines(), c, false),
            forall|b: MeshNode| #[trigger] old(self).edges().contains_key((joint(c), b))
                ==> final(self).edges().contains_key((joint(c), b)),
            forall|x: MeshNode| x != joint(c) ==> (#[trigger] final(self).nodes().contains(x) == old(self).nodes().contains(x)),
            old(self).meshes_ok() && !(inside_wire(old(self).lines(), c, true) && inside_wire(old(self).lines(), c, false))
                ==> final(self).meshes_ok(),
            !inside_wire(final(self).lines(), c, true),
            !inside_wire(final(self).lines(), c, false),
            forall|b: MeshNode| #[trigger] final(self).edges().contains_key((joint(c), b))
                ==> key_near(old(self).edges(), c, final(self).edges()[(joint(c), b)]),
    {
        let ghost e0 = self.edges();
        let ghost l0 = self.lines();
        let ghost n0 = self.nodes();
        let ghost ok = old(self).meshes_ok() && !(inside_wire(l0, c, true) && inside_wire(l0, c, false));
        let r1 = self.split_wire_on_joint(c, true);
        let ghost e1 = self.edges();
        let ghost l1 = self.lines();
        let ghost n1 = self.nodes();
        proof {
            if let Some(w) = r1 {
                let f = w@;
                lemma_split_lines(l0, l1, f, c);
                lemma_split_near(e0, f, c);
                lemma_split_edges(e0, f, c, e0[(joint(start_of(f)), joint(end_of(f)))]);
                lemma_split_line_facts(l0, l1, f, c);
                if ok {
                    lemma_split_meshes(e0, n0, l0, l1, f, c);
                }
            }
            assert(inside_wire(l1, c, false) == inside_wire(l0, c, false)) by {
                assert(dir_lines(l1, false) == dir_lines(l0, false));
            }
        }
        let r2 = self.split_wire_on_joint(c, false);
        proof {
            let e2 = self.edges();
            let l2 = self.lines();
            if let Some(w) = r2 {
                let f = w@;
                lemma_split_lines(l1, l2, f, c);
                lemma_split_near(e1, f, c);
                lemma_split_edges(e1, f, c, e1[(joint(start_of(f)), joint(end_of(f)))]);
                lemma_split_line_facts(l1, l2, f, c);
                if ok {
                    assert(inside_wire(l0, c, false));
                    assert(r1 is None);
                    assert(!inside_wire(l1, c, true));
                    lemma_split_meshes(e1, n1, l1, l2, f, c);
                }
            }
            assert(!inside_wire(l1, c, true));
            assert(inside_wire(l2, c, true) == inside_wire(l1, c, true)) by {
                assert(dir_lines(l2, true) == dir_lines(l1, true));
            }
            if ok && r1 is Some && r2 is None {
                assert(self.edges() == e1 && self.nodes() == n1 && self.lines() == l1);
            }
            assert forall|b: MeshNode| #[trigger] e2.contains_key((joint(c), b)) implies key_near(e0, c, e2[(joint(c), b)]) by {
                if r1 is None {
                    if r2 is None {
                        assert(key_near(e0, c, e0[(joint(c), b)]));
                    } else {
                        assert(key_near(e1, c, e2[(joint(c), b)]));
                    }
                } else {
                    if r2 is None {
                        assert(key_near(e0, c, e1[(joint(c), b)]));
                    } else {
                        assert(key_near(e1, c, e2[(joint(c), b)]));
                    }
                }
            }
            assert(same_cover(l0, l2)) by {
                assert forall|pt: Coord, h: bool| #[trigger] covered(l0, pt, h) == covered(l2, pt, h) by {
                    assert(covered(l0, pt, h) == covered(l1, pt, h));
                    assert(covered(l1, pt, h) == covered(l2, pt, h));
                }
            }
            assert(same_attachments(e0, e2)) by {
                assert forall|a: MeshNode, b: MeshNode|
                    #![trigger e0.contains_key((a, b))]
                    #![trigger e2.contains_key((a, b))]
                    a.0 != 0 implies (e0.contains_key((a, b)) <==> e2.contains_key((a, b)))
                        && (e0.contains_key((a, b)) ==> e0[(a, b)] == e2[(a, b)]) by {
                    assert(e0.contains_key((a, b)) <==> e1.contains_key((a, b)));
                    assert(e1.contains_key((a, b)) <==> e2.contains_key((a, b)));
                }
            }
        }
    }
}

/// Changing only the keys of the edges keeps the wire set well formed.
proof fn lemma_same_dom(e: Map<MeshEdge, ValueKey>, e2: Map<MeshEdge, ValueKey>, l: Lines)
    requires
        joints_match(e, l),
        attachments_ok(e),
        e2.dom() == e.dom(),
    ensures
        joints_match(e2, l),
        attachments_ok(e2),
{
    reveal(joints_match);
    reveal(attachments_ok);
    assert forall|p: Coord, q: Coord| #[trigger] e2.contains_key((joint(p), joint(q))) <==> #[trigger] wire_in(l, p, q) by {
        assert(e2.contains_key((joint(p), joint(q))) == e.contains_key((joint(p), joint(q))));
    }
    assert forall|a: MeshNode, b: MeshNode| #[trigger] e2.contains_key((a, b)) && a.0 != 0 implies b.0 == 0 by {
        assert(e.contains_key((a, b)));
    }
    assert forall|a: MeshNode, b: MeshNode, c: MeshNode| #[trigger] e2.contains_key((a, b)) && #[trigger] e2.contains_key((a, c))
        && a.0 == 1 implies b == c by {
        assert(e.contains_key((a, b)) && e.contains_key((a, c)));
    }
}

/// Linking a joint to a port or tunnel `a`, where a port had no edge, keeps the wire set
/// well formed.
proof fn lemma_link(e: Map<MeshEdge, ValueKey>, l: Lines, j: MeshNode, a: MeshNode, k: ValueKey)
    requires
        joints_match(e, l),
        attachments_ok(e),
        j.0 == 0,
        a.0 != 0,
        a.0 == 1 ==> forall|b: MeshNode| !#[trigger] e.contains_key((a, b)),
    ensures
        joints_match(edges_with(e, j, a, k), l),
        attachments_ok(edges_with(e, j, a, k)),
{
    reveal(joints_match);
    reveal(attachments_ok);
    let e2 = edges_with(e, j, a, k);
    assert forall|p: Coord, q: Coord| #[trigger] e2.contains_key((joint(p), joint(q))) <==> #[trigger] wire_in(l, p, q) by {
        assert(e2.contains_key((joint(p), joint(q))) == e.contains_key((joint(p), joint(q))));
    }
    assert forall|x: MeshNode, y: MeshNode| #[trigger] e2.contains_key((x, y)) && x.0 != 0 implies y.0 == 0 by {
        if !(x == a && y == j) {
            assert(e.contains_key((x, y)));
        }
    }
    assert forall|x: MeshNode, y: MeshNode, z: MeshNode| #[trigger] e2.contains_key((x, y)) && #[trigger] e2.contains_key((x, z))
        && x.0 == 1 implies y == z by {
        if x == a {
            if y != j {
                assert(e.contains_key((a, y)));
            }
            if z != j {
                assert(e.contains_key((a, z)));
            }
        } else {
            assert(e.contains_key((x, y)) && e.contains_key((x, z)));
        }
    }
}

/// Unlinking a port or tunnel `a` from a joint keeps the edges between joints matching.
proof fn lemma_unlink(e: Map<MeshEdge, ValueKey>, l: Lines, j: MeshNode, a: MeshNode)
    requires
        joints_match(e, l),
        a.0 != 0,
    ensures
        joints_match(edges_without(e, j, a), l),
{
    reveal(joints_match);
    let e2 = edges_without(e, j, a);
    assert forall|p: Coord, q: Coord| #[trigger] e2.contains_key((joint(p), joint(q))) <==> #[trigger] wire_in(l, p, q) by {
        assert(e2.contains_key((joint(p), joint(q))) == e.contains_key((joint(p), joint(q))));
    }
}

/// The node of a port.
pub open spec fn port_node(key: ComponentKey, index: usize) -> MeshNode {
    mesh_node(MeshKey::Port(key, index))
}

/// The node of a tunnel.
pub open spec fn tunnel_node(t: TunnelSymbol) -> MeshNode {
    mesh_node(MeshKey::Tunnel(t))
}

/// Whether `c` is on the wires: a joint with edges, or strictly inside a wire.
pub open spec fn on_wires(ws: &WireSet, c: Coord) -> bool {
    has_edge(ws.edges(), joint(c)) || inside_wire(ws.lines(), c, true) || inside_wire(ws.lines(), c, false)
}

impl WireSet {
    /// Adds a port to the graph, connecting the point `c` to the port.
    ///
    /// The port gets the key of the wires at `c` (after splitting any wire that `c` lies
    /// inside), or a new key from `vf` if there are none; `vf` connects the port to it.
    ///
    /// If the port already exists as a node, this returns `None`. Otherwise, this returns
    /// the value key of the new port.
    ///
    /// Where `c` lies inside a horizontal and a vertical wire at once, both are split at
    /// `c` and their meshes meet there without their keys being merged.
    pub fn add_port<V: ValueFinalizer>(&mut self, c: Coord, key: ComponentKey, index: usize, vf: &mut V) -> (r: Option<ValueKey>)
        requires
            old(self).wf(),
        ensures
            final(self).wf(),
            r is None <==> old(self).nodes().contains(port_node(key, index)),
            r is None ==> final(self).edges() == old(self).edges() && final(self).lines() == old(self).lines()
                && final(self).nodes() == old(self).nodes(),
            r matches Some(vk) ==> {
                &&& same_cover(old(self).lines(), final(self).lines())
                &&& final(self).edges().contains_key((joint(c), port_node(key, index)))
                &&& final(self).edges()[(joint(c), port_node(key, index))] == vk
                &&& on_wires(old(self), c) ==> exists|b: MeshNode| b != port_node(key, index)
                    && #[trigger] final(self).edges().contains_key((joint(c), b)) && final(self).edges()[(joint(c), b)] == vk
            },
            old(self).meshes_ok() && !(inside_wire(old(self).lines(), c, true) && inside_wire(old(self).lines(), c, false))
                ==> final(self).meshes_ok(),
            r is None ==> *final(vf) == *old(vf),
            r matches Some(vk) ==> final(vf).calls() == old(vf).calls()
                + (if on_wires(old(self), c) { Seq::<VfCall>::empty() } else { seq![VfCall::GenKey(vk)] })
                + seq![VfCall::ConnectPort(key, index, vk)],
            r is Some ==> !inside_wire(final(self).lines(), c, true) && !inside_wire(final(self).lines(), c, false),
            r matches Some(vk) ==> (on_wires(old(self), c) ==> key_near(old(self).edges(), c, vk)),
            r is Some ==> forall|a: MeshNode, b: MeshNode| a.0 != 0 && #[trigger] old(self).edges().contains_key((a, b))
                ==> final(self).edges().contains_key((a, b)),
            forall|a: MeshNode, b: MeshNode| a.0 != 0 && a != port_node(key, index)
                ==> (#[trigger] old(self).edges().contains_key((a, b)) <==> final(self).edges().contains_key((a, b))),
            r is Some ==> forall|x: MeshNode| x.0 == 1 && x != port_node(key, index)
                ==> (#[trigger] final(self).nodes().contains(x) == old(self).nodes().contains(x)),
    {
        let port = MeshKey::Port(key, index).node();
        if graph_contains_node(&self.graph, port) {
            return None;
        }
        let cn = MeshKey::WireJoint(c).node();
        if graph_contains_edge(&self.graph, cn, port) {
            proof {
                reveal(graph_ok);
            }
            return None;
        }
        let ghost n0 = self.nodes();
        proof {
            reveal(graph_ok);
            assert forall|b: MeshNode| !#[trigger] self.edges().contains_key((port, b)) by {
                if self.edges().contains_key((port, b)) {
                    assert(n0.contains(port));
                }
            }
        }
        self.split_at_coord(c);
        let ghost e1 = self.edges();
        let ghost n1 = self.nodes();
        proof {
            reveal(graph_ok);
            assert(!n1.contains(port));
            assert forall|b: MeshNode| !#[trigger] e1.contains_key((port, b)) by {
                if e1.contains_key((port, b)) {
                    assert(n1.contains(port));
                }
            }
        }
        let ghost calls0 = vf.calls();
        let vk = match self.find_key(MeshKey::WireJoint(c)) {
            Some(k) => k,
            None => vf.gen_key(),
        };
        let ghost calls1 = vf.calls();
        proof {
            if on_wires(old(self), c) {
                let b = choose|b: MeshNode| #[trigger] e1.contains_key((cn, b)) && e1[(cn, b)] == vk;
                assert(key_near(old(self).edges(), c, vk));
                assert(calls1 == calls0 + Seq::<VfCall>::empty());
            } else {
                assert(calls1 == calls0 + seq![VfCall::GenKey(vk)]);
            }
        }
        proof {
            lemma_link(e1, self.lines(), cn, port, vk);
            lemma_graph_add(e1, n1, cn, port, vk);
            if old(self).meshes_ok() && !(inside_wire(old(self).lines(), c, true) && inside_wire(old(self).lines(), c, false)) {
                if has_edge(e1, cn) {
                    let b = choose|b: MeshNode| #[trigger] e1.contains_key((cn, b)) && e1[(cn, b)] == vk;
                    lemma_uniform_keyed(e1, cn, b);
                } else {
                    lemma_no_edge_keyed(e1, cn, vk);
                }
                assert(!has_edge(e1, port));
                lemma_no_edge_keyed(e1, port, vk);
                lemma_add_uniform(e1, cn, port, vk);
                lemma_link_outside(n1, self.lines(), c, port);
            }
        }
        graph_add_edge(&mut self.graph, cn, port, vk);
        vf.connect_port(key, index, vk);
        proof {
            let e = self.edges();
            assert forall|a: MeshNode, b: MeshNode| a.0 != 0 && #[trigger] old(self).edges().contains_key((a, b))
                implies e.contains_key((a, b)) by {
                assert(e1.contains_key((a, b)));
            }
            assert forall|a: MeshNode, b: MeshNode| a.0 != 0 && a != port_node(key, index)
                implies (#[trigger] old(self).edges().contains_key((a, b)) <==> e.contains_key((a, b))) by {
                assert(old(self).edges().contains_key((a, b)) <==> e1.contains_key((a, b)));
            }
            assert forall|x: MeshNode| x.0 == 1 && x != port_node(key, index)
                implies (#[trigger] self.nodes().contains(x) == old(self).nodes().contains(x)) by {
                assert(x != joint(c));
                assert(n1.contains(x) == old(self).nodes().contains(x));
            }
            if on_wires(old(self), c) {
                let b = choose|b: MeshNode| #[trigger] e1.contains_key((cn, b)) && e1[(cn, b)] == vk;
                assert(b != port);
                assert(e.contains_key((cn, b)) && e[(cn, b)] == vk);
            }
        }
        Some(vk)
    }

    /// Adds a tunnel link to the graph, connecting the point `c` to the tunnel.
    ///
    /// The link gets the tunnel's key if the tunnel has one; else the key of the wires
    /// at `c`, or a new key from `vf` if there are none. Where both have keys and they
    /// differ, the mesh at `c` takes the tunnel's key and `vf` joins the two.
    ///
    /// If the link already exists, this returns `None`. Otherwise, this returns the value
    /// key of the new link.
    ///
    /// Where `c` lies inside a horizontal and a vertical wire at once, both are split at
    /// `c` and their meshes meet there without their keys being merged.
    pub fn add_tunnel<V: ValueFinalizer>(&mut self, c: Coord, tunnel: TunnelSymbol, vf: &mut V) -> (r: Option<ValueKey>)
        requires
            old(self).wf(),
        ensures
            final(self).wf(),
            r is None <==> old(self).edges().contains_key((joint(c), tunnel_node(tunnel))),
            r is None ==> final(self).edges() == old(self).edges() && final(self).lines() == old(self).lines()
                && final(self).nodes() == old(self).nodes(),
            r matches Some(vk) ==> {
                &&& same_cover(old(self).lines(), final(self).lines())
                &&& final(self).edges().contains_key((joint(c), tunnel_node(tunnel)))
                &&& final(self).edges()[(joint(c), tunnel_node(tunnel))] == vk
                &&& has_edge(old(self).edges(), tunnel_node(tunnel)) ==> exists|b: MeshNode| b != joint(c)
                    && #[trigger] old(self).edges().contains_key((tunnel_node(tunnel), b))
                    && old(self).edges()[(tunnel_node(tunnel), b)] == vk
                &&& on_wires(old(self), c) && has_edge(old(self).edges(), tunnel_node(tunnel)) ==> exists|b: MeshNode|
                    b != tunnel_node(tunnel) && #[trigger] final(self).edges().contains_key((joint(c), b))
                    && final(self).edges()[(joint(c), b)] == vk
            },
            old(self).meshes_ok() && !(inside_wire(old(self).lines(), c, true) && inside_wire(old(self).lines(), c, false))
                ==> final(self).meshes_ok(),
            r is None ==> *final(vf) == *old(vf),
            forall|a: MeshNode, b: MeshNode| a.0 != 0 && (a, b) != (tunnel_node(tunnel), joint(c))
                ==> (#[trigger] old(self).edges().contains_key((a, b)) <==> final(self).edges().contains_key((a, b))),
            r matches Some(vk) ==> (!on_wires(old(self), c) && !has_edge(old(self).edges(), tunnel_node(tunnel))
                ==> final(vf).calls() == old(vf).calls().push(VfCall::GenKey(vk))),
            r is Some && on_wires(old(self), c) != has_edge(old(self).edges(), tunnel_node(tunnel))
                ==> final(vf).calls() == old(vf).calls(),
            r matches Some(vk) ==> (on_wires(old(self), c) && has_edge(old(self).edges(), tunnel_node(tunnel))
                ==> final(vf).calls() == old(vf).calls()
                    || exists|a: ValueKey| a != vk && final(vf).calls() == old(vf).calls().push(VfCall::Join(vk, seq![a]))),
    {
        let tn = MeshKey::Tunnel(tunnel).node();
        let cn = MeshKey::WireJoint(c).node();
        if graph_contains_edge(&self.graph, cn, tn) {
            return None;
        }
        let ghost e0 = self.edges();
        self.split_at_coord(c);
        let ghost e1 = self.edges();
        let ghost n1 = self.nodes();
        let added_key = self.find_key(MeshKey::WireJoint(c));
        let tunnel_key = self.find_key(MeshKey::Tunnel(tunnel));
        proof {
            assert forall|b: MeshNode| #[trigger] e1.contains_key((tn, b)) <==> e0.contains_key((tn, b)) by {}
            lemma_sym(e0, old(self).nodes(), cn, tn);
            lemma_sym(e1, n1, cn, tn);
        }
        let edge_key = match (added_key, tunnel_key) {
            (None, None) => vf.gen_key(),
            (None, Some(k)) => k,
            (Some(k), None) => k,
            (Some(added), Some(t)) => {
                if added != t {
                    let entry = [c];
                    self.flood_fill(entry.as_slice(), t);
                    let joined = [added];
                    let joined_slice = joined.as_slice();
                    assert(joined_slice@ == seq![added]);
                    vf.join(t, joined_slice);
                }
                t
            },
        };
        let ghost e2 = self.edges();
        let ghost n2 = self.nodes();
        proof {
            lemma_same_dom(e1, e2, self.lines());
            lemma_link(e2, self.lines(), cn, tn, edge_key);
            lemma_graph_add(e2, n2, cn, tn, edge_key);
            if old(self).meshes_ok() && !(inside_wire(old(self).lines(), c, true) && inside_wire(old(self).lines(), c, false)) {
                lemma_tunnel_keys(e1, e2, cn, tn, added_key, tunnel_key, edge_key);
                lemma_add_uniform(e2, cn, tn, edge_key);
                lemma_link_outside(n2, self.lines(), c, tn);
            }
        }
        let ghost e2b = self.edges();
        graph_add_edge(&mut self.graph, cn, tn, edge_key);
        proof {
            lemma_same_links_of(e0, e1);
            lemma_same_links_of(e1, e2b);
            lemma_same_links_trans(e0, e1, e2b);
            assert forall|a: MeshNode, b: MeshNode| a.0 != 0 && (a, b) != (tn, cn)
                implies (#[trigger] old(self).edges().contains_key((a, b)) <==> self.edges().contains_key((a, b))) by {
                assert(old(self).edges().contains_key((a, b)) <==> e2b.contains_key((a, b)));
            }
        }
        proof {
            reveal(all_keyed);
            let e = self.edges();
            if has_edge(e0, tn) {
                let b0 = choose|b: MeshNode| #[trigger] e0.contains_key((tn, b));
                assert(e1.contains_key((tn, b0)));
                assert(tunnel_key is Some);
                assert(edge_key == tunnel_key->0);
                let b = choose|b: MeshNode| #[trigger] e1.contains_key((tn, b)) && e1[(tn, b)] == edge_key;
                assert(e0.contains_key((tn, b)));
                assert(b != cn);
                if on_wires(old(self), c) {
                    assert(added_key is Some);
                    if added_key->0 != edge_key {
                        let d = choose|d: MeshNode| #[trigger] e1.contains_key((cn, d));
                        assert(e2.contains_key((cn, d)));
                        assert(d != tn);
                        assert(e.contains_key((cn, d)) && e[(cn, d)] == edge_key);
                    } else {
                        let d = choose|d: MeshNode| #[trigger] e1.contains_key((cn, d)) && e1[(cn, d)] == edge_key;
                        assert(d != tn);
                        assert(e.contains_key((cn, d)) && e[(cn, d)] == edge_key);
                    }
                }
            }
        }
        Some(edge_key)
    }
}

/// An edge is held under both orders of its ends.
proof fn lemma_sym(e: Map<MeshEdge, ValueKey>, n: Set<MeshNode>, a: MeshNode, b: MeshNode)
    requires
        graph_ok(e, n),
    ensures
        e.contains_key((a, b)) <==> e.contains_key((b, a)),
{
    reveal(graph_ok);
    if e.contains_key((a, b)) {
        assert(e.contains_key((b, a)));
    }
    if e.contains_key((b, a)) {
        assert(e.contains_key((a, b)));
    }
}

/// `(e1, n1, l1)` is `(e0, n0, l0)` with the wires from `p` to `c` and from `c` to `q`
/// replaced by the one wire from `p` to `q`, which carries the key of the wire from `p`
/// to `c`, and with the joint `c` gone.
#[verifier::opaque]
pub open spec fn joined_at(
    e0: Map<MeshEdge, ValueKey>, n0: Set<MeshNode>, l0: Lines,
    e1: Map<MeshEdge, ValueKey>, n1: Set<MeshNode>, l1: Lines,
    c: Coord, p: Coord, q: Coord,
) -> bool {
    let fl = endpoints_wire(p, c)->0;
    let fr = endpoints_wire(c, q)->0;
    let g = endpoints_wire(p, q)->0;
    &&& l1 == lines_with_wire(lines_without_wire(lines_without_wire(l0, fl), fr), g)
    &&& e1 == edges_with(edges_without(edges_without(e0, joint(p), joint(c)), joint(c), joint(q)),
        joint(p), joint(q), e0[(joint(p), joint(c))])
    &&& n1 == n0.remove(joint(c))
}

/// A join holds the joined wire with the key given.
proof fn lemma_joined_edge(e: Map<MeshEdge, ValueKey>, p: Coord, c: Coord, q: Coord, k: ValueKey)
    ensures
        edges_joined(e, p, c, q, k).contains_key((joint(p), joint(q))),
        edges_joined(e, p, c, q, k)[(joint(p), joint(q))] == k,
{
    let e1 = edges_without(edges_without(e, joint(p), joint(c)), joint(c), joint(q));
    assert(edges_joined(e, p, c, q, k) == e1.insert((joint(p), joint(q)), k).insert((joint(q), joint(p)), k));
}

/// The edges after a join between `p` and `q` at `c`.
proof fn lemma_joined_edges(e2: Map<MeshEdge, ValueKey>, n2: Set<MeshNode>, l2: Lines,
    ef: Map<MeshEdge, ValueKey>, nf: Set<MeshNode>, lf: Lines, c: Coord, p: Coord, q: Coord)
    requires
        joined_at(e2, n2, l2, ef, nf, lf, c, p, q),
    ensures
        ef == edges_joined(e2, p, c, q, e2[(joint(p), joint(c))]),
{
    reveal(joined_at);
}

/// Unlinking a port from a joint, then possibly joining wires, keeps the links of every
/// other port.
proof fn lemma_ports_kept(e0: Map<MeshEdge, ValueKey>, ef: Map<MeshEdge, ValueKey>, port: MeshNode, cn: MeshNode,
    join: Option<(Coord, Coord, Coord)>)
    requires
        port.0 == 1,
        cn.0 == 0,
        join is None ==> ef == edges_without(e0, port, cn),
        join matches Some((p, c, q)) ==> {
            let e1 = edges_without(e0, port, cn);
            ef == edges_joined(e1, p, c, q, e1[(joint(p), joint(c))])
        },
    ensures
        forall|x: MeshNode| x.0 == 1 && x != port ==> (#[trigger] has_edge(ef, x) == has_edge(e0, x)),
{
    assert forall|x: MeshNode| x.0 == 1 && x != port implies (#[trigger] has_edge(ef, x) == has_edge(e0, x)) by {
        assert forall|b: MeshNode| #[trigger] ef.contains_key((x, b)) == e0.contains_key((x, b)) by {}
        if has_edge(ef, x) {
            let b = choose|b: MeshNode| #[trigger] ef.contains_key((x, b));
            assert(e0.contains_key((x, b)));
        }
        if has_edge(e0, x) {
            let b = choose|b: MeshNode| #[trigger] e0.contains_key((x, b));
            assert(ef.contains_key((x, b)));
        }
    }
}

/// The point a port is linked to.
pub open spec fn linked_point(e: Map<MeshEdge, ValueKey>, port: MeshNode) -> Coord {
    choose|c: Coord| e.contains_key((port, joint(c)))
}

/// In a sound graph the nodes are exactly the ends of edges.
proof fn lemma_node_has_edge(e: Map<MeshEdge, ValueKey>, n: Set<MeshNode>, x: MeshNode)
    requires
        graph_ok(e, n),
    ensures
        n.contains(x) == has_edge(e, x),
{
    reveal(graph_ok);
    if has_edge(e, x) {
        let b = choose|b: MeshNode| #[trigger] e.contains_key((x, b));
    }
}

/// In a sound graph an edge is held under both orders with one key, and its ends are nodes.
proof fn lemma_edge_facts(e: Map<MeshEdge, ValueKey>, n: Set<MeshNode>, a: MeshNode, b: MeshNode)
    requires
        graph_ok(e, n),
        e.contains_key((a, b)),
    ensures
        e.contains_key((b, a)),
        e[(b, a)] == e[(a, b)],
        n.contains(a),
{
    reveal(graph_ok);
}

/// A joint all of whose edges carry `k`, joined away between `p` and `q`, leaves the
/// joined wire of key `k` and no edge at the joint.
proof fn lemma_keyed_joined(e2: Map<MeshEdge, ValueKey>, n2: Set<MeshNode>, c: Coord, p: Coord, q: Coord, k: ValueKey)
    requires
        graph_ok(e2, n2),
        all_keyed(e2, joint(c), k),
        e2.contains_key((joint(c), joint(p))),
    ensures
        edges_joined(e2, p, c, q, e2[(joint(p), joint(c))]).contains_key((joint(p), joint(q))),
        edges_joined(e2, p, c, q, e2[(joint(p), joint(c))])[(joint(p), joint(q))] == k,
{
    lemma_keyed_at(e2, joint(c), joint(p), k);
    lemma_edge_facts(e2, n2, joint(c), joint(p));
    lemma_joined_edge(e2, p, c, q, e2[(joint(p), joint(c))]);
}

/// An edge at a joint all of whose edges carry `k` carries `k`.
proof fn lemma_keyed_at(e: Map<MeshEdge, ValueKey>, x: MeshNode, b: MeshNode, k: ValueKey)
    requires
        all_keyed(e, x, k),
        e.contains_key((x, b)),
    ensures
        e[(x, b)] == k,
{
    reveal(all_keyed);
}

/// In a sound graph the nodes are exactly the ends of edges.
pub proof fn lemma_node_has_edge_pub(e: Map<MeshEdge, ValueKey>, n: Set<MeshNode>, x: MeshNode)
    requires
        graph_ok(e, n),
    ensures
        n.contains(x) == has_edge(e, x),
{
    lemma_node_has_edge(e, n, x);
}

/// In a sound graph an edge is held under both orders.
pub proof fn lemma_edge_facts_pub(e: Map<MeshEdge, ValueKey>, n: Set<MeshNode>, a: MeshNode, b: MeshNode)
    requires
        graph_ok(e, n),
        e.contains_key((a, b)),
    ensures
        e.contains_key((b, a)),
{
    lemma_edge_facts(e, n, a, b);
}

/// Along a walk in a graph whose edges at each node share one key, every edge at the
/// walk's last node carries the key of the edges at its first node.
proof fn lemma_walk_same_key(e: Map<MeshEdge, ValueKey>, n: Set<MeshNode>, p: Seq<MeshNode>, x: MeshNode, y: MeshNode)
    requires
        graph_ok(e, n),
        key_uniform(e),
        is_walk(e, p),
        e.contains_key((p[0], x)),
        e.contains_key((p.last(), y)),
    ensures
        e[(p.last(), y)] == e[(p[0], x)],
    decreases p.len(),
{
    reveal(key_uniform);
    if p.len() > 1 {
        let q = p.drop_last();
        let m = p[p.len() - 2];
        assert(is_walk(e, q)) by {
            assert forall|i: int| 0 <= i < q.len() - 1 implies #[trigger] e.contains_key((q[i], q[i + 1])) by {
                assert(e.contains_key((p[i], p[i + 1])));
            }
        }
        let t = p.len() - 2;
        assert(e.contains_key((p[t], p[t + 1])));
        assert(p[t + 1] == p.last());
        assert(q.last() == m && q[0] == p[0]);
        lemma_walk_same_key(e, n, q, x, p.last());
        lemma_edge_facts(e, n, m, p.last());
        assert(e[(p.last(), m)] == e[(p.last(), y)]);
    }
}

impl WireSet {
    /// Connected nodes carry one key: in a wire set whose meshes each carry one key,
    /// every edge at a node reachable from `a` carries the key of every edge at `a`.
    pub proof fn lemma_connected_same_key(&self, a: MeshNode, b: MeshNode, x: MeshNode, y: MeshNode)
        requires
            self.wf(),
            self.meshes_ok(),
            reachable(self.edges(), a, b),
            self.edges().contains_key((a, x)),
            self.edges().contains_key((b, y)),
        ensures
            self.edges()[(b, y)] == self.edges()[(a, x)],
    {
        let p = choose|p: Seq<MeshNode>| #[trigger] is_walk(self.edges(), p) && p[0] == a && p.last() == b;
        lemma_walk_same_key(self.edges(), self.nodes(), p, x, y);
    }
}

/// Whether the node `n` is a port, named by `x` (its index cast to `usize`).
pub open spec fn port_entry(n: MeshNode, x: (ComponentKey, usize)) -> bool {
    n.0 == 1 && x == (ComponentKey(n.1), n.2 as usize)
}

/// Whether a port named by `x` is reachable from `a` along the edges `e`.
pub open spec fn port_reached(e: Map<MeshEdge, ValueKey>, a: MeshNode, x: (ComponentKey, usize)) -> bool {
    exists|n: MeshNode| #[trigger] reachable(e, a, n) && port_entry(n, x)
}

/// A joint all of whose edges carry `k`, once joined away between `p` and `q`, leaves an
/// edge of key `k` and no edge at the joint.
proof fn lemma_keyed_after_join(e2: Map<MeshEdge, ValueKey>, n2: Set<MeshNode>, l2: Lines,
    ef: Map<MeshEdge, ValueKey>, nf: Set<MeshNode>, lf: Lines, c: Coord, p: Coord, q: Coord, k: ValueKey)
    requires
        graph_ok(e2, n2),
        graph_ok(ef, nf),
        all_keyed(e2, joint(c), k),
        e2.contains_key((joint(c), joint(p))),
        joined_at(e2, n2, l2, ef, nf, lf, c, p, q),
    ensures
        key_of_edge(ef, k),
        !has_edge(ef, joint(c)),
{
    assert(ef == edges_joined(e2, p, c, q, e2[(joint(p), joint(c))]) && nf == n2.remove(joint(c))) by {
        reveal(joined_at);
    }
    lemma_keyed_joined(e2, n2, c, p, q, k);
    assert(ef.contains_key((joint(p), joint(q))));
    if has_edge(ef, joint(c)) {
        let b = choose|b: MeshNode| #[trigger] ef.contains_key((joint(c), b));
        lemma_edge_facts(ef, nf, joint(c), b);
    }
}

impl WireSet {
    /// Joins the two wires meeting at `c` into one, where `c` is a joint of exactly two
    /// wires that lie on one line. The joined wire takes the key of the wire towards the
    /// first neighbor of `c` (the two keys are the same in a wire set whose meshes each
    /// carry one key). Where `c` is no such joint, nothing changes.
    fn join_at_coord(&mut self, c: Coord)
        requires
            old(self).wf(),
        ensures
            final(self).wf(),
            same_units(old(self).lines(), final(self).lines()),
            same_attachments(old(self).edges(), final(self).edges()),
            (exists|p: Coord, q: Coord| joinable(old(self).edges(), c, p, q)) ==>
                exists|p: Coord, q: Coord| #[trigger] joinable(old(self).edges(), c, p, q)
                    && joined_at(old(self).edges(), old(self).nodes(), old(self).lines(),
                        final(self).edges(), final(self).nodes(), final(self).lines(), c, p, q),
            !(exists|p: Coord, q: Coord| joinable(old(self).edges(), c, p, q)) ==>
                final(self).edges() == old(self).edges() && final(self).nodes() == old(self).nodes()
                    && final(self).lines() == old(self).lines(),
            same_cover(old(self).lines(), final(self).lines()),
            same_attachments(old(self).edges(), final(self).edges()),
            forall|x: MeshNode| x != joint(c) ==> (#[trigger] final(self).nodes().contains(x) == old(self).nodes().contains(x)),
            keys_from(old(self).edges(), final(self).edges()),
            key_uniform(old(self).edges()) ==> key_uniform(final(self).edges()),
            joints_outside(old(self).nodes(), old(self).lines()) ==> joints_outside(final(self).nodes(), final(self).lines()),
    {
        let ghost e0 = self.edges();
        let r = self.join_at_coord_with(c, None);
        proof {
            if let Some((p, q)) = r {
                assert(joined_at(e0, old(self).nodes(), old(self).lines(),
                    self.edges(), self.nodes(), self.lines(), c, p, q)) by {
                    reveal(joined_at);
                }
                let k = e0[(joint(p), joint(c))];
                lemma_join_attachments(e0, p, c, q, k);
                lemma_sym(e0, old(self).nodes(), joint(c), joint(p));
                let e = self.edges();
                assert forall|x: MeshEdge| #[trigger] e.contains_key(x) implies key_of_edge(e0, e[x]) by {
                    if e[x] == k {
                        assert(e0.contains_key((joint(p), joint(c))));
                    } else {
                        assert(e0.contains_key(x));
                    }
                }
            } else {
                assert forall|x: MeshEdge| #[trigger] self.edges().contains_key(x) implies key_of_edge(e0, self.edges()[x]) by {}
            }
        }
    }

    /// Removes a port from the graph, with its link to the wires; `vf` then updates the
    /// key of the link, or deletes it if the point of the link is left without wires.
    ///
    /// This returns whether the port was linked to the wires.
    pub fn remove_port<V: ValueFinalizer>(&mut self, key: ComponentKey, index: usize, vf: &mut V) -> (r: bool)
        requires
            old(self).wf(),
        ensures
            final(self).wf(),
            r == has_edge(old(self).edges(), port_node(key, index)),
            !r ==> final(self).edges() == old(self).edges() && final(self).lines() == old(self).lines()
                && final(self).nodes() == old(self).nodes(),
            r ==> {
                &&& !has_edge(final(self).edges(), port_node(key, index))
                &&& !final(self).nodes().contains(port_node(key, index))
                &&& same_cover(old(self).lines(), final(self).lines())
            },
            old(self).meshes_ok() ==> final(self).meshes_ok(),
            !r ==> *final(vf) == *old(vf),
            forall|x: MeshNode| x.0 == 1 && x != port_node(key, index)
                ==> (#[trigger] has_edge(final(self).edges(), x) == has_edge(old(self).edges(), x)),
            r ==> {
                let c = linked_point(old(self).edges(), port_node(key, index));
                let e1 = edges_without(old(self).edges(), port_node(key, index), joint(c));
                let k = old(self).edges()[(port_node(key, index), joint(c))];
                &&& old(self).edges().contains_key((port_node(key, index), joint(c)))
                &&& same_links(e1, final(self).edges())
                &&& final(vf).calls() == old(vf).calls().push(
                    if has_edge(e1, joint(c)) { VfCall::UpdateKey(k) } else { VfCall::DeleteKey(k) })
                &&& !(exists|p: Coord, q: Coord| joinable(e1, c, p, q)) ==> final(self).edges() == e1
                &&& (exists|p: Coord, q: Coord| joinable(e1, c, p, q)) ==> exists|p: Coord, q: Coord|
                    #[trigger] joinable(e1, c, p, q) && final(self).edges() == edges_joined(e1, p, c, q, e1[(joint(p), joint(c))])
            },
    {
        let port = MeshKey::Port(key, index).node();
        let it = graph_neighbors(&self.graph, port);
        if it.len() == 0 {
            proof {
                assert forall|b: MeshNode| !#[trigger] self.edges().contains_key((port, b)) by {
                    if self.edges().contains_key((port, b)) {
                        assert(it@.contains(b));
                    }
                }
            }
            return false;
        }
        let cn = it[0];
        proof {
            assert(it@.contains(cn));
            lemma_port_link(self.edges(), self.nodes(), port, cn);
        }
        let c: Coord = (cn.1 as u32, cn.2 as u32);
        let ghost e0 = self.edges();
        let ghost l0 = self.lines();
        let k = self.graph_remove_edge(port, cn).unwrap();
        let ghost e1 = self.edges();
        proof {
            if old(self).meshes_ok() {
                lemma_remove_uniform(e0, port, cn);
                lemma_fewer_nodes_outside(old(self).nodes(), self.nodes(), l0);
            }
            assert(cn == joint(c));
            lemma_unlink(e0, l0, cn, port);
            lemma_edges_sym(e0, port, cn, k);
            lemma_attach_remove(e0, port, cn);
        }
        let ghost n1 = self.nodes();
        proof {
            let c0 = linked_point(e0, port);
            assert(e0.contains_key((port, joint(c))));
            assert(e0.contains_key((port, joint(c0))));
            lemma_joint_injective(c0, c);
            assert(e1 == edges_without(e0, port, cn));
            assert(old(self).nodes().contains(cn)) by {
                lemma_node_has_edge(e0, old(self).nodes(), cn);
                lemma_edge_facts(e0, old(self).nodes(), port, cn);
            }
            assert(n1.contains(cn) == has_edge(e1, cn));
        }
        if graph_contains_node(&self.graph, cn) {
            vf.update_key(k);
        } else {
            vf.delete_key(k);
        }
        self.join_at_coord(c);
        proof {
            if exists|p: Coord, q: Coord| joinable(e1, c, p, q) {
                let (p, q) = choose|p: Coord, q: Coord| #[trigger] joinable(e1, c, p, q)
                    && joined_at(e1, n1, l0, self.edges(), self.nodes(), self.lines(), c, p, q);
                lemma_joined_edges(e1, n1, l0, self.edges(), self.nodes(), self.lines(), c, p, q);
                lemma_ports_kept(e0, self.edges(), port, cn, Some((p, c, q)));
                lemma_join_attach(e1, p, c, q, e1[(joint(p), joint(c))]);
                lemma_same_links_of(e1, self.edges());
            } else {
                lemma_ports_kept(e0, self.edges(), port, cn, None);
                lemma_same_links_of(e1, self.edges());
            }
        }
        proof {
            assert(!has_edge(e1, port)) by {
                if has_edge(e1, port) {
                    let b = choose|b: MeshNode| #[trigger] e1.contains_key((port, b));
                    assert(e0.contains_key((port, b)));
                }
            }
            assert(!self.edges().contains_key((port, cn)));
            assert forall|b: MeshNode| !#[trigger] self.edges().contains_key((port, b)) by {
                assert(!e1.contains_key((port, b)));
            }
            lemma_no_edge_no_node(self.edges(), self.nodes(), port);
        }
        true
    }

    /// Removes the link between the point `c` and a tunnel from the graph.
    ///
    /// If neither end keeps any link, `vf` deletes the key of the link. If the point
    /// keeps links but no longer reaches the tunnel, the mesh at the point gets a new key
    /// from `vf`, split off for the ports reachable from the point; if it still reaches
    /// the tunnel, no key changes.
    ///
    /// This returns whether the link existed.
    #[verifier::rlimit(40)]
    #[verifier::spinoff_prover]
    pub fn remove_tunnel<V: ValueFinalizer>(&mut self, c: Coord, tunnel: TunnelSymbol, vf: &mut V) -> (r: bool)
        requires
            old(self).wf(),
        ensures
            final(self).wf(),
            r == old(self).edges().contains_key((joint(c), tunnel_node(tunnel))),
            !r ==> final(self).edges() == old(self).edges() && final(self).lines() == old(self).lines()
                && final(self).nodes() == old(self).nodes(),
            r ==> {
                &&& !final(self).edges().contains_key((joint(c), tunnel_node(tunnel)))
                &&& same_cover(old(self).lines(), final(self).lines())
            },
            r && reachable(edges_without(old(self).edges(), joint(c), tunnel_node(tunnel)), joint(c), tunnel_node(tunnel))
                ==> keys_from(old(self).edges(), final(self).edges()),
            old(self).meshes_ok() ==> final(self).meshes_ok(),
            !r ==> *final(vf) == *old(vf),
            same_links(edges_without(old(self).edges(), joint(c), tunnel_node(tunnel)), final(self).edges()),
            ({
                let e1 = edges_without(old(self).edges(), joint(c), tunnel_node(tunnel));
                let k0 = old(self).edges()[(joint(c), tunnel_node(tunnel))];
                &&& r && !has_edge(e1, joint(c)) && !has_edge(e1, tunnel_node(tunnel))
                    ==> final(vf).calls() == old(vf).calls().push(VfCall::DeleteKey(k0))
                &&& r && !has_edge(e1, joint(c)) && has_edge(e1, tunnel_node(tunnel)) ==> *final(vf) == *old(vf)
                &&& r && has_edge(e1, joint(c)) && reachable(e1, joint(c), tunnel_node(tunnel)) ==> *final(vf) == *old(vf)
                &&& r && has_edge(e1, joint(c)) && !reachable(e1, joint(c), tunnel_node(tunnel)) ==> {
                    let calls = final(vf).calls();
                    &&& calls.len() == old(vf).calls().len() + 1
                    &&& calls.drop_last() == old(vf).calls()
                    &&& calls.last() matches VfCall::Split(key, ports, sk)
                        && key == k0
                        && (forall|x: (ComponentKey, usize)| ports.contains(x) <==> #[trigger] port_reached(e1, joint(c), x))
                        && key_of_edge(final(self).edges(), sk)
                        && (has_edge(final(self).edges(), joint(c)) ==> all_keyed(final(self).edges(), joint(c), sk))
                }
            }),
    {
        let tn = MeshKey::Tunnel(tunnel).node();
        let cn = MeshKey::WireJoint(c).node();
        let ghost e0 = self.edges();
        let ghost l0 = self.lines();
        let k = match self.graph_remove_edge(cn, tn) {
            Some(k) => k,
            None => {
                proof {
                    lemma_sym(e0, old(self).nodes(), cn, tn);
                    assert(self.edges() =~= e0);
                    lemma_graph_remove_absent(e0, old(self).nodes(), cn, tn);
                }
                return false;
            },
        };
        let ghost e1 = self.edges();
        proof {
            lemma_unlink(e0, l0, cn, tn);
            lemma_attach_remove(e0, cn, tn);
            if old(self).meshes_ok() {
                lemma_remove_uniform(e0, cn, tn);
                lemma_fewer_nodes_outside(old(self).nodes(), self.nodes(), l0);
            }
        }
        let ghost mut sk: ValueKey = k;
        let ghost mut split_done = false;
        let port_exists = graph_contains_node(&self.graph, cn);
        let tun_exists = graph_contains_node(&self.graph, tn);
        proof {
            lemma_node_has_edge(e1, self.nodes(), cn);
            lemma_node_has_edge(e1, self.nodes(), tn);
        }
        if !port_exists && !tun_exists {
            vf.delete_key(k);
        }
        if port_exists {
            let reach = graph_bfs(&self.graph, cn);
            let mut ports: Vec<(ComponentKey, usize)> = Vec::new();
            let mut linked = false;
            let mut i: usize = 0;
            while i < reach.len()
                invariant
                    i <= reach@.len(),
                    linked == exists|j: int| 0 <= j < i && reach@[j] == tn,
                    forall|x: (ComponentKey, usize)| ports@.contains(x) <==>
                        exists|j: int| 0 <= j < i && #[trigger] port_entry(reach@[j], x),
                decreases reach@.len() - i,
            {
                let n = reach[i];
                let ghost ports0 = ports@;
                if n.0 == 1 {
                    ports.push((ComponentKey(n.1), #[verifier::truncate] (n.2 as usize)));
                }
                if n.0 == tn.0 && n.1 == tn.1 && n.2 == tn.2 {
                    linked = true;
                }
                proof {
                    assert forall|x: (ComponentKey, usize)| ports@.contains(x) <==>
                        exists|j: int| 0 <= j < i + 1 && #[trigger] port_entry(reach@[j], x) by {
                        if ports@.contains(x) {
                            if ports0.contains(x) {
                                let j = choose|j: int| 0 <= j < i && #[trigger] port_entry(reach@[j], x);
                            } else {
                                assert(port_entry(reach@[i as int], x));
                            }
                        }
                        if exists|j: int| 0 <= j < i + 1 && #[trigger] port_entry(reach@[j], x) {
                            let j = choose|j: int| 0 <= j < i + 1 && #[trigger] port_entry(reach@[j], x);
                            if j < i {
                                assert(ports0.contains(x));
                                let t = choose|t: int| 0 <= t < ports0.len() && ports0[t] == x;
                                assert(ports@[t] == x);
                            } else {
                                assert(ports@[ports@.len() - 1] == x);
                            }
                        }
                    }
                }
                i = i + 1;
            }
            proof {
                assert forall|x: (ComponentKey, usize)| ports@.contains(x) <==> #[trigger] port_reached(e1, cn, x) by {
                    if ports@.contains(x) {
                        let j = choose|j: int| 0 <= j < reach@.len() && #[trigger] port_entry(reach@[j], x);
                        assert(reach@.contains(reach@[j]));
                    }
                    if port_reached(e1, cn, x) {
                        let n = choose|n: MeshNode| #[trigger] reachable(e1, cn, n) && port_entry(n, x);
                        assert(reach@.contains(n));
                        let j = choose|j: int| 0 <= j < reach@.len() && reach@[j] == n;
                        assert(port_entry(reach@[j], x));
                    }
                }
            }
            proof {
                if reachable(e1, cn, tn) {
                    assert(reach@.contains(tn));
                    let j = choose|j: int| 0 <= j < reach@.len() && reach@[j] == tn;
                }
            }
            if !linked {
                let ports_slice = ports.as_slice();
                assert(ports_slice@ == ports@);
                let split_key = vf.split(k, ports_slice);
                let entry = [c];
                self.flood_fill(entry.as_slice(), split_key);
                proof {
                    lemma_same_dom(e1, self.edges(), l0);
                    sk = split_key;
                    split_done = true;
                    assert(entry@[0] == c);
                    assert(all_keyed(self.edges(), cn, sk));
                }
            } else {
                proof {
                    if !reachable(e1, cn, tn) {
                        let j = choose|j: int| 0 <= j < reach@.len() && reach@[j] == tn;
                        assert(reach@.contains(tn));
                    }
                }
            }
        }
        let ghost e2 = self.edges();
        let ghost n2 = self.nodes();
        proof {
            lemma_same_links_of(e1, e2);
            assert(has_edge(e1, cn) && !reachable(e1, cn, tn) ==> split_done);
            assert(split_done ==> all_keyed(e2, cn, sk) && has_edge(e2, cn));
        }
        self.join_at_coord(c);
        proof {
            lemma_same_links_of(e2, self.edges());
            lemma_same_links_trans(e1, e2, self.edges());
            if split_done {
                let ef = self.edges();
                if exists|p: Coord, q: Coord| joinable(e2, c, p, q) {
                    let (p, q) = choose|p: Coord, q: Coord| #[trigger] joinable(e2, c, p, q)
                        && joined_at(e2, n2, l0, ef, self.nodes(), self.lines(), c, p, q);
                    lemma_keyed_after_join(e2, n2, l0, ef, self.nodes(), self.lines(), c, p, q, sk);
                } else {
                    let b = choose|b: MeshNode| #[trigger] e2.contains_key((cn, b));
                    assert(ef.contains_key((cn, b)));
                    reveal(all_keyed);
                }
            }
        }
        proof {
            if reachable(e1, cn, tn) {
                assert(e2 == e1);
                assert forall|x: MeshEdge| #[trigger] e1.contains_key(x) implies key_of_edge(e0, e1[x]) by {
                    assert(e0.contains_key(x));
                }
                assert forall|x: MeshEdge| #[trigger] self.edges().contains_key(x) implies key_of_edge(e0, self.edges()[x]) by {
                    assert(key_of_edge(e2, self.edges()[x]));
                    let y = choose|y: MeshEdge| #[trigger] e2.contains_key(y) && e2[y] == self.edges()[x];
                }
            }
            assert(!e1.contains_key((cn, tn)));
            assert(!e2.contains_key((cn, tn)));
            assert(!e2.contains_key((tn, cn)));
            assert(!self.edges().contains_key((tn, cn)));
            lemma_sym(self.edges(), self.nodes(), cn, tn);
        }
        true
    }
}

/// A join at `c` changes only edges between joints.
proof fn lemma_join_attachments(e0: Map<MeshEdge, ValueKey>, p: Coord, c: Coord, q: Coord, k: ValueKey)
    ensures
        same_attachments(e0, edges_with(edges_without(edges_without(e0, joint(p), joint(c)), joint(c), joint(q)),
            joint(p), joint(q), k)),
{
}

/// The neighbor of a port is a joint.
proof fn lemma_port_link(e: Map<MeshEdge, ValueKey>, n: Set<MeshNode>, port: MeshNode, b: MeshNode)
    requires
        graph_ok(e, n),
        attachments_ok(e),
        port.0 == 1,
        e.contains_key((port, b)),
    ensures
        b.0 == 0,
        valid_node(b),
        b == joint((b.1 as u32, b.2 as u32)),
        forall|d: MeshNode| #[trigger] e.contains_key((port, d)) ==> d == b,
{
    reveal(graph_ok);
    reveal(attachments_ok);
    assert(n.contains(b));
}

/// A node without edges is not a node of a well-formed graph.
proof fn lemma_no_edge_no_node(e: Map<MeshEdge, ValueKey>, n: Set<MeshNode>, x: MeshNode)
    requires
        graph_ok(e, n),
        forall|b: MeshNode| !#[trigger] e.contains_key((x, b)),
    ensures
        !n.contains(x),
{
    reveal(graph_ok);
}

/// Removing an absent edge removes no node.
proof fn lemma_graph_remove_absent(e: Map<MeshEdge, ValueKey>, n: Set<MeshNode>, a: MeshNode, b: MeshNode)
    requires
        graph_ok(e, n),
        !e.contains_key((a, b)),
    ensures
        n.filter(|x: MeshNode| has_edge(edges_without(e, a, b), x)) == n,
{
    reveal(graph_ok);
    assert(!e.contains_key((b, a)));
    assert(edges_without(e, a, b) =~= e);
    assert forall|x: MeshNode| n.contains(x) implies has_edge(e, x) by {}
    assert(n.filter(|x: MeshNode| has_edge(edges_without(e, a, b), x)) =~= n);
}

impl WireSet {
    /// Removes a held wire, from the graph and the ranges alike.
    fn remove_held_wire(&mut self, w: Wire)
        requires
            old(self).wf(),
            is_wire_of(dir_lines(old(self).lines(), w@.3), w@.3, w@),
        ensures
            final(self).wf(),
            final(self).lines() == lines_without_wire(old(self).lines(), w@),
            final(self).edges() == edges_without(old(self).edges(), joint(start_of(w@)), joint(end_of(w@))),
            same_attachments(old(self).edges(), final(self).edges()),
            forall|x: MeshNode| #[trigger] final(self).nodes().contains(x) ==> old(self).nodes().contains(x),
            key_uniform(old(self).edges()) ==> key_uniform(final(self).edges()),
            forall|x: MeshNode, k: ValueKey| all_keyed(old(self).edges(), x, k) ==> #[trigger] all_keyed(final(self).edges(), x, k),
            joints_outside(old(self).nodes(), old(self).lines()) ==> joints_outside(final(self).nodes(), final(self).lines()),
    {
        let ghost e0 = self.edges();
        let ghost l0 = self.lines();
        let ghost f = w@;
        let ends = w.endpoints();
        let p = MeshKey::WireJoint(ends[0]).node();
        let q = MeshKey::WireJoint(ends[1]).node();
        proof {
            lemma_wire_edge(e0, l0, f);
            let (start, len, cross, h) = on_line(f);
            assert(dir_lines(l0, h).contains_key(cross));
            lemma_joints_remove(e0, l0, f);
            lemma_attach_remove(e0, p, q);
        }
        let _ = self.graph_remove_edge(p, q);
        let _ = self.ranges.remove_wire(w);
        proof {
            assert(self.lines() =~= lines_without_wire(l0, f)) by {
                if f.3 {
                    assert(self.lines().1 == l0.1);
                } else {
                    assert(self.lines().0 == l0.0);
                }
            }
            lemma_remove_uniform(e0, p, q);
            if joints_outside(old(self).nodes(), l0) {
                reveal(joints_outside);
                assert forall|x: Coord, d: bool| self.nodes().contains(joint(x)) implies !#[trigger] inside_wire(self.lines(), x, d) by {
                    assert(old(self).nodes().contains(joint(x)));
                    if inside_wire(self.lines(), x, d) {
                        lemma_without_inside(l0, f, x, d);
                    }
                }
            }
        }
    }

    /// Adds a wire that fits on its line, from the graph and the ranges alike, with key `k`.
    fn add_free_wire(&mut self, w: Wire, k: ValueKey)
        requires
            old(self).wf(),
            fits_in(line_of(dir_lines(old(self).lines(), w@.3), on_line(w@).2), on_line(w@).0, on_line(w@).1),
        ensures
            final(self).wf(),
            final(self).lines() == lines_with_wire(old(self).lines(), w@),
            final(self).edges() == edges_with(old(self).edges(), joint(start_of(w@)), joint(end_of(w@)), k),
            same_attachments(old(self).edges(), final(self).edges()),
            forall|x: MeshNode| #[trigger] old(self).nodes().contains(x) ==> final(self).nodes().contains(x),
            final(self).nodes() == old(self).nodes().insert(joint(start_of(w@))).insert(joint(end_of(w@))),
    {
        let ghost e0 = self.edges();
        let ghost l0 = self.lines();
        let ghost n0 = self.nodes();
        let ghost f = w@;
        let ends = w.endpoints();
        let p = MeshKey::WireJoint(ends[0]).node();
        let q = MeshKey::WireJoint(ends[1]).node();
        proof {
            let (start, len, cross, h) = on_line(f);
            let line = line_of(dir_lines(l0, h), cross);
            assert(!line.contains_key(start)) by {
                if line.contains_key(start) {
                    assert(!overlaps(start as int, line[start] as int, start as int, len as int));
                }
            }
            lemma_joints_add(e0, l0, f, k);
            lemma_attach_add(e0, p, q, k);
            lemma_graph_add(e0, n0, p, q, k);
            lemma_attach_add(e0, p, q, k);
        }
        graph_add_edge(&mut self.graph, p, q, k);
        let _ = self.ranges.add_wire(w);
        proof {
            assert(self.lines() =~= lines_with_wire(l0, f)) by {
                if f.3 {
                    assert(self.lines().1 == l0.1);
                } else {
                    assert(self.lines().0 == l0.0);
                }
            }
        }
    }
}

/// The starts of wires on their line.
pub open spec fn wire_starts(ws: Seq<(Axis, Axis, Axis, bool)>) -> Set<Axis> {
    Set::new(|k: Axis| exists|i: int| 0 <= i < ws.len() && #[trigger] on_line(ws[i]).0 == k)
}

/// The segments `(start, length)` of wires on their line.
pub open spec fn wire_segs(ws: Seq<(Axis, Axis, Axis, bool)>) -> Seq<(Axis, Axis)> {
    ws.map_values(|x: (Axis, Axis, Axis, bool)| (on_line(x).0, on_line(x).1))
}

/// Whether the segments of `line` that overlap `(s, lw)` are, in order, the wires `ws`.
pub open spec fn overlap_list(line: Map<Axis, Axis>, s: Axis, lw: Axis, ws: Seq<(Axis, Axis, Axis, bool)>) -> bool {
    lists_segments(wire_segs(ws), line, |k: Axis| overlaps(k as int, line[k] as int, s as int, lw as int))
}

/// Facts on the overlapping wires: each is a segment of the line, they are sorted by
/// start and by end, and each overlaps `(s, lw)`.
proof fn lemma_overlap_list(line: Map<Axis, Axis>, s: Axis, lw: Axis, ws: Seq<(Axis, Axis, Axis, bool)>)
    requires
        disjoint_segments(line),
        overlap_list(line, s, lw, ws),
    ensures
        forall|i: int| 0 <= i < ws.len() ==> line.contains_key(#[trigger] on_line(ws[i]).0)
            && line[on_line(ws[i]).0] == on_line(ws[i]).1
            && overlaps(line_start(ws[i]), on_line(ws[i]).1 as int, s as int, lw as int),
        forall|i: int, j: int| 0 <= i < j < ws.len() ==> line_end(#[trigger] ws[i]) <= line_start(#[trigger] ws[j]),
        forall|k: Axis| #[trigger] line.contains_key(k) && overlaps(k as int, line[k] as int, s as int, lw as int)
            ==> wire_starts(ws).contains(k),
{
    let segs = wire_segs(ws);
    assert forall|i: int| 0 <= i < ws.len() implies line.contains_key(#[trigger] on_line(ws[i]).0)
        && line[on_line(ws[i]).0] == on_line(ws[i]).1
        && overlaps(line_start(ws[i]), on_line(ws[i]).1 as int, s as int, lw as int) by {
        assert(segs[i] == (on_line(ws[i]).0, on_line(ws[i]).1));
    }
    assert forall|i: int, j: int| 0 <= i < j < ws.len() implies line_end(#[trigger] ws[i]) <= line_start(#[trigger] ws[j]) by {
        assert(segs[i] == (on_line(ws[i]).0, on_line(ws[i]).1));
        assert(segs[j] == (on_line(ws[j]).0, on_line(ws[j]).1));
        assert(line.contains_key(segs[i].0) && line.contains_key(segs[j].0));
    }
    assert forall|k: Axis| #[trigger] line.contains_key(k) && overlaps(k as int, line[k] as int, s as int, lw as int)
        implies wire_starts(ws).contains(k) by {
        let i = choose|i: int| 0 <= i < segs.len() && (#[trigger] segs[i]).0 == k;
        assert(segs[i] == (on_line(ws[i]).0, on_line(ws[i]).1));
    }
}

/// After the overlapping wires are removed from the line, the merged wire fits on it.
proof fn lemma_merge_fits(line: Map<Axis, Axis>, f: (Axis, Axis, Axis, bool), ws: Seq<(Axis, Axis, Axis, bool)>)
    requires
        disjoint_segments(line),
        wire_valid(f.0, f.1, f.2, f.3),
        overlap_list(line, on_line(f).0, on_line(f).1, ws),
        merged_wire_spec(f, ws) is Some,
    ensures
        ({
            let g = merged_wire_spec(f, ws)->0;
            fits_in(line.remove_keys(wire_starts(ws)), on_line(g).0, on_line(g).1)
        }),
{
    let (s, lw, cross, h) = on_line(f);
    lemma_overlap_list(line, s, lw, ws);
    let g = merged_wire_spec(f, ws)->0;
    let (lg, len_g, cg, hg) = on_line(g);
    let lb = line.remove_keys(wire_starts(ws));
    assert forall|k: Axis| #[trigger] lb.contains_key(k) implies !overlaps(k as int, lb[k] as int, lg as int, len_g as int) by {
        assert(line.contains_key(k) && !wire_starts(ws).contains(k));
        assert(!overlaps(k as int, line[k] as int, s as int, lw as int));
        if overlaps(k as int, lb[k] as int, lg as int, len_g as int) {
            if k + line[k] <= s {
                let w0 = ws[0];
                assert(line.contains_key(on_line(w0).0));
                assert(on_line(w0).0 != k) by {
                    assert(wire_starts(ws).contains(on_line(ws[0]).0));
                }
            } else {
                let n = ws.len() - 1;
                let wl = ws[n];
                assert(line.contains_key(on_line(wl).0));
                assert(on_line(wl).0 != k) by {
                    assert(wire_starts(ws).contains(on_line(ws[n]).0));
                }
            }
        }
    }
}

/// After the overlapping wires are replaced by the merged wire, the line covers the
/// point `m` exactly when it did or `m` lies on `f`.
proof fn lemma_merge_cover(line: Map<Axis, Axis>, f: (Axis, Axis, Axis, bool), ws: Seq<(Axis, Axis, Axis, bool)>, m: int)
    requires
        disjoint_segments(line),
        wire_valid(f.0, f.1, f.2, f.3),
        overlap_list(line, on_line(f).0, on_line(f).1, ws),
        merged_wire_spec(f, ws) is Some,
    ensures
        ({
            let g = merged_wire_spec(f, ws)->0;
            let lb = line.remove_keys(wire_starts(ws));
            let (s, lw, cross, h) = on_line(f);
            ((exists|k: Axis| #[trigger] lb.contains_key(k) && k <= m <= k + lb[k])
                || on_line(g).0 <= m <= on_line(g).0 + on_line(g).1)
            <==> ((exists|k: Axis| #[trigger] line.contains_key(k) && k <= m <= k + line[k]) || s <= m <= s + lw)
        }),
{
    let (s, lw, cross, h) = on_line(f);
    lemma_overlap_list(line, s, lw, ws);
    let g = merged_wire_spec(f, ws)->0;
    let (lg, len_g, cg, hg) = on_line(g);
    let lb = line.remove_keys(wire_starts(ws));
    if exists|k: Axis| #[trigger] lb.contains_key(k) && k <= m <= k + lb[k] {
        let k = choose|k: Axis| #[trigger] lb.contains_key(k) && k <= m <= k + lb[k];
        assert(line.contains_key(k) && k <= m <= k + line[k]);
    }
    if exists|k: Axis| #[trigger] line.contains_key(k) && k <= m <= k + line[k] {
        let k = choose|k: Axis| #[trigger] line.contains_key(k) && k <= m <= k + line[k];
        if wire_starts(ws).contains(k) {
            let i = choose|i: int| 0 <= i < ws.len() && #[trigger] on_line(ws[i]).0 == k;
            let n = ws.len() - 1;
            if i > 0 {
                assert(line_end(ws[0]) <= line_start(ws[i]));
            }
            if i < n {
                assert(line_end(ws[i]) <= line_start(ws[n]));
            }
            assert(lg <= k);
            assert(k + line[k] <= lg + len_g);
        } else {
            assert(lb.contains_key(k));
        }
    }
    if lg <= m <= lg + len_g && !(s <= m <= s + lw) {
        if m < s {
            let w0 = ws[0];
            assert(line.contains_key(on_line(w0).0));
        } else {
            let n = ws.len() - 1;
            let wl = ws[n];
            assert(line.contains_key(on_line(wl).0));
        }
    }
}

/// The units of a line after its wires overlapping `f` give way to the merged wire are
/// those of the line before, and those of `f`.
proof fn lemma_merge_units(line: Map<Axis, Axis>, f: (Axis, Axis, Axis, bool), ws: Seq<(Axis, Axis, Axis, bool)>, m: int)
    requires
        disjoint_segments(line),
        wire_valid(f.0, f.1, f.2, f.3),
        overlap_list(line, on_line(f).0, on_line(f).1, ws),
        merged_wire_spec(f, ws) is Some,
    ensures
        ({
            let g = merged_wire_spec(f, ws)->0;
            let lb = line.remove_keys(wire_starts(ws));
            let (s, lw, cross, h) = on_line(f);
            (unit_covered(lb, m) || on_line(g).0 <= m < on_line(g).0 + on_line(g).1)
            <==> (unit_covered(line, m) || s <= m < s + lw)
        }),
{
    let (s, lw, cross, h) = on_line(f);
    lemma_overlap_list(line, s, lw, ws);
    let g = merged_wire_spec(f, ws)->0;
    let (lg, len_g, cg, hg) = on_line(g);
    let lb = line.remove_keys(wire_starts(ws));
    if unit_covered(lb, m) {
        let k = choose|k: Axis| #[trigger] lb.contains_key(k) && k <= m && m + 1 <= k + lb[k];
        assert(line.contains_key(k) && k <= m && m + 1 <= k + line[k]);
    }
    if unit_covered(line, m) {
        let k = choose|k: Axis| #[trigger] line.contains_key(k) && k <= m && m + 1 <= k + line[k];
        if wire_starts(ws).contains(k) {
            let i = choose|i: int| 0 <= i < ws.len() && #[trigger] on_line(ws[i]).0 == k;
            let n = ws.len() - 1;
            if i > 0 {
                assert(line_end(ws[0]) <= line_start(ws[i]));
            }
            if i < n {
                assert(line_end(ws[i]) <= line_start(ws[n]));
            }
            assert(lg <= k);
            assert(k + line[k] <= lg + len_g);
        } else {
            assert(lb.contains_key(k) && k <= m && m + 1 <= k + lb[k]);
        }
    }
    if lg <= m < lg + len_g && !(s <= m < s + lw) {
        if m < s {
            let w0 = ws[0];
            assert(line.contains_key(on_line(w0).0));
            assert(unit_covered(line, m));
        } else {
            let n = ws.len() - 1;
            let wl = ws[n];
            assert(line.contains_key(on_line(wl).0));
            assert(unit_covered(line, m));
        }
    }
}

/// Adding the merged wire after removing the wires that `f` overlaps covers the units
/// covered before, and those of `f`, and no others.
proof fn lemma_add_units(la: Lines, lb: Lines, f: (Axis, Axis, Axis, bool), ws: Seq<(Axis, Axis, Axis, bool)>)
    requires
        disjoint_segments(line_of(dir_lines(la, f.3), on_line(f).2)),
        wire_valid(f.0, f.1, f.2, f.3),
        overlap_list(line_of(dir_lines(la, f.3), on_line(f).2), on_line(f).0, on_line(f).1, ws),
        merged_wire_spec(f, ws) is Some,
        line_of(dir_lines(lb, f.3), on_line(f).2)
            == line_of(dir_lines(la, f.3), on_line(f).2).remove_keys(wire_starts(ws)),
        forall|c2: Axis| c2 != on_line(f).2 ==> #[trigger] line_of(dir_lines(lb, f.3), c2) == line_of(dir_lines(la, f.3), c2),
        dir_lines(lb, !f.3) == dir_lines(la, !f.3),
        (merged_wire_spec(f, ws)->0).3 == f.3,
        on_line(merged_wire_spec(f, ws)->0).2 == on_line(f).2,
    ensures
        ({
            let lc = lines_with_wire(lb, merged_wire_spec(f, ws)->0);
            forall|h: bool, cr: Axis, m: int| #[trigger] unit_covered(line_of(dir_lines(lc, h), cr), m)
                == (unit_covered(line_of(dir_lines(la, h), cr), m)
                    || (h == f.3 && cr == on_line(f).2 && on_line(f).0 <= m < on_line(f).0 + on_line(f).1))
        }),
{
    let (s, lw, cross, h) = on_line(f);
    let line_a = line_of(dir_lines(la, h), cross);
    let g = merged_wire_spec(f, ws)->0;
    let (lg, len_g, cg, hg) = on_line(g);
    let lc = lines_with_wire(lb, g);
    let line_b = line_of(dir_lines(lb, h), cross);
    let line_c = line_b.insert(lg, len_g);
    assert(line_of(dir_lines(lc, h), cross) == line_c);
    assert forall|h2: bool, cr: Axis, m: int| #[trigger] unit_covered(line_of(dir_lines(lc, h2), cr), m)
        == (unit_covered(line_of(dir_lines(la, h2), cr), m) || (h2 == h && cr == cross && s <= m < s + lw)) by {
        if h2 == h && cr == cross {
            lemma_merge_units(line_a, f, ws, m);
            if unit_covered(line_c, m) {
                let k = choose|k: Axis| #[trigger] line_c.contains_key(k) && k <= m && m + 1 <= k + line_c[k];
                if k != lg {
                    assert(line_b.contains_key(k) && k <= m && m + 1 <= k + line_b[k]);
                }
            }
            if unit_covered(line_b, m) {
                let k = choose|k: Axis| #[trigger] line_b.contains_key(k) && k <= m && m + 1 <= k + line_b[k];
                if k == lg {
                    assert(line_c.contains_key(lg) && lg <= m && m + 1 <= lg + line_c[lg]);
                } else {
                    assert(line_c.contains_key(k) && k <= m && m + 1 <= k + line_c[k]);
                }
            }
            if lg <= m < lg + len_g {
                assert(line_c.contains_key(lg) && lg <= m && m + 1 <= lg + line_c[lg]);
            }
        } else if h2 == h {
            assert(line_of(dir_lines(lc, h2), cr) == line_of(dir_lines(lb, h2), cr));
        } else {
            assert(dir_lines(lc, h2) == dir_lines(la, h2));
        }
    }
}

/// Whether the wire between `a` and `b` lies on the line of `f` and overlaps `f`.
pub open spec fn over_wire(f: (Axis, Axis, Axis, bool), a: Coord, b: Coord) -> bool {
    match endpoints_wire(a, b) {
        Some(x) => x.3 == f.3 && on_line(x).2 == on_line(f).2
            && overlaps(on_line(x).0 as int, on_line(x).1 as int, on_line(f).0 as int, on_line(f).1 as int),
        None => false,
    }
}

/// Whether every wire of the graph that lies on the line of `f` and overlaps `f` carries
/// the key `k`.
pub open spec fn keyed_over(e: Map<MeshEdge, ValueKey>, f: (Axis, Axis, Axis, bool), k: ValueKey) -> bool {
    forall|a: Coord, b: Coord| #[trigger] e.contains_key((joint(a), joint(b))) && over_wire(f, a, b)
        ==> e[(joint(a), joint(b))] == k
}

/// Adding the wire `g` to a graph whose wires of the line of `g` keep clear of it leaves
/// `g` the only wire over it.
proof fn lemma_keyed_free(e: Map<MeshEdge, ValueKey>, l: Lines, g: (Axis, Axis, Axis, bool), k: ValueKey)
    requires
        joints_match(e, l),
        wire_valid(g.0, g.1, g.2, g.3),
        fits_in(line_of(dir_lines(l, g.3), on_line(g).2), on_line(g).0, on_line(g).1),
    ensures
        keyed_over(edges_with(e, joint(start_of(g)), joint(end_of(g)), k), g, k),
{
    reveal(joints_match);
    let e2 = edges_with(e, joint(start_of(g)), joint(end_of(g)), k);
    assert forall|a: Coord, b: Coord| #[trigger] e2.contains_key((joint(a), joint(b))) && over_wire(g, a, b)
        implies e2[(joint(a), joint(b))] == k by {
        let x = (joint(a), joint(b));
        if x != (joint(start_of(g)), joint(end_of(g))) && x != (joint(end_of(g)), joint(start_of(g))) {
            assert(e.contains_key(x));
            assert(wire_in(l, a, b));
            let f = endpoints_wire(a, b)->0;
            let line = line_of(dir_lines(l, g.3), on_line(g).2);
            assert(line.contains_key(on_line(f).0) && line[on_line(f).0] == on_line(f).1);
        }
    }
}

/// After a join, every edge has its old key or the key of the joined wire.
proof fn lemma_join_keys_kept(e0: Map<MeshEdge, ValueKey>, p: Coord, c: Coord, q: Coord, k: ValueKey)
    ensures
        ({
            let e1 = edges_with(edges_without(edges_without(e0, joint(p), joint(c)), joint(c), joint(q)), joint(p), joint(q), k);
            forall|x: MeshEdge| #[trigger] e1.contains_key(x) ==> e1[x] == k || (e0.contains_key(x) && e1[x] == e0[x])
        }),
{
}

/// Edges that keep their key or take the key `k` keep every wire over `g` of key `k`.
proof fn lemma_keyed_keep(e0: Map<MeshEdge, ValueKey>, e1: Map<MeshEdge, ValueKey>, g: (Axis, Axis, Axis, bool), k: ValueKey)
    requires
        keyed_over(e0, g, k),
        forall|x: MeshEdge| #[trigger] e1.contains_key(x) ==> e1[x] == k || (e0.contains_key(x) && e1[x] == e0[x]),
    ensures
        keyed_over(e1, g, k),
{
    assert forall|a: Coord, b: Coord| #[trigger] e1.contains_key((joint(a), joint(b))) && over_wire(g, a, b)
        implies e1[(joint(a), joint(b))] == k by {
        assert(e1[(joint(a), joint(b))] == k || e0.contains_key((joint(a), joint(b))));
    }
}

/// A wire over `f` is over every wire that spans `f`.
proof fn lemma_keyed_within(e: Map<MeshEdge, ValueKey>, g: (Axis, Axis, Axis, bool), f: (Axis, Axis, Axis, bool), k: ValueKey)
    requires
        keyed_over(e, g, k),
        g.3 == f.3,
        on_line(g).2 == on_line(f).2,
        on_line(g).0 <= on_line(f).0,
        on_line(f).0 + on_line(f).1 <= on_line(g).0 + on_line(g).1,
    ensures
        keyed_over(e, f, k),
{
    assert forall|a: Coord, b: Coord| #[trigger] e.contains_key((joint(a), joint(b))) && over_wire(f, a, b)
        implies e[(joint(a), joint(b))] == k by {
        assert(over_wire(g, a, b));
    }
}

/// Splitting a wire over `g` keeps every wire over `g` of the key `k`.
proof fn lemma_keyed_split(e: Map<MeshEdge, ValueKey>, fw: (Axis, Axis, Axis, bool), x: Coord,
    g: (Axis, Axis, Axis, bool), k: ValueKey)
    requires
        keyed_over(e, g, k),
        wire_valid(fw.0, fw.1, fw.2, fw.3),
        e.contains_key((joint(start_of(fw)), joint(end_of(fw)))),
        fw.3 == g.3,
        on_line(fw).2 == on_line(g).2,
        on_line(fw).0 < main_of(x, g.3) < on_line(fw).0 + on_line(fw).1,
        on_line(g).0 <= main_of(x, g.3) <= on_line(g).0 + on_line(g).1,
    ensures
        keyed_over(edges_split(e, fw, x, e[(joint(start_of(fw)), joint(end_of(fw)))]), g, k),
{
    lemma_fields_endpoints(fw);
    assert(over_wire(g, start_of(fw), end_of(fw)));
}

/// Removing a wire takes its start out of its line and leaves the other lines as they were.
proof fn lemma_line_without(l: Lines, f: (Axis, Axis, Axis, bool))
    requires
        line_of(dir_lines(l, f.3), on_line(f).2).dom().finite(),
    ensures
        line_of(dir_lines(lines_without_wire(l, f), f.3), on_line(f).2)
            == line_of(dir_lines(l, f.3), on_line(f).2).remove(on_line(f).0),
        forall|c2: Axis| c2 != on_line(f).2 ==> #[trigger] line_of(dir_lines(lines_without_wire(l, f), f.3), c2)
            == line_of(dir_lines(l, f.3), c2),
        dir_lines(lines_without_wire(l, f), !f.3) == dir_lines(l, !f.3),
{
    let (start, len, cross, h) = on_line(f);
    let seg = line_of(dir_lines(l, h), cross).remove(start);
    if seg.dom().len() == 0 {
        assert(seg.dom() =~= Set::<Axis>::empty());
        assert(seg =~= Map::<Axis, Axis>::empty());
    }
    assert(line_of(dir_lines(lines_without_wire(l, f), h), cross) =~= seg);
}

/// Whether some edge carries the key `k`.
pub open spec fn key_of_edge(e: Map<MeshEdge, ValueKey>, k: ValueKey) -> bool {
    exists|x: MeshEdge| #[trigger] e.contains_key(x) && e[x] == k
}

/// Whether every key of `e2` is a key of `e1`.
pub open spec fn keys_from(e1: Map<MeshEdge, ValueKey>, e2: Map<MeshEdge, ValueKey>) -> bool {
    forall|x: MeshEdge| #[trigger] e2.contains_key(x) ==> key_of_edge(e1, e2[x])
}

/// Splitting a wire brings no new key.
proof fn lemma_split_keys(e0: Map<MeshEdge, ValueKey>, f: (Axis, Axis, Axis, bool), c: Coord)
    requires
        e0.contains_key((joint(start_of(f)), joint(end_of(f)))),
    ensures
        keys_from(e0, edges_split(e0, f, c, e0[(joint(start_of(f)), joint(end_of(f)))])),
{
    let pq = (joint(start_of(f)), joint(end_of(f)));
    let e = edges_split(e0, f, c, e0[pq]);
    assert forall|x: MeshEdge| #[trigger] e.contains_key(x) implies key_of_edge(e0, e[x]) by {
        if e[x] == e0[pq] {
            assert(e0.contains_key(pq));
        } else {
            assert(e0.contains_key(x) && e0[x] == e[x]);
        }
    }
}

/// The point at offset `j` from the start of a wire.
pub open spec fn point_at(f: (Axis, Axis, Axis, bool), j: int) -> Coord {
    if f.3 { ((f.0 + j) as u32, f.1) } else { (f.0, (f.1 + j) as u32) }
}

impl WireSet {
    /// Removes the held wires `removed`, all on line `cross` of direction `h` and with
    /// increasing starts.
    fn remove_wires(&mut self, removed: &Vec<Wire>, h: bool, cross: Axis)
        requires
            old(self).wf(),
            forall|i: int| 0 <= i < removed@.len() ==> on_line((#[trigger] removed@[i])@).2 == cross
                && on_line(removed@[i]@).3 == h,
            forall|i: int, j: int| 0 <= i < j < removed@.len() ==>
                on_line((#[trigger] removed@[i])@).0 < on_line((#[trigger] removed@[j])@).0,
            forall|i: int| 0 <= i < removed@.len() ==>
                line_of(dir_lines(old(self).lines(), h), cross).contains_key(on_line((#[trigger] removed@[i])@).0)
                && line_of(dir_lines(old(self).lines(), h), cross)[on_line(removed@[i]@).0] == on_line(removed@[i]@).1,
        ensures
            final(self).wf(),
            line_of(dir_lines(final(self).lines(), h), cross)
                == line_of(dir_lines(old(self).lines(), h), cross).remove_keys(wire_starts(removed@.map_values(|x: Wire| x@))),
            forall|c2: Axis| c2 != cross ==> #[trigger] line_of(dir_lines(final(self).lines(), h), c2)
                == line_of(dir_lines(old(self).lines(), h), c2),
            dir_lines(final(self).lines(), !h) == dir_lines(old(self).lines(), !h),
            same_attachments(old(self).edges(), final(self).edges()),
            forall|x: MeshNode| #[trigger] final(self).nodes().contains(x) ==> old(self).nodes().contains(x),
            key_uniform(old(self).edges()) ==> key_uniform(final(self).edges()),
            forall|x: MeshNode, k: ValueKey| all_keyed(old(self).edges(), x, k) ==> #[trigger] all_keyed(final(self).edges(), x, k),
            joints_outside(old(self).nodes(), old(self).lines()) ==> joints_outside(final(self).nodes(), final(self).lines()),
    {
        let ghost l0 = self.lines();
        let ghost e0 = self.edges();
        let ghost line0 = line_of(dir_lines(l0, h), cross);
        let ghost ws = removed@.map_values(|x: Wire| x@);
        let mut i: usize = 0;
        proof {
            assert(line0.remove_keys(wire_starts(ws.subrange(0, 0))) =~= line0);
        }
        while i < removed.len()
            invariant
                self.wf(),
                i <= removed@.len(),
                ws == removed@.map_values(|x: Wire| x@),
                forall|i: int| 0 <= i < removed@.len() ==> on_line((#[trigger] removed@[i])@).2 == cross
                    && on_line(removed@[i]@).3 == h,
                forall|i: int, j: int| 0 <= i < j < removed@.len() ==>
                    on_line((#[trigger] removed@[i])@).0 < on_line((#[trigger] removed@[j])@).0,
                forall|i: int| 0 <= i < removed@.len() ==>
                    line0.contains_key(on_line((#[trigger] removed@[i])@).0)
                    && line0[on_line(removed@[i]@).0] == on_line(removed@[i]@).1,
                line_of(dir_lines(self.lines(), h), cross) == line0.remove_keys(wire_starts(ws.subrange(0, i as int))),
                forall|c2: Axis| c2 != cross ==> #[trigger] line_of(dir_lines(self.lines(), h), c2)
                    == line_of(dir_lines(l0, h), c2),
                dir_lines(self.lines(), !h) == dir_lines(l0, !h),
                same_attachments(e0, self.edges()),
                forall|x: MeshNode| #[trigger] self.nodes().contains(x) ==> old(self).nodes().contains(x),
                key_uniform(e0) ==> key_uniform(self.edges()),
                forall|x: MeshNode, k: ValueKey| all_keyed(e0, x, k) ==> #[trigger] all_keyed(self.edges(), x, k),
                joints_outside(old(self).nodes(), l0) ==> joints_outside(self.nodes(), self.lines()),
            decreases removed@.len() - i,
        {
            let ghost l1 = self.lines();
            let ghost e1 = self.edges();
            let ghost f = removed@[i as int]@;
            proof {
                let st = on_line(f).0;
                assert(ws[i as int] == f);
                assert(!wire_starts(ws.subrange(0, i as int)).contains(st)) by {
                    if wire_starts(ws.subrange(0, i as int)).contains(st) {
                        let j = choose|j: int| 0 <= j < i && #[trigger] on_line(ws.subrange(0, i as int)[j]).0 == st;
                        assert(ws.subrange(0, i as int)[j] == removed@[j]@);
                    }
                }
                assert(is_wire_of(dir_lines(l1, f.3), f.3, f));
                assert(dir_lines(l1, h).contains_key(cross));
            }
            self.remove_held_wire(removed[i]);
            proof {
                assert forall|x: MeshNode, k: ValueKey| all_keyed(e0, x, k) implies #[trigger] all_keyed(self.edges(), x, k) by {
                    assert(all_keyed(e1, x, k));
                }
                lemma_line_without(l1, f);
                assert(wire_starts(ws.subrange(0, i + 1)) =~= wire_starts(ws.subrange(0, i as int)).insert(on_line(f).0)) by {
                    assert forall|k: Axis| wire_starts(ws.subrange(0, i + 1)).contains(k) implies
                        wire_starts(ws.subrange(0, i as int)).insert(on_line(f).0).contains(k) by {
                        let j = choose|j: int| 0 <= j < i + 1 && #[trigger] on_line(ws.subrange(0, i + 1)[j]).0 == k;
                        if j < i {
                            assert(ws.subrange(0, i as int)[j] == ws.subrange(0, i + 1)[j]);
                        }
                    }
                    assert forall|k: Axis| wire_starts(ws.subrange(0, i as int)).insert(on_line(f).0).contains(k) implies
                        wire_starts(ws.subrange(0, i + 1)).contains(k) by {
                        if k == on_line(f).0 {
                            assert(ws.subrange(0, i + 1)[i as int] == f);
                        } else {
                            let j = choose|j: int| 0 <= j < i && #[trigger] on_line(ws.subrange(0, i as int)[j]).0 == k;
                            assert(ws.subrange(0, i as int)[j] == ws.subrange(0, i + 1)[j]);
                        }
                    }
                }
                assert(line_of(dir_lines(self.lines(), h), cross) =~= line0.remove_keys(wire_starts(ws.subrange(0, i + 1))));
                assert(same_attachments(e0, self.edges())) by {
                    assert forall|a: MeshNode, b: MeshNode|
                        #![trigger e0.contains_key((a, b))]
                        #![trigger self.edges().contains_key((a, b))]
                        a.0 != 0 implies (e0.contains_key((a, b)) <==> self.edges().contains_key((a, b)))
                            && (e0.contains_key((a, b)) ==> e0[(a, b)] == self.edges()[(a, b)]) by {
                        assert(e0.contains_key((a, b)) <==> e1.contains_key((a, b)));
                    }
                }
            }
            i = i + 1;
        }
        proof {
            assert(ws.subrange(0, removed@.len() as int) =~= ws);
        }
    }
}

impl WireSet {
    /// The points of the wire `m` that are joints with edges, from its start, and the
    /// keys of their edges found first, each once.
    fn keys_along(&self, m: Wire) -> (r: (Vec<Coord>, Vec<ValueKey>))
        requires
            self.wf(),
        ensures
            r.1@.no_duplicates(),
            forall|i: int| 0 <= i < r.1@.len() ==> key_of_edge(self.edges(), #[trigger] r.1@[i]),
            (exists|j: int| 0 <= j <= m@.2 && #[trigger] has_edge(self.edges(), joint(point_at(m@, j)))) ==> r.1@.len() > 0,
            forall|j: int| 0 <= j <= m@.2 && #[trigger] has_edge(self.edges(), joint(point_at(m@, j)))
                ==> r.0@.contains(point_at(m@, j)),
            forall|i: int| 0 <= i < r.0@.len() ==> on_span(m@, #[trigger] r.0@[i]),
            forall|j: int, k: ValueKey| 0 <= j <= m@.2 && has_edge(self.edges(), joint(point_at(m@, j)))
                && #[trigger] all_keyed(self.edges(), joint(point_at(m@, j)), k) ==> r.1@.contains(k),
    {
        let ends = m.endpoints();
        let start = ends[0];
        let len = m.length();
        let h = m.horizontal();
        let mut points: Vec<Coord> = Vec::new();
        let mut keys: Vec<ValueKey> = Vec::new();
        let mut t: u64 = 0;
        while t <= len as u64
            invariant
                self.wf(),
                start == (m@.0, m@.1),
                len == m@.2,
                h == m@.3,
                wire_valid(m@.0, m@.1, m@.2, m@.3),
                t <= len + 1,
                keys@.no_duplicates(),
                forall|i: int| 0 <= i < keys@.len() ==> key_of_edge(self.edges(), #[trigger] keys@[i]),
                (exists|j: int| 0 <= j < t && #[trigger] has_edge(self.edges(), joint(point_at(m@, j)))) ==> keys@.len() > 0,
                forall|j: int| 0 <= j < t && #[trigger] has_edge(self.edges(), joint(point_at(m@, j)))
                    ==> points@.contains(point_at(m@, j)),
                forall|i: int| 0 <= i < points@.len() ==> on_span(m@, #[trigger] points@[i]),
                forall|j: int, k: ValueKey| 0 <= j < t && has_edge(self.edges(), joint(point_at(m@, j)))
                    && #[trigger] all_keyed(self.edges(), joint(point_at(m@, j)), k) ==> keys@.contains(k),
            decreases len + 1 - t,
        {
            let c: Coord = if h { (start.0 + t as u32, start.1) } else { (start.0, start.1 + t as u32) };
            proof {
                assert(c == point_at(m@, t as int));
            }
            let ghost len0 = keys@.len();
            let ghost pts0 = points@;
            let ghost keys0 = keys@;
            let fk = self.find_key(MeshKey::WireJoint(c));
            match fk {
                Some(k) => {
                    points.push(c);
                    proof {
                        assert forall|i: int| 0 <= i < points@.len() implies on_span(m@, #[trigger] points@[i]) by {
                            if i < pts0.len() {
                                assert(points@[i] == pts0[i]);
                            } else {
                                assert(points@[i] == point_at(m@, t as int));
                            }
                        }
                    }
                    let mut seen = false;
                    let mut i: usize = 0;
                    while i < keys.len()
                        invariant
                            i <= keys@.len(),
                            seen == exists|j: int| 0 <= j < i && keys@[j] == k,
                        decreases keys@.len() - i,
                    {
                        if keys[i] == k {
                            seen = true;
                        }
                        i = i + 1;
                    }
                    proof {
                        let b = choose|b: MeshNode| #[trigger] self.edges().contains_key((mesh_node(MeshKey::WireJoint(c)), b))
                            && self.edges()[(mesh_node(MeshKey::WireJoint(c)), b)] == k;
                        assert(self.edges().contains_key((joint(c), b)));
                    }
                    if !seen {
                        keys.push(k);
                    }
                },
                None => {},
            }
            proof {
                assert(keys@.len() >= len0);
                if fk is Some {
                    assert(keys@.len() > 0);
                }
                assert forall|x: ValueKey| keys0.contains(x) implies keys@.contains(x) by {
                    let t2 = choose|t2: int| 0 <= t2 < keys0.len() && keys0[t2] == x;
                    assert(keys@[t2] == x);
                }
                assert forall|j: int, k2: ValueKey| 0 <= j < t + 1 && has_edge(self.edges(), joint(point_at(m@, j)))
                    && #[trigger] all_keyed(self.edges(), joint(point_at(m@, j)), k2) implies keys@.contains(k2) by {
                    if j < t {
                        assert(keys0.contains(k2));
                    } else {
                        let b = choose|b: MeshNode| #[trigger] self.edges().contains_key((joint(c), b));
                        assert(self.edges().contains_key((mesh_node(MeshKey::WireJoint(c)), b)));
                        assert(fk is Some);
                        let kf = fk->0;
                        let b2 = choose|b2: MeshNode| #[trigger] self.edges().contains_key((mesh_node(MeshKey::WireJoint(c)), b2))
                            && self.edges()[(mesh_node(MeshKey::WireJoint(c)), b2)] == kf;
                        lemma_keyed_at(self.edges(), joint(c), b2, k2);
                        assert(kf == k2);
                        if keys0.contains(k2) {
                        } else {
                            assert(keys@[keys@.len() - 1] == k2);
                        }
                    }
                }
                assert forall|j: int| 0 <= j < t + 1 && #[trigger] has_edge(self.edges(), joint(point_at(m@, j)))
                    implies points@.contains(point_at(m@, j)) by {
                    if j < t {
                        assert(pts0.contains(point_at(m@, j)));
                        let i = choose|i: int| 0 <= i < pts0.len() && pts0[i] == point_at(m@, j);
                        assert(points@[i] == pts0[i]);
                    } else {
                        let b = choose|b: MeshNode| #[trigger] self.edges().contains_key((joint(c), b));
                        assert(self.edges().contains_key((mesh_node(MeshKey::WireJoint(c)), b)));
                        assert(fk is Some);
                        assert(points@[points@.len() - 1] == c);
                    }
                }
                if exists|j: int| 0 <= j < t + 1 && #[trigger] has_edge(self.edges(), joint(point_at(m@, j))) {
                    let j = choose|j: int| 0 <= j < t + 1 && #[trigger] has_edge(self.edges(), joint(point_at(m@, j)));
                    if j == t {
                        assert(has_edge(self.edges(), joint(c)));
                        let b = choose|b: MeshNode| #[trigger] self.edges().contains_key((joint(c), b));
                        assert(self.edges().contains_key((mesh_node(MeshKey::WireJoint(c)), b)));
                        assert(fk is Some);
                    } else {
                        assert(0 <= j < t && has_edge(self.edges(), joint(point_at(m@, j))));
                        assert(len0 > 0);
                    }
                }
            }
            t = t + 1;
        }
        (points, keys)
    }
}

/// Whether the point `pt` lies on the wire `f`, seen along the direction `d`.
pub open spec fn on_wire(f: (Axis, Axis, Axis, bool), pt: Coord, d: bool) -> bool {
    &&& d == f.3
    &&& cross_of(pt, d) == on_line(f).2
    &&& on_line(f).0 <= main_of(pt, d) <= on_line(f).0 + on_line(f).1
}

/// Whether the unit segment `[m, m + 1]` of a line lies on one of its wires.
pub open spec fn unit_covered(line: Map<Axis, Axis>, m: int) -> bool {
    exists|k: Axis| #[trigger] line.contains_key(k) && k <= m && m + 1 <= k + line[k]
}

/// Whether the wires of a line already cover the segment `(s, lw)`, without a gap.
pub open spec fn drawn(line: Map<Axis, Axis>, s: Axis, lw: Axis) -> bool {
    forall|m: int| s <= m < s + lw ==> #[trigger] unit_covered(line, m)
}

/// Whether the wire `f` is already drawn on the lines.
pub open spec fn wire_drawn(l: Lines, f: (Axis, Axis, Axis, bool)) -> bool {
    drawn(line_of(dir_lines(l, f.3), on_line(f).2), on_line(f).0, on_line(f).1)
}

/// Along chained wires, a point past the start of the `i`-th and before the end of the
/// last lies in a unit covered by one of them.
proof fn lemma_chain_unit(line: Map<Axis, Axis>, ws: Seq<(Axis, Axis, Axis, bool)>, i: int, m: int)
    requires
        chained(ws),
        0 <= i < ws.len(),
        line_start(ws[i]) <= m,
        m + 1 <= line_end(ws.last()),
        forall|j: int| 0 <= j < ws.len() ==> line.contains_key(#[trigger] on_line(ws[j]).0)
            && line[on_line(ws[j]).0] == on_line(ws[j]).1,
    ensures
        unit_covered(line, m),
    decreases ws.len() - i,
{
    if i == ws.len() - 1 || m < line_start(ws[i + 1]) {
        let k = on_line(ws[i]).0;
        assert(line.contains_key(k));
        if i < ws.len() - 1 {
            assert(line_end(ws[i]) == line_start(ws[i + 1]));
        }
    } else {
        lemma_chain_unit(line, ws, i + 1, m);
    }
}

/// Nothing is added for a wire exactly when the wires it overlaps already cover it.
#[verifier::spinoff_prover]
#[verifier::rlimit(40)]
proof fn lemma_drawn(line: Map<Axis, Axis>, f: (Axis, Axis, Axis, bool), ws: Seq<(Axis, Axis, Axis, bool)>)
    requires
        disjoint_segments(line),
        wire_valid(f.0, f.1, f.2, f.3),
        overlap_list(line, on_line(f).0, on_line(f).1, ws),
    ensures
        merged_wire_spec(f, ws) is None <==> drawn(line, on_line(f).0, on_line(f).1),
{
    let (s, lw, cross, h) = on_line(f);
    lemma_overlap_list(line, s, lw, ws);
    if merged_wire_spec(f, ws) is None {
        assert forall|m: int| s <= m < s + lw implies #[trigger] unit_covered(line, m) by {
            lemma_chain_unit(line, ws, 0, m);
        }
    }
    if drawn(line, s, lw) {
        assert(unit_covered(line, s as int));
        let k0 = choose|k: Axis| #[trigger] line.contains_key(k) && k <= s && s + 1 <= k + line[k];
        assert(wire_starts(ws).contains(k0));
        let i0 = choose|i: int| 0 <= i < ws.len() && #[trigger] on_line(ws[i]).0 == k0;
        assert(ws.len() > 0);
        if i0 > 0 {
            assert(line_end(ws[0]) <= line_start(ws[i0]));
        }
        let n = ws.len() - 1;
        assert(unit_covered(line, s + lw - 1));
        let k1 = choose|k: Axis| #[trigger] line.contains_key(k) && k <= s + lw - 1 && s + lw <= k + line[k];
        assert(wire_starts(ws).contains(k1));
        let i1 = choose|i: int| 0 <= i < ws.len() && #[trigger] on_line(ws[i]).0 == k1;
        if i1 < n {
            assert(line_end(ws[i1]) <= line_start(ws[n]));
        }
        assert forall|i: int| 0 <= i < ws.len() - 1 implies line_end(#[trigger] ws[i]) == line_start(ws[i + 1]) by {
            assert(line_end(ws[i]) <= line_start(ws[i + 1]));
            if line_end(ws[i]) < line_start(ws[i + 1]) {
                let m = line_end(ws[i]);
                assert(unit_covered(line, m));
                let k = choose|k: Axis| #[trigger] line.contains_key(k) && k <= m && m + 1 <= k + line[k];
                assert(wire_starts(ws).contains(k));
                let j = choose|j: int| 0 <= j < ws.len() && #[trigger] on_line(ws[j]).0 == k;
                if j < i {
                    assert(line_end(ws[j]) <= line_start(ws[i]));
                } else if j > i + 1 {
                    assert(line_end(ws[i + 1]) <= line_start(ws[j]));
                }
            }
        }
    }
}

/// Replacing the wires that `f` overlaps by the merged wire covers what was covered and
/// the points of `f`.
proof fn lemma_add_cover(la: Lines, lb: Lines, f: (Axis, Axis, Axis, bool), ws: Seq<(Axis, Axis, Axis, bool)>)
    requires
        disjoint_segments(line_of(dir_lines(la, f.3), on_line(f).2)),
        wire_valid(f.0, f.1, f.2, f.3),
        overlap_list(line_of(dir_lines(la, f.3), on_line(f).2), on_line(f).0, on_line(f).1, ws),
        merged_wire_spec(f, ws) is Some,
        line_of(dir_lines(lb, f.3), on_line(f).2)
            == line_of(dir_lines(la, f.3), on_line(f).2).remove_keys(wire_starts(ws)),
        forall|c2: Axis| c2 != on_line(f).2 ==> #[trigger] line_of(dir_lines(lb, f.3), c2) == line_of(dir_lines(la, f.3), c2),
        dir_lines(lb, !f.3) == dir_lines(la, !f.3),
    ensures
        ({
            let lc = lines_with_wire(lb, merged_wire_spec(f, ws)->0);
            forall|pt: Coord, d: bool| #[trigger] covered(lc, pt, d) == (covered(la, pt, d) || on_wire(f, pt, d))
        }),
        fits_in(line_of(dir_lines(lb, f.3), on_line(f).2), on_line(merged_wire_spec(f, ws)->0).0,
            on_line(merged_wire_spec(f, ws)->0).1),
        (merged_wire_spec(f, ws)->0).3 == f.3,
        on_line(merged_wire_spec(f, ws)->0).2 == on_line(f).2,
{
    let (s, lw, cross, h) = on_line(f);
    let line_a = line_of(dir_lines(la, h), cross);
    let g = merged_wire_spec(f, ws)->0;
    let (lg, len_g, cg, hg) = on_line(g);
    let lc = lines_with_wire(lb, g);
    let line_b = line_of(dir_lines(lb, h), cross);
    lemma_merge_fits(line_a, f, ws);
    assert(!line_b.contains_key(lg)) by {
        if line_b.contains_key(lg) {
            assert(!overlaps(lg as int, line_b[lg] as int, lg as int, len_g as int));
        }
    }
    let line_c = line_b.insert(lg, len_g);
    assert(line_of(dir_lines(lc, h), cross) == line_c);
    assert forall|pt: Coord, d: bool| #[trigger] covered(lc, pt, d) == (covered(la, pt, d) || on_wire(f, pt, d)) by {
        if d == h && cross_of(pt, d) == cross {
            let m = main_of(pt, d) as int;
            lemma_merge_cover(line_a, f, ws, m);
            if exists|k: Axis| #[trigger] line_c.contains_key(k) && k <= m <= k + line_c[k] {
                let k = choose|k: Axis| #[trigger] line_c.contains_key(k) && k <= m <= k + line_c[k];
                if k != lg {
                    assert(line_b.contains_key(k) && k <= m <= k + line_b[k]);
                }
            }
            if exists|k: Axis| #[trigger] line_b.contains_key(k) && k <= m <= k + line_b[k] {
                let k = choose|k: Axis| #[trigger] line_b.contains_key(k) && k <= m <= k + line_b[k];
                assert(line_c.contains_key(k) && k <= m <= k + line_c[k]);
            }
            if lg <= m <= lg + len_g {
                assert(line_c.contains_key(lg) && lg <= m <= lg + line_c[lg]);
            }
        } else if d == h {
            assert(line_of(dir_lines(lc, d), cross_of(pt, d)) == line_of(dir_lines(lb, d), cross_of(pt, d)));
            assert(line_of(dir_lines(lb, d), cross_of(pt, d)) == line_of(dir_lines(la, d), cross_of(pt, d)));
        } else {
            assert(dir_lines(lc, d) == dir_lines(la, d));
        }
    }
}

/// A point of a wire is the point of the merged wire at the matching offset.
proof fn lemma_merged_point(line: Map<Axis, Axis>, f: (Axis, Axis, Axis, bool), ws: Seq<(Axis, Axis, Axis, bool)>, j: int)
    requires
        disjoint_segments(line),
        overlap_list(line, on_line(f).0, on_line(f).1, ws),
        wire_valid(f.0, f.1, f.2, f.3),
        merged_wire_spec(f, ws) is Some,
        0 <= j <= f.2,
        forall|i: int| 0 <= i < ws.len() ==> on_line(#[trigger] ws[i]).2 == on_line(f).2 && on_line(ws[i]).3 == f.3,
    ensures
        ({
            let g = merged_wire_spec(f, ws)->0;
            let o = j + on_line(f).0 - on_line(g).0;
            &&& 0 <= o <= g.2
            &&& point_at(f, j) == point_at(g, o)
        }),
{
    let g = merged_wire_spec(f, ws)->0;
    let (s, lw, cross, h) = on_line(f);
    lemma_overlap_list(line, s, lw, ws);
    let (lg, len_g, cg, hg) = on_line(g);
    assert(cg == cross && hg == h);
    assert(lg <= s && s + lw <= lg + len_g);
    let o = j + s - lg;
    if h {
        assert(g.0 == lg && g.1 == cross && g.2 == len_g);
        assert(f.0 == s && f.1 == cross);
    } else {
        assert(g.1 == lg && g.0 == cross && g.2 == len_g);
        assert(f.1 == s && f.0 == cross);
    }
}

/// Splitting a wire keeps an edge at every node that had one.
proof fn lemma_split_has_edge(e0: Map<MeshEdge, ValueKey>, f: (Axis, Axis, Axis, bool), c: Coord, k: ValueKey, x: MeshNode)
    requires
        has_edge(e0, x),
    ensures
        has_edge(edges_split(e0, f, c, k), x),
{
    let e = edges_split(e0, f, c, k);
    let p = joint(start_of(f));
    let q = joint(end_of(f));
    let b = choose|b: MeshNode| #[trigger] e0.contains_key((x, b));
    if x == p {
        assert(e.contains_key((p, joint(c))));
    } else if x == q {
        assert(e.contains_key((q, joint(c))));
    } else {
        assert(e.contains_key((x, b)));
    }
}

/// Splitting a wire at `c` keeps the units its direction covers, leaves `c` inside no
/// wire of that direction, and puts no other point inside one.
proof fn lemma_split_line_facts(l0: Lines, l1: Lines, f: (Axis, Axis, Axis, bool), c: Coord)
    requires
        lines_ok(dir_lines(l0, f.3)),
        split_at(dir_lines(l0, f.3), dir_lines(l1, f.3), cross_of(c, f.3), main_of(c, f.3), f.3, f),
        dir_lines(l1, !f.3) == dir_lines(l0, !f.3),
    ensures
        forall|cr: Axis, m: int| #[trigger] unit_covered(line_of(dir_lines(l1, f.3), cr), m)
            == unit_covered(line_of(dir_lines(l0, f.3), cr), m),
        !inside_wire(l1, c, f.3),
        forall|x: Coord| !inside_wire(l0, x, f.3) ==> !#[trigger] inside_wire(l1, x, f.3),
{
    let (start, len, cross, h) = on_line(f);
    let main = main_of(c, h);
    let line0 = line_of(dir_lines(l0, h), cross);
    let line1 = line_of(dir_lines(l1, h), cross);
    assert(dir_lines(l0, h).contains_key(cross));
    assert(disjoint_segments(line0));
    assert(line1 == line0.insert(start, (main - start) as u32).insert(main, (start + len - main) as u32));
    assert(!line0.contains_key(main)) by {
        if line0.contains_key(main) {
            assert(start + len <= main);
        }
    }
    assert forall|cr: Axis, m: int| #[trigger] unit_covered(line_of(dir_lines(l1, h), cr), m)
        == unit_covered(line_of(dir_lines(l0, h), cr), m) by {
        if cr == cross {
            if unit_covered(line0, m) {
                let k = choose|k: Axis| #[trigger] line0.contains_key(k) && k <= m && m + 1 <= k + line0[k];
                if k == start {
                    if m + 1 <= main {
                        assert(line1.contains_key(start) && start <= m && m + 1 <= start + line1[start]);
                    } else {
                        assert(line1.contains_key(main) && main <= m && m + 1 <= main + line1[main]);
                    }
                } else {
                    assert(line1.contains_key(k) && k <= m && m + 1 <= k + line1[k]);
                }
            }
            if unit_covered(line1, m) {
                let k = choose|k: Axis| #[trigger] line1.contains_key(k) && k <= m && m + 1 <= k + line1[k];
                if k == start || k == main {
                    assert(line0.contains_key(start) && start <= m && m + 1 <= start + line0[start]);
                } else {
                    assert(line0.contains_key(k) && k <= m && m + 1 <= k + line0[k]);
                }
            }
        } else {
            assert(line_of(dir_lines(l1, h), cr) == line_of(dir_lines(l0, h), cr));
        }
    }
    assert forall|x: Coord| !inside_wire(l0, x, h) implies !#[trigger] inside_wire(l1, x, h) by {
        if inside_wire(l1, x, h) {
            let lx1 = line_of(dir_lines(l1, h), cross_of(x, h));
            let k = choose|k: Axis| #[trigger] lx1.contains_key(k) && k < main_of(x, h) < k + lx1[k];
            if cross_of(x, h) == cross && (k == start || k == main) {
                assert(line0.contains_key(start) && start < main_of(x, h) < start + line0[start]);
            } else {
                assert(line_of(dir_lines(l0, h), cross_of(x, h)).contains_key(k));
            }
        }
    }
    assert(!inside_wire(l1, c, h)) by {
        if inside_wire(l1, c, h) {
            let k = choose|k: Axis| #[trigger] line1.contains_key(k) && k < main < k + line1[k];
            if k != start && k != main {
                assert(line0.contains_key(k));
                if k < start {
                    assert(k + line0[k] <= start);
                } else {
                    assert(start + len <= k);
                }
            }
        }
    }
}

impl WireSet {
    /// Splits the wire of the given direction at `c`, keeping track of what holds of the
    /// keys and of the edges at nodes.
    fn split_tracked(&mut self, c: Coord, horizontal: bool)
        requires
            old(self).wf(),
        ensures
            final(self).wf(),
            same_cover(old(self).lines(), final(self).lines()),
            keys_from(old(self).edges(), final(self).edges()),
            forall|x: MeshNode| has_edge(old(self).edges(), x) ==> #[trigger] has_edge(final(self).edges(), x),
            dir_lines(final(self).lines(), !horizontal) == dir_lines(old(self).lines(), !horizontal),
            forall|cr: Axis, m: int| #[trigger] unit_covered(line_of(dir_lines(final(self).lines(), horizontal), cr), m)
                == unit_covered(line_of(dir_lines(old(self).lines(), horizontal), cr), m),
            !inside_wire(final(self).lines(), c, horizontal),
            forall|x: Coord| !inside_wire(old(self).lines(), x, horizontal) ==> !#[trigger] inside_wire(final(self).lines(), x, horizontal),
            final(self).nodes().subset_of(old(self).nodes().insert(joint(c))),
            forall|x: MeshNode, k: ValueKey| x != joint(c) && all_keyed(old(self).edges(), x, k)
                ==> #[trigger] all_keyed(final(self).edges(), x, k),
            key_uniform(old(self).edges()) && (inside_wire(old(self).lines(), c, horizontal)
                ==> !old(self).nodes().contains(joint(c))) ==> key_uniform(final(self).edges()),
            old(self).meshes_ok() && !inside_wire(old(self).lines(), c, !horizontal) ==> final(self).meshes_ok(),
            !inside_wire(old(self).lines(), c, horizontal) ==> final(self).lines() == old(self).lines()
                && final(self).edges() == old(self).edges() && final(self).nodes() == old(self).nodes(),
            same_attachments(old(self).edges(), final(self).edges()),
    {
        let ghost e0 = self.edges();
        let ghost l0 = self.lines();
        let ghost n0 = self.nodes();
        let r = self.split_wire_on_joint(c, horizontal);
        proof {
            if let Some(w) = r {
                let f = w@;
                lemma_split_line_facts(l0, self.lines(), f, c);
                lemma_split_lines(l0, self.lines(), f, c);
                lemma_split_keyed(e0, n0, f, c);
                if key_uniform(e0) && !n0.contains(joint(c)) {
                    lemma_split_uniform_fresh(e0, n0, f, c);
                }
                if old(self).meshes_ok() {
                    lemma_split_meshes(e0, n0, l0, self.lines(), f, c);
                }
                let k = e0[(joint(start_of(f)), joint(end_of(f)))];
                lemma_split_keys(e0, f, c);
                lemma_split_edges(e0, f, c, k);
                assert forall|x: MeshNode| has_edge(e0, x) implies #[trigger] has_edge(self.edges(), x) by {
                    lemma_split_has_edge(e0, f, c, k, x);
                }
            } else {
                assert forall|x: MeshEdge| #[trigger] self.edges().contains_key(x) implies key_of_edge(e0, self.edges()[x]) by {}
            }
        }
    }

    /// Adds a wire to the set.
    ///
    /// The wire is merged with the wires of its line that it overlaps into one wire. If
    /// they already cover it without a gap, nothing is added and this returns `None`.
    /// Otherwise the merged wire is added, joints are made where it meets other wires,
    /// and it gets a single key: the key found first along it at a joint, or a new key from
    /// `vf`, which also joins the other keys found into it. This returns that key.
    #[verifier::spinoff_prover]
    #[verifier::rlimit(80)]
    pub fn add_wire<V: ValueFinalizer>(&mut self, w: Wire, vf: &mut V) -> (r: Option<ValueKey>)
        requires
            old(self).wf(),
        ensures
            final(self).wf(),
            r is None <==> wire_drawn(old(self).lines(), w@),
            r is None ==> final(self).edges() == old(self).edges() && final(self).lines() == old(self).lines()
                && final(self).nodes() == old(self).nodes(),
            r is Some ==> forall|pt: Coord, d: bool| #[trigger] covered(final(self).lines(), pt, d)
                == (covered(old(self).lines(), pt, d) || on_wire(w@, pt, d)),
            r is Some ==> forall|h: bool, cr: Axis, m: int| #[trigger] unit_covered(line_of(dir_lines(final(self).lines(), h), cr), m)
                == (unit_covered(line_of(dir_lines(old(self).lines(), h), cr), m)
                    || (h == w@.3 && cr == on_line(w@).2 && on_line(w@).0 <= m < on_line(w@).0 + on_line(w@).1)),
            same_links(old(self).edges(), final(self).edges()),
            r matches Some(k) ==> keyed_over(final(self).edges(), w@, k),
            r is None ==> *final(vf) == *old(vf),
            r is Some ==> final(vf).calls().len() > 0,
            r matches Some(k) ==> (final(vf).calls().last() matches VfCall::Join(into, rest)
                && into == k
                && !rest.contains(k)
                && (forall|t: int| 0 <= t < rest.len() ==> key_of_edge(old(self).edges(), #[trigger] rest[t]))
                && (old(self).meshes_ok() ==> forall|j: int, b: MeshNode| 0 <= j <= w@.2
                    && #[trigger] old(self).edges().contains_key((joint(point_at(w@, j)), b))
                    ==> old(self).edges()[(joint(point_at(w@, j)), b)] == k
                        || rest.contains(old(self).edges()[(joint(point_at(w@, j)), b)]))
                && (final(vf).calls().drop_last() == old(vf).calls()
                    || (final(vf).calls().drop_last() == old(vf).calls().push(VfCall::GenKey(k)) && rest.len() == 0
                        && !exists|j: int| 0 <= j <= w@.2 && #[trigger] has_edge(old(self).edges(), joint(point_at(w@, j)))))),
            r matches Some(k) ==> (exists|j: int| 0 <= j <= w@.2 && #[trigger] has_edge(old(self).edges(), joint(point_at(w@, j))))
                ==> key_of_edge(old(self).edges(), k),
            old(self).meshes_ok() ==> final(self).meshes_ok(),
    {
        let ghost l0 = self.lines();
        let ghost e0 = self.edges();
        let ghost n0 = self.nodes();
        let ghost u0 = old(self).meshes_ok();
        let ghost f = w@;
        let hz = w.horizontal();
        let start = w.start();
        let _ = w.endpoints();
        let cross = if hz { start.1 } else { start.0 };
        let removed = self.ranges.parallel_overlapping_wires(w);
        let ghost ws = removed@.map_values(|x: Wire| x@);
        let ghost line0 = line_of(dir_lines(l0, hz), cross);
        proof {
            assert(on_line(f).2 == cross && on_line(f).3 == hz);
            assert(line0 == old(self).ranges.line(hz, cross));
            assert(dir_lines(l0, hz).contains_key(cross) ==> disjoint_segments(line0));
            if !dir_lines(l0, hz).contains_key(cross) {
                assert(line0 =~= Map::<Axis, Axis>::empty());
            }
            assert(wire_segs(ws) =~= removed@.map_values(|x: Wire| (on_line(x@).0, on_line(x@).1)));
            lemma_drawn(line0, f, ws);
        }
        let removed_slice = removed.as_slice();
        let merged = match merged_wire(w, removed_slice) {
            Some(m) => m,
            None => {
                return None;
            },
        };
        let ghost g = merged@;
        let ends = merged.endpoints();
        let p = ends[0];
        let q = ends[1];
        proof {
            lemma_merge_ends_free(line0, f, ws);
            assert(!inside_wire(l0, p, hz));
            assert(!inside_wire(l0, q, hz));
            if u0 && inside_wire(l0, p, !hz) {
                lemma_outside_node(n0, l0, p, !hz);
            }
        }
        self.split_tracked(p, !hz);
        let ghost lp = self.lines();
        let ghost ep = self.edges();
        proof {
            assert(!inside_wire(self.lines(), q, hz)) by {
                assert(dir_lines(self.lines(), hz) == dir_lines(l0, hz));
                assert(inside_wire(self.lines(), q, hz) == inside_wire(l0, q, hz));
            }
        }
        self.split_tracked(q, !hz);
        let ghost la = self.lines();
        let ghost ea = self.edges();
        let ghost na = self.nodes();
        proof {
            assert(!inside_wire(lp, p, !hz));
            assert(!inside_wire(la, p, !hz));
            assert(!inside_wire(la, q, !hz));
        }
        proof {
            assert(dir_lines(la, hz) == dir_lines(l0, hz));
            assert(keys_from(e0, ea)) by {
                assert forall|x: MeshEdge| #[trigger] ea.contains_key(x) implies key_of_edge(e0, ea[x]) by {
                    assert(key_of_edge(ep, ea[x]));
                    let y = choose|y: MeshEdge| #[trigger] ep.contains_key(y) && ep[y] == ea[x];
                    assert(key_of_edge(e0, ep[y]));
                }
            }
        }
        let (points, keys) = self.keys_along(merged);
        proof {
            assert forall|i: int, j: int| 0 <= i < j < removed@.len() implies
                on_line((#[trigger] removed@[i])@).0 < on_line((#[trigger] removed@[j])@).0 by {
                assert(wire_segs(ws)[i] == (on_line(removed@[i]@).0, on_line(removed@[i]@).1));
                assert(wire_segs(ws)[j] == (on_line(removed@[j]@).0, on_line(removed@[j]@).1));
            }
            lemma_overlap_list(line0, on_line(f).0, on_line(f).1, ws);
            assert forall|i: int| 0 <= i < removed@.len() implies
                line_of(dir_lines(la, hz), cross).contains_key(on_line((#[trigger] removed@[i])@).0)
                && line_of(dir_lines(la, hz), cross)[on_line(removed@[i]@).0] == on_line(removed@[i]@).1 by {
                assert(ws[i] == removed@[i]@);
            }
        }
        self.remove_wires(&removed, hz, cross);
        let ghost nb = self.nodes();
        let mut kept: Vec<Coord> = Vec::new();
        let mut i: usize = 0;
        while i < points.len()
            invariant
                i <= points@.len(),
                self.nodes() == nb,
                forall|i2: int| 0 <= i2 < kept@.len() ==> nb.contains(joint(#[trigger] kept@[i2])) && on_span(g, kept@[i2]),
                forall|i3: int| 0 <= i3 < i && nb.contains(joint(#[trigger] points@[i3])) ==> kept@.contains(points@[i3]),
                forall|i4: int| 0 <= i4 < points@.len() ==> on_span(g, #[trigger] points@[i4]),
            decreases points@.len() - i,
        {
            let ghost k0 = kept@;
            if graph_contains_node(&self.graph, MeshKey::WireJoint(points[i]).node()) {
                kept.push(points[i]);
            }
            proof {
                assert forall|i3: int| 0 <= i3 < i + 1 && nb.contains(joint(#[trigger] points@[i3])) implies kept@.contains(points@[i3]) by {
                    if i3 < i {
                        let t = choose|t: int| 0 <= t < k0.len() && k0[t] == points@[i3];
                        assert(kept@[t] == k0[t]);
                    } else {
                        assert(kept@[kept@.len() - 1] == points@[i3]);
                    }
                }
            }
            i = i + 1;
        }
        let ghost calls0 = vf.calls();
        let fill = if keys.len() > 0 { keys[0] } else { vf.gen_key() };
        let ghost calls1 = vf.calls();
        let mut rest: Vec<ValueKey> = Vec::new();
        let mut i: usize = 1;
        while i < keys.len()
            invariant
                1 <= i,
                keys@.len() == 0 ==> rest@.len() == 0,
                keys@.len() > 0 ==> i <= keys@.len() && rest@ == keys@.subrange(1, i as int),
            decreases keys@.len() - i,
        {
            rest.push(keys[i]);
            i = i + 1;
            proof {
                assert(rest@ =~= keys@.subrange(1, i as int));
            }
        }
        proof {
            assert(!rest@.contains(fill)) by {
                if rest@.contains(fill) {
                    let t = choose|t: int| 0 <= t < rest@.len() && rest@[t] == fill;
                    assert(keys@[t + 1] == keys@[0]);
                }
            }
            assert(forall|t: int| 0 <= t < rest@.len() ==> key_of_edge(ea, #[trigger] rest@[t])) by {
                assert forall|t: int| 0 <= t < rest@.len() implies key_of_edge(ea, #[trigger] rest@[t]) by {
                    assert(rest@[t] == keys@[t + 1]);
                }
            }
        }
        let ghost eb = self.edges();
        let ghost lb = self.lines();
        proof {
            lemma_add_cover(la, lb, f, ws);
            lemma_add_units(la, lb, f, ws);
        }
        let kept_slice = kept.as_slice();
        self.flood_fill(kept_slice, fill);
        let ghost ef = self.edges();
        proof {
            lemma_same_dom(eb, self.edges(), lb);
        }
        let rest_slice = rest.as_slice();
        vf.join(fill, rest_slice);
        proof {
            assert(rest_slice@ == rest@);
            lemma_join_call(calls0, calls1, vf.calls(), fill, rest@, keys@.len() > 0);
        }
        self.add_free_wire(merged, fill);
        let ghost lc = self.lines();
        let ghost nc = self.nodes();
        let ghost eh = self.edges();
        proof {
            lemma_keyed_free(ef, lb, g, fill);
        }
        proof {
            if u0 {
                assert(nb.subset_of(na));
                assert(forall|i2: int| 0 <= i2 < kept@.len() ==> all_keyed(ef, joint(#[trigger] kept@[i2]), fill)) by {
                    assert(kept_slice@ == kept@);
                }
                assert(!inside_wire(lb, start_of(g), !g.3) && !inside_wire(lb, end_of(g), !g.3)) by {
                    assert(dir_lines(lb, !hz) == dir_lines(la, !hz));
                    assert(start_of(g) == p && end_of(g) == q);
                }
                lemma_add_init(ea, na, ef, nb, lb, g, fill, points@, kept@);
                assert(kept@.subrange(0, kept@.len() as int) =~= kept@);
            }
        }
        self.split_along(&kept, hz, Ghost(g), Ghost(fill), Ghost(u0));
        let ghost l2 = self.lines();
        let ghost e2 = self.edges();
        proof {
            if u0 {
                lemma_fields_endpoints(g);
                assert(p == point_at(g, 0) && q == point_at(g, g.2 as int));
                if has_edge(e2, joint(point_at(g, 0))) {
                } else {
                    lemma_no_edge_keyed(e2, joint(p), fill);
                }
                if has_edge(e2, joint(point_at(g, g.2 as int))) {
                } else {
                    lemma_no_edge_keyed(e2, joint(q), fill);
                }
                assert(all_keyed(e2, joint(p), fill));
                assert(all_keyed(e2, joint(q), fill));
                lemma_joint_injective(p, q);
            }
        }
        let ghost e2k = self.edges();
        self.join_at_coord_with(p, Some(fill));
        let ghost l3 = self.lines();
        let ghost e3 = self.edges();
        proof {
            lemma_keyed_keep(e2k, e3, g, fill);
        }
        self.join_at_coord_with(q, Some(fill));
        proof {
            lemma_keyed_keep(e3, self.edges(), g, fill);
            lemma_same_links_of(e0, ep);
            lemma_same_links_of(ep, ea);
            lemma_same_links_of(ea, eb);
            lemma_same_links_of(eb, ef);
            lemma_same_links_of(ef, eh);
            lemma_same_links_of(eh, e2k);
            lemma_same_links_of(e2k, e3);
            lemma_same_links_of(e3, self.edges());
            lemma_same_links_trans(e0, ep, ea);
            lemma_same_links_trans(e0, ea, eb);
            lemma_same_links_trans(e0, eb, ef);
            lemma_same_links_trans(e0, ef, eh);
            lemma_same_links_trans(e0, eh, e2k);
            lemma_same_links_trans(e0, e2k, e3);
            lemma_same_links_trans(e0, e3, self.edges());
            assert(on_line(g).0 <= on_line(f).0 && on_line(f).0 + on_line(f).1 <= on_line(g).0 + on_line(g).1);
            lemma_keyed_within(self.edges(), g, f, fill);
        }
        proof {
            let lf = self.lines();
            assert forall|h2: bool, cr: Axis, m: int| #[trigger] unit_covered(line_of(dir_lines(lf, h2), cr), m)
                == (unit_covered(line_of(dir_lines(l0, h2), cr), m)
                    || (h2 == f.3 && cr == on_line(f).2 && on_line(f).0 <= m < on_line(f).0 + on_line(f).1)) by {
                assert(unit_covered(line_of(dir_lines(lf, h2), cr), m) == unit_covered(line_of(dir_lines(l3, h2), cr), m));
                assert(unit_covered(line_of(dir_lines(l3, h2), cr), m) == unit_covered(line_of(dir_lines(l2, h2), cr), m));
                assert(unit_covered(line_of(dir_lines(l2, h2), cr), m) == unit_covered(line_of(dir_lines(lc, h2), cr), m));
                assert(unit_covered(line_of(dir_lines(lp, h2), cr), m) == unit_covered(line_of(dir_lines(l0, h2), cr), m)) by {
                    if h2 == hz {
                        assert(dir_lines(lp, h2) == dir_lines(l0, h2));
                    }
                }
                assert(unit_covered(line_of(dir_lines(la, h2), cr), m) == unit_covered(line_of(dir_lines(lp, h2), cr), m)) by {
                    if h2 == hz {
                        assert(dir_lines(la, h2) == dir_lines(lp, h2));
                    }
                }
            }
            assert forall|pt: Coord, d: bool| #[trigger] covered(lf, pt, d)
                == (covered(l0, pt, d) || on_wire(f, pt, d)) by {
                assert(covered(lc, pt, d) == covered(l2, pt, d));
                assert(covered(l2, pt, d) == covered(l3, pt, d));
                assert(covered(l3, pt, d) == covered(lf, pt, d));
                assert(covered(la, pt, d) == covered(l0, pt, d));
            }
            if exists|j: int| 0 <= j <= f.2 && #[trigger] has_edge(e0, joint(point_at(f, j))) {
                let j = choose|j: int| 0 <= j <= f.2 && #[trigger] has_edge(e0, joint(point_at(f, j)));
                lemma_merged_point(line0, f, ws, j);
                let o = j + on_line(f).0 - on_line(g).0;
                assert(has_edge(ea, joint(point_at(g, o))));
                assert(keys@.len() > 0);
                assert(key_of_edge(ea, fill));
                let x = choose|x: MeshEdge| #[trigger] ea.contains_key(x) && ea[x] == fill;
                assert(key_of_edge(e0, ea[x]));
            }
            if u0 {
                assert forall|j: int, b: MeshNode| 0 <= j <= f.2 && #[trigger] e0.contains_key((joint(point_at(f, j)), b))
                    implies e0[(joint(point_at(f, j)), b)] == fill || rest@.contains(e0[(joint(point_at(f, j)), b)]) by {
                    let x = joint(point_at(f, j));
                    let kx = e0[(x, b)];
                    lemma_uniform_keyed(e0, x, b);
                    assert(has_edge(e0, x));
                    if x == joint(p) || x == joint(q) {
                        lemma_node_has_edge(e0, n0, x);
                        reveal(joints_outside);
                        if x == joint(p) {
                            lemma_joint_injective(point_at(f, j), p);
                        } else {
                            lemma_joint_injective(point_at(f, j), q);
                        }
                        assert(!inside_wire(l0, p, !hz) || x != joint(p));
                        assert(!inside_wire(l0, q, !hz) || x != joint(q));
                    }
                    assert(all_keyed(ea, x, kx));
                    assert(has_edge(ea, x));
                    lemma_merged_point(line0, f, ws, j);
                    let o = j + on_line(f).0 - on_line(g).0;
                    assert(has_edge(ea, joint(point_at(g, o))) && all_keyed(ea, joint(point_at(g, o)), kx));
                    assert(keys@.contains(kx));
                    lemma_key_in_join(keys@, rest@, fill, kx);
                }
            }
            let met = keys@.len() > 0;
            assert forall|t: int| 0 <= t < rest@.len() implies key_of_edge(e0, #[trigger] rest@[t]) by {
                assert(key_of_edge(ea, rest@[t]));
                let x = choose|x: MeshEdge| #[trigger] ea.contains_key(x) && ea[x] == rest@[t];
                assert(key_of_edge(e0, ea[x]));
            }
            assert(draw_calls(old(vf).calls(), vf.calls(), fill, rest@, met));
            assert(!rest@.contains(fill));
            assert(!met ==> rest@.len() == 0);
            assert(!met ==> !exists|j: int| 0 <= j <= w@.2 && #[trigger] has_edge(old(self).edges(), joint(point_at(w@, j))));
            lemma_draw_calls(old(vf).calls(), vf.calls(), fill, rest@, met);
        }
        Some(fill)
    }
}

/// The calls that drawing a wire makes: a new key unless the wire met a keyed joint, then
/// the join of the other keys met into the wire's key.
pub open spec fn draw_calls(calls0: Seq<VfCall>, calls: Seq<VfCall>, k: ValueKey, rest: Seq<ValueKey>, met: bool) -> bool {
    calls == (if met { calls0 } else { calls0.push(VfCall::GenKey(k)) }).push(VfCall::Join(k, rest))
}

/// A key of a nonempty list is its first or one of the rest.
proof fn lemma_key_in_join(keys: Seq<ValueKey>, rest: Seq<ValueKey>, first: ValueKey, k: ValueKey)
    requires
        keys.len() > 0,
        first == keys[0],
        rest == keys.subrange(1, keys.len() as int),
        keys.contains(k),
    ensures
        k == first || rest.contains(k),
{
    let t = choose|t: int| 0 <= t < keys.len() && keys[t] == k;
    if t > 0 {
        assert(rest[t - 1] == k);
    }
}

/// The calls of a draw end with the join, after the new key if one was made.
proof fn lemma_draw_calls(calls0: Seq<VfCall>, calls: Seq<VfCall>, k: ValueKey, rest: Seq<ValueKey>, met: bool)
    requires
        draw_calls(calls0, calls, k, rest, met),
    ensures
        calls.len() > 0,
        calls.last() == VfCall::Join(k, rest),
        met ==> calls.drop_last() == calls0,
        !met ==> calls.drop_last() == calls0.push(VfCall::GenKey(k)),
{
    let before = if met { calls0 } else { calls0.push(VfCall::GenKey(k)) };
    assert(calls.drop_last() =~= before);
}

/// The calls of a draw are those of the key chosen then of the join.
proof fn lemma_join_call(calls0: Seq<VfCall>, calls1: Seq<VfCall>, calls2: Seq<VfCall>, k: ValueKey, rest: Seq<ValueKey>, met: bool)
    requires
        met ==> calls1 == calls0,
        !met ==> calls1 == calls0.push(VfCall::GenKey(k)),
        calls2 == calls1.push(VfCall::Join(k, rest)),
    ensures
        draw_calls(calls0, calls2, k, rest, met),
{
}

/// Whether the point `pt` lies strictly inside the wire `f`, seen along the direction `d`.
pub open spec fn inside_of(f: (Axis, Axis, Axis, bool), pt: Coord, d: bool) -> bool {
    &&& d == f.3
    &&& cross_of(pt, d) == on_line(f).2
    &&& on_line(f).0 < main_of(pt, d) < on_line(f).0 + on_line(f).1
}

/// Removing the wires that `f` overlaps, once no wire holds an end of `f` strictly inside,
/// uncovers the inside of `f` and nothing off `f`.
proof fn lemma_remove_cover(la: Lines, lb: Lines, f: (Axis, Axis, Axis, bool), ws: Seq<(Axis, Axis, Axis, bool)>)
    requires
        disjoint_segments(line_of(dir_lines(la, f.3), on_line(f).2)),
        wire_valid(f.0, f.1, f.2, f.3),
        overlap_list(line_of(dir_lines(la, f.3), on_line(f).2), on_line(f).0, on_line(f).1, ws),
        !inside_wire(la, start_of(f), f.3),
        !inside_wire(la, end_of(f), f.3),
        line_of(dir_lines(lb, f.3), on_line(f).2)
            == line_of(dir_lines(la, f.3), on_line(f).2).remove_keys(wire_starts(ws)),
        forall|c2: Axis| c2 != on_line(f).2 ==> #[trigger] line_of(dir_lines(lb, f.3), c2) == line_of(dir_lines(la, f.3), c2),
        dir_lines(lb, !f.3) == dir_lines(la, !f.3),
    ensures
        forall|pt: Coord, d: bool| #[trigger] covered(lb, pt, d) ==> covered(la, pt, d),
        forall|pt: Coord, d: bool| covered(la, pt, d) && !on_wire(f, pt, d) ==> #[trigger] covered(lb, pt, d),
        forall|pt: Coord, d: bool| inside_of(f, pt, d) ==> !#[trigger] covered(lb, pt, d),
{
    let (s, lw, cross, h) = on_line(f);
    let line_a = line_of(dir_lines(la, h), cross);
    let line_b = line_of(dir_lines(lb, h), cross);
    lemma_overlap_list(line_a, s, lw, ws);
    assert(cross_of(start_of(f), h) == cross && main_of(start_of(f), h) == s);
    assert(cross_of(end_of(f), h) == cross && main_of(end_of(f), h) == s + lw);
    assert forall|pt: Coord, d: bool| #[trigger] covered(lb, pt, d) implies covered(la, pt, d) by {
        if d == h && cross_of(pt, d) == cross {
            let m = main_of(pt, d);
            let k = choose|k: Axis| #[trigger] line_b.contains_key(k) && k <= m <= k + line_b[k];
            assert(line_a.contains_key(k) && k <= m <= k + line_a[k]);
        } else if d == h {
            assert(line_of(dir_lines(lb, d), cross_of(pt, d)) == line_of(dir_lines(la, d), cross_of(pt, d)));
        } else {
            assert(dir_lines(lb, d) == dir_lines(la, d));
        }
    }
    assert forall|pt: Coord, d: bool| covered(la, pt, d) && !on_wire(f, pt, d) implies #[trigger] covered(lb, pt, d) by {
        if d == h && cross_of(pt, d) == cross {
            let m = main_of(pt, d);
            let k = choose|k: Axis| #[trigger] line_a.contains_key(k) && k <= m <= k + line_a[k];
            if wire_starts(ws).contains(k) {
                let i = choose|i: int| 0 <= i < ws.len() && #[trigger] on_line(ws[i]).0 == k;
                assert(overlaps(k as int, line_a[k] as int, s as int, lw as int));
                if k < s {
                    assert(line_a.contains_key(k) && k < main_of(start_of(f), h) < k + line_a[k]);
                    assert(inside_wire(la, start_of(f), h));
                }
                if k + line_a[k] > s + lw {
                    assert(line_a.contains_key(k) && k < main_of(end_of(f), h) < k + line_a[k]);
                    assert(inside_wire(la, end_of(f), h));
                }
            } else {
                assert(line_b.contains_key(k) && k <= m <= k + line_b[k]);
            }
        } else if d == h {
            assert(line_of(dir_lines(lb, d), cross_of(pt, d)) == line_of(dir_lines(la, d), cross_of(pt, d)));
        } else {
            assert(dir_lines(lb, d) == dir_lines(la, d));
        }
    }
    assert forall|pt: Coord, d: bool| inside_of(f, pt, d) implies !#[trigger] covered(lb, pt, d) by {
        if covered(lb, pt, d) {
            let m = main_of(pt, d);
            let k = choose|k: Axis| #[trigger] line_b.contains_key(k) && k <= m <= k + line_b[k];
            assert(line_a.contains_key(k) && !wire_starts(ws).contains(k));
            assert(!overlaps(k as int, line_a[k] as int, s as int, lw as int));
        }
    }
}

/// Removing the wires that `f` overlaps, once no wire holds an end of `f` strictly inside,
/// keeps every unit off `f` as it was.
proof fn lemma_remove_units(la: Lines, lb: Lines, f: (Axis, Axis, Axis, bool), ws: Seq<(Axis, Axis, Axis, bool)>)
    requires
        disjoint_segments(line_of(dir_lines(la, f.3), on_line(f).2)),
        wire_valid(f.0, f.1, f.2, f.3),
        overlap_list(line_of(dir_lines(la, f.3), on_line(f).2), on_line(f).0, on_line(f).1, ws),
        !inside_wire(la, start_of(f), f.3),
        !inside_wire(la, end_of(f), f.3),
        line_of(dir_lines(lb, f.3), on_line(f).2)
            == line_of(dir_lines(la, f.3), on_line(f).2).remove_keys(wire_starts(ws)),
        forall|c2: Axis| c2 != on_line(f).2 ==> #[trigger] line_of(dir_lines(lb, f.3), c2) == line_of(dir_lines(la, f.3), c2),
        dir_lines(lb, !f.3) == dir_lines(la, !f.3),
    ensures
        forall|h: bool, cr: Axis, m: int| !(h == f.3 && cr == on_line(f).2 && on_line(f).0 <= m < on_line(f).0 + on_line(f).1)
            ==> #[trigger] unit_covered(line_of(dir_lines(lb, h), cr), m) == unit_covered(line_of(dir_lines(la, h), cr), m),
{
    let (s, lw, cross, h) = on_line(f);
    let line_a = line_of(dir_lines(la, h), cross);
    let line_b = line_of(dir_lines(lb, h), cross);
    lemma_overlap_list(line_a, s, lw, ws);
    assert(cross_of(start_of(f), h) == cross && main_of(start_of(f), h) == s);
    assert(cross_of(end_of(f), h) == cross && main_of(end_of(f), h) == s + lw);
    assert forall|h2: bool, cr: Axis, m: int| !(h2 == h && cr == cross && s <= m < s + lw)
        implies #[trigger] unit_covered(line_of(dir_lines(lb, h2), cr), m) == unit_covered(line_of(dir_lines(la, h2), cr), m) by {
        if h2 == h && cr == cross {
            if unit_covered(line_b, m) {
                let k = choose|k: Axis| #[trigger] line_b.contains_key(k) && k <= m && m + 1 <= k + line_b[k];
                assert(line_a.contains_key(k) && k <= m && m + 1 <= k + line_a[k]);
            }
            if unit_covered(line_a, m) {
                let k = choose|k: Axis| #[trigger] line_a.contains_key(k) && k <= m && m + 1 <= k + line_a[k];
                if wire_starts(ws).contains(k) {
                    assert(overlaps(k as int, line_a[k] as int, s as int, lw as int));
                    if k < s {
                        assert(line_a.contains_key(k) && k < main_of(start_of(f), h) < k + line_a[k]);
                    }
                    if k + line_a[k] > s + lw {
                        assert(line_a.contains_key(k) && k < main_of(end_of(f), h) < k + line_a[k]);
                    }
                } else {
                    assert(line_b.contains_key(k) && k <= m && m + 1 <= k + line_b[k]);
                }
            }
        } else if h2 == h {
            assert(line_of(dir_lines(lb, h2), cr) == line_of(dir_lines(la, h2), cr));
        } else {
            assert(dir_lines(lb, h2) == dir_lines(la, h2));
        }
    }
}

/// A unit of the wire `f` is covered exactly when some wire of its line overlaps `f`.
proof fn lemma_units_overlap(line: Map<Axis, Axis>, f: (Axis, Axis, Axis, bool), ws: Seq<(Axis, Axis, Axis, bool)>)
    requires
        disjoint_segments(line),
        wire_valid(f.0, f.1, f.2, f.3),
        overlap_list(line, on_line(f).0, on_line(f).1, ws),
    ensures
        (ws.len() > 0) <==> exists|m: int| on_line(f).0 <= m < on_line(f).0 + on_line(f).1 && #[trigger] unit_covered(line, m),
{
    let (s, lw, cross, h) = on_line(f);
    lemma_overlap_list(line, s, lw, ws);
    if ws.len() > 0 {
        let k = on_line(ws[0]).0;
        assert(line.contains_key(k));
        let m: int = if k >= s { k as int } else { s as int };
        assert(unit_covered(line, m));
    }
    if exists|m: int| s <= m < s + lw && #[trigger] unit_covered(line, m) {
        let m = choose|m: int| s <= m < s + lw && #[trigger] unit_covered(line, m);
        let k = choose|k: Axis| #[trigger] line.contains_key(k) && k <= m && m + 1 <= k + line[k];
        assert(wire_starts(ws).contains(k));
    }
}

/// Whether the calls past `calls0` in `calls` are splits, and deletions of keys of `e0`.
pub open spec fn removal_calls(calls0: Seq<VfCall>, calls: Seq<VfCall>, e0: Map<MeshEdge, ValueKey>) -> bool {
    &&& calls0.len() <= calls.len()
    &&& calls.subrange(0, calls0.len() as int) == calls0
    &&& forall|i: int| calls0.len() <= i < calls.len() ==> match #[trigger] calls[i] {
        VfCall::Split(_, _, _) => true,
        VfCall::DeleteKey(k) => key_of_edge(e0, k),
        _ => false,
    }
}

/// A split, or a deletion of a key of `e0`, extends the calls of a removal.
proof fn lemma_removal_calls_push(calls0: Seq<VfCall>, calls: Seq<VfCall>, e0: Map<MeshEdge, ValueKey>, c: VfCall)
    requires
        removal_calls(calls0, calls, e0),
        match c {
            VfCall::Split(_, _, _) => true,
            VfCall::DeleteKey(k) => key_of_edge(e0, k),
            _ => false,
        },
    ensures
        removal_calls(calls0, calls.push(c), e0),
{
    assert(calls.push(c).subrange(0, calls0.len() as int) =~= calls.subrange(0, calls0.len() as int));
}

/// Keys drawn from keys drawn from `e0` are drawn from `e0`.
proof fn lemma_keys_from_trans(e0: Map<MeshEdge, ValueKey>, e1: Map<MeshEdge, ValueKey>, e2: Map<MeshEdge, ValueKey>)
    requires
        keys_from(e0, e1),
        keys_from(e1, e2),
    ensures
        keys_from(e0, e2),
{
    assert forall|x: MeshEdge| #[trigger] e2.contains_key(x) implies key_of_edge(e0, e2[x]) by {
        let y = choose|y: MeshEdge| #[trigger] e1.contains_key(y) && e1[y] == e2[x];
    }
}

/// A key of `e1` whose keys are drawn from `e0` is a key of `e0`.
proof fn lemma_key_from(e0: Map<MeshEdge, ValueKey>, e1: Map<MeshEdge, ValueKey>, k: ValueKey)
    requires
        keys_from(e0, e1),
        key_of_edge(e1, k),
    ensures
        key_of_edge(e0, k),
{
    let x = choose|x: MeshEdge| #[trigger] e1.contains_key(x) && e1[x] == k;
}

impl WireSet {
    /// Whether `k` is in `ks`.
    fn has_key(ks: &Vec<ValueKey>, k: ValueKey) -> (r: bool)
        ensures
            r == ks@.contains(k),
    {
        let mut i: usize = 0;
        while i < ks.len()
            invariant
                i <= ks@.len(),
                forall|j: int| 0 <= j < i ==> ks@[j] != k,
            decreases ks@.len() - i,
        {
            if ks[i] == k {
                proof {
                    assert(ks@[i as int] == k);
                }
                return true;
            }
            i = i + 1;
        }
        false
    }

    /// Removes a wire from the set.
    ///
    /// The wires of its line are first split at its two ends; then every wire of its line
    /// that it overlaps is removed, and the wires left meeting in a straight line at their
    /// ends are joined. Each mesh left split in several parts gets, for every part past
    /// the first, a new key from `vf`, split off for the ports of that part; `vf` deletes
    /// the keys of removed wires that no mesh keeps.
    ///
    /// This returns whether some wire overlapped the wire to remove.
    ///
    /// Where an end of the wire lies inside a wire of the other direction, the joint made
    /// there by the split can stay, inside that wire and unconnected to it.
    #[verifier::spinoff_prover]
    pub fn remove_wire<V: ValueFinalizer>(&mut self, w: Wire, vf: &mut V) -> (r: bool)
        requires
            old(self).wf(),
        ensures
            final(self).wf(),
            r == exists|m: int| on_line(w@).0 <= m < on_line(w@).0 + on_line(w@).1
                && #[trigger] unit_covered(line_of(dir_lines(old(self).lines(), w@.3), on_line(w@).2), m),
            !r ==> final(self).edges() == old(self).edges() && final(self).nodes() == old(self).nodes()
                && final(self).lines() == old(self).lines() && *final(vf) == *old(vf),
            forall|pt: Coord, d: bool| #[trigger] covered(final(self).lines(), pt, d) ==> covered(old(self).lines(), pt, d),
            forall|pt: Coord, d: bool| covered(old(self).lines(), pt, d) && !on_wire(w@, pt, d)
                ==> #[trigger] covered(final(self).lines(), pt, d),
            forall|pt: Coord, d: bool| inside_of(w@, pt, d) ==> !#[trigger] covered(final(self).lines(), pt, d),
            forall|m: int| on_line(w@).0 <= m < on_line(w@).0 + on_line(w@).1
                ==> !#[trigger] unit_covered(line_of(dir_lines(final(self).lines(), w@.3), on_line(w@).2), m),
            forall|h: bool, cr: Axis, m: int| !(h == w@.3 && cr == on_line(w@).2 && on_line(w@).0 <= m < on_line(w@).0 + on_line(w@).1)
                ==> #[trigger] unit_covered(line_of(dir_lines(final(self).lines(), h), cr), m)
                    == unit_covered(line_of(dir_lines(old(self).lines(), h), cr), m),
            r ==> removal_calls(old(vf).calls(), final(vf).calls(), old(self).edges()),
            same_links(old(self).edges(), final(self).edges()),
            old(self).meshes_ok() ==> key_uniform(final(self).edges()),
            old(self).meshes_ok() && !inside_wire(old(self).lines(), start_of(w@), !w@.3)
                && !inside_wire(old(self).lines(), end_of(w@), !w@.3) ==> final(self).meshes_ok(),
    {
        let ghost l0 = self.lines();
        let ghost n0 = self.nodes();
        let ghost e0 = self.edges();
        let ghost f = w@;
        let ghost u0 = old(self).meshes_ok();
        let ghost nj = u0 && !inside_wire(l0, start_of(f), !f.3) && !inside_wire(l0, end_of(f), !f.3);
        let ends = w.endpoints();
        let p = ends[0];
        let q = ends[1];
        let hz = w.horizontal();
        let len = w.length();
        let cross = if hz { p.1 } else { p.0 };
        proof {
            if u0 && inside_wire(l0, p, hz) {
                lemma_outside_node(n0, l0, p, hz);
            }
        }
        self.split_tracked(p, hz);
        let ghost l1 = self.lines();
        let ghost n1 = self.nodes();
        proof {
            if u0 && inside_wire(l1, q, hz) {
                assert(inside_wire(l0, q, hz));
                lemma_outside_node(n0, l0, q, hz);
                lemma_fields_endpoints(f);
                lemma_joint_injective(q, p);
                assert(!n1.contains(joint(q)));
            }
            assert(inside_wire(l1, q, !hz) == inside_wire(l0, q, !hz)) by {
                assert(dir_lines(l1, !hz) == dir_lines(l0, !hz));
            }
        }
        let ghost e1 = self.edges();
        self.split_tracked(q, hz);
        let ghost la = self.lines();
        let ghost ea = self.edges();
        proof {
            lemma_keys_from_trans(e0, e1, ea);
        }
        let removed = self.ranges.parallel_overlapping_wires(w);
        let ghost ws = removed@.map_values(|x: Wire| x@);
        let ghost line_a = line_of(dir_lines(la, hz), cross);
        proof {
            assert(on_line(f).2 == cross && on_line(f).3 == hz);
            assert(line_a == self.ranges.line(hz, cross));
            if !dir_lines(la, hz).contains_key(cross) {
                assert(line_a =~= Map::<Axis, Axis>::empty());
            } else {
                assert(disjoint_segments(line_a));
            }
            assert(wire_segs(ws) =~= removed@.map_values(|x: Wire| (on_line(x@).0, on_line(x@).1)));
            lemma_units_overlap(line_a, f, ws);
            let line0 = line_of(dir_lines(l0, hz), cross);
            assert forall|m: int| #[trigger] unit_covered(line_a, m) == unit_covered(line0, m) by {
                assert(unit_covered(line_of(dir_lines(la, hz), cross), m) == unit_covered(line_of(dir_lines(l1, hz), cross), m));
                assert(unit_covered(line_of(dir_lines(l1, hz), cross), m) == unit_covered(line_of(dir_lines(l0, hz), cross), m));
            }
            assert forall|pt: Coord, d: bool| #[trigger] covered(la, pt, d) == covered(l0, pt, d) by {
                assert(covered(la, pt, d) == covered(l1, pt, d));
                assert(covered(l1, pt, d) == covered(l0, pt, d));
            }
        }
        if removed.len() == 0 {
            proof {
                let line0 = line_of(dir_lines(l0, hz), cross);
                assert(!exists|m: int| on_line(f).0 <= m < on_line(f).0 + on_line(f).1 && #[trigger] unit_covered(line0, m)) by {
                    if exists|m: int| on_line(f).0 <= m < on_line(f).0 + on_line(f).1 && #[trigger] unit_covered(line0, m) {
                        let m = choose|m: int| on_line(f).0 <= m < on_line(f).0 + on_line(f).1 && #[trigger] unit_covered(line0, m);
                        assert(unit_covered(line_a, m));
                    }
                }
                let s0 = on_line(f).0;
                let lw = on_line(f).1;
                assert(cross_of(start_of(f), hz) == cross && main_of(start_of(f), hz) == s0);
                assert(cross_of(end_of(f), hz) == cross && main_of(end_of(f), hz) == s0 + lw);
                if inside_wire(l0, p, hz) {
                    let k = choose|k: Axis| #[trigger] line0.contains_key(k) && k < main_of(p, hz) < k + line0[k];
                    assert(unit_covered(line0, s0 as int));
                }
                if inside_wire(l1, q, hz) {
                    let k = choose|k: Axis| #[trigger] line0.contains_key(k) && k < main_of(q, hz) < k + line0[k];
                    assert(unit_covered(line0, s0 + lw - 1));
                }
            }
            return false;
        }
        let mut deleted_keys: Vec<ValueKey> = Vec::new();
        let mut i: usize = 0;
        while i < removed.len()
            invariant
                self.wf(),
                self.edges() == ea,
                i <= removed@.len(),
                forall|j: int| 0 <= j < deleted_keys@.len() ==> key_of_edge(ea, #[trigger] deleted_keys@[j]),
            decreases removed@.len() - i,
        {
            match self.find_key_of_wire(removed[i]) {
                Some(k) => {
                    if !Self::has_key(&deleted_keys, k) {
                        proof {
                            let e = removed[i as int].endpoints_spec();
                            assert(ea.contains_key((joint(e[0]), joint(e[1]))));
                        }
                        deleted_keys.push(k);
                    }
                },
                None => {},
            }
            i = i + 1;
        }
        proof {
            assert forall|j: int| 0 <= j < deleted_keys@.len() implies key_of_edge(e0, #[trigger] deleted_keys@[j]) by {
                lemma_key_from(e0, ea, deleted_keys@[j]);
            }
        }
        proof {
            lemma_overlap_list(line_a, on_line(f).0, on_line(f).1, ws);
            assert forall|i: int, j: int| 0 <= i < j < removed@.len() implies
                on_line((#[trigger] removed@[i])@).0 < on_line((#[trigger] removed@[j])@).0 by {
                assert(wire_segs(ws)[i] == (on_line(removed@[i]@).0, on_line(removed@[i]@).1));
                assert(wire_segs(ws)[j] == (on_line(removed@[j]@).0, on_line(removed@[j]@).1));
            }
            assert forall|i: int| 0 <= i < removed@.len() implies
                line_a.contains_key(on_line((#[trigger] removed@[i])@).0)
                && line_a[on_line(removed@[i]@).0] == on_line(removed@[i]@).1 by {
                assert(ws[i] == removed@[i]@);
            }
        }
        self.remove_wires(&removed, hz, cross);
        let ghost lb = self.lines();
        let ghost eb = self.edges();
        proof {
            lemma_same_links_of(e0, e1);
            lemma_same_links_of(e1, ea);
            lemma_same_links_of(ea, eb);
            lemma_same_links_trans(e0, e1, ea);
            lemma_same_links_trans(e0, ea, eb);
        }
        proof {
            assert(!inside_wire(la, start_of(f), hz));
            assert(!inside_wire(la, end_of(f), hz));
            lemma_remove_cover(la, lb, f, ws);
            lemma_remove_units(la, lb, f, ws);
            let line_b = line_of(dir_lines(lb, hz), cross);
            assert forall|m: int| on_line(f).0 <= m < on_line(f).0 + on_line(f).1
                implies !#[trigger] unit_covered(line_b, m) by {
                if unit_covered(line_b, m) {
                    let k = choose|k: Axis| #[trigger] line_b.contains_key(k) && k <= m && m + 1 <= k + line_b[k];
                    assert(line_a.contains_key(k) && line_a[k] == line_b[k]);
                    assert(overlaps(k as int, line_a[k] as int, on_line(f).0 as int, on_line(f).1 as int));
                }
            }
        }
        let mut coords: Vec<Coord> = Vec::new();
        let mut t: u64 = 0;
        while t <= len as u64
            invariant
                self.wf(),
                p == (f.0, f.1),
                len == f.2,
                hz == f.3,
                wire_valid(f.0, f.1, f.2, f.3),
                t <= len + 1,
            decreases len + 1 - t,
        {
            let c: Coord = if hz { (p.0 + t as u32, p.1) } else { (p.0, p.1 + t as u32) };
            coords.push(c);
            let nb = graph_neighbors(&self.graph, MeshKey::WireJoint(c).node());
            if nb.len() > 0 && nb[0].0 == 0 {
                coords.push((#[verifier::truncate] (nb[0].1 as u32), #[verifier::truncate] (nb[0].2 as u32)));
            }
            t = t + 1;
        }
        let mut i: usize = 0;
        while i < removed.len()
            invariant
                self.wf(),
                i <= removed@.len(),
                same_cover(lb, self.lines()),
                same_units(lb, self.lines()),
                same_attachments(eb, self.edges()),
                u0 ==> key_uniform(self.edges()),
                nj ==> joints_outside(self.nodes(), self.lines()),
            decreases removed@.len() - i,
        {
            let rends = removed[i].endpoints();
            let ghost l2 = self.lines();
            let ghost e2j = self.edges();
            self.join_at_coord(rends[0]);
            let ghost l3 = self.lines();
            let ghost e3j = self.edges();
            self.join_at_coord(rends[1]);
            proof {
                lemma_attach_trans(eb, e2j, e3j);
                lemma_attach_trans(eb, e3j, self.edges());
                assert forall|pt: Coord, d: bool| #[trigger] covered(lb, pt, d) == covered(self.lines(), pt, d) by {
                    assert(covered(lb, pt, d) == covered(l2, pt, d));
                    assert(covered(l2, pt, d) == covered(l3, pt, d));
                    assert(covered(l3, pt, d) == covered(self.lines(), pt, d));
                }
                assert forall|h2: bool, cr: Axis, m: int| #[trigger] unit_covered(line_of(dir_lines(lb, h2), cr), m)
                    == unit_covered(line_of(dir_lines(self.lines(), h2), cr), m) by {
                    assert(unit_covered(line_of(dir_lines(lb, h2), cr), m) == unit_covered(line_of(dir_lines(l2, h2), cr), m));
                    assert(unit_covered(line_of(dir_lines(l2, h2), cr), m) == unit_covered(line_of(dir_lines(l3, h2), cr), m));
                    assert(unit_covered(line_of(dir_lines(l3, h2), cr), m) == unit_covered(line_of(dir_lines(self.lines(), h2), cr), m));
                }
            }
            i = i + 1;
        }
        let ghost lc = self.lines();
        let mut pending: Vec<Coord> = Vec::new();
        let mut i: usize = 0;
        while i < coords.len()
            invariant
                i <= coords@.len(),
            decreases coords@.len() - i,
        {
            if graph_contains_node(&self.graph, MeshKey::WireJoint(coords[i]).node()) {
                pending.push(coords[i]);
            }
            i = i + 1;
        }
        let ghost nc = self.nodes();
        proof {
            assert(vf.calls() == old(vf).calls());
            assert(vf.calls().subrange(0, vf.calls().len() as int) =~= vf.calls());
            lemma_same_links_of(eb, self.edges());
            lemma_same_links_trans(e0, eb, self.edges());
        }
        let mut traversed: Vec<ValueKey> = Vec::new();
        while pending.len() > 0
            invariant
                removal_calls(old(vf).calls(), vf.calls(), e0),
                forall|j: int| 0 <= j < deleted_keys@.len() ==> key_of_edge(e0, #[trigger] deleted_keys@[j]),
                same_links(e0, self.edges()),
                self.wf(),
                self.lines() == lc,
                self.nodes() == nc,
                u0 ==> key_uniform(self.edges()),
                nj ==> joints_outside(nc, lc),
            decreases pending@.len(),
        {
            let c = pending.pop().unwrap();
            let cn = MeshKey::WireJoint(c).node();
            let group = graph_bfs(&self.graph, cn);
            let mut left: Vec<Coord> = Vec::new();
            let mut j: usize = 0;
            while j < pending.len()
                invariant
                    j <= pending@.len(),
                    left@.len() <= j,
                decreases pending@.len() - j,
            {
                let x = MeshKey::WireJoint(pending[j]).node();
                let mut found = false;
                let mut g: usize = 0;
                while g < group.len()
                    invariant
                        g <= group@.len(),
                    decreases group@.len() - g,
                {
                    if group[g].0 == x.0 && group[g].1 == x.1 && group[g].2 == x.2 {
                        found = true;
                    }
                    g = g + 1;
                }
                if !found {
                    left.push(pending[j]);
                }
                j = j + 1;
            }
            pending = left;
            match self.find_key(MeshKey::WireJoint(c)) {
                Some(k) => {
                    let mut kept_keys: Vec<ValueKey> = Vec::new();
                    let mut j: usize = 0;
                    while j < deleted_keys.len()
                        invariant
                            forall|t: int| 0 <= t < deleted_keys@.len() ==> key_of_edge(e0, #[trigger] deleted_keys@[t]),
                            forall|t: int| 0 <= t < kept_keys@.len() ==> key_of_edge(e0, #[trigger] kept_keys@[t]),
                            j <= deleted_keys@.len(),
                        decreases deleted_keys@.len() - j,
                    {
                        if deleted_keys[j] != k {
                            kept_keys.push(deleted_keys[j]);
                        }
                        j = j + 1;
                    }
                    deleted_keys = kept_keys;
                    if Self::has_key(&traversed, k) {
                        let mut ports: Vec<(ComponentKey, usize)> = Vec::new();
                        let mut g: usize = 0;
                        while g < group.len()
                            invariant
                                g <= group@.len(),
                            decreases group@.len() - g,
                        {
                            let n = group[g];
                            if n.0 == 1 {
                                ports.push((ComponentKey(n.1), #[verifier::truncate] (n.2 as usize)));
                            }
                            g = g + 1;
                        }
                        let ghost calls_before = vf.calls();
                        let split_key = vf.split(k, ports.as_slice());
                        proof {
                            lemma_removal_calls_push(old(vf).calls(), calls_before, e0, vf.calls().last());
                            assert(vf.calls() == calls_before.push(vf.calls().last()));
                        }
                        let ghost e1 = self.edges();
                        let entry = [c];
                        self.flood_fill(entry.as_slice(), split_key);
                        proof {
                            lemma_same_links_of(e1, self.edges());
                            lemma_same_links_trans(e0, e1, self.edges());
                            lemma_same_dom(e1, self.edges(), lc);
                        }
                    } else {
                        traversed.push(k);
                    }
                },
                None => {},
            }
        }
        let mut i: usize = 0;
        while i < deleted_keys.len()
            invariant
                i <= deleted_keys@.len(),
                removal_calls(old(vf).calls(), vf.calls(), e0),
                forall|j: int| 0 <= j < deleted_keys@.len() ==> key_of_edge(e0, #[trigger] deleted_keys@[j]),
            decreases deleted_keys@.len() - i,
        {
            let ghost calls_before = vf.calls();
            vf.delete_key(deleted_keys[i]);
            proof {
                lemma_removal_calls_push(old(vf).calls(), calls_before, e0, VfCall::DeleteKey(deleted_keys@[i as int]));
            }
            i = i + 1;
        }
        proof {
            let lf = self.lines();
            assert(lf == lc);
            assert forall|pt: Coord, d: bool| #[trigger] covered(lf, pt, d) implies covered(l0, pt, d) by {
                assert(covered(lc, pt, d) == covered(lb, pt, d));
                assert(covered(lb, pt, d) ==> covered(la, pt, d));
                assert(covered(la, pt, d) == covered(l0, pt, d));
            }
            assert forall|pt: Coord, d: bool| covered(l0, pt, d) && !on_wire(f, pt, d) implies #[trigger] covered(lf, pt, d) by {
                assert(covered(la, pt, d) == covered(l0, pt, d));
                assert(covered(la, pt, d) && !on_wire(f, pt, d) ==> covered(lb, pt, d));
                assert(covered(lc, pt, d) == covered(lb, pt, d));
            }
            assert forall|pt: Coord, d: bool| inside_of(f, pt, d) implies !#[trigger] covered(lf, pt, d) by {
                assert(inside_of(f, pt, d) ==> !covered(lb, pt, d));
                assert(covered(lc, pt, d) == covered(lb, pt, d));
            }
            assert forall|h2: bool, cr: Axis, m: int| !(h2 == f.3 && cr == on_line(f).2 && on_line(f).0 <= m < on_line(f).0 + on_line(f).1)
                implies #[trigger] unit_covered(line_of(dir_lines(lf, h2), cr), m) == unit_covered(line_of(dir_lines(l0, h2), cr), m) by {
                assert(unit_covered(line_of(dir_lines(lb, h2), cr), m) == unit_covered(line_of(dir_lines(lc, h2), cr), m));
                assert(unit_covered(line_of(dir_lines(lb, h2), cr), m) == unit_covered(line_of(dir_lines(la, h2), cr), m));
                assert(unit_covered(line_of(dir_lines(la, h2), cr), m) == unit_covered(line_of(dir_lines(l1, h2), cr), m)) by {
                    if h2 != hz {
                        assert(dir_lines(la, h2) == dir_lines(l1, h2));
                    }
                }
                assert(unit_covered(line_of(dir_lines(l1, h2), cr), m) == unit_covered(line_of(dir_lines(l0, h2), cr), m)) by {
                    if h2 != hz {
                        assert(dir_lines(l1, h2) == dir_lines(l0, h2));
                    }
                }
            }
            assert forall|m: int| on_line(f).0 <= m < on_line(f).0 + on_line(f).1
                implies !#[trigger] unit_covered(line_of(dir_lines(lf, f.3), on_line(f).2), m) by {
                assert(unit_covered(line_of(dir_lines(lb, hz), cross), m) == unit_covered(line_of(dir_lines(lc, hz), cross), m));
            }
        }
        true
    }
}

impl WireSet {
    /// Gets all wire segments at the point `c`, including those that `c` lies strictly
    /// inside: the horizontal ones, then the vertical ones, each in coordinate order.
    pub fn wires_at_coord(&self, c: Coord) -> (r: Vec<Wire>)
        ensures
            r@.map_values(|x: Wire| x@)
                == segments_at(line_of(self.lines().0, c.1), c.0).map_values(|s: (Axis, Axis)| off_line(s, c.1, true))
                + segments_at(line_of(self.lines().1, c.0), c.1).map_values(|s: (Axis, Axis)| off_line(s, c.0, false)),
    {
        self.ranges.wires_at_coord(c)
    }

    /// Gets all of the wires of the set, each once.
    pub fn wires(&self) -> (r: Vec<Wire>)
        ensures
            forall|i: int| 0 <= i < r@.len() ==>
                is_wire_of(self.lines().0, true, (#[trigger] r@[i])@) || is_wire_of(self.lines().1, false, r@[i]@),
            forall|x: (Axis, Axis, Axis, bool)| is_wire_of(self.lines().0, true, x) || is_wire_of(self.lines().1, false, x) ==>
                exists|i: int| 0 <= i < r@.len() && (#[trigger] r@[i])@ == x,
            forall|i: int, j: int| 0 <= i < j < r@.len() ==> (#[trigger] r@[i])@ != (#[trigger] r@[j])@,
    {
        self.ranges.wires()
    }

    /// Gets all of the wires of the set with their value keys, each wire once.
    pub fn wire_values_iter(&self) -> (r: Vec<(Wire, ValueKey)>)
        requires
            self.wf(),
        ensures
            forall|i: int| 0 <= i < r@.len() ==> {
                let f = (#[trigger] r@[i]).0@;
                &&& is_wire_of(dir_lines(self.lines(), f.3), f.3, f)
                &&& self.edges().contains_key((joint(start_of(f)), joint(end_of(f))))
                &&& self.edges()[(joint(start_of(f)), joint(end_of(f)))] == r@[i].1
            },
            forall|p: Coord, q: Coord| #[trigger] self.edges().contains_key((joint(p), joint(q))) ==>
                exists|i: int| 0 <= i < r@.len() && ends_of(p, q, (#[trigger] r@[i]).0@),
            forall|i: int, j: int| 0 <= i < j < r@.len() ==> (#[trigger] r@[i]).0@ != (#[trigger] r@[j]).0@,
    {
        let all = graph_all_edges(&self.graph);
        let mut r: Vec<(Wire, ValueKey)> = Vec::new();
        let ghost mut idx: Seq<int> = Seq::empty();
        let mut i: usize = 0;
        while i < all.len()
            invariant
                self.wf(),
                i <= all@.len(),
                idx.len() == r@.len(),
                forall|t: int| 0 <= t < all@.len() ==> self.edges().contains_key(((#[trigger] all@[t]).0, all@[t].1))
                    && self.edges()[(all@[t].0, all@[t].1)] == all@[t].2,
                forall|t: int, u: int| 0 <= t < u < all@.len() ==> (#[trigger] all@[t]).0 != (#[trigger] all@[u]).0
                    || all@[t].1 != all@[u].1,
                forall|t: int, u: int| 0 <= t < u < all@.len() ==> (#[trigger] all@[t]).0 != (#[trigger] all@[u]).1
                    || all@[t].1 != all@[u].0,
                forall|t: int| 0 <= t < r@.len() ==> {
                    let f = (#[trigger] r@[t]).0@;
                    &&& is_wire_of(dir_lines(self.lines(), f.3), f.3, f)
                    &&& self.edges().contains_key((joint(start_of(f)), joint(end_of(f))))
                    &&& self.edges()[(joint(start_of(f)), joint(end_of(f)))] == r@[t].1
                    &&& 0 <= idx[t] < i
                    &&& ends_of_nodes(all@[idx[t]].0, all@[idx[t]].1, f)
                },
                forall|t: int, u: int| 0 <= t < u < r@.len() ==> idx[t] < idx[u],
                forall|t: int| 0 <= t < i && (#[trigger] all@[t]).0.0 == 0 && all@[t].1.0 == 0 ==>
                    exists|u: int| 0 <= u < r@.len() && idx[u] == t,
            decreases all@.len() - i,
        {
            let (a, b, k) = all[i];
            if a.0 == 0 && b.0 == 0 {
                let pa: Coord = (#[verifier::truncate] (a.1 as u32), #[verifier::truncate] (a.2 as u32));
                let pb: Coord = (#[verifier::truncate] (b.1 as u32), #[verifier::truncate] (b.2 as u32));
                proof {
                    assert(self.edges().contains_key((all@[i as int].0, all@[i as int].1)));
                    lemma_joint_nodes(self.edges(), self.nodes(), a, b);
                    lemma_edge_wire(self.edges(), self.nodes(), self.lines(), pa, pb);
                }
                let wire = Wire::from_endpoints(pa, pb).unwrap();
                let ghost r0 = r@;
                let ghost idx0 = idx;
                r.push((wire, k));
                proof {
                    idx = idx.push(i as int);
                    assert forall|t: int, u: int| 0 <= t < u < r@.len() implies idx[t] < idx[u] by {
                        if u < r0.len() {
                            assert(idx[t] == idx0[t] && idx[u] == idx0[u]);
                        } else {
                            assert(idx[t] == idx0[t]);
                            assert(r0[t] == r0[t]);
                            assert(0 <= idx0[t] < i);
                        }
                    }
                    assert forall|t: int| 0 <= t < i + 1 && (#[trigger] all@[t]).0.0 == 0 && all@[t].1.0 == 0 implies
                        exists|u: int| 0 <= u < r@.len() && idx[u] == t by {
                        if t < i {
                            let u = choose|u: int| 0 <= u < r0.len() && idx0[u] == t;
                            assert(idx[u] == t);
                        } else {
                            assert(idx[r@.len() - 1] == t);
                        }
                    }
                    assert forall|t: int| 0 <= t < r@.len() implies {
                        let f = (#[trigger] r@[t]).0@;
                        &&& is_wire_of(dir_lines(self.lines(), f.3), f.3, f)
                        &&& self.edges().contains_key((joint(start_of(f)), joint(end_of(f))))
                        &&& self.edges()[(joint(start_of(f)), joint(end_of(f)))] == r@[t].1
                        &&& 0 <= idx[t] < i + 1
                        &&& ends_of_nodes(all@[idx[t]].0, all@[idx[t]].1, f)
                    } by {
                        if t < r0.len() {
                            assert(r@[t] == r0[t]);
                            assert(idx[t] == idx0[t]);
                        }
                    }
                }
            } else {
                proof {
                    assert forall|t: int| 0 <= t < i + 1 && (#[trigger] all@[t]).0.0 == 0 && all@[t].1.0 == 0 implies
                        exists|u: int| 0 <= u < r@.len() && idx[u] == t by {
                        if t < i {
                            let u = choose|u: int| 0 <= u < r@.len() && idx[u] == t;
                        }
                    }
                }
            }
            i = i + 1;
        }
        proof {
            let e = self.edges();
            assert forall|p: Coord, q: Coord| #[trigger] e.contains_key((joint(p), joint(q))) implies
                exists|u: int| 0 <= u < r@.len() && ends_of(p, q, (#[trigger] r@[u]).0@) by {
                let t = choose|t: int| 0 <= t < all@.len()
                    && (((#[trigger] all@[t]).0, all@[t].1) == (joint(p), joint(q)) || (all@[t].1, all@[t].0) == (joint(p), joint(q)));
                assert(all@[t].0.0 == 0 && all@[t].1.0 == 0);
                let u = choose|u: int| 0 <= u < r@.len() && idx[u] == t;
                let f = r@[u].0@;
                assert(ends_of_nodes(all@[t].0, all@[t].1, f));
                lemma_joint_injective(p, start_of(f));
                lemma_joint_injective(q, end_of(f));
                lemma_joint_injective(p, end_of(f));
                lemma_joint_injective(q, start_of(f));
                assert(ends_of(p, q, r@[u].0@));
            }
            assert forall|t: int, u: int| 0 <= t < u < r@.len() implies (#[trigger] r@[t]).0@ != (#[trigger] r@[u]).0@ by {
                assert(idx[t] < idx[u]);
                let x = all@[idx[t]];
                let y = all@[idx[u]];
                if r@[t].0@ == r@[u].0@ {
                    assert(ends_of_nodes(x.0, x.1, r@[t].0@));
                    assert(ends_of_nodes(y.0, y.1, r@[t].0@));
                    lemma_fields_endpoints(r@[t].0@);
                    lemma_joint_injective(start_of(r@[t].0@), end_of(r@[t].0@));
                }
            }
        }
        r
    }
}

/// Whether the nodes `a`, `b` are the joints at the two ends of the wire `f`, in either order.
pub open spec fn ends_of_nodes(a: MeshNode, b: MeshNode, f: (Axis, Axis, Axis, bool)) -> bool {
    (a == joint(start_of(f)) && b == joint(end_of(f))) || (b == joint(start_of(f)) && a == joint(end_of(f)))
}

/// The two ends of an edge between joints are joints of points.
proof fn lemma_joint_nodes(e: Map<MeshEdge, ValueKey>, n: Set<MeshNode>, a: MeshNode, b: MeshNode)
    requires
        graph_ok(e, n),
        e.contains_key((a, b)),
        a.0 == 0,
        b.0 == 0,
    ensures
        a == joint((a.1 as u32, a.2 as u32)),
        b == joint((b.1 as u32, b.2 as u32)),
{
    reveal(graph_ok);
    assert(n.contains(a) && n.contains(b));
}

/// An edge between two joints is a held wire between their points, of the edge's key.
proof fn lemma_edge_wire(e: Map<MeshEdge, ValueKey>, n: Set<MeshNode>, l: Lines, p: Coord, q: Coord)
    requires
        graph_ok(e, n),
        joints_match(e, l),
        e.contains_key((joint(p), joint(q))),
    ensures
        endpoints_wire(p, q) is Some,
        ({
            let f = endpoints_wire(p, q)->0;
            &&& is_wire_of(dir_lines(l, f.3), f.3, f)
            &&& wire_valid(f.0, f.1, f.2, f.3)
            &&& ends_of(p, q, f)
            &&& ends_of_nodes(joint(p), joint(q), f)
            &&& e.contains_key((joint(start_of(f)), joint(end_of(f))))
            &&& e[(joint(start_of(f)), joint(end_of(f)))] == e[(joint(p), joint(q))]
        }),
{
    reveal(graph_ok);
    reveal(joints_match);
    assert(wire_in(l, p, q));
    lemma_endpoints_inverse(p, q);
    let f = endpoints_wire(p, q)->0;
    assert(e.contains_key((joint(q), joint(p))));
}

impl Default for WireSet {
    /// An empty wire set.
    fn default() -> (r: Self)
        ensures
            r.wf(),
            r.meshes_ok(),
            r.edges().dom() == Set::<MeshEdge>::empty(),
            r.nodes() == Set::<MeshNode>::empty(),
            r.lines().0 == Map::<Axis, Map<Axis, Axis>>::empty(),
            r.lines().1 == Map::<Axis, Map<Axis, Axis>>::empty(),
    {
        WireSet::new()
    }
}

impl WireSet {
    /// The mesh keys of the graph's nodes, each once.
    pub fn mesh_nodes(&self) -> (r: Vec<MeshKey>)
        requires
            self.wf(),
        ensures
            forall|i: int| 0 <= i < r@.len() ==> self.nodes().contains(mesh_node(#[trigger] r@[i])),
            forall|n: MeshNode| #[trigger] self.nodes().contains(n) ==> exists|i: int| 0 <= i < r@.len() && mesh_node(#[trigger] r@[i]) == n,
    {
        let ns = graph_all_nodes(&self.graph);
        let mut r: Vec<MeshKey> = Vec::new();
        let mut i: usize = 0;
        proof {
            reveal(graph_ok);
        }
        while i < ns.len()
            invariant
                i <= ns@.len(),
                r@.len() == i,
                forall|n: MeshNode| ns@.contains(n) <==> self.nodes().contains(n),
                forall|n: MeshNode| #[trigger] self.nodes().contains(n) ==> valid_node(n),
                forall|j: int| 0 <= j < i ==> mesh_node(#[trigger] r@[j]) == ns@[j],
            decreases ns@.len() - i,
        {
            proof {
                assert(ns@.contains(ns@[i as int]));
            }
            r.push(MeshKey::from_node(ns[i]));
            i = i + 1;
        }
        proof {
            assert forall|n: MeshNode| #[trigger] self.nodes().contains(n) implies exists|j: int| 0 <= j < r@.len() && mesh_node(#[trigger] r@[j]) == n by {
                let j = choose|j: int| 0 <= j < ns@.len() && ns@[j] == n;
                assert(mesh_node(r@[j]) == n);
            }
            assert forall|j: int| 0 <= j < r@.len() implies self.nodes().contains(mesh_node(#[trigger] r@[j])) by {
                assert(ns@.contains(ns@[j]));
            }
        }
        r
    }

    /// The edges of the graph as `(end, end, key)`, each edge once, under one order of its ends.
    pub fn mesh_edges(&self) -> (r: Vec<(MeshKey, MeshKey, ValueKey)>)
        requires
            self.wf(),
        ensures
            forall|i: int| 0 <= i < r@.len() ==> self.edges().contains_key((mesh_node((#[trigger] r@[i]).0), mesh_node(r@[i].1)))
                && self.edges()[(mesh_node(r@[i].0), mesh_node(r@[i].1))] == r@[i].2,
            forall|e: MeshEdge| #[trigger] self.edges().contains_key(e) ==> exists|i: int| 0 <= i < r@.len()
                && (((mesh_node((#[trigger] r@[i]).0), mesh_node(r@[i].1)) == e) || ((mesh_node(r@[i].1), mesh_node(r@[i].0)) == e)),
    {
        let all = graph_all_edges(&self.graph);
        let mut r: Vec<(MeshKey, MeshKey, ValueKey)> = Vec::new();
        let mut i: usize = 0;
        while i < all.len()
            invariant
                self.wf(),
                i <= all@.len(),
                r@.len() == i,
                forall|t: int| 0 <= t < all@.len() ==> self.edges().contains_key(((#[trigger] all@[t]).0, all@[t].1))
                    && self.edges()[(all@[t].0, all@[t].1)] == all@[t].2,
                forall|j: int| 0 <= j < i ==> mesh_node((#[trigger] r@[j]).0) == all@[j].0 && mesh_node(r@[j].1) == all@[j].1
                    && r@[j].2 == all@[j].2,
            decreases all@.len() - i,
        {
            let (a, b, k) = all[i];
            proof {
                assert(self.edges().contains_key((all@[i as int].0, all@[i as int].1)));
                lemma_edge_nodes_valid(self.edges(), self.nodes(), a, b);
            }
            r.push((MeshKey::from_node(a), MeshKey::from_node(b), k));
            i = i + 1;
        }
        proof {
            assert forall|e: MeshEdge| #[trigger] self.edges().contains_key(e) implies exists|j: int| 0 <= j < r@.len()
                && (((mesh_node((#[trigger] r@[j]).0), mesh_node(r@[j].1)) == e) || ((mesh_node(r@[j].1), mesh_node(r@[j].0)) == e)) by {
                let t = choose|t: int| 0 <= t < all@.len() && (((#[trigger] all@[t]).0, all@[t].1) == e || (all@[t].1, all@[t].0) == e);
                assert(mesh_node(r@[t].0) == all@[t].0);
            }
            assert forall|j: int| 0 <= j < r@.len() implies self.edges().contains_key((mesh_node((#[trigger] r@[j]).0), mesh_node(r@[j].1)))
                && self.edges()[(mesh_node(r@[j].0), mesh_node(r@[j].1))] == r@[j].2 by {
                assert(all@[j] == all@[j]);
            }
        }
        r
    }
}

/// The ends of an edge are valid nodes.
proof fn lemma_edge_nodes_valid(e: Map<MeshEdge, ValueKey>, n: Set<MeshNode>, a: MeshNode, b: MeshNode)
    requires
        graph_ok(e, n),
        e.contains_key((a, b)),
    ensures
        valid_node(a),
        valid_node(b),
{
    reveal(graph_ok);
    assert(n.contains(a) && n.contains(b));
}

/// Drawing a wire and erasing it again leaves every point off the wire covered as it
/// was before, and no point strictly inside the wire covered along it.
///
/// `l0`, `l1` and `l2` are the lines before `add_wire(w)` (which added something),
/// after it, and after `remove_wire(w)`, related as those functions' contracts state.
pub proof fn lemma_add_then_remove_wire(l0: Lines, l1: Lines, l2: Lines, f: (Axis, Axis, Axis, bool))
    requires
        forall|pt: Coord, d: bool| #[trigger] covered(l1, pt, d) == (covered(l0, pt, d) || on_wire(f, pt, d)),
        forall|pt: Coord, d: bool| #[trigger] covered(l2, pt, d) ==> covered(l1, pt, d),
        forall|pt: Coord, d: bool| covered(l1, pt, d) && !on_wire(f, pt, d) ==> #[trigger] covered(l2, pt, d),
        forall|pt: Coord, d: bool| inside_of(f, pt, d) ==> !#[trigger] covered(l2, pt, d),
    ensures
        forall|pt: Coord, d: bool| !on_wire(f, pt, d) ==> (#[trigger] covered(l2, pt, d) == covered(l0, pt, d)),
        forall|pt: Coord, d: bool| inside_of(f, pt, d) ==> !#[trigger] covered(l2, pt, d),
{
    assert forall|pt: Coord, d: bool| !on_wire(f, pt, d) implies (#[trigger] covered(l2, pt, d) == covered(l0, pt, d)) by {
        assert(covered(l1, pt, d) == covered(l0, pt, d));
    }
}

/// Removing an edge keeps the edges at each node of one key, and of the key they had.
proof fn lemma_remove_uniform(e: Map<MeshEdge, ValueKey>, a: MeshNode, b: MeshNode)
    ensures
        key_uniform(e) ==> key_uniform(edges_without(e, a, b)),
        forall|x: MeshNode, k: ValueKey| all_keyed(e, x, k) ==> #[trigger] all_keyed(edges_without(e, a, b), x, k),
{
    reveal(key_uniform);
    reveal(all_keyed);
    let e1 = edges_without(e, a, b);
    assert forall|x: MeshNode, y: MeshNode, z: MeshNode| key_uniform(e) && #[trigger] e1.contains_key((x, y)) && #[trigger] e1.contains_key((x, z))
        implies e1[(x, y)] == e1[(x, z)] by {
        assert(e.contains_key((x, y)) && e.contains_key((x, z)));
    }
    assert forall|x: MeshNode, k: ValueKey| all_keyed(e, x, k) implies #[trigger] all_keyed(e1, x, k) by {
        assert forall|y: MeshNode| #[trigger] e1.contains_key((x, y)) implies e1[(x, y)] == k by {
            assert(e.contains_key((x, y)));
        }
    }
}

/// Adding an edge of key `k` between nodes whose edges are all of key `k` keeps the edges
/// at each node of one key.
proof fn lemma_add_uniform(e: Map<MeshEdge, ValueKey>, a: MeshNode, b: MeshNode, k: ValueKey)
    requires
        key_uniform(e),
        all_keyed(e, a, k),
        all_keyed(e, b, k),
    ensures
        key_uniform(edges_with(e, a, b, k)),
        all_keyed(edges_with(e, a, b, k), a, k),
        all_keyed(edges_with(e, a, b, k), b, k),
        forall|x: MeshNode, k2: ValueKey| x != a && x != b && all_keyed(e, x, k2)
            ==> #[trigger] all_keyed(edges_with(e, a, b, k), x, k2),
{
    reveal(key_uniform);
    reveal(all_keyed);
    let e1 = edges_with(e, a, b, k);
    assert forall|x: MeshNode, y: MeshNode, z: MeshNode| #[trigger] e1.contains_key((x, y)) && #[trigger] e1.contains_key((x, z))
        implies e1[(x, y)] == e1[(x, z)] by {
        if x == a || x == b {
            assert(e1[(x, y)] == k) by {
                if !((x == a && y == b) || (x == b && y == a)) {
                    assert(e.contains_key((x, y)));
                }
            }
            assert(e1[(x, z)] == k) by {
                if !((x == a && z == b) || (x == b && z == a)) {
                    assert(e.contains_key((x, z)));
                }
            }
        } else {
            assert(e.contains_key((x, y)) && e.contains_key((x, z)));
        }
    }
    assert forall|y: MeshNode| #[trigger] e1.contains_key((a, y)) implies e1[(a, y)] == k by {
        if y != b {
            assert(e.contains_key((a, y)));
        }
    }
    assert forall|y: MeshNode| #[trigger] e1.contains_key((b, y)) implies e1[(b, y)] == k by {
        if y != a {
            assert(e.contains_key((b, y)));
        }
    }
    assert forall|x: MeshNode, k2: ValueKey| x != a && x != b && all_keyed(e, x, k2)
        implies #[trigger] all_keyed(e1, x, k2) by {
        assert forall|y: MeshNode| #[trigger] e1.contains_key((x, y)) implies e1[(x, y)] == k2 by {
            assert(e.contains_key((x, y)));
        }
    }
}

/// Splitting a wire of key `kf` at `c`, where every edge already at `c` is of key `kf`,
/// keeps the edges at each node of one key, and of the key they had.
proof fn lemma_split_uniform(e0: Map<MeshEdge, ValueKey>, n0: Set<MeshNode>, f: (Axis, Axis, Axis, bool), c: Coord)
    requires
        graph_ok(e0, n0),
        key_uniform(e0),
        e0.contains_key((joint(start_of(f)), joint(end_of(f)))),
        joint(c) != joint(start_of(f)),
        joint(c) != joint(end_of(f)),
        all_keyed(e0, joint(c), e0[(joint(start_of(f)), joint(end_of(f)))]),
    ensures
        ({
            let kf = e0[(joint(start_of(f)), joint(end_of(f)))];
            let e1 = edges_split(e0, f, c, kf);
            &&& key_uniform(e1)
            &&& all_keyed(e1, joint(c), kf)
            &&& forall|x: MeshNode, k: ValueKey| x != joint(c) && all_keyed(e0, x, k) ==> #[trigger] all_keyed(e1, x, k)
        }),
{
    let p = joint(start_of(f));
    let q = joint(end_of(f));
    let cn = joint(c);
    let kf = e0[(p, q)];
    lemma_sym(e0, n0, p, q);
    reveal(graph_ok);
    assert(e0[(q, p)] == kf);
    lemma_remove_uniform(e0, p, q);
    let e1 = edges_without(e0, p, q);
    reveal(all_keyed);
    reveal(key_uniform);
    assert(all_keyed(e1, p, kf)) by {
        assert forall|y: MeshNode| #[trigger] e1.contains_key((p, y)) implies e1[(p, y)] == kf by {
            assert(e0.contains_key((p, y)));
        }
    }
    assert(all_keyed(e1, q, kf)) by {
        assert forall|y: MeshNode| #[trigger] e1.contains_key((q, y)) implies e1[(q, y)] == kf by {
            assert(e0.contains_key((q, y)));
        }
    }
    assert(all_keyed(e1, cn, kf)) by {
        assert forall|y: MeshNode| #[trigger] e1.contains_key((cn, y)) implies e1[(cn, y)] == kf by {
            assert(e0.contains_key((cn, y)));
        }
    }
    lemma_add_uniform(e1, p, cn, kf);
    let e2 = edges_with(e1, p, cn, kf);
    lemma_add_uniform(e2, cn, q, kf);
    let e3 = edges_with(e2, cn, q, kf);
    assert forall|x: MeshNode, k: ValueKey| x != cn && all_keyed(e0, x, k) implies #[trigger] all_keyed(e3, x, k) by {
        assert(all_keyed(e1, x, k));
        if x == p {
            assert(k == kf);
        } else if x == q {
            assert(e0.contains_key((q, p)));
            assert(k == kf);
        }
        if x == p || x == q {
            assert forall|y: MeshNode| #[trigger] e3.contains_key((x, y)) implies e3[(x, y)] == k by {}
        }
    }
}

/// The edges after joining at `c` with key `k`.
pub open spec fn edges_joined(e: Map<MeshEdge, ValueKey>, p: Coord, c: Coord, q: Coord, k: ValueKey) -> Map<MeshEdge, ValueKey> {
    edges_with(edges_without(edges_without(e, joint(p), joint(c)), joint(c), joint(q)), joint(p), joint(q), k)
}

/// Joining at `c` with the key of its edges keeps the edges at each node of one key, and
/// of the key they had.
proof fn lemma_join_uniform(e0: Map<MeshEdge, ValueKey>, n0: Set<MeshNode>, p: Coord, c: Coord, q: Coord, k: ValueKey)
    requires
        graph_ok(e0, n0),
        key_uniform(e0),
        joinable(e0, c, p, q),
        p != c,
        q != c,
        k == e0[(joint(p), joint(c))] || all_keyed(e0, joint(c), k),
    ensures
        key_uniform(edges_joined(e0, p, c, q, k)),
        forall|x: MeshNode, k2: ValueKey| x != joint(c) && all_keyed(e0, x, k2)
            ==> #[trigger] all_keyed(edges_joined(e0, p, c, q, k), x, k2),
{
    let jp = joint(p);
    let jq = joint(q);
    let jc = joint(c);
    lemma_sym(e0, n0, jc, jp);
    lemma_sym(e0, n0, jc, jq);
    reveal(graph_ok);
    assert(e0[(jp, jc)] == e0[(jc, jp)]);
    assert(e0[(jq, jc)] == e0[(jc, jq)]);
    reveal(key_uniform);
    reveal(all_keyed);
    let lk = e0[(jc, jp)];
    assert(e0[(jc, jq)] == lk);
    assert(k == lk);
    lemma_remove_uniform(e0, jp, jc);
    let e1 = edges_without(e0, jp, jc);
    lemma_remove_uniform(e1, jc, jq);
    let e2 = edges_without(e1, jc, jq);
    assert(all_keyed(e2, jp, k)) by {
        assert forall|y: MeshNode| #[trigger] e2.contains_key((jp, y)) implies e2[(jp, y)] == k by {
            assert(e0.contains_key((jp, y)));
        }
    }
    assert(all_keyed(e2, jq, k)) by {
        assert forall|y: MeshNode| #[trigger] e2.contains_key((jq, y)) implies e2[(jq, y)] == k by {
            assert(e0.contains_key((jq, y)));
        }
    }
    lemma_add_uniform(e2, jp, jq, k);
    let e3 = edges_with(e2, jp, jq, k);
    assert forall|x: MeshNode, k2: ValueKey| x != jc && all_keyed(e0, x, k2) implies #[trigger] all_keyed(e3, x, k2) by {
        assert(all_keyed(e2, x, k2));
        if x == jp {
            assert(e0.contains_key((jp, jc)));
            assert(k2 == k);
        } else if x == jq {
            assert(e0.contains_key((jq, jc)));
            assert(k2 == k);
        }
    }
}

/// No joint lies strictly inside a held wire.
#[verifier::opaque]
pub open spec fn joints_outside(n: Set<MeshNode>, l: Lines) -> bool {
    forall|c: Coord, h: bool| n.contains(joint(c)) ==> !#[trigger] inside_wire(l, c, h)
}

impl WireSet {
    /// Whether every mesh carries one key at each of its nodes, and no joint lies
    /// strictly inside a wire (where it would connect nothing).
    pub open spec fn meshes_ok(&self) -> bool {
        &&& key_uniform(self.edges())
        &&& joints_outside(self.nodes(), self.lines())
    }
}

/// Removing a wire puts no point inside a wire.
proof fn lemma_without_inside(l: Lines, f: (Axis, Axis, Axis, bool), x: Coord, d: bool)
    requires
        line_of(dir_lines(l, f.3), on_line(f).2).dom().finite(),
        inside_wire(lines_without_wire(l, f), x, d),
    ensures
        inside_wire(l, x, d),
{
    lemma_line_without(l, f);
    let l1 = lines_without_wire(l, f);
    let line1 = line_of(dir_lines(l1, d), cross_of(x, d));
    let k = choose|k: Axis| #[trigger] line1.contains_key(k) && k < main_of(x, d) < k + line1[k];
    if d == f.3 && cross_of(x, d) == on_line(f).2 {
        assert(line_of(dir_lines(l, d), cross_of(x, d)).contains_key(k));
    } else if d == f.3 {
        assert(line_of(dir_lines(l, d), cross_of(x, d)) == line1);
    } else {
        assert(dir_lines(l, d) == dir_lines(l1, d));
    }
}

/// Joining at `c` puts no joint inside a wire, where none was.
proof fn lemma_join_outside(e0: Map<MeshEdge, ValueKey>, n0: Set<MeshNode>, l0: Lines, p: Coord, c: Coord, q: Coord)
    requires
        graph_ok(e0, n0),
        joints_match(e0, l0),
        lines_ok(l0.0),
        lines_ok(l0.1),
        joinable(e0, c, p, q),
        joints_outside(n0, l0),
    ensures
        ({
            let fl = endpoints_wire(p, c)->0;
            let fr = endpoints_wire(c, q)->0;
            let g = endpoints_wire(p, q)->0;
            joints_outside(n0.remove(joint(c)), lines_with_wire(lines_without_wire(lines_without_wire(l0, fl), fr), g))
        }),
{
    lemma_join_lines_of(e0, n0, l0, p, c, q);
    let fl = endpoints_wire(p, c)->0;
    let fr = endpoints_wire(c, q)->0;
    let g = endpoints_wire(p, q)->0;
    let l1 = lines_without_wire(l0, fl);
    let l2 = lines_without_wire(l1, fr);
    let lf = lines_with_wire(l2, g);
    let n = n0.remove(joint(c));
    let (sg, lg, cross, h) = on_line(g);
    reveal(joints_outside);
    assert forall|x: Coord, d: bool| n.contains(joint(x)) implies !#[trigger] inside_wire(lf, x, d) by {
        assert(!inside_wire(l0, x, d));
        assert(x != c);
        if inside_wire(lf, x, d) {
            let linef = line_of(dir_lines(lf, d), cross_of(x, d));
            let k = choose|k: Axis| #[trigger] linef.contains_key(k) && k < main_of(x, d) < k + linef[k];
            if d == h && cross_of(x, d) == cross && k == sg {
                let m = main_of(x, d);
                let mc = main_of(c, h);
                assert(m != mc) by {
                    if m == mc {
                        assert(x == c);
                    }
                }
                let (sl, ll, cl, hl) = on_line(fl);
                let (sr, lr, cr, hr) = on_line(fr);
                let line0 = line_of(dir_lines(l0, h), cross);
                assert(line0.contains_key(sl) && line0.contains_key(sr));
                if m < mc {
                    if sl < sr {
                        assert(line0.contains_key(sl) && sl < m < sl + line0[sl]);
                    } else {
                        assert(line0.contains_key(sr) && sr < m < sr + line0[sr]);
                    }
                } else {
                    if sl < sr {
                        assert(line0.contains_key(sr) && sr < m < sr + line0[sr]);
                    } else {
                        assert(line0.contains_key(sl) && sl < m < sl + line0[sl]);
                    }
                }
                assert(inside_wire(l0, x, d));
            } else {
                assert(inside_wire(l2, x, d)) by {
                    if d == h && cross_of(x, d) == cross {
                        assert(line_of(dir_lines(l2, d), cross_of(x, d)).contains_key(k));
                    } else if d == h {
                        assert(line_of(dir_lines(l2, d), cross_of(x, d)) == linef);
                    } else {
                        assert(dir_lines(l2, d) == dir_lines(lf, d));
                    }
                }
                lemma_without_inside(l1, fr, x, d);
                lemma_without_inside(l0, fl, x, d);
            }
        }
    }
}

/// Fewer nodes, on the same lines, keep the joints outside the wires.
proof fn lemma_fewer_nodes_outside(n0: Set<MeshNode>, n1: Set<MeshNode>, l: Lines)
    requires
        joints_outside(n0, l),
        n1.subset_of(n0),
    ensures
        joints_outside(n1, l),
{
    reveal(joints_outside);
    assert forall|c: Coord, h: bool| n1.contains(joint(c)) implies !#[trigger] inside_wire(l, c, h) by {
        assert(n0.contains(joint(c)));
    }
}

/// Splitting at `c` a wire of a set whose meshes are sound, where `c` lies inside no wire
/// of the other direction, keeps the meshes sound.
proof fn lemma_split_meshes(e0: Map<MeshEdge, ValueKey>, n0: Set<MeshNode>, l0: Lines, l1: Lines, f: (Axis, Axis, Axis, bool), c: Coord)
    requires
        graph_ok(e0, n0),
        key_uniform(e0),
        joints_outside(n0, l0),
        lines_ok(dir_lines(l0, f.3)),
        split_at(dir_lines(l0, f.3), dir_lines(l1, f.3), cross_of(c, f.3), main_of(c, f.3), f.3, f),
        dir_lines(l1, !f.3) == dir_lines(l0, !f.3),
        e0.contains_key((joint(start_of(f)), joint(end_of(f)))),
    ensures
        key_uniform(edges_split(e0, f, c, e0[(joint(start_of(f)), joint(end_of(f)))])),
        !inside_wire(l0, c, !f.3) ==> joints_outside(n0.insert(joint(c)), l1),
        !n0.contains(joint(c)),
{
    let (start, len, cross, h) = on_line(f);
    let kf = e0[(joint(start_of(f)), joint(end_of(f)))];
    lemma_split_lines(l0, l1, f, c);
    lemma_split_line_facts(l0, l1, f, c);
    let main = main_of(c, h);
    let f1 = off_line((start, (main - start) as Axis), cross, h);
    let f2 = off_line((main, (start + len - main) as Axis), cross, h);
    lemma_fields_endpoints(f1);
    lemma_fields_endpoints(f2);
    lemma_joint_injective(c, start_of(f));
    lemma_joint_injective(c, end_of(f));
    assert(inside_wire(l0, c, h)) by {
        assert(line_of(dir_lines(l0, h), cross_of(c, h)).contains_key(start));
    }
    reveal(joints_outside);
    assert(!n0.contains(joint(c)));
    assert(all_keyed(e0, joint(c), kf)) by {
        reveal(all_keyed);
        reveal(graph_ok);
        assert forall|b: MeshNode| #[trigger] e0.contains_key((joint(c), b)) implies e0[(joint(c), b)] == kf by {
            assert(n0.contains(joint(c)));
        }
    }
    lemma_split_uniform(e0, n0, f, c);
    let n1 = n0.insert(joint(c));
    assert forall|x: Coord, d: bool| !inside_wire(l0, c, !h) && n1.contains(joint(x)) implies !#[trigger] inside_wire(l1, x, d) by {
        if x == c {
            if d != h {
                assert(inside_wire(l1, c, d) == inside_wire(l0, c, d)) by {
                    assert(dir_lines(l1, d) == dir_lines(l0, d));
                }
            }
        } else {
            lemma_joint_injective(x, c);
            assert(n0.contains(joint(x)));
            assert(!inside_wire(l0, x, d));
            if d != h {
                assert(inside_wire(l1, x, d) == inside_wire(l0, x, d)) by {
                    assert(dir_lines(l1, d) == dir_lines(l0, d));
                }
            }
        }
    }
}

/// Under edges of one key at each node, an edge's key is the key of every edge at its end.
proof fn lemma_uniform_keyed(e: Map<MeshEdge, ValueKey>, x: MeshNode, b: MeshNode)
    requires
        key_uniform(e),
        e.contains_key((x, b)),
    ensures
        all_keyed(e, x, e[(x, b)]),
{
    reveal(key_uniform);
    reveal(all_keyed);
}

/// A node without edges has all its edges of any key.
proof fn lemma_no_edge_keyed(e: Map<MeshEdge, ValueKey>, x: MeshNode, k: ValueKey)
    requires
        !has_edge(e, x),
    ensures
        all_keyed(e, x, k),
{
    reveal(all_keyed);
}

/// Changing keys only to `k` keeps a node whose edges are all of key `k` so.
proof fn lemma_flood_keeps_keyed(e: Map<MeshEdge, ValueKey>, e2: Map<MeshEdge, ValueKey>, x: MeshNode, k: ValueKey)
    requires
        all_keyed(e, x, k),
        e2.dom() == e.dom(),
        forall|y: MeshEdge| #[trigger] e2.contains_key(y) ==> e2[y] == e[y] || e2[y] == k,
    ensures
        all_keyed(e2, x, k),
{
    reveal(all_keyed);
    assert forall|b: MeshNode| #[trigger] e2.contains_key((x, b)) implies e2[(x, b)] == k by {
        assert(e.contains_key((x, b)));
    }
}

/// Linking a joint inside no wire to a port or tunnel keeps the joints outside the wires.
proof fn lemma_link_outside(n: Set<MeshNode>, l: Lines, c: Coord, a: MeshNode)
    requires
        joints_outside(n, l),
        !inside_wire(l, c, true),
        !inside_wire(l, c, false),
        a.0 != 0,
    ensures
        joints_outside(n.insert(joint(c)).insert(a), l),
{
    reveal(joints_outside);
    let n2 = n.insert(joint(c)).insert(a);
    assert forall|x: Coord, d: bool| n2.contains(joint(x)) implies !#[trigger] inside_wire(l, x, d) by {
        lemma_joint_injective(x, c);
        if x != c {
            assert(n.contains(joint(x)));
        } else if d {
        } else {
        }
    }
}

/// The key a tunnel link takes is the key of every edge at both of its ends, once the
/// mesh at the point has been flooded with the tunnel's key where the two differ.
proof fn lemma_tunnel_keys(
    e1: Map<MeshEdge, ValueKey>,
    e2: Map<MeshEdge, ValueKey>,
    cn: MeshNode,
    tn: MeshNode,
    added_key: Option<ValueKey>,
    tunnel_key: Option<ValueKey>,
    edge_key: ValueKey,
)
    requires
        key_uniform(e1),
        key_uniform(e1) ==> key_uniform(e2),
        e2.dom() == e1.dom(),
        forall|y: MeshEdge| #[trigger] e2.contains_key(y) ==> e2[y] == e1[y] || e2[y] == edge_key,
        added_key is None <==> !has_edge(e1, cn),
        tunnel_key is None <==> !has_edge(e1, tn),
        added_key matches Some(k) ==> exists|b: MeshNode| #[trigger] e1.contains_key((cn, b)) && e1[(cn, b)] == k,
        tunnel_key matches Some(k) ==> exists|b: MeshNode| #[trigger] e1.contains_key((tn, b)) && e1[(tn, b)] == k,
        tunnel_key matches Some(t) ==> edge_key == t,
        tunnel_key is None && added_key is Some ==> edge_key == added_key->0,
        added_key is Some && tunnel_key is Some && added_key->0 != tunnel_key->0 ==> all_keyed(e2, cn, edge_key),
        !(added_key is Some && tunnel_key is Some && added_key->0 != tunnel_key->0) ==> e2 == e1,
    ensures
        key_uniform(e2),
        all_keyed(e2, cn, edge_key),
        all_keyed(e2, tn, edge_key),
{
    if has_edge(e1, tn) {
        let b = choose|b: MeshNode| #[trigger] e1.contains_key((tn, b)) && e1[(tn, b)] == edge_key;
        lemma_uniform_keyed(e1, tn, b);
        lemma_flood_keeps_keyed(e1, e2, tn, edge_key);
    } else {
        lemma_no_edge_keyed(e1, tn, edge_key);
        lemma_flood_keeps_keyed(e1, e2, tn, edge_key);
    }
    if added_key is Some && tunnel_key is Some && added_key->0 != tunnel_key->0 {
    } else if has_edge(e1, cn) {
        let b = choose|b: MeshNode| #[trigger] e1.contains_key((cn, b)) && e1[(cn, b)] == added_key->0;
        lemma_uniform_keyed(e1, cn, b);
    } else {
        lemma_no_edge_keyed(e1, cn, edge_key);
    }
}

/// Splitting a wire keeps the edges at every node but `c` of the key they had.
proof fn lemma_split_keyed(e0: Map<MeshEdge, ValueKey>, n0: Set<MeshNode>, f: (Axis, Axis, Axis, bool), c: Coord)
    requires
        graph_ok(e0, n0),
        e0.contains_key((joint(start_of(f)), joint(end_of(f)))),
    ensures
        forall|x: MeshNode, k: ValueKey| x != joint(c) && all_keyed(e0, x, k)
            ==> #[trigger] all_keyed(edges_split(e0, f, c, e0[(joint(start_of(f)), joint(end_of(f)))]), x, k),
{
    let p = joint(start_of(f));
    let q = joint(end_of(f));
    let kf = e0[(p, q)];
    lemma_sym(e0, n0, p, q);
    reveal(graph_ok);
    let e1 = edges_split(e0, f, c, kf);
    reveal(all_keyed);
    assert forall|x: MeshNode, k: ValueKey| x != joint(c) && all_keyed(e0, x, k) implies #[trigger] all_keyed(e1, x, k) by {
        if x == p {
            assert(e0[(p, q)] == k);
        }
        if x == q {
            assert(e0[(q, p)] == k);
        }
        assert forall|b: MeshNode| #[trigger] e1.contains_key((x, b)) implies e1[(x, b)] == k by {
            if (x == p && b == joint(c)) || (x == q && b == joint(c)) {
            } else {
                assert(e0.contains_key((x, b)));
            }
        }
    }
}

/// Splitting a wire at a point that is not a node keeps the edges at each node of one key.
proof fn lemma_split_uniform_fresh(e0: Map<MeshEdge, ValueKey>, n0: Set<MeshNode>, f: (Axis, Axis, Axis, bool), c: Coord)
    requires
        graph_ok(e0, n0),
        key_uniform(e0),
        e0.contains_key((joint(start_of(f)), joint(end_of(f)))),
        !n0.contains(joint(c)),
    ensures
        key_uniform(edges_split(e0, f, c, e0[(joint(start_of(f)), joint(end_of(f)))])),
{
    let kf = e0[(joint(start_of(f)), joint(end_of(f)))];
    assert(joint(c) != joint(start_of(f)) && joint(c) != joint(end_of(f))) by {
        reveal(graph_ok);
        lemma_sym(e0, n0, joint(start_of(f)), joint(end_of(f)));
    }
    assert(all_keyed(e0, joint(c), kf)) by {
        reveal(all_keyed);
        reveal(graph_ok);
        assert forall|b: MeshNode| #[trigger] e0.contains_key((joint(c), b)) implies e0[(joint(c), b)] == kf by {
            assert(n0.contains(joint(c)));
        }
    }
    lemma_split_uniform(e0, n0, f, c);
}

/// A point inside a wire is no node of a set whose joints lie outside the wires.
proof fn lemma_outside_node(n: Set<MeshNode>, l: Lines, c: Coord, d: bool)
    requires
        joints_outside(n, l),
        inside_wire(l, c, d),
    ensures
        !n.contains(joint(c)),
{
    reveal(joints_outside);
}

/// Whether the wires of the line of `g` that overlap `g` lie within it.
pub open spec fn within(l: Lines, g: (Axis, Axis, Axis, bool)) -> bool {
    let line = line_of(dir_lines(l, g.3), on_line(g).2);
    forall|k: Axis| #[trigger] line.contains_key(k) && overlaps(k as int, line[k] as int, on_line(g).0 as int, on_line(g).1 as int)
        ==> on_line(g).0 <= k && k + line[k] <= on_line(g).0 + on_line(g).1
}

/// Whether every node on `g`, ends included, has all its edges of key `k`.
pub open spec fn span_keyed(e: Map<MeshEdge, ValueKey>, g: (Axis, Axis, Axis, bool), k: ValueKey) -> bool {
    forall|j: int| 0 <= j <= g.2 && #[trigger] has_edge(e, joint(point_at(g, j)))
        ==> all_keyed(e, joint(point_at(g, j)), k)
}

/// Whether no joint lies strictly inside a wire, but for the points of `pend` inside wires
/// of the direction of `g`.
pub open spec fn outside_but(n: Set<MeshNode>, l: Lines, g: (Axis, Axis, Axis, bool), pend: Set<Coord>) -> bool {
    forall|x: Coord, d: bool| n.contains(joint(x)) && !(d == g.3 && pend.contains(x)) ==> !#[trigger] inside_wire(l, x, d)
}

/// A point strictly inside `g` is the point of `g` at its offset.
proof fn lemma_inside_point(g: (Axis, Axis, Axis, bool), x: Coord)
    requires
        wire_valid(g.0, g.1, g.2, g.3),
        inside_of(g, x, g.3),
    ensures
        x == point_at(g, main_of(x, g.3) - on_line(g).0),
        0 < main_of(x, g.3) - on_line(g).0 < g.2,
{
}

/// The ends of the merged wire lie strictly inside no wire of its line.
proof fn lemma_merge_ends_free(line: Map<Axis, Axis>, f: (Axis, Axis, Axis, bool), ws: Seq<(Axis, Axis, Axis, bool)>)
    requires
        disjoint_segments(line),
        wire_valid(f.0, f.1, f.2, f.3),
        overlap_list(line, on_line(f).0, on_line(f).1, ws),
        merged_wire_spec(f, ws) is Some,
    ensures
        ({
            let g = merged_wire_spec(f, ws)->0;
            &&& forall|k: Axis| #[trigger] line.contains_key(k) ==> !(k < on_line(g).0 < k + line[k])
            &&& forall|k: Axis| #[trigger] line.contains_key(k) ==> !(k < on_line(g).0 + on_line(g).1 < k + line[k])
        }),
{
    let (s, lw, cross, h) = on_line(f);
    lemma_overlap_list(line, s, lw, ws);
    let g = merged_wire_spec(f, ws)->0;
    let (lg, len_g, cg, hg) = on_line(g);
    assert forall|k: Axis| #[trigger] line.contains_key(k) implies !(k < lg < k + line[k]) by {
        if k < lg < k + line[k] {
            if overlaps(k as int, line[k] as int, s as int, lw as int) {
                assert(wire_starts(ws).contains(k));
                let i = choose|i: int| 0 <= i < ws.len() && #[trigger] on_line(ws[i]).0 == k;
                if i > 0 {
                    assert(line_end(ws[0]) <= line_start(ws[i]));
                }
            } else {
                let w0 = ws[0];
                assert(line.contains_key(on_line(w0).0));
            }
        }
    }
    assert forall|k: Axis| #[trigger] line.contains_key(k) implies !(k < lg + len_g < k + line[k]) by {
        if k < lg + len_g < k + line[k] {
            let n = ws.len() - 1;
            if overlaps(k as int, line[k] as int, s as int, lw as int) {
                assert(wire_starts(ws).contains(k));
                let i = choose|i: int| 0 <= i < ws.len() && #[trigger] on_line(ws[i]).0 == k;
                if i < n {
                    assert(line_end(ws[i]) <= line_start(ws[n]));
                }
            } else {
                let wl = ws[n];
                assert(line.contains_key(on_line(wl).0));
            }
        }
    }
}

/// The start of a wire of the line of `g` that lies within `g` is a point of `g`.
proof fn lemma_start_on_span(g: (Axis, Axis, Axis, bool), f: (Axis, Axis, Axis, bool))
    requires
        wire_valid(g.0, g.1, g.2, g.3),
        wire_valid(f.0, f.1, f.2, f.3),
        f.3 == g.3,
        on_line(f).2 == on_line(g).2,
        on_line(g).0 <= on_line(f).0,
        on_line(f).0 + on_line(f).1 <= on_line(g).0 + on_line(g).1,
    ensures
        start_of(f) == point_at(g, on_line(f).0 - on_line(g).0),
        0 <= on_line(f).0 - on_line(g).0 <= g.2,
{
}

/// Splitting, at a node `x` of `g`, the wire of the line of `g` that holds `x` inside, keeps
/// the edges at each node of one key, the nodes on `g` of key `k`, and the wires
/// overlapping `g` within it.
proof fn lemma_kept_split(
    e: Map<MeshEdge, ValueKey>,
    n: Set<MeshNode>,
    l: Lines,
    l1: Lines,
    g: (Axis, Axis, Axis, bool),
    k: ValueKey,
    j: int,
    f: (Axis, Axis, Axis, bool),
)
    requires
        graph_ok(e, n),
        key_uniform(e),
        span_keyed(e, g, k),
        within(l, g),
        lines_ok(dir_lines(l, g.3)),
        wire_valid(g.0, g.1, g.2, g.3),
        0 <= j <= g.2,
        n.contains(joint(point_at(g, j))),
        f.3 == g.3,
        split_at(dir_lines(l, g.3), dir_lines(l1, g.3), cross_of(point_at(g, j), g.3), main_of(point_at(g, j), g.3), g.3, f),
        dir_lines(l1, !g.3) == dir_lines(l, !g.3),
        e.contains_key((joint(start_of(f)), joint(end_of(f)))),
    ensures
        e[(joint(start_of(f)), joint(end_of(f)))] == k,
        key_uniform(edges_split(e, f, point_at(g, j), k)),
        span_keyed(edges_split(e, f, point_at(g, j), k), g, k),
        within(l1, g),
{
    let x = point_at(g, j);
    let h = g.3;
    let (sg, lg, cross, hg) = on_line(g);
    let (sf, lf, cf, hf) = on_line(f);
    let main = main_of(x, h);
    let line = line_of(dir_lines(l, h), cross);
    assert(cross_of(x, h) == cross && main == sg + j);
    assert(line.contains_key(sf) && line[sf] == lf && sf < main < sf + lf);
    assert(overlaps(sf as int, lf as int, sg as int, lg as int));
    assert(sg <= sf && sf + lf <= sg + lg);
    assert(dir_lines(l, h).contains_key(cross));
    assert(disjoint_segments(line));
    assert(wire_valid(f.0, f.1, f.2, f.3));
    lemma_start_on_span(g, f);
    let js = joint(start_of(f));
    let je = joint(end_of(f));
    let jx = joint(x);
    let t = sf - sg;
    assert(has_edge(e, joint(point_at(g, t))));
    assert(all_keyed(e, js, k));
    assert(e[(js, je)] == k) by {
        reveal(all_keyed);
    }
    assert(has_edge(e, jx)) by {
        reveal(graph_ok);
    }
    assert(all_keyed(e, jx, k));
    lemma_split_lines(l, l1, f, x);
    let f1 = off_line((sf, (main - sf) as Axis), cross, h);
    let f2 = off_line((main, (sf + lf - main) as Axis), cross, h);
    lemma_fields_endpoints(f1);
    lemma_fields_endpoints(f2);
    lemma_joint_injective(x, start_of(f));
    lemma_joint_injective(x, end_of(f));
    lemma_split_uniform(e, n, f, x);
    let e1 = edges_split(e, f, x, k);
    assert forall|i: int| 0 <= i <= g.2 && #[trigger] has_edge(e1, joint(point_at(g, i)))
        implies all_keyed(e1, joint(point_at(g, i)), k) by {
        let y = joint(point_at(g, i));
        if y != jx {
            if y == js {
                assert(e.contains_key((js, je)));
                assert(has_edge(e, y));
            } else if y == je {
                lemma_sym(e, n, js, je);
                assert(e.contains_key((je, js)));
                assert(has_edge(e, y));
            } else {
                let b = choose|b: MeshNode| #[trigger] e1.contains_key((y, b));
                assert(e.contains_key((y, b)));
            }
            assert(has_edge(e, joint(point_at(g, i))));
            assert(all_keyed(e, y, k));
        }
    }
    let line1 = line_of(dir_lines(l1, h), cross);
    assert(line1 == line.insert(sf, (main - sf) as u32).insert(main, (sf + lf - main) as u32));
    assert forall|kk: Axis| #[trigger] line1.contains_key(kk) && overlaps(kk as int, line1[kk] as int, sg as int, lg as int)
        implies sg <= kk && kk + line1[kk] <= sg + lg by {
        if kk != sf && kk != main {
            assert(line.contains_key(kk) && line[kk] == line1[kk]);
        }
    }
    assert(within(l1, g)) by {
        assert(line_of(dir_lines(l1, g.3), on_line(g).2) == line1);
    }
}

/// Once the merged wire `g` is added with key `k` to a set whose meshes are sound, the
/// edges at each node keep one key, the nodes on `g` are of key `k`, the wires
/// overlapping `g` lie within it, and the joints inside wires are among `kept`.
proof fn lemma_add_init(
    ea: Map<MeshEdge, ValueKey>,
    na: Set<MeshNode>,
    ef: Map<MeshEdge, ValueKey>,
    nb: Set<MeshNode>,
    lb: Lines,
    g: (Axis, Axis, Axis, bool),
    k: ValueKey,
    points: Seq<Coord>,
    kept: Seq<Coord>,
)
    requires
        graph_ok(ea, na),
        graph_ok(ef, nb),
        nb.subset_of(na),
        key_uniform(ef),
        wire_valid(g.0, g.1, g.2, g.3),
        forall|i: int| 0 <= i < kept.len() ==> all_keyed(ef, joint(#[trigger] kept[i]), k),
        forall|j: int| 0 <= j <= g.2 && #[trigger] has_edge(ea, joint(point_at(g, j))) ==> points.contains(point_at(g, j)),
        forall|c: Coord| #[trigger] points.contains(c) && nb.contains(joint(c)) ==> kept.contains(c),
        joints_outside(nb, lb),
        lines_ok(dir_lines(lb, g.3)),
        fits_in(line_of(dir_lines(lb, g.3), on_line(g).2), on_line(g).0, on_line(g).1),
        !inside_wire(lb, start_of(g), !g.3),
        !inside_wire(lb, end_of(g), !g.3),
    ensures
        ({
            let ec = edges_with(ef, joint(start_of(g)), joint(end_of(g)), k);
            let nc = nb.insert(joint(start_of(g))).insert(joint(end_of(g)));
            let lc = lines_with_wire(lb, g);
            &&& key_uniform(ec)
            &&& span_keyed(ec, g, k)
            &&& within(lc, g)
            &&& outside_but(nc, lc, g, kept.to_set())
        }),
{
    let h = g.3;
    let (sg, lg, cross, hg) = on_line(g);
    let p = start_of(g);
    let q = end_of(g);
    let jp = joint(p);
    let jq = joint(q);
    lemma_fields_endpoints(g);
    assert(p == point_at(g, 0) && q == point_at(g, g.2 as int));
    assert forall|j: int| 0 <= j <= g.2 && #[trigger] nb.contains(joint(point_at(g, j)))
        implies all_keyed(ef, joint(point_at(g, j)), k) by {
        let y = joint(point_at(g, j));
        assert(na.contains(y));
        assert(has_edge(ea, y)) by {
            reveal(graph_ok);
        }
        assert(points.contains(point_at(g, j)));
        assert(kept.contains(point_at(g, j)));
        let i = choose|i: int| 0 <= i < kept.len() && kept[i] == point_at(g, j);
        assert(all_keyed(ef, joint(kept[i]), k));
    }
    assert forall|j: int| 0 <= j <= g.2 && !nb.contains(joint(point_at(g, j)))
        implies all_keyed(ef, joint(point_at(g, j)), k) by {
        let y = joint(point_at(g, j));
        assert(!has_edge(ef, y)) by {
            reveal(graph_ok);
        }
        lemma_no_edge_keyed(ef, y, k);
    }
    assert(all_keyed(ef, jp, k)) by {
        if nb.contains(joint(point_at(g, 0))) {
        } else {
        }
    }
    assert(all_keyed(ef, jq, k)) by {
        if nb.contains(joint(point_at(g, g.2 as int))) {
        } else {
        }
    }
    lemma_add_uniform(ef, jp, jq, k);
    let ec = edges_with(ef, jp, jq, k);
    assert forall|j: int| 0 <= j <= g.2 && #[trigger] has_edge(ec, joint(point_at(g, j)))
        implies all_keyed(ec, joint(point_at(g, j)), k) by {
        let y = joint(point_at(g, j));
        if y != jp && y != jq {
            let b = choose|b: MeshNode| #[trigger] ec.contains_key((y, b));
            assert(ef.contains_key((y, b)));
            assert(nb.contains(y)) by {
                reveal(graph_ok);
            }
            assert(all_keyed(ef, y, k));
        }
    }
    let lc = lines_with_wire(lb, g);
    let line_b = line_of(dir_lines(lb, h), cross);
    assert(!line_b.contains_key(sg)) by {
        if line_b.contains_key(sg) {
            assert(dir_lines(lb, h).contains_key(cross));
            assert(line_b[sg] > 0);
            assert(!overlaps(sg as int, line_b[sg] as int, sg as int, lg as int));
        }
    }
    let line_c = line_b.insert(sg, lg);
    assert(line_of(dir_lines(lc, h), cross) == line_c);
    assert(within(lc, g)) by {
        assert forall|kk: Axis| #[trigger] line_c.contains_key(kk) && overlaps(kk as int, line_c[kk] as int, sg as int, lg as int)
            implies sg <= kk && kk + line_c[kk] <= sg + lg by {
            if kk != sg {
                assert(line_b.contains_key(kk));
            }
        }
    }
    let nc = nb.insert(jp).insert(jq);
    reveal(joints_outside);
    assert forall|x: Coord, d: bool| nc.contains(joint(x)) && !(d == h && kept.to_set().contains(x))
        implies !#[trigger] inside_wire(lc, x, d) by {
        lemma_joint_injective(x, p);
        lemma_joint_injective(x, q);
        if d != h {
            assert(dir_lines(lc, d) == dir_lines(lb, d));
            assert(inside_wire(lc, x, d) == inside_wire(lb, x, d));
            if x != p && x != q {
                assert(nb.contains(joint(x)));
            }
        } else if inside_wire(lc, x, d) {
            let lx = line_of(dir_lines(lc, d), cross_of(x, d));
            let kk = choose|kk: Axis| #[trigger] lx.contains_key(kk) && kk < main_of(x, d) < kk + lx[kk];
            if cross_of(x, d) == cross && kk == sg {
                assert(inside_of(g, x, h));
                lemma_inside_point(g, x);
                let t = main_of(x, h) - sg;
                assert(x != p && x != q);
                assert(nb.contains(joint(x)));
                assert(nb.contains(joint(point_at(g, t))));
                assert(na.contains(joint(x)));
                assert(has_edge(ea, joint(point_at(g, t)))) by {
                    reveal(graph_ok);
                }
                assert(points.contains(point_at(g, t)));
                assert(kept.contains(x));
                assert(kept.to_set().contains(x));
            } else {
                assert(line_of(dir_lines(lb, d), cross_of(x, d)).contains_key(kk)
                    && line_of(dir_lines(lb, d), cross_of(x, d))[kk] == lx[kk]);
                assert(inside_wire(lb, x, d));
                if x == p || x == q {
                    assert(cross_of(x, d) == cross);
                    assert(overlaps(kk as int, line_b[kk] as int, sg as int, lg as int));
                } else {
                    assert(nb.contains(joint(x)));
                }
            }
        }
    }
}

/// A split at `x` that leaves `x`, and every point inside no wire of the direction of
/// `g`, inside none, lets `x` leave the points excepted.
proof fn lemma_outside_step(n: Set<MeshNode>, l: Lines, l1: Lines, g: (Axis, Axis, Axis, bool), pend: Seq<Coord>, x: Coord)
    requires
        outside_but(n, l, g, pend.to_set()),
        pend.len() > 0,
        pend[0] == x,
        forall|y: Coord| !inside_wire(l, y, g.3) ==> !#[trigger] inside_wire(l1, y, g.3),
        !inside_wire(l1, x, g.3),
        dir_lines(l1, !g.3) == dir_lines(l, !g.3),
    ensures
        outside_but(n, l1, g, pend.subrange(1, pend.len() as int).to_set()),
{
    let rest = pend.subrange(1, pend.len() as int);
    assert forall|y: Coord, d: bool| n.contains(joint(y)) && !(d == g.3 && rest.to_set().contains(y))
        implies !#[trigger] inside_wire(l1, y, d) by {
        if d != g.3 {
            assert(inside_wire(l1, y, d) == inside_wire(l, y, d)) by {
                assert(dir_lines(l1, d) == dir_lines(l, d));
            }
        } else if y != x {
            assert(!pend.to_set().contains(y)) by {
                if pend.to_set().contains(y) {
                    let i = choose|i: int| 0 <= i < pend.len() && pend[i] == y;
                    assert(i != 0);
                    assert(rest[i - 1] == y);
                    assert(rest.to_set().contains(y));
                }
            }
            assert(!inside_wire(l, y, d));
        }
    }
}

/// With no point excepted, no joint lies inside a wire.
proof fn lemma_outside_done(n: Set<MeshNode>, l: Lines, g: (Axis, Axis, Axis, bool), pend: Seq<Coord>)
    requires
        outside_but(n, l, g, pend.to_set()),
        pend.len() == 0,
    ensures
        joints_outside(n, l),
{
    reveal(joints_outside);
    assert forall|c: Coord, h: bool| n.contains(joint(c)) implies !#[trigger] inside_wire(l, c, h) by {
        assert(!pend.to_set().contains(c));
    }
}

/// Whether `c` is a point of the wire `m`, ends included.
pub open spec fn on_span(m: (Axis, Axis, Axis, bool), c: Coord) -> bool {
    exists|j: int| 0 <= j <= m.2 && c == #[trigger] point_at(m, j)
}

impl WireSet {
    /// Splits the wires of the direction `hz` at the points of `kept`, which lie on the
    /// merged wire `g` just added with key `fill`.
    fn split_along(&mut self, kept: &Vec<Coord>, hz: bool, Ghost(g): Ghost<(Axis, Axis, Axis, bool)>,
        Ghost(fill): Ghost<ValueKey>, Ghost(u0): Ghost<bool>)
        requires
            old(self).wf(),
            g.3 == hz,
            wire_valid(g.0, g.1, g.2, g.3),
            forall|i2: int| 0 <= i2 < kept@.len() ==> old(self).nodes().contains(joint(#[trigger] kept@[i2])) && on_span(g, kept@[i2]),
            u0 ==> key_uniform(old(self).edges()),
            u0 ==> span_keyed(old(self).edges(), g, fill),
            u0 ==> within(old(self).lines(), g),
            u0 ==> outside_but(old(self).nodes(), old(self).lines(), g, kept@.to_set()),
            keyed_over(old(self).edges(), g, fill),
        ensures
            keyed_over(final(self).edges(), g, fill),
            final(self).wf(),
            same_cover(old(self).lines(), final(self).lines()),
            same_units(old(self).lines(), final(self).lines()),
            same_attachments(old(self).edges(), final(self).edges()),
            final(self).nodes() == old(self).nodes(),
            u0 ==> key_uniform(final(self).edges()),
            u0 ==> span_keyed(final(self).edges(), g, fill),
            u0 ==> joints_outside(final(self).nodes(), final(self).lines()),
    {
        let ghost lc = self.lines();
        let ghost nc = self.nodes();
        let ghost ec = self.edges();
        proof {
            assert(kept@.subrange(0, kept@.len() as int) =~= kept@);
        }
        let mut i: usize = 0;
        while i < kept.len()
            invariant
                self.wf(),
                i <= kept@.len(),
                same_cover(lc, self.lines()),
                same_units(lc, self.lines()),
                same_attachments(ec, self.edges()),
                keyed_over(self.edges(), g, fill),
                self.nodes() == nc,
                g.3 == hz,
                wire_valid(g.0, g.1, g.2, g.3),
                forall|i2: int| 0 <= i2 < kept@.len() ==> nc.contains(joint(#[trigger] kept@[i2])) && on_span(g, kept@[i2]),
                u0 ==> key_uniform(self.edges()),
                u0 ==> span_keyed(self.edges(), g, fill),
                u0 ==> within(self.lines(), g),
                u0 ==> outside_but(nc, self.lines(), g, kept@.subrange(i as int, kept@.len() as int).to_set()),
            decreases kept@.len() - i,
        {
            let ghost l1 = self.lines();
            let ghost e1 = self.edges();
            let x = kept[i];
            let r = self.split_wire_on_joint(x, hz);
            proof {
                assert forall|pt: Coord, d: bool| #[trigger] covered(lc, pt, d) == covered(self.lines(), pt, d) by {
                    assert(covered(lc, pt, d) == covered(l1, pt, d));
                    assert(covered(l1, pt, d) == covered(self.lines(), pt, d));
                }
                if let Some(fw) = r {
                    lemma_split_line_facts(l1, self.lines(), fw@, x);
                    lemma_split_edges(e1, fw@, x, e1[(joint(start_of(fw@)), joint(end_of(fw@)))]);
                    lemma_attach_trans(ec, e1, self.edges());
                    let j = choose|j: int| 0 <= j <= g.2 && x == #[trigger] point_at(g, j);
                    assert(cross_of(x, hz) == on_line(g).2 && main_of(x, hz) == on_line(g).0 + j);
                    lemma_keyed_split(e1, fw@, x, g, fill);
                }
                assert forall|h2: bool, cr: Axis, m: int| #[trigger] unit_covered(line_of(dir_lines(lc, h2), cr), m)
                    == unit_covered(line_of(dir_lines(self.lines(), h2), cr), m) by {
                    assert(unit_covered(line_of(dir_lines(lc, h2), cr), m) == unit_covered(line_of(dir_lines(l1, h2), cr), m));
                    if let Some(fw) = r {
                        if h2 != hz {
                            assert(dir_lines(self.lines(), h2) == dir_lines(l1, h2));
                        }
                    }
                }
                assert(nc.contains(joint(x)) && on_span(g, x));
                let pend = kept@.subrange(i as int, kept@.len() as int);
                assert(pend[0] == x);
                assert(pend.subrange(1, pend.len() as int) =~= kept@.subrange(i + 1, kept@.len() as int));
                if let Some(fw) = r {
                    assert(self.nodes() =~= nc);
                }
                if u0 {
                    let j = choose|j: int| 0 <= j <= g.2 && x == #[trigger] point_at(g, j);
                    if let Some(fw) = r {
                        lemma_kept_split(e1, nc, l1, self.lines(), g, fill, j, fw@);
                        lemma_split_line_facts(l1, self.lines(), fw@, x);
                    }
                    lemma_outside_step(nc, l1, self.lines(), g, pend, x);
                }
            }
            i = i + 1;
        }
        proof {
            if u0 {
                lemma_outside_done(nc, self.lines(), g, kept@.subrange(kept@.len() as int, kept@.len() as int));
            }
        }
    }
}

/// Every mesh carries one key: along any walk of a wire set whose meshes are sound,
/// every edge has the key of the first.
pub proof fn lemma_mesh_one_key(ws: &WireSet, p: Seq<MeshNode>)
    requires
        ws.wf(),
        ws.meshes_ok(),
        is_walk(ws.edges(), p),
        p.len() >= 2,
    ensures
        forall|i: int| 0 <= i < p.len() - 1 ==> #[trigger] ws.edges()[(p[i], p[i + 1])] == ws.edges()[(p[0], p[1])],
    decreases p.len(),
{
    let e = ws.edges();
    if p.len() > 2 {
        let q = p.drop_last();
        assert(is_walk(e, q)) by {
            assert forall|i: int| 0 <= i < q.len() - 1 implies #[trigger] e.contains_key((q[i], q[i + 1])) by {
                assert(e.contains_key((p[i], p[i + 1])));
            }
        }
        lemma_mesh_one_key(ws, q);
        let n = p.len() - 2;
        let m = n - 1;
        assert(e.contains_key((p[m], p[m + 1])));
        assert(m + 1 == n);
        assert(e.contains_key((p[n - 1], p[n])));
        assert(e.contains_key((p[n], p[n + 1])));
        assert(e[(p[n - 1], p[n])] == e[(p[0], p[1])]) by {
            assert(q[n - 1] == p[n - 1] && q[n] == p[n]);
        }
        lemma_sym(e, ws.nodes(), p[n - 1], p[n]);
        assert(e[(p[n], p[n - 1])] == e[(p[n - 1], p[n])]) by {
            reveal(graph_ok);
        }
        assert(e[(p[n], p[n + 1])] == e[(p[n], p[n - 1])]) by {
            reveal(key_uniform);
        }
        assert forall|i: int| 0 <= i < p.len() - 1 implies #[trigger] e[(p[i], p[i + 1])] == e[(p[0], p[1])] by {
            if i < n {
                assert(q[i] == p[i] && q[i + 1] == p[i + 1]);
                assert(e[(q[i], q[i + 1])] == e[(q[0], q[1])]);
            }
        }
    }
}

} // verus!
