//! The dependency graphs and the disjoint-set forest come from petgraph.
//! Their contents are named here, and each method the logic calls is
//! wrapped with a contract over those names.
use vstd::prelude::*;
use petgraph::graph::{DiGraph, NodeIndex};
use petgraph::unionfind::UnionFind;

verus! {

#[verifier::external_type_specification]
#[verifier::external_body]
#[verifier::reject_recursive_types(N)]
#[verifier::reject_recursive_types(E)]
#[verifier::reject_recursive_types(Ty)]
#[verifier::reject_recursive_types(Ix)]
pub struct ExGraph<N, E, Ty, Ix>(petgraph::graph::Graph<N, E, Ty, Ix>);

#[verifier::external_type_specification]
#[verifier::external_body]
pub struct ExDirected(petgraph::Directed);

#[verifier::external_type_specification]
#[verifier::external_body]
#[verifier::reject_recursive_types(K)]
pub struct ExUnionFind<K>(UnionFind<K>);

/// The node weights of a graph, by node index.
pub uninterp spec fn graph_nodes(g: DiGraph<usize, (), usize>) -> Seq<usize>;

/// The edges `(source, target)` of a graph, by edge index.
pub uninterp spec fn graph_edges(g: DiGraph<usize, (), usize>) -> Seq<(usize, usize)>;

/// For each element of a disjoint-set forest, the representative of its set.
pub uninterp spec fn uf_reps(uf: UnionFind<usize>) -> Seq<usize>;

/// `p` follows edges of `edges` from its first node to its last.
pub open spec fn is_walk(edges: Seq<(usize, usize)>, p: Seq<usize>) -> bool {
    forall|k: int| 0 <= k < p.len() - 1 ==> #[trigger] edges.contains((p[k], p[k + 1]))
}

/// Some walk of at least one edge comes back to where it started.
pub open spec fn has_cycle(edges: Seq<(usize, usize)>) -> bool {
    exists|p: Seq<usize>| #[trigger] is_walk(edges, p) && p.len() >= 2 && p[0] == p[p.len() - 1]
}

/// `order` lists each of the nodes `0..n` once, each before all of its successors.
pub open spec fn is_topo_order(n: nat, edges: Seq<(usize, usize)>, order: Seq<usize>) -> bool {
    &&& order.len() == n
    &&& forall|i: int| 0 <= i < n ==> #[trigger] order[i] < n
    &&& forall|i: int, j: int| 0 <= i < j < n ==> order[i] != order[j]
    &&& forall|i: int, j: int|
        0 <= i < n && 0 <= j < n && #[trigger] edges.contains((order[i], order[j])) ==> i < j
}

/// The indices of the edges leaving `a`, in order of addition.
pub open spec fn out_edge_ids(edges: Seq<(usize, usize)>, a: usize) -> Seq<int>
    decreases edges.len(),
{
    if edges.len() == 0 {
        Seq::empty()
    } else {
        let r = out_edge_ids(edges.drop_last(), a);
        if edges.last().0 == a {
            r.push(edges.len() - 1)
        } else {
            r
        }
    }
}

/// The edges leaving `a`: each listed once, in increasing index order.
pub proof fn lemma_out_edge_ids(edges: Seq<(usize, usize)>, a: usize)
    ensures
        forall|i: int|
            0 <= i < out_edge_ids(edges, a).len() ==> 0 <= #[trigger] out_edge_ids(edges, a)[i]
                < edges.len() && edges[out_edge_ids(edges, a)[i]].0 == a,
        forall|i: int, j: int|
            0 <= i < j < out_edge_ids(edges, a).len() ==> #[trigger] out_edge_ids(edges, a)[i]
                < #[trigger] out_edge_ids(edges, a)[j],
        forall|e: int|
            0 <= e < edges.len() && #[trigger] edges[e].0 == a ==> exists|i: int|
                0 <= i < out_edge_ids(edges, a).len() && out_edge_ids(edges, a)[i] == e,
    decreases edges.len(),
{
    if edges.len() > 0 {
        let init = edges.drop_last();
        lemma_out_edge_ids(init, a);
        let r = out_edge_ids(init, a);
        let ids = out_edge_ids(edges, a);
        assert forall|i: int| 0 <= i < ids.len() implies 0 <= #[trigger] ids[i] < edges.len()
            && edges[ids[i]].0 == a by {
            if i < r.len() {
                assert(ids[i] == r[i]);
                assert(edges[r[i]] == init[r[i]]);
            }
        }
        assert forall|e: int| 0 <= e < edges.len() && #[trigger] edges[e].0 == a implies exists|i: int|
            0 <= i < ids.len() && ids[i] == e by {
            if e < init.len() {
                assert(init[e].0 == a);
                let i = choose|i: int| 0 <= i < r.len() && r[i] == e;
                assert(ids[i] == r[i]);
            } else {
                assert(ids[ids.len() - 1] == e);
            }
        }
    }
}

/// `i` and `j` are in one set of the forest.
pub open spec fn uf_same(reps: Seq<usize>, i: int, j: int) -> bool {
    reps[i] == reps[j]
}

/// Relies on `Graph::default`: a directed graph with no nodes and no edges.
#[verifier::external_body]
pub(crate) fn graph_new() -> (g: DiGraph<usize, (), usize>)
    ensures
        graph_nodes(g) == Seq::<usize>::empty(),
        graph_edges(g) == Seq::<(usize, usize)>::empty(),
{
    DiGraph::default()
}

/// Relies on `Graph::add_node`: the new node's index is the former node
/// count (with `usize` indices there is no maximum to reach).
#[verifier::external_body]
pub(crate) fn graph_add_node(g: &mut DiGraph<usize, (), usize>, weight: usize) -> (r: usize)
    ensures
        r == graph_nodes(*old(g)).len(),
        graph_nodes(*final(g)) == graph_nodes(*old(g)).push(weight),
        graph_edges(*final(g)) == graph_edges(*old(g)),
{
    g.add_node(weight).index()
}

/// Relies on `Graph::add_edge`: appends the edge `a -> b`; it panics when a
/// node is missing.
#[verifier::external_body]
pub(crate) fn graph_add_edge(g: &mut DiGraph<usize, (), usize>, a: usize, b: usize)
    requires
        a < graph_nodes(*old(g)).len(),
        b < graph_nodes(*old(g)).len(),
    ensures
        graph_nodes(*final(g)) == graph_nodes(*old(g)),
        graph_edges(*final(g)) == graph_edges(*old(g)).push((a, b)),
{
    g.add_edge(NodeIndex::new(a), NodeIndex::new(b), ());
}

/// Relies on `Graph::neighbors_directed`: the nodes at the other end of the
/// edges leaving `a` (`outgoing`) or entering it; outgoing, one entry per
/// edge, the most recently added edge first.
#[verifier::external_body]
pub(crate) fn graph_neighbors(g: &DiGraph<usize, (), usize>, a: usize, outgoing: bool) -> (r: Vec<usize>)
    requires
        a < graph_nodes(*g).len(),
    ensures
        forall|w: usize|
            #![trigger r@.contains(w)]
            r@.contains(w) <==> if outgoing {
                graph_edges(*g).contains((a, w))
            } else {
                graph_edges(*g).contains((w, a))
            },
        outgoing ==> r@.len() == out_edge_ids(graph_edges(*g), a).len(),
        outgoing ==> forall|i: int|
            0 <= i < r@.len() ==> #[trigger] r@[i] == graph_edges(*g)[out_edge_ids(graph_edges(*g), a)[r@.len()
                - 1 - i]].1,
{
    let dir = if outgoing {
        petgraph::Direction::Outgoing
    } else {
        petgraph::Direction::Incoming
    };
    g.neighbors_directed(NodeIndex::new(a), dir).map(|n| n.index()).collect()
}

/// Relies on `petgraph::algo::is_cyclic_directed`: whether the graph has a
/// directed cycle, self-loops included.
#[verifier::external_body]
pub(crate) fn graph_is_cyclic(g: &DiGraph<usize, (), usize>) -> (r: bool)
    ensures
        r == has_cycle(graph_edges(*g)),
{
    petgraph::algo::is_cyclic_directed(g)
}

/// Relies on `petgraph::algo::toposort`: every node once, each before its
/// successors, or an error exactly when the graph has a cycle.
#[verifier::external_body]
pub(crate) fn graph_toposort(g: &DiGraph<usize, (), usize>) -> (r: Option<Vec<usize>>)
    ensures
        r is Some <==> !has_cycle(graph_edges(*g)),
        r matches Some(order) ==> is_topo_order(graph_nodes(*g).len(), graph_edges(*g), order@),
{
    match petgraph::algo::toposort(g, None) {
        Ok(order) => Some(order.into_iter().map(|n| n.index()).collect()),
        Err(_) => None,
    }
}

/// Relies on `UnionFind::new`: `n` singleton sets, each element its own representative.
#[verifier::external_body]
pub(crate) fn uf_new(n: usize) -> (r: UnionFind<usize>)
    ensures
        uf_reps(r) == Seq::new(n as nat, |i: int| i as usize),
{
    UnionFind::new(n)
}

/// Relies on `UnionFind::find`: the representative of `x`; it panics when `x`
/// is out of bounds.
#[verifier::external_body]
pub(crate) fn uf_find(uf: &UnionFind<usize>, x: usize) -> (r: usize)
    requires
        x < uf_reps(*uf).len(),
    ensures
        r == uf_reps(*uf)[x as int],
{
    uf.find(x)
}

/// Relies on `UnionFind::union`: the sets of `x` and `y` become one and no
/// other set changes; it panics when `x` or `y` is out of bounds.
#[verifier::external_body]
pub(crate) fn uf_union(uf: &mut UnionFind<usize>, x: usize, y: usize)
    requires
        x < uf_reps(*old(uf)).len(),
        y < uf_reps(*old(uf)).len(),
    ensures
        uf_reps(*final(uf)).len() == uf_reps(*old(uf)).len(),
        forall|i: int, j: int|
            0 <= i < uf_reps(*old(uf)).len() && 0 <= j < uf_reps(*old(uf)).len() ==> (
            #[trigger] uf_same(uf_reps(*final(uf)), i, j) <==> (uf_same(uf_reps(*old(uf)), i, j)
                || (uf_same(uf_reps(*old(uf)), i, x as int) && uf_same(
                uf_reps(*old(uf)),
                j,
                y as int,
            )) || (uf_same(uf_reps(*old(uf)), i, y as int) && uf_same(
                uf_reps(*old(uf)),
                j,
                x as int,
            )))),
{
    uf.union(x, y);
}

} // verus!
