//! The graph of packages, kept by `petgraph`, and what this library relies
//! on of it.

use vstd::prelude::*;

verus! {

#[verifier::external_type_specification]
#[verifier::external_body]
pub struct ExDirected(petgraph::Directed);

#[verifier::external_type_specification]
#[verifier::external_body]
#[verifier::reject_recursive_types(N)]
#[verifier::reject_recursive_types(E)]
#[verifier::reject_recursive_types(Ty)]
#[verifier::reject_recursive_types(Ix)]
pub struct ExGraph<N, E, Ty, Ix>(petgraph::graph::Graph<N, E, Ty, Ix>);

/// A directed graph whose nodes are known by their numbers alone.
pub type PackageDiGraph = petgraph::graph::Graph<(), u8, petgraph::Directed, u32>;

/// How many nodes the graph has; they are numbered from 0.
pub uninterp spec fn graph_size(g: petgraph::graph::Graph<(), u8, petgraph::Directed, u32>) -> nat;

/// The edges of the graph, each as source and target, in the order in
/// which they were added.
pub uninterp spec fn graph_edges(
    g: petgraph::graph::Graph<(), u8, petgraph::Directed, u32>,
) -> Seq<(usize, usize)>;

/// The most nodes, and the most edges, that a graph takes.
pub open spec fn graph_limit() -> nat {
    0xffff_ffff
}

/// The targets of the edges of `edges` that start at `a`, the edge that was
/// added last coming first.
pub open spec fn successors_of(edges: Seq<(usize, usize)>, a: usize) -> Seq<usize>
    decreases edges.len(),
{
    if edges.len() == 0 {
        Seq::empty()
    } else if edges.last().0 == a {
        seq![edges.last().1] + successors_of(edges.drop_last(), a)
    } else {
        successors_of(edges.drop_last(), a)
    }
}

/// Whether `order` holds each of the nodes `0..size` once, and the source
/// of each edge before its target.
pub open spec fn is_topological(order: Seq<usize>, size: nat, edges: Seq<(usize, usize)>) -> bool {
    &&& order.len() == size
    &&& forall|i: int| 0 <= i < order.len() ==> (#[trigger] order[i]) < size
    &&& forall|i: int, j: int|
        0 <= i < j < order.len() ==> #[trigger] order[i] != #[trigger] order[j]
    &&& forall|e: int, i: int, j: int|
        0 <= e < edges.len() && 0 <= i < order.len() && 0 <= j < order.len() && #[trigger] order[i]
            == (#[trigger] edges[e]).0 && #[trigger] order[j] == edges[e].1 ==> i < j
}

/// Whether `path` leads along edges of `edges` from a node back to that
/// node.
pub open spec fn is_cycle(path: Seq<usize>, edges: Seq<(usize, usize)>) -> bool {
    &&& path.len() >= 2
    &&& path.first() == path.last()
    &&& forall|k: int|
        0 <= k < path.len() - 1 ==> exists|e: int|
            0 <= e < edges.len() && #[trigger] edges[e] == (#[trigger] path[k], path[k + 1])
}

/// `Graph::new` of petgraph: a graph without nodes and edges.
#[verifier::external_body]
pub(crate) fn graph_new() -> (g: PackageDiGraph)
    ensures
        graph_size(g) == 0,
        graph_edges(g) == Seq::<(usize, usize)>::empty(),
{
    petgraph::graph::Graph::new()
}

/// `Graph::add_node` of petgraph: the new node gets the next number, which
/// is handed back; the edges stay. The call panics on a graph that is full,
/// which the contract leaves out.
#[verifier::external_body]
pub(crate) fn graph_add_node(g: &mut PackageDiGraph) -> (index: usize)
    requires
        graph_size(*old(g)) < graph_limit(),
    ensures
        index == graph_size(*old(g)),
        graph_size(*final(g)) == graph_size(*old(g)) + 1,
        graph_edges(*final(g)) == graph_edges(*old(g)),
{
    g.add_node(()).index()
}

/// `Graph::add_edge` of petgraph: the edge from `a` to `b` is added behind
/// the edges that are there; the nodes stay. The call panics where a node
/// is missing or the graph is full, which the contract leaves out.
#[verifier::external_body]
pub(crate) fn graph_add_edge(g: &mut PackageDiGraph, a: usize, b: usize)
    requires
        a < graph_size(*old(g)),
        b < graph_size(*old(g)),
        graph_edges(*old(g)).len() < graph_limit(),
    ensures
        graph_size(*final(g)) == graph_size(*old(g)),
        graph_edges(*final(g)) == graph_edges(*old(g)).push((a, b)),
{
    g.add_edge(petgraph::graph::NodeIndex::new(a), petgraph::graph::NodeIndex::new(b), 0);
}

/// `Graph::edges_directed` of petgraph, for the outgoing edges of `a`: the
/// targets of the edges from `a`, the edge that was added last first.
#[verifier::external_body]
pub(crate) fn graph_successors(g: &PackageDiGraph, a: usize) -> (targets: Vec<usize>)
    requires
        a < graph_size(*g),
    ensures
        targets@ == successors_of(graph_edges(*g), a),
{
    g.edges_directed(petgraph::graph::NodeIndex::new(a), petgraph::Direction::Outgoing).map(
        |e| petgraph::visit::EdgeRef::target(&e).index(),
    ).collect()
}

/// `toposort` of petgraph: on a graph without cycle, the nodes in an order
/// in which each stands before its successors; on a graph with a cycle, a
/// node of a cycle.
#[verifier::external_body]
pub(crate) fn graph_toposort(g: &PackageDiGraph) -> (r: Result<Vec<usize>, usize>)
    ensures
        match r {
            Ok(order) => is_topological(order@, graph_size(*g), graph_edges(*g)),
            Err(node) => exists|path: Seq<usize>|
                #[trigger] is_cycle(path, graph_edges(*g)) && path[0] == node,
        },
{
    match petgraph::algo::toposort(g, None) {
        Ok(order) => Ok(order.into_iter().map(|n| n.index()).collect()),
        Err(cycle) => Err(cycle.node_id().index()),
    }
}

/// Whether the node `n` stands in `order`.
pub open spec fn stands_in(order: Seq<usize>, n: usize) -> bool {
    exists|i: int| 0 <= i < order.len() && #[trigger] order[i] == n
}

/// An order of the nodes `0..size` without doubles holds each of them.
pub proof fn lemma_order_holds_all(order: Seq<usize>, size: nat)
    requires
        order.len() == size,
        size <= graph_limit(),
        forall|i: int| 0 <= i < order.len() ==> (#[trigger] order[i]) < size,
        forall|i: int, j: int|
            0 <= i < j < order.len() ==> #[trigger] order[i] != #[trigger] order[j],
    ensures
        forall|n: usize| n < size ==> #[trigger] stands_in(order, n),
{
    let values = order.to_set();
    let all = Set::<usize>::new(|n: usize| n < size);
    assert(order.no_duplicates());
    order.unique_seq_to_set();
    vstd::seq_lib::seq_to_set_is_finite(order);
    assert(values.len() == size);
    assert(values.subset_of(all)) by {
        assert forall|n: usize| values.contains(n) implies all.contains(n) by {
            let i = choose|i: int| 0 <= i < order.len() && order[i] == n;
        }
    }
    lemma_below_count(size);
    vstd::set_lib::lemma_subset_equality(values, all);
    assert forall|n: usize| n < size implies #[trigger] stands_in(order, n) by {
        assert(all.contains(n));
        assert(values.contains(n));
        let i = choose|i: int| 0 <= i < order.len() && order[i] == n;
        assert(order[i] == n);
    }
}

/// There are `size` numbers below `size`, as far as they fit the machine.
proof fn lemma_below_count(size: nat)
    ensures
        size <= usize::MAX + 1 ==> Set::<usize>::new(|n: usize| n < size).len() == size
            && Set::<usize>::new(|n: usize| n < size).finite(),
    decreases size,
{
    let all = Set::<usize>::new(|n: usize| n < size);
    if size == 0 {
        assert(all =~= Set::<usize>::empty());
    } else if size <= usize::MAX + 1 {
        lemma_below_count((size - 1) as nat);
        let fewer = Set::<usize>::new(|n: usize| n < size - 1);
        assert(all =~= fewer.insert((size - 1) as usize));
    }
}

/// Whether the edges `edges` run between packages `0..size`.
pub open spec fn edges_within(edges: Seq<(usize, usize)>, size: nat) -> bool {
    forall|e: int| 0 <= e < edges.len() ==> (#[trigger] edges[e]).0 < size && edges[e].1 < size
}

/// The successors of a node of a graph whose edges run between the nodes
/// `0..size` are among these nodes.
pub proof fn lemma_successors_within(edges: Seq<(usize, usize)>, a: usize, size: nat)
    requires
        edges_within(edges, size),
    ensures
        forall|t: int|
            0 <= t < successors_of(edges, a).len() ==> (#[trigger] successors_of(edges, a)[t])
                < size,
    decreases edges.len(),
{
    if edges.len() > 0 {
        let rest = edges.drop_last();
        assert(edges_within(rest, size)) by {
            assert forall|e: int| 0 <= e < rest.len() implies (#[trigger] rest[e]).0 < size
                && rest[e].1 < size by {
                assert(rest[e] == edges[e]);
            }
        }
        lemma_successors_within(rest, a, size);
        assert(edges[edges.len() - 1].1 < size);
        let all = successors_of(edges, a);
        assert forall|t: int| 0 <= t < all.len() implies (#[trigger] all[t]) < size by {
            if edges.last().0 == a {
                if t > 0 {
                    assert(all[t] == successors_of(rest, a)[t - 1]);
                }
            }
        }
    }
}

/// Each successor of a node is the target of an edge from that node, and
/// each such target is a successor.
pub proof fn lemma_successors_are_edges(edges: Seq<(usize, usize)>, a: usize)
    ensures
        forall|t: int|
            0 <= t < successors_of(edges, a).len() ==> exists|e: int|
                0 <= e < edges.len() && #[trigger] edges[e] == (
                    a,
                    #[trigger] successors_of(edges, a)[t],
                ),
        forall|e: int|
            0 <= e < edges.len() && (#[trigger] edges[e]).0 == a ==> exists|t: int|
                0 <= t < successors_of(edges, a).len() && #[trigger] successors_of(edges, a)[t]
                    == edges[e].1,
    decreases edges.len(),
{
    if edges.len() > 0 {
        let rest = edges.drop_last();
        let all = successors_of(edges, a);
        let fewer = successors_of(rest, a);
        let last = edges.len() - 1;
        lemma_successors_are_edges(rest, a);
        assert forall|t: int| 0 <= t < all.len() implies exists|e: int|
            0 <= e < edges.len() && #[trigger] edges[e] == (a, #[trigger] all[t]) by {
            if edges.last().0 == a {
                if t == 0 {
                    assert(edges[last] == (a, all[0]));
                } else {
                    assert(all[t] == fewer[t - 1]);
                    let e = choose|e: int|
                        0 <= e < rest.len() && #[trigger] rest[e] == (a, fewer[t - 1]);
                    assert(edges[e] == rest[e]);
                }
            } else {
                let e = choose|e: int| 0 <= e < rest.len() && #[trigger] rest[e] == (a, fewer[t]);
                assert(edges[e] == rest[e]);
            }
        }
        assert forall|e: int| 0 <= e < edges.len() && (#[trigger] edges[e]).0 == a implies exists|
            t: int,
        |
            0 <= t < all.len() && #[trigger] all[t] == edges[e].1 by {
            if e == last {
                assert(all[0] == edges[e].1);
            } else {
                assert(rest[e] == edges[e]);
                let t = choose|t: int| 0 <= t < fewer.len() && #[trigger] fewer[t] == rest[e].1;
                if edges.last().0 == a {
                    assert(all[t + 1] == fewer[t]);
                } else {
                    assert(all[t] == fewer[t]);
                }
            }
        }
    }
}

} // verus!
