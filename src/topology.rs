//! The directed graph that holds the topology: petgraph's `DiGraph`, reached
//! through a few trusted wrappers whose contracts speak of the node count and
//! of the sequence of edges in the order in which they were added.

use petgraph::graph::{DiGraph, Graph, NodeIndex};
use petgraph::{Directed, Direction};
use vstd::prelude::*;

verus! {

#[verifier::external_type_specification]
#[verifier::external_body]
#[verifier::reject_recursive_types(N)]
#[verifier::reject_recursive_types(E)]
#[verifier::reject_recursive_types(Ty)]
#[verifier::reject_recursive_types(Ix)]
pub struct ExGraph<N, E, Ty, Ix>(Graph<N, E, Ty, Ix>);

#[verifier::external_type_specification]
#[verifier::external_body]
pub struct ExDirected(Directed);

/// The number of nodes of a topology graph.
pub uninterp spec fn topology_node_count(g: DiGraph<(), ()>) -> nat;

/// The edges of a topology graph, as (source, target) node indices, in the
/// order in which they were added.
pub uninterp spec fn topology_edges(g: DiGraph<(), ()>) -> Seq<(nat, nat)>;

/// The largest node or edge count that petgraph's default index type allows.
pub const MAX_INDEX: usize = 0xffff_fffe;

/// The targets of the edges leaving `a`, the most recently added edge first.
pub open spec fn out_neighbors(edges: Seq<(nat, nat)>, a: nat) -> Seq<nat>
    decreases edges.len(),
{
    if edges.len() == 0 {
        Seq::empty()
    } else {
        let rest = out_neighbors(edges.drop_last(), a);
        if edges.last().0 == a {
            seq![edges.last().1] + rest
        } else {
            rest
        }
    }
}

/// The sources of the edges entering `a`, the most recently added edge first.
pub open spec fn in_neighbors(edges: Seq<(nat, nat)>, a: nat) -> Seq<nat>
    decreases edges.len(),
{
    if edges.len() == 0 {
        Seq::empty()
    } else {
        let rest = in_neighbors(edges.drop_last(), a);
        if edges.last().1 == a {
            seq![edges.last().0] + rest
        } else {
            rest
        }
    }
}

/// Relies on petgraph's `Graph::new`: a graph without nodes or edges.
#[verifier::external_body]
pub fn new_topology() -> (g: DiGraph<(), ()>)
    ensures
        topology_node_count(g) == 0,
        topology_edges(g) == Seq::<(nat, nat)>::empty(),
{
    DiGraph::new()
}

/// Relies on petgraph's `Graph::add_node`: the new node's index is the former
/// node count, and the edges stay as they were. It panics when the index
/// would reach the index type's end marker, which `requires` rules out.
#[verifier::external_body]
pub fn add_topology_node(g: &mut DiGraph<(), ()>) -> (r: usize)
    requires
        topology_node_count(*old(g)) < MAX_INDEX,
    ensures
        r == topology_node_count(*old(g)),
        topology_node_count(*final(g)) == topology_node_count(*old(g)) + 1,
        topology_edges(*final(g)) == topology_edges(*old(g)),
{
    g.add_node(()).index()
}

/// Relies on petgraph's `Graph::update_edge`: where an edge from `a` to `b`
/// exists, the graph keeps its edges and the index of that edge is returned;
/// otherwise the edge is added last and its index is the former edge count.
/// It panics on a missing node or at the index type's end marker, which
/// `requires` rules out.
#[verifier::external_body]
pub fn update_topology_edge(g: &mut DiGraph<(), ()>, a: usize, b: usize) -> (r: usize)
    requires
        a < topology_node_count(*old(g)),
        b < topology_node_count(*old(g)),
        topology_edges(*old(g)).len() < MAX_INDEX,
    ensures
        topology_node_count(*final(g)) == topology_node_count(*old(g)),
        topology_edges(*old(g)).contains((a as nat, b as nat)) ==> {
            &&& topology_edges(*final(g)) == topology_edges(*old(g))
            &&& r < topology_edges(*old(g)).len()
            &&& topology_edges(*old(g))[r as int] == (a as nat, b as nat)
        },
        !topology_edges(*old(g)).contains((a as nat, b as nat)) ==> {
            &&& topology_edges(*final(g)) == topology_edges(*old(g)).push((a as nat, b as nat))
            &&& r == topology_edges(*old(g)).len()
        },
{
    g.update_edge(NodeIndex::new(a), NodeIndex::new(b), ()).index()
}

/// Relies on petgraph's `Graph::neighbors_directed`: in a directed graph the
/// neighbours in the given direction, listed in reverse order of the addition
/// of their edges.
#[verifier::external_body]
pub fn topology_neighbors(g: &DiGraph<(), ()>, a: usize, outgoing: bool) -> (r: Vec<usize>)
    requires
        a < topology_node_count(*g),
    ensures
        r@.map_values(|i: usize| i as nat) == if outgoing {
            out_neighbors(topology_edges(*g), a as nat)
        } else {
            in_neighbors(topology_edges(*g), a as nat)
        },
{
    let dir = if outgoing { Direction::Outgoing } else { Direction::Incoming };
    g.neighbors_directed(NodeIndex::new(a), dir).map(|n| n.index()).collect()
}

/// Every neighbour is the other end of an edge.
pub proof fn lemma_neighbors_are_ends(edges: Seq<(nat, nat)>, a: nat)
    ensures
        forall|k: int|
            0 <= k < out_neighbors(edges, a).len() ==> edges.contains(
                (a, #[trigger] out_neighbors(edges, a)[k]),
            ),
        forall|k: int|
            0 <= k < in_neighbors(edges, a).len() ==> edges.contains(
                (#[trigger] in_neighbors(edges, a)[k], a),
            ),
    decreases edges.len(),
{
    if edges.len() > 0 {
        let rest = edges.drop_last();
        lemma_neighbors_are_ends(rest, a);
        assert forall|k: int| 0 <= k < out_neighbors(edges, a).len() implies edges.contains(
            (a, #[trigger] out_neighbors(edges, a)[k]),
        ) by {
            if edges.last().0 == a && k == 0 {
                assert(edges[edges.len() - 1] == edges.last());
            } else {
                let kk = if edges.last().0 == a { k - 1 } else { k };
                assert(out_neighbors(edges, a)[k] == out_neighbors(rest, a)[kk]);
                let j = choose|j: int| 0 <= j < rest.len() && rest[j] == (a, out_neighbors(rest, a)[kk]);
                assert(edges[j] == rest[j]);
            }
        }
        assert forall|k: int| 0 <= k < in_neighbors(edges, a).len() implies edges.contains(
            (#[trigger] in_neighbors(edges, a)[k], a),
        ) by {
            if edges.last().1 == a && k == 0 {
                assert(edges[edges.len() - 1] == edges.last());
            } else {
                let kk = if edges.last().1 == a { k - 1 } else { k };
                assert(in_neighbors(edges, a)[k] == in_neighbors(rest, a)[kk]);
                let j = choose|j: int| 0 <= j < rest.len() && rest[j] == (in_neighbors(rest, a)[kk], a);
                assert(edges[j] == rest[j]);
            }
        }
    }
}

/// Every edge shows up among the predecessors of its target.
pub proof fn lemma_source_is_predecessor(edges: Seq<(nat, nat)>, a: nat, b: nat)
    requires
        edges.contains((a, b)),
    ensures
        in_neighbors(edges, b).contains(a),
    decreases edges.len(),
{
    let rest = edges.drop_last();
    if edges.last() == (a, b) {
        assert(in_neighbors(edges, b)[0] == a);
    } else {
        let j = choose|j: int| 0 <= j < edges.len() && edges[j] == (a, b);
        assert(rest[j] == (a, b));
        lemma_source_is_predecessor(rest, a, b);
        let k = choose|k: int| 0 <= k < in_neighbors(rest, b).len() && in_neighbors(rest, b)[k] == a;
        if edges.last().1 == b {
            assert(in_neighbors(edges, b)[k + 1] == a);
        } else {
            assert(in_neighbors(edges, b)[k] == a);
        }
    }
}

} // verus!
