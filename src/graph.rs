//! The component graph: the caller's components and connections, the
//! records read from them once, and the topology that joins them.

use crate::category::{ComponentCategory, InverterType};
use crate::config::ComponentGraphConfig;
use crate::error::{Error, ErrorKind};
use crate::text::{dec, push_dec, push_str};
use crate::topology::{
    add_topology_node, in_neighbors, new_topology, out_neighbors, topology_edges,
    topology_node_count, update_topology_edge, MAX_INDEX,
};
use crate::traits::{Edge, Node};
use petgraph::graph::DiGraph;
use std::collections::HashMap;
use vstd::prelude::*;

verus! {

broadcast use vstd::std_specs::hash::group_hash_axioms;

/// What the graph reads of a component: its id, its category and whether its
/// readings can be trusted.
#[derive(Clone, Copy, Debug, PartialEq, Eq, Structural)]
pub struct NodeInfo {
    pub component_id: u64,
    pub category: ComponentCategory,
    pub is_supported: bool,
}

/// A failure as a kind and the characters of its description.
pub type Failure = (ErrorKind, Seq<char>);

/// Whether the error is the failure `f`.
pub open spec fn is_failure(e: Error, f: Failure) -> bool {
    e.kind == f.0 && e.desc@ == f.1
}

/// A graph of the electrical components of a microgrid and the connections
/// between them.
pub struct ComponentGraph<N: Node, E: Edge> {
    pub(crate) topology: DiGraph<(), ()>,
    pub(crate) nodes: Vec<N>,
    pub(crate) infos: Vec<NodeInfo>,
    pub(crate) node_indices: HashMap<u64, usize>,
    pub(crate) connections: Vec<E>,
    /// For each edge of the topology, the position of the connection that
    /// gave it last.
    pub(crate) payloads: Vec<usize>,
    pub(crate) root_id: u64,
    pub(crate) root_index: usize,
    pub(crate) config: ComponentGraphConfig,
}

// ----- Plain checks on the records read from the caller's values -----

/// Whether some record carries the id.
pub open spec fn has_id(infos: Seq<NodeInfo>, id: u64) -> bool {
    exists|i: int| 0 <= i < infos.len() && infos[i].component_id == id
}

/// The position of the record that carries the id.
pub open spec fn position_of(infos: Seq<NodeInfo>, id: u64) -> nat {
    (choose|i: int| 0 <= i < infos.len() && infos[i].component_id == id) as nat
}

/// What is wrong with the record `c`, given the records before it, if anything.
pub open spec fn node_check(earlier: Seq<NodeInfo>, c: NodeInfo, allow_unspecified: bool) -> Option<
    Failure,
> {
    if c.category is Unspecified {
        Some(
            (
                ErrorKind::InvalidComponent,
                "ComponentCategory not specified for component: "@ + dec(c.component_id as nat),
            ),
        )
    } else if c.category == ComponentCategory::Inverter(InverterType::Unspecified)
        && !allow_unspecified {
        Some(
            (
                ErrorKind::InvalidComponent,
                "InverterType not specified for inverter: "@ + dec(c.component_id as nat),
            ),
        )
    } else if has_id(earlier, c.component_id) {
        Some(
            (ErrorKind::InvalidGraph, "Duplicate component ID found: "@ + dec(c.component_id as nat)),
        )
    } else {
        None
    }
}

/// The failure of the first record that has one.
pub open spec fn node_problem(infos: Seq<NodeInfo>, allow_unspecified: bool) -> Option<Failure>
    decreases infos.len(),
{
    if infos.len() == 0 {
        None
    } else {
        match node_problem(infos.drop_last(), allow_unspecified) {
            Some(f) => Some(f),
            None => node_check(infos.drop_last(), infos.last(), allow_unspecified),
        }
    }
}

/// The number of records of category Grid.
pub open spec fn grid_count(infos: Seq<NodeInfo>) -> nat
    decreases infos.len(),
{
    if infos.len() == 0 {
        0
    } else {
        grid_count(infos.drop_last()) + if infos.last().category is Grid {
            1nat
        } else {
            0nat
        }
    }
}

/// The failure in finding the single root, if any.
pub open spec fn root_problem(infos: Seq<NodeInfo>) -> Option<Failure> {
    if grid_count(infos) == 0 {
        Some((ErrorKind::InvalidGraph, "No grid component found."@))
    } else if grid_count(infos) > 1 {
        Some((ErrorKind::InvalidGraph, "Multiple grid components found."@))
    } else {
        None
    }
}

/// The opening of the messages about a connection: `Connection:(s, d) `.
pub open spec fn connection_prefix(p: (u64, u64)) -> Seq<char> {
    "Connection:("@ + dec(p.0 as nat) + ", "@ + dec(p.1 as nat) + ") "@
}

/// What is wrong with a connection, if anything.
pub open spec fn link_check(infos: Seq<NodeInfo>, p: (u64, u64)) -> Option<Failure> {
    if p.0 == p.1 {
        Some(
            (
                ErrorKind::InvalidConnection,
                connection_prefix(p) + "Can't connect a component to itself."@,
            ),
        )
    } else if !has_id(infos, p.0) {
        Some(
            (
                ErrorKind::InvalidConnection,
                connection_prefix(p) + "Can't find a component with ID "@ + dec(p.0 as nat),
            ),
        )
    } else if !has_id(infos, p.1) {
        Some(
            (
                ErrorKind::InvalidConnection,
                connection_prefix(p) + "Can't find a component with ID "@ + dec(p.1 as nat),
            ),
        )
    } else {
        None
    }
}

/// The failure of the first connection that has one.
pub open spec fn link_problem(infos: Seq<NodeInfo>, pairs: Seq<(u64, u64)>) -> Option<Failure>
    decreases pairs.len(),
{
    if pairs.len() == 0 {
        None
    } else {
        match link_problem(infos, pairs.drop_last()) {
            Some(f) => Some(f),
            None => link_check(infos, pairs.last()),
        }
    }
}

/// The failure of the records and connections themselves, before the
/// topology is validated.
pub open spec fn input_problem(
    infos: Seq<NodeInfo>,
    pairs: Seq<(u64, u64)>,
    config: ComponentGraphConfig,
) -> Option<Failure> {
    match node_problem(infos, config.allow_unspecified_inverters) {
        Some(f) => Some(f),
        None => match root_problem(infos) {
            Some(f) => Some(f),
            None => link_problem(infos, pairs),
        },
    }
}

/// A connection as a pair of node positions.
pub open spec fn link_of(infos: Seq<NodeInfo>, p: (u64, u64)) -> (nat, nat) {
    (position_of(infos, p.0), position_of(infos, p.1))
}

/// The edges that the connections give: repeated pairs collapse into the
/// first one.
pub open spec fn collapsed_links(infos: Seq<NodeInfo>, pairs: Seq<(u64, u64)>) -> Seq<(nat, nat)>
    decreases pairs.len(),
{
    if pairs.len() == 0 {
        Seq::empty()
    } else {
        let rest = collapsed_links(infos, pairs.drop_last());
        let e = link_of(infos, pairs.last());
        if rest.contains(e) {
            rest
        } else {
            rest.push(e)
        }
    }
}

// ----- The graph's model -----

impl<N: Node, E: Edge> ComponentGraph<N, E> {
    /// The records of the components, in the order in which they were given.
    pub open(crate) spec fn records(&self) -> Seq<NodeInfo> {
        self.infos@
    }

    /// The number of components.
    pub open(crate) spec fn count(&self) -> nat {
        self.infos@.len()
    }

    /// The caller's components, in the order in which they were given.
    pub open(crate) spec fn node_values(&self) -> Seq<N> {
        self.nodes@
    }

    /// The caller's connections, in the order in which they were given.
    pub open(crate) spec fn connection_values(&self) -> Seq<E> {
        self.connections@
    }

    /// For each edge, the position of the connection that gave it last.
    pub open(crate) spec fn edge_payloads(&self) -> Seq<usize> {
        self.payloads@
    }

    /// The edges as pairs of positions, in the order in which they were added.
    pub open(crate) spec fn links(&self) -> Seq<(nat, nat)> {
        topology_edges(self.topology)
    }

    /// The positions of the successors of the component at position `i`.
    pub open(crate) spec fn succ(&self, i: nat) -> Seq<nat> {
        out_neighbors(self.links(), i)
    }

    /// The positions of the predecessors of the component at position `i`.
    pub open(crate) spec fn pred(&self, i: nat) -> Seq<nat> {
        in_neighbors(self.links(), i)
    }

    /// The id of the component at position `i`.
    pub open(crate) spec fn id_at(&self, i: nat) -> u64 {
        self.infos@[i as int].component_id
    }

    /// The category of the component at position `i`.
    pub open(crate) spec fn category_at(&self, i: nat) -> ComponentCategory {
        self.infos@[i as int].category
    }

    /// Whether a component carries the id.
    pub open(crate) spec fn contains(&self, id: u64) -> bool {
        self.node_indices@.contains_key(id)
    }

    /// The position of the component with the id.
    pub open(crate) spec fn index_of(&self, id: u64) -> nat {
        self.node_indices@[id] as nat
    }

    /// The id of the root.
    pub open(crate) spec fn root(&self) -> u64 {
        self.root_id
    }

    /// The position of the root.
    pub open(crate) spec fn root_position(&self) -> nat {
        self.root_index as nat
    }

    /// The configuration that the graph was built with.
    pub open(crate) spec fn configuration(&self) -> ComponentGraphConfig {
        self.config
    }

    /// The structural invariant: the records, the id index and the topology
    /// agree, and every edge joins two different components.
    pub open(crate) spec fn wf(&self) -> bool {
        &&& self.nodes@.len() == self.infos@.len()
        &&& topology_node_count(self.topology) == self.infos@.len()
        &&& self.infos@.len() <= MAX_INDEX
        &&& forall|i: int|
            0 <= i < self.infos@.len() ==> #[trigger] self.node_indices@.contains_key(
                self.infos@[i].component_id,
            ) && self.node_indices@[self.infos@[i].component_id] == i
        &&& forall|id: u64| #[trigger]
            self.node_indices@.contains_key(id) ==> self.node_indices@[id] < self.infos@.len()
                && self.infos@[self.node_indices@[id] as int].component_id == id
        &&& self.links().len() == self.payloads@.len()
        &&& self.links().len() <= MAX_INDEX
        &&& self.links().no_duplicates()
        &&& forall|k: int|
            0 <= k < self.links().len() ==> (#[trigger] self.links()[k]).0 < self.infos@.len()
                && self.links()[k].1 < self.infos@.len() && self.links()[k].0
                != self.links()[k].1
        &&& forall|k: int|
            0 <= k < self.payloads@.len() ==> #[trigger] self.payloads@[k]
                < self.connections@.len()
        &&& self.root_index < self.infos@.len()
        &&& self.infos@[self.root_index as int].component_id == self.root_id
        &&& self.infos@[self.root_index as int].category is Grid
        &&& forall|j: int|
            0 <= j < self.infos@.len() && j != self.root_index ==> !(#[trigger] self.infos@[j].category is Grid)
    }
}

// ----- Facts about the plain checks -----

proof fn lemma_node_problem_step(infos: Seq<NodeInfo>, i: int, allow: bool)
    requires
        0 <= i < infos.len(),
    ensures
        node_problem(infos.take(i + 1), allow) == match node_problem(infos.take(i), allow) {
            Some(f) => Some(f),
            None => node_check(infos.take(i), infos[i], allow),
        },
{
    assert(infos.take(i + 1).drop_last() =~= infos.take(i));
}

/// A failure found in a prefix of the records is the failure of all of them.
proof fn lemma_node_problem_prefix(infos: Seq<NodeInfo>, k: int, allow: bool)
    requires
        0 <= k <= infos.len(),
        node_problem(infos.take(k), allow) is Some,
    ensures
        node_problem(infos, allow) == node_problem(infos.take(k), allow),
    decreases infos.len() - k,
{
    if k < infos.len() {
        lemma_node_problem_step(infos, k, allow);
        lemma_node_problem_prefix(infos, k + 1, allow);
    } else {
        assert(infos.take(k) =~= infos);
    }
}

/// A failure found in a prefix of the connections is the failure of all of them.
proof fn lemma_link_problem_prefix(infos: Seq<NodeInfo>, pairs: Seq<(u64, u64)>, k: int)
    requires
        0 <= k <= pairs.len(),
        link_problem(infos, pairs.take(k)) is Some,
    ensures
        link_problem(infos, pairs) == link_problem(infos, pairs.take(k)),
    decreases pairs.len() - k,
{
    if k < pairs.len() {
        lemma_link_problem_step(infos, pairs, k);
        lemma_link_problem_prefix(infos, pairs, k + 1);
    } else {
        assert(pairs.take(k) =~= pairs);
    }
}

proof fn lemma_grid_count_step(infos: Seq<NodeInfo>, i: int)
    requires
        0 <= i < infos.len(),
    ensures
        grid_count(infos.take(i + 1)) == grid_count(infos.take(i)) + if infos[i].category is Grid {
            1nat
        } else {
            0nat
        },
{
    assert(infos.take(i + 1).drop_last() =~= infos.take(i));
}

proof fn lemma_link_problem_step(infos: Seq<NodeInfo>, pairs: Seq<(u64, u64)>, k: int)
    requires
        0 <= k < pairs.len(),
    ensures
        link_problem(infos, pairs.take(k + 1)) == match link_problem(infos, pairs.take(k)) {
            Some(f) => Some(f),
            None => link_check(infos, pairs[k]),
        },
        collapsed_links(infos, pairs.take(k + 1)) == if collapsed_links(
            infos,
            pairs.take(k),
        ).contains(link_of(infos, pairs[k])) {
            collapsed_links(infos, pairs.take(k))
        } else {
            collapsed_links(infos, pairs.take(k)).push(link_of(infos, pairs[k]))
        },
{
    assert(pairs.take(k + 1).drop_last() =~= pairs.take(k));
}

/// Without a failing record, the ids are unique.
proof fn lemma_unique_ids(infos: Seq<NodeInfo>, allow: bool)
    requires
        node_problem(infos, allow) is None,
    ensures
        forall|i: int, j: int|
            0 <= i < j < infos.len() ==> infos[i].component_id != infos[j].component_id,
    decreases infos.len(),
{
    if infos.len() > 0 {
        let rest = infos.drop_last();
        lemma_unique_ids(rest, allow);
        assert forall|i: int, j: int| 0 <= i < j < infos.len() implies infos[i].component_id
            != infos[j].component_id by {
            if j == infos.len() - 1 {
                assert(rest[i] == infos[i]);
            } else {
                assert(rest[i] == infos[i] && rest[j] == infos[j]);
            }
        }
    }
}

/// Where ids are unique, the position of an id is the record that carries it.
proof fn lemma_position_of(infos: Seq<NodeInfo>, i: int)
    requires
        0 <= i < infos.len(),
        forall|a: int, b: int|
            0 <= a < b < infos.len() ==> infos[a].component_id != infos[b].component_id,
    ensures
        position_of(infos, infos[i].component_id) == i,
        has_id(infos, infos[i].component_id),
{
    let id = infos[i].component_id;
    assert(0 <= i < infos.len() && infos[i].component_id == id);
    let j = choose|j: int| 0 <= j < infos.len() && infos[j].component_id == id;
    if j != i {
        if j < i {
            assert(infos[j].component_id != infos[i].component_id);
        } else {
            assert(infos[i].component_id != infos[j].component_id);
        }
    }
}

// ----- Construction -----

fn push_connection_prefix(out: &mut String, p: (u64, u64))
    ensures
        final(out)@ == old(out)@ + connection_prefix(p),
{
    push_str(out, "Connection:(");
    push_dec(out, p.0);
    push_str(out, ", ");
    push_dec(out, p.1);
    push_str(out, ") ");
}

fn id_error(kind: ErrorKind, text: &str, id: u64) -> (r: Error)
    ensures
        r.kind == kind,
        r.desc@ == text@ + dec(id as nat),
{
    let mut s = String::new();
    push_str(&mut s, text);
    push_dec(&mut s, id);
    Error::new(kind, s)
}

impl<N: Node, E: Edge> ComponentGraph<N, E> {
    /// Reads the records of the components and builds the graph over them,
    /// stopping at the first failing record.
    fn add_components(infos: &Vec<NodeInfo>, config: &ComponentGraphConfig) -> (r: Result<
        (DiGraph<(), ()>, HashMap<u64, usize>),
        Error,
    >)
        requires
            infos.len() <= MAX_INDEX,
        ensures
            match node_problem(infos@, config.allow_unspecified_inverters) {
                Some(f) => r is Err && is_failure(r->Err_0, f),
                None => r is Ok,
            },
            r matches Ok((g, m)) ==> {
                &&& topology_node_count(g) == infos.len()
                &&& topology_edges(g) == Seq::<(nat, nat)>::empty()
                &&& forall|i: int|
                    0 <= i < infos.len() ==> #[trigger] m@.contains_key(infos@[i].component_id)
                        && m@[infos@[i].component_id] == i
                &&& forall|id: u64| #[trigger]
                    m@.contains_key(id) ==> m@[id] < infos.len() && infos@[m@[id] as int].component_id
                        == id
            },
    {
        let mut graph = new_topology();
        let mut indices: HashMap<u64, usize> = HashMap::new();
        let mut i: usize = 0;
        while i < infos.len()
            invariant
                i <= infos.len() <= MAX_INDEX,
                topology_node_count(graph) == i,
                topology_edges(graph) == Seq::<(nat, nat)>::empty(),
                node_problem(infos@.take(i as int), config.allow_unspecified_inverters) is None,
                forall|j: int|
                    0 <= j < i ==> #[trigger] indices@.contains_key(infos@[j].component_id)
                        && indices@[infos@[j].component_id] == j,
                forall|id: u64| #[trigger]
                    indices@.contains_key(id) ==> indices@[id] < i && infos@[indices@[id] as int].component_id
                        == id,
            decreases infos.len() - i,
        {
            let info = infos[i];
            let cid = info.component_id;
            proof {
                lemma_node_problem_step(infos@, i as int, config.allow_unspecified_inverters);
            }
            if info.category.is_unspecified() {
                proof {
                    lemma_node_problem_prefix(infos@, i + 1, config.allow_unspecified_inverters);
                }
                return Err(
                    id_error(
                        ErrorKind::InvalidComponent,
                        "ComponentCategory not specified for component: ",
                        cid,
                    ),
                );
            }
            if info.category.is_unspecified_inverter(config.allow_unspecified_inverters) {
                proof {
                    lemma_node_problem_prefix(infos@, i + 1, config.allow_unspecified_inverters);
                }
                return Err(
                    id_error(ErrorKind::InvalidComponent, "InverterType not specified for inverter: ", cid),
                );
            }
            if indices.contains_key(&cid) {
                proof {
                    let j = indices@[cid] as int;
                    assert(infos@.take(i as int)[j] == infos@[j]);
                    assert(has_id(infos@.take(i as int), cid));
                    lemma_node_problem_prefix(infos@, i + 1, config.allow_unspecified_inverters);
                }
                return Err(id_error(ErrorKind::InvalidGraph, "Duplicate component ID found: ", cid));
            }
            proof {
                assert forall|j: int| 0 <= j < i implies infos@[j].component_id != cid by {
                    assert(indices@.contains_key(infos@[j].component_id));
                }
                assert(!has_id(infos@.take(i as int), cid)) by {
                    if has_id(infos@.take(i as int), cid) {
                        let j = choose|j: int| 0 <= j < i && infos@.take(i as int)[j].component_id == cid;
                        assert(infos@.take(i as int)[j] == infos@[j]);
                    }
                }
            }
            let idx = add_topology_node(&mut graph);
            indices.insert(cid, idx);
            proof {
                assert forall|j: int| 0 <= j < i + 1 implies #[trigger] indices@.contains_key(
                    infos@[j].component_id,
                ) && indices@[infos@[j].component_id] == j by {
                    if j < i {
                        assert(infos@[j].component_id != cid);
                    }
                }
            }
            i = i + 1;
        }
        proof {
            assert(infos@.take(infos.len() as int) =~= infos@);
        }
        Ok((graph, indices))
    }
}


/// Whether connection `j` is the last of the first `k` connections to give
/// the edge `e`.
pub open spec fn last_giver(infos: Seq<NodeInfo>, pairs: Seq<(u64, u64)>, e: (nat, nat), j: int, k: int) -> bool {
    &&& 0 <= j < k
    &&& link_of(infos, pairs[j]) == e
    &&& forall|j2: int| j < j2 < k ==> link_of(infos, #[trigger] pairs[j2]) != e
}

proof fn lemma_grid_count_prefix(infos: Seq<NodeInfo>, k: int)
    requires
        0 <= k <= infos.len(),
    ensures
        grid_count(infos.take(k)) <= grid_count(infos),
    decreases infos.len() - k,
{
    if k < infos.len() {
        lemma_grid_count_step(infos, k);
        lemma_grid_count_prefix(infos, k + 1);
    } else {
        assert(infos.take(k) =~= infos);
    }
}

impl<N: Node, E: Edge> ComponentGraph<N, E> {
    /// Finds the single component of category Grid.
    fn find_root(infos: &Vec<NodeInfo>) -> (r: Result<usize, Error>)
        ensures
            match root_problem(infos@) {
                Some(f) => r is Err && is_failure(r->Err_0, f),
                None => r is Ok,
            },
            r matches Ok(i) ==> i < infos.len() && infos@[i as int].category is Grid && forall|j: int|
                0 <= j < infos.len() && j != i ==> !(#[trigger] infos@[j].category is Grid),
    {
        let mut found: Option<usize> = None;
        let mut i: usize = 0;
        while i < infos.len()
            invariant
                i <= infos.len(),
                grid_count(infos@.take(i as int)) == if found is Some {
                    1nat
                } else {
                    0nat
                },
                found matches Some(f) ==> f < i && infos@[f as int].category is Grid,
                forall|j: int|
                    0 <= j < i && (found matches Some(f) ==> j != f) ==> !(
                    #[trigger] infos@[j].category is Grid),
            decreases infos.len() - i,
        {
            proof {
                lemma_grid_count_step(infos@, i as int);
            }
            if infos[i].category.is_grid() {
                if found.is_some() {
                    proof {
                        lemma_grid_count_prefix(infos@, i + 1);
                    }
                    return Err(Error::invalid_graph("Multiple grid components found."));
                }
                found = Some(i);
            }
            i = i + 1;
        }
        proof {
            assert(infos@.take(infos.len() as int) =~= infos@);
        }
        match found {
            Some(f) => Ok(f),
            None => Err(Error::invalid_graph("No grid component found.")),
        }
    }

    /// Adds the edges of the connections to the topology, stopping at the
    /// first failing connection. Repeated pairs collapse into one edge, which
    /// keeps the position of the connection that gave it last.
    fn add_connections(
        graph: DiGraph<(), ()>,
        indices: &HashMap<u64, usize>,
        infos: &Vec<NodeInfo>,
        pairs: &Vec<(u64, u64)>,
        allow_unspecified: bool,
    ) -> (r: Result<(DiGraph<(), ()>, Vec<usize>), Error>)
        requires
            pairs.len() <= MAX_INDEX,
            node_problem(infos@, allow_unspecified) is None,
            topology_node_count(graph) == infos.len(),
            topology_edges(graph) == Seq::<(nat, nat)>::empty(),
            forall|i: int|
                0 <= i < infos.len() ==> #[trigger] indices@.contains_key(infos@[i].component_id)
                    && indices@[infos@[i].component_id] == i,
            forall|id: u64| #[trigger]
                indices@.contains_key(id) ==> indices@[id] < infos.len() && infos@[indices@[id] as int].component_id
                    == id,
        ensures
            match link_problem(infos@, pairs@) {
                Some(f) => r is Err && is_failure(r->Err_0, f),
                None => r is Ok,
            },
            r matches Ok((g, payloads)) ==> {
                &&& topology_node_count(g) == infos.len()
                &&& topology_edges(g) == collapsed_links(infos@, pairs@)
                &&& payloads.len() == topology_edges(g).len()
                &&& payloads.len() <= pairs.len()
                &&& topology_edges(g).no_duplicates()
                &&& forall|e: int|
                    0 <= e < topology_edges(g).len() ==> (#[trigger] topology_edges(g)[e]).0
                        < infos.len() && topology_edges(g)[e].1 < infos.len() && topology_edges(
                        g,
                    )[e].0 != topology_edges(g)[e].1
                &&& forall|e: int|
                    0 <= e < payloads.len() ==> last_giver(
                        infos@,
                        pairs@,
                        topology_edges(g)[e],
                        #[trigger] payloads@[e] as int,
                        pairs.len() as int,
                    )
            },
    {
        proof {
            lemma_unique_ids(infos@, allow_unspecified);
        }
        let mut graph = graph;
        let mut payloads: Vec<usize> = Vec::new();
        let mut k: usize = 0;
        while k < pairs.len()
            invariant
                k <= pairs.len() <= MAX_INDEX,
                forall|a: int, b: int|
                    0 <= a < b < infos.len() ==> infos@[a].component_id != infos@[b].component_id,
                forall|i: int|
                    0 <= i < infos.len() ==> #[trigger] indices@.contains_key(infos@[i].component_id)
                        && indices@[infos@[i].component_id] == i,
                forall|id: u64| #[trigger]
                    indices@.contains_key(id) ==> indices@[id] < infos.len() && infos@[indices@[id] as int].component_id
                        == id,
                topology_node_count(graph) == infos.len(),
                topology_edges(graph) == collapsed_links(infos@, pairs@.take(k as int)),
                link_problem(infos@, pairs@.take(k as int)) is None,
                payloads.len() == topology_edges(graph).len(),
                payloads.len() <= k,
                topology_edges(graph).no_duplicates(),
                forall|e: int|
                    0 <= e < topology_edges(graph).len() ==> (#[trigger] topology_edges(
                        graph,
                    )[e]).0 < infos.len() && topology_edges(graph)[e].1 < infos.len()
                        && topology_edges(graph)[e].0 != topology_edges(graph)[e].1,
                forall|e: int|
                    0 <= e < payloads.len() ==> last_giver(
                        infos@,
                        pairs@,
                        topology_edges(graph)[e],
                        #[trigger] payloads@[e] as int,
                        k as int,
                    ),
            decreases pairs.len() - k,
        {
            let (sid, did) = pairs[k];
            proof {
                lemma_link_problem_step(infos@, pairs@, k as int);
            }
            if sid == did {
                proof {
                    lemma_link_problem_prefix(infos@, pairs@, k + 1);
                }
                let mut s = String::new();
                push_connection_prefix(&mut s, (sid, did));
                push_str(&mut s, "Can't connect a component to itself.");
                return Err(Error::new(ErrorKind::InvalidConnection, s));
            }
            let si = match indices.get(&sid) {
                Some(i) => *i,
                None => {
                    proof {
                        assert(!has_id(infos@, sid)) by {
                            if has_id(infos@, sid) {
                                let j = choose|j: int| 0 <= j < infos.len() && infos@[j].component_id == sid;
                                assert(indices@.contains_key(infos@[j].component_id));
                            }
                        }
                        lemma_link_problem_prefix(infos@, pairs@, k + 1);
                    }
                    let mut s = String::new();
                    push_connection_prefix(&mut s, (sid, did));
                    push_str(&mut s, "Can't find a component with ID ");
                    push_dec(&mut s, sid);
                    return Err(Error::new(ErrorKind::InvalidConnection, s));
                },
            };
            let di = match indices.get(&did) {
                Some(i) => *i,
                None => {
                    proof {
                        assert(indices@.contains_key(sid));
                        lemma_position_of(infos@, si as int);
                        assert(!has_id(infos@, did)) by {
                            if has_id(infos@, did) {
                                let j = choose|j: int| 0 <= j < infos.len() && infos@[j].component_id == did;
                                assert(indices@.contains_key(infos@[j].component_id));
                            }
                        }
                        lemma_link_problem_prefix(infos@, pairs@, k + 1);
                    }
                    let mut s = String::new();
                    push_connection_prefix(&mut s, (sid, did));
                    push_str(&mut s, "Can't find a component with ID ");
                    push_dec(&mut s, did);
                    return Err(Error::new(ErrorKind::InvalidConnection, s));
                },
            };
            proof {
                assert(indices@.contains_key(sid) && indices@.contains_key(did));
                lemma_position_of(infos@, si as int);
                lemma_position_of(infos@, di as int);
                assert(link_of(infos@, pairs@[k as int]) == (si as nat, di as nat));
            }
            let ghost old_edges = topology_edges(graph);
            let ghost old_payloads = payloads@;
            let e = update_topology_edge(&mut graph, si, di);
            if e < payloads.len() {
                payloads.set(e, k);
                proof {
                    assert forall|x: int| 0 <= x < payloads.len() implies last_giver(
                        infos@,
                        pairs@,
                        topology_edges(graph)[x],
                        #[trigger] payloads@[x] as int,
                        k + 1,
                    ) by {
                        if x != e {
                            assert(old_edges[x] != old_edges[e as int]);
                            assert(last_giver(infos@, pairs@, old_edges[x], old_payloads[x] as int, k as int));
                        }
                    }
                }
            } else {
                payloads.push(k);
                proof {
                    assert forall|x: int| 0 <= x < payloads.len() implies last_giver(
                        infos@,
                        pairs@,
                        topology_edges(graph)[x],
                        #[trigger] payloads@[x] as int,
                        k + 1,
                    ) by {
                        if x < old_payloads.len() {
                            assert(old_edges[x] != (si as nat, di as nat));
                            assert(last_giver(infos@, pairs@, old_edges[x], old_payloads[x] as int, k as int));
                        }
                    }
                    assert(topology_edges(graph).no_duplicates());
                }
            }
            k = k + 1;
        }
        proof {
            assert(pairs@.take(pairs.len() as int) =~= pairs@);
        }
        Ok((graph, payloads))
    }
}

// ----- Reading the graph -----

impl<N: Node, E: Edge> ComponentGraph<N, E> {
    /// Every neighbour of a component is another component of the graph.
    pub(crate) proof fn lemma_neighbors(&self, i: nat)
        requires
            self.wf(),
            i < self.count(),
        ensures
            forall|k: int|
                0 <= k < self.succ(i).len() ==> #[trigger] self.succ(i)[k] < self.count()
                    && self.succ(i)[k] != i && self.links().contains((i, self.succ(i)[k])),
            forall|k: int|
                0 <= k < self.pred(i).len() ==> #[trigger] self.pred(i)[k] < self.count()
                    && self.pred(i)[k] != i && self.links().contains((self.pred(i)[k], i)),
    {
        crate::topology::lemma_neighbors_are_ends(self.links(), i);
        assert forall|k: int| 0 <= k < self.succ(i).len() implies #[trigger] self.succ(i)[k]
            < self.count() && self.succ(i)[k] != i && self.links().contains((i, self.succ(i)[k])) by {
            assert(self.links().contains((i, self.succ(i)[k])));
            let e = choose|e: int| 0 <= e < self.links().len() && self.links()[e] == (i, self.succ(i)[k]);
            assert(self.links()[e].0 < self.count());
        }
        assert forall|k: int| 0 <= k < self.pred(i).len() implies #[trigger] self.pred(i)[k]
            < self.count() && self.pred(i)[k] != i && self.links().contains((self.pred(i)[k], i)) by {
            assert(self.links().contains((self.pred(i)[k], i)));
            let e = choose|e: int| 0 <= e < self.links().len() && self.links()[e] == (self.pred(i)[k], i);
            assert(self.links()[e].0 < self.count());
        }
    }

    /// The number of components.
    pub(crate) fn len(&self) -> (r: usize)
        requires
            self.wf(),
        ensures
            r == self.count(),
    {
        self.infos.len()
    }

    /// The position of the component with the given id, if there is one.
    pub(crate) fn position(&self, id: u64) -> (r: Option<usize>)
        requires
            self.wf(),
        ensures
            r is Some <==> self.contains(id),
            r matches Some(i) ==> i == self.index_of(id) && i < self.count() && self.id_at(
                i as nat,
            ) == id,
    {
        match self.node_indices.get(&id) {
            Some(i) => Some(*i),
            None => None,
        }
    }

    /// The record of the component at position `i`.
    pub(crate) fn info(&self, i: usize) -> (r: NodeInfo)
        requires
            self.wf(),
            i < self.count(),
        ensures
            r == self.records()[i as int],
    {
        self.infos[i]
    }

    /// The caller's component at position `i`.
    pub(crate) fn node_at(&self, i: usize) -> (r: &N)
        requires
            self.wf(),
            i < self.count(),
        ensures
            *r == self.node_values()[i as int],
    {
        &self.nodes[i]
    }

    /// The position of the root.
    pub(crate) fn root_pos(&self) -> (r: usize)
        requires
            self.wf(),
        ensures
            r == self.root_position(),
    {
        self.root_index
    }

    /// The configuration of the graph.
    pub(crate) fn config(&self) -> (r: ComponentGraphConfig)
        ensures
            r == self.configuration(),
    {
        self.config
    }

    /// The positions of the successors of the component at position `i`.
    pub(crate) fn successor_positions(&self, i: usize) -> (r: Vec<usize>)
        requires
            self.wf(),
            i < self.count(),
        ensures
            r@.map_values(|x: usize| x as nat) == self.succ(i as nat),
            r.len() == self.succ(i as nat).len(),
            forall|k: int| 0 <= k < r.len() ==> #[trigger] r@[k] as nat == self.succ(i as nat)[k],
            forall|k: int| 0 <= k < r.len() ==> #[trigger] r@[k] < self.count(),
    {
        let r = crate::topology::topology_neighbors(&self.topology, i, true);
        proof {
            self.lemma_neighbors(i as nat);
            assert forall|k: int| 0 <= k < r.len() implies #[trigger] r@[k] as nat == self.succ(
                i as nat,
            )[k] by {
                assert(r@.map_values(|x: usize| x as nat)[k] == r@[k] as nat);
            }
        }
        r
    }

    /// The positions of the predecessors of the component at position `i`.
    pub(crate) fn predecessor_positions(&self, i: usize) -> (r: Vec<usize>)
        requires
            self.wf(),
            i < self.count(),
        ensures
            r@.map_values(|x: usize| x as nat) == self.pred(i as nat),
            r.len() == self.pred(i as nat).len(),
            forall|k: int| 0 <= k < r.len() ==> #[trigger] r@[k] as nat == self.pred(i as nat)[k],
            forall|k: int| 0 <= k < r.len() ==> #[trigger] r@[k] < self.count(),
    {
        let r = crate::topology::topology_neighbors(&self.topology, i, false);
        proof {
            self.lemma_neighbors(i as nat);
            assert forall|k: int| 0 <= k < r.len() implies #[trigger] r@[k] as nat == self.pred(
                i as nat,
            )[k] by {
                assert(r@.map_values(|x: usize| x as nat)[k] == r@[k] as nat);
            }
        }
        r
    }
}

// ----- Building and validating -----

impl<N: Node, E: Edge> ComponentGraph<N, E> {
    /// Whether the graph is what the records, connections and configuration
    /// give: the nodes and connections as handed in, the edges of the
    /// connections with repeated pairs collapsed, each edge keeping the
    /// connection that gave it last, and the single Grid as its root.
    pub open(crate) spec fn built_from(
        &self,
        components: Seq<N>,
        infos: Seq<NodeInfo>,
        connections: Seq<E>,
        pairs: Seq<(u64, u64)>,
        config: ComponentGraphConfig,
    ) -> bool {
        &&& self.wf()
        &&& self.node_values() == components
        &&& self.records() == infos
        &&& self.connection_values() == connections
        &&& self.links() == collapsed_links(infos, pairs)
        &&& forall|e: int|
            0 <= e < self.links().len() ==> last_giver(
                infos,
                pairs,
                self.links()[e],
                #[trigger] self.edge_payloads()[e] as int,
                pairs.len() as int,
            )
        &&& self.configuration() == config
        &&& self.category_at(self.root_position()) is Grid
        &&& forall|j: nat|
            j < self.count() && j != self.root_position() ==> !(#[trigger] self.category_at(j) is Grid)
    }

    /// What building from the components, the records read from them, the
    /// connections, the pairs read from them and the configuration gives:
    /// the failure of the first failing record, a missing or repeated Grid, or
    /// the first failing connection; otherwise the graph that they describe,
    /// exactly when it passes validation, and the validation error when it
    /// does not: the first cycle found, or the failures of the other checks
    /// (one alone, or gathered in one error).
    pub open(crate) spec fn outcome(
        r: Result<Self, Error>,
        components: Seq<N>,
        infos: Seq<NodeInfo>,
        connections: Seq<E>,
        pairs: Seq<(u64, u64)>,
        config: ComponentGraphConfig,
    ) -> bool {
        match input_problem(infos, pairs, config) {
            Some(f) => r is Err && is_failure(r->Err_0, f),
            None => exists|g: Self| #[trigger]
                g.built_from(components, infos, connections, pairs, config) && (r is Ok
                    <==> g.passes_validation()) && (r matches Ok(h) ==> h == g) && (r matches Err(e)
                    ==> e.kind == ErrorKind::InvalidGraph && is_failure(e, g.validation_error())),
        }
    }

    /// Builds a graph from the caller's components and connections and the
    /// records already read from them (`infos[i]` from `components[i]`,
    /// `pairs[k]` from `connections[k]`), and validates it.
    pub fn assemble(
        components: Vec<N>,
        infos: Vec<NodeInfo>,
        connections: Vec<E>,
        pairs: Vec<(u64, u64)>,
        config: ComponentGraphConfig,
    ) -> (r: Result<Self, Error>)
        requires
            components.len() == infos.len(),
            infos.len() <= MAX_INDEX,
            connections.len() == pairs.len(),
            pairs.len() <= MAX_INDEX,
        ensures
            Self::outcome(r, components@, infos@, connections@, pairs@, config),
            r matches Ok(g) ==> {
                &&& g.built_from(components@, infos@, connections@, pairs@, config)
                &&& g.passes_validation()
            },
    {
        let added = Self::add_components(&infos, &config);
        let (graph, indices) = match added {
            Ok((graph, indices)) => (graph, indices),
            Err(e) => return Err(e),
        };
        assert(topology_node_count(graph) == infos.len());
        let root_index = match Self::find_root(&infos) {
            Ok(i) => i,
            Err(e) => return Err(e),
        };
        let linked = Self::add_connections(
            graph,
            &indices,
            &infos,
            &pairs,
            config.allow_unspecified_inverters,
        );
        let (graph, payloads) = match linked {
            Ok((graph, payloads)) => (graph, payloads),
            Err(e) => return Err(e),
        };
        let root_id = infos[root_index].component_id;
        let g = ComponentGraph {
            topology: graph,
            nodes: components,
            infos,
            node_indices: indices,
            connections,
            payloads,
            root_id,
            root_index,
            config,
        };
        proof {
            assert forall|e: int| 0 <= e < g.payloads@.len() implies #[trigger] g.payloads@[e]
                < g.connections@.len() by {
                assert(last_giver(g.infos@, pairs@, g.links()[e], g.payloads@[e] as int, pairs.len() as int));
            }
            assert(g.wf());
        }
        let ghost components0 = components@;
        let ghost connections0 = connections@;
        proof {
            assert(g.built_from(components0, g.infos@, connections0, pairs@, config));
        }
        match g.validate() {
            Ok(()) => Ok(g),
            Err(e) => Err(e),
        }
    }

    /// Creates a graph from the given components and connections, after
    /// checking them (see [`ComponentGraph::assemble`], which this reads the
    /// records for). Each component and connection is read once. The counts
    /// are bounded by the index type of the topology graph (32 bits).
    pub fn try_new(components: Vec<N>, connections: Vec<E>, config: ComponentGraphConfig) -> (r:
        Result<Self, Error>)
        requires
            components.len() <= MAX_INDEX,
            connections.len() <= MAX_INDEX,
        ensures
            exists|infos: Seq<NodeInfo>, pairs: Seq<(u64, u64)>|
                infos.len() == components.len() && pairs.len() == connections.len() && #[trigger] Self::outcome(
                    r,
                    components@,
                    infos,
                    connections@,
                    pairs,
                    config,
                ),
            r matches Ok(g) ==> {
                &&& g.wf()
                &&& g.node_values() == components@
                &&& g.connection_values() == connections@
                &&& g.configuration() == config
                &&& g.count() == components.len()
                &&& g.passes_validation()
                &&& g.category_at(g.root_position()) is Grid
                &&& g.id_at(g.root_position()) == g.root()
                &&& forall|j: nat|
                    j < g.count() && j != g.root_position() ==> !(#[trigger] g.category_at(j) is Grid)
            },
    {
        let mut infos: Vec<NodeInfo> = Vec::new();
        let mut i: usize = 0;
        while i < components.len()
            invariant
                i <= components.len(),
                infos.len() == i,
            decreases components.len() - i,
        {
            let c = &components[i];
            infos.push(
                NodeInfo {
                    component_id: c.component_id(),
                    category: c.category(),
                    is_supported: c.is_supported(),
                },
            );
            i = i + 1;
        }
        let mut pairs: Vec<(u64, u64)> = Vec::new();
        let mut k: usize = 0;
        while k < connections.len()
            invariant
                k <= connections.len(),
                pairs.len() == k,
            decreases connections.len() - k,
        {
            let c = &connections[k];
            pairs.push((c.source(), c.destination()));
            k = k + 1;
        }
        let ghost infos0 = infos@;
        let ghost pairs0 = pairs@;
        let r = Self::assemble(components, infos, connections, pairs, config);
        proof {
            assert(infos0.len() == components.len() && pairs0.len() == connections.len());
        }
        r
    }
}
} // verus!
