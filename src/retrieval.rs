//! Retrieval of components, connections and neighbours from a
//! `ComponentGraph`.

use crate::error::{Error, ErrorKind};
use crate::graph::ComponentGraph;
use crate::text::{dec, push_dec, push_str};
use crate::traits::{Edge, Node};
use vstd::prelude::*;

verus! {

/// The description of the error for an unknown id.
pub open spec fn not_found_text(id: u64) -> Seq<char> {
    "Component with id "@ + dec(id as nat) + " not found."@
}

/// The error for an unknown id.
pub fn not_found(id: u64) -> (r: Error)
    ensures
        r.kind == ErrorKind::ComponentNotFound,
        r.desc@ == not_found_text(id),
{
    let mut s = String::new();
    push_str(&mut s, "Component with id ");
    push_dec(&mut s, id);
    push_str(&mut s, " not found.");
    Error::new(ErrorKind::ComponentNotFound, s)
}

/// Whether `r` is the error for the unknown id.
pub open spec fn is_not_found(e: Error, id: u64) -> bool {
    e.kind == ErrorKind::ComponentNotFound && e.desc@ == not_found_text(id)
}

impl<N: Node, E: Edge> ComponentGraph<N, E> {
    /// The caller's components for a list of positions.
    fn nodes_for(&self, ps: &Vec<usize>) -> (r: Vec<&N>)
        requires
            self.wf(),
            forall|k: int| 0 <= k < ps.len() ==> #[trigger] ps@[k] < self.count(),
        ensures
            r.len() == ps.len(),
            forall|k: int| 0 <= k < r.len() ==> *#[trigger] r@[k] == self.node_values()[ps@[k] as int],
    {
        let mut r: Vec<&N> = Vec::new();
        let mut k: usize = 0;
        while k < ps.len()
            invariant
                self.wf(),
                forall|x: int| 0 <= x < ps.len() ==> #[trigger] ps@[x] < self.count(),
                k <= ps.len(),
                r.len() == k,
                forall|x: int| 0 <= x < k ==> *#[trigger] r@[x] == self.node_values()[ps@[x] as int],
            decreases ps.len() - k,
        {
            r.push(self.node_at(ps[k]));
            k = k + 1;
        }
        r
    }

    /// Returns the component with the given id.
    pub fn component(&self, component_id: u64) -> (r: Result<&N, Error>)
        requires
            self.wf(),
        ensures
            r is Ok <==> self.contains(component_id),
            r matches Ok(n) ==> *n == self.node_values()[self.index_of(component_id) as int],
            r matches Err(e) ==> is_not_found(e, component_id),
    {
        match self.position(component_id) {
            Some(i) => Ok(self.node_at(i)),
            None => Err(not_found(component_id)),
        }
    }

    /// Returns the components, in the order in which they were given.
    pub fn components(&self) -> (r: Vec<&N>)
        requires
            self.wf(),
        ensures
            r.len() == self.count(),
            forall|k: int| 0 <= k < r.len() ==> *#[trigger] r@[k] == self.node_values()[k],
    {
        let mut r: Vec<&N> = Vec::new();
        let mut k: usize = 0;
        while k < self.len()
            invariant
                self.wf(),
                k <= self.count(),
                r.len() == k,
                forall|x: int| 0 <= x < k ==> *#[trigger] r@[x] == self.node_values()[x],
            decreases self.count() - k,
        {
            r.push(self.node_at(k));
            k = k + 1;
        }
        r
    }

    /// Returns the connections, one per edge in the order in which the edges
    /// were first given; for a pair given more than once, the last
    /// connection that gave it.
    pub fn connections(&self) -> (r: Vec<&E>)
        requires
            self.wf(),
        ensures
            r.len() == self.links().len(),
            forall|k: int|
                0 <= k < r.len() ==> *#[trigger] r@[k] == self.connection_values()[self.edge_payloads()[k] as int],
    {
        let mut r: Vec<&E> = Vec::new();
        let mut k: usize = 0;
        while k < self.payloads.len()
            invariant
                self.wf(),
                k <= self.payloads.len(),
                r.len() == k,
                forall|x: int|
                    0 <= x < k ==> *#[trigger] r@[x] == self.connection_values()[self.edge_payloads()[x] as int],
            decreases self.payloads.len() - k,
        {
            r.push(&self.connections[self.payloads[k]]);
            k = k + 1;
        }
        r
    }

    /// Returns the predecessors of the component with the given id, the most
    /// recently connected first.
    pub fn predecessors(&self, component_id: u64) -> (r: Result<Vec<&N>, Error>)
        requires
            self.wf(),
        ensures
            r is Ok <==> self.contains(component_id),
            r matches Ok(v) ==> v.len() == self.pred(self.index_of(component_id)).len() && forall|k: int|
                0 <= k < v.len() ==> *#[trigger] v@[k] == self.node_values()[self.pred(
                    self.index_of(component_id),
                )[k] as int],
            r matches Err(e) ==> is_not_found(e, component_id),
    {
        match self.position(component_id) {
            Some(i) => {
                let ps = self.predecessor_positions(i);
                Ok(self.nodes_for(&ps))
            },
            None => Err(not_found(component_id)),
        }
    }

    /// Returns the successors of the component with the given id, the most
    /// recently connected first.
    pub fn successors(&self, component_id: u64) -> (r: Result<Vec<&N>, Error>)
        requires
            self.wf(),
        ensures
            r is Ok <==> self.contains(component_id),
            r matches Ok(v) ==> v.len() == self.succ(self.index_of(component_id)).len() && forall|k: int|
                0 <= k < v.len() ==> *#[trigger] v@[k] == self.node_values()[self.succ(
                    self.index_of(component_id),
                )[k] as int],
            r matches Err(e) ==> is_not_found(e, component_id),
    {
        match self.position(component_id) {
            Some(i) => {
                let ps = self.successor_positions(i);
                Ok(self.nodes_for(&ps))
            },
            None => Err(not_found(component_id)),
        }
    }
}

} // verus!
