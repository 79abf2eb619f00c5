//! The roles of meters: a meter whose successors all belong to one category
//! class measures that class.

use crate::category::{battery_inverter, ComponentCategory, InverterType};
use crate::error::Error;
use crate::graph::ComponentGraph;
use crate::retrieval::{is_not_found, not_found};
use crate::traits::{Edge, Node};
use vstd::prelude::*;

verus! {

/// The category classes that a meter can be dedicated to.
#[derive(Clone, Copy, Debug, PartialEq, Eq, Structural)]
pub enum MeterRole {
    Pv,
    Battery,
    EvCharger,
    Chp,
}

/// Whether a successor of the category fits a meter of the role.
pub open spec fn role_admits(role: MeterRole, c: ComponentCategory, allow_unspecified: bool) -> bool {
    match role {
        MeterRole::Pv => c == ComponentCategory::Inverter(InverterType::Solar),
        MeterRole::Battery => battery_inverter(c, allow_unspecified),
        MeterRole::EvCharger => c is EvCharger,
        MeterRole::Chp => c is Chp,
    }
}

impl MeterRole {
    pub fn admits(self, c: ComponentCategory, allow_unspecified: bool) -> (r: bool)
        ensures
            r == role_admits(self, c, allow_unspecified),
    {
        match self {
            MeterRole::Pv => c.is_pv_inverter(),
            MeterRole::Battery => c.is_battery_inverter(allow_unspecified),
            MeterRole::EvCharger => c.is_ev_charger(),
            MeterRole::Chp => c.is_chp(),
        }
    }
}

impl<N: Node, E: Edge> ComponentGraph<N, E> {
    /// The component at position `i` is a meter with at least one successor,
    /// and every successor fits the role.
    pub open(crate) spec fn meter_of(&self, i: nat, role: MeterRole) -> bool {
        &&& self.category_at(i) is Meter
        &&& self.succ(i).len() > 0
        &&& forall|k: int|
            0 <= k < self.succ(i).len() ==> role_admits(
                role,
                self.category_at(#[trigger] self.succ(i)[k]),
                self.configuration().allow_unspecified_inverters,
            )
    }

    /// The component at position `i` is a meter of one of the four roles.
    pub open(crate) spec fn component_meter(&self, i: nat) -> bool {
        self.meter_of(i, MeterRole::Pv) || self.meter_of(i, MeterRole::Battery) || self.meter_of(
            i,
            MeterRole::EvCharger,
        ) || self.meter_of(i, MeterRole::Chp)
    }

    pub(crate) fn is_meter_of(&self, i: usize, role: MeterRole) -> (r: bool)
        requires
            self.wf(),
            i < self.count(),
        ensures
            r == self.meter_of(i as nat, role),
    {
        if !self.info(i).category.is_meter() {
            return false;
        }
        let succs = self.successor_positions(i);
        if succs.len() == 0 {
            return false;
        }
        let allow = self.config().allow_unspecified_inverters;
        let mut k: usize = 0;
        while k < succs.len()
            invariant
                self.wf(),
                i < self.count(),
                allow == self.configuration().allow_unspecified_inverters,
                k <= succs.len(),
                succs.len() == self.succ(i as nat).len(),
                forall|x: int| 0 <= x < succs.len() ==> #[trigger] succs@[x] as nat == self.succ(i as nat)[x],
                forall|x: int| 0 <= x < succs.len() ==> #[trigger] succs@[x] < self.count(),
                forall|x: int|
                    0 <= x < k ==> role_admits(
                        role,
                        self.category_at(#[trigger] self.succ(i as nat)[x]),
                        allow,
                    ),
            decreases succs.len() - k,
        {
            if !role.admits(self.info(succs[k]).category, allow) {
                return false;
            }
            k = k + 1;
        }
        true
    }

    pub(crate) fn is_component_meter_at(&self, i: usize) -> (r: bool)
        requires
            self.wf(),
            i < self.count(),
        ensures
            r == self.component_meter(i as nat),
    {
        self.is_meter_of(i, MeterRole::Pv) || self.is_meter_of(i, MeterRole::Battery)
            || self.is_meter_of(i, MeterRole::EvCharger) || self.is_meter_of(i, MeterRole::Chp)
    }

    fn role_of_id(&self, component_id: u64, role: MeterRole) -> (r: Result<bool, Error>)
        requires
            self.wf(),
        ensures
            r is Ok <==> self.contains(component_id),
            r matches Ok(b) ==> b == self.meter_of(self.index_of(component_id), role),
            r matches Err(e) ==> is_not_found(e, component_id),
    {
        match self.position(component_id) {
            Some(i) => Ok(self.is_meter_of(i, role)),
            None => Err(not_found(component_id)),
        }
    }

    /// Whether the component is a meter whose successors, at least one, are
    /// all solar inverters.
    pub fn is_pv_meter(&self, component_id: u64) -> (r: Result<bool, Error>)
        requires
            self.wf(),
        ensures
            r is Ok <==> self.contains(component_id),
            r matches Ok(b) ==> b == self.meter_of(self.index_of(component_id), MeterRole::Pv),
            r matches Err(e) ==> is_not_found(e, component_id),
    {
        self.role_of_id(component_id, MeterRole::Pv)
    }

    /// Whether the component is a meter whose successors, at least one, are
    /// all battery inverters (counting unspecified inverters where the
    /// configuration allows them).
    pub fn is_battery_meter(&self, component_id: u64) -> (r: Result<bool, Error>)
        requires
            self.wf(),
        ensures
            r is Ok <==> self.contains(component_id),
            r matches Ok(b) ==> b == self.meter_of(self.index_of(component_id), MeterRole::Battery),
            r matches Err(e) ==> is_not_found(e, component_id),
    {
        self.role_of_id(component_id, MeterRole::Battery)
    }

    /// Whether the component is a meter whose successors, at least one, are
    /// all EV chargers.
    pub fn is_ev_charger_meter(&self, component_id: u64) -> (r: Result<bool, Error>)
        requires
            self.wf(),
        ensures
            r is Ok <==> self.contains(component_id),
            r matches Ok(b) ==> b == self.meter_of(self.index_of(component_id), MeterRole::EvCharger),
            r matches Err(e) ==> is_not_found(e, component_id),
    {
        self.role_of_id(component_id, MeterRole::EvCharger)
    }

    /// Whether the component is a meter whose successors, at least one, are
    /// all CHPs.
    pub fn is_chp_meter(&self, component_id: u64) -> (r: Result<bool, Error>)
        requires
            self.wf(),
        ensures
            r is Ok <==> self.contains(component_id),
            r matches Ok(b) ==> b == self.meter_of(self.index_of(component_id), MeterRole::Chp),
            r matches Err(e) ==> is_not_found(e, component_id),
    {
        self.role_of_id(component_id, MeterRole::Chp)
    }

    /// Whether the component is a PV, battery, EV charger or CHP meter.
    pub fn is_component_meter(&self, component_id: u64) -> (r: Result<bool, Error>)
        requires
            self.wf(),
        ensures
            r is Ok <==> self.contains(component_id),
            r matches Ok(b) ==> b == self.component_meter(self.index_of(component_id)),
            r matches Err(e) ==> is_not_found(e, component_id),
    {
        match self.position(component_id) {
            Some(i) => Ok(self.is_component_meter_at(i)),
            None => Err(not_found(component_id)),
        }
    }

    /// A meter has at most one role, and a meter without successors has
    /// none.
    pub proof fn lemma_meter_roles_exclusive(&self, component_id: u64)
        requires
            self.wf(),
            self.contains(component_id),
        ensures
            forall|a: MeterRole, b: MeterRole|
                a != b ==> !(#[trigger] self.meter_of(self.index_of(component_id), a)
                    && #[trigger] self.meter_of(self.index_of(component_id), b)),
            self.succ(self.index_of(component_id)).len() == 0 ==> !self.component_meter(
                self.index_of(component_id),
            ),
    {
        let i = self.index_of(component_id);
        assert forall|a: MeterRole, b: MeterRole| a != b implies !(#[trigger] self.meter_of(i, a)
            && #[trigger] self.meter_of(i, b)) by {
            if self.meter_of(i, a) && self.meter_of(i, b) {
                let c = self.category_at(self.succ(i)[0]);
                assert(role_admits(a, c, self.configuration().allow_unspecified_inverters));
                assert(role_admits(b, c, self.configuration().allow_unspecified_inverters));
            }
        }
    }
}

} // verus!
