//! The fallback resolver: the sum over a set of components, with each
//! measurement replaced, where possible, by a COALESCE of it and the
//! measurements that can stand in for it.

use crate::error::{Error, ErrorKind};
use crate::expr::{eval, wf, Expr};
use crate::graph::ComponentGraph;
use crate::idset::{holds, increasing, insert_id, remove_id};
use crate::retrieval::not_found;
use crate::traits::{Edge, Node};
use vstd::prelude::*;

verus! {

/// Every expression of the list is well formed.
pub open spec fn all_wf(v: Seq<Expr>) -> bool {
    forall|k: int| 0 <= k < v.len() ==> wf(#[trigger] v[k])
}

impl<N: Node, E: Edge> ComponentGraph<N, E> {
    /// The component at position `c` is a meter with successors, none of
    /// which is a meter.
    pub open(crate) spec fn fallback_meter(&self, c: nat) -> bool {
        &&& self.category_at(c) is Meter
        &&& self.succ(c).len() > 0
        &&& forall|k: int| 0 <= k < self.succ(c).len() ==> !(self.category_at(#[trigger] self.succ(c)[k]) is Meter)
    }

    /// The sum of the readings of the components at the positions.
    pub open(crate) spec fn readings_of(&self, ps: Seq<nat>, reading: spec_fn(u64) -> int) -> int
        decreases ps.len(),
    {
        if ps.len() == 0 {
            0
        } else {
            self.readings_of(ps.drop_last(), reading) + reading(self.id_at(ps.last()))
        }
    }

    /// Every predecessor of the component at position `c` is a component
    /// meter.
    pub open(crate) spec fn metered_group(&self, c: nat) -> bool {
        forall|k: int| 0 <= k < self.pred(c).len() ==> self.component_meter(#[trigger] self.pred(c)[k])
    }

    /// The readings of the components at the positions, as terms.
    pub open(crate) spec fn reading_terms(&self, ps: Seq<nat>) -> Seq<Expr> {
        ps.map_values(|p: nat| self.reading_spec(p))
    }

    /// `e` is the sum, left to right, of the readings at the positions: the
    /// one reading, or a flat sum of them.
    pub open(crate) spec fn sums_readings(&self, e: Expr, ps: Seq<nat>) -> bool {
        ||| ps.len() == 1 && e == self.reading_spec(ps[0])
        ||| ps.len() >= 2 && e is Add && e->Add_params@ == self.reading_terms(ps)
    }

    /// `e` is the fallback of the meter at position `p`: its reading alone
    /// where a successor is not supported, else a COALESCE of its reading and
    /// the sum of its successors' readings, the meter first where
    /// `prefer_meters` holds.
    pub open(crate) spec fn meter_term(&self, e: Expr, p: nat, prefer_meters: bool) -> bool {
        &&& !self.successors_supported(p) ==> e == self.reading_spec(p)
        &&& self.successors_supported(p) ==> {
            &&& e is Coalesce
            &&& e->Coalesce_params@.len() == 2
            &&& e->Coalesce_params@[if prefer_meters { 0int } else { 1int }] == self.reading_spec(p)
            &&& self.sums_readings(e->Coalesce_params@[if prefer_meters { 1int } else { 0int }], self.succ(p))
        }
    }

    /// The component at position `c` is a battery inverter, a solar
    /// inverter, a CHP or an EV charger.
    pub open(crate) spec fn group_member(&self, c: nat) -> bool {
        let cat = self.category_at(c);
        crate::category::battery_inverter(cat, self.configuration().allow_unspecified_inverters) || cat is Chp
            || cat == crate::category::ComponentCategory::Inverter(crate::category::InverterType::Solar)
            || cat is EvCharger
    }

    /// The ids of the siblings (sharing a predecessor) of position `c`.
    pub open(crate) spec fn sibling_ids(&self, c: nat) -> Set<u64> {
        Set::new(|x: u64| exists|s: nat| s < self.count() && #[trigger] self.sibling_of(c, s, true) && self.id_at(s) == x)
    }

    /// The ids of the predecessors of position `c`.
    pub open(crate) spec fn pred_ids(&self, c: nat) -> Set<u64> {
        Set::new(|x: u64| exists|k: int| 0 <= k < self.pred(c).len() && self.id_at(#[trigger] self.pred(c)[k]) == x)
    }

    /// The terms are the meter fallbacks of the components with the ids, in
    /// order.
    pub open(crate) spec fn meter_terms(&self, terms: Seq<Expr>, ids: Seq<u64>, prefer_meters: bool) -> bool {
        &&& terms.len() == ids.len()
        &&& forall|k: int|
            0 <= k < ids.len() ==> self.contains(#[trigger] ids[k]) && self.meter_term(
                terms[k],
                self.index_of(ids[k]),
                prefer_meters,
            )
    }

    /// The group of position `c` falls back to its predecessors: it is a
    /// group member, its siblings are all among `rest`, and its
    /// predecessors are all component meters.
    pub open(crate) spec fn falls_back_to_meters(&self, c: nat, rest: Set<u64>) -> bool {
        self.group_member(c) && self.sibling_ids(c).subset_of(rest) && self.metered_group(c)
    }

    /// The terms that the fallback resolver sums for the work set `work`
    /// (ids in increasing order), popping the smallest id each time: a
    /// meter with successors, none of them a meter, gives its meter
    /// fallback; a group member whose siblings are all still to come and
    /// whose predecessors are all component meters gives, in increasing id
    /// order, the meter fallbacks of its predecessors, and its siblings
    /// leave the work set; any other component gives its reading.
    pub open(crate) spec fn fallback_terms(&self, terms: Seq<Expr>, work: Seq<u64>, prefer_meters: bool) -> bool
        decreases work.len(),
    {
        if work.len() == 0 {
            terms.len() == 0
        } else if !self.contains(work[0]) {
            false
        } else {
            let c = self.index_of(work[0]);
            let rest = work.drop_first();
            if self.fallback_meter(c) {
                terms.len() >= 1 && self.meter_term(terms[0], c, prefer_meters) && self.fallback_terms(
                    terms.drop_first(),
                    rest,
                    prefer_meters,
                )
            } else if self.falls_back_to_meters(c, rest.to_set()) {
                exists|ps: Seq<u64>, rest2: Seq<u64>|
                    ps.len() <= terms.len() && rest2.len() <= rest.len() && increasing(ps) && #[trigger] ps.to_set()
                        == self.pred_ids(c) && self.meter_terms(terms.take(ps.len() as int), ps, prefer_meters)
                        && increasing(rest2) && #[trigger] rest2.to_set() == rest.to_set().difference(
                        self.sibling_ids(c),
                    ) && self.fallback_terms(terms.skip(ps.len() as int), rest2, prefer_meters)
            } else {
                terms.len() >= 1 && terms[0] == self.reading_spec(c) && self.fallback_terms(
                    terms.drop_first(),
                    rest,
                    prefer_meters,
                )
            }
        }
    }

    /// `e` is the terms summed left to right: the one term, or a flat sum.
    pub open(crate) spec fn sum_of_terms(e: Expr, terms: Seq<Expr>) -> bool {
        ||| terms.len() == 1 && e == terms[0]
        ||| terms.len() >= 2 && e is Add && e->Add_params@ == terms
    }

    /// Where the first id of the work set names a component with a
    /// predecessor, the resolver gives at least one term.
    pub(crate) proof fn lemma_terms_nonempty(&self, work: Seq<u64>, prefer_meters: bool)
        requires
            self.wf(),
            work.len() > 0,
            self.contains(work[0]),
            self.pred(self.index_of(work[0])).len() > 0,
        ensures
            !self.fallback_terms(Seq::empty(), work, prefer_meters),
    {
        let c = self.index_of(work[0]);
        let rest = work.drop_first();
        if self.fallback_terms(Seq::empty(), work, prefer_meters) && !self.fallback_meter(c)
            && self.falls_back_to_meters(c, rest.to_set()) {
            let (ps, rest2) = choose|ps: Seq<u64>, rest2: Seq<u64>|
                ps.len() <= 0 && rest2.len() <= rest.len() && increasing(ps) && #[trigger] ps.to_set()
                    == self.pred_ids(c) && self.meter_terms(Seq::<Expr>::empty().take(ps.len() as int), ps, prefer_meters)
                    && increasing(rest2) && #[trigger] rest2.to_set() == rest.to_set().difference(
                    self.sibling_ids(c),
                ) && self.fallback_terms(Seq::<Expr>::empty().skip(ps.len() as int), rest2, prefer_meters);
            let x = self.id_at(self.pred(c)[0]);
            assert(self.pred_ids(c).contains(x));
            assert(ps.len() == 0);
            assert(!ps.to_set().contains(x));
        }
    }

    /// A component meter has successors, none of them a meter.
    proof fn lemma_component_meter_falls_back(&self, p: nat)
        requires
            self.component_meter(p),
        ensures
            self.fallback_meter(p),
    {
        assert forall|k: int| 0 <= k < self.succ(p).len() implies !(self.category_at(
            #[trigger] self.succ(p)[k],
        ) is Meter) by {
            let allow = self.configuration().allow_unspecified_inverters;
            let c = self.category_at(self.succ(p)[k]);
            if self.meter_of(p, crate::meter_roles::MeterRole::Pv) {
                assert(crate::meter_roles::role_admits(crate::meter_roles::MeterRole::Pv, c, allow));
            } else if self.meter_of(p, crate::meter_roles::MeterRole::Battery) {
                assert(crate::meter_roles::role_admits(crate::meter_roles::MeterRole::Battery, c, allow));
            } else if self.meter_of(p, crate::meter_roles::MeterRole::EvCharger) {
                assert(crate::meter_roles::role_admits(crate::meter_roles::MeterRole::EvCharger, c, allow));
            } else {
                assert(crate::meter_roles::role_admits(crate::meter_roles::MeterRole::Chp, c, allow));
            }
        }
    }

    /// Every successor of the component at position `c` is supported.
    pub open(crate) spec fn successors_supported(&self, c: nat) -> bool {
        forall|k: int| 0 <= k < self.succ(c).len() ==> (#[trigger] self.records()[self.succ(c)[k] as int]).is_supported
    }

    /// The component at position `c` as a reading.
    pub(crate) fn reading(&self, c: usize) -> (r: Expr)
        requires
            self.wf(),
            c < self.count(),
        ensures
            wf(r),
            r == (Expr::Component { component_id: self.id_at(c as nat) }),
    {
        Expr::Component { component_id: self.info(c).component_id }
    }

    /// The sum of the readings at the positions, left to right.
    pub(crate) fn sum_of_readings(&self, ps: &Vec<usize>) -> (r: Expr)
        requires
            self.wf(),
            ps.len() > 0,
            forall|k: int| 0 <= k < ps.len() ==> #[trigger] ps@[k] < self.count(),
        ensures
            wf(r),
            forall|reading: spec_fn(u64) -> int| #[trigger] eval(r, reading) == self.readings_of(
                crate::validation::nats(ps@),
                reading,
            ),
            self.sums_readings(r, crate::validation::nats(ps@)),
    {
        let ghost all = crate::validation::nats(ps@);
        let mut sum = self.reading(ps[0]);
        proof {
            assert(all[0] == ps@[0] as nat);
            assert(self.sums_readings(sum, all.take(1)));
        }
        proof {
            assert forall|reading: spec_fn(u64) -> int| #[trigger] eval(sum, reading) == self.readings_of(
                all.take(1),
                reading,
            ) by {
                assert(all.take(1).drop_last() =~= Seq::<nat>::empty());
                assert(all[0] == ps@[0] as nat);
                assert(all.take(1).last() == ps@[0] as nat);
                assert(self.readings_of(all.take(1).drop_last(), reading) == 0);
            }
        }
        let mut k: usize = 1;
        while k < ps.len()
            invariant
                self.wf(),
                1 <= k <= ps.len(),
                all == crate::validation::nats(ps@),
                forall|x: int| 0 <= x < ps.len() ==> #[trigger] ps@[x] < self.count(),
                wf(sum),
                forall|reading: spec_fn(u64) -> int| #[trigger] eval(sum, reading) == self.readings_of(
                    all.take(k as int),
                    reading,
                ),
                self.sums_readings(sum, all.take(k as int)),
            decreases ps.len() - k,
        {
            let ghost before = sum;
            let next = self.reading(ps[k]);
            sum = sum.plus(next);
            proof {
                assert forall|reading: spec_fn(u64) -> int| #[trigger] eval(sum, reading) == self.readings_of(
                    all.take(k as int + 1),
                    reading,
                ) by {
                    assert(all.take(k as int + 1).drop_last() =~= all.take(k as int));
                    assert(all[k as int] == ps@[k as int] as nat);
                    assert(all.take(k as int + 1).last() == ps@[k as int] as nat);
                    assert(eval(sum, reading) == eval(before, reading) + eval(next, reading));
                }
                assert(all[k as int] == ps@[k as int] as nat);
                assert(next == self.reading_spec(all[k as int]));
                if k == 1 {
                    assert(self.reading_terms(all.take(2)) =~= seq![before, next]);
                } else {
                    assert(self.reading_terms(all.take(k as int + 1)) =~= self.reading_terms(all.take(k as int)).push(next));
                }
            }
            k = k + 1;
        }
        proof {
            assert(all.take(ps.len() as int) =~= all);
        }
        sum
    }

    /// The meter at position `c` and the sum of its successors, in a
    /// COALESCE that prefers the meter where `prefer_meters` holds, when the
    /// meter has successors, none of them a meter, all of them supported;
    /// the meter alone when one of them is not supported.
    pub(crate) fn meter_fallback(&self, c: usize, prefer_meters: bool) -> (r: Option<Expr>)
        requires
            self.wf(),
            c < self.count(),
        ensures
            r is Some <==> self.fallback_meter(c as nat),
            r matches Some(e) ==> wf(e),
            r matches Some(e) ==> forall|reading: spec_fn(u64) -> int| #[trigger] eval(e, reading) == if prefer_meters
                || !self.successors_supported(c as nat) {
                reading(self.id_at(c as nat))
            } else {
                self.readings_of(self.succ(c as nat), reading)
            },
            r matches Some(e) ==> self.meter_term(e, c as nat, prefer_meters),
    {
        if !self.info(c).category.is_meter() {
            return None;
        }
        let succs = self.successor_positions(c);
        if succs.len() == 0 {
            return None;
        }
        let mut supported = true;
        let mut k: usize = 0;
        while k < succs.len()
            invariant
                self.wf(),
                c < self.count(),
                supported == forall|x: int| 0 <= x < k ==> (#[trigger] self.records()[self.succ(c as nat)[x] as int]).is_supported,
                k <= succs.len(),
                succs.len() == self.succ(c as nat).len(),
                forall|x: int| 0 <= x < succs.len() ==> #[trigger] succs@[x] as nat == self.succ(c as nat)[x],
                forall|x: int| 0 <= x < succs.len() ==> #[trigger] succs@[x] < self.count(),
                forall|x: int| 0 <= x < k ==> !(self.category_at(#[trigger] self.succ(c as nat)[x]) is Meter),
            decreases succs.len() - k,
        {
            let info = self.info(succs[k]);
            if info.category.is_meter() {
                return None;
            }
            supported = supported && info.is_supported;
            k = k + 1;
        }
        proof {
            assert(supported == self.successors_supported(c as nat));
        }
        if !supported {
            return Some(self.reading(c));
        }
        let sum = self.sum_of_readings(&succs);
        proof {
            assert(crate::validation::nats(succs@) =~= self.succ(c as nat));
        }
        let meter = self.reading(c);
        let params = if prefer_meters {
            vec![meter, sum]
        } else {
            vec![sum, meter]
        };
        proof {
            crate::expr::lemma_pair(params@, params@[0], params@[1]);
        }
        let r = Expr::Coalesce { params };
        proof {
            assert forall|reading: spec_fn(u64) -> int| #[trigger] eval(r, reading) == if prefer_meters
                || !self.successors_supported(c as nat) {
                reading(self.id_at(c as nat))
            } else {
                self.readings_of(self.succ(c as nat), reading)
            } by {
                assert(eval(r, reading) == eval(r->Coalesce_params@[0], reading));
            }
        }
        Some(r)
    }

    /// For a battery inverter, solar inverter, CHP or EV charger at position
    /// `c`: where all its siblings are still in `work` and all its
    /// predecessors are component meters, the siblings leave `work` and the
    /// meter fallbacks of the predecessors stand for the group; where a
    /// sibling is missing from `work`, the component alone.
    fn component_fallback(&self, work: &mut Vec<u64>, c: usize, prefer_meters: bool) -> (r: Option<Vec<Expr>>)
        requires
            self.wf(),
            c < self.count(),
            increasing(old(work)@),
        ensures
            increasing(final(work)@),
            final(work)@.to_set().subset_of(old(work)@.to_set()),
            final(work)@.len() <= old(work)@.len(),
            r matches Some(v) ==> all_wf(v@),
            !self.metered_group(c as nat) ==> r is None || (r matches Some(v) && v@ == seq![
                self.reading_spec(c as nat),
            ]),
            !self.falls_back_to_meters(c as nat, old(work)@.to_set()) ==> final(work)@ == old(work)@ && (r is None
                || (r matches Some(v) && v@ == seq![self.reading_spec(c as nat)])),
            self.falls_back_to_meters(c as nat, old(work)@.to_set()) ==> {
                &&& final(work)@.to_set() == old(work)@.to_set().difference(self.sibling_ids(c as nat))
                &&& r matches Some(v) && exists|ps: Seq<u64>|
                    increasing(ps) && #[trigger] ps.to_set() == self.pred_ids(c as nat) && self.meter_terms(
                        v@,
                        ps,
                        prefer_meters,
                    )
            },
    {
        let cat = self.info(c).category;
        if !(cat.is_battery_inverter(self.config().allow_unspecified_inverters) || cat.is_chp()
            || cat.is_pv_inverter() || cat.is_ev_charger()) {
            return None;
        }
        let siblings = self.sibling_positions(c, true);
        let mut k: usize = 0;
        while k < siblings.len()
            invariant
                self.wf(),
                c < self.count(),
                work@ == old(work)@,
                increasing(work@),
                k <= siblings.len(),
                forall|x: int| 0 <= x < siblings.len() ==> #[trigger] siblings@[x] < self.count(),
                forall|t: usize| #[trigger] siblings@.contains(t) ==> self.sibling_of(c as nat, t as nat, true),
                forall|x: int| 0 <= x < k ==> work@.contains(self.id_at(#[trigger] siblings@[x] as nat)),
            decreases siblings.len() - k,
        {
            if !holds(work, self.info(siblings[k]).component_id) {
                let v = vec![self.reading(c)];
                proof {
                    assert(all_wf(v@)) by {
                        assert(v@[0] == self.reading_spec(c as nat));
                    }
                    assert(v@ =~= seq![self.reading_spec(c as nat)]);
                    assert(siblings@.contains(siblings@[k as int]));
                    let x = self.id_at(siblings@[k as int] as nat);
                    assert(self.sibling_ids(c as nat).contains(x));
                    assert(!work@.to_set().contains(x));
                }
                return Some(v);
            }
            k = k + 1;
        }
        proof {
            assert(self.sibling_ids(c as nat).subset_of(old(work)@.to_set())) by {
                assert forall|x: u64| self.sibling_ids(c as nat).contains(x) implies old(work)@.to_set().contains(x) by {
                    let s = choose|s: nat| s < self.count() && #[trigger] self.sibling_of(c as nat, s, true) && self.id_at(s) == x;
                    assert(siblings@.contains(s as usize));
                    let q = choose|q: int| 0 <= q < siblings.len() && siblings@[q] == s as usize;
                    assert(work@.contains(self.id_at(siblings@[q] as nat)));
                }
            }
        }
        let preds = self.predecessor_positions(c);
        let mut j: usize = 0;
        while j < preds.len()
            invariant
                self.wf(),
                c < self.count(),
                work@ == old(work)@,
                increasing(work@),
                j <= preds.len(),
                preds.len() == self.pred(c as nat).len(),
                forall|x: int| 0 <= x < preds.len() ==> #[trigger] preds@[x] as nat == self.pred(c as nat)[x],
                forall|x: int| 0 <= x < preds.len() ==> #[trigger] preds@[x] < self.count(),
                forall|x: int| 0 <= x < j ==> self.component_meter(#[trigger] self.pred(c as nat)[x]),
            decreases preds.len() - j,
        {
            if !self.is_component_meter_at(preds[j]) {
                return None;
            }
            j = j + 1;
        }
        let ghost w0 = work@;
        let mut k: usize = 0;
        while k < siblings.len()
            invariant
                self.wf(),
                k <= siblings.len(),
                forall|x: int| 0 <= x < siblings.len() ==> #[trigger] siblings@[x] < self.count(),
                increasing(work@),
                work@.to_set().subset_of(w0.to_set()),
                work@.len() <= w0.len(),
                work@.to_set() == w0.to_set().difference(
                    Set::new(|x: u64| exists|q: int| 0 <= q < k && self.id_at(#[trigger] siblings@[q] as nat) == x),
                ),
            decreases siblings.len() - k,
        {
            let ghost before = work@;
            remove_id(work, self.info(siblings[k]).component_id);
            proof {
                assert(work@.to_set() =~= w0.to_set().difference(
                    Set::new(|x: u64| exists|q: int| 0 <= q < k + 1 && self.id_at(#[trigger] siblings@[q] as nat) == x),
                ));
            }
            k = k + 1;
        }
        proof {
            assert(work@.to_set() =~= w0.to_set().difference(self.sibling_ids(c as nat))) by {
                assert forall|x: u64| (exists|q: int| 0 <= q < siblings.len() && self.id_at(#[trigger] siblings@[q] as nat) == x)
                    == self.sibling_ids(c as nat).contains(x) by {
                    if exists|q: int| 0 <= q < siblings.len() && self.id_at(#[trigger] siblings@[q] as nat) == x {
                        let q = choose|q: int| 0 <= q < siblings.len() && self.id_at(#[trigger] siblings@[q] as nat) == x;
                        assert(siblings@.contains(siblings@[q]));
                    }
                    if self.sibling_ids(c as nat).contains(x) {
                        let s = choose|s: nat| s < self.count() && #[trigger] self.sibling_of(c as nat, s, true) && self.id_at(s) == x;
                        assert(siblings@.contains(s as usize));
                        let q = choose|q: int| 0 <= q < siblings.len() && siblings@[q] == s as usize;
                        assert(self.id_at(siblings@[q] as nat) == x);
                    }
                }
            }
        }
        let mut pred_ids: Vec<u64> = Vec::new();
        let mut j: usize = 0;
        proof {
            assert(pred_ids@.to_set() =~= Set::<u64>::empty());
        }
        while j < preds.len()
            invariant
                self.wf(),
                j <= preds.len(),
                preds.len() == self.pred(c as nat).len(),
                forall|x: int| 0 <= x < preds.len() ==> #[trigger] preds@[x] as nat == self.pred(c as nat)[x],
                forall|x: int| 0 <= x < preds.len() ==> #[trigger] preds@[x] < self.count(),
                increasing(pred_ids@),
                pred_ids@.to_set() == Set::new(
                    |x: u64| exists|q: int| 0 <= q < j && self.id_at(#[trigger] self.pred(c as nat)[q]) == x,
                ),
            decreases preds.len() - j,
        {
            insert_id(&mut pred_ids, self.info(preds[j]).component_id);
            proof {
                assert(pred_ids@.to_set() =~= Set::new(
                    |x: u64| exists|q: int| 0 <= q < j + 1 && self.id_at(#[trigger] self.pred(c as nat)[q]) == x,
                )) by {
                    assert(self.id_at(self.pred(c as nat)[j as int]) == self.id_at(preds@[j as int] as nat));
                }
            }
            j = j + 1;
        }
        proof {
            assert(pred_ids@.to_set() =~= self.pred_ids(c as nat));
            self.lemma_neighbors(c as nat);
        }
        let mut exprs: Vec<Expr> = Vec::new();
        let mut j: usize = 0;
        while j < pred_ids.len()
            invariant
                self.wf(),
                c < self.count(),
                self.metered_group(c as nat),
                pred_ids@.to_set() == self.pred_ids(c as nat),
                forall|x: int| 0 <= x < self.pred(c as nat).len() ==> #[trigger] self.pred(c as nat)[x] < self.count(),
                j <= pred_ids.len(),
                exprs.len() == j,
                all_wf(exprs@),
                forall|x: int|
                    0 <= x < j ==> self.contains(#[trigger] pred_ids@[x]) && self.meter_term(
                        exprs@[x],
                        self.index_of(pred_ids@[x]),
                        prefer_meters,
                    ),
            decreases pred_ids.len() - j,
        {
            let id = pred_ids[j];
            proof {
                assert(pred_ids@.to_set().contains(id));
                let q = choose|q: int| 0 <= q < self.pred(c as nat).len() && self.id_at(#[trigger] self.pred(c as nat)[q]) == id;
                let p = self.pred(c as nat)[q];
                assert(self.node_indices@.contains_key(self.infos@[p as int].component_id));
                assert(self.contains(id) && self.index_of(id) == p);
                self.lemma_component_meter_falls_back(p);
            }
            let ghost e0 = exprs@;
            match self.position(id) {
                Some(p) => {
                    match self.meter_fallback(p, prefer_meters) {
                        Some(e) => exprs.push(e),
                        None => exprs.push(self.reading(p)),
                    }
                },
                None => {},
            }
            proof {
                assert forall|x: int| 0 <= x < j + 1 implies self.contains(#[trigger] pred_ids@[x]) && self.meter_term(
                    exprs@[x],
                    self.index_of(pred_ids@[x]),
                    prefer_meters,
                ) by {
                    if x < j {
                        assert(exprs@[x] == e0[x]);
                    }
                }
                assert forall|x: int| 0 <= x < exprs.len() implies wf(#[trigger] exprs@[x]) by {
                    if x < j {
                        assert(exprs@[x] == e0[x]);
                    }
                }
            }
            j = j + 1;
        }
        proof {
            assert(self.meter_terms(exprs@, pred_ids@, prefer_meters));
        }
        Some(exprs)
    }

    /// A single id, of a component whose predecessors are not all component
    /// meters, summed preferring meters: its fallback is worth its reading.
    pub open(crate) spec fn single_reading(&self, ids: Seq<u64>, prefer_meters: bool) -> bool {
        &&& ids.len() == 1
        &&& self.contains(ids[0])
        &&& prefer_meters
        &&& !self.metered_group(self.index_of(ids[0]))
    }

    pub open(crate) spec fn reading_spec(&self, c: nat) -> Expr {
        Expr::Component { component_id: self.id_at(c) }
    }

    /// The sum, with fallbacks where possible, of the components with the
    /// given ids (an ordered set). Meters fall back to the sum of their
    /// successors, and a complete group of battery inverters, solar
    /// inverters, CHPs or EV chargers to the meter above it; where
    /// `prefer_meters` holds the COALESCE puts the meter first.
    pub(crate) fn fallback_sum(&self, component_ids: &Vec<u64>, prefer_meters: bool) -> (r: Result<Expr, Error>)
        requires
            self.wf(),
            increasing(component_ids@),
        ensures
            r matches Ok(e) ==> wf(e),
            component_ids.len() == 0 ==> (r matches Err(e) && e.kind == ErrorKind::Internal && e.desc@
                == "Search for fallback components failed."@),
            r matches Err(e) ==> (e.kind == ErrorKind::ComponentNotFound && exists|k: int|
                0 <= k < component_ids.len() && !self.contains(#[trigger] component_ids@[k]))
                || e.kind == ErrorKind::Internal,
            self.single_reading(component_ids@, prefer_meters) ==> (r matches Ok(e) && forall|
                reading: spec_fn(u64) -> int,
            | #[trigger] eval(e, reading) == reading(component_ids@[0])),
            r matches Ok(e) ==> exists|terms: Seq<Expr>|
                #[trigger] self.fallback_terms(terms, component_ids@, prefer_meters) && Self::sum_of_terms(e, terms),
            r matches Err(e) ==> (e.kind == ErrorKind::Internal ==> self.fallback_terms(
                Seq::empty(),
                component_ids@,
                prefer_meters,
            )),
            (forall|k: int| 0 <= k < component_ids.len() ==> self.contains(#[trigger] component_ids@[k]))
                && !self.fallback_terms(Seq::empty(), component_ids@, prefer_meters) ==> r is Ok,
    {
        let ghost single = self.single_reading(component_ids@, prefer_meters);
        let mut work: Vec<u64> = Vec::new();
        let mut k: usize = 0;
        while k < component_ids.len()
            invariant
                k <= component_ids.len(),
                work@ == component_ids@.take(k as int),
            decreases component_ids.len() - k,
        {
            work.push(component_ids[k]);
            proof {
                assert(component_ids@.take(k as int + 1) =~= component_ids@.take(k as int).push(
                    component_ids@[k as int],
                ));
            }
            k = k + 1;
        }
        let mut exprs: Vec<Expr> = Vec::new();
        proof {
            assert(work@ =~= component_ids@);
            assert(work@.to_set().subset_of(component_ids@.to_set()));
            assert forall|tail: Seq<Expr>| #[trigger] self.fallback_terms(tail, work@, prefer_meters) implies self.fallback_terms(
                exprs@ + tail,
                component_ids@,
                prefer_meters,
            ) by {
                assert(exprs@ + tail =~= tail);
            }
        }
        while work.len() > 0
            invariant
                self.wf(),
                increasing(work@),
                work@.to_set().subset_of(component_ids@.to_set()),
                all_wf(exprs@),
                component_ids.len() == 0 ==> work.len() == 0 && exprs.len() == 0,
                single == self.single_reading(component_ids@, prefer_meters),
                single ==> (work@ == component_ids@ && exprs.len() == 0) || (work.len() == 0
                    && exprs.len() == 1 && forall|reading: spec_fn(u64) -> int| #[trigger] eval(exprs@[0], reading)
                    == reading(component_ids@[0])),
                forall|tail: Seq<Expr>| #[trigger] self.fallback_terms(tail, work@, prefer_meters) ==> self.fallback_terms(
                    exprs@ + tail,
                    component_ids@,
                    prefer_meters,
                ),
                forall|x: int| 0 <= x < exprs.len() ==> crate::expr::simple(#[trigger] exprs@[x]),
            decreases work.len(),
        {
            let ghost w0 = work@;
            let ghost e_before = exprs@;
            let id = work.remove(0);
            proof {
                assert(work@ =~= w0.drop_first());
                assert(w0.to_set().contains(w0[0]));
                assert forall|i: int, j: int| 0 <= i < j < work@.len() implies work@[i] < work@[j] by {
                    assert(work@[i] == w0[i + 1] && work@[j] == w0[j + 1]);
                }
                assert forall|x: u64| work@.to_set().contains(x) implies component_ids@.to_set().contains(x) by {
                    let i = choose|i: int| 0 <= i < work@.len() && work@[i] == x;
                    assert(w0[i + 1] == x);
                    assert(w0.to_set().contains(x));
                }
            }
            let c = match self.position(id) {
                Some(c) => c,
                None => {
                    proof {
                        assert(component_ids@.to_set().contains(id));
                    }
                    return Err(not_found(id));
                },
            };
            match self.meter_fallback(c, prefer_meters) {
                Some(e) => {
                    let ghost eg = e;
                    exprs.push(e);
                    proof {
                        if single {
                            assert(exprs@[0] == e);
                        }
                        assert forall|tail: Seq<Expr>| #[trigger] self.fallback_terms(tail, work@, prefer_meters) implies self.fallback_terms(
                            exprs@ + tail,
                            component_ids@,
                            prefer_meters,
                        ) by {
                            let t2 = seq![eg] + tail;
                            assert(t2.drop_first() =~= tail);
                            assert(t2[0] == eg);
                            assert(self.fallback_terms(t2, w0, prefer_meters));
                            assert(e_before + t2 =~= exprs@ + tail);
                        }
                        assert forall|x: int| 0 <= x < exprs.len() implies crate::expr::simple(#[trigger] exprs@[x]) by {
                            if x < e_before.len() {
                                assert(exprs@[x] == e_before[x]);
                            }
                        }
                    }
                },
                None => {
                    let ghost w1 = work@;
                    match self.component_fallback(&mut work, c, prefer_meters) {
                        Some(mut v) => {
                            let ghost e0 = exprs@;
                            let ghost v0 = v@;
                            exprs.append(&mut v);
                            proof {
                                if single {
                                    assert(exprs@ =~= e0 + v0);
                                    assert(exprs@[0] == self.reading_spec(c as nat));
                                    assert(work@.to_set().subset_of(w0.drop_first().to_set()));
                                    if work.len() > 0 {
                                        assert(work@.to_set().contains(work@[0]));
                                        assert(w0.drop_first().to_set().contains(work@[0]));
                                    }
                                }
                            }
                            proof {
                                assert forall|x: int| 0 <= x < exprs.len() implies wf(#[trigger] exprs@[x]) by {
                                    if x < e0.len() {
                                        assert(exprs@[x] == e0[x]);
                                    } else {
                                        assert(exprs@[x] == v0[x - e0.len()]);
                                    }
                                }
                                assert(work@.to_set().subset_of(component_ids@.to_set()));
                                assert(exprs@ =~= e0 + v0);
                                let fb = self.falls_back_to_meters(c as nat, w1.to_set());
                                let ps = if fb {
                                    choose|ps: Seq<u64>| increasing(ps) && #[trigger] ps.to_set() == self.pred_ids(c as nat)
                                        && self.meter_terms(v0, ps, prefer_meters)
                                } else {
                                    Seq::<u64>::empty()
                                };
                                assert forall|x: int| 0 <= x < exprs.len() implies crate::expr::simple(#[trigger] exprs@[x]) by {
                                    if x < e0.len() {
                                        assert(exprs@[x] == e0[x]);
                                    } else {
                                        assert(exprs@[x] == v0[x - e0.len()]);
                                        if fb {
                                            assert(self.meter_term(v0[x - e0.len()], self.index_of(ps[x - e0.len()]), prefer_meters));
                                        }
                                    }
                                }
                                assert forall|tail: Seq<Expr>| #[trigger] self.fallback_terms(tail, work@, prefer_meters) implies self.fallback_terms(
                                    exprs@ + tail,
                                    component_ids@,
                                    prefer_meters,
                                ) by {
                                    let t2 = v0 + tail;
                                    assert(e_before + t2 =~= exprs@ + tail);
                                    if fb {
                                        assert(t2.take(ps.len() as int) =~= v0);
                                        assert(t2.skip(ps.len() as int) =~= tail);
                                        let rest2 = work@;
                                        assert(ps.len() <= t2.len() && rest2.len() <= w1.len() && increasing(ps)
                                            && ps.to_set() == self.pred_ids(c as nat) && self.meter_terms(
                                            t2.take(ps.len() as int),
                                            ps,
                                            prefer_meters,
                                        ) && increasing(rest2) && rest2.to_set() == w1.to_set().difference(
                                            self.sibling_ids(c as nat),
                                        ) && self.fallback_terms(t2.skip(ps.len() as int), rest2, prefer_meters));
                                        assert(self.fallback_terms(t2, w0, prefer_meters));
                                    } else {
                                        assert(t2.drop_first() =~= tail);
                                        assert(t2[0] == self.reading_spec(c as nat));
                                        assert(self.fallback_terms(t2, w0, prefer_meters));
                                    }
                                }
                            }
                        },
                        None => {
                            let rd = self.reading(c);
                            let ghost rg = rd;
                            exprs.push(rd);
                            proof {
                                assert(work@ == w1);
                                assert forall|tail: Seq<Expr>| #[trigger] self.fallback_terms(tail, work@, prefer_meters) implies self.fallback_terms(
                                    exprs@ + tail,
                                    component_ids@,
                                    prefer_meters,
                                ) by {
                                    let t2 = seq![rg] + tail;
                                    assert(t2.drop_first() =~= tail);
                                    assert(t2[0] == rg);
                                    assert(self.fallback_terms(t2, w0, prefer_meters));
                                    assert(e_before + t2 =~= exprs@ + tail);
                                }
                                assert forall|x: int| 0 <= x < exprs.len() implies crate::expr::simple(#[trigger] exprs@[x]) by {
                                    if x < e_before.len() {
                                        assert(exprs@[x] == e_before[x]);
                                    }
                                }
                                if single {
                                    assert(work@.to_set().subset_of(w0.drop_first().to_set()));
                                    if work.len() > 0 {
                                        assert(work@.to_set().contains(work@[0]));
                                        assert(w0.drop_first().to_set().contains(work@[0]));
                                    }
                                }
                            }
                        },
                    }
                },
            }
        }
        proof {
            assert(exprs@ + Seq::<Expr>::empty() =~= exprs@);
            assert(self.fallback_terms(Seq::empty(), work@, prefer_meters));
            assert(self.fallback_terms(exprs@, component_ids@, prefer_meters));
        }
        if exprs.len() == 0 {
            proof {
                assert(exprs@ =~= Seq::<Expr>::empty());
            }
            return Err(Error::internal("Search for fallback components failed."));
        }
        let ghost all_terms = exprs@;
        let mut exprs = exprs;
        let mut sum = exprs.remove(0);
        let ghost mut taken: int = 1;
        proof {
            assert(all_wf(exprs@));
            assert(exprs@ =~= all_terms.skip(1));
            assert(all_terms.take(1) =~= seq![sum]);
        }
        while exprs.len() > 0
            invariant
                all_wf(exprs@),
                wf(sum),
                1 <= taken <= all_terms.len(),
                exprs@ == all_terms.skip(taken),
                forall|x: int| 0 <= x < all_terms.len() ==> crate::expr::simple(#[trigger] all_terms[x]),
                Self::sum_of_terms(sum, all_terms.take(taken)),
                self.fallback_terms(all_terms, component_ids@, prefer_meters),
                single ==> exprs.len() == 0 && forall|reading: spec_fn(u64) -> int| #[trigger] eval(sum, reading)
                    == reading(component_ids@[0]),
            decreases exprs.len(),
        {
            let ghost e0 = exprs@;
            let next = exprs.remove(0);
            proof {
                assert(wf(e0[0]));
                assert forall|x: int| 0 <= x < exprs.len() implies wf(#[trigger] exprs@[x]) by {
                    assert(exprs@[x] == e0[x + 1]);
                }
            }
            proof {
                assert(next == all_terms[taken]);
                assert(crate::expr::simple(all_terms[taken]));
                if taken > 1 {
                    assert(all_terms.take(taken + 1) =~= all_terms.take(taken).push(next));
                } else {
                    assert(all_terms.take(2) =~= seq![sum, next]);
                }
            }
            sum = sum.plus(next);
            proof {
                taken = taken + 1;
                assert(exprs@ =~= all_terms.skip(taken));
            }
        }
        proof {
            assert(all_terms.take(taken) =~= all_terms);
        }
        Ok(sum)
    }
}

impl<N: Node, E: Edge> ComponentGraph<N, E> {
    /// The sum, with fallbacks where possible, of the components with the
    /// given ids, taken as a set in increasing order (see `fallback_sum`).
    pub fn fallback_expr(&self, component_ids: Vec<u64>, prefer_meters: bool) -> (r: Result<Expr, Error>)
        requires
            self.wf(),
        ensures
            r matches Ok(e) ==> wf(e),
            component_ids.len() == 0 ==> (r matches Err(e) && e.kind == ErrorKind::Internal && e.desc@
                == "Search for fallback components failed."@),
            r matches Err(e) ==> (e.kind == ErrorKind::ComponentNotFound && exists|k: int|
                0 <= k < component_ids.len() && !self.contains(#[trigger] component_ids@[k]))
                || e.kind == ErrorKind::Internal,
            r matches Ok(e) ==> exists|ordered: Seq<u64>, terms: Seq<Expr>|
                increasing(ordered) && ordered.to_set() == component_ids@.to_set() && #[trigger] self.fallback_terms(
                    terms,
                    ordered,
                    prefer_meters,
                ) && Self::sum_of_terms(e, terms),
            r matches Err(e) ==> (e.kind == ErrorKind::Internal ==> exists|ordered: Seq<u64>|
                increasing(ordered) && ordered.to_set() == component_ids@.to_set() && #[trigger] self.fallback_terms(
                    Seq::empty(),
                    ordered,
                    prefer_meters,
                )),
    {
        let mut ordered: Vec<u64> = Vec::new();
        let mut k: usize = 0;
        while k < component_ids.len()
            invariant
                k <= component_ids.len(),
                increasing(ordered@),
                ordered@.to_set() == component_ids@.take(k as int).to_set(),
            decreases component_ids.len() - k,
        {
            insert_id(&mut ordered, component_ids[k]);
            proof {
                assert(component_ids@.take(k as int + 1) =~= component_ids@.take(k as int).push(component_ids@[k as int]));
                crate::idset::lemma_push_set(component_ids@.take(k as int), component_ids@[k as int]);
            }
            k = k + 1;
        }
        proof {
            assert(component_ids@.take(component_ids.len() as int) =~= component_ids@);
            if component_ids.len() == 0 {
                assert(ordered@.to_set() =~= Set::<u64>::empty());
                if ordered.len() > 0 {
                    assert(ordered@.to_set().contains(ordered@[0]));
                }
            }
        }
        let r = self.fallback_sum(&ordered, prefer_meters);
        proof {
            if r is Err && r->Err_0.kind == ErrorKind::Internal {
                assert(increasing(ordered@) && ordered@.to_set() == component_ids@.to_set()
                    && self.fallback_terms(Seq::empty(), ordered@, prefer_meters));
            }
            if r is Ok {
                let terms = choose|terms: Seq<Expr>| #[trigger] self.fallback_terms(terms, ordered@, prefer_meters)
                    && Self::sum_of_terms(r->Ok_0, terms);
                assert(increasing(ordered@) && ordered@.to_set() == component_ids@.to_set()
                    && self.fallback_terms(terms, ordered@, prefer_meters) && Self::sum_of_terms(r->Ok_0, terms));
            }
            if r is Err && r->Err_0.kind == ErrorKind::ComponentNotFound {
                {
                    let k = choose|k: int| 0 <= k < ordered.len() && !self.contains(#[trigger] ordered@[k]);
                    assert(ordered@.to_set().contains(ordered@[k]));
                    let j = choose|j: int| 0 <= j < component_ids.len() && component_ids@[j] == ordered@[k];
                    assert(!self.contains(component_ids@[j]));
                }
            }
        }
        r
    }
}

} // verus!
