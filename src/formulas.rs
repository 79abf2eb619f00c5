//! The formulas for aggregated metrics of the microgrid: grid, producer,
//! consumer, and the PV, battery, CHP and EV charger sums.

use crate::error::{Error, ErrorKind};
use crate::expr::{clamp_at_zero, eval, or_zero, render, wf, Expr};
use crate::graph::ComponentGraph;
use crate::idset::{holds, increasing, insert_id, ordered_ids, remove_id};
use crate::retrieval::not_found;
use crate::text::{push_dec, push_str};
use crate::traits::{Edge, Node};
use crate::traversal::NodeFilter;
use std::collections::BTreeSet;
use vstd::prelude::*;

verus! {

/// The text of an empty formula.
pub open spec fn zero_text() -> Seq<char> {
    "0.0"@
}

fn zero_formula() -> (r: String)
    ensures
        r@ == zero_text(),
{
    let mut s = String::new();
    push_str(&mut s, "0.0");
    s
}

/// The sum of the two, where there is a first one, keeping the sign that
/// both have.
fn add_signed(acc: Option<Expr>, e: Expr, nonneg: bool) -> (r: Option<Expr>)
    requires
        acc matches Some(a) ==> wf(a) && forall|reading: spec_fn(u64) -> int| #[trigger] signed(eval(a, reading), nonneg),
        wf(e),
        forall|reading: spec_fn(u64) -> int| #[trigger] signed(eval(e, reading), nonneg),
    ensures
        r matches Some(x) && wf(x) && forall|reading: spec_fn(u64) -> int| #[trigger] signed(eval(x, reading), nonneg),
        acc is None ==> r == Some(e),
        acc matches Some(a) ==> (crate::expr::simple(e) ==> ((crate::expr::simple(a) ==> r->Some_0 is Add
            && r->Some_0->Add_params@ == seq![a, e]) && (a is Add ==> r->Some_0 is Add && r->Some_0->Add_params@
            == a->Add_params@.push(e)))),
        acc matches Some(a) ==> (e is Add ==> ((crate::expr::simple(a) ==> r->Some_0 is Add
            && r->Some_0->Add_params@ == seq![a] + e->Add_params@) && (a is Add ==> r->Some_0 is Add
            && r->Some_0->Add_params@ == a->Add_params@ + e->Add_params@))),
{
    match acc {
        None => Some(e),
        Some(a) => {
            let ghost ag = a;
            let ghost eg = e;
            let x = a.plus(e);
            proof {
                assert forall|reading: spec_fn(u64) -> int| #[trigger] signed(eval(x, reading), nonneg) by {
                    assert(signed(eval(ag, reading), nonneg));
                    assert(signed(eval(eg, reading), nonneg));
                }
            }
            Some(x)
        },
    }
}

/// The value is at least zero (`nonneg`) or at most zero.
pub open spec fn signed(v: int, nonneg: bool) -> bool {
    if nonneg {
        v >= 0
    } else {
        v <= 0
    }
}

/// The formula is `0.0`, or prints an expression whose value, with every
/// reading present, has the sign.
pub open spec fn signed_formula(s: Seq<char>, nonneg: bool) -> bool {
    s == zero_text() || exists|e: Expr| wf(e) && s == render(e, false) && forall|reading: spec_fn(u64) -> int|
        #[trigger] signed(eval(e, reading), nonneg)
}

/// The printed expression, or `0.0` where there is none.
fn print_or_zero(e: Option<Expr>) -> (r: String)
    requires
        e matches Some(x) ==> wf(x),
    ensures
        e is None ==> r@ == zero_text(),
        e matches Some(x) ==> r@ == render(x, false),
{
    match e {
        Some(x) => x.to_string(),
        None => zero_formula(),
    }
}

impl<N: Node, E: Edge> ComponentGraph<N, E> {
    /// No component reachable from the root passes the filter.
    pub open(crate) spec fn none_below_root(&self, f: NodeFilter) -> bool {
        forall|j: nat| j < self.count() ==> !(#[trigger] self.passes(f, j) && self.reaches(self.root_position(), j))
    }

    /// No meter is below the root, and every successor of the root is a
    /// meter or a battery inverter.
    pub open(crate) spec fn no_consumers(&self) -> bool {
        &&& self.none_below_root(NodeFilter::Meters)
        &&& forall|k: int|
            0 <= k < self.succ(self.root_position()).len() ==> {
                let c = self.category_at(#[trigger] self.succ(self.root_position())[k]);
                c is Meter || crate::category::battery_inverter(
                    c,
                    self.configuration().allow_unspecified_inverters,
                )
            }
    }

    /// `t` is the grid term of position `p`: its meter fallback, preferring
    /// meters, where it is a meter with successors none of which is a meter,
    /// else its reading.
    pub open(crate) spec fn grid_term(&self, t: Expr, p: nat) -> bool {
        if self.fallback_meter(p) {
            self.meter_term(t, p, true)
        } else {
            t == self.reading_spec(p)
        }
    }

    /// The text of the grid formula: `0.0` without successors of the root,
    /// else the printed sum of their grid terms, the most recently connected
    /// last.
    pub open(crate) spec fn grid_text(&self, s: Seq<char>) -> bool {
        let ss = self.succ(self.root_position());
        if ss.len() == 0 {
            s == zero_text()
        } else {
            exists|ts: Seq<Expr>, e: Expr|
                ts.len() == ss.len() && (forall|k: int|
                    0 <= k < ts.len() ==> self.grid_term(#[trigger] ts[k], ss[ss.len() - 1 - k]))
                    && #[trigger] Self::sum_of_terms(e, ts) && s == render(e, false)
        }
    }

    /// The fallback expression of a single component.
    fn single_fallback(&self, c: usize, prefer_meters: bool) -> (r: Result<Expr, Error>)
        requires
            self.wf(),
            c < self.count(),
        ensures
            r matches Ok(e) ==> wf(e),
            prefer_meters && !self.metered_group(c as nat) ==> (r matches Ok(e) && forall|
                reading: spec_fn(u64) -> int,
            | #[trigger] eval(e, reading) == reading(self.id_at(c as nat))),
            prefer_meters && !self.metered_group(c as nat) ==> (r matches Ok(e) && self.grid_term(e, c as nat)),
    {
        let ids = vec![self.info(c).component_id];
        proof {
            assert(self.contains(self.id_at(c as nat)));
            assert(ids@[0] == self.id_at(c as nat));
            assert(self.node_indices@.contains_key(self.infos@[c as int].component_id));
            assert(self.index_of(ids@[0]) == c as nat);
        }
        let r = self.fallback_sum(&ids, prefer_meters);
        proof {
            if r is Ok {
                let e = r->Ok_0;
                let terms = choose|terms: Seq<Expr>| #[trigger] self.fallback_terms(terms, ids@, prefer_meters)
                    && Self::sum_of_terms(e, terms);
                assert(ids@.drop_first() =~= Seq::<u64>::empty());
                if prefer_meters && !self.metered_group(c as nat) {
                    assert(!self.falls_back_to_meters(c as nat, ids@.drop_first().to_set()));
                    assert(self.fallback_terms(terms.drop_first(), Seq::empty(), prefer_meters));
                    assert(e == terms[0]);
                }
            }
        }
        r
    }

    /// The grid formula: the sum of the fallback expressions, preferring
    /// meters, of the successors of the root; `0.0` without successors. With
    /// every reading present it is worth the sum of the readings of the
    /// root's successors.
    pub fn grid_formula(&self) -> (r: Result<String, Error>)
        requires
            self.wf(),
        ensures
            r is Ok,
            self.succ(self.root_position()).len() == 0 ==> (r matches Ok(s) && s@ == zero_text()),
            self.succ(self.root_position()).len() > 0 ==> (r matches Ok(s) && exists|e: Expr|
                wf(e) && s@ == render(e, false) && forall|reading: spec_fn(u64) -> int| #[trigger]
                    eval(e, reading) == self.readings_of(self.succ(self.root_position()), reading)),
            r matches Ok(s) ==> self.grid_text(s@),
    {
        let root = self.root_pos();
        let succs = self.successor_positions(root);
        let ghost ss = self.succ(root as nat);
        proof {
            self.lemma_neighbors(root as nat);
        }
        let mut expr: Option<Expr> = None;
        let ghost mut ts: Seq<Expr> = Seq::empty();
        let mut k: usize = 0;
        while k < succs.len()
            invariant
                self.wf(),
                root == self.root_position(),
                ss == self.succ(root as nat),
                k <= succs.len(),
                succs.len() == ss.len(),
                forall|x: int| 0 <= x < succs.len() ==> #[trigger] succs@[x] as nat == ss[x],
                forall|x: int| 0 <= x < succs.len() ==> #[trigger] succs@[x] < self.count(),
                forall|x: int| 0 <= x < ss.len() ==> self.links().contains((root as nat, #[trigger] ss[x])),
                expr matches Some(e) ==> wf(e),
                k == 0 <==> expr is None,
                expr matches Some(e) ==> forall|reading: spec_fn(u64) -> int| #[trigger] eval(e, reading)
                    == self.readings_of(ss.take(k as int), reading),
                ts.len() == k,
                forall|x: int| 0 <= x < k ==> self.grid_term(#[trigger] ts[x], ss[k - 1 - x]),
                forall|x: int| 0 <= x < k ==> crate::expr::simple(#[trigger] ts[x]),
                expr matches Some(e) ==> Self::sum_of_terms(e, ts),
            decreases succs.len() - k,
        {
            let s = succs[k];
            proof {
                assert(self.links().contains((root as nat, ss[k as int])));
                crate::topology::lemma_source_is_predecessor(self.links(), root as nat, s as nat);
                let q = choose|q: int| 0 <= q < self.pred(s as nat).len() && self.pred(s as nat)[q] == root as nat;
                assert(!self.component_meter(self.pred(s as nat)[q]));
                assert(!self.metered_group(s as nat));
            }
            let e = match self.single_fallback(s, true) {
                Ok(e) => e,
                Err(err) => return Err(err),
            };
            let ghost before = expr;
            let ghost eg = e;
            expr = match expr {
                None => Some(e),
                Some(acc) => Some(e.plus(acc)),
            };
            proof {
                assert(self.grid_term(eg, s as nat));
                assert(crate::expr::simple(eg));
                let t0 = ts;
                ts = seq![eg] + t0;
                assert forall|x: int| 0 <= x < k + 1 implies self.grid_term(#[trigger] ts[x], ss[k + 1 - 1 - x]) by {
                    if x > 0 {
                        assert(ts[x] == t0[x - 1]);
                    } else {
                        assert(ss[k as int] == s as nat);
                    }
                }
                assert forall|x: int| 0 <= x < k + 1 implies crate::expr::simple(#[trigger] ts[x]) by {
                    if x > 0 {
                        assert(ts[x] == t0[x - 1]);
                    }
                }
                if k == 1 {
                    assert(before->Some_0 == t0[0]);
                    assert(ts =~= seq![eg, t0[0]]);
                } else if k > 1 {
                    assert(before->Some_0 is Add);
                }
                if k == 0 {
                    assert(ts =~= seq![eg]);
                }
                assert(ss.take(k as int + 1).drop_last() =~= ss.take(k as int));
                assert(ss.take(k as int + 1).last() == s as nat);
                assert forall|reading: spec_fn(u64) -> int| #[trigger] eval(expr->Some_0, reading)
                    == self.readings_of(ss.take(k as int + 1), reading) by {
                    assert(eval(eg, reading) == reading(self.id_at(s as nat)));
                    if k == 0 {
                        assert(ss.take(0) =~= Seq::<nat>::empty());
                        assert(expr->Some_0 == eg);
                        assert(self.readings_of(ss.take(0), reading) == 0);
                    } else {
                        assert(eval(expr->Some_0, reading) == eval(eg, reading) + eval(before->Some_0, reading));
                    }
                }
            }
            k = k + 1;
        }
        proof {
            assert(ss.take(succs.len() as int) =~= ss);
        }
        let r = print_or_zero(expr);
        proof {
            if expr is Some {
                let x = expr->Some_0;
                assert(ts.len() == ss.len() && (forall|k: int|
                    0 <= k < ts.len() ==> self.grid_term(#[trigger] ts[k], ss[ss.len() - 1 - k]))
                    && Self::sum_of_terms(x, ts) && r@ == render(x, false));
            }
        }
        Ok(r)
    }

    /// The producer formula: for each PV meter, CHP meter, solar inverter or
    /// CHP below the root (not looking below one that is found), the fallback
    /// expression clamped by `MIN(0.0, ..)`, summed; `0.0` without any.
    pub fn producer_formula(&self) -> (r: Result<String, Error>)
        requires
            self.wf(),
        ensures
            self.none_below_root(NodeFilter::Producers) ==> (r matches Ok(s) && s@ == zero_text()),
            r is Ok,
            r matches Ok(s) ==> signed_formula(s@, false),
            r matches Ok(s) ==> self.producer_text(s@),
    {
        let ids = self.find_all_at(self.root_pos(), NodeFilter::Producers, false);
        let f = NodeFilter::Producers;
        proof {
            if self.none_below_root(NodeFilter::Producers) && ids.len() > 0 {
                assert(self.found_below(self.root_position(), NodeFilter::Producers, ids@[0]));
            }
            assert(ids@.to_set() =~= self.searched_ids(f)) by {
                assert forall|x: u64| ids@.to_set().contains(x) == self.searched_ids(f).contains(x) by {
                    if ids@.contains(x) {
                        let k = choose|k: int| 0 <= k < ids.len() && ids@[k] == x;
                        assert(self.found_by_search(self.root_position(), f, false, ids@[k]));
                    }
                    if self.searched_ids(f).contains(x) {
                        let j = choose|j: nat|
                            j < self.count() && #[trigger] self.id_at(j) == x && self.passes(f, j)
                                && self.search_reaches(self.root_position(), j, f, false);
                        assert(ids@.contains(self.id_at(j)));
                    }
                }
            }
        }
        proof {
            assert forall|k: int| 0 <= k < ids.len() implies self.contains(#[trigger] ids@[k]) && self.pred(
                self.index_of(ids@[k]),
            ).len() > 0 by {
                assert(self.found_below(self.root_position(), f, ids@[k]));
                let j = choose|j: nat|
                    j < self.count() && #[trigger] self.id_at(j) == ids@[k] && self.passes(f, j) && self.reaches(
                        self.root_position(),
                        j,
                    );
                assert(self.node_indices@.contains_key(self.infos@[j as int].component_id));
                assert(j != self.root_position());
                self.lemma_reached_has_pred(self.root_position(), j);
            }
        }
        let mut expr: Option<Expr> = None;
        let ghost mut ts: Seq<Expr> = Seq::empty();
        let mut k: usize = 0;
        while k < ids.len()
            invariant
                self.wf(),
                self.none_below_root(NodeFilter::Producers) ==> ids.len() == 0,
                k <= ids.len(),
                forall|q: int| 0 <= q < ids.len() ==> self.contains(#[trigger] ids@[q]) && self.pred(
                    self.index_of(ids@[q]),
                ).len() > 0,
                expr matches Some(e) ==> wf(e) && forall|reading: spec_fn(u64) -> int| #[trigger] signed(eval(e, reading), false),
                k == 0 <==> expr is None,
                ts.len() == k,
                forall|x: int| 0 <= x < k ==> self.producer_term(#[trigger] ts[x], ids@[x]),
                expr matches Some(e) ==> Self::sum_of_terms(e, ts),
            decreases ids.len() - k,
        {
            let one = vec![ids[k]];
            proof {
                assert(one@ =~= seq![ids@[k as int]]);
                self.lemma_terms_nonempty(one@, false);
            }
            let e = self.fallback_sum(&one, false)?;
            let term = clamp_at_zero(e, true);
            let ghost tg = term;
            let ghost before = expr;
            proof {
                let terms = choose|terms: Seq<Expr>| #[trigger] self.fallback_terms(terms, one@, false)
                    && Self::sum_of_terms(e, terms);
                assert(self.fallback_terms(terms, seq![ids@[k as int]], false));
                assert(self.producer_term(tg, ids@[k as int]));
            }
            expr = add_signed(expr, term, false);
            proof {
                let ts0 = ts;
                ts = ts.push(tg);
                assert forall|x: int| 0 <= x < k + 1 implies self.producer_term(#[trigger] ts[x], ids@[x]) by {
                    if x < k {
                        assert(ts[x] == ts0[x]);
                    }
                }
                if k == 0 {
                    assert(ts =~= seq![tg]);
                } else if k == 1 {
                    assert(ts0.len() == 1);
                    assert(before->Some_0 == ts0[0]);
                    assert(crate::expr::simple(before->Some_0));
                    assert(ts =~= seq![ts0[0], tg]);
                } else {
                    assert(before->Some_0 is Add);
                }
            }
            k = k + 1;
        }
        let r = print_or_zero(expr);
        proof {
            if expr is Some {
                let x = expr->Some_0;
                assert(wf(x) && r@ == render(x, false));
                assert(increasing(ids@) && ids@.to_set() == self.searched_ids(f) && ids@.len() >= 1 && ts.len()
                    == ids@.len() && (forall|k: int| 0 <= k < ts.len() ==> self.producer_term(#[trigger] ts[k], ids@[k]))
                    && Self::sum_of_terms(x, ts) && r@ == render(x, false));
            } else {
                assert(ids@.to_set() =~= Set::<u64>::empty());
            }
        }
        Ok(r)
    }

    /// The ids of the successors of position `c` and of the listed
    /// siblings.
    pub open(crate) spec fn merged_upto(&self, c: nat, sibs: Seq<nat>) -> Set<u64> {
        Set::new(
            |x: u64|
                exists|p: nat, q: int|
                    (p == c || sibs.contains(p)) && 0 <= q < self.succ(p).len() && self.id_at(
                        #[trigger] self.succ(p)[q],
                    ) == x,
        )
    }

    /// `t` is what the consumption of a meter subtracts for the successor
    /// with the id: a meter's fallback, preferring meters, or else the
    /// reading.
    pub open(crate) spec fn sub_term(&self, t: Expr, id: u64) -> bool {
        &&& self.contains(id)
        &&& if self.category_at(self.index_of(id)) is Meter && self.fallback_meter(self.index_of(id)) {
            self.meter_term(t, self.index_of(id), true)
        } else {
            t == self.reading_spec(self.index_of(id))
        }
    }

    /// The consumptions of the meters of the work set (ids in increasing
    /// order): that of the smallest, then those of the ones left once it and
    /// its siblings that share successors with it are accounted for.
    pub open(crate) spec fn meter_consumptions(&self, ts: Seq<Expr>, work: Seq<u64>) -> bool
        decreases work.len(),
    {
        if work.len() == 0 {
            ts.len() == 0
        } else if !self.contains(work[0]) {
            false
        } else {
            let c = self.index_of(work[0]);
            ts.len() >= 1 && self.consumption_of(ts[0], c) && exists|rest2: Seq<u64>|
                rest2.len() < work.len() && increasing(rest2) && #[trigger] rest2.to_set() == work.drop_first().to_set().difference(
                    self.used_ids(c),
                ) && self.meter_consumptions(ts.drop_first(), rest2)
        }
    }

    /// The position is a successor of the root that the consumer formula
    /// takes on its own: neither a meter nor a battery inverter.
    pub open(crate) spec fn other_consumer(&self, x: nat) -> bool {
        !(self.category_at(x) is Meter) && !crate::category::battery_inverter(
            self.category_at(x),
            self.configuration().allow_unspecified_inverters,
        )
    }

    /// The consumptions of those of the positions that are neither meters
    /// nor battery inverters, in order.
    pub open(crate) spec fn other_consumptions(&self, ts: Seq<Expr>, xs: Seq<nat>) -> bool
        decreases xs.len(),
    {
        if xs.len() == 0 {
            ts.len() == 0
        } else if self.other_consumer(xs[0]) {
            ts.len() >= 1 && self.consumption_of(ts[0], xs[0]) && self.other_consumptions(ts.drop_first(), xs.drop_first())
        } else {
            self.other_consumptions(ts, xs.drop_first())
        }
    }

    /// The ids of the meters that the search from the root reaches.
    pub open(crate) spec fn meter_ids(&self) -> Set<u64> {
        Set::new(
            |x: u64|
                exists|j: nat|
                    j < self.count() && #[trigger] self.id_at(j) == x && self.passes(NodeFilter::Meters, j)
                        && self.search_reaches(self.root_position(), j, NodeFilter::Meters, true),
        )
    }

    /// The text of the consumer formula: the consumptions of the meters
    /// below the root (in increasing id order, meters sharing successors
    /// counted together), then those of the other successors of the root,
    /// summed and printed; `0.0` where there are none.
    pub open(crate) spec fn consumer_text(&self, s: Seq<char>) -> bool {
        exists|ordered: Seq<u64>, mts: Seq<Expr>, ots: Seq<Expr>|
            increasing(ordered) && ordered.to_set() == self.meter_ids() && #[trigger] self.meter_consumptions(mts, ordered)
                && #[trigger] self.other_consumptions(ots, self.succ(self.root_position())) && ((mts + ots).len() == 0
                ==> s == zero_text()) && ((mts + ots).len() > 0 ==> exists|e: Expr|
                #[trigger] Self::sum_of_terms(e, mts + ots) && s == render(e, false))
    }

    /// The ids that the consumption of position `c` accounts for: its own
    /// and, for a meter, those of the siblings that share successors with it.
    pub open(crate) spec fn used_ids(&self, c: nat) -> Set<u64> {
        if self.category_at(c) is Meter {
            Set::new(
                |x: u64|
                    x == self.id_at(c) || exists|t: nat| #[trigger] self.sibling_seq(c, false).contains(t) && self.id_at(t) == x,
            )
        } else {
            Set::empty()
        }
    }

    /// `e` is `MAX(0.0, inner)`.
    pub open(crate) spec fn max_zero(e: Expr, inner: Expr) -> bool {
        e is Max && e->Max_params@ == seq![Expr::Number { units: 0, scale: 0 }, inner]
    }

    /// `e` is the consumption of position `c`. For a meter: its reading plus
    /// those of its siblings that share successors with it (in the order
    /// listed), less, in increasing id order, the term of each successor of
    /// any of them, clamped by `MAX(0.0, ..)`, and in `COALESCE(.., 0.0)`
    /// where the meter has successors and none of them is a meter. For any
    /// other component: `MAX(0.0, #c)`.
    pub open(crate) spec fn consumption_of(&self, e: Expr, c: nat) -> bool {
        if !(self.category_at(c) is Meter) {
            Self::max_zero(e, self.reading_spec(c))
        } else {
            let sibs = self.sibling_seq(c, false);
            exists|head: Expr, subs: Seq<Expr>, ordered: Seq<u64>, inner: Expr|
                #[trigger] self.consumption_parts(e, c, sibs, head, subs, ordered, inner)
        }
    }

    pub open(crate) spec fn consumption_parts(
        &self,
        e: Expr,
        c: nat,
        sibs: Seq<nat>,
        head: Expr,
        subs: Seq<Expr>,
        ordered: Seq<u64>,
        inner: Expr,
    ) -> bool {
        &&& sibs.len() == 0 ==> head == self.reading_spec(c)
        &&& sibs.len() > 0 ==> head is Add && head->Add_params@ == self.reading_terms(seq![c] + sibs)
        &&& increasing(ordered)
        &&& ordered.to_set() == self.merged_upto(c, sibs)
        &&& subs.len() == ordered.len()
        &&& forall|k: int| 0 <= k < subs.len() ==> self.sub_term(#[trigger] subs[k], ordered[k])
        &&& subs.len() == 0 ==> inner == head
        &&& subs.len() > 0 ==> inner is Sub && inner->Sub_params@ == seq![head] + subs
        &&& if self.succ(c).len() > 0 && forall|k: int|
            0 <= k < self.succ(c).len() ==> !(self.category_at(#[trigger] self.succ(c)[k]) is Meter) {
            e is Coalesce && e->Coalesce_params@.len() == 2 && e->Coalesce_params@[1] == (Expr::Number {
                units: 0,
                scale: 0,
            }) && Self::max_zero(e->Coalesce_params@[0], inner)
        } else {
            Self::max_zero(e, inner)
        }
    }

    /// The consumption of one component: for a meter, its reading plus the
    /// readings of the meters that share successors with it, less each of
    /// their successors (a meter's fallback expression, preferring meters),
    /// clamped by `MAX(0.0, ..)`, and in `COALESCE(.., 0.0)` where the meter
    /// has successors and none of them is a meter; for any other component,
    /// its reading clamped by `MAX(0.0, ..)`. The meters used leave
    /// `unvisited`.
    fn component_consumption(&self, c: usize, unvisited: &mut Vec<u64>) -> (r: Result<Expr, Error>)
        requires
            self.wf(),
            c < self.count(),
            increasing(old(unvisited)@),
        ensures
            increasing(final(unvisited)@),
            final(unvisited)@.len() <= old(unvisited)@.len(),
            r matches Ok(e) ==> wf(e) && forall|reading: spec_fn(u64) -> int| #[trigger] eval(e, reading) >= 0,
            r is Ok,
            r matches Ok(e) ==> self.consumption_of(e, c as nat),
            r is Ok ==> final(unvisited)@.to_set() == old(unvisited)@.to_set().difference(self.used_ids(c as nat)),
    {
        let info = self.info(c);
        if !info.category.is_meter() {
            proof {
                assert(old(unvisited)@.to_set().difference(self.used_ids(c as nat)) =~= old(unvisited)@.to_set());
            }
            return Ok(clamp_at_zero(self.reading(c), false));
        }
        remove_id(unvisited, info.component_id);
        let ghost u_start = old(unvisited)@.to_set();
        let mut expr = self.reading(c);
        let mut succ_ids: Vec<u64> = Vec::new();
        let own = self.successor_positions(c);
        let ghost cn = c as nat;
        let mut k: usize = 0;
        proof {
            assert(succ_ids@.to_set() =~= Set::<u64>::empty());
        }
        while k < own.len()
            invariant
                self.wf(),
                cn == c as nat,
                c < self.count(),
                increasing(unvisited@),
                unvisited@.len() <= old(unvisited)@.len(),
                k <= own.len(),
                own.len() == self.succ(cn).len(),
                forall|x: int| 0 <= x < own.len() ==> #[trigger] own@[x] as nat == self.succ(cn)[x],
                forall|x: int| 0 <= x < own.len() ==> #[trigger] own@[x] < self.count(),
                increasing(succ_ids@),
                succ_ids@.to_set() == Set::new(|x: u64| exists|q: int| 0 <= q < k && self.id_at(#[trigger] self.succ(cn)[q]) == x),
            decreases own.len() - k,
        {
            insert_id(&mut succ_ids, self.info(own[k]).component_id);
            proof {
                assert(succ_ids@.to_set() =~= Set::new(|x: u64| exists|q: int| 0 <= q < k + 1 && self.id_at(#[trigger] self.succ(cn)[q]) == x)) by {
                    assert(self.id_at(self.succ(cn)[k as int]) == self.id_at(own@[k as int] as nat));
                }
            }
            k = k + 1;
        }
        proof {
            assert(succ_ids@.to_set() =~= self.merged_upto(cn, Seq::empty()));
        }
        let siblings = self.sibling_positions(c, false);
        let ghost sibs = crate::validation::nats(siblings@);
        let mut k: usize = 0;
        proof {
            assert(sibs.take(0) =~= Seq::<nat>::empty());
            assert(unvisited@.to_set() =~= u_start.difference(
                Set::new(|x: u64| x == self.id_at(cn) || exists|q: int| 0 <= q < 0 && self.id_at(#[trigger] sibs[q]) == x),
            ));
        }
        while k < siblings.len()
            invariant
                self.wf(),
                cn == c as nat,
                c < self.count(),
                sibs == crate::validation::nats(siblings@),
                k <= siblings.len(),
                forall|x: int| 0 <= x < siblings.len() ==> #[trigger] siblings@[x] < self.count(),
                increasing(succ_ids@),
                succ_ids@.to_set() == self.merged_upto(cn, sibs.take(k as int)),
                increasing(unvisited@),
                unvisited@.len() <= old(unvisited)@.len(),
                u_start == old(unvisited)@.to_set(),
                unvisited@.to_set() == u_start.difference(
                    Set::new(|x: u64| x == self.id_at(cn) || exists|q: int| 0 <= q < k && self.id_at(#[trigger] sibs[q]) == x),
                ),
                wf(expr),
                k == 0 ==> expr == self.reading_spec(cn),
                k > 0 ==> expr is Add && expr->Add_params@ == self.reading_terms(seq![cn] + sibs.take(k as int)),
            decreases siblings.len() - k,
        {
            let s = siblings[k];
            let ghost before = expr;
            let rd = self.reading(s);
            expr = expr.plus(rd);
            proof {
                assert(sibs[k as int] == s as nat);
                if k == 0 {
                    assert(self.reading_terms(seq![cn] + sibs.take(1)) =~= seq![before, rd]);
                } else {
                    assert(self.reading_terms(seq![cn] + sibs.take(k as int + 1)) =~= self.reading_terms(
                        seq![cn] + sibs.take(k as int),
                    ).push(rd));
                }
            }
            let ghost u0 = unvisited@.to_set();
            remove_id(unvisited, self.info(s).component_id);
            proof {
                assert(unvisited@.to_set() =~= u_start.difference(
                    Set::new(|x: u64| x == self.id_at(cn) || exists|q: int| 0 <= q < k + 1 && self.id_at(#[trigger] sibs[q]) == x),
                )) by {
                    assert(self.id_at(sibs[k as int]) == self.id_at(s as nat));
                }
            }
            let ghost u1 = unvisited@;
            let more = self.successor_positions(s);
            let ghost base = succ_ids@.to_set();
            let mut j: usize = 0;
            while j < more.len()
                invariant
                    self.wf(),
                    s < self.count(),
                    j <= more.len(),
                    more.len() == self.succ(s as nat).len(),
                    forall|x: int| 0 <= x < more.len() ==> #[trigger] more@[x] as nat == self.succ(s as nat)[x],
                    forall|x: int| 0 <= x < more.len() ==> #[trigger] more@[x] < self.count(),
                    increasing(succ_ids@),
                    succ_ids@.to_set() == base.union(
                        Set::new(|x: u64| exists|q: int| 0 <= q < j && self.id_at(#[trigger] self.succ(s as nat)[q]) == x),
                    ),
                    increasing(unvisited@),
                    unvisited@ == u1,
                    unvisited@.len() <= old(unvisited)@.len(),
                decreases more.len() - j,
            {
                insert_id(&mut succ_ids, self.info(more[j]).component_id);
                proof {
                    assert(succ_ids@.to_set() =~= base.union(
                        Set::new(|x: u64| exists|q: int| 0 <= q < j + 1 && self.id_at(#[trigger] self.succ(s as nat)[q]) == x),
                    )) by {
                        assert(self.id_at(self.succ(s as nat)[j as int]) == self.id_at(more@[j as int] as nat));
                    }
                }
                j = j + 1;
            }
            proof {
                let pre = sibs.take(k as int);
                let post = sibs.take(k as int + 1);
                assert(post =~= pre.push(s as nat));
                assert(succ_ids@.to_set() =~= self.merged_upto(cn, post)) by {
                    assert forall|x: u64| succ_ids@.to_set().contains(x) == self.merged_upto(cn, post).contains(x) by {
                        if self.merged_upto(cn, post).contains(x) {
                            let (p, q) = choose|p: nat, q: int|
                                (p == cn || post.contains(p)) && 0 <= q < self.succ(p).len() && self.id_at(
                                    #[trigger] self.succ(p)[q],
                                ) == x;
                            if p != cn && !pre.contains(p) {
                                assert(p == s as nat);
                            }
                        }
                        if base.contains(x) {
                            let (p, q) = choose|p: nat, q: int|
                                (p == cn || pre.contains(p)) && 0 <= q < self.succ(p).len() && self.id_at(
                                    #[trigger] self.succ(p)[q],
                                ) == x;
                            if p != cn {
                                let z = choose|z: int| 0 <= z < pre.len() && pre[z] == p;
                                assert(post[z] == p);
                            }
                        }
                        if succ_ids@.to_set().contains(x) && !base.contains(x) {
                            let q = choose|q: int| 0 <= q < j && self.id_at(#[trigger] self.succ(s as nat)[q]) == x;
                            assert(post[k as int] == s as nat);
                        }
                    }
                }
            }
            k = k + 1;
        }
        proof {
            assert(sibs.take(siblings.len() as int) =~= sibs);
            assert(sibs == self.sibling_seq(cn, false));
            assert(unvisited@.to_set() =~= u_start.difference(self.used_ids(cn))) by {
                assert(Set::new(|x: u64| x == self.id_at(cn) || exists|q: int| 0 <= q < siblings.len() && self.id_at(#[trigger] sibs[q]) == x)
                    =~= self.used_ids(cn)) by {
                    assert forall|x: u64| (x == self.id_at(cn) || exists|q: int| 0 <= q < siblings.len() && self.id_at(#[trigger] sibs[q]) == x)
                        == self.used_ids(cn).contains(x) by {
                        if exists|q: int| 0 <= q < siblings.len() && self.id_at(#[trigger] sibs[q]) == x {
                            let q = choose|q: int| 0 <= q < siblings.len() && self.id_at(#[trigger] sibs[q]) == x;
                            assert(sibs.contains(sibs[q]));
                        }
                        if self.used_ids(cn).contains(x) && x != self.id_at(cn) {
                            let t = choose|t: nat| #[trigger] sibs.contains(t) && self.id_at(t) == x;
                            let q = choose|q: int| 0 <= q < sibs.len() && sibs[q] == t;
                            assert(self.id_at(sibs[q]) == x);
                        }
                    }
                }
            }
        }
        let ghost u_end = unvisited@;
        proof {
            assert forall|q: int| 0 <= q < succ_ids.len() implies self.contains(#[trigger] succ_ids@[q])
                && self.pred(self.index_of(succ_ids@[q])).len() > 0 by {
                let x = succ_ids@[q];
                assert(succ_ids@.to_set().contains(x));
                assert(self.merged_upto(cn, sibs).contains(x));
                let (p, qq) = choose|p: nat, qq: int|
                    (p == cn || sibs.contains(p)) && 0 <= qq < self.succ(p).len() && self.id_at(
                        #[trigger] self.succ(p)[qq],
                    ) == x;
                let y = self.succ(p)[qq];
                crate::topology::lemma_neighbors_are_ends(self.links(), p);
                assert(self.links().contains((p, y)));
                let e = choose|e: int| 0 <= e < self.links().len() && self.links()[e] == (p, y);
                assert(self.links()[e].1 < self.count());
                assert(self.node_indices@.contains_key(self.infos@[y as int].component_id));
                assert(self.index_of(x) == y);
                crate::topology::lemma_source_is_predecessor(self.links(), p, y);
            }
        }
        let ghost head = expr;
        let ghost mut subs: Seq<Expr> = Seq::empty();
        let mut k: usize = 0;
        while k < succ_ids.len()
            invariant
                self.wf(),
                cn == c as nat,
                k <= succ_ids.len(),
                wf(expr),
                increasing(unvisited@),
                unvisited@ == u_end,
                unvisited@.len() <= old(unvisited)@.len(),
                head is Add || head is Component,
                forall|q: int| 0 <= q < succ_ids.len() ==> self.contains(#[trigger] succ_ids@[q])
                    && self.pred(self.index_of(succ_ids@[q])).len() > 0,
                subs.len() == k,
                forall|x: int| 0 <= x < k ==> self.sub_term(#[trigger] subs[x], succ_ids@[x]),
                k == 0 ==> expr == head,
                k > 0 ==> expr is Sub && expr->Sub_params@ == seq![head] + subs,
            decreases succ_ids.len() - k,
        {
            let id = succ_ids[k];
            let ghost before = expr;
            let part = match self.position(id) {
                Some(p) => {
                    if self.info(p).category.is_meter() {
                        let one = vec![id];
                        proof {
                            assert(one@[0] == id);
                            self.lemma_terms_nonempty(one@, true);
                        }
                        let f = self.fallback_sum(&one, true)?;
                        proof {
                            let terms = choose|terms: Seq<Expr>| #[trigger] self.fallback_terms(terms, one@, true)
                                && Self::sum_of_terms(f, terms);
                            assert(one@.drop_first() =~= Seq::<u64>::empty());
                            assert(one@[0] == id);
                            assert(!self.group_member(p as nat));
                            if self.fallback_meter(p as nat) {
                                assert(self.fallback_terms(terms.drop_first(), Seq::empty(), true));
                                assert(f == terms[0]);
                            } else {
                                assert(self.fallback_terms(terms.drop_first(), Seq::empty(), true));
                                assert(f == terms[0]);
                            }
                            assert(self.sub_term(f, id));
                        }
                        f
                    } else {
                        self.reading(p)
                    }
                },
                None => return Err(not_found(id)),
            };
            let ghost pg = part;
            proof {
                assert(self.sub_term(pg, id));
                assert(crate::expr::simple(pg));
            }
            expr = expr.minus(part);
            proof {
                let s0 = subs;
                subs = subs.push(pg);
                assert forall|x: int| 0 <= x < k + 1 implies self.sub_term(#[trigger] subs[x], succ_ids@[x]) by {
                    if x < k {
                        assert(subs[x] == s0[x]);
                    }
                }
                if k == 0 {
                    assert(seq![head] + subs =~= seq![head, pg]);
                } else {
                    assert(seq![head] + subs =~= (seq![head] + s0).push(pg));
                }
            }
            k = k + 1;
        }
        let ghost inner = expr;
        let mut expr = clamp_at_zero(expr, false);
        let mut has_meter = false;
        let mut k: usize = 0;
        while k < own.len()
            invariant
                self.wf(),
                cn == c as nat,
                increasing(unvisited@),
                unvisited@ == u_end,
                unvisited@.len() <= old(unvisited)@.len(),
                k <= own.len(),
                own.len() == self.succ(cn).len(),
                forall|x: int| 0 <= x < own.len() ==> #[trigger] own@[x] as nat == self.succ(cn)[x],
                forall|x: int| 0 <= x < own.len() ==> #[trigger] own@[x] < self.count(),
                has_meter == exists|q: int| 0 <= q < k && self.category_at(#[trigger] self.succ(cn)[q]) is Meter,
            decreases own.len() - k,
        {
            if self.info(own[k]).category.is_meter() {
                has_meter = true;
            }
            k = k + 1;
        }
        if own.len() > 0 && !has_meter {
            expr = or_zero(expr);
        }
        proof {
            assert(self.consumption_parts(expr, cn, self.sibling_seq(cn, false), head, subs, succ_ids@, inner));
        }
        Ok(expr)
    }

    /// The consumer formula: the consumption of every meter below the root
    /// (meters that share successors counted together), plus that of every
    /// successor of the root that is neither a meter nor a battery inverter;
    /// `0.0` without any.
    pub fn consumer_formula(&self) -> (r: Result<String, Error>)
        requires
            self.wf(),
        ensures
            self.no_consumers() ==> (r matches Ok(s) && s@ == zero_text()),
            r is Ok,
            r matches Ok(s) ==> signed_formula(s@, true),
            r matches Ok(s) ==> self.consumer_text(s@),
    {
        let mut unvisited = self.find_all_at(self.root_pos(), NodeFilter::Meters, true);
        let ghost ordered = unvisited@;
        let f = NodeFilter::Meters;
        proof {
            if self.none_below_root(NodeFilter::Meters) && unvisited.len() > 0 {
                assert(self.found_below(self.root_position(), NodeFilter::Meters, unvisited@[0]));
            }
            assert(ordered.to_set() =~= self.meter_ids()) by {
                assert forall|x: u64| ordered.to_set().contains(x) == self.meter_ids().contains(x) by {
                    if ordered.contains(x) {
                        let k = choose|k: int| 0 <= k < ordered.len() && ordered[k] == x;
                        assert(self.found_by_search(self.root_position(), f, true, ordered[k]));
                    }
                    if self.meter_ids().contains(x) {
                        let j = choose|j: nat|
                            j < self.count() && #[trigger] self.id_at(j) == x && self.passes(f, j)
                                && self.search_reaches(self.root_position(), j, f, true);
                        assert(ordered.contains(self.id_at(j)));
                    }
                }
            }
            assert forall|tail: Seq<Expr>| #[trigger] self.meter_consumptions(tail, unvisited@) implies self.meter_consumptions(
                Seq::<Expr>::empty() + tail,
                ordered,
            ) by {
                assert(Seq::<Expr>::empty() + tail =~= tail);
            }
            assert forall|q: int| 0 <= q < ordered.len() implies self.contains(#[trigger] ordered[q]) by {
                assert(self.found_below(self.root_position(), f, ordered[q]));
            }
            assert(unvisited@.to_set().subset_of(ordered.to_set()));
        }
        let mut meters: Option<Expr> = None;
        let ghost mut mts: Seq<Expr> = Seq::empty();
        while unvisited.len() > 0
            invariant
                self.wf(),
                increasing(unvisited@),
                unvisited@.to_set().subset_of(ordered.to_set()),
                ordered.to_set() == self.meter_ids(),
                forall|q: int| 0 <= q < ordered.len() ==> self.contains(#[trigger] ordered[q]),
                meters matches Some(e) ==> wf(e) && forall|reading: spec_fn(u64) -> int| #[trigger] signed(eval(e, reading), true),
                self.no_consumers() ==> meters is None && unvisited.len() == 0,
                mts.len() == 0 <==> meters is None,
                meters matches Some(e) ==> Self::sum_of_terms(e, mts),
                forall|x: int| 0 <= x < mts.len() ==> crate::expr::simple(#[trigger] mts[x]),
                forall|tail: Seq<Expr>| #[trigger] self.meter_consumptions(tail, unvisited@) ==> self.meter_consumptions(
                    mts + tail,
                    ordered,
                ),
            decreases unvisited.len(),
        {
            let ghost u0 = unvisited@;
            let id = unvisited.remove(0);
            proof {
                assert(unvisited@ =~= u0.drop_first());
                assert forall|i: int, j: int| 0 <= i < j < unvisited@.len() implies unvisited@[i]
                    < unvisited@[j] by {
                    assert(unvisited@[i] == u0[i + 1] && unvisited@[j] == u0[j + 1]);
                }
                assert(u0.to_set().contains(u0[0]));
                assert(ordered.to_set().contains(id));
                let q = choose|q: int| 0 <= q < ordered.len() && ordered[q] == id;
                assert(self.contains(ordered[q]));
            }
            let c = match self.position(id) {
                Some(c) => c,
                None => return Err(not_found(id)),
            };
            let ghost u1 = unvisited@;
            let e = self.component_consumption(c, &mut unvisited)?;
            let ghost eg = e;
            let ghost before = meters;
            meters = add_signed(meters, e, true);
            proof {
                assert(crate::expr::simple(eg));
                let m0 = mts;
                mts = mts.push(eg);
                assert forall|x: int| 0 <= x < mts.len() implies crate::expr::simple(#[trigger] mts[x]) by {
                    if x < m0.len() {
                        assert(mts[x] == m0[x]);
                    }
                }
                if m0.len() == 0 {
                    assert(mts =~= seq![eg]);
                } else if m0.len() == 1 {
                    assert(before->Some_0 == m0[0]);
                    assert(mts =~= seq![m0[0], eg]);
                } else {
                    assert(before->Some_0 is Add);
                }
                assert forall|i: int, j: int| 0 <= i < j < unvisited@.len() implies unvisited@[i] < unvisited@[j] by {}
                assert(unvisited@.to_set().subset_of(ordered.to_set())) by {
                    assert forall|x: u64| unvisited@.to_set().contains(x) implies ordered.to_set().contains(x) by {
                        assert(u1.to_set().contains(x));
                        let i = choose|i: int| 0 <= i < u1.len() && u1[i] == x;
                        assert(u0[i + 1] == x);
                        assert(u0.to_set().contains(x));
                    }
                }
                assert forall|tail: Seq<Expr>| #[trigger] self.meter_consumptions(tail, unvisited@) implies self.meter_consumptions(
                    mts + tail,
                    ordered,
                ) by {
                    let t2 = seq![eg] + tail;
                    assert(t2.drop_first() =~= tail);
                    assert(t2[0] == eg);
                    let rest2 = unvisited@;
                    assert(rest2.len() < u0.len() && increasing(rest2) && rest2.to_set() == u0.drop_first().to_set().difference(
                        self.used_ids(c as nat),
                    ) && self.meter_consumptions(t2.drop_first(), rest2));
                    assert(self.meter_consumptions(t2, u0));
                    assert(m0 + t2 =~= mts + tail);
                }
            }
        }
        proof {
            assert(mts + Seq::<Expr>::empty() =~= mts);
            assert(self.meter_consumptions(Seq::empty(), unvisited@));
        }
        let root = self.root_pos();
        let succs = self.successor_positions(root);
        let ghost xs = self.succ(root as nat);
        let allow = self.config().allow_unspecified_inverters;
        let mut others: Option<Expr> = None;
        let ghost mut ots: Seq<Expr> = Seq::empty();
        // The components here are not meters, so no meter leaves this set.
        let mut scratch: Vec<u64> = Vec::new();
        let mut k: usize = 0;
        proof {
            assert(xs.skip(0) =~= xs);
            assert forall|tail: Seq<Expr>| #[trigger] self.other_consumptions(tail, xs.skip(0)) implies self.other_consumptions(
                ots + tail,
                xs,
            ) by {
                assert(ots + tail =~= tail);
            }
        }
        while k < succs.len()
            invariant
                self.wf(),
                root == self.root_position(),
                xs == self.succ(root as nat),
                allow == self.configuration().allow_unspecified_inverters,
                k <= succs.len(),
                succs.len() == self.succ(root as nat).len(),
                forall|x: int| 0 <= x < succs.len() ==> #[trigger] succs@[x] as nat == self.succ(root as nat)[x],
                forall|x: int| 0 <= x < succs.len() ==> #[trigger] succs@[x] < self.count(),
                others matches Some(e) ==> wf(e) && forall|reading: spec_fn(u64) -> int| #[trigger] signed(eval(e, reading), true),
                meters matches Some(e) ==> wf(e) && forall|reading: spec_fn(u64) -> int| #[trigger] signed(eval(e, reading), true),
                increasing(scratch@),
                self.no_consumers() ==> others is None && meters is None,
                self.meter_consumptions(mts, ordered),
                mts.len() == 0 <==> meters is None,
                meters matches Some(e) ==> Self::sum_of_terms(e, mts),
                ots.len() == 0 <==> others is None,
                others matches Some(e) ==> Self::sum_of_terms(e, ots),
                forall|x: int| 0 <= x < ots.len() ==> crate::expr::simple(#[trigger] ots[x]),
                forall|tail: Seq<Expr>| #[trigger] self.other_consumptions(tail, xs.skip(k as int)) ==> self.other_consumptions(
                    ots + tail,
                    xs,
                ),
            decreases succs.len() - k,
        {
            let s = succs[k];
            let cat = self.info(s).category;
            proof {
                assert(xs.skip(k as int)[0] == s as nat);
                assert(xs.skip(k as int).drop_first() =~= xs.skip(k as int + 1));
            }
            if !cat.is_meter() && !cat.is_battery_inverter(allow) {
                proof {
                    assert(self.succ(root as nat)[k as int] == s as nat);
                    assert(!self.no_consumers());
                }
                let e = self.component_consumption(s, &mut scratch)?;
                let ghost eg = e;
                let ghost before = others;
                others = add_signed(others, e, true);
                proof {
                    assert(crate::expr::simple(eg));
                    let o0 = ots;
                    ots = ots.push(eg);
                    assert forall|x: int| 0 <= x < ots.len() implies crate::expr::simple(#[trigger] ots[x]) by {
                        if x < o0.len() {
                            assert(ots[x] == o0[x]);
                        }
                    }
                    if o0.len() == 0 {
                        assert(ots =~= seq![eg]);
                    } else if o0.len() == 1 {
                        assert(before->Some_0 == o0[0]);
                        assert(ots =~= seq![o0[0], eg]);
                    } else {
                        assert(before->Some_0 is Add);
                    }
                    assert forall|tail: Seq<Expr>| #[trigger] self.other_consumptions(tail, xs.skip(k as int + 1)) implies self.other_consumptions(
                        ots + tail,
                        xs,
                    ) by {
                        let t2 = seq![eg] + tail;
                        assert(t2.drop_first() =~= tail);
                        assert(t2[0] == eg);
                        assert(self.other_consumptions(t2, xs.skip(k as int)));
                        assert(o0 + t2 =~= ots + tail);
                    }
                }
            } else {
                proof {
                    assert forall|tail: Seq<Expr>| #[trigger] self.other_consumptions(tail, xs.skip(k as int + 1)) implies self.other_consumptions(
                        ots + tail,
                        xs,
                    ) by {
                        assert(self.other_consumptions(tail, xs.skip(k as int)));
                    }
                }
            }
            k = k + 1;
        }
        proof {
            assert(xs.skip(succs.len() as int) =~= Seq::<nat>::empty());
            assert(ots + Seq::<Expr>::empty() =~= ots);
            assert(self.other_consumptions(Seq::empty(), xs.skip(succs.len() as int)));
        }
        let ghost mg = meters;
        let ghost og = others;
        let total = match meters {
            None => others,
            Some(m) => match others {
                None => Some(m),
                Some(o) => add_signed(Some(m), o, true),
            },
        };
        let r = print_or_zero(total);
        proof {
            let all = mts + ots;
            if mg is None {
                assert(all =~= ots);
            } else if og is None {
                assert(all =~= mts);
            } else {
                let m = mg->Some_0;
                let o = og->Some_0;
                if mts.len() == 1 && ots.len() == 1 {
                    assert(all =~= seq![m, o]);
                } else if mts.len() == 1 {
                    assert(all =~= seq![m] + ots);
                } else if ots.len() == 1 {
                    assert(all =~= mts.push(o));
                } else {
                    assert(all =~= mts + ots);
                }
            }
            if total is Some {
                let x = total->Some_0;
                assert(wf(x) && r@ == render(x, false));
                assert(Self::sum_of_terms(x, all));
            } else {
                assert(all.len() == 0);
            }
            assert(increasing(ordered) && ordered.to_set() == self.meter_ids() && self.meter_consumptions(mts, ordered)
                && self.other_consumptions(ots, self.succ(self.root_position())));
        }
        Ok(r)
    }

    /// The ids to sum for a category formula: the given ones in increasing
    /// order, or those found below the root (not looking below one that is
    /// found).
    fn formula_ids(&self, ids: Option<BTreeSet<u64>>, f: NodeFilter) -> (r: Vec<u64>)
        requires
            self.wf(),
        ensures
            increasing(r@),
            ids matches Some(given) ==> r@.to_set() == given@,
            ids is None ==> forall|k: int| 0 <= k < r.len() ==> self.found_below(
                self.root_position(),
                f,
                #[trigger] r@[k],
            ),
            ids is None ==> r@.to_set() == self.searched_ids(f),
    {
        match ids {
            Some(set) => ordered_ids(&set),
            None => {
                let found = self.find_all_at(self.root_pos(), f, false);
                proof {
                    assert(found@.to_set() =~= self.searched_ids(f)) by {
                        assert forall|x: u64| found@.to_set().contains(x) == self.searched_ids(f).contains(x) by {
                            if found@.contains(x) {
                                let k = choose|k: int| 0 <= k < found.len() && found@[k] == x;
                                assert(self.found_by_search(self.root_position(), f, false, found@[k]));
                            }
                            if self.searched_ids(f).contains(x) {
                                let j = choose|j: nat|
                                    j < self.count() && #[trigger] self.id_at(j) == x && self.passes(f, j)
                                        && self.search_reaches(self.root_position(), j, f, false);
                                assert(found@.contains(self.id_at(j)));
                            }
                        }
                    }
                }
                found
            },
        }
    }

    /// `t` is `MIN(0.0, f)` with `f` the fallback expression of the single
    /// id, not preferring meters.
    pub open(crate) spec fn producer_term(&self, t: Expr, id: u64) -> bool {
        &&& t is Min
        &&& t->Min_params@.len() == 2
        &&& t->Min_params@[0] == (Expr::Number { units: 0, scale: 0 })
        &&& exists|terms: Seq<Expr>|
            #[trigger] self.fallback_terms(terms, seq![id], false) && Self::sum_of_terms(t->Min_params@[1], terms)
    }

    /// The text of the producer formula: `0.0` where the search finds no
    /// producer, else the printed sum, in increasing id order, of the
    /// producer terms of the ids found.
    pub open(crate) spec fn producer_text(&self, s: Seq<char>) -> bool {
        ||| self.searched_ids(NodeFilter::Producers) == Set::<u64>::empty() && s == zero_text()
        ||| exists|ordered: Seq<u64>, ts: Seq<Expr>, e: Expr|
            increasing(ordered) && #[trigger] ordered.to_set() == self.searched_ids(NodeFilter::Producers)
                && ordered.len() >= 1 && ts.len() == ordered.len() && (forall|k: int|
                0 <= k < ts.len() ==> self.producer_term(#[trigger] ts[k], ordered[k])) && #[trigger] Self::sum_of_terms(
                e,
                ts,
            ) && s == render(e, false)
    }

    /// The text of a category formula over the ids in increasing order:
    /// `0.0` without any, else the printed sum of the fallback terms that the
    /// resolver gives for them, not preferring meters.
    pub open(crate) spec fn category_text(&self, s: Seq<char>, ids: Seq<u64>) -> bool {
        if ids.len() == 0 {
            s == zero_text()
        } else {
            exists|terms: Seq<Expr>, e: Expr|
                #[trigger] self.fallback_terms(terms, ids, false) && #[trigger] Self::sum_of_terms(e, terms) && s
                    == render(e, false)
        }
    }

    /// The ids of the components that pass the filter and that the search
    /// from the root reaches without going below a component that passes.
    pub open(crate) spec fn searched_ids(&self, f: NodeFilter) -> Set<u64> {
        Set::new(
            |x: u64|
                exists|j: nat|
                    j < self.count() && #[trigger] self.id_at(j) == x && self.passes(f, j) && self.search_reaches(
                        self.root_position(),
                        j,
                        f,
                        false,
                    ),
        )
    }

    /// The text is the category formula over the set of ids, taken in
    /// increasing order.
    pub open(crate) spec fn category_formula_text(&self, s: Seq<char>, ids: Set<u64>) -> bool {
        exists|ordered: Seq<u64>| increasing(ordered) && #[trigger] ordered.to_set() == ids && self.category_text(s, ordered)
    }

    /// The resolver gives no term for the ids, taken in increasing order.
    pub open(crate) spec fn no_terms(&self, ids: Set<u64>) -> bool {
        exists|ordered: Seq<u64>|
            increasing(ordered) && #[trigger] ordered.to_set() == ids && self.fallback_terms(Seq::empty(), ordered, false)
    }

    /// The ids found by a search from the root name components that have a
    /// predecessor.
    proof fn lemma_found_have_preds(&self, ids: Seq<u64>, f: NodeFilter)
        requires
            self.wf(),
            forall|k: int| 0 <= k < ids.len() ==> self.found_below(self.root_position(), f, #[trigger] ids[k]),
        ensures
            forall|k: int|
                0 <= k < ids.len() ==> self.contains(#[trigger] ids[k]) && self.passes(f, self.index_of(ids[k]))
                    && self.pred(self.index_of(ids[k])).len() > 0,
    {
        assert forall|k: int| 0 <= k < ids.len() implies self.contains(#[trigger] ids[k]) && self.passes(
            f,
            self.index_of(ids[k]),
        ) && self.pred(self.index_of(ids[k])).len() > 0 by {
            assert(self.found_below(self.root_position(), f, ids[k]));
            let j = choose|j: nat|
                j < self.count() && #[trigger] self.id_at(j) == ids[k] && self.passes(f, j) && self.reaches(
                    self.root_position(),
                    j,
                );
            assert(self.node_indices@.contains_key(self.infos@[j as int].component_id));
            assert(j != self.root_position());
            self.lemma_reached_has_pred(self.root_position(), j);
        }
    }

    /// The id names a component that passes the filter.
    pub open(crate) spec fn fits(&self, id: u64, f: NodeFilter) -> bool {
        self.contains(id) && self.passes(f, self.index_of(id))
    }

    /// The error for an id that does not fit: `ComponentNotFound` for an
    /// unknown id, else `InvalidComponent` "Component with id N" followed by
    /// `what`.
    pub open(crate) spec fn misfit_error(&self, e: Error, id: u64, what: Seq<char>) -> bool {
        if !self.contains(id) {
            crate::retrieval::is_not_found(e, id)
        } else {
            e.kind == ErrorKind::InvalidComponent && e.desc@ == "Component with id "@ + crate::text::dec(
                id as nat,
            ) + what
        }
    }

    /// The error is that of the smallest id of the set that does not fit.
    pub open(crate) spec fn first_misfit(&self, e: Error, ids: Set<u64>, f: NodeFilter, what: Seq<char>) -> bool {
        exists|id: u64|
            #[trigger] ids.contains(id) && !self.fits(id, f) && (forall|id2: u64|
                ids.contains(id2) && id2 < id ==> self.fits(id2, f)) && self.misfit_error(e, id, what)
    }

    /// Checks that every id names a component that passes the filter.
    fn check_category(&self, ids: &Vec<u64>, f: NodeFilter, what: &str) -> (r: Result<(), Error>)
        requires
            self.wf(),
            increasing(ids@),
        ensures
            r is Ok <==> forall|k: int| 0 <= k < ids.len() ==> self.fits(#[trigger] ids@[k], f),
            r matches Err(e) ==> self.first_misfit(e, ids@.to_set(), f, what@),
    {
        let mut k: usize = 0;
        while k < ids.len()
            invariant
                self.wf(),
                k <= ids.len(),
                increasing(ids@),
                forall|x: int| 0 <= x < k ==> self.fits(#[trigger] ids@[x], f),
            decreases ids.len() - k,
        {
            let id = ids[k];
            proof {
                assert(ids@.to_set().contains(id));
                assert forall|id2: u64| ids@.to_set().contains(id2) && id2 < id implies self.fits(id2, f) by {
                    let j = choose|j: int| 0 <= j < ids.len() && ids@[j] == id2;
                    if j >= k {
                        if j > k {
                            assert(ids@[k as int] < ids@[j]);
                        }
                    }
                }
            }
            match self.position(id) {
                None => return Err(not_found(id)),
                Some(p) => {
                    if !self.passes_filter(f, p) {
                        let mut msg = String::new();
                        push_str(&mut msg, "Component with id ");
                        push_dec(&mut msg, id);
                        push_str(&mut msg, what);
                        return Err(Error::new(ErrorKind::InvalidComponent, msg));
                    }
                },
            }
            k = k + 1;
        }
        Ok(())
    }

    /// The sum, with fallbacks and not preferring meters, of the components;
    /// `0.0` without any.
    fn category_sum(&self, ids: &Vec<u64>) -> (r: Result<String, Error>)
        requires
            self.wf(),
            increasing(ids@),
        ensures
            ids.len() == 0 ==> (r matches Ok(s) && s@ == zero_text()),
            r matches Err(e) ==> e.kind == ErrorKind::Internal || exists|k: int|
                0 <= k < ids.len() && !self.contains(#[trigger] ids@[k]),
            r matches Ok(s) ==> (ids.len() > 0 ==> exists|e: Expr| wf(e) && s@ == render(e, false)),
            r matches Ok(s) ==> self.category_text(s@, ids@),
            r matches Err(e) ==> (e.kind == ErrorKind::Internal ==> self.fallback_terms(Seq::empty(), ids@, false)),
            (forall|k: int| 0 <= k < ids.len() ==> self.contains(#[trigger] ids@[k])) && !self.fallback_terms(
                Seq::empty(),
                ids@,
                false,
            ) ==> r is Ok,
    {
        if ids.len() == 0 {
            return Ok(zero_formula());
        }
        let e = match self.fallback_sum(ids, false) {
            Ok(e) => e,
            Err(err) => return Err(err),
        };
        let r = e.to_string();
        proof {
            let terms = choose|terms: Seq<Expr>| #[trigger] self.fallback_terms(terms, ids@, false)
                && Self::sum_of_terms(e, terms);
            assert(self.fallback_terms(terms, ids@, false) && Self::sum_of_terms(e, terms) && r@ == render(e, false));
        }
        Ok(r)
    }

    /// A category formula over the given ids or, without them, over the
    /// components of the category below the root.
    fn category_formula(&self, ids: Option<BTreeSet<u64>>, f: NodeFilter, what: &str) -> (r: Result<String, Error>)
        requires
            self.wf(),
        ensures
            ids is None && self.none_below_root(f) ==> (r matches Ok(s) && s@ == zero_text()),
            r is Ok ==> (ids matches Some(given) ==> forall|id: u64|
                #[trigger] given@.contains(id) ==> self.contains(id) && self.passes(f, self.index_of(id))),
            r matches Err(e) ==> e.kind == ErrorKind::Internal || (ids matches Some(given)
                && self.first_misfit(e, given@, f, what@)),
            ids matches Some(given) ==> ((exists|id: u64| #[trigger] given@.contains(id) && !self.fits(id, f))
                ==> (r matches Err(e) && self.first_misfit(e, given@, f, what@))),
            r matches Ok(s) ==> self.category_formula_text(
                s@,
                match ids {
                    Some(given) => given@,
                    None => self.searched_ids(f),
                },
            ),
            ids is None ==> r is Ok,
            r matches Err(e) ==> (e.kind == ErrorKind::Internal ==> self.no_terms(
                match ids {
                    Some(given) => given@,
                    None => self.searched_ids(f),
                },
            )),
    {
        let ghost old_ids = ids;
        let ghost wanted = match old_ids {
            Some(given) => given@,
            None => self.searched_ids(f),
        };
        let given = ids.is_some();
        let ids = self.formula_ids(ids, f);
        proof {
            assert(ids@.to_set() == wanted);
        }
        proof {
            if !given && self.none_below_root(f) && ids.len() > 0 {
                assert(self.found_below(self.root_position(), f, ids@[0]));
            }
            if !given {
                self.lemma_found_have_preds(ids@, f);
                if ids.len() > 0 {
                    self.lemma_terms_nonempty(ids@, false);
                }
                assert forall|k: int| 0 <= k < ids.len() implies self.fits(#[trigger] ids@[k], f) by {}
            }
        }
        if ids.len() == 0 {
            let z = zero_formula();
            proof {
                if old_ids is Some {
                    assert(ids@.to_set() =~= Set::<u64>::empty());
                }
                assert(self.category_text(z@, ids@));
            }
            return Ok(z);
        }
        let checked = self.check_category(&ids, f, what);
        proof {
            if old_ids is Some {
                let given = old_ids->Some_0;
                assert(ids@.to_set() == given@);
                if exists|id: u64| #[trigger] given@.contains(id) && !self.fits(id, f) {
                    let id = choose|id: u64| #[trigger] given@.contains(id) && !self.fits(id, f);
                    assert(ids@.to_set().contains(id));
                    let k = choose|k: int| 0 <= k < ids.len() && ids@[k] == id;
                    assert(!self.fits(ids@[k], f));
                }
            }
        }
        match checked {
            Err(e) => return Err(e),
            Ok(()) => {},
        }
        proof {
            assert forall|k: int| 0 <= k < ids.len() implies self.contains(#[trigger] ids@[k]) by {
                assert(self.fits(ids@[k], f));
            }
        }
        proof {
            assert forall|id: u64| ids@.to_set().contains(id) implies self.contains(id) && self.passes(
                f,
                self.index_of(id),
            ) by {
                let k = choose|k: int| 0 <= k < ids.len() && ids@[k] == id;
                assert(self.contains(ids@[k]));
            }
        }
        let r = self.category_sum(&ids);
        proof {
            if r is Ok {
                assert(self.category_text(r->Ok_0@, ids@));
            }
            if r is Err && r->Err_0.kind == ErrorKind::Internal {
                assert(increasing(ids@) && ids@.to_set() == wanted && self.fallback_terms(Seq::empty(), ids@, false));
            }
        }
        r
    }

    /// The PV formula: the sum of the solar inverters given, or of all below
    /// the root; `0.0` without any.
    pub fn pv_formula(&self, pv_inverter_ids: Option<BTreeSet<u64>>) -> (r: Result<String, Error>)
        requires
            self.wf(),
        ensures
            pv_inverter_ids is None && self.none_below_root(NodeFilter::PvInverters) ==> (r matches Ok(s) && s@ == zero_text()),
            r is Ok ==> (pv_inverter_ids matches Some(given) ==> forall|id: u64| #[trigger]
                given@.contains(id) ==> self.contains(id) && self.passes(NodeFilter::PvInverters, self.index_of(id))),
            r matches Err(e) ==> e.kind == ErrorKind::Internal || (pv_inverter_ids matches Some(given)
                && self.first_misfit(e, given@, NodeFilter::PvInverters, " is not a PV inverter."@)),
            pv_inverter_ids matches Some(given) ==> ((exists|id: u64| #[trigger] given@.contains(id)
                && !self.fits(id, NodeFilter::PvInverters)) ==> (r matches Err(e) && self.first_misfit(
                e,
                given@,
                NodeFilter::PvInverters,
                " is not a PV inverter."@,
            ))),
            r matches Ok(s) ==> self.category_formula_text(
                s@,
                match pv_inverter_ids {
                    Some(given) => given@,
                    None => self.searched_ids(NodeFilter::PvInverters),
                },
            ),
            pv_inverter_ids is None ==> r is Ok,
            r matches Err(e) ==> (e.kind == ErrorKind::Internal ==> self.no_terms(
                match pv_inverter_ids {
                    Some(given) => given@,
                    None => self.searched_ids(NodeFilter::PvInverters),
                },
            )),
    {
        self.category_formula(pv_inverter_ids, NodeFilter::PvInverters, " is not a PV inverter.")
    }

    /// The CHP formula: the sum of the CHPs given, or of all below the root;
    /// `0.0` without any.
    pub fn chp_formula(&self, chp_ids: Option<BTreeSet<u64>>) -> (r: Result<String, Error>)
        requires
            self.wf(),
        ensures
            chp_ids is None && self.none_below_root(NodeFilter::Chps) ==> (r matches Ok(s) && s@ == zero_text()),
            r is Ok ==> (chp_ids matches Some(given) ==> forall|id: u64| #[trigger]
                given@.contains(id) ==> self.contains(id) && self.passes(NodeFilter::Chps, self.index_of(id))),
            r matches Err(e) ==> e.kind == ErrorKind::Internal || (chp_ids matches Some(given)
                && self.first_misfit(e, given@, NodeFilter::Chps, " is not a CHP."@)),
            chp_ids matches Some(given) ==> ((exists|id: u64| #[trigger] given@.contains(id)
                && !self.fits(id, NodeFilter::Chps)) ==> (r matches Err(e) && self.first_misfit(
                e,
                given@,
                NodeFilter::Chps,
                " is not a CHP."@,
            ))),
            r matches Ok(s) ==> self.category_formula_text(
                s@,
                match chp_ids {
                    Some(given) => given@,
                    None => self.searched_ids(NodeFilter::Chps),
                },
            ),
            chp_ids is None ==> r is Ok,
            r matches Err(e) ==> (e.kind == ErrorKind::Internal ==> self.no_terms(
                match chp_ids {
                    Some(given) => given@,
                    None => self.searched_ids(NodeFilter::Chps),
                },
            )),
    {
        self.category_formula(chp_ids, NodeFilter::Chps, " is not a CHP.")
    }

    /// The EV charger formula: the sum of the EV chargers given, or of all
    /// below the root; `0.0` without any.
    pub fn ev_charger_formula(&self, ev_charger_ids: Option<BTreeSet<u64>>) -> (r: Result<String, Error>)
        requires
            self.wf(),
        ensures
            ev_charger_ids is None && self.none_below_root(NodeFilter::EvChargers) ==> (r matches Ok(s) && s@ == zero_text()),
            r is Ok ==> (ev_charger_ids matches Some(given) ==> forall|id: u64| #[trigger]
                given@.contains(id) ==> self.contains(id) && self.passes(NodeFilter::EvChargers, self.index_of(id))),
            r matches Err(e) ==> e.kind == ErrorKind::Internal || (ev_charger_ids matches Some(given)
                && self.first_misfit(e, given@, NodeFilter::EvChargers, " is not an EV charger."@)),
            ev_charger_ids matches Some(given) ==> ((exists|id: u64| #[trigger] given@.contains(id)
                && !self.fits(id, NodeFilter::EvChargers)) ==> (r matches Err(e) && self.first_misfit(
                e,
                given@,
                NodeFilter::EvChargers,
                " is not an EV charger."@,
            ))),
            r matches Ok(s) ==> self.category_formula_text(
                s@,
                match ev_charger_ids {
                    Some(given) => given@,
                    None => self.searched_ids(NodeFilter::EvChargers),
                },
            ),
            ev_charger_ids is None ==> r is Ok,
            r matches Err(e) ==> (e.kind == ErrorKind::Internal ==> self.no_terms(
                match ev_charger_ids {
                    Some(given) => given@,
                    None => self.searched_ids(NodeFilter::EvChargers),
                },
            )),
    {
        self.category_formula(ev_charger_ids, NodeFilter::EvChargers, " is not an EV charger.")
    }
}


impl<N: Node, E: Edge> ComponentGraph<N, E> {
    /// The battery `b`'s siblings (those that share a predecessor with it)
    /// are all among the ids.
    pub open(crate) spec fn siblings_within(&self, b: nat, ids: Set<u64>) -> bool {
        forall|s: nat| s < self.count() && #[trigger] self.sibling_of(b, s, true) ==> ids.contains(self.id_at(s))
    }

    /// The id names a battery whose siblings are all among the ids.
    pub open(crate) spec fn battery_ok(&self, id: u64, ids: Set<u64>) -> bool {
        &&& self.contains(id)
        &&& self.category_at(self.index_of(id)) is Battery
        &&& self.siblings_within(self.index_of(id), ids)
    }

    /// The error for a battery that is not acceptable: `ComponentNotFound`
    /// for an unknown id; "Component with id N is not a battery." for
    /// another category; otherwise "Battery N can't be in a formula without
    /// all its siblings: [...]." listing each of its siblings once.
    pub open(crate) spec fn battery_error(&self, e: Error, id: u64) -> bool {
        if !self.contains(id) {
            crate::retrieval::is_not_found(e, id)
        } else if !(self.category_at(self.index_of(id)) is Battery) {
            e.kind == ErrorKind::InvalidComponent && e.desc@ == "Component with id "@ + crate::text::dec(
                id as nat,
            ) + " is not a battery."@
        } else {
            e.kind == ErrorKind::InvalidComponent && exists|sibs: Seq<nat>|
                #[trigger] sibs.no_duplicates() && (forall|x: nat|
                    sibs.contains(x) <==> x < self.count() && self.sibling_of(self.index_of(id), x, true))
                    && e.desc@ == "Battery "@ + crate::text::dec(id as nat)
                    + " can't be in a formula without all its siblings: ["@
                    + crate::validation::joined_ids(sibs.map_values(|x: nat| self.id_at(x)), ", "@)
                    + "]."@
        }
    }

    /// The error is that of the smallest battery of the set that is not
    /// acceptable.
    pub open(crate) spec fn first_bad_battery(&self, e: Error, ids: Set<u64>) -> bool {
        exists|id: u64|
            #[trigger] ids.contains(id) && !self.battery_ok(id, ids) && (forall|id2: u64|
                ids.contains(id2) && id2 < id ==> self.battery_ok(id2, ids)) && self.battery_error(e, id)
    }

    /// The ids of the predecessors of the batteries of the set.
    pub open(crate) spec fn inverters_of(&self, ids: Set<u64>) -> Set<u64> {
        Set::new(
            |x: u64|
                exists|b: u64, p: nat|
                    ids.contains(b) && self.contains(b) && #[trigger] self.pred(self.index_of(b)).contains(p)
                        && self.id_at(p) == x,
        )
    }

    /// Checks the batteries, one by one in increasing order: each must be a
    /// battery, and all its siblings must be among them; gathers the ids of
    /// their predecessors.
    fn battery_inverters(&self, batteries: &Vec<u64>) -> (r: Result<Vec<u64>, Error>)
        requires
            self.wf(),
            increasing(batteries@),
        ensures
            r is Ok <==> forall|k: int| 0 <= k < batteries.len() ==> self.battery_ok(#[trigger] batteries@[k], batteries@.to_set()),
            r matches Ok(v) ==> increasing(v@) && v@.to_set() == self.inverters_of(batteries@.to_set()),
            r matches Err(e) ==> self.first_bad_battery(e, batteries@.to_set()),
    {
        let ghost all = batteries@.to_set();
        let mut inverters: Vec<u64> = Vec::new();
        let mut k: usize = 0;
        proof {
            assert(inverters@.to_set() =~= Set::<u64>::empty());
        }
        while k < batteries.len()
            invariant
                self.wf(),
                all == batteries@.to_set(),
                increasing(batteries@),
                k <= batteries.len(),
                increasing(inverters@),
                forall|x: int| 0 <= x < k ==> self.battery_ok(#[trigger] batteries@[x], all),
                inverters@.to_set() == self.inverters_of(batteries@.take(k as int).to_set()),
            decreases batteries.len() - k,
        {
            let id = batteries[k];
            proof {
                assert(all.contains(id));
                assert forall|id2: u64| all.contains(id2) && id2 < id implies self.battery_ok(id2, all) by {
                    let j = choose|j: int| 0 <= j < batteries.len() && batteries@[j] == id2;
                    if j > k {
                        assert(batteries@[k as int] < batteries@[j]);
                    }
                }
            }
            let b = match self.position(id) {
                Some(b) => b,
                None => return Err(not_found(id)),
            };
            if !self.info(b).category.is_battery() {
                let mut msg = String::new();
                push_str(&mut msg, "Component with id ");
                push_dec(&mut msg, id);
                push_str(&mut msg, " is not a battery.");
                return Err(Error::new(ErrorKind::InvalidComponent, msg));
            }
            let siblings = self.sibling_positions(b, true);
            let mut j: usize = 0;
            while j < siblings.len()
                invariant
                    self.wf(),
                    all == batteries@.to_set(),
                    b < self.count(),
                    b == self.index_of(id),
                    self.category_at(b as nat) is Battery,
                    k < batteries.len(),
                    id == batteries@[k as int],
                    all.contains(id),
                    self.contains(id),
                    forall|id2: u64| all.contains(id2) && id2 < id ==> self.battery_ok(id2, all),
                    siblings@.no_duplicates(),
                    forall|t: usize| #[trigger] siblings@.contains(t) ==> self.sibling_of(b as nat, t as nat, true),
                    forall|t: usize|
                        t < self.count() && self.sibling_of(b as nat, t as nat, true) ==> #[trigger] siblings@.contains(t),
                    j <= siblings.len(),
                    forall|x: int| 0 <= x < siblings.len() ==> #[trigger] siblings@[x] < self.count(),
                    forall|x: int| 0 <= x < j ==> batteries@.contains(self.id_at(#[trigger] siblings@[x] as nat)),
                decreases siblings.len() - j,
            {
                if !holds(batteries, self.info(siblings[j]).component_id) {
                    proof {
                        assert(!batteries@.contains(self.id_at(siblings@[j as int] as nat)));
                    }
                    let mut ids: Vec<u64> = Vec::new();
                    let ghost sibs = crate::validation::nats(siblings@);
                    let mut q: usize = 0;
                    while q < siblings.len()
                        invariant
                            self.wf(),
                            j < siblings.len(),
                            b < self.count(),
                            b == self.index_of(id),
                            self.category_at(b as nat) is Battery,
                            k < batteries.len(),
                            id == batteries@[k as int],
                            all == batteries@.to_set(),
                            all.contains(id),
                            self.contains(id),
                            forall|id2: u64| all.contains(id2) && id2 < id ==> self.battery_ok(id2, all),
                            !batteries@.contains(self.id_at(siblings@[j as int] as nat)),
                            siblings@.no_duplicates(),
                            forall|t: usize| #[trigger] siblings@.contains(t) ==> self.sibling_of(b as nat, t as nat, true),
                            forall|t: usize|
                                t < self.count() && self.sibling_of(b as nat, t as nat, true) ==> #[trigger] siblings@.contains(t),
                            q <= siblings.len(),
                            sibs == crate::validation::nats(siblings@),
                            forall|x: int| 0 <= x < siblings.len() ==> #[trigger] siblings@[x] < self.count(),
                            ids@ == sibs.take(q as int).map_values(|x: nat| self.id_at(x)),
                        decreases siblings.len() - q,
                    {
                        ids.push(self.info(siblings[q]).component_id);
                        proof {
                            assert(sibs[q as int] == siblings@[q as int] as nat);
                            assert(sibs.take(q as int + 1).map_values(|x: nat| self.id_at(x)) =~= sibs.take(
                                q as int,
                            ).map_values(|x: nat| self.id_at(x)).push(self.id_at(sibs[q as int])));
                        }
                        q = q + 1;
                    }
                    let mut msg = String::new();
                    push_str(&mut msg, "Battery ");
                    push_dec(&mut msg, id);
                    push_str(&mut msg, " can't be in a formula without all its siblings: [");
                    crate::validation::push_joined_ids(&mut msg, &ids, ", ");
                    push_str(&mut msg, "].");
                    proof {
                        assert(sibs.take(siblings.len() as int) =~= sibs);
                        assert(sibs.no_duplicates()) by {
                            assert forall|u: int, v: int| 0 <= u < sibs.len() && 0 <= v < sibs.len() && u != v implies sibs[u]
                                != sibs[v] by {
                                assert(siblings@[u] != siblings@[v]);
                            }
                        }
                        assert forall|x: nat| sibs.contains(x) <==> x < self.count() && self.sibling_of(
                            b as nat,
                            x,
                            true,
                        ) by {
                            if sibs.contains(x) {
                                let i = choose|i: int| 0 <= i < sibs.len() && sibs[i] == x;
                                assert(siblings@.contains(siblings@[i]));
                            }
                            if x < self.count() && self.sibling_of(b as nat, x, true) {
                                assert(siblings@.contains(x as usize));
                                let i = choose|i: int| 0 <= i < siblings.len() && siblings@[i] == x as usize;
                                assert(sibs[i] == x);
                            }
                        }
                        let s = siblings@[j as int] as nat;
                        assert(siblings@.contains(siblings@[j as int]));
                        assert(self.sibling_of(b as nat, s, true));
                        assert(!all.contains(self.id_at(s)));
                        assert(!self.battery_ok(id, all));
                        assert(!self.battery_ok(batteries@[k as int], batteries@.to_set()));
                        assert(ids@ == sibs.map_values(|x: nat| self.id_at(x)));
                        assert(sibs.no_duplicates() && (forall|x: nat|
                            sibs.contains(x) <==> x < self.count() && self.sibling_of(self.index_of(id), x, true))
                            && msg@ == "Battery "@ + crate::text::dec(id as nat)
                            + " can't be in a formula without all its siblings: ["@
                            + crate::validation::joined_ids(sibs.map_values(|x: nat| self.id_at(x)), ", "@)
                            + "]."@);
                    }
                    let ghost m = msg@;
                    let e = Error::new(ErrorKind::InvalidComponent, msg);
                    proof {
                        assert(e.desc@ == m);
                        assert(sibs.no_duplicates());
                        assert(sibs.no_duplicates() && (forall|x: nat|
                            sibs.contains(x) <==> x < self.count() && self.sibling_of(self.index_of(id), x, true))
                            && e.desc@ == "Battery "@ + crate::text::dec(id as nat)
                            + " can't be in a formula without all its siblings: ["@
                            + crate::validation::joined_ids(sibs.map_values(|x: nat| self.id_at(x)), ", "@)
                            + "]."@);
                        assert(self.battery_error(e, id));
                    }
                    return Err(e);
                }
                j = j + 1;
            }
            proof {
                assert forall|s: nat| s < self.count() && #[trigger] self.sibling_of(b as nat, s, true) implies batteries@.to_set().contains(
                    self.id_at(s),
                ) by {
                    assert(siblings@.contains(s as usize));
                    let x = choose|x: int| 0 <= x < siblings.len() && siblings@[x] == s as usize;
                    assert(batteries@.contains(self.id_at(siblings@[x] as nat)));
                }
            }
            let preds = self.predecessor_positions(b);
            let ghost before = self.inverters_of(batteries@.take(k as int).to_set());
            let mut j: usize = 0;
            while j < preds.len()
                invariant
                    self.wf(),
                    b == self.index_of(id),
                    self.contains(id),
                    j <= preds.len(),
                    preds.len() == self.pred(b as nat).len(),
                    forall|x: int| 0 <= x < preds.len() ==> #[trigger] preds@[x] as nat == self.pred(b as nat)[x],
                    forall|x: int| 0 <= x < preds.len() ==> #[trigger] preds@[x] < self.count(),
                    increasing(inverters@),
                    inverters@.to_set() == before.union(
                        Set::new(|x: u64| exists|q: int| 0 <= q < j && self.id_at(self.pred(b as nat)[q]) == x),
                    ),
                decreases preds.len() - j,
            {
                let ghost i0 = inverters@;
                insert_id(&mut inverters, self.info(preds[j]).component_id);
                proof {
                    assert(inverters@.to_set() =~= before.union(
                        Set::new(|x: u64| exists|q: int| 0 <= q < j + 1 && self.id_at(self.pred(b as nat)[q]) == x),
                    )) by {
                        assert(self.id_at(self.pred(b as nat)[j as int]) == self.id_at(preds@[j as int] as nat));
                    }
                }
                j = j + 1;
            }
            proof {
                let done = batteries@.take(k as int + 1).to_set();
                assert(batteries@.take(k as int + 1) =~= batteries@.take(k as int).push(id));
                assert(done =~= batteries@.take(k as int).to_set().insert(id)) by {
                    crate::idset::lemma_push_set(batteries@.take(k as int), id);
                }
                assert(inverters@.to_set() =~= self.inverters_of(done)) by {
                    assert forall|x: u64| inverters@.to_set().contains(x) == self.inverters_of(done).contains(x) by {
                        if self.inverters_of(done).contains(x) {
                            let (bb, p) = choose|bb: u64, p: nat| done.contains(bb) && self.contains(bb)
                                && #[trigger] self.pred(self.index_of(bb)).contains(p) && self.id_at(p) == x;
                            if bb == id {
                                let q = choose|q: int| 0 <= q < self.pred(b as nat).len() && self.pred(b as nat)[q] == p;
                            } else {
                                assert(batteries@.take(k as int).to_set().contains(bb));
                            }
                        }
                        if inverters@.to_set().contains(x) && !before.contains(x) {
                            let q = choose|q: int| 0 <= q < preds.len() && self.id_at(self.pred(b as nat)[q]) == x;
                            assert(self.pred(self.index_of(id)).contains(self.pred(b as nat)[q]));
                        }
                    }
                }
            }
            k = k + 1;
        }
        proof {
            assert(batteries@.take(batteries.len() as int) =~= batteries@);
        }
        Ok(inverters)
    }

    /// The battery formula: the sum of the battery inverters of the given
    /// batteries, or of all battery inverters below the root; `0.0` without
    /// any. Each given battery must come with all its siblings.
    pub fn battery_formula(&self, battery_ids: Option<BTreeSet<u64>>) -> (r: Result<String, Error>)
        requires
            self.wf(),
        ensures
            battery_ids is None && self.none_below_root(NodeFilter::BatteryInverters) ==> (r matches Ok(
                s,
            ) && s@ == zero_text()),
            r is Ok ==> (battery_ids matches Some(given) ==> forall|id: u64| #[trigger]
                given@.contains(id) ==> self.contains(id) && self.category_at(self.index_of(id)) is Battery
                    && self.siblings_within(self.index_of(id), given@)),
            r matches Err(e) ==> e.kind == ErrorKind::Internal || (battery_ids matches Some(given)
                && self.first_bad_battery(e, given@)),
            battery_ids matches Some(given) ==> ((exists|id: u64| #[trigger] given@.contains(id)
                && !self.battery_ok(id, given@)) ==> (r matches Err(e) && self.first_bad_battery(e, given@))),
            battery_ids matches Some(given) ==> (self.inverters_of(given@).len() == 0 && forall|id: u64|
                #[trigger] given@.contains(id) ==> self.battery_ok(id, given@)) ==> (r matches Ok(s) && s@
                == zero_text()),
            r matches Ok(s) ==> self.category_formula_text(
                s@,
                match battery_ids {
                    Some(given) => self.inverters_of(given@),
                    None => self.searched_ids(NodeFilter::BatteryInverters),
                },
            ),
            battery_ids is None ==> r is Ok,
            r matches Err(e) ==> (e.kind == ErrorKind::Internal ==> self.no_terms(
                match battery_ids {
                    Some(given) => self.inverters_of(given@),
                    None => self.searched_ids(NodeFilter::BatteryInverters),
                },
            )),
    {
        let ghost old_ids = battery_ids;
        let inverters = match battery_ids {
            Some(set) => {
                let batteries = ordered_ids(&set);
                let checked = self.battery_inverters(&batteries);
                proof {
                    if exists|id: u64| #[trigger] set@.contains(id) && !self.battery_ok(id, set@) {
                        let id = choose|id: u64| #[trigger] set@.contains(id) && !self.battery_ok(id, set@);
                        assert(batteries@.to_set().contains(id));
                        let k = choose|k: int| 0 <= k < batteries.len() && batteries@[k] == id;
                        assert(!self.battery_ok(batteries@[k], batteries@.to_set()));
                    }
                }
                let inverters = match checked {
                    Ok(v) => v,
                    Err(e) => return Err(e),
                };
                proof {
                    assert forall|id: u64| #[trigger] set@.contains(id) implies self.contains(id)
                        && self.category_at(self.index_of(id)) is Battery && self.siblings_within(
                        self.index_of(id),
                        set@,
                    ) by {
                        assert(batteries@.to_set().contains(id));
                        let k = choose|k: int| 0 <= k < batteries.len() && batteries@[k] == id;
                        assert(self.battery_ok(batteries@[k], batteries@.to_set()));
                    }
                    assert forall|k: int| 0 <= k < inverters.len() implies self.contains(#[trigger] inverters@[k]) by {
                        assert(inverters@.to_set().contains(inverters@[k]));
                        let (bb, p) = choose|bb: u64, p: nat| set@.contains(bb) && self.contains(bb)
                            && #[trigger] self.pred(self.index_of(bb)).contains(p) && self.id_at(p) == inverters@[k];
                        self.lemma_neighbors(self.index_of(bb));
                        let q = choose|q: int| 0 <= q < self.pred(self.index_of(bb)).len() && self.pred(self.index_of(bb))[q] == p;
                        assert(p < self.count());
                    }
                    if self.inverters_of(set@).len() == 0 && inverters.len() > 0 {
                        assert(inverters@.to_set().contains(inverters@[0]));
                    }
                    assert(batteries@.to_set() == set@);
                    assert(inverters@.to_set() == self.inverters_of(set@));
                }
                inverters
            },
            None => {
                let found = self.find_all_at(self.root_pos(), NodeFilter::BatteryInverters, false);
                proof {
                    if self.none_below_root(NodeFilter::BatteryInverters) && found.len() > 0 {
                        assert(self.found_below(self.root_position(), NodeFilter::BatteryInverters, found@[0]));
                    }
                    assert forall|k: int| 0 <= k < found.len() implies self.contains(#[trigger] found@[k]) by {
                        assert(self.found_below(self.root_position(), NodeFilter::BatteryInverters, found@[k]));
                    }
                    let f = NodeFilter::BatteryInverters;
                    self.lemma_found_have_preds(found@, f);
                    if found.len() > 0 {
                        self.lemma_terms_nonempty(found@, false);
                    }
                    assert(found@.to_set() =~= self.searched_ids(f)) by {
                        assert forall|x: u64| found@.to_set().contains(x) == self.searched_ids(f).contains(x) by {
                            if found@.contains(x) {
                                let k = choose|k: int| 0 <= k < found.len() && found@[k] == x;
                                assert(self.found_by_search(self.root_position(), f, false, found@[k]));
                            }
                            if self.searched_ids(f).contains(x) {
                                let j = choose|j: nat|
                                    j < self.count() && #[trigger] self.id_at(j) == x && self.passes(f, j)
                                        && self.search_reaches(self.root_position(), j, f, false);
                                assert(found@.contains(self.id_at(j)));
                            }
                        }
                    }
                }
                found
            },
        };
        let r = self.category_sum(&inverters);
        proof {
            if r is Ok {
                assert(self.category_text(r->Ok_0@, inverters@));
            }
            if r is Err && r->Err_0.kind == ErrorKind::Internal {
                assert(self.fallback_terms(Seq::empty(), inverters@, false));
            }
        }
        r
    }
}

/// Builds formulas over a component graph.
pub struct FormulaBuilder<'a, N: Node, E: Edge> {
    pub graph: &'a ComponentGraph<N, E>,
}

impl<'a, N: Node, E: Edge> FormulaBuilder<'a, N, E> {
    pub fn new(graph: &'a ComponentGraph<N, E>) -> (r: Self)
        ensures
            r.graph == graph,
    {
        FormulaBuilder { graph }
    }

    /// The consumption formula of the graph: its consumer formula.
    pub fn consumption_formula(&self) -> (r: Result<String, Error>)
        requires
            self.graph.wf(),
        ensures
            r is Ok,
            self.graph.no_consumers() ==> (r matches Ok(s) && s@ == zero_text()),
            r matches Ok(s) ==> self.graph.consumer_text(s@),
    {
        self.graph.consumer_formula()
    }
}

} // verus!
