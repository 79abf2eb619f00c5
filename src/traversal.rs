//! Searches over the graph: the components below a start that match a
//! filter, and the siblings of a component.

use crate::category::{battery_inverter, ComponentCategory, InverterType};
use crate::graph::ComponentGraph;
use crate::idset::{increasing, insert_id};
use crate::meter_roles::MeterRole;
use crate::error::Error;
use crate::retrieval::{is_not_found, not_found};
use crate::traits::{Edge, Node};
use vstd::prelude::*;

verus! {

/// The kinds of components that the formulas search for.
#[derive(Clone, Copy, Debug, PartialEq, Eq, Structural)]
pub enum NodeFilter {
    Meters,
    BatteryInverters,
    PvInverters,
    EvChargers,
    Chps,
    /// PV meters, CHP meters, solar inverters and CHPs.
    Producers,
}

impl<N: Node, E: Edge> ComponentGraph<N, E> {
    /// Whether the component at position `i` passes the filter.
    pub open(crate) spec fn passes(&self, f: NodeFilter, i: nat) -> bool {
        let c = self.category_at(i);
        match f {
            NodeFilter::Meters => c is Meter,
            NodeFilter::BatteryInverters => battery_inverter(
                c,
                self.configuration().allow_unspecified_inverters,
            ),
            NodeFilter::PvInverters => c == ComponentCategory::Inverter(InverterType::Solar),
            NodeFilter::EvChargers => c is EvCharger,
            NodeFilter::Chps => c is Chp,
            NodeFilter::Producers => self.meter_of(i, MeterRole::Pv) || self.meter_of(
                i,
                MeterRole::Chp,
            ) || c == ComponentCategory::Inverter(InverterType::Solar) || c is Chp,
        }
    }

    pub(crate) fn passes_filter(&self, f: NodeFilter, i: usize) -> (r: bool)
        requires
            self.wf(),
            i < self.count(),
        ensures
            r == self.passes(f, i as nat),
    {
        let c = self.info(i).category;
        match f {
            NodeFilter::Meters => c.is_meter(),
            NodeFilter::BatteryInverters => c.is_battery_inverter(
                self.config().allow_unspecified_inverters,
            ),
            NodeFilter::PvInverters => c.is_pv_inverter(),
            NodeFilter::EvChargers => c.is_ev_charger(),
            NodeFilter::Chps => c.is_chp(),
            NodeFilter::Producers => self.is_meter_of(i, MeterRole::Pv) || self.is_meter_of(
                i,
                MeterRole::Chp,
            ) || c.is_pv_inverter() || c.is_chp(),
        }
    }

    /// The id is that of a component reachable from `start` that passes the
    /// filter.
    pub open(crate) spec fn found_below(&self, start: nat, f: NodeFilter, id: u64) -> bool {
        exists|j: nat|
            j < self.count() && #[trigger] self.id_at(j) == id && self.passes(f, j) && self.reaches(
                start,
                j,
            )
    }

    /// A walk that the search with the filter follows: where `follow` is
    /// false, no component before its last one passes the filter.
    pub open(crate) spec fn searched_walk(&self, w: Seq<nat>, f: NodeFilter, follow: bool) -> bool {
        &&& self.is_walk(w)
        &&& follow || forall|k: int| 0 <= k < w.len() - 1 ==> !self.passes(f, #[trigger] w[k])
    }

    /// The search from `start` reaches `j`.
    pub open(crate) spec fn search_reaches(&self, start: nat, j: nat, f: NodeFilter, follow: bool) -> bool {
        exists|w: Seq<nat>| #[trigger] self.searched_walk(w, f, follow) && w[0] == start && w.last() == j
    }

    /// The id is that of a component that passes the filter and that the
    /// search from `start` reaches.
    pub open(crate) spec fn found_by_search(&self, start: nat, f: NodeFilter, follow: bool, id: u64) -> bool {
        exists|j: nat|
            j < self.count() && #[trigger] self.id_at(j) == id && self.passes(f, j)
                && self.search_reaches(start, j, f, follow)
    }

    proof fn lemma_search_step(&self, start: nat, x: nat, s: nat, f: NodeFilter, follow: bool)
        requires
            self.search_reaches(start, x, f, follow),
            follow || !self.passes(f, x),
            self.succ(x).contains(s),
        ensures
            self.search_reaches(start, s, f, follow),
            self.reaches(start, s),
    {
        let w = choose|w: Seq<nat>| #[trigger] self.searched_walk(w, f, follow) && w[0] == start && w.last() == x;
        let w2 = w.push(s);
        assert forall|k: int| 1 <= k < w2.len() implies self.succ(w2[k - 1]).contains(#[trigger] w2[k]) by {
            if k < w.len() {
                assert(w2[k] == w[k] && w2[k - 1] == w[k - 1]);
            }
        }
        if !follow {
            assert forall|k: int| 0 <= k < w2.len() - 1 implies !self.passes(f, #[trigger] w2[k]) by {
                if k < w.len() - 1 {
                    assert(w2[k] == w[k]);
                }
            }
        }
        assert(self.searched_walk(w2, f, follow) && w2[0] == start && w2.last() == s);
        assert(self.is_walk(w2));
    }

    proof fn lemma_search_closed(
        &self,
        marked: Seq<bool>,
        w: Seq<nat>,
        f: NodeFilter,
        follow: bool,
    )
        requires
            self.searched_walk(w, f, follow),
            w[0] < marked.len(),
            marked[w[0] as int],
            forall|x: nat, k: int|
                x < marked.len() && marked[x as int] && (follow || !self.passes(f, x)) && 0 <= k
                    < self.succ(x).len() ==> #[trigger] self.succ(x)[k] < marked.len() && marked[self.succ(
                    x,
                )[k] as int],
        ensures
            w.last() < marked.len() && marked[w.last() as int],
        decreases w.len(),
    {
        if w.len() >= 2 {
            let u = w.drop_last();
            assert forall|k: int| 1 <= k < u.len() implies self.succ(u[k - 1]).contains(#[trigger] u[k]) by {
                assert(u[k] == w[k] && u[k - 1] == w[k - 1]);
            }
            if !follow {
                assert forall|k: int| 0 <= k < u.len() - 1 implies !self.passes(f, #[trigger] u[k]) by {
                    assert(u[k] == w[k]);
                }
            }
            self.lemma_search_closed(marked, u, f, follow);
            let x = w[w.len() - 2];
            assert(self.succ(w[w.len() - 2]).contains(w[w.len() - 1]));
            let k = choose|k: int| 0 <= k < self.succ(x).len() && self.succ(x)[k] == w.last();
            if !follow {
                assert(!self.passes(f, w[w.len() - 2]));
            }
            assert(self.succ(x)[k] < marked.len() && marked[self.succ(x)[k] as int]);
        }
    }

    /// The ids, in increasing order, of the components that pass the filter
    /// and that the search from the one at position `start` reaches; where
    /// `follow` is false, the search does not go on below a component that
    /// passes.
    pub(crate) fn find_all_at(&self, start: usize, f: NodeFilter, follow: bool) -> (r: Vec<u64>)
        requires
            self.wf(),
            start < self.count(),
        ensures
            increasing(r@),
            forall|k: int| 0 <= k < r.len() ==> self.found_below(start as nat, f, #[trigger] r@[k]),
            forall|k: int| 0 <= k < r.len() ==> self.found_by_search(start as nat, f, follow, #[trigger] r@[k]),
            forall|j: nat|
                j < self.count() && self.passes(f, j) && #[trigger] self.search_reaches(start as nat, j, f, follow)
                    ==> r@.contains(self.id_at(j)),
    {
        let n = self.len();
        let mut marked: Vec<bool> = Vec::new();
        let mut i: usize = 0;
        while i < n
            invariant
                i <= n,
                marked.len() == i,
                forall|j: int| 0 <= j < i ==> !marked@[j],
                crate::validation::unmarked(marked@) == i,
            decreases n - i,
        {
            proof {
                assert(marked@.push(false).drop_last() =~= marked@);
            }
            marked.push(false);
            i = i + 1;
        }
        proof {
            crate::validation::lemma_unmarked_mark(marked@, start as int);
            let w = seq![start as nat];
            assert(self.searched_walk(w, f, follow) && w[0] == start as nat && w.last() == start as nat);
            assert(self.is_walk(w));
        }
        marked.set(start, true);
        let mut found: Vec<u64> = Vec::new();
        let mut stack: Vec<usize> = Vec::new();
        stack.push(start);
        proof {
            assert(stack@[0] == start);
            assert forall|x: nat| x < n && #[trigger] marked@[x as int] implies stack@.contains(x as usize) by {
                assert(x == start as nat);
            }
        }
        while stack.len() > 0
            invariant
                self.wf(),
                n == self.count(),
                start < n,
                marked.len() == n,
                marked@[start as int],
                forall|j: nat| j < n && #[trigger] marked@[j as int] ==> self.reaches(start as nat, j)
                    && self.search_reaches(start as nat, j, f, follow),
                forall|k: int| 0 <= k < stack.len() ==> #[trigger] stack@[k] < n && marked@[stack@[k] as int],
                stack@.no_duplicates(),
                increasing(found@),
                forall|k: int| 0 <= k < found.len() ==> self.found_below(start as nat, f, #[trigger] found@[k]),
                forall|k: int| 0 <= k < found.len() ==> self.found_by_search(start as nat, f, follow, #[trigger] found@[k]),
                forall|x: nat|
                    x < n && #[trigger] marked@[x as int] && !stack@.contains(x as usize) && self.passes(f, x)
                        ==> found@.contains(self.id_at(x)),
                forall|x: nat, k: int|
                    x < n && marked@[x as int] && !stack@.contains(x as usize) && (follow || !self.passes(f, x))
                        && 0 <= k < self.succ(x).len() ==> #[trigger] self.succ(x)[k] < n
                        && marked@[self.succ(x)[k] as int],
            decreases 2 * crate::validation::unmarked(marked@) + stack.len(),
        {
            let ghost m0 = 2 * crate::validation::unmarked(marked@) + stack.len();
            let ghost st0 = stack@;
            let x = stack.pop().unwrap();
            proof {
                assert(stack@ =~= st0.drop_last() && x == st0.last());
                assert(marked@[x as int]);
                assert forall|y: usize| stack@.contains(y) implies y != x by {
                    let k = choose|k: int| 0 <= k < stack@.len() && stack@[k] == y;
                    assert(st0[k] == y && st0[st0.len() - 1] == x);
                }
                assert forall|y: usize| !stack@.contains(y) && y != x implies !st0.contains(y) by {
                    if st0.contains(y) {
                        let k = choose|k: int| 0 <= k < st0.len() && st0[k] == y;
                        assert(stack@[k] == y);
                    }
                }
            }
            let hit = self.passes_filter(f, x);
            if hit {
                let ghost f0 = found@;
                let id = self.info(x).component_id;
                insert_id(&mut found, id);
                proof {
                    assert(self.id_at(x as nat) == id);
                    assert(self.found_below(start as nat, f, id));
                    assert(self.found_by_search(start as nat, f, follow, id));
                    assert forall|k: int| 0 <= k < found.len() implies self.found_below(
                        start as nat,
                        f,
                        #[trigger] found@[k],
                    ) && self.found_by_search(start as nat, f, follow, found@[k]) by {
                        assert(found@.to_set().contains(found@[k]));
                        assert(f0.to_set().insert(id).contains(found@[k]));
                        if found@[k] != id {
                            assert(f0.to_set().contains(found@[k]));
                            let q = choose|q: int| 0 <= q < f0.len() && f0[q] == found@[k];
                            assert(self.found_below(start as nat, f, f0[q]));
                            assert(self.found_by_search(start as nat, f, follow, f0[q]));
                        }
                    }
                    assert forall|y: u64| f0.contains(y) implies found@.contains(y) by {
                        assert(f0.to_set().contains(y));
                        assert(found@.to_set().contains(y));
                    }
                    assert(found@.to_set().contains(id));
                    assert forall|z: nat|
                        z < n && #[trigger] marked@[z as int] && !stack@.contains(z as usize) && self.passes(f, z)
                            implies found@.contains(self.id_at(z)) by {
                        if z != x as nat {
                            assert(!st0.contains(z as usize));
                            assert(f0.contains(self.id_at(z)));
                        }
                    }
                }
                if !follow {
                    continue;
                }
            }
            let succs = self.successor_positions(x);
            let ghost fx = found@;
            let mut k: usize = 0;
            while k < succs.len()
                invariant
                    self.wf(),
                    n == self.count(),
                    start < n,
                    x < n,
                    marked.len() == n,
                    marked@[start as int],
                    marked@[x as int],
                    !stack@.contains(x),
                    follow || !self.passes(f, x as nat),
                    found@ == fx,
                    self.passes(f, x as nat) ==> found@.contains(self.id_at(x as nat)),
                    forall|j: nat| j < n && #[trigger] marked@[j as int] ==> self.reaches(start as nat, j)
                        && self.search_reaches(start as nat, j, f, follow),
                    forall|q: int| 0 <= q < stack.len() ==> #[trigger] stack@[q] < n && marked@[stack@[q] as int],
                    stack@.no_duplicates(),
                    forall|z: nat|
                        z < n && #[trigger] marked@[z as int] && !stack@.contains(z as usize) && z != x
                            && self.passes(f, z) ==> found@.contains(self.id_at(z)),
                    forall|y: nat, q: int|
                        y < n && marked@[y as int] && !stack@.contains(y as usize) && y != x && (follow
                            || !self.passes(f, y)) && 0 <= q < self.succ(y).len() ==> #[trigger] self.succ(y)[q] < n
                            && marked@[self.succ(y)[q] as int],
                    k <= succs.len(),
                    succs.len() == self.succ(x as nat).len(),
                    forall|q: int| 0 <= q < succs.len() ==> #[trigger] succs@[q] as nat == self.succ(x as nat)[q],
                    forall|q: int| 0 <= q < succs.len() ==> #[trigger] succs@[q] < n,
                    forall|q: int| 0 <= q < k ==> marked@[#[trigger] self.succ(x as nat)[q] as int],
                    2 * crate::validation::unmarked(marked@) + stack.len() < m0,
                decreases succs.len() - k,
            {
                let s = succs[k];
                let ghost mk0 = marked@;
                let ghost st1 = stack@;
                proof {
                    assert(self.succ(x as nat)[k as int] == s as nat);
                }
                if !marked[s] {
                    proof {
                        crate::validation::lemma_unmarked_mark(marked@, s as int);
                        assert(self.succ(x as nat).contains(s as nat));
                        self.lemma_search_step(start as nat, x as nat, s as nat, f, follow);
                        assert(!stack@.contains(s));
                    }
                    marked.set(s, true);
                    stack.push(s);
                    proof {
                        assert(stack@[stack.len() - 1] == s);
                        assert forall|y: usize| !stack@.contains(y) implies !st1.contains(y) by {
                            if st1.contains(y) {
                                let q = choose|q: int| 0 <= q < st1.len() && st1[q] == y;
                                assert(stack@[q] == y);
                            }
                        }
                        assert forall|j: int| 0 <= j < n && mk0[j] implies marked@[j] by {}
                    }
                }
                proof {
                    assert forall|q: int| 0 <= q < k + 1 implies marked@[#[trigger] self.succ(x as nat)[q] as int] by {
                        if q < k {
                            assert(succs@[q] as nat == self.succ(x as nat)[q]);
                            assert(succs@[q] < n);
                            assert(mk0[self.succ(x as nat)[q] as int]);
                        }
                    }
                }
                k = k + 1;
            }
        }
        proof {
            assert forall|j: nat|
                j < self.count() && self.passes(f, j) && #[trigger] self.search_reaches(start as nat, j, f, follow)
                    implies found@.contains(self.id_at(j)) by {
                let w = choose|w: Seq<nat>| #[trigger] self.searched_walk(w, f, follow) && w[0] == start as nat && w.last() == j;
                self.lemma_search_closed(marked@, w, f, follow);
            }
        }
        found
    }

    /// Whether the component at position `s` shares a predecessor (or, where
    /// `from_predecessors` is false, a successor) with the one at `i`, and
    /// is not `i` itself.
    pub open(crate) spec fn sibling_of(&self, i: nat, s: nat, from_predecessors: bool) -> bool {
        &&& s != i
        &&& if from_predecessors {
            exists|p: nat| self.pred(i).contains(p) && #[trigger] self.succ(p).contains(s)
        } else {
            exists|p: nat| self.succ(i).contains(p) && #[trigger] self.pred(p).contains(s)
        }
    }

    /// The siblings of the component at position `i`, each once, in the
    /// order in which the neighbours of its neighbours list them.
    pub(crate) fn sibling_positions(&self, i: usize, from_predecessors: bool) -> (r: Vec<usize>)
        requires
            self.wf(),
            i < self.count(),
        ensures
            r@.no_duplicates(),
            forall|k: int| 0 <= k < r.len() ==> #[trigger] r@[k] < self.count(),
            forall|s: usize| #[trigger] r@.contains(s) ==> self.sibling_of(i as nat, s as nat, from_predecessors),
            forall|s: usize|
                s < self.count() && self.sibling_of(i as nat, s as nat, from_predecessors) ==> #[trigger] r@.contains(s),
            crate::validation::nats(r@) == self.sibling_seq(i as nat, from_predecessors),
    {
        let firsts = if from_predecessors {
            self.predecessor_positions(i)
        } else {
            self.successor_positions(i)
        };
        let ghost fs = if from_predecessors {
            self.pred(i as nat)
        } else {
            self.succ(i as nat)
        };
        let mut r: Vec<usize> = Vec::new();
        let mut a: usize = 0;
        proof {
            assert(fs.skip(0) =~= fs);
            assert(crate::validation::nats(r@) =~= Seq::<nat>::empty());
        }
        while a < firsts.len()
            invariant
                self.wf(),
                i < self.count(),
                fs == if from_predecessors {
                    self.pred(i as nat)
                } else {
                    self.succ(i as nat)
                },
                a <= firsts.len(),
                firsts.len() == fs.len(),
                forall|x: int| 0 <= x < firsts.len() ==> #[trigger] firsts@[x] as nat == fs[x],
                forall|x: int| 0 <= x < firsts.len() ==> #[trigger] firsts@[x] < self.count(),
                r@.no_duplicates(),
                forall|k: int| 0 <= k < r.len() ==> #[trigger] r@[k] < self.count(),
                forall|s: usize| #[trigger] r@.contains(s) ==> self.sibling_of(i as nat, s as nat, from_predecessors),
                forall|x: int, s: usize|
                    0 <= x < a && s != i && #[trigger] self.second(fs[x], from_predecessors).contains(s as nat)
                        ==> #[trigger] r@.contains(s),
                self.gather(crate::validation::nats(r@), fs.skip(a as int), i as nat, from_predecessors)
                    == self.sibling_seq(i as nat, from_predecessors),
            decreases firsts.len() - a,
        {
            let p = firsts[a];
            let seconds = if from_predecessors {
                self.successor_positions(p)
            } else {
                self.predecessor_positions(p)
            };
            let ghost ss = self.second(p as nat, from_predecessors);
            let ghost r1 = r@;
            proof {
                assert(fs.skip(a as int).drop_first() =~= fs.skip(a as int + 1));
                assert(fs.skip(a as int)[0] == p as nat);
                assert(ss.skip(0) =~= ss);
            }
            proof {
                assert(fs[a as int] == p as nat);
                assert(fs.contains(p as nat));
            }
            let mut b: usize = 0;
            while b < seconds.len()
                invariant
                    self.wf(),
                    i < self.count(),
                    fs == if from_predecessors {
                        self.pred(i as nat)
                    } else {
                        self.succ(i as nat)
                    },
                    fs.contains(p as nat),
                    ss == self.second(p as nat, from_predecessors),
                    b <= seconds.len(),
                    seconds.len() == ss.len(),
                    forall|x: int| 0 <= x < seconds.len() ==> #[trigger] seconds@[x] as nat == ss[x],
                    forall|x: int| 0 <= x < seconds.len() ==> #[trigger] seconds@[x] < self.count(),
                    r@.no_duplicates(),
                    forall|k: int| 0 <= k < r.len() ==> #[trigger] r@[k] < self.count(),
                    forall|s: usize| #[trigger] r@.contains(s) ==> self.sibling_of(i as nat, s as nat, from_predecessors),
                    forall|s: usize| #[trigger] r1.contains(s) ==> r@.contains(s),
                    forall|y: int| 0 <= y < b && seconds@[y] != i ==> #[trigger] r@.contains(seconds@[y]),
                    Self::add_new(crate::validation::nats(r@), ss.skip(b as int), i as nat) == Self::add_new(
                        crate::validation::nats(r1),
                        ss,
                        i as nat,
                    ),
                decreases seconds.len() - b,
            {
                let s = seconds[b];
                let ghost r0 = r@;
                proof {
                    assert(ss.skip(b as int).drop_first() =~= ss.skip(b as int + 1));
                    assert(ss.skip(b as int)[0] == s as nat);
                    assert(crate::validation::nats(r0).contains(s as nat) == r0.contains(s)) by {
                        if r0.contains(s) {
                            let z = choose|z: int| 0 <= z < r0.len() && r0[z] == s;
                            assert(crate::validation::nats(r0)[z] == s as nat);
                        }
                        if crate::validation::nats(r0).contains(s as nat) {
                            let z = choose|z: int| 0 <= z < r0.len() && crate::validation::nats(r0)[z] == s as nat;
                            assert(r0[z] == s);
                        }
                    }
                }
                if s != i {
                    let mut present = false;
                    let mut c: usize = 0;
                    while c < r.len()
                        invariant
                            c <= r.len(),
                            present == exists|z: int| 0 <= z < c && r@[z] == s,
                        decreases r.len() - c,
                    {
                        if r[c] == s {
                            present = true;
                        }
                        c = c + 1;
                    }
                    if !present {
                        proof {
                            assert(ss[b as int] == s as nat);
                            assert(ss.contains(s as nat));
                            assert(self.sibling_of(i as nat, s as nat, from_predecessors));
                        }
                        r.push(s);
                        proof {
                            assert(crate::validation::nats(r@) =~= crate::validation::nats(r0).push(s as nat));
                            assert(r@.no_duplicates()) by {
                                assert forall|u: int, v: int| 0 <= u < v < r.len() implies r@[u] != r@[v] by {
                                    if v == r.len() - 1 {
                                        assert(r@[u] == r0[u]);
                                    } else {
                                        assert(r@[u] == r0[u] && r@[v] == r0[v]);
                                    }
                                }
                            }
                            assert forall|t: usize| #[trigger] r@.contains(t) implies self.sibling_of(
                                i as nat,
                                t as nat,
                                from_predecessors,
                            ) by {
                                if t != s {
                                    let z = choose|z: int| 0 <= z < r.len() && r@[z] == t;
                                    assert(r0[z] == t);
                                    assert(r0.contains(t));
                                }
                            }
                            assert forall|t: usize| #[trigger] r0.contains(t) implies r@.contains(t) by {
                                let z = choose|z: int| 0 <= z < r0.len() && r0[z] == t;
                                assert(r@[z] == t);
                            }
                            assert(r@[r.len() - 1] == s);
                            assert forall|y: int| 0 <= y < b + 1 && seconds@[y] != i implies #[trigger] r@.contains(
                                seconds@[y],
                            ) by {
                                if y < b {
                                    assert(r0.contains(seconds@[y]));
                                }
                            }
                        }
                    } else {
                        proof {
                            let z = choose|z: int| 0 <= z < c && r@[z] == s;
                            assert(r@.contains(s));
                        }
                    }
                }
                b = b + 1;
            }
            proof {
                assert(ss.skip(ss.len() as int) =~= Seq::<nat>::empty());
                assert forall|x: int, s: usize|
                    0 <= x < a + 1 && s != i && #[trigger] self.second(fs[x], from_predecessors).contains(
                        s as nat,
                    ) implies #[trigger] r@.contains(s) by {
                    if x == a {
                        let y = choose|y: int| 0 <= y < ss.len() && ss[y] == s as nat;
                        assert(seconds@[y] as nat == s as nat);
                        assert(r@.contains(seconds@[y]));
                    } else {
                        assert(r1.contains(s));
                    }
                }
            }
            a = a + 1;
        }
        proof {
            assert(fs.skip(firsts.len() as int) =~= Seq::<nat>::empty());
            assert forall|s: usize|
                s < self.count() && self.sibling_of(i as nat, s as nat, from_predecessors) implies #[trigger] r@.contains(
                s,
            ) by {
                if from_predecessors {
                    let p = choose|p: nat| self.pred(i as nat).contains(p) && #[trigger] self.succ(p).contains(s as nat);
                    let x = choose|x: int| 0 <= x < fs.len() && fs[x] == p;
                    assert(self.second(fs[x], from_predecessors).contains(s as nat));
                } else {
                    let p = choose|p: nat| self.succ(i as nat).contains(p) && #[trigger] self.pred(p).contains(s as nat);
                    let x = choose|x: int| 0 <= x < fs.len() && fs[x] == p;
                    assert(self.second(fs[x], from_predecessors).contains(s as nat));
                }
            }
        }
        r
    }

    /// `acc` followed by the positions of `xs` that are not `i` and not yet
    /// listed, each once, in order.
    pub open(crate) spec fn add_new(acc: Seq<nat>, xs: Seq<nat>, i: nat) -> Seq<nat>
        decreases xs.len(),
    {
        if xs.len() == 0 {
            acc
        } else {
            let x = xs[0];
            Self::add_new(
                if x != i && !acc.contains(x) {
                    acc.push(x)
                } else {
                    acc
                },
                xs.drop_first(),
                i,
            )
        }
    }

    /// The siblings of `i` in the order in which they are listed: for each
    /// neighbour `p` of `i` in turn, the new ones among the neighbours of `p`
    /// in the other direction.
    pub open(crate) spec fn gather(&self, acc: Seq<nat>, fs: Seq<nat>, i: nat, from_predecessors: bool) -> Seq<nat>
        decreases fs.len(),
    {
        if fs.len() == 0 {
            acc
        } else {
            self.gather(
                Self::add_new(acc, self.second(fs[0], from_predecessors), i),
                fs.drop_first(),
                i,
                from_predecessors,
            )
        }
    }

    /// The siblings of position `i`, in order.
    pub open(crate) spec fn sibling_seq(&self, i: nat, from_predecessors: bool) -> Seq<nat> {
        self.gather(
            Seq::empty(),
            if from_predecessors {
                self.pred(i)
            } else {
                self.succ(i)
            },
            i,
            from_predecessors,
        )
    }

    /// The neighbours of `p` in the other direction: its successors where
    /// siblings are found from predecessors, and its predecessors otherwise.
    pub open(crate) spec fn second(&self, p: nat, from_predecessors: bool) -> Seq<nat> {
        if from_predecessors {
            self.succ(p)
        } else {
            self.pred(p)
        }
    }
}

impl<N: Node, E: Edge> ComponentGraph<N, E> {
    /// The ids, in increasing order, of the components reachable from the one
    /// with id `from` that pass the filter; where `follow_after_match` is
    /// false, the search does not go on below a component that passes.
    pub fn find_all(&self, from: u64, filter: NodeFilter, follow_after_match: bool) -> (r: Result<Vec<u64>, Error>)
        requires
            self.wf(),
        ensures
            r is Ok <==> self.contains(from),
            r matches Ok(v) ==> increasing(v@) && forall|k: int|
                0 <= k < v.len() ==> self.found_below(self.index_of(from), filter, #[trigger] v@[k]),
            r matches Ok(v) ==> forall|k: int|
                0 <= k < v.len() ==> self.found_by_search(self.index_of(from), filter, follow_after_match, #[trigger] v@[k]),
            r matches Ok(v) ==> forall|j: nat|
                j < self.count() && self.passes(filter, j) && #[trigger] self.search_reaches(
                    self.index_of(from),
                    j,
                    filter,
                    follow_after_match,
                ) ==> v@.contains(self.id_at(j)),
            r matches Err(e) ==> is_not_found(e, from),
    {
        match self.position(from) {
            Some(i) => Ok(self.find_all_at(i, filter, follow_after_match)),
            None => Err(not_found(from)),
        }
    }

    fn siblings(&self, component_id: u64, from_predecessors: bool) -> (r: Result<Vec<&N>, Error>)
        requires
            self.wf(),
        ensures
            r is Ok <==> self.contains(component_id),
            r matches Ok(v) ==> exists|ps: Seq<usize>| {
                &&& #[trigger] ps.len() == v.len()
                &&& ps.no_duplicates()
                &&& forall|k: int| 0 <= k < v.len() ==> *#[trigger] v@[k] == self.node_values()[ps[k] as int]
                &&& forall|s: usize| #[trigger] ps.contains(s) ==> self.sibling_of(self.index_of(component_id), s as nat, from_predecessors)
                &&& forall|s: usize| s < self.count() && self.sibling_of(self.index_of(component_id), s as nat, from_predecessors) ==> #[trigger] ps.contains(s)
            },
            r matches Err(e) ==> is_not_found(e, component_id),
    {
        match self.position(component_id) {
            Some(i) => {
                let ps = self.sibling_positions(i, from_predecessors);
                let mut v: Vec<&N> = Vec::new();
                let mut k: usize = 0;
                while k < ps.len()
                    invariant
                        self.wf(),
                        k <= ps.len(),
                        forall|x: int| 0 <= x < ps.len() ==> #[trigger] ps@[x] < self.count(),
                        v.len() == k,
                        forall|x: int| 0 <= x < k ==> *#[trigger] v@[x] == self.node_values()[ps@[x] as int],
                    decreases ps.len() - k,
                {
                    v.push(self.node_at(ps[k]));
                    k = k + 1;
                }
                proof {
                    assert(ps@.len() == v.len());
                }
                Ok(v)
            },
            None => Err(not_found(component_id)),
        }
    }

    /// The components other than this one that share a predecessor with
    /// it, each once.
    pub fn siblings_from_predecessors(&self, component_id: u64) -> (r: Result<Vec<&N>, Error>)
        requires
            self.wf(),
        ensures
            r is Ok <==> self.contains(component_id),
            r matches Ok(v) ==> exists|ps: Seq<usize>| {
                &&& #[trigger] ps.len() == v.len()
                &&& ps.no_duplicates()
                &&& forall|k: int| 0 <= k < v.len() ==> *#[trigger] v@[k] == self.node_values()[ps[k] as int]
                &&& forall|s: usize| #[trigger] ps.contains(s) ==> self.sibling_of(self.index_of(component_id), s as nat, true)
                &&& forall|s: usize| s < self.count() && self.sibling_of(self.index_of(component_id), s as nat, true) ==> #[trigger] ps.contains(s)
            },
            r matches Err(e) ==> is_not_found(e, component_id),
    {
        self.siblings(component_id, true)
    }

    /// The components other than this one that share a successor with it,
    /// each once.
    pub fn siblings_from_successors(&self, component_id: u64) -> (r: Result<Vec<&N>, Error>)
        requires
            self.wf(),
        ensures
            r is Ok <==> self.contains(component_id),
            r matches Ok(v) ==> exists|ps: Seq<usize>| {
                &&& #[trigger] ps.len() == v.len()
                &&& ps.no_duplicates()
                &&& forall|k: int| 0 <= k < v.len() ==> *#[trigger] v@[k] == self.node_values()[ps[k] as int]
                &&& forall|s: usize| #[trigger] ps.contains(s) ==> self.sibling_of(self.index_of(component_id), s as nat, false)
                &&& forall|s: usize| s < self.count() && self.sibling_of(self.index_of(component_id), s as nat, false) ==> #[trigger] ps.contains(s)
            },
            r matches Err(e) ==> is_not_found(e, component_id),
    {
        self.siblings(component_id, false)
    }
}

} // verus!
