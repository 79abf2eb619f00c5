//! Validation of a component graph: no cycles, every component reachable
//! from the root, and sensible neighbours for each category.

use crate::category::{battery_inverter, category_name, ComponentCategory, InverterType};
use crate::error::{error_text, Error, ErrorKind};
use crate::graph::{ComponentGraph, Failure};
use crate::text::{dec, push_dec, push_str};
use crate::traits::{Edge, Node};
use vstd::prelude::*;

verus! {

// ----- Walks and reachability -----

impl<N: Node, E: Edge> ComponentGraph<N, E> {
    /// A non-empty sequence of positions in which each one is followed by a
    /// successor of it.
    pub open(crate) spec fn is_walk(&self, w: Seq<nat>) -> bool {
        &&& w.len() >= 1
        &&& forall|k: int| 1 <= k < w.len() ==> self.succ(w[k - 1]).contains(#[trigger] w[k])
    }

    /// Whether `b` can be reached from `a` by following successors.
    pub open(crate) spec fn reaches(&self, a: nat, b: nat) -> bool {
        exists|w: Seq<nat>| self.is_walk(w) && w[0] == a && w.last() == b
    }

    /// Whether `a` lies in its own transitive closure of successors.
    pub open(crate) spec fn on_cycle(&self, a: nat) -> bool {
        exists|w: Seq<nat>| #[trigger] self.is_walk(w) && w.len() >= 2 && w[0] == a && w.last() == a
    }

    /// The depth-first search for cycles from `v`, with `path` the positions
    /// above it, finds none.
    pub open(crate) spec fn dfs_ok(&self, path: Seq<nat>, v: nat) -> bool
        decreases self.count() - path.len(),
    {
        if path.len() >= self.count() {
            false
        } else {
            forall|k: int|
                0 <= k < self.succ(v).len() ==> !path.push(v).contains(#[trigger] self.succ(v)[k])
                    && self.dfs_ok(path.push(v), self.succ(v)[k])
        }
    }

    /// Without a cycle found from `v`, every walk from `v` repeats no
    /// position and avoids the path above `v`.
    pub(crate) proof fn lemma_dfs_sound(&self, path: Seq<nat>, v: nat, w: Seq<nat>)
        requires
            self.dfs_ok(path, v),
            self.is_walk(w),
            w[0] == v,
        ensures
            w.no_duplicates(),
            forall|k: int| 1 <= k < w.len() ==> !path.push(v).contains(#[trigger] w[k]),
        decreases w.len(),
    {
        if w.len() >= 2 {
            let s = w[1];
            let through = path.push(v);
            assert(self.succ(w[0]).contains(w[1]));
            let k = choose|k: int| 0 <= k < self.succ(v).len() && self.succ(v)[k] == s;
            assert(!through.contains(self.succ(v)[k]) && self.dfs_ok(through, self.succ(v)[k]));
            let w2 = w.drop_first();
            assert forall|j: int| 1 <= j < w2.len() implies self.succ(w2[j - 1]).contains(
                #[trigger] w2[j],
            ) by {
                assert(w2[j] == w[j + 1] && w2[j - 1] == w[j]);
            }
            self.lemma_dfs_sound(through, s, w2);
            assert forall|j: int| 1 <= j < w.len() implies !through.contains(#[trigger] w[j]) by {
                if j >= 2 {
                    assert(w[j] == w2[j - 1]);
                    assert(!through.push(s).contains(w2[j - 1]));
                    if through.contains(w[j]) {
                        let x = choose|x: int| 0 <= x < through.len() && through[x] == w[j];
                        assert(through.push(s)[x] == w[j]);
                    }
                }
            }
            assert forall|a: int, b: int| 0 <= a < w.len() && 0 <= b < w.len() && a != b implies w[a]
                != w[b] by {
                if a == 0 {
                    assert(through[through.len() - 1] == v);
                    assert(!through.contains(w[b]));
                } else if b == 0 {
                    assert(through[through.len() - 1] == v);
                    assert(!through.contains(w[a]));
                } else {
                    assert(w[a] == w2[a - 1] && w[b] == w2[b - 1]);
                }
            }
        }
    }

    /// A walk followed by a walk that starts where the first ends is a walk.
    pub(crate) proof fn lemma_walk_join(&self, u: Seq<nat>, c: Seq<nat>)
        requires
            self.is_walk(u),
            self.is_walk(c),
            u.last() == c[0],
        ensures
            self.is_walk(u + c.drop_first()),
            (u + c.drop_first())[0] == u[0],
            (u + c.drop_first()).last() == c.last(),
    {
        let j = u + c.drop_first();
        assert forall|k: int| 1 <= k < j.len() implies self.succ(j[k - 1]).contains(#[trigger] j[k]) by {
            if k < u.len() {
                assert(j[k] == u[k] && j[k - 1] == u[k - 1]);
            } else {
                let kk = k - (u.len() - 1);
                assert(j[k] == c[kk] && j[k - 1] == c[kk - 1]);
            }
        }
    }

    /// A walk from `a` to `b`, extended by a successor of `b`.
    pub(crate) proof fn lemma_reach_step(&self, a: nat, b: nat, c: nat)
        requires
            self.reaches(a, b),
            self.succ(b).contains(c),
        ensures
            self.reaches(a, c),
    {
        let w = choose|w: Seq<nat>| self.is_walk(w) && w[0] == a && w.last() == b;
        let w2 = w.push(c);
        assert forall|k: int| 1 <= k < w2.len() implies self.succ(w2[k - 1]).contains(#[trigger] w2[k]) by {
            if k < w.len() {
                assert(w2[k] == w[k] && w2[k - 1] == w[k - 1]);
            }
        }
        assert(self.is_walk(w2) && w2[0] == a && w2.last() == c);
    }

    /// A set of positions that holds `a` and is closed under successors holds
    /// everything reachable from `a`.
    pub(crate) proof fn lemma_closed_holds_reach(&self, marked: Seq<bool>, a: nat, w: Seq<nat>)
        requires
            self.is_walk(w),
            w[0] == a,
            a < marked.len(),
            marked[a as int],
            forall|x: nat, k: int|
                x < marked.len() && marked[x as int] && 0 <= k < self.succ(x).len() ==> #[trigger] self.succ(
                    x,
                )[k] < marked.len() && marked[self.succ(x)[k] as int],
        ensures
            w.last() < marked.len() && marked[w.last() as int],
        decreases w.len(),
    {
        if w.len() >= 2 {
            let u = w.drop_last();
            assert forall|k: int| 1 <= k < u.len() implies self.succ(u[k - 1]).contains(#[trigger] u[k]) by {
                assert(u[k] == w[k] && u[k - 1] == w[k - 1]);
            }
            self.lemma_closed_holds_reach(marked, a, u);
            assert(self.succ(w[w.len() - 2]).contains(w[w.len() - 1]));
            let x = w[w.len() - 2];
            let k = choose|k: int| 0 <= k < self.succ(x).len() && self.succ(x)[k] == w.last();
            assert(self.succ(x)[k] < marked.len() && marked[self.succ(x)[k] as int]);
        }
    }
}

// ----- Joined id lists in messages -----

/// The decimal ids joined by `sep`.
pub open spec fn joined_ids(ids: Seq<u64>, sep: Seq<char>) -> Seq<char>
    decreases ids.len(),
{
    if ids.len() == 0 {
        Seq::empty()
    } else if ids.len() == 1 {
        dec(ids[0] as nat)
    } else {
        joined_ids(ids.drop_last(), sep) + sep + dec(ids.last() as nat)
    }
}

/// Appends the decimal ids, joined by `sep`, to `out`.
pub fn push_joined_ids(out: &mut String, ids: &Vec<u64>, sep: &str)
    ensures
        final(out)@ == old(out)@ + joined_ids(ids@, sep@),
{
    let ghost start = out@;
    let mut i: usize = 0;
    while i < ids.len()
        invariant
            i <= ids.len(),
            out@ == start + joined_ids(ids@.take(i as int), sep@),
        decreases ids.len() - i,
    {
        proof {
            assert(ids@.take(i as int + 1).drop_last() =~= ids@.take(i as int));
        }
        if i > 0 {
            out.append(sep);
        }
        push_dec(out, ids[i]);
        proof {
            if i == 0 {
                assert(joined_ids(ids@.take(0), sep@) =~= Seq::<char>::empty());
                assert(out@ =~= start + joined_ids(ids@.take(1), sep@));
            } else {
                assert(out@ =~= start + joined_ids(ids@.take(i as int + 1), sep@));
            }
        }
        i = i + 1;
    }
    proof {
        assert(ids@.take(ids.len() as int) =~= ids@);
    }
}


/// A sequence of distinct positions below `n` has at most `n` elements.
proof fn lemma_distinct_bounded(s: Seq<nat>, n: nat)
    requires
        s.no_duplicates(),
        forall|k: int| 0 <= k < s.len() ==> #[trigger] s[k] < n,
    ensures
        s.len() <= n,
{
    let t = s.map_values(|x: nat| x as int);
    assert(t.no_duplicates()) by {
        assert forall|a: int, b: int| 0 <= a < t.len() && 0 <= b < t.len() && a != b implies t[a]
            != t[b] by {
            assert(s[a] != s[b]);
        }
    }
    t.unique_seq_to_set();
    vstd::set_lib::lemma_int_range(0, n as int);
    assert(t.to_set().subset_of(vstd::set_lib::set_int_range(0, n as int))) by {
        assert forall|x: int| t.to_set().contains(x) implies vstd::set_lib::set_int_range(
            0,
            n as int,
        ).contains(x) by {
            let k = choose|k: int| 0 <= k < t.len() && t[k] == x;
            assert(s[k] < n);
        }
    }
    vstd::set_lib::lemma_len_subset(t.to_set(), vstd::set_lib::set_int_range(0, n as int));
}

/// Positions as natural numbers.
pub open spec fn nats(s: Seq<usize>) -> Seq<nat> {
    s.map_values(|x: usize| x as nat)
}

// ----- Acyclicity and reachability -----

impl<N: Node, E: Edge> ComponentGraph<N, E> {
    /// `Category:id`, the way messages name a component.
    pub open(crate) spec fn label(&self, i: nat) -> Seq<char> {
        category_name(self.category_at(i)) + ":"@ + dec(self.id_at(i) as nat)
    }

    fn push_label(&self, out: &mut String, i: usize)
        requires
            self.wf(),
            i < self.count(),
        ensures
            final(out)@ == old(out)@ + self.label(i as nat),
    {
        let info = self.info(i);
        info.category.write_name(out);
        push_str(out, ":");
        push_dec(out, info.component_id);
    }

    /// The cycle that the depth-first search from `v` finds first, with
    /// `path` the positions above `v`: the positions from the first
    /// occurrence of the repeated one, followed by it again.
    pub open(crate) spec fn cycle_from(&self, path: Seq<nat>, v: nat) -> Option<Seq<nat>>
        decreases self.count() - path.len(), self.succ(v).len() + 1,
    {
        if path.len() >= self.count() {
            Some(Seq::empty())
        } else {
            self.cycle_scan(path.push(v), v, 0)
        }
    }

    /// The cycle found from the `k`-th successor of `v` on, with `through`
    /// the path down to `v`.
    pub open(crate) spec fn cycle_scan(&self, through: Seq<nat>, v: nat, k: nat) -> Option<Seq<nat>>
        decreases self.count() - (through.len() - 1), self.succ(v).len() - k,
    {
        if through.len() == 0 || through.len() > self.count() || k >= self.succ(v).len() {
            None
        } else {
            let s = self.succ(v)[k as int];
            if through.contains(s) {
                let f = choose|f: int| 0 <= f < through.len() && through[f] == s;
                Some(through.skip(f).push(s))
            } else {
                match self.cycle_from(through, s) {
                    Some(c) => Some(c),
                    None => self.cycle_scan(through, v, k + 1),
                }
            }
        }
    }

    /// The ids of the positions, each followed by ` -> `.
    pub open(crate) spec fn arrow_ids(&self, ps: Seq<nat>) -> Seq<char>
        decreases ps.len(),
    {
        if ps.len() == 0 {
            Seq::empty()
        } else {
            self.arrow_ids(ps.drop_last()) + dec(self.id_at(ps.last()) as nat) + " -> "@
        }
    }

    /// The description of the error for a cycle, e.g. `Cycle detected: 2 -> 3 -> 2`.
    pub open(crate) spec fn cycle_text(&self, c: Seq<nat>) -> Seq<char> {
        "Cycle detected: "@ + self.arrow_ids(c.drop_last()) + dec(self.id_at(c.last()) as nat)
    }

    /// Searches depth first from `v` for an edge back into the path that led
    /// to it; `path` holds the positions above `v` and is left as it was.
    fn find_cycle(&self, v: usize, path: &mut Vec<usize>) -> (r: Result<(), Error>)
        requires
            self.wf(),
            v < self.count(),
            nats(old(path)@).no_duplicates(),
            forall|k: int| 0 <= k < old(path).len() ==> #[trigger] old(path)@[k] < self.count(),
            !nats(old(path)@).contains(v as nat),
        ensures
            final(path)@ == old(path)@,
            r is Ok <==> self.dfs_ok(nats(old(path)@), v as nat),
            r is Ok <==> self.cycle_from(nats(old(path)@), v as nat) is None,
            r matches Err(e) ==> e.kind == ErrorKind::InvalidGraph && e.desc@ == self.cycle_text(
                self.cycle_from(nats(old(path)@), v as nat)->Some_0,
            ),
        decreases self.count() - old(path).len(),
    {
        let ghost above = nats(path@);
        let ghost through = above.push(v as nat);
        proof {
            assert(through.no_duplicates()) by {
                assert forall|a: int, b: int| 0 <= a < through.len() && 0 <= b < through.len() && a != b implies through[a]
                    != through[b] by {
                    if a == above.len() as int {
                        assert(through[b] == above[b]);
                    } else if b == above.len() as int {
                        assert(through[a] == above[a]);
                    } else {
                        assert(through[a] == above[a] && through[b] == above[b]);
                    }
                }
            }
            assert forall|k: int| 0 <= k < through.len() implies #[trigger] through[k] < self.count() by {
                if k < above.len() {
                    assert(above[k] == path@[k] as nat);
                }
            }
            lemma_distinct_bounded(through, self.count());
        }
        path.push(v);
        proof {
            assert(nats(path@) =~= through);
        }
        assert(path@ == old(path)@.push(v));
        let succs = self.successor_positions(v);
        assert(self.cycle_from(above, v as nat) == self.cycle_scan(through, v as nat, 0));
        let mut k: usize = 0;
        while k < succs.len()
            invariant
                self.wf(),
                v < self.count(),
                nats(path@) == through,
                path@ == old(path)@.push(v),
                through == above.push(v as nat),
                above == nats(old(path)@),
                above.len() < self.count(),
                through.no_duplicates(),
                forall|x: int| 0 <= x < path.len() ==> #[trigger] path@[x] < self.count(),
                k <= succs.len(),
                succs.len() == self.succ(v as nat).len(),
                forall|x: int| 0 <= x < succs.len() ==> #[trigger] succs@[x] as nat == self.succ(v as nat)[x],
                forall|x: int| 0 <= x < succs.len() ==> #[trigger] succs@[x] < self.count(),
                forall|x: int|
                    0 <= x < k ==> !through.contains(#[trigger] self.succ(v as nat)[x]) && self.dfs_ok(
                        through,
                        self.succ(v as nat)[x],
                    ),
                self.cycle_from(above, v as nat) == self.cycle_scan(through, v as nat, k as nat),
            decreases succs.len() - k,
        {
            let s = succs[k];
            let mut f: usize = 0;
            while f < path.len()
                invariant
                    f <= path.len(),
                    forall|x: int| 0 <= x < f ==> path@[x] != s,
                ensures
                    f <= path.len(),
                    f < path.len() ==> path@[f as int] == s,
                    forall|x: int| 0 <= x < f ==> path@[x] != s,
                decreases path.len() - f,
            {
                if path[f] == s {
                    break;
                }
                f = f + 1;
            }
            if f < path.len() {
                proof {
                    assert(through[f as int] == s as nat);
                    assert(through.contains(self.succ(v as nat)[k as int]));
                    assert(!self.dfs_ok(above, v as nat));
                    assert(above == nats(old(path)@));
                }
                let ghost found = through.skip(f as int).push(s as nat);
                proof {
                    let g = choose|g: int| 0 <= g < through.len() && through[g] == s as nat;
                    assert(g == f as int);
                    assert(self.cycle_scan(through, v as nat, k as nat) == Some(found));
                }
                let mut msg = String::new();
                push_str(&mut msg, "Cycle detected: ");
                let ghost start = msg@;
                let mut j: usize = f;
                proof {
                    assert(through.subrange(f as int, f as int) =~= Seq::<nat>::empty());
                }
                while j < path.len()
                    invariant
                        self.wf(),
                        f <= j <= path.len(),
                        nats(path@) == through,
                        forall|x: int| 0 <= x < path.len() ==> #[trigger] path@[x] < self.count(),
                        msg@ == start + self.arrow_ids(through.subrange(f as int, j as int)),
                    decreases path.len() - j,
                {
                    proof {
                        assert(through.subrange(f as int, j as int + 1).drop_last() =~= through.subrange(
                            f as int,
                            j as int,
                        ));
                        assert(through.subrange(f as int, j as int + 1).last() == path@[j as int] as nat);
                    }
                    push_dec(&mut msg, self.info(path[j]).component_id);
                    push_str(&mut msg, " -> ");
                    j = j + 1;
                }
                push_dec(&mut msg, self.info(s).component_id);
                proof {
                    assert(found.drop_last() =~= through.subrange(f as int, path.len() as int));
                    assert(msg@ =~= self.cycle_text(found));
                }
                path.pop();
                proof {
                    assert(path@ =~= old(path)@);
                }
                return Err(Error::new(ErrorKind::InvalidGraph, msg));
            }
            proof {
                assert(!through.contains(s as nat)) by {
                    if through.contains(s as nat) {
                        let x = choose|x: int| 0 <= x < through.len() && through[x] == s as nat;
                        assert(path@[x] == s);
                    }
                }
            }
            assert(path.len() == old(path).len() + 1);
            assert(above == nats(old(path)@));
            let res = self.find_cycle(s, path);
            match res {
                Ok(()) => {
                    proof {
                        assert(self.cycle_scan(through, v as nat, k as nat) == self.cycle_scan(
                            through,
                            v as nat,
                            k as nat + 1,
                        ));
                    }
                },
                Err(e) => {
                    proof {
                        assert(self.cycle_scan(through, v as nat, k as nat) == self.cycle_from(
                            through,
                            s as nat,
                        ));
                        assert(!self.dfs_ok(above, v as nat));
                        assert(above == nats(old(path)@));
                    }
                    path.pop();
                    proof {
                        assert(path@ =~= old(path)@);
                    }
                    return Err(e);
                },
            }
            k = k + 1;
        }
        path.pop();
        proof {
            assert(path@ =~= old(path)@);
            assert(self.dfs_ok(above, v as nat));
            assert(above == nats(old(path)@));
        }
        Ok(())
    }
}


/// The number of unmarked entries.
pub open spec fn unmarked(s: Seq<bool>) -> nat
    decreases s.len(),
{
    if s.len() == 0 {
        0
    } else {
        unmarked(s.drop_last()) + if s.last() {
            0nat
        } else {
            1nat
        }
    }
}

pub(crate) proof fn lemma_unmarked_mark(s: Seq<bool>, i: int)
    requires
        0 <= i < s.len(),
        !s[i],
    ensures
        unmarked(s.update(i, true)) + 1 == unmarked(s),
    decreases s.len(),
{
    let t = s.update(i, true);
    if i < s.len() - 1 {
        assert(t.drop_last() =~= s.drop_last().update(i, true));
        lemma_unmarked_mark(s.drop_last(), i);
    } else {
        assert(t.drop_last() =~= s.drop_last());
    }
}

impl<N: Node, E: Edge> ComponentGraph<N, E> {
    /// Marks the components that can be reached from the root.
    fn reached_from_root(&self) -> (r: Vec<bool>)
        requires
            self.wf(),
        ensures
            r.len() == self.count(),
            forall|j: nat| j < self.count() ==> (r@[j as int] <==> #[trigger] self.reaches(self.root_position(), j)),
    {
        let n = self.len();
        let root = self.root_pos();
        let mut marked: Vec<bool> = Vec::new();
        let mut i: usize = 0;
        while i < n
            invariant
                i <= n,
                marked.len() == i,
                forall|j: int| 0 <= j < i ==> !marked@[j],
                unmarked(marked@) == i,
            decreases n - i,
        {
            proof {
                assert(marked@.push(false).drop_last() =~= marked@);
            }
            marked.push(false);
            i = i + 1;
        }
        proof {
            lemma_unmarked_mark(marked@, root as int);
            let w = seq![root as nat];
            assert(self.is_walk(w) && w[0] == root as nat && w.last() == root as nat);
        }
        marked.set(root, true);
        let mut stack: Vec<usize> = Vec::new();
        stack.push(root);
        proof {
            assert(stack@[0] == root);
            assert forall|x: nat| x < n && #[trigger] marked@[x as int] implies stack@.contains(x as usize) by {
                assert(x == root as nat);
            }
        }
        while stack.len() > 0
            invariant
                self.wf(),
                n == self.count(),
                root == self.root_position(),
                marked.len() == n,
                marked@[root as int],
                forall|j: nat| j < n && #[trigger] marked@[j as int] ==> self.reaches(root as nat, j),
                forall|k: int| 0 <= k < stack.len() ==> #[trigger] stack@[k] < n && marked@[stack@[k] as int],
                stack@.no_duplicates(),
                forall|x: nat, k: int|
                    x < n && marked@[x as int] && !stack@.contains(x as usize) && 0 <= k < self.succ(x).len()
                        ==> #[trigger] self.succ(x)[k] < n && marked@[self.succ(x)[k] as int],
            decreases 2 * unmarked(marked@) + stack.len(),
        {
            let ghost m0 = 2 * unmarked(marked@) + stack.len();
            let ghost st0 = stack@;
            let x = stack.pop().unwrap();
            proof {
                assert(stack@ =~= st0.drop_last() && x == st0.last());
                assert forall|y: usize| stack@.contains(y) implies y != x by {
                    let k = choose|k: int| 0 <= k < stack@.len() && stack@[k] == y;
                    assert(st0[k] == y && st0[st0.len() - 1] == x);
                }
                assert forall|y: usize| !stack@.contains(y) && y != x implies !st0.contains(y) by {
                    if st0.contains(y) {
                        let k = choose|k: int| 0 <= k < st0.len() && st0[k] == y;
                        assert(stack@[k] == y);
                    }
                }
            }
            let succs = self.successor_positions(x);
            let mut k: usize = 0;
            while k < succs.len()
                invariant
                    self.wf(),
                    n == self.count(),
                    root == self.root_position(),
                    x < n,
                    marked.len() == n,
                    marked@[root as int],
                    marked@[x as int],
                    !stack@.contains(x),
                    forall|j: nat| j < n && #[trigger] marked@[j as int] ==> self.reaches(root as nat, j),
                    forall|q: int| 0 <= q < stack.len() ==> #[trigger] stack@[q] < n && marked@[stack@[q] as int],
                    stack@.no_duplicates(),
                    forall|y: nat, q: int|
                        y < n && marked@[y as int] && !stack@.contains(y as usize) && y != x && 0 <= q
                            < self.succ(y).len() ==> #[trigger] self.succ(y)[q] < n
                            && marked@[self.succ(y)[q] as int],
                    k <= succs.len(),
                    succs.len() == self.succ(x as nat).len(),
                    forall|q: int| 0 <= q < succs.len() ==> #[trigger] succs@[q] as nat == self.succ(x as nat)[q],
                    forall|q: int| 0 <= q < succs.len() ==> #[trigger] succs@[q] < n,
                    forall|q: int| 0 <= q < k ==> marked@[#[trigger] self.succ(x as nat)[q] as int],
                    2 * unmarked(marked@) + stack.len() < m0,
                decreases succs.len() - k,
            {
                let s = succs[k];
                let ghost mk0 = marked@;
                let ghost st1 = stack@;
                proof {
                    assert(self.succ(x as nat)[k as int] == s as nat);
                }
                if !marked[s] {
                    proof {
                        lemma_unmarked_mark(marked@, s as int);
                        assert(self.succ(x as nat)[k as int] == s as nat);
                        assert(self.succ(x as nat).contains(s as nat));
                        self.lemma_reach_step(root as nat, x as nat, s as nat);
                        assert(!stack@.contains(s));
                    }
                    marked.set(s, true);
                    stack.push(s);
                    proof {
                        assert(stack@[stack.len() - 1] == s);
                        assert forall|y: usize| !stack@.contains(y) implies !st1.contains(y) by {
                            if st1.contains(y) {
                                let q = choose|q: int| 0 <= q < st1.len() && st1[q] == y;
                                assert(stack@[q] == y);
                            }
                        }
                        assert forall|j: int| 0 <= j < n && mk0[j] implies marked@[j] by {}
                    }
                }
                proof {
                    assert forall|q: int| 0 <= q < k + 1 implies marked@[#[trigger] self.succ(
                        x as nat,
                    )[q] as int] by {
                        if q < k {
                            assert(succs@[q] as nat == self.succ(x as nat)[q]);
                            assert(succs@[q] < n);
                            assert(mk0[self.succ(x as nat)[q] as int]);
                        }
                    }
                }
                k = k + 1;
            }
        }
        proof {
            assert forall|j: nat| j < self.count() implies (marked@[j as int] <==> #[trigger] self.reaches(
                self.root_position(),
                j,
            )) by {
                if self.reaches(self.root_position(), j) {
                    let w = choose|w: Seq<nat>| self.is_walk(w) && w[0] == root as nat && w.last() == j;
                    self.lemma_closed_holds_reach(marked@, root as nat, w);
                }
            }
        }
        marked
    }
}


// ----- Neighbour rules -----

/// What the neighbours of a component may be.
#[derive(Clone, Copy, Debug, PartialEq, Eq, Structural)]
pub enum NeighborRule {
    GridOrMeter,
    NotBattery,
    Batteries,
    BatteryOrHybridInverters,
}

pub open spec fn rule_admits(rule: NeighborRule, c: ComponentCategory, allow_unspecified: bool) -> bool {
    match rule {
        NeighborRule::GridOrMeter => c is Grid || c is Meter,
        NeighborRule::NotBattery => !(c is Battery),
        NeighborRule::Batteries => c is Battery,
        NeighborRule::BatteryOrHybridInverters => battery_inverter(c, allow_unspecified) || c
            == ComponentCategory::Inverter(InverterType::Hybrid),
    }
}

pub open spec fn rule_text(rule: NeighborRule) -> Seq<char> {
    match rule {
        NeighborRule::GridOrMeter => "the Grid or a Meter"@,
        NeighborRule::NotBattery => "not Batteries"@,
        NeighborRule::Batteries => "Batteries"@,
        NeighborRule::BatteryOrHybridInverters => "BatteryInverters or HybridInverters"@,
    }
}

impl NeighborRule {
    pub fn admits(&self, c: ComponentCategory, allow_unspecified: bool) -> (r: bool)
        ensures
            r == rule_admits(*self, c, allow_unspecified),
    {
        match self {
            NeighborRule::GridOrMeter => c.is_grid() || c.is_meter(),
            NeighborRule::NotBattery => !c.is_battery(),
            NeighborRule::Batteries => c.is_battery(),
            NeighborRule::BatteryOrHybridInverters => c.is_battery_inverter(allow_unspecified)
                || c.is_hybrid_inverter(),
        }
    }

    pub fn write_text(&self, out: &mut String)
        ensures
            final(out)@ == old(out)@ + rule_text(*self),
    {
        match self {
            NeighborRule::GridOrMeter => push_str(out, "the Grid or a Meter"),
            NeighborRule::NotBattery => push_str(out, "not Batteries"),
            NeighborRule::Batteries => push_str(out, "Batteries"),
            NeighborRule::BatteryOrHybridInverters => push_str(
                out,
                "BatteryInverters or HybridInverters",
            ),
        }
    }
}

/// The groups of components that have rules of their own.
#[derive(Clone, Copy, Debug, PartialEq, Eq, Structural)]
pub enum RuleGroup {
    Meters,
    Inverters,
    Batteries,
    EvChargers,
    Chps,
}

/// The first failure of the two, if any.
pub open spec fn or_else(a: Option<Failure>, b: Option<Failure>) -> Option<Failure> {
    match a {
        Some(f) => Some(f),
        None => b,
    }
}

/// Whether the error, if any, is the failure, if any.
pub open spec fn matches_failure(r: Option<Error>, f: Option<Failure>) -> bool {
    match f {
        Some(f) => r is Some && crate::graph::is_failure(r->Some_0, f),
        None => r is None,
    }
}

/// A list of zero or one failures.
pub open spec fn listed(f: Option<Failure>) -> Seq<Failure> {
    match f {
        Some(f) => seq![f],
        None => Seq::empty(),
    }
}

/// The printed form of a failure.
pub open spec fn failure_text(f: Failure) -> Seq<char> {
    crate::error::kind_name(f.0) + ": "@ + f.1
}

/// The printed failures, each on a line of its own after the first.
pub open spec fn joined_failures(fs: Seq<Failure>) -> Seq<char>
    decreases fs.len(),
{
    if fs.len() == 0 {
        Seq::empty()
    } else if fs.len() == 1 {
        failure_text(fs[0])
    } else {
        joined_failures(fs.drop_last()) + "\n    "@ + failure_text(fs.last())
    }
}

impl<N: Node, E: Edge> ComponentGraph<N, E> {
    /// The first of the positions whose category the rule rejects.
    pub open(crate) spec fn first_rejected(&self, s: Seq<nat>, rule: NeighborRule) -> Option<nat>
        decreases s.len(),
    {
        if s.len() == 0 {
            None
        } else if !rule_admits(rule, self.category_at(s[0]), self.config.allow_unspecified_inverters) {
            Some(s[0])
        } else {
            self.first_rejected(s.drop_first(), rule)
        }
    }

    /// The first of the positions that has more than one predecessor.
    pub open(crate) spec fn first_shared(&self, s: Seq<nat>) -> Option<nat>
        decreases s.len(),
    {
        if s.len() == 0 {
            None
        } else if self.pred(s[0]).len() > 1 {
            Some(s[0])
        } else {
            self.first_shared(s.drop_first())
        }
    }

    pub open(crate) spec fn preds_check(&self, i: nat, rule: NeighborRule) -> Option<Failure> {
        match self.first_rejected(self.pred(i), rule) {
            Some(p) => Some(
                (
                    ErrorKind::InvalidGraph,
                    self.label(i) + " can only have predecessors that are "@ + rule_text(rule)
                        + ". Found "@ + self.label(p) + "."@,
                ),
            ),
            None => None,
        }
    }

    pub open(crate) spec fn succs_check(&self, i: nat, rule: NeighborRule) -> Option<Failure> {
        match self.first_rejected(self.succ(i), rule) {
            Some(p) => Some(
                (
                    ErrorKind::InvalidGraph,
                    self.label(i) + " can only have successors that are "@ + rule_text(rule)
                        + ". Found "@ + self.label(p) + "."@,
                ),
            ),
            None => None,
        }
    }

    pub open(crate) spec fn leaf_check(&self, i: nat) -> Option<Failure> {
        if self.succ(i).len() > 0 {
            Some(
                (
                    ErrorKind::InvalidGraph,
                    self.label(i) + " can't have any successors. Found "@ + self.label(self.succ(i)[0])
                        + "."@,
                ),
            )
        } else {
            None
        }
    }

    pub open(crate) spec fn not_leaf_check(&self, i: nat) -> Option<Failure> {
        if self.succ(i).len() == 0 {
            Some((ErrorKind::InvalidGraph, self.label(i) + " must have at least one successor."@))
        } else {
            None
        }
    }

    pub open(crate) spec fn no_preds_check(&self, i: nat) -> Option<Failure> {
        if self.pred(i).len() > 0 {
            Some(
                (
                    ErrorKind::InvalidGraph,
                    self.label(i) + " can't have any predecessors. Found "@ + self.label(self.pred(i)[0])
                        + "."@,
                ),
            )
        } else {
            None
        }
    }

    pub open(crate) spec fn exclusive_check(&self, i: nat) -> Option<Failure> {
        match self.first_shared(self.succ(i)) {
            Some(s) => Some(
                (
                    ErrorKind::InvalidGraph,
                    self.label(i) + " can't have successors with multiple predecessors. Found "@
                        + self.label(s) + "."@,
                ),
            ),
            None => None,
        }
    }

    /// The root has no predecessors, at least one successor, and owns its
    /// successors.
    pub open(crate) spec fn root_check(&self) -> Option<Failure> {
        let r = self.root_position();
        or_else(self.no_preds_check(r), or_else(self.not_leaf_check(r), self.exclusive_check(r)))
    }

    /// The rules of the group for the component at position `i`.
    pub open(crate) spec fn group_check(&self, g: RuleGroup, i: nat) -> Option<Failure> {
        let c = self.category_at(i);
        match g {
            RuleGroup::Meters => if c is Meter {
                or_else(
                    self.preds_check(i, NeighborRule::GridOrMeter),
                    self.succs_check(i, NeighborRule::NotBattery),
                )
            } else {
                None
            },
            RuleGroup::Inverters => match c {
                ComponentCategory::Inverter(t) => or_else(
                    self.preds_check(i, NeighborRule::GridOrMeter),
                    match t {
                        InverterType::Battery => or_else(
                            self.not_leaf_check(i),
                            self.succs_check(i, NeighborRule::Batteries),
                        ),
                        InverterType::Solar => self.leaf_check(i),
                        InverterType::Hybrid => self.succs_check(i, NeighborRule::Batteries),
                        InverterType::Unspecified => if self.config.allow_unspecified_inverters {
                            None
                        } else {
                            Some(
                                (
                                    ErrorKind::InvalidGraph,
                                    "Inverter "@ + dec(self.id_at(i) as nat)
                                        + " has an unspecified inverter type."@,
                                ),
                            )
                        },
                    },
                ),
                _ => None,
            },
            RuleGroup::Batteries => if c is Battery {
                or_else(self.leaf_check(i), self.preds_check(i, NeighborRule::BatteryOrHybridInverters))
            } else {
                None
            },
            RuleGroup::EvChargers => if c is EvCharger {
                or_else(self.leaf_check(i), self.preds_check(i, NeighborRule::GridOrMeter))
            } else {
                None
            },
            RuleGroup::Chps => if c is Chp {
                or_else(self.leaf_check(i), self.preds_check(i, NeighborRule::GridOrMeter))
            } else {
                None
            },
        }
    }

    /// The first failure of the group's rules among the components from
    /// position `lo` on.
    pub open(crate) spec fn group_scan(&self, g: RuleGroup, lo: nat) -> Option<Failure>
        decreases self.count() - lo,
    {
        if lo >= self.count() {
            None
        } else {
            or_else(self.group_check(g, lo), self.group_scan(g, lo + 1))
        }
    }

    /// The failures of the per-category rules, in the order in which they
    /// are checked.
    pub open(crate) spec fn category_failures(&self) -> Seq<Failure> {
        listed(self.root_check()) + listed(self.group_scan(RuleGroup::Meters, 0)) + listed(
            self.group_scan(RuleGroup::Inverters, 0),
        ) + listed(self.group_scan(RuleGroup::Batteries, 0)) + listed(
            self.group_scan(RuleGroup::EvChargers, 0),
        ) + listed(self.group_scan(RuleGroup::Chps, 0))
    }

    /// Every component can be reached from the root.
    pub open(crate) spec fn all_reached(&self) -> bool {
        forall|j: nat| j < self.count() ==> #[trigger] self.reaches(self.root_position(), j)
    }

    /// The ids of the components among the first `k` that cannot be reached
    /// from the root.
    pub open(crate) spec fn unreached_ids(&self, k: nat) -> Seq<u64>
        decreases k,
    {
        if k == 0 {
            Seq::empty()
        } else if self.reaches(self.root_position(), (k - 1) as nat) {
            self.unreached_ids((k - 1) as nat)
        } else {
            self.unreached_ids((k - 1) as nat).push(self.id_at((k - 1) as nat))
        }
    }

    /// The failure of the reachability check, if any.
    pub open(crate) spec fn connection_failure(&self) -> Option<Failure> {
        if self.all_reached() {
            None
        } else {
            Some(
                (
                    ErrorKind::InvalidGraph,
                    "Nodes ["@ + joined_ids(self.unreached_ids(self.count()), ", "@)
                        + "] are not connected to the root."@,
                ),
            )
        }
    }

    /// Every failure that validation reports, as error or as warning.
    pub open(crate) spec fn validation_failures(&self) -> Seq<Failure> {
        listed(self.connection_failure()) + self.category_failures()
    }

    /// Whether the failures make the graph invalid under its configuration.
    pub open(crate) spec fn rejected(&self) -> bool {
        (!self.all_reached() && !self.config.allow_unconnected_components) || (
        self.category_failures().len() > 0 && !self.config.allow_component_validation_failures)
    }

    /// The error that the failures give, where the graph is rejected.
    pub open(crate) spec fn rejection(&self) -> Failure {
        if self.validation_failures().len() == 1 {
            self.validation_failures()[0]
        } else {
            (
                ErrorKind::InvalidGraph,
                "Multiple validation failures:\n    "@ + joined_failures(self.validation_failures()),
            )
        }
    }

    /// The cycle found from the first component, from position `lo` on,
    /// that the root cannot reach and from which the search finds one.
    pub open(crate) spec fn stray_cycle(&self, lo: nat) -> Option<Seq<nat>>
        decreases self.count() - lo,
    {
        if lo >= self.count() {
            None
        } else if !self.reaches(self.root_position(), lo) && self.cycle_from(Seq::empty(), lo) is Some {
            self.cycle_from(Seq::empty(), lo)
        } else {
            self.stray_cycle(lo + 1)
        }
    }

    /// The failure of the cycle search: from the root first, then from each
    /// component that the root cannot reach, in order.
    pub open(crate) spec fn cycle_failure(&self) -> Option<Failure> {
        match self.cycle_from(Seq::empty(), self.root_position()) {
            Some(c) => Some((ErrorKind::InvalidGraph, self.cycle_text(c))),
            None => match self.stray_cycle(0) {
                Some(c) => Some((ErrorKind::InvalidGraph, self.cycle_text(c))),
                None => None,
            },
        }
    }

    /// The graph passes validation: the cycle search finds no cycle, and the
    /// other failures, if any, are allowed by the configuration.
    pub open(crate) spec fn passes_validation(&self) -> bool {
        self.cycle_failure() is None && !self.rejected()
    }

    /// The error of a graph that does not pass validation: the cycle found,
    /// else the other failures.
    pub open(crate) spec fn validation_error(&self) -> Failure {
        match self.cycle_failure() {
            Some(f) => f,
            None => self.rejection(),
        }
    }
}


/// The errors are, one by one, the failures.
pub open spec fn describes(errors: Seq<Error>, fs: Seq<Failure>) -> bool {
    &&& errors.len() == fs.len()
    &&& forall|k: int| 0 <= k < errors.len() ==> crate::graph::is_failure(#[trigger] errors[k], fs[k])
}

fn push_found(errors: &mut Vec<Error>, found: Option<Error>, fs: Ghost<Seq<Failure>>, f: Ghost<Option<Failure>>)
    requires
        describes(old(errors)@, fs@),
        matches_failure(found, f@),
        found matches Some(e) ==> e.kind == ErrorKind::InvalidGraph,
        forall|k: int| 0 <= k < old(errors).len() ==> (#[trigger] old(errors)@[k]).kind == ErrorKind::InvalidGraph,
    ensures
        describes(final(errors)@, fs@ + listed(f@)),
        forall|k: int| 0 <= k < final(errors).len() ==> (#[trigger] final(errors)@[k]).kind == ErrorKind::InvalidGraph,
{
    match found {
        Some(e) => {
            errors.push(e);
            proof {
                let t = fs@ + listed(f@);
                assert forall|k: int| 0 <= k < errors.len() implies crate::graph::is_failure(
                    #[trigger] errors@[k],
                    t[k],
                ) by {
                    if k < fs@.len() {
                        assert(errors@[k] == old(errors)@[k]);
                    }
                }
            }
        },
        None => {
            proof {
                assert(fs@ + listed(f@) =~= fs@);
            }
        },
    }
}

impl<N: Node, E: Edge> ComponentGraph<N, E> {
    /// Checks the rule on the predecessors (or the successors) of the
    /// component at position `i`.
    fn check_neighbors(&self, i: usize, rule: NeighborRule, outgoing: bool) -> (r: Option<Error>)
        requires
            self.wf(),
            i < self.count(),
        ensures
            r matches Some(e) ==> e.kind == ErrorKind::InvalidGraph,
            matches_failure(
                r,
                if outgoing {
                    self.succs_check(i as nat, rule)
                } else {
                    self.preds_check(i as nat, rule)
                },
            ),
    {
        let ns = if outgoing {
            self.successor_positions(i)
        } else {
            self.predecessor_positions(i)
        };
        let ghost s = if outgoing {
            self.succ(i as nat)
        } else {
            self.pred(i as nat)
        };
        let allow = self.config().allow_unspecified_inverters;
        proof {
            assert(s.skip(0) =~= s);
        }
        let mut k: usize = 0;
        while k < ns.len()
            invariant
                self.wf(),
                i < self.count(),
                allow == self.configuration().allow_unspecified_inverters,
                k <= ns.len(),
                ns.len() == s.len(),
                forall|x: int| 0 <= x < ns.len() ==> #[trigger] ns@[x] as nat == s[x],
                forall|x: int| 0 <= x < ns.len() ==> #[trigger] ns@[x] < self.count(),
                s == if outgoing {
                    self.succ(i as nat)
                } else {
                    self.pred(i as nat)
                },
                self.first_rejected(s, rule) == self.first_rejected(s.skip(k as int), rule),
            decreases ns.len() - k,
        {
            let p = ns[k];
            proof {
                assert(s.skip(k as int).drop_first() =~= s.skip(k as int + 1));
                assert(s.skip(k as int)[0] == s[k as int]);
            }
            if !rule.admits(self.info(p).category, allow) {
                proof {
                    assert(self.first_rejected(s, rule) == Some(s[k as int]));
                }
                let mut msg = String::new();
                self.push_label(&mut msg, i);
                if outgoing {
                    push_str(&mut msg, " can only have successors that are ");
                } else {
                    push_str(&mut msg, " can only have predecessors that are ");
                }
                rule.write_text(&mut msg);
                push_str(&mut msg, ". Found ");
                self.push_label(&mut msg, p);
                push_str(&mut msg, ".");
                proof {
                    let found = self.label(s[k as int]);
                    if outgoing {
                        let expected = self.label(i as nat) + " can only have successors that are "@
                            + rule_text(rule) + ". Found "@ + found + "."@;
                        assert(msg@ =~= expected);
                        assert(self.succs_check(i as nat, rule) == Some((ErrorKind::InvalidGraph, expected)));
                    } else {
                        let expected = self.label(i as nat) + " can only have predecessors that are "@
                            + rule_text(rule) + ". Found "@ + found + "."@;
                        assert(msg@ =~= expected);
                        assert(self.preds_check(i as nat, rule) == Some((ErrorKind::InvalidGraph, expected)));
                    }
                }
                return Some(Error::new(ErrorKind::InvalidGraph, msg));
            }
            k = k + 1;
        }
        proof {
            assert(s.skip(ns.len() as int) =~= Seq::<nat>::empty());
        }
        None
    }

    /// Checks that the component at position `i` has no successors.
    fn check_leaf(&self, i: usize) -> (r: Option<Error>)
        requires
            self.wf(),
            i < self.count(),
        ensures
            r matches Some(e) ==> e.kind == ErrorKind::InvalidGraph,
            matches_failure(r, self.leaf_check(i as nat)),
    {
        let succs = self.successor_positions(i);
        if succs.len() > 0 {
            let mut msg = String::new();
            self.push_label(&mut msg, i);
            push_str(&mut msg, " can't have any successors. Found ");
            self.push_label(&mut msg, succs[0]);
            push_str(&mut msg, ".");
            proof {
                assert(msg@ =~= self.leaf_check(i as nat)->Some_0.1);
            }
            return Some(Error::new(ErrorKind::InvalidGraph, msg));
        }
        None
    }

    /// Checks that the component at position `i` has at least one successor.
    fn check_not_leaf(&self, i: usize) -> (r: Option<Error>)
        requires
            self.wf(),
            i < self.count(),
        ensures
            r matches Some(e) ==> e.kind == ErrorKind::InvalidGraph,
            matches_failure(r, self.not_leaf_check(i as nat)),
    {
        let succs = self.successor_positions(i);
        if succs.len() == 0 {
            let mut msg = String::new();
            self.push_label(&mut msg, i);
            push_str(&mut msg, " must have at least one successor.");
            return Some(Error::new(ErrorKind::InvalidGraph, msg));
        }
        None
    }

    /// Checks that the component at position `i` has no predecessors.
    fn check_no_preds(&self, i: usize) -> (r: Option<Error>)
        requires
            self.wf(),
            i < self.count(),
        ensures
            r matches Some(e) ==> e.kind == ErrorKind::InvalidGraph,
            matches_failure(r, self.no_preds_check(i as nat)),
    {
        let preds = self.predecessor_positions(i);
        if preds.len() > 0 {
            let mut msg = String::new();
            self.push_label(&mut msg, i);
            push_str(&mut msg, " can't have any predecessors. Found ");
            self.push_label(&mut msg, preds[0]);
            push_str(&mut msg, ".");
            proof {
                assert(msg@ =~= self.no_preds_check(i as nat)->Some_0.1);
            }
            return Some(Error::new(ErrorKind::InvalidGraph, msg));
        }
        None
    }

    /// Checks that no successor of the component at position `i` has another
    /// predecessor.
    fn check_exclusive(&self, i: usize) -> (r: Option<Error>)
        requires
            self.wf(),
            i < self.count(),
        ensures
            r matches Some(e) ==> e.kind == ErrorKind::InvalidGraph,
            matches_failure(r, self.exclusive_check(i as nat)),
    {
        let ns = self.successor_positions(i);
        let ghost s = self.succ(i as nat);
        proof {
            assert(s.skip(0) =~= s);
        }
        let mut k: usize = 0;
        while k < ns.len()
            invariant
                self.wf(),
                i < self.count(),
                k <= ns.len(),
                ns.len() == s.len(),
                forall|x: int| 0 <= x < ns.len() ==> #[trigger] ns@[x] as nat == s[x],
                forall|x: int| 0 <= x < ns.len() ==> #[trigger] ns@[x] < self.count(),
                s == self.succ(i as nat),
                self.first_shared(s) == self.first_shared(s.skip(k as int)),
            decreases ns.len() - k,
        {
            let p = ns[k];
            proof {
                assert(s.skip(k as int).drop_first() =~= s.skip(k as int + 1));
                assert(s.skip(k as int)[0] == s[k as int]);
            }
            if self.predecessor_positions(p).len() > 1 {
                proof {
                    assert(self.first_shared(s) == Some(s[k as int]));
                }
                let mut msg = String::new();
                self.push_label(&mut msg, i);
                push_str(&mut msg, " can't have successors with multiple predecessors. Found ");
                self.push_label(&mut msg, p);
                push_str(&mut msg, ".");
                proof {
                    let expected = self.label(i as nat)
                        + " can't have successors with multiple predecessors. Found "@ + self.label(
                        s[k as int],
                    ) + "."@;
                    assert(msg@ =~= expected);
                    assert(self.exclusive_check(i as nat) == Some((ErrorKind::InvalidGraph, expected)));
                }
                return Some(Error::new(ErrorKind::InvalidGraph, msg));
            }
            k = k + 1;
        }
        proof {
            assert(s.skip(ns.len() as int) =~= Seq::<nat>::empty());
        }
        None
    }

    fn check_root(&self) -> (r: Option<Error>)
        requires
            self.wf(),
        ensures
            r matches Some(e) ==> e.kind == ErrorKind::InvalidGraph,
            matches_failure(r, self.root_check()),
    {
        let root = self.root_pos();
        let e = self.check_no_preds(root);
        if e.is_some() {
            return e;
        }
        let e = self.check_not_leaf(root);
        if e.is_some() {
            return e;
        }
        self.check_exclusive(root)
    }

    /// The first failure of the two checks, running the second only where
    /// the first passes.
    fn check_node(&self, g: RuleGroup, i: usize) -> (r: Option<Error>)
        requires
            self.wf(),
            i < self.count(),
        ensures
            r matches Some(e) ==> e.kind == ErrorKind::InvalidGraph,
            matches_failure(r, self.group_check(g, i as nat)),
    {
        let c = self.info(i).category;
        match g {
            RuleGroup::Meters => {
                if !c.is_meter() {
                    return None;
                }
                let e = self.check_neighbors(i, NeighborRule::GridOrMeter, false);
                if e.is_some() {
                    return e;
                }
                self.check_neighbors(i, NeighborRule::NotBattery, true)
            },
            RuleGroup::Inverters => {
                match c {
                    ComponentCategory::Inverter(t) => {
                        let e = self.check_neighbors(i, NeighborRule::GridOrMeter, false);
                        if e.is_some() {
                            return e;
                        }
                        match t {
                            InverterType::Battery => {
                                let e = self.check_not_leaf(i);
                                if e.is_some() {
                                    return e;
                                }
                                self.check_neighbors(i, NeighborRule::Batteries, true)
                            },
                            InverterType::Solar => self.check_leaf(i),
                            InverterType::Hybrid => self.check_neighbors(
                                i,
                                NeighborRule::Batteries,
                                true,
                            ),
                            InverterType::Unspecified => {
                                if self.config().allow_unspecified_inverters {
                                    None
                                } else {
                                    let mut msg = String::new();
                                    push_str(&mut msg, "Inverter ");
                                    push_dec(&mut msg, self.info(i).component_id);
                                    push_str(&mut msg, " has an unspecified inverter type.");
                                    Some(Error::new(ErrorKind::InvalidGraph, msg))
                                }
                            },
                        }
                    },
                    _ => None,
                }
            },
            RuleGroup::Batteries => {
                if !c.is_battery() {
                    return None;
                }
                let e = self.check_leaf(i);
                if e.is_some() {
                    return e;
                }
                self.check_neighbors(i, NeighborRule::BatteryOrHybridInverters, false)
            },
            RuleGroup::EvChargers => {
                if !c.is_ev_charger() {
                    return None;
                }
                let e = self.check_leaf(i);
                if e.is_some() {
                    return e;
                }
                self.check_neighbors(i, NeighborRule::GridOrMeter, false)
            },
            RuleGroup::Chps => {
                if !c.is_chp() {
                    return None;
                }
                let e = self.check_leaf(i);
                if e.is_some() {
                    return e;
                }
                self.check_neighbors(i, NeighborRule::GridOrMeter, false)
            },
        }
    }

    /// The first failure of the group's rules over all components.
    fn check_group(&self, g: RuleGroup) -> (r: Option<Error>)
        requires
            self.wf(),
        ensures
            r matches Some(e) ==> e.kind == ErrorKind::InvalidGraph,
            matches_failure(r, self.group_scan(g, 0)),
    {
        let n = self.len();
        let mut i: usize = 0;
        while i < n
            invariant
                self.wf(),
                n == self.count(),
                i <= n,
                self.group_scan(g, 0) == self.group_scan(g, i as nat),
            decreases n - i,
        {
            let e = self.check_node(g, i);
            if e.is_some() {
                return e;
            }
            i = i + 1;
        }
        None
    }

    /// The failure of the reachability check, if any.
    fn check_connected(&self) -> (r: Option<Error>)
        requires
            self.wf(),
        ensures
            r matches Some(e) ==> e.kind == ErrorKind::InvalidGraph,
            matches_failure(r, self.connection_failure()),
    {
        let marked = self.reached_from_root();
        let n = self.len();
        let mut ids: Vec<u64> = Vec::new();
        let mut i: usize = 0;
        while i < n
            invariant
                self.wf(),
                n == self.count(),
                i <= n,
                marked.len() == n,
                forall|j: nat| j < n ==> (marked@[j as int] <==> #[trigger] self.reaches(self.root_position(), j)),
                ids@ == self.unreached_ids(i as nat),
                ids.len() == 0 <==> forall|j: nat| j < i ==> #[trigger] self.reaches(self.root_position(), j),
            decreases n - i,
        {
            if !marked[i] {
                ids.push(self.info(i).component_id);
                proof {
                    assert(!self.reaches(self.root_position(), i as nat));
                }
            } else {
                proof {
                    assert(self.reaches(self.root_position(), i as nat));
                }
            }
            i = i + 1;
        }
        if ids.len() == 0 {
            return None;
        }
        let mut msg = String::new();
        push_str(&mut msg, "Nodes [");
        push_joined_ids(&mut msg, &ids, ", ");
        push_str(&mut msg, "] are not connected to the root.");
        proof {
            assert(msg@ =~= self.connection_failure()->Some_0.1);
        }
        Some(Error::new(ErrorKind::InvalidGraph, msg))
    }

    /// The failures of the reachability and per-category checks, in order;
    /// the flag tells whether the first one is that of reachability.
    #[verifier::rlimit(60)]
    fn gather_failures(&self) -> (r: (Vec<Error>, bool))
        requires
            self.wf(),
        ensures
            describes(r.0@, self.validation_failures()),
            r.1 == self.connection_failure() is Some,
            forall|k: int| 0 <= k < r.0.len() ==> (#[trigger] r.0@[k]).kind == ErrorKind::InvalidGraph,
    {
        let mut errors: Vec<Error> = Vec::new();
        let conn = self.check_connected();
        let unconnected = conn.is_some();
        push_found(&mut errors, conn, Ghost(Seq::empty()), Ghost(self.connection_failure()));
        proof {
            assert(Seq::<Failure>::empty() + listed(self.connection_failure()) =~= listed(
                self.connection_failure(),
            ));
        }
        let ghost f0 = listed(self.connection_failure());
        let first_category = errors.len();
        let e = self.check_root();
        push_found(&mut errors, e, Ghost(f0), Ghost(self.root_check()));
        let ghost f1 = f0 + listed(self.root_check());
        let e = self.check_group(RuleGroup::Meters);
        push_found(&mut errors, e, Ghost(f1), Ghost(self.group_scan(RuleGroup::Meters, 0)));
        let ghost f2 = f1 + listed(self.group_scan(RuleGroup::Meters, 0));
        let e = self.check_group(RuleGroup::Inverters);
        push_found(&mut errors, e, Ghost(f2), Ghost(self.group_scan(RuleGroup::Inverters, 0)));
        let ghost f3 = f2 + listed(self.group_scan(RuleGroup::Inverters, 0));
        let e = self.check_group(RuleGroup::Batteries);
        push_found(&mut errors, e, Ghost(f3), Ghost(self.group_scan(RuleGroup::Batteries, 0)));
        let ghost f4 = f3 + listed(self.group_scan(RuleGroup::Batteries, 0));
        let e = self.check_group(RuleGroup::EvChargers);
        push_found(&mut errors, e, Ghost(f4), Ghost(self.group_scan(RuleGroup::EvChargers, 0)));
        let ghost f5 = f4 + listed(self.group_scan(RuleGroup::EvChargers, 0));
        let e = self.check_group(RuleGroup::Chps);
        push_found(&mut errors, e, Ghost(f5), Ghost(self.group_scan(RuleGroup::Chps, 0)));
        proof {
            let f6 = f5 + listed(self.group_scan(RuleGroup::Chps, 0));
            assert(f6 =~= self.validation_failures());
            assert(self.category_failures().len() == errors.len() - first_category);
        }
        (errors, unconnected)
    }

    /// Validates the graph: fails at once on a cycle; otherwise gathers the
    /// failures of the reachability and per-category checks and fails on
    /// them unless the configuration allows them.
    pub(crate) fn validate(&self) -> (r: Result<(), Error>)
        requires
            self.wf(),
        ensures
            r is Ok <==> self.passes_validation(),
            r matches Err(e) ==> e.kind == ErrorKind::InvalidGraph,
            r matches Err(e) ==> crate::graph::is_failure(e, self.validation_error()),
    {
        let mut path: Vec<usize> = Vec::new();
        proof {
            assert(nats(path@) =~= Seq::<nat>::empty());
        }
        let res = self.find_cycle(self.root_pos(), &mut path);
        match res {
            Err(e) => {
                return Err(e);
            },
            Ok(()) => {},
        }
        let marked = self.reached_from_root();
        let n = self.len();
        let mut j: usize = 0;
        while j < n
            invariant
                self.wf(),
                n == self.count(),
                j <= n,
                marked.len() == n,
                forall|x: nat| x < n ==> (marked@[x as int] <==> #[trigger] self.reaches(self.root_position(), x)),
                self.cycle_from(Seq::empty(), self.root_position()) is None,
                self.stray_cycle(0) == self.stray_cycle(j as nat),
            decreases n - j,
        {
            if !marked[j] {
                let mut stray: Vec<usize> = Vec::new();
                proof {
                    assert(nats(stray@) =~= Seq::<nat>::empty());
                    assert(!self.reaches(self.root_position(), j as nat));
                }
                match self.find_cycle(j, &mut stray) {
                    Err(e) => {
                        return Err(e);
                    },
                    Ok(()) => {},
                }
            } else {
                proof {
                    assert(self.reaches(self.root_position(), j as nat));
                }
            }
            j = j + 1;
        }
        let config = self.config();
        let (mut errors, unconnected) = self.gather_failures();
        let first_category: usize = if unconnected {
            1
        } else {
            0
        };
        proof {
            assert(self.category_failures().len() == errors.len() - first_category);
        }
        let failed = (unconnected && !config.allow_unconnected_components) || (errors.len()
            > first_category && !config.allow_component_validation_failures);
        if !failed {
            return Ok(());
        }
        if errors.len() == 1 {
            proof {
                assert(crate::graph::is_failure(errors@[0], self.validation_failures()[0]));
            }
            let e = errors.pop().unwrap();
            return Err(e);
        }
        Err(multiple_failures(&errors, Ghost(self.validation_failures())))
    }
}


/// The error that gathers several failures, one per line.
fn multiple_failures(errors: &Vec<Error>, fs: Ghost<Seq<Failure>>) -> (r: Error)
    requires
        describes(errors@, fs@),
    ensures
        r.kind == ErrorKind::InvalidGraph,
        r.desc@ == "Multiple validation failures:\n    "@ + joined_failures(fs@),
{
        let mut msg = String::new();
        push_str(&mut msg, "Multiple validation failures:\n    ");
        let ghost start = msg@;
        let ghost fs = fs@;
        let mut k: usize = 0;
        while k < errors.len()
            invariant
                k <= errors.len(),
                describes(errors@, fs),
                msg@ == start + joined_failures(fs.take(k as int)),
            decreases errors.len() - k,
        {
            proof {
                assert(fs.take(k as int + 1).drop_last() =~= fs.take(k as int));
            }
            if k > 0 {
                push_str(&mut msg, "\n    ");
            }
            errors[k].write_text(&mut msg);
            proof {
                assert(crate::error::error_text(errors@[k as int]) =~= failure_text(fs[k as int]));
                if k == 0 {
                    assert(msg@ =~= start + joined_failures(fs.take(1)));
                } else {
                    assert(msg@ =~= start + joined_failures(fs.take(k as int + 1)));
                }
            }
            k = k + 1;
        }
        proof {
            assert(fs.take(errors.len() as int) =~= fs);
        }
        Error::new(ErrorKind::InvalidGraph, msg)
}

// ----- Invariants of a valid graph -----

impl<N: Node, E: Edge> ComponentGraph<N, E> {
    /// Every successor of a component is itself a component of the graph:
    /// its id resolves to it.
    pub proof fn lemma_successors_resolve(&self, component_id: u64)
        requires
            self.wf(),
            self.contains(component_id),
        ensures
            forall|k: int|
                0 <= k < self.succ(self.index_of(component_id)).len() ==> {
                    let s = #[trigger] self.succ(self.index_of(component_id))[k];
                    self.contains(self.id_at(s)) && self.index_of(self.id_at(s)) == s
                },
    {
        let i = self.index_of(component_id);
        self.lemma_neighbors(i);
        assert forall|k: int| 0 <= k < self.succ(i).len() implies {
            let s = #[trigger] self.succ(i)[k];
            self.contains(self.id_at(s)) && self.index_of(self.id_at(s)) == s
        } by {
            let s = self.succ(i)[k];
            assert(self.node_indices@.contains_key(self.infos@[s as int].component_id));
        }
    }

    /// In a valid graph that does not allow unconnected components, every
    /// component can be reached from the root.
    pub proof fn lemma_all_reached(&self)
        requires
            self.wf(),
            self.passes_validation(),
            !self.configuration().allow_unconnected_components,
        ensures
            forall|j: nat| j < self.count() ==> #[trigger] self.reaches(self.root_position(), j),
    {
    }

    /// Without a cycle found, the search from `v` below `path` finds no
    /// cycle in the sense of `dfs_ok`.
    proof fn lemma_no_cycle_found(&self, path: Seq<nat>, v: nat)
        requires
            self.cycle_from(path, v) is None,
        ensures
            self.dfs_ok(path, v),
        decreases self.count() - path.len(), self.succ(v).len() + 1,
    {
        self.lemma_scan_none(path.push(v), v, 0);
    }

    proof fn lemma_scan_none(&self, through: Seq<nat>, v: nat, k: nat)
        requires
            self.cycle_scan(through, v, k) is None,
            through.len() >= 1,
            through.len() <= self.count(),
        ensures
            forall|x: int|
                k <= x < self.succ(v).len() ==> !through.contains(#[trigger] self.succ(v)[x])
                    && self.dfs_ok(through, self.succ(v)[x]),
        decreases self.count() - (through.len() - 1), self.succ(v).len() - k,
    {
        if k < self.succ(v).len() {
            let s = self.succ(v)[k as int];
            self.lemma_no_cycle_found(through, s);
            self.lemma_scan_none(through, v, k + 1);
        }
    }

    proof fn lemma_no_stray_cycle(&self, lo: nat)
        requires
            self.stray_cycle(lo) is None,
        ensures
            forall|j: nat|
                lo <= j < self.count() && !self.reaches(self.root_position(), j) ==> #[trigger] self.dfs_ok(
                    Seq::empty(),
                    j,
                ),
        decreases self.count() - lo,
    {
        if lo < self.count() {
            self.lemma_no_stray_cycle(lo + 1);
            if !self.reaches(self.root_position(), lo) {
                self.lemma_no_cycle_found(Seq::empty(), lo);
            }
        }
    }

    /// In a valid graph no component lies in its own transitive closure of
    /// successors.
    pub proof fn lemma_acyclic(&self)
        requires
            self.wf(),
            self.passes_validation(),
        ensures
            forall|a: nat| a < self.count() ==> !#[trigger] self.on_cycle(a),
    {
        self.lemma_no_cycle_found(Seq::empty(), self.root_position());
        self.lemma_no_stray_cycle(0);
        assert forall|a: nat| a < self.count() implies !#[trigger] self.on_cycle(a) by {
            if self.on_cycle(a) {
                let c = choose|c: Seq<nat>| #[trigger] self.is_walk(c) && c.len() >= 2 && c[0] == a && c.last() == a;
                if self.reaches(self.root_position(), a) {
                    let u = choose|u: Seq<nat>| self.is_walk(u) && u[0] == self.root_position() && u.last() == a;
                    self.lemma_walk_join(u, c);
                    let j = u + c.drop_first();
                    self.lemma_dfs_sound(Seq::empty(), self.root_position(), j);
                    assert(j[u.len() - 1] == a);
                    assert(j[j.len() - 1] == a);
                } else {
                    assert(self.dfs_ok(Seq::empty(), a));
                    self.lemma_dfs_sound(Seq::empty(), a, c);
                    assert(c[c.len() - 1] == a);
                }
            }
        }
    }
}

impl<N: Node, E: Edge> ComponentGraph<N, E> {
    /// A component reachable from another one, and not that one, has a
    /// predecessor.
    pub(crate) proof fn lemma_reached_has_pred(&self, a: nat, j: nat)
        requires
            self.wf(),
            self.reaches(a, j),
            j != a,
        ensures
            self.pred(j).len() > 0,
    {
        let w = choose|w: Seq<nat>| self.is_walk(w) && w[0] == a && w.last() == j;
        let x = w[w.len() - 2];
        assert(self.succ(w[w.len() - 2]).contains(w[w.len() - 1]));
        crate::topology::lemma_neighbors_are_ends(self.links(), x);
        let k = choose|k: int| 0 <= k < self.succ(x).len() && self.succ(x)[k] == j;
        assert(self.links().contains((x, self.succ(x)[k])));
        crate::topology::lemma_source_is_predecessor(self.links(), x, j);
    }
}

impl<N: Node, E: Edge> ComponentGraph<N, E> {
    /// A graph has exactly one component of category Grid, its root, and
    /// the root's id is that component's id.
    pub proof fn lemma_single_grid(&self)
        requires
            self.wf(),
        ensures
            self.root_position() < self.count(),
            self.category_at(self.root_position()) is Grid,
            self.id_at(self.root_position()) == self.root(),
            forall|j: nat| j < self.count() && #[trigger] self.category_at(j) is Grid ==> j == self.root_position(),
    {
        assert forall|j: nat| j < self.count() && #[trigger] self.category_at(j) is Grid implies j
            == self.root_position() by {
            if j != self.root_position() {
                assert(!(self.infos@[j as int].category is Grid));
            }
        }
    }
}

} // verus!
