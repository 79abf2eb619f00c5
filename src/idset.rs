//! Ordered sets of component ids, held as strictly increasing vectors.

use vstd::prelude::*;

verus! {

/// The ids are strictly increasing.
pub open spec fn increasing(s: Seq<u64>) -> bool {
    forall|i: int, j: int| 0 <= i < j < s.len() ==> s[i] < s[j]
}

/// Whether the vector holds the id.
pub fn holds(s: &Vec<u64>, x: u64) -> (r: bool)
    ensures
        r == s@.contains(x),
{
    let mut k: usize = 0;
    while k < s.len()
        invariant
            k <= s.len(),
            forall|j: int| 0 <= j < k ==> s@[j] != x,
        decreases s.len() - k,
    {
        if s[k] == x {
            return true;
        }
        k = k + 1;
    }
    false
}

/// Adds the id to the ordered set.
pub fn insert_id(s: &mut Vec<u64>, x: u64)
    requires
        increasing(old(s)@),
    ensures
        increasing(final(s)@),
        final(s)@.to_set() == old(s)@.to_set().insert(x),
{
    let mut k: usize = 0;
    while k < s.len() && s[k] < x
        invariant
            k <= s.len(),
            increasing(s@),
            forall|j: int| 0 <= j < k ==> s@[j] < x,
        decreases s.len() - k,
    {
        k = k + 1;
    }
    if k < s.len() && s[k] == x {
        proof {
            assert(old(s)@.to_set().insert(x) =~= old(s)@.to_set());
        }
        return;
    }
    let ghost s0 = s@;
    s.insert(k, x);
    proof {
        assert(s@ =~= s0.take(k as int).push(x) + s0.skip(k as int));
        assert forall|i: int, j: int| 0 <= i < j < s@.len() implies s@[i] < s@[j] by {
            if j < k {
                assert(s@[i] == s0[i] && s@[j] == s0[j]);
            } else if j == k {
                assert(s@[i] == s0[i]);
            } else if i == k {
                assert(s@[j] == s0[j - 1]);
                assert(k < s0.len());
                assert(s0[k as int] > x);
                if j - 1 > k {
                    assert(s0[k as int] < s0[j - 1]);
                }
            } else if i < k {
                assert(s@[i] == s0[i] && s@[j] == s0[j - 1]);
            } else {
                assert(s@[i] == s0[i - 1] && s@[j] == s0[j - 1]);
            }
        }
        assert forall|y: u64| #[trigger] s@.to_set().contains(y) == s0.to_set().insert(x).contains(y) by {
            if s@.contains(y) {
                let i = choose|i: int| 0 <= i < s@.len() && s@[i] == y;
                if i < k {
                    assert(s0[i] == y);
                } else if i > k {
                    assert(s0[i - 1] == y);
                }
            }
            if s0.contains(y) {
                let i = choose|i: int| 0 <= i < s0.len() && s0[i] == y;
                if i < k {
                    assert(s@[i] == y);
                } else {
                    assert(s@[i + 1] == y);
                }
            }
            if y == x {
                assert(s@[k as int] == x);
            }
        }
        assert(s@.to_set() =~= s0.to_set().insert(x));
    }
}

/// Removes the id from the ordered set.
pub fn remove_id(s: &mut Vec<u64>, x: u64)
    requires
        increasing(old(s)@),
    ensures
        increasing(final(s)@),
        final(s)@.to_set() == old(s)@.to_set().remove(x),
        final(s)@.len() <= old(s)@.len(),
{
    let mut k: usize = 0;
    while k < s.len()
        invariant
            k <= s.len(),
            forall|j: int| 0 <= j < k ==> s@[j] != x,
        ensures
            k <= s.len(),
            k < s.len() ==> s@[k as int] == x,
            forall|j: int| 0 <= j < k ==> s@[j] != x,
        decreases s.len() - k,
    {
        if s[k] == x {
            break;
        }
        k = k + 1;
    }
    if k == s.len() {
        proof {
            assert(!s@.contains(x));
            assert(s@.to_set().remove(x) =~= s@.to_set());
        }
        return;
    }
    let ghost s0 = s@;
    s.remove(k);
    proof {
        assert(s@ =~= s0.take(k as int) + s0.skip(k as int + 1));
        assert forall|i: int, j: int| 0 <= i < j < s@.len() implies s@[i] < s@[j] by {
            if j < k {
                assert(s@[i] == s0[i] && s@[j] == s0[j]);
            } else if i < k {
                assert(s@[i] == s0[i] && s@[j] == s0[j + 1]);
            } else {
                assert(s@[i] == s0[i + 1] && s@[j] == s0[j + 1]);
            }
        }
        assert forall|y: u64| #[trigger] s@.to_set().contains(y) == s0.to_set().remove(x).contains(y) by {
            if s@.contains(y) {
                let i = choose|i: int| 0 <= i < s@.len() && s@[i] == y;
                if i < k {
                    assert(s0[i] == y);
                    assert(s0[k as int] == x);
                } else {
                    assert(s0[i + 1] == y);
                    assert(s0[k as int] == x);
                }
            }
            if s0.contains(y) && y != x {
                let i = choose|i: int| 0 <= i < s0.len() && s0[i] == y;
                if i < k {
                    assert(s@[i] == y);
                } else {
                    assert(i != k);
                    assert(s@[i - 1] == y);
                }
            }
        }
        assert(s@.to_set() =~= s0.to_set().remove(x));
    }
}


pub(crate) proof fn lemma_push_set(s: Seq<u64>, x: u64)
    ensures
        s.push(x).to_set() == s.to_set().insert(x),
{
    assert forall|y: u64| #[trigger] s.push(x).to_set().contains(y) == s.to_set().insert(x).contains(y) by {
        if s.push(x).contains(y) && y != x {
            let i = choose|i: int| 0 <= i < s.push(x).len() && s.push(x)[i] == y;
            assert(s[i] == y);
        }
        if s.contains(y) {
            let i = choose|i: int| 0 <= i < s.len() && s[i] == y;
            assert(s.push(x)[i] == y);
        }
        if y == x {
            assert(s.push(x)[s.len() as int] == x);
        }
    }
    assert(s.push(x).to_set() =~= s.to_set().insert(x));
}

/// The ids of the set, in increasing order.
pub fn ordered_ids(set: &std::collections::BTreeSet<u64>) -> (r: Vec<u64>)
    ensures
        increasing(r@),
        r@.to_set() == set@,
{
    broadcast use vstd::std_specs::btree::group_btree_axioms;
    let mut r: Vec<u64> = Vec::new();
    for x in it: set.iter()
        invariant
            increasing(r@),
            r@.to_set() == it.seq().take(it.index() as int).unref().to_set(),
            it.seq().unref().to_set() == set@,
            it.index() == it.seq().len() ==> it.seq().take(it.index() as int) == it.seq(),
    {
        let ghost before = it.seq().take(it.index() as int);
        insert_id(&mut r, *x);
        proof {
            assert(it.seq().take(it.index() as int + 1) =~= before.push(x));
            assert(before.push(x).unref() =~= before.unref().push(*x));
            lemma_push_set(before.unref(), *x);
        }
    }
    r
}

} // verus!
