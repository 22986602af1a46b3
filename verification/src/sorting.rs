//! Verified sorting used by solvers that order their input.

use vstd::prelude::*;

verus! {

/// The sequence is weakly increasing.
pub open spec fn sorted(s: Seq<u32>) -> bool {
    forall|i: int, j: int| 0 <= i < j < s.len() ==> s[i] <= s[j]
}

/// Sort by repeated insertion: the result is ordered and holds exactly the
/// same values, multiplicities included.
pub fn sort_u32(v: &Vec<u32>) -> (r: Vec<u32>)
    ensures
        sorted(r@),
        r@.to_multiset() == v@.to_multiset(),
        r@.len() == v@.len(),
{
    broadcast use vstd::seq_lib::group_to_multiset_ensures;

    let mut r: Vec<u32> = Vec::new();
    let mut k: usize = 0;
    proof {
        assert(v@.take(0) =~= Seq::<u32>::empty());
        assert(r@.to_multiset() =~= v@.take(0).to_multiset());
    }
    while k < v.len()
        invariant
            0 <= k <= v@.len(),
            sorted(r@),
            r@.len() == k,
            r@.to_multiset() == v@.take(k as int).to_multiset(),
        decreases v@.len() - k,
    {
        let x = v[k];
        let mut p: usize = 0;
        while p < r.len() && r[p] <= x
            invariant
                0 <= p <= r@.len(),
                forall|j: int| 0 <= j < p ==> r@[j] <= x,
            decreases r@.len() - p,
        {
            p += 1;
        }
        let ghost old_r = r@;
        r.insert(p, x);
        proof {
            assert(v@.take(k + 1).drop_last() =~= v@.take(k as int));
            assert(v@.take(k + 1).last() == v@[k as int]);
            v@.take(k as int).to_multiset_ensures();
            assert(v@.take(k + 1) =~= v@.take(k as int).push(x));
            assert(v@.take(k + 1).to_multiset() =~= v@.take(k as int).to_multiset().insert(x));
            r@.to_multiset_ensures();
            old_r.to_multiset_ensures();
            assert(r@[p as int] == x);
            assert(r@.contains(x));
            assert(r@.remove(p as int) =~= old_r);
            assert(r@.remove(p as int).to_multiset() =~= r@.to_multiset().remove(x));
            assert(old_r.to_multiset() == r@.to_multiset().remove(x));
            assert(r@.to_multiset().count(x) > 0);
            assert(r@.to_multiset() =~= old_r.to_multiset().insert(x));
            assert forall|i: int, j: int| 0 <= i < j < r@.len() implies r@[i] <= r@[j] by {
                if j == p {
                    assert(r@[i] == old_r[i]);
                } else if i == p && j > p {
                    assert(r@[j] == old_r[j - 1]);
                    assert(old_r[p as int] > x || p == old_r.len());
                } else if i < p && j > p {
                    assert(r@[i] == old_r[i] && r@[j] == old_r[j - 1]);
                } else if i > p {
                    assert(r@[i] == old_r[i - 1] && r@[j] == old_r[j - 1]);
                }
            }
        }
        k += 1;
    }
    proof {
        assert(v@.take(v@.len() as int) =~= v@);
    }
    r
}

} // verus!
