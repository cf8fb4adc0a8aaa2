//! Verified insertion sort for the numeric series the crate works on.

use vstd::prelude::*;
use vstd::relations::{sorted_by, total_ordering};
use vstd::seq_lib::lemma_sorted_unique;

verus! {

/// The ascending order on `i64` used by every numeric sort in this crate.
pub open spec fn i64_leq_fn() -> spec_fn(i64, i64) -> bool {
    |x: i64, y: i64| x <= y
}

/// The ascending order on `i64` is a total ordering.
pub proof fn lemma_i64_leq_total()
    ensures
        total_ordering(i64_leq_fn()),
{
}

/// Sorts the vector ascending; the result is exactly the sorted permutation
/// of the input.
pub fn sort_i64(v: &mut Vec<i64>)
    ensures
        final(v)@ == old(v)@.sort_by(i64_leq_fn()),
        final(v)@.len() == old(v)@.len(),
        final(v)@.to_multiset() == old(v)@.to_multiset(),
        sorted_by(final(v)@, i64_leq_fn()),
{
    let ghost leq = i64_leq_fn();
    proof {
        broadcast use vstd::seq_lib::group_to_multiset_ensures;

        lemma_i64_leq_total();
    }
    if v.len() > 1 {
        let mut i: usize = 1;
        while i < v.len()
            invariant
                1 <= i <= v.len(),
                v@.len() == old(v)@.len(),
                v@.to_multiset() == old(v)@.to_multiset(),
                sorted_by(v@.take(i as int), i64_leq_fn()),
            decreases v.len() - i,
        {
            let ghost pre = v@;
            let ghost lq = i64_leq_fn();
            let x = v.remove(i);
            let ghost w = v@;
            let mut j: usize = 0;
            while j < i && v[j] <= x
                invariant
                    0 <= j <= i,
                    i < w.len() + 1,
                    v@ == w,
                    forall|k: int| 0 <= k < j ==> w[k] <= x,
                decreases i - j,
            {
                j += 1;
            }
            v.insert(j, x);
            proof {
                broadcast use vstd::seq_lib::group_to_multiset_ensures;
                broadcast use vstd::seq_lib::to_multiset_insert;

                assert(pre[i as int] == x);
                assert(pre.contains(x));
                assert(pre.to_multiset().count(x) > 0);
                assert(w.to_multiset() =~= pre.to_multiset().remove(x));
                assert(v@.to_multiset() =~= w.to_multiset().insert(x));
                assert(v@.to_multiset() =~= old(v)@.to_multiset());
                pre.remove_ensures(i as int);
                assert(forall|k: int| 0 <= k < i ==> w[k] == pre[k]);
                assert(forall|k: int| 0 <= k < i ==> pre.take(i as int)[k] == pre[k]);
                assert forall|p: int, q: int| 0 <= p < q < i + 1 implies #[trigger] v@.take(
                    i as int + 1,
                )[p] <= #[trigger] v@.take(i as int + 1)[q] by {
                    let lhs = v@.take(i as int + 1)[p];
                    let rhs = v@.take(i as int + 1)[q];
                    assert(lhs == if p < j {
                        w[p]
                    } else if p == j {
                        x
                    } else {
                        w[p - 1]
                    });
                    assert(rhs == if q < j {
                        w[q]
                    } else if q == j {
                        x
                    } else {
                        w[q - 1]
                    });
                    if q < j {
                        assert(lq(pre.take(i as int)[p], pre.take(i as int)[q]));
                    } else if q == j {
                        // p < j, so w[p] <= x by the scan invariant.
                    } else if p < j {
                        // rhs is w[q - 1] with j <= q - 1 < i.
                        if p < q - 1 {
                            assert(lq(pre.take(i as int)[p], pre.take(i as int)[q - 1]));
                        }
                    } else if p == j {
                        // x < w[j] <= w[q - 1] since the scan stopped at j < i.
                        assert(j < i);
                        assert(w[j as int] > x);
                        if j < q - 1 {
                            assert(lq(pre.take(i as int)[j as int], pre.take(i as int)[q - 1]));
                        }
                    } else {
                        assert(lq(pre.take(i as int)[p - 1], pre.take(i as int)[q - 1]));
                    }
                }
                assert(sorted_by(v@.take(i as int + 1), i64_leq_fn()));
            }
            i += 1;
        }
        proof {
            assert(v@.take(v@.len() as int) =~= v@);
        }
    }
    proof {
        assert(sorted_by(v@, leq));
        old(v)@.lemma_sort_by_ensures(leq);
        lemma_sorted_unique(v@, old(v)@.sort_by(leq), leq);
        assert(v@ =~= old(v)@.sort_by(leq));
    }
}

} // verus!
