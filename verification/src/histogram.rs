//! Distribution of node centrality values over equal-width bins, for use in
//! a displayed histogram.

use vstd::prelude::*;

verus! {

/// Collects fixed-point values and bins them between the observed minimum
/// and maximum.
pub struct Histogram {
    /// Running minimum, folded over the collected values by `compute`.
    pub min: i64,
    /// Running maximum, folded over the collected values by `compute`.
    pub max: i64,
    /// The collected values.
    pub values: Vec<i64>,
}

/// Minimum of a series folded onto an accumulator, in collection order.
pub open spec fn fold_min(s: Seq<i64>, acc: i64) -> i64
    decreases s.len(),
{
    if s.len() == 0 {
        acc
    } else {
        let m = fold_min(s.drop_last(), acc);
        if s.last() < m {
            s.last()
        } else {
            m
        }
    }
}

/// Maximum of a series folded onto an accumulator, in collection order.
pub open spec fn fold_max(s: Seq<i64>, acc: i64) -> i64
    decreases s.len(),
{
    if s.len() == 0 {
        acc
    } else {
        let m = fold_max(s.drop_last(), acc);
        if s.last() > m {
            s.last()
        } else {
            m
        }
    }
}

/// The bin a value falls into: the linear position of `value` between `min`
/// and `min + delta` scaled to `num_counts` bins, clamped into range.
pub open spec fn spec_slot(value: i64, min: i64, delta: int, num_counts: int) -> int
    recommends
        delta > 0,
        num_counts > 0,
        value >= min,
{
    let s = ((value - min) * num_counts) / delta;
    if s >= num_counts {
        num_counts - 1
    } else {
        s
    }
}

/// Exactness of a bin vector: each bin holds the number of collected values
/// that fall into it.
pub open spec fn counts_exact(
    vals: Seq<i64>,
    min: i64,
    delta: int,
    num_counts: int,
    counts: Seq<usize>,
) -> bool {
    &&& counts.len() == num_counts
    &&& forall|s: int|
        0 <= s < num_counts ==> #[trigger] counts[s] == vals.filter(
            |v: i64| spec_slot(v, min, delta, num_counts) == s,
        ).len()
}

/// `mc` is the maximum entry of `counts` (0 when there are no entries).
pub open spec fn is_max_count(counts: Seq<usize>, mc: usize) -> bool {
    &&& forall|s: int| 0 <= s < counts.len() ==> #[trigger] counts[s] <= mc
    &&& (mc == 0 || exists|s: int| 0 <= s < counts.len() && #[trigger] counts[s] == mc)
}

impl Histogram {
    /// An empty histogram whose running bounds are primed so that any value
    /// replaces them.
    pub fn default() -> (r: Histogram)
        ensures
            r.min == i64::MAX,
            r.max == i64::MIN,
            r.values@.len() == 0,
    {
        Histogram { min: i64::MAX, max: i64::MIN, values: Vec::new() }
    }

    /// Collect one value.
    pub fn add(&mut self, value: i64)
        ensures
            final(self).values@ == old(self).values@.push(value),
            final(self).min == old(self).min,
            final(self).max == old(self).max,
    {
        self.values.push(value);
    }

    /// Fold the collected values into the running bounds, then bin every
    /// value between them into `num_counts` equal-width bins. A histogram
    /// whose range is a single point (or that holds no values) yields
    /// all-zero bins.
    pub fn compute(&mut self, num_counts: usize) -> (r: (Vec<usize>, usize))
        requires
            num_counts > 0,
        ensures
            final(self).values@ == old(self).values@,
            r.0@.len() == num_counts,
            is_max_count(r.0@, r.1),
            old(self).values@.len() == 0 ==> final(self).min == old(self).min && final(self).max
                == old(self).max && (forall|s: int|
                0 <= s < num_counts ==> #[trigger] r.0@[s] == 0) && r.1 == 0,
            old(self).values@.len() > 0 ==> final(self).min == fold_min(
                old(self).values@,
                old(self).min,
            ) && final(self).max == fold_max(old(self).values@, old(self).max),
            old(self).values@.len() > 0 && final(self).max == final(self).min ==> (forall|s: int|
                0 <= s < num_counts ==> #[trigger] r.0@[s] == 0) && r.1 == 0,
            old(self).values@.len() > 0 && final(self).max > final(self).min ==> counts_exact(
                old(self).values@,
                final(self).min,
                final(self).max - final(self).min,
                num_counts as int,
                r.0@,
            ),
    {
        let mut counts: Vec<usize> = Vec::new();
        let mut s: usize = 0;
        while s < num_counts
            invariant
                0 <= s <= num_counts,
                counts@.len() == s,
                forall|k: int| 0 <= k < s ==> #[trigger] counts@[k] == 0,
            decreases num_counts - s,
        {
            counts.push(0);
            s += 1;
        }
        if self.values.len() == 0 {
            return (counts, 0);
        }
        let mut i: usize = 0;
        while i < self.values.len()
            invariant
                0 <= i <= self.values@.len(),
                self.values@ == old(self).values@,
                self.min == fold_min(self.values@.take(i as int), old(self).min),
                self.max == fold_max(self.values@.take(i as int), old(self).max),
            decreases self.values@.len() - i,
        {
            let v = self.values[i];
            proof {
                assert(self.values@.take(i as int + 1).drop_last() =~= self.values@.take(i as int));
                assert(self.values@.take(i as int + 1).last() == self.values@[i as int]);
            }
            if v < self.min {
                self.min = v;
            }
            if v > self.max {
                self.max = v;
            }
            i += 1;
        }
        proof {
            assert(self.values@.take(self.values@.len() as int) =~= self.values@);
            lemma_fold_min_max_bounds(self.values@, old(self).min, old(self).max);
            assert(self.min <= self.values@[0] <= self.max);
        }
        let vmin = self.min;
        let vmax = self.max;
        let delta: u128 = (vmax as i128 - vmin as i128) as u128;
        if delta == 0 {
            return (counts, 0);
        }
        let ghost nc = num_counts as int;
        let mut i: usize = 0;
        while i < self.values.len()
            invariant
                0 <= i <= self.values@.len(),
                self.values@ == old(self).values@,
                self.min == vmin,
                self.max == vmax,
                delta == vmax - vmin,
                delta > 0,
                vmin < vmax,
                nc == num_counts as int,
                num_counts > 0,
                counts@.len() == num_counts,
                forall|k: int| 0 <= k < self.values@.len() ==> vmin <= #[trigger] self.values@[k] <= vmax,
                forall|s2: int|
                    0 <= s2 < nc ==> #[trigger] counts@[s2] == self.values@.take(i as int).filter(
                        |v: i64| spec_slot(v, vmin, delta as int, nc) == s2,
                    ).len(),
            decreases self.values@.len() - i,
        {
            let v = self.values[i];
            proof {
                assert((v - vmin) * nc <= (u64::MAX as int) * (u64::MAX as int))
                    by (nonlinear_arith)
                    requires
                        0 <= v - vmin <= u64::MAX as int,
                        0 < nc <= u64::MAX as int,
                ;
            }
            let num: u128 = ((v as i128 - vmin as i128) as u128) * (num_counts as u128);
            let q: u128 = num / delta;
            let slot: usize = if q >= num_counts as u128 {
                num_counts - 1
            } else {
                q as usize
            };
            proof {
                assert((v - vmin) * nc >= 0) by (nonlinear_arith)
                    requires
                        v >= vmin,
                        nc > 0,
                ;
                vstd::arithmetic::div_mod::lemma_div_pos_is_pos((v - vmin) * nc, delta as int);
                assert(slot == spec_slot(v, vmin, delta as int, nc));
            }
            let c = counts[slot];
            let ghost pre_counts = counts@;
            proof {
                broadcast use vstd::seq_lib::group_filter_ensures;

                assert(self.values@.take(i as int).filter(
                    |v2: i64| spec_slot(v2, vmin, delta as int, nc) == slot as int,
                ).len() <= self.values@.take(i as int).len());
            }
            counts.set(slot, c + 1);
            proof {
                assert(self.values@.take(i as int + 1) =~= self.values@.take(i as int).push(
                    self.values@[i as int],
                ));
                assert forall|s2: int| 0 <= s2 < nc implies #[trigger] counts@[s2] == self
                    .values@
                    .take(i as int + 1)
                    .filter(|v2: i64| spec_slot(v2, vmin, delta as int, nc) == s2)
                    .len() by {
                    let pred = |v2: i64| spec_slot(v2, vmin, delta as int, nc) == s2;
                    self.values@.take(i as int).lemma_filter_push(v, pred);
                    assert(self.values@.take(i as int + 1).filter(pred) == self.values@.take(
                        i as int,
                    ).push(v).filter(pred));
                    if s2 == slot as int {
                        assert(pred(v));
                        assert(counts@[s2] == pre_counts[s2] + 1);
                    } else {
                        assert(!pred(v));
                        assert(counts@[s2] == pre_counts[s2]);
                    }
                }
            }
            i += 1;
        }
        proof {
            assert(self.values@.take(self.values@.len() as int) =~= self.values@);
        }
        let mut max_count: usize = 0;
        let mut s: usize = 0;
        while s < num_counts
            invariant
                0 <= s <= num_counts,
                counts@.len() == num_counts,
                forall|k: int| 0 <= k < s ==> #[trigger] counts@[k] <= max_count,
                max_count == 0 || exists|k: int| 0 <= k < s && #[trigger] counts@[k] == max_count,
            decreases num_counts - s,
        {
            if counts[s] > max_count {
                max_count = counts[s];
            }
            s += 1;
        }
        (counts, max_count)
    }
}

/// After folding a non-empty series into the primed bounds, every value of
/// the series lies between them (and the minimum is at most the maximum).
proof fn lemma_fold_min_max_bounds(s: Seq<i64>, min0: i64, max0: i64)
    ensures
        fold_min(s, min0) <= min0,
        fold_max(s, max0) >= max0,
        forall|k: int| 0 <= k < s.len() ==> fold_min(s, min0) <= #[trigger] s[k],
        forall|k: int| 0 <= k < s.len() ==> fold_max(s, max0) >= #[trigger] s[k],
    decreases s.len(),
{
    if s.len() > 0 {
        lemma_fold_min_max_bounds(s.drop_last(), min0, max0);
        assert(forall|k: int| 0 <= k < s.len() - 1 ==> s.drop_last()[k] == #[trigger] s[k]);
        assert(s[s.len() - 1] == s.last());
    }
}

} // verus!
