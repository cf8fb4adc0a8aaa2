//! Min/max reduction over a numeric series and linear scaling into [0, 1]
//! (represented as [0, UNIT] in fixed point).

use vstd::prelude::*;

use crate::{sat64, UNIT};

verus! {

/// The (min, max) pair used to scale a factor series into [0, 1]; the values
/// are fixed-point millionths, and `min <= max` whenever the pair was built
/// by `determine`.
#[derive(Clone, Copy, PartialEq, Eq, Structural, Debug)]
pub struct NormalizationFactors {
    /// Minimum value of the series.
    pub min: i64,
    /// Maximum value of the series.
    pub max: i64,
}

/// The pair records exactly the range of the series: every value lies
/// between `min` and `max`, and both bounds are attained.
pub open spec fn factors_of(f: NormalizationFactors, series: Seq<i64>) -> bool {
    &&& forall|i: int| 0 <= i < series.len() ==> f.min <= #[trigger] series[i] <= f.max
    &&& exists|i: int| 0 <= i < series.len() && series[i] == f.min
    &&& exists|i: int| 0 <= i < series.len() && series[i] == f.max
}

impl NormalizationFactors {
    /// What `scale` computes: `(value - min) * UNIT / (max - min)` with
    /// truncating division, or 0 for a degenerate range. Out-of-range values
    /// are allowed and give a result outside [0, UNIT].
    pub open spec fn spec_scale(self, value: i64) -> int {
        if self.min == self.max {
            0
        } else {
            crate::tdiv((value - self.min) * (UNIT as int), self.max - self.min)
        }
    }

    /// Determine the (min, max) pair of a series; fails exactly on an empty
    /// series.
    pub fn determine(list: &Vec<i64>) -> (r: Option<NormalizationFactors>)
        ensures
            r is Some <==> list@.len() > 0,
            r matches Some(f) ==> factors_of(f, list@) && f.min <= f.max,
    {
        if list.len() == 0 {
            return None;
        }
        let mut min: i64 = list[0];
        let mut max: i64 = list[0];
        let mut i: usize = 1;
        while i < list.len()
            invariant
                1 <= i <= list@.len(),
                forall|k: int| 0 <= k < i ==> min <= #[trigger] list@[k] <= max,
                exists|k: int| 0 <= k < i && list@[k] == min,
                exists|k: int| 0 <= k < i && list@[k] == max,
            decreases list@.len() - i,
        {
            let v = list[i];
            if v < min {
                min = v;
            }
            if v > max {
                max = v;
            }
            i += 1;
        }
        Some(NormalizationFactors { min, max })
    }

    /// Scale a value into [0, UNIT] relative to the (min, max) range; a
    /// degenerate range always scales to 0, and out-of-range values scale to
    /// a (saturated) result outside [0, UNIT].
    pub fn scale(&self, value: i64) -> (r: i64)
        requires
            self.min <= self.max,
        ensures
            r == sat64(self.spec_scale(value)),
            self.min <= value <= self.max ==> 0 <= r <= UNIT && r == self.spec_scale(value),
            self.min == self.max ==> r == 0,
            self.min < self.max && value == self.min ==> r == 0,
            self.min < self.max && value == self.max ==> r == UNIT,
    {
        if self.min == self.max {
            return 0;
        }
        let delta: u128 = (self.max as i128 - self.min as i128) as u128;
        if value >= self.min {
            let num: u128 = (value as i128 - self.min as i128) as u128 * (UNIT as u128);
            let q: u128 = num / delta;
            proof {
                if value <= self.max {
                    lemma_scale_in_range(*self, value);
                }
                assert(q == ((value - self.min) * (UNIT as int)) / (self.max - self.min));
            }
            if q > i64::MAX as u128 {
                i64::MAX
            } else {
                q as i64
            }
        } else {
            let num: u128 = (self.min as i128 - value as i128) as u128 * (UNIT as u128);
            let q: u128 = num / delta;
            proof {
                assert(q == ((self.min - value) * (UNIT as int)) / (self.max - self.min));
            }
            if q >= 9223372036854775808u128 {
                // `-q` is at or below the bottom of the i64 range.
                i64::MIN
            } else {
                -(q as i64)
            }
        }
    }
}

/// Law: scaling maps the range [min, max] into [0, UNIT]; the minimum scales
/// to 0, the maximum to UNIT, and a degenerate range always scales to 0.
pub proof fn lemma_scale_in_range(f: NormalizationFactors, value: i64)
    requires
        f.min <= value <= f.max,
    ensures
        0 <= f.spec_scale(value) <= UNIT,
        value == f.min ==> f.spec_scale(value) == 0,
        f.min < f.max && value == f.max ==> f.spec_scale(value) == UNIT,
        f.min == f.max ==> f.spec_scale(value) == 0,
{
    if f.min < f.max {
        let num = (value - f.min) * (UNIT as int);
        let den = f.max - f.min;
        assert((value - f.min) * (UNIT as int) >= 0) by (nonlinear_arith)
            requires
                value >= f.min,
        ;
        assert((value - f.min) * (UNIT as int) <= (f.max - f.min) * (UNIT as int))
            by (nonlinear_arith)
            requires
                f.min <= value <= f.max,
        ;
        vstd::arithmetic::div_mod::lemma_div_pos_is_pos(num, den);
        vstd::arithmetic::div_mod::lemma_div_is_ordered(num, den * (UNIT as int), den);
        vstd::arithmetic::div_mod::lemma_div_multiples_vanish(UNIT as int, den);
        assert(den * (UNIT as int) / den == UNIT as int);
        if value == f.min {
            assert(num == 0);
            assert(num / den == 0);
        }
        if value == f.max {
            assert(num == den * (UNIT as int));
        }
    }
}

} // verus!
