//! Per-measure statistics over a network state: average, median, min, max,
//! and the percentage change between two snapshots.

use vstd::prelude::*;

use crate::ips::{degrees_micros, state_wf, IpsState};
use crate::nodes::{betweenness_series, closeness_series};
use crate::sort::{i64_leq_fn, sort_i64};
use crate::{sat64, tdiv, UNIT};

verus! {

/// Sum of a series of fixed-point values, as a mathematical integer.
pub open spec fn sum_i64(s: Seq<i64>) -> int
    decreases s.len(),
{
    if s.len() == 0 {
        0
    } else {
        sum_i64(s.drop_last()) + s.last()
    }
}

/// Sum of a series of degrees, as a mathematical integer.
pub open spec fn sum_u32(s: Seq<u32>) -> int
    decreases s.len(),
{
    if s.len() == 0 {
        0
    } else {
        sum_u32(s.drop_last()) + s.last()
    }
}

/// What `median` returns on a non-empty series: the middle element of the
/// ascending sort, or the truncated mean of the two central elements when
/// the length is even.
pub open spec fn spec_median(s: Seq<i64>) -> int
    recommends
        s.len() > 0,
{
    let t = s.sort_by(i64_leq_fn());
    let mid = s.len() as int / 2;
    if s.len() % 2 == 1 {
        t[mid] as int
    } else {
        tdiv(t[mid - 1] + t[mid], 2)
    }
}

/// Computes the median of a series: `None` exactly on an empty series,
/// otherwise the middle of the ascending sort (for an even length, the mean
/// of the two central elements, truncated toward zero).
pub fn median(list: &Vec<i64>) -> (r: Option<i64>)
    ensures
        r is Some <==> list@.len() > 0,
        r matches Some(m) ==> m == spec_median(list@),
{
    if list.len() == 0 {
        return None;
    }
    let mut work: Vec<i64> = Vec::new();
    let mut i: usize = 0;
    while i < list.len()
        invariant
            0 <= i <= list@.len(),
            work@ == list@.take(i as int),
        decreases list@.len() - i,
    {
        work.push(list[i]);
        i += 1;
    }
    proof {
        assert(work@ =~= list@);
    }
    sort_i64(&mut work);
    let n = work.len();
    let mid = n / 2;
    if n % 2 == 1 {
        Some(work[mid])
    } else {
        let a = work[mid - 1];
        let b = work[mid];
        let sum: i128 = a as i128 + b as i128;
        let half: i64 = if sum >= 0 {
            let q: u128 = (sum as u128) / 2;
            proof {
                assert(q <= i64::MAX as u128);
            }
            q as i64
        } else {
            let q: u128 = ((-sum) as u128) / 2;
            proof {
                assert(q <= 9223372036854775808u128);
            }
            if q == 9223372036854775808u128 {
                i64::MIN
            } else {
                -(q as i64)
            }
        };
        Some(half)
    }
}

/// Average of a series of fixed-point values: 0 on an empty series,
/// otherwise the sum divided (truncating) by the length.
pub fn centrality_avg(values: &Vec<i64>) -> (r: i64)
    ensures
        values@.len() == 0 ==> r == 0,
        values@.len() > 0 ==> r == tdiv(sum_i64(values@), values@.len() as int),
{
    if values.len() == 0 {
        return 0;
    }
    let mut sum: i128 = 0;
    let mut i: usize = 0;
    while i < values.len()
        invariant
            0 <= i <= values@.len(),
            sum == sum_i64(values@.take(i as int)),
            (i as int) * (i64::MIN as int) <= sum <= (i as int) * (i64::MAX as int),
        decreases values@.len() - i,
    {
        let v = values[i];
        proof {
            assert(values@.take(i as int + 1).drop_last() =~= values@.take(i as int));
            assert(values@.take(i as int + 1).last() == values@[i as int]);
            assert((i as int) * (i64::MIN as int) + (i64::MIN as int) == (i as int + 1) * (
            i64::MIN as int)) by (nonlinear_arith);
            assert((i as int) * (i64::MAX as int) + (i64::MAX as int) == (i as int + 1) * (
            i64::MAX as int)) by (nonlinear_arith);
            assert((i as int + 1) * (i64::MIN as int) >= (usize::MAX as int) * (i64::MIN as int))
                by (nonlinear_arith)
                requires
                    0 <= i as int + 1 <= usize::MAX as int,
            ;
            assert((i as int + 1) * (i64::MAX as int) <= (usize::MAX as int) * (i64::MAX as int))
                by (nonlinear_arith)
                requires
                    0 <= i as int + 1 <= usize::MAX as int,
            ;
        }
        sum = sum + v as i128;
        i += 1;
    }
    proof {
        assert(values@.take(values@.len() as int) =~= values@);
    }
    let len = values.len();
    let neg = sum < 0;
    let mag: u128 = if neg {
        (-sum) as u128
    } else {
        sum as u128
    };
    let q: u128 = mag / (len as u128);
    proof {
        lemma_mag_div_len_bounded(sum as int, mag as int, len as int);
    }
    if neg {
        if q >= 9223372036854775808u128 {
            i64::MIN
        } else {
            -(q as i64)
        }
    } else {
        q as i64
    }
}

/// Magnitude-over-length quotients of an in-range sum stay within the
/// magnitude bound of a single `i64` element.
proof fn lemma_mag_div_len_bounded(sum: int, mag: int, len: int)
    requires
        len > 0,
        mag == vstd::math::abs(sum),
        len * (i64::MIN as int) <= sum <= len * (i64::MAX as int),
    ensures
        0 <= mag / len <= 9223372036854775808,
        sum >= 0 ==> mag / len <= i64::MAX as int,
        sum >= 0 ==> mag / len == tdiv(sum, len),
        sum < 0 ==> -(mag / len) >= i64::MIN as int,
        sum < 0 ==> -(mag / len) == tdiv(sum, len),
{
    vstd::arithmetic::div_mod::lemma_div_pos_is_pos(mag, len);
    if sum >= 0 {
        vstd::arithmetic::div_mod::lemma_div_is_ordered(mag, len * (i64::MAX as int), len);
        vstd::arithmetic::div_mod::lemma_div_multiples_vanish(i64::MAX as int, len);
        assert(len * (i64::MAX as int) == (i64::MAX as int) * len) by (nonlinear_arith);
    } else {
        assert(mag == -sum);
        assert(mag <= len * 9223372036854775808) by (nonlinear_arith)
            requires
                sum >= len * (i64::MIN as int),
                mag == -sum,
        ;
        vstd::arithmetic::div_mod::lemma_div_is_ordered(mag, len * 9223372036854775808, len);
        vstd::arithmetic::div_mod::lemma_div_multiples_vanish(9223372036854775808, len);
        assert(len * 9223372036854775808 == 9223372036854775808 * len) by (nonlinear_arith);
    }
}

/// Average degree of the network in fixed-point millionths: 0 on an empty
/// degree series, otherwise the degree sum scaled by UNIT and divided by the
/// number of nodes.
pub fn degree_centrality_avg(degrees: &Vec<u32>) -> (r: i64)
    ensures
        degrees@.len() == 0 ==> r == 0,
        degrees@.len() > 0 ==> r == (sum_u32(degrees@) * (UNIT as int)) / (degrees@.len() as int),
        0 <= r <= (u32::MAX as int) * (UNIT as int),
{
    if degrees.len() == 0 {
        return 0;
    }
    let mut sum: u128 = 0;
    let mut i: usize = 0;
    while i < degrees.len()
        invariant
            0 <= i <= degrees@.len(),
            sum == sum_u32(degrees@.take(i as int)),
            0 <= sum <= (i as int) * (u32::MAX as int),
        decreases degrees@.len() - i,
    {
        let v = degrees[i];
        proof {
            assert(degrees@.take(i as int + 1).drop_last() =~= degrees@.take(i as int));
            assert(degrees@.take(i as int + 1).last() == degrees@[i as int]);
            assert((i as int) * (u32::MAX as int) + (u32::MAX as int) == (i as int + 1) * (
            u32::MAX as int)) by (nonlinear_arith);
            assert((i as int + 1) * (u32::MAX as int) <= (usize::MAX as int) * (u32::MAX as int))
                by (nonlinear_arith)
                requires
                    0 <= i as int + 1 <= usize::MAX as int,
            ;
        }
        sum = sum + v as u128;
        i += 1;
    }
    proof {
        assert(degrees@.take(degrees@.len() as int) =~= degrees@);
    }
    let len = degrees.len();
    proof {
        assert(sum * (UNIT as int) <= ((u32::MAX as int) * (UNIT as int)) * (usize::MAX as int))
            by (nonlinear_arith)
            requires
                0 <= sum <= (len as int) * (u32::MAX as int),
                0 < len as int <= usize::MAX as int,
        ;
    }
    let num: u128 = sum * (UNIT as u128);
    let q: u128 = num / (len as u128);
    proof {
        lemma_deg_avg_bounded(sum as int, len as int);
    }
    q as i64
}

/// The scaled degree average stays within the scaled `u32` range.
proof fn lemma_deg_avg_bounded(sum: int, len: int)
    requires
        len > 0,
        0 <= sum <= len * (u32::MAX as int),
    ensures
        0 <= (sum * (UNIT as int)) / len <= (u32::MAX as int) * (UNIT as int),
{
    assert(sum * (UNIT as int) >= 0) by (nonlinear_arith)
        requires
            sum >= 0,
    ;
    assert(sum * (UNIT as int) <= ((u32::MAX as int) * (UNIT as int)) * len) by (nonlinear_arith)
        requires
            0 <= sum <= len * (u32::MAX as int),
    ;
    vstd::arithmetic::div_mod::lemma_div_pos_is_pos(sum * (UNIT as int), len);
    vstd::arithmetic::div_mod::lemma_div_is_ordered(
        sum * (UNIT as int),
        ((u32::MAX as int) * (UNIT as int)) * len,
        len,
    );
    vstd::arithmetic::div_mod::lemma_div_multiples_vanish((u32::MAX as int) * (UNIT as int), len);
    assert(((u32::MAX as int) * (UNIT as int)) * len == len * ((u32::MAX as int) * (UNIT as int)))
        by (nonlinear_arith);
}

/// Percentage change from `original` to `new`, in fixed-point millionths of
/// a percent; a zero original stands in for an infinitesimal denominator, so
/// the result is the (saturated) delta scaled by 10^11.
pub fn percentage_change(original: i64, new: i64) -> (r: i64)
    ensures
        original != 0 ==> r == sat64(tdiv((new - original) * 100 * (UNIT as int), original as int)),
        original == 0 ==> r == sat64((new - original) * 100_000_000_000),
{
    let delta: i128 = new as i128 - original as i128;
    if original == 0 {
        crate::saturate_i128_to_i64(delta * 100_000_000_000)
    } else {
        let neg = (delta < 0) != (original < 0);
        let dmag: u128 = if delta < 0 {
            (-delta) as u128
        } else {
            delta as u128
        };
        let omag: u128 = if original < 0 {
            (-(original as i128)) as u128
        } else {
            original as u128
        };
        let num: u128 = dmag * 100_000_000;
        let q: u128 = num / omag;
        proof {
            let a = (new - original) * 100 * (UNIT as int);
            assert(a == (new - original) * 100_000_000);
            assert(vstd::math::abs(a) == dmag * 100_000_000);
            assert(q == vstd::math::abs(a) / vstd::math::abs(original as int));
            vstd::arithmetic::div_mod::lemma_div_pos_is_pos(
                vstd::math::abs(a) as int,
                vstd::math::abs(original as int) as int,
            );
        }
        if neg {
            if q >= 9223372036854775808u128 {
                i64::MIN
            } else {
                -(q as i64)
            }
        } else {
            if q > i64::MAX as u128 {
                i64::MAX
            } else {
                q as i64
            }
        }
    }
}

/// The 17-field statistics record of a network state: node count plus
/// average, median, min and max for each of degree, betweenness, closeness
/// and eigenvector. All values are fixed-point millionths.
#[derive(Clone, Copy, PartialEq, Eq, Structural, Debug)]
pub struct Statistics {
    /// Number of nodes.
    pub nodes_count: usize,
    /// Average degree.
    pub degree_average: i64,
    /// Median degree.
    pub degree_median: i64,
    /// Minimum degree (from the stored normalization factors).
    pub degree_min: i64,
    /// Maximum degree (from the stored normalization factors).
    pub degree_max: i64,
    /// Average betweenness.
    pub betweenness_average: i64,
    /// Median betweenness.
    pub betweenness_median: i64,
    /// Minimum betweenness (from the stored normalization factors).
    pub betweenness_min: i64,
    /// Maximum betweenness (from the stored normalization factors).
    pub betweenness_max: i64,
    /// Average closeness.
    pub closeness_average: i64,
    /// Median closeness.
    pub closeness_median: i64,
    /// Minimum closeness (from the stored normalization factors).
    pub closeness_min: i64,
    /// Maximum closeness (from the stored normalization factors).
    pub closeness_max: i64,
    /// Average eigenvector centrality.
    pub eigenvector_average: i64,
    /// Median eigenvector centrality.
    pub eigenvector_median: i64,
    /// Minimum eigenvector centrality (from the stored factors).
    pub eigenvector_min: i64,
    /// Maximum eigenvector centrality (from the stored factors).
    pub eigenvector_max: i64,
}

/// Compute the statistics of a network state. Averages and medians are
/// computed from the stored series; min and max come from the stored
/// normalization factors, not recomputed.
pub fn generate_statistics(state: &IpsState) -> (r: Statistics)
    requires
        state_wf(*state),
    ensures
        r.nodes_count == state.nodes@.len(),
        r.degree_average == (sum_u32(state.degrees@) * (UNIT as int)) / (state.degrees@.len() as int),
        r.degree_median == spec_median(degrees_micros(state.degrees@)),
        r.degree_min == state.degree_factors.min,
        r.degree_max == state.degree_factors.max,
        r.betweenness_average == tdiv(
            sum_i64(betweenness_series(state.nodes@)),
            state.nodes@.len() as int,
        ),
        r.betweenness_median == spec_median(betweenness_series(state.nodes@)),
        r.betweenness_min == state.betweenness_factors.min,
        r.betweenness_max == state.betweenness_factors.max,
        r.closeness_average == tdiv(
            sum_i64(closeness_series(state.nodes@)),
            state.nodes@.len() as int,
        ),
        r.closeness_median == spec_median(closeness_series(state.nodes@)),
        r.closeness_min == state.closeness_factors.min,
        r.closeness_max == state.closeness_factors.max,
        r.eigenvector_average == tdiv(sum_i64(state.eigenvalues@), state.nodes@.len() as int),
        r.eigenvector_median == spec_median(state.eigenvalues@),
        r.eigenvector_min == state.eigenvector_factors.min,
        r.eigenvector_max == state.eigenvector_factors.max,
{
    let n = state.nodes.len();
    let mut deg_micros: Vec<i64> = Vec::new();
    let mut betw: Vec<i64> = Vec::new();
    let mut close: Vec<i64> = Vec::new();
    let mut i: usize = 0;
    while i < n
        invariant
            0 <= i <= n,
            n == state.nodes@.len(),
            state.degrees@.len() == n,
            deg_micros@ == degrees_micros(state.degrees@.take(i as int)),
            betw@ == betweenness_series(state.nodes@.take(i as int)),
            close@ == closeness_series(state.nodes@.take(i as int)),
        decreases n - i,
    {
        proof {
            assert(degrees_micros(state.degrees@.take(i as int + 1)) =~= degrees_micros(
                state.degrees@.take(i as int),
            ).push((state.degrees@[i as int] * (UNIT as u32 as int)) as i64));
            assert(betweenness_series(state.nodes@.take(i as int + 1)) =~= betweenness_series(
                state.nodes@.take(i as int),
            ).push(state.nodes@[i as int].betweenness));
            assert(closeness_series(state.nodes@.take(i as int + 1)) =~= closeness_series(
                state.nodes@.take(i as int),
            ).push(state.nodes@[i as int].closeness));
        }
        deg_micros.push((state.degrees[i] as i64) * UNIT);
        betw.push(state.nodes[i].betweenness);
        close.push(state.nodes[i].closeness);
        i += 1;
    }
    proof {
        assert(state.degrees@.take(n as int) =~= state.degrees@);
        assert(state.nodes@.take(n as int) =~= state.nodes@);
        assert(degrees_micros(state.degrees@.take(n as int)) =~= degrees_micros(state.degrees@));
        assert(betweenness_series(state.nodes@.take(n as int)) =~= betweenness_series(
            state.nodes@,
        ));
        assert(closeness_series(state.nodes@.take(n as int)) =~= closeness_series(state.nodes@));
    }
    let degree_median = unwrap_median(median(&deg_micros));
    let betweenness_median = unwrap_median(median(&betw));
    let closeness_median = unwrap_median(median(&close));
    let eigenvector_median = unwrap_median(median(&state.eigenvalues));
    Statistics {
        nodes_count: n,
        degree_average: degree_centrality_avg(&state.degrees),
        degree_median,
        degree_min: state.degree_factors.min,
        degree_max: state.degree_factors.max,
        betweenness_average: centrality_avg(&betw),
        betweenness_median,
        betweenness_min: state.betweenness_factors.min,
        betweenness_max: state.betweenness_factors.max,
        closeness_average: centrality_avg(&close),
        closeness_median,
        closeness_min: state.closeness_factors.min,
        closeness_max: state.closeness_factors.max,
        eigenvector_average: centrality_avg(&state.eigenvalues),
        eigenvector_median,
        eigenvector_min: state.eigenvector_factors.min,
        eigenvector_max: state.eigenvector_factors.max,
    }
}

/// Unwrap a median that a non-empty series is known to have.
fn unwrap_median(m: Option<i64>) -> (r: i64)
    requires
        m is Some,
    ensures
        m == Some(r),
{
    match m {
        Some(v) => v,
        None => 0,  // unreachable by the precondition
    }
}

} // verus!
