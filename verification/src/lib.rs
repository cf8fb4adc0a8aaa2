//! Intelligent Peer Sharing: analyzes a snapshot of a peer-to-peer overlay
//! network and recommends, for every node, which peers to drop and which to
//! add so that the network's robustness, connectivity and balance improve.
//!
//! All fractional quantities (centralities, ratings, weights, statistics) are
//! carried as fixed-point integers in millionths of a unit, so that every
//! computation in this crate is exact integer arithmetic.

use vstd::prelude::*;

pub mod config;
pub mod graph_utils;
pub mod histogram;
pub mod ips;
pub mod nodes;
pub mod normalization;
pub mod peer;
pub mod sort;
pub mod statistics;

verus! {

/// One whole unit in the fixed-point representation used throughout the
/// crate: values are stored in millionths.
pub const UNIT: i64 = 1_000_000;

/// Truncating (round toward zero) division, the semantics of this crate's
/// exec divisions; it agrees with Euclidean division whenever both operands
/// are non-negative.
pub open spec fn tdiv(a: int, b: int) -> int
    recommends
        b != 0,
{
    let q = (vstd::math::abs(a) as int) / (vstd::math::abs(b) as int);
    if (a < 0) <==> (b < 0) {
        q
    } else {
        -q
    }
}

/// Saturating conversion of an `i128` quantity to `i64`.
pub fn saturate_i128_to_i64(v: i128) -> (r: i64)
    ensures
        r == sat64(v as int),
{
    if v > i64::MAX as i128 {
        i64::MAX
    } else if v < i64::MIN as i128 {
        i64::MIN
    } else {
        v as i64
    }
}

/// Truncating division of `a` by a positive `b`, saturated into the `i64`
/// range.
pub fn tdiv_i128_sat(a: i128, b: i128) -> (r: i64)
    requires
        b > 0,
        a > i128::MIN,
    ensures
        r == sat64(tdiv(a as int, b as int)),
{
    let neg = a < 0;
    let am: u128 = if neg {
        (-a) as u128
    } else {
        a as u128
    };
    let q: u128 = am / (b as u128);
    proof {
        vstd::arithmetic::div_mod::lemma_div_pos_is_pos(am as int, b as int);
    }
    if neg {
        if q >= 9223372036854775808u128 {
            i64::MIN
        } else {
            -(q as i64)
        }
    } else {
        if q > i64::MAX as u128 {
            i64::MAX
        } else {
            q as i64
        }
    }
}

/// Copy a vector of fixed-point values; the copy holds exactly the same
/// sequence.
pub fn clone_i64_vec(v: &Vec<i64>) -> (r: Vec<i64>)
    ensures
        r@ == v@,
{
    let mut r: Vec<i64> = Vec::new();
    let mut i: usize = 0;
    while i < v.len()
        invariant
            0 <= i <= v@.len(),
            r@ == v@.take(i as int),
        decreases v@.len() - i,
    {
        r.push(v[i]);
        i += 1;
    }
    proof {
        assert(v@.take(v@.len() as int) =~= v@);
    }
    r
}

/// Clamp a mathematical integer into the `i64` range.
pub open spec fn sat64(a: int) -> int {
    if a > i64::MAX {
        i64::MAX as int
    } else if a < i64::MIN {
        i64::MIN as int
    } else {
        a
    }
}

} // verus!
