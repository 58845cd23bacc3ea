use vstd::prelude::*;
use crate::arith::{isqrt_u128, lemma_isqrt_pos, COMP_LIMIT, DIM_LIMIT};
use crate::search::distance_metric::{
    cosine_dist_int, dot_from, dot_int, dot_product, lemma_dot_self_nonneg, DistanceMetric,
    DISTANCE_SCALE, TERM_LIMIT,
};
use vstd::arithmetic::div_mod::lemma_div_nonincreasing;

verus! {

/// Cosine distance strategy: `1 - cos(x, y)` in fixed point, so that lower
/// still means more similar.
pub struct CosineProduct;

impl DistanceMetric for CosineProduct {
    open spec fn distance_spec(&self, x: Seq<int>, y: Seq<int>) -> int {
        cosine_dist_int(x, y)
    }

    fn distance(&self, x: &Vec<i64>, y: &Vec<i64>) -> (d: i128) {
        let ghost xs = crate::arith::int_seq(x@);
        let ghost ys = crate::arith::int_seq(y@);
        let dxx = dot_product(x, x);
        let dyy = dot_product(y, y);
        proof {
            lemma_dot_self_nonneg(xs, 0);
            lemma_dot_self_nonneg(ys, 0);
            assert((x@.len() as int) * (TERM_LIMIT as int)
                <= (DIM_LIMIT as int) * (TERM_LIMIT as int)) by (nonlinear_arith)
                requires 0 <= x@.len() as int <= DIM_LIMIT as int;
        }
        if dxx == 0 || dyy == 0 {
            DISTANCE_SCALE
        } else {
            let nx = isqrt_u128(dxx as u128);
            let ny = isqrt_u128(dyy as u128);
            proof {
                lemma_isqrt_pos(dxx as nat);
                lemma_isqrt_pos(dyy as nat);
                assert(nx as int <= 0x400000000000) by (nonlinear_arith)
                    requires
                        (nx as int) * (nx as int) <= 0x100000000000000000000000,
                        nx as int >= 0;
                assert(ny as int <= 0x400000000000) by (nonlinear_arith)
                    requires
                        (ny as int) * (ny as int) <= 0x100000000000000000000000,
                        ny as int >= 0;
                assert((nx as int) * (ny as int) <= 0x100000000000000000000000)
                    by (nonlinear_arith)
                    requires 0 <= nx as int <= 0x400000000000, 0 <= ny as int <= 0x400000000000;
                assert((nx as int) * (ny as int) >= 1) by (nonlinear_arith)
                    requires nx as int >= 1, ny as int >= 1;
            }
            let denom: u128 = (nx as u128) * (ny as u128);
            let dxy = dot_product(x, y);
            if dxy >= 0 {
                let prod: u128 = (DISTANCE_SCALE as u128) * (dxy as u128);
                proof {
                    assert((DISTANCE_SCALE as int) * (dxy as int)
                        <= 0x100000 * 0x100000000000000000000000) by (nonlinear_arith)
                        requires
                            0 <= dxy as int <= 0x100000000000000000000000,
                            0 < DISTANCE_SCALE as int <= 0x100000;
                    lemma_div_nonincreasing(prod as int, denom as int);
                }
                let q: u128 = prod / denom;
                DISTANCE_SCALE - (q as i128)
            } else {
                let m: u128 = (-dxy) as u128;
                let prod: u128 = (DISTANCE_SCALE as u128) * m;
                proof {
                    assert((DISTANCE_SCALE as int) * (m as int)
                        <= 0x100000 * 0x100000000000000000000000) by (nonlinear_arith)
                        requires
                            0 <= m as int <= 0x100000000000000000000000,
                            0 < DISTANCE_SCALE as int <= 0x100000;
                    lemma_div_nonincreasing(prod as int, denom as int);
                }
                let q: u128 = prod / denom;
                DISTANCE_SCALE + (q as i128)
            }
        }
    }
}

/// A dot product with a zero vector on the left vanishes.
proof fn lemma_dot_zero_left(x: Seq<int>, y: Seq<int>, i: int)
    requires
        forall|j: int| 0 <= j < x.len() ==> #[trigger] x[j] == 0,
    ensures
        dot_from(x, y, i) == 0,
    decreases x.len() - i,
{
    if 0 <= i < x.len() && i < y.len() {
        lemma_dot_zero_left(x, y, i + 1);
        assert(x[i] * y[i] == 0) by (nonlinear_arith)
            requires x[i] == 0;
    }
}

/// A zero vector scored against anything has cosine distance exactly
/// `DISTANCE_SCALE`, the fixed-point image of `1.0`.
pub proof fn lemma_cosine_zero_vector(x: Seq<int>, y: Seq<int>)
    requires
        forall|j: int| 0 <= j < x.len() ==> #[trigger] x[j] == 0,
    ensures
        cosine_dist_int(x, y) == DISTANCE_SCALE as int,
        cosine_dist_int(y, x) == DISTANCE_SCALE as int,
{
    lemma_dot_zero_left(x, x, 0);
    assert(dot_int(x, x) == 0);
}

/// The fixed-point quotient `SCALE * d / r^2` lies between `SCALE` and
/// `3 * SCALE` whenever `r` is the integer square root of `d`.
proof fn lemma_scaled_self_quotient(d: int, r: int)
    requires
        1 <= r,
        r * r <= d,
        d < (r + 1) * (r + 1),
    ensures
        DISTANCE_SCALE as int <= ((DISTANCE_SCALE as int) * d) / (r * r) <= 3 * (
        DISTANCE_SCALE as int),
{
    let sc = DISTANCE_SCALE as int;
    assert(r * r >= 1) by (nonlinear_arith)
        requires r >= 1;
    assert(sc * (r * r) <= sc * d) by (nonlinear_arith)
        requires r * r <= d, sc > 0;
    lemma_div_is_ordered_compat(sc * (r * r), sc * d, r * r);
    vstd::arithmetic::div_mod::lemma_div_multiples_vanish(sc, r * r);
    assert(((r * r) * sc) == sc * (r * r)) by (nonlinear_arith);
    assert(d <= r * r + 2 * r) by (nonlinear_arith)
        requires d < (r + 1) * (r + 1);
    assert(sc * d <= (3 * sc) * (r * r)) by (nonlinear_arith)
        requires d <= r * r + 2 * r, 1 <= r, sc > 0;
    lemma_div_is_ordered_compat(sc * d, (3 * sc) * (r * r), r * r);
    vstd::arithmetic::div_mod::lemma_div_multiples_vanish(3 * sc, r * r);
    assert(((r * r) * (3 * sc)) == (3 * sc) * (r * r)) by (nonlinear_arith);
}

proof fn lemma_div_is_ordered_compat(x: int, y: int, z: int)
    requires
        x <= y,
        1 <= z,
    ensures
        x / z <= y / z,
{
    vstd::arithmetic::div_mod::lemma_div_is_ordered(x, y, z);
}

/// A nonzero vector is approximately at distance zero from itself: the
/// exact fixed-point value is at most zero and below it only by the
/// rounding slack of the floored integer square root.  The slack is about
/// `2 * DISTANCE_SCALE / |v|`, so it shrinks with the norm and is
/// negligible for well-scaled inputs (unit-length inputs scaled by a few
/// thousand or more), but for tiny norms it can reach the stated bound:
/// the self-distance of `[1, 1]` is exactly `-DISTANCE_SCALE`.
pub proof fn lemma_cosine_self(x: Seq<int>)
    requires
        dot_int(x, x) != 0,
    ensures
        cosine_dist_int(x, x) <= 0,
        cosine_dist_int(x, x) >= -2 * (DISTANCE_SCALE as int),
{
    lemma_dot_self_nonneg(x, 0);
    let dxx = dot_int(x, x);
    crate::arith::lemma_isqrt_pos(dxx as nat);
    crate::arith::lemma_isqrt_spec_bounds(dxx as nat);
    let r = crate::arith::isqrt_spec(dxx as nat) as int;
    lemma_scaled_self_quotient(dxx, r);
}

/// The component-wise negation of a vector.
pub open spec fn neg_seq(s: Seq<int>) -> Seq<int> {
    s.map_values(|v: int| -v)
}

proof fn lemma_dot_neg_right(x: Seq<int>, y: Seq<int>, i: int)
    requires
        x.len() == y.len(),
    ensures
        dot_from(x, neg_seq(y), i) == -dot_from(x, y, i),
    decreases x.len() - i,
{
    if 0 <= i < x.len() {
        lemma_dot_neg_right(x, y, i + 1);
        assert(neg_seq(y)[i] == -y[i]);
        assert(x[i] * (-y[i]) == -(x[i] * y[i])) by (nonlinear_arith);
    }
}

proof fn lemma_dot_neg_both(x: Seq<int>, i: int)
    ensures
        dot_from(neg_seq(x), neg_seq(x), i) == dot_from(x, x, i),
    decreases x.len() - i,
{
    if 0 <= i < x.len() {
        lemma_dot_neg_both(x, i + 1);
        assert(neg_seq(x)[i] == -x[i]);
        assert((-x[i]) * (-x[i]) == x[i] * x[i]) by (nonlinear_arith);
    }
}

/// A nonzero vector scored against its own negation is approximately at
/// the maximal cosine distance `2.0`: the exact fixed-point value is at
/// least `2 * DISTANCE_SCALE` and above it only by the rounding slack of
/// the floored integer square root, about `2 * DISTANCE_SCALE / |v|`;
/// see [`lemma_cosine_self`] on when the slack matters.
pub proof fn lemma_cosine_opposite(x: Seq<int>)
    requires
        dot_int(x, x) != 0,
    ensures
        cosine_dist_int(x, neg_seq(x)) >= 2 * (DISTANCE_SCALE as int),
        cosine_dist_int(x, neg_seq(x)) <= 4 * (DISTANCE_SCALE as int),
{
    lemma_dot_self_nonneg(x, 0);
    let y = neg_seq(x);
    lemma_dot_neg_both(x, 0);
    lemma_dot_neg_right(x, x, 0);
    let dxx = dot_int(x, x);
    assert(dot_int(y, y) == dxx);
    assert(dot_int(x, y) == -dxx);
    crate::arith::lemma_isqrt_pos(dxx as nat);
    crate::arith::lemma_isqrt_spec_bounds(dxx as nat);
    let r = crate::arith::isqrt_spec(dxx as nat) as int;
    lemma_scaled_self_quotient(dxx, r);
}

} // verus!
