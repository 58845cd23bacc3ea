use vstd::prelude::*;
use crate::search::distance_metric::{
    euclid_int, sq_diff_from, squared_distance, DistanceMetric,
};

verus! {

/// Squared Euclidean distance strategy.
pub struct EuclideanProduct;

impl DistanceMetric for EuclideanProduct {
    open spec fn distance_spec(&self, x: Seq<int>, y: Seq<int>) -> int {
        euclid_int(x, y)
    }

    fn distance(&self, x: &Vec<i64>, y: &Vec<i64>) -> (d: i128) {
        squared_distance(x, y)
    }
}

/// The squared distance of a vector to itself vanishes.
pub proof fn lemma_euclid_self(x: Seq<int>)
    ensures
        euclid_int(x, x) == 0,
{
    lemma_sq_diff_self(x, 0);
}

proof fn lemma_sq_diff_self(x: Seq<int>, i: int)
    ensures
        sq_diff_from(x, x, i) == 0,
    decreases x.len() - i,
{
    if 0 <= i < x.len() {
        lemma_sq_diff_self(x, i + 1);
    }
}

/// A squared distance is never negative, so a vector is always at least as
/// close to itself as to anything else.
pub proof fn lemma_euclid_nonneg(x: Seq<int>, y: Seq<int>)
    ensures
        euclid_int(x, y) >= 0,
{
    lemma_sq_diff_nonneg(x, y, 0);
}

proof fn lemma_sq_diff_nonneg(x: Seq<int>, y: Seq<int>, i: int)
    ensures
        sq_diff_from(x, y, i) >= 0,
    decreases x.len() - i,
{
    if 0 <= i < x.len() && i < y.len() {
        lemma_sq_diff_nonneg(x, y, i + 1);
        assert((x[i] - y[i]) * (x[i] - y[i]) >= 0) by (nonlinear_arith);
    }
}

} // verus!
