use vstd::prelude::*;
use crate::search::distance_metric::{dot_int, dot_product, DistanceMetric};

verus! {

/// Negated raw dot product strategy: the highest similarity (largest dot
/// product) yields the smallest distance.
pub struct DotProduct;

impl DistanceMetric for DotProduct {
    open spec fn distance_spec(&self, x: Seq<int>, y: Seq<int>) -> int {
        -dot_int(x, y)
    }

    fn distance(&self, x: &Vec<i64>, y: &Vec<i64>) -> (d: i128) {
        let dp = dot_product(x, y);
        -dp
    }
}

/// The dot-product distance is minimized exactly where the raw dot product
/// is maximized: the distance order is the reverse of the similarity order.
pub proof fn lemma_dot_distance_order(q: Seq<int>, a: Seq<int>, b: Seq<int>)
    ensures
        (-dot_int(q, a) < -dot_int(q, b)) <==> (dot_int(q, a) > dot_int(q, b)),
        (-dot_int(q, a) == -dot_int(q, b)) <==> (dot_int(q, a) == dot_int(q, b)),
{
}

} // verus!
