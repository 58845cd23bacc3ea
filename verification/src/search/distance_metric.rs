use vstd::prelude::*;
use vstd::string::StrSliceExecFns;
use crate::arith::{bounded_seq, int_seq, isqrt_spec, COMP_LIMIT, DIM_LIMIT};

verus! {

/// Fixed-point unit used by the cosine metric: a distance of
/// `DISTANCE_SCALE` stands for the real value `1.0`.
pub const DISTANCE_SCALE: i128 = 1000000;

/// Magnitude bound of one product of two components.
pub const TERM_LIMIT: i128 = 0x4000_0000_0000_0000;

/// Magnitude bound of one squared component difference.
pub const SQ_TERM_LIMIT: i128 = 0x10000000000000000;

/// Dot product of the suffixes of `x` and `y` starting at `i`.
pub open spec fn dot_from(x: Seq<int>, y: Seq<int>, i: int) -> int
    decreases x.len() - i,
{
    if i < 0 || i >= x.len() || i >= y.len() {
        0
    } else {
        x[i] * y[i] + dot_from(x, y, i + 1)
    }
}

/// Dot product of two equal-length vectors.
pub open spec fn dot_int(x: Seq<int>, y: Seq<int>) -> int {
    dot_from(x, y, 0)
}

/// Sum of squared component differences of the suffixes starting at `i`.
pub open spec fn sq_diff_from(x: Seq<int>, y: Seq<int>, i: int) -> int
    decreases x.len() - i,
{
    if i < 0 || i >= x.len() || i >= y.len() {
        0
    } else {
        (x[i] - y[i]) * (x[i] - y[i]) + sq_diff_from(x, y, i + 1)
    }
}

/// Squared Euclidean distance (never square-rooted: monotonically
/// equivalent for ranking and cheaper to compute).
pub open spec fn euclid_int(x: Seq<int>, y: Seq<int>) -> int {
    sq_diff_from(x, y, 0)
}

/// Cosine distance in fixed point: `DISTANCE_SCALE` times
/// `1 - dot(x,y)/(|x|*|y|)`, with the norms taken as integer square roots.
/// A zero vector on either side yields exactly `DISTANCE_SCALE` (the image
/// of `1.0`) rather than a division by zero.
pub open spec fn cosine_dist_int(x: Seq<int>, y: Seq<int>) -> int {
    let dxx = dot_int(x, x);
    let dyy = dot_int(y, y);
    if dxx == 0 || dyy == 0 {
        DISTANCE_SCALE as int
    } else {
        let denom = (isqrt_spec(dxx as nat) * isqrt_spec(dyy as nat)) as int;
        let dxy = dot_int(x, y);
        if dxy >= 0 {
            DISTANCE_SCALE as int - ((DISTANCE_SCALE as int) * dxy) / denom
        } else {
            DISTANCE_SCALE as int + ((DISTANCE_SCALE as int) * (-dxy)) / denom
        }
    }
}

/// A dot product against oneself is a sum of squares, hence nonnegative.
pub proof fn lemma_dot_self_nonneg(x: Seq<int>, i: int)
    ensures
        dot_from(x, x, i) >= 0,
    decreases x.len() - i,
{
    if 0 <= i < x.len() {
        lemma_dot_self_nonneg(x, i + 1);
        assert(x[i] * x[i] >= 0) by (nonlinear_arith);
    }
}

/// A dot product of bounded vectors is bounded by the dimension times the
/// largest single product.
pub proof fn lemma_dot_bound(x: Seq<int>, y: Seq<int>, i: int)
    requires
        bounded_seq(x),
        bounded_seq(y),
        x.len() == y.len(),
        0 <= i <= x.len(),
    ensures
        -((x.len() - i) * (TERM_LIMIT as int)) <= dot_from(x, y, i)
            <= (x.len() - i) * (TERM_LIMIT as int),
    decreases x.len() - i,
{
    if i < x.len() {
        lemma_dot_bound(x, y, i + 1);
        assert(-(TERM_LIMIT as int) <= x[i] * y[i] <= TERM_LIMIT as int) by (nonlinear_arith)
            requires
                -(COMP_LIMIT as int) <= x[i] <= COMP_LIMIT as int,
                -(COMP_LIMIT as int) <= y[i] <= COMP_LIMIT as int,
                TERM_LIMIT as int == (COMP_LIMIT as int) * (COMP_LIMIT as int);
        assert((x.len() - i) * (TERM_LIMIT as int)
            == (x.len() - (i + 1)) * (TERM_LIMIT as int) + TERM_LIMIT as int) by (nonlinear_arith);
    }
}

/// A squared distance of bounded vectors is nonnegative and bounded.
pub proof fn lemma_sq_diff_bound(x: Seq<int>, y: Seq<int>, i: int)
    requires
        bounded_seq(x),
        bounded_seq(y),
        x.len() == y.len(),
        0 <= i <= x.len(),
    ensures
        0 <= sq_diff_from(x, y, i) <= (x.len() - i) * (SQ_TERM_LIMIT as int),
    decreases x.len() - i,
{
    if i < x.len() {
        lemma_sq_diff_bound(x, y, i + 1);
        assert(0 <= (x[i] - y[i]) * (x[i] - y[i]) <= SQ_TERM_LIMIT as int) by (nonlinear_arith)
            requires
                -(COMP_LIMIT as int) <= x[i] <= COMP_LIMIT as int,
                -(COMP_LIMIT as int) <= y[i] <= COMP_LIMIT as int,
                SQ_TERM_LIMIT as int == 4 * ((COMP_LIMIT as int) * (COMP_LIMIT as int));
        assert((x.len() - i) * (SQ_TERM_LIMIT as int)
            == (x.len() - (i + 1)) * (SQ_TERM_LIMIT as int) + SQ_TERM_LIMIT as int)
            by (nonlinear_arith);
    }
}

/// Exact dot product of two bounded vectors.
pub fn dot_product(x: &Vec<i64>, y: &Vec<i64>) -> (d: i128)
    requires
        x@.len() == y@.len(),
        x@.len() <= DIM_LIMIT,
        bounded_seq(int_seq(x@)),
        bounded_seq(int_seq(y@)),
    ensures
        d as int == dot_int(int_seq(x@), int_seq(y@)),
        -((x@.len() as int) * (TERM_LIMIT as int)) <= d as int
            <= (x@.len() as int) * (TERM_LIMIT as int),
{
    let ghost xs = int_seq(x@);
    let ghost ys = int_seq(y@);
    proof {
        lemma_dot_bound(xs, ys, 0);
    }
    let mut acc: i128 = 0;
    let mut i: usize = 0;
    while i < x.len()
        invariant
            i <= x@.len(),
            x@.len() == y@.len(),
            x@.len() <= DIM_LIMIT,
            xs == int_seq(x@),
            ys == int_seq(y@),
            bounded_seq(xs),
            bounded_seq(ys),
            acc as int + dot_from(xs, ys, i as int) == dot_int(xs, ys),
            -((i as int) * (TERM_LIMIT as int)) <= acc as int <= (i as int) * (TERM_LIMIT as int),
        decreases x@.len() - i,
    {
        proof {
            assert(xs[i as int] == x@[i as int] as int);
            assert(ys[i as int] == y@[i as int] as int);
            assert(-(TERM_LIMIT as int) <= xs[i as int] * ys[i as int] <= TERM_LIMIT as int)
                by (nonlinear_arith)
                requires
                    -(COMP_LIMIT as int) <= xs[i as int] <= COMP_LIMIT as int,
                    -(COMP_LIMIT as int) <= ys[i as int] <= COMP_LIMIT as int,
                    TERM_LIMIT as int == (COMP_LIMIT as int) * (COMP_LIMIT as int);
            assert((i as int + 1) * (TERM_LIMIT as int)
                == (i as int) * (TERM_LIMIT as int) + TERM_LIMIT as int) by (nonlinear_arith);
            assert((i as int) * (TERM_LIMIT as int) <= (DIM_LIMIT as int) * (TERM_LIMIT as int))
                by (nonlinear_arith)
                requires 0 <= i as int <= DIM_LIMIT as int;
        }
        let t: i128 = (x[i] as i128) * (y[i] as i128);
        acc = acc + t;
        i = i + 1;
    }
    proof {
        assert((i as int) * (TERM_LIMIT as int) <= (DIM_LIMIT as int) * (TERM_LIMIT as int))
            by (nonlinear_arith)
            requires 0 <= i as int <= DIM_LIMIT as int;
    }
    acc
}

/// Exact squared Euclidean distance of two bounded vectors.
pub fn squared_distance(x: &Vec<i64>, y: &Vec<i64>) -> (d: i128)
    requires
        x@.len() == y@.len(),
        x@.len() <= DIM_LIMIT,
        bounded_seq(int_seq(x@)),
        bounded_seq(int_seq(y@)),
    ensures
        d as int == euclid_int(int_seq(x@), int_seq(y@)),
        0 <= d as int <= (x@.len() as int) * (SQ_TERM_LIMIT as int),
{
    let ghost xs = int_seq(x@);
    let ghost ys = int_seq(y@);
    proof {
        lemma_sq_diff_bound(xs, ys, 0);
    }
    let mut acc: i128 = 0;
    let mut i: usize = 0;
    while i < x.len()
        invariant
            i <= x@.len(),
            x@.len() == y@.len(),
            x@.len() <= DIM_LIMIT,
            xs == int_seq(x@),
            ys == int_seq(y@),
            bounded_seq(xs),
            bounded_seq(ys),
            acc as int + sq_diff_from(xs, ys, i as int) == euclid_int(xs, ys),
            0 <= acc as int <= (i as int) * (SQ_TERM_LIMIT as int),
        decreases x@.len() - i,
    {
        proof {
            assert(xs[i as int] == x@[i as int] as int);
            assert(ys[i as int] == y@[i as int] as int);
            assert(0 <= (xs[i as int] - ys[i as int]) * (xs[i as int] - ys[i as int])
                <= SQ_TERM_LIMIT as int)
                by (nonlinear_arith)
                requires
                    -(COMP_LIMIT as int) <= xs[i as int] <= COMP_LIMIT as int,
                    -(COMP_LIMIT as int) <= ys[i as int] <= COMP_LIMIT as int,
                    SQ_TERM_LIMIT as int == 4 * ((COMP_LIMIT as int) * (COMP_LIMIT as int));
            assert((i as int + 1) * (SQ_TERM_LIMIT as int)
                == (i as int) * (SQ_TERM_LIMIT as int) + SQ_TERM_LIMIT as int)
                by (nonlinear_arith);
            assert((i as int) * (SQ_TERM_LIMIT as int) <= (DIM_LIMIT as int) * (SQ_TERM_LIMIT as int))
                by (nonlinear_arith)
                requires 0 <= i as int <= DIM_LIMIT as int;
        }
        let diff: i64 = x[i] - y[i];
        let t: i128 = (diff as i128) * (diff as i128);
        acc = acc + t;
        i = i + 1;
    }
    acc
}

/// A scoring strategy over two fixed-length vectors.  Lower distance always
/// means higher similarity, across all variants; top-k selection relies on
/// this uniform convention.
pub trait DistanceMetric: Sized {
    /// The mathematical distance this strategy computes.
    spec fn distance_spec(&self, x: Seq<int>, y: Seq<int>) -> int;

    /// Compute the distance between two vectors of equal dimension.
    fn distance(&self, x: &Vec<i64>, y: &Vec<i64>) -> (d: i128)
        requires
            x@.len() == y@.len(),
            x@.len() <= DIM_LIMIT,
            bounded_seq(int_seq(x@)),
            bounded_seq(int_seq(y@)),
        ensures
            d as int == self.distance_spec(int_seq(x@), int_seq(y@)),
    ;
}

/// The closed set of metric strategies a cache can be configured with,
/// dispatched by match to avoid indirect calls in the scoring loop.
#[derive(Clone, Copy, Debug, PartialEq, Eq, Structural)]
pub enum MetricKind {
    Cosine,
    Euclidean,
    DotProduct,
}

/// Distance under a configured metric kind.
pub open spec fn metric_dist(kind: MetricKind, x: Seq<int>, y: Seq<int>) -> int {
    match kind {
        MetricKind::Cosine => cosine_dist_int(x, y),
        MetricKind::Euclidean => euclid_int(x, y),
        MetricKind::DotProduct => -dot_int(x, y),
    }
}

/// Dispatches to the strategy selected at construction time.
pub fn metric_distance(kind: MetricKind, x: &Vec<i64>, y: &Vec<i64>) -> (d: i128)
    requires
        x@.len() == y@.len(),
        x@.len() <= DIM_LIMIT,
        bounded_seq(int_seq(x@)),
        bounded_seq(int_seq(y@)),
    ensures
        d as int == metric_dist(kind, int_seq(x@), int_seq(y@)),
{
    match kind {
        MetricKind::Cosine => crate::search::cosine_strategy::CosineProduct.distance(x, y),
        MetricKind::Euclidean => crate::search::euclidean_strategy::EuclideanProduct.distance(
            x,
            y,
        ),
        MetricKind::DotProduct => crate::search::dot_strategy::DotProduct.distance(x, y),
    }
}

/// Code point of `c` with an ASCII capital letter folded to lower case.
pub open spec fn lower_code(c: char) -> int {
    if 'A' <= c && c <= 'Z' {
        c as int + 32
    } else {
        c as int
    }
}

/// `name` equals `target` up to ASCII case folding of `name`; the names
/// the configuration recognizes are all lower case.
pub open spec fn matches_fold(name: Seq<char>, target: Seq<char>) -> bool {
    &&& name.len() == target.len()
    &&& forall|i: int| 0 <= i < name.len() ==> lower_code(name[i]) == #[trigger] target[i] as int
}

/// Compares a configured name against a recognized (lower-case) name,
/// folding ASCII capitals.
pub fn name_matches(name: &str, target: &str) -> (r: bool)
    ensures
        r == matches_fold(name@, target@),
{
    let n = name.unicode_len();
    if n != target.unicode_len() {
        return false;
    }
    let mut i: usize = 0;
    while i < n
        invariant
            i <= n,
            n == name@.len(),
            name@.len() == target@.len(),
            forall|j: int| 0 <= j < i ==> lower_code(name@[j]) == #[trigger] target@[j] as int,
        decreases n - i,
    {
        let cc: u32 = name.get_char(i) as u32;
        let tc: u32 = target.get_char(i) as u32;
        let folded: u32 = if cc >= 65 && cc <= 90 {
            cc + 32
        } else {
            cc
        };
        proof {
            assert(folded as int == lower_code(name@[i as int]));
        }
        if folded != tc {
            return false;
        }
        i = i + 1;
    }
    true
}

/// Resolves a configured metric name; an unrecognized name is a fatal
/// configuration error at construction, never a silent default.  Names are
/// matched without regard to ASCII letter case.
pub fn metric_from_name(name: &String) -> (r: Option<MetricKind>)
    ensures
        r == Some(MetricKind::Cosine) <==> matches_fold(name@, "cosine"@),
        r == Some(MetricKind::Euclidean) <==> matches_fold(name@, "euclidean"@),
        r == Some(MetricKind::DotProduct) <==> matches_fold(name@, "dot-product"@),
        r is None <==> (!matches_fold(name@, "cosine"@) && !matches_fold(name@, "euclidean"@)
            && !matches_fold(name@, "dot-product"@)),
{
    proof {
        reveal_strlit("cosine");
        reveal_strlit("euclidean");
        reveal_strlit("dot-product");
        assert("cosine"@.len() == 6);
        assert("euclidean"@.len() == 9);
        assert("dot-product"@.len() == 11);
    }
    if name_matches(name.as_str(), "cosine") {
        Some(MetricKind::Cosine)
    } else if name_matches(name.as_str(), "euclidean") {
        Some(MetricKind::Euclidean)
    } else if name_matches(name.as_str(), "dot-product") {
        Some(MetricKind::DotProduct)
    } else {
        None
    }
}

} // verus!
