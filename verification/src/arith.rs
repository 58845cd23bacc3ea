use vstd::prelude::*;
use vstd::arithmetic::div_mod::{
    lemma_div_is_ordered, lemma_div_pos_is_pos, lemma_fundamental_div_mod, lemma_div_nonincreasing,
    lemma_div_multiples_vanish,
};

verus! {

/// Largest magnitude a stored vector component can take.  Public inputs are
/// `i32`, so every component satisfies this bound by construction; centroid
/// components (means of stored components) satisfy it as well.
pub const COMP_LIMIT: i64 = 0x8000_0000;

/// Largest dimension the engine accepts.  With components bounded by
/// [`COMP_LIMIT`], this keeps every dot product, squared distance and
/// component sum representable in 128-bit accumulators.
pub const DIM_LIMIT: usize = 0x4000_0000;

/// The mathematical values of a sequence of `i64` components.
pub open spec fn int_seq(s: Seq<i64>) -> Seq<int> {
    s.map_values(|v: i64| v as int)
}

/// Every component has magnitude at most [`COMP_LIMIT`].
pub open spec fn bounded_seq(s: Seq<int>) -> bool {
    forall|j: int| 0 <= j < s.len() ==> -(COMP_LIMIT as int) <= #[trigger] s[j] <= COMP_LIMIT as int
}

/// Sum of a sequence of integers.
pub open spec fn sum_int(s: Seq<int>) -> int
    decreases s.len(),
{
    if s.len() == 0 {
        0
    } else {
        sum_int(s.drop_last()) + s.last()
    }
}

/// A sum is monotone in its elements.
pub proof fn lemma_sum_int_le(a: Seq<int>, b: Seq<int>)
    requires
        a.len() == b.len(),
        forall|i: int| 0 <= i < a.len() ==> #[trigger] a[i] <= b[i],
    ensures
        sum_int(a) <= sum_int(b),
    decreases a.len(),
{
    if a.len() > 0 {
        lemma_sum_int_le(a.drop_last(), b.drop_last());
    }
}

/// A sum of nonnegative terms is nonnegative.
pub proof fn lemma_sum_int_nonneg(s: Seq<int>)
    requires
        forall|k: int| 0 <= k < s.len() ==> #[trigger] s[k] >= 0,
    ensures
        sum_int(s) >= 0,
    decreases s.len(),
{
    if s.len() > 0 {
        assert(forall|k: int| 0 <= k < s.len() - 1 ==> s.drop_last()[k] == s[k]);
        lemma_sum_int_nonneg(s.drop_last());
    }
}

/// In a sum of nonnegative terms, every term is at most the sum.
pub proof fn lemma_sum_int_element_le(s: Seq<int>, i: int)
    requires
        0 <= i < s.len(),
        forall|k: int| 0 <= k < s.len() ==> #[trigger] s[k] >= 0,
    ensures
        s[i] <= sum_int(s),
    decreases s.len(),
{
    assert(forall|k: int| 0 <= k < s.len() - 1 ==> s.drop_last()[k] == s[k]);
    if i == s.len() - 1 {
        lemma_sum_int_nonneg(s.drop_last());
    } else {
        lemma_sum_int_element_le(s.drop_last(), i);
    }
}

/// A prefix sum of nonnegative terms never exceeds the whole sum.
pub proof fn lemma_sum_int_take_le(s: Seq<int>, i: int)
    requires
        0 <= i <= s.len(),
        forall|k: int| 0 <= k < s.len() ==> #[trigger] s[k] >= 0,
    ensures
        sum_int(s.take(i)) <= sum_int(s),
    decreases s.len() - i,
{
    if i == s.len() {
        assert(s.take(i) =~= s);
    } else {
        assert(s.take(i + 1).drop_last() =~= s.take(i));
        assert(s.take(i + 1).last() == s[i]);
        lemma_sum_int_take_le(s, i + 1);
    }
}

/// Replacing one element changes the sum by the difference.
pub proof fn lemma_sum_int_update(s: Seq<int>, i: int, v: int)
    requires
        0 <= i < s.len(),
    ensures
        sum_int(s.update(i, v)) == sum_int(s) - s[i] + v,
    decreases s.len(),
{
    if i == s.len() - 1 {
        assert(s.update(i, v).drop_last() =~= s.drop_last());
    } else {
        assert(s.update(i, v).drop_last() =~= s.drop_last().update(i, v));
        lemma_sum_int_update(s.drop_last(), i, v);
    }
}

/// A sum of elements bounded below by zero is itself bounded below by zero,
/// and bounded above by the count times an upper bound.
pub proof fn lemma_sum_int_bounds(s: Seq<int>, lo: int, hi: int)
    requires
        forall|i: int| 0 <= i < s.len() ==> lo <= #[trigger] s[i] <= hi,
    ensures
        s.len() * lo <= sum_int(s) <= s.len() * hi,
    decreases s.len(),
{
    if s.len() == 0 {
    } else {
        lemma_sum_int_bounds(s.drop_last(), lo, hi);
        assert((s.len() - 1) * lo + lo == s.len() * lo) by (nonlinear_arith);
        assert((s.len() - 1) * hi + hi == s.len() * hi) by (nonlinear_arith);
    }
}

/// Sum of a sequence of machine-sized counts.
pub open spec fn usize_sum(s: Seq<usize>) -> int {
    sum_int(s.map_values(|x: usize| x as int))
}

/// The capacity share of index `i` when `total` is split evenly over
/// `parts` slots: every slot gets the quotient, and the remainder is handed
/// to the first slots, one unit each.
pub open spec fn split_size_spec(total: int, parts: int, i: int) -> int {
    total / parts + if i < total % parts {
        1int
    } else {
        0int
    }
}

/// Splits a capacity budget evenly across `parts` slots, remainder first.
/// The shares add up to exactly `total`; the split is fixed at construction
/// time and never recomputed.
#[verifier::loop_isolation(false)]
pub fn split_sizes(total: usize, parts: usize) -> (r: Vec<usize>)
    requires
        parts >= 1,
    ensures
        r@.len() == parts,
        forall|i: int| 0 <= i < parts
            ==> #[trigger] r@[i] as int == split_size_spec(total as int, parts as int, i),
        usize_sum(r@) == total as int,
{
    let base: usize = total / parts;
    let rem: usize = total % parts;
    let mut r: Vec<usize> = Vec::new();
    let mut acc: usize = 0;
    let mut i: usize = 0;
    proof {
        lemma_fundamental_div_mod(total as int, parts as int);
    }
    while i < parts
        invariant
            i <= parts,
            r@.len() == i,
            forall|k: int| 0 <= k < i
                ==> #[trigger] r@[k] as int == split_size_spec(total as int, parts as int, k),
            acc as int == usize_sum(r@),
            acc as int == (i as int) * (base as int) + (if i as int <= rem as int {
                i as int
            } else {
                rem as int
            }),
            acc <= total,
        decreases parts - i,
    {
        let share: usize = if i < rem {
            proof {
                assert((rem as int) < (parts as int));
                vstd::arithmetic::div_mod::lemma_div_is_ordered_by_denominator(
                    total as int,
                    2,
                    parts as int,
                );
                lemma_div_is_ordered(total as int, usize::MAX as int, 2);
            }
            base + 1
        } else {
            base
        };
        proof {
            assert((i as int + 1) * (base as int) == (i as int) * (base as int) + base as int)
                by (nonlinear_arith);
            assert((i as int + 1) * (base as int) + (if i as int + 1 <= rem as int {
                i as int + 1
            } else {
                rem as int
            }) <= (parts as int) * (base as int) + rem as int) by (nonlinear_arith)
                requires
                    0 <= i as int + 1 <= parts as int,
                    0 <= base as int,
                    0 <= rem as int,
            ;
            assert(sum_int(r@.push(share).map_values(|x: usize| x as int))
                == sum_int(r@.map_values(|x: usize| x as int)) + share as int) by {
                assert(r@.push(share).map_values(|x: usize| x as int).drop_last() =~= r@.map_values(
                    |x: usize| x as int,
                ));
            }
        }
        r.push(share);
        acc = acc + share;
        i = i + 1;
    }
    proof {
        assert((parts as int) * (base as int) + rem as int == total as int);
    }
    r
}

/// Sum of the `j`-th components over a sequence of vectors.
pub open spec fn col_sum(vs: Seq<Seq<int>>, j: int) -> int
    decreases vs.len(),
{
    if vs.len() == 0 {
        0
    } else {
        col_sum(vs.drop_last(), j) + vs.last()[j]
    }
}

/// Component sums distribute over concatenation.
pub proof fn lemma_col_sum_concat(a: Seq<Seq<int>>, b: Seq<Seq<int>>, j: int)
    ensures
        col_sum(a + b, j) == col_sum(a, j) + col_sum(b, j),
    decreases b.len(),
{
    if b.len() == 0 {
        assert(a + b =~= a);
    } else {
        lemma_col_sum_concat(a, b.drop_last(), j);
        assert((a + b).drop_last() =~= a + b.drop_last());
        assert((a + b).last() == b.last());
    }
}

/// A component sum over bounded vectors is bounded by the count times the
/// component bound.
pub proof fn lemma_col_sum_bound(vs: Seq<Seq<int>>, j: int, b: int)
    requires
        b >= 0,
        forall|k: int| 0 <= k < vs.len() ==> -b <= #[trigger] vs[k][j] <= b,
    ensures
        -(vs.len() * b) <= col_sum(vs, j) <= vs.len() * b,
    decreases vs.len(),
{
    if vs.len() > 0 {
        assert(forall|k: int| 0 <= k < vs.len() - 1 ==> vs.drop_last()[k] == vs[k]);
        lemma_col_sum_bound(vs.drop_last(), j, b);
        assert((vs.len() - 1) * b + b == vs.len() * b) by (nonlinear_arith);
    }
}

/// Truncating signed division by a positive divisor: the quotient is rounded
/// toward zero, matching hardware integer division on signed values.
pub open spec fn div_trunc(a: int, b: int) -> int {
    if a >= 0 {
        a / b
    } else {
        -((-a) / b)
    }
}

/// `|div_trunc(a, b)| <= |a|` for positive divisors.
pub proof fn lemma_div_trunc_bound(a: int, b: int)
    requires
        b >= 1,
    ensures
        a >= 0 ==> 0 <= div_trunc(a, b) <= a,
        a < 0 ==> a <= div_trunc(a, b) <= 0,
{
    if a >= 0 {
        lemma_div_pos_is_pos(a, b);
        lemma_div_nonincreasing(a, b);
    } else {
        lemma_div_pos_is_pos(-a, b);
        lemma_div_nonincreasing(-a, b);
    }
}

/// The quotient of a mean never exceeds the bound of the summands: if
/// `|a| <= n * m` then `|div_trunc(a, n)| <= m`.
pub proof fn lemma_div_trunc_mean_bound(a: int, n: int, m: int)
    requires
        n >= 1,
        m >= 0,
        -(n * m) <= a <= n * m,
    ensures
        -m <= div_trunc(a, n) <= m,
{
    if a >= 0 {
        lemma_div_is_ordered(a, n * m, n);
        lemma_div_multiples_vanish(m, n);
        lemma_div_pos_is_pos(a, n);
    } else {
        lemma_div_is_ordered(-a, n * m, n);
        lemma_div_multiples_vanish(m, n);
        lemma_div_pos_is_pos(-a, n);
    }
}

/// Truncating division of an `i128` by a positive `u128`.
pub fn div_trunc_i128(a: i128, b: u128) -> (r: i128)
    requires
        1 <= b,
        a > i128::MIN,
    ensures
        r as int == div_trunc(a as int, b as int),
{
    proof {
        lemma_div_trunc_bound(a as int, b as int);
    }
    if a >= 0 {
        if b > a as u128 {
            proof {
                vstd::arithmetic::div_mod::lemma_basic_div(a as int, b as int);
            }
            0
        } else {
            ((a as u128) / b) as i128
        }
    } else {
        let m: u128 = (-a) as u128;
        let q: u128 = m / b;
        -(q as i128)
    }
}

/// Floor of the square root, defined by halving the argument's bits.
pub open spec fn isqrt_spec(n: nat) -> nat
    decreases n,
{
    if n == 0 {
        0
    } else {
        let r = 2 * isqrt_spec(n / 4);
        if (r + 1) * (r + 1) <= n {
            r + 1
        } else {
            r
        }
    }
}

/// [`isqrt_spec`] really is the floor of the square root.
pub proof fn lemma_isqrt_spec_bounds(n: nat)
    ensures
        isqrt_spec(n) * isqrt_spec(n) <= n,
        n < (isqrt_spec(n) + 1) * (isqrt_spec(n) + 1),
    decreases n,
{
    if n == 0 {
        assert(isqrt_spec(0) == 0);
        assert(isqrt_spec(n) * isqrt_spec(n) <= n) by (nonlinear_arith)
            requires n == 0, isqrt_spec(n) == 0;
        assert(n < (isqrt_spec(n) + 1) * (isqrt_spec(n) + 1)) by (nonlinear_arith)
            requires n == 0, isqrt_spec(n) == 0;
    } else {
        let m = n / 4;
        lemma_isqrt_spec_bounds(m);
        let s = isqrt_spec(m);
        let r = 2 * s;
        lemma_fundamental_div_mod(n as int, 4);
        assert(4 * m <= n < 4 * (m + 1));
        assert(r * r == 4 * (s * s)) by (nonlinear_arith)
            requires r == 2 * s;
        assert(4 * (s * s) <= 4 * m) by (nonlinear_arith)
            requires s * s <= m;
        assert((r + 2) * (r + 2) == 4 * ((s + 1) * (s + 1))) by (nonlinear_arith)
            requires r == 2 * s;
        assert(4 * (m + 1) <= 4 * ((s + 1) * (s + 1))) by (nonlinear_arith)
            requires m + 1 <= (s + 1) * (s + 1);
        assert(n < (r + 2) * (r + 2));
        assert(r * r <= n);
        if (r + 1) * (r + 1) <= n {
            assert(isqrt_spec(n) == r + 1);
            assert(isqrt_spec(n) * isqrt_spec(n) <= n) by (nonlinear_arith)
                requires isqrt_spec(n) == r + 1, (r + 1) * (r + 1) <= n;
            assert(n < (isqrt_spec(n) + 1) * (isqrt_spec(n) + 1)) by (nonlinear_arith)
                requires isqrt_spec(n) == r + 1, n < (r + 2) * (r + 2);
        } else {
            assert(isqrt_spec(n) == r);
            assert(isqrt_spec(n) * isqrt_spec(n) <= n) by (nonlinear_arith)
                requires isqrt_spec(n) == r, r * r <= n;
            assert(n < (isqrt_spec(n) + 1) * (isqrt_spec(n) + 1)) by (nonlinear_arith)
                requires isqrt_spec(n) == r, n < (r + 1) * (r + 1);
        }
    }
}

/// Any `r` with `r^2 <= n < (r+1)^2` equals [`isqrt_spec`]`(n)`.
pub proof fn lemma_isqrt_unique(n: nat, r: nat)
    requires
        r * r <= n,
        n < (r + 1) * (r + 1),
    ensures
        r == isqrt_spec(n),
{
    lemma_isqrt_spec_bounds(n);
    let s = isqrt_spec(n);
    if r < s {
        assert((r + 1) * (r + 1) <= s * s) by (nonlinear_arith)
            requires r + 1 <= s;
    } else if s < r {
        assert((s + 1) * (s + 1) <= r * r) by (nonlinear_arith)
            requires s + 1 <= r;
    }
}

/// Floor of the square root of a 96-bit value, by binary search.
pub fn isqrt_u128(n: u128) -> (r: u64)
    requires
        n < 0x1000000000000000000000000,
    ensures
        r as nat == isqrt_spec(n as nat),
        (r as nat) * (r as nat) <= n as nat,
        (n as nat) < ((r as nat) + 1) * ((r as nat) + 1),
{
    let mut lo: u64 = 0;
    let mut hi: u64 = 0x1000000000000;
    proof {
        assert((0x1000000000000 as int + 1) * (0x1000000000000 as int + 1)
            > 0x1000000000000000000000000) by (nonlinear_arith);
    }
    while lo < hi
        invariant
            lo <= hi <= 0x1000000000000,
            (lo as nat) * (lo as nat) <= n as nat,
            (n as nat) < ((hi as nat) + 1) * ((hi as nat) + 1),
        decreases hi - lo,
    {
        let mid: u64 = lo + (hi - lo + 1) / 2;
        proof {
            assert((mid as int) * (mid as int) <= 0x1000000000000000000000000) by (nonlinear_arith)
                requires mid as int <= 0x1000000000000;
        }
        let sq: u128 = (mid as u128) * (mid as u128);
        if sq <= n {
            lo = mid;
        } else {
            hi = mid - 1;
        }
    }
    proof {
        lemma_isqrt_unique(n as nat, lo as nat);
    }
    lo
}

/// The square root of a nonzero value is nonzero.
pub proof fn lemma_isqrt_pos(n: nat)
    requires
        n >= 1,
    ensures
        isqrt_spec(n) >= 1,
{
    lemma_isqrt_spec_bounds(n);
    if isqrt_spec(n) == 0 {
        assert((isqrt_spec(n) + 1) * (isqrt_spec(n) + 1) == 1) by (nonlinear_arith)
            requires isqrt_spec(n) == 0;
    }
}

} // verus!
