use vstd::prelude::*;
use crate::arith::{bounded_seq, int_seq, COMP_LIMIT, DIM_LIMIT};
use crate::utility::hashing_util::fnv1a64;
use vstd::arithmetic::div_mod::{
    lemma_div_is_ordered, lemma_div_pos_is_pos, lemma_multiply_divide_lt,
};

verus! {

/// The mathematical values of a sequence of `i32` components.
pub open spec fn int_seq32(s: Seq<i32>) -> Seq<int> {
    s.map_values(|v: i32| v as int)
}

/// Smallest element of a sequence (`0` when empty).
pub open spec fn seq_min(s: Seq<int>) -> int
    decreases s.len(),
{
    if s.len() == 0 {
        0
    } else if s.len() == 1 {
        s[0]
    } else {
        let m = seq_min(s.drop_last());
        if s.last() < m {
            s.last()
        } else {
            m
        }
    }
}

/// Largest element of a sequence (`0` when empty).
pub open spec fn seq_max(s: Seq<int>) -> int
    decreases s.len(),
{
    if s.len() == 0 {
        0
    } else if s.len() == 1 {
        s[0]
    } else {
        let m = seq_max(s.drop_last());
        if s.last() > m {
            s.last()
        } else {
            m
        }
    }
}

/// Every element lies between the minimum and the maximum.
pub proof fn lemma_min_max_span(s: Seq<int>)
    requires
        s.len() >= 1,
    ensures
        forall|j: int| 0 <= j < s.len() ==> seq_min(s) <= #[trigger] s[j] <= seq_max(s),
    decreases s.len(),
{
    if s.len() > 1 {
        lemma_min_max_span(s.drop_last());
        assert(forall|j: int| 0 <= j < s.len() - 1 ==> s.drop_last()[j] == s[j]);
    }
}

/// The extremes are themselves bounded by any bound on the elements.
pub proof fn lemma_min_max_bounded(s: Seq<int>, b: int)
    requires
        s.len() >= 1,
        forall|j: int| 0 <= j < s.len() ==> -b <= #[trigger] s[j] <= b,
    ensures
        -b <= seq_min(s) <= b,
        -b <= seq_max(s) <= b,
        seq_min(s) <= seq_max(s),
    decreases s.len(),
{
    if s.len() > 1 {
        lemma_min_max_bounded(s.drop_last(), b);
        assert(forall|j: int| 0 <= j < s.len() - 1 ==> s.drop_last()[j] == s[j]);
    }
}

/// One quantized component: the linear map of `x` from `[mn, mn + range]`
/// onto `[0, levels - 1]`, rounded half up; a degenerate range maps to `0`.
pub open spec fn quantize_val(x: int, mn: int, range: int, levels: int) -> int {
    if range <= 0 {
        0
    } else {
        ((x - mn) * (2 * (levels - 1)) + range) / (2 * range)
    }
}

/// The quantized image of a whole vector under its own min-max range.
pub open spec fn quantize_seq(v: Seq<int>, levels: int) -> Seq<int> {
    Seq::new(v.len(), |j: int| quantize_val(v[j], seq_min(v), seq_max(v) - seq_min(v), levels))
}

/// The quantized image packed into bytes, as stored in the dedup map.
pub open spec fn quantize_bytes(v: Seq<int>, levels: int) -> Seq<u8> {
    quantize_seq(v, levels).map_values(|q: int| q as u8)
}

/// The near-duplicate fingerprint of a raw vector: the FNV-1a hash of its
/// quantized bytes.
pub open spec fn fp_of(v: Seq<int>, levels: int) -> u64 {
    fnv1a64(quantize_bytes(v, levels))
}

/// A quantized component always lands in `[0, levels - 1]`.
pub proof fn lemma_quantize_val_range(x: int, mn: int, range: int, levels: int)
    requires
        2 <= levels,
        0 <= range,
        0 <= x - mn <= range,
    ensures
        0 <= quantize_val(x, mn, range, levels) < levels,
{
    if range > 0 {
        let num = (x - mn) * (2 * (levels - 1)) + range;
        assert(0 <= (x - mn) * (2 * (levels - 1))) by (nonlinear_arith)
            requires 0 <= x - mn, 2 <= levels;
        lemma_div_pos_is_pos(num, 2 * range);
        assert((x - mn) * (2 * (levels - 1)) <= range * (2 * (levels - 1))) by (nonlinear_arith)
            requires 0 <= x - mn <= range, 2 <= levels;
        assert(range * (2 * (levels - 1)) + range < (2 * range) * levels) by (nonlinear_arith)
            requires 2 <= levels, 0 < range;
        assert(num < (2 * range) * levels);
        lemma_multiply_divide_lt(num, 2 * range, levels);
    }
}

/// Per-vector min-max scalar quantization: each component is mapped
/// linearly from the vector's own `[min, max]` range onto `[0, levels - 1]`
/// and rounded to the nearest level (halves round up).  A constant vector
/// has a degenerate range and quantizes to all zeros.  Because the range is
/// taken from the vector itself, scalar multiples of one shape can quantize
/// identically; that is an accepted source of near-duplicate matches.
pub fn scalar_quantize(vector: &Vec<i64>, levels: u16) -> (r: Vec<u8>)
    requires
        2 <= levels <= 256,
        bounded_seq(int_seq(vector@)),
    ensures
        r@.len() == vector@.len(),
        forall|j: int| 0 <= j < r@.len()
            ==> #[trigger] r@[j] == quantize_bytes(int_seq(vector@), levels as int)[j],
{
    let ghost vi = int_seq(vector@);
    if vector.len() == 0 {
        Vec::new()
    } else {
        let mut mn: i64 = vector[0];
        let mut mx: i64 = vector[0];
        let mut i: usize = 1;
        while i < vector.len()
            invariant
                1 <= i <= vector@.len(),
                vi == int_seq(vector@),
                vi.len() == vector@.len(),
                forall|j: int| 0 <= j < vi.len() ==> vi[j] == vector@[j] as int,
                mn as int == seq_min(vi.take(i as int)),
                mx as int == seq_max(vi.take(i as int)),
            decreases vector@.len() - i,
        {
            let c = vector[i];
            proof {
                assert(vi.take(i as int + 1).drop_last() =~= vi.take(i as int));
                assert(vi.take(i as int + 1).last() == vi[i as int]);
            }
            if c < mn {
                mn = c;
            }
            if c > mx {
                mx = c;
            }
            i = i + 1;
        }
        proof {
            assert(vi.take(vi.len() as int) =~= vi);
            lemma_min_max_bounded(vi, COMP_LIMIT as int);
        }
        let range: i64 = mx - mn;
        let mut out: Vec<u8> = Vec::new();
        let mut k: usize = 0;
        while k < vector.len()
            invariant
                k <= vector@.len(),
                vi == int_seq(vector@),
                vi.len() == vector@.len(),
                forall|j: int| 0 <= j < vi.len() ==> vi[j] == vector@[j] as int,
                mn as int == seq_min(vi),
                mx as int == seq_max(vi),
                -(COMP_LIMIT as int) <= mn as int <= COMP_LIMIT as int,
                -(COMP_LIMIT as int) <= mx as int <= COMP_LIMIT as int,
                range as int == seq_max(vi) - seq_min(vi),
                range >= 0,
                2 <= levels <= 256,
                out@.len() == k,
                forall|j: int| 0 <= j < k
                    ==> #[trigger] out@[j] == quantize_bytes(vi, levels as int)[j],
            decreases vector@.len() - k,
        {
            proof {
                lemma_min_max_span(vi);
            }
            let q: u8 = if range == 0 {
                0u8
            } else {
                let x = vector[k];
                proof {
                    assert(vi[k as int] == x as int);
                    assert(-(COMP_LIMIT as int) <= vi[k as int] <= COMP_LIMIT as int);
                    assert(seq_min(vi) <= vi[k as int] <= seq_max(vi));
                    lemma_quantize_val_range(
                        x as int,
                        mn as int,
                        range as int,
                        levels as int,
                    );
                }
                let diff: u64 = (x - mn) as u64;
                proof {
                    assert(diff as int == x as int - mn as int);
                    assert(diff as int <= 0x1_0000_0000);
                    assert((diff as int) * (2 * ((levels as int) - 1)) <= 0x1_0000_0000 * 510)
                        by (nonlinear_arith)
                        requires 0 <= diff as int <= 0x1_0000_0000, 2 <= levels as int <= 256;
                }
                let num: u64 = diff * (2 * ((levels - 1) as u64)) + range as u64;
                let den: u64 = 2 * (range as u64);
                let qq: u64 = num / den;
                proof {
                    assert(qq as int == quantize_val(
                        x as int,
                        mn as int,
                        range as int,
                        levels as int,
                    ));
                }
                qq as u8
            };
            out.push(q);
            k = k + 1;
        }
        out
    }
}

/// The widened `i64` image of a sequence of `i32` components.
pub open spec fn widen_seq(s: Seq<i32>) -> Seq<i64> {
    s.map_values(|v: i32| v as i64)
}

/// Widens boundary `i32` components into the engine's `i64` working form;
/// the result is bounded by [`COMP_LIMIT`] by construction.
pub fn widen_vector(v: &Vec<i32>) -> (r: Vec<i64>)
    ensures
        r@.len() == v@.len(),
        r@ == widen_seq(v@),
        int_seq(r@) == int_seq32(v@),
        bounded_seq(int_seq(r@)),
{
    let mut out: Vec<i64> = Vec::new();
    let mut i: usize = 0;
    while i < v.len()
        invariant
            i <= v@.len(),
            out@.len() == i,
            forall|j: int| 0 <= j < i ==> #[trigger] out@[j] as int == v@[j] as int,
        decreases v@.len() - i,
    {
        out.push(v[i] as i64);
        i = i + 1;
    }
    proof {
        assert(out@ =~= widen_seq(v@));
        assert(int_seq(out@) =~= int_seq32(v@));
    }
    out
}

/// Exact bit-for-bit comparison of two raw vectors, the complementary
/// check to the lossy fingerprint match.
pub fn vec_i64_eq(a: &Vec<i64>, b: &Vec<i64>) -> (r: bool)
    ensures
        r <==> int_seq(a@) =~= int_seq(b@),
{
    if a.len() != b.len() {
        proof {
            assert(int_seq(a@).len() != int_seq(b@).len());
        }
        false
    } else {
        let mut i: usize = 0;
        let mut same: bool = true;
        while i < a.len()
            invariant
                i <= a@.len(),
                a@.len() == b@.len(),
                same <==> (forall|j: int| 0 <= j < i ==> int_seq(a@)[j] == int_seq(b@)[j]),
            decreases a@.len() - i,
        {
            if a[i] != b[i] {
                proof {
                    assert(int_seq(a@)[i as int] != int_seq(b@)[i as int]);
                }
                same = false;
            }
            i = i + 1;
        }
        same
    }
}

/// Exact comparison of two quantized byte vectors.
pub fn vec_u8_eq(a: &Vec<u8>, b: &Vec<u8>) -> (r: bool)
    ensures
        r <==> a@ =~= b@,
{
    if a.len() != b.len() {
        false
    } else {
        let mut i: usize = 0;
        let mut same: bool = true;
        while i < a.len()
            invariant
                i <= a@.len(),
                a@.len() == b@.len(),
                same <==> (forall|j: int| 0 <= j < i ==> a@[j] == b@[j]),
            decreases a@.len() - i,
        {
            if a[i] != b[i] {
                same = false;
            }
            i = i + 1;
        }
        same
    }
}

} // verus!
