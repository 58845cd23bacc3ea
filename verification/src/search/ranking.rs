use vstd::prelude::*;
use vstd::multiset::Multiset;

verus! {

/// The query-result order: ascending by distance, ties broken by
/// ascending entry id, so results are deterministic.
pub open spec fn pair_le(a: (u64, i128), b: (u64, i128)) -> bool {
    a.1 < b.1 || (a.1 == b.1 && a.0 <= b.0)
}

/// The sequence is sorted under [`pair_le`].
pub open spec fn sorted_pairs(s: Seq<(u64, i128)>) -> bool {
    forall|i: int, j: int| 0 <= i < j < s.len() ==> pair_le(#[trigger] s[i], #[trigger] s[j])
}

/// Sorts scored pairs ascending by distance then id, by repeatedly moving
/// the least remaining pair; the output is a permutation of the input.
#[verifier::loop_isolation(false)]
pub fn sort_pairs(input: Vec<(u64, i128)>) -> (r: Vec<(u64, i128)>)
    ensures
        sorted_pairs(r@),
        r@.to_multiset() == input@.to_multiset(),
        r@.len() == input@.len(),
{
    broadcast use vstd::seq_lib::group_to_multiset_ensures;
    broadcast use vstd::multiset::group_multiset_axioms;

    let mut rest = input;
    let mut out: Vec<(u64, i128)> = Vec::new();
    proof {
        assert(out@.to_multiset().add(rest@.to_multiset()) =~= input@.to_multiset());
    }
    while rest.len() > 0
        invariant
            sorted_pairs(out@),
            forall|a: int, b: int| 0 <= a < out@.len() && 0 <= b < rest@.len() ==> pair_le(
                #[trigger] out@[a],
                #[trigger] rest@[b],
            ),
            out@.to_multiset().add(rest@.to_multiset()) == input@.to_multiset(),
            out@.len() + rest@.len() == input@.len(),
        decreases rest@.len(),
    {
        let mut m: usize = 0;
        let mut i: usize = 1;
        while i < rest.len()
            invariant
                m < i <= rest@.len(),
                rest@.len() > 0,
                forall|j: int| 0 <= j < i ==> pair_le(rest@[m as int], #[trigger] rest@[j]),
            decreases rest@.len() - i,
        {
            let better = rest[i].1 < rest[m].1 || (rest[i].1 == rest[m].1 && rest[i].0
                < rest[m].0);
            if better {
                m = i;
            }
            i = i + 1;
        }
        let ghost rest0 = rest@;
        let ghost out0 = out@;
        let x = rest.remove(m);
        out.push(x);
        proof {
            assert(rest@.to_multiset() == rest0.to_multiset().remove(x));
            assert(out@.to_multiset() == out0.to_multiset().insert(x));
            assert(rest0.to_multiset().count(x) > 0) by {
                assert(rest0.contains(x));
            }
            assert(out@.to_multiset().add(rest@.to_multiset()) =~= input@.to_multiset());
            assert(forall|b: int| 0 <= b < rest@.len() ==> (rest@[b] == rest0[b] || rest@[b]
                == rest0[b + 1]));
        }
    }
    proof {
        assert(rest@.to_multiset() =~= Multiset::<(u64, i128)>::empty());
        assert(out@.to_multiset() =~= input@.to_multiset());
    }
    out
}

/// The value occurs among the first `i` pairs.
pub open spec fn value_in_prefix(input: Seq<(u64, i128)>, i: int, v: (u64, i128)) -> bool {
    exists|j: int| 0 <= j < i && #[trigger] input[j] == v
}

/// Keeps the pairs whose distance is at or under the threshold; pairwise
/// distinct identifiers stay distinct.
#[verifier::loop_isolation(false)]
pub fn filter_pairs(input: &Vec<(u64, i128)>, threshold: i128) -> (r: Vec<(u64, i128)>)
    ensures
        r@.len() <= input@.len(),
        forall|k: int| 0 <= k < r@.len() ==> (#[trigger] r@[k]).1 <= threshold,
        forall|k: int| 0 <= k < r@.len() ==> input@.contains(#[trigger] r@[k]),
        distinct_ids(input@) ==> distinct_ids(r@),
{
    let mut out: Vec<(u64, i128)> = Vec::new();
    let mut i: usize = 0;
    while i < input.len()
        invariant
            i <= input@.len(),
            out@.len() <= i,
            forall|k: int| 0 <= k < out@.len() ==> (#[trigger] out@[k]).1 <= threshold,
            forall|k: int| 0 <= k < out@.len() ==> input@.contains(#[trigger] out@[k]),
            forall|k: int| 0 <= k < out@.len() ==> value_in_prefix(
                input@,
                i as int,
                #[trigger] out@[k],
            ),
            distinct_ids(input@) ==> distinct_ids(out@),
        decreases input@.len() - i,
    {
        if input[i].1 <= threshold {
            proof {
                assert(input@.contains(input@[i as int]));
                let out_prev = out@;
                assert forall|k: int| 0 <= k < out_prev.len() implies value_in_prefix(
                    input@,
                    i as int + 1,
                    #[trigger] out_prev[k],
                ) && (distinct_ids(input@) ==> out_prev[k].0 != input@[i as int].0) by {
                    assert(value_in_prefix(input@, i as int, out_prev[k]));
                    let j = choose|j: int| 0 <= j < i as int && #[trigger] input@[j]
                        == out_prev[k];
                    if distinct_ids(input@) {
                        assert(input@[j].0 != input@[i as int].0);
                    }
                }
                assert(value_in_prefix(input@, i as int + 1, input@[i as int]));
            }
            out.push(input[i]);
        } else {
            proof {
                assert forall|k: int| 0 <= k < out@.len() implies value_in_prefix(
                    input@,
                    i as int + 1,
                    #[trigger] out@[k],
                ) by {
                    let j = choose|j: int| 0 <= j < i as int && #[trigger] input@[j] == out@[k];
                }
            }
        }
        i = i + 1;
    }
    out
}

/// Keeps the first `k` pairs.
#[verifier::loop_isolation(false)]
pub fn take_first(input: Vec<(u64, i128)>, k: usize) -> (r: Vec<(u64, i128)>)
    ensures
        r@ == input@.take(if (k as int) <= input@.len() {
            k as int
        } else {
            input@.len() as int
        }),
{
    let mut out: Vec<(u64, i128)> = Vec::new();
    let mut i: usize = 0;
    while i < k && i < input.len()
        invariant
            i <= input@.len(),
            i <= k,
            out@ == input@.take(i as int),
        decreases input@.len() - i,
    {
        out.push(input[i]);
        proof {
            assert(input@.take(i as int + 1) =~= input@.take(i as int).push(input@[i as int]));
        }
        i = i + 1;
    }
    proof {
        assert(out@ =~= input@.take(if (k as int) <= input@.len() {
            k as int
        } else {
            input@.len() as int
        }));
    }
    out
}

/// No entry identifier appears twice among the pairs.
pub open spec fn distinct_ids(s: Seq<(u64, i128)>) -> bool {
    forall|k1: int, k2: int| 0 <= k1 < k2 < s.len() ==> (#[trigger] s[k1]).0 != (
    #[trigger] s[k2]).0
}

/// Two distinct positions holding the same value give that value a
/// multiplicity of at least two.
proof fn lemma_dup_positions_count(s: Seq<(u64, i128)>, k1: int, k2: int)
    requires
        0 <= k1 < k2 < s.len(),
        s[k1] == s[k2],
    ensures
        s.to_multiset().count(s[k1]) >= 2,
{
    broadcast use vstd::seq_lib::group_to_multiset_ensures;
    broadcast use vstd::multiset::group_multiset_axioms;

    let t = s.remove(k1);
    assert(t.to_multiset() == s.to_multiset().remove(s[k1]));
    assert(t[k2 - 1] == s[k2]);
    assert(t.contains(s[k1]));
    assert(t.to_multiset().count(s[k1]) > 0);
}

/// A multiplicity of at least two puts the value at two distinct
/// positions.
proof fn lemma_count_two_positions(s: Seq<(u64, i128)>, v: (u64, i128)) -> (r: (int, int))
    requires
        s.to_multiset().count(v) >= 2,
    ensures
        0 <= r.0 < r.1 < s.len(),
        s[r.0] == v,
        s[r.1] == v,
{
    broadcast use vstd::seq_lib::group_to_multiset_ensures;
    broadcast use vstd::multiset::group_multiset_axioms;

    assert(s.contains(v));
    let j1 = choose|j: int| 0 <= j < s.len() && s[j] == v;
    let t = s.remove(j1);
    assert(t.to_multiset() == s.to_multiset().remove(v));
    assert(t.to_multiset().count(v) >= 1);
    assert(t.contains(v));
    let j2 = choose|j: int| 0 <= j < t.len() && t[j] == v;
    if j2 < j1 {
        assert(s[j2] == t[j2]);
        (j2, j1)
    } else {
        assert(s[j2 + 1] == t[j2]);
        (j1, j2 + 1)
    }
}

/// A permutation of pairs with pairwise distinct identifiers again has
/// pairwise distinct identifiers.
pub proof fn lemma_permutation_keeps_distinct_ids(a: Seq<(u64, i128)>, b: Seq<(u64, i128)>)
    requires
        a.to_multiset() == b.to_multiset(),
        distinct_ids(a),
    ensures
        distinct_ids(b),
{
    broadcast use vstd::seq_lib::group_to_multiset_ensures;
    broadcast use vstd::multiset::group_multiset_axioms;

    assert forall|k1: int, k2: int| 0 <= k1 < k2 < b.len() implies (#[trigger] b[k1]).0 != (
    #[trigger] b[k2]).0 by {
        if b[k1].0 == b[k2].0 {
            if b[k1] == b[k2] {
                lemma_dup_positions_count(b, k1, k2);
                assert(a.to_multiset().count(b[k1]) >= 2);
                let (j1, j2) = lemma_count_two_positions(a, b[k1]);
                assert(a[j1].0 == a[j2].0);
            } else {
                assert(b.to_multiset().count(b[k1]) > 0) by {
                    assert(b.contains(b[k1]));
                }
                assert(b.to_multiset().count(b[k2]) > 0) by {
                    assert(b.contains(b[k2]));
                }
                assert(a.contains(b[k1]));
                assert(a.contains(b[k2]));
                let j1 = choose|j: int| 0 <= j < a.len() && a[j] == b[k1];
                let j2 = choose|j: int| 0 <= j < a.len() && a[j] == b[k2];
                assert(j1 != j2);
                assert(a[j1].0 == a[j2].0);
            }
        }
    }
}

} // verus!
