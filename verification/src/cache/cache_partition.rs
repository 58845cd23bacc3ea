use vstd::prelude::*;
use std::collections::HashMap;
use crate::arith::{
    bounded_seq, col_sum, int_seq, lemma_col_sum_bound, lemma_col_sum_concat,
    lemma_sum_int_element_le, lemma_sum_int_le, lemma_sum_int_take_le, lemma_sum_int_update,
    split_size_spec, split_sizes, sum_int, COMP_LIMIT, DIM_LIMIT,
};
use crate::cache::cache_shard::CacheShard;
use crate::errors::InsertError;
use crate::search::distance_metric::{metric_dist, metric_distance, MetricKind};
use crate::search::ranking::{distinct_ids, lemma_permutation_keeps_distinct_ids, sort_pairs, sorted_pairs};
use crate::utility::hashing_util::{fingerprint, hash_u64_spec};
use crate::utility::vector_utils::{fp_of, quantize_bytes, scalar_quantize, vec_u8_eq};
use crate::vector::vector_entry::VectorEntry;

verus! {

/// A coarse cluster of the vector space: a fixed set of shards, a dedup map
/// from fingerprints to quantized representations, and a centroid that is
/// recomputed only by explicit rebuilds.
pub struct CachePartition {
    /// Identifier of the partition within its cache.
    pub partition_id: u64,
    /// Maximum number of entries the partition can hold, fixed at
    /// construction by the cache-level capacity split.
    pub max_entries: usize,
    /// Current number of entries over all shards.
    pub entry_count: usize,
    /// Dimension of every vector stored here.
    pub dimension: usize,
    /// Quantization granularity used for near-duplicate fingerprints.
    pub quantization_levels: u16,
    /// Component-wise mean of the stored vectors as of the last rebuild;
    /// `None` until a rebuild has seen this partition hold entries.
    pub centroid: Option<Vec<i64>>,
    /// Fingerprint-to-quantized-bytes map used for near-duplicate
    /// detection.  Best effort: quantization is lossy, so two distinct
    /// vectors may legitimately share a fingerprint.
    pub id_map: HashMap<u64, Vec<u8>>,
    /// The shards that hold the partition's entries.
    pub shards: Vec<CacheShard>,
}

/// The vectors of every shard in storage order, shard by shard.
pub open spec fn shards_vectors(shards: Seq<CacheShard>) -> Seq<Seq<int>>
    decreases shards.len(),
{
    if shards.len() == 0 {
        Seq::empty()
    } else {
        shards_vectors(shards.drop_last()) + shards.last().vectors()
    }
}

/// Index of the first entry whose quantized image equals `stored`,
/// starting the scan at `i`; `-1` when none matches.
pub open spec fn first_quant_match(
    entries: Seq<VectorEntry>,
    stored: Seq<u8>,
    levels: int,
    i: int,
) -> int
    decreases entries.len() - i,
{
    if i < 0 || i >= entries.len() {
        -1
    } else if quantize_bytes(int_seq(entries[i].vector@), levels) == stored {
        i
    } else {
        first_quant_match(entries, stored, levels, i + 1)
    }
}

impl CachePartition {
    /// Entry counts per shard.
    pub open spec fn shard_counts(&self) -> Seq<int> {
        self.shards@.map_values(|s: CacheShard| s.entry_count as int)
    }

    /// Capacities per shard.
    pub open spec fn shard_caps(&self) -> Seq<int> {
        self.shards@.map_values(|s: CacheShard| s.max_entries as int)
    }

    /// Well-formedness: shards exist and are well formed, the partition
    /// count mirrors the shard counts, the shard capacities add up to the
    /// partition capacity, and the cached centroid (if any) has the right
    /// shape.
    pub open spec fn wf(&self) -> bool {
        &&& 1 <= self.shards@.len()
        &&& self.dimension <= DIM_LIMIT
        &&& 2 <= self.quantization_levels <= 256
        &&& self.entry_count as int == sum_int(self.shard_counts())
        &&& sum_int(self.shard_caps()) == self.max_entries as int
        &&& forall|i: int| 0 <= i < self.shards@.len()
            ==> (#[trigger] self.shards@[i]).wf(self.dimension as nat)
        &&& match self.centroid {
            Some(c) => c@.len() == self.dimension && bounded_seq(int_seq(c@)),
            None => true,
        }
    }

    /// The fingerprint the partition derives from a vector.
    pub open spec fn insert_fp(&self, v: Seq<int>) -> u64 {
        fp_of(v, self.quantization_levels as int)
    }

    /// The quantized bytes the partition derives from a vector.
    pub open spec fn insert_qb(&self, v: Seq<int>) -> Seq<u8> {
        quantize_bytes(v, self.quantization_levels as int)
    }

    /// The shard an insert of `v` is routed to, chosen deterministically
    /// from the fingerprint so that repeated attempts for the same content
    /// route consistently.
    pub open spec fn target_shard(&self, v: Seq<int>) -> int {
        self.insert_fp(v) as int % self.shards@.len() as int
    }

    /// `v` would be rejected as a duplicate: its fingerprint is mapped and
    /// the mapped quantized bytes equal the bytes of `v`.
    pub open spec fn is_duplicate(&self, v: Seq<int>) -> bool {
        &&& self.id_map@.contains_key(self.insert_fp(v))
        &&& self.id_map@[self.insert_fp(v)]@ == self.insert_qb(v)
    }

    /// Creates a partition without shards; `initiate_shards` must follow
    /// before the partition is used (shards are created exactly once, at
    /// cache construction).
    pub fn new(
        partition_id: u64,
        max_entries: usize,
        dimension: usize,
        quantization_levels: u16,
    ) -> (r: Self)
        ensures
            r.partition_id == partition_id,
            r.max_entries == max_entries,
            r.dimension == dimension,
            r.quantization_levels == quantization_levels,
            r.entry_count == 0,
            r.centroid is None,
            r.id_map@ == Map::<u64, Vec<u8>>::empty(),
            r.shards@.len() == 0,
    {
        CachePartition {
            partition_id,
            max_entries,
            entry_count: 0,
            dimension,
            quantization_levels,
            centroid: None,
            id_map: HashMap::new(),
            shards: Vec::new(),
        }
    }

    /// The partition cannot take another entry.
    pub fn is_full(&self) -> (r: bool)
        ensures
            r == (self.entry_count >= self.max_entries),
    {
        self.entry_count >= self.max_entries
    }

    /// Current size and capacity, for metrics snapshots.
    pub fn metrics(&self) -> (r: (usize, usize))
        ensures
            r.0 == self.entry_count,
            r.1 == self.max_entries,
    {
        (self.entry_count, self.max_entries)
    }

    /// Splits the partition's capacity over `shard_count` shards with the
    /// even-split-with-remainder rule and constructs the shards.  Valid
    /// exactly once, on a freshly constructed partition; aggregation later
    /// requires the shards to exist (not the partition to hold entries).
    #[verifier::loop_isolation(false)]
    pub fn initiate_shards(&mut self, total_size: usize, shard_count: usize)
        requires
            old(self).shards@.len() == 0,
            old(self).entry_count == 0,
            1 <= shard_count,
        ensures
            final(self).partition_id == old(self).partition_id,
            final(self).max_entries == old(self).max_entries,
            final(self).dimension == old(self).dimension,
            final(self).quantization_levels == old(self).quantization_levels,
            final(self).entry_count == 0,
            final(self).centroid == old(self).centroid,
            final(self).id_map@ == old(self).id_map@,
            final(self).shards@.len() == shard_count,
            forall|i: int| 0 <= i < shard_count ==> {
                &&& (#[trigger] final(self).shards@[i]).shard_id == i as u64
                &&& final(self).shards@[i].entry_count == 0
                &&& final(self).shards@[i].entries@.len() == 0
                &&& final(self).shards@[i].max_entries as int == split_size_spec(
                    total_size as int,
                    shard_count as int,
                    i,
                )
            },
            sum_int(final(self).shard_caps()) == total_size as int,
            sum_int(final(self).shard_counts()) == 0,
    {
        let sizes = split_sizes(total_size, shard_count);
        let mut i: usize = 0;
        while i < shard_count
            invariant
                i <= shard_count,
                self.shards@.len() == i,
                self.partition_id == old(self).partition_id,
                self.max_entries == old(self).max_entries,
                self.dimension == old(self).dimension,
                self.quantization_levels == old(self).quantization_levels,
                self.entry_count == 0,
                self.centroid == old(self).centroid,
                self.id_map@ == old(self).id_map@,
                forall|k: int| 0 <= k < i ==> {
                    &&& (#[trigger] self.shards@[k]).shard_id == k as u64
                    &&& self.shards@[k].entry_count == 0
                    &&& self.shards@[k].entries@.len() == 0
                    &&& self.shards@[k].max_entries == sizes@[k]
                },
                sum_int(self.shard_caps()) == usize_sum_prefix(sizes@, i as int),
                sum_int(self.shard_counts()) == 0,
            decreases shard_count - i,
        {
            let shard = CacheShard::new(i as u64, sizes[i]);
            proof {
                let caps0 = self.shard_caps();
                let cnts0 = self.shard_counts();
                assert(self.shards@.push(shard).map_values(|s: CacheShard| s.max_entries as int)
                    .drop_last() =~= caps0);
                assert(self.shards@.push(shard).map_values(|s: CacheShard| s.entry_count as int)
                    .drop_last() =~= cnts0);
                assert(sizes@.take(i as int + 1).map_values(|x: usize| x as int).drop_last()
                    =~= sizes@.take(i as int).map_values(|x: usize| x as int));
            }
            self.shards.push(shard);
            i = i + 1;
        }
        proof {
            assert(sizes@.take(sizes@.len() as int) =~= sizes@);
        }
    }

    /// Inserts a vector: reject when at capacity, quantize and fingerprint,
    /// evict-and-replace any stale mapping on fingerprint collision or
    /// overwrite, then route to the fingerprint's shard.  Every outcome is
    /// pinned by [`insert_attempt_post`].
    #[verifier::rlimit(100)]
    pub fn insert(&mut self, vector: &Vec<i64>, overwrite: bool, id: u64) -> (r: Result<
        bool,
        InsertError,
    >)
        requires
            old(self).wf(),
            vector@.len() == old(self).dimension,
            bounded_seq(int_seq(vector@)),
        ensures
            final(self).wf(),
            old(self).entry_count >= old(self).max_entries ==> r == Err::<bool, InsertError>(
                InsertError::CapacityExceeded,
            ) && *final(self) == *old(self),
            (old(self).entry_count < old(self).max_entries && !overwrite && old(self).is_duplicate(
                int_seq(vector@),
            )) ==> r == Err::<bool, InsertError>(InsertError::DuplicateEntry) && *final(self)
                == *old(self),
            (old(self).entry_count < old(self).max_entries && !(!overwrite && old(
                self,
            ).is_duplicate(int_seq(vector@)))) ==> insert_attempt_post(
                *old(self),
                *final(self),
                vector@,
                overwrite,
                id,
                r,
            ),
    {
        let ghost pre = *self;
        let ghost v = int_seq(vector@);
        if self.entry_count >= self.max_entries {
            return Err(InsertError::CapacityExceeded);
        }
        let levels = self.quantization_levels;
        let dim = self.dimension;
        let q = scalar_quantize(vector, levels);
        proof {
            assert(q@ =~= pre.insert_qb(v));
        }
        let fp = fingerprint(&q);
        let shard_total = self.shards.len();
        let t = (fp % (shard_total as u64)) as usize;
        proof {
            assert(t as int == pre.target_shard(v));
            assert(t < shard_total);
        }
        let mut removed = false;
        let contains = self.id_map.contains_key(&fp);
        if contains {
            let stored = clone_bytes(self.id_map.get(&fp).unwrap());
            let dup = vec_u8_eq(&stored, &q);
            if !overwrite && dup {
                proof {
                    assert(pre.is_duplicate(v));
                }
                return Err(InsertError::DuplicateEntry);
            }
            self.id_map.remove(&fp);
            proof {
                assert(self.shards@[t as int].wf(dim as nat));
                let counts = pre.shard_counts();
                assert(forall|k: int| 0 <= k < counts.len() ==> #[trigger] counts[k] >= 0);
                lemma_sum_int_element_le(counts, t as int);
            }
            removed = remove_quantized_match(&mut self.shards[t], &stored, levels, dim);
            if removed {
                self.entry_count = self.entry_count - 1;
                proof {
                    let counts = pre.shard_counts();
                    lemma_sum_int_update(counts, t as int, counts[t as int] - 1);
                    assert(self.shard_counts() =~= counts.update(t as int, counts[t as int] - 1));
                    assert(self.shard_caps() =~= pre.shard_caps());
                }
            } else {
                proof {
                    assert(self.shard_counts() =~= pre.shard_counts());
                    assert(self.shard_caps() =~= pre.shard_caps());
                }
            }
        }
        let ghost mid = *self;
        proof {
            assert(mid.entry_count as int == sum_int(mid.shard_counts()));
            assert(mid.shards@[t as int].wf(dim as nat));
        }
        let ok = (&mut self.shards[t]).insert(vector, overwrite, id);
        proof {
            let counts = mid.shard_counts();
            if ok {
                lemma_sum_int_update(counts, t as int, counts[t as int] + 1);
                assert(self.shard_counts() =~= counts.update(t as int, counts[t as int] + 1));
            } else {
                assert(self.shard_counts() =~= counts);
            }
            assert(self.shard_caps() =~= mid.shard_caps());
        }
        if ok {
            self.id_map.insert(fp, q);
            self.entry_count = self.entry_count + 1;
            proof {
                let counts = mid.shard_counts();
                assert(forall|k: int| 0 <= k < counts.len() ==> #[trigger] counts[k] >= 0);
                lemma_sum_int_element_le(mid.shard_caps(), t as int);
                lemma_shard_counts_le_caps(*self);
                assert(insert_attempt_post(
                    pre,
                    *self,
                    vector@,
                    overwrite,
                    id,
                    Ok::<bool, InsertError>(true),
                ));
            }
            Ok(true)
        } else {
            let shard_is_full = (&self.shards[t]).is_full();
            if shard_is_full {
                proof {
                    assert(insert_attempt_post(
                        pre,
                        *self,
                        vector@,
                        overwrite,
                        id,
                        Err::<bool, InsertError>(InsertError::CapacityExceeded),
                    ));
                }
                Err(InsertError::CapacityExceeded)
            } else {
                proof {
                    let s_mid = mid.shards@[t as int];
                    assert(!overwrite && s_mid.has_vector(v));
                    let w = choose|k: int|
                        0 <= k < s_mid.entries@.len() && int_seq(
                            #[trigger] s_mid.entries@[k].vector@,
                        ) == v;
                    assert(0 <= w < s_mid.entries@.len() && int_seq(s_mid.entries@[w].vector@)
                        == v);
                    let fpx = pre.insert_fp(v);
                    let qbx = pre.insert_qb(v);
                    let tt = pre.target_shard(v);
                    let replace = pre.id_map@.contains_key(fpx);
                    let storedx = if replace {
                        pre.id_map@[fpx]@
                    } else {
                        qbx
                    };
                    let s0 = pre.shards@[tt];
                    let idx = if replace {
                        first_quant_match(s0.entries@, storedx, pre.quantization_levels as int, 0)
                    } else {
                        -1int
                    };
                    let removedx = replace && idx >= 0;
                    let entries_mid = if removedx {
                        s0.entries@.remove(idx)
                    } else {
                        s0.entries@
                    };
                    assert(tt == t as int);
                    assert(removedx == removed);
                    assert(s_mid.entries@ == entries_mid);
                    assert(self.shards@[tt].entries@ == entries_mid);
                    assert(!(entries_mid.len() >= s0.max_entries));
                    assert(0 <= w < entries_mid.len() && int_seq(entries_mid[w].vector@) == v);
                    assert(entries_have_vector(entries_mid, v));
                    assert(self.id_map@ == if replace {
                        pre.id_map@.remove(fpx)
                    } else {
                        pre.id_map@
                    });
                    assert(self.entry_count as int == if removedx {
                        pre.entry_count - 1
                    } else {
                        pre.entry_count as int
                    });
                    assert(forall|u: int|
                        0 <= u < pre.shards@.len() && u != tt ==> self.shards@[u]
                            == pre.shards@[u]);
                    assert(self.shards@[tt].shard_id == s0.shard_id);
                    assert(self.shards@[tt].max_entries == s0.max_entries);
                    assert(insert_attempt_post(
                        pre,
                        *self,
                        vector@,
                        overwrite,
                        id,
                        Err::<bool, InsertError>(InsertError::DuplicateEntry),
                    ));
                }
                Err(InsertError::DuplicateEntry)
            }
        }
    }

    /// Aggregates the shard partial sums into the partition centroid: the
    /// summed vectors divided component-wise by the total count, or `None`
    /// when the partition holds no entries.  Valid whenever the shards have
    /// been initialized, whether or not any holds entries; empty shards
    /// simply contribute nothing.
    #[verifier::loop_isolation(false)]
    #[verifier::rlimit(50)]
    pub fn update_centroid(&mut self)
        requires
            old(self).wf(),
        ensures
            final(self).wf(),
            rebuilt_rel(*old(self), *final(self)),
    {
        let dim = self.dimension;
        let ghost shs = self.shards@;
        let ghost counts = self.shard_counts();
        let mut sums: Vec<i128> = Vec::new();
        let mut j0: usize = 0;
        while j0 < dim
            invariant
                j0 <= dim,
                sums@.len() == j0,
                forall|j: int| 0 <= j < j0 ==> #[trigger] sums@[j] as int == 0,
            decreases dim - j0,
        {
            sums.push(0);
            j0 = j0 + 1;
        }
        let mut total: usize = 0;
        let mut si: usize = 0;
        proof {
            assert(forall|k: int| 0 <= k < counts.len() ==> #[trigger] counts[k] >= 0);
            assert(shs.take(0) =~= Seq::<CacheShard>::empty());
            assert(counts.take(0) =~= Seq::<int>::empty());
        }
        while si < self.shards.len()
            invariant
                si <= shs.len(),
                sums@.len() == dim,
                total as int == sum_int(counts.take(si as int)),
                forall|j: int| 0 <= j < dim ==> #[trigger] sums@[j] as int == col_sum(
                    shards_vectors(shs.take(si as int)),
                    j,
                ),
                forall|j: int| 0 <= j < dim ==> -((total as int) * (COMP_LIMIT as int))
                    <= #[trigger] sums@[j] as int <= (total as int) * (COMP_LIMIT as int),
            decreases shs.len() - si,
        {
            proof {
                lemma_sum_int_take_le(counts, si as int + 1);
                assert(counts.take(si as int + 1).drop_last() =~= counts.take(si as int));
                assert(counts.take(si as int + 1).last() == counts[si as int]);
                assert(shs.take(si as int + 1).drop_last() =~= shs.take(si as int));
                assert(shs.take(si as int + 1).last() == shs[si as int]);
            }
            let part = self.shards[si].get_shard_centroid(dim);
            match part {
                None => {
                    proof {
                        let prev = shards_vectors(shs.take(si as int));
                        let cur = shs[si as int].vectors();
                        assert(cur.len() == 0);
                        assert(shards_vectors(shs.take(si as int + 1)) == prev + cur);
                        assert(forall|j: int| 0 <= j < dim ==> col_sum(prev + cur, j) == col_sum(
                            prev,
                            j,
                        ) + col_sum(cur, j)) by {
                            assert forall|j: int| 0 <= j < dim implies col_sum(prev + cur, j)
                                == col_sum(prev, j) + col_sum(cur, j) by {
                                lemma_col_sum_concat(prev, cur, j);
                            }
                        }
                    }
                }
                Some(ps) => {
                    let (partial, cnt) = ps;
                    proof {
                        let s = shs[si as int];
                        let vs = s.vectors();
                        assert(s.wf(dim as nat));
                        assert forall|j: int| 0 <= j < dim implies -((cnt as int) * (
                        COMP_LIMIT as int)) <= #[trigger] partial@[j] as int <= (cnt as int) * (
                        COMP_LIMIT as int) by {
                            assert forall|k: int| 0 <= k < vs.len() implies -(COMP_LIMIT as int)
                                <= #[trigger] vs[k][j] <= COMP_LIMIT as int by {
                                assert(s.entries@[k].wf(dim as nat));
                                assert(vs[k] == int_seq(s.entries@[k].vector@));
                            }
                            lemma_col_sum_bound(vs, j, COMP_LIMIT as int);
                        }
                        let prev = shards_vectors(shs.take(si as int));
                        assert(shards_vectors(shs.take(si as int + 1)) == prev + vs);
                        assert forall|j: int| 0 <= j < dim implies col_sum(prev + vs, j) == col_sum(
                            prev,
                            j,
                        ) + col_sum(vs, j) by {
                            lemma_col_sum_concat(prev, vs, j);
                        }
                        assert(((total as int) + (cnt as int)) * (COMP_LIMIT as int) == (
                        total as int) * (COMP_LIMIT as int) + (cnt as int) * (COMP_LIMIT as int))
                            by (nonlinear_arith);
                        assert((total as int) + (cnt as int) <= sum_int(counts));
                        lemma_sum_int_take_le(counts, counts.len() as int);
                        assert(counts.take(counts.len() as int) =~= counts);
                        assert(((total as int) + (cnt as int)) * (COMP_LIMIT as int)
                            <= 0x10000000000000000 * (COMP_LIMIT as int)) by (nonlinear_arith)
                            requires 0 <= (total as int) + (cnt as int) <= 0x10000000000000000;
                    }
                    sums = add_partials(
                        &sums,
                        &partial,
                        Ghost((total as int) * (COMP_LIMIT as int)),
                        Ghost((cnt as int) * (COMP_LIMIT as int)),
                    );
                    total = total + cnt;
                }
            }
            si = si + 1;
        }
        proof {
            assert(shs.take(shs.len() as int) =~= shs);
            assert(counts.take(counts.len() as int) =~= counts);
        }
        if total == 0 {
            self.centroid = None;
        } else {
            let mut mean: Vec<i64> = Vec::new();
            let mut j: usize = 0;
            while j < dim
                invariant
                    j <= dim,
                    mean@.len() == j,
                    total >= 1,
                    sums@.len() == dim,
                    forall|m: int| 0 <= m < dim ==> #[trigger] sums@[m] as int == col_sum(
                        shards_vectors(shs),
                        m,
                    ),
                    forall|m: int| 0 <= m < dim ==> -((total as int) * (COMP_LIMIT as int))
                        <= #[trigger] sums@[m] as int <= (total as int) * (COMP_LIMIT as int),
                    forall|m: int| 0 <= m < j ==> #[trigger] mean@[m] as int
                        == crate::arith::div_trunc(
                        col_sum(shards_vectors(shs), m),
                        total as int,
                    ),
                    forall|m: int| 0 <= m < j ==> -(COMP_LIMIT as int) <= #[trigger] mean@[m] as int
                        <= COMP_LIMIT as int,
                decreases dim - j,
            {
                proof {
                    crate::arith::lemma_div_trunc_mean_bound(
                        sums@[j as int] as int,
                        total as int,
                        COMP_LIMIT as int,
                    );
                }
                let q = crate::arith::div_trunc_i128(sums[j], total as u128);
                mean.push(q as i64);
                j = j + 1;
            }
            proof {
                assert(bounded_seq(int_seq(mean@)));
            }
            self.centroid = Some(mean);
        }
    }

    /// Removes the entry at global position `g` over the concatenated
    /// shards (an eviction victim), dropping its fingerprint mapping best
    /// effort.
    #[verifier::loop_isolation(false)]
    pub(crate) fn remove_entry_at(&mut self, g: usize)
        requires
            old(self).wf(),
            g < old(self).entry_count,
        ensures
            final(self).wf(),
            final(self).partition_id == old(self).partition_id,
            final(self).max_entries == old(self).max_entries,
            final(self).dimension == old(self).dimension,
            final(self).quantization_levels == old(self).quantization_levels,
            final(self).centroid == old(self).centroid,
            final(self).shards@.len() == old(self).shards@.len(),
            final(self).entry_count == old(self).entry_count - 1,
            removed_one_entry(*old(self), *final(self)),
    {
        let ghost counts = self.shard_counts();
        let ghost dim = self.dimension as nat;
        let levels = self.quantization_levels;
        let mut rem: usize = g;
        let mut si: usize = 0;
        proof {
            assert(counts.take(0) =~= Seq::<int>::empty());
            assert(forall|k: int| 0 <= k < counts.len() ==> #[trigger] counts[k] >= 0);
        }
        while si < self.shards.len()
            invariant
                si <= self.shards@.len(),
                *self == *old(self),
                rem as int == g - sum_int(counts.take(si as int)),
                sum_int(counts.take(si as int)) <= g,
            decreases self.shards@.len() - si,
        {
            proof {
                assert(counts.take(si as int + 1).drop_last() =~= counts.take(si as int));
                assert(counts.take(si as int + 1).last() == counts[si as int]);
            }
            let c = self.shards[si].entry_count;
            if rem < c {
                proof {
                    assert(self.shards@[si as int].wf(dim));
                }
                let victim = (&mut self.shards[si]).remove_at(rem, Ghost(dim));
                self.entry_count = self.entry_count - 1;
                proof {
                    lemma_sum_int_update(counts, si as int, counts[si as int] - 1);
                    assert(self.shard_counts() =~= counts.update(
                        si as int,
                        counts[si as int] - 1,
                    ));
                    assert(self.shard_caps() =~= old(self).shard_caps());
                }
                let qb = scalar_quantize(&victim.vector, levels);
                let fp = fingerprint(&qb);
                self.id_map.remove(&fp);
                proof {
                    assert(removed_at(*old(self), *self, si as int, rem as int));
                }
                return;
            }
            rem = rem - c;
            si = si + 1;
        }
        proof {
            assert(counts.take(self.shards@.len() as int) =~= counts);
            assert(false);
        }
    }

    /// Whether a pair reported by a query names a live entry of this
    /// partition together with its exact distance to the query vector.
    pub open spec fn scores_entry(&self, kind: MetricKind, q: Seq<int>, p: (u64, i128)) -> bool {
        exists|si: int, ei: int|
            {
                &&& 0 <= si < self.shards@.len()
                &&& 0 <= ei < self.shards@[si].entries@.len()
                &&& p.0 == (#[trigger] self.shards@[si].entries@[ei]).entry_id
                &&& p.1 as int == metric_dist(
                    kind,
                    q,
                    int_seq(self.shards@[si].entries@[ei].vector@),
                )
            }
    }

    /// Linear scan of the partition's live entries, scored with the
    /// cache's configured metric (the partition holds no metric state; the
    /// caller passes it in).  Examines at most `limit` entries and reports
    /// the scored pairs ordered ascending by distance, ties by ascending
    /// id.
    #[verifier::loop_isolation(false)]
    pub fn query(&self, vector: &Vec<i64>, kind: MetricKind, limit: usize) -> (r: Vec<(u64, i128)>)
        requires
            self.wf(),
            pairwise_distinct_ids_in(*self),
            vector@.len() == self.dimension,
            bounded_seq(int_seq(vector@)),
        ensures
            r@.len() == if (limit as int) <= (self.entry_count as int) {
                limit as int
            } else {
                self.entry_count as int
            },
            sorted_pairs(r@),
            distinct_ids(r@),
            forall|k: int| 0 <= k < r@.len() ==> self.scores_entry(
                kind,
                int_seq(vector@),
                #[trigger] r@[k],
            ),
            forall|k: int| 0 <= k < r@.len() ==> pair_id_in(*self, #[trigger] r@[k]),
    {
        broadcast use vstd::seq_lib::group_to_multiset_ensures;

        let ghost counts = self.shard_counts();
        let ghost v = int_seq(vector@);
        let mut out: Vec<(u64, i128)> = Vec::new();
        let mut si: usize = 0;
        proof {
            assert(forall|k: int| 0 <= k < counts.len() ==> #[trigger] counts[k] >= 0);
            assert(counts.take(0) =~= Seq::<int>::empty());
            lemma_sum_int_take_le(counts, counts.len() as int);
            assert(counts.take(counts.len() as int) =~= counts);
        }
        while si < self.shards.len()
            invariant
                si <= self.shards@.len(),
                out@.len() == if (limit as int) <= sum_int(counts.take(si as int)) {
                    limit as int
                } else {
                    sum_int(counts.take(si as int))
                },
                forall|k: int| 0 <= k < out@.len() ==> self.scores_entry(
                    kind,
                    v,
                    #[trigger] out@[k],
                ),
                distinct_ids(out@),
                forall|k: int| 0 <= k < out@.len() ==> pair_from_prefix(
                    *self,
                    #[trigger] out@[k],
                    si as int,
                    0,
                ),
            decreases self.shards@.len() - si,
        {
            proof {
                assert(counts.take(si as int + 1).drop_last() =~= counts.take(si as int));
                assert(counts.take(si as int + 1).last() == counts[si as int]);
                lemma_sum_int_take_le(counts, si as int);
                lemma_sum_int_take_le(counts, si as int + 1);
            }
            let mut ei: usize = 0;
            let shard_len = self.shards[si].entries.len();
            proof {
                assert(self.shards@[si as int].wf(self.dimension as nat));
            }
            while ei < shard_len
                invariant
                    ei <= shard_len,
                    si < self.shards@.len(),
                    shard_len == self.shards@[si as int].entries@.len(),
                    out@.len() == if (limit as int) <= sum_int(counts.take(si as int)) + ei {
                        limit as int
                    } else {
                        sum_int(counts.take(si as int)) + ei
                    },
                    forall|k: int| 0 <= k < out@.len() ==> self.scores_entry(
                        kind,
                        v,
                        #[trigger] out@[k],
                    ),
                    distinct_ids(out@),
                    forall|k: int| 0 <= k < out@.len() ==> pair_from_prefix(
                        *self,
                        #[trigger] out@[k],
                        si as int,
                        ei as int,
                    ),
                decreases shard_len - ei,
            {
                if out.len() >= limit {
                    proof {
                        lemma_sum_int_take_le(counts, si as int);
                        lemma_prefix_pairs_in(*self, out@, si as int, ei as int);
                    }
                    return rank_scored(self, kind, Ghost(v), out);
                }
                proof {
                    assert(self.shards@[si as int].entries@[ei as int].wf(self.dimension as nat));
                }
                let e_id = self.shards[si].entries[ei].entry_id;
                let d = metric_distance(kind, vector, &self.shards[si].entries[ei].vector);
                out.push((e_id, d));
                proof {
                    let p = (e_id, d);
                    assert((p.0 == self.shards@[si as int].entries@[ei as int].entry_id) && (
                    p.1 as int == metric_dist(
                        kind,
                        v,
                        int_seq(self.shards@[si as int].entries@[ei as int].vector@),
                    )));
                    assert(self.scores_entry(kind, v, p));
                    let out_prev = out@.drop_last();
                    assert(id_at(*self, si as int, ei as int, p.0));
                    assert forall|k: int| 0 <= k < out_prev.len() implies (
                    #[trigger] out_prev[k]).0 != p.0 && pair_from_prefix(
                        *self,
                        out_prev[k],
                        si as int,
                        ei as int + 1,
                    ) by {
                        assert(pair_from_prefix(*self, out_prev[k], si as int, ei as int));
                        let (so, eo) = choose|so: int, eo: int|
                            #[trigger] id_at(*self, so, eo, out_prev[k].0) && (so < si as int || (
                            so == si as int && eo < ei as int));
                        assert(self.shards@[so].entries@[eo].entry_id == out_prev[k].0);
                        assert(self.shards@[si as int].entries@[ei as int].entry_id == p.0);
                    }
                    assert(pair_from_prefix(*self, p, si as int, ei as int + 1));
                    assert(out@[out@.len() - 1] == p);
                    assert(forall|k: int| 0 <= k < out@.len() - 1 ==> out@[k] == out_prev[k]);
                }
                ei = ei + 1;
            }
            proof {
                assert forall|k: int| 0 <= k < out@.len() implies pair_from_prefix(
                    *self,
                    #[trigger] out@[k],
                    si as int + 1,
                    0,
                ) by {
                    assert(pair_from_prefix(*self, out@[k], si as int, shard_len as int));
                    let (so, eo) = choose|so: int, eo: int|
                        #[trigger] id_at(*self, so, eo, out@[k].0) && (so < si as int || (so
                        == si as int && eo < shard_len as int));
                    assert(id_at(*self, so, eo, out@[k].0) && so < si as int + 1);
                }
            }
            si = si + 1;
        }
        proof {
            assert(counts.take(self.shards@.len() as int) =~= counts);
            lemma_prefix_pairs_in(*self, out@, si as int, 0);
        }
        rank_scored(self, kind, Ghost(v), out)
    }
}

/// The pair's identifier is stored somewhere in the partition.
pub open spec fn pair_id_in(p: CachePartition, pr: (u64, i128)) -> bool {
    exists|si: int, ei: int| #[trigger] id_at(p, si, ei, pr.0)
}

/// The pair's identifier is stored at a scan position strictly before
/// shard `sb`, entry `eb`.
pub open spec fn pair_from_prefix(
    p: CachePartition,
    pr: (u64, i128),
    sb: int,
    eb: int,
) -> bool {
    exists|si: int, ei: int|
        #[trigger] id_at(p, si, ei, pr.0) && (si < sb || (si == sb && ei < eb))
}

/// A pair drawn from a scan prefix has its identifier in the partition.
proof fn lemma_prefix_pairs_in(p: CachePartition, out: Seq<(u64, i128)>, sb: int, eb: int)
    requires
        forall|k: int| 0 <= k < out.len() ==> pair_from_prefix(p, #[trigger] out[k], sb, eb),
    ensures
        forall|k: int| 0 <= k < out.len() ==> pair_id_in(p, #[trigger] out[k]),
{
    assert forall|k: int| 0 <= k < out.len() implies pair_id_in(p, #[trigger] out[k]) by {
        let (so, eo) = choose|so: int, eo: int|
            #[trigger] id_at(p, so, eo, out[k].0) && (so < sb || (so == sb && eo < eb));
        assert(id_at(p, so, eo, out[k].0));
    }
}

/// Sorts a partition's scored pairs, carrying the liveness of each pair
/// through the permutation.
#[verifier::loop_isolation(false)]
fn rank_scored(
    partition: &CachePartition,
    kind: MetricKind,
    Ghost(q): Ghost<Seq<int>>,
    scored: Vec<(u64, i128)>,
) -> (r: Vec<(u64, i128)>)
    requires
        forall|k: int| 0 <= k < scored@.len() ==> partition.scores_entry(
            kind,
            q,
            #[trigger] scored@[k],
        ),
        forall|k: int| 0 <= k < scored@.len() ==> pair_id_in(*partition, #[trigger] scored@[k]),
        distinct_ids(scored@),
    ensures
        r@.len() == scored@.len(),
        sorted_pairs(r@),
        distinct_ids(r@),
        forall|k: int| 0 <= k < r@.len() ==> partition.scores_entry(kind, q, #[trigger] r@[k]),
        forall|k: int| 0 <= k < r@.len() ==> pair_id_in(*partition, #[trigger] r@[k]),
{
    broadcast use vstd::seq_lib::group_to_multiset_ensures;

    let ghost scored0 = scored@;
    let ranked = sort_pairs(scored);
    proof {
        lemma_permutation_keeps_distinct_ids(scored0, ranked@);
    }
    proof {
        assert forall|k: int| 0 <= k < ranked@.len() implies partition.scores_entry(
            kind,
            q,
            #[trigger] ranked@[k],
        ) && pair_id_in(*partition, ranked@[k]) by {
            assert(ranked@.to_multiset().count(ranked@[k]) > 0) by {
                assert(ranked@.contains(ranked@[k]));
            }
            assert(scored0.to_multiset().count(ranked@[k]) > 0);
            assert(scored0.contains(ranked@[k]));
            let j = choose|j: int| 0 <= j < scored0.len() && scored0[j] == ranked@[k];
            assert(partition.scores_entry(kind, q, scored0[j]));
            assert(pair_id_in(*partition, scored0[j]));
        }
    }
    ranked
}

/// The exact effect of a partition insert attempt past the capacity and
/// duplicate rejections: the stale mapping (if any) is dropped together
/// with the first matching entry of the target shard, then the shard either
/// takes the new entry (`Ok(true)`, mapping recorded, count adjusted) or
/// rejects it as full (`CapacityExceeded`) or as a raw duplicate
/// (`DuplicateEntry`), leaving the removal in place.
pub open spec fn insert_attempt_post(
    pre: CachePartition,
    post: CachePartition,
    v64: Seq<i64>,
    overwrite: bool,
    id: u64,
    r: Result<bool, InsertError>,
) -> bool {
    let v = int_seq(v64);
    let fp = pre.insert_fp(v);
    let qb = pre.insert_qb(v);
    let t = pre.target_shard(v);
    let replace = pre.id_map@.contains_key(fp);
    let stored = if replace {
        pre.id_map@[fp]@
    } else {
        qb
    };
    let s0 = pre.shards@[t];
    let idx = if replace {
        first_quant_match(s0.entries@, stored, pre.quantization_levels as int, 0)
    } else {
        -1
    };
    let removed = replace && idx >= 0;
    let entries_mid = if removed {
        s0.entries@.remove(idx)
    } else {
        s0.entries@
    };
    let cnt_mid = if removed {
        pre.entry_count - 1
    } else {
        pre.entry_count as int
    };
    let map_mid = if replace {
        pre.id_map@.remove(fp)
    } else {
        pre.id_map@
    };
    let shard_full = entries_mid.len() >= s0.max_entries;
    let raw_dup = !overwrite && entries_have_vector(entries_mid, v);
    &&& post.partition_id == pre.partition_id
    &&& post.max_entries == pre.max_entries
    &&& post.dimension == pre.dimension
    &&& post.quantization_levels == pre.quantization_levels
    &&& post.centroid == pre.centroid
    &&& post.shards@.len() == pre.shards@.len()
    &&& forall|u: int| 0 <= u < pre.shards@.len() && u != t ==> post.shards@[u] == pre.shards@[u]
    &&& post.shards@[t].shard_id == s0.shard_id
    &&& post.shards@[t].max_entries == s0.max_entries
    &&& if shard_full || raw_dup {
        &&& r == Err::<bool, InsertError>(
            if shard_full {
                InsertError::CapacityExceeded
            } else {
                InsertError::DuplicateEntry
            },
        )
        &&& post.id_map@ == map_mid
        &&& post.shards@[t].entries@ == entries_mid
        &&& post.entry_count as int == cnt_mid
    } else {
        &&& r == Ok::<bool, InsertError>(true)
        &&& post.id_map@.dom() == map_mid.dom().insert(fp)
        &&& post.id_map@[fp]@ == qb
        &&& forall|k: u64| map_mid.dom().contains(k) && k != fp ==> post.id_map@[k]
            == map_mid[k]
        &&& post.shards@[t].entries@.len() == entries_mid.len() + 1
        &&& post.shards@[t].entries@.drop_last() == entries_mid
        &&& post.shards@[t].entries@.last().entry_id == id
        &&& post.shards@[t].entries@.last().vector@ == v64
        &&& post.shards@[t].entries@.last().key_hash == hash_u64_spec(id)
        &&& post.entry_count as int == cnt_mid + 1
    }
}

/// Adds two partial-sum vectors component-wise, under magnitude bounds
/// that keep the sums representable.
fn add_partials(a: &Vec<i128>, b: &Vec<i128>, Ghost(ba): Ghost<int>, Ghost(bb): Ghost<int>) -> (r:
    Vec<i128>)
    requires
        a@.len() == b@.len(),
        0 <= ba,
        0 <= bb,
        ba + bb < 0x40000000000000000000000000000000,
        forall|j: int| 0 <= j < a@.len() ==> -ba <= #[trigger] a@[j] as int <= ba,
        forall|j: int| 0 <= j < b@.len() ==> -bb <= #[trigger] b@[j] as int <= bb,
    ensures
        r@.len() == a@.len(),
        forall|j: int| 0 <= j < r@.len() ==> #[trigger] r@[j] as int == a@[j] as int + b@[j] as int,
{
    let mut out: Vec<i128> = Vec::new();
    let mut i: usize = 0;
    while i < a.len()
        invariant
            i <= a@.len(),
            a@.len() == b@.len(),
            out@.len() == i,
            forall|j: int| 0 <= j < a@.len() ==> -ba <= #[trigger] a@[j] as int <= ba,
            forall|j: int| 0 <= j < b@.len() ==> -bb <= #[trigger] b@[j] as int <= bb,
            0 <= ba,
            0 <= bb,
            ba + bb < 0x40000000000000000000000000000000,
            forall|j: int| 0 <= j < i ==> #[trigger] out@[j] as int == a@[j] as int + b@[j] as int,
        decreases a@.len() - i,
    {
        out.push(a[i] + b[i]);
        i = i + 1;
    }
    out
}

/// What one rebuild step does to a partition: everything is kept except
/// the centroid, which becomes the exact component-wise truncated mean of
/// the stored vectors, or `None` when the partition holds none.
pub open spec fn rebuilt_rel(pre: CachePartition, post: CachePartition) -> bool {
    &&& post.partition_id == pre.partition_id
    &&& post.max_entries == pre.max_entries
    &&& post.dimension == pre.dimension
    &&& post.quantization_levels == pre.quantization_levels
    &&& post.entry_count == pre.entry_count
    &&& post.id_map@ == pre.id_map@
    &&& post.shards@ == pre.shards@
    &&& (pre.entry_count == 0 ==> post.centroid is None)
    &&& (pre.entry_count > 0 ==> (post.centroid matches Some(c) && (c@.len() == pre.dimension) && (
    forall|j: int|
        0 <= j < pre.dimension ==> #[trigger] c@[j] as int == crate::arith::div_trunc(
            col_sum(shards_vectors(pre.shards@), j),
            pre.entry_count as int,
        ))))
}

/// Some entry of the sequence holds exactly this vector.
pub open spec fn entries_have_vector(entries: Seq<VectorEntry>, v: Seq<int>) -> bool {
    exists|k: int| 0 <= k < entries.len() && int_seq(#[trigger] entries[k].vector@) == v
}

/// Dedup law, rejection half: once an insert of a vector has succeeded,
/// that vector is a duplicate of the partition, so `insert`'s contract
/// rejects a second insert of it without overwriting with
/// `DuplicateEntry` (as long as the partition is not at capacity, which is
/// always checked first).
pub proof fn lemma_insert_then_duplicate(
    pre: CachePartition,
    post: CachePartition,
    v64: Seq<i64>,
    overwrite: bool,
    id: u64,
)
    requires
        insert_attempt_post(pre, post, v64, overwrite, id, Ok::<bool, InsertError>(true)),
    ensures
        post.is_duplicate(int_seq(v64)),
{
}

/// Dedup law, overwrite half: after a successful insert of a vector,
/// inserting the same vector again with overwriting enabled succeeds and
/// leaves the entry count unchanged: the stale entry is evicted and the
/// new one takes its slot.
pub proof fn lemma_overwrite_keeps_count(
    pre: CachePartition,
    mid: CachePartition,
    post: CachePartition,
    v64: Seq<i64>,
    first_overwrite: bool,
    id1: u64,
    id2: u64,
    r2: Result<bool, InsertError>,
)
    requires
        mid.wf(),
        insert_attempt_post(pre, mid, v64, first_overwrite, id1, Ok::<bool, InsertError>(true)),
        insert_attempt_post(mid, post, v64, true, id2, r2),
    ensures
        r2 == Ok::<bool, InsertError>(true),
        post.entry_count == mid.entry_count,
{
    let v = int_seq(v64);
    let fp = mid.insert_fp(v);
    let qb = mid.insert_qb(v);
    let t = mid.target_shard(v);
    let s_mid = mid.shards@[t];
    let levels = mid.quantization_levels as int;
    assert(mid.id_map@.contains_key(fp));
    assert(mid.id_map@[fp]@ == qb);
    assert(t == pre.target_shard(v));
    assert(s_mid.entries@.len() >= 1);
    let last = s_mid.entries@.len() - 1;
    assert(s_mid.entries@[last].vector@ == v64);
    assert(quantize_bytes(int_seq(s_mid.entries@[last].vector@), levels) == qb);
    let idx = first_quant_match(s_mid.entries@, qb, levels, 0);
    lemma_fqm_range(s_mid.entries@, qb, levels, 0);
    if idx == -1 {
        lemma_fqm_none(s_mid.entries@, qb, levels, 0);
        assert(quantize_bytes(int_seq(s_mid.entries@[last].vector@), levels) != qb);
        assert(false);
    }
    assert(idx >= 0);
    lemma_fqm_found(s_mid.entries@, qb, levels, 0);
    assert(s_mid.wf(mid.dimension as nat));
    assert(s_mid.entries@.len() <= s_mid.max_entries);
    assert(s_mid.entries@.remove(idx).len() < s_mid.max_entries);
}

/// No entry identifier appears twice within the partition.
pub open spec fn pairwise_distinct_ids_in(p: CachePartition) -> bool {
    forall|s1: int, e1: int, s2: int, e2: int|
        #![trigger p.shards@[s1].entries@[e1], p.shards@[s2].entries@[e2]]
        (0 <= s1 < p.shards@.len() && 0 <= e1 < p.shards@[s1].entries@.len() && 0 <= s2
            < p.shards@.len() && 0 <= e2 < p.shards@[s2].entries@.len() && (s1 != s2 || e1 != e2))
            ==> p.shards@[s1].entries@[e1].entry_id != p.shards@[s2].entries@[e2].entry_id
}

/// Every entry identifier in the partition lies below `bound`.
pub open spec fn partition_ids_below(p: CachePartition, bound: int) -> bool {
    forall|s1: int, e1: int|
        #![trigger p.shards@[s1].entries@[e1]]
        (0 <= s1 < p.shards@.len() && 0 <= e1 < p.shards@[s1].entries@.len())
            ==> (p.shards@[s1].entries@[e1].entry_id as int) < bound
}

/// The identifier `idv` is stored at shard `s`, position `e` of `p`.
pub open spec fn id_at(p: CachePartition, s: int, e: int, idv: u64) -> bool {
    &&& 0 <= s < p.shards@.len()
    &&& 0 <= e < p.shards@[s].entries@.len()
    &&& p.shards@[s].entries@[e].entry_id == idv
}

/// The identifier at a position of `post` already occurs somewhere in
/// `pre`.
pub open spec fn entry_id_origin(
    pre: CachePartition,
    post: CachePartition,
    s1: int,
    e1: int,
) -> bool {
    exists|s2: int, e2: int| #[trigger] id_at(
        pre,
        s2,
        e2,
        post.shards@[s1].entries@[e1].entry_id,
    )
}

/// The entry at shard `si`, position `ei` was removed and everything else
/// left in place.
pub open spec fn removed_at(pre: CachePartition, post: CachePartition, si: int, ei: int) -> bool {
    &&& 0 <= si < pre.shards@.len()
    &&& 0 <= ei < pre.shards@[si].entries@.len()
    &&& post.shards@.len() == pre.shards@.len()
    &&& (forall|u: int| 0 <= u < pre.shards@.len() && u != si ==> post.shards@[u]
        == pre.shards@[u])
    &&& post.shards@[si].entries@ == pre.shards@[si].entries@.remove(ei)
    &&& post.shards@[si].shard_id == pre.shards@[si].shard_id
    &&& post.shards@[si].max_entries == pre.shards@[si].max_entries
}

/// An eviction removed exactly one entry from one shard and left
/// everything else in place.
pub open spec fn removed_one_entry(pre: CachePartition, post: CachePartition) -> bool {
    exists|si: int, ei: int| #[trigger] removed_at(pre, post, si, ei)
}

/// Removing one entry keeps identifiers distinct, bounded, and drawn from
/// the previous state.
pub proof fn lemma_removal_ids(pre: CachePartition, post: CachePartition, bound: int)
    requires
        removed_one_entry(pre, post),
        pairwise_distinct_ids_in(pre),
        partition_ids_below(pre, bound),
    ensures
        pairwise_distinct_ids_in(post),
        partition_ids_below(post, bound),
        forall|s1: int, e1: int|
            (0 <= s1 < post.shards@.len() && 0 <= e1 < post.shards@[s1].entries@.len())
                ==> #[trigger] entry_id_origin(pre, post, s1, e1),
{
    let (si, ei) = choose|si: int, ei: int| #[trigger] removed_at(pre, post, si, ei);
    assert(removed_at(pre, post, si, ei));
    assert forall|s1: int, e1: int|
        (0 <= s1 < post.shards@.len() && 0 <= e1 < post.shards@[s1].entries@.len()) implies {
        &&& 0 <= s1 < pre.shards@.len()
        &&& 0 <= origin_after_remove(s1, e1, si, ei) < pre.shards@[s1].entries@.len()
        &&& #[trigger] post.shards@[s1].entries@[e1] == pre.shards@[s1].entries@[
        origin_after_remove(s1, e1, si, ei)]
    } by {
        if s1 == si {
            assert(post.shards@[s1].entries@ == pre.shards@[s1].entries@.remove(ei));
        }
    }
    assert forall|s1: int, e1: int|
        (0 <= s1 < post.shards@.len() && 0 <= e1 < post.shards@[s1].entries@.len())
            implies #[trigger] entry_id_origin(pre, post, s1, e1) by {
        let o = origin_after_remove(s1, e1, si, ei);
        assert(id_at(pre, s1, o, post.shards@[s1].entries@[e1].entry_id));
    }
}

/// Where a post-removal position came from.
pub open spec fn origin_after_remove(s1: int, e1: int, si: int, ei: int) -> int {
    if s1 == si && e1 >= ei {
        e1 + 1
    } else {
        e1
    }
}

/// One insert attempt keeps identifiers pairwise distinct and bounded,
/// provided the new identifier is fresh (above every stored one).
pub proof fn lemma_attempt_ids(
    pre: CachePartition,
    post: CachePartition,
    v64: Seq<i64>,
    overwrite: bool,
    id: u64,
    r: Result<bool, InsertError>,
)
    requires
        insert_attempt_post(pre, post, v64, overwrite, id, r),
        pairwise_distinct_ids_in(pre),
        partition_ids_below(pre, id as int),
    ensures
        pairwise_distinct_ids_in(post),
        partition_ids_below(post, id as int + 1),
        forall|s1: int, e1: int|
            (0 <= s1 < post.shards@.len() && 0 <= e1 < post.shards@[s1].entries@.len()) ==> (
            #[trigger] entry_id_origin(pre, post, s1, e1)
                || post.shards@[s1].entries@[e1].entry_id == id),
        r != Ok::<bool, InsertError>(true) ==> partition_ids_below(post, id as int),
{
    let v = int_seq(v64);
    let fp = pre.insert_fp(v);
    let t = pre.target_shard(v);
    let replace = pre.id_map@.contains_key(fp);
    let stored = if replace {
        pre.id_map@[fp]@
    } else {
        pre.insert_qb(v)
    };
    let s0 = pre.shards@[t];
    let idx = if replace {
        first_quant_match(s0.entries@, stored, pre.quantization_levels as int, 0)
    } else {
        -1
    };
    let removed = replace && idx >= 0;
    let entries_mid = if removed {
        s0.entries@.remove(idx)
    } else {
        s0.entries@
    };
    if removed {
        lemma_fqm_range(s0.entries@, stored, pre.quantization_levels as int, 0);
    }
    let fresh = r == Ok::<bool, InsertError>(true);
    assert forall|s1: int, e1: int|
        (0 <= s1 < post.shards@.len() && 0 <= e1 < post.shards@[s1].entries@.len()) implies {
        ||| (#[trigger] post.shards@[s1].entries@[e1]).entry_id == id && fresh && s1 == t && e1
            == post.shards@[s1].entries@.len() - 1
        ||| {
            &&& 0 <= s1 < pre.shards@.len()
            &&& 0 <= attempt_origin(s1, e1, t, removed, idx) < pre.shards@[s1].entries@.len()
            &&& post.shards@[s1].entries@[e1] == pre.shards@[s1].entries@[attempt_origin(
                s1,
                e1,
                t,
                removed,
                idx,
            )]
        }
    } by {
        if s1 == t {
            if fresh {
                assert(post.shards@[t].entries@.drop_last() == entries_mid);
                if e1 < post.shards@[s1].entries@.len() - 1 {
                    assert(post.shards@[s1].entries@[e1] == entries_mid[e1]);
                }
            } else {
                assert(post.shards@[t].entries@ == entries_mid);
            }
        }
    }
    assert forall|s1: int, e1: int|
        (0 <= s1 < post.shards@.len() && 0 <= e1 < post.shards@[s1].entries@.len()) implies (
    #[trigger] entry_id_origin(pre, post, s1, e1) || post.shards@[s1].entries@[e1].entry_id
        == id) by {
        if !(fresh && s1 == t && e1 == post.shards@[s1].entries@.len() - 1) {
            let o = attempt_origin(s1, e1, t, removed, idx);
            assert(id_at(pre, s1, o, post.shards@[s1].entries@[e1].entry_id));
        }
    }
}

/// Where a post-attempt position came from in the pre state.
pub open spec fn attempt_origin(s1: int, e1: int, t: int, removed: bool, idx: int) -> int {
    if s1 == t && removed && e1 >= idx {
        e1 + 1
    } else {
        e1
    }
}

/// Under well-formedness, each shard's count stays at or under its
/// capacity, so the partition count stays at or under the partition
/// capacity.
pub proof fn lemma_shard_counts_le_caps(p: CachePartition)
    requires
        p.wf(),
    ensures
        p.entry_count <= p.max_entries,
{
    let counts = p.shard_counts();
    let caps = p.shard_caps();
    assert(forall|i: int| 0 <= i < counts.len() ==> #[trigger] counts[i] <= caps[i]);
    lemma_sum_int_le(counts, caps);
}

/// Sum of the first `i` sizes, as integers.
pub open spec fn usize_sum_prefix(s: Seq<usize>, i: int) -> int {
    sum_int(s.take(i).map_values(|x: usize| x as int))
}

/// Scanning for the first match may start past any prefix of non-matches.
pub proof fn lemma_fqm_skip(entries: Seq<VectorEntry>, stored: Seq<u8>, levels: int, i: int)
    requires
        0 <= i <= entries.len(),
        forall|j: int| 0 <= j < i
            ==> quantize_bytes(int_seq(#[trigger] entries[j].vector@), levels) != stored,
    ensures
        first_quant_match(entries, stored, levels, 0) == first_quant_match(
            entries,
            stored,
            levels,
            i,
        ),
    decreases i,
{
    if i > 0 {
        lemma_fqm_skip(entries, stored, levels, i - 1);
    }
}

/// The scan returns `-1` or an index in range.
pub proof fn lemma_fqm_range(entries: Seq<VectorEntry>, stored: Seq<u8>, levels: int, i: int)
    requires
        0 <= i,
    ensures
        -1 <= first_quant_match(entries, stored, levels, i) < entries.len(),
    decreases entries.len() - i,
{
    if i < entries.len() {
        if quantize_bytes(int_seq(entries[i].vector@), levels) != stored {
            lemma_fqm_range(entries, stored, levels, i + 1);
        }
    }
}

/// When the scan reports no match, no entry matches from `i` on.
pub proof fn lemma_fqm_none(entries: Seq<VectorEntry>, stored: Seq<u8>, levels: int, i: int)
    requires
        0 <= i,
        first_quant_match(entries, stored, levels, i) == -1,
    ensures
        forall|j: int| i <= j < entries.len()
            ==> quantize_bytes(int_seq(#[trigger] entries[j].vector@), levels) != stored,
    decreases entries.len() - i,
{
    if i < entries.len() {
        lemma_fqm_none(entries, stored, levels, i + 1);
    }
}

/// A reported match lies in range and matches.
pub proof fn lemma_fqm_found(entries: Seq<VectorEntry>, stored: Seq<u8>, levels: int, i: int)
    requires
        0 <= i,
        first_quant_match(entries, stored, levels, i) >= 0,
    ensures
        i <= first_quant_match(entries, stored, levels, i) < entries.len(),
        quantize_bytes(
            int_seq(entries[first_quant_match(entries, stored, levels, i)].vector@),
            levels,
        ) == stored,
    decreases entries.len() - i,
{
    if i < entries.len() {
        if quantize_bytes(int_seq(entries[i].vector@), levels) != stored {
            lemma_fqm_found(entries, stored, levels, i + 1);
        }
    }
}

/// Copies a quantized byte vector out of the dedup map.
fn clone_bytes(v: &Vec<u8>) -> (r: Vec<u8>)
    ensures
        r@ == v@,
{
    let mut out: Vec<u8> = Vec::new();
    let mut i: usize = 0;
    while i < v.len()
        invariant
            i <= v@.len(),
            out@ == v@.take(i as int),
        decreases v@.len() - i,
    {
        out.push(v[i]);
        proof {
            assert(v@.take(i as int + 1) =~= v@.take(i as int).push(v@[i as int]));
        }
        i = i + 1;
    }
    proof {
        assert(v@.take(v@.len() as int) =~= v@);
    }
    out
}

/// Removes the first entry of the shard whose quantized image equals the
/// stale mapping being replaced; reports whether one was found.
#[verifier::loop_isolation(false)]
fn remove_quantized_match(shard: &mut CacheShard, stored: &Vec<u8>, levels: u16, dim: usize) -> (r:
    bool)
    requires
        old(shard).wf(dim as nat),
        dim <= DIM_LIMIT,
        2 <= levels <= 256,
    ensures
        final(shard).wf(dim as nat),
        final(shard).shard_id == old(shard).shard_id,
        final(shard).max_entries == old(shard).max_entries,
        ({
            let idx = first_quant_match(old(shard).entries@, stored@, levels as int, 0);
            if idx >= 0 {
                &&& r
                &&& final(shard).entries@ == old(shard).entries@.remove(idx)
                &&& final(shard).entry_count == old(shard).entry_count - 1
            } else {
                &&& !r
                &&& final(shard).entries@ == old(shard).entries@
                &&& final(shard).entry_count == old(shard).entry_count
            }
        }),
{
    let ghost entries0 = shard.entries@;
    let mut i: usize = 0;
    while i < shard.entries.len()
        invariant
            i <= shard.entries@.len(),
            *shard == *old(shard),
            forall|j: int| 0 <= j < i
                ==> quantize_bytes(int_seq(#[trigger] shard.entries@[j].vector@), levels as int)
                != stored@,
        decreases shard.entries@.len() - i,
    {
        proof {
            assert(shard.entries@[i as int].wf(dim as nat));
        }
        let q = scalar_quantize(&shard.entries[i].vector, levels);
        let same = vec_u8_eq(&q, stored);
        proof {
            assert(q@ =~= quantize_bytes(int_seq(shard.entries@[i as int].vector@), levels as int));
        }
        if same {
            proof {
                lemma_fqm_skip(entries0, stored@, levels as int, i as int);
            }
            shard.entries.remove(i);
            shard.entry_count = shard.entry_count - 1;
            return true;
        }
        i = i + 1;
    }
    proof {
        lemma_fqm_skip(entries0, stored@, levels as int, entries0.len() as int);
    }
    false
}

} // verus!
