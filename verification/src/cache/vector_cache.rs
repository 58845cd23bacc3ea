use vstd::prelude::*;
use vstd::string::StringExecFns;
use vstd::multiset::Multiset;
use crate::arith::{
    bounded_seq, int_seq, lemma_sum_int_element_le, lemma_sum_int_le, lemma_sum_int_take_le,
    lemma_sum_int_update, split_size_spec, split_sizes, sum_int, DIM_LIMIT,
};
use crate::cache::cache_partition::{
    entry_id_origin, id_at, insert_attempt_post, lemma_attempt_ids, lemma_removal_ids,
    lemma_shard_counts_le_caps, pair_id_in, pairwise_distinct_ids_in, partition_ids_below,
    rebuilt_rel, removed_one_entry, CachePartition,
};
use crate::errors::InsertError;
use crate::search::distance_metric::{
    matches_fold, metric_dist, metric_distance, metric_from_name, name_matches, MetricKind,
};
use crate::search::ranking::{
    distinct_ids, filter_pairs, lemma_permutation_keeps_distinct_ids, sort_pairs, sorted_pairs,
    take_first,
};
use crate::utility::hashing_util::{fnv1a64_components, hash_vector_id};
use crate::utility::vector_utils::{int_seq32, widen_seq, widen_vector};

verus! {

/// The closed set of eviction policies.  Recency and frequency data come
/// from an access-tracker collaborator that is out of the core's scope;
/// without one, `Lru` and `Lfu` fall back to evicting the earliest stored
/// entry (identifiers grow monotonically, so storage order approximates
/// insertion order), while `Random` draws from a seeded generator so tests
/// stay deterministic.
#[derive(Clone, Copy, Debug, PartialEq, Eq, Structural)]
pub enum EvictionPolicy {
    Lru,
    Lfu,
    Random,
}

/// Resolves a configured eviction-strategy name without regard to ASCII
/// letter case; an unrecognized name is a fatal configuration error at
/// construction.
pub fn eviction_from_name(name: &String) -> (r: Option<EvictionPolicy>)
    ensures
        r == Some(EvictionPolicy::Lru) <==> matches_fold(name@, "lru"@),
        r == Some(EvictionPolicy::Lfu) <==> matches_fold(name@, "lfu"@),
        r == Some(EvictionPolicy::Random) <==> matches_fold(name@, "random"@),
        r is None <==> (!matches_fold(name@, "lru"@) && !matches_fold(name@, "lfu"@)
            && !matches_fold(name@, "random"@)),
{
    proof {
        reveal_strlit("lru");
        reveal_strlit("lfu");
        reveal_strlit("random");
        assert("lru"@.len() == 3);
        assert("lfu"@.len() == 3);
        assert("random"@.len() == 6);
        assert("lru"@[1] != "lfu"@[1]);
    }
    if name_matches(name.as_str(), "lru") {
        Some(EvictionPolicy::Lru)
    } else if name_matches(name.as_str(), "lfu") {
        Some(EvictionPolicy::Lfu)
    } else if name_matches(name.as_str(), "random") {
        Some(EvictionPolicy::Random)
    } else {
        None
    }
}

/// Construction-time configuration of a cache.
pub struct CacheConfig {
    /// Diagnostic label for the cache instance.
    pub cache_id: String,
    /// Total capacity over all partitions.
    pub max_entries: usize,
    /// Dimension of every stored and queried vector.
    pub dimension: usize,
    /// Number of partitions; must be positive.
    pub partition_count: usize,
    /// Number of shards per partition; must be positive.
    pub shard_count: usize,
    /// Quantization granularity for near-duplicate fingerprints; between 2
    /// and 256 levels.
    pub quantization_levels: u16,
    /// Metric name: `cosine`, `euclidean` or `dot-product`.
    pub search_metric: String,
    /// Per-query budget of examined entries.
    pub search_candidates: usize,
    /// Eviction strategy name: `LRU`, `LFU` or `Random`.
    pub eviction_strategy: String,
    /// Whether an insert into a full cache evicts a victim instead of
    /// failing.
    pub eager_eviction: bool,
    /// Whether the instance is meant to be shared across worker threads;
    /// stored for collaborators, it does not change behaviour here.
    pub thread_safe: bool,
    /// Mutating operations between implicit centroid rebuilds.
    pub centroid_rebuild_interval: usize,
    /// Seed of the deterministic generator behind `Random` eviction.
    pub eviction_seed: u64,
}

/// A snapshot of the cache's occupancy.
pub struct CacheMetrics {
    /// Entries currently stored.
    pub size: usize,
    /// Total capacity.
    pub capacity: usize,
    /// Entries stored per partition.
    pub partition_sizes: Vec<usize>,
    /// Load factor in thousandths (`size * 1000 / capacity`; zero for a
    /// zero-capacity cache).
    pub load_factor_permille: u64,
}

/// The top-level orchestrator: owns the partitions, the configured metric
/// and eviction policy, splits capacity at construction, routes inserts and
/// queries, and triggers periodic centroid rebuilds.
pub struct VectorCache {
    /// Diagnostic label.
    pub cache_id: String,
    /// Total capacity over all partitions.
    pub max_entries: usize,
    /// Number of partitions.
    pub partition_count: usize,
    /// Number of shards per partition.
    pub shard_count: usize,
    /// Dimension of every vector.
    pub dimension: usize,
    /// Mutating operations between implicit rebuilds.
    pub centroid_update: usize,
    /// Quantization granularity for dedup fingerprints.
    pub quantization_levels: u16,
    /// The configured scoring strategy.
    pub search_metric: MetricKind,
    /// Per-query budget of examined entries.
    pub search_candidates: usize,
    /// The configured eviction policy.
    pub eviction_strategy: EvictionPolicy,
    /// Evict on insert-when-full instead of rejecting.
    pub eager_eviction: bool,
    /// Stored thread-safety intent (see `CacheConfig::thread_safe`).
    pub thread_safe: bool,
    /// The partitions.
    pub partitions: Vec<CachePartition>,
    /// Successful mutating operations since the last rebuild.
    pub op_counter: usize,
    /// Next entry identifier; grows monotonically, so identifiers are
    /// unique across the cache's lifetime.
    pub next_id: u64,
    /// State of the seeded generator used by `Random` eviction.
    pub rng_state: u64,
}

impl VectorCache {
    /// Entry counts per partition.
    pub open spec fn partition_counts(&self) -> Seq<int> {
        self.partitions@.map_values(|p: CachePartition| p.entry_count as int)
    }

    /// Capacities per partition.
    pub open spec fn partition_caps(&self) -> Seq<int> {
        self.partitions@.map_values(|p: CachePartition| p.max_entries as int)
    }

    /// Total number of stored entries.
    pub open spec fn spec_size(&self) -> int {
        sum_int(self.partition_counts())
    }

    /// Well-formedness: partitions exist, mirror the configuration, are
    /// each well formed, and their capacities add up to the cache capacity.
    pub open spec fn wf(&self) -> bool {
        &&& 1 <= self.partitions@.len()
        &&& self.partitions@.len() == self.partition_count
        &&& 1 <= self.shard_count
        &&& self.dimension <= DIM_LIMIT
        &&& 2 <= self.quantization_levels <= 256
        &&& sum_int(self.partition_caps()) == self.max_entries as int
        &&& forall|i: int| 0 <= i < self.partitions@.len() ==> {
            &&& (#[trigger] self.partitions@[i]).wf()
            &&& self.partitions@[i].dimension == self.dimension
            &&& self.partitions@[i].quantization_levels == self.quantization_levels
            &&& self.partitions@[i].shards@.len() == self.shard_count
            &&& self.partitions@[i].partition_id == i as u64
        }
        &&& ids_unique(self.partitions@)
        &&& cache_ids_below(self.partitions@, self.next_id as int)
    }

    /// Validates the configuration, resolves the metric and eviction
    /// strategies, and splits the capacity into partitions, each of which
    /// splits further into shards.  A zero partition or shard count, a
    /// degenerate quantization granularity, or an unrecognized metric or
    /// eviction name fails construction with `InvalidConfiguration` rather
    /// than producing a degraded cache.
    #[verifier::loop_isolation(false)]
    pub fn new(config: CacheConfig) -> (r: Result<Self, InsertError>)
        requires
            config.dimension <= DIM_LIMIT,
        ensures
            r is Err <==> (config.partition_count == 0 || config.shard_count == 0
                || config.quantization_levels < 2 || config.quantization_levels > 256 || (
            !matches_fold(config.search_metric@, "cosine"@) && !matches_fold(
                config.search_metric@,
                "euclidean"@,
            ) && !matches_fold(config.search_metric@, "dot-product"@)) || (!matches_fold(
                config.eviction_strategy@,
                "lru"@,
            ) && !matches_fold(config.eviction_strategy@, "lfu"@) && !matches_fold(
                config.eviction_strategy@,
                "random"@,
            ))),
            r matches Err(e) ==> e == InsertError::InvalidConfiguration,
            r matches Ok(c) ==> {
                &&& c.wf()
                &&& c.max_entries == config.max_entries
                &&& c.partition_count == config.partition_count
                &&& c.shard_count == config.shard_count
                &&& c.dimension == config.dimension
                &&& c.quantization_levels == config.quantization_levels
                &&& c.centroid_update == config.centroid_rebuild_interval
                &&& c.search_candidates == config.search_candidates
                &&& c.eager_eviction == config.eager_eviction
                &&& c.thread_safe == config.thread_safe
                &&& c.spec_size() == 0
                &&& c.op_counter == 0
                &&& c.next_id == 0
                &&& Some(c.search_metric) == (if matches_fold(config.search_metric@, "cosine"@) {
                    Some(MetricKind::Cosine)
                } else if matches_fold(config.search_metric@, "euclidean"@) {
                    Some(MetricKind::Euclidean)
                } else {
                    Some(MetricKind::DotProduct)
                })
                &&& Some(c.eviction_strategy) == (if matches_fold(
                    config.eviction_strategy@,
                    "lru"@,
                ) {
                    Some(EvictionPolicy::Lru)
                } else if matches_fold(config.eviction_strategy@, "lfu"@) {
                    Some(EvictionPolicy::Lfu)
                } else {
                    Some(EvictionPolicy::Random)
                })
                &&& forall|i: int| 0 <= i < c.partitions@.len()
                    ==> (#[trigger] c.partitions@[i]).centroid is None
                        && c.partitions@[i].entry_count == 0
                        && c.partitions@[i].id_map@ == Map::<u64, Vec<u8>>::empty()
                        && c.partitions@[i].max_entries as int == split_size_spec(
                        config.max_entries as int,
                        config.partition_count as int,
                        i,
                    )
            },
    {
        if config.partition_count == 0 || config.shard_count == 0 {
            return Err(InsertError::InvalidConfiguration);
        }
        if config.quantization_levels < 2 || config.quantization_levels > 256 {
            return Err(InsertError::InvalidConfiguration);
        }
        let metric = match metric_from_name(&config.search_metric) {
            Some(m) => m,
            None => {
                return Err(InsertError::InvalidConfiguration);
            },
        };
        let policy = match eviction_from_name(&config.eviction_strategy) {
            Some(p) => p,
            None => {
                return Err(InsertError::InvalidConfiguration);
            },
        };
        let sizes = split_sizes(config.max_entries, config.partition_count);
        let mut partitions: Vec<CachePartition> = Vec::new();
        let mut i: usize = 0;
        while i < config.partition_count
            invariant
                i <= config.partition_count,
                partitions@.len() == i,
                2 <= config.quantization_levels <= 256,
                1 <= config.shard_count,
                forall|k: int| 0 <= k < i ==> {
                    &&& (#[trigger] partitions@[k]).wf()
                    &&& partitions@[k].dimension == config.dimension
                    &&& partitions@[k].quantization_levels == config.quantization_levels
                    &&& partitions@[k].shards@.len() == config.shard_count
                    &&& partitions@[k].partition_id == k as u64
                    &&& partitions@[k].centroid is None
                    &&& partitions@[k].entry_count == 0
                    &&& partitions@[k].id_map@ == Map::<u64, Vec<u8>>::empty()
                    &&& partitions@[k].max_entries == sizes@[k]
                },
                forall|k: int, si: int|
                    (0 <= k < i && 0 <= si < partitions@[k].shards@.len())
                        ==> (#[trigger] partitions@[k].shards@[si]).entries@.len() == 0,
                sum_int(partitions@.map_values(|p: CachePartition| p.max_entries as int))
                    == crate::cache::cache_partition::usize_sum_prefix(sizes@, i as int),
                sum_int(partitions@.map_values(|p: CachePartition| p.entry_count as int)) == 0,
            decreases config.partition_count - i,
        {
            let mut partition = CachePartition::new(
                i as u64,
                sizes[i],
                config.dimension,
                config.quantization_levels,
            );
            partition.initiate_shards(sizes[i], config.shard_count);
            proof {
                let caps0 = partitions@.map_values(|p: CachePartition| p.max_entries as int);
                let cnts0 = partitions@.map_values(|p: CachePartition| p.entry_count as int);
                assert(partitions@.push(partition).map_values(
                    |p: CachePartition| p.max_entries as int,
                ).drop_last() =~= caps0);
                assert(partitions@.push(partition).map_values(
                    |p: CachePartition| p.entry_count as int,
                ).drop_last() =~= cnts0);
                assert(sizes@.take(i as int + 1).map_values(|x: usize| x as int).drop_last()
                    =~= sizes@.take(i as int).map_values(|x: usize| x as int));
            }
            partitions.push(partition);
            i = i + 1;
        }
        proof {
            assert(sizes@.take(sizes@.len() as int) =~= sizes@);
            assert forall|k: int| 0 <= k < partitions@.len() implies pairwise_distinct_ids_in(
                #[trigger] partitions@[k],
            ) && partition_ids_below(partitions@[k], 0) by {
                assert(forall|si: int| 0 <= si < partitions@[k].shards@.len()
                    ==> (#[trigger] partitions@[k].shards@[si]).entries@.len() == 0);
            }
            assert(ids_unique(partitions@));
            assert(cache_ids_below(partitions@, 0));
        }
        Ok(
            VectorCache {
                cache_id: config.cache_id,
                max_entries: config.max_entries,
                partition_count: config.partition_count,
                shard_count: config.shard_count,
                dimension: config.dimension,
                centroid_update: config.centroid_rebuild_interval,
                quantization_levels: config.quantization_levels,
                search_metric: metric,
                search_candidates: config.search_candidates,
                eviction_strategy: policy,
                eager_eviction: config.eager_eviction,
                thread_safe: config.thread_safe,
                partitions,
                op_counter: 0,
                next_id: 0,
                rng_state: config.eviction_seed,
            },
        )
    }

    /// Number of entries currently stored, never more than the capacity.
    #[verifier::loop_isolation(false)]
    pub fn size(&self) -> (r: usize)
        requires
            self.wf(),
        ensures
            r as int == self.spec_size(),
            r <= self.max_entries,
    {
        let ghost counts = self.partition_counts();
        let mut result: usize = 0;
        let mut i: usize = 0;
        proof {
            lemma_size_le_capacity(*self);
            assert(counts.take(0) =~= Seq::<int>::empty());
            assert(forall|k: int| 0 <= k < counts.len() ==> #[trigger] counts[k] >= 0);
        }
        while i < self.partitions.len()
            invariant
                i <= self.partitions@.len(),
                result as int == sum_int(counts.take(i as int)),
                result <= self.max_entries,
            decreases self.partitions@.len() - i,
        {
            proof {
                assert(counts.take(i as int + 1).drop_last() =~= counts.take(i as int));
                assert(counts.take(i as int + 1).last() == counts[i as int]);
                lemma_sum_int_take_le(counts, i as int + 1);
                lemma_sum_int_le(counts, self.partition_caps());
                lemma_partition_counts_le_caps(*self);
            }
            result = result + self.partitions[i].entry_count;
            i = i + 1;
        }
        proof {
            assert(counts.take(self.partitions@.len() as int) =~= counts);
        }
        result
    }

    /// The cache cannot take another entry without eviction.
    pub fn is_full(&self) -> (r: bool)
        requires
            self.wf(),
        ensures
            r == (self.spec_size() >= self.max_entries),
    {
        self.size() >= self.max_entries
    }

    /// Load factor in thousandths: `size * 1000 / capacity`, or zero for a
    /// zero-capacity cache.
    pub fn factor(&self) -> (r: u64)
        requires
            self.wf(),
        ensures
            self.max_entries > 0 ==> r as int == (self.spec_size() * 1000) / (
            self.max_entries as int),
            self.max_entries == 0 ==> r == 0,
            r <= 1000,
    {
        let sz = self.size();
        if self.max_entries == 0 {
            0
        } else {
            let num: u128 = (sz as u128) * 1000;
            let den: u128 = self.max_entries as u128;
            let q: u128 = num / den;
            proof {
                assert((sz as int) * 1000 <= (self.max_entries as int) * 1000) by (nonlinear_arith)
                    requires 0 <= sz as int <= self.max_entries as int;
                vstd::arithmetic::div_mod::lemma_div_multiples_vanish(
                    1000,
                    self.max_entries as int,
                );
                vstd::arithmetic::div_mod::lemma_div_is_ordered(
                    (sz as int) * 1000,
                    (self.max_entries as int) * 1000,
                    self.max_entries as int,
                );
                assert(((self.max_entries as int) * 1000) / (self.max_entries as int) == 1000);
            }
            q as u64
        }
    }

    /// Entries stored per partition, in partition order.
    #[verifier::loop_isolation(false)]
    pub fn partition_sizes(&self) -> (r: Vec<usize>)
        requires
            self.wf(),
        ensures
            r@.len() == self.partitions@.len(),
            forall|i: int| 0 <= i < r@.len() ==> #[trigger] r@[i]
                == self.partitions@[i].entry_count,
    {
        let mut out: Vec<usize> = Vec::new();
        let mut i: usize = 0;
        while i < self.partitions.len()
            invariant
                i <= self.partitions@.len(),
                out@.len() == i,
                forall|k: int| 0 <= k < i ==> #[trigger] out@[k]
                    == self.partitions@[k].entry_count,
            decreases self.partitions@.len() - i,
        {
            out.push(self.partitions[i].entry_count);
            i = i + 1;
        }
        out
    }

    /// A snapshot of size, capacity, per-partition sizes and load factor.
    pub fn metrics(&self) -> (r: CacheMetrics)
        requires
            self.wf(),
        ensures
            r.size as int == self.spec_size(),
            r.capacity == self.max_entries,
            r.partition_sizes@.len() == self.partitions@.len(),
            forall|i: int| 0 <= i < r.partition_sizes@.len() ==> #[trigger] r.partition_sizes@[i]
                == self.partitions@[i].entry_count,
            self.max_entries > 0 ==> r.load_factor_permille as int == (self.spec_size() * 1000) / (
            self.max_entries as int),
    {
        CacheMetrics {
            size: self.size(),
            capacity: self.max_entries,
            partition_sizes: self.partition_sizes(),
            load_factor_permille: self.factor(),
        }
    }

    /// Recomputes every partition's centroid from its shard partial sums.
    /// Cost is linear in the total number of entries; between rebuilds
    /// centroids go stale, a deliberate latency/accuracy tradeoff.
    #[verifier::loop_isolation(false)]
    pub fn rebuild(&mut self)
        requires
            old(self).wf(),
        ensures
            final(self).wf(),
            same_config(*old(self), *final(self)),
            final(self).partitions@.len() == old(self).partitions@.len(),
            forall|i: int| 0 <= i < old(self).partitions@.len() ==> rebuilt_rel(
                old(self).partitions@[i],
                #[trigger] final(self).partitions@[i],
            ),
            final(self).spec_size() == old(self).spec_size(),
            final(self).op_counter == 0,
            final(self).next_id == old(self).next_id,
            final(self).rng_state == old(self).rng_state,
    {
        let mut i: usize = 0;
        while i < self.partitions.len()
            invariant
                i <= self.partitions@.len(),
                self.partitions@.len() == old(self).partitions@.len(),
                same_config(*old(self), *self),
                self.op_counter == old(self).op_counter,
                self.next_id == old(self).next_id,
                self.rng_state == old(self).rng_state,
                forall|k: int| 0 <= k < i ==> rebuilt_rel(
                    old(self).partitions@[k],
                    #[trigger] self.partitions@[k],
                ),
                forall|k: int| i <= k < self.partitions@.len() ==> self.partitions@[k] == old(
                    self,
                ).partitions@[k],
                self.wf(),
            decreases self.partitions@.len() - i,
        {
            (&mut self.partitions[i]).update_centroid();
            proof {
                assert(self.partition_counts() =~= old(self).partition_counts());
                assert(self.partition_caps() =~= old(self).partition_caps());
            }
            i = i + 1;
        }
        self.op_counter = 0;
        proof {
            assert(self.partition_counts() =~= old(self).partition_counts());
        }
    }

    /// Distance of the query to partition `i`'s centroid (zero when that
    /// partition has none; only consulted when it has one).
    pub open spec fn centroid_dist(&self, v: Seq<int>, i: int) -> int {
        match self.partitions@[i].centroid {
            Some(c) => metric_dist(self.search_metric, v, int_seq(c@)),
            None => 0,
        }
    }

    /// Index of the nearest warm centroid among the first `i` partitions
    /// (first one wins ties), or `-1` when none of them has a centroid.
    pub open spec fn best_centroid_upto(&self, v: Seq<int>, i: int) -> int
        decreases i,
    {
        if i <= 0 {
            -1
        } else {
            let prev = self.best_centroid_upto(v, i - 1);
            if self.partitions@[i - 1].centroid is Some {
                if prev == -1 || self.centroid_dist(v, i - 1) < self.centroid_dist(v, prev) {
                    i - 1
                } else {
                    prev
                }
            } else {
                prev
            }
        }
    }

    /// The partition an insert routes to: the nearest warm centroid once a
    /// rebuild has produced any, else a deterministic hash of the vector
    /// (so equal vectors land in the same partition before any clustering
    /// signal exists).
    pub open spec fn route_spec(&self, v64: Seq<i64>) -> int {
        let best = self.best_centroid_upto(int_seq(v64), self.partitions@.len() as int);
        if best >= 0 {
            best
        } else {
            fnv1a64_components(v64) as int % self.partitions@.len() as int
        }
    }

    /// Selects the target partition for an insert.
    #[verifier::loop_isolation(false)]
    fn route(&self, v64: &Vec<i64>) -> (t: usize)
        requires
            self.wf(),
            v64@.len() == self.dimension,
            bounded_seq(int_seq(v64@)),
        ensures
            t as int == self.route_spec(v64@),
            t < self.partitions@.len(),
    {
        let ghost v = int_seq(v64@);
        let mut best: usize = 0;
        let mut best_d: i128 = 0;
        let mut found: bool = false;
        let mut i: usize = 0;
        while i < self.partitions.len()
            invariant
                i <= self.partitions@.len(),
                !found ==> self.best_centroid_upto(v, i as int) == -1,
                found ==> {
                    &&& best < i
                    &&& self.partitions@[best as int].centroid is Some
                    &&& best_d as int == self.centroid_dist(v, best as int)
                    &&& best as int == self.best_centroid_upto(v, i as int)
                },
            decreases self.partitions@.len() - i,
        {
            match &self.partitions[i].centroid {
                Some(c) => {
                    proof {
                        assert(self.partitions@[i as int].wf());
                    }
                    let d = metric_distance(self.search_metric, v64, c);
                    if !found || d < best_d {
                        best = i;
                        best_d = d;
                        found = true;
                    }
                },
                None => {},
            }
            i = i + 1;
        }
        if found {
            best
        } else {
            let h = hash_vector_id(v64);
            let t = (h % (self.partitions.len() as u64)) as usize;
            t
        }
    }

    /// Removes one victim entry per the configured policy.  `Lru` and
    /// `Lfu` fall back to the earliest stored entry (the access tracker
    /// that would supply recency or frequency data is an external
    /// collaborator); `Random` draws the victim position from the seeded
    /// generator.
    #[verifier::loop_isolation(false)]
    fn evict_one(&mut self, sz: usize)
        requires
            old(self).wf(),
            sz as int == old(self).spec_size(),
            sz >= 1,
        ensures
            final(self).wf(),
            same_config(*old(self), *final(self)),
            final(self).partitions@.len() == old(self).partitions@.len(),
            final(self).spec_size() == old(self).spec_size() - 1,
            final(self).op_counter == old(self).op_counter,
            final(self).next_id == old(self).next_id,
    {
        let g: usize = match self.eviction_strategy {
            EvictionPolicy::Random => {
                self.rng_state = self.rng_state.wrapping_mul(6364136223846793005).wrapping_add(
                    1442695040888963407,
                );
                (self.rng_state % (sz as u64)) as usize
            },
            _ => 0,
        };
        let ghost counts = self.partition_counts();
        let mut rem: usize = g;
        let mut pi: usize = 0;
        proof {
            assert(counts.take(0) =~= Seq::<int>::empty());
            assert(forall|k: int| 0 <= k < counts.len() ==> #[trigger] counts[k] >= 0);
            assert(counts.take(counts.len() as int) =~= counts);
        }
        while pi < self.partitions.len()
            invariant
                pi <= self.partitions@.len(),
                self.partitions@ == old(self).partitions@,
                same_config(*old(self), *self),
                self.op_counter == old(self).op_counter,
                self.next_id == old(self).next_id,
                self.wf(),
                rem as int == g - sum_int(counts.take(pi as int)),
                sum_int(counts.take(pi as int)) <= g,
                g < sz,
                sz as int == sum_int(counts),
            decreases self.partitions@.len() - pi,
        {
            proof {
                assert(counts.take(pi as int + 1).drop_last() =~= counts.take(pi as int));
                assert(counts.take(pi as int + 1).last() == counts[pi as int]);
            }
            let c = self.partitions[pi].entry_count;
            if rem < c {
                (&mut self.partitions[pi]).remove_entry_at(rem);
                proof {
                    lemma_sum_int_update(counts, pi as int, counts[pi as int] - 1);
                    assert(self.partition_counts() =~= counts.update(
                        pi as int,
                        counts[pi as int] - 1,
                    ));
                    assert(self.partition_caps() =~= old(self).partition_caps());
                }
                return;
            }
            rem = rem - c;
            pi = pi + 1;
        }
        proof {
            assert(counts.take(self.partitions@.len() as int) =~= counts);
            assert(false);
        }
    }

    /// Inserts a vector under a fresh identifier: validate the dimension,
    /// evict (or reject) when full, route to a partition, and delegate;
    /// every `centroid_rebuild_interval` successful inserts trigger a full
    /// rebuild.
    #[verifier::rlimit(100)]
    pub fn insert(&mut self, vector: &Vec<i32>, overwrite: bool) -> (r: Result<bool, InsertError>)
        requires
            old(self).wf(),
        ensures
            final(self).wf(),
            same_config(*old(self), *final(self)),
            final(self).partitions@.len() == old(self).partitions@.len(),
            (vector@.len() != old(self).dimension) <==> r == Err::<bool, InsertError>(
                InsertError::DimensionMismatch,
            ),
            vector@.len() != old(self).dimension ==> same_state(*old(self), *final(self)),
            (vector@.len() == old(self).dimension && old(self).spec_size() >= old(
                self,
            ).max_entries as int && !old(self).eager_eviction) ==> r == Err::<bool, InsertError>(
                InsertError::CapacityExceeded,
            ) && same_state(*old(self), *final(self)),
            (vector@.len() == old(self).dimension && old(self).spec_size() >= old(
                self,
            ).max_entries as int && old(self).eager_eviction && old(self).spec_size() == 0) ==> r
                == Err::<bool, InsertError>(InsertError::CapacityExceeded) && same_state(
                *old(self),
                *final(self),
            ),
            (vector@.len() == old(self).dimension && old(self).spec_size() >= old(
                self,
            ).max_entries as int && old(self).eager_eviction && old(self).spec_size() > 0)
                ==> final(self).spec_size() <= old(self).spec_size(),
            r == Ok::<bool, InsertError>(true) ==> final(self).spec_size() <= old(self).spec_size()
                + 1,
            (vector@.len() == old(self).dimension && old(self).next_id == u64::MAX) ==> r
                == Err::<bool, InsertError>(InsertError::CapacityExceeded) && same_state(
                *old(self),
                *final(self),
            ),
            (vector@.len() == old(self).dimension && old(self).next_id < u64::MAX && old(
                self,
            ).spec_size() < old(self).max_entries as int) ==> insert_core_post(
                *old(self),
                *final(self),
                vector@,
                overwrite,
                r,
            ),
            (vector@.len() == old(self).dimension && old(self).next_id < u64::MAX && old(
                self,
            ).spec_size() >= old(self).max_entries as int && old(self).eager_eviction && old(
                self,
            ).spec_size() > 0) ==> exists|mid: VectorCache|
                #[trigger] evicted_state(*old(self), mid) && insert_core_post(
                    mid,
                    *final(self),
                    vector@,
                    overwrite,
                    r,
                ),
    {
        let ghost pre = *self;
        if vector.len() != self.dimension {
            return Err(InsertError::DimensionMismatch);
        }
        if self.next_id == u64::MAX {
            // The identifier space is exhausted: treat it as capacity
            // exhaustion rather than reuse an identifier.
            return Err(InsertError::CapacityExceeded);
        }
        let sz = self.size();
        if sz >= self.max_entries {
            if !self.eager_eviction {
                return Err(InsertError::CapacityExceeded);
            }
            if sz == 0 {
                return Err(InsertError::CapacityExceeded);
            }
            self.evict_one(sz);
        }
        let ghost evicted = *self;
        let v64 = widen_vector(vector);
        let t = self.route(&v64);
        let id = self.next_id;
        let res = (&mut self.partitions[t]).insert(&v64, overwrite, id);
        proof {
            assert(self.partition_caps() =~= evicted.partition_caps());
            let counts = evicted.partition_counts();
            assert(self.partition_counts() =~= counts.update(
                t as int,
                self.partitions@[t as int].entry_count as int,
            ));
            lemma_sum_int_update(
                counts,
                t as int,
                self.partitions@[t as int].entry_count as int,
            );
        }
        match res {
            Ok(b) => {
                let ghost pmid_wit = self.partitions@[t as int];
                proof {
                    assert(self.partitions@ =~= evicted.partitions@.update(t as int, pmid_wit));
                }
                let ghost parts_mid = self.partitions@;
                proof {
                    assert(pairwise_distinct_ids_in(evicted.partitions@[t as int]));
                    assert(partition_ids_below(
                        evicted.partitions@[t as int],
                        evicted.next_id as int,
                    ));
                    lemma_attempt_ids(
                        evicted.partitions@[t as int],
                        pmid_wit,
                        v64@,
                        overwrite,
                        evicted.next_id,
                        Ok::<bool, InsertError>(b),
                    );
                    lemma_insert_ids(evicted.partitions@, parts_mid, t as int, evicted.next_id);
                }
                self.next_id = self.next_id.wrapping_add(1);
                proof {
                    assert(self.next_id as int == evicted.next_id as int + 1);
                    assert(ids_unique(self.partitions@));
                    assert(cache_ids_below(self.partitions@, self.next_id as int));
                }
                let trigger = self.centroid_update == 0 || self.op_counter
                    >= self.centroid_update - 1;
                if trigger {
                    self.rebuild();
                } else {
                    self.op_counter = self.op_counter + 1;
                }
                proof {
                    let p0 = evicted.partitions@[t as int];
                    if p0.entry_count < p0.max_entries && !(!overwrite && p0.is_duplicate(
                        int_seq32(vector@),
                    )) {
                        assert(insert_attempt_post(
                            p0,
                            pmid_wit,
                            v64@,
                            overwrite,
                            evicted.next_id,
                            Ok::<bool, InsertError>(b),
                        ));
                        assert(evicted.partitions@.update(t as int, pmid_wit) == parts_mid);
                        assert(v64@ == widen_seq(vector@));
                        assert(t as int == evicted.route_spec(widen_seq(vector@)));
                        assert(self.next_id == evicted.next_id.wrapping_add(1));
                        if evicted.op_counter + 1 >= evicted.centroid_update {
                            assert(self.op_counter == 0);
                            assert(forall|k: int|
                                0 <= k < parts_mid.len() ==> rebuilt_rel(
                                    parts_mid[k],
                                    #[trigger] self.partitions@[k],
                                ));
                        } else {
                            assert(self.op_counter == evicted.op_counter + 1);
                            assert(self.partitions@ == parts_mid);
                        }
                        assert(cache_insert_step(
                            evicted,
                            *self,
                            pmid_wit,
                            vector@,
                            overwrite,
                            Ok::<bool, InsertError>(b),
                        ));
                        assert(insert_core_post(
                            evicted,
                            *self,
                            vector@,
                            overwrite,
                            Ok::<bool, InsertError>(b),
                        ));
                    }
                    if pre.spec_size() >= pre.max_entries as int {
                        assert(evicted_state(pre, evicted));
                    }
                }
                Ok(b)
            },
            Err(e) => {
                proof {
                    let p0 = evicted.partitions@[t as int];
                    if p0.entry_count < p0.max_entries && !(!overwrite && p0.is_duplicate(
                        int_seq32(vector@),
                    )) {
                        let pmid_wit = self.partitions@[t as int];
                        assert(pairwise_distinct_ids_in(p0));
                        assert(partition_ids_below(p0, evicted.next_id as int));
                        lemma_attempt_ids(
                            p0,
                            pmid_wit,
                            v64@,
                            overwrite,
                            evicted.next_id,
                            Err::<bool, InsertError>(e),
                        );
                        lemma_insert_ids(
                            evicted.partitions@,
                            evicted.partitions@.update(t as int, pmid_wit),
                            t as int,
                            evicted.next_id,
                        );
                        assert(partition_ids_below(pmid_wit, evicted.next_id as int));
                        assert forall|u: int| 0 <= u < self.partitions@.len()
                            implies partition_ids_below(
                            #[trigger] self.partitions@[u],
                            self.next_id as int,
                        ) by {
                            if u != t as int {
                                assert(self.partitions@[u] == evicted.partitions@[u]);
                            }
                        }
                        assert(ids_unique(self.partitions@));
                        assert(cache_ids_below(self.partitions@, self.next_id as int));
                        assert(insert_attempt_post(
                            p0,
                            pmid_wit,
                            v64@,
                            overwrite,
                            evicted.next_id,
                            Err::<bool, InsertError>(e),
                        ));
                        assert(self.partitions@ =~= evicted.partitions@.update(
                            t as int,
                            pmid_wit,
                        ));
                        assert(cache_insert_step(
                            evicted,
                            *self,
                            pmid_wit,
                            vector@,
                            overwrite,
                            Err::<bool, InsertError>(e),
                        ));
                    } else {
                        assert(self.partitions@ =~= evicted.partitions@);
                        assert(same_state(evicted, *self));
                    }
                    assert(insert_core_post(
                        evicted,
                        *self,
                        vector@,
                        overwrite,
                        Err::<bool, InsertError>(e),
                    ));
                    if pre.spec_size() >= pre.max_entries as int {
                        assert(evicted_state(pre, evicted));
                    }
                }
                Err(e)
            },
        }
    }

    /// Whether a reported pair names a live entry of some partition,
    /// scored exactly under the configured metric.
    pub open spec fn scores_some_entry(&self, q: Seq<int>, p: (u64, i128)) -> bool {
        exists|pi: int|
            0 <= pi < self.partitions@.len() && (#[trigger] self.partitions@[pi]).scores_entry(
                self.search_metric,
                q,
                p,
            )
    }

    /// The pair's identifier is stored in one of the first `s` selected
    /// partitions.
    pub open spec fn pair_from_batches(&self, sel: Seq<usize>, s: int, pr: (u64, i128)) -> bool {
        exists|s1: int|
            0 <= s1 < s && #[trigger] pair_id_in(self.partitions@[sel[s1] as int], pr)
    }

    /// No partition has a warm centroid yet, so a query scans everything.
    pub open spec fn cold(&self) -> bool {
        forall|pi: int| 0 <= pi < self.partitions@.len()
            ==> (#[trigger] self.partitions@[pi]).centroid is None
    }

    /// Answers a k-nearest query: score the query against every warm
    /// centroid, scan the nearest partitions within the
    /// `search_candidates` budget (all partitions while no centroid is
    /// warm), drop candidates past the threshold, and return the first
    /// `top_k` sorted ascending by distance with ties broken by id.  An
    /// empty cache simply answers with an empty sequence.
    #[verifier::loop_isolation(false)]
    #[verifier::rlimit(100)]
    pub fn query(&self, vector: &Vec<i32>, top_k: usize, threshold: Option<i128>) -> (r: Result<
        Vec<(u64, i128)>,
        InsertError,
    >)
        requires
            self.wf(),
        ensures
            r is Err <==> vector@.len() != self.dimension,
            r matches Err(e) ==> e == InsertError::DimensionMismatch,
            r matches Ok(res) ==> {
                &&& res@.len() <= top_k
                &&& res@.len() <= self.search_candidates
                &&& sorted_pairs(res@)
                &&& distinct_ids(res@)
                &&& (threshold matches Some(t) ==> forall|k: int|
                    0 <= k < res@.len() ==> (#[trigger] res@[k]).1 <= t)
                &&& forall|k: int| 0 <= k < res@.len() ==> self.scores_some_entry(
                    int_seq32(vector@),
                    #[trigger] res@[k],
                )
                &&& (self.cold() && threshold is None && top_k as int >= self.spec_size()
                    && self.search_candidates as int >= self.spec_size() ==> res@.len()
                    == self.spec_size())
            },
    {
        broadcast use vstd::seq_lib::group_to_multiset_ensures;

        if vector.len() != self.dimension {
            return Err(InsertError::DimensionMismatch);
        }
        let ghost v = int_seq32(vector@);
        let ghost counts = self.partition_counts();
        let v64 = widen_vector(vector);
        let kind = self.search_metric;
        let mut scored: Vec<(u64, i128)> = Vec::new();
        let mut i: usize = 0;
        while i < self.partitions.len()
            invariant
                i <= self.partitions@.len(),
                forall|k: int| 0 <= k < scored@.len() ==> (#[trigger] scored@[k]).0
                    < self.partitions@.len() as u64,
                forall|k: int| 0 <= k < scored@.len() ==> (#[trigger] scored@[k]).0 < i as u64,
                forall|k1: int, k2: int| 0 <= k1 < k2 < scored@.len()
                    ==> (#[trigger] scored@[k1]).0 < (#[trigger] scored@[k2]).0,
                self.cold() ==> scored@.len() == 0,
            decreases self.partitions@.len() - i,
        {
            match &self.partitions[i].centroid {
                Some(c) => {
                    proof {
                        assert(self.partitions@[i as int].wf());
                        assert(!(self.partitions@[i as int].centroid is None));
                    }
                    let d = metric_distance(kind, &v64, c);
                    scored.push((i as u64, d));
                },
                None => {},
            }
            i = i + 1;
        }
        let mut sel: Vec<usize> = Vec::new();
        if scored.len() == 0 {
            let mut pi: usize = 0;
            while pi < self.partitions.len()
                invariant
                    pi <= self.partitions@.len(),
                    sel@.len() == pi,
                    forall|k: int| 0 <= k < pi ==> #[trigger] sel@[k] == k,
                decreases self.partitions@.len() - pi,
            {
                sel.push(pi);
                pi = pi + 1;
            }
            proof {
                assert(forall|j1: int, j2: int| 0 <= j1 < j2 < sel@.len()
                    ==> #[trigger] sel@[j1] != #[trigger] sel@[j2]);
            }
        } else {
            let ranked = sort_pairs(scored);
            proof {
                lemma_permutation_keeps_distinct_ids(scored@, ranked@);
                assert forall|k: int| 0 <= k < ranked@.len() implies (#[trigger] ranked@[k]).0
                    < self.partitions@.len() as u64 by {
                    assert(ranked@.to_multiset().count(ranked@[k]) > 0) by {
                        assert(ranked@.contains(ranked@[k]));
                    }
                    assert(scored@.to_multiset().count(ranked@[k]) > 0);
                    assert(scored@.contains(ranked@[k]));
                    let j = choose|j: int| 0 <= j < scored@.len() && scored@[j] == ranked@[k];
                    assert(scored@[j].0 < self.partitions@.len() as u64);
                }
            }
            let probe: usize = if ranked.len() < 2 {
                ranked.len()
            } else {
                2
            };
            let mut j: usize = 0;
            while j < probe
                invariant
                    j <= probe,
                    probe <= ranked@.len(),
                    sel@.len() == j,
                    distinct_ids(ranked@),
                    forall|k: int| 0 <= k < ranked@.len() ==> (#[trigger] ranked@[k]).0
                        < self.partitions@.len() as u64,
                    forall|k: int| 0 <= k < sel@.len() ==> #[trigger] sel@[k]
                        < self.partitions@.len(),
                    forall|k: int| 0 <= k < sel@.len() ==> #[trigger] sel@[k] as u64
                        == ranked@[k].0,
                    forall|j1: int, j2: int| 0 <= j1 < j2 < sel@.len() ==> #[trigger] sel@[j1]
                        != #[trigger] sel@[j2],
                decreases probe - j,
            {
                proof {
                    assert(ranked@.to_multiset().count(ranked@[j as int]) > 0) by {
                        assert(ranked@.contains(ranked@[j as int]));
                    }
                }
                sel.push(ranked[j].0 as usize);
                j = j + 1;
            }
        }
        let mut cands: Vec<(u64, i128)> = Vec::new();
        let mut budget = self.search_candidates;
        let mut s: usize = 0;
        proof {
            assert(counts.take(0) =~= Seq::<int>::empty());
            assert(forall|k: int| 0 <= k < counts.len() ==> #[trigger] counts[k] >= 0);
            lemma_sum_int_take_le(counts, counts.len() as int);
            assert(counts.take(counts.len() as int) =~= counts);
        }
        while s < sel.len()
            invariant
                s <= sel@.len(),
                forall|k: int| 0 <= k < sel@.len() ==> #[trigger] sel@[k]
                    < self.partitions@.len(),
                budget as int == self.search_candidates as int - cands@.len(),
                cands@.len() <= self.search_candidates,
                forall|k: int| 0 <= k < cands@.len() ==> self.scores_some_entry(
                    v,
                    #[trigger] cands@[k],
                ),
                distinct_ids(cands@),
                forall|j1: int, j2: int| 0 <= j1 < j2 < sel@.len() ==> #[trigger] sel@[j1]
                    != #[trigger] sel@[j2],
                forall|k: int| 0 <= k < sel@.len() ==> #[trigger] sel@[k]
                    < self.partitions@.len(),
                forall|k: int| 0 <= k < cands@.len() ==> self.pair_from_batches(
                    sel@,
                    s as int,
                    #[trigger] cands@[k],
                ),
                (self.cold() && self.search_candidates as int >= self.spec_size()) ==> (sel@.len()
                    == self.partitions@.len() && s <= counts.len() && (forall|k: int|
                    0 <= k < sel@.len() ==> #[trigger] sel@[k] == k) && cands@.len() == sum_int(
                    counts.take(s as int),
                )),
            decreases sel@.len() - s,
        {
            let pi = sel[s];
            proof {
                assert(self.partitions@[pi as int].wf());
                if self.cold() && self.search_candidates as int >= self.spec_size() {
                    assert(counts.take(s as int + 1).drop_last() =~= counts.take(s as int));
                    assert(counts.take(s as int + 1).last() == counts[s as int]);
                    lemma_sum_int_take_le(counts, s as int + 1);
                }
            }
            let mut got = self.partitions[pi].query(&v64, kind, budget);
            let ghost got0 = got@;
            proof {
                assert(forall|k: int| 0 <= k < got@.len() ==> self.partitions@[
                pi as int].scores_entry(kind, v, #[trigger] got@[k]));
            }
            budget = budget - got.len();
            let ghost cands0 = cands@;
            cands.append(&mut got);
            proof {
                assert(cands@ == cands0 + got0);
                assert forall|k: int| 0 <= k < cands@.len() implies self.scores_some_entry(
                    v,
                    #[trigger] cands@[k],
                ) && self.pair_from_batches(sel@, s as int + 1, cands@[k]) by {
                    if k < cands0.len() {
                        assert(cands@[k] == cands0[k]);
                        assert(self.pair_from_batches(sel@, s as int, cands0[k]));
                        let s1 = choose|s1: int|
                            0 <= s1 < s as int && #[trigger] pair_id_in(
                                self.partitions@[sel@[s1] as int],
                                cands0[k],
                            );
                        assert(pair_id_in(self.partitions@[sel@[s1] as int], cands@[k]));
                    } else {
                        assert(cands@[k] == got0[k - cands0.len()]);
                        assert(self.partitions@[pi as int].scores_entry(
                            kind,
                            v,
                            got0[k - cands0.len()],
                        ));
                        assert(pair_id_in(self.partitions@[sel@[s as int] as int], cands@[k]));
                    }
                }
                assert forall|k1: int, k2: int| 0 <= k1 < k2 < cands@.len() implies (
                #[trigger] cands@[k1]).0 != (#[trigger] cands@[k2]).0 by {
                    if k2 < cands0.len() {
                        assert(cands@[k1] == cands0[k1] && cands@[k2] == cands0[k2]);
                    } else if k1 >= cands0.len() {
                        assert(cands@[k1] == got0[k1 - cands0.len()]);
                        assert(cands@[k2] == got0[k2 - cands0.len()]);
                    } else {
                        assert(cands@[k1] == cands0[k1]);
                        assert(cands@[k2] == got0[k2 - cands0.len()]);
                        assert(self.pair_from_batches(sel@, s as int, cands0[k1]));
                        let s1 = choose|s1: int|
                            0 <= s1 < s as int && #[trigger] pair_id_in(
                                self.partitions@[sel@[s1] as int],
                                cands0[k1],
                            );
                        let (si1, ei1) = choose|si: int, ei: int| #[trigger] id_at(
                            self.partitions@[sel@[s1] as int],
                            si,
                            ei,
                            cands0[k1].0,
                        );
                        assert(pair_id_in(self.partitions@[pi as int], cands@[k2]));
                        let (si2, ei2) = choose|si: int, ei: int| #[trigger] id_at(
                            self.partitions@[pi as int],
                            si,
                            ei,
                            cands@[k2].0,
                        );
                        assert(sel@[s1] != sel@[s as int]);
                        if cands@[k1].0 == cands@[k2].0 {
                            assert(self.partitions@[sel@[s1] as int].shards@[si1].entries@[
                            ei1].entry_id == self.partitions@[pi as int].shards@[si2].entries@[
                            ei2].entry_id);
                        }
                    }
                }
            }
            s = s + 1;
        }
        proof {
            if self.cold() && self.search_candidates as int >= self.spec_size() {
                assert(counts.take(sel@.len() as int) =~= counts);
            }
        }
        let filtered = match threshold {
            Some(t) => {
                let f = filter_pairs(&cands, t);
                proof {
                    assert forall|k: int| 0 <= k < f@.len() implies self.scores_some_entry(
                        v,
                        #[trigger] f@[k],
                    ) by {
                        assert(cands@.contains(f@[k]));
                        let j = choose|j: int| 0 <= j < cands@.len() && cands@[j] == f@[k];
                        assert(self.scores_some_entry(v, cands@[j]));
                    }
                }
                f
            },
            None => cands,
        };
        let ghost filtered0 = filtered@;
        let ranked = sort_pairs(filtered);
        proof {
            lemma_permutation_keeps_distinct_ids(filtered0, ranked@);
            assert forall|k: int| 0 <= k < ranked@.len() implies self.scores_some_entry(
                v,
                #[trigger] ranked@[k],
            ) && (threshold matches Some(t) ==> ranked@[k].1 <= t) by {
                assert(ranked@.to_multiset().count(ranked@[k]) > 0) by {
                    assert(ranked@.contains(ranked@[k]));
                }
                assert(filtered0.to_multiset().count(ranked@[k]) > 0);
                assert(filtered0.contains(ranked@[k]));
                let j = choose|j: int| 0 <= j < filtered0.len() && filtered0[j] == ranked@[k];
                assert(self.scores_some_entry(v, filtered0[j]));
                assert((threshold matches Some(t) ==> filtered0[j].1 <= t));
            }
        }
        let res = take_first(ranked, top_k);
        proof {
            assert(forall|k: int| 0 <= k < res@.len() ==> res@[k] == ranked@[k]);
        }
        Ok(res)
    }
}

impl Default for VectorCache {
    /// A small general-purpose cache: a thousand entries of dimension 4
    /// over four partitions of one shard each, cosine scoring, rejection
    /// (not eviction) when full, and a rebuild every hundred operations.
    fn default() -> (r: Self)
        ensures
            r.wf(),
            r.max_entries == 1000,
            r.partition_count == 4,
            r.shard_count == 1,
            r.dimension == 4,
            r.search_metric == MetricKind::Cosine,
            r.eviction_strategy == EvictionPolicy::Lru,
            !r.eager_eviction,
            r.spec_size() == 0,
    {
        let config = CacheConfig {
            cache_id: String::from_str("default_cache"),
            max_entries: 1000,
            dimension: 4,
            partition_count: 4,
            shard_count: 1,
            quantization_levels: 256,
            search_metric: String::from_str("cosine"),
            search_candidates: 100,
            eviction_strategy: String::from_str("LRU"),
            eager_eviction: false,
            thread_safe: true,
            centroid_rebuild_interval: 100,
            eviction_seed: 0,
        };
        proof {
            reveal_strlit("cosine");
            reveal_strlit("LRU");
            reveal_strlit("lru");
            assert(matches_fold("cosine"@, "cosine"@));
            assert(matches_fold("LRU"@, "lru"@));
        }
        match VectorCache::new(config) {
            Ok(c) => c,
            Err(_) => vstd::pervasive::unreached(),
        }
    }
}

/// One insert step past the rejections: the routed partition went through
/// [`insert_attempt_post`] to `pmid`; on failure the cache keeps `pmid` in
/// place with counters untouched, on success the identifier advances and
/// either the operation counter ticks or the interval elapsed and every
/// partition was rebuilt.
pub open spec fn cache_insert_step(
    pre: VectorCache,
    post: VectorCache,
    pmid: CachePartition,
    vec32: Seq<i32>,
    overwrite: bool,
    r: Result<bool, InsertError>,
) -> bool {
    let v64 = widen_seq(vec32);
    let t = pre.route_spec(v64);
    let p0 = pre.partitions@[t];
    let parts_mid = pre.partitions@.update(t, pmid);
    &&& insert_attempt_post(p0, pmid, v64, overwrite, pre.next_id, r)
    &&& (r is Err ==> post.partitions@ == parts_mid && post.op_counter == pre.op_counter
        && post.next_id == pre.next_id)
    &&& (r == Ok::<bool, InsertError>(true) ==> post.next_id == pre.next_id.wrapping_add(1) && (
    if pre.op_counter + 1 >= pre.centroid_update {
        post.op_counter == 0 && (forall|k: int|
            0 <= k < parts_mid.len() ==> rebuilt_rel(
                parts_mid[k],
                #[trigger] post.partitions@[k],
            ))
    } else {
        post.op_counter == pre.op_counter + 1 && post.partitions@ == parts_mid
    }))
}

/// Two cache states hold exactly the same contents and counters (the
/// diagnostic label and generator state included).
pub open spec fn same_state(a: VectorCache, b: VectorCache) -> bool {
    &&& same_config(a, b)
    &&& b.partitions@ == a.partitions@
    &&& b.op_counter == a.op_counter
    &&& b.next_id == a.next_id
    &&& b.rng_state == a.rng_state
}

/// No entry identifier appears twice within any one partition.
pub open spec fn ids_unique_within(parts: Seq<CachePartition>) -> bool {
    forall|pi: int| 0 <= pi < parts.len() ==> pairwise_distinct_ids_in(#[trigger] parts[pi])
}

/// No entry identifier appears in two different partitions.
pub open spec fn ids_disjoint_across(parts: Seq<CachePartition>) -> bool {
    forall|p1: int, s1: int, e1: int, p2: int, s2: int, e2: int|
        #![trigger parts[p1].shards@[s1].entries@[e1], parts[p2].shards@[s2].entries@[e2]]
        (0 <= p1 < parts.len() && 0 <= p2 < parts.len() && p1 != p2 && 0 <= s1
            < parts[p1].shards@.len() && 0 <= e1 < parts[p1].shards@[s1].entries@.len() && 0 <= s2
            < parts[p2].shards@.len() && 0 <= e2 < parts[p2].shards@[s2].entries@.len())
            ==> parts[p1].shards@[s1].entries@[e1].entry_id
            != parts[p2].shards@[s2].entries@[e2].entry_id
}

/// Entry identifiers are globally unique over the whole cache.
pub open spec fn ids_unique(parts: Seq<CachePartition>) -> bool {
    ids_unique_within(parts) && ids_disjoint_across(parts)
}

/// Every stored identifier lies below `bound`.
pub open spec fn cache_ids_below(parts: Seq<CachePartition>, bound: int) -> bool {
    forall|pi: int| 0 <= pi < parts.len() ==> partition_ids_below(#[trigger] parts[pi], bound)
}

/// Exactly one entry was removed, from partition `pi`.
pub open spec fn evicted_from(
    pre: Seq<CachePartition>,
    post: Seq<CachePartition>,
    pi: int,
) -> bool {
    &&& 0 <= pi < pre.len()
    &&& post.len() == pre.len()
    &&& (forall|u: int| 0 <= u < pre.len() && u != pi ==> post[u] == pre[u])
    &&& removed_one_entry(pre[pi], post[pi])
}

/// Identifier facts transfer between cache states whose partitions hold
/// the same shards (a rebuild changes centroids only).
pub proof fn lemma_ids_transfer(a: Seq<CachePartition>, b: Seq<CachePartition>, bound: int)
    requires
        b.len() == a.len(),
        forall|pi: int| 0 <= pi < a.len() ==> (#[trigger] b[pi]).shards@ == a[pi].shards@,
        ids_unique(a),
        cache_ids_below(a, bound),
    ensures
        ids_unique(b),
        cache_ids_below(b, bound),
{
    assert forall|pi: int| 0 <= pi < b.len() implies pairwise_distinct_ids_in(
        #[trigger] b[pi],
    ) && partition_ids_below(b[pi], bound) by {
        assert(pairwise_distinct_ids_in(a[pi]));
        assert(partition_ids_below(a[pi], bound));
        assert(b[pi].shards@ == a[pi].shards@);
    }
    assert forall|p1: int, s1: int, e1: int, p2: int, s2: int, e2: int|
        #![trigger b[p1].shards@[s1].entries@[e1], b[p2].shards@[s2].entries@[e2]]
        (0 <= p1 < b.len() && 0 <= p2 < b.len() && p1 != p2 && 0 <= s1 < b[p1].shards@.len() && 0
            <= e1 < b[p1].shards@[s1].entries@.len() && 0 <= s2 < b[p2].shards@.len() && 0 <= e2
            < b[p2].shards@[s2].entries@.len()) implies b[p1].shards@[s1].entries@[e1].entry_id
        != b[p2].shards@[s2].entries@[e2].entry_id by {
        assert(b[p1].shards@[s1].entries@[e1] == a[p1].shards@[s1].entries@[e1]);
        assert(b[p2].shards@[s2].entries@[e2] == a[p2].shards@[s2].entries@[e2]);
    }
}

/// Evicting one entry keeps identifiers globally unique and bounded.
pub proof fn lemma_evict_ids(
    pre: Seq<CachePartition>,
    post: Seq<CachePartition>,
    pi: int,
    bound: int,
)
    requires
        evicted_from(pre, post, pi),
        ids_unique(pre),
        cache_ids_below(pre, bound),
    ensures
        ids_unique(post),
        cache_ids_below(post, bound),
{
    lemma_removal_ids(pre[pi], post[pi], bound);
    assert forall|p1: int, s1: int, e1: int, p2: int, s2: int, e2: int|
        #![trigger post[p1].shards@[s1].entries@[e1], post[p2].shards@[s2].entries@[e2]]
        (0 <= p1 < post.len() && 0 <= p2 < post.len() && p1 != p2 && 0 <= s1
            < post[p1].shards@.len() && 0 <= e1 < post[p1].shards@[s1].entries@.len() && 0 <= s2
            < post[p2].shards@.len() && 0 <= e2 < post[p2].shards@[s2].entries@.len())
            implies post[p1].shards@[s1].entries@[e1].entry_id
        != post[p2].shards@[s2].entries@[e2].entry_id by {
        let id1: u64 = post[p1].shards@[s1].entries@[e1].entry_id;
        let id2: u64 = post[p2].shards@[s2].entries@[e2].entry_id;
        if p1 == pi {
            assert(entry_id_origin(pre[pi], post[pi], s1, e1));
            let (so, eo) = choose|so: int, eo: int| #[trigger] id_at(pre[pi], so, eo, id1);
            assert(pre[pi].shards@[so].entries@[eo].entry_id == id1);
            assert(post[p2].shards@[s2].entries@[e2] == pre[p2].shards@[s2].entries@[e2]);
        } else if p2 == pi {
            assert(entry_id_origin(pre[pi], post[pi], s2, e2));
            let (so, eo) = choose|so: int, eo: int| #[trigger] id_at(pre[pi], so, eo, id2);
            assert(pre[pi].shards@[so].entries@[eo].entry_id == id2);
            assert(post[p1].shards@[s1].entries@[e1] == pre[p1].shards@[s1].entries@[e1]);
        } else {
            assert(post[p1].shards@[s1].entries@[e1] == pre[p1].shards@[s1].entries@[e1]);
            assert(post[p2].shards@[s2].entries@[e2] == pre[p2].shards@[s2].entries@[e2]);
        }
    }
    assert forall|u: int| 0 <= u < post.len() implies pairwise_distinct_ids_in(
        #[trigger] post[u],
    ) && partition_ids_below(post[u], bound) by {
        if u != pi {
            assert(post[u] == pre[u]);
        }
    }
}

/// One partition went through an insert attempt with a fresh identifier;
/// identifiers stay globally unique and bounded by the next one.
pub proof fn lemma_insert_ids(
    pre: Seq<CachePartition>,
    post: Seq<CachePartition>,
    t: int,
    idv: u64,
)
    requires
        post.len() == pre.len(),
        0 <= t < pre.len(),
        forall|u: int| 0 <= u < pre.len() && u != t ==> post[u] == pre[u],
        ids_unique(pre),
        cache_ids_below(pre, idv as int),
        pairwise_distinct_ids_in(post[t]),
        partition_ids_below(post[t], idv as int + 1),
        forall|s1: int, e1: int|
            (0 <= s1 < post[t].shards@.len() && 0 <= e1 < post[t].shards@[s1].entries@.len())
                ==> (#[trigger] entry_id_origin(pre[t], post[t], s1, e1)
                || post[t].shards@[s1].entries@[e1].entry_id == idv),
    ensures
        ids_unique(post),
        cache_ids_below(post, idv as int + 1),
{
    assert forall|p1: int, s1: int, e1: int, p2: int, s2: int, e2: int|
        #![trigger post[p1].shards@[s1].entries@[e1], post[p2].shards@[s2].entries@[e2]]
        (0 <= p1 < post.len() && 0 <= p2 < post.len() && p1 != p2 && 0 <= s1
            < post[p1].shards@.len() && 0 <= e1 < post[p1].shards@[s1].entries@.len() && 0 <= s2
            < post[p2].shards@.len() && 0 <= e2 < post[p2].shards@[s2].entries@.len())
            implies post[p1].shards@[s1].entries@[e1].entry_id
        != post[p2].shards@[s2].entries@[e2].entry_id by {
        let id1: u64 = post[p1].shards@[s1].entries@[e1].entry_id;
        let id2: u64 = post[p2].shards@[s2].entries@[e2].entry_id;
        if p1 == t {
            assert(post[p2].shards@[s2].entries@[e2] == pre[p2].shards@[s2].entries@[e2]);
            if id1 == idv {
                assert((id2 as int) < idv as int);
            } else {
                assert(entry_id_origin(pre[t], post[t], s1, e1));
                let (so, eo) = choose|so: int, eo: int| #[trigger] id_at(pre[t], so, eo, id1);
                assert(pre[t].shards@[so].entries@[eo].entry_id == id1);
            }
        } else if p2 == t {
            assert(post[p1].shards@[s1].entries@[e1] == pre[p1].shards@[s1].entries@[e1]);
            if id2 == idv {
                assert((id1 as int) < idv as int);
            } else {
                assert(entry_id_origin(pre[t], post[t], s2, e2));
                let (so, eo) = choose|so: int, eo: int| #[trigger] id_at(pre[t], so, eo, id2);
                assert(pre[t].shards@[so].entries@[eo].entry_id == id2);
            }
        } else {
            assert(post[p1].shards@[s1].entries@[e1] == pre[p1].shards@[s1].entries@[e1]);
            assert(post[p2].shards@[s2].entries@[e2] == pre[p2].shards@[s2].entries@[e2]);
        }
    }
    assert forall|u: int| 0 <= u < post.len() implies pairwise_distinct_ids_in(
        #[trigger] post[u],
    ) && partition_ids_below(post[u], idv as int + 1) by {
        if u != t {
            assert(post[u] == pre[u]);
            assert(partition_ids_below(pre[u], idv as int));
        }
    }
}

/// What one eager eviction leaves behind: the same wiring and counters,
/// a well-formed state, and exactly one entry fewer (the victim class is
/// the configured policy's concern; see `EvictionPolicy`).
pub open spec fn evicted_state(pre: VectorCache, mid: VectorCache) -> bool {
    &&& same_config(pre, mid)
    &&& mid.wf()
    &&& mid.partitions@.len() == pre.partitions@.len()
    &&& mid.spec_size() == pre.spec_size() - 1
    &&& mid.op_counter == pre.op_counter
    &&& mid.next_id == pre.next_id
}

/// The behavior of an insert from state `pre` once the dimension and
/// cache-capacity gates have been passed: the routed partition either
/// rejects (full or duplicate, state kept) or goes through one
/// [`cache_insert_step`].
pub open spec fn insert_core_post(
    pre: VectorCache,
    post: VectorCache,
    vec32: Seq<i32>,
    overwrite: bool,
    r: Result<bool, InsertError>,
) -> bool {
    let v64 = widen_seq(vec32);
    let v = int_seq32(vec32);
    let t = pre.route_spec(v64);
    let p0 = pre.partitions@[t];
    &&& (p0.entry_count >= p0.max_entries ==> r == Err::<bool, InsertError>(
        InsertError::CapacityExceeded,
    ) && same_state(pre, post))
    &&& ((p0.entry_count < p0.max_entries && !overwrite && p0.is_duplicate(v)) ==> r == Err::<
        bool,
        InsertError,
    >(InsertError::DuplicateEntry) && same_state(pre, post))
    &&& ((p0.entry_count < p0.max_entries && !(!overwrite && p0.is_duplicate(v)))
        ==> exists|pmid: CachePartition| #[trigger] cache_insert_step(
        pre,
        post,
        pmid,
        vec32,
        overwrite,
        r,
    ))
}

/// The configuration fields two cache states share when only contents (not
/// wiring) changed.
pub open spec fn same_config(a: VectorCache, b: VectorCache) -> bool {
    &&& b.cache_id@ == a.cache_id@
    &&& b.max_entries == a.max_entries
    &&& b.partition_count == a.partition_count
    &&& b.shard_count == a.shard_count
    &&& b.dimension == a.dimension
    &&& b.centroid_update == a.centroid_update
    &&& b.quantization_levels == a.quantization_levels
    &&& b.search_metric == a.search_metric
    &&& b.search_candidates == a.search_candidates
    &&& b.eviction_strategy == a.eviction_strategy
    &&& b.eager_eviction == a.eager_eviction
    &&& b.thread_safe == a.thread_safe
}

/// Pointwise, a partition's count is bounded by its capacity.
pub proof fn lemma_partition_counts_le_caps(c: VectorCache)
    requires
        c.wf(),
    ensures
        forall|i: int| 0 <= i < c.partition_counts().len() ==> #[trigger] c.partition_counts()[i]
            <= c.partition_caps()[i],
{
    assert forall|i: int| 0 <= i < c.partition_counts().len() implies #[trigger] c
        .partition_counts()[i] <= c.partition_caps()[i] by {
        lemma_shard_counts_le_caps(c.partitions@[i]);
    }
}

/// The capacity invariant: a well-formed cache never holds more entries
/// than its configured capacity, and (through partition well-formedness)
/// every partition and shard respects its own split capacity.
pub proof fn lemma_size_le_capacity(c: VectorCache)
    requires
        c.wf(),
    ensures
        c.spec_size() <= c.max_entries as int,
        forall|i: int| 0 <= i < c.partitions@.len()
            ==> (#[trigger] c.partitions@[i]).entry_count <= c.partitions@[i].max_entries,
{
    lemma_partition_counts_le_caps(c);
    lemma_sum_int_le(c.partition_counts(), c.partition_caps());
    assert forall|i: int| 0 <= i < c.partitions@.len() implies (#[trigger] c.partitions@[
    i]).entry_count <= c.partitions@[i].max_entries by {
        lemma_shard_counts_le_caps(c.partitions@[i]);
    }
}

} // verus!
