use simcache::cache::vector_cache::{CacheConfig, VectorCache};
use simcache::errors::InsertError;

fn config(max_entries: usize, partitions: usize, shards: usize, metric: &str) -> CacheConfig {
    CacheConfig {
        cache_id: String::from("test-cache"),
        max_entries,
        dimension: 3,
        partition_count: partitions,
        shard_count: shards,
        quantization_levels: 256,
        search_metric: String::from(metric),
        search_candidates: 100,
        eviction_strategy: String::from("LRU"),
        eager_eviction: false,
        thread_safe: false,
        centroid_rebuild_interval: 1000,
        eviction_seed: 7,
    }
}

#[test]
fn rejects_zero_partition_count() {
    let mut c = config(10, 0, 1, "cosine");
    c.partition_count = 0;
    assert_eq!(VectorCache::new(c).err(), Some(InsertError::InvalidConfiguration));
}

#[test]
fn rejects_zero_shard_count() {
    let c = config(10, 2, 0, "cosine");
    assert_eq!(VectorCache::new(c).err(), Some(InsertError::InvalidConfiguration));
}

#[test]
fn rejects_unknown_metric() {
    let c = config(10, 2, 1, "manhattan");
    assert_eq!(VectorCache::new(c).err(), Some(InsertError::InvalidConfiguration));
}

#[test]
fn rejects_unknown_eviction_strategy() {
    let mut c = config(10, 2, 1, "cosine");
    c.eviction_strategy = String::from("Semantic");
    assert_eq!(VectorCache::new(c).err(), Some(InsertError::InvalidConfiguration));
}

#[test]
fn rejects_degenerate_quantization() {
    let mut c = config(10, 2, 1, "cosine");
    c.quantization_levels = 1;
    assert_eq!(VectorCache::new(c).err(), Some(InsertError::InvalidConfiguration));
}

#[test]
fn capacity_split_ten_over_three() {
    // max_entries = 10 over 3 partitions gives {4, 3, 3}, remainder first.
    let cache = VectorCache::new(config(10, 3, 1, "euclidean")).unwrap();
    let caps: Vec<usize> = cache.partitions.iter().map(|p| p.max_entries).collect();
    assert_eq!(caps, vec![4, 3, 3]);
}

#[test]
fn capacity_split_recurses_into_shards() {
    // The partition of capacity 4 splits over 3 shards as {2, 1, 1}.
    let cache = VectorCache::new(config(10, 3, 3, "euclidean")).unwrap();
    let shard_caps: Vec<usize> =
        cache.partitions[0].shards.iter().map(|s| s.max_entries).collect();
    assert_eq!(shard_caps, vec![2, 1, 1]);
    let shard_caps1: Vec<usize> =
        cache.partitions[1].shards.iter().map(|s| s.max_entries).collect();
    assert_eq!(shard_caps1, vec![1, 1, 1]);
}

#[test]
fn dimension_mismatch_is_rejected() {
    let mut cache = VectorCache::new(config(4, 1, 1, "euclidean")).unwrap();
    assert_eq!(cache.insert(&vec![1, 2, 3, 4], false).err(), Some(InsertError::DimensionMismatch));
    assert_eq!(
        cache.query(&vec![1], 3, None).err(),
        Some(InsertError::DimensionMismatch)
    );
}

#[test]
fn duplicate_insert_is_rejected() {
    let mut cache = VectorCache::new(config(4, 1, 1, "euclidean")).unwrap();
    assert_eq!(cache.insert(&vec![1, 2, 3], false), Ok(true));
    assert_eq!(cache.insert(&vec![1, 2, 3], false).err(), Some(InsertError::DuplicateEntry));
    assert_eq!(cache.size(), 1);
}

#[test]
fn overwrite_replaces_without_growing() {
    let mut cache = VectorCache::new(config(4, 1, 1, "euclidean")).unwrap();
    assert_eq!(cache.insert(&vec![1, 2, 3], true), Ok(true));
    assert_eq!(cache.size(), 1);
    assert_eq!(cache.insert(&vec![1, 2, 3], true), Ok(true));
    assert_eq!(cache.size(), 1);
}

#[test]
fn end_to_end_fill_and_reject() {
    // max_entries = 4 over 2 partitions of 1 shard each; the four vectors
    // below hash-route two into each partition while no centroid is warm.
    let mut cache = VectorCache::new(config(4, 2, 1, "euclidean")).unwrap();
    assert_eq!(cache.insert(&vec![0, 0, 0], false), Ok(true));
    assert_eq!(cache.insert(&vec![1, 0, 0], false), Ok(true));
    assert_eq!(cache.insert(&vec![0, 1, 0], false), Ok(true));
    assert_eq!(cache.insert(&vec![1, 1, 0], false), Ok(true));
    assert_eq!(cache.size(), 4);
    assert!(cache.is_full());
    assert_eq!(cache.insert(&vec![1, 0, 1], false).err(), Some(InsertError::CapacityExceeded));
    assert_eq!(cache.size(), 4);
}

#[test]
fn query_orders_by_distance_then_id() {
    let mut cache = VectorCache::new(config(8, 1, 1, "euclidean")).unwrap();
    cache.insert(&vec![8, 6, 0], false).unwrap(); // id 0, distance 100
    cache.insert(&vec![3, 4, 0], false).unwrap(); // id 1, distance 25
    cache.insert(&vec![0, 0, 0], false).unwrap(); // id 2, distance 0
    let res = cache.query(&vec![0, 0, 0], 3, None).unwrap();
    assert_eq!(res, vec![(2, 0), (1, 25), (0, 100)]);
}

#[test]
fn query_caps_results_at_top_k() {
    let mut cache = VectorCache::new(config(8, 1, 1, "euclidean")).unwrap();
    cache.insert(&vec![8, 6, 0], false).unwrap();
    cache.insert(&vec![3, 4, 0], false).unwrap();
    cache.insert(&vec![0, 0, 0], false).unwrap();
    let res = cache.query(&vec![0, 0, 0], 2, None).unwrap();
    assert_eq!(res, vec![(2, 0), (1, 25)]);
}

#[test]
fn query_threshold_filters_far_entries() {
    let mut cache = VectorCache::new(config(8, 1, 1, "euclidean")).unwrap();
    cache.insert(&vec![8, 6, 0], false).unwrap();
    cache.insert(&vec![3, 4, 0], false).unwrap();
    cache.insert(&vec![0, 0, 0], false).unwrap();
    let res = cache.query(&vec![0, 0, 0], 3, Some(25)).unwrap();
    assert_eq!(res, vec![(2, 0), (1, 25)]);
    for &(_, d) in res.iter() {
        assert!(d <= 25);
    }
}

#[test]
fn query_on_empty_cache_is_empty() {
    let cache = VectorCache::new(config(4, 2, 1, "cosine")).unwrap();
    assert_eq!(cache.query(&vec![1, 2, 3], 5, None).unwrap(), vec![]);
}

#[test]
fn rebuild_sets_centroid_to_mean() {
    let mut cache = VectorCache::new(config(8, 1, 1, "euclidean")).unwrap();
    cache.insert(&vec![0, 1, 2], false).unwrap();
    cache.insert(&vec![2, 1, 0], false).unwrap();
    cache.rebuild();
    assert_eq!(cache.partitions[0].centroid, Some(vec![1, 1, 1]));
}

#[test]
fn rebuild_leaves_empty_partition_without_centroid() {
    let mut cache = VectorCache::new(config(8, 2, 1, "euclidean")).unwrap();
    cache.rebuild();
    assert_eq!(cache.partitions[0].centroid, None);
    assert_eq!(cache.partitions[1].centroid, None);
}

#[test]
fn warm_routing_sends_vector_to_nearest_centroid() {
    let mut cache = VectorCache::new(config(8, 2, 1, "euclidean")).unwrap();
    // Seed both partitions, then rebuild so centroids are warm.
    cache.insert(&vec![0, 1, 0], false).unwrap(); // partition 0 (cold hash)
    cache.insert(&vec![0, 0, 0], false).unwrap(); // partition 1 (cold hash)
    cache.rebuild();
    let sizes_before = cache.partition_sizes();
    // The nearest centroid to [1, 1, 0] is partition 0's own [0, 1, 0].
    cache.insert(&vec![1, 1, 0], false).unwrap();
    let sizes_after = cache.partition_sizes();
    assert_eq!(sizes_after[0], sizes_before[0] + 1);
    assert_eq!(sizes_after[1], sizes_before[1]);
}

#[test]
fn eager_eviction_makes_room() {
    let mut c = config(2, 1, 1, "euclidean");
    c.eager_eviction = true;
    let mut cache = VectorCache::new(c).unwrap();
    assert_eq!(cache.insert(&vec![0, 0, 0], false), Ok(true));
    assert_eq!(cache.insert(&vec![1, 0, 0], false), Ok(true));
    assert_eq!(cache.size(), 2);
    assert_eq!(cache.insert(&vec![0, 1, 0], false), Ok(true));
    assert_eq!(cache.size(), 2);
}

#[test]
fn random_eviction_is_deterministic_per_seed() {
    let mut c = config(2, 1, 1, "euclidean");
    c.eager_eviction = true;
    c.eviction_strategy = String::from("Random");
    let mut first_sizes = Vec::new();
    for _round in 0..2 {
        let mut cache = VectorCache::new(CacheConfig {
            cache_id: String::from("seeded"),
            ..clone_config(&c)
        })
        .unwrap();
        cache.insert(&vec![0, 0, 0], false).unwrap();
        cache.insert(&vec![1, 0, 0], false).unwrap();
        cache.insert(&vec![0, 1, 0], false).unwrap();
        first_sizes.push(cache.partition_sizes());
    }
    assert_eq!(first_sizes[0], first_sizes[1]);
}

fn clone_config(c: &CacheConfig) -> CacheConfig {
    CacheConfig {
        cache_id: c.cache_id.clone(),
        max_entries: c.max_entries,
        dimension: c.dimension,
        partition_count: c.partition_count,
        shard_count: c.shard_count,
        quantization_levels: c.quantization_levels,
        search_metric: c.search_metric.clone(),
        search_candidates: c.search_candidates,
        eviction_strategy: c.eviction_strategy.clone(),
        eager_eviction: c.eager_eviction,
        thread_safe: c.thread_safe,
        centroid_rebuild_interval: c.centroid_rebuild_interval,
        eviction_seed: c.eviction_seed,
    }
}

#[test]
fn metrics_snapshot_reports_occupancy() {
    let mut cache = VectorCache::new(config(4, 2, 1, "euclidean")).unwrap();
    cache.insert(&vec![0, 0, 0], false).unwrap();
    cache.insert(&vec![1, 0, 0], false).unwrap();
    let m = cache.metrics();
    assert_eq!(m.size, 2);
    assert_eq!(m.capacity, 4);
    assert_eq!(m.partition_sizes.iter().sum::<usize>(), 2);
    assert_eq!(m.load_factor_permille, 500);
    assert_eq!(cache.factor(), 500);
}

#[test]
fn search_candidates_budget_caps_scanning() {
    let mut c = config(8, 1, 1, "euclidean");
    c.search_candidates = 2;
    let mut cache = VectorCache::new(c).unwrap();
    cache.insert(&vec![0, 0, 0], false).unwrap();
    cache.insert(&vec![3, 4, 0], false).unwrap();
    cache.insert(&vec![8, 6, 0], false).unwrap();
    let res = cache.query(&vec![0, 0, 0], 10, None).unwrap();
    assert_eq!(res.len(), 2);
}

#[test]
fn error_labels_are_stable() {
    assert_eq!(InsertError::CapacityExceeded.label(), "capacity exceeded");
    assert_eq!(InsertError::DuplicateEntry.label(), "duplicate entry");
    assert_eq!(InsertError::DimensionMismatch.label(), "dimension mismatch");
    assert_eq!(InsertError::InvalidConfiguration.label(), "invalid configuration");
}

#[test]
fn dot_metric_ranks_by_similarity() {
    let mut cache = VectorCache::new(config(8, 1, 1, "dot-product")).unwrap();
    cache.insert(&vec![5, 0, 0], false).unwrap(); // id 0, distance -5
    cache.insert(&vec![0, 3, 0], false).unwrap(); // id 1, distance 0
    let res = cache.query(&vec![1, 0, 0], 2, None).unwrap();
    assert_eq!(res, vec![(0, -5), (1, 0)]);
}

#[test]
fn cosine_metric_ranks_opposite_vector_last() {
    let mut cache = VectorCache::new(config(8, 1, 1, "cosine")).unwrap();
    cache.insert(&vec![3, 4, 0], false).unwrap(); // id 0, distance 0
    cache.insert(&vec![-3, -4, 0], false).unwrap(); // id 1, distance 2.0
    let res = cache.query(&vec![3, 4, 0], 2, None).unwrap();
    assert_eq!(res, vec![(0, 0), (1, 2_000_000)]);
}

#[test]
fn equal_distances_break_ties_by_id() {
    let mut cache = VectorCache::new(config(8, 1, 1, "euclidean")).unwrap();
    cache.insert(&vec![1, 0, 0], false).unwrap(); // id 0, distance 1
    cache.insert(&vec![0, 1, 0], false).unwrap(); // id 1, distance 1
    let res = cache.query(&vec![0, 0, 0], 2, None).unwrap();
    assert_eq!(res, vec![(0, 1), (1, 1)]);
}

#[test]
fn scalar_multiples_fingerprint_as_near_duplicates() {
    // Per-vector min-max quantization maps scalar multiples of one shape
    // to the same fingerprint: an accepted approximation, so the second
    // insert is rejected as a duplicate even though the raw vectors
    // differ.
    let mut cache = VectorCache::new(config(8, 1, 1, "euclidean")).unwrap();
    assert_eq!(cache.insert(&vec![3, 4, 0], false), Ok(true));
    assert_eq!(cache.insert(&vec![6, 8, 0], false).err(), Some(InsertError::DuplicateEntry));
    assert_eq!(cache.size(), 1);
}

#[test]
fn metric_and_eviction_names_ignore_letter_case() {
    let mut c = config(4, 2, 1, "Cosine");
    c.eviction_strategy = String::from("random");
    let cache = VectorCache::new(c).unwrap();
    assert_eq!(cache.size(), 0);
    let mut c2 = config(4, 2, 1, "EUCLIDEAN");
    c2.eviction_strategy = String::from("lfu");
    assert!(VectorCache::new(c2).is_ok());
}
