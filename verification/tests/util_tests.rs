use simcache::arith::{div_trunc_i128, isqrt_u128, split_sizes};
use simcache::cache::cache_shard::CacheShard;
use simcache::utility::hashing_util::{fingerprint, generate_vector_unique_id, hash_u64,
    hash_vector_id};
use simcache::utility::vector_utils::scalar_quantize;
use simcache::vector::vector_data::VectorData;
use simcache::vector::vector_entry::VectorEntry;

#[test]
fn split_assigns_remainder_to_first_slots() {
    assert_eq!(split_sizes(10, 3), vec![4, 3, 3]);
    assert_eq!(split_sizes(4, 2), vec![2, 2]);
    assert_eq!(split_sizes(1, 3), vec![1, 0, 0]);
    assert_eq!(split_sizes(0, 2), vec![0, 0]);
}

#[test]
fn quantize_maps_range_onto_levels() {
    let v: Vec<i64> = vec![0, 5, 10];
    assert_eq!(scalar_quantize(&v, 3), vec![0, 1, 2]);
}

#[test]
fn quantize_of_constant_vector_is_all_zeros() {
    let v: Vec<i64> = vec![7, 7, 7];
    assert_eq!(scalar_quantize(&v, 256), vec![0, 0, 0]);
}

#[test]
fn quantize_is_identity_on_full_byte_range() {
    let v: Vec<i64> = vec![0, 1, 128, 255];
    assert_eq!(scalar_quantize(&v, 256), vec![0, 1, 128, 255]);
}

#[test]
fn quantize_rounds_halves_up() {
    // Range [0, 10] onto {0, 1}: 5 maps exactly to the midpoint and
    // rounds up.
    let v: Vec<i64> = vec![0, 5, 10];
    assert_eq!(scalar_quantize(&v, 2), vec![0, 1, 1]);
}

#[test]
fn hashes_are_deterministic() {
    assert_eq!(hash_u64(12345), hash_u64(12345));
    assert_ne!(hash_u64(12345), hash_u64(12346));
    let v: Vec<i64> = vec![1, 2, 3];
    let w: Vec<i64> = vec![1, 2, 3];
    assert_eq!(hash_vector_id(&v), hash_vector_id(&w));
    let q: Vec<u8> = vec![9, 8, 7];
    assert_eq!(fingerprint(&q), fingerprint(&vec![9, 8, 7]));
    assert_ne!(fingerprint(&q), fingerprint(&vec![9, 8, 6]));
}

#[test]
fn unique_id_packs_two_words() {
    assert_eq!(generate_vector_unique_id(1, 2), (1u64 << 32) | 2);
    assert_eq!(generate_vector_unique_id(0, 0), 0);
}

#[test]
fn integer_square_root_is_floored() {
    assert_eq!(isqrt_u128(0), 0);
    assert_eq!(isqrt_u128(1), 1);
    assert_eq!(isqrt_u128(24), 4);
    assert_eq!(isqrt_u128(25), 5);
    assert_eq!(isqrt_u128(26), 5);
}

#[test]
fn truncating_division_rounds_toward_zero() {
    assert_eq!(div_trunc_i128(7, 2), 3);
    assert_eq!(div_trunc_i128(-7, 2), -3);
    assert_eq!(div_trunc_i128(0, 5), 0);
}

#[test]
fn entry_derives_key_hash_from_id() {
    let e = VectorEntry::new(42, vec![1, 2, 3]);
    assert_eq!(e.entry_id, 42);
    assert_eq!(e.vector, vec![1, 2, 3]);
    assert_eq!(e.key_hash, hash_u64(42));
}

#[test]
fn telemetry_starts_at_zero() {
    let d = VectorData::new(9);
    assert_eq!(d.data_id, 9);
    assert_eq!(d.access_count, 0);
    assert_eq!(d.last_accessed, 0);
    assert_eq!(d.combined_latency, 0);
    assert_eq!(d.average_latency, 0);
}

#[test]
fn shard_rejects_when_full_and_on_exact_duplicate() {
    let mut s = CacheShard::new(0, 2);
    assert!(s.insert(&vec![1, 2], false, 0));
    assert!(!s.insert(&vec![1, 2], false, 1));
    assert!(s.insert(&vec![3, 4], false, 1));
    assert!(!s.insert(&vec![5, 6], false, 2));
    assert_eq!(s.entry_count, 2);
}

#[test]
fn shard_partial_centroid_sums_components() {
    let mut s = CacheShard::new(0, 4);
    assert_eq!(s.get_shard_centroid(2), None);
    s.insert(&vec![1, 2], false, 0);
    s.insert(&vec![3, 4], false, 1);
    let (sums, count) = s.get_shard_centroid(2).unwrap();
    assert_eq!(sums, vec![4, 6]);
    assert_eq!(count, 2);
}
