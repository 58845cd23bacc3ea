pub mod cache_partition;
pub mod cache_shard;
pub mod vector_cache;
