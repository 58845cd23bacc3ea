use vstd::prelude::*;

verus! {

/// Per-entry access telemetry consumed by recency- and frequency-based
/// eviction collaborators.  Latencies are carried in integer microseconds.
pub struct VectorData {
    /// Identifier of the entry this record describes.
    pub data_id: u64,
    /// Number of times the entry has been accessed.
    pub access_count: u64,
    /// Logical timestamp of the most recent access.
    pub last_accessed: u64,
    /// Total latency accumulated over all accesses, in microseconds.
    pub combined_latency: u64,
    /// Mean latency per access, in microseconds.
    pub average_latency: u64,
}

impl VectorData {
    /// Fresh telemetry for a newly inserted entry.
    pub fn new(id: u64) -> (r: Self)
        ensures
            r.data_id == id,
            r.access_count == 0,
            r.last_accessed == 0,
            r.combined_latency == 0,
            r.average_latency == 0,
    {
        VectorData {
            data_id: id,
            access_count: 0,
            last_accessed: 0,
            combined_latency: 0,
            average_latency: 0,
        }
    }
}

} // verus!
