use vstd::prelude::*;
use crate::arith::{bounded_seq, int_seq};
use crate::utility::hashing_util::{hash_u64, hash_u64_spec};

verus! {

/// An immutable stored vector: an identifier, the fixed-length vector, and
/// a key hash derived deterministically from the identifier.  The key hash
/// serves low-cost equality and routing checks, never content
/// deduplication.
pub struct VectorEntry {
    /// Unique identifier of the entry.
    pub entry_id: u64,
    /// The stored vector's components.
    pub vector: Vec<i64>,
    /// Deterministic hash of `entry_id`.
    pub key_hash: u64,
}

impl VectorEntry {
    /// The entry fits a cache of dimension `dim`: right length, bounded
    /// components, and a key hash that matches its identifier.
    pub open spec fn wf(&self, dim: nat) -> bool {
        &&& self.vector@.len() == dim
        &&& bounded_seq(int_seq(self.vector@))
        &&& self.key_hash == hash_u64_spec(self.entry_id)
    }

    /// Creates an entry, deriving the key hash from the identifier.
    pub fn new(id: u64, vector: Vec<i64>) -> (r: Self)
        ensures
            r.entry_id == id,
            r.vector@ == vector@,
            r.key_hash == hash_u64_spec(id),
    {
        let key_hash = hash_u64(id);
        VectorEntry { entry_id: id, vector, key_hash }
    }
}

} // verus!
