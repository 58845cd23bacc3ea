use vstd::prelude::*;

verus! {

/// The mixing of [`hash_u64`]: an xorshift-multiply finalizer whose result
/// depends on nothing but the argument.
pub open spec fn hash_u64_spec(value: u64) -> u64 {
    let a = (value ^ (value >> 30)).wrapping_mul(0xBF58476D1CE4E5B9u64);
    let b = (a ^ (a >> 27)).wrapping_mul(0x94D049BB133111EBu64);
    b ^ (b >> 31)
}

/// Deterministic 64-bit mix of an integer, used to derive an entry's key
/// hash from its identifier.
pub fn hash_u64(value: u64) -> (r: u64)
    ensures
        r == hash_u64_spec(value),
{
    let a: u64 = (value ^ (value >> 30)).wrapping_mul(0xBF58476D1CE4E5B9);
    let b: u64 = (a ^ (a >> 27)).wrapping_mul(0x94D049BB133111EB);
    b ^ (b >> 31)
}

/// FNV-1a over a byte sequence, folded left to right.
pub open spec fn fnv1a64(bytes: Seq<u8>) -> u64
    decreases bytes.len(),
{
    if bytes.len() == 0 {
        0xcbf29ce484222325u64
    } else {
        (fnv1a64(bytes.drop_last()) ^ (bytes.last() as u64)).wrapping_mul(0x100000001b3u64)
    }
}

/// Deterministic fingerprint of a quantized vector, used as a
/// partition-local near-duplicate key, never as a global entry id.
pub fn fingerprint(bytes: &Vec<u8>) -> (r: u64)
    ensures
        r == fnv1a64(bytes@),
{
    let mut h: u64 = 0xcbf29ce484222325;
    let mut i: usize = 0;
    while i < bytes.len()
        invariant
            i <= bytes@.len(),
            h == fnv1a64(bytes@.take(i as int)),
        decreases bytes@.len() - i,
    {
        h = (h ^ (bytes[i] as u64)).wrapping_mul(0x100000001b3);
        i = i + 1;
        proof {
            assert(bytes@.take(i as int).drop_last() =~= bytes@.take(i as int - 1));
            assert(bytes@.take(i as int).last() == bytes@[i as int - 1]);
        }
    }
    proof {
        assert(bytes@.take(bytes@.len() as int) =~= bytes@);
    }
    h
}

/// FNV-1a over the two's-complement images of raw components.
pub open spec fn fnv1a64_components(s: Seq<i64>) -> u64
    decreases s.len(),
{
    if s.len() == 0 {
        0xcbf29ce484222325u64
    } else {
        (fnv1a64_components(s.drop_last()) ^ (s.last() as u64)).wrapping_mul(0x100000001b3u64)
    }
}

/// Deterministic hash of a raw vector's components, used for load-balanced
/// partition routing before any centroid exists: equal vectors always route
/// to the same partition.
pub fn hash_vector_id(vector: &Vec<i64>) -> (r: u64)
    ensures
        r == fnv1a64_components(vector@),
{
    let mut h: u64 = 0xcbf29ce484222325;
    let mut i: usize = 0;
    while i < vector.len()
        invariant
            i <= vector@.len(),
            h == fnv1a64_components(vector@.take(i as int)),
        decreases vector@.len() - i,
    {
        h = (h ^ (vector[i] as u64)).wrapping_mul(0x100000001b3);
        i = i + 1;
        proof {
            assert(vector@.take(i as int).drop_last() =~= vector@.take(i as int - 1));
            assert(vector@.take(i as int).last() == vector@[i as int - 1]);
        }
    }
    proof {
        assert(vector@.take(vector@.len() as int) =~= vector@);
    }
    h
}

/// Packs two 32-bit tags into one 64-bit identifier.
pub fn generate_vector_unique_id(x: u64, y: u64) -> (r: u64)
    ensures
        r == ((x << 32u64) | y),
{
    (x << 32) | y
}

} // verus!
