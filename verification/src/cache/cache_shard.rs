use vstd::prelude::*;
use crate::arith::{bounded_seq, col_sum, int_seq, COMP_LIMIT, DIM_LIMIT};
use crate::utility::hashing_util::hash_u64_spec;
use crate::utility::vector_utils::vec_i64_eq;
use crate::vector::vector_entry::VectorEntry;

verus! {

/// Capacity-bounded leaf container of entries, owned exclusively by its
/// partition.  The finest mutation unit of the cache.
pub struct CacheShard {
    /// Identifier of the shard within its partition.
    pub shard_id: u64,
    /// Maximum number of entries this shard can hold.
    pub max_entries: usize,
    /// Current number of entries stored.
    pub entry_count: usize,
    /// The stored entries.
    pub entries: Vec<VectorEntry>,
}

impl CacheShard {
    /// The mathematical vectors held by this shard, in storage order.
    pub open spec fn vectors(&self) -> Seq<Seq<int>> {
        self.entries@.map_values(|e: VectorEntry| int_seq(e.vector@))
    }

    /// Well-formedness: the count mirrors the entry list, the capacity is
    /// respected, and every entry fits dimension `dim`.
    pub open spec fn wf(&self, dim: nat) -> bool {
        &&& self.entry_count == self.entries@.len()
        &&& self.entries@.len() <= self.max_entries
        &&& forall|i: int| 0 <= i < self.entries@.len() ==> #[trigger] self.entries@[i].wf(dim)
    }

    /// Some stored entry holds exactly this vector.
    pub open spec fn has_vector(&self, v: Seq<int>) -> bool {
        exists|i: int|
            0 <= i < self.entries@.len() && int_seq(#[trigger] self.entries@[i].vector@) == v
    }

    /// An empty shard with the given capacity.
    pub fn new(shard_id: u64, max_entries: usize) -> (r: Self)
        ensures
            r.shard_id == shard_id,
            r.max_entries == max_entries,
            r.entry_count == 0,
            r.entries@.len() == 0,
    {
        CacheShard { shard_id, max_entries, entry_count: 0, entries: Vec::new() }
    }

    /// The shard cannot take another entry.
    pub fn is_full(&self) -> (r: bool)
        ensures
            r == (self.entry_count >= self.max_entries),
    {
        self.entry_count >= self.max_entries
    }

    /// Appends a new entry unless the shard is full or, when overwriting is
    /// not requested, an existing entry's raw vector equals the new one
    /// bit for bit (the exact check complementary to the lossy fingerprint
    /// check performed one level up).
    #[verifier::loop_isolation(false)]
    pub fn insert(&mut self, vector: &Vec<i64>, overwrite: bool, id: u64) -> (r: bool)
        requires
            old(self).wf(vector@.len() as nat),
            vector@.len() <= DIM_LIMIT,
            bounded_seq(int_seq(vector@)),
        ensures
            final(self).wf(vector@.len() as nat),
            final(self).shard_id == old(self).shard_id,
            final(self).max_entries == old(self).max_entries,
            r == !(old(self).entry_count >= old(self).max_entries || (!overwrite && old(
                self,
            ).has_vector(int_seq(vector@)))),
            !r ==> final(self).entries@ == old(self).entries@ && final(self).entry_count == old(
                self,
            ).entry_count,
            r ==> final(self).entry_count == old(self).entry_count + 1,
            r ==> final(self).entries@.len() == old(self).entries@.len() + 1,
            r ==> final(self).entries@.drop_last() == old(self).entries@,
            r ==> final(self).entries@.last().entry_id == id,
            r ==> final(self).entries@.last().vector@ == vector@,
            r ==> final(self).entries@.last().key_hash == hash_u64_spec(id),
    {
        if self.entry_count >= self.max_entries {
            return false;
        }
        if !overwrite {
            let mut i: usize = 0;
            while i < self.entries.len()
                invariant
                    i <= self.entries@.len(),
                    forall|j: int| 0 <= j < i
                        ==> int_seq(#[trigger] self.entries@[j].vector@) != int_seq(vector@),
                decreases self.entries@.len() - i,
            {
                if vec_i64_eq(&self.entries[i].vector, vector) {
                    proof {
                        assert(self.has_vector(int_seq(vector@)));
                    }
                    return false;
                }
                i = i + 1;
            }
            proof {
                assert(!self.has_vector(int_seq(vector@)));
            }
        }
        let entry = VectorEntry::new(id, clone_vector(vector));
        self.entries.push(entry);
        self.entry_count = self.entry_count + 1;
        proof {
            assert(final(self).entries@.drop_last() =~= old(self).entries@);
        }
        true
    }

    /// Removes and returns the entry at a known position; used by
    /// cache-level eviction.
    pub(crate) fn remove_at(&mut self, i: usize, Ghost(dim): Ghost<nat>) -> (r: VectorEntry)
        requires
            old(self).wf(dim),
            i < old(self).entries@.len(),
        ensures
            final(self).wf(dim),
            final(self).shard_id == old(self).shard_id,
            final(self).max_entries == old(self).max_entries,
            final(self).entries@ == old(self).entries@.remove(i as int),
            final(self).entry_count == old(self).entry_count - 1,
            r == old(self).entries@[i as int],
            r.wf(dim),
    {
        proof {
            assert(old(self).entries@[i as int].wf(dim));
        }
        let e = self.entries.remove(i);
        self.entry_count = self.entry_count - 1;
        e
    }

    /// The unnormalized component-wise sum of every stored vector and the
    /// entry count, or `None` when the shard is empty.  The sum (not the
    /// mean) is handed up so the two-level aggregation does not compound
    /// rounding error; callers normalize.
    pub fn get_shard_centroid(&self, dim: usize) -> (r: Option<(Vec<i128>, usize)>)
        requires
            self.wf(dim as nat),
            dim <= DIM_LIMIT,
        ensures
            r is None <==> self.entry_count == 0,
            r matches Some(p) ==> {
                &&& p.1 == self.entry_count
                &&& p.0@.len() == dim
                &&& forall|j: int| 0 <= j < dim
                    ==> #[trigger] p.0@[j] as int == col_sum(self.vectors(), j)
            },
    {
        if self.entry_count == 0 {
            return None;
        }
        let mut sums: Vec<i128> = Vec::new();
        let mut j: usize = 0;
        let ghost vs = self.vectors();
        while j < dim
            invariant
                j <= dim,
                dim <= DIM_LIMIT,
                self.wf(dim as nat),
                vs == self.vectors(),
                sums@.len() == j,
                forall|c: int| 0 <= c < j ==> #[trigger] sums@[c] as int == col_sum(vs, c),
            decreases dim - j,
        {
            let mut acc: i128 = 0;
            let mut i: usize = 0;
            while i < self.entries.len()
                invariant
                    i <= self.entries@.len(),
                    j < dim,
                    self.wf(dim as nat),
                    vs == self.vectors(),
                    acc as int == col_sum(vs.take(i as int), j as int),
                    -((i as int) * (COMP_LIMIT as int)) <= acc as int <= (i as int) * (
                    COMP_LIMIT as int),
                decreases self.entries@.len() - i,
            {
                proof {
                    assert(self.entries@[i as int].wf(dim as nat));
                    assert(vs[i as int] == int_seq(self.entries@[i as int].vector@));
                    assert(vs[i as int][j as int] == self.entries@[i as int].vector@[j as int] as int);
                    assert(-(COMP_LIMIT as int) <= vs[i as int][j as int] <= COMP_LIMIT as int);
                    assert(vs.take(i as int + 1).drop_last() =~= vs.take(i as int));
                    assert(vs.take(i as int + 1).last() == vs[i as int]);
                    assert((i as int + 1) * (COMP_LIMIT as int)
                        == (i as int) * (COMP_LIMIT as int) + COMP_LIMIT as int) by (nonlinear_arith);
                }
                acc = acc + (self.entries[i].vector[j] as i128);
                i = i + 1;
            }
            proof {
                assert(vs.take(self.entries@.len() as int) =~= vs);
            }
            sums.push(acc);
            j = j + 1;
        }
        Some((sums, self.entry_count))
    }
}

/// Copies a raw vector for storage in a new entry.
fn clone_vector(v: &Vec<i64>) -> (r: Vec<i64>)
    ensures
        r@ == v@,
{
    let mut out: Vec<i64> = Vec::new();
    let mut i: usize = 0;
    while i < v.len()
        invariant
            i <= v@.len(),
            out@ == v@.take(i as int),
        decreases v@.len() - i,
    {
        out.push(v[i]);
        proof {
            assert(v@.take(i as int + 1) =~= v@.take(i as int).push(v@[i as int]));
        }
        i = i + 1;
    }
    proof {
        assert(v@.take(v@.len() as int) =~= v@);
    }
    out
}

} // verus!
