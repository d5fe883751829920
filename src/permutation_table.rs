use rand::seq::SliceRandom;
use vstd::prelude::*;

verus! {

/// Number of entries in a permutation table: one per byte value.
pub const TABLE_SIZE: usize = 256;

/// Every byte value once, in increasing order.
pub open spec fn all_bytes() -> Seq<u8> {
    Seq::new(TABLE_SIZE as nat, |i: int| i as u8)
}

/// A random arrangement of the byte values, as used to hash lattice points
/// in gradient noise.
#[derive(Copy, Clone)]
pub struct PermutationTable {
    values: [u8; TABLE_SIZE],
}

/// Relies on rand's `SliceRandom::shuffle` (with the thread-local generator):
/// it only swaps elements of the slice, so what it leaves is a rearrangement
/// of what it was given.
#[verifier::external_body]
fn shuffle_bytes(v: &mut Vec<u8>)
    ensures
        final(v)@.len() == old(v)@.len(),
        final(v)@.to_multiset() == old(v)@.to_multiset(),
{
    v.shuffle(&mut rand::thread_rng());
}

impl PermutationTable {
    /// The table's entries, in order.
    pub closed spec fn entries(self) -> Seq<u8> {
        self.values@
    }

    /// The entries are a rearrangement of all byte values.
    pub open spec fn wf(self) -> bool {
        &&& self.entries().len() == TABLE_SIZE
        &&& self.entries().to_multiset() == all_bytes().to_multiset()
    }

    /// Builds a table holding each byte value exactly once, in a random order.
    /// The seed is accepted for interface stability; the order is drawn from
    /// the thread-local generator.
    pub fn new(seed: u32) -> (table: PermutationTable)
        ensures
            table.wf(),
    {
        let mut seq: Vec<u8> = Vec::with_capacity(TABLE_SIZE);
        let mut i: usize = 0;
        while i < TABLE_SIZE
            invariant
                i <= TABLE_SIZE,
                seq@ =~= all_bytes().subrange(0, i as int),
            decreases TABLE_SIZE - i,
        {
            seq.push(i as u8);
            i += 1;
        }
        assert(seq@ =~= all_bytes());
        shuffle_bytes(&mut seq);

        let mut values: [u8; TABLE_SIZE] = [0u8; TABLE_SIZE];
        let mut j: usize = 0;
        while j < TABLE_SIZE
            invariant
                j <= TABLE_SIZE,
                seq@.len() == TABLE_SIZE,
                values@.len() == TABLE_SIZE,
                forall|k: int| 0 <= k < j ==> values@[k] == seq@[k],
            decreases TABLE_SIZE - j,
        {
            values[j] = seq[j];
            j += 1;
        }
        assert(values@ =~= seq@);
        PermutationTable { values }
    }

    /// The entry at `index`.
    pub fn value(&self, index: u8) -> (v: u8)
        ensures
            v == self.entries()[index as int],
    {
        self.values[index as usize]
    }
}

} // verus!
