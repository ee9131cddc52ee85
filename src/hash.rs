//! Sentinels of page and frame numbers, and the hash of page numbers.
use vstd::prelude::*;

verus! {

/// Page number that marks an empty slot of a hash table.
pub const NIL: u64 = 0xFFFF_FFFF_FFFF_FFFF;

/// Page number that marks a removed slot (tombstone) of a hash table.
pub const DEL: u64 = 0xFFFF_FFFF_FFFF_FFFE;

/// Frame index meaning "no frame".
pub const NULL: usize = usize::MAX;

/// The splitmix64 finaliser applied to `x + 1`, with wrapping arithmetic.
pub open spec fn spec_hash64(x: u64) -> u64 {
    let x = x.wrapping_add(1);
    let x = (x ^ (x >> 30u64)).wrapping_mul(0xBF58476D1CE4E5B9u64);
    let x = (x ^ (x >> 27u64)).wrapping_mul(0x94D049BB133111EBu64);
    x ^ (x >> 31u64)
}

/// Hash of a 64-bit key, used to place pages in open-addressed tables.
pub fn hash64(x: u64) -> (r: u64)
    ensures
        r == spec_hash64(x),
{
    let x = x.wrapping_add(1);
    let x = (x ^ (x >> 30u64)).wrapping_mul(0xBF58476D1CE4E5B9u64);
    let x = (x ^ (x >> 27u64)).wrapping_mul(0x94D049BB133111EBu64);
    x ^ (x >> 31u64)
}

} // verus!
