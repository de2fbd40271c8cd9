//! The hash that places a key: the key's own hash, mixed so that keys whose
//! hashes differ only in a few bits do not crowd the same slots.

use vstd::prelude::*;
use vstd::std_specs::hash::DefaultHasherAdditionalSpecFns;
use vstd::wrapping::u64_specs::wrapping_add;
use std::collections::hash_map::DefaultHasher;
use std::hash::Hasher;
use crate::slot::{Key, StableHash};

verus! {

/// The mixing function. All arithmetic wraps at 64 bits.
pub open spec fn mix(h: u64) -> u64 {
    let h1 = wrapping_add(h, (h << 15) ^ 0xffff_cd7d);
    let h2 = h1 ^ (h1 >> 10);
    let h3 = wrapping_add(h2, h2 << 3);
    let h4 = h3 ^ (h3 >> 6);
    let h5 = wrapping_add(h4, wrapping_add(h4 << 2, h4 << 14));
    h5 ^ (h5 >> 16)
}

/// Mixes a key's own hash.
pub fn mix_hash(h: u64) -> (m: u64)
    ensures
        m == mix(h),
{
    let mut h: u64 = h;
    h = h.wrapping_add((h << 15) ^ 0xffff_cd7d);
    h ^= h >> 10;
    h = h.wrapping_add(h << 3);
    h ^= h >> 6;
    h = h.wrapping_add((h << 2).wrapping_add(h << 14));
    h ^ (h >> 16)
}

/// The full hash of a key: its own hash, mixed.
pub open spec fn full_hash<T: StableHash>(k: T) -> u64 {
    mix(k.hash_spec())
}

impl<T: StableHash> Key<T> {
    /// The full hash of the key that the cell carries.
    pub fn hash(&self) -> (h: u64)
        requires
            *self is Present,
        ensures
            h == full_hash(self->Present_0),
    {
        mix_hash(self.get_key().stable_hash())
    }
}

/// The hash that std's default hasher gives to one write of these bytes.
pub open spec fn hash_of_bytes(bytes: Seq<u8>) -> u64 {
    DefaultHasher::spec_finish(seq![bytes])
}

fn hash_bytes(bytes: &[u8]) -> (h: u64)
    ensures
        h == hash_of_bytes(bytes@),
{
    let mut hasher = DefaultHasher::new();
    hasher.write(bytes);
    assert(hasher@ =~= seq![bytes@]);
    hasher.finish()
}

impl StableHash for i64 {
    open spec fn hash_spec(&self) -> u64 {
        hash_of_bytes(vstd::bytes::spec_u64_to_le_bytes(*self as u64))
    }

    fn stable_hash(&self) -> (h: u64) {
        let bytes = vstd::bytes::u64_to_le_bytes(*self as u64);
        hash_bytes(bytes.as_slice())
    }
}

impl StableHash for u64 {
    open spec fn hash_spec(&self) -> u64 {
        hash_of_bytes(vstd::bytes::spec_u64_to_le_bytes(*self))
    }

    fn stable_hash(&self) -> (h: u64) {
        let bytes = vstd::bytes::u64_to_le_bytes(*self);
        hash_bytes(bytes.as_slice())
    }
}

} // verus!
