//! Hashing: the filter's view of a hash function, and SipHash 1-3 as the default.
//!
//! A filter hashes twice. An item is hashed once to find its fingerprint and its first
//! bucket. A fingerprint is hashed again whenever its other bucket is needed, so that
//! hash must be a function of the fingerprint: the same value on every call.
use siphasher::sip::SipHasher13;
use std::hash::Hash;
use vstd::prelude::*;

verus! {

/// What SipHash 1-3 with the keys `key0` and `key1` makes of the eight bytes of a 64-bit
/// value, lowest first.
pub uninterp spec fn siphash13_u64(key0: u64, key1: u64, value: u64) -> u64;

/// Feeds the eight bytes of `value`, lowest first, to a fresh
/// `siphasher::sip::SipHasher13` with the given keys, through `Hasher::write`, and
/// returns what `Hasher::finish` gives. The hasher starts from the keys alone and reads
/// the bytes in their order, so the result is a function of the three numbers, the same
/// on every machine. Where the lowest byte of a number comes first in memory, it is what
/// `Hasher::write_u64` gives for the value.
#[verifier::external_body]
pub(crate) fn siphash13_of_u64(key0: u64, key1: u64, value: u64) -> (hash: u64)
    ensures
        hash == siphash13_u64(key0, key1, value),
{
    let mut hasher = SipHasher13::new_with_keys(key0, key1);
    std::hash::Hasher::write(&mut hasher, &value.to_le_bytes());
    std::hash::Hasher::finish(&hasher)
}

/// Feeds `item` to a fresh `siphasher::sip::SipHasher13` with the given keys, through
/// the item's own `Hash::hash`, and returns what `Hasher::finish` gives. Nothing is
/// claimed of the result: what an item feeds to a hasher is its own affair.
#[verifier::external_body]
pub(crate) fn hash<T: Hash + ?Sized>(key0: u64, key1: u64, item: &T) -> (hash: u64) {
    let mut hasher = SipHasher13::new_with_keys(key0, key1);
    item.hash(&mut hasher);
    std::hash::Hasher::finish(&hasher)
}

/// Hash function for cuckoo filters.
pub trait Hasher {
    /// The hash of a 64-bit value: what every call of `hash_u64` returns for it.
    spec fn spec_hash_u64(&self, value: u64) -> u64;

    /// Calculates the hash of a 64-bit value, the same on every call.
    fn hash_u64(&self, value: u64) -> (hash: u64)
        ensures
            hash == self.spec_hash_u64(value),
    ;

    /// Calculates the hash value of `item`.
    fn hash<T: Hash + ?Sized>(&self, item: &T) -> (hash: u64);
}

/// The default implementation of the `Hasher` trait: SipHash 1-3 under two keys.
#[derive(Debug, Clone, Copy)]
pub struct DefaultHasher {
    key0: u64,
    key1: u64,
}

impl DefaultHasher {
    /// The two keys.
    pub closed spec fn spec_keys(&self) -> (u64, u64) {
        (self.key0, self.key1)
    }

    /// The hasher whose two keys are `0`.
    pub fn new() -> (hasher: DefaultHasher)
        ensures
            hasher.spec_keys() == (0u64, 0u64),
    {
        DefaultHasher { key0: 0, key1: 0 }
    }

    /// The hasher with the given keys.
    pub fn new_with_keys(key0: u64, key1: u64) -> (hasher: DefaultHasher)
        ensures
            hasher.spec_keys() == (key0, key1),
    {
        DefaultHasher { key0, key1 }
    }

    /// The two keys.
    pub fn keys(&self) -> (keys: (u64, u64))
        ensures
            keys == self.spec_keys(),
    {
        (self.key0, self.key1)
    }
}

impl Hasher for DefaultHasher {
    open spec fn spec_hash_u64(&self, value: u64) -> u64 {
        siphash13_u64(self.spec_keys().0, self.spec_keys().1, value)
    }

    fn hash_u64(&self, value: u64) -> (hash: u64) {
        siphash13_of_u64(self.key0, self.key1, value)
    }

    fn hash<T: Hash + ?Sized>(&self, item: &T) -> (hash: u64) {
        self::hash(self.key0, self.key1, item)
    }
}

} // verus!
