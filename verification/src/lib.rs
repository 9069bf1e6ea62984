//! A variant of the cuckoo filter whose size automatically scales as necessary.
//!
//! A filter answers whether an item may have been inserted: "yes" for an item that it
//! holds, and "yes" for an item that it does not hold with a probability that the user
//! bounds. Items can be removed again, and the filter can be shrunk to what it holds.
//!
//! The layers, from the bottom: [`bits::Bits`], a packed bit vector;
//! [`buckets::Buckets`], rows of fingerprint slots over it;
//! [`exceptional_items::ExceptionalItems`], the sorted side list;
//! [`cuckoo_filter::CuckooFilter`], one filter of fixed size; and
//! [`ScalableCuckooFilter`], the list of filters that grows.
pub use crate::hash::{DefaultHasher, Hasher};
pub use crate::random::DefaultRng;
pub use crate::scalable_cuckoo_filter::{ScalableCuckooFilter, ScalableCuckooFilterBuilder};

pub mod bits;
pub mod buckets;
pub mod configuration;
pub mod cuckoo_filter;
pub mod exceptional_items;
pub mod hash;
pub mod power;
pub mod probability;
pub mod random;
pub mod scalable_cuckoo_filter;
pub mod sums;
