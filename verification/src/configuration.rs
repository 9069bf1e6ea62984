//! The parameters of a growing filter, and what they say of each of its filters.
use crate::cuckoo_filter::CuckooFilter;
use crate::probability::{
    filter_capacity, fingerprint_bitwidth, is_fingerprint_bitwidth, is_probability,
    lemma_width_unique, scale, significand, spec_filter_capacity,
};
use vstd::arithmetic::power2::pow2;
use vstd::prelude::*;

verus! {

/// The parameters of a growing filter.
#[derive(Clone, Copy, Debug)]
pub struct Configuration {
    /// The places of the first filter.
    pub initial_capacity: usize,
    /// The bound on the probability of a false positive, as the bits of a binary64
    /// number.
    pub false_positive_probability: u64,
    /// The number of slots in a bucket.
    pub entries_per_bucket: usize,
    /// The number of evictions after which an insertion gives up.
    pub max_kicks: usize,
}

impl Configuration {
    /// The probability is one, and a bucket has a slot.
    pub open spec fn valid(&self) -> bool {
        is_probability(self.false_positive_probability) && self.entries_per_bucket >= 1
    }

    /// Whether filter number `k` has fingerprints of `width` bits and can be addressed.
    pub open spec fn filter_fits(&self, k: nat, width: nat) -> bool {
        &&& width <= 64
        &&& is_fingerprint_bitwidth(
            self.false_positive_probability,
            self.entries_per_bucket as nat,
            k,
            width,
        )
        &&& spec_filter_capacity(self.initial_capacity as nat, k) <= usize::MAX
        &&& CuckooFilter::spec_fits(
            width,
            self.entries_per_bucket as nat,
            spec_filter_capacity(self.initial_capacity as nat, k),
        )
    }

    /// Whether filter number `k` can be addressed.
    pub open spec fn can_add(&self, k: nat) -> bool {
        exists|width: nat| self.filter_fits(k, width)
    }

    /// Whether `filter` is filter number `k` as it is when it is added.
    pub open spec fn is_added(&self, k: nat, filter: CuckooFilter) -> bool {
        exists|width: nat|
            self.filter_fits(k, width) && #[trigger] filter.is_fresh(
                width,
                self.entries_per_bucket as nat,
                spec_filter_capacity(self.initial_capacity as nat, k),
                self.max_kicks as nat,
            )
    }

    /// Whether `filter` may be filter number `k`: its sizes are those of the
    /// configuration, and its fingerprints are as wide as the schedule says.
    pub open spec fn admits(&self, k: nat, filter: CuckooFilter) -> bool {
        &&& filter.wf()
        &&& filter.spec_max_kicks() == self.max_kicks
        &&& filter.spec_buckets().spec_entries_per_bucket() == self.entries_per_bucket
        &&& is_fingerprint_bitwidth(
            self.false_positive_probability,
            self.entries_per_bucket as nat,
            k,
            filter.spec_buckets().spec_fingerprint_bitwidth(),
        )
    }

    /// Whether each of the filters may be the filter of its number.
    pub open spec fn admits_all(&self, filters: Seq<CuckooFilter>) -> bool {
        forall|k: int| 0 <= k < filters.len() ==> self.admits(k as nat, #[trigger] filters[k])
    }

    /// Whether `after` is well-formed and has the sizes and the limit of `before`.
    pub open spec fn keeps_sizes(before: CuckooFilter, after: CuckooFilter) -> bool {
        &&& after.wf()
        &&& after.spec_max_kicks() == before.spec_max_kicks()
        &&& after.spec_buckets().spec_entries_per_bucket()
            == before.spec_buckets().spec_entries_per_bucket()
        &&& after.spec_buckets().spec_fingerprint_bitwidth()
            == before.spec_buckets().spec_fingerprint_bitwidth()
    }

    /// Filters that keep their sizes stay what the schedule says.
    pub proof fn lemma_sizes_kept(&self, before: Seq<CuckooFilter>, after: Seq<CuckooFilter>)
        requires
            self.admits_all(before),
            after.len() <= before.len(),
            forall|k: int|
                0 <= k < after.len() ==> Self::keeps_sizes(before[k], #[trigger] after[k]),
        ensures
            self.admits_all(after),
    {
        assert forall|k: int| 0 <= k < after.len() implies self.admits(
            k as nat,
            #[trigger] after[k],
        ) by {
            assert(self.admits(k as nat, before[k]));
        }
    }

    /// The width of fingerprints and the places of filter number `k`, if it can be
    /// addressed.
    pub fn next_filter(&self, k: usize) -> (sizes: Option<(usize, usize)>)
        requires
            self.valid(),
        ensures
            match sizes {
                Some((width, capacity)) => self.filter_fits(k as nat, width as nat) && capacity
                    == spec_filter_capacity(self.initial_capacity as nat, k as nat),
                None => !self.can_add(k as nat),
            },
    {
        let width = fingerprint_bitwidth(
            self.false_positive_probability,
            self.entries_per_bucket,
            k,
        );
        let capacity = filter_capacity(self.initial_capacity, k);
        match (width, capacity) {
            (Some(width), Some(capacity)) => {
                if CuckooFilter::fits(width, self.entries_per_bucket, capacity) {
                    Some((width, capacity))
                } else {
                    proof {
                        self.lemma_one_width(k as nat, width as nat);
                    }
                    None
                }
            },
            _ => {
                None
            },
        }
    }

    /// Filter number `k` has one width of fingerprints.
    pub proof fn lemma_one_width(&self, k: nat, width: nat)
        requires
            self.valid(),
            is_fingerprint_bitwidth(
                self.false_positive_probability,
                self.entries_per_bucket as nat,
                k,
                width,
            ),
        ensures
            forall|other: nat|
                is_fingerprint_bitwidth(
                    self.false_positive_probability,
                    self.entries_per_bucket as nat,
                    k,
                    other,
                ) ==> other == width,
    {
        assert forall|other: nat|
            is_fingerprint_bitwidth(
                self.false_positive_probability,
                self.entries_per_bucket as nat,
                k,
                other,
            ) implies other == width by {
            lemma_width_unique(
                significand(self.false_positive_probability),
                pow2(k + 2 + scale(self.false_positive_probability))
                    * self.entries_per_bucket as nat,
                other,
                width,
            );
        }
    }
}

/// The default bound on the probability of a false positive: the bits of `0.001`.
pub const DEFAULT_FALSE_POSITIVE_PROBABILITY: u64 = 0x3F50_624D_D2F1_A9FC;

/// The default places of the first filter.
pub const DEFAULT_INITIAL_CAPACITY: usize = 100_000;

/// The default number of slots in a bucket.
pub const DEFAULT_ENTRIES_PER_BUCKET: usize = 4;

/// The default number of evictions after which an insertion gives up.
pub const DEFAULT_MAX_KICKS: usize = 512;

/// The default bound is a probability.
pub proof fn lemma_default_probability()
    ensures
        is_probability(DEFAULT_FALSE_POSITIVE_PROBABILITY),
{
    assert((0x3F50_624D_D2F1_A9FCu64 >> 63) == 0 && (0x3F50_624D_D2F1_A9FCu64 >> 52) & 0x7ff == 1013
        && 0x3F50_624D_D2F1_A9FCu64 & 0xf_ffff_ffff_ffff == 0x624D_D2F1_A9FC) by (bit_vector);
}

} // verus!
