//! A filter that grows: a list of cuckoo filters, each larger and stricter than the one
//! before it.
//!
//! Items are inserted into the last filter. When an insertion there has given up on
//! the buckets, a new filter is added, with twice the places and half the budget of
//! false positives. An item is looked for in every filter and removed from the first
//! that holds it.
use crate::configuration::{
    lemma_default_probability, Configuration, DEFAULT_ENTRIES_PER_BUCKET,
    DEFAULT_FALSE_POSITIVE_PROBABILITY, DEFAULT_INITIAL_CAPACITY, DEFAULT_MAX_KICKS,
};
use crate::cuckoo_filter::CuckooFilter;
use crate::hash::{DefaultHasher, Hasher};
use crate::probability::{fingerprint_bitwidth, is_probability, is_probability_bits};
use crate::random::{clone_rng, fresh_rng};
use crate::sums::{
    lemma_sum_grows, lemma_sum_one_differs, lemma_sum_positive, lemma_sum_same, sum_to,
};
use rand::rngs::StdRng;
use std::hash::Hash;
use std::marker::PhantomData;
use vstd::prelude::*;

verus! {

/// Builder for `ScalableCuckooFilter`.
#[derive(Debug)]
pub struct ScalableCuckooFilterBuilder<H = DefaultHasher> {
    initial_capacity: usize,
    false_positive_probability: u64,
    entries_per_bucket: usize,
    max_kicks: usize,
    hasher: H,
    rng: StdRng,
}

impl ScalableCuckooFilterBuilder<DefaultHasher> {
    /// Makes a new `ScalableCuckooFilterBuilder` instance: the default parameters, the
    /// hasher whose keys are `0`, and a random source that the thread's generator seeds.
    pub fn new() -> (builder: Self)
        ensures
            builder.spec_configuration() == (Configuration {
                initial_capacity: DEFAULT_INITIAL_CAPACITY,
                false_positive_probability: DEFAULT_FALSE_POSITIVE_PROBABILITY,
                entries_per_bucket: DEFAULT_ENTRIES_PER_BUCKET,
                max_kicks: DEFAULT_MAX_KICKS,
            }),
            builder.spec_hasher().spec_keys() == (0u64, 0u64),
            builder.spec_configuration().valid(),
    {
        proof {
            lemma_default_probability();
        }
        ScalableCuckooFilterBuilder {
            initial_capacity: DEFAULT_INITIAL_CAPACITY,
            false_positive_probability: DEFAULT_FALSE_POSITIVE_PROBABILITY,
            entries_per_bucket: DEFAULT_ENTRIES_PER_BUCKET,
            max_kicks: DEFAULT_MAX_KICKS,
            hasher: DefaultHasher::new(),
            rng: fresh_rng(),
        }
    }
}

impl<H: Hasher> ScalableCuckooFilterBuilder<H> {
    /// The parameters that were set.
    pub closed spec fn spec_configuration(&self) -> Configuration {
        Configuration {
            initial_capacity: self.initial_capacity,
            false_positive_probability: self.false_positive_probability,
            entries_per_bucket: self.entries_per_bucket,
            max_kicks: self.max_kicks,
        }
    }

    /// The hasher that was set.
    pub closed spec fn spec_hasher(&self) -> H {
        self.hasher
    }

    /// Sets the initial capacity (i.e., the number of estimated maximum items) of this
    /// filter.
    ///
    /// The default value is `100_000`.
    #[must_use]
    pub fn initial_capacity(self, capacity_hint: usize) -> (builder: Self)
        ensures
            builder.spec_hasher() == self.spec_hasher() && builder.spec_rng() == self.spec_rng(),
            builder.spec_configuration() == (Configuration {
                initial_capacity: capacity_hint,
                ..self.spec_configuration()
            }),
    {
        ScalableCuckooFilterBuilder {
            initial_capacity: capacity_hint,
            false_positive_probability: self.false_positive_probability,
            entries_per_bucket: self.entries_per_bucket,
            max_kicks: self.max_kicks,
            hasher: self.hasher,
            rng: self.rng,
        }
    }

    /// Sets the expected upper bound of the false positive probability of this filter,
    /// as the bits of a binary64 number above `0` and not above `1`.
    ///
    /// The default value is `0.001`.
    #[must_use]
    pub fn false_positive_probability(self, probability: u64) -> (builder: Self)
        requires
            is_probability(probability),
        ensures
            builder.spec_hasher() == self.spec_hasher() && builder.spec_rng() == self.spec_rng(),
            builder.spec_configuration() == (Configuration {
                false_positive_probability: probability,
                ..self.spec_configuration()
            }),
    {
        ScalableCuckooFilterBuilder {
            initial_capacity: self.initial_capacity,
            false_positive_probability: probability,
            entries_per_bucket: self.entries_per_bucket,
            max_kicks: self.max_kicks,
            hasher: self.hasher,
            rng: self.rng,
        }
    }

    /// Sets the number of entries per bucket of this filter.
    ///
    /// The default value is `4`.
    #[must_use]
    pub fn entries_per_bucket(self, n: usize) -> (builder: Self)
        ensures
            builder.spec_hasher() == self.spec_hasher() && builder.spec_rng() == self.spec_rng(),
            builder.spec_configuration() == (Configuration {
                entries_per_bucket: n,
                ..self.spec_configuration()
            }),
    {
        ScalableCuckooFilterBuilder {
            initial_capacity: self.initial_capacity,
            false_positive_probability: self.false_positive_probability,
            entries_per_bucket: n,
            max_kicks: self.max_kicks,
            hasher: self.hasher,
            rng: self.rng,
        }
    }

    /// Sets the maximum number of relocations in an insertion.
    ///
    /// If this limit exceeded, the filter will be expanded.
    ///
    /// The default value is `512`.
    #[must_use]
    pub fn max_kicks(self, kicks: usize) -> (builder: Self)
        ensures
            builder.spec_hasher() == self.spec_hasher() && builder.spec_rng() == self.spec_rng(),
            builder.spec_configuration() == (Configuration {
                max_kicks: kicks,
                ..self.spec_configuration()
            }),
    {
        ScalableCuckooFilterBuilder {
            initial_capacity: self.initial_capacity,
            false_positive_probability: self.false_positive_probability,
            entries_per_bucket: self.entries_per_bucket,
            max_kicks: kicks,
            hasher: self.hasher,
            rng: self.rng,
        }
    }

    /// Sets the hasher of this filter.
    ///
    /// The default value is `DefaultHasher::new()`.
    pub fn hasher<T: Hasher>(self, hasher: T) -> (builder: ScalableCuckooFilterBuilder<T>)
        ensures
            builder.spec_hasher() == hasher && builder.spec_rng() == self.spec_rng(),
            builder.spec_configuration() == self.spec_configuration(),
    {
        ScalableCuckooFilterBuilder {
            initial_capacity: self.initial_capacity,
            false_positive_probability: self.false_positive_probability,
            entries_per_bucket: self.entries_per_bucket,
            max_kicks: self.max_kicks,
            hasher,
            rng: self.rng,
        }
    }

    /// Sets the random number generator of this filter.
    ///
    /// The default value is a generator that the thread's generator seeds.
    pub fn rng(self, rng: StdRng) -> (builder: Self)
        ensures
            builder.spec_rng() == rng,
            builder.spec_hasher() == self.spec_hasher(),
            builder.spec_configuration() == self.spec_configuration(),
    {
        ScalableCuckooFilterBuilder {
            initial_capacity: self.initial_capacity,
            false_positive_probability: self.false_positive_probability,
            entries_per_bucket: self.entries_per_bucket,
            max_kicks: self.max_kicks,
            hasher: self.hasher,
            rng,
        }
    }

    /// The random source that was set.
    pub closed spec fn spec_rng(&self) -> StdRng {
        self.rng
    }

    /// Tells whether a filter can be built: whether the parameters are valid and the
    /// first filter can be addressed.
    pub fn can_finish(&self) -> (ok: bool)
        ensures
            ok == (self.spec_configuration().valid() && self.spec_configuration().can_add(0)),
    {
        let configuration = Configuration {
            initial_capacity: self.initial_capacity,
            false_positive_probability: self.false_positive_probability,
            entries_per_bucket: self.entries_per_bucket,
            max_kicks: self.max_kicks,
        };
        if !is_probability_bits(self.false_positive_probability) || self.entries_per_bucket == 0 {
            return false;
        }
        configuration.next_filter(0).is_some()
    }

    /// Builds a `ScalableCuckooFilter` instance: a filter without items, with the
    /// first filter of the schedule.
    pub fn finish<T: Hash + ?Sized>(self) -> (filter: ScalableCuckooFilter<T, H>)
        requires
            self.spec_configuration().valid(),
            self.spec_configuration().can_add(0),
        ensures
            filter.is_new(self.spec_configuration(), self.spec_hasher()),
            filter.spec_rng() == self.spec_rng(),
    {
        let mut filter = ScalableCuckooFilter {
            hasher: self.hasher,
            rng: self.rng,
            initial_capacity: self.initial_capacity,
            false_positive_probability: self.false_positive_probability,
            entries_per_bucket: self.entries_per_bucket,
            max_kicks: self.max_kicks,
            filters: Vec::new(),
            _item: PhantomData,
        };
        filter.grow();
        filter
    }
}

impl Default for ScalableCuckooFilterBuilder {
    fn default() -> (builder: Self)
        ensures
            builder.spec_configuration() == (Configuration {
                initial_capacity: DEFAULT_INITIAL_CAPACITY,
                false_positive_probability: DEFAULT_FALSE_POSITIVE_PROBABILITY,
                entries_per_bucket: DEFAULT_ENTRIES_PER_BUCKET,
                max_kicks: DEFAULT_MAX_KICKS,
            }),
            builder.spec_hasher().spec_keys() == (0u64, 0u64),
    {
        Self::new()
    }
}

/// The numbers of items of the filters.
pub open spec fn lens(filters: Seq<CuckooFilter>) -> Seq<nat> {
    Seq::new(filters.len(), |k: int| filters[k].spec_len())
}

/// The places of the filters, each `usize::MAX` at most.
pub open spec fn capacities(filters: Seq<CuckooFilter>) -> Seq<nat> {
    Seq::new(
        filters.len(),
        |k: int|
            CuckooFilter::spec_capacity(
                filters[k].spec_buckets(),
                filters[k].spec_exceptional_items()@.len(),
            ) as nat,
    )
}

/// The bits of the filters, each `u64::MAX` at most, where the side list of filter `k`
/// has room for `rooms[k]` entries.
pub open spec fn sizes(filters: Seq<CuckooFilter>, rooms: Seq<nat>) -> Seq<nat> {
    Seq::new(
        filters.len(),
        |k: int| CuckooFilter::spec_bits(filters[k].spec_buckets(), rooms[k]) as nat,
    )
}

/// How many entries of the items with the hash `item_hash` each filter holds.
pub open spec fn counts<H: Hasher>(
    filters: Seq<CuckooFilter>,
    hasher: &H,
    item_hash: u64,
) -> Seq<nat> {
    Seq::new(filters.len(), |k: int| filters[k].spec_count(hasher, item_hash))
}

/// Whether the filters of two lists have, one by one, the same content.
pub open spec fn same_contents(filters: Seq<CuckooFilter>, others: Seq<CuckooFilter>) -> bool {
    &&& filters.len() == others.len()
    &&& forall|k: int|
        0 <= k < filters.len() ==> (#[trigger] filters[k]).same_content(others[k])
}

/// Scalable Cuckoo Filter.
#[derive(Debug)]
pub struct ScalableCuckooFilter<T: ?Sized, H = DefaultHasher> {
    hasher: H,
    filters: Vec<CuckooFilter>,
    initial_capacity: usize,
    false_positive_probability: u64,
    entries_per_bucket: usize,
    max_kicks: usize,
    rng: StdRng,
    _item: PhantomData<T>,
}

impl<T: ?Sized, H: Hasher> ScalableCuckooFilter<T, H> {
    /// The hasher.
    pub closed spec fn spec_hasher(&self) -> H {
        self.hasher
    }

    /// The random source.
    pub closed spec fn spec_rng(&self) -> StdRng {
        self.rng
    }

    /// The filters, in the order in which they were added.
    pub closed spec fn spec_filters(&self) -> Seq<CuckooFilter> {
        self.filters@
    }

    /// The parameters.
    pub closed spec fn spec_configuration(&self) -> Configuration {
        Configuration {
            initial_capacity: self.initial_capacity,
            false_positive_probability: self.false_positive_probability,
            entries_per_bucket: self.entries_per_bucket,
            max_kicks: self.max_kicks,
        }
    }

    /// The parameters are valid, every filter is as the schedule says, and a `usize`
    /// holds the number of items.
    pub open spec fn sound(&self) -> bool {
        &&& self.spec_configuration().valid()
        &&& self.spec_configuration().admits_all(self.spec_filters())
        &&& self.spec_len() <= usize::MAX
    }

    /// The filter is sound and has a filter to insert into.
    pub open spec fn wf(&self) -> bool {
        self.sound() && self.spec_filters().len() >= 1
    }

    /// The number of items: insertions less removals.
    pub open spec fn spec_len(&self) -> nat {
        sum_to(lens(self.spec_filters()), self.spec_filters().len() as int)
    }

    /// Whether filter number `k` holds the entry of the items with the hash
    /// `item_hash`.
    pub open spec fn finds_in(&self, k: int, item_hash: u64) -> bool {
        self.spec_filters()[k].spec_contains(&self.spec_hasher(), item_hash)
    }

    /// Whether some filter holds the entry of the items with the hash `item_hash`.
    pub open spec fn spec_contains(&self, item_hash: u64) -> bool {
        exists|k: int|
            0 <= k < self.spec_filters().len() && self.finds_in(k, item_hash)
    }

    /// How many entries of the items with the hash `item_hash` the filters hold.
    pub open spec fn spec_count(&self, item_hash: u64) -> nat {
        sum_to(
            counts(self.spec_filters(), &self.spec_hasher(), item_hash),
            self.spec_filters().len() as int,
        )
    }

    /// The sum of the places of the filters, `usize::MAX` at most.
    pub open spec fn spec_capacity(filters: Seq<CuckooFilter>) -> usize {
        let sum = sum_to(capacities(filters), filters.len() as int);
        if sum <= usize::MAX {
            sum as usize
        } else {
            usize::MAX
        }
    }

    /// Whether the side list of each filter can have room for as many entries as
    /// `rooms` says: as many as it holds, at least.
    pub open spec fn rooms_do(filters: Seq<CuckooFilter>, rooms: Seq<nat>) -> bool {
        &&& rooms.len() == filters.len()
        &&& forall|k: int|
            0 <= k < filters.len() ==> rooms[k] >= filters[k].spec_exceptional_items()@.len()
    }

    /// The sum of the bits of the filters, `u64::MAX` at most.
    pub open spec fn spec_bits(filters: Seq<CuckooFilter>, rooms: Seq<nat>) -> u64 {
        let sum = sum_to(sizes(filters, rooms), filters.len() as int);
        if sum <= u64::MAX {
            sum as u64
        } else {
            u64::MAX
        }
    }

    /// Whether two filters have the same hasher and the same parameters.
    pub open spec fn same_setup(&self, other: Self) -> bool {
        self.spec_hasher() == other.spec_hasher() && self.spec_configuration()
            == other.spec_configuration()
    }

    /// Whether the filter is one that was just built: it has the first filter of the
    /// schedule, and no items.
    pub open spec fn is_new(&self, configuration: Configuration, hasher: H) -> bool {
        &&& self.wf()
        &&& self.spec_configuration() == configuration
        &&& self.spec_hasher() == hasher
        &&& self.spec_filters().len() == 1
        &&& configuration.is_added(0, self.spec_filters()[0])
        &&& self.spec_len() == 0
    }

    /// Whether the filter is `before` with one filter more, or `before` itself if no
    /// further filter can be addressed.
    pub open spec fn is_growth(&self, before: Self) -> bool {
        let n = before.spec_filters().len();
        &&& self.same_setup(before)
        &&& if before.spec_configuration().can_add(n) {
            &&& self.spec_filters().len() == n + 1
            &&& self.spec_filters().drop_last() == before.spec_filters()
            &&& before.spec_configuration().is_added(n, self.spec_filters().last())
        } else {
            self.spec_filters() == before.spec_filters()
        }
    }

    /// Whether the filter is `before` after the insertion of an item with the hash
    /// `item_hash`: the item is inserted into the last filter, and if the side list of
    /// that filter then holds a fingerprint that was kicked out, the filter has grown.
    pub open spec fn is_insertion(&self, before: Self, item_hash: u64) -> bool {
        let last = before.spec_filters().len() - 1;
        &&& self.wf()
        &&& self.same_setup(before)
        &&& self.spec_len() == before.spec_len() + 1
        &&& self.spec_filters().len() >= before.spec_filters().len()
        &&& forall|k: int| 0 <= k < last ==> self.spec_filters()[k] == before.spec_filters()[k]
        &&& self.spec_filters()[last].is_insertion(
            before.spec_filters()[last],
            &before.spec_hasher(),
            item_hash,
        )
        &&& if self.spec_filters()[last].spec_is_nearly_full()
            && before.spec_configuration().can_add((last + 1) as nat) {
            &&& self.spec_filters().len() == last + 2
            &&& before.spec_configuration().is_added(
                (last + 1) as nat,
                self.spec_filters()[last + 1],
            )
        } else {
            self.spec_filters().len() == last + 1
        }
    }

    /// Whether the filter is `before` after the removal of an item with the hash
    /// `item_hash` from filter number `k`, the first that holds its entry.
    pub open spec fn is_removal(&self, before: Self, item_hash: u64, k: int) -> bool {
        &&& 0 <= k < before.spec_filters().len()
        &&& forall|j: int|
            0 <= j < k ==> !before.finds_in(j, item_hash)
        &&& before.finds_in(k, item_hash)
        &&& self.wf()
        &&& self.same_setup(before)
        &&& self.spec_len() == before.spec_len() - 1
        &&& self.spec_filters().len() == before.spec_filters().len()
        &&& forall|j: int|
            0 <= j < before.spec_filters().len() && j != k ==> self.spec_filters()[j]
                == before.spec_filters()[j]
        &&& self.spec_filters()[k].is_removal(
            before.spec_filters()[k],
            &before.spec_hasher(),
            item_hash,
        )
    }

    /// Whether the filter is `before` with nothing changed but the random source.
    pub open spec fn is_unchanged(&self, before: Self) -> bool {
        &&& self.wf()
        &&& self.same_setup(before)
        &&& self.spec_filters() == before.spec_filters()
    }

    /// Whether the filter is `before` after every filter was shrunk: it has as many
    /// filters and as many items, and it finds every item that `before` found.
    pub open spec fn is_shrunk(&self, before: Self) -> bool {
        &&& self.wf()
        &&& self.same_setup(before)
        &&& self.spec_filters().len() == before.spec_filters().len()
        &&& self.spec_len() == before.spec_len()
        &&& forall|k: int|
            0 <= k < before.spec_filters().len() ==> (#[trigger] self.spec_filters()[k]).is_shrunk(
                before.spec_filters()[k],
                &before.spec_hasher(),
            )
        &&& forall|item_hash: u64|
            before.spec_contains(item_hash) ==> #[trigger] self.spec_contains(item_hash)
    }

    /// Whether the parts are those of a growing filter: the parameters are valid,
    /// there is a filter, every filter is as the schedule says, and a `usize` holds
    /// the number of items.
    pub open spec fn parts_sound(configuration: Configuration, filters: Seq<CuckooFilter>) -> bool {
        &&& configuration.valid()
        &&& filters.len() >= 1
        &&& configuration.admits_all(filters)
        &&& sum_to(lens(filters), filters.len() as int) <= usize::MAX
    }

    /// The growing filter with the given parts, if they are those of one.
    pub fn from_parts(
        hasher: H,
        rng: StdRng,
        configuration: Configuration,
        filters: Vec<CuckooFilter>,
    ) -> (filter: Option<Self>)
        requires
            forall|k: int| 0 <= k < filters@.len() ==> (#[trigger] filters@[k]).wf(),
        ensures
            match filter {
                Some(filter) => {
                    &&& filter.wf()
                    &&& filter.spec_hasher() == hasher
                    &&& filter.spec_rng() == rng
                    &&& filter.spec_configuration() == configuration
                    &&& filter.spec_filters() == filters@
                },
                None => !Self::parts_sound(configuration, filters@),
            },
    {
        if !is_probability_bits(configuration.false_positive_probability)
            || configuration.entries_per_bucket == 0 || filters.len() == 0 {
            return None;
        }
        let mut total: usize = 0;
        let mut k: usize = 0;
        while k < filters.len()
            invariant
                k <= filters.len(),
                configuration.valid(),
                forall|j: int| 0 <= j < filters@.len() ==> (#[trigger] filters@[j]).wf(),
                forall|j: int|
                    0 <= j < k ==> configuration.admits(j as nat, #[trigger] filters@[j]),
                total == sum_to(lens(filters@), k as int),
            decreases filters.len() - k,
        {
            let filter = &filters[k];
            proof {
                assert(filters@[k as int].wf());
                filter.spec_buckets().lemma_wf();
                lemma_sum_grows(lens(filters@), k + 1, filters@.len() as int);
            }
            if filter.max_kicks() != configuration.max_kicks
                || filter.buckets().entries_per_bucket() != configuration.entries_per_bucket {
                return None;
            }
            match fingerprint_bitwidth(
                configuration.false_positive_probability,
                configuration.entries_per_bucket,
                k,
            ) {
                None => {
                    return None;
                },
                Some(width) => {
                    if width != filter.buckets().fingerprint_bitwidth() {
                        proof {
                            configuration.lemma_one_width(k as nat, width as nat);
                        }
                        return None;
                    }
                },
            }
            match total.checked_add(filter.len()) {
                None => {
                    return None;
                },
                Some(sum) => {
                    total = sum;
                },
            }
            k = k + 1;
        }
        Some(
            ScalableCuckooFilter {
                hasher,
                filters,
                initial_capacity: configuration.initial_capacity,
                false_positive_probability: configuration.false_positive_probability,
                entries_per_bucket: configuration.entries_per_bucket,
                max_kicks: configuration.max_kicks,
                rng,
                _item: PhantomData,
            },
        )
    }

    /// The hasher.
    pub fn hasher(&self) -> (hasher: &H)
        ensures
            *hasher == self.spec_hasher(),
    {
        &self.hasher
    }

    /// The filters, in the order in which they were added.
    pub fn filters(&self) -> (filters: &Vec<CuckooFilter>)
        ensures
            filters@ == self.spec_filters(),
    {
        &self.filters
    }

    /// Returns the initial capacity: the places of the first filter.
    pub fn initial_capacity(&self) -> (capacity: usize)
        ensures
            capacity == self.spec_configuration().initial_capacity,
    {
        self.initial_capacity
    }

    /// Returns the false positive probability, as the bits of a binary64 number.
    pub fn false_positive_probability(&self) -> (probability: u64)
        ensures
            probability == self.spec_configuration().false_positive_probability,
    {
        self.false_positive_probability
    }

    /// Returns the number of elements in each buckets.
    pub fn entries_per_bucket(&self) -> (n: usize)
        ensures
            n == self.spec_configuration().entries_per_bucket,
    {
        self.entries_per_bucket
    }

    /// Returns the number of kicks before the filter grows.
    pub fn max_kicks(&self) -> (kicks: usize)
        ensures
            kicks == self.spec_configuration().max_kicks,
    {
        self.max_kicks
    }

    /// The parameters, as a value.
    fn configuration(&self) -> (configuration: Configuration)
        ensures
            configuration == self.spec_configuration(),
    {
        Configuration {
            initial_capacity: self.initial_capacity,
            false_positive_probability: self.false_positive_probability,
            entries_per_bucket: self.entries_per_bucket,
            max_kicks: self.max_kicks,
        }
    }

    /// Returns the approximate number of items inserted in this filter: insertions
    /// less removals.
    pub fn len(&self) -> (len: usize)
        requires
            self.wf(),
        ensures
            len == self.spec_len(),
    {
        let mut sum: usize = 0;
        let mut i: usize = 0;
        while i < self.filters.len()
            invariant
                i <= self.filters.len(),
                sum == sum_to(lens(self.spec_filters()), i as int),
                self.spec_len() <= usize::MAX,
            decreases self.filters.len() - i,
        {
            proof {
                lemma_sum_grows(
                    lens(self.spec_filters()),
                    i + 1,
                    self.spec_filters().len() as int,
                );
            }
            sum = sum + self.filters[i].len();
            i = i + 1;
        }
        sum
    }

    /// Returns `true` if this filter contains no items, otherwise `false`.
    pub fn is_empty(&self) -> (empty: bool)
        requires
            self.wf(),
        ensures
            empty == (self.spec_len() == 0),
    {
        self.len() == 0
    }

    /// Returns the capacity (i.e., the upper bound of acceptable items count) of this
    /// filter, `usize::MAX` at most: the sum of the places of its filters.
    pub fn capacity(&self) -> (capacity: usize)
        requires
            self.wf(),
        ensures
            capacity == Self::spec_capacity(self.spec_filters()),
    {
        let mut sum: usize = 0;
        let mut i: usize = 0;
        while i < self.filters.len()
            invariant
                i <= self.filters.len(),
                self.wf(),
                sum_to(capacities(self.spec_filters()), i as int) <= usize::MAX ==> sum == sum_to(
                    capacities(self.spec_filters()),
                    i as int,
                ),
                sum_to(capacities(self.spec_filters()), i as int) > usize::MAX ==> sum
                    == usize::MAX,
            decreases self.filters.len() - i,
        {
            proof {
                assert(self.spec_configuration().admits(i as nat, self.spec_filters()[i as int]));
            }
            let places = self.filters[i].capacity();
            sum = if sum > usize::MAX - places {
                usize::MAX
            } else {
                sum + places
            };
            i = i + 1;
        }
        sum
    }

    /// Returns the number of bits being used for representing this filter, `u64::MAX`
    /// at most: the sum of the bits of its filters, whose side lists have the room
    /// that the allocator gave them.
    pub fn bits(&self) -> (bits: u64)
        requires
            self.wf(),
        ensures
            exists|rooms: Seq<nat>|
                Self::rooms_do(self.spec_filters(), rooms) && bits == #[trigger] Self::spec_bits(
                    self.spec_filters(),
                    rooms,
                ),
    {
        let mut sum: u64 = 0;
        let mut i: usize = 0;
        let ghost mut rooms: Seq<nat> = Seq::empty();
        while i < self.filters.len()
            invariant
                i <= self.filters.len(),
                self.wf(),
                rooms.len() == i,
                Self::rooms_do(self.spec_filters().take(i as int), rooms),
                sum_to(sizes(self.spec_filters(), rooms), i as int) <= u64::MAX ==> sum == sum_to(
                    sizes(self.spec_filters(), rooms),
                    i as int,
                ),
                sum_to(sizes(self.spec_filters(), rooms), i as int) > u64::MAX ==> sum == u64::MAX,
            decreases self.filters.len() - i,
        {
            proof {
                assert(self.spec_configuration().admits(i as nat, self.spec_filters()[i as int]));
            }
            let filter_bits = self.filters[i].bits();
            proof {
                let filter = self.spec_filters()[i as int];
                let room = choose|room: nat|
                    room >= filter.spec_exceptional_items()@.len() && filter_bits
                        == CuckooFilter::spec_bits(filter.spec_buckets(), room);
                lemma_sum_same(
                    sizes(self.spec_filters(), rooms),
                    sizes(self.spec_filters(), rooms.push(room)),
                    i as int,
                );
                rooms = rooms.push(room);
            }
            sum = if sum > u64::MAX - filter_bits {
                u64::MAX
            } else {
                sum + filter_bits
            };
            i = i + 1;
        }
        proof {
            assert(Self::rooms_do(self.spec_filters(), rooms) && sum == Self::spec_bits(
                self.spec_filters(),
                rooms,
            ));
        }
        sum
    }

    /// Returns `true` if some filter holds the entry of the items with the hash
    /// `item_hash`, otherwise `false`.
    pub fn contains_hash(&self, item_hash: u64) -> (found: bool)
        requires
            self.wf(),
        ensures
            found == self.spec_contains(item_hash),
    {
        let mut i: usize = 0;
        while i < self.filters.len()
            invariant
                i <= self.filters.len(),
                self.wf(),
                forall|k: int| 0 <= k < i ==> !self.finds_in(k, item_hash),
            decreases self.filters.len() - i,
        {
            proof {
                assert(self.spec_configuration().admits(i as nat, self.spec_filters()[i as int]));
            }
            if self.filters[i].contains(&self.hasher, item_hash) {
                proof {
                    assert(self.finds_in(i as int, item_hash));
                }
                return true;
            }
            proof {
                assert(!self.finds_in(i as int, item_hash));
            }
            i = i + 1;
        }
        false
    }

    /// Inserts an item by its hash into the last filter. If the side list of that
    /// filter then holds a fingerprint that was kicked out of the buckets, the next
    /// filter of the schedule is added, unless it cannot be addressed.
    pub fn insert_hash(&mut self, item_hash: u64)
        requires
            old(self).wf(),
            old(self).spec_len() < usize::MAX,
        ensures
            final(self).is_insertion(*old(self), item_hash),
    {
        let last = self.filters.len() - 1;
        proof {
            assert(self.spec_configuration().admits(last as nat, self.spec_filters()[last as int]));
            lemma_sum_grows(lens(self.spec_filters()), last as int, last + 1);
        }
        self.filters[last].insert(&self.hasher, &mut self.rng, item_hash);
        proof {
            lemma_sum_one_differs(
                lens(old(self).spec_filters()),
                lens(self.spec_filters()),
                last as int,
                last + 1,
            );
            self.spec_configuration().lemma_sizes_kept(
                old(self).spec_filters(),
                self.spec_filters(),
            );
        }
        let ghost inserted = *self;
        if self.filters[last].is_nearly_full() {
            self.grow();
            proof {
                if inserted.spec_configuration().can_add((last + 1) as nat) {
                    let kept = self.spec_filters().drop_last();
                    assert(kept[last as int] == self.spec_filters()[last as int]);
                    assert forall|k: int| 0 <= k < last implies self.spec_filters()[k] == old(
                        self,
                    ).spec_filters()[k] by {
                        assert(kept[k] == self.spec_filters()[k]);
                    }
                }
            }
        }
    }

    /// Removes an item by its hash from the first filter that holds its entry.
    pub fn remove_hash(&mut self, item_hash: u64) -> (removed: bool)
        requires
            old(self).wf(),
        ensures
            removed == old(self).spec_contains(item_hash),
            removed ==> exists|k: int| final(self).is_removal(*old(self), item_hash, k),
            !removed ==> final(self).is_unchanged(*old(self)),
    {
        let mut i: usize = 0;
        while i < self.filters.len()
            invariant
                i <= self.filters.len(),
                self.wf(),
                self.same_setup(*old(self)),
                self.spec_filters() == old(self).spec_filters(),
                forall|k: int| 0 <= k < i ==> !old(self).finds_in(k, item_hash),
            decreases self.filters.len() - i,
        {
            proof {
                assert(self.spec_configuration().admits(i as nat, self.spec_filters()[i as int]));
            }
            let removed = self.filters[i].remove(&self.hasher, item_hash);
            proof {
                assert(removed == old(self).finds_in(i as int, item_hash));
            }
            if removed {
                proof {
                    lemma_sum_one_differs(
                        lens(old(self).spec_filters()),
                        lens(self.spec_filters()),
                        i as int,
                        self.spec_filters().len() as int,
                    );
                    self.spec_configuration().lemma_sizes_kept(
                        old(self).spec_filters(),
                        self.spec_filters(),
                    );
                    assert(self.is_removal(*old(self), item_hash, i as int));
                }
                return true;
            }
            proof {
                assert(self.spec_filters() =~= old(self).spec_filters());
            }
            i = i + 1;
        }
        false
    }

    /// Shrinks the capacity of this filter as much as possible: shrinks each filter.
    pub fn shrink_to_fit(&mut self)
        requires
            old(self).wf(),
        ensures
            final(self).is_shrunk(*old(self)),
    {
        let mut i: usize = 0;
        while i < self.filters.len()
            invariant
                i <= self.filters.len(),
                self.wf(),
                self.same_setup(*old(self)),
                old(self).wf(),
                self.spec_filters().len() == old(self).spec_filters().len(),
                self.spec_len() == old(self).spec_len(),
                forall|k: int|
                    0 <= k < i ==> (#[trigger] self.spec_filters()[k]).is_shrunk(
                        old(self).spec_filters()[k],
                        &old(self).spec_hasher(),
                    ),
                forall|k: int|
                    i <= k < self.spec_filters().len() ==> self.spec_filters()[k] == old(
                        self,
                    ).spec_filters()[k],
            decreases self.filters.len() - i,
        {
            let ghost before = *self;
            proof {
                assert(self.spec_configuration().admits(i as nat, self.spec_filters()[i as int]));
            }
            self.filters[i].shrink_to_fit(&self.hasher, &mut self.rng);
            proof {
                let filter = self.spec_filters()[i as int];
                lemma_sum_one_differs(
                    lens(before.spec_filters()),
                    lens(self.spec_filters()),
                    i as int,
                    self.spec_filters().len() as int,
                );
                self.spec_configuration().lemma_sizes_kept(
                    before.spec_filters(),
                    self.spec_filters(),
                );
            }
            i = i + 1;
        }
        proof {
            assert forall|item_hash: u64|
                old(self).spec_contains(item_hash) implies #[trigger] self.spec_contains(
                item_hash,
            ) by {
                let k = choose|k: int|
                    0 <= k < old(self).spec_filters().len() && old(self).finds_in(k, item_hash);
                assert(self.spec_filters()[k].is_shrunk(
                    old(self).spec_filters()[k],
                    &old(self).spec_hasher(),
                ));
                assert(self.finds_in(k, item_hash));
            }
        }
    }

    /// Adds the next filter of the schedule, if it can be addressed.
    fn grow(&mut self)
        requires
            old(self).sound(),
        ensures
            final(self).sound(),
            final(self).is_growth(*old(self)),
            final(self).spec_rng() == old(self).spec_rng(),
            final(self).spec_len() == old(self).spec_len(),
    {
        let k = self.filters.len();
        match self.configuration().next_filter(k) {
            None => {},
            Some((width, capacity)) => {
                let filter = CuckooFilter::new(
                    width,
                    self.entries_per_bucket,
                    capacity,
                    self.max_kicks,
                );
                self.filters.push(filter);
                proof {
                    assert(self.spec_filters().drop_last() =~= old(self).spec_filters());
                    assert(self.spec_configuration().filter_fits(k as nat, width as nat));
                    lemma_sum_same(
                        lens(self.spec_filters()),
                        lens(old(self).spec_filters()),
                        k as int,
                    );
                    assert forall|j: int| 0 <= j <= k implies self.spec_configuration().admits(
                        j as nat,
                        #[trigger] self.spec_filters()[j],
                    ) by {
                        if j < k {
                            assert(self.spec_filters()[j] == old(self).spec_filters()[j]);
                        }
                    }
                }
            },
        }
    }

    /// An item is found exactly when the filters hold an entry of it.
    pub proof fn lemma_found_is_counted(&self, item_hash: u64)
        ensures
            self.spec_contains(item_hash) <==> self.spec_count(item_hash) > 0,
    {
        let per_filter = counts(self.spec_filters(), &self.spec_hasher(), item_hash);
        lemma_sum_positive(per_filter, self.spec_filters().len() as int);
        if self.spec_contains(item_hash) {
            let k = choose|k: int|
                0 <= k < self.spec_filters().len() && self.finds_in(k, item_hash);
            assert(per_filter[k] > 0);
        }
        if self.spec_count(item_hash) > 0 {
            let k = choose|k: int| 0 <= k < self.spec_filters().len() && per_filter[k] > 0;
            assert(self.finds_in(k, item_hash));
        }
    }

    /// No false negatives: an insertion adds one entry of the item, so the item is
    /// found; and it takes nothing away, so every item that was found before is found
    /// after it.
    pub proof fn lemma_insertion_counts(before: Self, after: Self, item_hash: u64, other_hash: u64)
        requires
            before.wf(),
            after.is_insertion(before, item_hash),
        ensures
            after.spec_count(item_hash) == before.spec_count(item_hash) + 1,
            after.spec_contains(item_hash),
            after.spec_count(other_hash) >= before.spec_count(other_hash),
            before.spec_contains(other_hash) ==> after.spec_contains(other_hash),
    {
        let hasher = before.spec_hasher();
        let n = before.spec_filters().len() as int;
        let last = n - 1;
        assert(before.spec_configuration().admits(last as nat, before.spec_filters()[last]));
        crate::cuckoo_filter::lemma_insertion_counts(
            before.spec_filters()[last],
            after.spec_filters()[last],
            &hasher,
            item_hash,
            item_hash,
        );
        crate::cuckoo_filter::lemma_insertion_counts(
            before.spec_filters()[last],
            after.spec_filters()[last],
            &hasher,
            item_hash,
            other_hash,
        );
        lemma_sum_one_differs(
            counts(before.spec_filters(), &hasher, item_hash),
            counts(after.spec_filters(), &hasher, item_hash),
            last,
            n,
        );
        lemma_sum_one_differs(
            counts(before.spec_filters(), &hasher, other_hash),
            counts(after.spec_filters(), &hasher, other_hash),
            last,
            n,
        );
        if after.spec_filters().len() > n {
            let added = after.spec_filters()[n];
            added.lemma_empty(&hasher);
            assert(added.spec_count(&hasher, item_hash) == 0);
            assert(added.spec_count(&hasher, other_hash) == 0);
        }
        after.lemma_found_is_counted(item_hash);
        after.lemma_found_is_counted(other_hash);
        before.lemma_found_is_counted(other_hash);
    }

    /// A removal takes one entry of the item away, and no entry of an item that has
    /// another entry in the filter that the item is taken from.
    pub proof fn lemma_removal_counts(
        before: Self,
        after: Self,
        item_hash: u64,
        other_hash: u64,
        k: int,
    )
        requires
            before.wf(),
            after.is_removal(before, item_hash, k),
        ensures
            after.spec_count(item_hash) == before.spec_count(item_hash) - 1,
            after.spec_count(other_hash) >= before.spec_count(other_hash) - 1,
            before.spec_filters()[k].entry_of(&before.spec_hasher(), other_hash)
                != before.spec_filters()[k].entry_of(&before.spec_hasher(), item_hash)
                ==> after.spec_count(other_hash) == before.spec_count(other_hash),
    {
        let hasher = before.spec_hasher();
        let n = before.spec_filters().len() as int;
        assert(before.spec_configuration().admits(k as nat, before.spec_filters()[k]));
        crate::cuckoo_filter::lemma_removal_counts(
            before.spec_filters()[k],
            after.spec_filters()[k],
            &hasher,
            item_hash,
            item_hash,
        );
        crate::cuckoo_filter::lemma_removal_counts(
            before.spec_filters()[k],
            after.spec_filters()[k],
            &hasher,
            item_hash,
            other_hash,
        );
        lemma_sum_one_differs(
            counts(before.spec_filters(), &hasher, item_hash),
            counts(after.spec_filters(), &hasher, item_hash),
            k,
            n,
        );
        lemma_sum_one_differs(
            counts(before.spec_filters(), &hasher, other_hash),
            counts(after.spec_filters(), &hasher, other_hash),
            k,
            n,
        );
    }

    /// Duplicate preservation: of an item that was not found and is inserted twice,
    /// one removal leaves an entry, so the item is still found; a second removal
    /// leaves none, so it is found no longer.
    pub proof fn lemma_duplicate_survives(
        start: Self,
        once: Self,
        twice: Self,
        removed: Self,
        gone: Self,
        item_hash: u64,
        first: int,
        second: int,
    )
        requires
            start.wf(),
            !start.spec_contains(item_hash),
            once.is_insertion(start, item_hash),
            twice.is_insertion(once, item_hash),
            removed.is_removal(twice, item_hash, first),
            gone.is_removal(removed, item_hash, second),
        ensures
            twice.spec_contains(item_hash),
            removed.spec_contains(item_hash),
            !gone.spec_contains(item_hash),
    {
        Self::lemma_insertion_counts(start, once, item_hash, item_hash);
        Self::lemma_insertion_counts(once, twice, item_hash, item_hash);
        Self::lemma_removal_counts(twice, removed, item_hash, item_hash, first);
        Self::lemma_removal_counts(removed, gone, item_hash, item_hash, second);
        start.lemma_found_is_counted(item_hash);
        removed.lemma_found_is_counted(item_hash);
        gone.lemma_found_is_counted(item_hash);
    }

    /// Shrinking preserves membership and the number of items: every item that was
    /// found is found after the filters were shrunk, and there are as many items.
    pub proof fn lemma_shrink_keeps_items(before: Self, after: Self, item_hash: u64)
        requires
            after.is_shrunk(before),
            before.spec_contains(item_hash),
        ensures
            after.spec_contains(item_hash),
            after.spec_len() == before.spec_len(),
    {
    }

    /// Round trip: a filter that has the hasher of another and filters with the same
    /// content, as a copy has or a filter that was put together from the parts of the
    /// other, finds the same items and counts as many.
    pub proof fn lemma_same_content(&self, other: Self, item_hash: u64)
        requires
            self.spec_hasher() == other.spec_hasher(),
            same_contents(self.spec_filters(), other.spec_filters()),
        ensures
            self.spec_contains(item_hash) == other.spec_contains(item_hash),
            self.spec_count(item_hash) == other.spec_count(item_hash),
            self.spec_len() == other.spec_len(),
    {
        let hasher = self.spec_hasher();
        let n = self.spec_filters().len() as int;
        assert forall|k: int| 0 <= k < n implies counts(self.spec_filters(), &hasher, item_hash)[k]
            == counts(other.spec_filters(), &hasher, item_hash)[k] by {
            assert(self.spec_filters()[k].same_content(other.spec_filters()[k]));
            self.spec_filters()[k].lemma_same_content(other.spec_filters()[k], &hasher);
        }
        assert forall|k: int| 0 <= k < n implies lens(self.spec_filters())[k] == lens(
            other.spec_filters(),
        )[k] by {
            assert(self.spec_filters()[k].same_content(other.spec_filters()[k]));
        }
        lemma_sum_same(
            counts(self.spec_filters(), &hasher, item_hash),
            counts(other.spec_filters(), &hasher, item_hash),
            n,
        );
        lemma_sum_same(lens(self.spec_filters()), lens(other.spec_filters()), n);
        self.lemma_found_is_counted(item_hash);
        other.lemma_found_is_counted(item_hash);
    }
}

impl<T: ?Sized, H: Hasher + Clone> Clone for ScalableCuckooFilter<T, H> {
    /// A filter with the same parameters, a copy of the hasher and of the random
    /// source, and filters with the same content.
    fn clone(&self) -> (copy: Self)
        ensures
            copy.spec_configuration() == self.spec_configuration(),
            cloned::<H>(self.spec_hasher(), copy.spec_hasher()),
            same_contents(copy.spec_filters(), self.spec_filters()),
            self.wf() ==> copy.wf(),
    {
        let mut filters: Vec<CuckooFilter> = Vec::new();
        let mut i: usize = 0;
        while i < self.filters.len()
            invariant
                i <= self.filters.len(),
                filters@.len() == i,
                forall|k: int|
                    0 <= k < i ==> (#[trigger] filters@[k]).same_content(self.filters@[k]),
                forall|k: int|
                    0 <= k < i && self.filters@[k].wf() ==> (#[trigger] filters@[k]).wf(),
            decreases self.filters.len() - i,
        {
            filters.push(self.filters[i].clone());
            i = i + 1;
        }
        let copy = ScalableCuckooFilter {
            hasher: self.hasher.clone(),
            filters,
            initial_capacity: self.initial_capacity,
            false_positive_probability: self.false_positive_probability,
            entries_per_bucket: self.entries_per_bucket,
            max_kicks: self.max_kicks,
            rng: clone_rng(&self.rng),
            _item: PhantomData,
        };
        proof {
            if self.wf() {
                lemma_sum_same(
                    lens(copy.spec_filters()),
                    lens(self.spec_filters()),
                    self.spec_filters().len() as int,
                );
                self.spec_configuration().lemma_sizes_kept(
                    self.spec_filters(),
                    copy.spec_filters(),
                );
            }
        }
        copy
    }
}

impl<T: Hash + ?Sized> ScalableCuckooFilter<T> {
    /// Makes a new `ScalableCuckooFilter` instance, as
    /// `ScalableCuckooFilterBuilder::new()` builds it after `initial_capacity` and
    /// `false_positive_probability` were set.
    pub fn new(initial_capacity_hint: usize, false_positive_probability: u64) -> (filter: Self)
        requires
            is_probability(false_positive_probability),
            (Configuration {
                initial_capacity: initial_capacity_hint,
                false_positive_probability,
                entries_per_bucket: DEFAULT_ENTRIES_PER_BUCKET,
                max_kicks: DEFAULT_MAX_KICKS,
            }).can_add(0),
        ensures
            filter.spec_hasher().spec_keys() == (0u64, 0u64),
            filter.is_new(
                Configuration {
                    initial_capacity: initial_capacity_hint,
                    false_positive_probability,
                    entries_per_bucket: DEFAULT_ENTRIES_PER_BUCKET,
                    max_kicks: DEFAULT_MAX_KICKS,
                },
                filter.spec_hasher(),
            ),
    {
        ScalableCuckooFilterBuilder::new().initial_capacity(
            initial_capacity_hint,
        ).false_positive_probability(false_positive_probability).finish()
    }
}

impl<T: Hash + ?Sized, H: Hasher> ScalableCuckooFilter<T, H> {
    /// Returns `true` if this filter may contain `item`, otherwise `false`: whether
    /// some filter holds the entry of the items with the hash of `item`.
    pub fn contains(&self, item: &T) -> (found: bool)
        requires
            self.wf(),
        ensures
            exists|item_hash: u64| found == #[trigger] self.spec_contains(item_hash),
    {
        let item_hash = self.hasher.hash(item);
        let found = self.contains_hash(item_hash);
        assert(found == self.spec_contains(item_hash));
        found
    }

    /// Inserts `item` into this filter.
    ///
    /// If the current filter becomes full, it will be expanded automatically.
    ///
    /// Items with the same fingerprint cannot be told apart, so every call adds a new
    /// entry, even if the same item is inserted multiple times: else a removal could
    /// lose an item that is still there. Where no item is ever removed, looking for
    /// the item before it is inserted keeps duplicates out.
    pub fn insert(&mut self, item: &T)
        requires
            old(self).wf(),
            old(self).spec_len() < usize::MAX,
        ensures
            exists|item_hash: u64| #[trigger] final(self).is_insertion(*old(self), item_hash),
    {
        let item_hash = self.hasher.hash(item);
        self.insert_hash(item_hash);
        assert(self.is_insertion(*old(self), item_hash));
    }

    /// Removes `item` from this filter.
    ///
    /// This method returns `true` if an entry with the same fingerprint as `item` has
    /// been removed, otherwise it returns `false`.
    pub fn remove(&mut self, item: &T) -> (removed: bool)
        requires
            old(self).wf(),
        ensures
            exists|item_hash: u64|
                {
                    &&& removed == #[trigger] old(self).spec_contains(item_hash)
                    &&& removed ==> exists|k: int| final(self).is_removal(*old(self), item_hash, k)
                    &&& !removed ==> final(self).is_unchanged(*old(self))
                },
    {
        let item_hash = self.hasher.hash(item);
        let removed = self.remove_hash(item_hash);
        assert(removed == old(self).spec_contains(item_hash));
        removed
    }
}

} // verus!
