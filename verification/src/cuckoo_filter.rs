//! One cuckoo filter of fixed size.
//!
//! An item is known to the filter by its fingerprint `f` and its two buckets `i0` and
//! `i1 = index(i0 XOR hash(f))`. From either bucket the other is found in the same way,
//! so the pair is known wherever the fingerprint lies, and the entry
//! `(f, min(i0, i1))` names the item. The model of a filter is the multiset of the
//! entries that it holds, in its buckets or in its side list. Where a fingerprint lies
//! is left to the random source; which entries are held is not.
use crate::bits::low_mask;
use crate::buckets::{
    first_index, labelled_from, lemma_first_index_found, lemma_labelled_contains,
    lemma_labelled_len, lemma_labelled_update, lemma_occupied_bound, lemma_occupied_contains,
    lemma_occupied_none, slot_named, with_slot, Buckets,
};
use crate::exceptional_items::{
    all_fit, lemma_fit_inserted, lemma_fit_removed, pair_key, ExceptionalItems,
};
use crate::hash::Hasher;
use crate::power::{ceil_log2, index_bits_for, lemma_word_exponent};
use crate::random::random_bool;
use rand::rngs::StdRng;
use vstd::multiset::Multiset;
use vstd::prelude::*;

verus! {

/// The other bucket of a fingerprint that may lie in bucket `i`.
pub open spec fn alt_index<H: Hasher>(
    index_bits: nat,
    hasher: &H,
    i: usize,
    fingerprint: u64,
) -> usize {
    (((i as u64) ^ hasher.spec_hash_u64(fingerprint)) & low_mask(index_bits)) as usize
}

/// The entry of a fingerprint that may lie in bucket `i`: the fingerprint with the
/// smaller index of its two buckets.
pub open spec fn stored_key<H: Hasher>(
    index_bits: nat,
    hasher: &H,
    i: usize,
    fingerprint: u64,
) -> (u64, usize) {
    pair_key(i, alt_index(index_bits, hasher, i, fingerprint), fingerprint)
}

/// The function that gives each occupied slot its entry.
pub open spec fn slot_key<H: Hasher>(index_bits: nat, hasher: &H) -> spec_fn((usize, u64)) -> (
    u64,
    usize,
) {
    |slot: (usize, u64)| stored_key(index_bits, hasher, slot.0, slot.1)
}

/// The entries that lie in the buckets.
pub open spec fn bucket_keys<H: Hasher>(buckets: Buckets, hasher: &H) -> Multiset<(u64, usize)> {
    labelled_from(
        buckets@,
        buckets.spec_entries_per_bucket(),
        0,
        slot_key(buckets.spec_index_bitwidth(), hasher),
    )
}

/// `n / d`, rounded up.
pub open spec fn ceil_div(n: nat, d: nat) -> nat {
    if n % d == 0 {
        n / d
    } else {
        n / d + 1
    }
}

/// The function that gives each occupied slot the entry that it has in a filter of
/// `index_bits` index bits into which it is moved.
pub open spec fn rehomed_key<H: Hasher>(index_bits: nat, hasher: &H) -> spec_fn((usize, u64)) -> (
    u64,
    usize,
) {
    |slot: (usize, u64)|
        stored_key(
            index_bits,
            hasher,
            ((slot.0 as u64) & low_mask(index_bits)) as usize,
            slot.1,
        )
}

/// The function that gives each entry of a side list the entry that it has in a filter
/// of `index_bits` index bits into which it is moved.
pub open spec fn reparked_key<H: Hasher>(index_bits: nat, hasher: &H) -> spec_fn((u64, usize)) -> (
    u64,
    usize,
) {
    |entry: (u64, usize)|
        stored_key(
            index_bits,
            hasher,
            ((entry.1 as u64) & low_mask(index_bits)) as usize,
            entry.0,
        )
}

proof fn lemma_fewer_bits(x: u64, h: u64, w: u64, fewer: u64)
    by (bit_vector)
    requires
        fewer <= w < 64,
    ensures
        (x & (((1u64 << w) - 1) as u64)) & (((1u64 << fewer) - 1) as u64) == x & (((1u64 << fewer)
            - 1) as u64),
        (((x & (((1u64 << w) - 1) as u64)) ^ h) & (((1u64 << w) - 1) as u64)) & (((1u64 << fewer)
            - 1) as u64) == ((x & (((1u64 << fewer) - 1) as u64)) ^ h) & (((1u64 << fewer)
            - 1) as u64),
{
}

proof fn lemma_pair_bits(i: u64, h: u64, w: u64)
    by (bit_vector)
    requires
        w < 64,
        i <= ((1u64 << w) - 1) as u64,
    ensures
        ((((i ^ h) & (((1u64 << w) - 1) as u64)) ^ h) & (((1u64 << w) - 1) as u64)) == i,
{
}

/// From the other bucket of a fingerprint, the other bucket is the first again, and
/// both give the fingerprint the same entry.
pub proof fn lemma_pair_symmetric<H: Hasher>(
    buckets: Buckets,
    hasher: &H,
    i: usize,
    fingerprint: u64,
)
    requires
        buckets.wf(),
        i < buckets.spec_len(),
    ensures
        alt_index(buckets.spec_index_bitwidth(), hasher, i, fingerprint) < buckets.spec_len(),
        alt_index(
            buckets.spec_index_bitwidth(),
            hasher,
            alt_index(buckets.spec_index_bitwidth(), hasher, i, fingerprint),
            fingerprint,
        ) == i,
        stored_key(
            buckets.spec_index_bitwidth(),
            hasher,
            alt_index(buckets.spec_index_bitwidth(), hasher, i, fingerprint),
            fingerprint,
        ) == stored_key(buckets.spec_index_bitwidth(), hasher, i, fingerprint),
{
    let w = buckets.spec_index_bitwidth();
    let h = hasher.spec_hash_u64(fingerprint);
    buckets.lemma_wf();
    buckets.lemma_index((i as u64) ^ h);
    buckets.lemma_index_of_index(i);
    let other = alt_index(w, hasher, i, fingerprint);
    buckets.lemma_index((other as u64) ^ h);
    lemma_pair_bits(i as u64, h, w as u64);
}

/// What writing `value` into slot `k` of bucket `i` does to the entries in the buckets
/// and to the number of occupied slots.
pub proof fn lemma_slot_written<H: Hasher>(
    before: Buckets,
    after: Buckets,
    hasher: &H,
    i: int,
    k: int,
    value: u64,
)
    requires
        before.wf(),
        after.same_shape(before),
        0 <= i < before.spec_len(),
        0 <= k < before.spec_entries_per_bucket(),
        after@ == before@.update(i * before.spec_entries_per_bucket() + k, value),
    ensures
        with_slot(
            bucket_keys(after, hasher),
            (i as usize, before.bucket(i)[k]),
            slot_key(before.spec_index_bitwidth(), hasher),
        ) == with_slot(
            bucket_keys(before, hasher),
            (i as usize, value),
            slot_key(before.spec_index_bitwidth(), hasher),
        ),
        after.occupied().len() + (if before.bucket(i)[k] != 0 {
            1int
        } else {
            0int
        }) == before.occupied().len() + (if value != 0 {
            1int
        } else {
            0int
        }),
{
    broadcast use vstd::multiset::group_multiset_axioms;

    let per_bucket = before.spec_entries_per_bucket();
    let label = slot_key(before.spec_index_bitwidth(), hasher);
    let at = i * per_bucket + k;
    before.lemma_wf();
    before.lemma_slot(i, k);
    lemma_labelled_update(before@, per_bucket, 0, at, value, label);
    lemma_labelled_len(before@, per_bucket, 0, label);
    lemma_labelled_len(after@, per_bucket, 0, label);
    let left = with_slot(bucket_keys(after, hasher), (i as usize, before.bucket(i)[k]), label);
    let right = with_slot(bucket_keys(before, hasher), (i as usize, value), label);
    assert(left =~= right);
    assert(left.len() == right.len());
}

/// The buckets hold the entry of a fingerprint other than `0` exactly when the
/// fingerprint lies in one of its two buckets; they hold no entry of the fingerprint `0`.
pub proof fn lemma_bucket_keys_contain<H: Hasher>(
    buckets: Buckets,
    hasher: &H,
    i0: usize,
    fingerprint: u64,
)
    requires
        buckets.wf(),
        i0 < buckets.spec_len(),
    ensures
        bucket_keys(buckets, hasher).contains(
            stored_key(buckets.spec_index_bitwidth(), hasher, i0, fingerprint),
        ) <==> fingerprint != 0 && (buckets.bucket(i0 as int).contains(fingerprint)
            || buckets.bucket(
            alt_index(buckets.spec_index_bitwidth(), hasher, i0, fingerprint) as int,
        ).contains(fingerprint)),
{
    let w = buckets.spec_index_bitwidth();
    let per_bucket = buckets.spec_entries_per_bucket();
    let label = slot_key(w, hasher);
    let key = stored_key(w, hasher, i0, fingerprint);
    let i1 = alt_index(w, hasher, i0, fingerprint);
    buckets.lemma_wf();
    lemma_pair_symmetric(buckets, hasher, i0, fingerprint);
    lemma_labelled_contains(buckets@, per_bucket, 0, label, key);
    if bucket_keys(buckets, hasher).contains(key) {
        let p = choose|p: int| 0 <= p && #[trigger] slot_named(buckets@, per_bucket, label, key, p);
        buckets.lemma_position(p);
        let i = (p / per_bucket as int) as usize;
        let k = p % per_bucket as int;
        lemma_pair_symmetric(buckets, hasher, i, fingerprint);
        assert(buckets.bucket(i as int)[k] == fingerprint);
        assert(i == i0 || i == i1);
    }
    if fingerprint != 0 && buckets.bucket(i0 as int).contains(fingerprint) {
        let k = choose|k: int|
            0 <= k < per_bucket && buckets.bucket(i0 as int)[k] == fingerprint;
        buckets.lemma_slot(i0 as int, k);
        assert(slot_named(buckets@, per_bucket, label, key, i0 * per_bucket + k));
    }
    if fingerprint != 0 && buckets.bucket(i1 as int).contains(fingerprint) {
        let k = choose|k: int|
            0 <= k < per_bucket && buckets.bucket(i1 as int)[k] == fingerprint;
        buckets.lemma_slot(i1 as int, k);
        assert(slot_named(buckets@, per_bucket, label, key, i1 * per_bucket + k));
    }
}

/// A cuckoo filter of fixed size: buckets, a side list, and the number of items.
#[derive(Debug)]
pub struct CuckooFilter {
    buckets: Buckets,
    max_kicks: usize,
    exceptional_items: ExceptionalItems,
    item_count: usize,
}

impl Clone for CuckooFilter {
    /// A filter with the same content.
    fn clone(&self) -> (copy: Self)
        ensures
            copy.same_content(*self),
            self.wf() ==> copy.wf(),
    {
        CuckooFilter {
            buckets: self.buckets.clone(),
            max_kicks: self.max_kicks,
            exceptional_items: self.exceptional_items.clone(),
            item_count: self.item_count,
        }
    }
}

impl CuckooFilter {
    /// The buckets.
    pub closed spec fn spec_buckets(&self) -> Buckets {
        self.buckets
    }

    /// The side list.
    pub closed spec fn spec_exceptional_items(&self) -> ExceptionalItems {
        self.exceptional_items
    }

    /// The number of evictions after which an insertion gives up.
    pub closed spec fn spec_max_kicks(&self) -> nat {
        self.max_kicks as nat
    }

    /// The number of items: insertions less removals.
    pub closed spec fn spec_len(&self) -> nat {
        self.item_count as nat
    }

    /// The number of low hash bits that select a bucket.
    pub open spec fn index_bits(&self) -> nat {
        self.spec_buckets().spec_index_bitwidth()
    }

    /// The parts are well-formed, a bucket has a slot, every fingerprint in the side
    /// list fits a slot, and every item is counted once.
    pub open spec fn wf(&self) -> bool {
        &&& self.spec_buckets().wf()
        &&& self.spec_buckets().spec_entries_per_bucket() >= 1
        &&& self.spec_exceptional_items().wf()
        &&& all_fit(self.spec_exceptional_items()@, self.spec_buckets().spec_fingerprint_mask())
        &&& self.spec_len() == self.spec_buckets().occupied().len()
            + self.spec_exceptional_items()@.len()
    }

    /// Whether two filters have the same sizes and the same limit of evictions.
    pub open spec fn same_parameters(&self, other: CuckooFilter) -> bool {
        &&& self.spec_buckets().same_shape(other.spec_buckets())
        &&& self.spec_max_kicks() == other.spec_max_kicks()
    }

    /// Whether two filters have the same sizes, the same slots, the same side list and
    /// the same number of items.
    pub open spec fn same_content(&self, other: CuckooFilter) -> bool {
        &&& self.same_parameters(other)
        &&& self.spec_buckets()@ == other.spec_buckets()@
        &&& self.spec_exceptional_items()@ == other.spec_exceptional_items()@
        &&& self.spec_len() == other.spec_len()
    }

    /// The entries that the filter holds, in its buckets and in its side list.
    pub open spec fn entries<H: Hasher>(&self, hasher: &H) -> Multiset<(u64, usize)> {
        bucket_keys(self.spec_buckets(), hasher).add(
            self.spec_exceptional_items()@.to_multiset(),
        )
    }

    /// The entry of the items with the hash `item_hash`.
    pub open spec fn entry_of<H: Hasher>(&self, hasher: &H, item_hash: u64) -> (u64, usize) {
        stored_key(
            self.index_bits(),
            hasher,
            self.spec_buckets().spec_index(item_hash),
            self.spec_buckets().spec_fingerprint(item_hash),
        )
    }

    /// How many entries of the items with the hash `item_hash` the filter holds.
    pub open spec fn spec_count<H: Hasher>(&self, hasher: &H, item_hash: u64) -> nat {
        self.entries(hasher).count(self.entry_of(hasher, item_hash))
    }

    /// Whether the filter holds the entry of the items with the hash `item_hash`.
    pub open spec fn spec_contains<H: Hasher>(&self, hasher: &H, item_hash: u64) -> bool {
        self.entries(hasher).contains(self.entry_of(hasher, item_hash))
    }

    /// Whether the side list holds an entry that was kicked out of the buckets.
    pub open spec fn spec_is_nearly_full(&self) -> bool {
        self.spec_exceptional_items().spec_contains_kicked_out_entries()
    }

    /// Whether one of the two buckets of a fingerprint has an empty slot.
    pub open spec fn has_room<H: Hasher>(&self, hasher: &H, i0: usize, fingerprint: u64) -> bool {
        self.spec_buckets().bucket(i0 as int).contains(0) || self.spec_buckets().bucket(
            alt_index(self.index_bits(), hasher, i0, fingerprint) as int,
        ).contains(0)
    }

    /// Whether the side list holds the entry of the fingerprint in the pair of buckets,
    /// or the fingerprint, not `0`, lies in one of the two.
    pub open spec fn holds(&self, i0: usize, i1: usize, fingerprint: u64) -> bool {
        self.spec_exceptional_items()@.contains(pair_key(i0, i1, fingerprint)) || (fingerprint
            != 0 && (self.spec_buckets().bucket(i0 as int).contains(fingerprint)
            || self.spec_buckets().bucket(i1 as int).contains(fingerprint)))
    }

    /// The slots of the filter after `value` was written over the first `needle` in
    /// bucket `i`.
    pub open spec fn filled(&self, i: usize, needle: u64, value: u64) -> Seq<u64> {
        self.spec_buckets()@.update(
            i * self.spec_buckets().spec_entries_per_bucket() + first_index(
                self.spec_buckets().bucket(i as int),
                needle,
            ),
            value,
        )
    }

    /// The places of a filter with these buckets and `parked` entries in its side list,
    /// `usize::MAX` at most.
    pub open spec fn spec_capacity(buckets: Buckets, parked: nat) -> usize {
        if buckets.spec_entries() + parked <= usize::MAX {
            (buckets.spec_entries() + parked) as usize
        } else {
            usize::MAX
        }
    }

    /// The bits of storage of a filter with these buckets and a side list with room
    /// for `capacity` entries, `u64::MAX` at most.
    pub open spec fn spec_bits(buckets: Buckets, capacity: nat) -> u64 {
        let bits = 8 * ((buckets.spec_fingerprint_bitwidth() * buckets.spec_entries() + 7) / 8)
            + crate::exceptional_items::storage_bits(capacity);
        if bits <= u64::MAX {
            bits as u64
        } else {
            u64::MAX
        }
    }

    /// Whether a filter of these sizes can be addressed: a bucket has a slot, and the
    /// buckets for `number_of_items_hint / entries_per_bucket` items, rounded up, fit.
    pub open spec fn spec_fits(
        fingerprint_bitwidth: nat,
        entries_per_bucket: nat,
        number_of_items_hint: nat,
    ) -> bool {
        entries_per_bucket >= 1 && Buckets::spec_fits(
            fingerprint_bitwidth,
            entries_per_bucket,
            ceil_div(number_of_items_hint, entries_per_bucket),
        )
    }

    /// Whether the parts are those of a filter: a bucket has a slot, every fingerprint
    /// in the side list fits a slot, and every item is counted once.
    pub open spec fn parts_agree(
        buckets: Buckets,
        exceptional_items: ExceptionalItems,
        item_count: nat,
    ) -> bool {
        &&& buckets.spec_entries_per_bucket() >= 1
        &&& all_fit(exceptional_items@, buckets.spec_fingerprint_mask())
        &&& item_count == buckets.occupied().len() + exceptional_items@.len()
    }

    /// The index bits of the least buckets that have a slot for each item.
    pub open spec fn shrunk_index_bits(&self) -> nat {
        ceil_log2(ceil_div(self.spec_len(), self.spec_buckets().spec_entries_per_bucket()))
    }

    /// Whether fewer buckets than the filter has would have a slot for each item.
    pub open spec fn shrinks(&self) -> bool {
        self.shrunk_index_bits() < self.index_bits()
    }

    /// Whether the filter is an empty one of these sizes: no slot is occupied, the side
    /// list is empty, and there are `2^k` buckets for the least `k` that gives
    /// `number_of_items_hint / entries_per_bucket` buckets, rounded up.
    pub open spec fn is_fresh(
        &self,
        fingerprint_bitwidth: nat,
        entries_per_bucket: nat,
        number_of_items_hint: nat,
        max_kicks: nat,
    ) -> bool {
        &&& self.wf()
        &&& self.spec_len() == 0
        &&& self.spec_max_kicks() == max_kicks
        &&& self.spec_buckets().spec_fingerprint_bitwidth() == fingerprint_bitwidth
        &&& self.spec_buckets().spec_entries_per_bucket() == entries_per_bucket
        &&& self.index_bits() == ceil_log2(ceil_div(number_of_items_hint, entries_per_bucket))
        &&& self.spec_buckets()@ == Seq::new(self.spec_buckets().spec_entries(), |p: int| 0u64)
        &&& self.spec_exceptional_items()@ == Seq::<(u64, usize)>::empty()
    }

    /// Whether the filter is `before` after the insertion of an item with the hash
    /// `item_hash`: it holds one entry more, the entry of the item.
    pub open spec fn is_insertion<H: Hasher>(
        &self,
        before: CuckooFilter,
        hasher: &H,
        item_hash: u64,
    ) -> bool {
        let i0 = before.spec_buckets().spec_index(item_hash);
        let fingerprint = before.spec_buckets().spec_fingerprint(item_hash);
        &&& self.wf()
        &&& self.same_parameters(before)
        &&& self.spec_len() == before.spec_len() + 1
        &&& self.entries(hasher) == before.entries(hasher).insert(
            before.entry_of(hasher, item_hash),
        )
        &&& self.inserted_into(before, hasher, i0, fingerprint)
    }

    /// Where the fingerprint lies after its insertion with the first bucket `i0` into
    /// `before`, as far as the random source has no say in it.
    pub open spec fn inserted_into<H: Hasher>(
        &self,
        before: CuckooFilter,
        hasher: &H,
        i0: usize,
        fingerprint: u64,
    ) -> bool {
        let i1 = alt_index(before.index_bits(), hasher, i0, fingerprint);
        let list = self.spec_exceptional_items()@;
        let list_before = before.spec_exceptional_items()@;
        &&& fingerprint == 0 ==> self.spec_buckets()@ == before.spec_buckets()@
            && list.to_multiset() == list_before.to_multiset().insert(
            pair_key(i0, i1, fingerprint),
        )
        &&& fingerprint != 0 && before.has_room(hasher, i0, fingerprint) ==> list == list_before
        &&& fingerprint != 0 && before.has_room(hasher, i0, fingerprint)
            ==> self.spec_buckets()@ == before.filled(
            if before.spec_buckets().bucket(i0 as int).contains(0) {
                i0
            } else {
                i1
            },
            0,
            fingerprint,
        )
        &&& fingerprint != 0 && !before.has_room(hasher, i0, fingerprint)
            && before.spec_max_kicks() == 0 ==> self.spec_buckets()@ == before.spec_buckets()@
        &&& list == list_before || exists|k: int, key: (u64, usize)|
            0 <= k <= list_before.len() && #[trigger] list_before.insert(k, key) == list && (key.0
                != 0 <==> fingerprint != 0)
    }

    /// Whether the filter is `before` after the removal of an item with the hash
    /// `item_hash`: it holds one entry of the item less, taken from the side list if
    /// one was there, else from the buckets.
    pub open spec fn is_removal<H: Hasher>(
        &self,
        before: CuckooFilter,
        hasher: &H,
        item_hash: u64,
    ) -> bool {
        let key = before.entry_of(hasher, item_hash);
        let i0 = before.spec_buckets().spec_index(item_hash);
        let i1 = alt_index(before.index_bits(), hasher, i0, key.0);
        &&& self.wf()
        &&& self.same_parameters(before)
        &&& self.spec_len() == before.spec_len() - 1
        &&& self.entries(hasher) == before.entries(hasher).remove(key)
        &&& before.spec_exceptional_items()@.contains(key) ==> self.spec_buckets()
            == before.spec_buckets()
        &&& !before.spec_exceptional_items()@.contains(key) ==> self.spec_exceptional_items()
            == before.spec_exceptional_items() && self.spec_buckets()@ == before.filled(
            if before.spec_buckets().bucket(i0 as int).contains(key.0) {
                i0
            } else {
                i1
            },
            key.0,
            0,
        )
    }

    /// The entries of the filter as they are in a filter of `index_bits` index bits
    /// into which they are moved: those in the buckets and those in the side list.
    pub open spec fn rehomed_entries<H: Hasher>(&self, index_bits: nat, hasher: &H) -> Multiset<
        (u64, usize),
    > {
        self.spec_buckets().occupied().map_values(
            rehomed_key(index_bits, hasher),
        ).to_multiset().add(
            self.spec_exceptional_items()@.map_values(
                reparked_key(index_bits, hasher),
            ).to_multiset(),
        )
    }

    /// Whether the filter is `before` after shrinking. It has as many items and finds
    /// every item that `before` found. Where fewer buckets do, it has those, and it
    /// holds what `before` held, in its buckets and in its side list, each entry as it
    /// is in the smaller filter. Else nothing has changed.
    pub open spec fn is_shrunk<H: Hasher>(&self, before: CuckooFilter, hasher: &H) -> bool {
        &&& self.wf()
        &&& self.spec_max_kicks() == before.spec_max_kicks()
        &&& self.spec_buckets().spec_fingerprint_bitwidth()
            == before.spec_buckets().spec_fingerprint_bitwidth()
        &&& self.spec_buckets().spec_entries_per_bucket()
            == before.spec_buckets().spec_entries_per_bucket()
        &&& self.spec_len() == before.spec_len()
        &&& !before.shrinks() ==> self.spec_buckets() == before.spec_buckets()
            && self.spec_exceptional_items()@ == before.spec_exceptional_items()@
        &&& before.shrinks() ==> self.index_bits() == before.shrunk_index_bits()
            && self.entries(hasher) == before.rehomed_entries(before.shrunk_index_bits(), hasher)
        &&& forall|item_hash: u64|
            before.spec_contains(hasher, item_hash) ==> #[trigger] self.spec_contains(
                hasher,
                item_hash,
            )
    }

    /// Tells whether a filter of these sizes can be addressed.
    pub fn fits(
        fingerprint_bitwidth: usize,
        entries_per_bucket: usize,
        number_of_items_hint: usize,
    ) -> (ok: bool)
        ensures
            ok == Self::spec_fits(
                fingerprint_bitwidth as nat,
                entries_per_bucket as nat,
                number_of_items_hint as nat,
            ),
    {
        if entries_per_bucket == 0 {
            return false;
        }
        let number_of_buckets_hint = Self::buckets_hint(number_of_items_hint, entries_per_bucket);
        Buckets::fits(fingerprint_bitwidth, entries_per_bucket, number_of_buckets_hint)
    }

    /// The number of buckets that hold `number_of_items` items: the quotient, rounded up.
    fn buckets_hint(number_of_items: usize, entries_per_bucket: usize) -> (hint: usize)
        requires
            entries_per_bucket >= 1,
        ensures
            hint == ceil_div(number_of_items as nat, entries_per_bucket as nat),
    {
        if number_of_items % entries_per_bucket == 0 {
            number_of_items / entries_per_bucket
        } else {
            assert(number_of_items / entries_per_bucket < number_of_items) by (nonlinear_arith)
                requires
                    number_of_items % entries_per_bucket != 0,
                    entries_per_bucket >= 1,
            ;
            number_of_items / entries_per_bucket + 1
        }
    }

    /// An empty filter with room for about `number_of_items_hint` items.
    pub fn new(
        fingerprint_bitwidth: usize,
        entries_per_bucket: usize,
        number_of_items_hint: usize,
        max_kicks: usize,
    ) -> (filter: CuckooFilter)
        requires
            Self::spec_fits(
                fingerprint_bitwidth as nat,
                entries_per_bucket as nat,
                number_of_items_hint as nat,
            ),
        ensures
            filter.is_fresh(
                fingerprint_bitwidth as nat,
                entries_per_bucket as nat,
                number_of_items_hint as nat,
                max_kicks as nat,
            ),
    {
        let number_of_buckets_hint = Self::buckets_hint(number_of_items_hint, entries_per_bucket);
        let buckets = Buckets::new(
            fingerprint_bitwidth,
            entries_per_bucket,
            number_of_buckets_hint,
        );
        proof {
            lemma_occupied_none(buckets@, entries_per_bucket as nat, 0);
        }
        CuckooFilter {
            buckets,
            max_kicks,
            exceptional_items: ExceptionalItems::new(),
            item_count: 0,
        }
    }

    /// The filter with the given parts, if they are those of a filter.
    pub fn from_parts(
        buckets: Buckets,
        max_kicks: usize,
        exceptional_items: ExceptionalItems,
        item_count: usize,
    ) -> (filter: Option<CuckooFilter>)
        requires
            buckets.wf(),
            exceptional_items.wf(),
        ensures
            match filter {
                Some(filter) => {
                    &&& filter.wf()
                    &&& filter.spec_buckets() == buckets
                    &&& filter.spec_max_kicks() == max_kicks
                    &&& filter.spec_exceptional_items() == exceptional_items
                    &&& filter.spec_len() == item_count
                },
                None => !Self::parts_agree(buckets, exceptional_items, item_count as nat),
            },
    {
        if buckets.entries_per_bucket() == 0 {
            return None;
        }
        if !exceptional_items.fits(buckets.fingerprint_mask()) {
            return None;
        }
        let mut occupied: usize = 0;
        let ghost mut seen: Seq<(usize, u64)> = Seq::empty();
        proof {
            buckets.lemma_wf();
            lemma_occupied_bound(buckets@, buckets.spec_entries_per_bucket(), 0);
            assert(seen + buckets.occupied() =~= buckets.occupied());
        }
        let mut iter = buckets.iter();
        loop
            invariant
                iter.wf(),
                iter.spec_buckets() == buckets,
                seen + iter.remaining() == buckets.occupied(),
                occupied == seen.len(),
                buckets.occupied().len() <= usize::MAX,
            ensures
                occupied == buckets.occupied().len(),
            decreases iter.remaining().len(),
        {
            let item = iter.next();
            match item {
                None => {
                    proof {
                        assert(seen + Seq::<(usize, u64)>::empty() =~= seen);
                    }
                    break ;
                },
                Some(slot) => {
                    proof {
                        assert(seen.push(slot) + iter.remaining() =~= seen + (seq![slot]
                            + iter.remaining()));
                        seen = seen.push(slot);
                    }
                    occupied = occupied + 1;
                },
            }
        }
        let parked = exceptional_items.len();
        if occupied > usize::MAX - parked || occupied + parked != item_count {
            None
        } else {
            Some(CuckooFilter { buckets, max_kicks, exceptional_items, item_count })
        }
    }

    /// The buckets.
    pub fn buckets(&self) -> (buckets: &Buckets)
        ensures
            *buckets == self.spec_buckets(),
    {
        &self.buckets
    }

    /// The side list.
    pub fn exceptional_items(&self) -> (list: &ExceptionalItems)
        ensures
            *list == self.spec_exceptional_items(),
    {
        &self.exceptional_items
    }

    /// The number of evictions after which an insertion gives up.
    pub fn max_kicks(&self) -> (kicks: usize)
        ensures
            kicks == self.spec_max_kicks(),
    {
        self.max_kicks
    }

    /// The number of bits of storage, `u64::MAX` at most: those of the buckets and
    /// those of the side list, whose reserved room the allocator decides.
    pub fn bits(&self) -> (bits: u64)
        requires
            self.wf(),
        ensures
            exists|capacity: nat|
                capacity >= self.spec_exceptional_items()@.len() && bits == Self::spec_bits(
                    self.spec_buckets(),
                    capacity,
                ),
    {
        let buckets_bits = self.buckets.bits();
        let list_bits = self.exceptional_items.bits();
        proof {
            let capacity = choose|capacity: nat|
                capacity >= self.exceptional_items@.len() && list_bits
                    == crate::exceptional_items::storage_bits(capacity);
            assert(capacity >= self.spec_exceptional_items()@.len() && (if buckets_bits > u64::MAX
                - list_bits {
                u64::MAX
            } else {
                (buckets_bits + list_bits) as u64
            }) == Self::spec_bits(self.spec_buckets(), capacity));
        }
        if buckets_bits > u64::MAX - list_bits {
            u64::MAX
        } else {
            buckets_bits + list_bits
        }
    }

    /// The number of items: insertions less removals.
    pub fn len(&self) -> (len: usize)
        ensures
            len == self.spec_len(),
    {
        self.item_count
    }

    /// The number of places for items, `usize::MAX` at most: the slots of the buckets
    /// and the entries of the side list.
    pub fn capacity(&self) -> (capacity: usize)
        requires
            self.wf(),
        ensures
            capacity == Self::spec_capacity(
                self.spec_buckets(),
                self.spec_exceptional_items()@.len(),
            ),
    {
        let slots = self.buckets.entries();
        let parked = self.exceptional_items.len();
        if slots > usize::MAX - parked {
            usize::MAX
        } else {
            slots + parked
        }
    }

    /// Whether an insertion has given up on the buckets: whether the side list holds an
    /// entry with a fingerprint other than `0`.
    pub fn is_nearly_full(&self) -> (full: bool)
        requires
            self.wf(),
        ensures
            full == self.spec_is_nearly_full(),
    {
        self.exceptional_items.contains_kicked_out_entries()
    }

    /// Whether the filter holds the entry of the items with the hash `item_hash`.
    pub fn contains<H: Hasher>(&self, hasher: &H, item_hash: u64) -> (found: bool)
        requires
            self.wf(),
        ensures
            found == self.spec_contains(hasher, item_hash),
    {
        let fingerprint = self.buckets.fingerprint(item_hash);
        let i0 = self.buckets.index(item_hash);
        let i1 = self.buckets.index((i0 as u64) ^ hasher.hash_u64(fingerprint));
        proof {
            self.lemma_layout(hasher, i0, fingerprint);
        }
        self.contains_fingerprint(i0, i1, fingerprint)
    }

    /// Looks for a fingerprint in the side list and in its two buckets.
    pub fn contains_fingerprint(&self, i0: usize, i1: usize, fingerprint: u64) -> (found: bool)
        requires
            self.wf(),
            i0 < self.spec_buckets().spec_len(),
            i1 < self.spec_buckets().spec_len(),
        ensures
            found == self.holds(i0, i1, fingerprint),
    {
        if self.exceptional_items.contains(i0, i1, fingerprint) {
            true
        } else if fingerprint == 0 {
            false
        } else {
            self.buckets.contains(i0, fingerprint) || self.buckets.contains(i1, fingerprint)
        }
    }

    /// Inserts an item by its hash. Nothing is looked up first: an item that is
    /// inserted twice is held twice.
    pub fn insert<H: Hasher>(&mut self, hasher: &H, rng: &mut StdRng, item_hash: u64)
        requires
            old(self).wf(),
            old(self).spec_len() < usize::MAX,
        ensures
            final(self).is_insertion(*old(self), hasher, item_hash),
    {
        let fingerprint = self.buckets.fingerprint(item_hash);
        let i0 = self.buckets.index(item_hash);
        self.insert_fingerprint(hasher, rng, i0, fingerprint);
    }

    /// Inserts a fingerprint whose first bucket is `i0`.
    ///
    /// The fingerprint `0` goes to the side list. Another one goes to the first empty
    /// slot of its first bucket, or else of its other bucket. If both are full, it
    /// takes the place of a fingerprint in one of the two, which moves to its own other
    /// bucket, and so on. After `max_kicks` evictions the fingerprint that is left over
    /// goes to the side list, under the smaller index of its two buckets: of the pair
    /// itself, where no eviction was made.
    pub fn insert_fingerprint<H: Hasher>(
        &mut self,
        hasher: &H,
        rng: &mut StdRng,
        i0: usize,
        fingerprint: u64,
    )
        requires
            old(self).wf(),
            old(self).spec_len() < usize::MAX,
            i0 < old(self).spec_buckets().spec_len(),
            fingerprint <= old(self).spec_buckets().spec_fingerprint_mask(),
        ensures
            final(self).wf(),
            final(self).same_parameters(*old(self)),
            final(self).spec_len() == old(self).spec_len() + 1,
            final(self).entries(hasher) == old(self).entries(hasher).insert(
                stored_key(old(self).index_bits(), hasher, i0, fingerprint),
            ),
            final(self).inserted_into(*old(self), hasher, i0, fingerprint),
    {
        broadcast use vstd::multiset::group_multiset_axioms;

        let ghost w = self.index_bits();
        let ghost key = stored_key(w, hasher, i0, fingerprint);
        let ghost keys_before = bucket_keys(self.buckets, hasher);
        let ghost list_before = self.exceptional_items@;
        let i1 = self.buckets.index((i0 as u64) ^ hasher.hash_u64(fingerprint));
        proof {
            lemma_pair_symmetric(self.buckets, hasher, i0, fingerprint);
        }
        self.item_count += 1;
        if fingerprint == 0 {
            self.exceptional_items.insert(i0, i1, 0);
            proof {
                assert(self.entries(hasher) =~= old(self).entries(hasher).insert(key));
                let k = choose|k: int|
                    0 <= k <= list_before.len() && self.exceptional_items@ == list_before.insert(
                        k,
                        key,
                    );
                assert(list_before.insert(k, key) == self.exceptional_items@);
                lemma_fit_inserted(list_before, k, key, self.buckets.spec_fingerprint_mask());
            }
            return ;
        }
        if self.buckets.try_insert(i0, fingerprint) {
            proof {
                let before = old(self).spec_buckets();
                let k = first_index(before.bucket(i0 as int), 0);
                lemma_first_index_found(before.bucket(i0 as int), 0);
                lemma_slot_written(before, self.buckets, hasher, i0 as int, k, fingerprint);
                assert(self.entries(hasher) =~= old(self).entries(hasher).insert(key));
            }
            return ;
        }
        if self.buckets.try_insert(i1, fingerprint) {
            proof {
                let before = old(self).spec_buckets();
                let k = first_index(before.bucket(i1 as int), 0);
                lemma_first_index_found(before.bucket(i1 as int), 0);
                lemma_slot_written(before, self.buckets, hasher, i1 as int, k, fingerprint);
                assert(self.entries(hasher) =~= old(self).entries(hasher).insert(key));
            }
            return ;
        }
        let mut held = fingerprint;
        let first = random_bool(rng);
        let mut i = if first {
            i0
        } else {
            i1
        };
        let mut prev_i = if first {
            i1
        } else {
            i0
        };
        let mut kicks: usize = 0;
        while kicks < self.max_kicks
            invariant
                old(self).wf(),
                self.buckets.wf(),
                self.buckets.same_shape(old(self).spec_buckets()),
                self.exceptional_items == old(self).spec_exceptional_items(),
                self.max_kicks == old(self).spec_max_kicks(),
                self.item_count == old(self).spec_len() + 1,
                self.buckets.occupied().len() == old(self).spec_buckets().occupied().len(),
                w == old(self).index_bits(),
                key == stored_key(w, hasher, i0, fingerprint),
                keys_before == bucket_keys(old(self).spec_buckets(), hasher),
                i1 == alt_index(w, hasher, i0, fingerprint),
                !old(self).has_room(hasher, i0, fingerprint),
                fingerprint != 0,
                kicks <= self.max_kicks,
                i < self.buckets.spec_len(),
                held != 0,
                held <= self.buckets.spec_fingerprint_mask(),
                !self.buckets.bucket(i as int).contains(0),
                bucket_keys(self.buckets, hasher).insert(stored_key(w, hasher, i, held))
                    == keys_before.insert(key),
                kicks == 0 ==> self.buckets@ == old(self).spec_buckets()@,
                prev_i < self.buckets.spec_len(),
                i == alt_index(w, hasher, prev_i, held),
            decreases self.max_kicks - kicks,
        {
            let ghost buckets_before = self.buckets;
            let ghost held_before = held;
            held = self.buckets.random_swap(rng, i, held);
            prev_i = i;
            i = self.buckets.index((i as u64) ^ hasher.hash_u64(held));
            proof {
                let k = choose|k: int|
                    0 <= k < buckets_before.spec_entries_per_bucket() && held
                        == buckets_before.bucket(prev_i as int)[k] && self.buckets@
                        == buckets_before@.update(
                        prev_i * buckets_before.spec_entries_per_bucket() + k,
                        held_before,
                    );
                lemma_slot_written(
                    buckets_before,
                    self.buckets,
                    hasher,
                    prev_i as int,
                    k,
                    held_before,
                );
                lemma_pair_symmetric(self.buckets, hasher, prev_i, held);
                assert(bucket_keys(self.buckets, hasher).insert(stored_key(w, hasher, i, held))
                    =~= keys_before.insert(key));
            }
            let ghost buckets_swapped = self.buckets;
            if self.buckets.try_insert(i, held) {
                proof {
                    let k = first_index(buckets_swapped.bucket(i as int), 0);
                    lemma_first_index_found(buckets_swapped.bucket(i as int), 0);
                    lemma_slot_written(buckets_swapped, self.buckets, hasher, i as int, k, held);
                    assert(bucket_keys(self.buckets, hasher) =~= keys_before.insert(key));
                    assert(self.entries(hasher) =~= old(self).entries(hasher).insert(key));
                }
                return ;
            }
            kicks += 1;
        }
        self.exceptional_items.insert(prev_i, i, held);
        proof {
            let parked = pair_key(prev_i, i, held);
            let k = choose|k: int|
                0 <= k <= list_before.len() && self.exceptional_items@ == list_before.insert(
                    k,
                    parked,
                );
            assert(list_before.insert(k, parked) == self.exceptional_items@);
            lemma_fit_inserted(list_before, k, parked, self.buckets.spec_fingerprint_mask());
            lemma_pair_symmetric(self.buckets, hasher, prev_i, held);
            assert(parked == stored_key(w, hasher, i, held));
            assert(self.entries(hasher) =~= old(self).entries(hasher).insert(key));
        }
    }

    /// Removes an item by its hash: one entry of it, from the side list if one is
    /// there, else from its first bucket, else from its other bucket.
    pub fn remove<H: Hasher>(&mut self, hasher: &H, item_hash: u64) -> (removed: bool)
        requires
            old(self).wf(),
        ensures
            removed == old(self).spec_contains(hasher, item_hash),
            removed ==> final(self).is_removal(*old(self), hasher, item_hash),
            !removed ==> *final(self) == *old(self),
    {
        broadcast use vstd::multiset::group_multiset_axioms;

        let fingerprint = self.buckets.fingerprint(item_hash);
        let i0 = self.buckets.index(item_hash);
        let i1 = self.buckets.index((i0 as u64) ^ hasher.hash_u64(fingerprint));
        let ghost key = self.entry_of(hasher, item_hash);
        proof {
            self.lemma_layout(hasher, i0, fingerprint);
            lemma_pair_symmetric(self.buckets, hasher, i0, fingerprint);
            self.exceptional_items@.to_multiset_ensures();
        }
        let removed = if self.exceptional_items.contains(i0, i1, fingerprint) {
            let removed = self.exceptional_items.remove(i0, i1, fingerprint);
            proof {
                let list = old(self).spec_exceptional_items()@;
                let k = choose|k: int|
                    0 <= k < list.len() && list[k] == key && self.exceptional_items@
                        == list.remove(k);
                lemma_fit_removed(list, k, self.buckets.spec_fingerprint_mask());
                assert(self.entries(hasher) =~= old(self).entries(hasher).remove(key));
            }
            removed
        } else if fingerprint == 0 {
            false
        } else if self.buckets.contains(i0, fingerprint) {
            let removed = self.buckets.remove_fingerprint(i0, fingerprint);
            proof {
                let row = old(self).spec_buckets().bucket(i0 as int);
                lemma_first_index_found(row, fingerprint);
                lemma_slot_written(
                    old(self).spec_buckets(),
                    self.buckets,
                    hasher,
                    i0 as int,
                    first_index(row, fingerprint),
                    0,
                );
                assert(bucket_keys(self.buckets, hasher) =~= bucket_keys(
                    old(self).spec_buckets(),
                    hasher,
                ).remove(key));
                assert(self.entries(hasher) =~= old(self).entries(hasher).remove(key));
            }
            removed
        } else if self.buckets.contains(i1, fingerprint) {
            let removed = self.buckets.remove_fingerprint(i1, fingerprint);
            proof {
                let row = old(self).spec_buckets().bucket(i1 as int);
                lemma_first_index_found(row, fingerprint);
                lemma_slot_written(
                    old(self).spec_buckets(),
                    self.buckets,
                    hasher,
                    i1 as int,
                    first_index(row, fingerprint),
                    0,
                );
                assert(bucket_keys(self.buckets, hasher) =~= bucket_keys(
                    old(self).spec_buckets(),
                    hasher,
                ).remove(key));
                assert(self.entries(hasher) =~= old(self).entries(hasher).remove(key));
            }
            removed
        } else {
            false
        };
        if removed {
            self.item_count -= 1;
        }
        removed
    }

    /// Rebuilds the filter with the least buckets that have a slot for each item, if
    /// those are fewer than it has, and gives back the spare room of the side list.
    ///
    /// The fingerprints in the buckets are inserted into the new filter, each with the
    /// low bits of the index of its bucket as its first bucket, and after them the
    /// entries of the side list in the same way. A fingerprint `0` goes to the side
    /// list of the new filter again; another one may find a slot there.
    pub fn shrink_to_fit<H: Hasher>(&mut self, hasher: &H, rng: &mut StdRng)
        requires
            old(self).wf(),
        ensures
            final(self).is_shrunk(*old(self), hasher),
    {
        broadcast use vstd::multiset::group_multiset_axioms;

        let entries_per_bucket = self.buckets.entries_per_bucket();
        let hint = Self::buckets_hint(self.item_count, entries_per_bucket);
        let shrunk_bits = index_bits_for(hint);
        proof {
            self.buckets.lemma_wf();
            lemma_word_exponent(shrunk_bits as nat);
            if shrunk_bits >= usize::BITS {
                assert(!self.shrinks());
            }
        }
        if shrunk_bits < usize::BITS as usize && Buckets::required_number_of_buckets(hint)
            < self.buckets.len() {
            proof {
                if self.index_bits() <= shrunk_bits {
                    if self.index_bits() < shrunk_bits {
                        vstd::arithmetic::power2::lemma_pow2_strictly_increases(
                            self.index_bits(),
                            shrunk_bits as nat,
                        );
                    }
                }
                self.buckets.lemma_fewer_fit(hint as nat);
                lemma_occupied_bound(self.buckets@, entries_per_bucket as nat, 0);
            }
            let mut shrunk_filter = CuckooFilter::new(
                self.buckets.fingerprint_bitwidth(),
                self.buckets.entries_per_bucket(),
                self.item_count,
                self.max_kicks,
            );
            let ghost label = rehomed_key(shrunk_bits as nat, hasher);
            let ghost mut moved: Seq<(usize, u64)> = Seq::empty();
            proof {
                shrunk_filter.lemma_empty(hasher);
                assert(moved.map_values(label) =~= Seq::<(u64, usize)>::empty());
                Seq::<(u64, usize)>::empty().to_multiset_ensures();
                assert(moved + self.buckets.occupied() =~= self.buckets.occupied());
            }
            let mut iter = self.buckets.iter();
            loop
                invariant
                    *self == *old(self),
                    self.wf(),
                    iter.wf(),
                    iter.spec_buckets() == self.buckets,
                    moved + iter.remaining() == self.buckets.occupied(),
                    shrunk_filter.wf(),
                    shrunk_filter.spec_max_kicks() == self.max_kicks,
                    shrunk_filter.spec_buckets().spec_fingerprint_bitwidth()
                        == self.buckets.spec_fingerprint_bitwidth(),
                    shrunk_filter.spec_buckets().spec_entries_per_bucket()
                        == self.buckets.spec_entries_per_bucket(),
                    shrunk_filter.index_bits() == shrunk_bits,
                    shrunk_filter.spec_len() == moved.len(),
                    label == rehomed_key(shrunk_bits as nat, hasher),
                    shrunk_filter.entries(hasher) == moved.map_values(label).to_multiset(),
                ensures
                    moved == self.buckets.occupied(),
                decreases iter.remaining().len(),
            {
                let item = iter.next();
                match item {
                    None => {
                        proof {
                            assert(moved + Seq::<(usize, u64)>::empty() =~= moved);
                        }
                        break ;
                    },
                    Some((i, fingerprint)) => {
                        let shrunk_i = shrunk_filter.buckets.index(i as u64);
                        shrunk_filter.insert_fingerprint(hasher, rng, shrunk_i, fingerprint);
                        proof {
                            let slot = (i, fingerprint);
                            assert(moved.push(slot) + iter.remaining() =~= moved + (seq![slot]
                                + iter.remaining()));
                            assert(moved.push(slot).map_values(label) =~= moved.map_values(
                                label,
                            ).push(label(slot)));
                            vstd::seq_lib::to_multiset_build(moved.map_values(label), label(slot));
                            moved = moved.push(slot);
                        }
                    },
                }
            }
            let ghost relabel = reparked_key(shrunk_bits as nat, hasher);
            let ghost list = self.exceptional_items@;
            let ghost from_buckets = moved.map_values(label).to_multiset();
            let mut k: usize = 0;
            proof {
                assert(list.take(0).map_values(relabel) =~= Seq::<(u64, usize)>::empty());
            }
            while k < self.exceptional_items.len()
                invariant
                    *self == *old(self),
                    self.wf(),
                    k <= list.len(),
                    list == self.exceptional_items@,
                    moved == self.buckets.occupied(),
                    from_buckets == moved.map_values(label).to_multiset(),
                    relabel == reparked_key(shrunk_bits as nat, hasher),
                    shrunk_filter.wf(),
                    shrunk_filter.spec_max_kicks() == self.max_kicks,
                    shrunk_filter.spec_buckets().spec_fingerprint_bitwidth()
                        == self.buckets.spec_fingerprint_bitwidth(),
                    shrunk_filter.spec_buckets().spec_entries_per_bucket()
                        == self.buckets.spec_entries_per_bucket(),
                    shrunk_filter.index_bits() == shrunk_bits,
                    shrunk_filter.spec_len() == moved.len() + k,
                    shrunk_filter.entries(hasher) == from_buckets.add(
                        list.take(k as int).map_values(relabel).to_multiset(),
                    ),
                decreases list.len() - k,
            {
                let entry = self.exceptional_items.entry(k);
                let shrunk_i = shrunk_filter.buckets.index(entry.1 as u64);
                shrunk_filter.insert_fingerprint(hasher, rng, shrunk_i, entry.0);
                proof {
                    let done = list.take(k as int).map_values(relabel);
                    assert(list.take(k + 1).map_values(relabel) =~= done.push(relabel(entry)));
                    vstd::seq_lib::to_multiset_build(done, relabel(entry));
                    assert(shrunk_filter.entries(hasher) =~= from_buckets.add(
                        list.take(k + 1).map_values(relabel).to_multiset(),
                    ));
                }
                k = k + 1;
            }
            proof {
                assert(list.take(list.len() as int) =~= list);
            }
            *self = shrunk_filter;
        } else {
            proof {
                if shrunk_bits < usize::BITS && shrunk_bits < self.index_bits() {
                    vstd::arithmetic::power2::lemma_pow2_strictly_increases(
                        shrunk_bits as nat,
                        self.index_bits(),
                    );
                }
            }
        }
        self.exceptional_items.shrink_to_fit();
        proof {
            assert forall|item_hash: u64|
                old(self).spec_contains(hasher, item_hash) implies #[trigger] self.spec_contains(
                hasher,
                item_hash,
            ) by {
                if old(self).shrinks() {
                    lemma_rehomed_found(*old(self), *self, hasher, item_hash);
                }
            }
        }
    }

    /// The fingerprint `0` is never in the buckets: an entry with the fingerprint `0` is
    /// held as often as the side list holds it.
    pub proof fn lemma_zero_is_parked<H: Hasher>(&self, hasher: &H, key: (u64, usize))
        requires
            self.wf(),
            key.0 == 0,
        ensures
            !bucket_keys(self.spec_buckets(), hasher).contains(key),
            self.entries(hasher).count(key) == self.spec_exceptional_items()@.to_multiset().count(
                key,
            ),
    {
        broadcast use vstd::multiset::group_multiset_axioms;

        lemma_labelled_contains(
            self.spec_buckets()@,
            self.spec_buckets().spec_entries_per_bucket(),
            0,
            slot_key(self.index_bits(), hasher),
            key,
        );
    }

    /// A filter without items holds no entry.
    pub proof fn lemma_empty<H: Hasher>(&self, hasher: &H)
        requires
            self.wf(),
            self.spec_len() == 0,
        ensures
            self.entries(hasher) == Multiset::<(u64, usize)>::empty(),
    {
        broadcast use vstd::multiset::group_multiset_axioms;

        lemma_labelled_len(
            self.spec_buckets()@,
            self.spec_buckets().spec_entries_per_bucket(),
            0,
            slot_key(self.index_bits(), hasher),
        );
        self.spec_exceptional_items()@.to_multiset_ensures();
        assert(self.entries(hasher).len() == 0);
        assert(self.entries(hasher) =~= Multiset::<(u64, usize)>::empty());
    }

    /// The number of entries that the filter holds is the number of its items.
    pub proof fn lemma_len<H: Hasher>(&self, hasher: &H)
        requires
            self.wf(),
        ensures
            self.entries(hasher).len() == self.spec_len(),
    {
        broadcast use vstd::multiset::group_multiset_axioms;

        lemma_labelled_len(
            self.spec_buckets()@,
            self.spec_buckets().spec_entries_per_bucket(),
            0,
            slot_key(self.index_bits(), hasher),
        );
        self.spec_exceptional_items()@.to_multiset_ensures();
    }

    /// The filter holds the entry of a fingerprint exactly when the side list holds it
    /// or the fingerprint, not `0`, lies in one of its two buckets.
    pub proof fn lemma_layout<H: Hasher>(&self, hasher: &H, i0: usize, fingerprint: u64)
        requires
            self.wf(),
            i0 < self.spec_buckets().spec_len(),
        ensures
            self.entries(hasher).contains(stored_key(self.index_bits(), hasher, i0, fingerprint))
                <==> self.holds(
                i0,
                alt_index(self.index_bits(), hasher, i0, fingerprint),
                fingerprint,
            ),
    {
        broadcast use vstd::multiset::group_multiset_axioms;

        let key = stored_key(self.index_bits(), hasher, i0, fingerprint);
        lemma_bucket_keys_contain(self.spec_buckets(), hasher, i0, fingerprint);
        self.spec_exceptional_items()@.to_multiset_ensures();
        assert(self.spec_exceptional_items()@.contains(key)
            <==> self.spec_exceptional_items()@.to_multiset().count(key) > 0);
    }

    /// Filters with the same content hold the same entries.
    pub proof fn lemma_same_content<H: Hasher>(&self, other: CuckooFilter, hasher: &H)
        requires
            self.same_content(other),
        ensures
            self.entries(hasher) == other.entries(hasher),
            forall|item_hash: u64|
                self.spec_contains(hasher, item_hash) == other.spec_contains(hasher, item_hash),
    {
    }
}

/// An item has the same entry in a filter with fewer index bits, whichever of its two
/// buckets in the larger filter the entry is taken from.
pub proof fn lemma_rehomed_key<H: Hasher>(
    before: CuckooFilter,
    after: CuckooFilter,
    hasher: &H,
    item_hash: u64,
    i: usize,
)
    requires
        before.wf(),
        after.wf(),
        after.index_bits() <= before.index_bits(),
        after.spec_buckets().spec_fingerprint_bitwidth()
            == before.spec_buckets().spec_fingerprint_bitwidth(),
        i == before.spec_buckets().spec_index(item_hash) || i == alt_index(
            before.index_bits(),
            hasher,
            before.spec_buckets().spec_index(item_hash),
            before.spec_buckets().spec_fingerprint(item_hash),
        ),
    ensures
        stored_key(
            after.index_bits(),
            hasher,
            ((i as u64) & low_mask(after.index_bits())) as usize,
            before.spec_buckets().spec_fingerprint(item_hash),
        ) == after.entry_of(hasher, item_hash),
{
    let buckets = before.spec_buckets();
    let w = before.index_bits();
    let fewer = after.index_bits();
    let fingerprint = buckets.spec_fingerprint(item_hash);
    let i0 = buckets.spec_index(item_hash);
    let h = hasher.spec_hash_u64(fingerprint);
    buckets.lemma_wf();
    after.spec_buckets().lemma_wf();
    buckets.lemma_index(item_hash);
    lemma_fewer_bits(item_hash, h, w as u64, fewer as u64);
    let first = after.spec_buckets().spec_index(item_hash);
    after.spec_buckets().lemma_index(item_hash);
    after.spec_buckets().lemma_index((i as u64));
    buckets.lemma_index((i0 as u64) ^ h);
    lemma_pair_symmetric(after.spec_buckets(), hasher, first, fingerprint);
}

/// Shrinking loses no item: an item that a filter finds is found in a filter with fewer
/// index bits that holds the entries of the first, each as it is in the smaller filter.
pub proof fn lemma_rehomed_found<H: Hasher>(
    before: CuckooFilter,
    after: CuckooFilter,
    hasher: &H,
    item_hash: u64,
)
    requires
        before.wf(),
        after.wf(),
        after.index_bits() <= before.index_bits(),
        after.spec_buckets().spec_fingerprint_bitwidth()
            == before.spec_buckets().spec_fingerprint_bitwidth(),
        after.entries(hasher) == before.rehomed_entries(after.index_bits(), hasher),
        before.spec_contains(hasher, item_hash),
    ensures
        after.spec_contains(hasher, item_hash),
{
    broadcast use vstd::multiset::group_multiset_axioms;

    let buckets = before.spec_buckets();
    let w = before.index_bits();
    let fewer = after.index_bits();
    let per_bucket = buckets.spec_entries_per_bucket();
    let key = before.entry_of(hasher, item_hash);
    let fingerprint = buckets.spec_fingerprint(item_hash);
    let i0 = buckets.spec_index(item_hash);
    let i1 = alt_index(w, hasher, i0, fingerprint);
    let list = before.spec_exceptional_items()@;
    buckets.lemma_wf();
    buckets.lemma_index(item_hash);
    lemma_pair_symmetric(buckets, hasher, i0, fingerprint);
    list.to_multiset_ensures();
    if bucket_keys(buckets, hasher).contains(key) {
        lemma_labelled_contains(buckets@, per_bucket, 0, slot_key(w, hasher), key);
        let p = choose|p: int|
            0 <= p && #[trigger] slot_named(buckets@, per_bucket, slot_key(w, hasher), key, p);
        buckets.lemma_position(p);
        let i = (p / per_bucket as int) as usize;
        let slot = (i, fingerprint);
        lemma_pair_symmetric(buckets, hasher, i, fingerprint);
        assert(i == i0 || i == i1);
        lemma_occupied_contains(buckets@, per_bucket, 0, p);
        let moved = buckets.occupied().map_values(rehomed_key(fewer, hasher));
        let at = choose|at: int|
            0 <= at < buckets.occupied().len() && buckets.occupied()[at] == slot;
        assert(moved[at] == rehomed_key(fewer, hasher)(slot));
        moved.to_multiset_ensures();
        assert(moved.contains(moved[at]));
        lemma_rehomed_key(before, after, hasher, item_hash, i);
    } else {
        assert(list.contains(key));
        let at = choose|at: int| 0 <= at < list.len() && list[at] == key;
        let moved = list.map_values(reparked_key(fewer, hasher));
        assert(moved[at] == reparked_key(fewer, hasher)(key));
        moved.to_multiset_ensures();
        assert(moved.contains(moved[at]));
        lemma_rehomed_key(before, after, hasher, item_hash, key.1);
    }
}

/// No false negatives: an insertion adds one entry of the item, so the item is found;
/// and it takes nothing away, so every item that was found before is found after it.
pub proof fn lemma_insertion_counts<H: Hasher>(
    before: CuckooFilter,
    after: CuckooFilter,
    hasher: &H,
    item_hash: u64,
    other_hash: u64,
)
    requires
        before.wf(),
        after.is_insertion(before, hasher, item_hash),
    ensures
        after.spec_count(hasher, item_hash) == before.spec_count(hasher, item_hash) + 1,
        after.spec_contains(hasher, item_hash),
        after.spec_count(hasher, other_hash) >= before.spec_count(hasher, other_hash),
        before.spec_contains(hasher, other_hash) ==> after.spec_contains(hasher, other_hash),
{
    broadcast use vstd::multiset::group_multiset_axioms;

}

/// A removal takes one entry of the item away, and no entry of an item with another
/// entry.
pub proof fn lemma_removal_counts<H: Hasher>(
    before: CuckooFilter,
    after: CuckooFilter,
    hasher: &H,
    item_hash: u64,
    other_hash: u64,
)
    requires
        before.wf(),
        before.spec_contains(hasher, item_hash),
        after.is_removal(before, hasher, item_hash),
    ensures
        after.spec_count(hasher, item_hash) == before.spec_count(hasher, item_hash) - 1,
        after.spec_count(hasher, other_hash) >= before.spec_count(hasher, other_hash) - 1,
        before.entry_of(hasher, other_hash) != before.entry_of(hasher, item_hash)
            ==> after.spec_count(hasher, other_hash) == before.spec_count(hasher, other_hash),
{
    broadcast use vstd::multiset::group_multiset_axioms;

}

/// Duplicate preservation: of an item that is inserted twice, one removal leaves an
/// entry, so the item is still found.
pub proof fn lemma_duplicate_survives<H: Hasher>(
    empty: CuckooFilter,
    once: CuckooFilter,
    twice: CuckooFilter,
    removed: CuckooFilter,
    hasher: &H,
    item_hash: u64,
)
    requires
        empty.wf(),
        once.is_insertion(empty, hasher, item_hash),
        twice.is_insertion(once, hasher, item_hash),
        removed.is_removal(twice, hasher, item_hash),
    ensures
        twice.spec_contains(hasher, item_hash),
        removed.spec_contains(hasher, item_hash),
        removed.spec_count(hasher, item_hash) == empty.spec_count(hasher, item_hash) + 1,
{
    lemma_insertion_counts(empty, once, hasher, item_hash, item_hash);
    lemma_insertion_counts(once, twice, hasher, item_hash, item_hash);
    lemma_removal_counts(twice, removed, hasher, item_hash, item_hash);
}

/// Shrinking preserves membership and the number of items: every item that a filter
/// finds is found after the filter was shrunk, and the filter has as many items.
pub proof fn lemma_shrink_keeps_items<H: Hasher>(
    before: CuckooFilter,
    after: CuckooFilter,
    hasher: &H,
    item_hash: u64,
)
    requires
        after.is_shrunk(before, hasher),
        before.spec_contains(hasher, item_hash),
    ensures
        after.spec_contains(hasher, item_hash),
        after.spec_len() == before.spec_len(),
{
}

} // verus!
