//! A flat array of buckets, each a row of fingerprint slots, packed into a bit vector.
//!
//! The model of a [`Buckets`] is the sequence of all its slots: bucket `i` owns the
//! slots from `i * E` up to `i * E + E`, where `E` is the number of entries per bucket.
//! A slot that holds `0` is empty.
use crate::bits::{
    bits_uint, lemma_field_round_trip, lemma_fitting_value_kept, lemma_splice_elsewhere,
    lemma_splice_field, lemma_zero_bits, low_mask, uint_bits, Bits,
};
use crate::power::{ceil_log2, index_bits_for, lemma_word_exponent};
use crate::random::random_index;
use rand::rngs::StdRng;
use vstd::arithmetic::div_mod::lemma_fundamental_div_mod_converse;
use vstd::arithmetic::power2::{lemma_pow2_pos, pow2};
use vstd::bits::lemma_usize_shl_is_mul;
use vstd::multiset::Multiset;
use vstd::prelude::*;

verus! {

/// The occupied slots from position `from` on, in order, each as the index of its
/// bucket and its fingerprint.
pub open spec fn occupied_from(slots: Seq<u64>, per_bucket: nat, from: int) -> Seq<(usize, u64)>
    decreases slots.len() - from,
{
    if from < 0 || from >= slots.len() {
        Seq::empty()
    } else if slots[from] != 0 {
        seq![((from / per_bucket as int) as usize, slots[from])] + occupied_from(
            slots,
            per_bucket,
            from + 1,
        )
    } else {
        occupied_from(slots, per_bucket, from + 1)
    }
}

/// The occupied slots from position `from` on as a multiset, each under the name that
/// `label` gives it.
pub open spec fn labelled_from<A>(
    slots: Seq<u64>,
    per_bucket: nat,
    from: int,
    label: spec_fn((usize, u64)) -> A,
) -> Multiset<A> {
    occupied_from(slots, per_bucket, from).map_values(label).to_multiset()
}

/// `entries` and the slot's name, unless the slot is empty.
pub open spec fn with_slot<A>(
    entries: Multiset<A>,
    slot: (usize, u64),
    label: spec_fn((usize, u64)) -> A,
) -> Multiset<A> {
    if slot.1 != 0 {
        entries.insert(label(slot))
    } else {
        entries
    }
}

/// The first index at which `row` holds `needle`, or the row's length.
pub open spec fn first_index(row: Seq<u64>, needle: u64) -> int
    decreases row.len(),
{
    if row.len() == 0 || row[0] == needle {
        0
    } else {
        1 + first_index(row.drop_first(), needle)
    }
}

/// What singles out the first index of `needle` in `row`.
pub proof fn lemma_first_index(row: Seq<u64>, needle: u64, k: int)
    requires
        0 <= k <= row.len(),
        k < row.len() ==> row[k] == needle,
        forall|j: int| 0 <= j < k ==> row[j] != needle,
    ensures
        first_index(row, needle) == k,
    decreases row.len(),
{
    if k > 0 {
        let rest = row.drop_first();
        assert forall|j: int| 0 <= j < k - 1 implies rest[j] != needle by {
            assert(rest[j] == row[j + 1]);
        }
        lemma_first_index(rest, needle, k - 1);
    }
}

/// A row that holds `needle` holds it at its first index.
pub proof fn lemma_first_index_found(row: Seq<u64>, needle: u64)
    requires
        row.contains(needle),
    ensures
        0 <= first_index(row, needle) < row.len(),
        row[first_index(row, needle)] == needle,
    decreases row.len(),
{
    let k = choose|k: int| 0 <= k < row.len() && row[k] == needle;
    if row[0] != needle {
        let rest = row.drop_first();
        assert(rest[k - 1] == needle);
        lemma_first_index_found(rest, needle);
        assert(rest[first_index(rest, needle)] == row[first_index(rest, needle) + 1]);
    }
}

/// No slot is occupied where every slot holds `0`.
pub proof fn lemma_occupied_none(slots: Seq<u64>, per_bucket: nat, from: int)
    requires
        forall|p: int| 0 <= p < slots.len() ==> slots[p] == 0,
    ensures
        occupied_from(slots, per_bucket, from) == Seq::<(usize, u64)>::empty(),
    decreases slots.len() - from,
{
    if 0 <= from < slots.len() {
        lemma_occupied_none(slots, per_bucket, from + 1);
    }
}

/// There are no more occupied slots than slots.
pub proof fn lemma_occupied_bound(slots: Seq<u64>, per_bucket: nat, from: int)
    requires
        0 <= from <= slots.len(),
    ensures
        occupied_from(slots, per_bucket, from).len() <= slots.len() - from,
    decreases slots.len() - from,
{
    if from < slots.len() {
        lemma_occupied_bound(slots, per_bucket, from + 1);
    }
}

/// An occupied slot is among the occupied slots from any position before it on.
pub proof fn lemma_occupied_contains(slots: Seq<u64>, per_bucket: nat, from: int, p: int)
    requires
        0 <= from <= p < slots.len(),
        slots[p] != 0,
    ensures
        occupied_from(slots, per_bucket, from).contains(
            ((p / per_bucket as int) as usize, slots[p]),
        ),
    decreases p - from,
{
    let slot = ((p / per_bucket as int) as usize, slots[p]);
    let rest = occupied_from(slots, per_bucket, from + 1);
    if from == p {
        assert((seq![slot] + rest)[0] == slot);
    } else {
        lemma_occupied_contains(slots, per_bucket, from + 1, p);
        let at = choose|at: int| 0 <= at < rest.len() && rest[at] == slot;
        if slots[from] != 0 {
            let head = ((from / per_bucket as int) as usize, slots[from]);
            assert((seq![head] + rest)[at + 1] == slot);
        }
    }
}

/// A multiset of labelled slots has one element for each occupied slot.
pub proof fn lemma_labelled_len<A>(
    slots: Seq<u64>,
    per_bucket: nat,
    from: int,
    label: spec_fn((usize, u64)) -> A,
)
    ensures
        labelled_from(slots, per_bucket, from, label).len() == occupied_from(
            slots,
            per_bucket,
            from,
        ).len(),
{
    occupied_from(slots, per_bucket, from).map_values(label).to_multiset_ensures();
}

/// Whether the slot at position `p` is occupied and `label` gives it the name `name`.
pub open spec fn slot_named<A>(
    slots: Seq<u64>,
    per_bucket: nat,
    label: spec_fn((usize, u64)) -> A,
    name: A,
    p: int,
) -> bool {
    0 <= p < slots.len() && slots[p] != 0 && label(((p / per_bucket as int) as usize, slots[p]))
        == name
}

/// A name is in the multiset of labelled slots if and only if it is the name of an
/// occupied slot.
pub proof fn lemma_labelled_contains<A>(
    slots: Seq<u64>,
    per_bucket: nat,
    from: int,
    label: spec_fn((usize, u64)) -> A,
    name: A,
)
    requires
        0 <= from,
    ensures
        labelled_from(slots, per_bucket, from, label).contains(name) <==> exists|p: int|
            from <= p && #[trigger] slot_named(slots, per_bucket, label, name, p),
    decreases slots.len() - from,
{
    broadcast use vstd::multiset::group_multiset_axioms;

    if from < slots.len() {
        lemma_labelled_step(slots, per_bucket, from, label);
        lemma_labelled_contains(slots, per_bucket, from + 1, label, name);
        if labelled_from(slots, per_bucket, from, label).contains(name) {
            if labelled_from(slots, per_bucket, from + 1, label).contains(name) {
                let p = choose|p: int|
                    from + 1 <= p && #[trigger] slot_named(slots, per_bucket, label, name, p);
                assert(from <= p && slot_named(slots, per_bucket, label, name, p));
            } else {
                assert(slot_named(slots, per_bucket, label, name, from));
            }
        }
        if exists|p: int| from <= p && #[trigger] slot_named(slots, per_bucket, label, name, p) {
            let p = choose|p: int|
                from <= p && #[trigger] slot_named(slots, per_bucket, label, name, p);
            if p != from {
                assert(from + 1 <= p && slot_named(slots, per_bucket, label, name, p));
            }
        }
    } else {
        Seq::<A>::empty().to_multiset_ensures();
        assert(occupied_from(slots, per_bucket, from).map_values(label) =~= Seq::<A>::empty());
    }
}

/// The slots from `from` on are the slot at `from`, if it is occupied, and those after.
pub proof fn lemma_labelled_step<A>(
    slots: Seq<u64>,
    per_bucket: nat,
    from: int,
    label: spec_fn((usize, u64)) -> A,
)
    requires
        0 <= from < slots.len(),
    ensures
        labelled_from(slots, per_bucket, from, label) =~= with_slot(
            labelled_from(slots, per_bucket, from + 1, label),
            ((from / per_bucket as int) as usize, slots[from]),
            label,
        ),
{
    broadcast use vstd::multiset::group_multiset_axioms;

    let rest = occupied_from(slots, per_bucket, from + 1);
    if slots[from] != 0 {
        let slot = ((from / per_bucket as int) as usize, slots[from]);
        let named = (seq![slot] + rest).map_values(label);
        assert(named =~= seq![label(slot)] + rest.map_values(label));
        assert(named.drop_first() =~= rest.map_values(label));
        named.to_multiset_ensures();
        vstd::seq_lib::lemma_multiset_commutative(seq![label(slot)], rest.map_values(label));
        assert(seq![label(slot)] =~= Seq::<A>::empty().push(label(slot)));
        vstd::seq_lib::to_multiset_build(Seq::<A>::empty(), label(slot));
        Seq::<A>::empty().to_multiset_ensures();
        assert(Seq::<A>::empty().to_multiset() =~= Multiset::<A>::empty());
    }
}

/// Writing a slot does not change which slots after it are occupied.
pub proof fn lemma_update_before(slots: Seq<u64>, per_bucket: nat, at: int, value: u64, from: int)
    requires
        0 <= at < from,
        at < slots.len(),
    ensures
        occupied_from(slots.update(at, value), per_bucket, from) == occupied_from(
            slots,
            per_bucket,
            from,
        ),
    decreases slots.len() - from,
{
    if from < slots.len() {
        lemma_update_before(slots, per_bucket, at, value, from + 1);
    }
}

/// Writing `value` into the slot at `at` takes the slot's old name out of the multiset,
/// if the slot was occupied, and puts the new one in, if `value` is not `0`.
pub proof fn lemma_labelled_update<A>(
    slots: Seq<u64>,
    per_bucket: nat,
    from: int,
    at: int,
    value: u64,
    label: spec_fn((usize, u64)) -> A,
)
    requires
        0 <= from <= at < slots.len(),
    ensures
        with_slot(
            labelled_from(slots.update(at, value), per_bucket, from, label),
            ((at / per_bucket as int) as usize, slots[at]),
            label,
        ) =~= with_slot(
            labelled_from(slots, per_bucket, from, label),
            ((at / per_bucket as int) as usize, value),
            label,
        ),
    decreases at - from,
{
    broadcast use vstd::multiset::group_multiset_axioms;

    let written = slots.update(at, value);
    let place = (at / per_bucket as int) as usize;
    let after = labelled_from(slots, per_bucket, from + 1, label);
    let written_after = labelled_from(written, per_bucket, from + 1, label);
    lemma_labelled_step(slots, per_bucket, from, label);
    lemma_labelled_step(written, per_bucket, from, label);
    if from == at {
        lemma_update_before(slots, per_bucket, at, value, from + 1);
        assert(with_slot(with_slot(after, (place, value), label), (place, slots[at]), label)
            =~= with_slot(with_slot(after, (place, slots[at]), label), (place, value), label));
    } else {
        lemma_labelled_update(slots, per_bucket, from + 1, at, value, label);
        let head = ((from / per_bucket as int) as usize, slots[from]);
        assert(with_slot(with_slot(written_after, head, label), (place, slots[at]), label)
            =~= with_slot(with_slot(written_after, (place, slots[at]), label), head, label));
        assert(with_slot(with_slot(after, head, label), (place, value), label) =~= with_slot(
            with_slot(after, (place, value), label),
            head,
            label,
        ));
    }
}

proof fn lemma_slot_place(width: nat, per_bucket: nat, buckets: nat, i: nat, k: nat)
    by (nonlinear_arith)
    requires
        i < buckets,
        k < per_bucket,
    ensures
        (width * per_bucket) * i + width * k == width * (i * per_bucket + k),
        width * (i * per_bucket + k) + width <= width * (buckets * per_bucket),
        i * per_bucket + k < buckets * per_bucket,
{
}

proof fn lemma_next_bucket(i: nat, per_bucket: nat)
    by (nonlinear_arith)
    ensures
        (i + 1) * per_bucket == i * per_bucket + per_bucket,
{
}

proof fn lemma_slots_apart(width: nat, p: int, q: int)
    by (nonlinear_arith)
    requires
        0 <= p < q,
    ensures
        width * p + width <= width * q,
        0 <= width * p,
{
}

proof fn lemma_storage_bounds(width: nat, per_bucket: nat, buckets: nat)
    by (nonlinear_arith)
    requires
        1 <= width,
        1 <= buckets,
    ensures
        buckets * per_bucket <= width * (buckets * per_bucket),
        width * per_bucket <= width * (buckets * per_bucket),
        per_bucket <= buckets * per_bucket,
{
}

proof fn lemma_storage_grows(width: nat, per_bucket: nat, fewer: nat, buckets: nat)
    by (nonlinear_arith)
    requires
        fewer <= buckets,
    ensures
        width * (fewer * per_bucket) <= width * (buckets * per_bucket),
{
}

proof fn lemma_low_bits(hash: u64, width: u64)
    by (bit_vector)
    requires
        width < 64,
    ensures
        hash & (((1u64 << width) - 1) as u64) < (1u64 << width),
        (1u64 << width) >= 1,
{
}

proof fn lemma_top_bits(hash: u64, width: u64)
    by (bit_vector)
    requires
        1 <= width < 64,
    ensures
        hash >> ((64 - width) as u64) <= ((1u64 << width) - 1) as u64,
        (1u64 << width) >= 1,
{
}

/// The slots that a bit vector holds: `entries` fields of `width` bits, one after the
/// other.
pub open spec fn slots_of(bits: Seq<bool>, width: nat, entries: nat) -> Seq<u64> {
    Seq::new(entries, |p: int| bits_uint(bits.subrange(width * p, width * p + width)) as u64)
}

/// Buckets of fingerprint slots over one bit vector.
#[derive(Debug)]
pub struct Buckets {
    fingerprint_bitwidth: usize,
    entries_per_bucket: usize,
    bucket_bitwidth: usize,
    bucket_index_bitwidth: usize,
    bits: Bits,
}

impl View for Buckets {
    type V = Seq<u64>;

    closed spec fn view(&self) -> Seq<u64> {
        Seq::new(self.spec_entries(), |p: int| self.slot_value(p))
    }
}

impl Buckets {
    /// The width of a fingerprint in bits.
    pub closed spec fn spec_fingerprint_bitwidth(&self) -> nat {
        self.fingerprint_bitwidth as nat
    }

    /// The number of slots in a bucket.
    pub closed spec fn spec_entries_per_bucket(&self) -> nat {
        self.entries_per_bucket as nat
    }

    /// The number of low hash bits that select a bucket.
    pub closed spec fn spec_index_bitwidth(&self) -> nat {
        self.bucket_index_bitwidth as nat
    }

    /// The bit vector that holds the slots.
    pub closed spec fn spec_bits(&self) -> Bits {
        self.bits
    }

    /// The number of buckets, a power of two.
    pub open spec fn spec_len(&self) -> nat {
        pow2(self.spec_index_bitwidth())
    }

    /// The number of slots.
    pub open spec fn spec_entries(&self) -> nat {
        self.spec_len() * self.spec_entries_per_bucket()
    }

    /// The slots of bucket `i`.
    pub open spec fn bucket(&self, i: int) -> Seq<u64> {
        Seq::new(
            self.spec_entries_per_bucket(),
            |k: int| self@[i * self.spec_entries_per_bucket() + k],
        )
    }

    /// The bucket that the low bits of `hash` select.
    pub open spec fn spec_index(&self, hash: u64) -> usize {
        (hash & low_mask(self.spec_index_bitwidth())) as usize
    }

    /// The top bits of `hash`, as many as a fingerprint has.
    pub open spec fn spec_fingerprint(&self, hash: u64) -> u64 {
        hash >> ((64 - self.spec_fingerprint_bitwidth()) as u64)
    }

    /// The largest fingerprint that a slot can hold.
    pub open spec fn spec_fingerprint_mask(&self) -> u64 {
        low_mask(self.spec_fingerprint_bitwidth())
    }

    /// The occupied slots in bucket-major order, each with the index of its bucket.
    pub open spec fn occupied(&self) -> Seq<(usize, u64)> {
        occupied_from(self@, self.spec_entries_per_bucket(), 0)
    }

    /// Whether two arrays of buckets have the same sizes.
    pub open spec fn same_shape(&self, other: Buckets) -> bool {
        &&& self.spec_fingerprint_bitwidth() == other.spec_fingerprint_bitwidth()
        &&& self.spec_entries_per_bucket() == other.spec_entries_per_bucket()
        &&& self.spec_index_bitwidth() == other.spec_index_bitwidth()
    }

    /// Whether buckets of these sizes can be addressed: a fingerprint has between 1 and
    /// 64 bits, and the number of buckets and the bit count rounded up to bytes fit in
    /// a `usize`.
    pub open spec fn spec_fits(
        fingerprint_bitwidth: nat,
        entries_per_bucket: nat,
        number_of_buckets_hint: nat,
    ) -> bool {
        &&& 1 <= fingerprint_bitwidth <= 64
        &&& pow2(ceil_log2(number_of_buckets_hint)) <= usize::MAX
        &&& fingerprint_bitwidth * (pow2(ceil_log2(number_of_buckets_hint)) * entries_per_bucket)
            + 7 <= usize::MAX
    }

    /// Whether a bit vector of `bits_len` bits holds the slots of buckets of these
    /// sizes: whether the sizes can be addressed and the bit vector has the bits of
    /// the slots, rounded up to whole bytes.
    pub open spec fn parts_fit(
        fingerprint_bitwidth: nat,
        entries_per_bucket: nat,
        index_bitwidth: nat,
        bits_len: nat,
    ) -> bool {
        &&& 1 <= fingerprint_bitwidth <= 64
        &&& pow2(index_bitwidth) <= usize::MAX
        &&& fingerprint_bitwidth * (pow2(index_bitwidth) * entries_per_bucket) + 7 <= usize::MAX
        &&& bits_len == 8 * ((fingerprint_bitwidth * (pow2(index_bitwidth) * entries_per_bucket)
            + 7) / 8)
    }

    spec fn slot_value(&self, p: int) -> u64 {
        bits_uint(
            self.bits@.subrange(
                self.fingerprint_bitwidth * p,
                self.fingerprint_bitwidth * p + self.fingerprint_bitwidth,
            ),
        ) as u64
    }

    /// The sizes agree with each other and with the bit vector.
    pub closed spec fn wf(&self) -> bool {
        &&& 1 <= self.fingerprint_bitwidth <= 64
        &&& self.bucket_bitwidth == self.fingerprint_bitwidth * self.entries_per_bucket
        &&& pow2(self.bucket_index_bitwidth as nat) <= usize::MAX
        &&& self.fingerprint_bitwidth * self.spec_entries() + 7 <= usize::MAX
        &&& self.bits.wf()
        &&& self.bits@.len() == 8 * ((self.fingerprint_bitwidth * self.spec_entries() + 7) / 8)
    }

    /// Tells whether buckets of these sizes can be addressed.
    pub fn fits(
        fingerprint_bitwidth: usize,
        entries_per_bucket: usize,
        number_of_buckets_hint: usize,
    ) -> (ok: bool)
        ensures
            ok == Self::spec_fits(
                fingerprint_bitwidth as nat,
                entries_per_bucket as nat,
                number_of_buckets_hint as nat,
            ),
    {
        if fingerprint_bitwidth < 1 || fingerprint_bitwidth > 64 {
            return false;
        }
        let index_bitwidth = index_bits_for(number_of_buckets_hint);
        proof {
            lemma_word_exponent(index_bitwidth as nat);
            lemma_pow2_pos(index_bitwidth as nat);
            lemma_storage_bounds(
                fingerprint_bitwidth as nat,
                entries_per_bucket as nat,
                pow2(index_bitwidth as nat),
            );
        }
        if index_bitwidth >= usize::BITS as usize {
            return false;
        }
        proof {
            lemma_usize_shl_is_mul(1, index_bitwidth);
        }
        let len: usize = 1usize << index_bitwidth;
        match len.checked_mul(entries_per_bucket) {
            None => false,
            Some(entries) => match fingerprint_bitwidth.checked_mul(entries) {
                None => false,
                Some(total) => total <= usize::MAX - 7,
            },
        }
    }

    /// Empty buckets: `2^k` of them for the least `k` that reaches the hint, so at
    /// least one.
    pub fn new(
        fingerprint_bitwidth: usize,
        entries_per_bucket: usize,
        number_of_buckets_hint: usize,
    ) -> (buckets: Buckets)
        requires
            Self::spec_fits(
                fingerprint_bitwidth as nat,
                entries_per_bucket as nat,
                number_of_buckets_hint as nat,
            ),
        ensures
            buckets.wf(),
            buckets.spec_fingerprint_bitwidth() == fingerprint_bitwidth,
            buckets.spec_entries_per_bucket() == entries_per_bucket,
            buckets.spec_index_bitwidth() == ceil_log2(number_of_buckets_hint as nat),
            buckets@ == Seq::new(buckets.spec_entries(), |p: int| 0u64),
    {
        let bucket_index_bitwidth = index_bits_for(number_of_buckets_hint);
        proof {
            lemma_word_exponent(bucket_index_bitwidth as nat);
            lemma_pow2_pos(bucket_index_bitwidth as nat);
            lemma_storage_bounds(
                fingerprint_bitwidth as nat,
                entries_per_bucket as nat,
                pow2(bucket_index_bitwidth as nat),
            );
            lemma_usize_shl_is_mul(1, bucket_index_bitwidth);
        }
        let len: usize = 1usize << bucket_index_bitwidth;
        let bucket_bitwidth = fingerprint_bitwidth * entries_per_bucket;
        let entries = len * entries_per_bucket;
        let bits = Bits::new(fingerprint_bitwidth * entries);
        let buckets = Buckets {
            fingerprint_bitwidth,
            entries_per_bucket,
            bucket_bitwidth,
            bucket_index_bitwidth,
            bits,
        };
        proof {
            assert forall|p: int| 0 <= p < buckets.spec_entries() implies buckets.slot_value(p)
                == 0 by {
                lemma_slots_apart(fingerprint_bitwidth as nat, p, buckets.spec_entries() as int);
                lemma_zero_bits(
                    buckets.bits@.subrange(
                        fingerprint_bitwidth * p,
                        fingerprint_bitwidth * p + fingerprint_bitwidth,
                    ),
                );
            }
            assert(buckets@ =~= Seq::new(buckets.spec_entries(), |p: int| 0u64));
        }
        buckets
    }

    /// The buckets of the given sizes over the given bit vector, if it holds the slots
    /// of such buckets.
    pub fn from_parts(
        fingerprint_bitwidth: usize,
        entries_per_bucket: usize,
        index_bitwidth: usize,
        bits: Bits,
    ) -> (buckets: Option<Buckets>)
        requires
            bits.wf(),
        ensures
            match buckets {
                Some(buckets) => {
                    &&& buckets.wf()
                    &&& buckets.spec_fingerprint_bitwidth() == fingerprint_bitwidth
                    &&& buckets.spec_entries_per_bucket() == entries_per_bucket
                    &&& buckets.spec_index_bitwidth() == index_bitwidth
                    &&& buckets.spec_bits() == bits
                },
                None => !Self::parts_fit(
                    fingerprint_bitwidth as nat,
                    entries_per_bucket as nat,
                    index_bitwidth as nat,
                    bits@.len(),
                ),
            },
    {
        if fingerprint_bitwidth < 1 || fingerprint_bitwidth > 64 {
            return None;
        }
        proof {
            lemma_word_exponent(index_bitwidth as nat);
            lemma_pow2_pos(index_bitwidth as nat);
            lemma_storage_bounds(
                fingerprint_bitwidth as nat,
                entries_per_bucket as nat,
                pow2(index_bitwidth as nat),
            );
        }
        if index_bitwidth >= usize::BITS as usize {
            return None;
        }
        proof {
            lemma_usize_shl_is_mul(1, index_bitwidth);
        }
        let len: usize = 1usize << index_bitwidth;
        let entries = match len.checked_mul(entries_per_bucket) {
            None => {
                return None;
            },
            Some(entries) => entries,
        };
        let total = match fingerprint_bitwidth.checked_mul(entries) {
            None => {
                return None;
            },
            Some(total) => total,
        };
        if total > usize::MAX - 7 {
            return None;
        }
        if bits.len() != (total + 7) / 8 * 8 {
            return None;
        }
        Some(
            Buckets {
                fingerprint_bitwidth,
                entries_per_bucket,
                bucket_bitwidth: fingerprint_bitwidth * entries_per_bucket,
                bucket_index_bitwidth: index_bitwidth,
                bits,
            },
        )
    }

    /// The number of buckets for a hint: the least power of two that reaches it.
    pub fn required_number_of_buckets(number_of_buckets_hint: usize) -> (len: usize)
        requires
            pow2(ceil_log2(number_of_buckets_hint as nat)) <= usize::MAX,
        ensures
            len == pow2(ceil_log2(number_of_buckets_hint as nat)),
    {
        let index_bitwidth = index_bits_for(number_of_buckets_hint);
        proof {
            lemma_word_exponent(index_bitwidth as nat);
            lemma_usize_shl_is_mul(1, index_bitwidth);
        }
        1usize << index_bitwidth
    }

    /// The number of buckets.
    pub fn len(&self) -> (len: usize)
        requires
            self.wf(),
        ensures
            len == self.spec_len(),
    {
        proof {
            lemma_word_exponent(self.bucket_index_bitwidth as nat);
            lemma_usize_shl_is_mul(1, self.bucket_index_bitwidth);
        }
        1usize << self.bucket_index_bitwidth
    }

    /// The number of slots.
    pub fn entries(&self) -> (entries: usize)
        requires
            self.wf(),
        ensures
            entries == self.spec_entries(),
    {
        proof {
            self.lemma_wf();
        }
        self.len() * self.entries_per_bucket
    }

    /// The number of bits of storage: the slots' bits, rounded up to whole bytes.
    pub fn bits(&self) -> (bits: u64)
        requires
            self.wf(),
        ensures
            bits == 8 * ((self.spec_fingerprint_bitwidth() * self.spec_entries() + 7) / 8),
    {
        self.bits.len() as u64
    }

    /// The bucket that a hash selects: `hash AND (len - 1)`.
    pub fn index(&self, hash: u64) -> (i: usize)
        requires
            self.wf(),
        ensures
            i == self.spec_index(hash),
            i < self.spec_len(),
    {
        proof {
            self.lemma_wf();
            lemma_low_bits(hash, self.bucket_index_bitwidth as u64);
            vstd::bits::lemma_u64_shl_is_mul(1, self.bucket_index_bitwidth as u64);
        }
        (hash & (((1u64 << (self.bucket_index_bitwidth as u64)) - 1) as u64)) as usize
    }

    /// The fingerprint of a hash: its top bits.
    pub fn fingerprint(&self, hash: u64) -> (fingerprint: u64)
        requires
            self.wf(),
        ensures
            fingerprint == self.spec_fingerprint(hash),
            fingerprint <= self.spec_fingerprint_mask(),
    {
        proof {
            if self.fingerprint_bitwidth < 64 {
                lemma_top_bits(hash, self.fingerprint_bitwidth as u64);
            }
        }
        hash >> ((64 - self.fingerprint_bitwidth) as u64)
    }

    /// The largest fingerprint that a slot can hold: `2^F - 1` for a width of `F` bits.
    pub fn fingerprint_mask(&self) -> (mask: u64)
        requires
            self.wf(),
        ensures
            mask == self.spec_fingerprint_mask(),
    {
        if self.fingerprint_bitwidth == 64 {
            u64::MAX
        } else {
            proof {
                lemma_top_bits(0, self.fingerprint_bitwidth as u64);
            }
            ((1u64 << (self.fingerprint_bitwidth as u64)) - 1) as u64
        }
    }

    /// The number of slots in a bucket.
    pub fn entries_per_bucket(&self) -> (n: usize)
        ensures
            n == self.spec_entries_per_bucket(),
    {
        self.entries_per_bucket
    }

    /// The width of a fingerprint in bits.
    pub fn fingerprint_bitwidth(&self) -> (n: usize)
        ensures
            n == self.spec_fingerprint_bitwidth(),
    {
        self.fingerprint_bitwidth
    }

    /// The number of low hash bits that select a bucket.
    pub fn index_bitwidth(&self) -> (n: usize)
        ensures
            n == self.spec_index_bitwidth(),
    {
        self.bucket_index_bitwidth
    }

    /// The bit vector that holds the slots.
    pub fn as_bits(&self) -> (bits: &Bits)
        ensures
            *bits == self.spec_bits(),
    {
        &self.bits
    }

    /// An iterator over the occupied slots, in bucket-major order.
    pub fn iter(&self) -> (iter: Iter<'_>)
        requires
            self.wf(),
        ensures
            iter.wf(),
            iter.spec_buckets() == *self,
            iter.remaining() == self.occupied(),
    {
        Iter::new(self)
    }

    /// Whether some slot of the bucket holds the fingerprint.
    pub fn contains(&self, bucket_index: usize, fingerprint: u64) -> (found: bool)
        requires
            self.wf(),
            bucket_index < self.spec_len(),
            fingerprint != 0,
        ensures
            found == self.bucket(bucket_index as int).contains(fingerprint),
    {
        let mut i: usize = 0;
        while i < self.entries_per_bucket
            invariant
                self.wf(),
                bucket_index < self.spec_len(),
                i <= self.entries_per_bucket,
                forall|j: int| 0 <= j < i ==> self.bucket(bucket_index as int)[j] != fingerprint,
            decreases self.entries_per_bucket - i,
        {
            let f = self.get_fingerprint(bucket_index, i);
            if f == fingerprint {
                assert(self.bucket(bucket_index as int)[i as int] == fingerprint);
                return true;
            }
            i += 1;
        }
        false
    }

    /// Puts the fingerprint into the first empty slot of the bucket, if there is one.
    pub fn try_insert(&mut self, bucket_index: usize, fingerprint: u64) -> (inserted: bool)
        requires
            old(self).wf(),
            bucket_index < old(self).spec_len(),
            fingerprint != 0,
            fingerprint <= old(self).spec_fingerprint_mask(),
        ensures
            final(self).wf(),
            final(self).same_shape(*old(self)),
            inserted == old(self).bucket(bucket_index as int).contains(0),
            inserted ==> final(self)@ == old(self)@.update(
                bucket_index * old(self).spec_entries_per_bucket() + first_index(
                    old(self).bucket(bucket_index as int),
                    0,
                ),
                fingerprint,
            ),
            !inserted ==> final(self)@ == old(self)@,
    {
        let mut i: usize = 0;
        while i < self.entries_per_bucket
            invariant
                *self == *old(self),
                self.wf(),
                bucket_index < self.spec_len(),
                fingerprint <= self.spec_fingerprint_mask(),
                i <= self.entries_per_bucket,
                forall|j: int| 0 <= j < i ==> self.bucket(bucket_index as int)[j] != 0,
            decreases self.entries_per_bucket - i,
        {
            let f = self.get_fingerprint(bucket_index, i);
            if f == 0 {
                proof {
                    assert(self.bucket(bucket_index as int)[i as int] == 0);
                    lemma_first_index(self.bucket(bucket_index as int), 0, i as int);
                }
                self.set_fingerprint(bucket_index, i, fingerprint);
                return true;
            }
            i += 1;
        }
        false
    }

    /// Puts the fingerprint into slot `entry_index` of the bucket and returns what the
    /// slot held.
    pub fn swap(
        &mut self,
        bucket_index: usize,
        entry_index: usize,
        fingerprint: u64,
    ) -> (displaced: u64)
        requires
            old(self).wf(),
            bucket_index < old(self).spec_len(),
            entry_index < old(self).spec_entries_per_bucket(),
            fingerprint <= old(self).spec_fingerprint_mask(),
        ensures
            final(self).wf(),
            final(self).same_shape(*old(self)),
            displaced == old(self).bucket(bucket_index as int)[entry_index as int],
            displaced <= old(self).spec_fingerprint_mask(),
            final(self)@ == old(self)@.update(
                bucket_index * old(self).spec_entries_per_bucket() + entry_index,
                fingerprint,
            ),
    {
        let displaced = self.get_fingerprint(bucket_index, entry_index);
        self.set_fingerprint(bucket_index, entry_index, fingerprint);
        displaced
    }

    /// Exchanges the fingerprint with the content of a slot of the bucket that the
    /// random source picks, and returns what the slot held. The bucket must be full.
    pub fn random_swap(
        &mut self,
        rng: &mut StdRng,
        bucket_index: usize,
        fingerprint: u64,
    ) -> (displaced: u64)
        requires
            old(self).wf(),
            bucket_index < old(self).spec_len(),
            old(self).spec_entries_per_bucket() > 0,
            fingerprint != 0,
            fingerprint <= old(self).spec_fingerprint_mask(),
            !old(self).bucket(bucket_index as int).contains(0),
        ensures
            final(self).wf(),
            final(self).same_shape(*old(self)),
            displaced != 0,
            displaced <= old(self).spec_fingerprint_mask(),
            exists|k: int|
                0 <= k < old(self).spec_entries_per_bucket() && displaced == old(self).bucket(
                    bucket_index as int,
                )[k] && final(self)@ == old(self)@.update(
                    bucket_index * old(self).spec_entries_per_bucket() + k,
                    fingerprint,
                ),
    {
        let i = random_index(rng, self.entries_per_bucket);
        proof {
            assert(old(self).bucket(bucket_index as int)[i as int] != 0);
        }
        self.swap(bucket_index, i, fingerprint)
    }

    /// Empties the first slot of the bucket that holds the fingerprint, if there is one.
    pub fn remove_fingerprint(&mut self, bucket_index: usize, fingerprint: u64) -> (removed: bool)
        requires
            old(self).wf(),
            bucket_index < old(self).spec_len(),
            fingerprint != 0,
        ensures
            final(self).wf(),
            final(self).same_shape(*old(self)),
            removed == old(self).bucket(bucket_index as int).contains(fingerprint),
            removed ==> final(self)@ == old(self)@.update(
                bucket_index * old(self).spec_entries_per_bucket() + first_index(
                    old(self).bucket(bucket_index as int),
                    fingerprint,
                ),
                0,
            ),
            !removed ==> final(self)@ == old(self)@,
    {
        let mut i: usize = 0;
        while i < self.entries_per_bucket
            invariant
                *self == *old(self),
                self.wf(),
                bucket_index < self.spec_len(),
                i <= self.entries_per_bucket,
                forall|j: int| 0 <= j < i ==> self.bucket(bucket_index as int)[j] != fingerprint,
            decreases self.entries_per_bucket - i,
        {
            let f = self.get_fingerprint(bucket_index, i);
            if f == fingerprint {
                proof {
                    assert(self.bucket(bucket_index as int)[i as int] == fingerprint);
                    lemma_first_index(self.bucket(bucket_index as int), fingerprint, i as int);
                }
                self.set_fingerprint(bucket_index, i, 0);
                return true;
            }
            i += 1;
        }
        false
    }

    /// Writes a slot.
    pub fn set_fingerprint(&mut self, bucket_index: usize, entry_index: usize, fingerprint: u64)
        requires
            old(self).wf(),
            bucket_index < old(self).spec_len(),
            entry_index < old(self).spec_entries_per_bucket(),
            fingerprint <= old(self).spec_fingerprint_mask(),
        ensures
            final(self).wf(),
            final(self).same_shape(*old(self)),
            final(self)@ == old(self)@.update(
                bucket_index * old(self).spec_entries_per_bucket() + entry_index,
                fingerprint,
            ),
    {
        proof {
            lemma_slot_place(
                self.fingerprint_bitwidth as nat,
                self.entries_per_bucket as nat,
                self.spec_len(),
                bucket_index as nat,
                entry_index as nat,
            );
        }
        let offset = self.bucket_bitwidth * bucket_index + self.fingerprint_bitwidth * entry_index;
        let ghost before = self.bits@;
        let ghost width = self.fingerprint_bitwidth as nat;
        let ghost at = bucket_index * self.entries_per_bucket + entry_index;
        self.bits.set_uint(offset, self.fingerprint_bitwidth, fingerprint);
        proof {
            let field = uint_bits(fingerprint, width);
            assert forall|p: int| 0 <= p < self.spec_entries() implies self.slot_value(p) == (if p
                == at {
                fingerprint
            } else {
                old(self).slot_value(p)
            }) by {
                if p == at {
                    lemma_splice_field(before, offset as int, field);
                    lemma_field_round_trip(fingerprint, width);
                    lemma_fitting_value_kept(fingerprint, width);
                } else {
                    if p < at {
                        lemma_slots_apart(width, p, at);
                    } else {
                        lemma_slots_apart(width, at, p);
                    }
                    lemma_slots_apart(width, p, self.spec_entries() as int);
                    lemma_splice_elsewhere(
                        before,
                        offset as int,
                        field,
                        width * p,
                        width as int,
                    );
                }
            }
            assert(self@ =~= old(self)@.update(at, fingerprint));
        }
    }

    /// Reads a slot.
    pub fn get_fingerprint(&self, bucket_index: usize, entry_index: usize) -> (fingerprint: u64)
        requires
            self.wf(),
            bucket_index < self.spec_len(),
            entry_index < self.spec_entries_per_bucket(),
        ensures
            fingerprint == self.bucket(bucket_index as int)[entry_index as int],
            fingerprint == self@[bucket_index * self.spec_entries_per_bucket() + entry_index],
            fingerprint <= self.spec_fingerprint_mask(),
    {
        proof {
            lemma_slot_place(
                self.fingerprint_bitwidth as nat,
                self.entries_per_bucket as nat,
                self.spec_len(),
                bucket_index as nat,
                entry_index as nat,
            );
        }
        let offset = self.bucket_bitwidth * bucket_index + self.fingerprint_bitwidth * entry_index;
        self.bits.get_uint(offset, self.fingerprint_bitwidth)
    }

    /// What well-formed buckets are known to satisfy.
    pub proof fn lemma_wf(&self)
        requires
            self.wf(),
        ensures
            1 <= self.spec_fingerprint_bitwidth() <= 64,
            self.spec_index_bitwidth() < usize::BITS,
            1 <= self.spec_len() <= usize::MAX,
            self.spec_entries() <= usize::MAX,
            self@.len() == self.spec_entries(),
            Self::spec_fits(
                self.spec_fingerprint_bitwidth(),
                self.spec_entries_per_bucket(),
                self.spec_len(),
            ),
    {
        lemma_word_exponent(self.spec_index_bitwidth());
        lemma_pow2_pos(self.spec_index_bitwidth());
        lemma_storage_bounds(
            self.spec_fingerprint_bitwidth(),
            self.spec_entries_per_bucket(),
            self.spec_len(),
        );
        if self.spec_index_bitwidth() > 0 {
            vstd::arithmetic::power2::lemma_pow2_strictly_increases(
                (self.spec_index_bitwidth() - 1) as nat,
                self.spec_index_bitwidth(),
            );
        }
        crate::power::lemma_least_exponent_unique(self.spec_len(), self.spec_index_bitwidth());
    }

    /// The model is the slots that the bit vector holds, and the buckets are
    /// well-formed if the bit vector is and holds the slots of buckets of their sizes.
    pub proof fn lemma_slots(&self)
        ensures
            self@ == slots_of(
                self.spec_bits()@,
                self.spec_fingerprint_bitwidth(),
                self.spec_entries(),
            ),
            self.wf() ==> self.spec_bits().wf() && Self::parts_fit(
                self.spec_fingerprint_bitwidth(),
                self.spec_entries_per_bucket(),
                self.spec_index_bitwidth(),
                self.spec_bits()@.len(),
            ),
    {
        assert(self@ =~= slots_of(
            self.spec_bits()@,
            self.spec_fingerprint_bitwidth(),
            self.spec_entries(),
        ));
    }

    /// A slot of a bucket is a position of the model, and the position tells the bucket.
    pub proof fn lemma_slot(&self, i: int, k: int)
        requires
            self.wf(),
            0 <= i < self.spec_len(),
            0 <= k < self.spec_entries_per_bucket(),
        ensures
            0 <= i * self.spec_entries_per_bucket() + k < self@.len(),
            (i * self.spec_entries_per_bucket() + k) / (self.spec_entries_per_bucket() as int)
                == i,
            self.bucket(i)[k] == self@[i * self.spec_entries_per_bucket() + k],
    {
        lemma_slot_place(
            self.spec_fingerprint_bitwidth(),
            self.spec_entries_per_bucket(),
            self.spec_len(),
            i as nat,
            k as nat,
        );
        lemma_fundamental_div_mod_converse(
            i * self.spec_entries_per_bucket() + k,
            self.spec_entries_per_bucket() as int,
            i,
            k,
        );
    }

    /// A position of the model is a slot of a bucket.
    pub proof fn lemma_position(&self, p: int)
        requires
            self.wf(),
            0 <= p < self@.len(),
        ensures
            self.spec_entries_per_bucket() > 0,
            0 <= p / (self.spec_entries_per_bucket() as int) < self.spec_len(),
            0 <= p % (self.spec_entries_per_bucket() as int) < self.spec_entries_per_bucket(),
            self.bucket(p / (self.spec_entries_per_bucket() as int))[p % (
            self.spec_entries_per_bucket() as int)] == self@[p],
    {
        let per_bucket = self.spec_entries_per_bucket() as int;
        let buckets = self.spec_len() as int;
        assert(per_bucket > 0) by (nonlinear_arith)
            requires
                0 <= p < buckets * per_bucket,
                per_bucket >= 0,
        ;
        vstd::arithmetic::div_mod::lemma_fundamental_div_mod(p, per_bucket);
        assert(0 <= p / per_bucket < buckets && 0 <= p % per_bucket < per_bucket) by (
            nonlinear_arith)
            requires
                0 <= p < buckets * per_bucket,
                per_bucket > 0,
                p == per_bucket * (p / per_bucket) + p % per_bucket,
                0 <= p % per_bucket < per_bucket,
        ;
        assert((p / per_bucket) * per_bucket + p % per_bucket == p) by (nonlinear_arith)
            requires
                p == per_bucket * (p / per_bucket) + p % per_bucket,
        ;
    }

    /// The bucket that a hash selects is one of the buckets, and its index is what the
    /// mask leaves of the hash.
    pub proof fn lemma_index(&self, hash: u64)
        requires
            self.wf(),
        ensures
            self.spec_index_bitwidth() < 64,
            self.spec_index(hash) < self.spec_len(),
            self.spec_index(hash) as u64 == hash & low_mask(self.spec_index_bitwidth()),
    {
        self.lemma_wf();
        lemma_low_bits(hash, self.bucket_index_bitwidth as u64);
        vstd::bits::lemma_u64_shl_is_mul(1, self.bucket_index_bitwidth as u64);
    }

    /// The index of a bucket has no bit outside the mask.
    pub proof fn lemma_index_of_index(&self, i: usize)
        requires
            self.wf(),
            i < self.spec_len(),
        ensures
            self.spec_index_bitwidth() < 64,
            i as u64 <= low_mask(self.spec_index_bitwidth()),
    {
        self.lemma_wf();
        lemma_low_bits(0, self.bucket_index_bitwidth as u64);
        vstd::bits::lemma_u64_shl_is_mul(1, self.bucket_index_bitwidth as u64);
    }

    /// Buckets of the same widths fit if they are no more than these.
    pub proof fn lemma_fewer_fit(&self, number_of_buckets_hint: nat)
        requires
            self.wf(),
            ceil_log2(number_of_buckets_hint) <= self.spec_index_bitwidth(),
        ensures
            Self::spec_fits(
                self.spec_fingerprint_bitwidth(),
                self.spec_entries_per_bucket(),
                number_of_buckets_hint,
            ),
    {
        let fewer = ceil_log2(number_of_buckets_hint);
        self.lemma_wf();
        if fewer < self.spec_index_bitwidth() {
            vstd::arithmetic::power2::lemma_pow2_strictly_increases(
                fewer,
                self.spec_index_bitwidth(),
            );
        }
        lemma_storage_grows(
            self.spec_fingerprint_bitwidth(),
            self.spec_entries_per_bucket(),
            pow2(fewer),
            self.spec_len(),
        );
    }
}

impl Clone for Buckets {
    /// Buckets of the same sizes with the same slots.
    fn clone(&self) -> (copy: Self)
        ensures
            copy@ == self@,
            copy.same_shape(*self),
            copy.wf() == self.wf(),
    {
        let copy = Buckets {
            fingerprint_bitwidth: self.fingerprint_bitwidth,
            entries_per_bucket: self.entries_per_bucket,
            bucket_bitwidth: self.bucket_bitwidth,
            bucket_index_bitwidth: self.bucket_index_bitwidth,
            bits: self.bits.clone(),
        };
        proof {
            assert(copy@ =~= self@);
        }
        copy
    }
}

/// A walk over the occupied slots of a [`Buckets`], bucket by bucket.
#[derive(Debug)]
pub struct Iter<'a> {
    buckets: &'a Buckets,
    bucket_i: usize,
    entry_i: usize,
}

impl<'a> Iter<'a> {
    /// The buckets that are walked.
    pub closed spec fn spec_buckets(&self) -> Buckets {
        *self.buckets
    }

    /// The position of the next slot to look at.
    pub closed spec fn position(&self) -> int {
        self.bucket_i * self.buckets.spec_entries_per_bucket() + self.entry_i
    }

    /// The occupied slots that are still to come.
    pub open spec fn remaining(&self) -> Seq<(usize, u64)> {
        occupied_from(
            self.spec_buckets()@,
            self.spec_buckets().spec_entries_per_bucket(),
            self.position(),
        )
    }

    /// The walk stands at a slot of the buckets, or at their end.
    pub closed spec fn wf(&self) -> bool {
        &&& self.buckets.wf()
        &&& self.bucket_i <= self.buckets.spec_len()
        &&& self.entry_i <= self.buckets.spec_entries_per_bucket()
        &&& self.bucket_i == self.buckets.spec_len() ==> self.entry_i == 0
    }

    fn new(buckets: &'a Buckets) -> (iter: Self)
        requires
            buckets.wf(),
        ensures
            iter.wf(),
            iter.spec_buckets() == *buckets,
            iter.remaining() == buckets.occupied(),
    {
        proof {
            buckets.lemma_wf();
        }
        Iter { buckets, bucket_i: 0, entry_i: 0 }
    }

    /// The next occupied slot, or `None` when none is left.
    pub fn next(&mut self) -> (item: Option<(usize, u64)>)
        requires
            old(self).wf(),
        ensures
            final(self).wf(),
            final(self).spec_buckets() == old(self).spec_buckets(),
            match item {
                Some(slot) => {
                    &&& old(self).remaining() == seq![slot] + final(self).remaining()
                    &&& slot.0 < old(self).spec_buckets().spec_len()
                    &&& slot.1 != 0
                    &&& slot.1 <= old(self).spec_buckets().spec_fingerprint_mask()
                },
                None => old(self).remaining() == Seq::<(usize, u64)>::empty()
                    && final(self).remaining() == old(self).remaining(),
            },
    {
        loop
            invariant
                self.wf(),
                self.spec_buckets() == old(self).spec_buckets(),
                self.remaining() == old(self).remaining(),
            decreases
                    self.buckets.spec_len() - self.bucket_i,
                    self.buckets.spec_entries_per_bucket() - self.entry_i,
        {
            proof {
                self.buckets.lemma_wf();
            }
            if self.bucket_i == self.buckets.len() {
                return None;
            } else if self.entry_i == self.buckets.entries_per_bucket() {
                proof {
                    lemma_next_bucket(
                        self.bucket_i as nat,
                        self.buckets.spec_entries_per_bucket(),
                    );
                }
                self.bucket_i += 1;
                self.entry_i = 0;
            } else {
                let f = self.buckets.get_fingerprint(self.bucket_i, self.entry_i);
                proof {
                    self.buckets.lemma_slot(self.bucket_i as int, self.entry_i as int);
                }
                if f == 0 {
                    self.entry_i += 1;
                } else {
                    let item = (self.bucket_i, f);
                    self.entry_i += 1;
                    return Some(item);
                }
            }
        }
    }
}

} // verus!
