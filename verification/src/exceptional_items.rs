//! The side list of a filter: the entries that its buckets cannot hold.
//!
//! An entry is a fingerprint with the smaller of its two bucket indices. The list is
//! kept sorted by fingerprint, then by index, so that the entries with fingerprint `0`
//! come first and the largest fingerprint comes last.
use vstd::prelude::*;

verus! {

/// The order of the list: by fingerprint, then by bucket index.
pub open spec fn entry_lt(a: (u64, usize), b: (u64, usize)) -> bool {
    a.0 < b.0 || (a.0 == b.0 && a.1 < b.1)
}

/// Whether no entry of `entries` is followed by a smaller one.
pub open spec fn sorted(entries: Seq<(u64, usize)>) -> bool {
    forall|i: int, j: int| 0 <= i < j < entries.len() ==> !entry_lt(entries[j], entries[i])
}

/// The entry that stands for a fingerprint in the pair of buckets `i0` and `i1`.
pub open spec fn pair_key(i0: usize, i1: usize, fingerprint: u64) -> (u64, usize) {
    (
        fingerprint,
        if i0 <= i1 {
            i0
        } else {
            i1
        },
    )
}

/// Whether every entry has a fingerprint of `mask` at most.
pub open spec fn all_fit(entries: Seq<(u64, usize)>, mask: u64) -> bool {
    forall|k: int| 0 <= k < entries.len() ==> (#[trigger] entries[k]).0 <= mask
}

/// Entries that fit still do when one that fits is put among them.
pub proof fn lemma_fit_inserted(entries: Seq<(u64, usize)>, k: int, key: (u64, usize), mask: u64)
    requires
        all_fit(entries, mask),
        key.0 <= mask,
        0 <= k <= entries.len(),
    ensures
        all_fit(entries.insert(k, key), mask),
{
    let more = entries.insert(k, key);
    assert forall|j: int| 0 <= j < more.len() implies (#[trigger] more[j]).0 <= mask by {
        if j < k {
            assert(more[j] == entries[j]);
        } else if j > k {
            assert(more[j] == entries[j - 1]);
        }
    }
}

/// Entries that fit still do when one of them is taken away.
pub proof fn lemma_fit_removed(entries: Seq<(u64, usize)>, k: int, mask: u64)
    requires
        all_fit(entries, mask),
        0 <= k < entries.len(),
    ensures
        all_fit(entries.remove(k), mask),
{
    let fewer = entries.remove(k);
    assert forall|j: int| 0 <= j < fewer.len() implies (#[trigger] fewer[j]).0 <= mask by {
        if j < k {
            assert(fewer[j] == entries[j]);
        } else {
            assert(fewer[j] == entries[j + 1]);
        }
    }
}

/// The bits that a list with room for `capacity` entries takes; `u64::MAX` if that
/// count is larger.
pub open spec fn storage_bits(capacity: nat) -> u64 {
    let bits = 8 * (vstd::layout::size_of::<(u64, usize)>() * capacity);
    if bits <= u64::MAX {
        bits as u64
    } else {
        u64::MAX
    }
}

/// Calls `Vec::capacity`. std documents that a vector's capacity is never below its
/// length; nothing else is claimed, as the allocator has its say.
#[verifier::external_body]
fn vec_capacity(items: &Vec<(u64, usize)>) -> (capacity: usize)
    ensures
        capacity >= items@.len(),
{
    items.capacity()
}

/// Calls `Vec::shrink_to_fit`, which gives back spare room and keeps the elements.
#[verifier::external_body]
fn vec_shrink_to_fit(items: &mut Vec<(u64, usize)>)
    ensures
        final(items)@ == old(items)@,
{
    items.shrink_to_fit()
}

proof fn lemma_saturated(size: nat, capacity: nat, product: nat)
    by (nonlinear_arith)
    requires
        product == size * capacity,
    ensures
        8 * (size * capacity) == 8 * product,
{
}

/// A sorted list of `(fingerprint, bucket index)` entries.
#[derive(Debug)]
pub struct ExceptionalItems {
    items: Vec<(u64, usize)>,
}

impl View for ExceptionalItems {
    type V = Seq<(u64, usize)>;

    closed spec fn view(&self) -> Seq<(u64, usize)> {
        self.items@
    }
}

impl Clone for ExceptionalItems {
    /// A list of the same entries.
    fn clone(&self) -> (copy: Self)
        ensures
            copy@ == self@,
    {
        let mut items: Vec<(u64, usize)> = Vec::new();
        let mut i: usize = 0;
        while i < self.items.len()
            invariant
                i <= self.items.len(),
                items@ == self.items@.subrange(0, i as int),
            decreases self.items.len() - i,
        {
            items.push(self.items[i]);
            proof {
                assert(items@ =~= self.items@.subrange(0, i + 1));
            }
            i = i + 1;
        }
        proof {
            assert(items@ =~= self.items@);
        }
        ExceptionalItems { items }
    }
}

impl ExceptionalItems {
    /// The list is sorted.
    pub open spec fn wf(&self) -> bool {
        sorted(self@)
    }

    /// Whether some entry has a fingerprint other than `0`: an entry that was kicked
    /// out of the buckets.
    pub open spec fn spec_contains_kicked_out_entries(&self) -> bool {
        exists|k: int| 0 <= k < self@.len() && self@[k].0 != 0
    }

    /// The empty list.
    pub fn new() -> (list: Self)
        ensures
            list.wf(),
            list@ == Seq::<(u64, usize)>::empty(),
    {
        ExceptionalItems { items: Vec::new() }
    }

    /// A copy of the entries, in their order.
    pub fn to_vec(&self) -> (entries: Vec<(u64, usize)>)
        ensures
            entries@ == self@,
    {
        self.clone().items
    }

    /// The list of the given entries, if they are sorted.
    pub fn from_vec(entries: Vec<(u64, usize)>) -> (list: Option<Self>)
        ensures
            match list {
                Some(list) => list.wf() && list@ == entries@,
                None => !sorted(entries@),
            },
    {
        let mut i: usize = 1;
        while i < entries.len()
            invariant
                1 <= i,
                forall|a: int, b: int|
                    0 <= a < b < i && b < entries@.len() ==> !entry_lt(entries@[b], entries@[a]),
            decreases entries.len() - i,
        {
            let before = entries[i - 1];
            let here = entries[i];
            if here.0 < before.0 || (here.0 == before.0 && here.1 < before.1) {
                proof {
                    assert(entry_lt(entries@[i as int], entries@[i - 1]));
                }
                return None;
            }
            proof {
                assert forall|a: int, b: int|
                    0 <= a < b < i + 1 && b < entries@.len() implies !entry_lt(
                    entries@[b],
                    entries@[a],
                ) by {
                    if b == i && a < i - 1 {
                        assert(!entry_lt(entries@[i - 1], entries@[a]));
                    }
                }
            }
            i = i + 1;
        }
        Some(ExceptionalItems { items: entries })
    }

    /// The entry at `index`.
    pub fn entry(&self, index: usize) -> (entry: (u64, usize))
        requires
            index < self@.len(),
        ensures
            entry == self@[index as int],
    {
        self.items[index]
    }

    /// Whether every entry has a fingerprint of `mask` at most: whether the largest
    /// entry has.
    pub fn fits(&self, mask: u64) -> (ok: bool)
        requires
            self.wf(),
        ensures
            ok == all_fit(self@, mask),
    {
        let len = self.items.len();
        if len == 0 {
            true
        } else {
            let last = self.items[len - 1];
            proof {
                if last.0 <= mask {
                    assert forall|k: int| 0 <= k < self@.len() implies (#[trigger] self@[k]).0
                        <= mask by {
                        if k < len - 1 {
                            assert(!entry_lt(self@[len - 1], self@[k]));
                        }
                    }
                } else {
                    assert(self@[len - 1].0 > mask);
                }
            }
            last.0 <= mask
        }
    }

    /// The number of entries.
    pub fn len(&self) -> (len: usize)
        ensures
            len == self@.len(),
    {
        self.items.len()
    }

    /// The bits that a list with room for `capacity` entries takes.
    pub fn bits_for_capacity(capacity: usize) -> (bits: u64)
        ensures
            bits == storage_bits(capacity as nat),
    {
        let size = core::mem::size_of::<(u64, usize)>();
        match (size as u64).checked_mul(capacity as u64) {
            None => {
                proof {
                    lemma_saturated(size as nat, capacity as nat, size as nat * capacity as nat);
                }
                u64::MAX
            },
            Some(bytes) => {
                proof {
                    lemma_saturated(size as nat, capacity as nat, bytes as nat);
                }
                match bytes.checked_mul(8) {
                    None => u64::MAX,
                    Some(bits) => bits,
                }
            },
        }
    }

    /// The bits that the list takes, room that is reserved and not used included.
    pub fn bits(&self) -> (bits: u64)
        ensures
            exists|capacity: nat| capacity >= self@.len() && bits == storage_bits(capacity),
    {
        let capacity = vec_capacity(&self.items);
        Self::bits_for_capacity(capacity)
    }

    /// Gives back the room that is reserved and not used.
    pub fn shrink_to_fit(&mut self)
        ensures
            final(self)@ == old(self)@,
    {
        vec_shrink_to_fit(&mut self.items);
    }

    /// Whether some entry was kicked out of the buckets: whether the largest entry has
    /// a fingerprint other than `0`.
    pub fn contains_kicked_out_entries(&self) -> (kicked: bool)
        requires
            self.wf(),
        ensures
            kicked == self.spec_contains_kicked_out_entries(),
    {
        let len = self.items.len();
        if len == 0 {
            false
        } else {
            let last = self.items[len - 1];
            proof {
                if last.0 == 0 {
                    assert forall|k: int| 0 <= k < self@.len() implies self@[k].0 == 0 by {
                        if k < len - 1 {
                            assert(!entry_lt(self@[len - 1], self@[k]));
                        }
                    }
                }
            }
            last.0 != 0
        }
    }

    /// Where `key` stands in the list, or where it would have to be put.
    fn search(&self, key: (u64, usize)) -> (place: Result<usize, usize>)
        requires
            self.wf(),
        ensures
            match place {
                Ok(i) => i < self@.len() && self@[i as int] == key,
                Err(i) => {
                    &&& i <= self@.len()
                    &&& forall|j: int| 0 <= j < i ==> entry_lt(self@[j], key)
                    &&& forall|j: int| i <= j < self@.len() ==> entry_lt(key, self@[j])
                },
            },
    {
        let mut low: usize = 0;
        let mut high: usize = self.items.len();
        while low < high
            invariant
                self.wf(),
                low <= high <= self@.len(),
                forall|j: int| 0 <= j < low ==> entry_lt(self@[j], key),
                forall|j: int| high <= j < self@.len() ==> entry_lt(key, self@[j]),
            decreases high - low,
        {
            let mid = low + (high - low) / 2;
            let probe = self.items[mid];
            if probe.0 == key.0 && probe.1 == key.1 {
                return Ok(mid);
            } else if probe.0 < key.0 || (probe.0 == key.0 && probe.1 < key.1) {
                proof {
                    assert forall|j: int| 0 <= j < mid + 1 implies entry_lt(self@[j], key) by {
                        if j < mid {
                            assert(!entry_lt(self@[mid as int], self@[j]));
                        }
                    }
                }
                low = mid + 1;
            } else {
                proof {
                    assert forall|j: int| mid <= j < self@.len() implies entry_lt(
                        key,
                        self@[j],
                    ) by {
                        if mid < j {
                            assert(!entry_lt(self@[j], self@[mid as int]));
                        }
                    }
                }
                high = mid;
            }
        }
        Err(low)
    }

    /// Whether the entry of the fingerprint in the pair of buckets is in the list.
    pub fn contains(&self, i0: usize, i1: usize, fingerprint: u64) -> (found: bool)
        requires
            self.wf(),
        ensures
            found == self@.contains(pair_key(i0, i1, fingerprint)),
    {
        let item = (
            fingerprint,
            if i0 <= i1 {
                i0
            } else {
                i1
            },
        );
        match self.search(item) {
            Ok(_) => true,
            Err(_) => {
                proof {
                    assert forall|j: int| 0 <= j < self@.len() implies self@[j] != item by {
                        assert(entry_lt(self@[j], item) || entry_lt(item, self@[j]));
                    }
                }
                false
            },
        }
    }

    /// Puts the entry of the fingerprint in the pair of buckets into the list, beside
    /// the equal entries that are there already.
    pub fn insert(&mut self, i0: usize, i1: usize, fingerprint: u64)
        requires
            old(self).wf(),
        ensures
            final(self).wf(),
            exists|k: int|
                0 <= k <= old(self)@.len() && final(self)@ == old(self)@.insert(
                    k,
                    pair_key(i0, i1, fingerprint),
                ),
            final(self)@.to_multiset() == old(self)@.to_multiset().insert(
                pair_key(i0, i1, fingerprint),
            ),
    {
        let item = (
            fingerprint,
            if i0 <= i1 {
                i0
            } else {
                i1
            },
        );
        let index = match self.search(item) {
            Ok(i) => i,
            Err(i) => i,
        };
        self.items.insert(index, item);
        proof {
            let before = old(self)@;
            let after = self@;
            assert forall|i: int, j: int| 0 <= i < j < after.len() implies !entry_lt(
                after[j],
                after[i],
            ) by {
                let from_i = if i < index {
                    i
                } else {
                    i - 1
                };
                let from_j = if j < index {
                    j
                } else {
                    j - 1
                };
                if i != index && j != index {
                    assert(!entry_lt(before[from_j], before[from_i]));
                } else if i == index && index < before.len() {
                    assert(!entry_lt(before[from_j], before[index as int]));
                } else if j == index && index < before.len() {
                    assert(!entry_lt(before[index as int], before[from_i]));
                }
            }
            vstd::seq_lib::to_multiset_insert(before, index as int, item);
            assert(0 <= index <= before.len() && after == before.insert(
                index as int,
                pair_key(i0, i1, fingerprint),
            ));
        }
    }

    /// Takes one entry of the fingerprint in the pair of buckets out of the list, if
    /// there is one.
    pub fn remove(&mut self, i0: usize, i1: usize, fingerprint: u64) -> (removed: bool)
        requires
            old(self).wf(),
        ensures
            final(self).wf(),
            removed == old(self)@.contains(pair_key(i0, i1, fingerprint)),
            removed ==> exists|k: int|
                0 <= k < old(self)@.len() && old(self)@[k] == pair_key(i0, i1, fingerprint)
                    && final(self)@ == old(self)@.remove(k),
            removed ==> final(self)@.to_multiset() == old(self)@.to_multiset().remove(
                pair_key(i0, i1, fingerprint),
            ),
            !removed ==> final(self)@ == old(self)@,
    {
        let item = (
            fingerprint,
            if i0 <= i1 {
                i0
            } else {
                i1
            },
        );
        match self.search(item) {
            Ok(index) => {
                self.items.remove(index);
                proof {
                    let before = old(self)@;
                    let after = self@;
                    assert forall|i: int, j: int| 0 <= i < j < after.len() implies !entry_lt(
                        after[j],
                        after[i],
                    ) by {
                        let from_i = if i < index {
                            i
                        } else {
                            i + 1
                        };
                        let from_j = if j < index {
                            j
                        } else {
                            j + 1
                        };
                        assert(!entry_lt(before[from_j], before[from_i]));
                    }
                    vstd::seq_lib::to_multiset_remove(before, index as int);
                }
                true
            },
            Err(_) => {
                proof {
                    assert forall|j: int| 0 <= j < self@.len() implies self@[j] != item by {
                        assert(entry_lt(self@[j], item) || entry_lt(item, self@[j]));
                    }
                }
                false
            },
        }
    }
}

} // verus!
