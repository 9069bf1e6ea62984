//! A packed bit vector that is read and written in unsigned fields of up to 64 bits.
//!
//! The model of a [`Bits`] is the sequence of its bits. Bit `t` lives in byte `t / 8`
//! at place `t % 8`, counted from the least significant bit, so that a field is stored
//! little-endian: its lowest bit comes first.
use vstd::arithmetic::power2::{lemma2_to64, lemma2_to64_rest, lemma_pow2_unfold, pow2};
use vstd::prelude::*;

verus! {

/// Bit `index` of `byte`, counted from the least significant one.
pub open spec fn byte_bit(byte: u8, index: int) -> bool {
    0 <= index < 8 && (byte >> (index as u8)) & 1 == 1
}

/// Bit `index` of `value`, counted from the least significant one.
pub open spec fn uint_bit(value: u64, index: int) -> bool {
    0 <= index < 64 && (value >> (index as u64)) & 1 == 1
}

/// Bit `index` of a staging word.
pub open spec fn word_bit(word: u128, index: int) -> bool {
    0 <= index < 128 && (word >> (index as u128)) & 1 == 1
}

/// The `width` lowest bits of `value`, least significant first.
pub open spec fn uint_bits(value: u64, width: nat) -> Seq<bool> {
    Seq::new(width, |j: int| uint_bit(value, j))
}

/// The number whose binary digits, least significant first, are `bits`.
pub open spec fn bits_uint(bits: Seq<bool>) -> nat
    decreases bits.len(),
{
    if bits.len() == 0 {
        0
    } else {
        (if bits[0] {
            1nat
        } else {
            0nat
        }) + 2 * bits_uint(bits.drop_first())
    }
}

/// The mask that keeps the `width` lowest bits of a 64-bit value.
pub open spec fn low_mask(width: nat) -> u64 {
    if width >= 64 {
        u64::MAX
    } else {
        ((1u64 << (width as u64)) - 1) as u64
    }
}

/// `bits` with the `field.len()` bits from `position` on replaced by `field`.
pub open spec fn splice(bits: Seq<bool>, position: int, field: Seq<bool>) -> Seq<bool> {
    bits.subrange(0, position) + field + bits.subrange(
        position + field.len(),
        bits.len() as int,
    )
}

proof fn lemma_zero_byte(k: u8)
    by (bit_vector)
    requires
        k < 8,
    ensures
        (0u8 >> k) & 1 == 0,
{
}

proof fn lemma_halve(value: u64, j: u64)
    by (bit_vector)
    requires
        j < 64,
    ensures
        value == (value & 1) + 2 * (value >> 1),
        value & 1 == 0 || value & 1 == 1,
        value >> 1 == value / 2,
        (((value >> 1) >> j) & 1 == 1) == (j < 63 && (value >> ((j + 1) as u64)) & 1 == 1),
        (value & 1 == 1) == ((value >> 0) & 1 == 1),
{
}

proof fn lemma_shifted_bit(value: u64, shift: u64, j: u64)
    by (bit_vector)
    requires
        shift < 64,
        j < 64,
    ensures
        (((value >> shift) >> j) & 1 == 1) == (j + shift < 64 && (value >> ((j + shift) as u64)) & 1
            == 1),
{
}

proof fn lemma_masked_bit(value: u64, width: u64, j: u64)
    by (bit_vector)
    requires
        width < 64,
        j < 64,
    ensures
        (((value & (((1u64 << width) - 1) as u64)) >> j) & 1 == 1) == (j < width && (value >> j) & 1
            == 1),
{
}

proof fn lemma_staged_byte(word: u128, byte: u8, i: u128, j: u128)
    by (bit_vector)
    requires
        i < 9,
        j < 128,
    ensures
        (((word | ((byte as u128) << (8 * i))) >> j) & 1 == 1) == ((word >> j) & 1 == 1 || (8 * i
            <= j && j < 8 * i + 8 && (byte >> ((j - 8 * i) as u8)) & 1 == 1)),
{
}

proof fn lemma_extracted_bit(word: u128, offset: u128, mask: u64, j: u64)
    by (bit_vector)
    requires
        offset < 8,
        j < 64,
    ensures
        (((((word >> offset) as u64) & mask) >> j) & 1 == 1) == ((mask >> j) & 1 == 1 && (word >> ((
        j as u128) + offset)) & 1 == 1),
{
}

proof fn lemma_mask_bit(width: u64, j: u64)
    by (bit_vector)
    requires
        width < 64,
        j < 64,
    ensures
        (((((1u64 << width) - 1) as u64) >> j) & 1 == 1) == (j < width),
        ((0xffff_ffff_ffff_ffffu64 >> j) & 1 == 1),
{
}

proof fn lemma_merged_bit(byte: u8, chunk: u64, offset: u64, take: u64, k: u8)
    by (bit_vector)
    requires
        1 <= take,
        offset + take <= 8,
        k < 8,
    ensures
        ({
            let field: u8 = ((((1u64 << take) - 1) as u64) << offset) as u8;
            let merged: u8 = (byte & !field) | (((chunk << offset) as u8) & field);
            ((merged >> k) & 1 == 1) == (if offset <= k && (k as u64) < offset + take {
                (chunk >> ((k as u64) - offset) as u64) & 1 == 1
            } else {
                (byte >> k) & 1 == 1
            })
        }),
{
}

/// A `u64` is the number that its bits spell.
pub proof fn lemma_bits_spell_uint(value: u64, bits: Seq<bool>, n: nat)
    requires
        bits.len() <= n <= 64,
        (value as nat) < pow2(n),
        forall|j: int| 0 <= j < 64 ==> uint_bit(value, j) == (j < bits.len() && bits[j]),
    ensures
        value as nat == bits_uint(bits),
    decreases n,
{
    if n == 0 {
        lemma2_to64();
    } else {
        lemma_pow2_unfold(n);
        lemma_halve(value, 0);
        let half: u64 = value >> 1;
        let rest = if bits.len() == 0 {
            bits
        } else {
            bits.drop_first()
        };
        assert forall|j: int| 0 <= j < 64 implies uint_bit(half, j) == (j < rest.len()
            && rest[j]) by {
            lemma_halve(value, j as u64);
            if j < 63 {
                assert(uint_bit(value, j + 1) == (j + 1 < bits.len() && bits[j + 1]));
            }
        }
        lemma_bits_spell_uint(half, rest, (n - 1) as nat);
        assert(uint_bit(value, 0) == (0 < bits.len() && bits[0]));
        if bits.len() == 0 {
            assert(bits_uint(rest) == 0);
        }
    }
}

/// A field of cleared bits spells `0`.
pub proof fn lemma_zero_bits(bits: Seq<bool>)
    requires
        forall|j: int| 0 <= j < bits.len() ==> !bits[j],
    ensures
        bits_uint(bits) == 0,
    decreases bits.len(),
{
    if bits.len() > 0 {
        lemma_zero_bits(bits.drop_first());
    }
}

/// Reading back a field that was written gives the `width` lowest bits of what was
/// written: `value AND ((1 << width) - 1)`.
pub proof fn lemma_field_round_trip(value: u64, width: nat)
    requires
        width <= 64,
    ensures
        bits_uint(uint_bits(value, width)) == (value & low_mask(width)) as nat,
{
    let kept: u64 = value & low_mask(width);
    let bits = uint_bits(value, width);
    assert forall|j: int| 0 <= j < 64 implies uint_bit(kept, j) == (j < bits.len() && bits[j]) by {
        if width < 64 {
            lemma_masked_bit(value, width as u64, j as u64);
        } else {
            assert(value & 0xffff_ffff_ffff_ffffu64 == value) by (bit_vector);
        }
    }
    lemma2_to64();
    lemma2_to64_rest();
    lemma_bits_spell_uint(kept, bits, 64);
}

/// A value that fits in `width` bits is read back unchanged.
pub proof fn lemma_fitting_value_kept(value: u64, width: nat)
    requires
        width <= 64,
        value <= low_mask(width),
    ensures
        value & low_mask(width) == value,
{
    if width < 64 {
        let w = width as u64;
        assert(value & (((1u64 << w) - 1) as u64) == value) by (bit_vector)
            requires
                w < 64,
                value <= ((1u64 << w) - 1) as u64,
        ;
    } else {
        assert(value & 0xffff_ffff_ffff_ffffu64 == value) by (bit_vector);
    }
}

/// The field at `position` of a spliced sequence is the field that was put there.
pub proof fn lemma_splice_field(bits: Seq<bool>, position: int, field: Seq<bool>)
    requires
        0 <= position,
        position + field.len() <= bits.len(),
    ensures
        splice(bits, position, field).len() == bits.len(),
        splice(bits, position, field).subrange(position, position + field.len()) == field,
{
    assert(splice(bits, position, field).subrange(position, position + field.len()) =~= field);
}

/// A field that does not overlap the one that was replaced is left as it was.
pub proof fn lemma_splice_elsewhere(
    bits: Seq<bool>,
    position: int,
    field: Seq<bool>,
    other: int,
    width: int,
)
    requires
        0 <= position,
        position + field.len() <= bits.len(),
        0 <= other,
        0 <= width,
        other + width <= bits.len(),
        other + width <= position || position + field.len() <= other,
    ensures
        splice(bits, position, field).subrange(other, other + width) == bits.subrange(
            other,
            other + width,
        ),
{
    assert(splice(bits, position, field).subrange(other, other + width) =~= bits.subrange(
        other,
        other + width,
    ));
}

/// Round trip: after `value` was written into a field of `width` bits, the field
/// reads `value AND ((1 << width) - 1)`.
pub proof fn lemma_read_after_write(bits: Seq<bool>, position: int, width: nat, value: u64)
    requires
        0 <= position,
        position + width <= bits.len(),
        width <= 64,
    ensures
        bits_uint(
            splice(bits, position, uint_bits(value, width)).subrange(position, position + width),
        ) == (value & low_mask(width)) as nat,
{
    lemma_splice_field(bits, position, uint_bits(value, width));
    lemma_field_round_trip(value, width);
}

/// Fields that do not overlap do not interfere: after a field was written, every
/// field that lies apart from it reads as before.
pub proof fn lemma_read_elsewhere(
    bits: Seq<bool>,
    position: int,
    width: nat,
    value: u64,
    other: int,
    other_width: nat,
)
    requires
        0 <= position,
        position + width <= bits.len(),
        0 <= other,
        other + other_width <= bits.len(),
        other + other_width <= position || position + width <= other,
    ensures
        bits_uint(
            splice(bits, position, uint_bits(value, width)).subrange(other, other + other_width),
        ) == bits_uint(bits.subrange(other, other + other_width)),
{
    lemma_splice_elsewhere(bits, position, uint_bits(value, width), other, other_width as int);
}

/// The bits of a sequence of bytes, the least significant bit of each byte first.
pub open spec fn bytes_bits(bytes: Seq<u8>) -> Seq<bool> {
    Seq::new((8 * bytes.len()) as nat, |t: int| byte_bit(bytes[t / 8], t % 8))
}

/// A flat buffer of bits, a whole number of bytes long.
#[derive(Debug)]
pub struct Bits {
    bytes: Vec<u8>,
}

impl View for Bits {
    type V = Seq<bool>;

    closed spec fn view(&self) -> Seq<bool> {
        Seq::new(
            (8 * self.bytes@.len()) as nat,
            |t: int| byte_bit(self.bytes@[t / 8], t % 8),
        )
    }
}

impl Clone for Bits {
    /// A buffer of the same bits.
    fn clone(&self) -> (copy: Self)
        ensures
            copy@ == self@,
            copy.wf() == self.wf(),
    {
        let copy = Bits { bytes: self.bytes.clone() };
        proof {
            assert(copy.bytes@ =~= self.bytes@);
            assert(copy@ =~= self@);
        }
        copy
    }
}

/// Keeps the bits of `byte` outside the `take` places from `offset` on, and puts the
/// lowest `take` bits of `chunk` there.
fn merge_byte(byte: u8, chunk: u64, offset: usize, take: usize) -> (merged: u8)
    requires
        1 <= take,
        offset + take <= 8,
    ensures
        forall|k: int|
            0 <= k < 8 ==> byte_bit(merged, k) == (if offset <= k < offset + take {
                uint_bit(chunk, k - offset)
            } else {
                byte_bit(byte, k)
            }),
{
    let places: u64 = take as u64;
    assert((1u64 << places) >= 1) by (bit_vector)
        requires
            places <= 8,
    ;
    let field: u8 = #[verifier::truncate]
    (((((1u64 << places) - 1) as u64) << (offset as u64)) as u8);
    let merged: u8 = (byte & !field) | ((#[verifier::truncate]
    ((chunk << (offset as u64)) as u8)) & field);
    proof {
        assert forall|k: int| 0 <= k < 8 implies byte_bit(merged, k) == (if offset <= k < offset
            + take {
            uint_bit(chunk, k - offset)
        } else {
            byte_bit(byte, k)
        }) by {
            lemma_merged_bit(byte, chunk, offset as u64, take as u64, k as u8);
        }
    }
    merged
}

impl Bits {
    /// The buffer holds a bit count that a `usize` can express.
    pub closed spec fn wf(&self) -> bool {
        8 * self.bytes@.len() <= usize::MAX
    }

    /// The bytes of the buffer.
    pub closed spec fn spec_bytes(&self) -> Seq<u8> {
        self.bytes@
    }

    /// The model is the bits of the bytes, and the buffer is well-formed if a `usize`
    /// holds their number.
    pub proof fn lemma_bytes(&self)
        ensures
            self@ == bytes_bits(self.spec_bytes()),
            self.wf() == (8 * self.spec_bytes().len() <= usize::MAX),
    {
        assert(self@ =~= bytes_bits(self.spec_bytes()));
    }

    /// A copy of the bytes of the buffer.
    pub fn to_bytes(&self) -> (bytes: Vec<u8>)
        ensures
            bytes@ == self.spec_bytes(),
    {
        let bytes = self.bytes.clone();
        proof {
            assert(bytes@ =~= self.bytes@);
        }
        bytes
    }

    /// The buffer with the given bytes, if a `usize` holds the number of their bits.
    pub fn from_bytes(bytes: Vec<u8>) -> (bits: Option<Bits>)
        ensures
            match bits {
                Some(bits) => bits.wf() && bits.spec_bytes() == bytes@,
                None => 8 * bytes@.len() > usize::MAX,
            },
    {
        if bytes.len() <= usize::MAX / 8 {
            Some(Bits { bytes })
        } else {
            None
        }
    }

    /// The unsigned value of the `size` bits from `position` on: the number whose
    /// binary digits, least significant first, are those bits.
    pub open spec fn spec_get_uint(&self, position: int, size: nat) -> u64 {
        bits_uint(self@.subrange(position, position + size)) as u64
    }

    /// A zeroed buffer of `size_hint` bits, rounded up to whole bytes.
    pub fn new(size_hint: usize) -> (bits: Bits)
        requires
            size_hint + 7 <= usize::MAX,
        ensures
            bits.wf(),
            bits@ == Seq::new((8 * ((size_hint + 7) / 8)) as nat, |t: int| false),
    {
        let bytes_len: usize = size_hint / 8 + if size_hint % 8 != 0 {
            1
        } else {
            0
        };
        let bits = Bits { bytes: vec![0u8; bytes_len] };
        proof {
            assert forall|t: int| 0 <= t < bits@.len() implies !bits@[t] by {
                lemma_zero_byte((t % 8) as u8);
            }
            assert(bits@ =~= Seq::new((8 * ((size_hint + 7) / 8)) as nat, |t: int| false));
        }
        bits
    }

    /// The number of bits in the buffer.
    pub fn len(&self) -> (len: usize)
        requires
            self.wf(),
        ensures
            len == self@.len(),
            len % 8 == 0,
    {
        self.bytes.len() * 8
    }

    /// The unsigned value of the `size` bits from `position` on.
    ///
    /// The bytes that cover the field are gathered in a staging word, byte `i` at shift
    /// `8 * i`; the word is shifted down by `position % 8` and cut to `size` bits.
    pub fn get_uint(&self, position: usize, size: usize) -> (value: u64)
        requires
            self.wf(),
            size <= 64,
            position + size <= self@.len(),
        ensures
            value == self.spec_get_uint(position as int, size as nat),
            value as nat == bits_uint(self@.subrange(position as int, position + size)),
            value <= low_mask(size as nat),
    {
        let start: usize = position / 8;
        let offset: usize = position % 8;
        let count: usize = (offset + size + 7) / 8;
        let mut word: u128 = 0;
        let mut i: usize = 0;
        proof {
            assert forall|j: int| 0 <= j < 128 implies !word_bit(word, j) by {
                let s = j as u128;
                assert((0u128 >> s) & 1 == 0) by (bit_vector);
            }
        }
        while i < count
            invariant
                self.wf(),
                i <= count <= 9,
                start + count <= self.bytes@.len(),
                forall|j: int|
                    0 <= j < 128 ==> word_bit(word, j) == (j < 8 * i && byte_bit(
                        self.bytes@[start + j / 8],
                        j % 8,
                    )),
            decreases count - i,
        {
            let byte: u8 = self.bytes[start + i];
            let ghost before = word;
            word = word | ((byte as u128) << ((8 * i) as u128));
            proof {
                assert forall|j: int| 0 <= j < 128 implies word_bit(word, j) == (j < 8 * (i + 1)
                    && byte_bit(self.bytes@[start + j / 8], j % 8)) by {
                    lemma_staged_byte(before, byte, i as u128, j as u128);
                    assert(word_bit(before, j) == (j < 8 * i && byte_bit(
                        self.bytes@[start + j / 8],
                        j % 8,
                    )));
                }
            }
            i += 1;
        }
        let width: u64 = size as u64;
        assert(width < 64 ==> (1u64 << width) >= 1) by (bit_vector);
        let mask: u64 = if size == 64 {
            u64::MAX
        } else {
            ((1u64 << width) - 1) as u64
        };
        let shifted: u64 = #[verifier::truncate]
        ((word >> (offset as u128)) as u64);
        let value: u64 = shifted & mask;
        assert(shifted & mask <= mask) by (bit_vector);
        proof {
            let field = self@.subrange(position as int, position + size);
            assert forall|j: int| 0 <= j < 64 implies uint_bit(value, j) == (j < field.len()
                && field[j]) by {
                lemma_extracted_bit(word, offset as u128, mask, j as u64);
                if size < 64 {
                    lemma_mask_bit(size as u64, j as u64);
                } else {
                    lemma_mask_bit(0, j as u64);
                }
                assert(word_bit(word, j + offset) == (j + offset < 8 * count && byte_bit(
                    self.bytes@[start + (j + offset) / 8],
                    (j + offset) % 8,
                )));
                if j < size {
                    assert(field[j] == self@[position + j]);
                    assert((position + j) / 8 == start + (j + offset) / 8);
                    assert((position + j) % 8 == (j + offset) % 8);
                }
            }
            lemma2_to64();
            lemma2_to64_rest();
            lemma_bits_spell_uint(value, field, 64);
        }
        value
    }

    /// Writes the `size` lowest bits of `value` into the field at `position` and leaves
    /// every other bit as it was.
    pub fn set_uint(&mut self, position: usize, size: usize, value: u64)
        requires
            old(self).wf(),
            size <= 64,
            position + size <= old(self)@.len(),
        ensures
            final(self).wf(),
            final(self)@ == splice(old(self)@, position as int, uint_bits(value, size as nat)),
            final(self).spec_get_uint(position as int, size as nat) == value & low_mask(
                size as nat,
            ),
    {
        let mut done: usize = 0;
        while done < size
            invariant
                self.wf(),
                done <= size <= 64,
                position + size <= self@.len(),
                self@.len() == old(self)@.len(),
                forall|t: int|
                    0 <= t < self@.len() ==> self@[t] == (if position <= t < position + done {
                        uint_bit(value, t - position)
                    } else {
                        old(self)@[t]
                    }),
            decreases size - done,
        {
            let cursor: usize = position + done;
            let index: usize = cursor / 8;
            let offset: usize = cursor % 8;
            let room: usize = 8 - offset;
            let take: usize = if size - done < room {
                size - done
            } else {
                room
            };
            let byte: u8 = self.bytes[index];
            let chunk: u64 = value >> (done as u64);
            let merged: u8 = merge_byte(byte, chunk, offset, take);
            let ghost before = self@;
            self.bytes.set(index, merged);
            proof {
                assert forall|t: int| 0 <= t < self@.len() implies self@[t] == (if position <= t
                    < position + done + take {
                    uint_bit(value, t - position)
                } else {
                    old(self)@[t]
                }) by {
                    if t / 8 == index {
                        let k = t % 8;
                        assert(self@[t] == byte_bit(merged, k));
                        assert(before[t] == byte_bit(byte, k));
                        if offset <= k < offset + take {
                            lemma_shifted_bit(value, done as u64, (k - offset) as u64);
                        }
                    } else {
                        assert(self@[t] == before[t]);
                    }
                }
            }
            done += take;
        }
        proof {
            assert(self@ =~= splice(old(self)@, position as int, uint_bits(value, size as nat)));
            lemma_read_after_write(old(self)@, position as int, size as nat, value);
        }
    }
}

} // verus!
