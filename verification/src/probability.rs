//! The false-positive probability, and the schedule by which a growing filter spends it.
//!
//! A probability is held as the bits of an IEEE 754 binary64 number, so that it is
//! known exactly: it is `significand / 2^scale`. Filter number `k` of a growing filter
//! (counted from `0`) gets the budget `p / 2^(k + 1)` and `initial_capacity * 2^k`
//! places. Its fingerprints have the least width `F` with `2^F >= 2 * E / p_k`, which
//! is `ceil(log2(1 / p_k) + log2(2 * E))`; in whole numbers that is
//! `2^F * significand >= 2^(k + 2 + scale) * E`.
use vstd::arithmetic::power2::{
    lemma2_to64, lemma2_to64_rest, lemma_pow2_adds, lemma_pow2_pos, lemma_pow2_strictly_increases,
    lemma_pow2_unfold, pow2,
};
use vstd::prelude::*;

verus! {

/// The exponent field of a binary64 number.
pub open spec fn exponent_field(bits: u64) -> nat {
    ((bits >> 52) & 0x7ff) as nat
}

/// The fraction field of a binary64 number.
pub open spec fn fraction_field(bits: u64) -> nat {
    (bits & 0xf_ffff_ffff_ffff) as nat
}

/// The significand of a finite binary64 number: the number is `significand / 2^scale`,
/// with its sign.
pub open spec fn significand(bits: u64) -> nat {
    if exponent_field(bits) == 0 {
        fraction_field(bits)
    } else {
        fraction_field(bits) + 0x10_0000_0000_0000
    }
}

/// The scale of a binary64 number that is `1` at most.
pub open spec fn scale(bits: u64) -> nat {
    if exponent_field(bits) == 0 {
        1074
    } else {
        (1075 - exponent_field(bits)) as nat
    }
}

/// Whether `bits` are the bits of a number `p` with `0 < p <= 1`.
pub open spec fn is_probability(bits: u64) -> bool {
    &&& bits >> 63 == 0
    &&& significand(bits) > 0
    &&& exponent_field(bits) < 1023 || (exponent_field(bits) == 1023 && fraction_field(bits) == 0)
}

/// Whether `width` is the width of the fingerprints of filter number `k`: the least
/// `F` with `2^F * significand >= 2^(k + 2 + scale) * E`.
pub open spec fn is_fingerprint_bitwidth(
    probability: u64,
    entries_per_bucket: nat,
    k: nat,
    width: nat,
) -> bool {
    let goal = pow2(k + 2 + scale(probability)) * entries_per_bucket;
    &&& pow2(width) * significand(probability) >= goal
    &&& width == 0 || pow2((width - 1) as nat) * significand(probability) < goal
}

/// The places of filter number `k`: `initial_capacity * 2^k`.
pub open spec fn spec_filter_capacity(initial_capacity: nat, k: nat) -> nat {
    initial_capacity * pow2(k)
}

proof fn lemma_fields(bits: u64)
    by (bit_vector)
    ensures
        (bits >> 52) & 0x7ff <= 0x7ff,
        bits & 0xf_ffff_ffff_ffff <= 0xf_ffff_ffff_ffff,
{
}

proof fn lemma_product_order(a: nat, b: nat, c: nat)
    by (nonlinear_arith)
    requires
        a <= b,
    ensures
        a * c <= b * c,
        c * a <= c * b,
{
}

proof fn lemma_product_strict(a: nat, b: nat, c: nat)
    by (nonlinear_arith)
    requires
        a < b,
        c > 0,
    ensures
        a * c < b * c,
        c * a < c * b,
{
}

proof fn lemma_product_regroup(a: nat, b: nat, c: nat)
    by (nonlinear_arith)
    ensures
        (a * b) * c == a * (b * c),
        (a * b) * c == a * (c * b),
        (a * b) * c == (a * c) * b,
{
}

/// Only one width is the least one that reaches the goal.
pub proof fn lemma_width_unique(m: nat, goal: nat, a: nat, b: nat)
    requires
        m > 0,
        pow2(a) * m >= goal,
        a == 0 || pow2((a - 1) as nat) * m < goal,
        pow2(b) * m >= goal,
        b == 0 || pow2((b - 1) as nat) * m < goal,
    ensures
        a == b,
{
    if a < b {
        if a < b - 1 {
            lemma_pow2_strictly_increases(a, (b - 1) as nat);
        }
        lemma_product_order(pow2(a), pow2((b - 1) as nat), m);
    } else if b < a {
        if b < a - 1 {
            lemma_pow2_strictly_increases(b, (a - 1) as nat);
        }
        lemma_product_order(pow2(b), pow2((a - 1) as nat), m);
    }
}

/// The width of fingerprints is above the filter's number by two at least.
pub proof fn lemma_width_grows(probability: u64, entries_per_bucket: nat, k: nat, width: nat)
    requires
        is_probability(probability),
        entries_per_bucket >= 1,
        is_fingerprint_bitwidth(probability, entries_per_bucket, k, width),
    ensures
        width >= k + 2,
{
    let m = significand(probability);
    let s = k + 2 + scale(probability);
    lemma_fields(probability);
    lemma2_to64();
    lemma2_to64_rest();
    assert(m < pow2(53));
    assert(scale(probability) >= 52);
    if width < k + 2 {
        // 2^width * m < 2^(width + 53) <= 2^(k + 1 + 53) <= 2^s
        lemma_pow2_pos(width);
        lemma_product_strict(m, pow2(53), pow2(width));
        lemma_pow2_adds(width, 53);
        if width + 53 < s {
            lemma_pow2_strictly_increases(width + 53, s);
        }
        lemma_pow2_pos(s);
        lemma_product_order(1, entries_per_bucket, pow2(s));
    }
}

/// The budget of false positives halves from one filter to the next: the fingerprints
/// of the next filter are wider by one bit.
pub proof fn lemma_next_width(probability: u64, entries_per_bucket: nat, k: nat, width: nat)
    requires
        is_probability(probability),
        entries_per_bucket >= 1,
        is_fingerprint_bitwidth(probability, entries_per_bucket, k, width),
    ensures
        is_fingerprint_bitwidth(probability, entries_per_bucket, k + 1, width + 1),
{
    let m = significand(probability);
    let s = k + 2 + scale(probability);
    let goal = pow2(s) * entries_per_bucket;
    lemma_width_grows(probability, entries_per_bucket, k, width);
    lemma_pow2_unfold(width + 1);
    lemma_pow2_unfold(s + 1);
    lemma_pow2_unfold(width);
    lemma_product_regroup(2, pow2(width), m);
    lemma_product_regroup(2, pow2(s), entries_per_bucket);
    lemma_product_regroup(2, pow2((width - 1) as nat), m);
    assert(pow2(width + 1) * m == 2 * (pow2(width) * m));
    assert(pow2(s + 1) * entries_per_bucket == 2 * goal);
    assert(pow2(width) * m == 2 * (pow2((width - 1) as nat) * m));
    assert((k + 1) + 2 + scale(probability) == s + 1);
}

/// The places double from one filter to the next.
pub proof fn lemma_next_capacity(initial_capacity: nat, k: nat)
    ensures
        spec_filter_capacity(initial_capacity, k + 1) == 2 * spec_filter_capacity(
            initial_capacity,
            k,
        ),
{
    lemma_pow2_unfold(k + 1);
    lemma_product_regroup(initial_capacity, pow2(k), 2);
}

/// Tells whether `bits` are the bits of a number `p` with `0 < p <= 1`.
pub fn is_probability_bits(bits: u64) -> (ok: bool)
    ensures
        ok == is_probability(bits),
{
    let exponent = (bits >> 52) & 0x7ff;
    let fraction = bits & 0xf_ffff_ffff_ffff;
    bits >> 63 == 0 && (exponent != 0 || fraction != 0) && (exponent < 1023 || (exponent == 1023
        && fraction == 0))
}

/// The width of the fingerprints of filter number `k`, if it is 64 bits at most.
pub fn fingerprint_bitwidth(probability: u64, entries_per_bucket: usize, k: usize) -> (width:
    Option<usize>)
    requires
        is_probability(probability),
        entries_per_bucket >= 1,
    ensures
        match width {
            Some(w) => w <= 64 && is_fingerprint_bitwidth(
                probability,
                entries_per_bucket as nat,
                k as nat,
                w as nat,
            ),
            None => forall|w: nat|
                w <= 64 ==> !is_fingerprint_bitwidth(
                    probability,
                    entries_per_bucket as nat,
                    k as nat,
                    w,
                ),
        },
{
    proof {
        lemma_fields(probability);
        lemma2_to64();
        lemma2_to64_rest();
    }
    if k > 62 {
        proof {
            assert forall|w: nat| w <= 64 implies !is_fingerprint_bitwidth(
                probability,
                entries_per_bucket as nat,
                k as nat,
                w,
            ) by {
                if is_fingerprint_bitwidth(probability, entries_per_bucket as nat, k as nat, w) {
                    lemma_width_grows(probability, entries_per_bucket as nat, k as nat, w);
                }
            }
        }
        return None;
    }
    let exponent: u64 = (probability >> 52) & 0x7ff;
    let fraction: u64 = probability & 0xf_ffff_ffff_ffff;
    let m: u64 = if exponent == 0 {
        fraction
    } else {
        fraction + 0x10_0000_0000_0000
    };
    let shift: u64 = if exponent == 0 {
        1074
    } else {
        1075 - exponent
    };
    let s: u64 = k as u64 + 2 + shift;
    let e: u64 = entries_per_bucket as u64;
    let ghost goal = pow2(s as nat) * (e as nat);
    let width: u64;
    if m >= e {
        let mut u: u64 = 0;
        let mut b: u64 = e;
        proof {
            assert(pow2(0) == 1) by {
                lemma2_to64();
            }
            assert(e * pow2(0) == e);
        }
        while b <= m / 2
            invariant
                b == e * pow2(u as nat),
                1 <= b <= m,
                m < pow2(53),
                u <= 53,
                b >= pow2(u as nat),
            decreases m - b,
        {
            proof {
                lemma_pow2_unfold((u + 1) as nat);
                lemma_product_regroup(e as nat, pow2(u as nat), 2);
                if u == 53 {
                    assert(false);
                }
            }
            b = b * 2;
            u = u + 1;
        }
        width = s - u;
        proof {
            // 2^s == 2^width * 2^u, and b <= m < 2 * b
            lemma_pow2_adds(width as nat, u as nat);
            lemma_pow2_pos(width as nat);
            lemma_product_order(b as nat, m as nat, pow2(width as nat));
            lemma_product_regroup(pow2(width as nat), pow2(u as nat), e as nat);
            assert(pow2(width as nat) * (m as nat) >= goal);
            lemma_pow2_unfold(width as nat);
            let half = pow2((width - 1) as nat);
            lemma_pow2_pos((width - 1) as nat);
            lemma_product_strict(m as nat, 2 * (b as nat), half);
            lemma_product_regroup(half, 2, b as nat);
            assert(half * (m as nat) < goal);
        }
    } else {
        let mut t: u64 = 0;
        let mut a: u128 = m as u128;
        proof {
            assert(pow2(0) == 1) by {
                lemma2_to64();
            }
            assert(m * pow2(0) == m);
        }
        while a < e as u128
            invariant
                a == m * pow2(t as nat),
                1 <= m,
                m < e,
                t <= 64,
                t > 0 ==> m * pow2((t - 1) as nat) < e,
                a >= pow2(t as nat),
            decreases 64 - t,
        {
            proof {
                lemma_pow2_unfold((t + 1) as nat);
                lemma_product_regroup(m as nat, pow2(t as nat), 2);
                lemma2_to64_rest();
            }
            a = a * 2;
            t = t + 1;
        }
        width = s + t;
        proof {
            // 2^width == 2^s * 2^t, and m * 2^(t - 1) < e <= m * 2^t
            assert(t > 0) by {
                lemma2_to64();
                if t == 0 {
                    assert(m * pow2(0) == m);
                }
            }
            lemma_pow2_adds(s as nat, t as nat);
            lemma_pow2_pos(s as nat);
            lemma_product_order(e as nat, a as nat, pow2(s as nat));
            lemma_product_regroup(pow2(s as nat), pow2(t as nat), m as nat);
            assert(pow2(width as nat) * (m as nat) >= goal);
            lemma_pow2_adds(s as nat, (t - 1) as nat);
            lemma_product_strict(m as nat * pow2((t - 1) as nat), e as nat, pow2(s as nat));
            lemma_product_regroup(pow2(s as nat), pow2((t - 1) as nat), m as nat);
            assert(pow2((width - 1) as nat) * (m as nat) < goal);
        }
    }
    if width > 64 {
        proof {
            assert forall|w: nat| w <= 64 implies !is_fingerprint_bitwidth(
                probability,
                entries_per_bucket as nat,
                k as nat,
                w,
            ) by {
                if is_fingerprint_bitwidth(probability, entries_per_bucket as nat, k as nat, w) {
                    lemma_width_unique(m as nat, goal, w, width as nat);
                }
            }
        }
        None
    } else {
        Some(width as usize)
    }
}

/// The places of filter number `k`, if a `usize` holds the number.
pub fn filter_capacity(initial_capacity: usize, k: usize) -> (capacity: Option<usize>)
    ensures
        match capacity {
            Some(c) => c == spec_filter_capacity(initial_capacity as nat, k as nat),
            None => spec_filter_capacity(initial_capacity as nat, k as nat) > usize::MAX,
        },
{
    if initial_capacity == 0 {
        assert(0 * pow2(k as nat) == 0) by (nonlinear_arith);
        return Some(0);
    }
    let mut capacity: usize = initial_capacity;
    let mut j: usize = 0;
    proof {
        lemma2_to64();
    }
    while j < k
        invariant
            j <= k,
            1 <= initial_capacity,
            capacity == initial_capacity * pow2(j as nat),
        decreases k - j,
    {
        proof {
            lemma_pow2_unfold((j + 1) as nat);
            lemma_product_regroup(initial_capacity as nat, pow2(j as nat), 2);
        }
        match capacity.checked_mul(2) {
            None => {
                proof {
                    if j + 1 < k {
                        lemma_pow2_strictly_increases((j + 1) as nat, k as nat);
                    }
                    lemma_product_order(
                        pow2((j + 1) as nat),
                        pow2(k as nat),
                        initial_capacity as nat,
                    );
                }
                return None;
            },
            Some(doubled) => {
                capacity = doubled;
            },
        }
        j = j + 1;
    }
    Some(capacity)
}

} // verus!
