//! Powers of two: the least exponent whose power reaches a number.
use vstd::arithmetic::power2::{lemma2_to64, lemma_pow2_strictly_increases, lemma_pow2_unfold, pow2};
use vstd::prelude::*;

verus! {

/// The least `k` with `n <= 2^k`.
pub open spec fn ceil_log2(n: nat) -> nat
    decreases n,
{
    if n <= 1 {
        0
    } else {
        1 + ceil_log2((n + 1) / 2)
    }
}

/// Whether `k` is the least exponent whose power of two reaches `n`.
pub open spec fn is_least_exponent(n: nat, k: nat) -> bool {
    n <= pow2(k) && (k == 0 || pow2((k - 1) as nat) < n)
}

/// `ceil_log2(n)` is the least exponent whose power of two reaches `n`.
pub proof fn lemma_ceil_log2(n: nat)
    ensures
        is_least_exponent(n, ceil_log2(n)),
    decreases n,
{
    lemma2_to64();
    if n > 1 {
        let half = (n + 1) / 2;
        let k = ceil_log2(half);
        lemma_ceil_log2(half);
        lemma_pow2_unfold(k + 1);
        if k > 0 {
            lemma_pow2_unfold(k);
        }
    }
}

/// Only one exponent is the least one that reaches `n`.
pub proof fn lemma_least_exponent_unique(n: nat, k: nat)
    requires
        is_least_exponent(n, k),
    ensures
        k == ceil_log2(n),
{
    let c = ceil_log2(n);
    lemma_ceil_log2(n);
    if k < c {
        if k < c - 1 {
            lemma_pow2_strictly_increases(k, (c - 1) as nat);
        }
    } else if c < k {
        if c < k - 1 {
            lemma_pow2_strictly_increases(c, (k - 1) as nat);
        }
    }
}

/// The least `k` with `hint <= 2^k`, found by doubling.
pub fn index_bits_for(hint: usize) -> (k: usize)
    ensures
        k == ceil_log2(hint as nat),
        k <= usize::BITS,
{
    let mut k: usize = 0;
    let mut power: usize = 1;
    proof {
        lemma2_to64();
    }
    while power < hint
        invariant
            1 <= power == pow2(k as nat),
            k < usize::BITS,
            k == 0 || pow2((k - 1) as nat) < hint,
        decreases usize::BITS - k,
    {
        proof {
            lemma_pow2_unfold((k + 1) as nat);
        }
        if power > usize::MAX / 2 {
            proof {
                lemma_least_exponent_unique(hint as nat, (k + 1) as nat);
                lemma_word_exponent((k + 1) as nat);
            }
            return k + 1;
        }
        power = power * 2;
        k = k + 1;
        proof {
            lemma_word_exponent(k as nat);
        }
    }
    proof {
        lemma_least_exponent_unique(hint as nat, k as nat);
    }
    k
}

/// A power of two that a `usize` holds has an exponent below the word's width, and the
/// first that it does not hold has the width as its exponent at most.
pub proof fn lemma_word_exponent(k: nat)
    ensures
        pow2(k) <= usize::MAX ==> k < usize::BITS,
        k > 0 && pow2((k - 1) as nat) <= usize::MAX ==> k <= usize::BITS,
        k < usize::BITS ==> pow2(k) <= usize::MAX,
{
    lemma2_to64();
    vstd::arithmetic::power2::lemma2_to64_rest();
    if k >= usize::BITS {
        if k > usize::BITS {
            lemma_pow2_strictly_increases(usize::BITS as nat, k);
        }
    }
    if k > 0 && k - 1 >= usize::BITS {
        if k - 1 > usize::BITS {
            lemma_pow2_strictly_increases(usize::BITS as nat, (k - 1) as nat);
        }
    }
    if k < usize::BITS {
        if k < usize::BITS - 1 {
            lemma_pow2_strictly_increases(k, (usize::BITS - 1) as nat);
        }
        lemma_pow2_unfold(usize::BITS as nat);
    }
}

} // verus!
