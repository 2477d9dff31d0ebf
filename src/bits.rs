//! Population count of 64-bit words, and the facts about it that the board needs.
use vstd::prelude::*;
use vstd::arithmetic::power2::{lemma2_to64, lemma_pow2_unfold, pow2};

verus! {

/// The number of one bits in `x`.
pub open spec fn popcount(x: u64) -> nat
    decreases x,
{
    if x == 0 {
        0
    } else {
        (x % 2) as nat + popcount(x / 2)
    }
}

/// `x` has exactly one bit set.
pub open spec fn single_bit(x: u64) -> bool {
    x != 0 && x & ((x - 1) as u64) == 0
}

/// The number of one bits of `x`.
pub(crate) fn count_ones(x: u64) -> (r: u32)
    ensures
        r as nat == popcount(x),
{
    let mut rest = x;
    let mut count: u32 = 0;
    proof {
        lemma_popcount_bound(x);
    }
    while rest != 0
        invariant
            count as nat + popcount(rest) == popcount(x),
            popcount(x) <= 64,
        decreases rest,
    {
        proof {
            lemma_word_facts(rest, 0);
        }
        count = count + (rest & 1) as u32;
        rest = rest >> 1u64;
    }
    count
}

proof fn lemma_bit_steps(x: u64, m: u64)
    by (bit_vector)
    ensures
        (m != 0 && m & ((m - 1) as u64) == 0 && m % 2 == 1) ==> m == 1,
        x & 1 == 0 ==> (x | 1) % 2 == 1 && (x | 1) / 2 == x / 2 && x % 2 == 0,
        m % 2 == 0 ==> (x | m) % 2 == x % 2 && (x | m) / 2 == (x / 2) | (m / 2),
        (m != 0 && m & ((m - 1) as u64) == 0 && m % 2 == 0) ==> (m / 2 != 0 && (m / 2) & ((m / 2 - 1) as u64) == 0),
        x & m == 0 ==> (x / 2) & (m / 2) == 0,
        x & 1 == x % 2,
{
}

/// Small facts about words, for use in other proofs.
pub proof fn lemma_word_facts(x: u64, y: u64)
    by (bit_vector)
    ensures
        x ^ y == y ^ x,
        x ^ 0 == x,
        (x ^ y == 0) ==> x == y,
        0u64 | x == x,
        0u64 & x == 0,
        x & 0u64 == 0,
        0u64 >> 1u64 == 0u64,
        1u64 << 6u64 == 64,
        x & !0xffff_ffff_ffff_ffffu64 == 0,
        y != 0 ==> (x | y) != 0,
        x & 1 == x % 2,
        x >> 1u64 == x / 2,
{
}

/// A 64-bit word has at most 64 one bits.
pub proof fn lemma_popcount_bound(x: u64)
    ensures
        popcount(x) <= 64,
{
    lemma2_to64();
    lemma_popcount_below(x, 64);
}

proof fn lemma_popcount_below(x: u64, n: nat)
    requires
        x < pow2(n),
    ensures
        popcount(x) <= n,
    decreases n,
{
    if n == 0 {
        lemma2_to64();
    } else {
        lemma_pow2_unfold(n);
        lemma_popcount_below(x / 2, (n - 1) as nat);
    }
}

/// Fewer bits set means a smaller count.
pub proof fn lemma_popcount_le(x: u64, y: u64)
    requires
        x & !y == 0,
    ensures
        popcount(x) <= popcount(y),
    decreases y,
{
    assert(x & !y == 0 ==> (x / 2) & !(y / 2) == 0 && x % 2 <= y % 2 && (y == 0 ==> x == 0))
        by (bit_vector);
    if y != 0 {
        lemma_popcount_le(x / 2, y / 2);
    }
}

/// The bits of `b` split into those of `p`, which lie inside `b`, and the rest.
pub proof fn lemma_popcount_split(p: u64, b: u64)
    requires
        p & !b == 0,
    ensures
        popcount(b) == popcount(p) + popcount(b ^ p),
    decreases b,
{
    assert(p & !b == 0 ==> (p / 2) & !(b / 2) == 0 && b % 2 == p % 2 + (b ^ p) % 2 && (b ^ p) / 2 == (b / 2)
        ^ (p / 2) && (b == 0 ==> p == 0 && b ^ p == 0)) by (bit_vector);
    if b != 0 {
        lemma_popcount_split(p / 2, b / 2);
        if b ^ p == 0 {
            lemma_word_facts(b, p);
        }
        if p == 0 {
            lemma_word_facts(b, 0);
        }
    }
}

/// Adding one bit that is not yet set raises the count by one.
pub proof fn lemma_popcount_add_bit(x: u64, m: u64)
    requires
        single_bit(m),
        x & m == 0,
    ensures
        popcount(x | m) == popcount(x) + 1,
    decreases m,
{
    lemma_bit_steps(x, m);
    if m % 2 == 1 {
        assert(m == 1);
        assert(x & 1 == 0);
        lemma_word_facts(x, 1);
        if x == 0 {
            lemma_word_facts(1, 1);
            reveal_with_fuel(popcount, 2);
        }
    } else {
        lemma_bit_steps(x / 2, m / 2);
        lemma_popcount_add_bit(x / 2, m / 2);
        lemma_word_facts(x, m);
    }
}

} // verus!
