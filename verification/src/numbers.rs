//! Powers of two and rounding.

use vstd::arithmetic::power2::{lemma2_to64, lemma_pow2_unfold, pow2};
use vstd::prelude::*;

verus! {

/// `p` doubled until it is at least `n`.
pub open spec fn doubled_to(p: int, n: int) -> int
    decreases 2 * n - p,
{
    if p <= 0 || p >= n {
        p
    } else {
        doubled_to(2 * p, n)
    }
}

/// The smallest power of two that is at least `n`.
pub open spec fn next_pow2(n: int) -> int {
    doubled_to(1, n)
}

/// `p` is a power of two.
pub open spec fn is_pow2(p: int) -> bool
    decreases p,
{
    p == 1 || (p > 1 && p % 2 == 0 && is_pow2(p / 2))
}

proof fn lemma_doubled(p: int, n: int)
    requires
        is_pow2(p),
    ensures
        is_pow2(doubled_to(p, n)),
        doubled_to(p, n) >= n,
        doubled_to(p, n) >= p,
        doubled_to(p, n) == p || doubled_to(p, n) / 2 < n,
    decreases 2 * n - p,
{
    if p < n {
        assert((2 * p) / 2 == p);
        lemma_doubled(2 * p, n);
    }
}

/// `next_pow2(n)` is a power of two, is at least `n`, and half of it is not.
pub proof fn law_next_pow2_is_least(n: int)
    ensures
        is_pow2(next_pow2(n)),
        next_pow2(n) >= n,
        n > 1 ==> next_pow2(n) / 2 < n,
        n <= 1 ==> next_pow2(n) == 1,
{
    lemma_doubled(1, n);
}

/// Distinct powers of two are at least a factor of two apart.
proof fn lemma_pow2_step(p: int, q: int)
    requires
        is_pow2(p),
        is_pow2(q),
        p < q,
    ensures
        2 * p <= q,
    decreases p,
{
    if p > 1 {
        lemma_pow2_step(p / 2, q / 2);
    }
}

/// The smallest power of two that is at least `n`.
pub fn next_power_of_two(n: u64) -> (r: u64)
    requires
        n <= 0x8000_0000_0000_0000,
    ensures
        r == next_pow2(n as int),
{
    let mut p: u64 = 1;
    while p < n
        invariant
            n <= 0x8000_0000_0000_0000,
            is_pow2(p as int),
            p >= 1,
            doubled_to(p as int, n as int) == next_pow2(n as int),
        decreases 2 * n - p,
    {
        proof {
            assert(is_pow2(0x8000_0000_0000_0000)) by {
                reveal_with_fuel(is_pow2, 65);
            }
            lemma_pow2_step(p as int, 0x8000_0000_0000_0000);
            assert((2 * p) / 2 == p);
        }
        p = 2 * p;
    }
    p
}

/// Number of binary digits of `n`.
pub open spec fn bit_length(n: int) -> int
    decreases n,
{
    if n <= 0 {
        0
    } else {
        1 + bit_length(n / 2)
    }
}

pub proof fn lemma_bit_length_nonneg(n: int)
    ensures
        bit_length(n) >= 0,
        n >= 1 ==> bit_length(n) >= 1,
    decreases n,
{
    if n > 0 {
        lemma_bit_length_nonneg(n / 2);
    }
}

/// Number of mip levels of an image whose longer side is `size`.
pub fn mip_count(size: u32) -> (r: u32)
    ensures
        r == bit_length(size as int),
        r <= 32,
        size >= 1 ==> r >= 1,
{
    let mut n: u32 = size;
    let mut r: u32 = 0;
    let ghost mut bound: int = 0x1_0000_0000;
    proof {
        assert(bit_length(0x1_0000_0000) == 33) by {
            reveal_with_fuel(bit_length, 34);
        }
        assert(is_pow2(0x1_0000_0000)) by {
            reveal_with_fuel(is_pow2, 34);
        }
    }
    while n > 0
        invariant
            r + bit_length(n as int) == bit_length(size as int),
            n < bound,
            bound >= 1,
            is_pow2(bound),
            r + bit_length(bound) == 33,
        decreases n,
    {
        proof {
            assert(bound > 1);
            lemma_bit_length_nonneg(bound / 2);
            bound = bound / 2;
        }
        n = n / 2;
        r = r + 1;
    }
    proof {
        lemma_bit_length_nonneg(bound);
        lemma_bit_length_nonneg(size as int);
    }
    r
}

/// Side of mip level `m` of an image of side `size`.
pub open spec fn mip_side(size: int, m: int) -> int
    decreases m,
{
    if m <= 0 {
        size
    } else {
        let half = mip_side(size, m - 1) / 2;
        if half < 1 {
            1
        } else {
            half
        }
    }
}

pub proof fn lemma_mip_side(size: int, m: int)
    requires
        size >= 1,
    ensures
        1 <= mip_side(size, m) <= size,
    decreases m,
{
    if m > 0 {
        lemma_mip_side(size, m - 1);
    }
}

/// Shifting by one more halves once more.
proof fn lemma_shift_step(size: u32, m: u32)
    requires
        0 < m < 32,
    ensures
        (size >> m) == (size >> ((m - 1) as u32)) / 2,
{
    assert((size >> m) == (size >> ((m - 1) as u32)) / 2) by (bit_vector)
        requires
            0 < m < 32,
    ;
}

/// Halving level by level, rounding down but never below one, is shifting.
pub proof fn law_mip_side_is_a_shift(size: u32, m: u32)
    requires
        size >= 1,
        m < 32,
    ensures
        mip_side(size as int, m as int) == if (size >> m) >= 1 {
            (size >> m) as int
        } else {
            1
        },
    decreases m,
{
    if m == 0 {
        assert(size >> 0 == size) by (bit_vector);
    } else {
        law_mip_side_is_a_shift(size, (m - 1) as u32);
        lemma_shift_step(size, m);
    }
}

/// The last of an image's mip levels, and no other, is a single texel.
pub proof fn law_mip_chain_ends_at_one_texel(size: int, m: int)
    requires
        size >= 1,
        0 <= m < bit_length(size),
    ensures
        (mip_side(size, m) == 1) == (m == bit_length(size) - 1),
        bit_length(mip_side(size, m)) == bit_length(size) - m,
    decreases m,
{
    if m > 0 {
        law_mip_chain_ends_at_one_texel(size, m - 1);
    }
    assert(bit_length(0) == 0);
    assert(bit_length(1) == 1 + bit_length(0));
    let s = mip_side(size, m);
    lemma_mip_side(size, m);
    if s >= 2 {
        lemma_bit_length_nonneg(s / 2);
        assert(bit_length(s) == 1 + bit_length(s / 2));
    }
}

/// Side of mip level `m`.
pub fn mip_extent(size: u32, m: u32) -> (r: u32)
    requires
        size >= 1,
        m < 32,
    ensures
        r == mip_side(size as int, m as int),
{
    proof {
        law_mip_side_is_a_shift(size, m);
    }
    let s: u32 = size >> m;
    if s < 1 {
        1
    } else {
        s
    }
}

/// A number has as many bits as it takes powers of two to pass it.
pub proof fn law_bit_length_counts_the_bits(n: int)
    requires
        n >= 1,
    ensures
        pow2((bit_length(n) - 1) as nat) <= n < pow2(bit_length(n) as nat),
    decreases n,
{
    lemma_bit_length_nonneg(n);
    lemma_bit_length_nonneg(n / 2);
    assert(bit_length(n) == 1 + bit_length(n / 2));
    lemma_pow2_unfold(bit_length(n) as nat);
    if n >= 2 {
        law_bit_length_counts_the_bits(n / 2);
        lemma_pow2_unfold((bit_length(n) - 1) as nat);
    } else {
        assert(bit_length(0) == 0);
        lemma2_to64();
    }
}

/// A number below a power of two has no more bits than the power.
pub proof fn lemma_bit_length_bound(n: int, k: nat)
    requires
        0 <= n < pow2(k),
    ensures
        0 <= bit_length(n) <= k,
    decreases n,
{
    lemma_bit_length_nonneg(n);
    if n > 0 {
        if k == 0 {
            lemma2_to64();
        } else {
            lemma_pow2_unfold(k);
            lemma_bit_length_bound(n / 2, (k - 1) as nat);
        }
    }
}

/// A word has at most 32 bits.
pub proof fn lemma_word_bits(n: u32)
    ensures
        0 <= bit_length(n as int) <= 32,
{
    lemma2_to64();
    lemma_bit_length_bound(n as int, 32);
}

} // verus!
