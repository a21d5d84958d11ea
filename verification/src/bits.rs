//! Counting set bits.

use vstd::prelude::*;

verus! {

/// Whether bit `k` of `x` is set, `0 <= k < 64`.
pub open spec fn bit_set(x: u64, k: int) -> bool {
    (x >> (k as u64)) & 1 == 1
}

/// How many of the lowest `n` bits of `x` are set.
pub open spec fn ones_below(x: u64, n: nat) -> nat
    decreases n,
{
    if n == 0 {
        0
    } else {
        ones_below(x, (n - 1) as nat) + if bit_set(x, n - 1) {
            1nat
        } else {
            0
        }
    }
}

/// How many bits of `x` are set.
pub open spec fn popcount(x: u64) -> nat {
    ones_below(x, 64)
}

/// Counts the set bits among the lowest `n`.
pub fn count_ones_below(x: u64, n: u32) -> (count: u32)
    requires
        n <= 64,
    ensures
        count == ones_below(x, n as nat),
        count <= n,
{
    let mut count: u32 = 0;
    let mut k: u32 = 0;
    while k < n
        invariant
            k <= n <= 64,
            count == ones_below(x, k as nat),
            count <= k,
        decreases n - k,
    {
        if (x >> (k as u64)) & 1 == 1 {
            count += 1;
        }
        k += 1;
    }
    count
}

/// Counts the set bits of a word.
pub fn count_ones(x: u64) -> (count: u32)
    ensures
        count == popcount(x),
        count <= 64,
{
    count_ones_below(x, 64)
}

/// After a left shift that brings in `v`, bit 0 is `v` and every other bit is
/// its former right neighbour.
pub proof fn lemma_shifted_bit(x: u64, v: bool, k: int)
    requires
        0 <= k < 64,
    ensures
        bit_set(
            (x << 1u64) | (if v {
                1u64
            } else {
                0u64
            }),
            k,
        ) == (if k == 0 {
            v
        } else {
            bit_set(x, k - 1)
        }),
{
    let low: u64 = if v {
        1
    } else {
        0
    };
    let s = k as u64;
    if k == 0 {
        assert((((x << 1u64) | low) >> 0u64) & 1 == low) by (bit_vector)
            requires
                low <= 1,
        ;
    } else {
        let t = (k - 1) as u64;
        assert((((x << 1u64) | low) >> s) & 1 == (x >> t) & 1) by (bit_vector)
            requires
                low <= 1,
                1 <= s < 64,
                t == s - 1,
        ;
    }
}

/// Masking to the lowest `n` bits keeps each of them.
pub proof fn lemma_masked_bit(x: u64, n: u64, k: int)
    requires
        0 <= k < n < 64,
    ensures
        bit_set(x & ((((1u64 << n) - 1)) as u64), k) == bit_set(x, k),
{
    let s = k as u64;
    assert(((x & ((((1u64 << n) - 1)) as u64)) >> s) & 1 == (x >> s) & 1) by (bit_vector)
        requires
            s < n < 64,
    ;
}

/// The positions of the set bits among the lowest `n`.
pub open spec fn set_positions(x: u64, n: nat) -> Set<int> {
    Set::new(|k: int| 0 <= k < n && (x >> (k as u64)) & 1 == 1)
}

proof fn lemma_set_positions(x: u64, n: nat)
    ensures
        set_positions(x, n).finite(),
        set_positions(x, n).len() == ones_below(x, n),
    decreases n,
{
    if n == 0 {
        assert(set_positions(x, 0) =~= Set::empty());
    } else {
        let less = set_positions(x, (n - 1) as nat);
        lemma_set_positions(x, (n - 1) as nat);
        if bit_set(x, n - 1) {
            assert(set_positions(x, n) =~= less.insert(n - 1));
        } else {
            assert(set_positions(x, n) =~= less);
        }
    }
}

/// The number of set bits is the number of positions at which a bit is set.
pub proof fn law_popcount_counts_positions(x: u64)
    ensures
        set_positions(x, 64).finite(),
        popcount(x) == set_positions(x, 64).len(),
{
    lemma_set_positions(x, 64);
}

} // verus!
