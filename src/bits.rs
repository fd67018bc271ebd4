//! Small bit masks: which of a cell's directions are present.
use vstd::prelude::*;

verus! {

/// Bit `k` of `m` is set.
pub open spec fn has_bit(m: u8, k: u8) -> bool {
    m & (1u8 << k) != 0
}

/// Number of set bits among the lowest `n`.
pub open spec fn count_bits(m: u8, n: nat) -> nat
    decreases n,
{
    if n == 0 {
        0
    } else {
        count_bits(m, (n - 1) as nat) + if has_bit(m, (n - 1) as u8) { 1nat } else { 0nat }
    }
}

/// Number of set bits of a mask over the six hex directions.
pub open spec fn popcount(m: u8) -> nat {
    count_bits(m, 8)
}

pub proof fn lemma_set_bit(m: u8, k: u8, j: u8)
    requires
        k < 8,
        j < 8,
    ensures
        has_bit(m | (1u8 << k), j) == (j == k || has_bit(m, j)),
{
    assert((m | (1u8 << k)) & (1u8 << j) != 0 <==> (j == k || m & (1u8 << j) != 0))
        by (bit_vector)
        requires
            k < 8,
            j < 8,
    ;
}

pub proof fn lemma_clear_bit(m: u8, k: u8, j: u8)
    requires
        k < 8,
        j < 8,
    ensures
        has_bit(m & !(1u8 << k), j) == (j != k && has_bit(m, j)),
{
    assert((m & !(1u8 << k)) & (1u8 << j) != 0 <==> (j != k && m & (1u8 << j) != 0))
        by (bit_vector)
        requires
            k < 8,
            j < 8,
    ;
}

/// A mask is zero exactly when none of its eight bits is set.
pub proof fn lemma_zero_iff_no_bits(m: u8)
    ensures
        (m == 0) == (forall|j: u8| j < 8 ==> !#[trigger] has_bit(m, j)),
{
    if m != 0 {
        assert(m & 1u8 << 0u8 != 0 || m & 1u8 << 1u8 != 0 || m & 1u8 << 2u8 != 0 || m & 1u8
            << 3u8 != 0 || m & 1u8 << 4u8 != 0 || m & 1u8 << 5u8 != 0 || m & 1u8 << 6u8 != 0 || m
            & 1u8 << 7u8 != 0) by (bit_vector)
            requires
                m != 0,
        ;
        assert(has_bit(m, 0) || has_bit(m, 1) || has_bit(m, 2) || has_bit(m, 3) || has_bit(m, 4)
            || has_bit(m, 5) || has_bit(m, 6) || has_bit(m, 7));
    } else {
        assert forall|j: u8| j < 8 implies !#[trigger] has_bit(m, j) by {
            assert(0u8 & (1u8 << j) == 0) by (bit_vector);
        }
    }
}

/// A mask below `2^n` has no bit at or above `n`.
pub proof fn lemma_high_bits_clear(m: u8, n: u8, j: u8)
    requires
        n == 3 || n == 6,
        n <= j < 8,
        (m as int) < pow2_u8(n),
    ensures
        !has_bit(m, j),
{
    assert(m & (1u8 << j) == 0) by (bit_vector)
        requires
            n <= j < 8,
            (n == 3 && m < 8) || (n == 6 && m < 64),
    ;
}

pub open spec fn pow2_u8(n: u8) -> int {
    if n == 3 {
        8
    } else if n == 6 {
        64
    } else {
        256
    }
}

/// Setting a clear bit adds one to the count, clearing a set bit takes one away;
/// bits other than `k` keep their state.
pub proof fn lemma_count_change(a: u8, b: u8, k: u8, n: nat)
    requires
        k < 8,
        n <= 8,
        forall|j: u8| j < 8 && j != k ==> has_bit(a, j) == has_bit(b, j),
    ensures
        (k as nat) < n && has_bit(b, k) && !has_bit(a, k) ==> count_bits(b, n) == count_bits(a, n) + 1,
        (k as nat) < n && !has_bit(b, k) && has_bit(a, k) ==> count_bits(b, n) + 1 == count_bits(a, n),
        ((k as nat) >= n || has_bit(b, k) == has_bit(a, k)) ==> count_bits(b, n) == count_bits(a, n),
    decreases n,
{
    if n > 0 {
        lemma_count_change(a, b, k, (n - 1) as nat);
    }
}

/// A count over `n` bits is at most `n`, and zero when the mask is zero.
pub proof fn lemma_count_bound(m: u8, n: nat)
    ensures
        count_bits(m, n) <= n,
        m == 0 ==> count_bits(m, n) == 0,
    decreases n,
{
    if n > 0 {
        lemma_count_bound(m, (n - 1) as nat);
        if m == 0 {
            assert(0u8 & (1u8 << ((n - 1) as u8)) == 0) by (bit_vector);
        }
    }
}

} // verus!
