//! Candidate sets as 16-bit masks: bit `i` stands for the digit `i + 1`.
use vstd::prelude::*;
use vstd::std_specs::bits::u16_trailing_zeros;
use vstd::std_specs::bits::axiom_u16_trailing_zeros;

verus! {

/// Bit `i` of `m` is set.
pub open spec fn bit(m: u16, i: int) -> bool {
    0 <= i < 16 && (m >> (i as u16)) & 1u16 == 1u16
}

/// Index of the lowest set bit (16 for the empty mask).
pub open spec fn lowest(m: u16) -> int {
    u16_trailing_zeros(m) as int
}

/// Number of set bits of `m` at positions `i` and above.
pub open spec fn count_from(m: u16, i: int) -> nat
    decreases 16 - i,
{
    if i >= 16 {
        0
    } else {
        (if bit(m, i) { 1nat } else { 0nat }) + count_from(m, i + 1)
    }
}

/// Number of set bits of `m`.
pub open spec fn bit_count(m: u16) -> nat {
    count_from(m, 0)
}

/// Every bit of `a` is a bit of `b`.
pub open spec fn bits_within(a: u16, b: u16) -> bool {
    forall|i: int| #[trigger] bit(a, i) ==> bit(b, i)
}

proof fn bv_and(a: u16, b: u16, i: u16)
    by (bit_vector)
    requires
        i < 16,
    ensures
        (((a & b) >> i) & 1u16 == 1u16) == (((a >> i) & 1u16 == 1u16) && ((b >> i) & 1u16
            == 1u16)),
{
}

proof fn bv_or(a: u16, b: u16, i: u16)
    by (bit_vector)
    requires
        i < 16,
    ensures
        (((a | b) >> i) & 1u16 == 1u16) == (((a >> i) & 1u16 == 1u16) || ((b >> i) & 1u16
            == 1u16)),
{
}

proof fn bv_xor(a: u16, b: u16, i: u16)
    by (bit_vector)
    requires
        i < 16,
    ensures
        (((a ^ b) >> i) & 1u16 == 1u16) == (((a >> i) & 1u16 == 1u16) != ((b >> i) & 1u16
            == 1u16)),
{
}

proof fn bv_single(k: u16, i: u16)
    by (bit_vector)
    requires
        k < 16,
        i < 16,
    ensures
        ((((1u16 << k) >> i) & 1u16) == 1u16) == (i == k),
{
}

proof fn bv_zero(i: u16)
    by (bit_vector)
    requires
        i < 16,
    ensures
        ((0u16 >> i) & 1u16) != 1u16,
{
}

proof fn bv_all_options(i: u16)
    by (bit_vector)
    requires
        i < 16,
    ensures
        (((511u16 >> i) & 1u16) == 1u16) == (i < 9),
{
}

proof fn bv_clear_lowest(x: u16, t: u16, i: u16)
    by (bit_vector)
    requires
        x != 0,
        t < 16,
        i < 16,
        (x >> t) & 1u16 == 1u16,
        x << ((16 - t) as u16) == 0u16,
    ensures
        (((x & ((x - 1) as u16)) >> i) & 1u16 == 1u16) == (((x >> i) & 1u16 == 1u16) && i != t),
{
}

proof fn bv_clear_lowest_smaller(x: u16)
    by (bit_vector)
    requires
        x != 0,
    ensures
        x & ((x - 1) as u16) < x,
{
}

proof fn bv_ext(a: u16, b: u16)
    by (bit_vector)
    requires
        (a >> 0u16) & 1u16 == (b >> 0u16) & 1u16,
        (a >> 1u16) & 1u16 == (b >> 1u16) & 1u16,
        (a >> 2u16) & 1u16 == (b >> 2u16) & 1u16,
        (a >> 3u16) & 1u16 == (b >> 3u16) & 1u16,
        (a >> 4u16) & 1u16 == (b >> 4u16) & 1u16,
        (a >> 5u16) & 1u16 == (b >> 5u16) & 1u16,
        (a >> 6u16) & 1u16 == (b >> 6u16) & 1u16,
        (a >> 7u16) & 1u16 == (b >> 7u16) & 1u16,
        (a >> 8u16) & 1u16 == (b >> 8u16) & 1u16,
        (a >> 9u16) & 1u16 == (b >> 9u16) & 1u16,
        (a >> 10u16) & 1u16 == (b >> 10u16) & 1u16,
        (a >> 11u16) & 1u16 == (b >> 11u16) & 1u16,
        (a >> 12u16) & 1u16 == (b >> 12u16) & 1u16,
        (a >> 13u16) & 1u16 == (b >> 13u16) & 1u16,
        (a >> 14u16) & 1u16 == (b >> 14u16) & 1u16,
        (a >> 15u16) & 1u16 == (b >> 15u16) & 1u16,
    ensures
        a == b,
{
}

proof fn bv_bit_value(a: u16, i: u16)
    by (bit_vector)
    requires
        i < 16,
    ensures
        ((a >> i) & 1u16 == 1u16) || ((a >> i) & 1u16 == 0u16),
{
}

pub broadcast proof fn lemma_bit_and(a: u16, b: u16, i: int)
    ensures
        #[trigger] bit(a & b, i) == (bit(a, i) && bit(b, i)),
{
    if 0 <= i < 16 {
        bv_and(a, b, i as u16);
    }
}

pub broadcast proof fn lemma_bit_or(a: u16, b: u16, i: int)
    ensures
        #[trigger] bit(a | b, i) == (bit(a, i) || bit(b, i)),
{
    if 0 <= i < 16 {
        bv_or(a, b, i as u16);
    }
}

pub broadcast proof fn lemma_bit_xor(a: u16, b: u16, i: int)
    ensures
        #[trigger] bit(a ^ b, i) == (0 <= i < 16 && bit(a, i) != bit(b, i)),
{
    if 0 <= i < 16 {
        bv_xor(a, b, i as u16);
    }
}

pub broadcast proof fn lemma_bit_single(k: u16, i: int)
    requires
        k < 16,
    ensures
        #[trigger] bit(1u16 << k, i) == (i == k),
{
    if 0 <= i < 16 {
        bv_single(k, i as u16);
    }
}

pub broadcast proof fn lemma_bit_zero(i: int)
    ensures
        !#[trigger] bit(0u16, i),
{
    if 0 <= i < 16 {
        bv_zero(i as u16);
    }
}

pub broadcast proof fn lemma_bit_all_options(i: int)
    ensures
        #[trigger] bit(511u16, i) == (0 <= i < 9),
{
    if 0 <= i < 16 {
        bv_all_options(i as u16);
    }
}

pub broadcast group group_bits {
    lemma_bit_and,
    lemma_bit_or,
    lemma_bit_xor,
    lemma_bit_single,
    lemma_bit_zero,
    lemma_bit_all_options,
}

/// Two masks with the same bits are equal.
pub proof fn lemma_bits_ext(a: u16, b: u16)
    requires
        forall|i: int| 0 <= i < 16 ==> bit(a, i) == bit(b, i),
    ensures
        a == b,
{
    assert forall|i: u16| i < 16 implies (a >> i) & 1u16 == (b >> i) & 1u16 by {
        bv_bit_value(a, i);
        bv_bit_value(b, i);
        assert(bit(a, i as int) == bit(b, i as int));
    }
    assert((a >> 0u16) & 1u16 == (b >> 0u16) & 1u16);
    assert((a >> 1u16) & 1u16 == (b >> 1u16) & 1u16);
    assert((a >> 2u16) & 1u16 == (b >> 2u16) & 1u16);
    assert((a >> 3u16) & 1u16 == (b >> 3u16) & 1u16);
    assert((a >> 4u16) & 1u16 == (b >> 4u16) & 1u16);
    assert((a >> 5u16) & 1u16 == (b >> 5u16) & 1u16);
    assert((a >> 6u16) & 1u16 == (b >> 6u16) & 1u16);
    assert((a >> 7u16) & 1u16 == (b >> 7u16) & 1u16);
    assert((a >> 8u16) & 1u16 == (b >> 8u16) & 1u16);
    assert((a >> 9u16) & 1u16 == (b >> 9u16) & 1u16);
    assert((a >> 10u16) & 1u16 == (b >> 10u16) & 1u16);
    assert((a >> 11u16) & 1u16 == (b >> 11u16) & 1u16);
    assert((a >> 12u16) & 1u16 == (b >> 12u16) & 1u16);
    assert((a >> 13u16) & 1u16 == (b >> 13u16) & 1u16);
    assert((a >> 14u16) & 1u16 == (b >> 14u16) & 1u16);
    assert((a >> 15u16) & 1u16 == (b >> 15u16) & 1u16);
    bv_ext(a, b);
}

/// Testing bit `k` with a single-bit mask.
pub proof fn lemma_mask_test(m: u16, k: u16)
    requires
        k < 16,
    ensures
        (m & (1u16 << k) != 0) == bit(m, k as int),
{
    broadcast use group_bits;

    lemma_zero_iff_no_bits(m & (1u16 << k));
    if bit(m, k as int) {
        assert(bit(m & (1u16 << k), k as int));
    } else {
        assert forall|j: int| 0 <= j < 16 implies !#[trigger] bit(m & (1u16 << k), j) by {
            assert(bit(1u16 << k, j) == (j == k));
        }
    }
}

/// A mask is zero exactly when it has no set bit.
pub proof fn lemma_zero_iff_no_bits(a: u16)
    ensures
        (a == 0) == (forall|i: int| 0 <= i < 16 ==> !#[trigger] bit(a, i)),
{
    broadcast use group_bits;

    if forall|i: int| 0 <= i < 16 ==> !#[trigger] bit(a, i) {
        lemma_bits_ext(a, 0);
    }
}

/// The lowest set bit of a nonzero mask.
pub proof fn lemma_lowest(x: u16)
    ensures
        0 <= lowest(x) <= 16,
        (x == 0) == (lowest(x) == 16),
        x != 0 ==> bit(x, lowest(x)),
        forall|j: int| 0 <= j < lowest(x) ==> !#[trigger] bit(x, j),
{
    axiom_u16_trailing_zeros(x);
    assert forall|j: int| 0 <= j < lowest(x) implies !#[trigger] bit(x, j) by {
        assert((x >> (j as u16)) & 1u16 == 0u16);
    }
}

/// Clearing the lowest set bit with `x & (x - 1)`.
pub proof fn lemma_clear_lowest(x: u16)
    requires
        x != 0,
    ensures
        x & ((x - 1) as u16) < x,
        forall|i: int| #[trigger]
            bit(x & ((x - 1) as u16), i) == (bit(x, i) && i != lowest(x)),
{
    bv_clear_lowest_smaller(x);
    axiom_u16_trailing_zeros(x);
    lemma_lowest(x);
    let t = lowest(x) as u16;
    assert forall|i: int| #[trigger]
        bit(x & ((x - 1) as u16), i) == (bit(x, i) && i != lowest(x)) by {
        if 0 <= i < 16 {
            bv_clear_lowest(x, t, i as u16);
        }
    }
}

/// Counting facts: one set bit below `i` adds one, no set bit adds nothing.
pub proof fn lemma_count_zero(m: u16, i: int)
    requires
        forall|j: int| i <= j < 16 ==> !#[trigger] bit(m, j),
    ensures
        count_from(m, i) == 0,
    decreases 16 - i,
{
    if i < 16 {
        lemma_count_zero(m, i + 1);
    }
}

/// A set bit at `j` with nothing set above it counts one more than what lies above.
pub proof fn lemma_count_after(m: u16, i: int, j: int)
    requires
        0 <= i <= j < 16,
        bit(m, j),
        count_from(m, j + 1) == 0,
        forall|k: int| i <= k < j ==> !#[trigger] bit(m, k),
    ensures
        count_from(m, i) == 1,
    decreases j - i,
{
    if i < j {
        lemma_count_after(m, i + 1, j);
    }
}

pub proof fn lemma_count_pos(m: u16, i: int, j: int)
    requires
        i <= j,
        bit(m, j),
    ensures
        count_from(m, i) >= 1,
    decreases j - i,
{
    if i < j {
        lemma_count_pos(m, i + 1, j);
    }
}

pub proof fn lemma_count_two(m: u16, i: int, j: int, k: int)
    requires
        i <= j < k,
        bit(m, j),
        bit(m, k),
    ensures
        count_from(m, i) >= 2,
    decreases j - i,
{
    if i < j {
        lemma_count_two(m, i + 1, j, k);
    } else {
        lemma_count_pos(m, i + 1, k);
    }
}

pub proof fn lemma_count_bound(m: u16, i: int)
    requires
        0 <= i <= 16,
    ensures
        count_from(m, i) <= 16 - i,
    decreases 16 - i,
{
    if i < 16 {
        lemma_count_bound(m, i + 1);
    }
}

/// Removing bits never adds to the count; removing one strictly lowers it.
pub proof fn lemma_count_within(a: u16, b: u16, i: int)
    requires
        bits_within(a, b),
    ensures
        count_from(a, i) <= count_from(b, i),
        (exists|j: int| i <= j && bit(b, j) && !bit(a, j)) ==> count_from(a, i) < count_from(
            b,
            i,
        ),
    decreases 16 - i,
{
    if i < 16 {
        lemma_count_within(a, b, i + 1);
        if exists|j: int| i <= j && bit(b, j) && !bit(a, j) {
            let j = choose|j: int| i <= j && bit(b, j) && !bit(a, j);
            if j != i {
                assert(i + 1 <= j && bit(b, j) && !bit(a, j));
            }
        }
    }
}

/// A mask with exactly one set bit: the bit is its lowest, and no other is set.
pub proof fn lemma_single_bit(m: u16)
    requires
        bit_count(m) == 1,
    ensures
        m != 0,
        0 <= lowest(m) < 16,
        bit(m, lowest(m)),
        forall|j: int| #[trigger] bit(m, j) ==> j == lowest(m),
{
    lemma_lowest(m);
    if m == 0 {
        broadcast use group_bits;

        lemma_count_zero(m, 0);
    }
    assert forall|j: int| #[trigger] bit(m, j) implies j == lowest(m) by {
        if j != lowest(m) {
            if j < lowest(m) {
            } else {
                lemma_count_two(m, 0, lowest(m), j);
            }
        }
    }
}

/// Number of set bits, counted bit by bit.
pub fn candidate_count(m: u16) -> (n: u32)
    ensures
        n == bit_count(m),
        n <= 16,
{
    let mut n: u32 = 0;
    let mut i: u16 = 0;
    proof {
        lemma_count_bound(m, 0);
    }
    while i < 16
        invariant
            0 <= i <= 16,
            n + count_from(m, i as int) == bit_count(m),
            n <= i,
        decreases 16 - i,
    {
        proof {
            lemma_count_bound(m, i + 1);
        }
        if (m >> i) & 1 == 1 {
            n = n + 1;
        }
        i = i + 1;
    }
    n
}

} // verus!
