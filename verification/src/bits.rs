//! Facts about the bits of a single byte.

use vstd::prelude::*;

verus! {

/// The byte in which bit `k` alone is set, for `k < 8`.
pub open spec fn mask(k: u8) -> u8 {
    1u8 << k
}

/// Whether bit `k` of `b` is set, bit 0 being the least significant.
pub open spec fn bit_of(b: u8, k: u8) -> bool {
    (b >> k) & 1u8 == 1u8
}

/// 1 if bit `k` of `b` is set, 0 if not.
pub open spec fn bit_value(b: u8, k: u8) -> nat {
    if bit_of(b, k) {
        1
    } else {
        0
    }
}

/// The number of bits set in `b`.
pub open spec fn popcount(b: u8) -> nat {
    bit_value(b, 0) + bit_value(b, 1) + bit_value(b, 2) + bit_value(b, 3) + bit_value(b, 4)
        + bit_value(b, 5) + bit_value(b, 6) + bit_value(b, 7)
}

/// Counts the bits set in `b`, pairs of bits first, then nibbles, then the
/// whole byte.
pub fn count_ones(b: u8) -> (n: u32)
    ensures
        n == popcount(b),
        n <= 8,
{
    assert(((b >> 1u8) & 0x55u8) <= b) by (bit_vector);
    let pairs: u8 = b - ((b >> 1u8) & 0x55u8);
    assert((pairs & 0x33u8) + ((pairs >> 2u8) & 0x33u8) <= 0x66) by (bit_vector);
    let nibbles: u8 = (pairs & 0x33u8) + ((pairs >> 2u8) & 0x33u8);
    assert(nibbles + (nibbles >> 4u8) <= 0xff) by (bit_vector)
        requires
            nibbles <= 0x66u8,
    ;
    let halves: u8 = nibbles + (nibbles >> 4u8);
    let total: u8 = halves & 0x0fu8;
    assert(total == popcount(b) && total <= 8) by (bit_vector)
        requires
            pairs == b - ((b >> 1u8) & 0x55u8),
            nibbles == (pairs & 0x33u8) + ((pairs >> 2u8) & 0x33u8),
            halves == nibbles + (nibbles >> 4u8),
            total == halves & 0x0fu8,
    ;
    total as u32
}

/// Exclusive or on bytes is commutative and associative, has 0 as its
/// neutral element, and every byte is its own inverse.
pub proof fn lemma_xor_group(a: u8, b: u8, c: u8)
    by (bit_vector)
    ensures
        a ^ b == b ^ a,
        (a ^ b) ^ c == a ^ (b ^ c),
        a ^ 0u8 == a,
        0u8 ^ a == a,
        a ^ a == 0u8,
{
}

/// Two bytes that are mixed into a third leave it as it was if they are
/// equal, and can be mixed in in either order.
pub proof fn lemma_xor_twice(a: u8, b: u8, c: u8)
    by (bit_vector)
    ensures
        (a ^ b) ^ b == a,
        (a ^ b) ^ c == (a ^ c) ^ b,
{
}

/// The exclusive or of two pairs can be taken crosswise.
pub proof fn lemma_xor_interchange(a: u8, b: u8, c: u8, d: u8)
    by (bit_vector)
    ensures
        (a ^ b) ^ (c ^ d) == (a ^ c) ^ (b ^ d),
{
}

/// A byte has between 0 and 8 bits set, and none exactly when it is 0.
pub proof fn lemma_popcount_range(b: u8)
    by (bit_vector)
    ensures
        popcount(b) <= 8,
        popcount(b) == 0 <==> b == 0u8,
{
}

/// Exclusive or with `mask(k)` flips bit `k` and no other bit.
pub proof fn lemma_mask_flips_one_bit(b: u8, k: u8, j: u8)
    by (bit_vector)
    requires
        k < 8,
        j < 8,
    ensures
        bit_of(b ^ mask(k), j) == (bit_of(b, j) != (j == k)),
{
}

/// Flipping one bit changes the number of set bits by exactly one: down if
/// the bit was set, up if it was clear.
pub proof fn lemma_mask_moves_popcount(b: u8, k: u8)
    by (bit_vector)
    requires
        k < 8,
    ensures
        bit_of(b, k) ==> popcount(b ^ mask(k)) + 1 == popcount(b),
        !bit_of(b, k) ==> popcount(b ^ mask(k)) == popcount(b) + 1,
{
}

} // verus!
