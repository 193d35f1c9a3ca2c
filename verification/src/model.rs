//! The mathematical model of a sketch: a sequence of bytes read as a sequence
//! of bits, bit `i` being bit `i % 8` of byte `i / 8`.

use vstd::prelude::*;
use crate::bits::{bit_of, mask, popcount};

verus! {

/// The buffer of `len` bytes in which no bit is set.
pub open spec fn zeros(len: nat) -> Seq<u8> {
    Seq::new(len, |i: int| 0u8)
}

/// No bit of `s` is set.
pub open spec fn all_zero(s: Seq<u8>) -> bool {
    forall|i: int| 0 <= i < s.len() ==> s[i] == 0u8
}

/// The number of bits that `s` holds.
pub open spec fn bit_len(s: Seq<u8>) -> nat {
    8 * s.len()
}

/// Bit `i` of `s`, for `0 <= i < bit_len(s)`.
pub open spec fn bit_at(s: Seq<u8>, i: int) -> bool {
    bit_of(s[i / 8], (i % 8) as u8)
}

/// `s` with bit `i` flipped. An `i` outside the buffer flips nothing.
pub open spec fn toggled(s: Seq<u8>, i: int) -> Seq<u8> {
    if 0 <= i < bit_len(s) {
        s.update(i / 8, s[i / 8] ^ mask((i % 8) as u8))
    } else {
        s
    }
}

/// The bit that a short id selects in a buffer of `len` bytes, `len > 0`.
pub open spec fn bit_index(len: nat, short_id: u64) -> int {
    short_id as int % (8 * len) as int
}

/// `s` after one short id was inserted. The empty buffer has no bit to
/// flip and stays as it is.
pub open spec fn inserted(s: Seq<u8>, short_id: u64) -> Seq<u8> {
    if s.len() == 0 {
        s
    } else {
        toggled(s, bit_index(s.len(), short_id))
    }
}

/// `s` after the short ids of `ids` were inserted one after the other.
pub open spec fn inserted_all(s: Seq<u8>, ids: Seq<u64>) -> Seq<u8>
    decreases ids.len(),
{
    if ids.len() == 0 {
        s
    } else {
        inserted(inserted_all(s, ids.drop_last()), ids.last())
    }
}

/// The Hamming weight of `s`: the sum of the set-bit counts of its bytes.
pub open spec fn weight(s: Seq<u8>) -> nat
    decreases s.len(),
{
    if s.len() == 0 {
        0
    } else {
        weight(s.drop_last()) + popcount(s.last())
    }
}

/// The bytewise exclusive or of `a` and `b`, two buffers of one length.
pub open spec fn xored(a: Seq<u8>, b: Seq<u8>) -> Seq<u8> {
    Seq::new(a.len(), |i: int| a[i] ^ b[i])
}

/// The exclusive or of all bytes of `s`; 0 for the empty sequence.
pub open spec fn xor_sum(s: Seq<u8>) -> u8
    decreases s.len(),
{
    if s.len() == 0 {
        0u8
    } else {
        xor_sum(s.drop_last()) ^ s.last()
    }
}

/// Whether a buffer of `len` bytes can be folded to `target` bytes: the
/// target is not zero, not longer than the buffer, and divides its length.
pub open spec fn foldable(len: nat, target: nat) -> bool {
    0 < target <= len && len % target == 0
}

/// Chunk `i` of the `target` consecutive chunks of equal length into which
/// `s` is cut.
pub open spec fn chunk(s: Seq<u8>, target: nat, i: int) -> Seq<u8> {
    let width = (s.len() / target) as int;
    s.subrange(i * width, (i + 1) * width)
}

/// `s` folded to `target` bytes: byte `i` is the exclusive or of chunk `i`.
pub open spec fn folded(s: Seq<u8>, target: nat) -> Seq<u8> {
    Seq::new(target, |i: int| xor_sum(chunk(s, target, i)))
}

} // verus!
