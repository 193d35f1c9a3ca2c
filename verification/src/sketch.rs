//! The sketch itself: an owned byte buffer of fixed length and its operations.

use vstd::prelude::*;
use vstd::arithmetic::div_mod::lemma_fundamental_div_mod;
use crate::bits::count_ones;
use crate::laws::{
    lemma_inserted_all_len, lemma_inserted_all_push, lemma_weight_bound, lemma_weight_concat,
    lemma_weight_zero, lemma_zeros_is_empty,
};
use crate::model::{
    all_zero, bit_at, bit_len, chunk, foldable, folded, inserted, inserted_all, weight, xor_sum,
    xored, zeros,
};

verus! {

/// The recommended buffer length in bytes, which `Oddsketch::default` uses.
pub const DEFAULT_LEN: usize = 256;

/// Why an operation on sketches was refused. A refused operation has changed
/// nothing.
#[derive(Clone, Copy, Debug, PartialEq, Eq, Structural)]
pub enum SketchError {
    /// Two sketches of different lengths were to be combined.
    LengthMismatch,
    /// The length to fold to is zero, longer than the sketch, or does not
    /// divide the length of the sketch.
    InvalidTargetLength,
}

/// A cardinality sketch over a buffer whose length is fixed at construction.
pub struct Oddsketch {
    bytes: Vec<u8>,
}

impl View for Oddsketch {
    type V = Seq<u8>;

    /// The bytes of the buffer, in order.
    closed spec fn view(&self) -> Seq<u8> {
        self.bytes@
    }
}

impl Oddsketch {
    /// Adopts `raw` as the buffer of a sketch, byte for byte.
    pub fn new(raw: Vec<u8>) -> (sketch: Oddsketch)
        ensures
            sketch@ == raw@,
    {
        Oddsketch { bytes: raw }
    }

    /// An empty sketch of `length` bytes.
    pub fn with_length(length: usize) -> (sketch: Oddsketch)
        ensures
            sketch@ == zeros(length as nat),
            all_zero(sketch@),
            weight(sketch@) == 0,
    {
        let bytes: Vec<u8> = vec![0u8; length];
        proof {
            assert(bytes@ =~= zeros(length as nat));
            lemma_zeros_is_empty(length as nat);
        }
        Oddsketch { bytes }
    }

    /// The length of the buffer in bytes.
    pub fn len(&self) -> (length: usize)
        ensures
            length == self@.len(),
    {
        self.bytes.len()
    }

    /// The buffer, read-only.
    pub fn as_bytes(&self) -> (bytes: &[u8])
        ensures
            bytes@ == self@,
    {
        self.bytes.as_slice()
    }

    /// Inserts `short_id`: toggles bit `short_id % (8 * L)` of the buffer,
    /// `L` being its length in bytes. The buffer must not be empty.
    pub fn insert(&mut self, short_id: u64)
        requires
            old(self)@.len() > 0,
        ensures
            final(self)@ == inserted(old(self)@, short_id),
            final(self)@.len() == old(self)@.len(),
    {
        let bits: u128 = (self.bytes.len() as u128) * 8u128;
        let index: u128 = (short_id as u128) % bits;
        let at: usize = (index / 8u128) as usize;
        let shift: u8 = (index % 8u128) as u8;
        let flipped: u8 = self.bytes[at] ^ (1u8 << shift);
        self.bytes.set(at, flipped);
    }

    /// Inserts the short ids of `short_ids`, first to last. The buffer must
    /// not be empty, unless there is nothing to insert.
    pub fn insert_batch(&mut self, short_ids: &[u64])
        requires
            short_ids@.len() > 0 ==> old(self)@.len() > 0,
        ensures
            final(self)@ == inserted_all(old(self)@, short_ids@),
            final(self)@.len() == old(self)@.len(),
    {
        let ghost before = self@;
        proof {
            lemma_inserted_all_len(before, short_ids@);
        }
        let mut done: usize = 0;
        while done < short_ids.len()
            invariant
                done <= short_ids.len(),
                short_ids@.len() > 0 ==> before.len() > 0,
                self@ == inserted_all(before, short_ids@.take(done as int)),
            decreases short_ids.len() - done,
        {
            proof {
                let inserted_so_far = short_ids@.take(done as int);
                lemma_inserted_all_len(before, inserted_so_far);
                lemma_inserted_all_push(before, inserted_so_far, short_ids@[done as int]);
                assert(inserted_so_far.push(short_ids@[done as int]) =~= short_ids@.take(
                    done + 1,
                ));
            }
            self.insert(short_ids[done]);
            done += 1;
        }
        assert(short_ids@.take(done as int) =~= short_ids@);
    }

    /// Whether no bit of the buffer is set.
    pub fn is_empty(&self) -> (empty: bool)
        ensures
            empty == all_zero(self@),
            empty == (weight(self@) == 0),
    {
        let mut at: usize = 0;
        while at < self.bytes.len()
            invariant
                at <= self.bytes.len(),
                forall|i: int| 0 <= i < at ==> self@[i] == 0u8,
            decreases self.bytes.len() - at,
        {
            if self.bytes[at] != 0 {
                proof {
                    lemma_weight_zero(self@);
                }
                return false;
            }
            at += 1;
        }
        proof {
            lemma_weight_zero(self@);
        }
        true
    }

    /// The Hamming weight: the number of bits set in the buffer, which must
    /// not be more than a `u32` holds.
    pub fn hamming_weight(&self) -> (count: u32)
        requires
            weight(self@) <= u32::MAX,
        ensures
            count == weight(self@),
            count <= bit_len(self@),
    {
        self.checked_hamming_weight().unwrap()
    }

    /// The Hamming weight, or `None` where it is more than a `u32` holds.
    pub fn checked_hamming_weight(&self) -> (count: Option<u32>)
        ensures
            count == if weight(self@) <= u32::MAX {
                Some(weight(self@) as u32)
            } else {
                None
            },
            count matches Some(bits) ==> bits <= bit_len(self@),
    {
        let mut count: u32 = 0;
        let mut at: usize = 0;
        while at < self.bytes.len()
            invariant
                at <= self.bytes.len(),
                count == weight(self@.take(at as int)),
            decreases self.bytes.len() - at,
        {
            let ones: u32 = count_ones(self.bytes[at]);
            proof {
                let seen = self@.take(at + 1);
                assert(seen.drop_last() =~= self@.take(at as int));
                assert(seen + self@.skip(at + 1) =~= self@);
                lemma_weight_concat(seen, self@.skip(at + 1));
            }
            if ones > u32::MAX - count {
                return None;
            }
            count += ones;
            at += 1;
        }
        proof {
            assert(self@.take(at as int) =~= self@);
            lemma_weight_bound(self@);
        }
        Some(count)
    }

    /// The sketch of the symmetric difference: the bytewise exclusive or of
    /// two sketches of one length. Sketches of different lengths are
    /// refused.
    pub fn combine(&self, other: &Oddsketch) -> (out: Result<Oddsketch, SketchError>)
        ensures
            match out {
                Ok(sketch) => self@.len() == other@.len() && sketch@ == xored(self@, other@),
                Err(e) => self@.len() != other@.len() && e == SketchError::LengthMismatch,
            },
    {
        let len: usize = self.bytes.len();
        if other.bytes.len() != len {
            return Err(SketchError::LengthMismatch);
        }
        let mut bytes: Vec<u8> = Vec::with_capacity(len);
        let mut at: usize = 0;
        while at < len
            invariant
                at <= len,
                len == self@.len(),
                len == other@.len(),
                bytes@.len() == at,
                forall|i: int| 0 <= i < at ==> bytes@[i] == self@[i] ^ other@[i],
            decreases len - at,
        {
            bytes.push(self.bytes[at] ^ other.bytes[at]);
            at += 1;
        }
        assert(bytes@ =~= xored(self@, other@));
        Ok(Oddsketch { bytes })
    }

    /// Replaces this sketch by its combination with `other`, in place. A
    /// sketch of another length is refused, and this one stays as it is.
    pub fn combine_into(&mut self, other: &Oddsketch) -> (out: Result<(), SketchError>)
        ensures
            match out {
                Ok(_) => old(self)@.len() == other@.len() && final(self)@ == xored(
                    old(self)@,
                    other@,
                ),
                Err(e) => old(self)@.len() != other@.len() && e == SketchError::LengthMismatch
                    && final(self)@ == old(self)@,
            },
            final(self)@.len() == old(self)@.len(),
    {
        let ghost before = self@;
        let len: usize = self.bytes.len();
        if other.bytes.len() != len {
            return Err(SketchError::LengthMismatch);
        }
        let mut at: usize = 0;
        while at < len
            invariant
                at <= len,
                len == before.len(),
                len == other@.len(),
                self@.len() == len,
                forall|i: int| 0 <= i < at ==> self@[i] == before[i] ^ other@[i],
                forall|i: int| at <= i < len ==> self@[i] == before[i],
            decreases len - at,
        {
            let mixed: u8 = self.bytes[at] ^ other.bytes[at];
            self.bytes.set(at, mixed);
            at += 1;
        }
        assert(self@ =~= xored(before, other@));
        Ok(())
    }

    /// Folds the sketch to `size` bytes: cuts the buffer into `size` chunks
    /// of equal length and reduces each chunk to the exclusive or of its
    /// bytes. A `size` that is zero, longer than the buffer, or no divisor of
    /// its length is refused.
    pub fn fold(self, size: usize) -> (out: Result<Vec<u8>, SketchError>)
        ensures
            match out {
                Ok(bytes) => foldable(self@.len(), size as nat) && bytes@.len() == size
                    && bytes@ == folded(self@, size as nat),
                Err(e) => !foldable(self@.len(), size as nat) && e
                    == SketchError::InvalidTargetLength,
            },
    {
        let len: usize = self.bytes.len();
        if size == 0 || size > len || len % size != 0 {
            return Err(SketchError::InvalidTargetLength);
        }
        let width: usize = len / size;
        proof {
            lemma_fundamental_div_mod(len as int, size as int);
        }
        let mut bytes: Vec<u8> = Vec::with_capacity(size);
        let mut done: usize = 0;
        let mut start: usize = 0;
        while done < size
            invariant
                done <= size,
                len == self@.len(),
                len == size * width,
                width == self@.len() / (size as nat),
                start == done * width,
                bytes@.len() == done,
                forall|i: int|
                    0 <= i < done ==> bytes@[i] == xor_sum(chunk(self@, size as nat, i)),
            decreases size - done,
        {
            assert(start + width == (done + 1) * width && (done + 1) * width <= size * width)
                by (nonlinear_arith)
                requires
                    start == done * width,
                    done < size,
            ;
            let mut acc: u8 = 0;
            let mut taken: usize = 0;
            while taken < width
                invariant
                    taken <= width,
                    start + width <= len,
                    len == self@.len(),
                    acc == xor_sum(self@.subrange(start as int, start + taken)),
                decreases width - taken,
            {
                assert(self@.subrange(start as int, start + taken + 1).drop_last()
                    =~= self@.subrange(start as int, start + taken));
                acc = acc ^ self.bytes[start + taken];
                taken += 1;
            }
            bytes.push(acc);
            start += width;
            done += 1;
        }
        assert(bytes@ =~= folded(self@, size as nat));
        Ok(bytes)
    }

    /// Bit `index` of the buffer, bit 0 being the lowest bit of the first
    /// byte. The index must lie below `8 * L`.
    pub fn bit(&self, index: usize) -> (set: bool)
        requires
            index < bit_len(self@),
        ensures
            set == bit_at(self@, index as int),
    {
        let shift: u8 = (index % 8) as u8;
        (self.bytes[index / 8] >> shift) & 1u8 == 1u8
    }
}

impl Default for Oddsketch {
    /// An empty sketch of `DEFAULT_LEN` bytes.
    fn default() -> (sketch: Oddsketch)
        ensures
            sketch@ == zeros(DEFAULT_LEN as nat),
            all_zero(sketch@),
            weight(sketch@) == 0,
    {
        Oddsketch::with_length(DEFAULT_LEN)
    }
}

impl core::ops::BitXor for Oddsketch {
    type Output = Oddsketch;

    /// `a ^ b` is the combination of `a` and `b`, which must have one
    /// length.
    fn bitxor(self, rhs: Oddsketch) -> (out: Oddsketch)
        ensures
            out@ == xored(self@, rhs@),
    {
        self.combine(&rhs).unwrap()
    }
}

impl vstd::std_specs::ops::BitXorSpecImpl for Oddsketch {
    /// What `^` returns is stated on `bitxor`, over the views of the
    /// sketches, and not through `bitxor_spec`.
    open spec fn obeys_bitxor_spec() -> bool {
        false
    }

    /// `^` asks for two sketches of one length.
    open spec fn bitxor_req(self, rhs: Oddsketch) -> bool {
        self@.len() == rhs@.len()
    }

    open spec fn bitxor_spec(self, rhs: Oddsketch) -> Oddsketch {
        self
    }
}

impl core::ops::Deref for Oddsketch {
    type Target = Vec<u8>;

    /// The buffer, read-only.
    fn deref(&self) -> (bytes: &Vec<u8>)
        ensures
            bytes@ == self@,
    {
        &self.bytes
    }
}

impl Clone for Oddsketch {
    /// An independent sketch with the same buffer.
    fn clone(&self) -> (copy: Oddsketch)
        ensures
            copy@ == self@,
    {
        let bytes: Vec<u8> = self.bytes.clone();
        assert(bytes@ =~= self.bytes@);
        Oddsketch { bytes }
    }
}

} // verus!
