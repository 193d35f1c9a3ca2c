//! The part of cardinality estimation that is decided on integers: whether a
//! weight lies where the estimators' logarithm is defined, and what is
//! reported where it does not.
//!
//! Both estimators invert `w / m = (1 - (1 - 2 / m)^n) / 2` for the number
//! `n` of insertions, `m` being the number of bits and `w` the weight. Both
//! take the logarithm of `1 - 2 * w / m`, which is defined for `2 * w < m`.

use vstd::prelude::*;
use crate::laws::{lemma_weight_after_batch, lemma_zeros_is_empty};
use crate::model::{bit_len, inserted_all, weight, zeros};

verus! {

/// The estimate that stands for "beyond what this sketch can measure".
pub const SATURATED: u32 = 0xffff_ffff;

/// Where a weight stands with respect to the estimators.
#[derive(Clone, Copy, Debug, PartialEq, Eq, Structural)]
pub enum Regime {
    /// No bit is set: the estimate is 0.
    Vacant,
    /// Some bits are set, fewer than half: the estimators' formulas
    /// apply.
    Measurable,
    /// Half of the bits or more are set: the estimate is `SATURATED`.
    Saturated,
}

/// The regime of a weight of `weight` set bits among `bits` bits.
pub open spec fn regime_of(weight: nat, bits: nat) -> Regime {
    if weight == 0 {
        Regime::Vacant
    } else if 2 * weight >= bits {
        Regime::Saturated
    } else {
        Regime::Measurable
    }
}

/// What a regime settles without a formula: 0 for the vacant sketch, the
/// sentinel for the saturated one, nothing in between.
pub open spec fn settled_estimate(regime: Regime) -> Option<u32> {
    match regime {
        Regime::Vacant => Some(0u32),
        Regime::Measurable => None,
        Regime::Saturated => Some(SATURATED),
    }
}

impl Regime {
    /// The regime of a sketch of `length` bytes with `weight` bits set.
    pub fn of(weight: u32, length: usize) -> (regime: Regime)
        ensures
            regime == regime_of(weight as nat, 8 * (length as nat)),
    {
        let bits: u128 = 8u128 * (length as u128);
        if weight == 0 {
            Regime::Vacant
        } else if 2u128 * (weight as u128) >= bits {
            Regime::Saturated
        } else {
            Regime::Measurable
        }
    }

    /// The estimate, where the regime settles it.
    pub fn settled(self) -> (estimate: Option<u32>)
        ensures
            estimate == settled_estimate(self),
    {
        match self {
            Regime::Vacant => Some(0),
            Regime::Measurable => None,
            Regime::Saturated => Some(SATURATED),
        }
    }
}

/// In the measurable regime both logarithms are taken of a number strictly
/// between 0 and 1: `1 - 2 * w / m` and `1 - 2 / m`, written here as
/// fractions of integers over `m`.
pub proof fn lemma_measurable_logarithms_defined(weight: nat, bits: nat)
    requires
        regime_of(weight, bits) == Regime::Measurable,
    ensures
        0 < bits - 2 * weight < bits,
        0 < bits - 2 < bits,
{
}

/// A sketch into which fewer short ids were inserted than half the number
/// of its bits is not saturated.
pub proof fn lemma_few_insertions_do_not_saturate(len: nat, ids: Seq<u64>)
    requires
        2 * ids.len() < 8 * len,
    ensures
        regime_of(weight(inserted_all(zeros(len), ids)), bit_len(zeros(len)))
            != Regime::Saturated,
{
    lemma_zeros_is_empty(len);
    lemma_weight_after_batch(zeros(len), ids);
}

} // verus!
