//! The classification result of a decoded float and the classification rules.

use vstd::prelude::*;

verus! {

/// The semantic meaning of a decoded float: an ordinary number, a signed
/// zero, a signed infinity, or NaN. An ordinary number carries its exact
/// field values — the sign, the exponent field and the mantissa field read as
/// integers — together with whether it is denormalized; its magnitude is
/// `(1 + mantissa / 2^P) * 2^(exponent - bias)` when normalized and
/// `(mantissa / 2^P) * 2^(1 - bias)` when denormalized.
#[derive(Debug, Clone, Copy, PartialEq, Eq, Structural)]
pub enum Value {
    NaN,
    NegativeZero,
    PositiveZero,
    Number { sign: bool, exponent: usize, mantissa: usize, denormalized: bool },
    NegativeInfinity,
    PositiveInfinity,
}

impl Value {
    /// Whether this value is NaN.
    pub fn is_nan(&self) -> (r: bool)
        ensures
            r == (*self == Value::NaN),
    {
        match self {
            Value::NaN => true,
            _ => false,
        }
    }

    /// Whether this value is an ordinary number and denormalized.
    pub fn is_denormalized(&self) -> (r: bool)
        ensures
            r == (self matches Value::Number { denormalized: true, .. }),
    {
        match self {
            Value::Number { denormalized, .. } => *denormalized,
            _ => false,
        }
    }
}

/// Classification of a bit pattern from its field values: the exponent field
/// `e`, the mantissa field `m` and the largest exponent field value `max_e`
/// of the configuration. The branches are tested in this precedence order:
/// zero, infinity, NaN, denormalized number, normalized number.
pub open spec fn classify(sign: bool, e: nat, m: nat, max_e: nat) -> Value {
    if e == 0 && m == 0 {
        if sign {
            Value::NegativeZero
        } else {
            Value::PositiveZero
        }
    } else if e == max_e && m == 0 {
        if sign {
            Value::NegativeInfinity
        } else {
            Value::PositiveInfinity
        }
    } else if e == max_e {
        Value::NaN
    } else if e == 0 {
        Value::Number { sign, exponent: e as usize, mantissa: m as usize, denormalized: true }
    } else {
        Value::Number { sign, exponent: e as usize, mantissa: m as usize, denormalized: false }
    }
}

/// The signed-zero branch: exponent and mantissa fields are both zero.
pub open spec fn branch_zero(e: nat, m: nat, max_e: nat) -> bool {
    e == 0 && m == 0
}

/// The signed-infinity branch: the exponent field is at its maximum and the
/// mantissa field is zero.
pub open spec fn branch_infinity(e: nat, m: nat, max_e: nat) -> bool {
    e == max_e && m == 0
}

/// The NaN branch: the exponent field is at its maximum and the mantissa
/// field is nonzero.
pub open spec fn branch_nan(e: nat, m: nat, max_e: nat) -> bool {
    e == max_e && m != 0
}

/// The denormalized-number branch: the exponent field is zero and the
/// mantissa field is nonzero.
pub open spec fn branch_denormal(e: nat, m: nat, max_e: nat) -> bool {
    e == 0 && m != 0
}

/// The normalized-number branch: the exponent field is strictly between zero
/// and its maximum.
pub open spec fn branch_normal(e: nat, m: nat, max_e: nat) -> bool {
    0 < e < max_e
}

/// Classification totality and exclusivity: for any field values a bit
/// pattern can take (`e <= max_e`) in a configuration with at least one
/// exponent digit (`0 < max_e`), exactly one of the five classification
/// branches applies, and [`classify`] returns that branch's result.
pub proof fn lemma_classify_total_exclusive(sign: bool, e: nat, m: nat, max_e: nat)
    requires
        e <= max_e,
        0 < max_e,
    ensures
        (if branch_zero(e, m, max_e) {
            1int
        } else {
            0int
        }) + (if branch_infinity(e, m, max_e) {
            1int
        } else {
            0int
        }) + (if branch_nan(e, m, max_e) {
            1int
        } else {
            0int
        }) + (if branch_denormal(e, m, max_e) {
            1int
        } else {
            0int
        }) + (if branch_normal(e, m, max_e) {
            1int
        } else {
            0int
        }) == 1,
        branch_zero(e, m, max_e) ==> classify(sign, e, m, max_e) == (if sign {
            Value::NegativeZero
        } else {
            Value::PositiveZero
        }),
        branch_infinity(e, m, max_e) ==> classify(sign, e, m, max_e) == (if sign {
            Value::NegativeInfinity
        } else {
            Value::PositiveInfinity
        }),
        branch_nan(e, m, max_e) ==> classify(sign, e, m, max_e) == Value::NaN,
        branch_denormal(e, m, max_e) ==> classify(sign, e, m, max_e) == (Value::Number {
            sign,
            exponent: 0,
            mantissa: m as usize,
            denormalized: true,
        }),
        branch_normal(e, m, max_e) ==> classify(sign, e, m, max_e) == (Value::Number {
            sign,
            exponent: e as usize,
            mantissa: m as usize,
            denormalized: false,
        }),
{
}

} // verus!
