//! The small 7-digit preset configuration: 3 exponent and 3 mantissa digits.

use vstd::prelude::*;
use vstd::arithmetic::power2::lemma2_to64;

use crate::Ieee754;

verus! {

/// The 7-digit float format with 3 exponent digits and 3 mantissa digits.
pub struct SmallFloat;

impl SmallFloat {
    /// Generate all 128 bit patterns of the 7-digit configuration, positive
    /// sign first, exponent value ascending within a sign, mantissa value
    /// ascending within an exponent: element `i` is the pattern whose seven
    /// digits spell `i` in binary.
    pub fn generate_all() -> (floats: Vec<Ieee754>)
        ensures
            floats@.len() == 128,
            forall|i: int|
                0 <= i < 128 ==> {
                    let f = #[trigger] floats@[i];
                    &&& f.exp@.len() == 3
                    &&& f.mantissa@.len() == 3
                    &&& f.sign == (i >= 64)
                    &&& f.exp_value() == (i as nat) / 8 % 8
                    &&& f.mantissa_value() == (i as nat) % 8
                },
    {
        proof {
            lemma2_to64();
        }
        Ieee754::generate_all(3, 3)
    }
}

} // verus!
