//! Decoding, classification and enumeration of IEEE-754-style binary
//! floating-point bit patterns with arbitrary exponent and mantissa widths.
//!
//! A float is a sign bit, an exponent field of `R` bits and a mantissa field
//! of `P` bits, each most significant bit first. The field widths are fixed at
//! construction and carried by the bit containers themselves. The crate owns
//! the bit-level parsing, the canonical rendering, the classification into
//! zero / infinity / NaN / (de)normalized number, and the enumeration of all
//! `2^(1 + R + P)` patterns of a configuration. The reconstruction of a
//! classified number's magnitude in machine floating point is left to callers,
//! which receive the exact integer field values instead.

use vstd::prelude::*;
use vstd::arithmetic::power2::{
    lemma_pow2_adds, lemma_pow2_pos, lemma_pow2_strictly_increases, lemma_pow2_unfold,
    lemma2_to64,
};
use vstd::arithmetic::div_mod::{lemma_fundamental_div_mod_converse, lemma_mod_breakdown};
use vstd::string::StringExecFns;

use crate::util::{
    bits_to_int, bits_value, char_of_bit, chars_of_bits, int_to_bits, lemma_bits_of_int_value,
    lemma_bits_value_bound, pow2, pow2_spec,
};
use crate::value::{classify, lemma_classify_total_exclusive};

pub mod parse;
pub mod small_float;
pub mod util;
pub mod value;

pub use parse::ParseError;
pub use value::Value;

verus! {

/// An IEEE-754-style floating point number: a sign bit, an exponent field and
/// a mantissa field, both most significant bit first. The field widths are
/// whatever the two containers hold; every width combination is a valid
/// configuration.
#[derive(Debug)]
pub struct Ieee754 {
    pub sign: bool,
    pub exp: Vec<bool>,
    pub mantissa: Vec<bool>,
}

impl Ieee754 {
    /// The number of digits of this float's format: one sign digit, then the
    /// exponent digits, then the mantissa digits.
    pub open spec fn spec_digits(&self) -> nat {
        1 + self.exp@.len() + self.mantissa@.len()
    }

    /// The exponent field read as an unsigned integer.
    pub open spec fn exp_value(&self) -> nat {
        bits_value(self.exp@)
    }

    /// The mantissa field read as an unsigned integer.
    pub open spec fn mantissa_value(&self) -> nat {
        bits_value(self.mantissa@)
    }

    /// The exponent bias of this float's format: `2^(R - 1) - 1`.
    pub open spec fn spec_bias(&self) -> nat {
        (pow2_spec((self.exp@.len() - 1) as nat) - 1) as nat
    }

    /// The largest value the exponent field can take: `2^R - 1`.
    pub open spec fn spec_max_exp(&self) -> nat {
        (pow2_spec(self.exp@.len()) - 1) as nat
    }

    /// The canonical textual rendering: the sign digit, then the exponent
    /// digits, then the mantissa digits, each '1' or '0', with no separators.
    pub open spec fn spec_render(&self) -> Seq<char> {
        seq![char_of_bit(self.sign)] + chars_of_bits(self.exp@) + chars_of_bits(self.mantissa@)
    }

    /// Construct a float number directly from its fields.
    pub fn new(sign: bool, exp: Vec<bool>, mantissa: Vec<bool>) -> (r: Self)
        ensures
            r.sign == sign,
            r.exp@ == exp@,
            r.mantissa@ == mantissa@,
    {
        Ieee754 { sign, exp, mantissa }
    }

    /// The number of digits of this float's format.
    pub fn digits(&self) -> (r: usize)
        requires
            self.spec_digits() <= usize::MAX,
        ensures
            r as nat == self.spec_digits(),
    {
        1 + self.exp.len() + self.mantissa.len()
    }

    /// Whether the sign bit is 1 (negative) or 0 (positive).
    pub fn sign(&self) -> (r: bool)
        ensures
            r == self.sign,
    {
        self.sign
    }

    /// The exponent field as an integer.
    pub fn exp(&self) -> (r: usize)
        requires
            self.exp_value() <= usize::MAX,
        ensures
            r as nat == self.exp_value(),
    {
        bits_to_int(&self.exp)
    }

    /// The mantissa field as an integer.
    pub fn mantissa(&self) -> (r: usize)
        requires
            self.mantissa_value() <= usize::MAX,
        ensures
            r as nat == self.mantissa_value(),
    {
        bits_to_int(&self.mantissa)
    }

    /// The exponent bias of this float's format.
    pub fn bias(&self) -> (r: usize)
        requires
            self.exp@.len() >= 1,
            pow2_spec((self.exp@.len() - 1) as nat) <= usize::MAX,
        ensures
            r as nat == self.spec_bias(),
    {
        proof {
            lemma_pow2_pos((self.exp@.len() - 1) as nat);
        }
        pow2(self.exp.len() - 1) - 1
    }

    /// The largest value the exponent field can take.
    pub fn max_exp(&self) -> (r: usize)
        requires
            pow2_spec(self.exp@.len()) <= usize::MAX,
        ensures
            r as nat == self.spec_max_exp(),
    {
        proof {
            lemma_pow2_pos(self.exp@.len());
        }
        pow2(self.exp.len()) - 1
    }

    /// Classify this float into a [`Value`], comparing the exponent field
    /// against 0 and its maximum and the mantissa field against 0, in the
    /// fixed precedence order zero, infinity, NaN, denormalized, normalized.
    pub fn evaluate(&self) -> (v: Value)
        requires
            pow2_spec(self.exp@.len()) <= usize::MAX,
            pow2_spec(self.mantissa@.len()) <= usize::MAX,
        ensures
            v == classify(self.sign, self.exp_value(), self.mantissa_value(), self.spec_max_exp()),
    {
        proof {
            lemma_bits_value_bound(self.exp@);
            lemma_bits_value_bound(self.mantissa@);
        }
        let e = self.exp();
        let m = self.mantissa();
        let max_e = self.max_exp();
        if e == 0 && m == 0 {
            if self.sign() {
                Value::NegativeZero
            } else {
                Value::PositiveZero
            }
        } else if e == max_e && m == 0 {
            if self.sign() {
                Value::NegativeInfinity
            } else {
                Value::PositiveInfinity
            }
        } else if e == max_e {
            Value::NaN
        } else if e == 0 {
            Value::Number { sign: self.sign, exponent: e, mantissa: m, denormalized: true }
        } else {
            Value::Number { sign: self.sign, exponent: e, mantissa: m, denormalized: false }
        }
    }

    /// The canonical textual rendering of this float, the exact inverse of
    /// parsing: the sign digit, then the exponent digits, then the mantissa
    /// digits, each '1' or '0', with no separators.
    pub fn render(&self) -> (s: String)
        ensures
            s@ == self.spec_render(),
    {
        proof {
            reveal_strlit("0");
            reveal_strlit("1");
        }
        let mut s = String::new();
        if self.sign {
            s.append("1");
        } else {
            s.append("0");
        }
        proof {
            assert(s@ =~= seq![char_of_bit(self.sign)] + chars_of_bits(self.exp@.take(0)));
        }
        let mut i: usize = 0;
        while i < self.exp.len()
            invariant
                i <= self.exp@.len(),
                s@ == seq![char_of_bit(self.sign)] + chars_of_bits(self.exp@.take(i as int)),
            decreases self.exp@.len() - i,
        {
            proof {
                reveal_strlit("0");
                reveal_strlit("1");
            }
            if self.exp[i] {
                s.append("1");
            } else {
                s.append("0");
            }
            proof {
                assert(s@ =~= seq![char_of_bit(self.sign)] + chars_of_bits(
                    self.exp@.take(i + 1),
                ));
            }
            i = i + 1;
        }
        proof {
            assert(self.exp@.take(self.exp@.len() as int) =~= self.exp@);
        }
        let mut j: usize = 0;
        while j < self.mantissa.len()
            invariant
                j <= self.mantissa@.len(),
                s@ == seq![char_of_bit(self.sign)] + chars_of_bits(self.exp@) + chars_of_bits(
                    self.mantissa@.take(j as int),
                ),
            decreases self.mantissa@.len() - j,
        {
            proof {
                reveal_strlit("0");
                reveal_strlit("1");
            }
            if self.mantissa[j] {
                s.append("1");
            } else {
                s.append("0");
            }
            proof {
                assert(s@ =~= seq![char_of_bit(self.sign)] + chars_of_bits(self.exp@)
                    + chars_of_bits(self.mantissa@.take(j + 1)));
            }
            j = j + 1;
        }
        proof {
            assert(self.mantissa@.take(self.mantissa@.len() as int) =~= self.mantissa@);
            assert(s@ =~= self.spec_render());
        }
        s
    }

    /// Generate every bit pattern of the configuration with `r` exponent and
    /// `p` mantissa digits, in the fixed nested order: positive sign before
    /// negative sign, exponent value ascending within a sign, mantissa value
    /// ascending within an exponent. Element `i` is therefore the pattern
    /// whose digits spell `i` in binary, and no two elements share a pattern.
    pub fn generate_all(r: usize, p: usize) -> (floats: Vec<Ieee754>)
        requires
            pow2_spec((1 + r + p) as nat) <= usize::MAX,
        ensures
            floats@.len() == pow2_spec((1 + r + p) as nat),
            forall|i: int|
                0 <= i < floats@.len() ==> {
                    let f = #[trigger] floats@[i];
                    &&& f.exp@.len() == r
                    &&& f.mantissa@.len() == p
                    &&& f.sign == (i >= pow2_spec((r + p) as nat))
                    &&& f.exp_value() == ((i as nat) / pow2_spec(p as nat)) % pow2_spec(r as nat)
                    &&& f.mantissa_value() == (i as nat) % pow2_spec(p as nat)
                },
            forall|i: int, j: int|
                0 <= i < floats@.len() && 0 <= j < floats@.len() && i != j
                    ==> #[trigger] floats@[i].sign != #[trigger] floats@[j].sign
                    || floats@[i].exp@ != floats@[j].exp@ || floats@[i].mantissa@
                    != floats@[j].mantissa@,
    {
        proof {
            lemma_pow2_strictly_increases(r as nat, (1 + r + p) as nat);
            lemma_pow2_strictly_increases(p as nat, (1 + r + p) as nat);
            lemma_pow2_unfold((1 + r + p) as nat);
        }
        let two_r = pow2(r);
        let two_p = pow2(p);
        let mut floats: Vec<Ieee754> = Vec::new();
        let mut s: usize = 0;
        while s < 2
            invariant
                s <= 2,
                two_r as nat == pow2_spec(r as nat),
                two_p as nat == pow2_spec(p as nat),
                floats@.len() == s as nat * pow2_spec((r + p) as nat),
                forall|i: int|
                    0 <= i < floats@.len() ==> {
                        let f = #[trigger] floats@[i];
                        &&& f.exp@.len() == r
                        &&& f.mantissa@.len() == p
                        &&& f.sign == (i >= pow2_spec((r + p) as nat))
                        &&& f.exp_value() == ((i as nat) / pow2_spec(p as nat)) % pow2_spec(
                            r as nat,
                        )
                        &&& f.mantissa_value() == (i as nat) % pow2_spec(p as nat)
                    },
            decreases 2 - s,
        {
            let mut e: usize = 0;
            while e < two_r
                invariant
                    s < 2,
                    e <= two_r,
                    two_r as nat == pow2_spec(r as nat),
                    two_p as nat == pow2_spec(p as nat),
                    floats@.len() == s as nat * pow2_spec((r + p) as nat) + e as nat * pow2_spec(
                        p as nat,
                    ),
                    forall|i: int|
                        0 <= i < floats@.len() ==> {
                            let f = #[trigger] floats@[i];
                            &&& f.exp@.len() == r
                            &&& f.mantissa@.len() == p
                            &&& f.sign == (i >= pow2_spec((r + p) as nat))
                            &&& f.exp_value() == ((i as nat) / pow2_spec(p as nat)) % pow2_spec(
                                r as nat,
                            )
                            &&& f.mantissa_value() == (i as nat) % pow2_spec(p as nat)
                        },
                decreases two_r - e,
            {
                let mut m: usize = 0;
                while m < two_p
                    invariant
                        s < 2,
                        e < two_r,
                        m <= two_p,
                        two_r as nat == pow2_spec(r as nat),
                        two_p as nat == pow2_spec(p as nat),
                        floats@.len() == s as nat * pow2_spec((r + p) as nat) + e as nat
                            * pow2_spec(p as nat) + m as nat,
                        forall|i: int|
                            0 <= i < floats@.len() ==> {
                                let f = #[trigger] floats@[i];
                                &&& f.exp@.len() == r
                                &&& f.mantissa@.len() == p
                                &&& f.sign == (i >= pow2_spec((r + p) as nat))
                                &&& f.exp_value() == ((i as nat) / pow2_spec(p as nat))
                                    % pow2_spec(r as nat)
                                &&& f.mantissa_value() == (i as nat) % pow2_spec(p as nat)
                            },
                    decreases two_p - m,
                {
                    let exp_bits = int_to_bits(e, r);
                    let man_bits = int_to_bits(m, p);
                    proof {
                        lemma_bits_of_int_value(e as nat, r as nat);
                        lemma_bits_of_int_value(m as nat, p as nat);
                        vstd::arithmetic::div_mod::lemma_small_mod(e as nat, pow2_spec(r as nat));
                        vstd::arithmetic::div_mod::lemma_small_mod(m as nat, pow2_spec(p as nat));
                        lemma_index_decompose(r as nat, p as nat, s as nat, e as nat, m as nat);
                    }
                    let f = Ieee754::new(s == 1, exp_bits, man_bits);
                    floats.push(f);
                    m = m + 1;
                }
                proof {
                    assert((e + 1) as nat * pow2_spec(p as nat) == e as nat * pow2_spec(p as nat)
                        + pow2_spec(p as nat)) by (nonlinear_arith);
                }
                e = e + 1;
            }
            proof {
                lemma_pow2_adds(r as nat, p as nat);
                assert((s + 1) as nat * pow2_spec((r + p) as nat) == s as nat * pow2_spec(
                    (r + p) as nat,
                ) + pow2_spec(r as nat) * pow2_spec(p as nat)) by (nonlinear_arith)
                    requires
                        pow2_spec((r + p) as nat) == pow2_spec(r as nat) * pow2_spec(p as nat),
                ;
            }
            s = s + 1;
        }
        proof {
            lemma_pow2_unfold((1 + r + p) as nat);
            assert(2 * pow2_spec((r + p) as nat) == pow2_spec((1 + r + p) as nat));
            lemma_generate_all_distinct(r as nat, p as nat, floats@);
        }
        floats
    }
}

/// An index below `2^(1 + r + p)`, written as `s * 2^(r + p) + e * 2^p + m`
/// with `s < 2`, `e < 2^r` and `m < 2^p`, hands its three digit groups back:
/// the sign selector, the exponent value and the mantissa value.
proof fn lemma_index_decompose(r: nat, p: nat, s: nat, e: nat, m: nat)
    requires
        s < 2,
        e < pow2_spec(r),
        m < pow2_spec(p),
    ensures
        ({
            let i = s * pow2_spec(r + p) + e * pow2_spec(p) + m;
            &&& i < pow2_spec(1 + r + p)
            &&& (i >= pow2_spec(r + p)) == (s == 1)
            &&& i / pow2_spec(p) % pow2_spec(r) == e
            &&& i % pow2_spec(p) == m
        }),
{
    let tp = pow2_spec(p);
    let tr = pow2_spec(r);
    let trp = pow2_spec(r + p);
    lemma_pow2_pos(p);
    lemma_pow2_pos(r);
    lemma_pow2_adds(r, p);
    lemma_pow2_unfold(1 + r + p);
    let i = s * trp + e * tp + m;
    assert(e * tp + m < trp) by (nonlinear_arith)
        requires
            e < tr,
            m < tp,
            0 < tp,
            trp == tr * tp,
    ;
    assert(s * trp == s * tr * tp) by (nonlinear_arith)
        requires
            trp == tr * tp,
    ;
    assert(i == (s * tr + e) * tp + m) by (nonlinear_arith)
        requires
            i == s * tr * tp + e * tp + m,
    ;
    lemma_fundamental_div_mod_converse(i as int, tp as int, (s * tr + e) as int, m as int);
    lemma_fundamental_div_mod_converse((s * tr + e) as int, tr as int, s as int, e as int);
    if s == 1 {
        assert(i >= trp);
    } else {
        assert(i == e * tp + m);
        assert(i < trp);
    }
    assert(s * trp + (e * tp + m) < 2 * trp);
}

/// Every index below `2^(1 + r + p)` is recovered exactly from its three
/// digit groups: the sign selector, the exponent value and the mantissa value.
proof fn lemma_index_recompose(r: nat, p: nat, i: int)
    requires
        0 <= i < pow2_spec(1 + r + p),
    ensures
        i == (if i >= pow2_spec(r + p) {
            1nat
        } else {
            0nat
        }) * pow2_spec(r + p) + ((i as nat) / pow2_spec(p) % pow2_spec(r)) * pow2_spec(p) + (
        i as nat) % pow2_spec(p),
{
    let tp = pow2_spec(p);
    let tr = pow2_spec(r);
    let trp = pow2_spec(r + p);
    lemma_pow2_pos(p);
    lemma_pow2_pos(r);
    lemma_pow2_pos(r + p);
    lemma_pow2_adds(r, p);
    lemma_pow2_unfold(1 + r + p);
    lemma_mod_breakdown(i, tp as int, tr as int);
    let sel: nat = if i >= trp {
        1nat
    } else {
        0nat
    };
    if i >= trp {
        lemma_fundamental_div_mod_converse(i, trp as int, 1, i - trp);
    } else {
        lemma_fundamental_div_mod_converse(i, trp as int, 0, i);
    }
    assert(i == sel * trp + i % (trp as int));
    assert(i % (trp as int) == (tp as int) * ((i / (tp as int)) % (tr as int)) + i % (tp as int))
        by {
        assert(trp as int == (tp as int) * (tr as int)) by (nonlinear_arith)
            requires
                trp == tr * tp,
        ;
    }
    let q: nat = (i as nat) / tp % tr;
    assert(q == (i / (tp as int)) % (tr as int));
    assert(q * tp == (tp as int) * ((i / (tp as int)) % (tr as int)));
    assert(i == sel * trp + q * tp + (i as nat) % tp);
}

/// Enumeration distinctness: a sequence with the shape that
/// [`Ieee754::generate_all`] guarantees — one element for each index below
/// `2^(1 + r + p)`, whose fields spell that index in binary — holds pairwise
/// distinct bit patterns: the enumeration has no duplicates.
pub proof fn lemma_generate_all_distinct(r: nat, p: nat, floats: Seq<Ieee754>)
    requires
        floats.len() == pow2_spec(1 + r + p),
        forall|i: int|
            0 <= i < floats.len() ==> {
                let f = #[trigger] floats[i];
                &&& f.exp@.len() == r
                &&& f.mantissa@.len() == p
                &&& f.sign == (i >= pow2_spec(r + p))
                &&& f.exp_value() == (i as nat) / pow2_spec(p) % pow2_spec(r)
                &&& f.mantissa_value() == (i as nat) % pow2_spec(p)
            },
    ensures
        forall|i: int, j: int|
            0 <= i < floats.len() && 0 <= j < floats.len() && i != j ==> floats[i].sign
                != floats[j].sign || floats[i].exp@ != floats[j].exp@ || floats[i].mantissa@
                != floats[j].mantissa@,
{
    assert forall|i: int, j: int|
        0 <= i < floats.len() && 0 <= j < floats.len() && i != j implies floats[i].sign
        != floats[j].sign || floats[i].exp@ != floats[j].exp@ || floats[i].mantissa@
        != floats[j].mantissa@ by {
        if floats[i].sign == floats[j].sign && floats[i].exp@ == floats[j].exp@
            && floats[i].mantissa@ == floats[j].mantissa@ {
            lemma_index_recompose(r, p, i);
            lemma_index_recompose(r, p, j);
            assert(false);
        }
    }
}

/// Enumeration completeness: a sequence with the shape that
/// [`Ieee754::generate_all`] guarantees contains every bit pattern of the
/// configuration — the enumeration has no omissions. Together with its
/// guaranteed length and [`lemma_generate_all_distinct`], it produces exactly
/// `2^(1 + r + p)` distinct elements, one per pattern.
pub proof fn lemma_generate_all_complete(r: nat, p: nat, floats: Seq<Ieee754>, f: Ieee754)
    requires
        floats.len() == pow2_spec(1 + r + p),
        forall|i: int|
            0 <= i < floats.len() ==> {
                let g = #[trigger] floats[i];
                &&& g.exp@.len() == r
                &&& g.mantissa@.len() == p
                &&& g.sign == (i >= pow2_spec(r + p))
                &&& g.exp_value() == (i as nat) / pow2_spec(p) % pow2_spec(r)
                &&& g.mantissa_value() == (i as nat) % pow2_spec(p)
            },
        f.exp@.len() == r,
        f.mantissa@.len() == p,
    ensures
        exists|i: int|
            0 <= i < floats.len() && #[trigger] floats[i].sign == f.sign && floats[i].exp@
                == f.exp@ && floats[i].mantissa@ == f.mantissa@,
{
    let e = bits_value(f.exp@);
    let m = bits_value(f.mantissa@);
    let s: nat = if f.sign {
        1nat
    } else {
        0nat
    };
    lemma_bits_value_bound(f.exp@);
    lemma_bits_value_bound(f.mantissa@);
    lemma_index_decompose(r, p, s, e, m);
    let i = (s * pow2_spec(r + p) + e * pow2_spec(p) + m) as int;
    assert(0 <= i < floats.len());
    assert(floats[i].sign == f.sign);
    crate::util::lemma_bits_value_injective(floats[i].exp@, f.exp@);
    crate::util::lemma_bits_value_injective(floats[i].mantissa@, f.mantissa@);
}

/// Classification totality and exclusivity over bit patterns: every float
/// with at least one exponent digit falls under exactly one of the five
/// classification branches.
pub proof fn lemma_classification_of_pattern(f: Ieee754)
    requires
        f.exp@.len() >= 1,
    ensures
        f.exp_value() <= f.spec_max_exp(),
        0 < f.spec_max_exp(),
        (if crate::value::branch_zero(f.exp_value(), f.mantissa_value(), f.spec_max_exp()) {
            1int
        } else {
            0int
        }) + (if crate::value::branch_infinity(
            f.exp_value(),
            f.mantissa_value(),
            f.spec_max_exp(),
        ) {
            1int
        } else {
            0int
        }) + (if crate::value::branch_nan(f.exp_value(), f.mantissa_value(), f.spec_max_exp()) {
            1int
        } else {
            0int
        }) + (if crate::value::branch_denormal(
            f.exp_value(),
            f.mantissa_value(),
            f.spec_max_exp(),
        ) {
            1int
        } else {
            0int
        }) + (if crate::value::branch_normal(f.exp_value(), f.mantissa_value(), f.spec_max_exp()) {
            1int
        } else {
            0int
        }) == 1,
{
    lemma_bits_value_bound(f.exp@);
    lemma_pow2_strictly_increases(0, f.exp@.len());
    lemma2_to64();
    lemma_classify_total_exclusive(
        f.sign,
        f.exp_value(),
        f.mantissa_value(),
        f.spec_max_exp(),
    );
}

} // verus!
