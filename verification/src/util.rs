//! Bit-vector utilities: conversion between a fixed-width, most-significant-bit-first
//! sequence of binary digits and an unsigned integer, and exponentiation of 2.

use vstd::prelude::*;
use vstd::arithmetic::power2::{
    lemma2_to64, lemma_pow2_pos, lemma_pow2_strictly_increases, lemma_pow2_unfold,
};
use vstd::arithmetic::div_mod::lemma_mod_breakdown;

verus! {

/// 2 to the power `n`, as a mathematical natural number.
pub open spec fn pow2_spec(n: nat) -> nat {
    vstd::arithmetic::power2::pow2(n)
}

/// The unsigned integer denoted by a sequence of binary digits,
/// most significant bit first (index 0 carries the highest power of two).
pub open spec fn bits_value(s: Seq<bool>) -> nat
    decreases s.len(),
{
    if s.len() == 0 {
        0
    } else {
        2 * bits_value(s.drop_last()) + (if s.last() {
            1nat
        } else {
            0nat
        })
    }
}

/// The `width`-digit binary representation of `n`, most significant bit first.
/// Bits of `n` above the `width` lowest are discarded.
pub open spec fn bits_of_int(n: nat, width: nat) -> Seq<bool>
    decreases width,
{
    if width == 0 {
        Seq::empty()
    } else {
        bits_of_int(n / 2, (width - 1) as nat).push(n % 2 == 1)
    }
}

/// The textual digit for one bit.
pub open spec fn char_of_bit(b: bool) -> char {
    if b {
        '1'
    } else {
        '0'
    }
}

/// A character that can stand for one bit.
pub open spec fn is_bit_char(c: char) -> bool {
    c == '0' || c == '1'
}

/// The bit denoted by one textual digit (any character other than '1' reads as false).
pub open spec fn bits_of_chars(s: Seq<char>) -> Seq<bool> {
    s.map_values(|c: char| c == '1')
}

/// The textual digits for a sequence of bits.
pub open spec fn chars_of_bits(s: Seq<bool>) -> Seq<char> {
    s.map_values(|b: bool| char_of_bit(b))
}

/// A bit sequence denotes a value below 2 to the power of its length.
pub proof fn lemma_bits_value_bound(s: Seq<bool>)
    ensures
        bits_value(s) < pow2_spec(s.len()),
    decreases s.len(),
{
    if s.len() == 0 {
        lemma2_to64();
    } else {
        lemma_bits_value_bound(s.drop_last());
        lemma_pow2_unfold(s.len());
    }
}

/// Prefixes of a bit sequence denote no more than the whole sequence does.
pub proof fn lemma_bits_value_prefix(s: Seq<bool>, i: int)
    requires
        0 <= i <= s.len(),
    ensures
        bits_value(s.take(i)) <= bits_value(s),
    decreases s.len() - i,
{
    if i == s.len() {
        assert(s.take(i) =~= s);
    } else {
        lemma_bits_value_prefix(s, i + 1);
        assert(s.take(i + 1).drop_last() =~= s.take(i));
        assert(s.take(i + 1).last() == s[i]);
    }
}

/// Two bit sequences of one length that denote the same value are equal.
pub proof fn lemma_bits_value_injective(a: Seq<bool>, b: Seq<bool>)
    requires
        a.len() == b.len(),
        bits_value(a) == bits_value(b),
    ensures
        a == b,
    decreases a.len(),
{
    if a.len() == 0 {
        assert(a =~= b);
    } else {
        assert(a.last() == b.last());
        lemma_bits_value_injective(a.drop_last(), b.drop_last());
        assert(a =~= a.drop_last().push(a.last()));
        assert(b =~= b.drop_last().push(b.last()));
    }
}

/// The binary representation of `n` has the requested width and denotes
/// `n` reduced modulo 2 to the power `width`.
pub proof fn lemma_bits_of_int_value(n: nat, width: nat)
    ensures
        bits_of_int(n, width).len() == width,
        bits_value(bits_of_int(n, width)) == n % pow2_spec(width),
    decreases width,
{
    lemma2_to64();
    if width == 0 {
        lemma_small_mod_auto(n);
    } else {
        lemma_bits_of_int_value(n / 2, (width - 1) as nat);
        let s = bits_of_int(n, width);
        assert(s.drop_last() =~= bits_of_int(n / 2, (width - 1) as nat));
        lemma_pow2_pos((width - 1) as nat);
        lemma_mod_breakdown(n as int, 2, pow2_spec((width - 1) as nat) as int);
        lemma_pow2_unfold(width);
    }
}

/// Reduction modulo 1 leaves nothing.
proof fn lemma_small_mod_auto(n: nat)
    ensures
        n % 1 == 0,
{
    assert(n % 1 == 0) by (nonlinear_arith);
}

/// 2 to the power `n`.
pub fn pow2(n: usize) -> (r: usize)
    requires
        pow2_spec(n as nat) <= usize::MAX,
    ensures
        r as nat == pow2_spec(n as nat),
{
    let mut r: usize = 1;
    let mut i: usize = 0;
    proof {
        lemma2_to64();
    }
    while i < n
        invariant
            i <= n,
            r as nat == pow2_spec(i as nat),
            pow2_spec(n as nat) <= usize::MAX,
        decreases n - i,
    {
        proof {
            lemma_pow2_unfold((i + 1) as nat);
            if i + 1 < n {
                lemma_pow2_strictly_increases((i + 1) as nat, n as nat);
            }
        }
        r = r * 2;
        i = i + 1;
    }
    r
}

/// The unsigned integer denoted by a sequence of binary digits, most significant bit first.
pub fn bits_to_int(bits: &Vec<bool>) -> (r: usize)
    requires
        bits_value(bits@) <= usize::MAX,
    ensures
        r as nat == bits_value(bits@),
{
    let mut r: usize = 0;
    let mut i: usize = 0;
    while i < bits.len()
        invariant
            i <= bits@.len(),
            r as nat == bits_value(bits@.take(i as int)),
            bits_value(bits@) <= usize::MAX,
        decreases bits@.len() - i,
    {
        proof {
            assert(bits@.take(i + 1).drop_last() =~= bits@.take(i as int));
            assert(bits@.take(i + 1).last() == bits@[i as int]);
            lemma_bits_value_prefix(bits@, i + 1);
        }
        r = 2 * r + (if bits[i] {
            1
        } else {
            0
        });
        i = i + 1;
    }
    proof {
        assert(bits@.take(bits@.len() as int) =~= bits@);
    }
    r
}

/// The `width`-digit binary representation of `n`, most significant bit first.
/// Bits of `n` above the `width` lowest are discarded.
pub fn int_to_bits(n: usize, width: usize) -> (r: Vec<bool>)
    ensures
        r@ == bits_of_int(n as nat, width as nat),
    decreases width,
{
    if width == 0 {
        Vec::new()
    } else {
        let mut r = int_to_bits(n / 2, width - 1);
        r.push(n % 2 == 1);
        proof {
            assert(r@ =~= bits_of_int(n as nat, width as nat));
        }
        r
    }
}

} // verus!
