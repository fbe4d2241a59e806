//! Parsing a float number from its textual bit-string form.

use vstd::prelude::*;
use vstd::string::StrSliceExecFns;

use crate::util::{bits_of_chars, char_of_bit, chars_of_bits, is_bit_char};
use crate::Ieee754;

verus! {

/// Why a bit string failed to parse.
#[derive(Debug, Clone, Copy, PartialEq, Eq, Structural)]
pub enum ParseError {
    /// No characters remain once spaces are removed.
    EmptyInput,
    /// The count of significant characters differs from the format's digit count.
    WrongLength { expected: usize, actual: usize },
    /// A significant character is neither '0' nor '1'; carries the first such
    /// character.
    InvalidDigit { found: char },
    /// Characters remain after all digits were consumed. Unreachable once the
    /// length check has passed; kept as a defensive part of the taxonomy.
    TrailingInput,
}

/// The significant characters of an input: everything but spaces, which are
/// ignored wherever they appear.
pub open spec fn significant(s: Seq<char>) -> Seq<char> {
    s.filter(|c: char| c != ' ')
}

/// Whether every character of the sequence is a binary digit.
pub open spec fn all_bit_chars(s: Seq<char>) -> bool {
    forall|i: int| 0 <= i < s.len() ==> is_bit_char(#[trigger] s[i])
}

/// The position of the first character that is not a binary digit (the
/// sequence's length when every character is one).
pub open spec fn first_invalid(s: Seq<char>) -> int
    decreases s.len(),
{
    if s.len() == 0 {
        0
    } else if !is_bit_char(s[0]) {
        0
    } else {
        1 + first_invalid(s.drop_first())
    }
}

/// A position with only binary digits before it and none at it is the first
/// invalid one.
proof fn lemma_first_invalid_at(s: Seq<char>, j: int)
    requires
        0 <= j < s.len(),
        !is_bit_char(s[j]),
        forall|k: int| 0 <= k < j ==> is_bit_char(#[trigger] s[k]),
    ensures
        first_invalid(s) == j,
    decreases j,
{
    if j == 0 {
    } else {
        assert(is_bit_char(s[0]));
        assert forall|k: int| 0 <= k < j - 1 implies is_bit_char(#[trigger] s.drop_first()[k]) by {
            assert(s.drop_first()[k] == s[k + 1]);
        }
        assert(s.drop_first()[j - 1] == s[j]);
        lemma_first_invalid_at(s.drop_first(), j - 1);
    }
}

/// Removing spaces from a sequence without spaces changes nothing.
proof fn lemma_significant_identity(s: Seq<char>)
    requires
        forall|i: int| 0 <= i < s.len() ==> #[trigger] s[i] != ' ',
    ensures
        significant(s) == s,
    decreases s.len(),
{
    reveal_with_fuel(Seq::<_>::filter, 1);
    if s.len() == 0 {
        assert(significant(s) =~= s);
    } else {
        assert forall|i: int| 0 <= i < s.len() - 1 implies #[trigger] s.drop_last()[i] != ' ' by {
            assert(s.drop_last()[i] == s[i]);
        }
        lemma_significant_identity(s.drop_last());
        assert(significant(s) =~= s);
    }
}

/// The first character that is not a binary digit, if any.
fn find_invalid(chars: &Vec<char>) -> (r: Option<char>)
    ensures
        match r {
            None => all_bit_chars(chars@),
            Some(c) => !all_bit_chars(chars@) && 0 <= first_invalid(chars@) < chars@.len() && c
                == chars@[first_invalid(chars@)],
        },
{
    let mut j: usize = 0;
    while j < chars.len()
        invariant
            j <= chars@.len(),
            forall|k: int| 0 <= k < j ==> is_bit_char(#[trigger] chars@[k]),
        decreases chars@.len() - j,
    {
        let c = chars[j];
        if !(c == '0' || c == '1') {
            proof {
                lemma_first_invalid_at(chars@, j as int);
            }
            return Some(c);
        }
        j = j + 1;
    }
    None
}

impl Ieee754 {
    /// Parse a float number with `r` exponent and `p` mantissa digits from a
    /// bit string. Spaces are ignored wherever they appear. Of the remaining
    /// characters, the first is the sign digit, the next `r` the exponent
    /// digits and the last `p` the mantissa digits, most significant first.
    /// Fails when nothing remains, when the count of remaining characters is
    /// not `1 + r + p`, or when any remaining character is not a binary
    /// digit — reporting the first such character.
    pub fn parse(input: &str, r: usize, p: usize) -> (res: Result<Ieee754, ParseError>)
        requires
            r + p < usize::MAX,
        ensures
            ({
                let sig = significant(input@);
                let digits = 1 + r + p;
                match res {
                    Ok(f) => sig.len() == digits && all_bit_chars(sig) && f.sign == (sig[0] == '1')
                        && f.exp@ == bits_of_chars(sig.subrange(1, 1 + r as int)) && f.mantissa@
                        == bits_of_chars(sig.subrange(1 + r as int, digits as int)),
                    Err(ParseError::EmptyInput) => sig.len() == 0,
                    Err(ParseError::WrongLength { expected, actual }) => sig.len() != 0 && sig.len()
                        != digits && expected == digits && actual == sig.len(),
                    Err(ParseError::InvalidDigit { found }) => sig.len() == digits
                        && !all_bit_chars(sig) && found == sig[first_invalid(sig)],
                    Err(ParseError::TrailingInput) => false,
                }
            }),
    {
        let n = input.unicode_len();
        let mut chars: Vec<char> = Vec::new();
        let mut i: usize = 0;
        while i < n
            invariant
                i <= n,
                n as nat == input@.len(),
                chars@ == significant(input@.take(i as int)),
            decreases n - i,
        {
            let c = input.get_char(i);
            if c != ' ' {
                chars.push(c);
            }
            proof {
                reveal_with_fuel(Seq::<_>::filter, 2);
                assert(input@.take(i + 1) =~= input@.take(i as int) + seq![c]);
                Seq::filter_distributes_over_add(
                    input@.take(i as int),
                    seq![c],
                    |c: char| c != ' ',
                );
                assert(seq![c].drop_last() =~= Seq::<char>::empty());
                assert(chars@ =~= significant(input@.take(i + 1)));
            }
            i = i + 1;
        }
        proof {
            assert(input@.take(n as int) =~= input@);
        }
        let count = chars.len();
        if count == 0 {
            return Err(ParseError::EmptyInput);
        }
        let digits = 1 + r + p;
        if count != digits {
            return Err(ParseError::WrongLength { expected: digits, actual: count });
        }
        match find_invalid(&chars) {
            Some(c) => {
                return Err(ParseError::InvalidDigit { found: c });
            },
            None => {},
        }
        let sign = chars[0] == '1';
        let mut exp: Vec<bool> = Vec::new();
        let mut k: usize = 0;
        while k < r
            invariant
                k <= r,
                chars@.len() == 1 + r + p,
                r + p < usize::MAX,
                exp@ == bits_of_chars(chars@.subrange(1, 1 + k as int)),
            decreases r - k,
        {
            exp.push(chars[1 + k] == '1');
            proof {
                assert(chars@.subrange(1, 1 + (k + 1)) =~= chars@.subrange(1, 1 + k as int).push(
                    chars@[1 + k as int],
                ));
                assert(exp@ =~= bits_of_chars(chars@.subrange(1, 1 + (k + 1))));
            }
            k = k + 1;
        }
        let mut mantissa: Vec<bool> = Vec::new();
        let mut l: usize = 0;
        while l < p
            invariant
                l <= p,
                chars@.len() == 1 + r + p,
                r + p < usize::MAX,
                mantissa@ == bits_of_chars(
                    chars@.subrange(1 + r as int, 1 + r as int + l as int),
                ),
            decreases p - l,
        {
            mantissa.push(chars[1 + r + l] == '1');
            proof {
                assert(chars@.subrange(1 + r as int, 1 + r as int + (l + 1)) =~= chars@.subrange(
                    1 + r as int,
                    1 + r as int + l as int,
                ).push(chars@[1 + r as int + l as int]));
                assert(mantissa@ =~= bits_of_chars(
                    chars@.subrange(1 + r as int, 1 + r as int + (l + 1)),
                ));
            }
            l = l + 1;
        }
        Ok(Ieee754 { sign, exp, mantissa })
    }
}

/// Round-trip law: the canonical rendering of a float is itself a valid parse
/// input for the float's own configuration — it contains no spaces, has
/// exactly `1 + r + p` characters, all of them binary digits — and its digit
/// groups read back as exactly the float's fields. With the contract of
/// [`Ieee754::parse`], parsing the rendering of any float therefore succeeds
/// and returns a float with identical fields, whose rendering is identical.
#[verifier::rlimit(50)]
pub proof fn lemma_render_parse_round_trip(f: Ieee754, r: nat, p: nat)
    requires
        f.exp@.len() == r,
        f.mantissa@.len() == p,
    ensures
        significant(f.spec_render()) == f.spec_render(),
        f.spec_render().len() == 1 + r + p,
        all_bit_chars(f.spec_render()),
        (f.spec_render()[0] == '1') == f.sign,
        bits_of_chars(f.spec_render().subrange(1, 1 + r as int)) == f.exp@,
        bits_of_chars(f.spec_render().subrange(1 + r as int, (1 + r + p) as int)) == f.mantissa@,
{
    let s = f.spec_render();
    assert(s.len() == 1 + r + p);
    assert(s[0] == char_of_bit(f.sign));
    assert forall|i: int| 0 <= i < s.len() implies is_bit_char(#[trigger] s[i]) by {
        if 1 <= i < 1 + r {
            assert(s[i] == chars_of_bits(f.exp@)[i - 1]);
        } else if 1 + r <= i {
            assert(s[i] == chars_of_bits(f.mantissa@)[i - 1 - r]);
        }
    }
    assert forall|i: int| 0 <= i < s.len() implies #[trigger] s[i] != ' ' by {
        assert(is_bit_char(s[i]));
    }
    lemma_significant_identity(s);
    assert(bits_of_chars(s.subrange(1, 1 + r as int)) =~= f.exp@) by {
        assert forall|i: int| 0 <= i < r implies bits_of_chars(s.subrange(1, 1 + r as int))[i]
            == f.exp@[i] by {
            assert(s.subrange(1, 1 + r as int)[i] == s[1 + i]);
            assert(s[1 + i] == chars_of_bits(f.exp@)[i]);
        }
    }
    assert(bits_of_chars(s.subrange(1 + r as int, (1 + r + p) as int)) =~= f.mantissa@) by {
        assert forall|i: int|
            0 <= i < p implies bits_of_chars(
            s.subrange(1 + r as int, (1 + r + p) as int),
        )[i] == f.mantissa@[i] by {
            assert(s.subrange(1 + r as int, (1 + r + p) as int)[i] == s[1 + r + i]);
            assert(s[1 + r + i] == chars_of_bits(f.mantissa@)[i]);
        }
    }
}

} // verus!
