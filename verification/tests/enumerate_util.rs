use ieee754::small_float::SmallFloat;
use ieee754::util::{bits_to_int, int_to_bits, pow2};
use ieee754::{Ieee754, Value};

#[test]
fn pow2_values() {
    assert_eq!(pow2(0), 1);
    assert_eq!(pow2(1), 2);
    assert_eq!(pow2(7), 128);
    assert_eq!(pow2(10), 1024);
}

#[test]
fn bits_to_int_msb_first() {
    assert_eq!(bits_to_int(&vec![]), 0);
    assert_eq!(bits_to_int(&vec![true]), 1);
    assert_eq!(bits_to_int(&vec![true, false, true]), 5);
    assert_eq!(bits_to_int(&vec![false, true, true, true]), 7);
    assert_eq!(bits_to_int(&vec![true, true, true]), 7);
}

#[test]
fn int_to_bits_msb_first() {
    assert_eq!(int_to_bits(5, 3), vec![true, false, true]);
    assert_eq!(int_to_bits(0, 3), vec![false, false, false]);
    assert_eq!(int_to_bits(1, 4), vec![false, false, false, true]);
}

#[test]
fn int_to_bits_truncates_high_bits() {
    // 13 is 1101 in binary; only the low 3 digits are kept.
    assert_eq!(int_to_bits(13, 3), vec![true, false, true]);
    assert_eq!(int_to_bits(8, 3), vec![false, false, false]);
}

#[test]
fn bits_round_trip() {
    for x in 0..256 {
        assert_eq!(bits_to_int(&int_to_bits(x, 8)), x);
    }
}

#[test]
fn accessor_values() {
    let f = Ieee754::new(false, vec![false, false, false], vec![false, false, false]);
    assert_eq!(f.digits(), 7);
    assert_eq!(f.bias(), 3);
    assert_eq!(f.max_exp(), 7);
}

#[test]
fn generate_all_cardinality_and_order() {
    let floats = Ieee754::generate_all(3, 3);
    assert_eq!(floats.len(), 128);
    for (i, f) in floats.iter().enumerate() {
        let mut expected = String::new();
        for k in 0..7 {
            expected.push(if (i >> (6 - k)) & 1 == 1 { '1' } else { '0' });
        }
        assert_eq!(f.render(), expected);
    }
}

#[test]
fn generate_all_no_duplicates() {
    let floats = Ieee754::generate_all(2, 2);
    assert_eq!(floats.len(), 32);
    let renders: Vec<String> = floats.iter().map(|f| f.render()).collect();
    for i in 0..renders.len() {
        for j in 0..renders.len() {
            if i != j {
                assert_ne!(renders[i], renders[j]);
            }
        }
    }
}

#[test]
fn small_float_matches_generic_enumeration() {
    let small = SmallFloat::generate_all();
    let generic = Ieee754::generate_all(3, 3);
    assert_eq!(small.len(), generic.len());
    for (a, b) in small.iter().zip(generic.iter()) {
        assert_eq!(a.render(), b.render());
    }
}

#[test]
fn classification_covers_every_pattern_once() {
    // Every one of the 128 patterns falls under exactly one classification.
    let mut nan = 0;
    let mut zero = 0;
    let mut infinity = 0;
    let mut denormal = 0;
    let mut normal = 0;
    for f in SmallFloat::generate_all() {
        match f.evaluate() {
            Value::NaN => nan += 1,
            Value::NegativeZero | Value::PositiveZero => zero += 1,
            Value::NegativeInfinity | Value::PositiveInfinity => infinity += 1,
            Value::Number { denormalized: true, .. } => denormal += 1,
            Value::Number { denormalized: false, .. } => normal += 1,
        }
    }
    // 2 signs * 7 nonzero mantissas with the maximum exponent are NaN.
    assert_eq!(nan, 14);
    assert_eq!(zero, 2);
    assert_eq!(infinity, 2);
    // 2 signs * 7 nonzero mantissas with a zero exponent are denormalized.
    assert_eq!(denormal, 14);
    // 2 signs * 6 middle exponents * 8 mantissas.
    assert_eq!(normal, 96);
    assert_eq!(nan + zero + infinity + denormal + normal, 128);
}

#[test]
fn is_nan_discriminates() {
    assert!(Value::NaN.is_nan());
    assert!(!Value::PositiveZero.is_nan());
    assert!(!Value::NegativeInfinity.is_nan());
    assert!(
        !Value::Number { sign: false, exponent: 1, mantissa: 0, denormalized: false }.is_nan()
    );
}
