use ieee754::{Ieee754, ParseError, Value};

#[test]
fn parse_positive_zero() {
    let f = Ieee754::parse("0000000", 3, 3).unwrap();
    assert!(!f.sign());
    assert_eq!(f.exp(), 0);
    assert_eq!(f.mantissa(), 0);
    assert_eq!(f.evaluate(), Value::PositiveZero);
}

#[test]
fn parse_negative_zero() {
    let f = Ieee754::parse("1000000", 3, 3).unwrap();
    assert!(f.sign());
    assert_eq!(f.evaluate(), Value::NegativeZero);
}

#[test]
fn parse_positive_infinity() {
    let f = Ieee754::parse("0111000", 3, 3).unwrap();
    assert_eq!(f.exp(), 7);
    assert_eq!(f.mantissa(), 0);
    assert_eq!(f.evaluate(), Value::PositiveInfinity);
}

#[test]
fn parse_negative_infinity() {
    let f = Ieee754::parse("1111000", 3, 3).unwrap();
    assert_eq!(f.evaluate(), Value::NegativeInfinity);
}

#[test]
fn parse_nan() {
    let f = Ieee754::parse("0111001", 3, 3).unwrap();
    assert_eq!(f.evaluate(), Value::NaN);
    assert!(f.evaluate().is_nan());
}

#[test]
fn parse_denormalized() {
    let f = Ieee754::parse("0000100", 3, 3).unwrap();
    let v = f.evaluate();
    assert_eq!(
        v,
        Value::Number { sign: false, exponent: 0, mantissa: 4, denormalized: true }
    );
    assert!(v.is_denormalized());
    // Magnitude reconstruction from the exact field values:
    // (mantissa / 2^P) * 2^(1 - bias) = (4/8) * 2^(1-3) = 0.125.
    let magnitude = (4.0_f32 / 8.0_f32) * 2.0_f32.powi(1 - f.bias() as i32);
    assert_eq!(magnitude, 0.125_f32);
}

#[test]
fn parse_normalized() {
    let f = Ieee754::parse("0100000", 3, 3).unwrap();
    let v = f.evaluate();
    assert_eq!(
        v,
        Value::Number { sign: false, exponent: 4, mantissa: 0, denormalized: false }
    );
    assert!(!v.is_denormalized());
    // (1 + mantissa / 2^P) * 2^(exponent - bias) = 1 * 2^(4-3) = 2.0.
    let magnitude = (1.0_f32 + 0.0_f32 / 8.0_f32) * 2.0_f32.powi(4 - f.bias() as i32);
    assert_eq!(magnitude, 2.0_f32);
}

#[test]
fn parse_wrong_length() {
    let err = Ieee754::parse("00100", 3, 3).unwrap_err();
    assert_eq!(err, ParseError::WrongLength { expected: 7, actual: 5 });
}

#[test]
fn parse_wrong_length_too_long() {
    let err = Ieee754::parse("00000000", 3, 3).unwrap_err();
    assert_eq!(err, ParseError::WrongLength { expected: 7, actual: 8 });
}

#[test]
fn parse_empty() {
    assert_eq!(Ieee754::parse("", 3, 3).unwrap_err(), ParseError::EmptyInput);
}

#[test]
fn parse_only_spaces_is_empty() {
    assert_eq!(Ieee754::parse("    ", 3, 3).unwrap_err(), ParseError::EmptyInput);
}

#[test]
fn parse_invalid_digit_middle() {
    let err = Ieee754::parse("0a11000", 3, 3).unwrap_err();
    assert_eq!(err, ParseError::InvalidDigit { found: 'a' });
}

#[test]
fn parse_invalid_digit_sign_position() {
    let err = Ieee754::parse("x000000", 3, 3).unwrap_err();
    assert_eq!(err, ParseError::InvalidDigit { found: 'x' });
}

#[test]
fn parse_invalid_digit_reports_first() {
    let err = Ieee754::parse("0120300", 3, 3).unwrap_err();
    assert_eq!(err, ParseError::InvalidDigit { found: '2' });
}

#[test]
fn parse_length_checked_before_digits() {
    // Too short and with a bad digit: the length failure wins.
    let err = Ieee754::parse("0a100", 3, 3).unwrap_err();
    assert_eq!(err, ParseError::WrongLength { expected: 7, actual: 5 });
}

#[test]
fn parse_ignores_spaces_anywhere() {
    let f = Ieee754::parse(" 0 111 00 0 ", 3, 3).unwrap();
    assert_eq!(f.evaluate(), Value::PositiveInfinity);
    assert_eq!(f.render(), "0111000");
}

#[test]
fn parse_single_precision_one() {
    let f = Ieee754::parse("00111111100000000000000000000000", 8, 23).unwrap();
    let v = f.evaluate();
    assert_eq!(
        v,
        Value::Number { sign: false, exponent: 127, mantissa: 0, denormalized: false }
    );
    assert_eq!(f.bias(), 127);
    let magnitude =
        (1.0_f32 + 0.0_f32 / 2.0_f32.powi(23)) * 2.0_f32.powi(127 - f.bias() as i32);
    assert_eq!(magnitude, 1.0_f32);
}

#[test]
fn render_is_canonical() {
    let f = Ieee754::new(true, vec![false, true, true], vec![true, false, false]);
    assert_eq!(f.render(), "1011100");
}

#[test]
fn round_trip_all_small_floats() {
    for f in ieee754::small_float::SmallFloat::generate_all() {
        let rendered = f.render();
        let reparsed = Ieee754::parse(&rendered, 3, 3).unwrap();
        assert_eq!(reparsed.render(), rendered);
        assert_eq!(reparsed.sign(), f.sign());
        assert_eq!(reparsed.exp(), f.exp());
        assert_eq!(reparsed.mantissa(), f.mantissa());
    }
}

#[test]
fn parse_quadruple_width() {
    let s: String = std::iter::repeat('0').take(128).collect();
    let f = Ieee754::parse(&s, 15, 112).unwrap();
    assert_eq!(f.exp.len(), 15);
    assert_eq!(f.mantissa.len(), 112);
    assert_eq!(f.render(), s);
}

#[test]
fn minimal_configuration() {
    // A configuration with no exponent and no mantissa digits still has its
    // one sign digit.
    let floats = Ieee754::generate_all(0, 0);
    assert_eq!(floats.len(), 2);
    assert_eq!(floats[0].render(), "0");
    assert_eq!(floats[1].render(), "1");
    let f = Ieee754::parse("1", 0, 0).unwrap();
    assert!(f.sign());
}
