use scientific_notation::decimal::Decimal;
use scientific_notation::notation::SciError;
use scientific_notation::notation::ScientificNotation;

#[test]
fn parse_scientific_notation_from_string() {
    let input = "5x10^15";
    let sci_notation = ScientificNotation::parse_from_str(input).unwrap();

    assert_eq!(sci_notation.coefficient, Decimal::new(5, 0));
    assert_eq!(sci_notation.exponent, 15);
    assert_eq!(sci_notation.display_decimals, 0);
}

#[test]
fn parse_scientific_notation_from_string_2() {
    let input = "5.1237514651x10^38";
    let sci_notation = ScientificNotation::parse_from_str(input).unwrap();

    assert_eq!(sci_notation.coefficient, Decimal::new(51237514651, 10));
    assert_eq!(sci_notation.exponent, 38);
    assert_eq!(sci_notation.display_decimals, 10);
}

#[test]
fn parse_with_error_invalid_exponent() {
    let input = "2x10^23.4";
    let sci_notation = ScientificNotation::parse_from_str(input);

    assert!(sci_notation.is_err());
}

#[test]
fn parse_with_error_invalid_coefficient() {
    let input = "2ax10^20";
    let sci_notation = ScientificNotation::parse_from_str(input);

    assert!(sci_notation.is_err());
}

#[test]
fn parse_with_error_x10_repeated() {
    let input = "2x10^x10^23";
    let sci_notation = ScientificNotation::parse_from_str(input);

    assert!(sci_notation.is_err());
}

#[test]
fn parse_with_error_invalid_input() {
    let input = "asd1234";
    let sci_notation = ScientificNotation::parse_from_str(input);

    assert!(sci_notation.is_err());
}

#[test]
fn parse_and_display_back() {
    let input = "315.2x10^14";
    let sci_notation = ScientificNotation::parse_from_str(input).unwrap();

    assert_eq!(sci_notation.to_display_string(), input.to_string());
}

#[test]
fn from_builder_into_string() {
    let sci_notation = ScientificNotation::build()
        .coefficient(Decimal::new(6278964, 5))
        .exponent(20)
        .display_decimals(3);

    assert_eq!(sci_notation.to_display_string(), "62.790x10^20".to_string());
}

#[test]
fn error_kinds_for_each_failure() {
    assert_eq!(
        ScientificNotation::parse_from_str("asd1234").unwrap_err(),
        SciError::FormatError
    );
    assert_eq!(
        ScientificNotation::parse_from_str("2x10^x10^23").unwrap_err(),
        SciError::FormatError
    );
    assert_eq!(
        ScientificNotation::parse_from_str("2ax10^20").unwrap_err(),
        SciError::ParseError
    );
    assert_eq!(
        ScientificNotation::parse_from_str("2x10^23.4").unwrap_err(),
        SciError::FormatError
    );
    assert_eq!(
        ScientificNotation::parse_from_str("2x10^40000").unwrap_err(),
        SciError::ParseError
    );
}

#[test]
fn parse_rejects_empty_segments() {
    assert_eq!(
        ScientificNotation::parse_from_str("x10^5").unwrap_err(),
        SciError::ParseError
    );
    assert_eq!(
        ScientificNotation::parse_from_str("5x10^").unwrap_err(),
        SciError::ParseError
    );
    assert_eq!(
        ScientificNotation::parse_from_str("+5x10^1").unwrap_err(),
        SciError::ParseError
    );
}

#[test]
fn parse_mantissa_at_the_64_bit_bounds() {
    let max = ScientificNotation::parse_from_str("9.223372036854775807x10^5").unwrap();
    assert_eq!(max.coefficient, Decimal::new(i64::MAX, 18));

    let min = ScientificNotation::parse_from_str("-9.223372036854775808x10^5").unwrap();
    assert_eq!(min.coefficient, Decimal::new(i64::MIN, 18));

    assert_eq!(
        ScientificNotation::parse_from_str("9.2233720368547758070x10^5").unwrap_err(),
        SciError::ParseError
    );
}

#[test]
fn parse_exponent_at_the_16_bit_bounds() {
    assert_eq!(
        ScientificNotation::parse_from_str("1x10^32767").unwrap().exponent,
        32767
    );
    assert_eq!(
        ScientificNotation::parse_from_str("1x10^-32768").unwrap().exponent,
        -32768
    );
    assert_eq!(
        ScientificNotation::parse_from_str("1x10^32768").unwrap_err(),
        SciError::ParseError
    );
}

#[test]
fn parse_accepts_whole_decimal_exponent() {
    let v = ScientificNotation::parse_from_str("5x10^23.0").unwrap();
    assert_eq!(v.exponent, 23);
    let w = ScientificNotation::parse_from_str("5x10^-0").unwrap();
    assert_eq!(w.exponent, 0);
}

#[test]
fn round_trip_examples() {
    for lit in [
        "5x10^15",
        "-0.5x10^-3",
        "9.223372036854775807x10^5",
        "315.2x10^14",
        "0.3333333333333333333x10^0",
        "12.05x10^7",
    ] {
        let v = ScientificNotation::parse_from_str(lit).unwrap();
        assert_eq!(v.to_display_string(), lit.to_string());
    }
}

#[test]
fn trailing_zero_fraction_displays_as_integer() {
    let v = ScientificNotation::parse_from_str("5.00x10^2").unwrap();
    assert_eq!(v.display_decimals, 0);
    assert_eq!(v.to_display_string(), "5x10^2".to_string());
}

#[test]
fn default_value_formats_plainly() {
    assert_eq!(
        ScientificNotation::build().to_display_string(),
        "1x10^0".to_string()
    );
}

#[test]
fn display_rounds_midpoint_toward_zero() {
    let up = ScientificNotation::build()
        .coefficient(Decimal::new(25, 1))
        .exponent(1)
        .display_decimals(0);
    assert_eq!(up.to_display_string(), "2x10^1".to_string());

    let down = ScientificNotation::build()
        .coefficient(Decimal::new(-25, 1))
        .exponent(1)
        .display_decimals(0);
    assert_eq!(down.to_display_string(), "-2x10^1".to_string());

    let above = ScientificNotation::build()
        .coefficient(Decimal::new(26, 1))
        .exponent(1)
        .display_decimals(0);
    assert_eq!(above.to_display_string(), "3x10^1".to_string());
}

#[test]
fn display_decimals_does_not_pad_short_coefficients() {
    let v = ScientificNotation::build()
        .coefficient(Decimal::new(5, 0))
        .exponent(0)
        .display_decimals(3);
    assert_eq!(v.to_display_string(), "5x10^0".to_string());
}

#[test]
fn addition_aligns_on_the_smaller_exponent() {
    let a = ScientificNotation::parse_from_str("1.5x10^3").unwrap();
    let b = ScientificNotation::parse_from_str("25x10^1").unwrap();
    let r = a.add(b).unwrap();
    assert_eq!(r.coefficient, Decimal::new(175, 0));
    assert_eq!(r.exponent, 1);
    assert_eq!(r.to_display_string(), "175x10^1".to_string());
}

#[test]
fn addition_is_commutative_on_examples() {
    let pairs = [
        ("1.5x10^3", "25x10^1"),
        ("-2.75x10^-2", "3.1x10^-4"),
        ("9x10^18", "9x10^18"),
        ("0.001x10^5", "1x10^2"),
    ];
    for (sa, sb) in pairs {
        let a = ScientificNotation::parse_from_str(sa).unwrap();
        let b = ScientificNotation::parse_from_str(sb).unwrap();
        assert_eq!(a.add(b), b.add(a));
    }
}

#[test]
fn addition_overflow_is_reported() {
    let a = ScientificNotation::parse_from_str("9223372036854775807x10^0").unwrap();
    let b = ScientificNotation::parse_from_str("1x10^0").unwrap();
    assert_eq!(a.add(b).unwrap_err(), SciError::Overflow);
}

#[test]
fn subtraction_aligns_and_subtracts() {
    let a = ScientificNotation::parse_from_str("2x10^3").unwrap();
    let b = ScientificNotation::parse_from_str("5x10^2").unwrap();
    let r = a.subtract(b).unwrap();
    assert_eq!(r.coefficient, Decimal::new(15, 0));
    assert_eq!(r.exponent, 2);
    assert_eq!(r.to_display_string(), "15x10^2".to_string());
}

#[test]
fn multiplication_multiplies_coefficients_and_adds_exponents() {
    let a = ScientificNotation::parse_from_str("2.5x10^3").unwrap();
    let b = ScientificNotation::parse_from_str("4x10^2").unwrap();
    let r = a.multiply(b).unwrap();
    assert_eq!(r.coefficient, Decimal::new(100, 1));
    assert_eq!(r.exponent, 5);
    assert_eq!(r.display_decimals, 0);
    assert_eq!(r.to_display_string(), "10x10^5".to_string());
}

#[test]
fn multiplication_by_the_identity_changes_nothing() {
    let x = ScientificNotation::parse_from_str("5.1237514651x10^38").unwrap();
    let one = ScientificNotation::build();
    let r = x.multiply(one).unwrap();
    assert_eq!(r.coefficient, x.coefficient);
    assert_eq!(r.exponent, x.exponent);
    assert_eq!(r, x);
}

#[test]
fn multiplication_exponent_overflow_is_reported() {
    let a = ScientificNotation::parse_from_str("1x10^32767").unwrap();
    let b = ScientificNotation::parse_from_str("1x10^10").unwrap();
    assert_eq!(a.multiply(b).unwrap_err(), SciError::Overflow);
}

#[test]
fn division_computes_exact_short_quotients() {
    let one = ScientificNotation::parse_from_str("1x10^0").unwrap();
    let eight = ScientificNotation::parse_from_str("8x10^0").unwrap();
    let r = one.divide(eight).unwrap();
    assert_eq!(r.coefficient, Decimal::new(125, 3));
    assert_eq!(r.to_display_string(), "0.125x10^0".to_string());

    let six = ScientificNotation::parse_from_str("6x10^1").unwrap();
    let three = ScientificNotation::parse_from_str("3x10^0").unwrap();
    let q = six.divide(three).unwrap();
    assert_eq!(q.coefficient, Decimal::new(2, 0));
    assert_eq!(q.exponent, 1);
}

#[test]
fn division_rounds_at_nineteen_digits() {
    let one = ScientificNotation::parse_from_str("1x10^0").unwrap();
    let three = ScientificNotation::parse_from_str("3x10^0").unwrap();
    let r = one.divide(three).unwrap();
    assert_eq!(r.coefficient, Decimal::new(3333333333333333333, 19));
    assert_eq!(
        r.to_display_string(),
        "0.3333333333333333333x10^0".to_string()
    );
}

#[test]
fn division_subtracts_exponents() {
    let a = ScientificNotation::parse_from_str("5x10^7").unwrap();
    let b = ScientificNotation::parse_from_str("2x10^3").unwrap();
    let r = a.divide(b).unwrap();
    assert_eq!(r.coefficient, Decimal::new(25, 1));
    assert_eq!(r.exponent, 4);
}

#[test]
fn division_by_zero_coefficient_fails_for_any_dividend() {
    let zero = ScientificNotation::build()
        .coefficient(Decimal::new(0, 0))
        .exponent(7);
    for lit in ["1x10^0", "-3.5x10^2", "9.223372036854775807x10^5"] {
        let x = ScientificNotation::parse_from_str(lit).unwrap();
        assert_eq!(x.divide(zero).unwrap_err(), SciError::DivisionByZero);
    }
}

#[test]
fn arithmetic_rederives_display_decimals() {
    let a = ScientificNotation::parse_from_str("1.25x10^2").unwrap();
    let b = ScientificNotation::parse_from_str("1.75x10^2").unwrap();
    let r = a.add(b).unwrap();
    assert_eq!(r.coefficient, Decimal::new(300, 2));
    assert_eq!(r.display_decimals, 0);
    assert_eq!(r.to_display_string(), "3x10^2".to_string());
}
