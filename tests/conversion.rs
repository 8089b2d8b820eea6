use decimal_to_binary::convert::convert_from_decimal_to_binary;
use decimal_to_binary::fraction::BinaryFraction;

fn value(v: f64) -> BinaryFraction {
    BinaryFraction::from_f64_bits(v.to_bits()).unwrap()
}

fn to_binary(v: f64) -> String {
    convert_from_decimal_to_binary(&value(v), 2)
}

#[test]
fn test_conversion() {
    assert_eq!(to_binary(0.5), "0.1");
    assert_eq!(to_binary(0.25), "0.01");
    assert_eq!(to_binary(0.75), "0.11");
    assert_eq!(to_binary(0.125), "0.001");
    assert_eq!(to_binary(0.6875), "0.1011");
    assert_eq!(to_binary(0.7), "0.10110011");
    assert_eq!(to_binary(0.8), "0.11001100");
    assert_eq!(to_binary(0.9), "0.11100110");
    assert_eq!(to_binary(0.6), "0.10011001");
    assert_eq!(to_binary(0.3), "0.01001100");
    assert_eq!(to_binary(0.1), "0.00011001");
}

#[test]
fn short_fractions_end_in_one_before_eight_digits() {
    for v in [0.5, 0.25, 0.75, 0.125, 0.6875, 0.0078125, 0.9921875] {
        let s = to_binary(v);
        assert!(s.ends_with('1'), "{}", s);
        assert!(s.len() - 2 < 8, "{}", s);
    }
}

#[test]
fn eighth_place_fraction_uses_all_digits() {
    assert_eq!(to_binary(0.00390625), "0.00000001");
    assert_eq!(to_binary(0.99609375), "0.11111111");
}

#[test]
fn long_fractions_have_eight_digits() {
    for v in [0.1, 0.3, 0.6, 0.7, 0.8, 0.9, 0.123456, 0.999999] {
        assert_eq!(to_binary(v).len(), 10, "{}", v);
    }
}

#[test]
fn truncation_error_below_two_to_minus_eight() {
    for v in [0.1, 0.3, 0.5, 0.6, 0.7, 0.8, 0.9, 0.33, 0.999, 0.001] {
        let s = to_binary(v);
        let mut back = 0.0f64;
        let mut place = 0.5f64;
        for c in s[2..].chars() {
            if c == '1' {
                back += place;
            }
            place /= 2.0;
        }
        assert!(back <= v, "{} {}", v, s);
        assert!(v - back < 1.0 / 256.0, "{} {}", v, s);
    }
}

#[test]
fn converting_twice_gives_the_same() {
    for v in [0.1, 0.5, 0.7, 0.0] {
        assert_eq!(to_binary(v), to_binary(v));
    }
}

#[test]
fn zero_converts_to_no_digits() {
    assert_eq!(to_binary(0.0), "0.");
    assert_eq!(to_binary(-0.0), "0.");
}

#[test]
fn scenario_exact_fractions() {
    let got: Vec<String> = [0.5, 0.25, 0.75, 0.125].iter().map(|&v| to_binary(v)).collect();
    assert_eq!(got, vec!["0.1", "0.01", "0.11", "0.001"]);
}

#[test]
fn scenario_truncated_fractions() {
    let got: Vec<String> = [0.1, 0.7].iter().map(|&v| to_binary(v)).collect();
    assert_eq!(got, vec!["0.00011001", "0.10110011"]);
}

#[test]
fn tiny_values_give_eight_zeros() {
    assert_eq!(to_binary(f64::from_bits(1)), "0.00000000");
    assert_eq!(to_binary(1e-300), "0.00000000");
    assert_eq!(to_binary(0.001), "0.00000000");
}

#[test]
fn largest_value_below_one() {
    assert_eq!(to_binary(1.0 - f64::EPSILON / 2.0), "0.11111111");
}

#[test]
fn decoding_accepts_unit_interval_only() {
    assert!(BinaryFraction::from_f64_bits(0.5f64.to_bits()).is_some());
    assert!(BinaryFraction::from_f64_bits((-0.0f64).to_bits()).is_some());
    assert!(BinaryFraction::from_f64_bits(1.0f64.to_bits()).is_none());
    assert!(BinaryFraction::from_f64_bits(1.5f64.to_bits()).is_none());
    assert!(BinaryFraction::from_f64_bits((-0.25f64).to_bits()).is_none());
    assert!(BinaryFraction::from_f64_bits(f64::NAN.to_bits()).is_none());
    assert!(BinaryFraction::from_f64_bits(f64::INFINITY.to_bits()).is_none());
}

#[test]
fn decoding_gives_exact_values() {
    assert_eq!(value(0.5), BinaryFraction { mantissa: 1 << 52, scale: 53 });
    assert_eq!(value(0.0), BinaryFraction { mantissa: 0, scale: 1074 });
    assert_eq!(value(f64::from_bits(3)), BinaryFraction { mantissa: 3, scale: 1074 });
    assert_eq!(value(0.1), BinaryFraction { mantissa: 0x1999999999999a, scale: 56 });
}

#[test]
fn conversion_of_fraction_built_by_hand() {
    let x = BinaryFraction { mantissa: 5, scale: 4 };
    assert_eq!(convert_from_decimal_to_binary(&x, 2), "0.0101");
    let y = BinaryFraction { mantissa: 1, scale: 3 };
    assert_eq!(convert_from_decimal_to_binary(&y, 2), "0.001");
}
