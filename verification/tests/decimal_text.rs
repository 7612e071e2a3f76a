use fibonacci_sequence::{fibonacci, BigUnsigned};

#[test]
fn zero_renders_as_a_single_zero() {
    assert_eq!(BigUnsigned::from_small(0).to_decimal_string(), "0");
    let zero = BigUnsigned::from_decimal_str("0").expect("a digit");
    assert_eq!(zero.to_decimal_string(), "0");
}

#[test]
fn inner_limbs_keep_their_zeros() {
    let text = "1000000000000000000";
    let number = BigUnsigned::from_decimal_str(text).expect("digits");
    assert_eq!(number.to_decimal_string(), text);
    let text = "7000000001000000020";
    let number = BigUnsigned::from_decimal_str(text).expect("digits");
    assert_eq!(number.to_decimal_string(), text);
}

#[test]
fn rendering_then_parsing_then_rendering_is_stable() {
    let values = [
        BigUnsigned::from_small(0),
        BigUnsigned::from_small(7),
        BigUnsigned::from_small(1_000_000_000),
        BigUnsigned::from_small(u64::MAX),
        fibonacci(90),
        fibonacci(500),
    ];
    for value in values.iter() {
        let text = value.to_decimal_string();
        let parsed = BigUnsigned::from_decimal_str(&text).expect("rendered digits parse");
        assert_eq!(parsed, *value);
        assert_eq!(parsed.to_decimal_string(), text);
    }
}

#[test]
fn canonical_text_survives_a_round_trip() {
    let texts = [
        "0",
        "1",
        "9",
        "10",
        "999999999",
        "1000000000",
        "123456789123456789",
        "1234567891234567891",
        "354224848179261915075",
        "100000000000000000000000000000000000000",
    ];
    for text in texts.iter() {
        let number = BigUnsigned::from_decimal_str(text).expect("digits");
        assert_eq!(number.to_decimal_string(), *text);
    }
}

#[test]
fn leading_zeros_are_read_and_not_written() {
    let number = BigUnsigned::from_decimal_str("007").expect("digits");
    assert_eq!(number, BigUnsigned::from_small(7));
    assert_eq!(number.to_decimal_string(), "7");
    let number = BigUnsigned::from_decimal_str("0000000000000000000000").expect("digits");
    assert_eq!(number, BigUnsigned::from_small(0));
    assert_eq!(number.to_decimal_string(), "0");
    let number = BigUnsigned::from_decimal_str("0000000001000000000").expect("digits");
    assert_eq!(number.to_decimal_string(), "1000000000");
}

#[test]
fn parsing_agrees_with_from_small() {
    let cases: [(&str, u64); 6] = [
        ("5", 5),
        ("12", 12),
        ("999999999", 999_999_999),
        ("1000000000", 1_000_000_000),
        ("12345678901234567890", 12_345_678_901_234_567_890),
        ("18446744073709551615", u64::MAX),
    ];
    for (text, value) in cases.iter() {
        let parsed = BigUnsigned::from_decimal_str(text).expect("digits");
        assert_eq!(parsed, BigUnsigned::from_small(*value));
    }
}

#[test]
fn text_that_is_not_a_number_is_refused() {
    let refused = [
        "", " ", "+1", "-1", "1 ", " 1", "12a", "a12", "1_000", "1.5", "0x10", "١٢٣", "1\n", "５",
    ];
    for text in refused.iter() {
        assert!(
            BigUnsigned::from_decimal_str(text).is_none(),
            "accepted {:?}",
            text
        );
    }
}

#[test]
fn characters_next_to_the_digits_are_refused() {
    assert!(BigUnsigned::from_decimal_str("/").is_none());
    assert!(BigUnsigned::from_decimal_str(":").is_none());
    assert!(BigUnsigned::from_decimal_str("0").is_some());
    assert!(BigUnsigned::from_decimal_str("9").is_some());
}
