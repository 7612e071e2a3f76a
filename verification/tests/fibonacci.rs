use fibonacci_sequence::{fibonacci, recursive_fibonacci, BigUnsigned};

#[test]
fn fibonacci_of_zero_to_three_are_the_small_constants() {
    assert_eq!(fibonacci(0), BigUnsigned::from_small(0));
    assert_eq!(fibonacci(1), BigUnsigned::from_small(1));
    assert_eq!(fibonacci(2), BigUnsigned::from_small(1));
    assert_eq!(fibonacci(3), BigUnsigned::from_small(2));
}

#[test]
fn fibonacci_10_is_55() {
    assert_eq!(fibonacci(10).to_decimal_string(), "55");
}

#[test]
fn fibonacci_50_is_12586269025() {
    assert_eq!(fibonacci(50).to_decimal_string(), "12586269025");
}

#[test]
fn fibonacci_100_needs_more_than_a_machine_word() {
    assert_eq!(
        fibonacci(100).to_decimal_string(),
        "354224848179261915075"
    );
}

#[test]
fn fibonacci_around_the_64_bit_limit() {
    assert_eq!(
        fibonacci(93),
        BigUnsigned::from_small(12_200_160_415_121_876_738)
    );
    assert_eq!(fibonacci(94).to_decimal_string(), "19740274219868223167");
}

#[test]
fn fibonacci_200_and_300() {
    assert_eq!(
        fibonacci(200).to_decimal_string(),
        "280571172992510140037611932413038677189525"
    );
    assert_eq!(
        fibonacci(300).to_decimal_string(),
        "222232244629420445529739893461909967206666939096499764990979600"
    );
}

#[test]
fn fibonacci_1000_has_209_digits() {
    let text = fibonacci(1000).to_decimal_string();
    assert_eq!(text.len(), 209);
    assert!(text.starts_with("43466557686937456435688527675040625802564660517371"));
    assert!(text.ends_with("849228875"));
}

#[test]
fn each_term_is_the_sum_of_the_two_before() {
    for n in 0..150usize {
        let sum = fibonacci(n).add(&fibonacci(n + 1));
        assert_eq!(fibonacci(n + 2), sum, "at n = {}", n);
    }
}

#[test]
fn later_terms_never_have_fewer_digits() {
    let mut previous = fibonacci(0).to_decimal_string().len();
    for n in 1..400usize {
        let digits = fibonacci(n).to_decimal_string().len();
        assert!(digits >= previous, "at n = {}", n);
        previous = digits;
    }
}

#[test]
fn recursive_matches_the_first_terms() {
    let expected: [usize; 11] = [0, 1, 1, 2, 3, 5, 8, 13, 21, 34, 55];
    for (n, want) in expected.iter().enumerate() {
        assert_eq!(recursive_fibonacci(n), *want);
    }
}

#[test]
fn recursive_agrees_with_the_generator() {
    for n in 0..=25usize {
        let small = recursive_fibonacci(n);
        assert_eq!(fibonacci(n), BigUnsigned::from_small(small as u64));
    }
}
