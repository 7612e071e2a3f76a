use fibonacci_sequence::{fibonacci, BigUnsigned};
use num_bigint::BigUint;

fn fibonacci_with_num_bigint(n: usize) -> BigUint {
    let mut prev = BigUint::from(0u32);
    let mut curr = BigUint::from(1u32);
    if n == 0 {
        return prev;
    }
    for _ in 1..n {
        let next = &prev + &curr;
        prev = curr;
        curr = next;
    }
    curr
}

#[test]
fn generator_agrees_with_num_bigint() {
    for n in (0..=120usize).chain([250, 500, 1000, 2500]) {
        assert_eq!(
            fibonacci(n).to_decimal_string(),
            fibonacci_with_num_bigint(n).to_string(),
            "at n = {}",
            n
        );
    }
}

#[test]
fn addition_agrees_with_num_bigint() {
    let texts = [
        "0",
        "1",
        "999999999",
        "1000000000",
        "18446744073709551615",
        "999999999999999999999999999999999999",
        "314159265358979323846264338327950288419716939937510",
        "100000000000000000000000000000000000000000000000000000000000",
    ];
    for a in texts.iter() {
        for b in texts.iter() {
            let ours = BigUnsigned::from_decimal_str(a)
                .expect("digits")
                .add(&BigUnsigned::from_decimal_str(b).expect("digits"));
            let theirs = BigUint::parse_bytes(a.as_bytes(), 10).expect("digits")
                + BigUint::parse_bytes(b.as_bytes(), 10).expect("digits");
            assert_eq!(ours.to_decimal_string(), theirs.to_string());
        }
    }
}

#[test]
fn powers_of_two_by_doubling_agree_with_num_bigint() {
    let mut ours = BigUnsigned::from_small(1);
    let mut theirs = BigUint::from(1u32);
    for _ in 0..400 {
        ours = ours.add(&ours);
        theirs = &theirs + &theirs;
        assert_eq!(ours.to_decimal_string(), theirs.to_string());
    }
}
