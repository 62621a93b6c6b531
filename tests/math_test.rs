use toolchest::math::{
    is_prime, max_by, min_by, next_prime, prev_prime,
    clamp, factorial, fibonacci, gcd_u64, in_range, is_even, is_odd, lcm_u64, signum_zero, sum,
    sum_i64_saturating,
};

#[test]
fn test_clamp_in_range() {
    assert_eq!(clamp(5, 0, 10), 5);
    assert_eq!(clamp(-1, 0, 10), 0);
    assert_eq!(clamp(11, 0, 10), 10);
}

#[test]
fn integer_helpers() {
    assert_eq!(signum_zero(0), 0);
    assert_eq!(signum_zero(5), 1);
    assert_eq!(signum_zero(-7), -1);
    assert_eq!(sum_i64_saturating(&[i64::MAX, 1]), i64::MAX);
    assert_eq!(sum_i64_saturating(&[i64::MIN, -1, 5]), i64::MIN + 5);
    assert_eq!(gcd_u64(12, 18), 6);
    assert_eq!(lcm_u64(12, 18), 36);
    assert_eq!(lcm_u64(0, 18), 0);
    assert_eq!(sum(&[3, 1, 2]), 6);
    assert!(in_range(3, 0..4));
    assert!(!in_range(4, 0..4));
    assert!(is_even(-4));
    assert!(is_odd(7));
}

#[test]
fn factorial_and_fibonacci() {
    assert_eq!(factorial(0), 1);
    assert_eq!(factorial(5), 120);
    assert_eq!(factorial(34), 295232799039604140847618609643520000000);
    assert_eq!(fibonacci(0), 0);
    assert_eq!(fibonacci(10), 55);
    assert_eq!(fibonacci(185), 205697230343233228174223751303346572685);
}

#[test]
fn primes() {
    assert!(!is_prime(0));
    assert!(!is_prime(1));
    assert!(is_prime(2));
    assert!(is_prime(3));
    assert!(!is_prime(4));
    assert!(!is_prime(91));
    assert!(is_prime(97));
    assert!(is_prime(1_000_000_007));
    assert_eq!(next_prime(0), 2);
    assert_eq!(next_prime(14), 17);
    assert_eq!(next_prime(17), 17);
    assert_eq!(prev_prime(2), None);
    assert_eq!(prev_prime(20), Some(19));
    assert_eq!(prev_prime(9), Some(7));
    assert_eq!(prev_prime(7), Some(5));
    assert_eq!(prev_prime(3), Some(2));
    assert_eq!(prev_prime(100), Some(97));
}

#[test]
fn extremes_by_key() {
    let words = ["bb", "a", "cc", "d"];
    assert_eq!(min_by(&words, |w| w.len() as i64), Some(&"a"));
    assert_eq!(max_by(&words, |w| w.len() as i64), Some(&"cc"));
    let none: [&str; 0] = [];
    assert_eq!(min_by(&none, |w| w.len() as i64), None);
}

#[test]
fn test_math_extras() {
    assert_eq!(factorial(5), 120);
    assert!(is_prime(97));
    assert_eq!(next_prime(100), 101);
    assert_eq!(prev_prime(100), Some(97));
    assert_eq!(fibonacci(10), 55);
    assert!(is_even(4));
    assert!(is_odd(5));
}

#[test]
fn test_percentile_and_numeric() {
    assert_eq!(signum_zero(0), 0);
    assert_eq!(signum_zero(5), 1);
    assert_eq!(signum_zero(-7), -1);
    assert_eq!(sum_i64_saturating(&[i64::MAX, 1]), i64::MAX);
    assert_eq!(gcd_u64(12, 18), 6);
    assert_eq!(lcm_u64(12, 18), 36);
}
