use johnston::math::{factors, gcd, gcd_wide, gpf, magnitude_wide, power_of_two, prime, IntExt};
use johnston::octave::octave_reduce_wide;

#[test]
fn gcd_is_the_greatest_common_divisor() {
    assert_eq!(gcd(18, 4), 2);
    assert_eq!(gcd(4, 18), 2);
    assert_eq!(gcd(17, 5), 1);
    assert_eq!(gcd(100, 75), 25);
    assert_eq!(gcd(1071, 462), 21);
}

#[test]
fn gcd_with_zero_is_the_other_number() {
    assert_eq!(gcd(0, 7), 7);
    assert_eq!(gcd(7, 0), 7);
    assert_eq!(gcd(0, 0), 0);
}

#[test]
fn gcd_takes_absolute_values() {
    assert_eq!(gcd(-18, 4), 2);
    assert_eq!(gcd(18, -4), 2);
    assert_eq!(gcd(-18, -4), 2);
    assert_eq!(gcd(i32::MIN, 6), 2);
    assert_eq!(gcd_wide(1 << 40, 1 << 38), 1 << 38);
    assert_eq!(magnitude_wide(i64::MIN), 1 << 63);
    assert_eq!(magnitude_wide(-5), 5);
}

#[test]
fn factors_are_all_divisors_ascending() {
    assert_eq!(factors(1), vec![1]);
    assert_eq!(factors(12), vec![1, 2, 3, 4, 6, 12]);
    assert_eq!(factors(13), vec![1, 13]);
    assert_eq!(factors(0), Vec::<i32>::new());
    assert_eq!(factors(-6), Vec::<i32>::new());
}

#[test]
fn trial_division_passes_primes_and_all_below_two() {
    assert!(prime(2));
    assert!(prime(3));
    assert!(prime(7883));
    assert!(!prime(4));
    assert!(!prime(99));
    assert!(!prime(2000));
    assert!(prime(1));
    assert!(prime(0));
    assert!(prime(-9));
}

#[test]
fn is_prime_starts_at_two() {
    assert!(!0.is_prime());
    assert!(!1.is_prime());
    assert!(!(-7).is_prime());
    assert!(2.is_prime());
    assert!(97.is_prime());
    assert!(!91.is_prime());
}

#[test]
fn greatest_prime_factor_of_small_numbers() {
    assert_eq!(gpf(34), 17);
    assert_eq!(gpf(15), 5);
    assert_eq!(gpf(49), 7);
    assert_eq!(gpf(2), 2);
    assert_eq!(gpf(1024), 2);
    assert_eq!(gpf(97), 97);
    assert_eq!(gpf(1), 1);
    assert_eq!(gpf(0), 0);
    assert_eq!(gpf(-12), 0);
}

#[test]
fn greatest_prime_factor_of_the_trait_is_zero_without_primes() {
    assert_eq!(1.gpf(), 0);
    assert_eq!(0.gpf(), 0);
    assert_eq!((-12).gpf(), 0);
    assert_eq!(12.gpf(), 3);
}

#[test]
fn powers_of_two_are_found() {
    for k in 0..31 {
        assert!(power_of_two(1 << k));
    }
    assert!(!power_of_two(0));
    assert!(!power_of_two(-1));
    assert!(!power_of_two(-8));
    assert!(!power_of_two(i32::MIN));
    assert!(!power_of_two(6));
    assert!(!power_of_two(i32::MAX));
    assert!(!0.is_power_of_two());
}

#[test]
fn octave_reduction_halves_and_doubles() {
    assert_eq!(octave_reduce_wide(9, 2), (9, 8));
    assert_eq!(octave_reduce_wide(3, 1), (3, 2));
    assert_eq!(octave_reduce_wide(1, 3), (4, 3));
    assert_eq!(octave_reduce_wide(2, 1), (1, 1));
    assert_eq!(octave_reduce_wide(1, 1), (1, 1));
    assert_eq!(octave_reduce_wide(1 << 62, 1), (1, 1));
    assert_eq!(octave_reduce_wide(1, 1 << 62), (1, 1));
    assert_eq!(octave_reduce_wide(3, 1 << 62), (3, 2));
}
