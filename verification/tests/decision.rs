use aks_primality::aks_prime::{
    aks, find_order_modulus, has_factor_up_to, int_pow, is_perfect_power, is_witness_image,
    order_within, witnesses_hold, RingParameters, ORDER_CEILING,
};
use aks_primality::polynomial::Polynomial;
use num::BigUint;

fn trial_division(n: u64) -> bool {
    let nsqrt = (n as f64).sqrt().ceil() as u64;

    if n == 2 {
        return true;
    }
    if n % 2 == 0 {
        return false;
    }

    for d in 3..=nsqrt {
        if n % d == 0 {
            return false;
        }
    }
    true
}

#[test]
fn aks_prime_small() {
    for n in 2..10000 {
        assert_eq!(aks(n), trial_division(n));
    }
}

#[test]
fn zero_and_one_are_not_prime() {
    assert!(!aks(0));
    assert!(!aks(1));
}

#[test]
fn two_is_prime_by_the_size_shortcut() {
    assert_eq!(find_order_modulus(2), Some(2));
    assert!(!has_factor_up_to(2, 2));
    assert!(aks(2));
}

#[test]
fn perfect_powers_are_composite() {
    for n in [4u64, 8, 9, 16, 25, 27, 128] {
        assert!(is_perfect_power(n));
        assert!(!aks(n));
    }
    // 3^40 and 2^63, near the top of the range
    assert!(is_perfect_power(12157665459056928801));
    assert!(is_perfect_power(1 << 63));
    assert!(!is_perfect_power(u64::MAX));
    assert!(!is_perfect_power((1 << 63) + 1));
}

#[test]
fn named_examples() {
    assert!(aks(31));
    assert!(!aks(561));
}

#[test]
fn a_large_prime_passes_the_witness_loop() {
    assert!(aks(104395301));
}

#[test]
fn beyond_the_exact_range() {
    // primes
    assert!(aks(65537));
    assert!(aks(1000003));
    // composites with a factor up to the modulus exponent
    assert!(!aks(65537 * 3));
    assert!(!aks(75361)); // a Carmichael number: 11 * 13 * 17 * 31
    // a composite without one: 1009 * 1013, rejected by the witness loop
    assert_eq!(find_order_modulus(1022117), Some(409));
    assert!(!has_factor_up_to(1022117, 409));
    assert!(!aks(1022117));
}

#[test]
fn int_pow_values() {
    assert_eq!(int_pow(0, 0), 1);
    assert_eq!(int_pow(0, 5), 0);
    assert_eq!(int_pow(7, 0), 1);
    assert_eq!(int_pow(3, 4), 81);
    assert_eq!(int_pow(2, 63), 1 << 63);
    assert_eq!(int_pow(3, 40), 12157665459056928801);
}

#[test]
fn order_search_values() {
    assert_eq!(find_order_modulus(3), Some(3));
    assert_eq!(find_order_modulus(31), Some(29));
    assert_eq!(find_order_modulus(97), Some(59));
    assert_eq!(find_order_modulus(561), Some(3));
    assert_eq!(find_order_modulus(65537), Some(311));
    assert_eq!(find_order_modulus(104395301), Some(751));
    assert_eq!(find_order_modulus(4093082899), Some(1093));
    assert!(ORDER_CEILING == 1 << 30);
}

#[test]
fn order_within_values() {
    // 2 has order 3 modulo 7, 3 has order 6
    assert!(!order_within(2, 7, 2));
    assert!(order_within(2, 7, 3));
    assert!(!order_within(3, 7, 5));
    assert!(order_within(3, 7, 6));
    // no power of a multiple of the modulus is one
    assert!(!order_within(14, 7, 100));
    assert!(!order_within(5, 7, 0));
}

#[test]
fn trial_factor_filter() {
    assert!(has_factor_up_to(561, 3));
    assert!(!has_factor_up_to(35, 4));
    assert!(has_factor_up_to(35, 5));
    assert!(has_factor_up_to(35, 6));
    // the number itself is no proper factor
    assert!(!has_factor_up_to(7, 7));
    assert!(!has_factor_up_to(7, 100));
    assert!(!has_factor_up_to(31, 29));
    assert!(!has_factor_up_to(31, 1));
    assert!(!has_factor_up_to(4, 0));
}

#[test]
fn witness_image_check() {
    // x^3 + 2 modulo (x^5 - 1, 13)
    let p: Polynomial<u64> = Polynomial::from(vec![2, 0, 0, 1, 0]);
    assert!(is_witness_image(&p, 5, 3, 2, 13));
    assert!(!is_witness_image(&p, 5, 2, 2, 13));
    assert!(!is_witness_image(&p, 5, 3, 1, 13));
    // a shorter polynomial stands for the same element
    let short: Polynomial<u64> = Polynomial::from(vec![2, 0, 0, 1]);
    assert!(is_witness_image(&short, 5, 3, 2, 13));
    // too short to hold x^m
    let constant: Polynomial<u64> = Polynomial::from(vec![2]);
    assert!(!is_witness_image(&constant, 5, 3, 2, 13));
    // m = 0: the two terms fall together, 1 + 12 = 0 modulo 13
    let zero: Polynomial<u64> = Polynomial::from(vec![0, 0]);
    assert!(is_witness_image(&zero, 5, 0, 12, 13));
    let big: Polynomial<BigUint> = Polynomial::from(vec![
        BigUint::from(2u64),
        BigUint::from(0u64),
        BigUint::from(0u64),
        BigUint::from(1u64),
    ]);
    assert!(is_witness_image(&big, 5, 3, 2, 13));
    assert!(!is_witness_image(&big, 5, 3, 3, 13));
}

#[test]
fn witness_loop_on_both_backends() {
    assert!(witnesses_hold::<u64>(31, 29, 30));
    assert!(witnesses_hold::<BigUint>(31, 29, 30));
    assert!(witnesses_hold::<u64>(13, 5, 40));
    assert!(witnesses_hold::<u64>(35, 3, 0));
    for (n, r) in [(91u64, 5u64), (15, 7), (35, 3), (341, 7), (561, 5), (1022117, 409)] {
        assert!(!witnesses_hold::<u64>(n, r, 3));
        assert!(!witnesses_hold::<BigUint>(n, r, 1));
    }
}

#[test]
fn witness_loop_confirms_the_primes_below_1000() {
    for n in 2..1000u64 {
        if !trial_division(n) {
            continue;
        }
        let r = find_order_modulus(n).unwrap();
        let bits = 64 - u64::from(n.leading_zeros());
        let maxa = (num::integer::sqrt(r - 1) + 1) * bits;
        assert!(witnesses_hold::<u64>(n, r, maxa));
    }
}

#[test]
fn witness_loop_rejects_composites_below_1000() {
    // with the modulus exponent 5 no composite coprime to 5 comes through
    for n in 6..1000u64 {
        if trial_division(n) || n % 5 == 0 {
            continue;
        }
        assert!(!witnesses_hold::<u64>(n, 5, 20));
    }
}

#[test]
fn parameters_are_derived_from_the_candidate() {
    let p = RingParameters::derive(31).unwrap();
    assert_eq!((p.n, p.r, p.maxk, p.maxa), (31, 29, 25, 30));
    let p = RingParameters::derive(2).unwrap();
    assert_eq!((p.n, p.r, p.maxk, p.maxa), (2, 2, 4, 4));
    let p = RingParameters::derive(104395301).unwrap();
    assert_eq!((p.n, p.r, p.maxk, p.maxa), (104395301, 751, 729, 756));
    let p = RingParameters::derive(u64::MAX).unwrap();
    assert_eq!((p.n, p.r, p.maxk), (u64::MAX, 3, 4096));
}

#[test]
fn sums_beyond_64_bits_go_to_the_big_backend() {
    // 14107 * 14143: with r = 787 the sums of products can exceed 64 bits
    assert_eq!(find_order_modulus(199515301), Some(787));
    assert!(!has_factor_up_to(199515301, 787));
    assert!(!aks(199515301));
}
