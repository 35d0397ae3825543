use aks_primality::traits::UInt;
use aks_primality::utils::trial_division;
use num::BigUint;

fn big(v: u64) -> BigUint {
    BigUint::from(v)
}

#[test]
fn word_backend_identities() {
    assert_eq!(<u64 as UInt>::zero(), 0);
    assert_eq!(<u64 as UInt>::one(), 1);
    assert_eq!(<u64 as UInt>::from_word(77), 77);
}

#[test]
fn word_backend_bits() {
    assert_eq!(UInt::bits(&0u64), 0);
    assert_eq!(UInt::bits(&1u64), 1);
    assert_eq!(UInt::bits(&2u64), 2);
    assert_eq!(UInt::bits(&255u64), 8);
    assert_eq!(UInt::bits(&256u64), 9);
    assert_eq!(UInt::bits(&u64::MAX), 64);
}

#[test]
fn word_backend_bit() {
    assert!(UInt::bit(&5u64, 0));
    assert!(!UInt::bit(&5u64, 1));
    assert!(UInt::bit(&5u64, 2));
    assert!(!UInt::bit(&5u64, 3));
    assert!(UInt::bit(&u64::MAX, 63));
    assert!(!UInt::bit(&u64::MAX, 64));
    assert!(!UInt::bit(&u64::MAX, 1000));
}

#[test]
fn word_backend_arithmetic() {
    assert_eq!(UInt::mul(&6u64, &7), 42);
    assert_eq!(UInt::plus(&6u64, &7), 13);
    assert_eq!(UInt::rem(&47u64, &5), 2);
    assert!(UInt::same(&9u64, &9));
    assert!(!UInt::same(&9u64, &8));
}

#[test]
fn big_backend_identities() {
    assert_eq!(<BigUint as UInt>::zero(), big(0));
    assert_eq!(<BigUint as UInt>::one(), big(1));
    assert_eq!(<BigUint as UInt>::from_word(77), big(77));
    assert_eq!(<BigUint as UInt>::from_word(u64::MAX), big(u64::MAX));
}

#[test]
fn big_backend_bits() {
    assert_eq!(UInt::bits(&big(0)), 0);
    assert_eq!(UInt::bits(&big(1)), 1);
    assert_eq!(UInt::bits(&big(255)), 8);
    assert_eq!(UInt::bits(&big(256)), 9);
    assert_eq!(UInt::bits(&big(u64::MAX)), 64);
    assert_eq!(UInt::bits(&UInt::mul(&big(u64::MAX), &big(2))), 65);
}

#[test]
fn big_backend_bit() {
    assert!(UInt::bit(&big(5), 0));
    assert!(!UInt::bit(&big(5), 1));
    assert!(UInt::bit(&big(5), 2));
    assert!(!UInt::bit(&big(5), 64));
    assert!(UInt::bit(&UInt::mul(&big(1 << 63), &big(2)), 64));
}

#[test]
fn big_backend_arithmetic() {
    assert_eq!(UInt::mul(&big(6), &big(7)), big(42));
    assert_eq!(UInt::plus(&big(6), &big(7)), big(13));
    assert_eq!(UInt::rem(&big(47), &big(5)), big(2));
    assert!(UInt::same(&big(9), &big(9)));
    assert!(!UInt::same(&big(9), &big(8)));
    // 2^64 * 2^64 mod (2^64 + 1) = 1
    let two_64 = UInt::plus(&big(u64::MAX), &big(1));
    let modulus = UInt::plus(&two_64, &big(1));
    assert_eq!(UInt::rem(&UInt::mul(&two_64, &two_64), &modulus), big(1));
}

#[test]
fn trial_division_answers_true_below_four() {
    assert!(trial_division(0));
    assert!(trial_division(1));
    assert!(trial_division(2));
    assert!(trial_division(3));
}

#[test]
fn trial_division_on_known_values() {
    for p in [5u64, 7, 11, 13, 31, 97, 7919, 65537, 104395301, 4093082899] {
        assert!(trial_division(p));
    }
    for c in [4u64, 6, 9, 15, 25, 49, 561, 7917, 65535, 1022117, 4093082897] {
        assert!(!trial_division(c));
    }
}

#[test]
fn trial_division_on_large_values() {
    // a Mersenne prime, and squares of primes: the divisor is the root itself
    assert!(trial_division(2147483647));
    assert!(!trial_division(46349 * 46349));
    assert!(!trial_division(1000003 * 1000003));
    assert!(trial_division(1000000000039));
}

#[test]
fn utils_small() {
    for n in 2..10000 {
        assert_eq!(aks_primality::aks_prime::aks(n), trial_division(n));
    }
}
