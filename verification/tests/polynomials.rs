use aks_primality::polynomial::Polynomial;
use num::BigUint;

fn poly(v: &[u64]) -> Polynomial<u64> {
    Polynomial::from(v.to_vec())
}

fn big_poly(v: &[u64]) -> Polynomial<BigUint> {
    Polynomial::from(v.iter().map(|c| BigUint::from(*c)).collect::<Vec<BigUint>>())
}

#[test]
fn new_and_with_capacity_are_empty() {
    let p: Polynomial<u64> = Polynomial::new();
    assert_eq!(p.coef.len(), 0);
    let q: Polynomial<u64> = Polynomial::with_capacity(5);
    assert_eq!(q.coef.len(), 0);
    assert_eq!(p, q);
}

#[test]
fn deg_is_one_less_than_length() {
    assert_eq!(poly(&[7]).deg(), 0);
    assert_eq!(poly(&[1, 1]).deg(), 1);
    assert_eq!(poly(&[0, 0, 0, 4]).deg(), 3);
}

#[test]
fn get_and_set_coefficients() {
    let mut p = poly(&[4, 5, 6]);
    assert_eq!(*p.get_coef(0), 4);
    assert_eq!(*p.get_coef(2), 6);
    p.set_coef(1, 9);
    assert_eq!(p, poly(&[4, 9, 6]));
}

#[test]
fn equality_compares_coefficients_and_length() {
    assert_eq!(poly(&[1, 2]), poly(&[1, 2]));
    assert_ne!(poly(&[1, 2]), poly(&[1, 3]));
    assert_ne!(poly(&[1, 2]), poly(&[1, 2, 0]));
    assert_eq!(big_poly(&[1, 2]), big_poly(&[1, 2]));
    assert_ne!(big_poly(&[1, 2]), big_poly(&[2, 1]));
}

#[test]
fn mod_mul_without_wraparound() {
    // (1 + 2x + 3x^2)(4 + 5x) = 4 + 13x + 22x^2 + 15x^3, modulo 7
    assert_eq!(poly(&[1, 2, 3]).mod_mul(&poly(&[4, 5]), 5, &7), poly(&[4, 6, 1, 1]));
}

#[test]
fn mod_mul_wraps_exponents_around() {
    // modulo x^3 - 1 the term 15x^3 falls onto the constant: 19 + 13x + 22x^2
    assert_eq!(poly(&[1, 2, 3]).mod_mul(&poly(&[4, 5]), 3, &7), poly(&[5, 6, 1]));
    // (1 + 2x + 3x^2)(4 + 5x + 6x^2) modulo x^4 - 1: 22 + 13x + 28x^2 + 27x^3
    assert_eq!(poly(&[1, 2, 3]).mod_mul(&poly(&[4, 5, 6]), 4, &100), poly(&[22, 13, 28, 27]));
}

#[test]
fn mod_mul_output_length_is_capped_at_r() {
    assert_eq!(poly(&[1, 1]).mod_mul(&poly(&[1, 1]), 2, &5).coef.len(), 2);
    assert_eq!(poly(&[1, 1]).mod_mul(&poly(&[1, 1]), 3, &5).coef.len(), 3);
    assert_eq!(poly(&[1, 1]).mod_mul(&poly(&[1, 1]), 9, &5).coef.len(), 3);
    assert_eq!(poly(&[1]).mod_mul(&poly(&[1]), 1, &5).coef.len(), 1);
}

#[test]
fn mod_mul_modulo_one_is_zero() {
    assert_eq!(poly(&[0, 0]).mod_mul(&poly(&[0, 0]), 4, &1), poly(&[0, 0, 0]));
}

#[test]
fn mod_mul_is_commutative() {
    let cases: [(&[u64], &[u64], usize, u64); 4] = [
        (&[1, 2, 3], &[4, 5], 3, 7),
        (&[1, 2, 3], &[4, 5], 5, 7),
        (&[6, 0, 5, 1], &[2, 3, 4], 4, 11),
        (&[10, 20, 30, 40, 50], &[7], 5, 97),
    ];
    for (a, b, r, n) in cases {
        assert_eq!(poly(a).mod_mul(&poly(b), r, &n), poly(b).mod_mul(&poly(a), r, &n));
    }
}

fn power_by_repetition(p: &Polynomial<u64>, e: u32, r: usize, n: u64) -> Polynomial<u64> {
    let mut acc = poly(&[1 % n]);
    for _ in 0..e {
        acc = acc.mod_mul(p, r, &n);
    }
    acc
}

#[test]
fn exponents_add_up() {
    let cases: [(&[u64], usize, u64); 3] = [(&[1, 1], 5, 7), (&[2, 1], 4, 9), (&[3, 0, 1], 6, 10)];
    for (p, r, n) in cases {
        let p = poly(p);
        for i in 0..6 {
            for j in 0..6 {
                let left = power_by_repetition(&p, i, r, n).mod_mul(
                    &power_by_repetition(&p, j, r, n),
                    r,
                    &n,
                );
                assert_eq!(left, power_by_repetition(&p, i + j, r, n));
            }
        }
    }
}

#[test]
fn mod_pow_agrees_with_repeated_multiplication() {
    let cases: [(&[u64], usize, u64); 3] = [(&[1, 1], 7, 6), (&[2, 1], 5, 13), (&[3, 1], 4, 10)];
    for (p, r, n) in cases {
        assert_eq!(poly(p).mod_pow(r, &n), power_by_repetition(&poly(p), n as u32, r, n));
    }
}

#[test]
fn mod_pow_exact_values() {
    assert_eq!(poly(&[2, 1]).mod_pow(5, &13), poly(&[2, 0, 0, 1, 0]));
    assert_eq!(poly(&[3, 1]).mod_pow(4, &10), poly(&[4, 6, 6, 0]));
}

#[test]
fn mod_pow_modulo_one() {
    assert_eq!(poly(&[0, 0]).mod_pow(3, &1), poly(&[0, 0]));
}

#[test]
fn both_backends_compute_the_same() {
    assert_eq!(
        big_poly(&[1, 2, 3]).mod_mul(&big_poly(&[4, 5, 6]), 4, &BigUint::from(100u64)),
        big_poly(&[22, 13, 28, 27])
    );
    assert_eq!(big_poly(&[1, 1]).mod_pow(7, &BigUint::from(6u64)), big_poly(&[1, 0, 3, 2, 3, 0, 1]));
    assert_eq!(big_poly(&[2, 1]).mod_pow(5, &BigUint::from(13u64)), big_poly(&[2, 0, 0, 1, 0]));
}

#[test]
fn big_backend_goes_beyond_64_bits() {
    // (x + (n - 1))^2 modulo n = 2^64 - 59, the largest 64-bit prime:
    // (n - 1)^2 = 1 and 2(n - 1) = n - 2 modulo n.
    let n: u64 = 18446744073709551557;
    let p = big_poly(&[n - 1, 1]);
    let square = p.mod_mul(&p, 3, &BigUint::from(n));
    assert_eq!(square, big_poly(&[1, n - 2, 1]));
}
