use aks_primality::aks_prime::is_perfect_power;
use aks_primality::polynomial::Polynomial;

#[test]
fn perfect_power() {
    assert!(is_perfect_power(0));
    assert!(is_perfect_power(1));
    assert!(is_perfect_power(4));
    assert!(is_perfect_power(8));
    assert!(is_perfect_power(9));
    assert!(is_perfect_power(128));

    assert!(!is_perfect_power(2));
    assert!(!is_perfect_power(24));
    assert!(!is_perfect_power(101));
}

#[test]
fn mod_pow() {
    let p = Polynomial { coef: vec![1u64, 1] };

    assert_eq!(p.mod_pow(7, &6), vec![1u64, 0, 3, 2, 3, 0, 1].into());
    assert_eq!(p.mod_pow(8, &7), vec![1u64, 0, 0, 0, 0, 0, 0, 1].into());
}
