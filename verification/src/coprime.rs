//! Coprime numbers: Bezout's identity and cancellation under a modulus.

use vstd::prelude::*;
use vstd::arithmetic::div_mod::{
    lemma_fundamental_div_mod, lemma_mod_multiples_basic, lemma_mod_self_0, lemma_small_mod,
};
use crate::numeric::is_prime;

verus! {

/// No number from 2 on divides both `a` and `b`.
pub open spec fn coprime(a: nat, b: nat) -> bool {
    forall|d: nat| d >= 2 ==> !(#[trigger] (a % d) == 0 && b % d == 0)
}

/// A sum of two multiples of `d` is a multiple of `d`.
pub proof fn lemma_divides_combination(b: int, q: int, r: int, d: int)
    requires
        d > 0,
        b % d == 0,
        r % d == 0,
    ensures
        (b * q + r) % d == 0,
{
    lemma_fundamental_div_mod(b, d);
    lemma_fundamental_div_mod(r, d);
    let bq = b / d;
    let rq = r / d;
    assert(b * q + r == (bq * q + rq) * d) by (nonlinear_arith)
        requires
            b == d * bq,
            r == d * rq,
    ;
    lemma_mod_multiples_basic(bq * q + rq, d);
}

/// Bezout's identity: coprime numbers have an integer combination equal to
/// one.
pub proof fn lemma_bezout(a: nat, b: nat) -> (uv: (int, int))
    requires
        coprime(a, b),
    ensures
        uv.0 * a + uv.1 * b == 1,
    decreases b,
{
    if b == 0 {
        if a == 0 {
            assert(a % 2 == 0 && b % 2 == 0);
        } else if a >= 2 {
            lemma_mod_self_0(a as int);
            assert(a % a == 0 && b % a == 0);
        }
        (1, 0)
    } else {
        let q = a / b;
        let r = a % b;
        lemma_fundamental_div_mod(a as int, b as int);
        assert forall|d: nat| d >= 2 implies !(#[trigger] (b % d) == 0 && r % d == 0) by {
            if b % d == 0 && r % d == 0 {
                lemma_divides_combination(b as int, q as int, r as int, d as int);
                assert(a % d == 0);
            }
        }
        let (u, v) = lemma_bezout(b, r);
        assert(v * a + (u - v * q) * b == 1) by (nonlinear_arith)
            requires
                u * b + v * r == 1,
                a == b * q + r,
        ;
        (v, u - v * q)
    }
}

/// Cancellation: a factor coprime to the modulus can be dropped from a
/// multiple of the modulus.
pub proof fn lemma_coprime_cancel(a: nat, s: nat, x: int)
    requires
        coprime(a, s),
        s > 0,
        (a * x) % (s as int) == 0,
    ensures
        x % (s as int) == 0,
{
    let (u, v) = lemma_bezout(a, s);
    let t = (a * x) / (s as int);
    lemma_fundamental_div_mod(a * x, s as int);
    assert(x == (u * t + v * x) * s) by (nonlinear_arith)
        requires
            u * a + v * s == 1,
            a * x == s * t,
    ;
    lemma_mod_multiples_basic(u * t + v * x, s as int);
}

/// A prime is coprime to every positive number below it.
pub proof fn lemma_prime_coprime(j: nat, p: nat)
    requires
        is_prime(p),
        0 < j < p,
    ensures
        coprime(j, p),
{
    assert forall|d: nat| d >= 2 implies !(#[trigger] (j % d) == 0 && p % d == 0) by {
        if j % d == 0 && p % d == 0 {
            if d > j {
                lemma_small_mod(j, d);
            }
            assert(d < p);
        }
    }
}

/// Euclid's lemma: a prime that divides `j * x` with `0 < j < p` divides `x`.
pub proof fn lemma_prime_cancel(j: nat, p: nat, x: int)
    requires
        is_prime(p),
        0 < j < p,
        (j * x) % (p as int) == 0,
    ensures
        x % (p as int) == 0,
{
    lemma_prime_coprime(j, p);
    lemma_coprime_cancel(j, p, x);
}

/// Whether `p` is the least divisor of `n` from 2 on.
pub open spec fn is_least_factor(n: nat, p: nat) -> bool {
    &&& 2 <= p
    &&& n % p == 0
    &&& forall|d: nat| 2 <= d < p ==> #[trigger] (n % d) != 0
}

/// Every number from 2 on has a least divisor from 2 on; that of a
/// composite number is at most its square root.
pub proof fn lemma_least_factor(n: nat) -> (p: nat)
    requires
        n >= 2,
    ensures
        is_least_factor(n, p),
        p <= n,
        !is_prime(n) ==> p * p <= n,
{
    let p = lemma_least_factor_from(n, 2);
    if !is_prime(n) {
        let e = choose|e: nat| 2 <= e < n && #[trigger] (n % e) == 0;
        assert(p <= e);
        let q = n / p;
        lemma_fundamental_div_mod(n as int, p as int);
        assert(q >= 2) by (nonlinear_arith)
            requires
                n == p * q,
                2 <= p < n,
                q >= 0,
        ;
        assert(n % q == 0) by {
            lemma_mod_multiples_basic(p as int, q as int);
        }
        assert(p <= q);
        assert(p * p <= n) by (nonlinear_arith)
            requires
                n == p * q,
                0 <= p <= q,
        ;
    }
    p
}

proof fn lemma_least_factor_from(n: nat, s: nat) -> (p: nat)
    requires
        n >= 2,
        2 <= s <= n,
        forall|d: nat| 2 <= d < s ==> #[trigger] (n % d) != 0,
    ensures
        is_least_factor(n, p),
        p <= n,
    decreases n - s,
{
    if n % s == 0 {
        s
    } else {
        lemma_mod_self_0(n as int);
        lemma_least_factor_from(n, s + 1)
    }
}

} // verus!
