//! What is proved of the decisions of the procedure: primes satisfy every
//! witness congruence and are accepted, perfect powers are rejected, and below
//! `2^16` the procedure decides primality exactly.

use vstd::prelude::*;
use vstd::arithmetic::power::pow;
use vstd::arithmetic::power2::pow2;
use vstd::arithmetic::div_mod::{
    lemma_add_mod_noop, lemma_mul_mod_noop_general, lemma_small_mod, lemma_mod_bound,
};
use crate::aks_prime::{
    aks_accepts, has_order_within, has_small_factor, linear, order_bound,
    order_modulus, witness_bound, witness_holds, witness_target, lemma_order_modulus,
    ORDER_CEILING,
};
use crate::binomial::{folded, folded_term, npow, lemma_fermat, lemma_folded_prime, lemma_folded_step};
use crate::coprime::{coprime, lemma_least_factor};
use crate::numeric::{bit_length, is_prime, is_proper_power, lemma_bit_length_bounds, lemma_pow_base_monotone};
use crate::order::lemma_order_exists;
use crate::ring::{
    coef, cyc_term, ring_pow, lemma_coef_ring_mul, lemma_conv_commutes,
    lemma_ring_pow_closed,
};
use crate::sums::{sum, lemma_sum_skip};

verus! {

/// The powers of `x + a` in `(Z/nZ)[x] / (x^r - 1)` are the folded binomial
/// expansion, reduced modulo `n`.
pub proof fn lemma_linear_power(a: nat, n: nat, k: nat, r: nat, i: int)
    requires
        n >= 2,
        r >= 2,
        0 <= i < r,
    ensures
        coef(ring_pow(linear(a, n), k, r, n), i) == folded(k, a, r, i) % n,
    decreases k,
{
    let ri = r as int;
    let base = linear(a, n);
    if k == 0 {
        let f = |j: int| folded_term(0, a, r, i, j);
        assert(sum(f, 1) == sum(f, 0) + f(0));
        lemma_small_mod(0, r);
        assert(f(0) == if i == 0 {
            1nat * 1nat
        } else {
            0nat
        });
        lemma_small_mod(0, n);
    } else {
        let km = (k - 1) as nat;
        let prev = (i - 1) % ri;
        lemma_mod_bound(i - 1, ri);
        let p = ring_pow(base, km, r, n);
        lemma_ring_pow_closed(base, km, r, n);
        lemma_linear_power(a, n, km, r, i);
        lemma_linear_power(a, n, km, r, prev);
        lemma_coef_ring_mul(p, base, r, n, i);
        lemma_conv_commutes(p, base, r, i);
        let f = |j: int| cyc_term(base, p, r, i, j);
        assert forall|j: int| 2 <= j < r implies (#[trigger] f(j)) == 0 by {
            assert(coef(base, j) == 0);
            assert(0 * coef(p, (i - j) % ri) == 0);
        }
        lemma_sum_skip(f, 2, r);
        assert(sum(f, 2) == sum(f, 1) + f(1));
        assert(sum(f, 1) == sum(f, 0) + f(0));
        lemma_small_mod(i as nat, r);
        let x = folded(km, a, r, i);
        let y = folded(km, a, r, prev);
        let u: nat = (a % n) * (x % n);
        let v: nat = y % n;
        let w: nat = a * x;
        assert(f(0) == u);
        assert(f(1) == v) by {
            assert(coef(base, 1) == 1);
            assert(1 * coef(p, prev) == coef(p, prev));
        }
        lemma_folded_step(km, a, r, i);
        lemma_mul_mod_noop_general(a as int, x as int, n as int);
        vstd::arithmetic::div_mod::lemma_mod_twice(y as int, n as int);
        lemma_add_mod_noop(u as int, v as int, n as int);
        lemma_add_mod_noop(w as int, y as int, n as int);
        assert((u + v) % n == (w + y) % n);
    }
}

/// A prime `p` satisfies the witness congruence `(x + a)^p = x^p + a` for
/// every `a` and every `r >= 2`.
pub proof fn lemma_frobenius(p: nat, r: nat, a: nat)
    requires
        is_prime(p),
        r >= 2,
    ensures
        witness_holds(p, r, a),
{
    assert forall|i: int| 0 <= i < r implies coef(ring_pow(linear(a, p), p, r, p), i)
        == #[trigger] witness_target(p, r, a, i) by {
        lemma_linear_power(a, p, p, r, i);
        lemma_folded_prime(p, a, r, i);
        lemma_fermat(a, p);
        let unit: nat = if i == p % r {
            1
        } else {
            0
        };
        if i == 0 {
            lemma_add_mod_noop(npow(a, p) as int, unit as int, p as int);
            lemma_add_mod_noop((a % p) as int, unit as int, p as int);
            vstd::arithmetic::div_mod::lemma_mod_twice(a as int, p as int);
        }
    }
}

/// A prime is no perfect power and has no proper factor.
pub proof fn lemma_prime_passes_filters(n: nat, r: nat)
    requires
        is_prime(n),
    ensures
        !is_proper_power(n),
        !has_small_factor(n, r),
{
    assert forall|m: nat, k: nat| m >= 2 && k >= 2 implies #[trigger] pow(m as int, k) != n by {
        if pow(m as int, k) == n {
            reveal(pow);
            let x = pow(m as int, (k - 1) as nat);
            assert(pow(m as int, k) == m * x);
            lemma_pow_base_monotone(2, m, (k - 1) as nat);
            vstd::arithmetic::power::lemma_pow_strictly_increases(2, 0, (k - 1) as nat);
            vstd::arithmetic::power::lemma_pow0(2);
            assert(x >= 2);
            assert(m < n) by (nonlinear_arith)
                requires
                    n == m * x,
                    x >= 2,
                    m >= 2,
            ;
            vstd::arithmetic::div_mod::lemma_mod_multiples_basic(x, m as int);
            assert(x * m == m * x) by (nonlinear_arith);
            assert(n % m == 0);
        }
    }
}

/// Completeness: every prime whose modulus exponent lies within the ceiling
/// of the order search is accepted.
pub proof fn lemma_prime_accepted(n: nat)
    requires
        is_prime(n),
        order_modulus(n) <= ORDER_CEILING,
    ensures
        aks_accepts(n),
{
    let r = order_modulus(n);
    lemma_order_modulus(n);
    lemma_prime_passes_filters(n, r);
    assert forall|a: nat| 1 <= a <= witness_bound(n, r) implies #[trigger] witness_holds(n, r, a) by {
        lemma_frobenius(n, r, a);
    }
}

/// Perfect powers are rejected: `m^k` with `m >= 2` and `k >= 2` is never
/// accepted.
pub proof fn lemma_perfect_power_rejected(m: nat, k: nat)
    requires
        m >= 2,
        k >= 2,
    ensures
        pow(m as int, k) >= 0,
        !aks_accepts(pow(m as int, k) as nat),
{
    lemma_pow_base_monotone(0, m, k);
    let n = pow(m as int, k) as nat;
    assert(pow(m as int, k) == n);
    assert(is_proper_power(n));
}

/// The size shortcut is sound: a number that is accepted and not above its
/// modulus exponent is prime.
pub proof fn lemma_shortcut_sound(n: nat)
    requires
        aks_accepts(n),
        n <= order_modulus(n),
    ensures
        is_prime(n),
{
    let r = order_modulus(n);
    assert forall|d: nat| 2 <= d < n implies #[trigger] (n % d) != 0 by {
        if n % d == 0 {
            assert(has_small_factor(n, r));
        }
    }
}

/// The square of the bit length, plus two, is at least the least factor of
/// a composite number below `2^16`.
proof fn lemma_small_factor_bound(n: nat, p: nat)
    requires
        n < 0x1_0000,
        p * p <= n,
    ensures
        p <= bit_length(n) * bit_length(n) + 2,
{
    let b = bit_length(n);
    lemma_bit_length_bounds(n);
    vstd::arithmetic::power2::lemma2_to64();
    if n > 0 {
        if b > 16 {
            vstd::arithmetic::power2::lemma_pow2_strictly_increases(16, (b - 1) as nat);
        }
        assert(b <= 16);
        assert(b >= 1);
        let c = b * b + 3;
        if p >= c {
            assert(p * p >= c * c) by (nonlinear_arith)
                requires
                    p >= c,
                    c >= 0,
            ;
            assert(c * c >= pow2(b)) by {
                if b == 1 {
                    assert(c == 4) by (nonlinear_arith)
                        requires
                            b == 1,
                            c == b * b + 3,
                    ;
                    assert(c * c == 16) by (nonlinear_arith)
                        requires
                            c == 4,
                    ;
                } else if b == 2 {
                    assert(c == 7) by (nonlinear_arith)
                        requires
                            b == 2,
                            c == b * b + 3,
                    ;
                    assert(c * c == 49) by (nonlinear_arith)
                        requires
                            c == 7,
                    ;
                } else if b == 3 {
                    assert(c == 12) by (nonlinear_arith)
                        requires
                            b == 3,
                            c == b * b + 3,
                    ;
                    assert(c * c == 144) by (nonlinear_arith)
                        requires
                            c == 12,
                    ;
                } else if b == 4 {
                    assert(c == 19) by (nonlinear_arith)
                        requires
                            b == 4,
                            c == b * b + 3,
                    ;
                    assert(c * c == 361) by (nonlinear_arith)
                        requires
                            c == 19,
                    ;
                } else if b == 5 {
                    assert(c == 28) by (nonlinear_arith)
                        requires
                            b == 5,
                            c == b * b + 3,
                    ;
                    assert(c * c == 784) by (nonlinear_arith)
                        requires
                            c == 28,
                    ;
                } else if b == 6 {
                    assert(c == 39) by (nonlinear_arith)
                        requires
                            b == 6,
                            c == b * b + 3,
                    ;
                    assert(c * c == 1521) by (nonlinear_arith)
                        requires
                            c == 39,
                    ;
                } else if b == 7 {
                    assert(c == 52) by (nonlinear_arith)
                        requires
                            b == 7,
                            c == b * b + 3,
                    ;
                    assert(c * c == 2704) by (nonlinear_arith)
                        requires
                            c == 52,
                    ;
                } else if b == 8 {
                    assert(c == 67) by (nonlinear_arith)
                        requires
                            b == 8,
                            c == b * b + 3,
                    ;
                    assert(c * c == 4489) by (nonlinear_arith)
                        requires
                            c == 67,
                    ;
                } else if b == 9 {
                    assert(c == 84) by (nonlinear_arith)
                        requires
                            b == 9,
                            c == b * b + 3,
                    ;
                    assert(c * c == 7056) by (nonlinear_arith)
                        requires
                            c == 84,
                    ;
                } else if b == 10 {
                    assert(c == 103) by (nonlinear_arith)
                        requires
                            b == 10,
                            c == b * b + 3,
                    ;
                    assert(c * c == 10609) by (nonlinear_arith)
                        requires
                            c == 103,
                    ;
                } else if b == 11 {
                    assert(c == 124) by (nonlinear_arith)
                        requires
                            b == 11,
                            c == b * b + 3,
                    ;
                    assert(c * c == 15376) by (nonlinear_arith)
                        requires
                            c == 124,
                    ;
                } else if b == 12 {
                    assert(c == 147) by (nonlinear_arith)
                        requires
                            b == 12,
                            c == b * b + 3,
                    ;
                    assert(c * c == 21609) by (nonlinear_arith)
                        requires
                            c == 147,
                    ;
                } else if b == 13 {
                    assert(c == 172) by (nonlinear_arith)
                        requires
                            b == 13,
                            c == b * b + 3,
                    ;
                    assert(c * c == 29584) by (nonlinear_arith)
                        requires
                            c == 172,
                    ;
                } else if b == 14 {
                    assert(c == 199) by (nonlinear_arith)
                        requires
                            b == 14,
                            c == b * b + 3,
                    ;
                    assert(c * c == 39601) by (nonlinear_arith)
                        requires
                            c == 199,
                    ;
                } else if b == 15 {
                    assert(c == 228) by (nonlinear_arith)
                        requires
                            b == 15,
                            c == b * b + 3,
                    ;
                    assert(c * c == 51984) by (nonlinear_arith)
                        requires
                            c == 228,
                    ;
                } else {
                    assert(c == 259) by (nonlinear_arith)
                        requires
                            b == 16,
                            c == b * b + 3,
                    ;
                    assert(c * c == 67081) by (nonlinear_arith)
                        requires
                            c == 259,
                    ;
                }
            }
        }
    } else {
        assert(p * p <= 0);
        assert(p == 0) by (nonlinear_arith)
            requires
                p * p <= 0,
                p >= 0,
        ;
    }
}

/// Below `2^16` every composite number is caught by the trial-factor
/// filter: its least factor is not above its modulus exponent.
pub proof fn lemma_small_composite_rejected(n: nat)
    requires
        2 <= n < 0x1_0000,
        !is_prime(n),
    ensures
        has_small_factor(n, order_modulus(n)),
        !aks_accepts(n),
{
    let r = order_modulus(n);
    lemma_order_modulus(n);
    let p = lemma_least_factor(n);
    lemma_small_factor_bound(n, p);
    assert(p < n) by (nonlinear_arith)
        requires
            p * p <= n,
            p >= 2,
    ;
    if r < p {
        assert forall|d: nat| d >= 2 implies !(#[trigger] (n % d) == 0 && r % d == 0) by {
            if n % d == 0 && r % d == 0 {
                if d > r {
                    lemma_small_mod(r, d);
                }
                assert(d < p);
            }
        }
        assert(coprime(n, r));
        let k = lemma_order_exists(n, r);
        assert(k <= order_bound(n));
        assert(has_order_within(n, r, order_bound(n)));
        assert(false);
    }
    assert(n % p == 0);
}

/// Below `2^16` the procedure accepts exactly the primes.
pub proof fn lemma_exact_below_two_to_16(n: nat)
    requires
        n < 0x1_0000,
    ensures
        aks_accepts(n) == is_prime(n),
{
    if n >= 2 {
        lemma_order_modulus(n);
        if is_prime(n) {
            lemma_prime_accepted(n);
        } else {
            lemma_small_composite_rejected(n);
        }
    }
}

/// Below `2^16`, from 2 on, the procedure and trial division give the same
/// answer.
pub proof fn lemma_agrees_with_trial_division(n: nat)
    requires
        2 <= n < 0x1_0000,
    ensures
        aks_accepts(n) == (n < 4 || is_prime(n)),
{
    lemma_exact_below_two_to_16(n);
    if n == 2 {
        assert(is_prime(2));
    } else if n == 3 {
        assert(3nat % 2 != 0);
        assert(is_prime(3));
    }
}

} // verus!
