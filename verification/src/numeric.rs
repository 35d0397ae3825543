//! Elementary number-theoretic vocabulary used by the contracts of the crate.

use vstd::prelude::*;
use vstd::arithmetic::power::pow;
use vstd::arithmetic::power2::pow2;

verus! {

/// The number of binary digits of `v`: zero for zero, else `floor(log2 v) + 1`.
pub open spec fn bit_length(v: nat) -> nat
    decreases v,
{
    if v == 0 {
        0
    } else {
        1 + bit_length(v / 2)
    }
}

/// Whether the binary digit of weight `2^i` is set in `v`.
pub open spec fn bit_at(v: nat, i: nat) -> bool {
    (v / pow2(i)) % 2 == 1
}

/// `n` is a prime number.
pub open spec fn is_prime(n: nat) -> bool {
    n >= 2 && forall|d: nat| 2 <= d < n ==> #[trigger] (n % d) != 0
}

/// `n` is `m^k` for some base `m >= 2` and exponent `k >= 2`.
pub open spec fn is_proper_power(n: nat) -> bool {
    exists|m: nat, k: nat| m >= 2 && k >= 2 && #[trigger] pow(m as int, k) == n
}

/// `g` is the greatest common divisor of `a` and `b`; that of zero and zero
/// is zero.
pub open spec fn is_gcd(a: nat, b: nat, g: nat) -> bool {
    if a == 0 && b == 0 {
        g == 0
    } else {
        &&& g > 0
        &&& a % g == 0
        &&& b % g == 0
        &&& forall|d: nat| d > 0 && #[trigger] (a % d) == 0 && b % d == 0 ==> d <= g
    }
}

/// Whether `s` is the integer square root of `x`: `s^2 <= x < (s + 1)^2`.
pub open spec fn is_int_sqrt(x: nat, s: nat) -> bool {
    s * s <= x < (s + 1) * (s + 1)
}

/// The integer square root of `x`, rounded down.
pub open spec fn int_sqrt(x: nat) -> nat {
    choose|s: nat| is_int_sqrt(x, s)
}

/// The integer square root is unique.
pub proof fn lemma_int_sqrt_unique(x: nat, s: nat)
    requires
        is_int_sqrt(x, s),
    ensures
        int_sqrt(x) == s,
{
    let t = int_sqrt(x);
    assert(is_int_sqrt(x, t));
    if t < s {
        assert((t + 1) * (t + 1) <= s * s) by (nonlinear_arith)
            requires
                0 <= t + 1 <= s,
        ;
    } else if t > s {
        assert((s + 1) * (s + 1) <= t * t) by (nonlinear_arith)
            requires
                0 <= s + 1 <= t,
        ;
    }
}

/// A value of at most 64 bits is below `2^bit_length`.
pub proof fn lemma_bit_length_bounds(v: nat)
    ensures
        v < pow2(bit_length(v)),
        v > 0 ==> pow2((bit_length(v) - 1) as nat) <= v,
    decreases v,
{
    vstd::arithmetic::power2::lemma_pow2(bit_length(v));
    reveal(pow);
    if v == 0 {
    } else {
        lemma_bit_length_bounds(v / 2);
        vstd::arithmetic::power2::lemma_pow2_unfold(bit_length(v));
        if v / 2 > 0 {
            vstd::arithmetic::power2::lemma_pow2_unfold((bit_length(v) - 1) as nat);
        } else {
            vstd::arithmetic::power2::lemma_pow2(0);
        }
    }
}

/// The bit length is monotone.
pub proof fn lemma_bit_length_monotone(a: nat, b: nat)
    requires
        a <= b,
    ensures
        bit_length(a) <= bit_length(b),
    decreases b,
{
    if a == 0 {
    } else {
        lemma_bit_length_monotone(a / 2, b / 2);
    }
}

/// Every 64-bit value has at most 64 binary digits.
pub proof fn lemma_bit_length_u64(v: u64)
    ensures
        bit_length(v as nat) <= 64,
{
    assert(bit_length(0) == 0);
    lemma_bit_length_pow2_minus_one(64);
    vstd::arithmetic::power2::lemma2_to64();
    lemma_bit_length_monotone(v as nat, (pow2(64) - 1) as nat);
}

/// `2^e - 1` has exactly `e` binary digits.
pub proof fn lemma_bit_length_pow2_minus_one(e: nat)
    ensures
        pow2(e) >= 1,
        bit_length((pow2(e) - 1) as nat) == e,
    decreases e,
{
    vstd::arithmetic::power2::lemma_pow2_pos(e);
    if e == 0 {
        vstd::arithmetic::power2::lemma_pow2(0);
        reveal(pow);
    } else {
        lemma_bit_length_pow2_minus_one((e - 1) as nat);
        vstd::arithmetic::power2::lemma_pow2_unfold(e);
        let h = pow2((e - 1) as nat);
        assert((2 * h - 1) / 2 == h - 1);
    }
}

/// Dropping one more low digit halves the remaining prefix: the prefix of `v`
/// above position `i` is twice the prefix above `i + 1` plus the digit at `i`.
pub proof fn lemma_prefix_step(v: nat, i: nat)
    ensures
        v / pow2(i) == 2 * (v / pow2(i + 1)) + (if bit_at(v, i) { 1nat } else { 0nat }),
{
    vstd::arithmetic::power2::lemma_pow2_pos(i);
    vstd::arithmetic::power2::lemma_pow2_unfold(i + 1);
    let x = v / pow2(i);
    vstd::arithmetic::div_mod::lemma_div_denominator(v as int, pow2(i) as int, 2);
    assert(pow2(i) * 2 == pow2(i + 1));
    assert(x / 2 == v / pow2(i + 1));
    assert(x == 2 * (x / 2) + x % 2);
}

/// Above its bit length a value has no digits left.
pub proof fn lemma_prefix_empty(v: nat)
    ensures
        v / pow2(bit_length(v)) == 0,
        v / pow2(0) == v,
{
    lemma_bit_length_bounds(v);
    vstd::arithmetic::power2::lemma_pow2_pos(bit_length(v));
    vstd::arithmetic::div_mod::lemma_basic_div(v as int, pow2(bit_length(v)) as int);
    vstd::arithmetic::power2::lemma_pow2(0);
    reveal(pow);
}

/// Powers are monotone in the base.
pub proof fn lemma_pow_base_monotone(a: nat, b: nat, e: nat)
    requires
        a <= b,
    ensures
        0 <= pow(a as int, e) <= pow(b as int, e),
    decreases e,
{
    reveal(pow);
    if e > 0 {
        lemma_pow_base_monotone(a, b, (e - 1) as nat);
        let x = pow(a as int, (e - 1) as nat);
        let y = pow(b as int, (e - 1) as nat);
        assert(a * x <= b * y) by (nonlinear_arith)
            requires
                0 <= a <= b,
                0 <= x <= y,
        ;
        assert(0 <= a * x) by (nonlinear_arith)
            requires
                0 <= a,
                0 <= x,
        ;
    }
}

/// A number with `m^k = n` for a base `m >= 2` has at least `k + 1` binary
/// digits.
pub proof fn lemma_power_exponent_bound(n: nat, m: nat, k: nat)
    requires
        m >= 2,
        pow(m as int, k) == n,
    ensures
        k < bit_length(n),
{
    lemma_pow_base_monotone(2, m, k);
    lemma_bit_length_bounds(n);
    vstd::arithmetic::power2::lemma_pow2(k);
    vstd::arithmetic::power2::lemma_pow2(bit_length(n));
    if k >= bit_length(n) {
        vstd::arithmetic::power::lemma_pow_increases(2, bit_length(n), k);
    }
}

/// Between two consecutive `k`-th powers there is no `k`-th power.
pub proof fn lemma_no_power_between(n: nat, root: nat, m: nat, k: nat)
    requires
        pow(root as int, k) <= n < pow(root as int + 1, k),
        pow(m as int, k) == n,
    ensures
        pow(root as int, k) == n,
{
    if m <= root {
        lemma_pow_base_monotone(m, root, k);
    } else {
        lemma_pow_base_monotone(root + 1, m, k);
    }
}

/// Every positive power of `n` is a multiple of `n`.
pub proof fn lemma_pow_multiple(n: nat, k: nat)
    requires
        n > 0,
        k >= 1,
    ensures
        pow(n as int, k) % (n as int) == 0,
{
    reveal(pow);
    let x = pow(n as int, (k - 1) as nat);
    assert(pow(n as int, k) == n * x);
    vstd::arithmetic::div_mod::lemma_mod_multiples_basic(x, n as int);
    assert(x * n == n * x) by (nonlinear_arith);
}

/// One more factor under the modulus: `(n^k mod r) * n mod r = n^(k+1) mod r`.
pub proof fn lemma_pow_mod_step(n: nat, k: nat, r: nat)
    requires
        r > 0,
    ensures
        ((pow(n as int, k) % (r as int)) * n) % (r as int) == pow(n as int, k + 1) % (r as int),
{
    reveal(pow);
    let x = pow(n as int, k);
    vstd::arithmetic::div_mod::lemma_mul_mod_noop_left(x, n as int, r as int);
    assert(pow(n as int, k + 1) == n * x);
    assert(x * n == n * x) by (nonlinear_arith);
}

} // verus!
