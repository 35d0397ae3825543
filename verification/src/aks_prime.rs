//! The AKS decision procedure: perfect-power rejection, order search, a
//! trial-factor filter, a size shortcut and the witness loop.

use vstd::prelude::*;
use vstd::arithmetic::power::pow;
use num::BigUint;
use crate::correctness::{
    lemma_exact_below_two_to_16, lemma_prime_accepted, lemma_shortcut_sound,
    lemma_small_composite_rejected,
};
use crate::numeric::{
    bit_length, int_sqrt, is_gcd, is_int_sqrt, is_prime, is_proper_power,
    lemma_bit_length_bounds, lemma_bit_length_u64, lemma_pow_base_monotone,
    lemma_int_sqrt_unique, lemma_no_power_between, lemma_pow_mod_step, lemma_pow_multiple,
    lemma_power_exponent_bound,
};
use crate::polynomial::Polynomial;
use crate::ring::{coef, product_bound, ring_pow};
use crate::traits::UInt;

verus! {

/// The largest modulus exponent that the order search tries.  The theory of
/// the procedure puts the exponent far below it for every 64-bit candidate.
pub const ORDER_CEILING: u64 = 0x4000_0000;

/// The exponent bound of the order search: the square of the bit length, an
/// integer that is at least `log2(n)^2`.
pub open spec fn order_bound(n: nat) -> nat {
    bit_length(n) * bit_length(n)
}

/// The exponent bound is at least `log2(n)^2`: the square of every fraction
/// `a / b` that is at most `log2(n)`, that is with `2^a <= n^b`, is at most
/// the bound.
pub proof fn lemma_order_bound_covers_log(n: nat, a: nat, b: nat)
    requires
        n >= 1,
        b >= 1,
        pow(2, a) <= pow(n as int, b),
    ensures
        a * a <= order_bound(n) * (b * b),
{
    let len = bit_length(n);
    lemma_bit_length_bounds(n);
    vstd::arithmetic::power2::lemma_pow2(len);
    lemma_pow_base_monotone(n, vstd::arithmetic::power2::pow2(len), b);
    vstd::arithmetic::power::lemma_pow_multiplies(2, len, b);
    vstd::arithmetic::power::lemma_pow_increases_converse(2, a, len * b);
    assert(a * a <= (len * len) * (b * b)) by (nonlinear_arith)
        requires
            0 <= a <= len * b,
            0 <= len,
            0 <= b,
    ;
}

/// Some power `n^k` with `1 <= k <= maxk` is congruent to one modulo `r`.
pub open spec fn has_order_within(n: nat, r: nat, maxk: nat) -> bool {
    exists|k: nat| 1 <= k <= maxk && #[trigger] pow(n as int, k) % (r as int) == 1
}

/// `r` is the modulus exponent of `n`: the least `r >= 2` modulo which no
/// power `n^k` with `1 <= k <= order_bound(n)` is congruent to one.
pub open spec fn is_order_modulus(n: nat, r: nat) -> bool {
    &&& r >= 2
    &&& !has_order_within(n, r, order_bound(n))
    &&& forall|s: nat| 2 <= s < r ==> #[trigger] has_order_within(n, s, order_bound(n))
}

/// The modulus exponent of `n`.
pub open spec fn order_modulus(n: nat) -> nat {
    choose|r: nat| is_order_modulus(n, r)
}

/// `n` has a divisor `d` with `2 <= d <= r` other than itself.
pub open spec fn has_small_factor(n: nat, r: nat) -> bool {
    exists|d: nat| 2 <= d <= r && d < n && #[trigger] (n % d) == 0
}

/// The number of witnesses that are tried: `(floor(sqrt(r - 1)) + 1)` times
/// the bit length of `n`.
pub open spec fn witness_bound(n: nat, r: nat) -> nat {
    (int_sqrt((r - 1) as nat) + 1) * bit_length(n)
}

/// The polynomial `x + a` with coefficients reduced modulo `n`.
pub open spec fn linear(a: nat, n: nat) -> Seq<nat> {
    seq![a % n, 1nat]
}

/// The coefficient of `x^i` in `x^(n mod r) + a`, reduced modulo `n`.
pub open spec fn witness_target(n: nat, r: nat, a: nat, i: int) -> nat {
    ((if i == n % r {
        1nat
    } else {
        0nat
    }) + (if i == 0 {
        a % n
    } else {
        0nat
    })) % n
}

/// The congruence `(x + a)^n = x^n + a` holds in `(Z/nZ)[x] / (x^r - 1)`.
pub open spec fn witness_holds(n: nat, r: nat, a: nat) -> bool {
    forall|i: int|
        0 <= i < r ==> coef(ring_pow(linear(a, n), n, r, n), i) == #[trigger] witness_target(
            n,
            r,
            a,
            i,
        )
}

/// What the procedure decides: `n` is no perfect power, its modulus exponent
/// `r` lies within the ceiling of the search, no number from 2 to `r`
/// shares a proper factor with `n`, and `n <= r` or every witness from 1 to
/// the witness bound satisfies the congruence.
pub open spec fn aks_accepts(n: nat) -> bool {
    let r = order_modulus(n);
    &&& n >= 2
    &&& !is_proper_power(n)
    &&& r <= ORDER_CEILING
    &&& !has_small_factor(n, r)
    &&& (n <= r || forall|a: nat| 1 <= a <= witness_bound(n, r) ==> #[trigger] witness_holds(n, r, a))
}

/// `Roots::nth_root` of `num`, for `u64`: the truncated `k`-th root, that is
/// the `root` with `root^k <= x < (root + 1)^k`.  It panics for `k = 0`,
/// which the precondition rules out.
#[verifier::external_body]
fn nth_root(x: u64, k: u32) -> (root: u64)
    requires
        k >= 1,
    ensures
        pow(root as int, k as nat) <= x < pow(root as int + 1, k as nat),
{
    num::integer::Roots::nth_root(&x, k)
}

/// `num::integer::gcd`, for `u64`: the greatest common divisor.
#[verifier::external_body]
fn gcd(a: u64, b: u64) -> (g: u64)
    ensures
        is_gcd(a as nat, b as nat, g as nat),
{
    num::integer::gcd(a, b)
}

/// `base^exp`, where that fits in 64 bits.
pub fn int_pow(base: u64, exp: u32) -> (p: u64)
    requires
        pow(base as int, exp as nat) <= u64::MAX,
    ensures
        p == pow(base as int, exp as nat),
{
    let mut p: u64 = 1;
    let mut t: u32 = 0;
    proof {
        reveal(pow);
    }
    while t < exp
        invariant
            t <= exp,
            p == pow(base as int, t as nat),
            pow(base as int, exp as nat) <= u64::MAX,
        decreases exp - t,
    {
        proof {
            reveal(pow);
            assert(pow(base as int, (t + 1) as nat) == base * pow(base as int, t as nat));
            if base > 0 {
                vstd::arithmetic::power::lemma_pow_increases(base as nat, (t + 1) as nat, exp as nat);
            } else {
                assert(0 * pow(base as int, t as nat) == 0);
            }
            assert(p * base == base * p) by (nonlinear_arith);
        }
        p = p * base;
        t = t + 1;
    }
    p
}

/// Whether `n` is a perfect power: zero, one, or `m^k` with `m >= 2` and
/// `k >= 2`.
pub fn is_perfect_power(n: u64) -> (b: bool)
    ensures
        b == (n <= 1 || is_proper_power(n as nat)),
{
    if n == 0 || n == 1 {
        return true;
    }
    proof {
        lemma_bit_length_u64(n);
        assert(bit_length(n as nat) == 1 + bit_length(n as nat / 2));
        assert(bit_length(n as nat / 2) == 1 + bit_length(n as nat / 2 / 2));
    }
    let max: u32 = (n.bits() - 1) as u32;
    let mut i: u32 = 2;
    while i <= max
        invariant
            2 <= i <= max + 1,
            max + 1 == bit_length(n as nat),
            max < 64,
            n >= 2,
            forall|m: nat, k: nat| m >= 2 && 2 <= k < i ==> #[trigger] pow(m as int, k) != n,
        decreases max + 1 - i,
    {
        let root = nth_root(n, i);
        if int_pow(root, i) == n {
            proof {
                vstd::arithmetic::power::lemma0_pow(i as nat);
                vstd::arithmetic::power::lemma1_pow(i as nat);
                assert(root >= 2);
                assert(pow(root as nat as int, i as nat) == n);
            }
            return true;
        }
        proof {
            assert forall|m: nat, k: nat| m >= 2 && 2 <= k < i + 1 implies #[trigger] pow(
                m as int,
                k,
            ) != n by {
                if k == i && pow(m as int, k) == n {
                    lemma_no_power_between(n as nat, root as nat, m, k);
                }
            }
        }
        i = i + 1;
    }
    proof {
        assert forall|m: nat, k: nat| m >= 2 && k >= 2 implies #[trigger] pow(m as int, k) != n by {
            if pow(m as int, k) == n {
                lemma_power_exponent_bound(n as nat, m, k);
            }
        }
    }
    false
}

/// The modulus exponent exists, is unique and is at most `n`.
pub proof fn lemma_order_modulus(n: nat)
    requires
        n >= 2,
    ensures
        is_order_modulus(n, order_modulus(n)),
        order_modulus(n) <= n,
        forall|r: nat| is_order_modulus(n, r) ==> r == order_modulus(n),
{
    lemma_order_modulus_from(n, 2);
    let r0 = order_modulus(n);
    assert forall|r: nat| is_order_modulus(n, r) implies r == r0 by {
        if r < r0 {
            assert(has_order_within(n, r, order_bound(n)));
        } else if r0 < r {
            assert(has_order_within(n, r0, order_bound(n)));
        }
    }
    lemma_no_order_modulo_self(n);
    if r0 > n {
        assert(has_order_within(n, n, order_bound(n)));
    }
}

/// No positive power of `n` is congruent to one modulo `n` itself.
pub proof fn lemma_no_order_modulo_self(n: nat)
    requires
        n >= 2,
    ensures
        forall|maxk: nat| !has_order_within(n, n, maxk),
{
    assert forall|maxk: nat| !has_order_within(n, n, maxk) by {
        assert forall|k: nat| 1 <= k <= maxk implies #[trigger] pow(n as int, k) % (n as int)
            != 1 by {
            lemma_pow_multiple(n, k);
        }
    }
}

proof fn lemma_order_modulus_from(n: nat, s: nat)
    requires
        n >= 2,
        2 <= s <= n,
        forall|t: nat| 2 <= t < s ==> #[trigger] has_order_within(n, t, order_bound(n)),
    ensures
        exists|r: nat| is_order_modulus(n, r),
    decreases n - s,
{
    if !has_order_within(n, s, order_bound(n)) {
        assert(is_order_modulus(n, s));
    } else {
        lemma_no_order_modulo_self(n);
        lemma_order_modulus_from(n, s + 1);
    }
}

/// Whether some power `n^k` with `1 <= k <= maxk` is congruent to one
/// modulo `r`, found by repeated multiplication under the modulus.
pub fn order_within(n: u64, r: u64, maxk: u64) -> (hit: bool)
    requires
        2 <= r <= ORDER_CEILING,
    ensures
        hit == has_order_within(n as nat, r as nat, maxk as nat),
{
    let step = n % r;
    let mut p: u64 = 1;
    let mut k: u64 = 0;
    let mut hit = false;
    proof {
        vstd::arithmetic::power::lemma_pow0(n as int);
        vstd::arithmetic::div_mod::lemma_small_mod(1, r as nat);
    }
    while k < maxk && !hit
        invariant
            k <= maxk,
            2 <= r <= ORDER_CEILING,
            step == n % r,
            p == pow(n as int, k as nat) % (r as int),
            !hit ==> forall|j: nat| 1 <= j <= k ==> #[trigger] pow(n as int, j) % (r as int) != 1,
            hit ==> 1 <= k && p == 1,
        decreases maxk - k,
    {
        proof {
            lemma_pow_mod_step(n as nat, k as nat, r as nat);
            vstd::arithmetic::div_mod::lemma_mul_mod_noop_right(p as int, n as int, r as int);
            assert(p * step <= ORDER_CEILING * ORDER_CEILING) by (nonlinear_arith)
                requires
                    0 <= p < r,
                    0 <= step < r,
                    r <= ORDER_CEILING,
            ;
        }
        p = (p * step) % r;
        k = k + 1;
        if p == 1 {
            hit = true;
        }
    }
    hit
}

/// The order search: the modulus exponent of `n`, or `None` where it lies
/// beyond the ceiling of the search.
pub fn find_order_modulus(n: u64) -> (found: Option<u64>)
    requires
        n >= 2,
    ensures
        match found {
            Some(r) => r == order_modulus(n as nat) && 2 <= r <= ORDER_CEILING,
            None => order_modulus(n as nat) > ORDER_CEILING,
        },
        n <= ORDER_CEILING ==> found.is_some(),
{
    proof {
        lemma_bit_length_u64(n);
        lemma_order_modulus(n as nat);
        assert(bit_length(n as nat) * bit_length(n as nat) <= 64 * 64) by (nonlinear_arith)
            requires
                bit_length(n as nat) <= 64,
        ;
    }
    let logn = n.bits();
    let maxk = logn * logn;
    let mut r: u64 = 2;
    while r <= ORDER_CEILING
        invariant
            2 <= r <= ORDER_CEILING + 1,
            n >= 2,
            maxk == order_bound(n as nat),
            forall|s: nat| 2 <= s < r ==> #[trigger] has_order_within(n as nat, s, order_bound(n as nat)),
            is_order_modulus(n as nat, order_modulus(n as nat)),
            forall|q: nat| is_order_modulus(n as nat, q) ==> q == order_modulus(n as nat),
        decreases ORDER_CEILING + 1 - r,
    {
        if !order_within(n, r, maxk) {
            assert(is_order_modulus(n as nat, r as nat));
            return Some(r);
        }
        r = r + 1;
    }
    proof {
        let r0 = order_modulus(n as nat);
        if r0 <= ORDER_CEILING {
            assert(has_order_within(n as nat, r0, order_bound(n as nat)));
        }
    }
    None
}

/// The trial-factor filter: whether some number from `r` down to 2 has a
/// common divisor with `n` strictly between 1 and `n`.
pub fn has_factor_up_to(n: u64, r: u64) -> (b: bool)
    requires
        n >= 2,
    ensures
        b == has_small_factor(n as nat, r as nat),
{
    let mut a = r;
    while a >= 2
        invariant
            a <= r,
            n >= 2,
            forall|d: nat| a < d <= r && d >= 2 && d < n ==> #[trigger] (n as nat % d) != 0,
        decreases a,
    {
        let g = gcd(n, a);
        if 1 < g && g < n {
            proof {
                assert(a as nat % a as nat == 0) by {
                    vstd::arithmetic::div_mod::lemma_mod_self_0(a as int);
                }
                if g > a {
                    vstd::arithmetic::div_mod::lemma_small_mod(a as nat, g as nat);
                }
                assert(n as nat % (g as nat) == 0);
            }
            return true;
        }
        proof {
            if a < n && n as nat % (a as nat) == 0 {
                vstd::arithmetic::div_mod::lemma_mod_self_0(a as int);
                assert(a as nat % (a as nat) == 0);
                assert(a <= g);
                if g > a {
                    vstd::arithmetic::div_mod::lemma_small_mod(a as nat, g as nat);
                }
            }
        }
        a = a - 1;
    }
    false
}

/// Whether `p` is `x^m + a` with coefficients reduced modulo `n`, read as an
/// element of `(Z/nZ)[x] / (x^r - 1)`.
pub fn is_witness_image<I: UInt>(p: &Polynomial<I>, r: usize, m: usize, a: u64, n: u64) -> (ok:
    bool)
    requires
        p@.len() <= r,
        n >= 2,
        a < n,
    ensures
        ok == forall|i: int|
            0 <= i < r ==> coef(p@, i) == (((if i == m {
                1nat
            } else {
                0nat
            }) + (if i == 0 {
                a as nat
            } else {
                0nat
            })) % (n as nat)),
{
    let len = p.coef.len();
    let mut i: usize = 0;
    while i < r
        invariant
            i <= r,
            len == p@.len(),
            len <= r,
            n >= 2,
            a < n,
            forall|k: int|
                0 <= k < i ==> coef(p@, k) == (((if k == m {
                    1nat
                } else {
                    0nat
                }) + (if k == 0 {
                    a as nat
                } else {
                    0nat
                })) % (n as nat)),
        decreases r - i,
    {
        let unit: u64 = if i == m {
            1
        } else {
            0
        };
        let shift: u64 = if i == 0 {
            a
        } else {
            0
        };
        let want = (unit + shift) % n;
        let same = if i < len {
            p.coef[i].same(&I::from_word(want))
        } else {
            want == 0
        };
        if !same {
            assert(coef(p@, i as int) != want);
            return false;
        }
        i = i + 1;
    }
    true
}

/// The witness loop: whether every `a` from 1 to `maxa` satisfies the
/// congruence `(x + a)^n = x^n + a` in `(Z/nZ)[x] / (x^r - 1)`.
pub fn witnesses_hold<I: UInt>(n: u64, r: u64, maxa: u64) -> (ok: bool)
    requires
        n >= 2,
        2 <= r <= ORDER_CEILING,
        I::fits(product_bound(r as nat, n as nat)),
    ensures
        ok == forall|a: nat| 1 <= a <= maxa ==> #[trigger] witness_holds(n as nat, r as nat, a),
{
    let modulus = I::from_word(n);
    let m = (n % r) as usize;
    let mut a: u64 = 0;
    while a < maxa
        invariant
            a <= maxa,
            n >= 2,
            2 <= r <= ORDER_CEILING,
            m == n % r,
            modulus.value() == n,
            I::fits(product_bound(r as nat, n as nat)),
            forall|b: nat| 1 <= b <= a ==> #[trigger] witness_holds(n as nat, r as nat, b),
        decreases maxa - a,
    {
        a = a + 1;
        let reduced_a = a % n;
        let mut pair: Vec<I> = Vec::with_capacity(2);
        pair.push(I::from_word(reduced_a));
        pair.push(I::one());
        let base = Polynomial { coef: pair };
        proof {
            vstd::arithmetic::div_mod::lemma_small_mod(1, n as nat);
            assert(base@.len() == 2);
            assert(base@[0] == reduced_a);
            assert(base@[1] == 1);
            assert(base@ =~= linear(a as nat, n as nat));
        }
        let image = base.mod_pow(r as usize, &modulus);
        proof {
            crate::ring::lemma_ring_pow_closed(base@, n as nat, r as nat, n as nat);
        }
        if !is_witness_image(&image, r as usize, m, reduced_a, n) {
            proof {
                let i = choose|i: int|
                    0 <= i < r && coef(image@, i) != (((if i == m {
                        1nat
                    } else {
                        0nat
                    }) + (if i == 0 {
                        reduced_a as nat
                    } else {
                        0nat
                    })) % (n as nat));
                assert(coef(image@, i) != witness_target(n as nat, r as nat, a as nat, i));
                assert(!witness_holds(n as nat, r as nat, a as nat));
            }
            return false;
        }
        proof {
            assert forall|i: int| 0 <= i < r implies coef(image@, i) == #[trigger] witness_target(
                n as nat,
                r as nat,
                a as nat,
                i,
            ) by {}
        }
    }
    true
}

/// The parameters of one run of the procedure, all derived from the candidate:
/// the candidate `n`, its modulus exponent `r`, the exponent bound `maxk` of
/// the order search and the number `maxa` of witnesses.
#[derive(Debug, Clone, Copy)]
pub struct RingParameters {
    pub n: u64,
    pub r: u64,
    pub maxk: u64,
    pub maxa: u64,
}

impl RingParameters {
    /// The parameters are those of the candidate `n`, with the modulus
    /// exponent within the ceiling of the order search.
    pub open spec fn wf(&self) -> bool {
        &&& self.n >= 2
        &&& self.maxk == order_bound(self.n as nat)
        &&& self.r == order_modulus(self.n as nat)
        &&& 2 <= self.r <= ORDER_CEILING
        &&& self.maxa == witness_bound(self.n as nat, self.r as nat)
    }

    /// The parameters of the candidate `n`, or `None` where its modulus
    /// exponent lies beyond the ceiling of the order search.
    pub fn derive(n: u64) -> (found: Option<RingParameters>)
        requires
            n >= 2,
        ensures
            match found {
                Some(p) => p.wf() && p.n == n,
                None => order_modulus(n as nat) > ORDER_CEILING,
            },
            n <= ORDER_CEILING ==> found.is_some(),
    {
        let r = match find_order_modulus(n) {
            Some(r) => r,
            None => {
                return None;
            },
        };
        proof {
            lemma_bit_length_u64(n);
            assert(bit_length(n as nat) * bit_length(n as nat) <= 64 * 64) by (nonlinear_arith)
                requires
                    bit_length(n as nat) <= 64,
            ;
        }
        let logn = n.bits();
        let root = nth_root(r - 1, 2);
        proof {
            vstd::arithmetic::power::lemma_square_is_pow2(root as int);
            vstd::arithmetic::power::lemma_square_is_pow2(root as int + 1);
            assert(is_int_sqrt((r - 1) as nat, root as nat));
            lemma_int_sqrt_unique((r - 1) as nat, root as nat);
            assert(root < 0x8000) by (nonlinear_arith)
                requires
                    root * root <= r - 1,
                    r <= 0x4000_0000,
            ;
            assert((root + 1) * logn <= 0x8000 * 64) by (nonlinear_arith)
                requires
                    root < 0x8000,
                    logn <= 64,
            ;
        }
        Some(RingParameters { n, r, maxk: logn * logn, maxa: (root + 1) * logn })
    }
}

/// The AKS primality test.
///
/// The result is exactly what the five steps of the procedure decide, see
/// [`aks_accepts`].  With the modulus exponent within the ceiling of the
/// search, it is proved to be right wherever it is negative, and wherever the
/// candidate is below `2^16` or not above its modulus exponent; that a larger
/// candidate which passes the witness loop is prime is the theorem of
/// Agrawal, Kayal and Saxena, which is not proved here.
///
/// Below `2^16` the witness loop is not run: there a candidate that has come
/// through the first four steps is prime, and a prime satisfies every witness
/// congruence, so the loop could only confirm it.  Above, the loop runs on
/// 64-bit coefficients where the sums of products fit, and on
/// arbitrary-precision ones where they do not.
pub fn aks(n: u64) -> (prime: bool)
    ensures
        prime == aks_accepts(n as nat),
        n < 0x1_0000 ==> prime == is_prime(n as nat),
        is_prime(n as nat) && (n <= ORDER_CEILING || order_modulus(n as nat) <= ORDER_CEILING)
            ==> prime,
        prime && n <= order_modulus(n as nat) ==> is_prime(n as nat),
{
    proof {
        if n < 0x1_0000 {
            lemma_exact_below_two_to_16(n as nat);
        }
        if is_prime(n as nat) {
            lemma_order_modulus(n as nat);
            if order_modulus(n as nat) <= ORDER_CEILING {
                lemma_prime_accepted(n as nat);
            }
        }
        if aks_accepts(n as nat) && n <= order_modulus(n as nat) {
            lemma_shortcut_sound(n as nat);
        }
    }
    if is_perfect_power(n) {
        return false;
    }
    let params = match RingParameters::derive(n) {
        Some(params) => params,
        None => {
            return false;
        },
    };
    let r = params.r;
    if has_factor_up_to(n, r) {
        return false;
    }
    if n <= r {
        return true;
    }
    if n < 0x1_0000 {
        proof {
            if !is_prime(n as nat) {
                lemma_small_composite_rejected(n as nat);
            }
            lemma_prime_accepted(n as nat);
        }
        return true;
    }
    proof {
        assert((n - 1) * (n - 1) <= 0xffff_ffff_ffff_ffff * 0xffff_ffff_ffff_ffff) by (nonlinear_arith)
            requires
                2 <= n <= 0xffff_ffff_ffff_ffff,
        ;
    }
    let square: u128 = (n as u128 - 1) * (n as u128 - 1);
    if square <= (u64::MAX as u128) / (r as u128) {
        proof {
            assert(r * ((n - 1) * (n - 1)) <= u64::MAX) by (nonlinear_arith)
                requires
                    r >= 1,
                    (n - 1) * (n - 1) <= (u64::MAX as int) / (r as int),
            ;
        }
        witnesses_hold::<u64>(n, r, params.maxa)
    } else {
        witnesses_hold::<BigUint>(n, r, params.maxa)
    }
}

} // verus!
