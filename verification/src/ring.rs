//! The mathematical model of the ring `(Z/nZ)[x] / (x^r - 1)`.
//!
//! A polynomial is the sequence of its coefficients, index = degree, possibly
//! shorter than `r`; missing coefficients are zero.  Multiplication is cyclic
//! convolution with every coefficient reduced modulo `n`.

use vstd::prelude::*;
use vstd::arithmetic::div_mod::{
    lemma_mod_bound, lemma_mul_mod_noop_general, lemma_small_mod, lemma_sub_mod_noop,
    lemma_mod_twice, lemma_mod_add_multiples_vanish,
};
use crate::sums::{
    sum, lemma_sum_bound, lemma_sum_exchange, lemma_sum_mod, lemma_sum_reflect,
    lemma_sum_rotate, lemma_sum_scale, lemma_sum_skip,
};

verus! {

/// The coefficient of `x^i` in `p`; zero outside the stored range.
pub open spec fn coef(p: Seq<nat>, i: int) -> nat {
    if 0 <= i < p.len() {
        p[i]
    } else {
        0
    }
}

/// The contribution of `a[j]` to the coefficient of `x^i` in the cyclic
/// product of `a` and `b`: `a[j] * b[(i - j) mod r]`.
pub open spec fn cyc_term(a: Seq<nat>, b: Seq<nat>, r: nat, i: int, j: int) -> nat {
    coef(a, j) * coef(b, (i - j) % (r as int))
}

/// The coefficient of `x^i` in the product of `a` and `b` modulo `x^r - 1`,
/// before reduction of the coefficients: the sum over `j` of
/// `a[j] * b[(i - j) mod r]`.
pub open spec fn cyc_conv(a: Seq<nat>, b: Seq<nat>, r: nat, i: int) -> nat {
    sum(|j: int| cyc_term(a, b, r, i, j), r)
}

/// The product of `a` and `b` modulo `x^r - 1` with integer coefficients,
/// written out to the full length `r`.
pub open spec fn cyc_mul(a: Seq<nat>, b: Seq<nat>, r: nat) -> Seq<nat> {
    Seq::new(r, |i: int| cyc_conv(a, b, r, i))
}

/// The number of coefficients of a product: one more than the sum of the
/// degrees, capped at `r`.
pub open spec fn mul_len(la: nat, lb: nat, r: nat) -> nat {
    if la + lb - 1 < r {
        (la + lb - 1) as nat
    } else {
        r
    }
}

/// The product of `a` and `b` in `(Z/nZ)[x] / (x^r - 1)`.
pub open spec fn ring_mul(a: Seq<nat>, b: Seq<nat>, r: nat, n: nat) -> Seq<nat> {
    Seq::new(mul_len(a.len(), b.len(), r), |i: int| cyc_conv(a, b, r, i) % n)
}

/// The power `p^e` in `(Z/nZ)[x] / (x^r - 1)`.
pub open spec fn ring_pow(p: Seq<nat>, e: nat, r: nat, n: nat) -> Seq<nat>
    decreases e,
{
    if e == 0 {
        seq![1nat % n]
    } else {
        ring_mul(ring_pow(p, (e - 1) as nat, r, n), p, r, n)
    }
}

/// Every stored coefficient lies in `[0, n)`.
pub open spec fn reduced(p: Seq<nat>, n: nat) -> bool {
    forall|i: int| 0 <= i < p.len() ==> (#[trigger] p[i]) < n
}

/// A sequence is an element of the ring: between one and `r` coefficients.
pub open spec fn sized(p: Seq<nat>, r: nat) -> bool {
    1 <= p.len() <= r
}

/// Which coefficient of `b` meets `a[j]` in the coefficient of `x^i`.
pub proof fn lemma_term_cases(a: Seq<nat>, b: Seq<nat>, r: nat, i: int, j: int)
    requires
        0 <= i < r,
        0 <= j < r,
    ensures
        j <= i ==> cyc_term(a, b, r, i, j) == coef(a, j) * coef(b, i - j),
        j > i ==> cyc_term(a, b, r, i, j) == coef(a, j) * coef(b, i + r - j),
{
    if j <= i {
        lemma_small_mod((i - j) as nat, r);
    } else {
        lemma_small_mod((i + r - j) as nat, r);
        lemma_mod_add_multiples_vanish(i - j, r as int);
    }
}

/// Beyond the sum of the degrees every coefficient of a product is zero.
pub proof fn lemma_conv_tail_zero(a: Seq<nat>, b: Seq<nat>, r: nat, i: int)
    requires
        sized(a, r),
        sized(b, r),
        a.len() + b.len() - 1 <= i < r,
    ensures
        cyc_conv(a, b, r, i) == 0,
{
    let f = |j: int| cyc_term(a, b, r, i, j);
    assert forall|j: int| 0 <= j < r implies (#[trigger] f(j)) == 0 by {
        lemma_term_cases(a, b, r, i, j);
        if j < a.len() {
            assert(coef(b, i - j) == 0);
            assert(coef(a, j) * 0 == 0);
        } else {
            assert(coef(a, j) == 0);
        }
    }
    lemma_sum_skip(f, 0, r);
}

/// With missing coefficients read as zero, the product has the reduced
/// convolution at every index below `r`.
pub proof fn lemma_coef_ring_mul(a: Seq<nat>, b: Seq<nat>, r: nat, n: nat, i: int)
    requires
        sized(a, r),
        sized(b, r),
        n > 0,
        0 <= i < r,
    ensures
        coef(ring_mul(a, b, r, n), i) == cyc_conv(a, b, r, i) % n,
        coef(cyc_mul(a, b, r), i) == cyc_conv(a, b, r, i),
{
    if i >= mul_len(a.len(), b.len(), r) {
        lemma_conv_tail_zero(a, b, r, i);
        lemma_small_mod(0, n);
    }
}

/// The convolution is symmetric in its two factors.
pub proof fn lemma_conv_commutes(a: Seq<nat>, b: Seq<nat>, r: nat, i: int)
    requires
        0 <= i < r,
    ensures
        cyc_conv(a, b, r, i) == cyc_conv(b, a, r, i),
{
    let f = |k: int| cyc_term(b, a, r, i, k);
    let g = |j: int| cyc_term(a, b, r, i, j);
    assert forall|j: int| 0 <= j < r implies (#[trigger] g(j)) == f((i - j) % (r as int)) by {
        let k = (i - j) % (r as int);
        lemma_mod_bound(i - j, r as int);
        lemma_sub_mod_noop(i, i - j, r as int);
        lemma_small_mod(j as nat, r);
        lemma_small_mod(i as nat, r);
        assert((i - k) % (r as int) == j);
        assert(coef(a, j) * coef(b, k) == coef(b, k) * coef(a, j)) by (nonlinear_arith);
    }
    lemma_sum_reflect(f, g, r, i);
}

/// Multiplication in the ring is commutative.
pub proof fn lemma_ring_mul_commutes(a: Seq<nat>, b: Seq<nat>, r: nat, n: nat)
    requires
        a.len() >= 1,
        b.len() >= 1,
        n > 0,
    ensures
        ring_mul(a, b, r, n) == ring_mul(b, a, r, n),
{
    let ab = ring_mul(a, b, r, n);
    let ba = ring_mul(b, a, r, n);
    assert(ab.len() == ba.len());
    assert forall|i: int| 0 <= i < ab.len() implies ab[i] == ba[i] by {
        lemma_conv_commutes(a, b, r, i);
    }
    assert(ab =~= ba);
}

/// Replacing the coefficients of the left factor by congruent ones changes no
/// coefficient of the product modulo `n`.
pub proof fn lemma_conv_mod_left(a: Seq<nat>, a2: Seq<nat>, b: Seq<nat>, r: nat, n: nat, i: int)
    requires
        n > 0,
        forall|k: int| 0 <= k < r ==> (#[trigger] coef(a, k)) % n == coef(a2, k) % n,
    ensures
        cyc_conv(a, b, r, i) % n == cyc_conv(a2, b, r, i) % n,
{
    let f = |j: int| cyc_term(a, b, r, i, j);
    let g = |j: int| cyc_term(a2, b, r, i, j);
    assert forall|j: int| 0 <= j < r implies (#[trigger] f(j)) % n == g(j) % n by {
        let y = coef(b, (i - j) % (r as int));
        assert(coef(a, j) % n == coef(a2, j) % n);
        lemma_mul_mod_noop_general(coef(a, j) as int, y as int, n as int);
        lemma_mul_mod_noop_general(coef(a2, j) as int, y as int, n as int);
    }
    lemma_sum_mod(f, g, n, r);
}

/// Replacing the coefficients of the right factor by congruent ones changes
/// no coefficient of the product modulo `n`.
pub proof fn lemma_conv_mod_right(a: Seq<nat>, b: Seq<nat>, b2: Seq<nat>, r: nat, n: nat, i: int)
    requires
        n > 0,
        0 <= i < r,
        forall|k: int| 0 <= k < r ==> (#[trigger] coef(b, k)) % n == coef(b2, k) % n,
    ensures
        cyc_conv(a, b, r, i) % n == cyc_conv(a, b2, r, i) % n,
{
    lemma_conv_commutes(a, b, r, i);
    lemma_conv_commutes(a, b2, r, i);
    lemma_conv_mod_left(b, b2, a, r, n, i);
}

/// Cyclic convolution with integer coefficients is associative.
pub proof fn lemma_conv_assoc(a: Seq<nat>, b: Seq<nat>, c: Seq<nat>, r: nat, i: int)
    requires
        r > 0,
        0 <= i < r,
    ensures
        cyc_conv(cyc_mul(a, b, r), c, r, i) == cyc_conv(a, cyc_mul(b, c, r), r, i),
{
    let ab = cyc_mul(a, b, r);
    let bc = cyc_mul(b, c, r);
    let ri = r as int;
    let t = |j: int, l: int| coef(c, (i - j) % ri) * cyc_term(a, b, r, j, l);
    let rows = |j: int| cyc_term(ab, c, r, i, j);
    let cols = |l: int| cyc_term(a, bc, r, i, l);
    assert forall|j: int| 0 <= j < r implies (#[trigger] rows(j)) == sum(|l: int| t(j, l), r) by {
        let inner = |l: int| cyc_term(a, b, r, j, l);
        let scaled = |l: int| t(j, l);
        let y = coef(c, (i - j) % ri);
        lemma_sum_scale(inner, y, scaled, r);
        assert(coef(ab, j) == sum(inner, r));
        assert(coef(ab, j) * y == y * coef(ab, j)) by (nonlinear_arith);
    }
    assert forall|l: int| 0 <= l < r implies (#[trigger] cols(l)) == sum(|j: int| t(j, l), r) by {
        let m = (i - l) % ri;
        lemma_mod_bound(i - l, ri);
        let h = |k: int| cyc_term(b, c, r, m, k);
        let g = |j: int| coef(b, (j - l) % ri) * coef(c, (i - j) % ri);
        assert forall|j: int| 0 <= j < r implies (#[trigger] g(j)) == h((j + (-l)) % ri) by {
            let k = (j - l) % ri;
            lemma_sub_mod_noop(i - l, j - l, ri);
            assert((i - l) - (j - l) == i - j);
            assert((m - k) % ri == (i - j) % ri);
        }
        lemma_sum_rotate(h, g, r, -l);
        assert(coef(bc, m) == sum(h, r));
        let column = |j: int| t(j, l);
        let x = coef(a, l);
        assert forall|j: int| 0 <= j < r implies (#[trigger] column(j)) == x * g(j) by {
            let u = coef(b, (j - l) % ri);
            let v = coef(c, (i - j) % ri);
            assert(v * (x * u) == x * (u * v)) by (nonlinear_arith);
        }
        lemma_sum_scale(g, x, column, r);
    }
    lemma_sum_exchange(t, rows, cols, r, r);
}

/// Multiplication in the ring is associative.
pub proof fn lemma_ring_mul_assoc(a: Seq<nat>, b: Seq<nat>, c: Seq<nat>, r: nat, n: nat)
    requires
        sized(a, r),
        sized(b, r),
        sized(c, r),
        n > 0,
    ensures
        ring_mul(ring_mul(a, b, r, n), c, r, n) == ring_mul(a, ring_mul(b, c, r, n), r, n),
{
    let ab = ring_mul(a, b, r, n);
    let bc = ring_mul(b, c, r, n);
    let left = ring_mul(ab, c, r, n);
    let right = ring_mul(a, bc, r, n);
    assert(left.len() == right.len());
    assert forall|i: int| 0 <= i < left.len() implies left[i] == right[i] by {
        assert forall|k: int| 0 <= k < r implies (#[trigger] coef(ab, k)) % n == coef(
            cyc_mul(a, b, r),
            k,
        ) % n by {
            lemma_coef_ring_mul(a, b, r, n, k);
            lemma_mod_twice(cyc_conv(a, b, r, k) as int, n as int);
        }
        assert forall|k: int| 0 <= k < r implies (#[trigger] coef(bc, k)) % n == coef(
            cyc_mul(b, c, r),
            k,
        ) % n by {
            lemma_coef_ring_mul(b, c, r, n, k);
            lemma_mod_twice(cyc_conv(b, c, r, k) as int, n as int);
        }
        lemma_conv_mod_left(ab, cyc_mul(a, b, r), c, r, n, i);
        lemma_conv_assoc(a, b, c, r, i);
        lemma_conv_mod_right(a, bc, cyc_mul(b, c, r), r, n, i);
    }
    assert(left =~= right);
}

/// The constant polynomial one is neutral for reduced polynomials.
pub proof fn lemma_ring_mul_one(a: Seq<nat>, r: nat, n: nat)
    requires
        sized(a, r),
        reduced(a, n),
        n > 0,
    ensures
        ring_mul(a, seq![1nat % n], r, n) == a,
{
    let one = seq![1nat % n];
    let res = ring_mul(a, one, r, n);
    assert(res.len() == a.len());
    assert forall|i: int| 0 <= i < a.len() implies res[i] == a[i] by {
        lemma_conv_commutes(a, one, r, i);
        let f = |j: int| cyc_term(one, a, r, i, j);
        assert forall|j: int| 1 <= j < r implies (#[trigger] f(j)) == 0 by {
            assert(coef(one, j) == 0);
            assert(0 * coef(a, (i - j) % (r as int)) == 0);
        }
        lemma_sum_skip(f, 1, r);
        assert(sum(f, 1) == sum(f, 0) + f(0));
        lemma_small_mod(i as nat, r);
        assert(f(0) == (1nat % n) * a[i]);
        lemma_mul_mod_noop_general(1, a[i] as int, n as int);
        assert(1 * a[i] == a[i]);
        lemma_small_mod(a[i], n);
    }
    assert(res =~= a);
}

/// A product of ring elements is a reduced ring element.
pub proof fn lemma_ring_mul_closed(a: Seq<nat>, b: Seq<nat>, r: nat, n: nat)
    requires
        sized(a, r),
        sized(b, r),
        n > 0,
    ensures
        sized(ring_mul(a, b, r, n), r),
        reduced(ring_mul(a, b, r, n), n),
        ring_mul(a, b, r, n).len() == mul_len(a.len(), b.len(), r),
{
    let res = ring_mul(a, b, r, n);
    assert forall|i: int| 0 <= i < res.len() implies (#[trigger] res[i]) < n by {
        lemma_mod_bound(cyc_conv(a, b, r, i) as int, n as int);
    }
}

/// A power of a ring element is a reduced ring element, with one coefficient
/// more than `e` times the degree of the base, capped at `r`.
pub proof fn lemma_ring_pow_closed(p: Seq<nat>, e: nat, r: nat, n: nat)
    requires
        sized(p, r),
        n > 0,
    ensures
        sized(ring_pow(p, e, r, n), r),
        reduced(ring_pow(p, e, r, n), n),
        ring_pow(p, e, r, n).len() == if e * (p.len() - 1) + 1 < r {
            e * (p.len() - 1) + 1
        } else {
            r as int
        },
    decreases e,
{
    if e == 0 {
        lemma_mod_bound(1, n as int);
        assert(0 * (p.len() - 1) == 0);
    } else {
        lemma_ring_pow_closed(p, (e - 1) as nat, r, n);
        lemma_ring_mul_closed(ring_pow(p, (e - 1) as nat, r, n), p, r, n);
        assert((e - 1) * (p.len() - 1) + (p.len() - 1) == e * (p.len() - 1)) by (nonlinear_arith);
        assert((e - 1) * (p.len() - 1) >= 0) by (nonlinear_arith)
            requires
                e >= 1,
                p.len() >= 1,
        ;
    }
}

/// The exponent law: the product of two powers of one base is the power with
/// the sum of the exponents.
pub proof fn lemma_ring_pow_adds(p: Seq<nat>, i: nat, j: nat, r: nat, n: nat)
    requires
        sized(p, r),
        n > 0,
    ensures
        ring_mul(ring_pow(p, i, r, n), ring_pow(p, j, r, n), r, n) == ring_pow(p, i + j, r, n),
    decreases j,
{
    lemma_ring_pow_closed(p, i, r, n);
    if j == 0 {
        lemma_ring_mul_one(ring_pow(p, i, r, n), r, n);
    } else {
        let k = (j - 1) as nat;
        lemma_ring_pow_closed(p, k, r, n);
        lemma_ring_mul_assoc(ring_pow(p, i, r, n), ring_pow(p, k, r, n), p, r, n);
        lemma_ring_pow_adds(p, i, k, r, n);
        assert(i + j - 1 == i + k);
    }
}

/// The largest value that a coefficient of a product of polynomials reduced
/// modulo `n` can take before its own reduction: `r * (n - 1)^2`.
pub open spec fn product_bound(r: nat, n: nat) -> nat {
    (r * ((n - 1) * (n - 1))) as nat
}

/// Every coefficient of a product of reduced polynomials, before reduction,
/// is at most `r * (n - 1)^2`.
pub proof fn lemma_conv_bound(a: Seq<nat>, b: Seq<nat>, r: nat, n: nat, i: int)
    requires
        reduced(a, n),
        reduced(b, n),
        n > 0,
    ensures
        cyc_conv(a, b, r, i) <= product_bound(r, n),
{
    let f = |j: int| cyc_term(a, b, r, i, j);
    let c = ((n - 1) * (n - 1)) as nat;
    assert forall|j: int| 0 <= j < r implies (#[trigger] f(j)) <= c by {
        let x = coef(a, j);
        let y = coef(b, (i - j) % (r as int));
        assert(x <= n - 1);
        assert(y <= n - 1);
        assert(x * y <= (n - 1) * (n - 1)) by (nonlinear_arith)
            requires
                0 <= x <= n - 1,
                0 <= y <= n - 1,
        ;
    }
    lemma_sum_bound(f, r, c);
    assert(r * c >= 0) by (nonlinear_arith)
        requires
            r >= 0,
            c >= 0,
    ;
}

} // verus!
