//! Finite sums of natural-number valued functions over an initial segment of
//! the integers, and the rearrangements that the ring laws need.

use vstd::prelude::*;
use vstd::arithmetic::div_mod::{
    lemma_add_mod_noop, lemma_fundamental_div_mod, lemma_fundamental_div_mod_converse,
    lemma_mod_bound, lemma_small_mod,
};

verus! {

/// `f(0) + f(1) + ... + f(m - 1)`.
pub open spec fn sum(f: spec_fn(int) -> nat, m: nat) -> nat
    decreases m,
{
    if m == 0 {
        0
    } else {
        sum(f, (m - 1) as nat) + f(m - 1)
    }
}

/// Sums of pointwise equal functions are equal.
pub proof fn lemma_sum_ext(f: spec_fn(int) -> nat, g: spec_fn(int) -> nat, m: nat)
    requires
        forall|j: int| 0 <= j < m ==> (#[trigger] f(j)) == g(j),
    ensures
        sum(f, m) == sum(g, m),
    decreases m,
{
    if m > 0 {
        lemma_sum_ext(f, g, (m - 1) as nat);
    }
}

/// Trailing zero terms do not change a sum.
pub proof fn lemma_sum_skip(f: spec_fn(int) -> nat, k: nat, m: nat)
    requires
        k <= m,
        forall|j: int| k <= j < m ==> (#[trigger] f(j)) == 0,
    ensures
        sum(f, m) == sum(f, k),
    decreases m,
{
    if m > k {
        lemma_sum_skip(f, k, (m - 1) as nat);
    }
}

/// A longer sum is at least as large as a shorter one, and every term is at
/// most the sum that contains it.
pub proof fn lemma_sum_monotone(f: spec_fn(int) -> nat, k: nat, m: nat)
    requires
        k <= m,
    ensures
        sum(f, k) <= sum(f, m),
        k < m ==> sum(f, k) + f(k as int) <= sum(f, m),
    decreases m,
{
    if m > k {
        lemma_sum_monotone(f, k, (m - 1) as nat);
    }
}

/// A sum of `m` terms, each at most `c`, is at most `m * c`.
pub proof fn lemma_sum_bound(f: spec_fn(int) -> nat, m: nat, c: nat)
    requires
        forall|j: int| 0 <= j < m ==> (#[trigger] f(j)) <= c,
    ensures
        sum(f, m) <= m * c,
    decreases m,
{
    if m > 0 {
        lemma_sum_bound(f, (m - 1) as nat, c);
        assert((m - 1) * c + c == m * c) by (nonlinear_arith);
    }
}

/// The sum of a pointwise sum is the sum of the sums.
pub proof fn lemma_sum_add(
    f: spec_fn(int) -> nat,
    g: spec_fn(int) -> nat,
    h: spec_fn(int) -> nat,
    m: nat,
)
    requires
        forall|j: int| 0 <= j < m ==> (#[trigger] h(j)) == f(j) + g(j),
    ensures
        sum(h, m) == sum(f, m) + sum(g, m),
    decreases m,
{
    if m > 0 {
        lemma_sum_add(f, g, h, (m - 1) as nat);
    }
}

/// A constant factor can be pulled out of a sum.
pub proof fn lemma_sum_scale(f: spec_fn(int) -> nat, c: nat, h: spec_fn(int) -> nat, m: nat)
    requires
        forall|j: int| 0 <= j < m ==> (#[trigger] h(j)) == c * f(j),
    ensures
        sum(h, m) == c * sum(f, m),
    decreases m,
{
    if m > 0 {
        lemma_sum_scale(f, c, h, (m - 1) as nat);
        let s = sum(f, (m - 1) as nat);
        let t = f(m - 1);
        assert(c * s + c * t == c * (s + t)) by (nonlinear_arith);
    } else {
        assert(c * 0 == 0) by (nonlinear_arith);
    }
}

/// Sums of termwise congruent functions are congruent.
pub proof fn lemma_sum_mod(f: spec_fn(int) -> nat, g: spec_fn(int) -> nat, n: nat, m: nat)
    requires
        n > 0,
        forall|j: int| 0 <= j < m ==> (#[trigger] f(j)) % n == g(j) % n,
    ensures
        sum(f, m) % n == sum(g, m) % n,
    decreases m,
{
    if m > 0 {
        lemma_sum_mod(f, g, n, (m - 1) as nat);
        lemma_add_mod_noop(sum(f, (m - 1) as nat) as int, f(m - 1) as int, n as int);
        lemma_add_mod_noop(sum(g, (m - 1) as nat) as int, g(m - 1) as int, n as int);
    }
}

/// A sum can be split into its first term and the sum of the rest.
pub proof fn lemma_sum_peel_first(f: spec_fn(int) -> nat, rest: spec_fn(int) -> nat, m: nat)
    requires
        m >= 1,
        forall|j: int| 0 <= j < m - 1 ==> (#[trigger] rest(j)) == f(j + 1),
    ensures
        sum(f, m) == f(0) + sum(rest, (m - 1) as nat),
    decreases m,
{
    if m > 1 {
        lemma_sum_peel_first(f, rest, (m - 1) as nat);
        assert(rest(m - 2) == f(m - 2 + 1));
    } else {
        assert(sum(f, 0) == 0);
    }
}

/// Summing in the opposite order gives the same sum.
pub proof fn lemma_sum_reverse(f: spec_fn(int) -> nat, g: spec_fn(int) -> nat, m: nat)
    requires
        forall|j: int| 0 <= j < m ==> (#[trigger] g(j)) == f(m - 1 - j),
    ensures
        sum(g, m) == sum(f, m),
    decreases m,
{
    if m > 0 {
        let rest = |j: int| f(j + 1);
        lemma_sum_peel_first(f, rest, m);
        assert forall|j: int| 0 <= j < m - 1 implies (#[trigger] g(j)) == rest(m - 1 - 1 - j) by {
            assert(g(j) == f(m - 1 - j));
        }
        lemma_sum_reverse(rest, g, (m - 1) as nat);
        assert(g(m - 1) == f(m - 1 - (m - 1)));
    }
}

/// Two ways of summing a rectangular array of terms agree: by rows or by
/// columns.
pub proof fn lemma_sum_exchange(
    t: spec_fn(int, int) -> nat,
    rows: spec_fn(int) -> nat,
    cols: spec_fn(int) -> nat,
    m1: nat,
    m2: nat,
)
    requires
        forall|j: int| 0 <= j < m1 ==> (#[trigger] rows(j)) == sum(|l: int| t(j, l), m2),
        forall|l: int| 0 <= l < m2 ==> (#[trigger] cols(l)) == sum(|j: int| t(j, l), m1),
    ensures
        sum(rows, m1) == sum(cols, m2),
    decreases m1,
{
    if m1 == 0 {
        assert forall|l: int| 0 <= l < m2 implies (#[trigger] cols(l)) == 0 by {
            assert(sum(|j: int| t(j, l), 0) == 0);
        }
        lemma_sum_skip(cols, 0, m2);
    } else {
        let k = (m1 - 1) as nat;
        let shorter = |l: int| sum(|j: int| t(j, l), k);
        let last = |l: int| t(k as int, l);
        lemma_sum_exchange(t, rows, shorter, k, m2);
        assert forall|l: int| 0 <= l < m2 implies (#[trigger] cols(l)) == shorter(l) + last(l) by {
            let col = |j: int| t(j, l);
            assert(sum(col, m1) == sum(col, k) + col(k as int));
        }
        lemma_sum_add(shorter, last, cols, m2);
        assert(rows(k as int) == sum(last, m2));
    }
}

/// Rotating the index by one place around a cycle of length `r` keeps the sum.
pub proof fn lemma_sum_rotate_one(f: spec_fn(int) -> nat, g: spec_fn(int) -> nat, r: nat)
    requires
        r > 0,
        forall|j: int| 0 <= j < r ==> (#[trigger] g(j)) == f((j + 1) % (r as int)),
    ensures
        sum(g, r) == sum(f, r),
{
    let rest = |j: int| f(j + 1);
    lemma_sum_peel_first(f, rest, r);
    assert forall|j: int| 0 <= j < r - 1 implies (#[trigger] g(j)) == rest(j) by {
        lemma_small_mod((j + 1) as nat, r);
    }
    lemma_sum_ext(g, rest, (r - 1) as nat);
    assert(g(r - 1) == f(0)) by {
        assert((r - 1 + 1) % (r as int) == 0) by (nonlinear_arith)
            requires
                r > 0,
        ;
    }
}

/// Rotating the index by `s` places around a cycle of length `r` keeps the sum.
pub proof fn lemma_sum_rotate_nat(f: spec_fn(int) -> nat, g: spec_fn(int) -> nat, r: nat, s: nat)
    requires
        r > 0,
        forall|j: int| 0 <= j < r ==> (#[trigger] g(j)) == f((j + s) % (r as int)),
    ensures
        sum(g, r) == sum(f, r),
    decreases s,
{
    if s == 0 {
        assert forall|j: int| 0 <= j < r implies (#[trigger] g(j)) == f(j) by {
            lemma_small_mod(j as nat, r);
        }
        lemma_sum_ext(g, f, r);
    } else {
        let h = |j: int| f((j + (s - 1)) % (r as int));
        lemma_sum_rotate_nat(f, h, r, (s - 1) as nat);
        assert forall|j: int| 0 <= j < r implies (#[trigger] g(j)) == h((j + 1) % (r as int)) by {
            lemma_add_mod_noop(j + 1, s - 1, r as int);
            lemma_mod_bound(j + 1, r as int);
            lemma_add_mod_noop((j + 1) % (r as int), s - 1, r as int);
            vstd::arithmetic::div_mod::lemma_mod_twice(j + 1, r as int);
        }
        lemma_sum_rotate_one(h, g, r);
    }
}

/// Rotating the index by any integer around a cycle of length `r` keeps the sum.
pub proof fn lemma_sum_rotate(f: spec_fn(int) -> nat, g: spec_fn(int) -> nat, r: nat, s: int)
    requires
        r > 0,
        forall|j: int| 0 <= j < r ==> (#[trigger] g(j)) == f((j + s) % (r as int)),
    ensures
        sum(g, r) == sum(f, r),
{
    let t = s % (r as int);
    lemma_mod_bound(s, r as int);
    assert forall|j: int| 0 <= j < r implies (#[trigger] g(j)) == f((j + t) % (r as int)) by {
        vstd::arithmetic::div_mod::lemma_add_mod_noop_right(j, s, r as int);
    }
    lemma_sum_rotate_nat(f, g, r, t as nat);
}

/// Reflecting the index around a cycle of length `r` keeps the sum.
pub proof fn lemma_sum_reflect(f: spec_fn(int) -> nat, g: spec_fn(int) -> nat, r: nat, s: int)
    requires
        r > 0,
        forall|j: int| 0 <= j < r ==> (#[trigger] g(j)) == f((s - j) % (r as int)),
    ensures
        sum(g, r) == sum(f, r),
{
    let back = |j: int| f(r - 1 - j);
    lemma_sum_reverse(f, back, r);
    assert forall|j: int| 0 <= j < r implies (#[trigger] g(j)) == back((j + (-s - 1)) % (r as int)) by {
        let x = s - j;
        let m = x % (r as int);
        let q = x / (r as int);
        lemma_fundamental_div_mod(x, r as int);
        lemma_mod_bound(x, r as int);
        assert(-x - 1 == (-q - 1) * r + (r - 1 - m)) by (nonlinear_arith)
            requires
                x == r * q + m,
        ;
        lemma_fundamental_div_mod_converse(-x - 1, r as int, -q - 1, r - 1 - m);
        assert(j + (-s - 1) == -x - 1);
        assert(r - 1 - (r - 1 - m) == m);
    }
    lemma_sum_rotate(back, g, r, -s - 1);
}

} // verus!
