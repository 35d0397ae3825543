//! Binomial coefficients, the expansion of `(x + a)^k` folded modulo
//! `x^r - 1`, and what a prime exponent does to it.

use vstd::prelude::*;
use vstd::arithmetic::div_mod::{
    lemma_add_mod_noop, lemma_mod_equivalence, lemma_mod_multiples_basic, lemma_mul_mod_noop_general,
    lemma_small_mod, lemma_mod_bound, lemma_mod_twice,
};
use crate::coprime::lemma_prime_cancel;
use crate::numeric::is_prime;
use crate::sums::{
    sum, lemma_sum_add, lemma_sum_mod, lemma_sum_peel_first, lemma_sum_scale,
    lemma_sum_skip,
};

verus! {

/// The binomial coefficient `k` over `j`, by Pascal's rule.
pub open spec fn binomial(k: nat, j: nat) -> nat
    decreases k,
{
    if j == 0 {
        1
    } else if k == 0 {
        0
    } else {
        binomial((k - 1) as nat, (j - 1) as nat) + binomial((k - 1) as nat, j)
    }
}

/// `a^e` on natural numbers.
pub open spec fn npow(a: nat, e: nat) -> nat
    decreases e,
{
    if e == 0 {
        1
    } else {
        a * npow(a, (e - 1) as nat)
    }
}

/// The term of `x^j` in the expansion of `(x + a)^k`: `binomial(k, j) *
/// a^(k - j)`, zero outside `0 <= j <= k`.
pub open spec fn expansion_term(k: nat, a: nat, j: int) -> nat {
    if 0 <= j <= k {
        binomial(k, j as nat) * npow(a, (k - j) as nat)
    } else {
        0
    }
}

/// The term of `x^j` where it lands on `x^i` modulo `x^r - 1`, else zero.
pub open spec fn folded_term(k: nat, a: nat, r: nat, i: int, j: int) -> nat {
    if j % (r as int) == i {
        expansion_term(k, a, j)
    } else {
        0
    }
}

/// The coefficient of `x^i` in `(x + a)^k` modulo `x^r - 1`, over the
/// integers: the sum of the terms of all `x^j` with `j = i` modulo `r`.
pub open spec fn folded(k: nat, a: nat, r: nat, i: int) -> nat {
    sum(|j: int| folded_term(k, a, r, i, j), k + 1)
}

/// Above the diagonal the binomial coefficients vanish.
pub proof fn lemma_binomial_above(k: nat, j: nat)
    requires
        j > k,
    ensures
        binomial(k, j) == 0,
    decreases k,
{
    if k > 0 {
        lemma_binomial_above((k - 1) as nat, (j - 1) as nat);
        lemma_binomial_above((k - 1) as nat, j);
    }
}

/// On the diagonal the binomial coefficients are one.
pub proof fn lemma_binomial_full(k: nat)
    ensures
        binomial(k, k) == 1,
    decreases k,
{
    if k > 0 {
        lemma_binomial_full((k - 1) as nat);
        lemma_binomial_above((k - 1) as nat, k);
    }
}

/// The absorption identity: `(j + 1) * binomial(k + 1, j + 1) = (k + 1) *
/// binomial(k, j)`.
pub proof fn lemma_absorption(k: nat, j: nat)
    ensures
        (j + 1) * binomial(k + 1, j + 1) == (k + 1) * binomial(k, j),
    decreases k,
{
    if k == 0 {
        if j == 0 {
            assert(binomial(1, 1) == binomial(0, 0) + binomial(0, 1));
        } else {
            assert(binomial(1, j + 1) == binomial(0, j) + binomial(0, j + 1));
            assert((j + 1) * 0 == 0);
        }
    } else {
        let km = (k - 1) as nat;
        let up = binomial(k, j + 1);
        let mid = binomial(k, j);
        assert(binomial(k + 1, j + 1) == mid + up);
        lemma_absorption(km, j);
        assert((j + 1) * up == k * binomial(km, j));
        if j == 0 {
            assert(mid == 1);
            assert(binomial(km, 0) == 1);
            assert((j + 1) * (mid + up) == (k + 1) * mid) by (nonlinear_arith)
                requires
                    j == 0,
                    mid == 1,
                    (j + 1) * up == k * 1,
            ;
        } else {
            let jm = (j - 1) as nat;
            lemma_absorption(km, jm);
            let low = binomial(km, jm);
            let high = binomial(km, j);
            assert(mid == low + high);
            assert(j * mid == k * low);
            assert((j + 1) * (mid + up) == (k + 1) * mid) by (nonlinear_arith)
                requires
                    mid == low + high,
                    j * mid == k * low,
                    (j + 1) * up == k * high,
            ;
        }
    }
}

/// A prime divides each of its binomial coefficients but the first and the
/// last.
pub proof fn lemma_prime_divides_binomial(p: nat, j: nat)
    requires
        is_prime(p),
        0 < j < p,
    ensures
        binomial(p, j) % p == 0,
{
    lemma_absorption((p - 1) as nat, (j - 1) as nat);
    let b = binomial(p, j);
    let c = binomial((p - 1) as nat, (j - 1) as nat);
    assert(j * b == p * c);
    lemma_mod_multiples_basic(c as int, p as int);
    assert(c * p == p * c) by (nonlinear_arith);
    lemma_prime_cancel(j, p, b as int);
}

/// Pascal's rule on the terms: the term of `x^j` in `(x + a)^(k + 1)` is `a`
/// times that in `(x + a)^k` plus that of `x^(j - 1)` in `(x + a)^k`.
pub proof fn lemma_term_step(k: nat, a: nat, j: int)
    ensures
        expansion_term(k + 1, a, j) == a * expansion_term(k, a, j) + expansion_term(k, a, j - 1),
{
    if j < 0 || j > k + 1 {
        assert(a * 0 == 0);
    } else if j == 0 {
        let x = npow(a, k);
        assert(npow(a, k + 1) == a * x);
        assert(1 * (a * x) == a * (1 * x)) by (nonlinear_arith);
    } else if j == k + 1 {
        lemma_binomial_full(k);
        lemma_binomial_full(k + 1);
        assert(a * 0 == 0);
        assert(npow(a, 0) == 1);
    } else {
        let low = binomial(k, (j - 1) as nat);
        let high = binomial(k, j as nat);
        let x = npow(a, (k - j) as nat);
        assert(binomial(k + 1, j as nat) == low + high);
        assert(npow(a, (k + 1 - j) as nat) == a * x);
        assert((low + high) * (a * x) == a * (high * x) + low * (a * x)) by (nonlinear_arith);
    }
}

/// `(j + 1) mod r = i` exactly where `j mod r = (i - 1) mod r`.
pub proof fn lemma_shifted_residue(j: int, i: int, r: nat)
    requires
        r > 0,
        0 <= i < r,
    ensures
        ((j + 1) % (r as int) == i) == (j % (r as int) == (i - 1) % (r as int)),
{
    let ri = r as int;
    lemma_small_mod(i as nat, r);
    lemma_mod_equivalence(j + 1, i, ri);
    lemma_mod_equivalence(j, i - 1, ri);
    lemma_mod_bound(i - 1, ri);
    lemma_mod_twice(i - 1, ri);
    lemma_mod_equivalence(j, (i - 1) % ri, ri);
    lemma_mod_equivalence((i - 1) % ri, i - 1, ri);
    lemma_mod_bound(j, ri);
    lemma_mod_bound(j + 1, ri);
}

/// Multiplying by `x + a` modulo `x^r - 1`: the coefficient of `x^i` becomes
/// `a` times itself plus the coefficient of `x^(i - 1)`.
pub proof fn lemma_folded_step(k: nat, a: nat, r: nat, i: int)
    requires
        r > 0,
        0 <= i < r,
    ensures
        folded(k + 1, a, r, i) == a * folded(k, a, r, i) + folded(
            k,
            a,
            r,
            (i - 1) % (r as int),
        ),
{
    let ri = r as int;
    let prev = (i - 1) % ri;
    let f = |j: int| folded_term(k + 1, a, r, i, j);
    let g = |j: int| folded_term(k, a, r, i, j);
    let ag = |j: int| a * folded_term(k, a, r, i, j);
    let h = |j: int|
        if j % ri == i {
            expansion_term(k, a, j - 1)
        } else {
            0
        };
    let h1 = |j: int| folded_term(k, a, r, prev, j);
    assert forall|j: int| 0 <= j < k + 2 implies (#[trigger] f(j)) == ag(j) + h(j) by {
        lemma_term_step(k, a, j);
        if j % ri != i {
            assert(a * 0 == 0);
        }
    }
    lemma_sum_add(ag, h, f, k + 2);
    lemma_sum_scale(g, a, ag, k + 2);
    assert(g((k + 1) as int) == 0);
    lemma_sum_skip(g, k + 1, k + 2);
    assert forall|j: int| 0 <= j < k + 1 implies (#[trigger] h1(j)) == h(j + 1) by {
        lemma_shifted_residue(j, i, r);
    }
    lemma_sum_peel_first(h, h1, k + 2);
    assert(h(0) == 0);
}

/// For a prime `p` only the first and the last term of the expansion of
/// `(x + a)^p` survive modulo `p`.
pub proof fn lemma_folded_prime(p: nat, a: nat, r: nat, i: int)
    requires
        is_prime(p),
        r > 0,
        0 <= i < r,
    ensures
        folded(p, a, r, i) % p == ((if i == 0 {
            npow(a, p)
        } else {
            0nat
        }) + (if i == p % r {
            1nat
        } else {
            0nat
        })) % p,
{
    let ri = r as int;
    let f = |j: int| folded_term(p, a, r, i, j);
    let g = |j: int|
        if j == 0 && i == 0 {
            npow(a, p)
        } else if j == p && i == p % r {
            1nat
        } else {
            0nat
        };
    assert forall|j: int| 0 <= j < p + 1 implies (#[trigger] f(j)) % p == g(j) % p by {
        if j == 0 {
            lemma_small_mod(0, r);
            assert(1 * npow(a, p) == npow(a, p));
        } else if j == p {
            lemma_binomial_full(p);
            assert(npow(a, 0) == 1);
        } else {
            lemma_prime_divides_binomial(p, j as nat);
            let b = binomial(p, j as nat);
            let x = npow(a, (p - j) as nat);
            lemma_mul_mod_noop_general(b as int, x as int, p as int);
            assert(0 * (x % p) == 0);
            lemma_small_mod(0, p);
        }
    }
    lemma_sum_mod(f, g, p, p + 1);
    lemma_sum_skip(g, 1, p);
    assert(sum(g, 1) == sum(g, 0) + g(0));
    assert(sum(g, p + 1) == sum(g, p) + g(p as int));
}

/// The binomial theorem at `x = 1`: the terms of `(x + a)^k` add up to
/// `(a + 1)^k`.
pub proof fn lemma_expansion_total(k: nat, a: nat)
    ensures
        folded(k, a, 1, 0) == npow(a + 1, k),
    decreases k,
{
    if k == 0 {
        let f = |j: int| folded_term(0, a, 1, 0, j);
        assert(sum(f, 1) == sum(f, 0) + f(0));
        assert(f(0) == 1 * 1);
    } else {
        lemma_expansion_total((k - 1) as nat, a);
        lemma_folded_step((k - 1) as nat, a, 1, 0);
        let x = folded((k - 1) as nat, a, 1, 0);
        assert(a * x + x == (a + 1) * x) by (nonlinear_arith);
    }
}

/// Fermat's little theorem: `a^p = a` modulo a prime `p`.
pub proof fn lemma_fermat(a: nat, p: nat)
    requires
        is_prime(p),
    ensures
        npow(a, p) % p == a % p,
    decreases a,
{
    if a == 0 {
        assert(npow(0, p) == 0 * npow(0, (p - 1) as nat));
    } else {
        let b = (a - 1) as nat;
        lemma_fermat(b, p);
        lemma_expansion_total(p, b);
        lemma_folded_prime(p, b, 1, 0);
        lemma_add_mod_noop(npow(b, p) as int, 1, p as int);
        lemma_add_mod_noop(b as int, 1, p as int);
    }
}

} // verus!
