//! The multiplicative order of a number modulo a coprime modulus exists and is
//! smaller than the modulus.

use vstd::prelude::*;
use vstd::arithmetic::power::pow;
use vstd::arithmetic::div_mod::{lemma_mod_bound, lemma_small_mod, lemma_sub_mod_noop};
use crate::coprime::{coprime, lemma_coprime_cancel};

verus! {

/// The pigeonhole principle: among `m + 1` values between 1 and `m` two are
/// equal.
pub proof fn lemma_pigeonhole(f: spec_fn(int) -> int, m: nat) -> (ij: (int, int))
    requires
        forall|j: int| 0 <= j <= m ==> 1 <= #[trigger] f(j) <= m,
    ensures
        0 <= ij.0 < ij.1 <= m,
        f(ij.0) == f(ij.1),
    decreases m,
{
    if m == 0 {
        assert(1 <= f(0) <= 0);
        (0, 0)
    } else if exists|j: int| 0 <= j < m && #[trigger] f(j) == f(m as int) {
        let j = choose|j: int| 0 <= j < m && #[trigger] f(j) == f(m as int);
        (j, m as int)
    } else {
        let top = f(m as int);
        let g = |j: int|
            if f(j) > top {
                f(j) - 1
            } else {
                f(j)
            };
        assert forall|j: int| 0 <= j <= m - 1 implies 1 <= #[trigger] g(j) <= m - 1 by {
            assert(1 <= f(j) <= m);
            assert(f(j) != top);
        }
        let (i, j) = lemma_pigeonhole(g, (m - 1) as nat);
        assert(f(i) != top && f(j) != top);
        (i, j)
    }
}

/// A factor `n^i` with `n` coprime to the modulus can be dropped from a
/// multiple of the modulus.
pub proof fn lemma_cancel_power(n: nat, s: nat, i: nat, x: int)
    requires
        coprime(n, s),
        s > 0,
        (pow(n as int, i) * x) % (s as int) == 0,
    ensures
        x % (s as int) == 0,
    decreases i,
{
    reveal(pow);
    if i > 0 {
        let y = pow(n as int, (i - 1) as nat) * x;
        assert(pow(n as int, i) * x == n * y) by (nonlinear_arith)
            requires
                pow(n as int, i) == n * pow(n as int, (i - 1) as nat),
                y == pow(n as int, (i - 1) as nat) * x,
        ;
        lemma_coprime_cancel(n, s, y);
        lemma_cancel_power(n, s, (i - 1) as nat, x);
    } else {
        assert(1 * x == x);
    }
}

/// Some power `n^k` with `1 <= k < s` is congruent to one modulo `s`, where
/// `n` and `s >= 2` are coprime.
pub proof fn lemma_order_exists(n: nat, s: nat) -> (k: nat)
    requires
        coprime(n, s),
        s >= 2,
    ensures
        1 <= k < s,
        pow(n as int, k) % (s as int) == 1,
{
    let si = s as int;
    let f = |j: int| pow(n as int, j as nat) % si;
    assert forall|j: int| 0 <= j <= s - 1 implies 1 <= #[trigger] f(j) <= s - 1 by {
        let v = pow(n as int, j as nat);
        lemma_mod_bound(v, si);
        if v % si == 0 {
            assert(v * 1 == v);
            lemma_cancel_power(n, s, j as nat, 1);
            lemma_small_mod(1, s);
        }
    }
    let (i, j) = lemma_pigeonhole(f, (s - 1) as nat);
    let k = (j - i) as nat;
    let a = pow(n as int, i as nat);
    let b = pow(n as int, k);
    vstd::arithmetic::power::lemma_pow_adds(n as int, i as nat, k);
    assert(pow(n as int, j as nat) == a * b);
    assert(f(i) == a % si);
    assert(f(j) == (a * b) % si);
    lemma_sub_mod_noop(a * b, a, si);
    lemma_small_mod(0, s);
    assert((a * b) % si - a % si == 0);
    assert((a * b - a) % si == 0);
    assert(a * (b - 1) == a * b - a) by (nonlinear_arith);
    lemma_cancel_power(n, s, i as nat, b - 1);
    vstd::arithmetic::power::lemma_pow_positive(n as int, k);
    if n == 0 {
        vstd::arithmetic::power::lemma0_pow(k);
        lemma_small_mod(1, s);
        assert((0 - 1) % si == 0);
        assert(false) by {
            vstd::arithmetic::div_mod::lemma_mod_bound(b - 1, si);
            vstd::arithmetic::div_mod::lemma_fundamental_div_mod(-1, si);
            let q = (-1int) / si;
            assert(si * q == -1);
            assert(false) by (nonlinear_arith)
                requires
                    si * q == -1,
                    si >= 2,
            ;
        }
    }
    assert(b >= 1);
    vstd::arithmetic::div_mod::lemma_fundamental_div_mod(b - 1, si);
    let q = (b - 1) / si;
    assert(b == q * si + 1) by (nonlinear_arith)
        requires
            b - 1 == si * q,
    ;
    vstd::arithmetic::div_mod::lemma_fundamental_div_mod_converse(b, si, q, 1);
    k
}

} // verus!
