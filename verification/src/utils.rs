//! Primality by trial division, the plain method that the AKS procedure can
//! be held against.

use vstd::prelude::*;
use crate::numeric::is_prime;

verus! {

/// A proper divisor of an odd number has an odd divisor of that number, at
/// least 3 and at most its square root, beside or below it.
proof fn lemma_small_odd_divisor(n: nat, e: nat) -> (s: nat)
    requires
        n % 2 == 1,
        2 <= e < n,
        n % e == 0,
    ensures
        3 <= s,
        s % 2 == 1,
        s * s <= n,
        n % s == 0,
{
    let q = n / e;
    vstd::arithmetic::div_mod::lemma_fundamental_div_mod(n as int, e as int);
    assert(n == e * q);
    assert(q >= 2) by (nonlinear_arith)
        requires
            n == e * q,
            2 <= e < n,
            q >= 0,
    ;
    assert(n % q == 0) by {
        vstd::arithmetic::div_mod::lemma_mod_multiples_basic(e as int, q as int);
    }
    let s = if e <= q {
        e
    } else {
        q
    };
    assert(s * s <= n) by (nonlinear_arith)
        requires
            n == e * q,
            s == e || s == q,
            s <= e,
            s <= q,
            0 <= s,
    ;
    if s % 2 == 0 {
        let h = s / 2;
        let c = n / s;
        vstd::arithmetic::div_mod::lemma_fundamental_div_mod(n as int, s as int);
        assert(n == 2 * (h * c)) by (nonlinear_arith)
            requires
                n == s * c,
                s == 2 * h,
        ;
        assert(false);
    }
    s
}

/// Primality by trial division: an odd number from 5 on is prime where no
/// odd number from 3 to its square root divides it.  Every number below 4 is
/// answered with `true`.
pub fn trial_division(n: u64) -> (b: bool)
    ensures
        b == (n < 4 || is_prime(n as nat)),
{
    if n < 4 {
        return true;
    }
    if n % 2 == 0 {
        assert(!is_prime(n as nat));
        return false;
    }
    let mut d: u64 = 3;
    while d <= n / d
        invariant
            3 <= d <= 0x1_0000_0001,
            d % 2 == 1,
            n >= 4,
            n % 2 == 1,
            forall|e: nat| 3 <= e < d && e % 2 == 1 ==> #[trigger] (n as nat % e) != 0,
        decreases 0x1_0000_0001 - d,
    {
        proof {
            assert(d * d <= n) by (nonlinear_arith)
                requires
                    d <= n / d,
                    d > 0,
            ;
            assert(d < 0x1_0000_0000) by (nonlinear_arith)
                requires
                    d * d <= n,
                    n <= 0xffff_ffff_ffff_ffff,
                    d >= 0,
            ;
        }
        if n % d == 0 {
            assert(d < n) by (nonlinear_arith)
                requires
                    d * d <= n,
                    d >= 3,
            ;
            assert(!is_prime(n as nat));
            return false;
        }
        d = d + 2;
    }
    proof {
        assert(n < d * d) by (nonlinear_arith)
            requires
                d > n / d,
                d > 0,
                n >= 0,
        ;
        assert forall|e: nat| 2 <= e < n implies #[trigger] (n as nat % e) != 0 by {
            if n as nat % e == 0 {
                let s = lemma_small_odd_divisor(n as nat, e);
                assert(s < d) by (nonlinear_arith)
                    requires
                        s * s <= n,
                        n < d * d,
                        s >= 0,
                        d >= 0,
                ;
            }
        }
    }
    true
}

} // verus!
