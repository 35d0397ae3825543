//! Polynomials over an unsigned number representation, with multiplication and
//! exponentiation in `(Z/nZ)[x] / (x^r - 1)`.

use vstd::prelude::*;
use vstd::arithmetic::power2::pow2;
use crate::numeric::{bit_length, lemma_prefix_empty, lemma_prefix_step};
use crate::ring::{
    coef, cyc_conv, cyc_term, mul_len, product_bound, reduced, ring_mul, ring_pow, sized, lemma_conv_bound,
    lemma_ring_mul_closed, lemma_ring_pow_adds, lemma_ring_pow_closed, lemma_term_cases,
};
use crate::sums::{sum, lemma_sum_monotone, lemma_sum_skip};
use crate::traits::UInt;

verus! {

/// A polynomial as the sequence of its coefficients: index = degree, index 0
/// the constant term.
#[derive(Debug)]
pub struct Polynomial<I: UInt> {
    pub coef: Vec<I>,
}

impl<I: UInt> View for Polynomial<I> {
    type V = Seq<nat>;

    /// The coefficients as natural numbers.
    open spec fn view(&self) -> Seq<nat> {
        Seq::new(self.coef@.len(), |i: int| self.coef@[i].value())
    }
}

impl<I: UInt> Polynomial<I> {
    /// Whether the polynomial is an element of `(Z/nZ)[x] / (x^r - 1)` in
    /// reduced form: between one and `r` coefficients, each below `n`.
    pub open spec fn in_ring(&self, r: nat, n: nat) -> bool {
        sized(self@, r) && reduced(self@, n)
    }

    /// The polynomial without coefficients.
    pub fn new() -> (p: Self)
        ensures
            p@ == Seq::<nat>::empty(),
            p.coef@.len() == 0,
    {
        let p = Polynomial { coef: Vec::new() };
        assert(p@ =~= Seq::<nat>::empty());
        p
    }

    /// The polynomial without coefficients, with room for `d` of them.
    pub fn with_capacity(d: usize) -> (p: Self)
        ensures
            p@ == Seq::<nat>::empty(),
            p.coef@.len() == 0,
    {
        let p = Polynomial { coef: Vec::with_capacity(d) };
        assert(p@ =~= Seq::<nat>::empty());
        p
    }

    /// The coefficient of `x^m`.
    pub fn get_coef(&self, m: usize) -> (c: &I)
        requires
            m < self@.len(),
        ensures
            c.value() == self@[m as int],
    {
        &self.coef[m]
    }

    /// Replaces the coefficient of `x^m` by `c`.
    pub fn set_coef(&mut self, m: usize, c: I)
        requires
            m < old(self)@.len(),
        ensures
            final(self)@ == old(self)@.update(m as int, c.value()),
    {
        self.coef.set(m, c);
        assert(self@ =~= old(self)@.update(m as int, c.value()));
    }

    /// The degree bound: one less than the number of coefficients.
    pub fn deg(&self) -> (d: usize)
        requires
            self@.len() >= 1,
        ensures
            d == self@.len() - 1,
    {
        self.coef.len() - 1
    }

    /// The product of `self` and `q` in `(Z/nZ)[x] / (x^r - 1)`: coefficient
    /// `i` is the sum over `j` of `self[j] * q[(i - j) mod r]`, reduced
    /// modulo `n`.
    ///
    /// The sums are accumulated exactly and reduced once, so every one of
    /// them has to be representable.
    pub fn mod_mul(&self, q: &Polynomial<I>, r: usize, n: &I) -> (res: Polynomial<I>)
        requires
            sized(self@, r as nat),
            sized(q@, r as nat),
            2 * r <= usize::MAX,
            n.value() > 0,
            forall|i: int| 0 <= i < r ==> I::fits(#[trigger] cyc_conv(self@, q@, r as nat, i)),
        ensures
            res@ == ring_mul(self@, q@, r as nat, n.value()),
            res.in_ring(r as nat, n.value()),
    {
        proof {
            lemma_ring_mul_closed(self@, q@, r as nat, n.value());
        }
        let da = self.deg();
        let dq = q.deg();
        let max_deg = if da + dq < r {
            da + dq
        } else {
            r - 1
        };
        let mut res = Polynomial::with_capacity(max_deg + 1);
        let mut i: usize = 0;
        while i <= max_deg
            invariant
                i <= max_deg + 1,
                max_deg + 1 == mul_len(self@.len(), q@.len(), r as nat),
                da == self@.len() - 1,
                dq == q@.len() - 1,
                sized(self@, r as nat),
                sized(q@, r as nat),
                2 * r <= usize::MAX,
                n.value() > 0,
                forall|i: int| 0 <= i < r ==> I::fits(#[trigger] cyc_conv(self@, q@, r as nat, i)),
                res@.len() == i,
                forall|k: int|
                    0 <= k < i ==> (#[trigger] res@[k]) == cyc_conv(self@, q@, r as nat, k)
                        % n.value(),
            decreases max_deg + 1 - i,
        {
            let ghost f = |j: int| cyc_term(self@, q@, r as nat, i as int, j);
            let ghost total = cyc_conv(self@, q@, r as nat, i as int);
            let mut acc = I::zero();
            let jmin = if i > dq {
                i - dq
            } else {
                0
            };
            let jmax = if i < da {
                i
            } else {
                da
            };
            proof {
                assert forall|j: int| 0 <= j < r implies (#[trigger] f(j)) == (if j <= da {
                    if j <= i {
                        self@[j] * coef(q@, i - j)
                    } else {
                        self@[j] * coef(q@, i + r - j)
                    }
                } else {
                    0
                }) by {
                    lemma_term_cases(self@, q@, r as nat, i as int, j);
                    if j > da {
                        assert(0 * coef(q@, (i - j) % (r as int)) == 0);
                    }
                }
                assert forall|j: int| 0 <= j < jmin implies (#[trigger] f(j)) == 0 by {
                    assert(coef(q@, i - j) == 0);
                    assert(self@[j] * 0 == 0);
                }
                lemma_sum_skip(f, 0, jmin as nat);
                assert(sum(f, 0) == 0);
                assert(total == sum(f, r as nat));
            }
            let mut j: usize = jmin;
            while j <= jmax
                invariant
                    jmin <= j <= jmax + 1,
                    jmax <= da,
                    jmax <= i,
                    i <= max_deg,
                    max_deg < r,
                    jmin + dq >= i,
                    da == self@.len() - 1,
                    dq == q@.len() - 1,
                    sized(self@, r as nat),
                    sized(q@, r as nat),
                    I::fits(total),
                    total == sum(f, r as nat),
                    acc.value() == sum(f, j as nat),
                    forall|j: int|
                        0 <= j <= jmax ==> (#[trigger] f(j)) == self@[j] * coef(q@, i - j),
                decreases jmax + 1 - j,
            {
                proof {
                    lemma_sum_monotone(f, j as nat, r as nat);
                    I::lemma_fits_below(total, sum(f, j as nat) + f(j as int));
                    I::lemma_fits_below(total, f(j as int));
                    assert(f(j as int) == self@[j as int] * coef(q@, i - j));
                }
                let t = self.coef[j].mul(&q.coef[i - j]);
                acc = acc.plus(&t);
                j = j + 1;
            }
            let jwrap = i + r - dq;
            proof {
                let stop: nat = if jwrap <= da {
                    jwrap as nat
                } else {
                    r as nat
                };
                assert forall|j: int| jmax + 1 <= j < stop implies (#[trigger] f(j)) == 0 by {
                    if j <= da {
                        assert(coef(q@, i + r - j) == 0);
                        assert(self@[j] * 0 == 0);
                    }
                }
                lemma_sum_skip(f, (jmax + 1) as nat, stop);
            }
            let mut j: usize = jwrap;
            while j <= da
                invariant
                    jwrap <= j,
                    jwrap <= da ==> j <= da + 1,
                    jwrap == i + r - dq,
                    i <= max_deg,
                    max_deg < r,
                    2 * r <= usize::MAX,
                    da == self@.len() - 1,
                    dq == q@.len() - 1,
                    sized(self@, r as nat),
                    sized(q@, r as nat),
                    I::fits(total),
                    total == sum(f, r as nat),
                    jwrap <= da ==> acc.value() == sum(f, j as nat),
                    jwrap > da ==> acc.value() == sum(f, r as nat),
                    forall|j: int|
                        i < j <= da ==> (#[trigger] f(j)) == self@[j] * coef(q@, i + r - j),
                decreases da + 1 - j,
            {
                proof {
                    lemma_sum_monotone(f, j as nat, r as nat);
                    I::lemma_fits_below(total, sum(f, j as nat) + f(j as int));
                    I::lemma_fits_below(total, f(j as int));
                    assert(f(j as int) == self@[j as int] * coef(q@, i + r - j));
                }
                let t = self.coef[j].mul(&q.coef[i + r - j]);
                acc = acc.plus(&t);
                j = j + 1;
            }
            proof {
                if jwrap <= da {
                    lemma_sum_skip(f, (da + 1) as nat, r as nat);
                }
                assert(acc.value() == total);
            }
            let c = acc.rem(n);
            let ghost before = res@;
            res.coef.push(c);
            assert(res@ =~= before.push(c.value()));
            i = i + 1;
        }
        assert(res@ =~= ring_mul(self@, q@, r as nat, n.value()));
        res
    }

    /// The power `self^n` in `(Z/nZ)[x] / (x^r - 1)`, by squaring and
    /// multiplying along the binary digits of `n`, most significant first.
    pub fn mod_pow(&self, r: usize, n: &I) -> (res: Polynomial<I>)
        requires
            self.in_ring(r as nat, n.value()),
            2 * r <= usize::MAX,
            n.value() > 0,
            I::fits(product_bound(r as nat, n.value())),
        ensures
            res@ == ring_pow(self@, n.value(), r as nat, n.value()),
            res.in_ring(r as nat, n.value()),
    {
        proof {
            lemma_ring_pow_closed(self@, n.value(), r as nat, n.value());
        }
        let mut res = Polynomial::new();
        res.coef.push(I::one().rem(n));
        let mut i = n.bits();
        proof {
            lemma_prefix_empty(n.value());
            assert(res@ =~= ring_pow(self@, 0, r as nat, n.value()));
        }
        while i > 0
            invariant
                sized(self@, r as nat),
                reduced(self@, n.value()),
                2 * r <= usize::MAX,
                n.value() > 0,
                I::fits(product_bound(r as nat, n.value())),
                i <= bit_length(n.value()),
                res@ == ring_pow(self@, n.value() / pow2(i as nat), r as nat, n.value()),
            decreases i,
        {
            let ghost e = n.value() / pow2(i as nat);
            proof {
                lemma_ring_pow_closed(self@, e, r as nat, n.value());
                lemma_ring_pow_adds(self@, e, e, r as nat, n.value());
                assert forall|k: int| 0 <= k < r implies I::fits(
                    #[trigger] cyc_conv(res@, res@, r as nat, k),
                ) by {
                    lemma_conv_bound(res@, res@, r as nat, n.value(), k);
                    I::lemma_fits_below(
                        product_bound(r as nat, n.value()),
                        cyc_conv(res@, res@, r as nat, k),
                    );
                }
            }
            res = res.mod_mul(&res, r, n);
            i = i - 1;
            proof {
                lemma_prefix_step(n.value(), i as nat);
                lemma_ring_pow_closed(self@, e + e, r as nat, n.value());
            }
            if n.bit(i) {
                proof {
                    assert forall|k: int| 0 <= k < r implies I::fits(
                        #[trigger] cyc_conv(res@, self@, r as nat, k),
                    ) by {
                        lemma_conv_bound(res@, self@, r as nat, n.value(), k);
                        I::lemma_fits_below(
                            product_bound(r as nat, n.value()),
                            cyc_conv(res@, self@, r as nat, k),
                        );
                    }
                }
                res = res.mod_mul(self, r, n);
            }
        }
        proof {
            lemma_prefix_empty(n.value());
        }
        res
    }
}

impl<I: UInt> PartialEq for Polynomial<I> {
    /// Two polynomials are equal where they have the same coefficients, by
    /// value, in the same number.
    fn eq(&self, other: &Self) -> (same: bool) {
        if self.coef.len() != other.coef.len() {
            assert(self@.len() != other@.len());
            return false;
        }
        let mut i: usize = 0;
        while i < self.coef.len()
            invariant
                i <= self.coef@.len(),
                self.coef@.len() == other.coef@.len(),
                forall|k: int| 0 <= k < i ==> self@[k] == other@[k],
            decreases self.coef@.len() - i,
        {
            if !self.coef[i].same(&other.coef[i]) {
                assert(self@[i as int] != other@[i as int]);
                return false;
            }
            i = i + 1;
        }
        assert(self@ =~= other@);
        true
    }
}

impl<I: UInt> vstd::std_specs::cmp::PartialEqSpecImpl for Polynomial<I> {
    open spec fn obeys_eq_spec() -> bool {
        true
    }

    open spec fn eq_spec(&self, other: &Self) -> bool {
        self@ == other@
    }
}

impl<I: UInt> From<Vec<I>> for Polynomial<I> {
    /// The polynomial with the coefficients `v`, constant term first.
    fn from(v: Vec<I>) -> (p: Self) {
        Polynomial { coef: v }
    }
}

impl<I: UInt> vstd::std_specs::convert::FromSpecImpl<Vec<I>> for Polynomial<I> {
    open spec fn obeys_from_spec() -> bool {
        true
    }

    open spec fn from_spec(v: Vec<I>) -> Self {
        Polynomial { coef: v }
    }
}

} // verus!
