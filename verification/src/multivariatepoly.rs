//! Multivariate polynomials over a prime field.
//!
//! A polynomial is an ordered sequence of nonzero terms with pairwise
//! distinct monomials, sorted in strictly descending monomial order; the
//! empty sequence is the zero polynomial.  Semantically a polynomial is its
//! coefficient function [`coeff_of`], which maps every monomial to the
//! (reduced) coefficient standing at it; every arithmetic contract below is
//! stated pointwise through it, and products through the double cross sum
//! [`conv`].

use vstd::prelude::*;
use crate::intmod::{Mod, MathError, fadd, fmul, fneg, fsub, gcd};
use crate::intmod::{
    lemma_fadd_bound, lemma_fadd_assoc, lemma_fadd_zero, lemma_fneg_cancel, lemma_fneg_mod,
    lemma_fmul_distr, lemma_fmul_basics, lemma_fmul_assoc,
    lemma_fsub_is_fadd_fneg,
};
use crate::multiindex::{
    MultiIndex, exp_at, mono_eq, mono_lt, mono_subtractable, mono_sum_is,
    mono_canon, lemma_mono_lt_trans, lemma_mono_trichotomy, lemma_mono_eq_not_lt,
    lemma_mono_eq_canon, lemma_mono_sum_props,
};
use crate::terms::Terms;

verus! {

/// The modulus of a term sequence: that of its first term, zero if empty.
pub open spec fn pval_of(s: Seq<Terms>) -> nat {
    if s.len() > 0 {
        s[0].pval()
    } else {
        0
    }
}

/// Every term is well-formed over modulus `p`.
pub open spec fn wf_terms(s: Seq<Terms>, p: nat) -> bool {
    forall|k: int| 0 <= k < s.len() ==> (#[trigger] s[k]).wf(p)
}

/// Monomials in strictly descending lexicographic order.
pub open spec fn desc_sorted(s: Seq<Terms>) -> bool {
    forall|k: int| 0 <= k < s.len() - 1 ==> mono_lt(#[trigger] s[k + 1].mono(), s[k].mono())
}

/// No zero coefficient occurs.
pub open spec fn no_zero_coeffs(s: Seq<Terms>) -> bool {
    forall|k: int| 0 <= k < s.len() ==> (#[trigger] s[k]).cval() != 0
}

/// Canonical well-formed term sequence over modulus `p`.
pub open spec fn poly_wf(s: Seq<Terms>, p: nat) -> bool {
    &&& p >= 2
    &&& wf_terms(s, p)
    &&& desc_sorted(s)
    &&& no_zero_coeffs(s)
}

/// Canonical well-formed term sequence over its own field.
pub open spec fn poly_ok(s: Seq<Terms>) -> bool {
    s.len() == 0 || poly_wf(s, pval_of(s))
}

/// Two sequences may be combined: empty, or over the same field.
pub open spec fn compat(a: Seq<Terms>, b: Seq<Terms>) -> bool {
    a.len() == 0 || b.len() == 0 || pval_of(a) == pval_of(b)
}

/// The common modulus of two sequences, preferring the left.
pub open spec fn joint_p(a: Seq<Terms>, b: Seq<Terms>) -> nat {
    if a.len() > 0 {
        pval_of(a)
    } else {
        pval_of(b)
    }
}

/// The coefficient a term contributes at monomial `m`.
pub open spec fn term_at(t: Terms, m: Seq<usize>) -> int {
    if mono_eq(t.mono(), m) {
        t.cval() as int
    } else {
        0
    }
}

/// The reduced coefficient of a term sequence at monomial `m`: the modular
/// sum of the coefficients of all terms standing at `m`.
pub open spec fn coeff_of(s: Seq<Terms>, m: Seq<usize>, p: nat) -> int
    decreases s.len(),
{
    if s.len() == 0 {
        0
    } else {
        fadd(p as int, coeff_of(s.drop_last(), m, p), term_at(s.last(), m))
    }
}

/// The value of a polynomial coefficient is always reduced.
pub proof fn lemma_coeff_of_bound(s: Seq<Terms>, m: Seq<usize>, p: nat)
    requires
        p >= 1,
    ensures
        0 <= coeff_of(s, m, p) < p,
    decreases s.len(),
{
    if s.len() == 0 {
    } else {
        lemma_coeff_of_bound(s.drop_last(), m, p);
        lemma_fadd_bound(p as int, coeff_of(s.drop_last(), m, p), term_at(s.last(), m));
    }
}

/// A sequence with no term at `m` has coefficient zero there.
pub proof fn lemma_coeff_of_absent(s: Seq<Terms>, m: Seq<usize>, p: nat)
    requires
        p >= 1,
        forall|k: int| 0 <= k < s.len() ==> !mono_eq((#[trigger] s[k]).mono(), m),
    ensures
        coeff_of(s, m, p) == 0,
    decreases s.len(),
{
    if s.len() > 0 {
        assert(forall|k: int|
            0 <= k < s.drop_last().len() ==> s.drop_last()[k] == s[k]);
        lemma_coeff_of_absent(s.drop_last(), m, p);
        assert(!mono_eq(s.last().mono(), m));
        lemma_fadd_zero(p as int, 0);
    }
}

/// In a descending sequence every later monomial is below every earlier one.
pub proof fn lemma_desc_sorted_all(s: Seq<Terms>, j: int, k: int)
    requires
        desc_sorted(s),
        0 <= j < k < s.len(),
    ensures
        mono_lt(s[k].mono(), s[j].mono()),
    decreases k - j,
{
    if k == j + 1 {
    } else {
        lemma_desc_sorted_all(s, j + 1, k);
    }
}

/// In a descending sequence the coefficient at a member monomial is exactly
/// that member's coefficient.
pub proof fn lemma_coeff_of_member(s: Seq<Terms>, m: Seq<usize>, p: nat, k: int)
    requires
        p >= 1,
        desc_sorted(s),
        forall|j: int| 0 <= j < s.len() ==> (#[trigger] s[j]).cval() < p,
        0 <= k < s.len(),
        mono_eq(s[k].mono(), m),
    ensures
        coeff_of(s, m, p) == s[k].cval(),
    decreases s.len(),
{
    let d = s.drop_last();
    assert(forall|j: int| 0 <= j < d.len() ==> d[j] == s[j]);
    if k == s.len() - 1 {
        assert forall|j: int| 0 <= j < d.len() implies !mono_eq((#[trigger] d[j]).mono(), m) by {
            lemma_desc_sorted_all(s, j, k);
            if mono_eq(d[j].mono(), m) {
                assert(mono_eq(s[j].mono(), s[k].mono()));
                lemma_mono_eq_not_lt(s[j].mono(), s[k].mono());
            }
        }
        lemma_coeff_of_absent(d, m, p);
        lemma_fadd_zero(p as int, s[k].cval() as int);
    } else {
        assert(desc_sorted(d));
        lemma_coeff_of_member(d, m, p, k);
        assert(!mono_eq(s.last().mono(), m)) by {
            lemma_desc_sorted_all(s, k, s.len() - 1);
            if mono_eq(s.last().mono(), m) {
                assert(mono_eq(s[k].mono(), s.last().mono()));
                lemma_mono_eq_not_lt(s[k].mono(), s.last().mono());
            }
        }
        lemma_fadd_zero(p as int, s[k].cval() as int);
    }
}

/// A nonzero coefficient points to a member term with that monomial.
pub proof fn lemma_coeff_of_support(s: Seq<Terms>, m: Seq<usize>, p: nat) -> (k: int)
    requires
        p >= 1,
        coeff_of(s, m, p) != 0,
    ensures
        0 <= k < s.len(),
        mono_eq(s[k].mono(), m),
{
    if forall|j: int| 0 <= j < s.len() ==> !mono_eq((#[trigger] s[j]).mono(), m) {
        lemma_coeff_of_absent(s, m, p);
    }
    choose|k: int| 0 <= k < s.len() && mono_eq((#[trigger] s[k]).mono(), m)
}

/// Sequences whose terms agree in coefficient value and monomial have the
/// same coefficient function.
pub proof fn lemma_coeff_of_congruent(a: Seq<Terms>, b: Seq<Terms>, m: Seq<usize>, p: nat)
    requires
        a.len() == b.len(),
        forall|k: int|
            0 <= k < a.len() ==> (#[trigger] a[k]).cval() == b[k].cval() && a[k].mono()
                == b[k].mono(),
    ensures
        coeff_of(a, m, p) == coeff_of(b, m, p),
    decreases a.len(),
{
    if a.len() > 0 {
        assert(forall|k: int| 0 <= k < a.drop_last().len() ==> a.drop_last()[k] == a[k]);
        assert(forall|k: int| 0 <= k < b.drop_last().len() ==> b.drop_last()[k] == b[k]);
        lemma_coeff_of_congruent(a.drop_last(), b.drop_last(), m, p);
        assert(term_at(a.last(), m) == term_at(b.last(), m));
    }
}

/// Canonical polynomials with the same coefficient function are the same
/// sequence of (coefficient, monomial) pairs.
pub proof fn lemma_canonical_unique(a: Seq<Terms>, b: Seq<Terms>, p: nat)
    requires
        poly_wf(a, p),
        poly_wf(b, p),
        forall|m: Seq<usize>| coeff_of(a, m, p) == coeff_of(b, m, p),
    ensures
        a.len() == b.len(),
        forall|k: int|
            0 <= k < a.len() ==> (#[trigger] a[k]).cval() == b[k].cval() && a[k].mono()
                == b[k].mono(),
    decreases a.len() + b.len(),
{
    if a.len() == 0 && b.len() == 0 {
    } else if b.len() == 0 {
        lemma_coeff_of_member(a, a[0].mono(), p, 0);
        lemma_coeff_of_absent(b, a[0].mono(), p);
    } else if a.len() == 0 {
        lemma_coeff_of_member(b, b[0].mono(), p, 0);
        lemma_coeff_of_absent(a, b[0].mono(), p);
    } else {
        let am = a[0].mono();
        let bm = b[0].mono();
        lemma_mono_trichotomy(am, bm);
        if mono_lt(am, bm) {
            // b has a nonzero coefficient at bm, a cannot match it
            lemma_coeff_of_member(b, bm, p, 0);
            assert forall|j: int| 0 <= j < a.len() implies !mono_eq(
                (#[trigger] a[j]).mono(),
                bm,
            ) by {
                if j > 0 {
                    lemma_desc_sorted_all(a, 0, j);
                    if mono_eq(a[j].mono(), bm) {
                        lemma_mono_lt_trans(a[j].mono(), am, bm);
                        lemma_mono_eq_not_lt(a[j].mono(), bm);
                    }
                } else {
                    if mono_eq(am, bm) {
                        lemma_mono_eq_not_lt(am, bm);
                    }
                }
            }
            lemma_coeff_of_absent(a, bm, p);
        } else if mono_lt(bm, am) {
            lemma_coeff_of_member(a, am, p, 0);
            assert forall|j: int| 0 <= j < b.len() implies !mono_eq(
                (#[trigger] b[j]).mono(),
                am,
            ) by {
                if j > 0 {
                    lemma_desc_sorted_all(b, 0, j);
                    if mono_eq(b[j].mono(), am) {
                        lemma_mono_lt_trans(b[j].mono(), bm, am);
                        lemma_mono_eq_not_lt(b[j].mono(), am);
                    }
                } else {
                    if mono_eq(bm, am) {
                        lemma_mono_eq_not_lt(bm, am);
                    }
                }
            }
            lemma_coeff_of_absent(b, am, p);
        } else {
            // equal leading monomials: equal leading coefficients, recurse
            lemma_coeff_of_member(a, am, p, 0);
            lemma_coeff_of_member(b, am, p, 0);
            lemma_mono_eq_canon(am, bm);
            let a1 = a.subrange(1, a.len() as int);
            let b1 = b.subrange(1, b.len() as int);
            assert(forall|k: int| 0 <= k < a1.len() ==> a1[k] == a[k + 1]);
            assert(forall|k: int| 0 <= k < b1.len() ==> b1[k] == b[k + 1]);
            assert(poly_wf(a1, p));
            assert(poly_wf(b1, p));
            assert forall|m: Seq<usize>| coeff_of(a1, m, p) == coeff_of(b1, m, p) by {
                lemma_coeff_of_head(a, m, p);
                lemma_coeff_of_head(b, m, p);
                if mono_eq(am, m) {
                    lemma_coeff_of_member(a, m, p, 0);
                    lemma_coeff_of_member(b, m, p, 0);
                    assert forall|j: int| 0 <= j < a1.len() implies !mono_eq(
                        (#[trigger] a1[j]).mono(),
                        m,
                    ) by {
                        lemma_desc_sorted_all(a, 0, j + 1);
                        lemma_not_eq_when_lt(a1[j].mono(), am, m);
                    }
                    assert forall|j: int| 0 <= j < b1.len() implies !mono_eq(
                        (#[trigger] b1[j]).mono(),
                        m,
                    ) by {
                        lemma_desc_sorted_all(b, 0, j + 1);
                        lemma_not_eq_when_lt(b1[j].mono(), bm, m);
                    }
                    lemma_coeff_of_absent(a1, m, p);
                    lemma_coeff_of_absent(b1, m, p);
                } else {
                    lemma_coeff_of_bound(a1, m, p);
                    lemma_coeff_of_bound(b1, m, p);
                    lemma_fadd_zero(p as int, coeff_of(a1, m, p));
                    lemma_fadd_zero(p as int, coeff_of(b1, m, p));
                }
            }
            lemma_canonical_unique(a1, b1, p);
            assert forall|k: int|
                0 <= k < a.len() implies (#[trigger] a[k]).cval() == b[k].cval() && a[k].mono()
                == b[k].mono() by {
                if k > 0 {
                    assert(a1[k - 1].cval() == b1[k - 1].cval() && a1[k - 1].mono() == b1[k
                        - 1].mono());
                }
            }
        }
    }
}

/// Splitting off the head term of a coefficient sum.
pub proof fn lemma_coeff_of_head(s: Seq<Terms>, m: Seq<usize>, p: nat)
    requires
        p >= 1,
        s.len() > 0,
    ensures
        coeff_of(s, m, p) == fadd(
            p as int,
            term_at(s[0], m),
            coeff_of(s.subrange(1, s.len() as int), m, p),
        ),
    decreases s.len(),
{
    let tail = s.subrange(1, s.len() as int);
    if s.len() == 1 {
        assert(s.drop_last().len() == 0);
        assert(tail.len() == 0);
        lemma_coeff_of_bound(s, m, p);
        lemma_fadd_zero(p as int, 0);
        assert(coeff_of(s.drop_last(), m, p) == 0);
        assert(coeff_of(tail, m, p) == 0);
        assert(coeff_of(s, m, p) == fadd(p as int, 0, term_at(s.last(), m)));
        assert(s.last() == s[0]);
        assert(fadd(p as int, 0, term_at(s[0], m)) == fadd(p as int, term_at(s[0], m), 0));
    } else {
        let d = s.drop_last();
        assert(forall|k: int| 0 <= k < d.len() ==> d[k] == s[k]);
        lemma_coeff_of_head(d, m, p);
        assert(d[0] == s[0]);
        assert(d.subrange(1, d.len() as int) =~= tail.drop_last());
        assert(tail.last() == s.last());
        lemma_fadd_assoc(
            p as int,
            term_at(s[0], m),
            coeff_of(tail.drop_last(), m, p),
            term_at(s.last(), m),
        );
    }
}

/// A monomial below an equal of `m` cannot itself equal `m`.
proof fn lemma_not_eq_when_lt(x: Seq<usize>, top: Seq<usize>, m: Seq<usize>)
    requires
        mono_lt(x, top),
        mono_eq(top, m),
    ensures
        !mono_eq(x, m),
{
    if mono_eq(x, m) {
        lemma_mono_lt_eq_right(x, top, m);
        lemma_mono_eq_not_lt(x, m);
    }
}

/// The monomials of `t` and `u` multiply to exactly `m`.
pub open spec fn mono_sum_at(t: Terms, u: Terms, m: Seq<usize>) -> bool {
    forall|i: int| exp_at(t.mono(), i) + exp_at(u.mono(), i) == exp_at(m, i)
}

/// The slot-wise difference `m - u`, defined when `u` fits below `m`.
pub open spec fn mono_minus(m: Seq<usize>, u: Seq<usize>) -> Seq<usize> {
    Seq::new(m.len(), |i: int| (m[i] - exp_at(u, i)) as usize)
}

/// The coefficient contributed at monomial `m` by multiplying every term of
/// `a` with the single term `u`.
pub open spec fn col_at(a: Seq<Terms>, u: Terms, m: Seq<usize>, p: nat) -> int
    decreases a.len(),
{
    if a.len() == 0 {
        0
    } else {
        fadd(
            p as int,
            col_at(a.drop_last(), u, m, p),
            if mono_sum_at(a.last(), u, m) {
                fmul(p as int, a.last().cval() as int, u.cval() as int)
            } else {
                0
            },
        )
    }
}

/// The coefficient of the product `a * b` at monomial `m`: the full double
/// cross sum of term products, reduced.
pub open spec fn conv(a: Seq<Terms>, b: Seq<Terms>, m: Seq<usize>, p: nat) -> int
    decreases b.len(),
{
    if b.len() == 0 {
        0
    } else {
        fadd(p as int, conv(a, b.drop_last(), m, p), col_at(a, b.last(), m, p))
    }
}

/// Cross-sum coefficients are always reduced.
pub proof fn lemma_conv_bound(a: Seq<Terms>, b: Seq<Terms>, m: Seq<usize>, p: nat)
    requires
        p >= 1,
    ensures
        0 <= conv(a, b, m, p) < p,
    decreases b.len(),
{
    if b.len() == 0 {
    } else {
        lemma_conv_bound(a, b.drop_last(), m, p);
        lemma_fadd_bound(p as int, conv(a, b.drop_last(), m, p), col_at(a, b.last(), m, p));
    }
}

/// Column coefficients are always reduced.
pub proof fn lemma_col_at_bound(a: Seq<Terms>, u: Terms, m: Seq<usize>, p: nat)
    requires
        p >= 1,
    ensures
        0 <= col_at(a, u, m, p) < p,
    decreases a.len(),
{
    if a.len() > 0 {
        lemma_col_at_bound(a.drop_last(), u, m, p);
        if mono_sum_at(a.last(), u, m) {
            lemma_fadd_bound(
                p as int,
                col_at(a.drop_last(), u, m, p),
                fmul(p as int, a.last().cval() as int, u.cval() as int),
            );
        } else {
            lemma_fadd_bound(p as int, col_at(a.drop_last(), u, m, p), 0);
        }
    }
}

/// A column against `u` is the coefficient of `a` at `m` shifted down by
/// `u`'s monomial, scaled by `u`'s coefficient.
pub proof fn lemma_col_at_coeff(a: Seq<Terms>, u: Terms, m: Seq<usize>, p: nat)
    requires
        p >= 1,
        u.cval() < p,
    ensures
        mono_subtractable(u.mono(), m) ==> col_at(a, u, m, p) == fmul(
            p as int,
            coeff_of(a, mono_minus(m, u.mono()), p),
            u.cval() as int,
        ),
        !mono_subtractable(u.mono(), m) ==> col_at(a, u, m, p) == 0,
    decreases a.len(),
{
    if a.len() == 0 {
        if mono_subtractable(u.mono(), m) {
            lemma_fmul_basics(p as int, u.cval() as int);
        }
    } else {
        lemma_col_at_coeff(a.drop_last(), u, m, p);
        let t = a.last();
        if mono_subtractable(u.mono(), m) {
            let mu = mono_minus(m, u.mono());
            // matching the difference monomial is the same as summing to m
            assert(mono_sum_at(t, u, m) <==> mono_eq(t.mono(), mu)) by {
                if mono_sum_at(t, u, m) {
                    assert forall|i: int| exp_at(t.mono(), i) == exp_at(mu, i) by {
                        assert(exp_at(t.mono(), i) + exp_at(u.mono(), i) == exp_at(m, i));
                        if 0 <= i < m.len() {
                            assert(exp_at(mu, i) == m[i] - exp_at(u.mono(), i));
                        } else {
                            assert(exp_at(m, i) == 0);
                        }
                    }
                }
                if mono_eq(t.mono(), mu) {
                    assert forall|i: int|
                        exp_at(t.mono(), i) + exp_at(u.mono(), i) == exp_at(m, i) by {
                        assert(exp_at(t.mono(), i) == exp_at(mu, i));
                        if 0 <= i < m.len() {
                            assert(exp_at(mu, i) == m[i] - exp_at(u.mono(), i));
                        } else {
                            assert(exp_at(mu, i) == 0);
                            assert(exp_at(u.mono(), i) <= exp_at(m, i));
                        }
                    }
                }
            }
            let x = coeff_of(a.drop_last(), mu, p);
            let tt = term_at(t, mu);
            assert(coeff_of(a, mu, p) == fadd(p as int, x, tt));
            // distribute the scaling over the sum
            lemma_fmul_distr_right(p as int, x, tt, u.cval() as int);
            if mono_sum_at(t, u, m) {
                assert(tt == t.cval());
            } else {
                assert(tt == 0);
                lemma_fmul_basics(p as int, u.cval() as int);
            }
        } else {
            assert(!mono_sum_at(t, u, m)) by {
                if mono_sum_at(t, u, m) {
                    assert forall|i: int| exp_at(u.mono(), i) <= exp_at(m, i) by {
                        assert(exp_at(t.mono(), i) + exp_at(u.mono(), i) == exp_at(m, i));
                    }
                }
            }
            lemma_coeff_of_bound(a.drop_last(), m, p);
            lemma_fadd_zero(p as int, 0);
        }
    }
}

/// Pointwise sums of coefficient functions scale through a cross sum in its
/// left argument.
pub proof fn lemma_conv_linear(
    a1: Seq<Terms>,
    a2: Seq<Terms>,
    a3: Seq<Terms>,
    b: Seq<Terms>,
    m: Seq<usize>,
    p: nat,
)
    requires
        p >= 1,
        forall|k: int| 0 <= k < b.len() ==> (#[trigger] b[k]).cval() < p,
        forall|mu: Seq<usize>|
            coeff_of(a1, mu, p) == fadd(p as int, coeff_of(a2, mu, p), coeff_of(a3, mu, p)),
    ensures
        conv(a1, b, m, p) == fadd(p as int, conv(a2, b, m, p), conv(a3, b, m, p)),
    decreases b.len(),
{
    if b.len() == 0 {
        vstd::arithmetic::div_mod::lemma_small_mod(0nat, p);
    } else {
        let u = b.last();
        assert(forall|k: int| 0 <= k < b.drop_last().len() ==> b.drop_last()[k] == b[k]);
        lemma_conv_linear(a1, a2, a3, b.drop_last(), m, p);
        // the column against u is additive as well
        lemma_col_at_coeff(a1, u, m, p);
        lemma_col_at_coeff(a2, u, m, p);
        lemma_col_at_coeff(a3, u, m, p);
        if mono_subtractable(u.mono(), m) {
            let mu = mono_minus(m, u.mono());
            assert(coeff_of(a1, mu, p) == fadd(p as int, coeff_of(a2, mu, p), coeff_of(a3, mu, p)));
            lemma_fmul_distr_right(
                p as int,
                coeff_of(a2, mu, p),
                coeff_of(a3, mu, p),
                u.cval() as int,
            );
            // fmul(fadd(x2, x3), u) == fadd(fmul(x2, u), fmul(x3, u))
        } else {
            vstd::arithmetic::div_mod::lemma_small_mod(0nat, p);
        }
        crate::intmod::lemma_fadd4(
            p as int,
            conv(a2, b.drop_last(), m, p),
            col_at(a2, u, m, p),
            conv(a3, b.drop_last(), m, p),
            col_at(a3, u, m, p),
        );
    }
}

/// Scaling distributes over a modular sum from the right.
pub proof fn lemma_fmul_distr_right(p: int, x: int, y: int, c: int)
    requires
        p >= 1,
    ensures
        fmul(p, fadd(p, x, y), c) == fadd(p, fmul(p, x, c), fmul(p, y, c)),
{
    lemma_fmul_assoc(p, fadd(p, x, y), c, 1);
    crate::intmod::lemma_fmul_distr(p, c, x, y);
    lemma_fmul_assoc(p, c, x, 1);
    lemma_fmul_assoc(p, c, y, 1);
}

/// Every monomial of the sequence has no exponent at slot `l` or beyond.
pub open spec fn within_terms(s: Seq<Terms>, l: int) -> bool {
    forall|k: int, i: int|
        0 <= k < s.len() && i >= l ==> #[trigger] exp_at(s[k].mono(), i) == 0
}

/// The longest stored monomial of a term sequence.
pub open spec fn max_mono_len(s: Seq<Terms>) -> int
    decreases s.len(),
{
    if s.len() == 0 {
        0
    } else if max_mono_len(s.drop_last()) >= s.last().mono().len() {
        max_mono_len(s.drop_last())
    } else {
        s.last().mono().len() as int
    }
}

/// Every monomial fits within the longest stored length.
pub proof fn lemma_within_max(s: Seq<Terms>)
    ensures
        max_mono_len(s) >= 0,
        within_terms(s, max_mono_len(s)),
    decreases s.len(),
{
    if s.len() > 0 {
        lemma_within_max(s.drop_last());
        assert(forall|k: int| 0 <= k < s.len() - 1 ==> s.drop_last()[k] == s[k]);
        assert forall|k: int, i: int|
            0 <= k < s.len() && i >= max_mono_len(s) implies #[trigger] exp_at(
            s[k].mono(),
            i,
        ) == 0 by {
            if k < s.len() - 1 {
                assert(exp_at(s.drop_last()[k].mono(), i) == 0);
            } else {
                assert(i >= s.last().mono().len());
            }
        }
    }
}

/// Larger bounds keep every monomial within them.
pub proof fn lemma_within_mono(s: Seq<Terms>, l1: int, l2: int)
    requires
        within_terms(s, l1),
        l1 <= l2,
    ensures
        within_terms(s, l2),
{
}

/// Above the leading monomial every coefficient vanishes.
pub proof fn lemma_coeff_above_lead(s: Seq<Terms>, m: Seq<usize>, p: nat)
    requires
        p >= 1,
        desc_sorted(s),
        s.len() > 0,
        mono_lt(s[0].mono(), m),
    ensures
        coeff_of(s, m, p) == 0,
{
    assert forall|k: int| 0 <= k < s.len() implies !mono_eq((#[trigger] s[k]).mono(), m) by {
        if mono_eq(s[k].mono(), m) {
            if k == 0 {
                lemma_mono_eq_not_lt(s[0].mono(), m);
            } else {
                lemma_desc_sorted_all(s, 0, k);
                lemma_mono_lt_eq_right(s[0].mono(), m, s[k].mono());
                // s[k] < s[0] < m == s[k]: contradiction
                lemma_mono_lt_trans(s[k].mono(), s[0].mono(), s[k].mono());
                lemma_mono_eq_not_lt(s[k].mono(), s[k].mono());
            }
        }
    }
    lemma_coeff_of_absent(s, m, p);
}

/// A nonzero column points to a term of `a` pairing with `u` at `m`.
pub proof fn lemma_col_support(a: Seq<Terms>, u: Terms, m: Seq<usize>, p: nat) -> (ka: int)
    requires
        p >= 1,
        col_at(a, u, m, p) != 0,
    ensures
        0 <= ka < a.len(),
        mono_sum_at(a[ka], u, m),
    decreases a.len(),
{
    if a.len() == 0 {
        0
    } else {
        let prev = col_at(a.drop_last(), u, m, p);
        let piece: int = if mono_sum_at(a.last(), u, m) {
            fmul(p as int, a.last().cval() as int, u.cval() as int)
        } else {
            0
        };
        if piece != 0 {
            a.len() - 1
        } else {
            lemma_coeff_of_bound(a, m, p);
            assert(prev != 0) by {
                if prev == 0 {
                    vstd::arithmetic::div_mod::lemma_small_mod(0nat, p);
                }
            }
            let ka = lemma_col_support(a.drop_last(), u, m, p);
            assert(a.drop_last()[ka] == a[ka]);
            ka
        }
    }
}

/// A nonzero cross-sum coefficient points to a pair of terms multiplying
/// to `m`.
pub proof fn lemma_conv_support(a: Seq<Terms>, b: Seq<Terms>, m: Seq<usize>, p: nat) -> (kk: (
    int,
    int,
))
    requires
        p >= 1,
        conv(a, b, m, p) != 0,
    ensures
        0 <= kk.0 < a.len(),
        0 <= kk.1 < b.len(),
        mono_sum_at(a[kk.0], b[kk.1], m),
    decreases b.len(),
{
    if b.len() == 0 {
        (0, 0)
    } else {
        let prev = conv(a, b.drop_last(), m, p);
        let col = col_at(a, b.last(), m, p);
        lemma_conv_bound(a, b.drop_last(), m, p);
        lemma_col_at_bound(a, b.last(), m, p);
        if col != 0 {
            let ka = lemma_col_support(a, b.last(), m, p);
            (ka, b.len() - 1)
        } else {
            assert(prev != 0) by {
                if prev == 0 {
                    vstd::arithmetic::div_mod::lemma_small_mod(0nat, p);
                }
            }
            let kk = lemma_conv_support(a, b.drop_last(), m, p);
            assert(b.drop_last()[kk.1] == b[kk.1]);
            kk
        }
    }
}

/// A canonical sequence whose nonzero coefficients all come from one of two
/// others stays within their monomial bounds.
pub proof fn lemma_within_sum(r: Seq<Terms>, a: Seq<Terms>, b: Seq<Terms>, p: nat, l: int)
    requires
        p >= 1,
        desc_sorted(r),
        no_zero_coeffs(r),
        forall|k: int| 0 <= k < r.len() ==> (#[trigger] r[k]).cval() < p,
        forall|m: Seq<usize>|
            coeff_of(r, m, p) != 0 ==> coeff_of(a, m, p) != 0 || coeff_of(b, m, p) != 0,
        within_terms(a, l),
        within_terms(b, l),
    ensures
        within_terms(r, l),
{
    assert forall|k: int, i: int|
        0 <= k < r.len() && i >= l implies #[trigger] exp_at(r[k].mono(), i) == 0 by {
        let m = r[k].mono();
        lemma_coeff_of_member(r, m, p, k);
        assert(coeff_of(r, m, p) != 0);
        if coeff_of(a, m, p) != 0 {
            let ka = lemma_coeff_of_support(a, m, p);
            assert(exp_at(a[ka].mono(), i) == 0);
            assert(exp_at(m, i) == exp_at(a[ka].mono(), i));
        } else {
            let kb = lemma_coeff_of_support(b, m, p);
            assert(exp_at(b[kb].mono(), i) == 0);
            assert(exp_at(m, i) == exp_at(b[kb].mono(), i));
        }
    }
}

/// A canonical sequence carrying the cross sum of two bounded sequences is
/// bounded by their joint monomial support.
pub proof fn lemma_within_conv(r: Seq<Terms>, a: Seq<Terms>, b: Seq<Terms>, p: nat, l: int)
    requires
        p >= 1,
        desc_sorted(r),
        no_zero_coeffs(r),
        forall|k: int| 0 <= k < r.len() ==> (#[trigger] r[k]).cval() < p,
        forall|m: Seq<usize>| coeff_of(r, m, p) == conv(a, b, m, p),
        within_terms(a, l),
        within_terms(b, l),
    ensures
        within_terms(r, l),
{
    assert forall|k: int, i: int|
        0 <= k < r.len() && i >= l implies #[trigger] exp_at(r[k].mono(), i) == 0 by {
        let m = r[k].mono();
        lemma_coeff_of_member(r, m, p, k);
        assert(conv(a, b, m, p) != 0);
        let kk = lemma_conv_support(a, b, m, p);
        assert(exp_at(a[kk.0].mono(), i) == 0);
        assert(exp_at(b[kk.1].mono(), i) == 0);
        assert(exp_at(m, i) == exp_at(a[kk.0].mono(), i) + exp_at(b[kk.1].mono(), i));
    }
}

/// The cross sum of a one-term polynomial with a sorted polynomial takes, at
/// the product of the two leading monomials, exactly the product of the
/// leading coefficients, and vanishes above it.
pub proof fn lemma_conv_single_top(a: Seq<Terms>, b: Seq<Terms>, top: Seq<usize>, p: nat)
    requires
        p >= 2,
        a.len() == 1,
        b.len() > 0,
        desc_sorted(b),
        forall|k: int| 0 <= k < b.len() ==> (#[trigger] b[k]).cval() < p,
        a[0].cval() < p,
        mono_sum_at(a[0], b[0], top),
    ensures
        conv(a, b, top, p) == fmul(p as int, a[0].cval() as int, b[0].cval() as int),
        forall|m: Seq<usize>| mono_lt(top, m) ==> conv(a, b, m, p) == 0,
    decreases b.len(),
{
    // no later term of b can pair with a[0] to reach `top`
    assert forall|kb: int| 1 <= kb < b.len() implies !mono_sum_at(a[0], b[kb], top) by {
        if mono_sum_at(a[0], b[kb], top) {
            lemma_desc_sorted_all(b, 0, kb);
            lemma_mono_sum_props(a[0].mono(), b[kb].mono(), b[0].mono(), top, top);
            lemma_mono_eq_not_lt(b[kb].mono(), b[0].mono());
        }
    }
    lemma_conv_single_top_eval(a, b, top, p);
    assert forall|m: Seq<usize>| mono_lt(top, m) implies conv(a, b, m, p) == 0 by {
        lemma_conv_bound(a, b, m, p);
        if conv(a, b, m, p) != 0 {
            let kk = lemma_conv_support(a, b, m, p);
            // m == a0 + b[kb] <= a0 + b0 == top, contradicting top < m
            if kk.1 == 0 {
                lemma_mono_sum_props(a[0].mono(), b[0].mono(), b[0].mono(), m, m);
                assert(mono_eq(m, top)) by {
                    assert(forall|i: int|
                        exp_at(m, i) == exp_at(a[0].mono(), i) + exp_at(b[0].mono(), i));
                    assert(forall|i: int|
                        exp_at(top, i) == exp_at(a[0].mono(), i) + exp_at(b[0].mono(), i));
                }
                lemma_mono_eq_not_lt(m, top);
            } else {
                lemma_desc_sorted_all(b, 0, kk.1);
                lemma_mono_sum_props(a[0].mono(), b[kk.1].mono(), b[0].mono(), m, top);
                assert(mono_lt(m, top));
                lemma_mono_lt_trans(top, m, top);
                lemma_mono_eq_not_lt(top, top);
            }
        }
    }
}

/// Evaluation half of [`lemma_conv_single_top`]: only the leading column
/// contributes at `top`.
proof fn lemma_conv_single_top_eval(a: Seq<Terms>, b: Seq<Terms>, top: Seq<usize>, p: nat)
    requires
        p >= 2,
        a.len() == 1,
        b.len() > 0,
        a[0].cval() < p,
        forall|k: int| 0 <= k < b.len() ==> (#[trigger] b[k]).cval() < p,
        mono_sum_at(a[0], b[0], top),
        forall|kb: int| 1 <= kb < b.len() ==> !mono_sum_at(a[0], (#[trigger] b[kb]), top),
    ensures
        conv(a, b, top, p) == fmul(p as int, a[0].cval() as int, b[0].cval() as int),
    decreases b.len(),
{
    let value = fmul(p as int, a[0].cval() as int, b[0].cval() as int);
    assert(a.last() == a[0]);
    assert(a.drop_last().len() == 0);
    if b.len() == 1 {
        assert(b.last() == b[0]);
        assert(conv(a, b.drop_last(), top, p) == 0);
        assert(conv(a, b, top, p) == fadd(p as int, 0, col_at(a, b[0], top, p)));
        assert(col_at(a.drop_last(), b[0], top, p) == 0);
        assert(mono_sum_at(a.last(), b[0], top));
        assert(col_at(a, b[0], top, p) == fadd(p as int, 0, value));
        lemma_fadd_bound(p as int, a[0].cval() as int, b[0].cval() as int);
        lemma_fadd_zero(p as int, 0);
        lemma_fadd_zero(p as int, value);
    } else {
        let d = b.drop_last();
        assert(forall|k: int| 0 <= k < d.len() ==> d[k] == b[k]);
        lemma_conv_single_top_eval(a, d, top, p);
        assert(!mono_sum_at(a[0], b.last(), top)) by {
            assert(!mono_sum_at(a[0], b[b.len() - 1], top));
        }
        assert(col_at(a.drop_last(), b.last(), top, p) == 0);
        assert(col_at(a, b.last(), top, p) == fadd(p as int, 0, 0));
        vstd::arithmetic::div_mod::lemma_small_mod(0nat, p);
        lemma_fadd_bound(p as int, a[0].cval() as int, b[0].cval() as int);
        lemma_fadd_zero(p as int, value);
    }
}

/// Termination measure of the division loops: one more than the rank of the
/// leading monomial, zero for the zero polynomial.
pub open spec fn poly_rank(s: Seq<Terms>, l: int) -> nat {
    if s.len() == 0 {
        0
    } else {
        crate::multiindex::mono_rank(s[0].mono(), l) + 1
    }
}

/// The empty polynomial contributes nothing to a cross sum.
pub proof fn lemma_conv_empty_left(b: Seq<Terms>, m: Seq<usize>, p: nat)
    requires
        p >= 1,
    ensures
        forall|a: Seq<Terms>| a.len() == 0 ==> conv(a, b, m, p) == 0,
    decreases b.len(),
{
    vstd::arithmetic::div_mod::lemma_small_mod(0nat, p);
    if b.len() > 0 {
        lemma_conv_empty_left(b.drop_last(), m, p);
    }
}

/// A quotient term times the divisor's leading coefficient gives back the
/// dividend's leading coefficient, and is itself nonzero.
pub proof fn lemma_cancel_coeff(p: nat, xc: nat, bc: nat, tc: nat)
    requires
        p >= 2,
        xc < p,
        0 < xc,
        exists|i: int|
            0 <= i < p && #[trigger] fmul(p as int, bc as int, i) == 1 && tc == fmul(
                p as int,
                xc as int,
                i,
            ),
    ensures
        fmul(p as int, tc as int, bc as int) == xc,
        tc != 0,
{
    let i = choose|i: int|
        0 <= i < p && #[trigger] fmul(p as int, bc as int, i) == 1 && tc == fmul(
            p as int,
            xc as int,
            i,
        );
    // (xc * i) * bc == xc * (i * bc) == xc * (bc * i) == xc * 1 == xc
    lemma_fmul_assoc(p as int, xc as int, i, bc as int);
    lemma_fmul_assoc(p as int, i, bc as int, 1);
    assert(fmul(p as int, tc as int, bc as int) == fmul(
        p as int,
        xc as int,
        fmul(p as int, i, bc as int),
    ));
    assert(fmul(p as int, i, bc as int) == fmul(p as int, bc as int, i));
    lemma_fmul_basics(p as int, xc as int);
    if tc == 0 {
        lemma_fmul_basics(p as int, bc as int);
    }
}

/// A canonical residual whose coefficients vanish at and above a leading
/// monomial has a strictly smaller rank than a polynomial led by it.
pub proof fn lemma_lead_drop(xold: Seq<Terms>, xnew: Seq<Terms>, p: nat, l: int)
    requires
        p >= 2,
        xold.len() > 0,
        desc_sorted(xnew),
        no_zero_coeffs(xnew),
        forall|k: int| 0 <= k < xnew.len() ==> (#[trigger] xnew[k]).cval() < p,
        within_terms(xold, l),
        within_terms(xnew, l),
        coeff_of(xnew, xold[0].mono(), p) == 0,
        forall|m: Seq<usize>| mono_lt(xold[0].mono(), m) ==> coeff_of(xnew, m, p) == 0,
    ensures
        poly_rank(xnew, l) < poly_rank(xold, l),
{
    let top = xold[0].mono();
    if xnew.len() > 0 {
        let m0 = xnew[0].mono();
        lemma_coeff_of_member(xnew, m0, p, 0);
        assert(coeff_of(xnew, m0, p) != 0);
        lemma_mono_trichotomy(m0, top);
        if mono_eq(m0, top) {
            lemma_coeff_of_member(xnew, top, p, 0);
        } else if mono_lt(top, m0) {
            assert(coeff_of(xnew, m0, p) == 0);
        }
        assert(mono_lt(m0, top));
        let i = choose|i: int|
            {
                &&& 0 <= i
                &&& exp_at(m0, i) < exp_at(top, i)
                &&& forall|j: int| 0 <= j < i ==> exp_at(m0, j) == exp_at(top, j)
            };
        assert(exp_at(top, i) > 0);
        assert(i < l) by {
            if i >= l {
                assert(exp_at(xold[0].mono(), i) == 0);
            }
        }
        crate::multiindex::lemma_mono_rank_lt(m0, top, l, i);
    }
}

/// Everything one quotient step of the division loop preserves: the
/// reconstruction identity, the monomial bounds, and the strict drop of the
/// residual's leading rank.
#[verifier::rlimit(30)]
proof fn lemma_div_step_divisible(
    a: Seq<Terms>,
    b: Seq<Terms>,
    q0: Seq<Terms>,
    q1: Seq<Terms>,
    r0: Seq<Terms>,
    x0: Seq<Terms>,
    x1: Seq<Terms>,
    tp: Seq<Terms>,
    delta: Seq<Terms>,
    t: Terms,
    p: nat,
    l: int,
    ltxm: Seq<usize>,
)
    requires
        p >= 2,
        b.len() > 0,
        desc_sorted(b),
        no_zero_coeffs(b),
        forall|k: int| 0 <= k < b.len() ==> (#[trigger] b[k]).cval() < p,
        x0.len() > 0,
        desc_sorted(x0),
        no_zero_coeffs(x0),
        forall|k: int| 0 <= k < x0.len() ==> (#[trigger] x0[k]).cval() < p,
        ltxm == x0[0].mono(),
        desc_sorted(q1),
        no_zero_coeffs(q1),
        forall|k: int| 0 <= k < q1.len() ==> (#[trigger] q1[k]).cval() < p,
        desc_sorted(x1),
        no_zero_coeffs(x1),
        forall|k: int| 0 <= k < x1.len() ==> (#[trigger] x1[k]).cval() < p,
        desc_sorted(delta),
        no_zero_coeffs(delta),
        forall|k: int| 0 <= k < delta.len() ==> (#[trigger] delta[k]).cval() < p,
        within_terms(b, l),
        within_terms(q0, l),
        within_terms(x0, l),
        tp.len() == 1,
        tp[0].cval() == t.cval(),
        tp[0].mono() == t.mono(),
        t.cval() != 0,
        t.cval() < p,
        fmul(p as int, t.cval() as int, b[0].cval() as int) == x0[0].cval(),
        forall|i: int|
            #[trigger] exp_at(ltxm, i) == exp_at(b[0].mono(), i) + exp_at(t.mono(), i),
        forall|m: Seq<usize>|
            coeff_of(a, m, p) == fadd(
                p as int,
                conv(q0, b, m, p),
                fadd(p as int, coeff_of(r0, m, p), coeff_of(x0, m, p)),
            ),
        forall|m: Seq<usize>|
            coeff_of(q1, m, p) == fadd(p as int, coeff_of(q0, m, p), coeff_of(tp, m, p)),
        forall|m: Seq<usize>| coeff_of(delta, m, p) == conv(tp, b, m, p),
        forall|m: Seq<usize>|
            coeff_of(x1, m, p) == fsub(p as int, coeff_of(x0, m, p), coeff_of(delta, m, p)),
    ensures
        forall|m: Seq<usize>|
            coeff_of(a, m, p) == fadd(
                p as int,
                conv(q1, b, m, p),
                fadd(p as int, coeff_of(r0, m, p), coeff_of(x1, m, p)),
            ),
        within_terms(q1, l),
        within_terms(x1, l),
        poly_rank(x1, l) < poly_rank(x0, l),
{
    // the reconstruction identity
    assert forall|m: Seq<usize>|
        coeff_of(a, m, p) == fadd(
        p as int,
        conv(q1, b, m, p),
        fadd(p as int, coeff_of(r0, m, p), coeff_of(x1, m, p)),
    ) by {
        lemma_conv_linear(q1, q0, tp, b, m, p);
        lemma_div_glue_q(
            p as int,
            conv(q0, b, m, p),
            conv(tp, b, m, p),
            coeff_of(r0, m, p),
            coeff_of(x0, m, p),
        );
    }
    // the new quotient term stays within the monomial bounds
    assert(within_terms(tp, l)) by {
        assert forall|k: int, i: int|
            0 <= k < tp.len() && i >= l implies #[trigger] exp_at(tp[k].mono(), i) == 0 by {
            assert(exp_at(x0[0].mono(), i) == 0);
            assert(exp_at(ltxm, i) == exp_at(b[0].mono(), i) + exp_at(t.mono(), i));
        }
    }
    assert(within_terms(q1, l)) by {
        assert forall|m: Seq<usize>|
            coeff_of(q1, m, p) != 0 implies coeff_of(q0, m, p) != 0 || coeff_of(tp, m, p)
            != 0 by {
            if coeff_of(q0, m, p) == 0 && coeff_of(tp, m, p) == 0 {
                vstd::arithmetic::div_mod::lemma_small_mod(0nat, p);
            }
        }
        lemma_within_sum(q1, q0, tp, p, l);
    }
    assert(within_terms(delta, l)) by {
        lemma_within_conv(delta, tp, b, p, l);
    }
    assert(within_terms(x1, l)) by {
        assert forall|m: Seq<usize>|
            coeff_of(x1, m, p) != 0 implies coeff_of(x0, m, p) != 0 || coeff_of(delta, m, p)
            != 0 by {
            if coeff_of(x0, m, p) == 0 && coeff_of(delta, m, p) == 0 {
                vstd::arithmetic::div_mod::lemma_small_mod(0nat, p);
            }
        }
        lemma_within_sum(x1, x0, delta, p, l);
    }
    // leading-term cancellation: the residual drops strictly
    assert(mono_sum_at(tp[0], b[0], ltxm)) by {
        assert(forall|i: int|
            exp_at(tp[0].mono(), i) + exp_at(b[0].mono(), i) == exp_at(ltxm, i));
    }
    lemma_conv_single_top(tp, b, ltxm, p);
    assert(conv(tp, b, ltxm, p) == x0[0].cval());
    lemma_coeff_of_member(x0, ltxm, p, 0);
    assert(coeff_of(x1, ltxm, p) == 0) by {
        assert(coeff_of(x1, ltxm, p) == fsub(
            p as int,
            x0[0].cval() as int,
            x0[0].cval() as int,
        ));
        vstd::arithmetic::div_mod::lemma_small_mod(0nat, p);
    }
    assert forall|m: Seq<usize>| mono_lt(ltxm, m) implies coeff_of(x1, m, p) == 0 by {
        lemma_coeff_above_lead(x0, m, p);
        assert(conv(tp, b, m, p) == 0);
        vstd::arithmetic::div_mod::lemma_small_mod(0nat, p);
    }
    lemma_lead_drop(x0, x1, p, l);
}

/// Everything one remainder step of the division loop preserves.
#[verifier::rlimit(30)]
proof fn lemma_div_step_remainder(
    a: Seq<Terms>,
    b: Seq<Terms>,
    q0: Seq<Terms>,
    r0: Seq<Terms>,
    r1: Seq<Terms>,
    x0: Seq<Terms>,
    x1: Seq<Terms>,
    tp: Seq<Terms>,
    ltx: Terms,
    p: nat,
    l: int,
    ltxm: Seq<usize>,
)
    requires
        p >= 2,
        b.len() > 0,
        x0.len() > 0,
        desc_sorted(x0),
        no_zero_coeffs(x0),
        forall|k: int| 0 <= k < x0.len() ==> (#[trigger] x0[k]).cval() < p,
        ltxm == x0[0].mono(),
        ltx.cval() == x0[0].cval(),
        ltx.mono() == ltxm,
        desc_sorted(r1),
        no_zero_coeffs(r1),
        forall|k: int| 0 <= k < r1.len() ==> (#[trigger] r1[k]).cval() < p,
        desc_sorted(x1),
        no_zero_coeffs(x1),
        forall|k: int| 0 <= k < x1.len() ==> (#[trigger] x1[k]).cval() < p,
        within_terms(r0, l),
        within_terms(x0, l),
        tp.len() == 1,
        tp[0].mono() == ltxm,
        !mono_subtractable(b[0].mono(), ltxm),
        forall|k: int|
            0 <= k < r0.len() ==> !mono_subtractable(b[0].mono(), (#[trigger] r0[k]).mono()),
        forall|m: Seq<usize>|
            coeff_of(a, m, p) == fadd(
                p as int,
                conv(q0, b, m, p),
                fadd(p as int, coeff_of(r0, m, p), coeff_of(x0, m, p)),
            ),
        forall|m: Seq<usize>| coeff_of(tp, m, p) == term_at(ltx, m),
        forall|m: Seq<usize>|
            coeff_of(r1, m, p) == fadd(p as int, coeff_of(r0, m, p), coeff_of(tp, m, p)),
        forall|m: Seq<usize>|
            coeff_of(x1, m, p) == fsub(p as int, coeff_of(x0, m, p), coeff_of(tp, m, p)),
    ensures
        forall|m: Seq<usize>|
            coeff_of(a, m, p) == fadd(
                p as int,
                conv(q0, b, m, p),
                fadd(p as int, coeff_of(r1, m, p), coeff_of(x1, m, p)),
            ),
        within_terms(r1, l),
        within_terms(x1, l),
        forall|k: int|
            0 <= k < r1.len() ==> !mono_subtractable(b[0].mono(), (#[trigger] r1[k]).mono()),
        poly_rank(x1, l) < poly_rank(x0, l),
{
    assert forall|m: Seq<usize>|
        coeff_of(a, m, p) == fadd(
        p as int,
        conv(q0, b, m, p),
        fadd(p as int, coeff_of(r1, m, p), coeff_of(x1, m, p)),
    ) by {
        lemma_div_glue_r(
            p as int,
            conv(q0, b, m, p),
            coeff_of(r0, m, p),
            term_at(ltx, m),
            coeff_of(x0, m, p),
        );
    }
    assert(within_terms(tp, l)) by {
        assert forall|k: int, i: int|
            0 <= k < tp.len() && i >= l implies #[trigger] exp_at(tp[k].mono(), i) == 0 by {
            assert(tp[k].mono() == ltxm);
            assert(exp_at(x0[0].mono(), i) == 0);
        }
    }
    assert(within_terms(r1, l)) by {
        assert forall|m: Seq<usize>|
            coeff_of(r1, m, p) != 0 implies coeff_of(r0, m, p) != 0 || coeff_of(tp, m, p)
            != 0 by {
            if coeff_of(r0, m, p) == 0 && coeff_of(tp, m, p) == 0 {
                vstd::arithmetic::div_mod::lemma_small_mod(0nat, p);
            }
        }
        lemma_within_sum(r1, r0, tp, p, l);
    }
    assert(within_terms(x1, l)) by {
        assert forall|m: Seq<usize>|
            coeff_of(x1, m, p) != 0 implies coeff_of(x0, m, p) != 0 || coeff_of(tp, m, p)
            != 0 by {
            if coeff_of(x0, m, p) == 0 && coeff_of(tp, m, p) == 0 {
                vstd::arithmetic::div_mod::lemma_small_mod(0nat, p);
            }
        }
        lemma_within_sum(x1, x0, tp, p, l);
    }
    // the remainder still has no term divisible by the divisor's lead
    assert forall|k: int|
        0 <= k < r1.len() implies !mono_subtractable(
        b[0].mono(),
        (#[trigger] r1[k]).mono(),
    ) by {
        let m = r1[k].mono();
        lemma_coeff_of_member(r1, m, p, k);
        assert(coeff_of(r1, m, p) != 0);
        if coeff_of(r0, m, p) != 0 {
            let kr = lemma_coeff_of_support(r0, m, p);
            assert(!mono_subtractable(b[0].mono(), r0[kr].mono()));
            assert(mono_eq(r0[kr].mono(), m));
            if mono_subtractable(b[0].mono(), m) {
                assert(forall|i: int|
                    exp_at(b[0].mono(), i) <= exp_at(r0[kr].mono(), i));
            }
        } else {
            if coeff_of(r0, m, p) == 0 && coeff_of(tp, m, p) == 0 {
                vstd::arithmetic::div_mod::lemma_small_mod(0nat, p);
            }
            assert(coeff_of(tp, m, p) != 0);
            assert(term_at(ltx, m) != 0);
            assert(mono_eq(ltxm, m));
            if mono_subtractable(b[0].mono(), m) {
                assert(forall|i: int| exp_at(b[0].mono(), i) <= exp_at(ltxm, i));
            }
        }
    }
    // the residual drops strictly
    lemma_coeff_of_member(x0, ltxm, p, 0);
    assert(coeff_of(tp, ltxm, p) == x0[0].cval()) by {
        assert(mono_eq(ltx.mono(), ltxm));
        assert(term_at(ltx, ltxm) == ltx.cval());
    }
    assert(coeff_of(x1, ltxm, p) == 0) by {
        assert(coeff_of(x1, ltxm, p) == fsub(
            p as int,
            x0[0].cval() as int,
            x0[0].cval() as int,
        ));
        vstd::arithmetic::div_mod::lemma_small_mod(0nat, p);
    }
    assert forall|m: Seq<usize>| mono_lt(ltxm, m) implies coeff_of(x1, m, p) == 0 by {
        lemma_coeff_above_lead(x0, m, p);
        assert(term_at(ltx, m) == 0) by {
            if mono_eq(ltx.mono(), m) {
                lemma_mono_eq_not_lt(ltxm, m);
            }
        }
        vstd::arithmetic::div_mod::lemma_small_mod(0nat, p);
    }
    lemma_lead_drop(x0, x1, p, l);
}

/// Adding the zero polynomial changes nothing: a sum whose right operand
/// has no terms reproduces the left operand term for term.
pub proof fn lemma_additive_identity(a: Seq<Terms>, z: Seq<Terms>, r: Seq<Terms>, p: nat)
    requires
        poly_wf(a, p),
        poly_wf(r, p),
        z.len() == 0,
        forall|m: Seq<usize>|
            coeff_of(r, m, p) == fadd(p as int, coeff_of(a, m, p), coeff_of(z, m, p)),
    ensures
        r.len() == a.len(),
        forall|k: int|
            0 <= k < a.len() ==> (#[trigger] r[k]).cval() == a[k].cval() && r[k].mono()
                == a[k].mono(),
{
    assert forall|m: Seq<usize>| coeff_of(r, m, p) == coeff_of(a, m, p) by {
        lemma_coeff_of_bound(a, m, p);
        lemma_fadd_zero(p as int, coeff_of(a, m, p));
    }
    lemma_canonical_unique(r, a, p);
}

/// Adding the negation of a polynomial gives the zero polynomial.
pub proof fn lemma_additive_inverse(a: Seq<Terms>, n: Seq<Terms>, r: Seq<Terms>, p: nat)
    requires
        poly_wf(a, p),
        poly_wf(r, p),
        forall|m: Seq<usize>| coeff_of(n, m, p) == fneg(p as int, coeff_of(a, m, p)),
        forall|m: Seq<usize>|
            coeff_of(r, m, p) == fadd(p as int, coeff_of(a, m, p), coeff_of(n, m, p)),
    ensures
        r.len() == 0,
{
    if r.len() > 0 {
        let m = r[0].mono();
        lemma_coeff_of_member(r, m, p, 0);
        lemma_coeff_of_bound(a, m, p);
        lemma_fneg_cancel(p as int, coeff_of(a, m, p));
    }
}

/// The contribution of one fixed term multiplied against every term of `b`,
/// at monomial `m`.
pub open spec fn rowpart(t: Terms, b: Seq<Terms>, m: Seq<usize>, p: nat) -> int
    decreases b.len(),
{
    if b.len() == 0 {
        0
    } else {
        fadd(
            p as int,
            rowpart(t, b.drop_last(), m, p),
            if mono_sum_at(t, b.last(), m) {
                fmul(p as int, t.cval() as int, b.last().cval() as int)
            } else {
                0
            },
        )
    }
}

/// The partial cross sum of the sparse multiplication: each row `i` of `a`
/// has been multiplied against the first `cur[i]` terms of `b`.
pub open spec fn rows_sum(a: Seq<Terms>, b: Seq<Terms>, cur: Seq<usize>, m: Seq<usize>, p: nat) -> int
    decreases a.len(),
{
    if a.len() == 0 || a.len() != cur.len() {
        0
    } else {
        fadd(
            p as int,
            rows_sum(a.drop_last(), b, cur.drop_last(), m, p),
            rowpart(a.last(), b.take(cur.last() as int), m, p),
        )
    }
}

/// How many term pairs the sparse multiplication has not yet processed.
pub open spec fn rem_sum(cur: Seq<usize>, blen: int) -> int
    decreases cur.len(),
{
    if cur.len() == 0 {
        0
    } else {
        rem_sum(cur.drop_last(), blen) + (blen - cur.last())
    }
}

/// The remaining-pair count is nonnegative while every cursor is in range,
/// and zero exactly when every cursor is exhausted.
pub proof fn lemma_rem_sum_bounds(cur: Seq<usize>, blen: int)
    requires
        forall|i: int| 0 <= i < cur.len() ==> #[trigger] cur[i] <= blen,
    ensures
        rem_sum(cur, blen) >= 0,
        (rem_sum(cur, blen) == 0) <==> (forall|i: int|
            0 <= i < cur.len() ==> #[trigger] cur[i] == blen),
    decreases cur.len(),
{
    if cur.len() > 0 {
        assert(forall|i: int| 0 <= i < cur.len() - 1 ==> cur.drop_last()[i] == cur[i]);
        lemma_rem_sum_bounds(cur.drop_last(), blen);
        assert(cur.last() == cur[cur.len() - 1]);
    }
}

/// Advancing one cursor removes exactly one pending pair.
pub proof fn lemma_rem_sum_update(cur0: Seq<usize>, cur1: Seq<usize>, i: int, blen: int)
    requires
        cur0.len() == cur1.len(),
        0 <= i < cur0.len(),
        cur1[i] == cur0[i] + 1,
        forall|j: int| 0 <= j < cur0.len() && j != i ==> cur1[j] == cur0[j],
    ensures
        rem_sum(cur1, blen) == rem_sum(cur0, blen) - 1,
    decreases cur0.len(),
{
    assert(forall|j: int|
        0 <= j < cur0.len() - 1 ==> cur0.drop_last()[j] == cur0[j] && cur1.drop_last()[j]
            == cur1[j]);
    if i == cur0.len() - 1 {
        assert(cur0.drop_last() =~= cur1.drop_last());
    } else {
        lemma_rem_sum_update(cur0.drop_last(), cur1.drop_last(), i, blen);
        assert(cur1.last() == cur0.last());
    }
}

/// All cursors at zero: nothing has been processed yet.
pub proof fn lemma_rows_sum_init(a: Seq<Terms>, b: Seq<Terms>, cur: Seq<usize>, m: Seq<usize>, p: nat)
    requires
        p >= 1,
        cur.len() == a.len(),
        forall|i: int| 0 <= i < cur.len() ==> #[trigger] cur[i] == 0,
    ensures
        rows_sum(a, b, cur, m, p) == 0,
    decreases a.len(),
{
    vstd::arithmetic::div_mod::lemma_small_mod(0nat, p);
    if a.len() > 0 {
        assert(forall|i: int| 0 <= i < cur.len() - 1 ==> cur.drop_last()[i] == cur[i]);
        lemma_rows_sum_init(a.drop_last(), b, cur.drop_last(), m, p);
        assert(cur.last() == cur[cur.len() - 1]);
        assert(b.take(0) =~= Seq::<Terms>::empty());
    }
}

/// Advancing the cursor of row `i` adds that row's next pair product.
pub proof fn lemma_rows_sum_update(
    a: Seq<Terms>,
    b: Seq<Terms>,
    cur0: Seq<usize>,
    cur1: Seq<usize>,
    i: int,
    m: Seq<usize>,
    p: nat,
)
    requires
        p >= 1,
        cur0.len() == a.len(),
        cur1.len() == a.len(),
        0 <= i < a.len(),
        cur0[i] < b.len(),
        cur1[i] == cur0[i] + 1,
        forall|j: int| 0 <= j < a.len() && j != i ==> cur1[j] == cur0[j],
    ensures
        rows_sum(a, b, cur1, m, p) == fadd(
            p as int,
            rows_sum(a, b, cur0, m, p),
            if mono_sum_at(a[i], b[cur0[i] as int], m) {
                fmul(p as int, a[i].cval() as int, b[cur0[i] as int].cval() as int)
            } else {
                0
            },
        ),
    decreases a.len(),
{
    let piece: int = if mono_sum_at(a[i], b[cur0[i] as int], m) {
        fmul(p as int, a[i].cval() as int, b[cur0[i] as int].cval() as int)
    } else {
        0
    };
    assert(forall|j: int|
        0 <= j < a.len() - 1 ==> cur0.drop_last()[j] == cur0[j] && cur1.drop_last()[j]
            == cur1[j] && a.drop_last()[j] == a[j]);
    if i == a.len() - 1 {
        assert(cur0.drop_last() =~= cur1.drop_last());
        // the last row's prefix grows by one term
        let j = cur0[i] as int;
        assert(b.take(j + 1).drop_last() =~= b.take(j));
        assert(b.take(j + 1).last() == b[j]);
        assert(rowpart(a.last(), b.take(j + 1), m, p) == fadd(
            p as int,
            rowpart(a.last(), b.take(j), m, p),
            piece,
        ));
        lemma_fadd_assoc(
            p as int,
            rows_sum(a.drop_last(), b, cur0.drop_last(), m, p),
            rowpart(a.last(), b.take(j), m, p),
            piece,
        );
    } else {
        lemma_rows_sum_update(a.drop_last(), b, cur0.drop_last(), cur1.drop_last(), i, m, p);
        assert(cur1.last() == cur0.last());
        assert(a.drop_last()[i] == a[i]);
        let r0 = rows_sum(a.drop_last(), b, cur0.drop_last(), m, p);
        let tail = rowpart(a.last(), b.take(cur0.last() as int), m, p);
        lemma_fadd_assoc(p as int, r0, piece, tail);
        lemma_fadd_assoc(p as int, r0, tail, piece);
    }
}

/// Extending the left operand of a cross sum by one term adds that term's
/// full row.
pub proof fn lemma_conv_push(a0: Seq<Terms>, a1: Seq<Terms>, b: Seq<Terms>, m: Seq<usize>, p: nat)
    requires
        p >= 1,
        a1.len() == a0.len() + 1,
        a1.drop_last() == a0,
    ensures
        conv(a1, b, m, p) == fadd(p as int, conv(a0, b, m, p), rowpart(a1.last(), b, m, p)),
    decreases b.len(),
{
    if b.len() == 0 {
        vstd::arithmetic::div_mod::lemma_small_mod(0nat, p);
    } else {
        lemma_conv_push(a0, a1, b.drop_last(), m, p);
        let t = a1.last();
        let u = b.last();
        let piece: int = if mono_sum_at(t, u, m) {
            fmul(p as int, t.cval() as int, u.cval() as int)
        } else {
            0
        };
        assert(col_at(a1, u, m, p) == fadd(p as int, col_at(a0, u, m, p), piece));
        crate::intmod::lemma_fadd4(
            p as int,
            conv(a0, b.drop_last(), m, p),
            rowpart(t, b.drop_last(), m, p),
            col_at(a0, u, m, p),
            piece,
        );
        crate::intmod::lemma_fadd4(
            p as int,
            conv(a0, b.drop_last(), m, p),
            col_at(a0, u, m, p),
            rowpart(t, b.drop_last(), m, p),
            piece,
        );
    }
}

/// With every cursor exhausted the partial cross sum is the full one.
pub proof fn lemma_rows_sum_full(a: Seq<Terms>, b: Seq<Terms>, cur: Seq<usize>, m: Seq<usize>, p: nat)
    requires
        p >= 1,
        cur.len() == a.len(),
        forall|i: int| 0 <= i < cur.len() ==> #[trigger] cur[i] == b.len(),
    ensures
        rows_sum(a, b, cur, m, p) == conv(a, b, m, p),
    decreases a.len(),
{
    if a.len() == 0 {
        lemma_conv_empty_left(b, m, p);
    } else {
        assert(forall|i: int| 0 <= i < cur.len() - 1 ==> cur.drop_last()[i] == cur[i]);
        lemma_rows_sum_full(a.drop_last(), b, cur.drop_last(), m, p);
        assert(cur.last() == cur[cur.len() - 1]);
        assert(b.take(b.len() as int) =~= b);
        lemma_conv_push(a.drop_last(), a, b, m, p);
    }
}

/// Row contributions are always reduced.
pub proof fn lemma_rowpart_bound(t: Terms, b: Seq<Terms>, m: Seq<usize>, p: nat)
    requires
        p >= 1,
    ensures
        0 <= rowpart(t, b, m, p) < p,
    decreases b.len(),
{
    if b.len() > 0 {
        lemma_rowpart_bound(t, b.drop_last(), m, p);
        if mono_sum_at(t, b.last(), m) {
            lemma_fadd_bound(
                p as int,
                rowpart(t, b.drop_last(), m, p),
                fmul(p as int, t.cval() as int, b.last().cval() as int),
            );
        } else {
            lemma_fadd_bound(p as int, rowpart(t, b.drop_last(), m, p), 0);
        }
    }
}

/// The coefficient contributed at monomial `m` by scaling the whole of `b`
/// with a single term of coefficient `tc` and monomial `tm`.
pub open spec fn scaled_at(b: Seq<Terms>, tc: int, tm: Seq<usize>, m: Seq<usize>, p: nat) -> int {
    if mono_subtractable(tm, m) {
        fmul(p as int, tc, coeff_of(b, mono_minus(m, tm), p))
    } else {
        0
    }
}

/// A row contribution is the scaling of `b`'s coefficient at the shifted
/// monomial.
pub proof fn lemma_rowpart_scaled(t: Terms, b: Seq<Terms>, m: Seq<usize>, p: nat)
    requires
        p >= 1,
    ensures
        rowpart(t, b, m, p) == scaled_at(b, t.cval() as int, t.mono(), m, p),
    decreases b.len(),
{
    let tc = t.cval() as int;
    let tm = t.mono();
    if b.len() == 0 {
        if mono_subtractable(tm, m) {
            lemma_fmul_basics(p as int, tc);
        }
    } else {
        lemma_rowpart_scaled(t, b.drop_last(), m, p);
        let u = b.last();
        if mono_subtractable(tm, m) {
            let mu = mono_minus(m, tm);
            assert(mono_sum_at(t, u, m) <==> mono_eq(u.mono(), mu)) by {
                if mono_sum_at(t, u, m) {
                    assert forall|i: int| exp_at(u.mono(), i) == exp_at(mu, i) by {
                        assert(exp_at(t.mono(), i) + exp_at(u.mono(), i) == exp_at(m, i));
                        if 0 <= i < m.len() {
                            assert(exp_at(mu, i) == m[i] - exp_at(tm, i));
                        } else {
                            assert(exp_at(m, i) == 0);
                        }
                    }
                }
                if mono_eq(u.mono(), mu) {
                    assert forall|i: int|
                        exp_at(t.mono(), i) + exp_at(u.mono(), i) == exp_at(m, i) by {
                        assert(exp_at(u.mono(), i) == exp_at(mu, i));
                        if 0 <= i < m.len() {
                            assert(exp_at(mu, i) == m[i] - exp_at(tm, i));
                        } else {
                            assert(exp_at(mu, i) == 0);
                            assert(exp_at(tm, i) <= exp_at(m, i));
                        }
                    }
                }
            }
            let x = coeff_of(b.drop_last(), mu, p);
            let tt = term_at(u, mu);
            assert(coeff_of(b, mu, p) == fadd(p as int, x, tt));
            crate::intmod::lemma_fmul_distr(p as int, tc, x, tt);
            if mono_sum_at(t, u, m) {
                assert(tt == u.cval());
            } else {
                assert(tt == 0);
                lemma_fmul_basics(p as int, tc);
            }
        } else {
            assert(!mono_sum_at(t, u, m)) by {
                if mono_sum_at(t, u, m) {
                    assert forall|i: int| exp_at(tm, i) <= exp_at(m, i) by {
                        assert(exp_at(t.mono(), i) + exp_at(u.mono(), i) == exp_at(m, i));
                    }
                }
            }
            lemma_rowpart_bound(t, b.drop_last(), m, p);
            lemma_fadd_zero(p as int, rowpart(t, b.drop_last(), m, p));
        }
    }
}

/// The quotient step of a reduction would need an exponent beyond the
/// machine word: some slot-wise sum of the quotient monomial and a divisor
/// monomial exceeds the largest machine integer.
pub open spec fn step_overflows(x: Seq<Terms>, b: Seq<Terms>) -> bool {
    &&& x.len() > 0
    &&& b.len() > 0
    &&& mono_subtractable(b[0].mono(), x[0].mono())
    &&& exists|kb: int, i: int|
        0 <= kb < b.len() && exp_at(mono_minus(x[0].mono(), b[0].mono()), i) + #[trigger] exp_at(
            b[kb].mono(),
            i,
        ) > usize::MAX
}

/// One step of the reduction of residual `x` against divisor `b`: when the
/// divisor's leading term divides the residual's, the matching multiple of
/// `b` is subtracted; otherwise the leading term moves out.  `y` is the
/// canonical successor residual.
pub open spec fn div_step(x: Seq<Terms>, y: Seq<Terms>, b: Seq<Terms>, p: nat) -> bool {
    &&& x.len() > 0
    &&& b.len() > 0
    &&& poly_wf(y, p)
    &&& if mono_subtractable(b[0].mono(), x[0].mono()) {
        &&& !step_overflows(x, b)
        &&& exists|tc: int|
            {
                &&& 0 <= tc < p
                &&& fmul(p as int, tc, b[0].cval() as int) == x[0].cval()
                &&& forall|m: Seq<usize>|
                    #[trigger] coeff_of(y, m, p) == fsub(
                        p as int,
                        coeff_of(x, m, p),
                        scaled_at(b, tc, mono_minus(x[0].mono(), b[0].mono()), m, p),
                    )
            }
    } else {
        forall|m: Seq<usize>|
            #[trigger] coeff_of(y, m, p) == fsub(p as int, coeff_of(x, m, p), term_at(x[0], m))
    }
}

/// A reduction run: the first state denotes the dividend, and each
/// following state is one [`div_step`] after its predecessor.
pub open spec fn div_trace(tr: Seq<Seq<Terms>>, a: Seq<Terms>, b: Seq<Terms>, p: nat) -> bool
    decreases tr.len(),
{
    if tr.len() == 0 {
        false
    } else if tr.len() == 1 {
        &&& poly_wf(tr[0], p)
        &&& forall|m: Seq<usize>| #[trigger] coeff_of(tr[0], m, p) == coeff_of(a, m, p)
    } else {
        &&& div_trace(tr.drop_last(), a, b, p)
        &&& div_step(tr[tr.len() - 2], tr.last(), b, p)
    }
}

/// Some reduction of `a` against `b` reaches a quotient step whose
/// exponents leave the machine word.
pub open spec fn reaches_overflow(a: Seq<Terms>, b: Seq<Terms>, p: nat) -> bool {
    exists|tr: Seq<Seq<Terms>>| div_trace(tr, a, b, p) && step_overflows(tr.last(), b)
}

/// Some reduction of `a` against `b` runs to completion: its residual ends
/// empty without ever overflowing.
pub open spec fn reduction_completes(a: Seq<Terms>, b: Seq<Terms>, p: nat) -> bool {
    exists|tr: Seq<Seq<Terms>>| div_trace(tr, a, b, p) && tr.last().len() == 0
}

/// The first divisor whose leading term divides monomial `m`, scanning the
/// list in order from index `k`; the list length when none applies.
pub open spec fn first_divisor_from(fs: Seq<MultivariatePoly>, m: Seq<usize>, k: int) -> int
    decreases fs.len() - k,
{
    if k < 0 || k >= fs.len() {
        fs.len() as int
    } else if fs[k]@.len() > 0 && mono_subtractable(fs[k]@[0].mono(), m) {
        k
    } else {
        first_divisor_from(fs, m, k + 1)
    }
}

/// The divisor the reduction must use next for a residual led by `m`: the
/// first, in list order, whose leading term divides `m`.
pub open spec fn first_divisor(fs: Seq<MultivariatePoly>, m: Seq<usize>) -> int {
    first_divisor_from(fs, m, 0)
}

/// A scan that finds no applicable divisor before `sel` and one at `sel`
/// (or none at all) pins the first applicable divisor.
proof fn lemma_first_divisor_pin(fs: Seq<MultivariatePoly>, m: Seq<usize>, sel: int, k: int)
    requires
        0 <= k <= sel <= fs.len(),
        forall|ii: int|
            k <= ii < sel ==> !((#[trigger] fs[ii])@.len() > 0 && mono_subtractable(
                fs[ii]@[0].mono(),
                m,
            )),
        sel < fs.len() ==> fs[sel]@.len() > 0 && mono_subtractable(fs[sel]@[0].mono(), m),
    ensures
        first_divisor_from(fs, m, k) == sel,
    decreases sel - k,
{
    if k < sel {
        lemma_first_divisor_pin(fs, m, sel, k + 1);
    }
}

/// The quotient step the reduction must take next would need an exponent
/// beyond the machine word.
pub open spec fn multi_step_overflows(x: Seq<Terms>, fs: Seq<MultivariatePoly>) -> bool {
    &&& x.len() > 0
    &&& {
        let sel = first_divisor(fs, x[0].mono());
        &&& sel < fs.len()
        &&& exists|kb: int, i: int|
            0 <= kb < fs[sel]@.len() && exp_at(
                mono_minus(x[0].mono(), fs[sel]@[0].mono()),
                i,
            ) + #[trigger] exp_at(fs[sel]@[kb].mono(), i) > usize::MAX
    }
}

/// One step of the reduction of residual `x` against the ordered divisor
/// list `fs`: the first divisor whose leading term divides the residual's
/// wins and the matching multiple of it is subtracted; when none applies
/// the leading term moves out.  `y` is the canonical successor residual.
pub open spec fn multi_step(x: Seq<Terms>, y: Seq<Terms>, fs: Seq<MultivariatePoly>, p: nat) -> bool {
    &&& x.len() > 0
    &&& poly_wf(y, p)
    &&& {
        let sel = first_divisor(fs, x[0].mono());
        if sel < fs.len() {
            &&& !multi_step_overflows(x, fs)
            &&& exists|tc: int|
                {
                    &&& 0 <= tc < p
                    &&& fmul(p as int, tc, fs[sel]@[0].cval() as int) == x[0].cval()
                    &&& forall|m: Seq<usize>|
                        #[trigger] coeff_of(y, m, p) == fsub(
                            p as int,
                            coeff_of(x, m, p),
                            scaled_at(
                                fs[sel]@,
                                tc,
                                mono_minus(x[0].mono(), fs[sel]@[0].mono()),
                                m,
                                p,
                            ),
                        )
                }
        } else {
            forall|m: Seq<usize>|
                #[trigger] coeff_of(y, m, p) == fsub(
                    p as int,
                    coeff_of(x, m, p),
                    term_at(x[0], m),
                )
        }
    }
}

/// A multi-divisor reduction run: the first state denotes the dividend,
/// and each following state is one [`multi_step`] after its predecessor.
pub open spec fn multi_trace(
    tr: Seq<Seq<Terms>>,
    a: Seq<Terms>,
    fs: Seq<MultivariatePoly>,
    p: nat,
) -> bool
    decreases tr.len(),
{
    if tr.len() == 0 {
        false
    } else if tr.len() == 1 {
        &&& poly_wf(tr[0], p)
        &&& forall|m: Seq<usize>| #[trigger] coeff_of(tr[0], m, p) == coeff_of(a, m, p)
    } else {
        &&& multi_trace(tr.drop_last(), a, fs, p)
        &&& multi_step(tr[tr.len() - 2], tr.last(), fs, p)
    }
}

/// The quotient coefficient of a reduction step: the unique value whose
/// product with the chosen divisor's leading coefficient gives the
/// residual's leading coefficient.
pub open spec fn step_tc(x: Seq<Terms>, b: Seq<Terms>, p: nat) -> int {
    choose|tc: int| 0 <= tc < p && fmul(p as int, tc, b[0].cval() as int) == x[0].cval()
}

/// Two reduced values multiplying an invertible value to the same product
/// are equal.
proof fn lemma_tc_unique(p: nat, bc: int, xc: int, tc1: int, tc2: int, iv: int)
    requires
        p >= 2,
        0 <= tc1 < p,
        0 <= tc2 < p,
        fmul(p as int, tc1, bc) == xc,
        fmul(p as int, tc2, bc) == xc,
        fmul(p as int, bc, iv) == 1,
    ensures
        tc1 == tc2,
{
    // tc == ((tc * bc) * iv) for any reduced tc
    assert(fmul(p as int, fmul(p as int, tc1, bc), iv) == tc1) by {
        lemma_fmul_assoc(p as int, tc1, bc, iv);
        lemma_fmul_basics(p as int, tc1);
    }
    assert(fmul(p as int, fmul(p as int, tc2, bc), iv) == tc2) by {
        lemma_fmul_assoc(p as int, tc2, bc, iv);
        lemma_fmul_basics(p as int, tc2);
    }
}

/// The quotient coefficient accumulated into quotient `i` at monomial `m`
/// over a reduction run: each quotient step against divisor `i` adds its
/// single term there.
pub open spec fn trace_q(
    tr: Seq<Seq<Terms>>,
    fs: Seq<MultivariatePoly>,
    i: int,
    m: Seq<usize>,
    p: nat,
) -> int
    decreases tr.len(),
{
    if tr.len() <= 1 {
        0
    } else {
        let x = tr[tr.len() - 2];
        let sel = first_divisor(fs, x[0].mono());
        fadd(
            p as int,
            trace_q(tr.drop_last(), fs, i, m, p),
            if sel == i && sel < fs.len() && mono_eq(
                mono_minus(x[0].mono(), fs[sel]@[0].mono()),
                m,
            ) {
                step_tc(x, fs[sel]@, p)
            } else {
                0
            },
        )
    }
}

/// The remainder coefficient accumulated at monomial `m` over a reduction
/// run: each remainder step moves the residual's leading term there.
pub open spec fn trace_r(tr: Seq<Seq<Terms>>, fs: Seq<MultivariatePoly>, m: Seq<usize>, p: nat) -> int
    decreases tr.len(),
{
    if tr.len() <= 1 {
        0
    } else {
        let x = tr[tr.len() - 2];
        let sel = first_divisor(fs, x[0].mono());
        fadd(
            p as int,
            trace_r(tr.drop_last(), fs, m, p),
            if sel < fs.len() {
                0
            } else {
                term_at(x[0], m)
            },
        )
    }
}

/// Accumulated trace coefficients are always reduced.
proof fn lemma_trace_bounds(
    tr: Seq<Seq<Terms>>,
    fs: Seq<MultivariatePoly>,
    i: int,
    m: Seq<usize>,
    p: nat,
)
    requires
        p >= 1,
    ensures
        0 <= trace_q(tr, fs, i, m, p) < p,
        0 <= trace_r(tr, fs, m, p) < p,
    decreases tr.len(),
{
    if tr.len() > 1 {
        let x = tr[tr.len() - 2];
        let sel = first_divisor(fs, x[0].mono());
        lemma_trace_bounds(tr.drop_last(), fs, i, m, p);
        lemma_fadd_bound(
            p as int,
            trace_q(tr.drop_last(), fs, i, m, p),
            if sel == i && sel < fs.len() && mono_eq(
                mono_minus(x[0].mono(), fs[sel]@[0].mono()),
                m,
            ) {
                step_tc(x, fs[sel]@, p)
            } else {
                0
            },
        );
        lemma_fadd_bound(
            p as int,
            trace_r(tr.drop_last(), fs, m, p),
            if sel < fs.len() {
                0
            } else {
                term_at(x[0], m)
            },
        );
    }
}

/// The run's accumulated quotient and remainder coefficients match the
/// returned quotients and remainder at every monomial.
pub open spec fn outcome_matches(
    tr: Seq<Seq<Terms>>,
    fs: Seq<MultivariatePoly>,
    qs: Seq<MultivariatePoly>,
    rr: Seq<Terms>,
    p: nat,
) -> bool {
    &&& qs.len() == fs.len()
    &&& forall|i: int, m: Seq<usize>|
        0 <= i < qs.len() ==> #[trigger] coeff_of(qs[i]@, m, p) == trace_q(tr, fs, i, m, p)
    &&& forall|m: Seq<usize>| #[trigger] coeff_of(rr, m, p) == trace_r(tr, fs, m, p)
}

/// The returned quotients and remainder are exactly those accumulated by a
/// completed reduction run — together with [`multi_step`]'s first-match
/// selection rule, this pins the outcome of the reduction.
pub open spec fn reduction_outcome(
    a: Seq<Terms>,
    fs: Seq<MultivariatePoly>,
    qs: Seq<MultivariatePoly>,
    rr: Seq<Terms>,
    p: nat,
) -> bool {
    exists|tr: Seq<Seq<Terms>>|
        multi_trace(tr, a, fs, p) && tr.last().len() == 0 && outcome_matches(tr, fs, qs, rr, p)
}

/// Some multi-divisor reduction of `a` against `fs` reaches a quotient
/// step whose exponents leave the machine word.
pub open spec fn multi_reaches_overflow(a: Seq<Terms>, fs: Seq<MultivariatePoly>, p: nat) -> bool {
    exists|tr: Seq<Seq<Terms>>| multi_trace(tr, a, fs, p) && multi_step_overflows(tr.last(), fs)
}

/// The common modulus of a dividend and a divisor list, preferring the
/// first divisor.
pub open spec fn family_p(s: Seq<Terms>, fs: Seq<MultivariatePoly>) -> nat {
    if fs.len() > 0 && fs[0]@.len() > 0 {
        pval_of(fs[0]@)
    } else {
        pval_of(s)
    }
}

/// The combined coefficient of the products `q_i * f_i` at monomial `m`.
pub open spec fn sum_conv(
    qs: Seq<MultivariatePoly>,
    fs: Seq<MultivariatePoly>,
    m: Seq<usize>,
    p: nat,
) -> int
    decreases qs.len(),
{
    if qs.len() == 0 || qs.len() != fs.len() {
        0
    } else {
        fadd(
            p as int,
            sum_conv(qs.drop_last(), fs.drop_last(), m, p),
            conv(qs.last()@, fs.last()@, m, p),
        )
    }
}

/// Combined product coefficients are always reduced.
pub proof fn lemma_sum_conv_bound(
    qs: Seq<MultivariatePoly>,
    fs: Seq<MultivariatePoly>,
    m: Seq<usize>,
    p: nat,
)
    requires
        p >= 1,
    ensures
        0 <= sum_conv(qs, fs, m, p) < p,
    decreases qs.len(),
{
    if qs.len() == 0 || qs.len() != fs.len() {
        vstd::arithmetic::div_mod::lemma_small_mod(0nat, p);
    } else {
        lemma_sum_conv_bound(qs.drop_last(), fs.drop_last(), m, p);
        lemma_fadd_bound(
            p as int,
            sum_conv(qs.drop_last(), fs.drop_last(), m, p),
            conv(qs.last()@, fs.last()@, m, p),
        );
    }
}

/// When every quotient is the zero polynomial, the combined product is zero.
pub proof fn lemma_sum_conv_zero(
    qs: Seq<MultivariatePoly>,
    fs: Seq<MultivariatePoly>,
    m: Seq<usize>,
    p: nat,
)
    requires
        p >= 1,
        qs.len() == fs.len(),
        forall|i: int| 0 <= i < qs.len() ==> (#[trigger] qs[i])@.len() == 0,
    ensures
        sum_conv(qs, fs, m, p) == 0,
    decreases qs.len(),
{
    vstd::arithmetic::div_mod::lemma_small_mod(0nat, p);
    if qs.len() > 0 {
        assert(forall|i: int| 0 <= i < qs.len() - 1 ==> qs.drop_last()[i] == qs[i]);
        lemma_sum_conv_zero(qs.drop_last(), fs.drop_last(), m, p);
        lemma_conv_empty_left(fs.last()@, m, p);
    }
}

/// Growing one quotient by a polynomial adds that polynomial's product with
/// the matching divisor to the combined coefficient.
pub proof fn lemma_sum_conv_update(
    qs0: Seq<MultivariatePoly>,
    qs1: Seq<MultivariatePoly>,
    fs: Seq<MultivariatePoly>,
    i: int,
    tp: Seq<Terms>,
    m: Seq<usize>,
    p: nat,
)
    requires
        p >= 1,
        qs0.len() == fs.len(),
        qs1.len() == qs0.len(),
        0 <= i < qs0.len(),
        forall|j: int| 0 <= j < qs0.len() && j != i ==> qs1[j] == qs0[j],
        forall|k: int| 0 <= k < fs[i]@.len() ==> (#[trigger] fs[i]@[k]).cval() < p,
        forall|mu: Seq<usize>|
            coeff_of(qs1[i]@, mu, p) == fadd(
                p as int,
                coeff_of(qs0[i]@, mu, p),
                coeff_of(tp, mu, p),
            ),
    ensures
        sum_conv(qs1, fs, m, p) == fadd(p as int, sum_conv(qs0, fs, m, p), conv(tp, fs[i]@, m, p)),
    decreases qs0.len(),
{
    let d0 = qs0.drop_last();
    let d1 = qs1.drop_last();
    let df = fs.drop_last();
    assert(forall|j: int| 0 <= j < d0.len() ==> d0[j] == qs0[j] && d1[j] == qs1[j]);
    if i == qs0.len() - 1 {
        assert(d0 =~= d1);
        lemma_conv_linear(qs1[i]@, qs0[i]@, tp, fs[i]@, m, p);
        assert(qs1.last() == qs1[i] && qs0.last() == qs0[i] && fs.last() == fs[i]);
        lemma_fadd_assoc(
            p as int,
            sum_conv(d0, df, m, p),
            conv(qs0[i]@, fs[i]@, m, p),
            conv(tp, fs[i]@, m, p),
        );
    } else {
        assert(fs[i] == df[i]);
        lemma_sum_conv_update(d0, d1, df, i, tp, m, p);
        assert(qs1.last() == qs0.last() && fs.last() == fs.last());
        let c = conv(qs0.last()@, fs.last()@, m, p);
        lemma_fadd_assoc(p as int, sum_conv(d0, df, m, p), conv(tp, fs[i]@, m, p), c);
        lemma_fadd_assoc(p as int, sum_conv(d0, df, m, p), c, conv(tp, fs[i]@, m, p));
    }
}

/// The longest monomial stored in any of a list of polynomials.
pub open spec fn max_len_polys(fs: Seq<MultivariatePoly>) -> int
    decreases fs.len(),
{
    if fs.len() == 0 {
        0
    } else if max_len_polys(fs.drop_last()) >= max_mono_len(fs.last()@) {
        max_len_polys(fs.drop_last())
    } else {
        max_mono_len(fs.last()@)
    }
}

/// Every polynomial of the list stays within the longest stored length.
pub proof fn lemma_within_polys(fs: Seq<MultivariatePoly>)
    ensures
        max_len_polys(fs) >= 0,
        forall|i: int|
            0 <= i < fs.len() ==> within_terms((#[trigger] fs[i])@, max_len_polys(fs)),
    decreases fs.len(),
{
    if fs.len() > 0 {
        lemma_within_polys(fs.drop_last());
        lemma_within_max(fs.last()@);
        assert(forall|i: int| 0 <= i < fs.len() - 1 ==> fs.drop_last()[i] == fs[i]);
        assert forall|i: int|
            0 <= i < fs.len() implies within_terms((#[trigger] fs[i])@, max_len_polys(fs)) by {
            if i < fs.len() - 1 {
                lemma_within_mono(
                    fs[i]@,
                    max_len_polys(fs.drop_last()),
                    max_len_polys(fs),
                );
            } else {
                lemma_within_mono(fs[i]@, max_mono_len(fs[i]@), max_len_polys(fs));
            }
        }
    }
}

/// Everything one quotient step of the multi-divisor loop preserves.
#[verifier::rlimit(50)]
proof fn lemma_multi_step_divisible(
    a: Seq<Terms>,
    fs: Seq<MultivariatePoly>,
    qs0: Seq<MultivariatePoly>,
    qs1: Seq<MultivariatePoly>,
    sel: int,
    r0: Seq<Terms>,
    x0: Seq<Terms>,
    x1: Seq<Terms>,
    tp: Seq<Terms>,
    delta: Seq<Terms>,
    t: Terms,
    p: nat,
    l: int,
    ltxm: Seq<usize>,
)
    requires
        p >= 2,
        qs0.len() == fs.len(),
        qs1.len() == qs0.len(),
        0 <= sel < qs0.len(),
        forall|j: int| 0 <= j < qs0.len() && j != sel ==> qs1[j] == qs0[j],
        fs[sel]@.len() > 0,
        desc_sorted(fs[sel]@),
        no_zero_coeffs(fs[sel]@),
        forall|k: int| 0 <= k < fs[sel]@.len() ==> (#[trigger] fs[sel]@[k]).cval() < p,
        within_terms(fs[sel]@, l),
        x0.len() > 0,
        desc_sorted(x0),
        no_zero_coeffs(x0),
        forall|k: int| 0 <= k < x0.len() ==> (#[trigger] x0[k]).cval() < p,
        ltxm == x0[0].mono(),
        desc_sorted(x1),
        no_zero_coeffs(x1),
        forall|k: int| 0 <= k < x1.len() ==> (#[trigger] x1[k]).cval() < p,
        desc_sorted(delta),
        no_zero_coeffs(delta),
        forall|k: int| 0 <= k < delta.len() ==> (#[trigger] delta[k]).cval() < p,
        within_terms(x0, l),
        tp.len() == 1,
        tp[0].cval() == t.cval(),
        tp[0].mono() == t.mono(),
        t.cval() != 0,
        t.cval() < p,
        fmul(p as int, t.cval() as int, fs[sel]@[0].cval() as int) == x0[0].cval(),
        forall|i: int|
            #[trigger] exp_at(ltxm, i) == exp_at(fs[sel]@[0].mono(), i) + exp_at(t.mono(), i),
        forall|m: Seq<usize>|
            coeff_of(a, m, p) == fadd(
                p as int,
                sum_conv(qs0, fs, m, p),
                fadd(p as int, coeff_of(r0, m, p), coeff_of(x0, m, p)),
            ),
        forall|mu: Seq<usize>|
            coeff_of(qs1[sel]@, mu, p) == fadd(
                p as int,
                coeff_of(qs0[sel]@, mu, p),
                coeff_of(tp, mu, p),
            ),
        forall|m: Seq<usize>| coeff_of(delta, m, p) == conv(tp, fs[sel]@, m, p),
        forall|m: Seq<usize>|
            coeff_of(x1, m, p) == fsub(p as int, coeff_of(x0, m, p), coeff_of(delta, m, p)),
    ensures
        forall|m: Seq<usize>|
            coeff_of(a, m, p) == fadd(
                p as int,
                sum_conv(qs1, fs, m, p),
                fadd(p as int, coeff_of(r0, m, p), coeff_of(x1, m, p)),
            ),
        within_terms(x1, l),
        poly_rank(x1, l) < poly_rank(x0, l),
{
    assert forall|m: Seq<usize>|
        coeff_of(a, m, p) == fadd(
        p as int,
        sum_conv(qs1, fs, m, p),
        fadd(p as int, coeff_of(r0, m, p), coeff_of(x1, m, p)),
    ) by {
        lemma_sum_conv_update(qs0, qs1, fs, sel, tp, m, p);
        lemma_div_glue_q(
            p as int,
            sum_conv(qs0, fs, m, p),
            conv(tp, fs[sel]@, m, p),
            coeff_of(r0, m, p),
            coeff_of(x0, m, p),
        );
    }
    assert(within_terms(tp, l)) by {
        assert forall|k: int, i: int|
            0 <= k < tp.len() && i >= l implies #[trigger] exp_at(tp[k].mono(), i) == 0 by {
            assert(exp_at(x0[0].mono(), i) == 0);
            assert(exp_at(ltxm, i) == exp_at(fs[sel]@[0].mono(), i) + exp_at(t.mono(), i));
        }
    }
    assert(within_terms(delta, l)) by {
        lemma_within_conv(delta, tp, fs[sel]@, p, l);
    }
    assert(within_terms(x1, l)) by {
        assert forall|m: Seq<usize>|
            coeff_of(x1, m, p) != 0 implies coeff_of(x0, m, p) != 0 || coeff_of(delta, m, p)
            != 0 by {
            if coeff_of(x0, m, p) == 0 && coeff_of(delta, m, p) == 0 {
                vstd::arithmetic::div_mod::lemma_small_mod(0nat, p);
            }
        }
        lemma_within_sum(x1, x0, delta, p, l);
    }
    assert(mono_sum_at(tp[0], fs[sel]@[0], ltxm)) by {
        assert(forall|i: int|
            exp_at(tp[0].mono(), i) + exp_at(fs[sel]@[0].mono(), i) == exp_at(ltxm, i));
    }
    lemma_conv_single_top(tp, fs[sel]@, ltxm, p);
    assert(conv(tp, fs[sel]@, ltxm, p) == x0[0].cval());
    lemma_coeff_of_member(x0, ltxm, p, 0);
    assert(coeff_of(x1, ltxm, p) == 0) by {
        assert(coeff_of(x1, ltxm, p) == fsub(
            p as int,
            x0[0].cval() as int,
            x0[0].cval() as int,
        ));
        vstd::arithmetic::div_mod::lemma_small_mod(0nat, p);
    }
    assert forall|m: Seq<usize>| mono_lt(ltxm, m) implies coeff_of(x1, m, p) == 0 by {
        lemma_coeff_above_lead(x0, m, p);
        assert(conv(tp, fs[sel]@, m, p) == 0);
        vstd::arithmetic::div_mod::lemma_small_mod(0nat, p);
    }
    lemma_lead_drop(x0, x1, p, l);
}

/// Everything one remainder step of the multi-divisor loop preserves.
#[verifier::rlimit(50)]
proof fn lemma_multi_step_remainder(
    a: Seq<Terms>,
    fs: Seq<MultivariatePoly>,
    qs0: Seq<MultivariatePoly>,
    r0: Seq<Terms>,
    r1: Seq<Terms>,
    x0: Seq<Terms>,
    x1: Seq<Terms>,
    tp: Seq<Terms>,
    ltx: Terms,
    p: nat,
    l: int,
    ltxm: Seq<usize>,
)
    requires
        p >= 2,
        x0.len() > 0,
        desc_sorted(x0),
        no_zero_coeffs(x0),
        forall|k: int| 0 <= k < x0.len() ==> (#[trigger] x0[k]).cval() < p,
        ltxm == x0[0].mono(),
        ltx.cval() == x0[0].cval(),
        ltx.mono() == ltxm,
        desc_sorted(r1),
        no_zero_coeffs(r1),
        forall|k: int| 0 <= k < r1.len() ==> (#[trigger] r1[k]).cval() < p,
        desc_sorted(x1),
        no_zero_coeffs(x1),
        forall|k: int| 0 <= k < x1.len() ==> (#[trigger] x1[k]).cval() < p,
        within_terms(r0, l),
        within_terms(x0, l),
        tp.len() == 1,
        tp[0].mono() == ltxm,
        forall|j: int| 0 <= j < fs.len() ==> (#[trigger] fs[j])@.len() > 0,
        forall|j: int|
            0 <= j < fs.len() ==> !mono_subtractable((#[trigger] fs[j])@[0].mono(), ltxm),
        forall|k: int, j: int|
            0 <= k < r0.len() && 0 <= j < fs.len() ==> !mono_subtractable(
                (#[trigger] fs[j])@[0].mono(),
                (#[trigger] r0[k]).mono(),
            ),
        forall|m: Seq<usize>|
            coeff_of(a, m, p) == fadd(
                p as int,
                sum_conv(qs0, fs, m, p),
                fadd(p as int, coeff_of(r0, m, p), coeff_of(x0, m, p)),
            ),
        forall|m: Seq<usize>| coeff_of(tp, m, p) == term_at(ltx, m),
        forall|m: Seq<usize>|
            coeff_of(r1, m, p) == fadd(p as int, coeff_of(r0, m, p), coeff_of(tp, m, p)),
        forall|m: Seq<usize>|
            coeff_of(x1, m, p) == fsub(p as int, coeff_of(x0, m, p), coeff_of(tp, m, p)),
    ensures
        forall|m: Seq<usize>|
            coeff_of(a, m, p) == fadd(
                p as int,
                sum_conv(qs0, fs, m, p),
                fadd(p as int, coeff_of(r1, m, p), coeff_of(x1, m, p)),
            ),
        within_terms(r1, l),
        within_terms(x1, l),
        forall|k: int, j: int|
            0 <= k < r1.len() && 0 <= j < fs.len() ==> !mono_subtractable(
                (#[trigger] fs[j])@[0].mono(),
                (#[trigger] r1[k]).mono(),
            ),
        poly_rank(x1, l) < poly_rank(x0, l),
{
    assert forall|m: Seq<usize>|
        coeff_of(a, m, p) == fadd(
        p as int,
        sum_conv(qs0, fs, m, p),
        fadd(p as int, coeff_of(r1, m, p), coeff_of(x1, m, p)),
    ) by {
        lemma_div_glue_r(
            p as int,
            sum_conv(qs0, fs, m, p),
            coeff_of(r0, m, p),
            term_at(ltx, m),
            coeff_of(x0, m, p),
        );
    }
    assert(within_terms(tp, l)) by {
        assert forall|k: int, i: int|
            0 <= k < tp.len() && i >= l implies #[trigger] exp_at(tp[k].mono(), i) == 0 by {
            assert(tp[k].mono() == ltxm);
            assert(exp_at(x0[0].mono(), i) == 0);
        }
    }
    assert(within_terms(r1, l)) by {
        assert forall|m: Seq<usize>|
            coeff_of(r1, m, p) != 0 implies coeff_of(r0, m, p) != 0 || coeff_of(tp, m, p)
            != 0 by {
            if coeff_of(r0, m, p) == 0 && coeff_of(tp, m, p) == 0 {
                vstd::arithmetic::div_mod::lemma_small_mod(0nat, p);
            }
        }
        lemma_within_sum(r1, r0, tp, p, l);
    }
    assert(within_terms(x1, l)) by {
        assert forall|m: Seq<usize>|
            coeff_of(x1, m, p) != 0 implies coeff_of(x0, m, p) != 0 || coeff_of(tp, m, p)
            != 0 by {
            if coeff_of(x0, m, p) == 0 && coeff_of(tp, m, p) == 0 {
                vstd::arithmetic::div_mod::lemma_small_mod(0nat, p);
            }
        }
        lemma_within_sum(x1, x0, tp, p, l);
    }
    assert forall|k: int, j: int|
        0 <= k < r1.len() && 0 <= j < fs.len() implies !mono_subtractable(
        (#[trigger] fs[j])@[0].mono(),
        (#[trigger] r1[k]).mono(),
    ) by {
        let m = r1[k].mono();
        let fm = fs[j]@[0].mono();
        lemma_coeff_of_member(r1, m, p, k);
        assert(coeff_of(r1, m, p) != 0);
        if coeff_of(r0, m, p) != 0 {
            let kr = lemma_coeff_of_support(r0, m, p);
            assert(!mono_subtractable(fm, r0[kr].mono()));
            assert(mono_eq(r0[kr].mono(), m));
            if mono_subtractable(fm, m) {
                assert(forall|i: int| exp_at(fm, i) <= exp_at(r0[kr].mono(), i));
            }
        } else {
            if coeff_of(r0, m, p) == 0 && coeff_of(tp, m, p) == 0 {
                vstd::arithmetic::div_mod::lemma_small_mod(0nat, p);
            }
            assert(coeff_of(tp, m, p) != 0);
            assert(term_at(ltx, m) != 0);
            assert(mono_eq(ltxm, m));
            if mono_subtractable(fm, m) {
                assert(forall|i: int| exp_at(fm, i) <= exp_at(ltxm, i));
            }
        }
    }
    lemma_coeff_of_member(x0, ltxm, p, 0);
    assert(coeff_of(tp, ltxm, p) == x0[0].cval()) by {
        assert(mono_eq(ltx.mono(), ltxm));
        assert(term_at(ltx, ltxm) == ltx.cval());
    }
    assert(coeff_of(x1, ltxm, p) == 0) by {
        assert(coeff_of(x1, ltxm, p) == fsub(
            p as int,
            x0[0].cval() as int,
            x0[0].cval() as int,
        ));
        vstd::arithmetic::div_mod::lemma_small_mod(0nat, p);
    }
    assert forall|m: Seq<usize>| mono_lt(ltxm, m) implies coeff_of(x1, m, p) == 0 by {
        lemma_coeff_above_lead(x0, m, p);
        assert(term_at(ltx, m) == 0) by {
            if mono_eq(ltx.mono(), m) {
                lemma_mono_eq_not_lt(ltxm, m);
            }
        }
        vstd::arithmetic::div_mod::lemma_small_mod(0nat, p);
    }
    lemma_lead_drop(x0, x1, p, l);
}

/// Gluing identity for a quotient step of the division loop.
pub proof fn lemma_div_glue_q(p: int, qq: int, t: int, rr: int, x: int)
    requires
        p >= 1,
    ensures
        fadd(p, fadd(p, qq, t), fadd(p, rr, fsub(p, x, t))) == fadd(p, qq, fadd(p, rr, x)),
{
    vstd::arithmetic::div_mod::lemma_add_mod_noop_right(rr, x - t, p);
    vstd::arithmetic::div_mod::lemma_add_mod_noop(qq + t, rr + x - t, p);
    vstd::arithmetic::div_mod::lemma_add_mod_noop_right(rr, x, p);
    vstd::arithmetic::div_mod::lemma_add_mod_noop_right(qq, rr + x, p);
}

/// Gluing identity for a remainder step of the division loop.
pub proof fn lemma_div_glue_r(p: int, qq: int, rr: int, t: int, x: int)
    requires
        p >= 1,
    ensures
        fadd(p, qq, fadd(p, fadd(p, rr, t), fsub(p, x, t))) == fadd(p, qq, fadd(p, rr, x)),
{
    vstd::arithmetic::div_mod::lemma_add_mod_noop(rr + t, x - t, p);
    vstd::arithmetic::div_mod::lemma_add_mod_noop_right(rr, x, p);
    vstd::arithmetic::div_mod::lemma_add_mod_noop_right(qq, rr + x, p);
    vstd::arithmetic::div_mod::lemma_add_mod_noop_right(
        qq,
        fadd(p, rr + t, x - t),
        p,
    );
    vstd::arithmetic::div_mod::lemma_mod_twice(rr + x, p);
}

/// An ordered collection of nonzero terms with pairwise distinct monomials,
/// sorted by descending monomial order; empty means the zero polynomial.
#[derive(Debug, PartialEq, Eq)]
pub struct MultivariatePoly {
    pub terms: Vec<Terms>,
}

impl View for MultivariatePoly {
    type V = Seq<Terms>;

    open spec fn view(&self) -> Seq<Terms> {
        self.terms@
    }
}

impl Clone for MultivariatePoly {
    /// A clone denotes the same polynomial over the same field.
    fn clone(&self) -> (r: Self)
        ensures
            r@.len() == self@.len(),
            forall|k: int|
                0 <= k < self@.len() ==> (#[trigger] r@[k]).cval() == self@[k].cval()
                    && r@[k].mono() == self@[k].mono() && r@[k].pval() == self@[k].pval()
                    && (forall|p: nat| r@[k].wf(p) == self@[k].wf(p)),
    {
        let terms = self.terms.clone();
        proof {
            assert forall|k: int|
                0 <= k < self@.len() implies (#[trigger] terms@[k]).cval() == self@[k].cval()
                && terms@[k].mono() == self@[k].mono() && terms@[k].pval() == self@[k].pval()
                && (forall|p: nat| terms@[k].wf(p) == self@[k].wf(p)) by {
                assert(cloned::<Terms>(self.terms@[k], terms@[k]));
            }
        }
        MultivariatePoly { terms }
    }
}

impl MultivariatePoly {
    /// The modulus of this polynomial's field; zero for the zero polynomial.
    pub open spec fn pval(&self) -> nat {
        pval_of(self@)
    }

    /// Well-formed: canonical term sequence over its own field.
    pub open spec fn wf(&self) -> bool {
        poly_ok(self@)
    }

    /// The zero polynomial.
    pub fn zero(&self) -> (r: Self)
        ensures
            r@.len() == 0,
            r.wf(),
    {
        MultivariatePoly { terms: Vec::new() }
    }

    /// Whether there are no terms at all.
    pub fn is_empty(&self) -> (r: bool)
        ensures
            r == (self@.len() == 0),
    {
        self.terms.len() == 0
    }

    /// Whether this is the zero polynomial.  In canonical form that is
    /// exactly the polynomial without terms, the one whose coefficient
    /// function vanishes everywhere.
    pub fn is_zero(&self) -> (r: bool)
        requires
            self.wf(),
        ensures
            r == (self@.len() == 0),
            r ==> forall|m: Seq<usize>, p: nat| coeff_of(self@, m, p) == 0,
    {
        self.terms.len() == 0
    }

    /// How many terms the polynomial has.
    pub fn number_of_terms(&self) -> (r: usize)
        ensures
            r == self@.len(),
    {
        self.terms.len()
    }

    /// A copy of the term sequence, in its canonical order.
    pub fn vector_terms(&self) -> (r: Vec<Terms>)
        ensures
            r@.len() == self@.len(),
            forall|k: int|
                0 <= k < self@.len() ==> (#[trigger] r@[k]).cval() == self@[k].cval()
                    && r@[k].mono() == self@[k].mono() && r@[k].pval() == self@[k].pval(),
    {
        let c = self.clone();
        c.terms
    }

    /// The term of highest monomial order.  Fails on the zero polynomial.
    pub fn leading_term(&self) -> (r: Result<Terms, MathError>)
        requires
            self.wf(),
        ensures
            match r {
                Ok(t) => {
                    &&& self@.len() > 0
                    &&& t.cval() == self@[0].cval()
                    &&& t.mono() == self@[0].mono()
                    &&& t.pval() == self.pval()
                    &&& t.wf(self.pval())
                },
                Err(e) => {
                    &&& e == MathError::EmptyPolynomial
                    &&& self@.len() == 0
                },
            },
    {
        if self.terms.len() == 0 {
            Err(MathError::EmptyPolynomial)
        } else {
            Ok(self.terms[0].clone())
        }
    }

    /// The coefficient of the leading term.  Fails on the zero polynomial.
    pub fn leading_coeff(&self) -> (r: Result<Mod, MathError>)
        requires
            self.wf(),
        ensures
            match r {
                Ok(c) => {
                    &&& self@.len() > 0
                    &&& c.val() == self@[0].cval()
                    &&& c.pval() == self.pval()
                    &&& c.wf()
                },
                Err(e) => {
                    &&& e == MathError::EmptyPolynomial
                    &&& self@.len() == 0
                },
            },
    {
        if self.terms.len() == 0 {
            Err(MathError::EmptyPolynomial)
        } else {
            Ok(self.terms[0].coeff.clone())
        }
    }

    /// The polynomial with exactly the given term, canonicalized: the zero
    /// term gives the zero polynomial.
    fn single(t: &Terms) -> (r: Self)
        requires
            t.coeff.wf(),
            t.multi_index.wf(),
        ensures
            r.wf(),
            r@.len() == if t.cval() == 0 {
                0int
            } else {
                1int
            },
            r@.len() > 0 ==> r.pval() == t.pval() && r@[0].cval() == t.cval() && r@[0].mono()
                == t.mono(),
            forall|m: Seq<usize>| coeff_of(r@, m, t.pval()) == term_at(*t, m),
    {
        let mut v: Vec<Terms> = Vec::new();
        if !t.coeff.is_zero() {
            v.push(t.clone());
        }
        let r = MultivariatePoly { terms: v };
        proof {
            if t.cval() != 0 {
                assert(r@.drop_last() =~= Seq::<Terms>::empty());
                assert forall|m: Seq<usize>| coeff_of(r@, m, t.pval()) == term_at(*t, m) by {
                    assert(coeff_of(r@.drop_last(), m, t.pval()) == 0);
                    assert(r@.last() == r@[0]);
                    assert(coeff_of(r@, m, t.pval()) == fadd(
                        t.pval() as int,
                        0,
                        term_at(r@[0], m),
                    ));
                    assert(term_at(r@[0], m) == term_at(*t, m));
                    lemma_fadd_bound(t.pval() as int, 0, 0);
                    lemma_fadd_zero(t.pval() as int, term_at(*t, m));
                }
            }
        }
        r
    }

    /// Additive inverse: every coefficient is negated, the monomials stay.
    pub fn neg(&self) -> (r: Self)
        requires
            self.wf(),
        ensures
            r.wf(),
            r@.len() == self@.len(),
            r@.len() > 0 ==> r.pval() == self.pval(),
            forall|k: int| 0 <= k < self@.len() ==> (#[trigger] r@[k]).mono() == self@[k].mono(),
            self@.len() > 0 ==> forall|m: Seq<usize>|
                coeff_of(r@, m, self.pval()) == fneg(
                    self.pval() as int,
                    coeff_of(self@, m, self.pval()),
                ),
    {
        let ghost P = self.pval();
        let n = self.terms.len();
        let mut out: Vec<Terms> = Vec::new();
        proof {
            if n > 0 {
                assert(self@[0].wf(P));
                vstd::arithmetic::div_mod::lemma_mod_self_0(P as int);
                assert(self@.take(0) =~= Seq::<Terms>::empty());
            }
        }
        let mut k: usize = 0;
        while k < n
            invariant
                n == self@.len(),
                k <= n,
                self.wf(),
                P == self.pval(),
                n > 0 ==> P >= 2,
                out@.len() == k,
                forall|kk: int|
                    0 <= kk < k ==> (#[trigger] out@[kk]).mono() == self@[kk].mono()
                        && out@[kk].cval() == fneg(P as int, self@[kk].cval() as int)
                        && out@[kk].wf(P),
                forall|m: Seq<usize>|
                    n > 0 ==> coeff_of(out@, m, P) == fneg(
                        P as int,
                        coeff_of(self@.take(k as int), m, P),
                    ),
            decreases n - k,
        {
            let ghost out0 = out@;
            proof {
                assert(self@[k as int].wf(P));
            }
            let t = Terms {
                coeff: self.terms[k].coeff.neg(),
                multi_index: self.terms[k].multi_index.clone(),
            };
            out.push(t);
            k = k + 1;
            proof {
                let tk = k as int;
                assert(out@.drop_last() =~= out0);
                assert(self@.take(tk).drop_last() =~= self@.take(tk - 1));
                assert(self@.take(tk).last() == self@[tk - 1]);
                assert forall|m: Seq<usize>|
                    coeff_of(out@, m, P) == fneg(
                    P as int,
                    coeff_of(self@.take(tk), m, P),
                ) by {
                    let x = coeff_of(self@.take(tk - 1), m, P);
                    let y = term_at(self@[tk - 1], m);
                    assert(coeff_of(out@, m, P) == fadd(
                        P as int,
                        coeff_of(out0, m, P),
                        term_at(out@.last(), m),
                    ));
                    assert(coeff_of(out0, m, P) == fneg(P as int, x));
                    assert(coeff_of(self@.take(tk), m, P) == fadd(P as int, x, y));
                    assert(term_at(out@.last(), m) == fneg(P as int, y)) by {
                        if !mono_eq(out@.last().mono(), m) {
                            vstd::arithmetic::div_mod::lemma_mod_self_0(P as int);
                        }
                    }
                    crate::intmod::lemma_fneg_distr(P as int, x, y);
                }
            }
        }
        proof {
            assert(self@.take(n as int) =~= self@);
            // the negation of a nonzero reduced value is nonzero
            assert forall|kk: int| 0 <= kk < n implies (#[trigger] out@[kk]).cval() != 0 by {
                assert(self@[kk].wf(P) && self@[kk].cval() != 0);
                vstd::arithmetic::div_mod::lemma_small_mod(
                    (P - self@[kk].cval()) as nat,
                    P,
                );
            }
            assert(desc_sorted(out@)) by {
                assert(forall|kk: int|
                    0 <= kk < out@.len() - 1 ==> (#[trigger] out@[kk + 1]).mono() == self@[kk
                        + 1].mono() && out@[kk].mono() == self@[kk].mono());
            }
            if out@.len() > 0 {
                assert(out@[0].wf(P));
            }
        }
        MultivariatePoly { terms: out }
    }

    /// Difference: the sum with the negated right operand; at every monomial
    /// the coefficients subtract.
    pub fn sub(&self, rhs: &Self) -> (r: Self)
        requires
            self.wf(),
            rhs.wf(),
            compat(self@, rhs@),
        ensures
            r.wf(),
            r@.len() > 0 ==> r.pval() == joint_p(self@, rhs@),
            self@.len() + rhs@.len() > 0 ==> forall|m: Seq<usize>|
                coeff_of(r@, m, joint_p(self@, rhs@)) == fsub(
                    joint_p(self@, rhs@) as int,
                    coeff_of(self@, m, joint_p(self@, rhs@)),
                    coeff_of(rhs@, m, joint_p(self@, rhs@)),
                ),
            self@.len() == 0 && rhs@.len() == 0 ==> r@.len() == 0,
    {
        let ghost P = joint_p(self@, rhs@);
        let n = rhs.neg();
        let r = self.add(&n);
        proof {
            if self@.len() + rhs@.len() > 0 {
                assert(P >= 2) by {
                    if self@.len() > 0 {
                        assert(self@[0].wf(pval_of(self@)));
                    } else {
                        assert(rhs@[0].wf(pval_of(rhs@)));
                    }
                }
                assert(joint_p(self@, n@) == P);
                assert forall|m: Seq<usize>|
                    coeff_of(r@, m, P) == fsub(
                    P as int,
                    coeff_of(self@, m, P),
                    coeff_of(rhs@, m, P),
                ) by {
                    let a = coeff_of(self@, m, P);
                    let b = coeff_of(rhs@, m, P);
                    lemma_coeff_of_bound(self@, m, P);
                    lemma_coeff_of_bound(rhs@, m, P);
                    if rhs@.len() > 0 {
                        assert(coeff_of(n@, m, P) == fneg(P as int, b));
                        lemma_fsub_is_fadd_fneg(P as int, a, b);
                    } else {
                        assert(n@.len() == 0);
                        assert(coeff_of(n@, m, P) == 0);
                        assert(b == 0);
                        lemma_fadd_zero(P as int, a);
                        vstd::arithmetic::div_mod::lemma_small_mod(a as nat, P);
                    }
                }
            }
        }
        r
    }

    /// Canonicalizing constructor: like terms are merged, zero terms
    /// dropped, and the result sorted in descending monomial order.  The
    /// input terms must share one field.  Building from an already canonical
    /// sequence reproduces it term for term.
    pub fn new(terms: Vec<Terms>) -> (r: Self)
        requires
            forall|k: int|
                0 <= k < terms@.len() ==> (#[trigger] terms@[k]).coeff.wf()
                    && terms@[k].multi_index.wf() && terms@[k].pval() == pval_of(terms@),
        ensures
            r.wf(),
            terms@.len() == 0 ==> r@.len() == 0,
            r@.len() > 0 ==> terms@.len() > 0 && r.pval() == pval_of(terms@),
            terms@.len() > 0 ==> forall|m: Seq<usize>|
                coeff_of(r@, m, pval_of(terms@)) == coeff_of(terms@, m, pval_of(terms@)),
            poly_ok(terms@) ==> r@.len() == terms@.len() && (forall|k: int|
                0 <= k < terms@.len() ==> (#[trigger] r@[k]).cval() == terms@[k].cval()
                    && r@[k].mono() == terms@[k].mono()),
    {
        let ghost ts = terms@;
        let ghost P = pval_of(ts);
        let n = terms.len();
        let mut acc = MultivariatePoly { terms: Vec::new() };
        proof {
            if n > 0 {
                assert(ts[0].coeff.wf());
                assert(P >= 2);
                assert(ts.take(0) =~= Seq::<Terms>::empty());
            }
        }
        let mut k: usize = 0;
        while k < n
            invariant
                n == terms@.len(),
                ts == terms@,
                P == pval_of(ts),
                k <= n,
                forall|kk: int|
                    0 <= kk < n ==> (#[trigger] ts[kk]).coeff.wf() && ts[kk].multi_index.wf()
                        && ts[kk].pval() == P,
                n > 0 ==> P >= 2,
                acc.wf(),
                acc@.len() > 0 ==> pval_of(acc@) == P,
                n > 0 ==> forall|m: Seq<usize>|
                    coeff_of(acc@, m, P) == coeff_of(ts.take(k as int), m, P),
            decreases n - k,
        {
            let ghost acc0 = acc@;
            proof {
                assert(ts[k as int].coeff.wf());
            }
            let single = Self::single(&terms[k]);
            let next = acc.add(&single);
            acc = next;
            k = k + 1;
            proof {
                let tk = k as int;
                assert(ts.take(tk).drop_last() =~= ts.take(tk - 1));
                assert(ts.take(tk).last() == ts[tk - 1]);
                assert forall|m: Seq<usize>|
                    coeff_of(acc@, m, P) == coeff_of(ts.take(tk), m, P) by {
                    let x = coeff_of(ts.take(tk - 1), m, P);
                    let y = term_at(ts[tk - 1], m);
                    assert(coeff_of(ts.take(tk), m, P) == fadd(P as int, x, y));
                    if acc0.len() + single@.len() > 0 {
                        assert(joint_p(acc0, single@) == P);
                        assert(coeff_of(single@, m, ts[tk - 1].pval()) == y);
                        assert(coeff_of(acc@, m, P) == fadd(
                            P as int,
                            coeff_of(acc0, m, P),
                            coeff_of(single@, m, P),
                        ));
                        assert(coeff_of(acc0, m, P) == x);
                    } else {
                        // both the accumulator and the new term are zero
                        assert(acc@.len() == 0);
                        assert(coeff_of(acc@, m, P) == 0);
                        assert(coeff_of(acc0, m, P) == 0);
                        assert(x == coeff_of(acc0, m, P));
                        assert(ts[tk - 1].cval() == 0);
                        assert(y == 0);
                        vstd::arithmetic::div_mod::lemma_small_mod(0nat, P);
                    }
                }
            }
        }
        proof {
            assert(ts.take(n as int) =~= ts);
            if poly_ok(ts) {
                if n == 0 {
                } else {
                    assert(poly_wf(ts, P));
                    assert(poly_wf(acc@, P)) by {
                        if acc@.len() > 0 {
                            assert(acc@[0].wf(pval_of(acc@)));
                        }
                    }
                    lemma_canonical_unique(acc@, ts, P);
                }
            }
        }
        acc
    }

    /// Product of two polynomials of a common field, by sparse cross-sum
    /// accumulation: each row of the left operand keeps a cursor into the
    /// right operand, and of the pending row products the one with the
    /// largest monomial (ties to the lowest row) is folded in next, the
    /// order a product heap would deliver.  At every monomial the result
    /// carries the naive double cross sum [`conv`] of all term products, so
    /// any multiplication strategy meeting this contract agrees with the
    /// schoolbook one.
    #[verifier::rlimit(100)]
    pub fn mul(&self, rhs: &Self) -> (r: Self)
        requires
            self.wf(),
            rhs.wf(),
            compat(self@, rhs@),
            forall|ka: int, kb: int, i: int|
                0 <= ka < self@.len() && 0 <= kb < rhs@.len() ==> #[trigger] exp_at(
                    self@[ka].mono(),
                    i,
                ) + #[trigger] exp_at(rhs@[kb].mono(), i) <= usize::MAX,
        ensures
            r.wf(),
            self@.len() == 0 || rhs@.len() == 0 ==> r@.len() == 0,
            r@.len() > 0 ==> r.pval() == joint_p(self@, rhs@),
            self@.len() > 0 && rhs@.len() > 0 ==> forall|m: Seq<usize>|
                coeff_of(r@, m, joint_p(self@, rhs@)) == conv(
                    self@,
                    rhs@,
                    m,
                    joint_p(self@, rhs@),
                ),
    {
        let ghost aseq = self.terms@;
        let ghost bseq = rhs.terms@;
        let ghost P = joint_p(aseq, bseq);
        let mut acc = MultivariatePoly { terms: Vec::new() };
        let alen = self.terms.len();
        let blen = rhs.terms.len();
        if alen == 0 || blen == 0 {
            return acc;
        }
        proof {
            assert(aseq[0].wf(pval_of(aseq)));
            assert(P >= 2);
        }
        // one cursor per row of the left operand
        let mut cur: Vec<usize> = Vec::new();
        let mut i: usize = 0;
        while i < alen
            invariant
                i <= alen,
                cur@.len() == i,
                forall|ii: int| 0 <= ii < i ==> #[trigger] cur@[ii] == 0,
            decreases alen - i,
        {
            cur.push(0);
            i = i + 1;
        }
        proof {
            lemma_rows_sum_init(aseq, bseq, cur@, Seq::<usize>::empty(), P);
            assert forall|m: Seq<usize>|
                coeff_of(acc@, m, P) == rows_sum(aseq, bseq, cur@, m, P) by {
                lemma_rows_sum_init(aseq, bseq, cur@, m, P);
            }
            lemma_rem_sum_bounds(cur@, blen as int);
        }
        loop
            invariant_except_break
                aseq == self.terms@,
                bseq == rhs.terms@,
                alen == aseq.len(),
                blen == bseq.len(),
                alen > 0,
                blen > 0,
                self.wf(),
                rhs.wf(),
                P == joint_p(aseq, bseq),
                P == pval_of(aseq),
                P == pval_of(bseq),
                P >= 2,
                forall|ka: int, kb: int, ii: int|
                    0 <= ka < alen && 0 <= kb < blen ==> #[trigger] exp_at(
                        aseq[ka].mono(),
                        ii,
                    ) + #[trigger] exp_at(bseq[kb].mono(), ii) <= usize::MAX,
                cur@.len() == alen,
                forall|ii: int| 0 <= ii < alen ==> #[trigger] cur@[ii] <= blen,
                acc.wf(),
                acc@.len() > 0 ==> pval_of(acc@) == P,
                forall|m: Seq<usize>|
                    coeff_of(acc@, m, P) == rows_sum(aseq, bseq, cur@, m, P),
                rem_sum(cur@, blen as int) >= 0,
            ensures
                acc.wf(),
                acc@.len() > 0 ==> pval_of(acc@) == P,
                cur@.len() == alen,
                forall|ii: int| 0 <= ii < alen ==> #[trigger] cur@[ii] == blen,
                forall|m: Seq<usize>|
                    coeff_of(acc@, m, P) == rows_sum(aseq, bseq, cur@, m, P),
            decreases rem_sum(cur@, blen as int),
        {
            // scan the frontier: the pending product of largest monomial
            // wins, ties going to the lowest row
            let mut sel: usize = alen;
            let mut best = MultiIndex::zero();
            let mut i: usize = 0;
            while i < alen
                invariant
                    aseq == self.terms@,
                    bseq == rhs.terms@,
                    alen == aseq.len(),
                    blen == bseq.len(),
                    self.wf(),
                    rhs.wf(),
                    alen > 0,
                    blen > 0,
                    P == joint_p(aseq, bseq),
                    P == pval_of(aseq),
                    P == pval_of(bseq),
                    i <= alen,
                    cur@.len() == alen,
                    forall|ii: int| 0 <= ii < alen ==> #[trigger] cur@[ii] <= blen,
                    forall|ka: int, kb: int, ii: int|
                        0 <= ka < alen && 0 <= kb < blen ==> #[trigger] exp_at(
                            aseq[ka].mono(),
                            ii,
                        ) + #[trigger] exp_at(bseq[kb].mono(), ii) <= usize::MAX,
                    sel <= alen,
                    sel == alen ==> forall|ii: int| 0 <= ii < i ==> #[trigger] cur@[ii] == blen,
                    sel < alen ==> sel < i && cur@[sel as int] < blen,
                decreases alen - i,
            {
                if cur[i] < blen {
                    proof {
                        assert(aseq[i as int].wf(P));
                        assert(bseq[cur@[i as int] as int].wf(P));
                        assert forall|ii: int|
                            exp_at(self.terms[i as int].multi_index@, ii) + exp_at(
                                rhs.terms[cur@[i as int] as int].multi_index@,
                                ii,
                            ) <= usize::MAX by {
                            assert(exp_at(aseq[i as int].mono(), ii) + exp_at(
                                bseq[cur@[i as int] as int].mono(),
                                ii,
                            ) <= usize::MAX);
                        }
                    }
                    let cand = self.terms[i].multi_index.add(&rhs.terms[cur[i]].multi_index);
                    if sel == alen {
                        sel = i;
                        best = cand;
                    } else if best.lt(&cand) {
                        sel = i;
                        best = cand;
                    }
                }
                i = i + 1;
            }
            if sel == alen {
                proof {
                    lemma_rem_sum_bounds(cur@, blen as int);
                }
                break;
            }
            let ghost cur0 = cur@;
            let ghost acc0 = acc@;
            let j = cur[sel];
            proof {
                assert(aseq[sel as int].wf(P));
                assert(bseq[j as int].wf(P));
                assert forall|ii: int|
                    exp_at(self.terms[sel as int].mono(), ii) + exp_at(
                        rhs.terms[j as int].mono(),
                        ii,
                    ) <= usize::MAX by {
                    assert(exp_at(aseq[sel as int].mono(), ii) + exp_at(
                        bseq[j as int].mono(),
                        ii,
                    ) <= usize::MAX);
                }
            }
            let t = self.terms[sel].mul(&rhs.terms[j]);
            proof {
                assert(t.pval() == P);
            }
            let single = Self::single(&t);
            let next = acc.add(&single);
            acc = next;
            cur.set(sel, j + 1);
            proof {
                let si = sel as int;
                let at = aseq[si];
                let bt = bseq[j as int];
                lemma_rem_sum_update(cur0, cur@, si, blen as int);
                lemma_rem_sum_bounds(cur@, blen as int);
                assert forall|m: Seq<usize>|
                    coeff_of(acc@, m, P) == rows_sum(aseq, bseq, cur@, m, P) by {
                    let piece: int = if mono_sum_at(at, bt, m) {
                        fmul(P as int, at.cval() as int, bt.cval() as int)
                    } else {
                        0
                    };
                    lemma_rows_sum_update(aseq, bseq, cur0, cur@, si, m, P);
                    assert(rows_sum(aseq, bseq, cur@, m, P) == fadd(
                        P as int,
                        rows_sum(aseq, bseq, cur0, m, P),
                        piece,
                    ));
                    // the freshly built term contributes exactly `piece`
                    assert(term_at(t, m) == piece) by {
                        assert(mono_sum_is(at.mono(), bt.mono(), t.mono()));
                        if mono_eq(t.mono(), m) {
                            assert forall|ii: int|
                                exp_at(at.mono(), ii) + exp_at(bt.mono(), ii) == exp_at(
                                    m,
                                    ii,
                                ) by {
                                assert(exp_at(t.mono(), ii) == exp_at(at.mono(), ii) + exp_at(
                                    bt.mono(),
                                    ii,
                                ));
                                assert(exp_at(t.mono(), ii) == exp_at(m, ii));
                            }
                        } else {
                            if mono_sum_at(at, bt, m) {
                                assert forall|ii: int| exp_at(t.mono(), ii) == exp_at(m, ii) by {
                                    assert(exp_at(t.mono(), ii) == exp_at(at.mono(), ii)
                                        + exp_at(bt.mono(), ii));
                                }
                            }
                        }
                    }
                    if acc0.len() + single@.len() > 0 {
                        assert(joint_p(acc0, single@) == P);
                        assert(coeff_of(single@, m, t.pval()) == term_at(t, m));
                        assert(coeff_of(acc@, m, joint_p(acc0, single@)) == fadd(
                            joint_p(acc0, single@) as int,
                            coeff_of(acc0, m, joint_p(acc0, single@)),
                            coeff_of(single@, m, joint_p(acc0, single@)),
                        ));
                        assert(coeff_of(acc0, m, P) == rows_sum(aseq, bseq, cur0, m, P));
                    } else {
                        assert(acc@.len() == 0);
                        assert(coeff_of(acc@, m, P) == 0);
                        assert(coeff_of(acc0, m, P) == 0);
                        assert(t.cval() == 0);
                        assert(piece == 0) by {
                            assert(t.cval() == fmul(P as int, at.cval() as int,
                                bt.cval() as int));
                        }
                        lemma_coeff_of_bound(acc0, m, P);
                        vstd::arithmetic::div_mod::lemma_small_mod(0nat, P);
                        lemma_fadd_zero(P as int, rows_sum(aseq, bseq, cur0, m, P)) ;
                    }
                }
            }
        }
        proof {
            assert forall|m: Seq<usize>| coeff_of(acc@, m, P) == conv(aseq, bseq, m, P) by {
                lemma_rows_sum_full(aseq, bseq, cur@, m, P);
            }
        }
        acc
    }

    /// Whether every exponent sum of `t` against a term of `rhs` fits the
    /// machine word, so that the products can be formed.
    fn fits_against(t: &Terms, rhs: &Self) -> (r: bool)
        ensures
            r == forall|kb: int, i: int|
                0 <= kb < rhs@.len() ==> #[trigger] exp_at(t.mono(), i) + #[trigger] exp_at(
                    rhs@[kb].mono(),
                    i,
                ) <= usize::MAX,
    {
        let blen = rhs.terms.len();
        let tlen = t.multi_index.exponents.len();
        let mut kb: usize = 0;
        while kb < blen
            invariant
                blen == rhs@.len(),
                tlen == t.mono().len(),
                kb <= blen,
                forall|k: int, i: int|
                    0 <= k < kb ==> #[trigger] exp_at(t.mono(), i) + #[trigger] exp_at(
                        rhs@[k].mono(),
                        i,
                    ) <= usize::MAX,
            decreases blen - kb,
        {
            let mut i: usize = 0;
            while i < tlen
                invariant
                    blen == rhs@.len(),
                    tlen == t.mono().len(),
                    kb < blen,
                    i <= tlen,
                    forall|ii: int|
                        0 <= ii < i ==> #[trigger] exp_at(t.mono(), ii) + exp_at(
                            rhs@[kb as int].mono(),
                            ii,
                        ) <= usize::MAX,
                decreases tlen - i,
            {
                let bv = if i < rhs.terms[kb].multi_index.exponents.len() {
                    rhs.terms[kb].multi_index.exponents[i]
                } else {
                    0
                };
                proof {
                    assert(bv == exp_at(rhs@[kb as int].mono(), i as int));
                }
                if t.multi_index.exponents[i] > usize::MAX - bv {
                    proof {
                        assert(exp_at(t.mono(), i as int) + exp_at(rhs@[kb as int].mono(), i as int)
                            > usize::MAX);
                    }
                    return false;
                }
                i = i + 1;
            }
            proof {
                assert forall|ii: int|
                    #[trigger] exp_at(t.mono(), ii) + exp_at(rhs@[kb as int].mono(), ii)
                    <= usize::MAX by {
                    if ii < 0 || ii >= tlen {
                        assert(exp_at(t.mono(), ii) == 0);
                    }
                }
            }
            kb = kb + 1;
        }
        true
    }

    /// Division with remainder by a single divisor: expresses the dividend
    /// as `q * rhs + r` where no term of `r` is divisible by the leading
    /// term of `rhs`.  Fails on a zero divisor, on a divisor whose leading
    /// coefficient is not invertible, and on an exponent overflow; the
    /// overflow error comes only when some reduction run of these operands
    /// genuinely leaves the machine word, so on every other well-formed
    /// input with a usable divisor the division succeeds.
    pub fn div_rem(&self, rhs: &Self) -> (res: Result<(Self, Self), MathError>)
        requires
            self.wf(),
            rhs.wf(),
            compat(self@, rhs@),
        ensures
            match res {
                Ok(qr) => {
                    &&& rhs@.len() > 0
                    &&& qr.0.wf()
                    &&& qr.1.wf()
                    &&& qr.0@.len() > 0 ==> qr.0.pval() == pval_of(rhs@)
                    &&& qr.1@.len() > 0 ==> qr.1.pval() == pval_of(rhs@)
                    &&& forall|m: Seq<usize>|
                        coeff_of(self@, m, pval_of(rhs@)) == fadd(
                            pval_of(rhs@) as int,
                            conv(qr.0@, rhs@, m, pval_of(rhs@)),
                            coeff_of(qr.1@, m, pval_of(rhs@)),
                        )
                    &&& forall|k: int|
                        0 <= k < qr.1@.len() ==> !mono_subtractable(
                            rhs@[0].mono(),
                            (#[trigger] qr.1@[k]).mono(),
                        )
                    &&& reduction_completes(self@, rhs@, pval_of(rhs@))
                },
                Err(e) => {
                    &&& (e == MathError::DivisionByZero <==> rhs@.len() == 0)
                    &&& (e == MathError::NotInvertible <==> (rhs@.len() > 0 && gcd(
                        rhs@[0].cval(),
                        pval_of(rhs@),
                    ) != 1))
                    &&& (e == MathError::ExponentOverflow ==> rhs@.len() > 0 && gcd(
                        rhs@[0].cval(),
                        pval_of(rhs@),
                    ) == 1 && reaches_overflow(self@, rhs@, pval_of(rhs@)))
                    &&& (e == MathError::DivisionByZero || e == MathError::NotInvertible || e
                        == MathError::ExponentOverflow)
                },
            },
    {
        if rhs.terms.len() == 0 {
            return Err(MathError::DivisionByZero);
        }
        let ghost P = pval_of(rhs.terms@);
        proof {
            assert(rhs@[0].wf(P));
        }
        let lt_b = rhs.terms[0].clone();
        let inv = match lt_b.coeff.inverse() {
            Ok(v) => v,
            Err(_) => {
                return Err(MathError::NotInvertible);
            },
        };
        let mut q = MultivariatePoly { terms: Vec::new() };
        let mut r = MultivariatePoly { terms: Vec::new() };
        let x0 = MultivariatePoly { terms: Vec::new() };
        let mut x = self.add(&x0);
        let ghost aseq = self.terms@;
        let ghost bseq = rhs.terms@;
        let ghost L: int = if max_mono_len(aseq) >= max_mono_len(bseq) {
            max_mono_len(aseq)
        } else {
            max_mono_len(bseq)
        };
        proof {
            lemma_within_max(aseq);
            lemma_within_max(bseq);
            lemma_within_mono(aseq, max_mono_len(aseq), L);
            lemma_within_mono(bseq, max_mono_len(bseq), L);
            vstd::arithmetic::div_mod::lemma_small_mod(0nat, P);
            // the working copy denotes the dividend
            assert forall|m: Seq<usize>| coeff_of(x@, m, P) == coeff_of(aseq, m, P) by {
                if aseq.len() > 0 {
                    assert(joint_p(aseq, x0@) == P);
                    lemma_coeff_of_bound(aseq, m, P);
                    lemma_fadd_zero(P as int, coeff_of(aseq, m, P));
                } else {
                    assert(x@.len() == 0);
                }
            }
            assert(within_terms(x@, L)) by {
                lemma_within_sum(x@, aseq, bseq, P, L);
            }
            lemma_conv_empty_left(bseq, Seq::<usize>::empty(), P);
            assert forall|m: Seq<usize>|
                coeff_of(aseq, m, P) == fadd(
                P as int,
                conv(q@, bseq, m, P),
                fadd(P as int, coeff_of(r@, m, P), coeff_of(x@, m, P)),
            ) by {
                lemma_conv_empty_left(bseq, m, P);
                lemma_coeff_of_bound(x@, m, P);
                lemma_fadd_zero(P as int, coeff_of(x@, m, P));
                lemma_fadd_bound(P as int, 0, coeff_of(x@, m, P));
                lemma_fadd_zero(P as int, fadd(P as int, 0, coeff_of(x@, m, P)));
            }
        }
        let ghost mut tr: Seq<Seq<Terms>> = seq![x@];
        proof {
            assert(poly_wf(x@, P)) by {
                if x@.len() > 0 {
                    assert(x@[0].wf(pval_of(x@)));
                }
            }
            assert(tr[0] == x@ && tr.len() == 1);
            assert(div_trace(tr, aseq, bseq, P));
        }
        while !(x.terms.len() == 0)
            invariant
                aseq == self.terms@,
                bseq == rhs.terms@,
                self.wf(),
                rhs.wf(),
                bseq.len() > 0,
                P == pval_of(bseq),
                P >= 2,
                lt_b.cval() == bseq[0].cval(),
                lt_b.mono() == bseq[0].mono(),
                lt_b.wf(P),
                gcd(bseq[0].cval(), P) == 1,
                q.wf(),
                r.wf(),
                x.wf(),
                q@.len() > 0 ==> pval_of(q@) == P,
                r@.len() > 0 ==> pval_of(r@) == P,
                x@.len() > 0 ==> pval_of(x@) == P,
                within_terms(aseq, L),
                within_terms(bseq, L),
                within_terms(q@, L),
                within_terms(r@, L),
                within_terms(x@, L),
                forall|m: Seq<usize>|
                    coeff_of(aseq, m, P) == fadd(
                        P as int,
                        conv(q@, bseq, m, P),
                        fadd(P as int, coeff_of(r@, m, P), coeff_of(x@, m, P)),
                    ),
                forall|k: int|
                    0 <= k < r@.len() ==> !mono_subtractable(
                        bseq[0].mono(),
                        (#[trigger] r@[k]).mono(),
                    ),
                tr.len() >= 1,
                tr.last() == x@,
                div_trace(tr, aseq, bseq, P),
            decreases poly_rank(x@, L),
        {
            let ghost xold = x@;
            let ghost qold = q@;
            let ghost rold = r@;
            let ghost ltxm = x@[0].mono();
            proof {
                assert(x@[0].wf(P));
            }
            let lt_x = x.terms[0].clone();
            if lt_x.is_divisible_by(&lt_b) {
                let t = match lt_x.div(&lt_b) {
                    Ok(t) => t,
                    Err(e) => {
                        // unreachable: divisibility was checked, and the
                        // leading coefficient was inverted up front
                        proof {
                            assert(false);
                        }
                        return Err(MathError::NotInvertible);
                    },
                };
                proof {
                    lemma_cancel_coeff(P, lt_x.cval(), lt_b.cval(), t.cval());
                }
                if !Self::fits_against(&t, rhs) {
                    proof {
                        // the failing check exhibits a pair whose exponent
                        // sum leaves the machine word
                        let (kb, i) = choose|kb: int, i: int|
                            0 <= kb < bseq.len() && #[trigger] exp_at(t.mono(), i)
                                + #[trigger] exp_at(bseq[kb].mono(), i) > usize::MAX;
                        assert(exp_at(mono_minus(ltxm, bseq[0].mono()), i) == exp_at(
                            t.mono(),
                            i,
                        )) by {
                            assert(exp_at(lt_x.mono(), i) == exp_at(lt_b.mono(), i) + exp_at(
                                t.mono(),
                                i,
                            ));
                        }
                        assert(exp_at(mono_minus(ltxm, bseq[0].mono()), i) + exp_at(
                            bseq[kb].mono(),
                            i,
                        ) > usize::MAX);
                        assert(step_overflows(xold, bseq));
                        assert(reaches_overflow(aseq, bseq, P)) by {
                            assert(div_trace(tr, aseq, bseq, P) && step_overflows(
                                tr.last(),
                                bseq,
                            ));
                        }
                    }
                    return Err(MathError::ExponentOverflow);
                }
                let tp = Self::single(&t);
                proof {
                    assert forall|ka: int, kb: int, i: int|
                        0 <= ka < tp@.len() && 0 <= kb < bseq.len() implies #[trigger] exp_at(
                        tp@[ka].mono(),
                        i,
                    ) + #[trigger] exp_at(bseq[kb].mono(), i) <= usize::MAX by {
                        assert(tp@[ka].mono() == t.mono());
                        assert(exp_at(t.mono(), i) + exp_at(bseq[kb].mono(), i) <= usize::MAX);
                    }
                }
                let delta = tp.mul(rhs);
                let q2 = q.add(&tp);
                let x2 = x.sub(&delta);
                proof {
                    assert(t.pval() == P);
                    assert(tp@.len() == 1 && pval_of(tp@) == P);
                    assert(joint_p(qold, tp@) == P);
                    assert(joint_p(tp@, bseq) == P);
                    assert(joint_p(xold, delta@) == P);
                    assert forall|m: Seq<usize>|
                        coeff_of(q2@, m, P) == fadd(
                        P as int,
                        coeff_of(qold, m, P),
                        coeff_of(tp@, m, P),
                    ) by {
                        assert(coeff_of(q2@, m, joint_p(qold, tp@)) == fadd(
                            joint_p(qold, tp@) as int,
                            coeff_of(qold, m, joint_p(qold, tp@)),
                            coeff_of(tp@, m, joint_p(qold, tp@)),
                        ));
                    }
                    assert forall|m: Seq<usize>|
                        coeff_of(delta@, m, P) == conv(tp@, bseq, m, P) by {
                        assert(coeff_of(delta@, m, joint_p(tp@, bseq)) == conv(
                            tp@,
                            bseq,
                            m,
                            joint_p(tp@, bseq),
                        ));
                    }
                    assert forall|m: Seq<usize>|
                        coeff_of(x2@, m, P) == fsub(
                        P as int,
                        coeff_of(xold, m, P),
                        coeff_of(delta@, m, P),
                    ) by {
                        assert(coeff_of(x2@, m, joint_p(xold, delta@)) == fsub(
                            joint_p(xold, delta@) as int,
                            coeff_of(xold, m, joint_p(xold, delta@)),
                            coeff_of(delta@, m, joint_p(xold, delta@)),
                        ));
                    }
                    assert(desc_sorted(q2@) && no_zero_coeffs(q2@)) by {
                        if q2@.len() > 0 {
                            assert(q2@[0].wf(pval_of(q2@)));
                        }
                    }
                    assert forall|k: int|
                        0 <= k < q2@.len() implies (#[trigger] q2@[k]).cval() < P by {
                        assert(q2@[k].wf(P));
                    }
                    assert forall|k: int|
                        0 <= k < delta@.len() implies (#[trigger] delta@[k]).cval() < P by {
                        assert(delta@[k].wf(P));
                    }
                    assert forall|k: int|
                        0 <= k < x2@.len() implies (#[trigger] x2@[k]).cval() < P by {
                        assert(x2@[k].wf(P));
                    }
                    assert forall|k: int|
                        0 <= k < xold.len() implies (#[trigger] xold[k]).cval() < P by {
                        assert(xold[k].wf(P));
                    }
                    assert forall|k: int|
                        0 <= k < bseq.len() implies (#[trigger] bseq[k]).cval() < P by {
                        assert(bseq[k].wf(P));
                    }
                    assert forall|i: int|
                        #[trigger] exp_at(ltxm, i) == exp_at(bseq[0].mono(), i) + exp_at(
                        t.mono(),
                        i,
                    ) by {
                        assert(exp_at(lt_x.mono(), i) == exp_at(lt_b.mono(), i) + exp_at(
                            t.mono(),
                            i,
                        ));
                    }
                    lemma_div_step_divisible(
                        aseq,
                        bseq,
                        qold,
                        q2@,
                        rold,
                        xold,
                        x2@,
                        tp@,
                        delta@,
                        t,
                        P,
                        L,
                        ltxm,
                    );
                    // the update is one reduction step of the trace
                    let tm = mono_minus(ltxm, bseq[0].mono());
                    assert forall|i: int| #[trigger] exp_at(tm, i) == exp_at(t.mono(), i) by {
                        assert(exp_at(lt_x.mono(), i) == exp_at(lt_b.mono(), i) + exp_at(
                            t.mono(),
                            i,
                        ));
                    }
                    assert(!step_overflows(xold, bseq)) by {
                        if step_overflows(xold, bseq) {
                            let (kb, i) = choose|kb: int, i: int|
                                0 <= kb < bseq.len() && exp_at(
                                    mono_minus(xold[0].mono(), bseq[0].mono()),
                                    i,
                                ) + #[trigger] exp_at(bseq[kb].mono(), i) > usize::MAX;
                            assert(exp_at(t.mono(), i) + exp_at(bseq[kb].mono(), i)
                                <= usize::MAX);
                        }
                    }
                    assert(poly_wf(x2@, P)) by {
                        if x2@.len() > 0 {
                            assert(x2@[0].wf(pval_of(x2@)));
                        }
                    }
                    assert forall|m: Seq<usize>|
                        #[trigger] coeff_of(x2@, m, P) == fsub(
                        P as int,
                        coeff_of(xold, m, P),
                        scaled_at(bseq, t.cval() as int, tm, m, P),
                    ) by {
                        lemma_conv_empty_left(bseq, m, P);
                        assert(tp@.drop_last() =~= Seq::<Terms>::empty());
                        lemma_conv_push(tp@.drop_last(), tp@, bseq, m, P);
                        lemma_rowpart_bound(tp@.last(), bseq, m, P);
                        lemma_fadd_zero(P as int, rowpart(tp@.last(), bseq, m, P));
                        lemma_rowpart_scaled(tp@.last(), bseq, m, P);
                        assert(tp@.last().cval() == t.cval() && tp@.last().mono() == t.mono());
                        assert(scaled_at(bseq, t.cval() as int, t.mono(), m, P) == scaled_at(
                            bseq,
                            t.cval() as int,
                            tm,
                            m,
                            P,
                        )) by {
                            assert(mono_subtractable(t.mono(), m) == mono_subtractable(tm, m))
                                by {
                                if mono_subtractable(t.mono(), m) {
                                    assert(forall|i: int|
                                        exp_at(tm, i) <= exp_at(m, i));
                                }
                                if mono_subtractable(tm, m) {
                                    assert(forall|i: int|
                                        exp_at(t.mono(), i) <= exp_at(m, i));
                                }
                            }
                            if mono_subtractable(tm, m) {
                                assert(mono_minus(m, t.mono()) =~= mono_minus(m, tm));
                            }
                        }
                    }
                    assert(div_step(xold, x2@, bseq, P)) by {
                        let tc = t.cval() as int;
                        assert(0 <= tc < P && fmul(P as int, tc, bseq[0].cval() as int)
                            == xold[0].cval() && forall|m: Seq<usize>|
                            #[trigger] coeff_of(x2@, m, P) == fsub(
                                P as int,
                                coeff_of(xold, m, P),
                                scaled_at(
                                    bseq,
                                    tc,
                                    mono_minus(xold[0].mono(), bseq[0].mono()),
                                    m,
                                    P,
                                ),
                            ));
                    }
                    let trold = tr;
                    tr = tr.push(x2@);
                    assert(div_trace(tr, aseq, bseq, P)) by {
                        assert(tr.drop_last() =~= trold);
                        assert(tr[tr.len() - 2] == xold && tr.last() == x2@);
                    }
                }
                q = q2;
                x = x2;
            } else {
                let tp = Self::single(&lt_x);
                let r2 = r.add(&tp);
                let x2 = x.sub(&tp);
                proof {
                    assert(lt_x.cval() == xold[0].cval() && xold[0].cval() != 0);
                    assert(lt_x.pval() == P);
                    assert(tp@.len() == 1 && pval_of(tp@) == P);
                    assert(joint_p(rold, tp@) == P);
                    assert(joint_p(xold, tp@) == P);
                    assert forall|m: Seq<usize>| coeff_of(tp@, m, P) == term_at(lt_x, m) by {
                        assert(coeff_of(tp@, m, lt_x.pval()) == term_at(lt_x, m));
                    }
                    assert forall|m: Seq<usize>|
                        coeff_of(r2@, m, P) == fadd(
                        P as int,
                        coeff_of(rold, m, P),
                        coeff_of(tp@, m, P),
                    ) by {
                        assert(coeff_of(r2@, m, joint_p(rold, tp@)) == fadd(
                            joint_p(rold, tp@) as int,
                            coeff_of(rold, m, joint_p(rold, tp@)),
                            coeff_of(tp@, m, joint_p(rold, tp@)),
                        ));
                    }
                    assert forall|m: Seq<usize>|
                        coeff_of(x2@, m, P) == fsub(
                        P as int,
                        coeff_of(xold, m, P),
                        coeff_of(tp@, m, P),
                    ) by {
                        assert(coeff_of(x2@, m, joint_p(xold, tp@)) == fsub(
                            joint_p(xold, tp@) as int,
                            coeff_of(xold, m, joint_p(xold, tp@)),
                            coeff_of(tp@, m, joint_p(xold, tp@)),
                        ));
                    }
                    assert(desc_sorted(r2@) && no_zero_coeffs(r2@)) by {
                        if r2@.len() > 0 {
                            assert(r2@[0].wf(pval_of(r2@)));
                        }
                    }
                    assert forall|k: int|
                        0 <= k < r2@.len() implies (#[trigger] r2@[k]).cval() < P by {
                        assert(r2@[k].wf(P));
                    }
                    assert forall|k: int|
                        0 <= k < x2@.len() implies (#[trigger] x2@[k]).cval() < P by {
                        assert(x2@[k].wf(P));
                    }
                    assert forall|k: int|
                        0 <= k < xold.len() implies (#[trigger] xold[k]).cval() < P by {
                        assert(xold[k].wf(P));
                    }
                    assert(!mono_subtractable(bseq[0].mono(), ltxm));
                    lemma_div_step_remainder(
                        aseq,
                        bseq,
                        qold,
                        rold,
                        r2@,
                        xold,
                        x2@,
                        tp@,
                        lt_x,
                        P,
                        L,
                        ltxm,
                    );
                    // the update is one reduction step of the trace
                    assert(poly_wf(x2@, P)) by {
                        if x2@.len() > 0 {
                            assert(x2@[0].wf(pval_of(x2@)));
                        }
                    }
                    assert forall|m: Seq<usize>|
                        #[trigger] coeff_of(x2@, m, P) == fsub(
                        P as int,
                        coeff_of(xold, m, P),
                        term_at(xold[0], m),
                    ) by {
                        assert(term_at(lt_x, m) == term_at(xold[0], m));
                    }
                    assert(div_step(xold, x2@, bseq, P));
                    let trold = tr;
                    tr = tr.push(x2@);
                    assert(div_trace(tr, aseq, bseq, P)) by {
                        assert(tr.drop_last() =~= trold);
                        assert(tr[tr.len() - 2] == xold && tr.last() == x2@);
                    }
                }
                r = r2;
                x = x2;
            }
        }
        proof {
            assert forall|m: Seq<usize>|
                coeff_of(aseq, m, P) == fadd(
                P as int,
                conv(q@, bseq, m, P),
                coeff_of(r@, m, P),
            ) by {
                assert(coeff_of(x@, m, P) == 0);
                lemma_coeff_of_bound(r@, m, P);
                lemma_fadd_zero(P as int, coeff_of(r@, m, P));
            }
            assert(reduction_completes(aseq, bseq, P)) by {
                assert(div_trace(tr, aseq, bseq, P) && tr.last().len() == 0);
            }
        }
        Ok((q, r))
    }

    /// Reduction against an ordered list of divisors: expresses the dividend
    /// as `q_1 f_1 + ... + q_s f_s + r` where no term of `r` is divisible by
    /// the leading term of any divisor.  Divisors are always tried in the
    /// given order and the first whose leading term divides wins, so the
    /// outcome depends on that order; each step of the run is a
    /// [`multi_step`], which fixes that selection rule.  Fails on a zero
    /// divisor, a divisor with a non-invertible leading coefficient, or an
    /// exponent overflow; the overflow error comes only when the reduction
    /// of these operands genuinely leaves the machine word, so on every
    /// other well-formed input with usable divisors the reduction succeeds.
    #[verifier::rlimit(100)]
    pub fn multi_division_reminder(&self, divisors: &Vec<Self>) -> (res: Result<
        (Vec<Self>, Self),
        MathError,
    >)
        requires
            self.wf(),
            forall|i: int| 0 <= i < divisors@.len() ==> (#[trigger] divisors@[i]).wf(),
            forall|i: int|
                0 <= i < divisors@.len() && (#[trigger] divisors@[i])@.len() > 0 ==> pval_of(
                    divisors@[i]@,
                ) == family_p(self@, divisors@),
            self@.len() > 0 ==> pval_of(self@) == family_p(self@, divisors@),
        ensures
            match res {
                Ok(qr) => {
                    &&& qr.0@.len() == divisors@.len()
                    &&& forall|i: int| 0 <= i < divisors@.len() ==> (#[trigger] divisors@[i])@.len()
                        > 0
                    &&& forall|i: int|
                        0 <= i < qr.0@.len() ==> (#[trigger] qr.0@[i]).wf() && (qr.0@[i]@.len() > 0
                            ==> qr.0@[i].pval() == family_p(self@, divisors@))
                    &&& qr.1.wf()
                    &&& qr.1@.len() > 0 ==> qr.1.pval() == family_p(self@, divisors@)
                    &&& family_p(self@, divisors@) >= 2 ==> forall|m: Seq<usize>|
                        coeff_of(self@, m, family_p(self@, divisors@)) == fadd(
                            family_p(self@, divisors@) as int,
                            sum_conv(qr.0@, divisors@, m, family_p(self@, divisors@)),
                            coeff_of(qr.1@, m, family_p(self@, divisors@)),
                        )
                    &&& forall|k: int, j: int|
                        0 <= k < qr.1@.len() && 0 <= j < divisors@.len() ==> !mono_subtractable(
                            (#[trigger] divisors@[j])@[0].mono(),
                            (#[trigger] qr.1@[k]).mono(),
                        )
                    &&& family_p(self@, divisors@) >= 2 ==> reduction_outcome(
                        self@,
                        divisors@,
                        qr.0@,
                        qr.1@,
                        family_p(self@, divisors@),
                    )
                },
                Err(e) => {
                    &&& (e == MathError::DivisionByZero <==> exists|i: int|
                        0 <= i < divisors@.len() && (#[trigger] divisors@[i])@.len() == 0)
                    &&& (e == MathError::NotInvertible <==> ((forall|i: int|
                        0 <= i < divisors@.len() ==> (#[trigger] divisors@[i])@.len() > 0)
                        && exists|i: int|
                        0 <= i < divisors@.len() && gcd(
                            (#[trigger] divisors@[i])@[0].cval(),
                            family_p(self@, divisors@),
                        ) != 1))
                    &&& (e == MathError::ExponentOverflow ==> multi_reaches_overflow(
                        self@,
                        divisors@,
                        family_p(self@, divisors@),
                    ))
                    &&& (e == MathError::DivisionByZero || e == MathError::NotInvertible || e
                        == MathError::ExponentOverflow)
                },
            },
    {
        let ghost fs = divisors@;
        let ghost P = family_p(self.terms@, divisors@);
        let s = divisors.len();
        // every divisor must be nonzero
        let mut i: usize = 0;
        while i < s
            invariant
                s == fs.len(),
                fs == divisors@,
                i <= s,
                forall|ii: int| 0 <= ii < i ==> (#[trigger] fs[ii])@.len() > 0,
            decreases s - i,
        {
            if divisors[i].terms.len() == 0 {
                return Err(MathError::DivisionByZero);
            }
            i = i + 1;
        }
        // every leading coefficient must be invertible
        let mut i: usize = 0;
        while i < s
            invariant
                s == fs.len(),
                fs == divisors@,
                self.wf(),
                P == family_p(self.terms@, fs),
                forall|ii: int| 0 <= ii < s ==> (#[trigger] fs[ii])@.len() > 0,
                forall|ii: int| 0 <= ii < s ==> (#[trigger] fs[ii]).wf(),
                forall|ii: int|
                    0 <= ii < s && (#[trigger] fs[ii])@.len() > 0 ==> pval_of(fs[ii]@) == P,
                i <= s,
                forall|ii: int|
                    0 <= ii < i ==> gcd((#[trigger] fs[ii])@[0].cval(), P) == 1,
            decreases s - i,
        {
            proof {
                assert(fs[i as int]@[0].wf(P));
            }
            match divisors[i].terms[0].coeff.inverse() {
                Ok(_) => {},
                Err(_) => {
                    return Err(MathError::NotInvertible);
                },
            }
            i = i + 1;
        }
        let mut quotients: Vec<MultivariatePoly> = Vec::new();
        let mut i: usize = 0;
        while i < s
            invariant
                i <= s,
                quotients@.len() == i,
                forall|ii: int| 0 <= ii < i ==> (#[trigger] quotients@[ii])@.len() == 0,
            decreases s - i,
        {
            quotients.push(MultivariatePoly { terms: Vec::new() });
            i = i + 1;
        }
        let mut r = MultivariatePoly { terms: Vec::new() };
        let x0 = MultivariatePoly { terms: Vec::new() };
        let mut x = self.add(&x0);
        let ghost aseq = self.terms@;
        let ghost L: int = if max_mono_len(aseq) >= max_len_polys(fs) {
            max_mono_len(aseq)
        } else {
            max_len_polys(fs)
        };
        proof {
            lemma_within_max(aseq);
            lemma_within_polys(fs);
            lemma_within_mono(aseq, max_mono_len(aseq), L);
            if aseq.len() > 0 {
                assert(aseq[0].wf(P));
            }
            if P >= 1 {
                vstd::arithmetic::div_mod::lemma_small_mod(0nat, P);
            }
            assert forall|m: Seq<usize>| coeff_of(x@, m, P) == coeff_of(aseq, m, P) by {
                if aseq.len() > 0 {
                    assert(joint_p(aseq, x0@) == P);
                    lemma_coeff_of_bound(aseq, m, P);
                    lemma_fadd_zero(P as int, coeff_of(aseq, m, P));
                } else {
                    assert(x@.len() == 0);
                }
            }
            assert(within_terms(x@, L)) by {
                if aseq.len() > 0 {
                    lemma_within_sum(x@, aseq, aseq, P, L);
                } else {
                    assert(x@.len() == 0);
                }
            }
            if P >= 2 {
                assert forall|m: Seq<usize>|
                    coeff_of(aseq, m, P) == fadd(
                    P as int,
                    sum_conv(quotients@, fs, m, P),
                    fadd(P as int, coeff_of(r@, m, P), coeff_of(x@, m, P)),
                ) by {
                    lemma_sum_conv_zero(quotients@, fs, m, P);
                    lemma_coeff_of_bound(x@, m, P);
                    lemma_fadd_zero(P as int, coeff_of(x@, m, P));
                    lemma_fadd_bound(P as int, 0, coeff_of(x@, m, P));
                    lemma_fadd_zero(P as int, fadd(P as int, 0, coeff_of(x@, m, P)));
                }
            }
        }
        let ghost mut tr: Seq<Seq<Terms>> = seq![x@];
        proof {
            if P >= 2 {
                assert(poly_wf(x@, P)) by {
                    if x@.len() > 0 {
                        assert(x@[0].wf(pval_of(x@)));
                    }
                }
                assert(tr[0] == x@ && tr.len() == 1);
                assert(multi_trace(tr, aseq, fs, P));
                assert(outcome_matches(tr, fs, quotients@, r@, P)) by {
                    assert forall|i: int, m: Seq<usize>|
                        0 <= i < quotients@.len() implies #[trigger] coeff_of(
                        quotients@[i]@,
                        m,
                        P,
                    ) == trace_q(tr, fs, i, m, P) by {
                        assert(quotients@[i]@.len() == 0);
                        assert(trace_q(tr, fs, i, m, P) == 0);
                    }
                    assert forall|m: Seq<usize>|
                        #[trigger] coeff_of(r@, m, P) == trace_r(tr, fs, m, P) by {
                        assert(r@.len() == 0);
                        assert(trace_r(tr, fs, m, P) == 0);
                    }
                }
            }
        }
        while !(x.terms.len() == 0)
            invariant
                aseq == self.terms@,
                fs == divisors@,
                self.wf(),
                s == fs.len(),
                P == family_p(aseq, fs),
                P >= 2 || s == 0,
                aseq.len() > 0 ==> P >= 2,
                x@.len() > 0 ==> P >= 2,
                forall|ii: int| 0 <= ii < s ==> (#[trigger] fs[ii])@.len() > 0,
                forall|ii: int| 0 <= ii < s ==> (#[trigger] fs[ii]).wf(),
                forall|ii: int| 0 <= ii < s ==> pval_of((#[trigger] fs[ii])@) == P,
                forall|ii: int|
                    0 <= ii < s ==> within_terms((#[trigger] fs[ii])@, L),
                forall|ii: int|
                    0 <= ii < s ==> gcd((#[trigger] fs[ii])@[0].cval(), P) == 1,
                quotients@.len() == s,
                forall|ii: int|
                    0 <= ii < s ==> (#[trigger] quotients@[ii]).wf() && (quotients@[ii]@.len() > 0
                        ==> pval_of(quotients@[ii]@) == P),
                r.wf(),
                x.wf(),
                r@.len() > 0 ==> pval_of(r@) == P,
                x@.len() > 0 ==> pval_of(x@) == P,
                within_terms(x@, L),
                within_terms(r@, L),
                P >= 2 ==> forall|m: Seq<usize>|
                    coeff_of(aseq, m, P) == fadd(
                        P as int,
                        sum_conv(quotients@, fs, m, P),
                        fadd(P as int, coeff_of(r@, m, P), coeff_of(x@, m, P)),
                    ),
                forall|k: int, j: int|
                    0 <= k < r@.len() && 0 <= j < s ==> !mono_subtractable(
                        (#[trigger] fs[j])@[0].mono(),
                        (#[trigger] r@[k]).mono(),
                    ),
                tr.len() >= 1,
                tr.last() == x@,
                P >= 2 ==> multi_trace(tr, aseq, fs, P),
                P >= 2 ==> outcome_matches(tr, fs, quotients@, r@, P),
            decreases poly_rank(x@, L),
        {
            let ghost xold = x@;
            let ghost qsold = quotients@;
            let ghost rold = r@;
            let ghost ltxm = x@[0].mono();
            proof {
                assert(x@[0].wf(P));
            }
            let lt_x = x.terms[0].clone();
            // scan the divisors in order; the first whose leading term
            // divides the working lead wins
            let mut sel: usize = s;
            let mut i: usize = 0;
            while i < s
                invariant
                    s == fs.len(),
                    fs == divisors@,
                    i <= s,
                    forall|ii: int| 0 <= ii < s ==> (#[trigger] fs[ii])@.len() > 0,
                    forall|ii: int| 0 <= ii < s ==> (#[trigger] fs[ii]).wf(),
                    lt_x.mono() == ltxm,
                    lt_x.multi_index.wf(),
                    sel <= s,
                    sel == s ==> forall|ii: int|
                        0 <= ii < i ==> !mono_subtractable(
                            (#[trigger] fs[ii])@[0].mono(),
                            ltxm,
                        ),
                    sel < s ==> sel < i && mono_subtractable(fs[sel as int]@[0].mono(), ltxm)
                        && (forall|ii: int|
                        0 <= ii < sel ==> !mono_subtractable(
                            (#[trigger] fs[ii])@[0].mono(),
                            ltxm,
                        )),
                decreases s - i,
            {
                if sel == s {
                    proof {
                        assert(fs[i as int]@[0].wf(pval_of(fs[i as int]@)));
                    }
                    let lt_f = divisors[i].terms[0].clone();
                    if lt_x.is_divisible_by(&lt_f) {
                        sel = i;
                    }
                }
                i = i + 1;
            }
            proof {
                // the scan found exactly the first applicable divisor
                lemma_first_divisor_pin(fs, ltxm, sel as int, 0);
                assert(first_divisor(fs, ltxm) == sel as int);
            }
            if sel < s {
                proof {
                    assert(fs[sel as int]@[0].wf(P));
                }
                let lt_f = divisors[sel].terms[0].clone();
                let t = match lt_x.div(&lt_f) {
                    Ok(t) => t,
                    Err(e) => {
                        // unreachable: divisibility was checked, and the
                        // leading coefficient was inverted up front
                        proof {
                            assert(false);
                        }
                        return Err(MathError::NotInvertible);
                    },
                };
                proof {
                    lemma_cancel_coeff(P, lt_x.cval(), lt_f.cval(), t.cval());
                }
                if !Self::fits_against(&t, &divisors[sel]) {
                    proof {
                        // the failing check exhibits a pair whose exponent
                        // sum leaves the machine word
                        let si = sel as int;
                        let (kb, i) = choose|kb: int, i: int|
                            0 <= kb < fs[si]@.len() && #[trigger] exp_at(t.mono(), i)
                                + #[trigger] exp_at(fs[si]@[kb].mono(), i) > usize::MAX;
                        assert(exp_at(mono_minus(ltxm, fs[si]@[0].mono()), i) == exp_at(
                            t.mono(),
                            i,
                        )) by {
                            assert(exp_at(lt_x.mono(), i) == exp_at(lt_f.mono(), i) + exp_at(
                                t.mono(),
                                i,
                            ));
                        }
                        assert(exp_at(mono_minus(ltxm, fs[si]@[0].mono()), i) + exp_at(
                            fs[si]@[kb].mono(),
                            i,
                        ) > usize::MAX);
                        assert(multi_step_overflows(xold, fs));
                        assert(multi_reaches_overflow(aseq, fs, P)) by {
                            assert(multi_trace(tr, aseq, fs, P) && multi_step_overflows(
                                tr.last(),
                                fs,
                            ));
                        }
                    }
                    return Err(MathError::ExponentOverflow);
                }
                let tp = Self::single(&t);
                proof {
                    assert forall|ka: int, kb: int, ii: int|
                        0 <= ka < tp@.len() && 0 <= kb < fs[sel as int]@.len()
                        implies #[trigger] exp_at(tp@[ka].mono(), ii) + #[trigger] exp_at(
                        fs[sel as int]@[kb].mono(),
                        ii,
                    ) <= usize::MAX by {
                        assert(tp@[ka].mono() == t.mono());
                        assert(exp_at(t.mono(), ii) + exp_at(fs[sel as int]@[kb].mono(), ii)
                            <= usize::MAX);
                    }
                }
                let delta = tp.mul(&divisors[sel]);
                let qnew = quotients[sel].add(&tp);
                quotients.set(sel, qnew);
                let x2 = x.sub(&delta);
                proof {
                    let si = sel as int;
                    let qs1 = quotients@;
                    assert(t.pval() == P);
                    assert(tp@.len() == 1 && pval_of(tp@) == P);
                    assert(joint_p(qsold[si]@, tp@) == P);
                    assert(joint_p(tp@, fs[si]@) == P);
                    assert(joint_p(xold, delta@) == P);
                    assert(qs1[si]@ == qnew@);
                    assert forall|mu: Seq<usize>|
                        coeff_of(qs1[si]@, mu, P) == fadd(
                        P as int,
                        coeff_of(qsold[si]@, mu, P),
                        coeff_of(tp@, mu, P),
                    ) by {
                        assert(coeff_of(qnew@, mu, joint_p(qsold[si]@, tp@)) == fadd(
                            joint_p(qsold[si]@, tp@) as int,
                            coeff_of(qsold[si]@, mu, joint_p(qsold[si]@, tp@)),
                            coeff_of(tp@, mu, joint_p(qsold[si]@, tp@)),
                        ));
                    }
                    assert forall|m: Seq<usize>|
                        coeff_of(delta@, m, P) == conv(tp@, fs[si]@, m, P) by {
                        assert(coeff_of(delta@, m, joint_p(tp@, fs[si]@)) == conv(
                            tp@,
                            fs[si]@,
                            m,
                            joint_p(tp@, fs[si]@),
                        ));
                    }
                    assert forall|m: Seq<usize>|
                        coeff_of(x2@, m, P) == fsub(
                        P as int,
                        coeff_of(xold, m, P),
                        coeff_of(delta@, m, P),
                    ) by {
                        assert(coeff_of(x2@, m, joint_p(xold, delta@)) == fsub(
                            joint_p(xold, delta@) as int,
                            coeff_of(xold, m, joint_p(xold, delta@)),
                            coeff_of(delta@, m, joint_p(xold, delta@)),
                        ));
                    }
                    assert forall|k: int|
                        0 <= k < delta@.len() implies (#[trigger] delta@[k]).cval() < P by {
                        assert(delta@[k].wf(P));
                    }
                    assert forall|k: int|
                        0 <= k < x2@.len() implies (#[trigger] x2@[k]).cval() < P by {
                        assert(x2@[k].wf(P));
                    }
                    assert forall|k: int|
                        0 <= k < xold.len() implies (#[trigger] xold[k]).cval() < P by {
                        assert(xold[k].wf(P));
                    }
                    assert forall|k: int|
                        0 <= k < fs[si]@.len() implies (#[trigger] fs[si]@[k]).cval() < P by {
                        assert(fs[si]@[k].wf(P));
                    }
                    assert forall|ii: int|
                        #[trigger] exp_at(ltxm, ii) == exp_at(fs[si]@[0].mono(), ii) + exp_at(
                        t.mono(),
                        ii,
                    ) by {
                        assert(exp_at(lt_x.mono(), ii) == exp_at(lt_f.mono(), ii) + exp_at(
                            t.mono(),
                            ii,
                        ));
                    }
                    lemma_multi_step_divisible(
                        aseq,
                        fs,
                        qsold,
                        qs1,
                        si,
                        rold,
                        xold,
                        x2@,
                        tp@,
                        delta@,
                        t,
                        P,
                        L,
                        ltxm,
                    );
                    // the update is one reduction step of the trace
                    let tm = mono_minus(ltxm, fs[si]@[0].mono());
                    assert forall|ii: int| #[trigger] exp_at(tm, ii) == exp_at(t.mono(), ii) by {
                        assert(exp_at(lt_x.mono(), ii) == exp_at(lt_f.mono(), ii) + exp_at(
                            t.mono(),
                            ii,
                        ));
                    }
                    assert(!multi_step_overflows(xold, fs)) by {
                        if multi_step_overflows(xold, fs) {
                            let (kb, ii) = choose|kb: int, ii: int|
                                0 <= kb < fs[si]@.len() && exp_at(
                                    mono_minus(xold[0].mono(), fs[si]@[0].mono()),
                                    ii,
                                ) + #[trigger] exp_at(fs[si]@[kb].mono(), ii) > usize::MAX;
                            assert(exp_at(t.mono(), ii) + exp_at(fs[si]@[kb].mono(), ii)
                                <= usize::MAX);
                        }
                    }
                    assert(poly_wf(x2@, P)) by {
                        if x2@.len() > 0 {
                            assert(x2@[0].wf(pval_of(x2@)));
                        }
                    }
                    assert forall|m: Seq<usize>|
                        #[trigger] coeff_of(x2@, m, P) == fsub(
                        P as int,
                        coeff_of(xold, m, P),
                        scaled_at(fs[si]@, t.cval() as int, tm, m, P),
                    ) by {
                        lemma_conv_empty_left(fs[si]@, m, P);
                        assert(tp@.drop_last() =~= Seq::<Terms>::empty());
                        lemma_conv_push(tp@.drop_last(), tp@, fs[si]@, m, P);
                        lemma_rowpart_bound(tp@.last(), fs[si]@, m, P);
                        lemma_fadd_zero(P as int, rowpart(tp@.last(), fs[si]@, m, P));
                        lemma_rowpart_scaled(tp@.last(), fs[si]@, m, P);
                        assert(tp@.last().cval() == t.cval() && tp@.last().mono() == t.mono());
                        assert(scaled_at(fs[si]@, t.cval() as int, t.mono(), m, P) == scaled_at(
                            fs[si]@,
                            t.cval() as int,
                            tm,
                            m,
                            P,
                        )) by {
                            assert(mono_subtractable(t.mono(), m) == mono_subtractable(tm, m))
                                by {
                                if mono_subtractable(t.mono(), m) {
                                    assert(forall|ii: int|
                                        exp_at(tm, ii) <= exp_at(m, ii));
                                }
                                if mono_subtractable(tm, m) {
                                    assert(forall|ii: int|
                                        exp_at(t.mono(), ii) <= exp_at(m, ii));
                                }
                            }
                            if mono_subtractable(tm, m) {
                                assert(mono_minus(m, t.mono()) =~= mono_minus(m, tm));
                            }
                        }
                    }
                    assert(multi_step(xold, x2@, fs, P)) by {
                        let tc = t.cval() as int;
                        assert(0 <= tc < P && fmul(P as int, tc, fs[si]@[0].cval() as int)
                            == xold[0].cval() && forall|m: Seq<usize>|
                            #[trigger] coeff_of(x2@, m, P) == fsub(
                                P as int,
                                coeff_of(xold, m, P),
                                scaled_at(
                                    fs[si]@,
                                    tc,
                                    mono_minus(xold[0].mono(), fs[si]@[0].mono()),
                                    m,
                                    P,
                                ),
                            ));
                    }
                    let trold = tr;
                    tr = tr.push(x2@);
                    assert(multi_trace(tr, aseq, fs, P)) by {
                        assert(tr.drop_last() =~= trold);
                        assert(tr[tr.len() - 2] == xold && tr.last() == x2@);
                    }
                    // the accumulated outcome gains exactly this step's term
                    assert(step_tc(xold, fs[si]@, P) == t.cval()) by {
                        assert(exists|tc: int|
                            0 <= tc < P && fmul(P as int, tc, fs[si]@[0].cval() as int)
                                == xold[0].cval()) by {
                            assert(0 <= t.cval() < P && fmul(
                                P as int,
                                t.cval() as int,
                                fs[si]@[0].cval() as int,
                            ) == xold[0].cval());
                        }
                        let iv = choose|iv: int|
                            0 <= iv < lt_x.pval() && fmul(
                                lt_x.pval() as int,
                                lt_f.cval() as int,
                                iv,
                            ) == 1 && t.cval() == fmul(
                                lt_x.pval() as int,
                                lt_x.cval() as int,
                                iv,
                            );
                        lemma_tc_unique(
                            P,
                            fs[si]@[0].cval() as int,
                            xold[0].cval() as int,
                            step_tc(xold, fs[si]@, P),
                            t.cval() as int,
                            iv,
                        );
                    }
                    assert(outcome_matches(tr, fs, quotients@, r@, P)) by {
                        assert(tr.drop_last() =~= trold);
                        assert(first_divisor(fs, xold[0].mono()) == si);
                        assert forall|i: int, m: Seq<usize>|
                            0 <= i < quotients@.len() implies #[trigger] coeff_of(
                            quotients@[i]@,
                            m,
                            P,
                        ) == trace_q(tr, fs, i, m, P) by {
                            lemma_trace_bounds(trold, fs, i, m, P);
                            assert(coeff_of(qsold[i]@, m, P) == trace_q(trold, fs, i, m, P));
                            if i == si {
                                assert(coeff_of(quotients@[i]@, m, P) == fadd(
                                    P as int,
                                    coeff_of(qsold[i]@, m, P),
                                    coeff_of(tp@, m, P),
                                ));
                                assert(coeff_of(tp@, m, P) == term_at(t, m));
                                assert(mono_eq(t.mono(), m) == mono_eq(
                                    mono_minus(xold[0].mono(), fs[si]@[0].mono()),
                                    m,
                                )) by {
                                    let tm = mono_minus(xold[0].mono(), fs[si]@[0].mono());
                                    if mono_eq(t.mono(), m) {
                                        assert(forall|ii: int|
                                            exp_at(tm, ii) == exp_at(m, ii));
                                    }
                                    if mono_eq(tm, m) {
                                        assert(forall|ii: int|
                                            exp_at(t.mono(), ii) == exp_at(m, ii));
                                    }
                                }
                                lemma_fadd_zero(P as int, trace_q(trold, fs, i, m, P));
                            } else {
                                assert(quotients@[i] == qsold[i]);
                                lemma_fadd_zero(P as int, trace_q(trold, fs, i, m, P));
                            }
                        }
                        assert forall|m: Seq<usize>|
                            #[trigger] coeff_of(r@, m, P) == trace_r(tr, fs, m, P) by {
                            lemma_trace_bounds(trold, fs, 0, m, P);
                            assert(coeff_of(r@, m, P) == trace_r(trold, fs, m, P));
                            lemma_fadd_zero(P as int, trace_r(trold, fs, m, P));
                        }
                    }
                }
                x = x2;
            } else {
                let tp = Self::single(&lt_x);
                let r2 = r.add(&tp);
                let x2 = x.sub(&tp);
                proof {
                    assert(sel == s);
                    assert(forall|j: int|
                        0 <= j < fs.len() ==> !mono_subtractable(
                            (#[trigger] fs[j])@[0].mono(),
                            ltxm,
                        ));
                    assert(lt_x.cval() == xold[0].cval() && xold[0].cval() != 0);
                    assert(lt_x.pval() == P);
                    assert(tp@.len() == 1 && pval_of(tp@) == P);
                    assert(joint_p(rold, tp@) == P);
                    assert(joint_p(xold, tp@) == P);
                    assert forall|m: Seq<usize>| coeff_of(tp@, m, P) == term_at(lt_x, m) by {
                        assert(coeff_of(tp@, m, lt_x.pval()) == term_at(lt_x, m));
                    }
                    assert forall|m: Seq<usize>|
                        coeff_of(r2@, m, P) == fadd(
                        P as int,
                        coeff_of(rold, m, P),
                        coeff_of(tp@, m, P),
                    ) by {
                        assert(coeff_of(r2@, m, joint_p(rold, tp@)) == fadd(
                            joint_p(rold, tp@) as int,
                            coeff_of(rold, m, joint_p(rold, tp@)),
                            coeff_of(tp@, m, joint_p(rold, tp@)),
                        ));
                    }
                    assert forall|m: Seq<usize>|
                        coeff_of(x2@, m, P) == fsub(
                        P as int,
                        coeff_of(xold, m, P),
                        coeff_of(tp@, m, P),
                    ) by {
                        assert(coeff_of(x2@, m, joint_p(xold, tp@)) == fsub(
                            joint_p(xold, tp@) as int,
                            coeff_of(xold, m, joint_p(xold, tp@)),
                            coeff_of(tp@, m, joint_p(xold, tp@)),
                        ));
                    }
                    assert(desc_sorted(r2@) && no_zero_coeffs(r2@)) by {
                        if r2@.len() > 0 {
                            assert(r2@[0].wf(pval_of(r2@)));
                        }
                    }
                    assert forall|k: int|
                        0 <= k < r2@.len() implies (#[trigger] r2@[k]).cval() < P by {
                        assert(r2@[k].wf(P));
                    }
                    assert forall|k: int|
                        0 <= k < x2@.len() implies (#[trigger] x2@[k]).cval() < P by {
                        assert(x2@[k].wf(P));
                    }
                    assert forall|k: int|
                        0 <= k < xold.len() implies (#[trigger] xold[k]).cval() < P by {
                        assert(xold[k].wf(P));
                    }
                    lemma_multi_step_remainder(
                        aseq,
                        fs,
                        qsold,
                        rold,
                        r2@,
                        xold,
                        x2@,
                        tp@,
                        lt_x,
                        P,
                        L,
                        ltxm,
                    );
                    // the update is one reduction step of the trace
                    assert(poly_wf(x2@, P)) by {
                        if x2@.len() > 0 {
                            assert(x2@[0].wf(pval_of(x2@)));
                        }
                    }
                    assert forall|m: Seq<usize>|
                        #[trigger] coeff_of(x2@, m, P) == fsub(
                        P as int,
                        coeff_of(xold, m, P),
                        term_at(xold[0], m),
                    ) by {
                        assert(term_at(lt_x, m) == term_at(xold[0], m));
                    }
                    assert(multi_step(xold, x2@, fs, P));
                    let trold = tr;
                    tr = tr.push(x2@);
                    assert(multi_trace(tr, aseq, fs, P)) by {
                        assert(tr.drop_last() =~= trold);
                        assert(tr[tr.len() - 2] == xold && tr.last() == x2@);
                    }
                    // the accumulated outcome gains exactly this leading term
                    assert(outcome_matches(tr, fs, quotients@, r2@, P)) by {
                        assert(tr.drop_last() =~= trold);
                        assert(first_divisor(fs, xold[0].mono()) == s as int);
                        assert forall|i: int, m: Seq<usize>|
                            0 <= i < quotients@.len() implies #[trigger] coeff_of(
                            quotients@[i]@,
                            m,
                            P,
                        ) == trace_q(tr, fs, i, m, P) by {
                            lemma_trace_bounds(trold, fs, i, m, P);
                            assert(coeff_of(quotients@[i]@, m, P) == trace_q(trold, fs, i, m, P));
                            lemma_fadd_zero(P as int, trace_q(trold, fs, i, m, P));
                        }
                        assert forall|m: Seq<usize>|
                            #[trigger] coeff_of(r2@, m, P) == trace_r(tr, fs, m, P) by {
                            lemma_trace_bounds(trold, fs, 0, m, P);
                            assert(coeff_of(rold, m, P) == trace_r(trold, fs, m, P));
                            assert(coeff_of(r2@, m, P) == fadd(
                                P as int,
                                coeff_of(rold, m, P),
                                coeff_of(tp@, m, P),
                            ));
                            assert(coeff_of(tp@, m, P) == term_at(lt_x, m));
                            assert(term_at(lt_x, m) == term_at(xold[0], m));
                        }
                    }
                }
                r = r2;
                x = x2;
            }
        }
        proof {
            if P >= 2 {
                assert forall|m: Seq<usize>|
                    coeff_of(aseq, m, P) == fadd(
                    P as int,
                    sum_conv(quotients@, fs, m, P),
                    coeff_of(r@, m, P),
                ) by {
                    assert(coeff_of(x@, m, P) == 0);
                    lemma_coeff_of_bound(r@, m, P);
                    lemma_fadd_zero(P as int, coeff_of(r@, m, P));
                }
                assert(reduction_outcome(aseq, fs, quotients@, r@, P)) by {
                    assert(multi_trace(tr, aseq, fs, P) && tr.last().len() == 0
                        && outcome_matches(tr, fs, quotients@, r@, P));
                }
            }
        }
        Ok((quotients, r))
    }

    /// Sum of two polynomials of a common field, by merging the two sorted
    /// term sequences; at every monomial the coefficients add.
    pub fn add(&self, rhs: &Self) -> (r: Self)
        requires
            self.wf(),
            rhs.wf(),
            compat(self@, rhs@),
        ensures
            r.wf(),
            r@.len() > 0 ==> r.pval() == joint_p(self@, rhs@),
            self@.len() + rhs@.len() > 0 ==> forall|m: Seq<usize>|
                coeff_of(r@, m, joint_p(self@, rhs@)) == fadd(
                    joint_p(self@, rhs@) as int,
                    coeff_of(self@, m, joint_p(self@, rhs@)),
                    coeff_of(rhs@, m, joint_p(self@, rhs@)),
                ),
            self@.len() == 0 && rhs@.len() == 0 ==> r@.len() == 0,
    {
        let ghost aseq = self.terms@;
        let ghost bseq = rhs.terms@;
        let ghost P = joint_p(aseq, bseq);
        proof {
            if aseq.len() > 0 || bseq.len() > 0 {
                assert(P >= 2);
                vstd::arithmetic::div_mod::lemma_small_mod(0nat, P);
                assert(aseq.take(0) =~= Seq::<Terms>::empty());
                assert(bseq.take(0) =~= Seq::<Terms>::empty());
            }
        }
        let mut out: Vec<Terms> = Vec::new();
        let mut i: usize = 0;
        let mut j: usize = 0;
        let alen = self.terms.len();
        let blen = rhs.terms.len();
        while i < alen || j < blen
            invariant
                aseq == self.terms@,
                bseq == rhs.terms@,
                alen == aseq.len(),
                blen == bseq.len(),
                poly_ok(aseq),
                poly_ok(bseq),
                compat(aseq, bseq),
                P == joint_p(aseq, bseq),
                i <= alen,
                j <= blen,
                alen + blen > 0 ==> P >= 2,
                wf_terms(out@, P),
                desc_sorted(out@),
                no_zero_coeffs(out@),
                out@.len() > 0 && i < alen ==> mono_lt(aseq[i as int].mono(), out@.last().mono()),
                out@.len() > 0 && j < blen ==> mono_lt(bseq[j as int].mono(), out@.last().mono()),
                alen + blen > 0 ==> forall|m: Seq<usize>|
                    coeff_of(out@, m, P) == fadd(
                        P as int,
                        coeff_of(aseq.take(i as int), m, P),
                        coeff_of(bseq.take(j as int), m, P),
                    ),
            decreases (alen - i) + (blen - j),
        {
            let ghost out0 = out@;
            let ghost ta = aseq.take(i as int);
            let ghost tb = bseq.take(j as int);
            let take_a = if i < alen && j < blen {
                if rhs.terms[j].multi_index.lt(&self.terms[i].multi_index) {
                    1u8
                } else if self.terms[i].multi_index.lt(&rhs.terms[j].multi_index) {
                    2u8
                } else {
                    3u8
                }
            } else if i < alen {
                1u8
            } else {
                2u8
            };
            if take_a == 1 {
                // the left term has the strictly larger monomial
                let t = self.terms[i].clone();
                proof {
                    assert(aseq[i as int].wf(P));
                }
                out.push(t);
                i = i + 1;
                proof {
                    let ti = i as int;
                    assert(out@.drop_last() =~= out0);
                    assert(aseq.take(ti).drop_last() =~= ta);
                    assert(aseq.take(ti).last() == aseq[ti - 1]);
                    lemma_merge_push_left(out0, out@, ta, aseq.take(ti), tb, P);
                    // order bookkeeping
                    assert forall|k: int|
                        0 <= k < out@.len() - 1 implies mono_lt(
                        (#[trigger] out@[k + 1]).mono(),
                        out@[k].mono(),
                    ) by {
                        if k < out0.len() - 1 {
                            assert(out@[k] == out0[k] && out@[k + 1] == out0[k + 1]);
                        } else {
                            assert(out@[k] == out0.last());
                            assert(out@[k + 1].mono() == aseq[ti - 1].mono());
                        }
                    }
                    if ti < alen {
                        assert(mono_lt(aseq[ti].mono(), aseq[ti - 1].mono()));
                    }
                }
            } else if take_a == 2 {
                let t = rhs.terms[j].clone();
                proof {
                    assert(bseq[j as int].wf(P));
                }
                out.push(t);
                j = j + 1;
                proof {
                    let tj = j as int;
                    assert(out@.drop_last() =~= out0);
                    assert(bseq.take(tj).drop_last() =~= tb);
                    assert(bseq.take(tj).last() == bseq[tj - 1]);
                    lemma_merge_push_right(out0, out@, ta, tb, bseq.take(tj), P);
                    assert forall|k: int|
                        0 <= k < out@.len() - 1 implies mono_lt(
                        (#[trigger] out@[k + 1]).mono(),
                        out@[k].mono(),
                    ) by {
                        if k < out0.len() - 1 {
                            assert(out@[k] == out0[k] && out@[k + 1] == out0[k + 1]);
                        } else {
                            assert(out@[k] == out0.last());
                            assert(out@[k + 1].mono() == bseq[tj - 1].mono());
                        }
                    }
                    if tj < blen {
                        assert(mono_lt(bseq[tj].mono(), bseq[tj - 1].mono()));
                    }
                }
            } else {
                // equal monomials: the coefficients are summed
                proof {
                    lemma_mono_trichotomy(aseq[i as int].mono(), bseq[j as int].mono());
                    assert(mono_eq(aseq[i as int].mono(), bseq[j as int].mono()));
                    assert(aseq[i as int].wf(P));
                    assert(bseq[j as int].wf(P));
                }
                let c = self.terms[i].coeff.add(&rhs.terms[j].coeff);
                let pushed = !c.is_zero();
                if pushed {
                    let t = Terms { coeff: c, multi_index: self.terms[i].multi_index.clone() };
                    out.push(t);
                }
                i = i + 1;
                j = j + 1;
                proof {
                    let ti = i as int;
                    let tj = j as int;
                    let at = aseq[ti - 1];
                    let bt = bseq[tj - 1];
                    assert(aseq.take(ti).drop_last() =~= ta);
                    assert(aseq.take(ti).last() == at);
                    assert(bseq.take(tj).drop_last() =~= tb);
                    assert(bseq.take(tj).last() == bt);
                    if pushed {
                        assert(out@.drop_last() =~= out0);
                        assert(out@.last().cval() == fadd(P as int, at.cval() as int,
                            bt.cval() as int));
                        assert(out@.last().mono() == at.mono());
                    }
                    lemma_merge_tie(
                        out0,
                        out@,
                        ta,
                        aseq.take(ti),
                        tb,
                        bseq.take(tj),
                        P,
                        pushed,
                    );
                    // order bookkeeping
                    if pushed {
                        assert forall|k: int|
                            0 <= k < out@.len() - 1 implies mono_lt(
                            (#[trigger] out@[k + 1]).mono(),
                            out@[k].mono(),
                        ) by {
                            if k < out0.len() - 1 {
                                assert(out@[k] == out0[k] && out@[k + 1] == out0[k + 1]);
                            } else {
                                assert(out@[k] == out0.last());
                                assert(out@[k + 1].mono() == at.mono());
                            }
                        }
                    }
                    if ti < alen {
                        assert(mono_lt(aseq[ti].mono(), at.mono()));
                    }
                    if tj < blen {
                        assert(mono_lt(bseq[tj].mono(), bt.mono()));
                        lemma_mono_lt_eq_right(bseq[tj].mono(), bt.mono(), at.mono());
                        assert(mono_eq(bt.mono(), at.mono())) by {
                            assert(forall|ii: int|
                                exp_at(bt.mono(), ii) == exp_at(at.mono(), ii));
                        }
                        assert(mono_lt(bseq[tj].mono(), at.mono()));
                    }
                    if !pushed && out0.len() > 0 {
                        if ti < alen {
                            lemma_mono_lt_trans(aseq[ti].mono(), at.mono(), out0.last().mono());
                        }
                        if tj < blen {
                            lemma_mono_lt_trans(bseq[tj].mono(), at.mono(), out0.last().mono());
                        }
                    }
                }
            }
        }
        proof {
            assert(aseq.take(i as int) =~= aseq);
            assert(bseq.take(j as int) =~= bseq);
            if out@.len() > 0 {
                assert(out@[0].wf(P));
            }
        }
        MultivariatePoly { terms: out }
    }
}

/// One merge step that copies a term from the left operand keeps the
/// pointwise sum invariant.
proof fn lemma_merge_push_left(
    out0: Seq<Terms>,
    out1: Seq<Terms>,
    ta0: Seq<Terms>,
    ta1: Seq<Terms>,
    tb: Seq<Terms>,
    p: nat,
)
    requires
        p >= 1,
        out1.len() == out0.len() + 1,
        out1.drop_last() == out0,
        ta1.len() == ta0.len() + 1,
        ta1.drop_last() == ta0,
        out1.last().cval() == ta1.last().cval(),
        out1.last().mono() == ta1.last().mono(),
        forall|m: Seq<usize>|
            coeff_of(out0, m, p) == fadd(p as int, coeff_of(ta0, m, p), coeff_of(tb, m, p)),
    ensures
        forall|m: Seq<usize>|
            coeff_of(out1, m, p) == fadd(p as int, coeff_of(ta1, m, p), coeff_of(tb, m, p)),
{
    assert forall|m: Seq<usize>|
        coeff_of(out1, m, p) == fadd(
        p as int,
        coeff_of(ta1, m, p),
        coeff_of(tb, m, p),
    ) by {
        let ca = coeff_of(ta0, m, p);
        let cb = coeff_of(tb, m, p);
        let t = term_at(ta1.last(), m);
        assert(term_at(out1.last(), m) == t);
        assert(coeff_of(out0, m, p) == fadd(p as int, ca, cb));
        assert(coeff_of(out1, m, p) == fadd(
            p as int,
            coeff_of(out1.drop_last(), m, p),
            term_at(out1.last(), m),
        ));
        assert(coeff_of(out1, m, p) == fadd(p as int, fadd(p as int, ca, cb), t));
        assert(coeff_of(ta1, m, p) == fadd(
            p as int,
            coeff_of(ta1.drop_last(), m, p),
            term_at(ta1.last(), m),
        ));
        assert(coeff_of(ta1, m, p) == fadd(p as int, ca, t));
        lemma_fadd_assoc(p as int, ca, cb, t);
        lemma_fadd_assoc(p as int, ca, t, cb);
    }
}

/// One merge step that copies a term from the right operand keeps the
/// pointwise sum invariant.
proof fn lemma_merge_push_right(
    out0: Seq<Terms>,
    out1: Seq<Terms>,
    ta: Seq<Terms>,
    tb0: Seq<Terms>,
    tb1: Seq<Terms>,
    p: nat,
)
    requires
        p >= 1,
        out1.len() == out0.len() + 1,
        out1.drop_last() == out0,
        tb1.len() == tb0.len() + 1,
        tb1.drop_last() == tb0,
        out1.last().cval() == tb1.last().cval(),
        out1.last().mono() == tb1.last().mono(),
        forall|m: Seq<usize>|
            coeff_of(out0, m, p) == fadd(p as int, coeff_of(ta, m, p), coeff_of(tb0, m, p)),
    ensures
        forall|m: Seq<usize>|
            coeff_of(out1, m, p) == fadd(p as int, coeff_of(ta, m, p), coeff_of(tb1, m, p)),
{
    assert forall|m: Seq<usize>|
        coeff_of(out1, m, p) == fadd(
        p as int,
        coeff_of(ta, m, p),
        coeff_of(tb1, m, p),
    ) by {
        let ca = coeff_of(ta, m, p);
        let cb = coeff_of(tb0, m, p);
        let t = term_at(tb1.last(), m);
        assert(term_at(out1.last(), m) == t);
        assert(coeff_of(out0, m, p) == fadd(p as int, ca, cb));
        assert(coeff_of(out1, m, p) == fadd(
            p as int,
            coeff_of(out1.drop_last(), m, p),
            term_at(out1.last(), m),
        ));
        assert(coeff_of(out1, m, p) == fadd(p as int, fadd(p as int, ca, cb), t));
        assert(coeff_of(tb1, m, p) == fadd(
            p as int,
            coeff_of(tb1.drop_last(), m, p),
            term_at(tb1.last(), m),
        ));
        assert(coeff_of(tb1, m, p) == fadd(p as int, cb, t));
        lemma_fadd_assoc(p as int, ca, cb, t);
        lemma_fadd_assoc(p as int, ca, fadd(p as int, cb, t), 0);
        lemma_fadd_bound(p as int, cb, t);
        lemma_fadd_bound(p as int, ca, fadd(p as int, cb, t));
        lemma_fadd_zero(p as int, fadd(p as int, ca, fadd(p as int, cb, t)));
    }
}

/// One merge step on equal monomials keeps the pointwise sum invariant,
/// whether or not the summed coefficient was nonzero and pushed.
proof fn lemma_merge_tie(
    out0: Seq<Terms>,
    out1: Seq<Terms>,
    ta0: Seq<Terms>,
    ta1: Seq<Terms>,
    tb0: Seq<Terms>,
    tb1: Seq<Terms>,
    p: nat,
    pushed: bool,
)
    requires
        p >= 1,
        ta1.len() == ta0.len() + 1,
        ta1.drop_last() == ta0,
        tb1.len() == tb0.len() + 1,
        tb1.drop_last() == tb0,
        mono_eq(ta1.last().mono(), tb1.last().mono()),
        ta1.last().cval() < p,
        tb1.last().cval() < p,
        pushed ==> out1.len() == out0.len() + 1 && out1.drop_last() == out0 && out1.last().cval()
            == fadd(p as int, ta1.last().cval() as int, tb1.last().cval() as int)
            && out1.last().mono() == ta1.last().mono(),
        !pushed ==> out1 == out0 && fadd(p as int, ta1.last().cval() as int,
            tb1.last().cval() as int) == 0,
        forall|m: Seq<usize>|
            coeff_of(out0, m, p) == fadd(p as int, coeff_of(ta0, m, p), coeff_of(tb0, m, p)),
    ensures
        forall|m: Seq<usize>|
            coeff_of(out1, m, p) == fadd(p as int, coeff_of(ta1, m, p), coeff_of(tb1, m, p)),
{
    assert forall|m: Seq<usize>|
        coeff_of(out1, m, p) == fadd(
        p as int,
        coeff_of(ta1, m, p),
        coeff_of(tb1, m, p),
    ) by {
        let ca = coeff_of(ta0, m, p);
        let cb = coeff_of(tb0, m, p);
        let at = term_at(ta1.last(), m);
        let bt = term_at(tb1.last(), m);
        let sc = fadd(p as int, ta1.last().cval() as int, tb1.last().cval() as int);
        assert(coeff_of(ta1, m, p) == fadd(p as int, ca, at));
        assert(coeff_of(tb1, m, p) == fadd(p as int, cb, bt));
        lemma_coeff_of_bound(out0, m, p);
        if mono_eq(ta1.last().mono(), m) {
            assert(mono_eq(tb1.last().mono(), m)) by {
                assert(forall|ii: int|
                    exp_at(tb1.last().mono(), ii) == exp_at(ta1.last().mono(), ii));
            }
            assert(at == ta1.last().cval() && bt == tb1.last().cval());
            crate::intmod::lemma_fadd4(p as int, ca, at, cb, bt);
            assert(fadd(p as int, fadd(p as int, ca, at), fadd(p as int, cb, bt)) == fadd(
                p as int,
                fadd(p as int, ca, cb),
                fadd(p as int, at, bt),
            ));
            if pushed {
                assert(term_at(out1.last(), m) == sc);
                assert(coeff_of(out1, m, p) == fadd(p as int, coeff_of(out0, m, p), sc));
            } else {
                assert(sc == 0);
                lemma_fadd_zero(p as int, coeff_of(out0, m, p));
            }
        } else {
            assert(!mono_eq(tb1.last().mono(), m)) by {
                if mono_eq(tb1.last().mono(), m) {
                    assert(forall|ii: int|
                        exp_at(ta1.last().mono(), ii) == exp_at(m, ii));
                }
            }
            assert(at == 0 && bt == 0);
            lemma_coeff_of_bound(ta0, m, p);
            lemma_coeff_of_bound(tb0, m, p);
            lemma_fadd_zero(p as int, ca);
            lemma_fadd_zero(p as int, cb);
            if pushed {
                assert(!mono_eq(out1.last().mono(), m));
                assert(term_at(out1.last(), m) == 0);
                lemma_fadd_zero(p as int, coeff_of(out0, m, p));
            }
        }
    }
}

/// Order is preserved when the right side is replaced by an equal monomial.
pub proof fn lemma_mono_lt_eq_right(x: Seq<usize>, y: Seq<usize>, z: Seq<usize>)
    requires
        mono_lt(x, y),
    ensures
        mono_eq(y, z) ==> mono_lt(x, z),
        mono_eq(x, z) ==> mono_lt(z, y),
{
    let i = choose|i: int|
        {
            &&& 0 <= i
            &&& exp_at(x, i) < exp_at(y, i)
            &&& forall|j: int| 0 <= j < i ==> exp_at(x, j) == exp_at(y, j)
        };
    if mono_eq(y, z) {
        assert(exp_at(x, i) < exp_at(z, i));
        assert(forall|j: int| 0 <= j < i ==> exp_at(x, j) == exp_at(z, j));
    }
    if mono_eq(x, z) {
        assert(exp_at(z, i) < exp_at(y, i));
        assert(forall|j: int| 0 <= j < i ==> exp_at(z, j) == exp_at(y, j));
    }
}

} // verus!
