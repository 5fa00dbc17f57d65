//! Terms of multivariate polynomials: a coefficient paired with a monomial.

use vstd::prelude::*;
use crate::intmod::{Mod, MathError, fadd, fmul, fneg, gcd, mod_render};
use crate::bignat::{nat_from_u64, nat_to_decimal, spec_decimal};
use vstd::string::StringExecFns;
use crate::multiindex::{
    MultiIndex, exp_at, mono_eq, mono_is_zero, mono_subtractable, mono_sum_is, mono_weight,
    mono_canon,
};

verus! {

/// A coefficient from a prime field times a monomial.
#[derive(Debug, PartialEq, Eq)]
pub struct Terms {
    pub coeff: Mod,
    pub multi_index: MultiIndex,
}

impl Clone for Terms {
    /// A clone denotes the same term of the same field.
    fn clone(&self) -> (r: Self)
        ensures
            r.cval() == self.cval(),
            r.pval() == self.pval(),
            r.mono() == self.mono(),
            r.wf(self.pval()) == self.wf(self.pval()),
    {
        Terms { coeff: self.coeff.clone(), multi_index: self.multi_index.clone() }
    }
}

impl Terms {
    /// The coefficient's value.
    pub open spec fn cval(&self) -> nat {
        self.coeff.val()
    }

    /// The modulus of the coefficient's field.
    pub open spec fn pval(&self) -> nat {
        self.coeff.pval()
    }

    /// The exponent vector of the monomial.
    pub open spec fn mono(&self) -> Seq<usize> {
        self.multi_index@
    }

    /// Well-formed over modulus `p`: a reduced coefficient of that field and
    /// a canonical monomial.
    pub open spec fn wf(&self, p: nat) -> bool {
        &&& self.coeff.wf()
        &&& self.pval() == p
        &&& self.multi_index.wf()
    }

    /// Build a term: the coefficient is stored as given, the multi-index
    /// is trimmed into its canonical form; one already canonical is kept
    /// exactly.
    pub fn new(coeff: Mod, multi_index: MultiIndex) -> (r: Self)
        requires
            coeff.wf(),
        ensures
            r.wf(coeff.pval()),
            r.cval() == coeff.val(),
            mono_eq(r.mono(), multi_index@),
            multi_index.wf() ==> r.mono() == multi_index@,
    {
        let mi = MultiIndex::new(&multi_index.exponents);
        Terms { coeff, multi_index: mi }
    }

    /// Whether the monomial is constant (all exponents zero).
    pub fn is_constant(&self) -> (r: bool)
        requires
            self.multi_index.wf(),
        ensures
            r == mono_is_zero(self.mono()),
    {
        self.multi_index.is_zero()
    }

    /// Total degree of the monomial.
    pub fn total_degree(&self) -> (r: usize)
        requires
            mono_weight(self.mono()) <= usize::MAX,
        ensures
            r == mono_weight(self.mono()),
    {
        self.multi_index.weight()
    }

    /// The zero term of this term's field: zero coefficient, constant monomial.
    pub fn zero(&self) -> (r: Self)
        requires
            self.coeff.wf(),
        ensures
            r.wf(self.pval()),
            r.cval() == 0,
            mono_is_zero(r.mono()),
    {
        Terms { coeff: self.coeff.zero(), multi_index: MultiIndex::zero() }
    }

    /// Whether this term is zero: its coefficient is the field's zero.
    pub fn is_zero(&self) -> (r: bool)
        requires
            self.coeff.wf(),
        ensures
            r == (self.cval() == 0),
    {
        self.coeff.is_zero()
    }

    /// Whether `self` is divisible by `rhs`: after zero-padding, every
    /// exponent of `rhs` is at most the corresponding exponent of `self`.
    pub fn is_divisible_by(&self, rhs: &Self) -> (r: bool)
        requires
            self.multi_index.wf(),
            rhs.multi_index.wf(),
        ensures
            r == mono_subtractable(rhs.mono(), self.mono()),
    {
        rhs.multi_index.is_subtractable_by(&self.multi_index)
    }

    /// How many variables occur with a nonzero exponent.
    pub fn number_of_variables(&self) -> (r: usize)
        ensures
            r == count_nonzero(self.mono()),
    {
        let n = self.multi_index.exponents.len();
        let mut count: usize = 0;
        let mut k: usize = 0;
        while k < n
            invariant
                k <= n,
                n == self.mono().len(),
                count == count_nonzero(self.mono().take(k as int)),
                count <= k,
            decreases n - k,
        {
            proof {
                assert(self.mono().take(k + 1).drop_last() =~= self.mono().take(k as int));
                assert(self.mono().take(k + 1).last() == self.mono()[k as int]);
            }
            if self.multi_index.exponents[k] != 0 {
                count = count + 1;
            }
            k = k + 1;
        }
        proof {
            assert(self.mono().take(n as int) =~= self.mono());
        }
        count
    }

    /// The textual form of this term.
    pub fn print_terms(&self) -> (r: String)
        requires
            self.wf(self.pval()),
        ensures
            r@ == term_render(self.cval(), self.pval(), self.mono()),
    {
        let mut s = self.coeff.to_string();
        if self.is_constant() || self.is_zero() {
            return s;
        }
        let n = self.multi_index.exponents.len();
        s.append("*");
        let mut first: bool = true;
        let mut k: usize = 0;
        proof {
            assert(s@ =~= mod_render(self.cval(), self.pval()) + "*"@);
        }
        while k < n
            invariant
                self.wf(self.pval()),
                n == self.mono().len(),
                k <= n,
                s@ + vars_render(self.mono(), k as int, first) == mod_render(
                    self.cval(),
                    self.pval(),
                ) + "*"@ + vars_render(self.mono(), 0, true),
            decreases n - k,
        {
            let e = self.multi_index.exponents[k];
            if e != 0 {
                let ghost s0 = s@;
                let ghost first0 = first;
                if !first {
                    s.append("*");
                }
                let iv = nat_from_u64(k as u64);
                s.append("x_");
                s.append(nat_to_decimal(&iv).as_str());
                if e != 1 {
                    let ev = nat_from_u64(e as u64);
                    s.append("^");
                    s.append(nat_to_decimal(&ev).as_str());
                }
                first = false;
                proof {
                    let vr = var_render(k as nat, e as nat);
                    let tail = vars_render(self.mono(), k + 1, false);
                    if first0 {
                        assert(s@ =~= s0 + vr);
                        assert(vars_render(self.mono(), k as int, first0) == vr + tail);
                        assert(s0 + (vr + tail) =~= (s0 + vr) + tail);
                    } else {
                        assert(s@ =~= s0 + ("*"@ + vr));
                        assert(vars_render(self.mono(), k as int, first0) == "*"@ + vr
                            + tail);
                        assert(s0 + ("*"@ + vr + tail) =~= (s0 + ("*"@ + vr)) + tail);
                        assert("*"@ + vr + tail =~= ("*"@ + vr) + tail);
                    }
                }
            }
            k = k + 1;
        }
        proof {
            assert(vars_render(self.mono(), n as int, first) =~= Seq::<char>::empty());
            assert(s@ =~= s@ + vars_render(self.mono(), n as int, first));
        }
        s
    }

    /// Additive inverse: the coefficient is negated, the monomial kept.
    pub fn neg(&self) -> (r: Self)
        requires
            self.wf(self.pval()),
        ensures
            r.wf(self.pval()),
            r.cval() == fneg(self.pval() as int, self.cval() as int),
            r.mono() == self.mono(),
    {
        Terms { coeff: self.coeff.neg(), multi_index: self.multi_index.clone() }
    }

    /// Sum of two terms of the same monomial (or with a zero side, which is
    /// the identity): coefficients add, the monomial is kept.
    pub fn add(&self, rhs: &Self) -> (r: Self)
        requires
            self.wf(self.pval()),
            rhs.wf(self.pval()),
            mono_eq(self.mono(), rhs.mono()) || self.cval() == 0 || rhs.cval() == 0,
        ensures
            r.wf(self.pval()),
            r.cval() == fadd(self.pval() as int, self.cval() as int, rhs.cval() as int),
            mono_eq(self.mono(), rhs.mono()) ==> r.mono() == self.mono(),
            self.cval() == 0 && !mono_eq(self.mono(), rhs.mono()) ==> r.mono() == rhs.mono(),
            rhs.cval() != 0 || mono_eq(self.mono(), rhs.mono()) || self.cval() == 0 || r.mono()
                == self.mono(),
    {
        if self.coeff.is_zero() && !self.multi_index.eq_mono(&rhs.multi_index) {
            let c = self.coeff.add(&rhs.coeff);
            Terms { coeff: c, multi_index: rhs.multi_index.clone() }
        } else {
            let c = self.coeff.add(&rhs.coeff);
            Terms { coeff: c, multi_index: self.multi_index.clone() }
        }
    }

    /// Product of two terms: coefficients multiply, exponents add.
    pub fn mul(&self, rhs: &Self) -> (r: Self)
        requires
            self.wf(self.pval()),
            rhs.wf(self.pval()),
            forall|i: int| exp_at(self.mono(), i) + exp_at(rhs.mono(), i) <= usize::MAX,
        ensures
            r.wf(self.pval()),
            r.cval() == fmul(self.pval() as int, self.cval() as int, rhs.cval() as int),
            mono_sum_is(self.mono(), rhs.mono(), r.mono()),
    {
        let coeff = self.coeff.mul(&rhs.coeff);
        proof {
            assert forall|i: int|
                exp_at(self.multi_index@, i) + exp_at(rhs.multi_index@, i) <= usize::MAX by {
                assert(exp_at(self.mono(), i) + exp_at(rhs.mono(), i) <= usize::MAX);
            }
        }
        let multi_index = self.multi_index.add(&rhs.multi_index);
        Terms { coeff, multi_index }
    }

    /// Quotient of two terms.  Fails with `NotDivisible` when the exponents
    /// do not permit subtraction, and with `DivisionByZero` or
    /// `NotInvertible` when the divisor's coefficient has no inverse.
    pub fn div(&self, rhs: &Self) -> (r: Result<Self, MathError>)
        requires
            self.wf(self.pval()),
            rhs.wf(self.pval()),
        ensures
            match r {
                Ok(t) => {
                    &&& t.wf(self.pval())
                    &&& mono_subtractable(rhs.mono(), self.mono())
                    &&& mono_sum_is(rhs.mono(), t.mono(), self.mono())
                    &&& gcd(rhs.cval(), self.pval()) == 1
                    &&& exists|i: int|
                        0 <= i < self.pval() && fmul(self.pval() as int, rhs.cval() as int, i)
                            == 1 && t.cval() == fmul(self.pval() as int, self.cval() as int, i)
                },
                Err(e) => {
                    &&& (e == MathError::NotDivisible <==> !mono_subtractable(
                        rhs.mono(),
                        self.mono(),
                    ))
                    &&& (e == MathError::DivisionByZero ==> rhs.cval() == 0)
                    &&& (e == MathError::NotInvertible ==> gcd(rhs.cval(), self.pval()) != 1)
                    &&& (e == MathError::NotDivisible || e == MathError::DivisionByZero || e
                        == MathError::NotInvertible)
                },
            },
    {
        if !self.is_divisible_by(rhs) {
            return Err(MathError::NotDivisible);
        }
        match self.coeff.div(&rhs.coeff) {
            Ok(c) => {
                let m = self.multi_index.sub(&rhs.multi_index);
                let t = Terms { coeff: c, multi_index: m };
                proof {
                    let i = choose|i: int|
                        0 <= i < self.coeff.pval() && fmul(
                            self.coeff.pval() as int,
                            rhs.coeff.val() as int,
                            i,
                        ) == 1 && c.val() == fmul(
                            self.coeff.pval() as int,
                            self.coeff.val() as int,
                            i,
                        );
                    assert(0 <= i < self.pval() && fmul(self.pval() as int, rhs.cval() as int, i)
                        == 1 && t.cval() == fmul(self.pval() as int, self.cval() as int, i));
                }
                Ok(t)
            },
            Err(e) => Err(e),
        }
    }
}

/// The textual form of one variable factor: `x_i` for exponent one,
/// `x_i^e` otherwise.
pub open spec fn var_render(i: nat, e: nat) -> Seq<char> {
    if e == 1 {
        "x_"@ + spec_decimal(i)
    } else {
        "x_"@ + spec_decimal(i) + "^"@ + spec_decimal(e)
    }
}

/// The variable factors of an exponent vector from slot `i` on, joined by
/// `*`; zero exponents are omitted entirely.  `first` tells whether no
/// factor has been written yet.
pub open spec fn vars_render(s: Seq<usize>, i: int, first: bool) -> Seq<char>
    decreases s.len() - i,
{
    if i < 0 || i >= s.len() {
        Seq::empty()
    } else if s[i] == 0 {
        vars_render(s, i + 1, first)
    } else if first {
        var_render(i as nat, s[i] as nat) + vars_render(s, i + 1, false)
    } else {
        "*"@ + var_render(i as nat, s[i] as nat) + vars_render(s, i + 1, false)
    }
}

/// The textual form of a term: its coefficient, then each variable factor.
/// A constant or zero term shows only the coefficient.
pub open spec fn term_render(cv: nat, p: nat, m: Seq<usize>) -> Seq<char> {
    if mono_is_zero(m) || cv == 0 {
        mod_render(cv, p)
    } else {
        mod_render(cv, p) + "*"@ + vars_render(m, 0, true)
    }
}

/// How many slots of an exponent vector are nonzero.
pub open spec fn count_nonzero(s: Seq<usize>) -> nat
    decreases s.len(),
{
    if s.len() == 0 {
        0
    } else {
        count_nonzero(s.drop_last()) + if s.last() != 0 {
            1nat
        } else {
            0nat
        }
    }
}

} // verus!
