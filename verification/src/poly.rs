//! Univariate polynomials over a prime field.
//!
//! Coefficients are stored most significant first; the canonical form has no
//! leading zero except in the zero polynomial `[0]`.  Semantically a
//! polynomial is its coefficient function [`coeff_at`], from degree to
//! reduced coefficient; products are specified by the convolution
//! [`conv1`], the full double cross sum over degrees.

use vstd::prelude::*;
use vstd::arithmetic::div_mod::{lemma_small_mod, lemma_mod_self_0};
use vstd::string::StringExecFns;
use crate::bignat::{nat_from_u64, nat_to_decimal};
use crate::intmod::{Mod, MathError, fadd, fmul, fneg, fsub, gcd};
use crate::intmod::{
    lemma_fadd_bound, lemma_fadd_zero, lemma_fmul_basics, lemma_fmul_assoc,
    lemma_fsub_is_fadd_fneg,
};

verus! {

/// Every coefficient is a reduced element of the field with modulus `p`.
pub open spec fn coeffs_wf(s: Seq<Mod>, p: nat) -> bool {
    forall|k: int| 0 <= k < s.len() ==> (#[trigger] s[k]).wf() && s[k].pval() == p
}

/// Canonical storage: at least one coefficient, no leading zero unless the
/// polynomial is the single zero coefficient.
pub open spec fn poly_canon1(s: Seq<Mod>) -> bool {
    s.len() >= 1 && (s.len() == 1 || s[0].val() != 0)
}

/// The modulus of a coefficient sequence, zero if empty.
pub open spec fn ppval(s: Seq<Mod>) -> nat {
    if s.len() > 0 {
        s[0].pval()
    } else {
        0
    }
}

/// Canonical well-formed coefficient sequence.
pub open spec fn poly1_wf(s: Seq<Mod>) -> bool {
    &&& poly_canon1(s)
    &&& coeffs_wf(s, ppval(s))
    &&& ppval(s) >= 2
}

/// The coefficient standing at degree `d` (zero beyond the stored length).
pub open spec fn coeff_at(s: Seq<Mod>, d: int) -> int {
    if 0 <= d < s.len() {
        s[s.len() - 1 - d].val() as int
    } else {
        0
    }
}

/// The polynomial has no nonzero coefficient.
pub open spec fn all_zero(s: Seq<Mod>) -> bool {
    forall|d: int| coeff_at(s, d) == 0
}

/// Partial cross sum of coefficients: the contributions of the factors of
/// degree at least `lo` in the left operand.
pub open spec fn topcross(a: Seq<Mod>, b: Seq<Mod>, d: int, lo: int, p: nat) -> int
    decreases a.len() - lo,
{
    if lo >= a.len() || lo < 0 {
        0
    } else {
        fadd(
            p as int,
            topcross(a, b, d, lo + 1, p),
            fmul(p as int, coeff_at(a, lo), coeff_at(b, d - lo)),
        )
    }
}

/// The coefficient of the product at degree `d`: the full double cross sum.
pub open spec fn conv1(a: Seq<Mod>, b: Seq<Mod>, d: int, p: nat) -> int {
    topcross(a, b, d, 0, p)
}

/// Cross sums are always reduced.
pub proof fn lemma_topcross_bound(a: Seq<Mod>, b: Seq<Mod>, d: int, lo: int, p: nat)
    requires
        p >= 1,
    ensures
        0 <= topcross(a, b, d, lo, p) < p,
    decreases a.len() - lo,
{
    if lo >= a.len() || lo < 0 {
    } else {
        lemma_topcross_bound(a, b, d, lo + 1, p);
        lemma_fadd_bound(
            p as int,
            topcross(a, b, d, lo + 1, p),
            fmul(p as int, coeff_at(a, lo), coeff_at(b, d - lo)),
        );
    }
}

/// However far the recursion has gone, a cross sum splits off its first
/// column, reading zero columns past the stored length.
pub proof fn lemma_topcross_step(a: Seq<Mod>, b: Seq<Mod>, d: int, lo: int, p: nat)
    requires
        p >= 1,
        lo >= 0,
    ensures
        topcross(a, b, d, lo, p) == fadd(
            p as int,
            topcross(a, b, d, lo + 1, p),
            fmul(p as int, coeff_at(a, lo), coeff_at(b, d - lo)),
        ),
{
    if lo >= a.len() {
        lemma_fmul_basics(p as int, coeff_at(b, d - lo));
        lemma_small_mod(0nat, p);
    }
}

/// Cross sums depend on the left operand only through its coefficient
/// function.
pub proof fn lemma_topcross_congruent(
    a1: Seq<Mod>,
    a2: Seq<Mod>,
    b: Seq<Mod>,
    d: int,
    lo: int,
    p: nat,
)
    requires
        p >= 1,
        forall|k: int| coeff_at(a1, k) == coeff_at(a2, k),
        lo >= 0,
    ensures
        topcross(a1, b, d, lo, p) == topcross(a2, b, d, lo, p),
    decreases (if a1.len() >= a2.len() {
        a1.len()
    } else {
        a2.len()
    }) - lo,
{
    let n: int = if a1.len() >= a2.len() {
        a1.len() as int
    } else {
        a2.len() as int
    };
    if lo >= n {
    } else {
        lemma_topcross_congruent(a1, a2, b, d, lo + 1, p);
        lemma_topcross_step(a1, b, d, lo, p);
        lemma_topcross_step(a2, b, d, lo, p);
        assert(coeff_at(a1, lo) == coeff_at(a2, lo));
    }
}

/// Cross sums are additive in the left operand's coefficients.
pub proof fn lemma_topcross_linear(
    a1: Seq<Mod>,
    a2: Seq<Mod>,
    a3: Seq<Mod>,
    b: Seq<Mod>,
    d: int,
    lo: int,
    p: nat,
)
    requires
        p >= 1,
        forall|k: int|
            coeff_at(a1, k) == fadd(p as int, coeff_at(a2, k), coeff_at(a3, k)),
        lo >= 0,
    ensures
        topcross(a1, b, d, lo, p) == fadd(
            p as int,
            topcross(a2, b, d, lo, p),
            topcross(a3, b, d, lo, p),
        ),
    decreases (if a1.len() >= a2.len() && a1.len() >= a3.len() {
        a1.len()
    } else if a2.len() >= a3.len() {
        a2.len()
    } else {
        a3.len()
    }) - lo,
{
    let n: int = if a1.len() >= a2.len() && a1.len() >= a3.len() {
        a1.len() as int
    } else if a2.len() >= a3.len() {
        a2.len() as int
    } else {
        a3.len() as int
    };
    if lo >= n {
        lemma_small_mod(0nat, p);
    } else {
        lemma_topcross_linear(a1, a2, a3, b, d, lo + 1, p);
        lemma_topcross_step(a1, b, d, lo, p);
        lemma_topcross_step(a2, b, d, lo, p);
        lemma_topcross_step(a3, b, d, lo, p);
        let t2 = topcross(a2, b, d, lo + 1, p);
        let t3 = topcross(a3, b, d, lo + 1, p);
        let bc = coeff_at(b, d - lo);
        let c2 = fmul(p as int, coeff_at(a2, lo), bc);
        let c3 = fmul(p as int, coeff_at(a3, lo), bc);
        // distribute the column over the sum of coefficients
        crate::multivariatepoly::lemma_fmul_distr_right(
            p as int,
            coeff_at(a2, lo),
            coeff_at(a3, lo),
            bc,
        );
        assert(fmul(p as int, coeff_at(a1, lo), bc) == fadd(p as int, c2, c3)) by {
            assert(coeff_at(a1, lo) == fadd(p as int, coeff_at(a2, lo), coeff_at(a3, lo)));
        }
        crate::intmod::lemma_fadd4(p as int, t2, c2, t3, c3);
    }
}

/// A one-term left operand contributes a single scaled, shifted copy of the
/// right operand to the cross sum.
pub proof fn lemma_topcross_single(
    s: Seq<Mod>,
    b: Seq<Mod>,
    d: int,
    lo: int,
    sh: int,
    c: int,
    p: nat,
)
    requires
        p >= 1,
        0 <= lo,
        0 <= sh,
        forall|k: int| coeff_at(s, k) == if k == sh {
            c
        } else {
            0
        },
    ensures
        lo <= sh ==> topcross(s, b, d, lo, p) == fmul(p as int, c, coeff_at(b, d - sh)),
        lo > sh ==> topcross(s, b, d, lo, p) == 0,
    decreases s.len() - lo,
{
    let col = fmul(p as int, c, coeff_at(b, d - sh));
    lemma_fadd_bound(p as int, c, coeff_at(b, d - sh));
    if lo >= s.len() {
        assert(topcross(s, b, d, lo, p) == 0);
        if lo <= sh {
            // the single term would lie beyond the stored length: it is zero
            assert(coeff_at(s, sh) == 0);
            assert(c == 0);
            lemma_fmul_basics(p as int, coeff_at(b, d - sh));
        }
    } else {
        lemma_topcross_single(s, b, d, lo + 1, sh, c, p);
        lemma_topcross_step(s, b, d, lo, p);
        if lo == sh {
            lemma_fadd_zero(p as int, col);
        } else if lo < sh {
            assert(coeff_at(s, lo) == 0);
            lemma_fmul_basics(p as int, coeff_at(b, d - lo));
            lemma_fadd_zero(p as int, col);
        } else {
            assert(coeff_at(s, lo) == 0);
            lemma_fmul_basics(p as int, coeff_at(b, d - lo));
            lemma_small_mod(0nat, p);
        }
    }
}

/// Gluing identity for a division step: adding a quotient piece and taking
/// it away from the residual cancels.
pub proof fn lemma_div1_glue(p: int, q: int, t: int, x: int)
    requires
        p >= 1,
    ensures
        fadd(p, fadd(p, q, t), fsub(p, x, t)) == fadd(p, q, x),
{
    vstd::arithmetic::div_mod::lemma_add_mod_noop_right(q + t, x - t, p);
    vstd::arithmetic::div_mod::lemma_add_mod_noop(q + t, x - t, p);
    vstd::arithmetic::div_mod::lemma_add_mod_noop_right(q, x, p);
}

/// Termination measure of the univariate division loop.
pub open spec fn pmeasure(s: Seq<Mod>) -> nat {
    if all_zero(s) {
        2 * s.len()
    } else {
        2 * s.len() + 1
    }
}

/// The textual form of one monomial of a univariate polynomial: the
/// coefficient, and the variable with its degree where the degree is
/// positive.
pub open spec fn poly_part_render(cv: nat, p: nat, deg: int, x: Seq<char>) -> Seq<char> {
    if deg == 0 {
        crate::intmod::mod_render(cv, p)
    } else if deg == 1 {
        crate::intmod::mod_render(cv, p) + "*"@ + x
    } else {
        crate::intmod::mod_render(cv, p) + "*"@ + x + "^"@ + crate::bignat::spec_decimal(
            deg as nat,
        )
    }
}

/// The textual form of a coefficient sequence from index `i` on, the terms
/// joined by `+`; zero coefficients are omitted.  `first` tells whether no
/// term has been written yet.
pub open spec fn poly_render(s: Seq<Mod>, i: int, first: bool, x: Seq<char>) -> Seq<char>
    decreases s.len() - i,
{
    if i < 0 || i >= s.len() {
        Seq::empty()
    } else if s[i].val() == 0 {
        poly_render(s, i + 1, first, x)
    } else if first {
        poly_part_render(s[i].val(), s[i].pval(), s.len() - 1 - i, x) + poly_render(
            s,
            i + 1,
            false,
            x,
        )
    } else {
        "+"@ + poly_part_render(s[i].val(), s[i].pval(), s.len() - 1 - i, x) + poly_render(
            s,
            i + 1,
            false,
            x,
        )
    }
}

/// `q` witnesses that `d` divides `f` exactly: `f == q * d` at every degree.
pub open spec fn divides_exactly(d: Seq<Mod>, f: Seq<Mod>, q: Seq<Mod>, p: nat) -> bool {
    forall|k: int| #[trigger] coeff_at(f, k) == conv1(q, d, k, p)
}

/// A Bezout combination of two polynomials equal to the constant one.
pub open spec fn bezout_one(g: Seq<Mod>, h: Seq<Mod>, u: Seq<Mod>, v: Seq<Mod>, p: nat) -> bool {
    forall|d: int|
        #[trigger] fadd(p as int, conv1(g, u, d, p), conv1(v, h, d, p)) == if d == 0 {
            1int
        } else {
            0int
        }
}

/// A univariate polynomial: coefficients most significant first, in
/// canonical form (no leading zero except in the zero polynomial `[0]`).
#[derive(Debug, PartialEq, Eq)]
pub struct Poly {
    pub coeffs: Vec<Mod>,
}

impl View for Poly {
    type V = Seq<Mod>;

    open spec fn view(&self) -> Seq<Mod> {
        self.coeffs@
    }
}

impl Clone for Poly {
    /// A clone denotes the same polynomial over the same field.
    fn clone(&self) -> (r: Self)
        ensures
            r@.len() == self@.len(),
            forall|k: int|
                0 <= k < self@.len() ==> (#[trigger] r@[k]).val() == self@[k].val()
                    && r@[k].pval() == self@[k].pval() && r@[k].wf() == self@[k].wf(),
    {
        let coeffs = self.coeffs.clone();
        proof {
            assert forall|k: int|
                0 <= k < self@.len() implies (#[trigger] coeffs@[k]).val() == self@[k].val()
                && coeffs@[k].pval() == self@[k].pval() && coeffs@[k].wf() == self@[k].wf() by {
                assert(cloned::<Mod>(self.coeffs@[k], coeffs@[k]));
            }
        }
        Poly { coeffs }
    }
}

impl Poly {
    /// The modulus of this polynomial's field.
    pub open spec fn pval(&self) -> nat {
        ppval(self@)
    }

    /// Well-formed: canonical coefficients over one field.
    pub open spec fn wf(&self) -> bool {
        poly1_wf(self@)
    }

    /// Strip leading zero coefficients, keeping at least one coefficient.
    pub fn remove_zeros(vec: &Vec<Mod>) -> (r: Vec<Mod>)
        requires
            vec@.len() >= 1,
            forall|k: int| 0 <= k < vec@.len() ==> (#[trigger] vec@[k]).wf(),
        ensures
            poly_canon1(r@),
            r@.len() <= vec@.len(),
            forall|d: int| coeff_at(r@, d) == coeff_at(vec@, d),
            forall|k: int| 0 <= k < r@.len() ==> (#[trigger] r@[k]).wf() && r@[k].pval()
                == vec@[vec@.len() - r@.len() + k].pval(),
    {
        let n = vec.len();
        let mut start: usize = 0;
        while start < n - 1 && vec[start].is_zero()
            invariant
                n == vec@.len(),
                n >= 1,
                start <= n - 1,
                forall|k: int| 0 <= k < vec@.len() ==> (#[trigger] vec@[k]).wf(),
                forall|k: int| 0 <= k < start ==> (#[trigger] vec@[k]).val() == 0,
            decreases n - start,
        {
            start = start + 1;
        }
        let mut out: Vec<Mod> = Vec::new();
        let mut k: usize = start;
        while k < n
            invariant
                n == vec@.len(),
                start <= n,
                start <= k <= n,
                forall|j: int| 0 <= j < vec@.len() ==> (#[trigger] vec@[j]).wf(),
                out@.len() == k - start,
                forall|j: int|
                    0 <= j < out@.len() ==> (#[trigger] out@[j]).val() == vec@[start + j].val()
                        && out@[j].pval() == vec@[start + j].pval() && out@[j].wf(),
            decreases n - k,
        {
            proof {
                assert(vec@[k as int].wf());
            }
            out.push(vec[k].clone());
            k = k + 1;
        }
        proof {
            assert(out@.len() == n - start >= 1);
            assert forall|d: int| coeff_at(out@, d) == coeff_at(vec@, d) by {
                if 0 <= d < out@.len() {
                    assert(out@[out@.len() - 1 - d].val() == vec@[n - 1 - d].val());
                } else if out@.len() <= d < n {
                    assert(vec@[n - 1 - d].val() == 0);
                }
            }
        }
        out
    }

    /// Build a polynomial from raw coefficients, most significant first,
    /// canonicalizing by stripping leading zeros.
    pub fn new_from_coeffs(coeffs: &Vec<Mod>) -> (r: Self)
        requires
            coeffs@.len() >= 1,
            forall|k: int|
                0 <= k < coeffs@.len() ==> (#[trigger] coeffs@[k]).wf() && coeffs@[k].pval()
                    == coeffs@[0].pval(),
        ensures
            r.wf(),
            r.pval() == coeffs@[0].pval(),
            r@.len() <= coeffs@.len(),
            forall|d: int| coeff_at(r@, d) == coeff_at(coeffs@, d),
    {
        let v = Self::remove_zeros(coeffs);
        let r = Poly { coeffs: v };
        proof {
            assert(r@[0].wf());
        }
        r
    }

    /// Number of stored coefficients.
    pub fn len(&self) -> (r: usize)
        ensures
            r == self@.len(),
    {
        self.coeffs.len()
    }

    /// Degree: one less than the number of stored coefficients.
    pub fn deg(&self) -> (r: usize)
        requires
            self@.len() >= 1,
        ensures
            r == self@.len() - 1,
    {
        self.coeffs.len() - 1
    }

    /// Whether the polynomial is a constant.
    pub fn is_constant(&self) -> (r: bool)
        ensures
            r == (self@.len() == 1),
    {
        self.coeffs.len() == 1
    }

    /// Whether this is the zero polynomial.
    pub fn is_zero(&self) -> (r: bool)
        requires
            self.wf(),
        ensures
            r == all_zero(self@),
            r == (self@.len() == 1 && self@[0].val() == 0),
    {
        let r = self.coeffs.len() == 1 && self.coeffs[0].is_zero();
        proof {
            if r {
                assert(forall|d: int| coeff_at(self@, d) == 0);
            } else {
                if self@.len() == 1 {
                    assert(coeff_at(self@, 0) != 0);
                } else {
                    assert(coeff_at(self@, self@.len() - 1) != 0);
                }
            }
        }
        r
    }

    /// Whether this is the constant one.
    pub fn is_one(&self) -> (r: bool)
        requires
            self.wf(),
        ensures
            r == (self@.len() == 1 && self@[0].val() == 1),
    {
        self.coeffs.len() == 1 && self.coeffs[0].is_one()
    }

    /// The constant one of this polynomial's field.
    pub fn one(&self) -> (r: Self)
        requires
            self.wf(),
        ensures
            r.wf(),
            r.pval() == self.pval(),
            r@.len() == 1,
            coeff_at(r@, 0) == 1,
    {
        let mut v: Vec<Mod> = Vec::new();
        v.push(self.coeffs[0].one());
        Poly { coeffs: v }
    }

    /// The zero of this polynomial's field.
    pub fn zero(&self) -> (r: Self)
        requires
            self.wf(),
        ensures
            r.wf(),
            r.pval() == self.pval(),
            all_zero(r@),
            r@.len() == 1,
    {
        let mut v: Vec<Mod> = Vec::new();
        v.push(self.coeffs[0].zero());
        let r = Poly { coeffs: v };
        proof {
            assert(forall|d: int| coeff_at(r@, d) == 0);
        }
        r
    }

    /// The coefficient at degree `d`, as a field element.
    fn get_coeff(&self, d: usize) -> (r: Mod)
        requires
            self.wf(),
        ensures
            r.wf(),
            r.pval() == self.pval(),
            r.val() == coeff_at(self@, d as int),
    {
        if d < self.coeffs.len() {
            let idx = self.coeffs.len() - 1 - d;
            proof {
                assert(self@[idx as int].wf());
            }
            self.coeffs[idx].clone()
        } else {
            proof {
                assert(self@[0].wf());
            }
            self.coeffs[0].zero()
        }
    }

    /// The coefficients shifted up by `zero_to_add` leading zero slots.
    pub fn extend(&self, zero_to_add: usize) -> (r: Vec<Mod>)
        requires
            self.wf(),
            self@.len() + zero_to_add <= usize::MAX,
        ensures
            r@.len() == self@.len() + zero_to_add,
            forall|d: int| coeff_at(r@, d) == coeff_at(self@, d),
            forall|k: int| 0 <= k < r@.len() ==> (#[trigger] r@[k]).wf() && r@[k].pval()
                == self.pval(),
    {
        let mut v: Vec<Mod> = Vec::new();
        let mut k: usize = 0;
        proof {
            assert(self@[0].wf());
        }
        while k < zero_to_add
            invariant
                self.wf(),
                v@.len() == k,
                k <= zero_to_add,
                forall|j: int|
                    0 <= j < k ==> (#[trigger] v@[j]).wf() && v@[j].pval() == self.pval()
                        && v@[j].val() == 0,
            decreases zero_to_add - k,
        {
            v.push(self.coeffs[0].zero());
            k = k + 1;
        }
        let mut j: usize = 0;
        while j < self.coeffs.len()
            invariant
                self.wf(),
                self@.len() + zero_to_add <= usize::MAX,
                j <= self@.len(),
                v@.len() == zero_to_add + j,
                forall|jj: int|
                    0 <= jj < zero_to_add ==> (#[trigger] v@[jj]).wf() && v@[jj].pval()
                        == self.pval() && v@[jj].val() == 0,
                forall|jj: int|
                    0 <= jj < j ==> (#[trigger] v@[zero_to_add + jj]).val() == self@[jj].val()
                        && v@[zero_to_add + jj].pval() == self@[jj].pval() && v@[zero_to_add
                        + jj].wf(),
            decreases self@.len() - j,
        {
            proof {
                assert(self@[j as int].wf());
            }
            v.push(self.coeffs[j].clone());
            j = j + 1;
        }
        proof {
            assert forall|d: int| coeff_at(v@, d) == coeff_at(self@, d) by {
                if 0 <= d < self@.len() {
                    let jj = self@.len() - 1 - d;
                    assert(v@[zero_to_add + jj].val() == self@[jj].val());
                    assert(v@.len() - 1 - d == zero_to_add + jj);
                } else if self@.len() <= d < v@.len() {
                    assert(v@[v@.len() - 1 - d].val() == 0);
                }
            }
            assert forall|k2: int|
                0 <= k2 < v@.len() implies (#[trigger] v@[k2]).wf() && v@[k2].pval()
                == self.pval() by {
                if k2 >= zero_to_add {
                    let jj = k2 - zero_to_add;
                    assert(v@[zero_to_add + jj].pval() == self@[jj].pval() && v@[zero_to_add
                        + jj].wf());
                    assert(self@[jj].wf());
                    assert(zero_to_add + jj == k2);
                }
            }
        }
        v
    }

    /// Sum of two polynomials of a common field: coefficients add at every
    /// degree.
    pub fn add(&self, rhs: &Self) -> (r: Self)
        requires
            self.wf(),
            rhs.wf(),
            self.pval() == rhs.pval(),
        ensures
            r.wf(),
            r.pval() == self.pval(),
            r@.len() <= if self@.len() >= rhs@.len() {
                self@.len()
            } else {
                rhs@.len()
            },
            forall|d: int|
                coeff_at(r@, d) == fadd(self.pval() as int, coeff_at(self@, d), coeff_at(rhs@, d)),
    {
        let n = if self.coeffs.len() >= rhs.coeffs.len() {
            self.coeffs.len()
        } else {
            rhs.coeffs.len()
        };
        let mut v: Vec<Mod> = Vec::new();
        let mut k: usize = 0;
        while k < n
            invariant
                self.wf(),
                rhs.wf(),
                self.pval() == rhs.pval(),
                n >= self@.len(),
                n >= rhs@.len(),
                n == self@.len() || n == rhs@.len(),
                k <= n,
                v@.len() == k,
                forall|j: int|
                    0 <= j < k ==> (#[trigger] v@[j]).wf() && v@[j].pval() == self.pval()
                        && v@[j].val() == fadd(
                        self.pval() as int,
                        coeff_at(self@, n - 1 - j),
                        coeff_at(rhs@, n - 1 - j),
                    ),
            decreases n - k,
        {
            let d = n - 1 - k;
            let a = self.get_coeff(d);
            let b = rhs.get_coeff(d);
            v.push(a.add(&b));
            k = k + 1;
        }
        proof {
            assert(v@[0].wf() && v@[0].pval() == self.pval());
        }
        let r = Self::new_from_coeffs(&v);
        proof {
            assert forall|d: int|
                coeff_at(r@, d) == fadd(
                self.pval() as int,
                coeff_at(self@, d),
                coeff_at(rhs@, d),
            ) by {
                if 0 <= d < n {
                    assert(v@[n - 1 - d].val() == fadd(
                        self.pval() as int,
                        coeff_at(self@, d),
                        coeff_at(rhs@, d),
                    ));
                    assert(coeff_at(v@, d) == v@[n - 1 - d].val());
                } else {
                    lemma_small_mod(0nat, self.pval());
                }
            }
        }
        r
    }

    /// Additive inverse: every coefficient is negated.
    pub fn neg(&self) -> (r: Self)
        requires
            self.wf(),
        ensures
            r.wf(),
            r.pval() == self.pval(),
            r@.len() <= self@.len(),
            forall|d: int|
                coeff_at(r@, d) == fneg(self.pval() as int, coeff_at(self@, d)),
    {
        let n = self.coeffs.len();
        let mut v: Vec<Mod> = Vec::new();
        let mut k: usize = 0;
        while k < n
            invariant
                self.wf(),
                n == self@.len(),
                k <= n,
                v@.len() == k,
                forall|j: int|
                    0 <= j < k ==> (#[trigger] v@[j]).wf() && v@[j].pval() == self.pval()
                        && v@[j].val() == fneg(self.pval() as int, self@[j].val() as int),
            decreases n - k,
        {
            proof {
                assert(self@[k as int].wf());
            }
            v.push(self.coeffs[k].neg());
            k = k + 1;
        }
        let r = Self::new_from_coeffs(&v);
        proof {
            assert forall|d: int|
                coeff_at(r@, d) == fneg(self.pval() as int, coeff_at(self@, d)) by {
                if 0 <= d < n {
                    assert(v@[n - 1 - d].val() == fneg(
                        self.pval() as int,
                        self@[n - 1 - d].val() as int,
                    ));
                    assert(coeff_at(v@, d) == v@[n - 1 - d].val());
                } else {
                    lemma_mod_self_0(self.pval() as int);
                }
            }
        }
        r
    }

    /// Difference: the sum with the negated right operand.
    pub fn sub(&self, rhs: &Self) -> (r: Self)
        requires
            self.wf(),
            rhs.wf(),
            self.pval() == rhs.pval(),
        ensures
            r.wf(),
            r.pval() == self.pval(),
            r@.len() <= if self@.len() >= rhs@.len() {
                self@.len()
            } else {
                rhs@.len()
            },
            forall|d: int|
                coeff_at(r@, d) == fsub(self.pval() as int, coeff_at(self@, d), coeff_at(rhs@, d)),
    {
        let n = rhs.neg();
        let r = self.add(&n);
        proof {
            assert forall|d: int|
                coeff_at(r@, d) == fsub(
                self.pval() as int,
                coeff_at(self@, d),
                coeff_at(rhs@, d),
            ) by {
                lemma_fsub_is_fadd_fneg(self.pval() as int, coeff_at(self@, d), coeff_at(rhs@, d));
                assert(0 <= coeff_at(self@, d) < self.pval()) by {
                    if 0 <= d < self@.len() {
                        assert(self@[self@.len() - 1 - d].wf());
                    }
                }
                assert(0 <= coeff_at(rhs@, d) < self.pval()) by {
                    if 0 <= d < rhs@.len() {
                        assert(rhs@[rhs@.len() - 1 - d].wf());
                    }
                }
            }
        }
        r
    }

    /// Every coefficient scaled by a fixed field element.
    pub fn multiple(&self, alpha: &Mod) -> (r: Self)
        requires
            self.wf(),
            alpha.wf(),
            alpha.pval() == self.pval(),
        ensures
            r.wf(),
            r.pval() == self.pval(),
            forall|d: int|
                coeff_at(r@, d) == fmul(self.pval() as int, coeff_at(self@, d), alpha.val() as int),
    {
        let n = self.coeffs.len();
        let mut v: Vec<Mod> = Vec::new();
        let mut k: usize = 0;
        while k < n
            invariant
                self.wf(),
                alpha.wf(),
                alpha.pval() == self.pval(),
                n == self@.len(),
                k <= n,
                v@.len() == k,
                forall|j: int|
                    0 <= j < k ==> (#[trigger] v@[j]).wf() && v@[j].pval() == self.pval()
                        && v@[j].val() == fmul(
                        self.pval() as int,
                        self@[j].val() as int,
                        alpha.val() as int,
                    ),
            decreases n - k,
        {
            proof {
                assert(self@[k as int].wf());
            }
            v.push(self.coeffs[k].mul(alpha));
            k = k + 1;
        }
        let r = Self::new_from_coeffs(&v);
        proof {
            assert forall|d: int|
                coeff_at(r@, d) == fmul(
                self.pval() as int,
                coeff_at(self@, d),
                alpha.val() as int,
            ) by {
                if 0 <= d < n {
                    assert(coeff_at(v@, d) == v@[n - 1 - d].val());
                } else {
                    lemma_fmul_basics(self.pval() as int, alpha.val() as int);
                }
            }
        }
        r
    }

    /// The textual form of this polynomial, with `x` naming the variable.
    pub fn print_poly(&self, x: &str) -> (r: String)
        requires
            self.wf(),
        ensures
            r@ == poly_render(self@, 0, true, x@),
    {
        let n = self.coeffs.len();
        let mut s = String::from_str("");
        let mut first: bool = true;
        let mut k: usize = 0;
        proof {
            reveal_strlit("");
            assert(s@ =~= Seq::<char>::empty());
            assert(s@ + poly_render(self@, 0, true, x@) =~= poly_render(self@, 0, true, x@));
        }
        while k < n
            invariant
                self.wf(),
                n == self@.len(),
                k <= n,
                s@ + poly_render(self@, k as int, first, x@) == poly_render(self@, 0, true, x@),
            decreases n - k,
        {
            proof {
                assert(self@[k as int].wf());
            }
            if !self.coeffs[k].is_zero() {
                let ghost s0 = s@;
                let ghost first0 = first;
                if !first {
                    s.append("+");
                }
                let cs = self.coeffs[k].to_string();
                s.append(cs.as_str());
                let deg = n - 1 - k;
                if deg == 1 {
                    s.append("*");
                    s.append(x);
                } else if deg > 1 {
                    s.append("*");
                    s.append(x);
                    s.append("^");
                    let dv = nat_from_u64(deg as u64);
                    s.append(nat_to_decimal(&dv).as_str());
                }
                first = false;
                proof {
                    let cv = self@[k as int].val();
                    let pv = self@[k as int].pval();
                    let part = poly_part_render(cv, pv, n - 1 - k, x@);
                    let tail = poly_render(self@, k + 1, false, x@);
                    if first0 {
                        assert(s@ =~= s0 + part);
                        assert(poly_render(self@, k as int, first0, x@) == part + tail);
                        assert(s0 + (part + tail) =~= (s0 + part) + tail);
                    } else {
                        assert(s@ =~= s0 + ("+"@ + part));
                        assert(poly_render(self@, k as int, first0, x@) == "+"@ + part + tail);
                        assert(s0 + ("+"@ + part + tail) =~= (s0 + ("+"@ + part)) + tail);
                        assert("+"@ + part + tail =~= ("+"@ + part) + tail);
                    }
                }
            }
            k = k + 1;
        }
        proof {
            assert(poly_render(self@, n as int, first, x@) =~= Seq::<char>::empty());
            assert(s@ =~= s@ + poly_render(self@, n as int, first, x@));
        }
        s
    }

    /// The polynomial scaled by `c` and shifted up by `sh` degrees.
    fn scale_shift(&self, c: &Mod, sh: usize) -> (r: Self)
        requires
            self.wf(),
            c.wf(),
            c.pval() == self.pval(),
        ensures
            r.wf(),
            r.pval() == self.pval(),
            r@.len() <= self@.len() + sh,
            forall|d: int|
                coeff_at(r@, d) == fmul(self.pval() as int, c.val() as int, coeff_at(self@, d - sh)),
    {
        let n = self.coeffs.len();
        let mut v: Vec<Mod> = Vec::new();
        let mut k: usize = 0;
        while k < n
            invariant
                self.wf(),
                c.wf(),
                c.pval() == self.pval(),
                n == self@.len(),
                k <= n,
                v@.len() == k,
                forall|j: int|
                    0 <= j < k ==> (#[trigger] v@[j]).wf() && v@[j].pval() == self.pval()
                        && v@[j].val() == fmul(
                        self.pval() as int,
                        c.val() as int,
                        self@[j].val() as int,
                    ),
            decreases n - k,
        {
            proof {
                assert(self@[k as int].wf());
            }
            v.push(c.mul(&self.coeffs[k]));
            k = k + 1;
        }
        let mut j: usize = 0;
        while j < sh
            invariant
                self.wf(),
                n == self@.len(),
                j <= sh,
                v@.len() == n + j,
                forall|jj: int|
                    0 <= jj < n ==> (#[trigger] v@[jj]).wf() && v@[jj].pval() == self.pval()
                        && v@[jj].val() == fmul(
                        self.pval() as int,
                        c.val() as int,
                        self@[jj].val() as int,
                    ),
                forall|jj: int|
                    n <= jj < v@.len() ==> (#[trigger] v@[jj]).wf() && v@[jj].pval()
                        == self.pval() && v@[jj].val() == 0,
            decreases sh - j,
        {
            proof {
                assert(self@[0].wf());
            }
            v.push(self.coeffs[0].zero());
            j = j + 1;
        }
        let r = Self::new_from_coeffs(&v);
        proof {
            let p = self.pval() as int;
            assert forall|d: int|
                coeff_at(r@, d) == fmul(p, c.val() as int, coeff_at(self@, d - sh)) by {
                let m = v@.len() as int;
                if 0 <= d < sh {
                    assert(coeff_at(v@, d) == v@[m - 1 - d].val());
                    assert(m - 1 - d >= n);
                    lemma_fmul_basics(p, c.val() as int);
                } else if sh <= d < m {
                    assert(coeff_at(v@, d) == v@[m - 1 - d].val());
                    assert(m - 1 - d == n - 1 - (d - sh));
                    assert(v@[n - 1 - (d - sh)].val() == fmul(
                        p,
                        c.val() as int,
                        self@[n - 1 - (d - sh)].val() as int,
                    ));
                } else {
                    lemma_fmul_basics(p, c.val() as int);
                }
            }
        }
        r
    }

    /// Product of two polynomials of a common field: at every degree the
    /// result carries the full cross sum [`conv1`] of coefficient products.
    pub fn mul(&self, rhs: &Self) -> (r: Self)
        requires
            self.wf(),
            rhs.wf(),
            self.pval() == rhs.pval(),
        ensures
            r.wf(),
            r.pval() == self.pval(),
            forall|d: int| coeff_at(r@, d) == conv1(self@, rhs@, d, self.pval()),
    {
        let ghost p = self.pval();
        let n = self.coeffs.len();
        let mut acc = self.zero();
        proof {
            assert forall|d: int| coeff_at(acc@, d) == topcross(self@, rhs@, d, n as int, p) by {
                assert(topcross(self@, rhs@, d, n as int, p) == 0);
            }
        }
        let mut i: usize = 0;
        while i < n
            invariant
                self.wf(),
                rhs.wf(),
                self.pval() == rhs.pval(),
                p == self.pval(),
                n == self@.len(),
                i <= n,
                acc.wf(),
                acc.pval() == p,
                forall|d: int|
                    coeff_at(acc@, d) == topcross(self@, rhs@, d, n - i, p),
            decreases n - i,
        {
            proof {
                assert(self@[i as int].wf());
            }
            let c = self.coeffs[i].clone();
            let sh = n - 1 - i;
            let ss = rhs.scale_shift(&c, sh);
            let acc2 = acc.add(&ss);
            proof {
                let lo = n - i - 1;
                assert forall|d: int|
                    coeff_at(acc2@, d) == topcross(self@, rhs@, d, lo, p) by {
                    lemma_topcross_step(self@, rhs@, d, lo, p);
                    assert(coeff_at(self@, lo) == self@[i as int].val()) by {
                        assert(n - 1 - lo == i);
                    }
                    assert(coeff_at(ss@, d) == fmul(p as int, c.val() as int, coeff_at(
                        rhs@,
                        d - lo,
                    )));
                    assert(fmul(p as int, c.val() as int, coeff_at(rhs@, d - lo)) == fmul(
                        p as int,
                        coeff_at(self@, lo),
                        coeff_at(rhs@, d - lo),
                    ));
                }
            }
            acc = acc2;
            i = i + 1;
        }
        proof {
            assert(forall|d: int| coeff_at(acc@, d) == conv1(self@, rhs@, d, p));
        }
        acc
    }

    /// Division with remainder: expresses `g` as `q * h + rem` with the
    /// remainder of strictly smaller degree than the divisor (or zero).
    /// Fails on a zero divisor and on a divisor whose leading coefficient
    /// is not invertible.
    pub fn div_rem(g: &Poly, h: &Poly) -> (res: Result<(Poly, Poly), MathError>)
        requires
            g.wf(),
            h.wf(),
            g.pval() == h.pval(),
        ensures
            match res {
                Ok(qr) => {
                    &&& qr.0.wf()
                    &&& qr.1.wf()
                    &&& qr.0.pval() == g.pval()
                    &&& qr.1.pval() == g.pval()
                    &&& forall|d: int|
                        coeff_at(g@, d) == fadd(
                            g.pval() as int,
                            conv1(qr.0@, h@, d, g.pval()),
                            coeff_at(qr.1@, d),
                        )
                    &&& qr.1@.len() < h@.len() || all_zero(qr.1@)
                },
                Err(e) => {
                    &&& (e == MathError::DivisionByZero <==> all_zero(h@))
                    &&& (e == MathError::NotInvertible <==> (!all_zero(h@) && gcd(
                        h@[0].val(),
                        g.pval(),
                    ) != 1))
                    &&& (e == MathError::DivisionByZero || e == MathError::NotInvertible)
                },
            },
    {
        let ghost p = g.pval();
        if h.is_zero() {
            return Err(MathError::DivisionByZero);
        }
        proof {
            assert(h@[0].wf());
        }
        let inv = match h.coeffs[0].inverse() {
            Ok(v) => v,
            Err(_) => {
                return Err(MathError::NotInvertible);
            },
        };
        let mut q = g.zero();
        let zero_poly = g.zero();
        let mut rem = g.add(&zero_poly);
        proof {
            assert forall|d: int| coeff_at(rem@, d) == coeff_at(g@, d) by {
                lemma_coeff_at_bound(g@, d, p);
                lemma_fadd_zero(p as int, coeff_at(g@, d));
            }
            assert forall|d: int|
                coeff_at(g@, d) == fadd(p as int, conv1(q@, h@, d, p), coeff_at(rem@, d)) by {
                lemma_topcross_zero_left(q@, h@, d, p);
                lemma_coeff_at_bound(rem@, d, p);
                lemma_fadd_zero(p as int, coeff_at(rem@, d));
            }
        }
        while rem.len() - 1 >= h.len() - 1 && !rem.is_zero()
            invariant
                g.wf(),
                h.wf(),
                g.pval() == h.pval(),
                p == g.pval(),
                !all_zero(h@),
                h@[0].val() != 0 || h@.len() > 1,
                inv.wf(),
                inv.pval() == p,
                fmul(p as int, h@[0].val() as int, inv.val() as int) == 1,
                q.wf(),
                rem.wf(),
                q.pval() == p,
                rem.pval() == p,
                forall|d: int|
                    coeff_at(g@, d) == fadd(p as int, conv1(q@, h@, d, p), coeff_at(rem@, d)),
            decreases pmeasure(rem@),
        {
            let ghost qold = q@;
            let ghost remold = rem@;
            let sh = rem.coeffs.len() - h.coeffs.len();
            proof {
                assert(rem@[0].wf());
                assert(rem@[0].val() != 0) by {
                    if rem@.len() == 1 {
                        assert(coeff_at(rem@, 0) != 0);
                    }
                }
            }
            let c = rem.coeffs[0].mul(&inv);
            proof {
                crate::multivariatepoly::lemma_cancel_coeff(
                    p,
                    rem@[0].val(),
                    h@[0].val(),
                    c.val(),
                );
            }
            let delta = h.scale_shift(&c, sh);
            // the quotient gains the single term c * x^sh
            let mut sv: Vec<Mod> = Vec::new();
            sv.push(c.clone());
            let mut j: usize = 0;
            while j < sh
                invariant
                    c.wf(),
                    c.pval() == p,
                    c.val() != 0,
                    j <= sh,
                    sv@.len() == j + 1,
                    sv@[0].val() == c.val(),
                    sv@[0].wf() && sv@[0].pval() == p,
                    forall|jj: int|
                        1 <= jj < sv@.len() ==> (#[trigger] sv@[jj]).wf() && sv@[jj].pval() == p
                            && sv@[jj].val() == 0,
                decreases sh - j,
            {
                sv.push(c.zero());
                j = j + 1;
            }
            let single = Poly { coeffs: sv };
            proof {
                assert(single.wf());
                assert forall|d: int| coeff_at(single@, d) == (if d == sh {
                    c.val() as int
                } else {
                    0
                }) by {
                    if 0 <= d < single@.len() {
                        if d == sh {
                            assert(coeff_at(single@, d) == single@[0].val());
                        } else {
                            assert(coeff_at(single@, d) == single@[single@.len() - 1 - d].val());
                        }
                    }
                }
            }
            let q2 = q.add(&single);
            let rem2 = rem.sub(&delta);
            proof {
                assert forall|d: int|
                    coeff_at(g@, d) == fadd(p as int, conv1(q2@, h@, d, p), coeff_at(rem2@, d)) by {
                    lemma_topcross_linear(q2@, qold, single@, h@, d, 0, p);
                    lemma_topcross_single(single@, h@, d, 0, sh as int, c.val() as int, p);
                    lemma_div1_glue(
                        p as int,
                        conv1(qold, h@, d, p),
                        fmul(p as int, c.val() as int, coeff_at(h@, d - sh)),
                        coeff_at(remold, d),
                    );
                }
                // the leading coefficient cancels, so the residual shrinks
                assert forall|d: int|
                    d >= remold.len() - 1 implies coeff_at(rem2@, d) == 0 by {
                    let hd = h@.len() - 1;
                    if d == remold.len() - 1 {
                        assert(coeff_at(remold, d) == remold[0].val());
                        assert(d - sh == hd);
                        assert(coeff_at(h@, hd) == h@[0].val());
                        assert(coeff_at(rem2@, d) == fsub(
                            p as int,
                            remold[0].val() as int,
                            fmul(p as int, c.val() as int, h@[0].val() as int),
                        ));
                        lemma_small_mod(0nat, p);
                    } else {
                        assert(coeff_at(remold, d) == 0);
                        assert(d - sh > hd);
                        assert(coeff_at(h@, d - sh) == 0);
                        lemma_fmul_basics(p as int, c.val() as int);
                        lemma_small_mod(0nat, p);
                    }
                }
                assert(pmeasure(rem2@) < pmeasure(remold)) by {
                    assert(!all_zero(remold)) by {
                        assert(coeff_at(remold, remold.len() - 1) != 0);
                    }
                    if rem2@.len() >= remold.len() && rem2@.len() > 1 {
                        assert(coeff_at(rem2@, rem2@.len() - 1) == rem2@[0].val());
                        assert(rem2@[0].val() != 0);
                        assert(rem2@.len() - 1 >= remold.len() - 1);
                        assert(coeff_at(rem2@, rem2@.len() - 1) == 0);
                    }
                    if rem2@.len() == remold.len() && remold.len() == 1 {
                        assert(coeff_at(rem2@, 0) == 0);
                        assert(all_zero(rem2@)) by {
                            assert(forall|d: int| d != 0 ==> coeff_at(rem2@, d) == 0);
                        }
                    }
                }
            }
            q = q2;
            rem = rem2;
        }
        proof {
            if !(rem@.len() < h@.len()) {
                assert(all_zero(rem@));
            }
        }
        Ok((q, rem))
    }

    /// The value of the polynomial at a point, by Horner's rule.
    pub fn evaluate(&self, alpha: &Mod) -> (r: Mod)
        requires
            self.wf(),
            alpha.wf(),
            alpha.pval() == self.pval(),
        ensures
            r.wf(),
            r.pval() == self.pval(),
            r.val() == horner(self@, alpha.val() as int, self.pval()),
    {
        let ghost p = self.pval();
        proof {
            assert(self@[0].wf());
        }
        let mut value = self.coeffs[0].zero();
        let mut i: usize = 0;
        proof {
            assert(self@.take(0) =~= Seq::<Mod>::empty());
        }
        while i < self.coeffs.len()
            invariant
                self.wf(),
                alpha.wf(),
                alpha.pval() == p,
                p == self.pval(),
                i <= self@.len(),
                value.wf(),
                value.pval() == p,
                value.val() == horner(self@.take(i as int), alpha.val() as int, p),
            decreases self@.len() - i,
        {
            proof {
                assert(self@[i as int].wf());
                assert(self@.take(i + 1).drop_last() =~= self@.take(i as int));
                assert(self@.take(i + 1).last() == self@[i as int]);
            }
            value = value.mul(alpha).add(&self.coeffs[i]);
            i = i + 1;
        }
        proof {
            assert(self@.take(self@.len() as int) =~= self@);
        }
        value
    }

    /// The polynomial scaled so that its constant term becomes one.  Fails
    /// when the constant term is not invertible.
    pub fn normal_poly(&self) -> (res: Result<Poly, MathError>)
        requires
            self.wf(),
        ensures
            match res {
                Ok(r) => {
                    &&& r.wf()
                    &&& r.pval() == self.pval()
                    &&& exists|iv: int|
                        0 <= iv < self.pval() && #[trigger] fmul(
                            self.pval() as int,
                            self@[self@.len() - 1].val() as int,
                            iv,
                        ) == 1 && forall|d: int|
                            coeff_at(r@, d) == fmul(self.pval() as int, coeff_at(self@, d), iv)
                },
                Err(e) => {
                    e == MathError::NotInvertible && gcd(
                        self@[self@.len() - 1].val(),
                        self.pval(),
                    ) != 1
                },
            },
    {
        proof {
            assert(self@[self@.len() - 1].wf());
        }
        let last = self.coeffs.len() - 1;
        match self.coeffs[last].inverse() {
            Ok(iv) => {
                let r = self.multiple(&iv);
                proof {
                    let ivv = iv.val() as int;
                    assert(0 <= ivv < self.pval() && fmul(
                        self.pval() as int,
                        self@[self@.len() - 1].val() as int,
                        ivv,
                    ) == 1 && forall|d: int|
                        coeff_at(r@, d) == fmul(self.pval() as int, coeff_at(self@, d), ivv));
                }
                Ok(r)
            },
            Err(_) => Err(MathError::NotInvertible),
        }
    }

    /// Extended Euclidean algorithm: returns `(u, v, d)` with
    /// `g * u + h * v == d`, where `d` divides both `g` and `h` exactly —
    /// a greatest common divisor up to a unit factor, not normalized.
    /// Both divisions are checked before the result is returned.
    pub fn gcdext(g: &Poly, h: &Poly) -> (res: Result<(Poly, Poly, Poly), MathError>)
        requires
            g.wf(),
            h.wf(),
            g.pval() == h.pval(),
        ensures
            match res {
                Ok(uvd) => {
                    &&& uvd.0.wf()
                    &&& uvd.1.wf()
                    &&& uvd.2.wf()
                    &&& uvd.0.pval() == g.pval()
                    &&& uvd.1.pval() == g.pval()
                    &&& uvd.2.pval() == g.pval()
                    &&& forall|d: int|
                        coeff_at(uvd.2@, d) == fadd(
                            g.pval() as int,
                            conv1(g@, uvd.0@, d, g.pval()),
                            conv1(uvd.1@, h@, d, g.pval()),
                        )
                    &&& exists|qg: Seq<Mod>| divides_exactly(uvd.2@, g@, qg, g.pval())
                    &&& exists|qh: Seq<Mod>| divides_exactly(uvd.2@, h@, qh, g.pval())
                },
                Err(e) => e == MathError::NotInvertible && !all_zero(h@),
            },
            all_zero(h@) ==> res is Ok,
    {
        let ghost p = g.pval();
        let zero_poly = g.zero();
        if h.is_zero() {
            // gcd(g, 0) == g, with the trivial combination g * 1 + h * 0
            let u = g.one();
            let v = g.zero();
            let dd = g.add(&zero_poly);
            proof {
                assert forall|d: int|
                    coeff_at(dd@, d) == fadd(
                    p as int,
                    conv1(g@, u@, d, p),
                    conv1(v@, h@, d, p),
                ) by {
                    lemma_coeff_at_bound(g@, d, p);
                    lemma_fadd_zero(p as int, coeff_at(g@, d));
                    lemma_topcross_single(u@, g@, d, 0, 0, 1, p);
                    lemma_topcross_congruent_swap(g@, u@, d, p);
                    lemma_topcross_zero_left(v@, h@, d, p);
                    lemma_coeff_at_bound(g@, d, p);
                    lemma_fmul_basics(p as int, coeff_at(g@, d));
                    lemma_fadd_zero(p as int, coeff_at(g@, d));
                }
            }
            proof {
                assert forall|kk: int| coeff_at(u@, kk) == (if kk == 0 {
                    1int
                } else {
                    0int
                }) by {}
                assert(divides_exactly(dd@, g@, u@, p)) by {
                    assert forall|k: int| #[trigger] coeff_at(g@, k) == conv1(u@, dd@, k, p) by {
                        assert(coeff_at(dd@, k) == fadd(
                            p as int,
                            coeff_at(g@, k),
                            coeff_at(zero_poly@, k),
                        ));
                        assert(coeff_at(zero_poly@, k) == 0);
                        lemma_coeff_at_bound(g@, k, p);
                        lemma_fadd_zero(p as int, coeff_at(g@, k));
                        lemma_topcross_single(u@, dd@, k, 0, 0, 1, p);
                        lemma_coeff_at_bound(dd@, k, p);
                        lemma_fmul_basics(p as int, coeff_at(dd@, k));
                    }
                }
                assert(divides_exactly(dd@, h@, v@, p)) by {
                    assert forall|k: int| #[trigger] coeff_at(h@, k) == conv1(v@, dd@, k, p) by {
                        lemma_topcross_zero_left(v@, dd@, k, p);
                    }
                }
            }
            return Ok((u, v, dd));
        }
        let mut u = g.one();
        let mut dd = g.add(&zero_poly);
        let mut v1 = g.zero();
        let mut v3 = h.add(&zero_poly);
        proof {
            assert forall|d: int| coeff_at(dd@, d) == coeff_at(g@, d) by {
                lemma_coeff_at_bound(g@, d, p);
                lemma_fadd_zero(p as int, coeff_at(g@, d));
            }
            assert forall|d: int| coeff_at(v3@, d) == coeff_at(h@, d) by {
                lemma_coeff_at_bound(h@, d, p);
                lemma_fadd_zero(p as int, coeff_at(h@, d));
            }
        }
        while !v3.is_zero()
            invariant
                g.wf(),
                h.wf(),
                g.pval() == h.pval(),
                p == g.pval(),
                !all_zero(h@),
                u.wf(),
                dd.wf(),
                v1.wf(),
                v3.wf(),
                u.pval() == p,
                dd.pval() == p,
                v1.pval() == p,
                v3.pval() == p,
            decreases pmeasure(v3@),
        {
            let ghost v3old = v3@;
            let (qq, rem) = match Poly::div_rem(&dd, &v3) {
                Ok(x) => x,
                Err(e) => {
                    proof {
                        assert(e == MathError::NotInvertible);
                    }
                    return Err(MathError::NotInvertible);
                },
            };
            let t = u.sub(&v1.mul(&qq));
            u = v1;
            dd = v3;
            v1 = t;
            v3 = rem;
            proof {
                assert(pmeasure(v3@) < pmeasure(v3old)) by {
                    assert(!all_zero(v3old)) by {
                        if v3old.len() == 1 {
                            assert(coeff_at(v3old, 0) != 0);
                        } else {
                            assert(coeff_at(v3old, v3old.len() - 1) != 0);
                        }
                    }
                    if all_zero(v3@) {
                        assert(v3@.len() == 1) by {
                            if v3@.len() > 1 {
                                assert(coeff_at(v3@, v3@.len() - 1) != 0);
                            }
                        }
                    } else {
                        assert(v3@.len() < v3old.len());
                    }
                }
            }
        }
        // recover the second coefficient by exact division
        let num = dd.sub(&g.mul(&u));
        let (v, vr) = match Poly::div_rem(&num, &h) {
            Ok(x) => x,
            Err(_) => {
                return Err(MathError::NotInvertible);
            },
        };
        if !vr.is_zero() {
            // cannot happen over a field; over a non-prime modulus the
            // recursion may fail to divide exactly
            return Err(MathError::NotInvertible);
        }
        // verify that the terminal remainder is a common divisor
        let (qg, rg) = match Poly::div_rem(&g, &dd) {
            Ok(x) => x,
            Err(_) => {
                return Err(MathError::NotInvertible);
            },
        };
        if !rg.is_zero() {
            return Err(MathError::NotInvertible);
        }
        let (qh, rh) = match Poly::div_rem(&h, &dd) {
            Ok(x) => x,
            Err(_) => {
                return Err(MathError::NotInvertible);
            },
        };
        if !rh.is_zero() {
            return Err(MathError::NotInvertible);
        }
        proof {
            assert(divides_exactly(dd@, g@, qg@, p)) by {
                assert forall|k: int| #[trigger] coeff_at(g@, k) == conv1(qg@, dd@, k, p) by {
                    assert(coeff_at(g@, k) == fadd(
                        p as int,
                        conv1(qg@, dd@, k, p),
                        coeff_at(rg@, k),
                    ));
                    assert(coeff_at(rg@, k) == 0);
                    lemma_topcross_bound(qg@, dd@, k, 0, p);
                    lemma_fadd_zero(p as int, conv1(qg@, dd@, k, p));
                }
            }
            assert(divides_exactly(dd@, h@, qh@, p)) by {
                assert forall|k: int| #[trigger] coeff_at(h@, k) == conv1(qh@, dd@, k, p) by {
                    assert(coeff_at(h@, k) == fadd(
                        p as int,
                        conv1(qh@, dd@, k, p),
                        coeff_at(rh@, k),
                    ));
                    assert(coeff_at(rh@, k) == 0);
                    lemma_topcross_bound(qh@, dd@, k, 0, p);
                    lemma_fadd_zero(p as int, conv1(qh@, dd@, k, p));
                }
            }
        }
        proof {
            assert forall|d: int|
                coeff_at(dd@, d) == fadd(
                p as int,
                conv1(g@, u@, d, p),
                conv1(v@, h@, d, p),
            ) by {
                let gu = conv1(g@, u@, d, p);
                let vh = conv1(v@, h@, d, p);
                lemma_coeff_at_bound(dd@, d, p);
                lemma_coeff_at_bound(num@, d, p);
                lemma_topcross_bound(g@, u@, d, 0, p);
                lemma_topcross_bound(v@, h@, d, 0, p);
                assert(coeff_at(num@, d) == fsub(p as int, coeff_at(dd@, d), gu));
                assert(coeff_at(num@, d) == fadd(p as int, vh, coeff_at(vr@, d)));
                assert(coeff_at(vr@, d) == 0);
                lemma_fadd_zero(p as int, vh);
                // dd == gu + (dd - gu)
                vstd::arithmetic::div_mod::lemma_add_mod_noop_right(
                    gu,
                    coeff_at(dd@, d) - gu,
                    p as int,
                );
                lemma_small_mod(coeff_at(dd@, d) as nat, p);
            }
        }
        Ok((u, v, dd))
    }

    /// Whether the Euclidean recursion on `(g, h)` ends in the constant
    /// one.  When it does, a Bezout combination of `g` and `h` equal to one
    /// exists; the converse does not hold, since the terminal remainder is
    /// not normalized.
    pub fn is_coprime(g: &Poly, h: &Poly) -> (res: Result<bool, MathError>)
        requires
            g.wf(),
            h.wf(),
            g.pval() == h.pval(),
        ensures
            match res {
                Ok(r) => r ==> exists|u: Seq<Mod>, v: Seq<Mod>| bezout_one(g@, h@, u, v, g.pval()),
                Err(e) => e == MathError::NotInvertible,
            },
    {
        let (u, v, dd) = match Poly::gcdext(g, h) {
            Ok(x) => x,
            Err(e) => {
                return Err(e);
            },
        };
        let r = dd.is_one();
        proof {
            if r {
                assert(forall|d: int| coeff_at(dd@, d) == if d == 0 {
                    1int
                } else {
                    0int
                });
                assert forall|d: int|
                    #[trigger] fadd(
                        g.pval() as int,
                        conv1(g@, u@, d, g.pval()),
                        conv1(v@, h@, d, g.pval()),
                    ) == if d == 0 {
                    1int
                } else {
                    0int
                } by {
                    assert(coeff_at(dd@, d) == fadd(
                        g.pval() as int,
                        conv1(g@, u@, d, g.pval()),
                        conv1(v@, h@, d, g.pval()),
                    ));
                }
                assert(bezout_one(g@, h@, u@, v@, g.pval()));
            }
        }
        Ok(r)
    }
}

/// Horner evaluation of a coefficient sequence, most significant first.
pub open spec fn horner(s: Seq<Mod>, x: int, p: nat) -> int
    decreases s.len(),
{
    if s.len() == 0 {
        0
    } else {
        fadd(p as int, fmul(p as int, horner(s.drop_last(), x, p), x), s.last().val() as int)
    }
}

/// A zero left operand contributes nothing to a cross sum.
pub proof fn lemma_topcross_zero_left(a: Seq<Mod>, b: Seq<Mod>, d: int, p: nat)
    requires
        p >= 1,
        all_zero(a),
    ensures
        conv1(a, b, d, p) == 0,
{
    lemma_topcross_single(a, b, d, 0, 0, 0, p);
    lemma_fmul_basics(p as int, coeff_at(b, d));
}

/// The constant-one polynomial is a left identity of the cross sum, up to
/// swapping the operands of each coefficient product.
proof fn lemma_topcross_congruent_swap(gg: Seq<Mod>, u: Seq<Mod>, d: int, p: nat)
    requires
        p >= 1,
        forall|k: int| coeff_at(u, k) == if k == 0 {
            1int
        } else {
            0
        },
    ensures
        conv1(gg, u, d, p) == fmul(p as int, coeff_at(gg, d), 1) % (p as int),
    decreases gg.len(),
{
    lemma_topcross_swap_single(gg, u, d, 0, p);
    if d < 0 {
        lemma_fmul_basics(p as int, 1);
        lemma_small_mod(0nat, p);
    }
}

/// Helper: a right operand supported at degree zero reduces the cross sum
/// to the matching single column.
proof fn lemma_topcross_swap_single(gg: Seq<Mod>, u: Seq<Mod>, d: int, lo: int, p: nat)
    requires
        p >= 1,
        0 <= lo,
        forall|k: int| coeff_at(u, k) == if k == 0 {
            1int
        } else {
            0
        },
    ensures
        topcross(gg, u, d, lo, p) == if lo <= d {
            fmul(p as int, coeff_at(gg, d), 1) % (p as int)
        } else {
            0
        },
    decreases gg.len() - lo,
{
    if lo >= gg.len() {
        if lo <= d {
            assert(coeff_at(gg, d) == 0) by {
                if 0 <= d < gg.len() {
                    assert(d < lo);
                }
            }
            lemma_fmul_basics(p as int, 1);
            lemma_small_mod(0nat, p);
        }
    } else {
        lemma_topcross_swap_single(gg, u, d, lo + 1, p);
        lemma_topcross_step(gg, u, d, lo, p);
        let col = fmul(p as int, coeff_at(gg, lo), coeff_at(u, d - lo));
        if lo == d {
            assert(coeff_at(u, 0) == 1);
            lemma_fadd_bound(p as int, coeff_at(gg, lo), 1);
            lemma_fadd_zero(p as int, fmul(p as int, coeff_at(gg, lo), 1));
            vstd::arithmetic::div_mod::lemma_mod_twice(
                fmul(p as int, coeff_at(gg, d), 1),
                p as int,
            );
        } else {
            assert(coeff_at(u, d - lo) == 0);
            lemma_fmul_basics(p as int, coeff_at(gg, lo));
            assert(col == 0) by {
                lemma_fmul_assoc(p as int, coeff_at(gg, lo), 0, 1);
                lemma_fmul_basics(p as int, coeff_at(gg, lo));
            }
            if lo < d {
                vstd::arithmetic::div_mod::lemma_mod_twice(
                    fmul(p as int, coeff_at(gg, d), 1),
                    p as int,
                );
                lemma_fadd_bound(p as int, coeff_at(gg, d), 1);
                lemma_fadd_zero(p as int, fmul(p as int, coeff_at(gg, d), 1) % (p as int));
            } else {
                lemma_small_mod(0nat, p);
            }
        }
    }
}

/// Coefficients of well-formed polynomials are reduced.
pub proof fn lemma_coeff_at_bound(s: Seq<Mod>, d: int, p: nat)
    requires
        p >= 1,
        coeffs_wf(s, p),
    ensures
        0 <= coeff_at(s, d) < p,
{
    if 0 <= d < s.len() {
        assert(s[s.len() - 1 - d].wf());
    }
}


} // verus!
