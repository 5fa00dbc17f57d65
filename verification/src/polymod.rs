//! Residue classes of univariate polynomials modulo a fixed polynomial.

use vstd::prelude::*;
use crate::intmod::{Mod, MathError, fadd, fneg, fsub, gcd};
use crate::poly::{Poly, coeff_at, conv1, all_zero};

verus! {

/// The polynomial a ring of residues is taken modulo.
#[derive(Debug, PartialEq, Eq)]
pub struct Modulus(pub Poly);

/// A polynomial together with the modulus it is understood against.  The
/// stored polynomial is whatever representative the construction produced.
#[derive(Debug, PartialEq, Eq)]
pub struct PolyMod {
    pub poly: Poly,
    pub modulus: Modulus,
}

impl Clone for Modulus {
    /// A clone denotes the same modulus.
    fn clone(&self) -> (r: Self)
        ensures
            r.0@.len() == self.0@.len(),
            forall|d: int| coeff_at(r.0@, d) == coeff_at(self.0@, d),
            r.0.pval() == self.0.pval(),
            self.0.wf() ==> r.0.wf(),
    {
        let p = self.0.clone();
        proof {
            assert forall|d: int| coeff_at(p@, d) == coeff_at(self.0@, d) by {
                if 0 <= d < self.0@.len() {
                    assert(p@[p@.len() - 1 - d].val() == self.0@[self.0@.len() - 1 - d].val());
                }
            }
            if self.0@.len() > 0 {
                assert(p@[0].pval() == self.0@[0].pval());
                assert(p@[0].val() == self.0@[0].val());
            }
            if self.0.wf() {
                assert(forall|k: int|
                    0 <= k < p@.len() ==> (#[trigger] p@[k]).wf() && p@[k].pval()
                        == self.0@[k].pval());
                assert(p@[0].val() == self.0@[0].val());
            }
        }
        Modulus(p)
    }
}

/// The difference of two representatives is an exact multiple of the
/// modulus: they denote the same residue class.
pub open spec fn same_class(zs: Seq<Mod>, xs: Seq<Mod>, q: Seq<Mod>, m: Seq<Mod>, p: nat) -> bool {
    forall|d: int|
        #[trigger] fsub(p as int, coeff_at(zs, d), coeff_at(xs, d)) == conv1(q, m, d, p)
}

/// The sum of two representatives decomposes as a multiple of the modulus
/// plus the stored result.
pub open spec fn sum_decomposes(
    a: Seq<Mod>,
    b: Seq<Mod>,
    q: Seq<Mod>,
    m: Seq<Mod>,
    rr: Seq<Mod>,
    p: nat,
) -> bool {
    forall|d: int|
        #[trigger] fadd(p as int, coeff_at(a, d), coeff_at(b, d)) == fadd(
            p as int,
            conv1(q, m, d, p),
            coeff_at(rr, d),
        )
}

/// The difference of two representatives decomposes as a multiple of the
/// modulus plus the stored result.
pub open spec fn diff_decomposes(
    a: Seq<Mod>,
    b: Seq<Mod>,
    q: Seq<Mod>,
    m: Seq<Mod>,
    rr: Seq<Mod>,
    p: nat,
) -> bool {
    forall|d: int|
        #[trigger] fsub(p as int, coeff_at(a, d), coeff_at(b, d)) == fadd(
            p as int,
            conv1(q, m, d, p),
            coeff_at(rr, d),
        )
}

/// The product of two representatives decomposes as a multiple of the
/// modulus plus the stored result.
pub open spec fn prod_decomposes(
    a: Seq<Mod>,
    b: Seq<Mod>,
    q: Seq<Mod>,
    m: Seq<Mod>,
    rr: Seq<Mod>,
    p: nat,
) -> bool {
    forall|d: int|
        #[trigger] conv1(a, b, d, p) == fadd(p as int, conv1(q, m, d, p), coeff_at(rr, d))
}

impl Clone for PolyMod {
    /// A clone denotes the same residue against the same modulus.
    fn clone(&self) -> (r: Self)
        ensures
            forall|d: int| coeff_at(r.poly@, d) == coeff_at(self.poly@, d),
            forall|d: int| coeff_at(r.modulus.0@, d) == coeff_at(self.modulus.0@, d),
            r.pval() == self.pval(),
            self.wf() ==> r.wf(),
    {
        let poly = self.poly.clone();
        let modulus = self.modulus.clone();
        proof {
            assert forall|d: int| coeff_at(poly@, d) == coeff_at(self.poly@, d) by {
                if 0 <= d < self.poly@.len() {
                    assert(poly@[poly@.len() - 1 - d].val() == self.poly@[self.poly@.len() - 1
                        - d].val());
                }
            }
            if self.poly@.len() > 0 {
                assert(poly@[0].pval() == self.poly@[0].pval());
                assert(poly@[0].val() == self.poly@[0].val());
            }
            if self.wf() {
                assert(forall|k: int|
                    0 <= k < poly@.len() ==> (#[trigger] poly@[k]).wf() && poly@[k].pval()
                        == self.poly@[k].pval());
            }
        }
        PolyMod { poly, modulus }
    }
}

/// The product of a residue and its inverse decomposes as a multiple of the
/// modulus plus the constant one.
pub open spec fn inverse_witness(a: Seq<Mod>, b: Seq<Mod>, q: Seq<Mod>, m: Seq<Mod>, p: nat) -> bool {
    forall|d: int|
        #[trigger] conv1(a, b, d, p) == fadd(
            p as int,
            conv1(q, m, d, p),
            if d == 0 {
                1int
            } else {
                0int
            },
        )
}

/// The residue `z` is congruent to `mi` against `mi`'s own modulus.
pub open spec fn congruent_to(z: PolyMod, mi: PolyMod) -> bool {
    exists|q: Seq<Mod>| same_class(z.poly@, mi.poly@, q, mi.modulus.0@, z.pval())
}

/// The result of remaindering is congruent to every given residue against
/// that residue's own modulus.
pub open spec fn chinese_ok(z: PolyMod, moduli: Seq<PolyMod>) -> bool {
    forall|i: int| 0 <= i < moduli.len() ==> congruent_to(z, #[trigger] moduli[i])
}

/// `ps` lists the running products of the given moduli: its first entry is
/// the first modulus and each later entry is its predecessor times the
/// matching modulus.
pub open spec fn product_chain(ps: Seq<Seq<Mod>>, moduli: Seq<PolyMod>, p: nat) -> bool {
    &&& ps.len() == moduli.len()
    &&& moduli.len() >= 1
    &&& forall|k: int| #[trigger] coeff_at(ps[0], k) == coeff_at(moduli[0].modulus.0@, k)
    &&& forall|i: int, k: int|
        1 <= i < ps.len() ==> #[trigger] coeff_at(ps[i], k) == conv1(
            ps[i - 1],
            moduli[i].modulus.0@,
            k,
            p,
        )
}

/// The result's modulus is the product of all the given moduli.
pub open spec fn modulus_is_product(z: PolyMod, moduli: Seq<PolyMod>, p: nat) -> bool {
    exists|ps: Seq<Seq<Mod>>|
        product_chain(ps, moduli, p) && forall|k: int|
            #[trigger] coeff_at(z.modulus.0@, k) == coeff_at(ps[ps.len() - 1], k)
}

impl Modulus {
    /// The residue of `g` modulo this modulus.
    pub fn new(&self, g: Poly) -> (res: Result<PolyMod, MathError>)
        requires
            self.0.wf(),
            g.wf(),
            g.pval() == self.0.pval(),
        ensures
            match res {
                Ok(r) => {
                    &&& r.wf()
                    &&& r.pval() == self.0.pval()
                    &&& forall|d: int| coeff_at(r.modulus.0@, d) == coeff_at(self.0@, d)
                    &&& exists|q: Seq<Mod>|
                        sum_decomposes(
                            g@,
                            Seq::empty(),
                            q,
                            self.0@,
                            r.poly@,
                            self.0.pval(),
                        )
                    &&& r.poly@.len() < self.0@.len() || all_zero(r.poly@)
                },
                Err(e) => {
                    &&& (e == MathError::DivisionByZero <==> all_zero(self.0@))
                    &&& (e == MathError::NotInvertible <==> (!all_zero(self.0@) && gcd(
                        self.0@[0].val(),
                        self.0.pval(),
                    ) != 1))
                    &&& (e == MathError::DivisionByZero || e == MathError::NotInvertible)
                },
            },
    {
        let ghost p = self.0.pval();
        match Poly::div_rem(&g, &self.0) {
            Ok(qr) => {
                let r = PolyMod { poly: qr.1, modulus: self.clone() };
                proof {
                    let qq = qr.0@;
                    assert(sum_decomposes(g@, Seq::empty(), qq, self.0@, r.poly@, p)) by {
                        assert forall|d: int|
                            #[trigger] fadd(
                            p as int,
                            coeff_at(g@, d),
                            coeff_at(Seq::<Mod>::empty(), d),
                        ) == fadd(p as int, conv1(qq, self.0@, d, p), coeff_at(r.poly@, d)) by {
                            crate::poly::lemma_coeff_at_bound(g@, d, p);
                            crate::intmod::lemma_fadd_zero(p as int, coeff_at(g@, d));
                        }
                    }
                }
                Ok(r)
            },
            Err(e) => Err(e),
        }
    }

    /// The residue class of one.
    pub fn one(self) -> (r: PolyMod)
        requires
            self.0.wf(),
        ensures
            r.wf(),
            r.pval() == self.0.pval(),
            coeff_at(r.poly@, 0) == 1,
            r.poly@.len() == 1,
    {
        let o = self.0.one();
        PolyMod { poly: o, modulus: self }
    }

    /// The residue class of zero.
    pub fn zero(self) -> (r: PolyMod)
        requires
            self.0.wf(),
        ensures
            r.wf(),
            r.pval() == self.0.pval(),
            all_zero(r.poly@),
    {
        let z = self.0.zero();
        PolyMod { poly: z, modulus: self }
    }
}

impl PolyMod {
    /// The modulus of the coefficient field.
    pub open spec fn pval(&self) -> nat {
        self.poly.pval()
    }

    /// Well-formed: representative and modulus over one field.
    pub open spec fn wf(&self) -> bool {
        &&& self.poly.wf()
        &&& self.modulus.0.wf()
        &&& self.poly.pval() == self.modulus.0.pval()
    }

    /// Two residues are taken against the same modulus polynomial.
    pub open spec fn same_modulus(&self, other: &PolyMod) -> bool {
        &&& self.pval() == other.pval()
        &&& forall|d: int| coeff_at(self.modulus.0@, d) == coeff_at(other.modulus.0@, d)
    }

    /// Wrap a representative against a modulus, as given.
    pub fn new(poly: Poly, modulus: Modulus) -> (r: Self)
        requires
            poly.wf(),
            modulus.0.wf(),
            poly.pval() == modulus.0.pval(),
        ensures
            r.wf(),
            r.poly == poly,
            r.modulus == modulus,
    {
        PolyMod { poly, modulus }
    }

    /// The zero residue of this ring.
    pub fn zero(&self) -> (r: Self)
        requires
            self.wf(),
        ensures
            r.wf(),
            r.pval() == self.pval(),
            all_zero(r.poly@),
    {
        PolyMod { poly: self.poly.zero(), modulus: self.modulus.clone() }
    }

    /// The one residue of this ring.
    pub fn one(&self) -> (r: Self)
        requires
            self.wf(),
        ensures
            r.wf(),
            r.pval() == self.pval(),
            coeff_at(r.poly@, 0) == 1,
            r.poly@.len() == 1,
    {
        PolyMod { poly: self.poly.one(), modulus: self.modulus.clone() }
    }

    /// Whether the representative is the zero polynomial.
    pub fn is_zero(&self) -> (r: bool)
        requires
            self.wf(),
        ensures
            r == all_zero(self.poly@),
    {
        self.poly.is_zero()
    }

    /// Whether the representative is the constant one.
    pub fn is_one(&self) -> (r: bool)
        requires
            self.wf(),
        ensures
            r == (self.poly@.len() == 1 && self.poly@[0].val() == 1),
    {
        self.poly.is_one()
    }

    /// Sum of two residues, reduced against the modulus.
    pub fn add(&self, rhs: &Self) -> (res: Result<Self, MathError>)
        requires
            self.wf(),
            rhs.wf(),
            self.same_modulus(rhs),
        ensures
            match res {
                Ok(r) => {
                    &&& r.wf()
                    &&& r.pval() == self.pval()
                    &&& exists|q: Seq<Mod>|
                        sum_decomposes(
                            self.poly@,
                            rhs.poly@,
                            q,
                            self.modulus.0@,
                            r.poly@,
                            self.pval(),
                        )
                },
                Err(e) => {
                    &&& (e == MathError::DivisionByZero <==> all_zero(self.modulus.0@))
                    &&& (e == MathError::NotInvertible <==> (!all_zero(self.modulus.0@) && gcd(
                        self.modulus.0@[0].val(),
                        self.pval(),
                    ) != 1))
                    &&& (e == MathError::DivisionByZero || e == MathError::NotInvertible)
                },
            },
    {
        let ghost p = self.pval();
        let s = self.poly.add(&rhs.poly);
        match Poly::div_rem(&s, &self.modulus.0) {
            Ok(qr) => {
                let r = PolyMod { poly: qr.1, modulus: self.modulus.clone() };
                proof {
                    let qq = qr.0@;
                    assert(sum_decomposes(
                        self.poly@,
                        rhs.poly@,
                        qq,
                        self.modulus.0@,
                        r.poly@,
                        p,
                    )) by {
                        assert forall|d: int|
                            #[trigger] fadd(
                            p as int,
                            coeff_at(self.poly@, d),
                            coeff_at(rhs.poly@, d),
                        ) == fadd(
                            p as int,
                            conv1(qq, self.modulus.0@, d, p),
                            coeff_at(r.poly@, d),
                        ) by {
                            assert(coeff_at(s@, d) == fadd(
                                p as int,
                                coeff_at(self.poly@, d),
                                coeff_at(rhs.poly@, d),
                            ));
                        }
                    }
                }
                Ok(r)
            },
            Err(e) => Err(e),
        }
    }

    /// Additive inverse of a residue: the negated representative.
    pub fn neg(&self) -> (r: Self)
        requires
            self.wf(),
        ensures
            r.wf(),
            r.pval() == self.pval(),
            forall|d: int| coeff_at(r.modulus.0@, d) == coeff_at(self.modulus.0@, d),
            forall|d: int|
                coeff_at(r.poly@, d) == fneg(self.pval() as int, coeff_at(self.poly@, d)),
    {
        PolyMod { poly: self.poly.neg(), modulus: self.modulus.clone() }
    }

    /// Difference of two residues, reduced against the modulus.
    pub fn sub(&self, rhs: &Self) -> (res: Result<Self, MathError>)
        requires
            self.wf(),
            rhs.wf(),
            self.same_modulus(rhs),
        ensures
            match res {
                Ok(r) => {
                    &&& r.wf()
                    &&& r.pval() == self.pval()
                    &&& exists|q: Seq<Mod>|
                        diff_decomposes(
                            self.poly@,
                            rhs.poly@,
                            q,
                            self.modulus.0@,
                            r.poly@,
                            self.pval(),
                        )
                },
                Err(e) => {
                    &&& (e == MathError::DivisionByZero <==> all_zero(self.modulus.0@))
                    &&& (e == MathError::NotInvertible <==> (!all_zero(self.modulus.0@) && gcd(
                        self.modulus.0@[0].val(),
                        self.pval(),
                    ) != 1))
                    &&& (e == MathError::DivisionByZero || e == MathError::NotInvertible)
                },
            },
    {
        let ghost p = self.pval();
        let n = rhs.neg();
        let res = self.add(&n);
        proof {
            if let Ok(ref r) = res {
                let q = choose|q: Seq<Mod>|
                    sum_decomposes(self.poly@, n.poly@, q, self.modulus.0@, r.poly@, p);
                assert(diff_decomposes(
                    self.poly@,
                    rhs.poly@,
                    q,
                    self.modulus.0@,
                    r.poly@,
                    p,
                )) by {
                    assert forall|d: int|
                        #[trigger] fsub(
                        p as int,
                        coeff_at(self.poly@, d),
                        coeff_at(rhs.poly@, d),
                    ) == fadd(
                        p as int,
                        conv1(q, self.modulus.0@, d, p),
                        coeff_at(r.poly@, d),
                    ) by {
                        assert(fadd(p as int, coeff_at(self.poly@, d), coeff_at(n.poly@, d))
                            == fadd(
                            p as int,
                            conv1(q, self.modulus.0@, d, p),
                            coeff_at(r.poly@, d),
                        ));
                        crate::poly::lemma_coeff_at_bound(self.poly@, d, p);
                        crate::poly::lemma_coeff_at_bound(rhs.poly@, d, p);
                        crate::intmod::lemma_fsub_is_fadd_fneg(
                            p as int,
                            coeff_at(self.poly@, d),
                            coeff_at(rhs.poly@, d),
                        );
                    }
                }
            }
        }
        res
    }

    /// Product of two residues, reduced against the modulus.
    pub fn mul(&self, rhs: &Self) -> (res: Result<Self, MathError>)
        requires
            self.wf(),
            rhs.wf(),
            self.same_modulus(rhs),
        ensures
            match res {
                Ok(r) => {
                    &&& r.wf()
                    &&& r.pval() == self.pval()
                    &&& exists|q: Seq<Mod>|
                        prod_decomposes(
                            self.poly@,
                            rhs.poly@,
                            q,
                            self.modulus.0@,
                            r.poly@,
                            self.pval(),
                        )
                },
                Err(e) => {
                    &&& (e == MathError::DivisionByZero <==> all_zero(self.modulus.0@))
                    &&& (e == MathError::NotInvertible <==> (!all_zero(self.modulus.0@) && gcd(
                        self.modulus.0@[0].val(),
                        self.pval(),
                    ) != 1))
                    &&& (e == MathError::DivisionByZero || e == MathError::NotInvertible)
                },
            },
    {
        let ghost p = self.pval();
        let s = self.poly.mul(&rhs.poly);
        match Poly::div_rem(&s, &self.modulus.0) {
            Ok(qr) => {
                let r = PolyMod { poly: qr.1, modulus: self.modulus.clone() };
                proof {
                    let qq = qr.0@;
                    assert(prod_decomposes(
                        self.poly@,
                        rhs.poly@,
                        qq,
                        self.modulus.0@,
                        r.poly@,
                        p,
                    )) by {
                        assert forall|d: int|
                            #[trigger] conv1(self.poly@, rhs.poly@, d, p) == fadd(
                            p as int,
                            conv1(qq, self.modulus.0@, d, p),
                            coeff_at(r.poly@, d),
                        ) by {
                            assert(coeff_at(s@, d) == conv1(self.poly@, rhs.poly@, d, p));
                        }
                    }
                }
                Ok(r)
            },
            Err(e) => Err(e),
        }
    }

    /// Multiplicative inverse of a residue, by the extended Euclidean
    /// algorithm on the representative and the modulus; the resulting
    /// product is checked to reduce to one before the inverse is returned.
    #[verifier::rlimit(50)]
    pub fn inverse(&self) -> (res: Result<Self, MathError>)
        requires
            self.wf(),
        ensures
            match res {
                Ok(r) => {
                    &&& r.wf()
                    &&& r.pval() == self.pval()
                    &&& exists|q: Seq<Mod>|
                        inverse_witness(self.poly@, r.poly@, q, self.modulus.0@, self.pval())
                },
                Err(e) => e == MathError::NotInvertible || e == MathError::DivisionByZero,
            },
            res == Err::<PolyMod, MathError>(MathError::DivisionByZero) ==> all_zero(
                self.modulus.0@,
            ),
    {
        let ghost p = self.pval();
        let uvd = match Poly::gcdext(&self.poly, &self.modulus.0) {
            Ok(t) => t,
            Err(_) => {
                return Err(MathError::NotInvertible);
            },
        };
        if !uvd.2.is_constant() {
            return Err(MathError::NotInvertible);
        }
        proof {
            assert(uvd.2@[0].wf());
        }
        let c = match uvd.2.coeffs[0].inverse() {
            Ok(c) => c,
            Err(_) => {
                return Err(MathError::NotInvertible);
            },
        };
        let cand = PolyMod { poly: uvd.0.multiple(&c), modulus: self.modulus.clone() };
        let z = match self.mul(&cand) {
            Ok(z) => z,
            Err(e) => {
                return Err(e);
            },
        };
        if z.is_one() {
            proof {
                let q = choose|q: Seq<Mod>|
                    prod_decomposes(self.poly@, cand.poly@, q, self.modulus.0@, z.poly@, p);
                assert(inverse_witness(self.poly@, cand.poly@, q, self.modulus.0@, p)) by {
                    assert forall|d: int|
                        #[trigger] conv1(self.poly@, cand.poly@, d, p) == fadd(
                        p as int,
                        conv1(q, self.modulus.0@, d, p),
                        if d == 0 {
                            1int
                        } else {
                            0int
                        },
                    ) by {
                        assert(conv1(self.poly@, cand.poly@, d, p) == fadd(
                            p as int,
                            conv1(q, self.modulus.0@, d, p),
                            coeff_at(z.poly@, d),
                        ));
                        assert(coeff_at(z.poly@, d) == if d == 0 {
                            1int
                        } else {
                            0int
                        });
                    }
                }
            }
            Ok(cand)
        } else {
            Err(MathError::NotInvertible)
        }
    }

    /// Chinese remaindering: a residue congruent to each given residue
    /// against its own modulus, when the moduli admit the construction.
    /// Every congruence of the result is checked before it is returned.
    pub fn chinese(moduli: &Vec<PolyMod>) -> (res: Option<PolyMod>)
        requires
            moduli@.len() >= 1,
            forall|i: int| 0 <= i < moduli@.len() ==> (#[trigger] moduli@[i]).wf(),
            forall|i: int|
                0 <= i < moduli@.len() ==> (#[trigger] moduli@[i]).pval() == moduli@[0].pval(),
        ensures
            match res {
                Some(z) => {
                    &&& z.wf()
                    &&& z.pval() == moduli@[0].pval()
                    &&& chinese_ok(z, moduli@)
                    &&& modulus_is_product(z, moduli@, moduli@[0].pval())
                },
                None => true,
            },
    {
        let ghost p = moduli@[0].pval();
        let s = moduli.len();
        let mut m = moduli[0].modulus.0.clone();
        let mut x = moduli[0].poly.clone();
        proof {
            assert(moduli@[0].wf());
        }
        let ghost mut ps: Seq<Seq<Mod>> = seq![m@];
        proof {
            assert(ps[0] == m@ && ps.len() == 1);
        }
        let mut i: usize = 1;
        while i < s
            invariant
                s == moduli@.len(),
                1 <= i <= s,
                forall|ii: int| 0 <= ii < s ==> (#[trigger] moduli@[ii]).wf(),
                forall|ii: int| 0 <= ii < s ==> (#[trigger] moduli@[ii]).pval() == p,
                p == moduli@[0].pval(),
                x.wf(),
                m.wf(),
                x.pval() == p,
                m.pval() == p,
                ps.len() == i,
                ps.last() == m@,
                forall|k: int| #[trigger] coeff_at(ps[0], k) == coeff_at(moduli@[0].modulus.0@, k),
                forall|ii: int, k: int|
                    1 <= ii < ps.len() ==> #[trigger] coeff_at(ps[ii], k) == conv1(
                        ps[ii - 1],
                        moduli@[ii].modulus.0@,
                        k,
                        p,
                    ),
            decreases s - i,
        {
            let ghost psold = ps;
            proof {
                assert(moduli@[i as int].wf());
            }
            let uvd = match Poly::gcdext(&moduli[i].modulus.0, &m) {
                Ok(t) => t,
                Err(_) => {
                    return None;
                },
            };
            if !uvd.2.is_one() {
                return None;
            }
            // x <- u * m_i * x + v * m * x_i, against the combined modulus
            let t1 = uvd.0.mul(&moduli[i].modulus.0).mul(&x);
            let t2 = uvd.1.mul(&m).mul(&moduli[i].poly);
            let sum = t1.add(&t2);
            let m2 = m.mul(&moduli[i].modulus.0);
            let (_, xr) = match Poly::div_rem(&sum, &m2) {
                Ok(t) => t,
                Err(_) => {
                    return None;
                },
            };
            proof {
                ps = ps.push(m2@);
                assert forall|ii: int, k: int|
                    1 <= ii < ps.len() implies #[trigger] coeff_at(ps[ii], k) == conv1(
                    ps[ii - 1],
                    moduli@[ii].modulus.0@,
                    k,
                    p,
                ) by {
                    if ii < ps.len() - 1 {
                        assert(ps[ii] == psold[ii] && ps[ii - 1] == psold[ii - 1]);
                        assert(coeff_at(psold[ii], k) == conv1(
                            psold[ii - 1],
                            moduli@[ii].modulus.0@,
                            k,
                            p,
                        ));
                    } else {
                        assert(ps[ii] == m2@ && ps[ii - 1] == psold.last());
                        assert(coeff_at(m2@, k) == conv1(m@, moduli@[ii].modulus.0@, k, p));
                    }
                }
            }
            m = m2;
            x = xr;
            i = i + 1;
        }
        let z = PolyMod { poly: x, modulus: Modulus(m) };
        // verify every congruence of the candidate before handing it out
        let ghost mut qsw: Seq<Seq<Mod>> = Seq::empty();
        let mut i: usize = 0;
        while i < s
            invariant
                s == moduli@.len(),
                i <= s,
                forall|ii: int| 0 <= ii < s ==> (#[trigger] moduli@[ii]).wf(),
                forall|ii: int| 0 <= ii < s ==> (#[trigger] moduli@[ii]).pval() == p,
                p == moduli@[0].pval(),
                z.wf(),
                z.pval() == p,
                qsw.len() == i,
                forall|ii: int|
                    0 <= ii < i ==> same_class(
                        z.poly@,
                        (#[trigger] moduli@[ii]).poly@,
                        qsw[ii],
                        moduli@[ii].modulus.0@,
                        p,
                    ),
            decreases s - i,
        {
            proof {
                assert(moduli@[i as int].wf());
            }
            let diff = z.poly.sub(&moduli[i].poly);
            let (qq, rr) = match Poly::div_rem(&diff, &moduli[i].modulus.0) {
                Ok(t) => t,
                Err(_) => {
                    return None;
                },
            };
            if !rr.is_zero() {
                return None;
            }
            proof {
                let qv = qq@;
                assert(same_class(
                    z.poly@,
                    moduli@[i as int].poly@,
                    qv,
                    moduli@[i as int].modulus.0@,
                    p,
                )) by {
                    assert forall|d: int|
                        #[trigger] fsub(
                        p as int,
                        coeff_at(z.poly@, d),
                        coeff_at(moduli@[i as int].poly@, d),
                    ) == conv1(qv, moduli@[i as int].modulus.0@, d, p) by {
                        assert(coeff_at(diff@, d) == fsub(
                            p as int,
                            coeff_at(z.poly@, d),
                            coeff_at(moduli@[i as int].poly@, d),
                        ));
                        assert(coeff_at(diff@, d) == fadd(
                            p as int,
                            conv1(qv, moduli@[i as int].modulus.0@, d, p),
                            coeff_at(rr@, d),
                        ));
                        assert(coeff_at(rr@, d) == 0);
                        crate::poly::lemma_topcross_bound(
                            qv,
                            moduli@[i as int].modulus.0@,
                            d,
                            0,
                            p,
                        );
                        crate::intmod::lemma_fadd_zero(
                            p as int,
                            conv1(qv, moduli@[i as int].modulus.0@, d, p),
                        );
                    }
                }
            }
            proof {
                qsw = qsw.push(qq@);
                assert forall|ii: int|
                    0 <= ii < i + 1 implies same_class(
                    z.poly@,
                    (#[trigger] moduli@[ii]).poly@,
                    qsw[ii],
                    moduli@[ii].modulus.0@,
                    p,
                ) by {
                    if ii < i {
                        assert(qsw[ii] == qsw.drop_last()[ii]);
                    } else {
                        assert(qsw[ii] == qq@);
                    }
                }
            }
            i = i + 1;
        }
        proof {
            assert forall|i: int|
                0 <= i < moduli@.len() implies congruent_to(z, #[trigger] moduli@[i]) by {
                assert(same_class(z.poly@, moduli@[i].poly@, qsw[i], moduli@[i].modulus.0@, p));
                assert(same_class(
                    z.poly@,
                    moduli@[i].poly@,
                    qsw[i],
                    moduli@[i].modulus.0@,
                    z.pval(),
                ));
            }
            assert(chinese_ok(z, moduli@));
            assert(modulus_is_product(z, moduli@, p)) by {
                assert(product_chain(ps, moduli@, p));
                assert(forall|k: int|
                    #[trigger] coeff_at(z.modulus.0@, k) == coeff_at(ps[ps.len() - 1], k));
            }
        }
        Some(z)
    }
}

} // verus!
