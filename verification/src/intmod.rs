//! Prime fields: integers modulo a prime.
//!
//! A [`PrimeField`] carries the modulus; a [`Mod`] is a residue in canonical
//! range `[0, p)`.  All operations state their result as the exact modular
//! value via the spec functions [`fadd`], [`fsub`], [`fmul`] and [`fneg`].
//! Inversion is by the extended Euclidean algorithm and is exact: it succeeds
//! precisely on the residues coprime to the modulus.

use vstd::prelude::*;
use vstd::arithmetic::div_mod::*;
use vstd::arithmetic::mul::*;
use crate::bignat::{
    BigNat, nat_add, nat_sub, nat_mul, nat_div, nat_rem, nat_lt, nat_eq, nat_from_u64,
    nat_random_below, nat_to_decimal, spec_decimal,
};
use vstd::string::StringExecFns;

verus! {

/// Failure cases of the algebra: each one is a precondition violation made
/// recoverable, as a typed error value.
#[derive(Clone, Copy, Debug, PartialEq, Eq, Structural)]
pub enum MathError {
    /// Two elements from different fields were combined.
    MismatchedModulus,
    /// An element with no multiplicative inverse was inverted.
    NotInvertible,
    /// A division by a zero element or zero polynomial.
    DivisionByZero,
    /// A term division whose exponents do not permit subtraction.
    NotDivisible,
    /// A leading-term access on a polynomial without terms.
    EmptyPolynomial,
    /// An exponent sum that does not fit the machine word.
    ExponentOverflow,
}

/// Sum in the ring of integers modulo `p`.
pub open spec fn fadd(p: int, a: int, b: int) -> int {
    (a + b) % p
}

/// Difference in the ring of integers modulo `p`.
pub open spec fn fsub(p: int, a: int, b: int) -> int {
    (a - b) % p
}

/// Product in the ring of integers modulo `p`.
pub open spec fn fmul(p: int, a: int, b: int) -> int {
    (a * b) % p
}

/// Additive inverse in the ring of integers modulo `p`.
pub open spec fn fneg(p: int, a: int) -> int {
    (p - a) % p
}

/// Greatest common divisor, by the Euclidean recursion.
pub open spec fn gcd(a: nat, b: nat) -> nat
    decreases b,
{
    if b == 0 {
        a
    } else {
        gcd(b, a % b)
    }
}

/// A field of integers modulo a prime.  The primality of `p` is the caller's
/// responsibility, as is usual for such constructions; every contract that
/// needs invertibility states it through [`gcd`] instead of assuming it.
#[derive(Debug, PartialEq, Eq)]
pub struct PrimeField {
    pub p: BigNat,
}

/// A residue modulo the prime of its field, kept in `[0, p)`.
#[derive(Debug, PartialEq, Eq)]
pub struct Mod {
    pub n: BigNat,
    pub modulus: PrimeField,
}

impl Clone for PrimeField {
    /// A clone denotes the same field.
    fn clone(&self) -> (r: Self)
        ensures
            r.p.digits@ == self.p.digits@,
            r.pval() == self.pval(),
            r.wf() == self.wf(),
    {
        PrimeField { p: self.p.clone() }
    }
}

impl Clone for Mod {
    /// A clone denotes the same element of the same field.
    fn clone(&self) -> (r: Self)
        ensures
            r.n.digits@ == self.n.digits@,
            r.val() == self.val(),
            r.pval() == self.pval(),
            r.wf() == self.wf(),
    {
        Mod { n: self.n.clone(), modulus: self.modulus.clone() }
    }
}

impl PrimeField {
    /// The modulus as a mathematical integer.
    pub open spec fn pval(&self) -> nat {
        self.p.val()
    }

    /// Well-formed: canonical digits and a modulus of at least two.
    pub open spec fn wf(&self) -> bool {
        &&& self.p.wf()
        &&& self.pval() >= 2
    }

    /// The element of this field with the given representative, reduced.
    pub fn new(&self, num: BigNat) -> (r: Mod)
        requires
            self.wf(),
            num.wf(),
        ensures
            r.wf(),
            r.pval() == self.pval(),
            r.val() == num.val() % self.pval(),
    {
        Mod::new(num, self.clone())
    }

    /// The zero of this field.
    pub fn zero(&self) -> (r: Mod)
        requires
            self.wf(),
        ensures
            r.wf(),
            r.pval() == self.pval(),
            r.val() == 0,
    {
        let n = BigNat::zero();
        proof {
            lemma_small_mod(0, self.pval());
        }
        Mod::new(n, self.clone())
    }

    /// The one of this field.
    pub fn one(&self) -> (r: Mod)
        requires
            self.wf(),
        ensures
            r.wf(),
            r.pval() == self.pval(),
            r.val() == 1,
    {
        let n = nat_from_u64(1);
        proof {
            lemma_small_mod(1, self.pval());
        }
        Mod::new(n, self.clone())
    }

    /// A uniformly random element of this field.  Nothing is known of the
    /// draw beyond its range.
    pub fn random(&self) -> (r: Mod)
        requires
            self.wf(),
        ensures
            r.wf(),
            r.pval() == self.pval(),
    {
        let n = nat_random_below(&self.p);
        proof {
            lemma_small_mod(n.val(), self.pval());
        }
        Mod::new(n, self.clone())
    }
}

impl Mod {
    /// The residue as a mathematical integer.
    pub open spec fn val(&self) -> nat {
        self.n.val()
    }

    /// The modulus as a mathematical integer.
    pub open spec fn pval(&self) -> nat {
        self.modulus.pval()
    }

    /// Well-formed: a canonical residue strictly below a well-formed modulus.
    pub open spec fn wf(&self) -> bool {
        &&& self.n.wf()
        &&& self.modulus.wf()
        &&& self.val() < self.pval()
    }

    /// Two elements belong to the same field.
    pub open spec fn same_field(&self, other: &Mod) -> bool {
        self.pval() == other.pval()
    }

    /// Build an element from a representative, reducing it into `[0, p)`.
    pub fn new(n: BigNat, modulus: PrimeField) -> (r: Mod)
        requires
            n.wf(),
            modulus.wf(),
        ensures
            r.wf(),
            r.pval() == modulus.pval(),
            r.val() == n.val() % modulus.pval(),
    {
        proof {
            lemma_mod_bound(n.val() as int, modulus.pval() as int);
        }
        let reduced = nat_rem(&n, &modulus.p);
        Mod { n: reduced, modulus }
    }

    /// The zero of this element's field.
    pub fn zero(&self) -> (r: Mod)
        requires
            self.wf(),
        ensures
            r.wf(),
            r.pval() == self.pval(),
            r.val() == 0,
    {
        self.modulus.zero()
    }

    /// The one of this element's field.
    pub fn one(&self) -> (r: Mod)
        requires
            self.wf(),
        ensures
            r.wf(),
            r.pval() == self.pval(),
            r.val() == 1,
    {
        self.modulus.one()
    }

    /// Whether this element is zero.
    pub fn is_zero(&self) -> (r: bool)
        requires
            self.wf(),
        ensures
            r == (self.val() == 0),
    {
        self.n.is_zero()
    }

    /// Whether this element is one.
    pub fn is_one(&self) -> (r: bool)
        requires
            self.wf(),
        ensures
            r == (self.val() == 1),
    {
        let one = nat_from_u64(1);
        nat_eq(&self.n, &one)
    }

    /// Sum of two elements of the same field.
    pub fn add(&self, rhs: &Mod) -> (r: Mod)
        requires
            self.wf(),
            rhs.wf(),
            self.same_field(rhs),
        ensures
            r.wf(),
            r.pval() == self.pval(),
            r.val() == fadd(self.pval() as int, self.val() as int, rhs.val() as int),
    {
        let s = nat_add(&self.n, &rhs.n);
        if nat_lt(&s, &self.modulus.p) {
            proof {
                lemma_small_mod(s.val(), self.pval());
            }
            Mod { n: s, modulus: self.modulus.clone() }
        } else {
            let d = nat_sub(&s, &self.modulus.p);
            proof {
                lemma_mod_sub_multiples_vanish(s.val() as int, self.pval() as int);
                lemma_small_mod(d.val(), self.pval());
            }
            Mod { n: d, modulus: self.modulus.clone() }
        }
    }

    /// Additive inverse.
    pub fn neg(&self) -> (r: Mod)
        requires
            self.wf(),
        ensures
            r.wf(),
            r.pval() == self.pval(),
            r.val() == fneg(self.pval() as int, self.val() as int),
    {
        if self.is_zero() {
            proof {
                lemma_mod_self_0(self.pval() as int);
            }
            self.zero()
        } else {
            let d = nat_sub(&self.modulus.p, &self.n);
            proof {
                lemma_small_mod(d.val(), self.pval());
            }
            Mod { n: d, modulus: self.modulus.clone() }
        }
    }

    /// Difference of two elements of the same field.
    pub fn sub(&self, rhs: &Mod) -> (r: Mod)
        requires
            self.wf(),
            rhs.wf(),
            self.same_field(rhs),
        ensures
            r.wf(),
            r.pval() == self.pval(),
            r.val() == fsub(self.pval() as int, self.val() as int, rhs.val() as int),
    {
        let r = self.add(&rhs.neg());
        proof {
            lemma_fsub_is_fadd_fneg(
                self.pval() as int,
                self.val() as int,
                rhs.val() as int,
            );
        }
        r
    }

    /// Product of two elements of the same field.
    pub fn mul(&self, rhs: &Mod) -> (r: Mod)
        requires
            self.wf(),
            rhs.wf(),
            self.same_field(rhs),
        ensures
            r.wf(),
            r.pval() == self.pval(),
            r.val() == fmul(self.pval() as int, self.val() as int, rhs.val() as int),
    {
        let prod = nat_mul(&self.n, &rhs.n);
        proof {
            lemma_mul_nonnegative(self.val() as int, rhs.val() as int);
            lemma_mod_bound(prod.val() as int, self.pval() as int);
        }
        let reduced = nat_rem(&prod, &self.modulus.p);
        Mod { n: reduced, modulus: self.modulus.clone() }
    }

    /// Multiplicative inverse, by the extended Euclidean algorithm.
    /// Succeeds exactly when this element is coprime to the modulus.
    pub fn inverse(&self) -> (r: Result<Mod, MathError>)
        requires
            self.wf(),
        ensures
            match r {
                Ok(x) => {
                    &&& x.wf()
                    &&& x.pval() == self.pval()
                    &&& fmul(self.pval() as int, self.val() as int, x.val() as int) == 1
                    &&& gcd(self.val(), self.pval()) == 1
                },
                Err(e) => {
                    &&& e == MathError::NotInvertible
                    &&& gcd(self.val(), self.pval()) != 1
                },
            },
    {
        let p = &self.modulus.p;
        let ghost pp = self.pval() as int;
        let ghost a = self.val() as int;
        let mut r0 = self.n.clone();
        let mut r1 = p.clone();
        let mut s0 = nat_from_u64(1);
        let mut s1 = BigNat::zero();
        proof {
            lemma_small_mod(1, self.pval());
            lemma_mod_bound(a, pp);
            lemma_small_mod(self.val(), self.pval());
            lemma_mod_self_0(pp);
            lemma_mul_by_zero_is_zero(a);
            lemma_small_mod(0nat, self.pval());
        }
        while !r1.is_zero()
            invariant
                r0.wf(),
                r1.wf(),
                s0.wf(),
                s1.wf(),
                p.wf(),
                pp == p.val(),
                pp >= 2,
                0 <= a < pp,
                s0.val() < pp,
                s1.val() < pp,
                gcd(r0.val(), r1.val()) == gcd(a as nat, pp as nat),
                (s0.val() * a) % pp == (r0.val() as int) % pp,
                (s1.val() * a) % pp == (r1.val() as int) % pp,
            decreases r1.val(),
        {
            let q = nat_div(&r0, &r1);
            let r2 = nat_rem(&r0, &r1);
            let qs = nat_mul(&q, &s1);
            let qs_red = nat_rem(&qs, p);
            proof {
                lemma_mod_bound(qs.val() as int, pp);
            }
            let s2 = nat_rem(&nat_add(&s0, &nat_sub(p, &qs_red)), p);
            proof {
                lemma_mod_bound((s0.val() + (p.val() - qs_red.val())) as int, pp);
                lemma_euclid_step(
                    pp,
                    a,
                    r0.val() as int,
                    r1.val() as int,
                    s0.val() as int,
                    s1.val() as int,
                    q.val() as int,
                );
                assert(gcd(r0.val(), r1.val()) == gcd(r1.val(), r0.val() % r1.val()));
            }
            r0 = r1;
            r1 = r2;
            s0 = s1;
            s1 = s2;
        }
        let one = nat_from_u64(1);
        proof {
            assert(gcd(r0.val(), 0) == r0.val());
        }
        if nat_eq(&r0, &one) {
            proof {
                lemma_small_mod(1, pp as nat);
                lemma_mul_is_commutative(s0.val() as int, a);
            }
            Ok(Mod { n: s0, modulus: self.modulus.clone() })
        } else {
            Err(MathError::NotInvertible)
        }
    }

    /// Quotient: multiplication by the inverse of `rhs`.  Fails with
    /// `DivisionByZero` on a zero divisor and `NotInvertible` on a nonzero
    /// divisor not coprime to the modulus.
    pub fn div(&self, rhs: &Mod) -> (r: Result<Mod, MathError>)
        requires
            self.wf(),
            rhs.wf(),
            self.same_field(rhs),
        ensures
            match r {
                Ok(x) => {
                    &&& x.wf()
                    &&& x.pval() == self.pval()
                    &&& rhs.val() != 0
                    &&& gcd(rhs.val(), self.pval()) == 1
                    &&& exists|i: int|
                        0 <= i < self.pval() && fmul(self.pval() as int, rhs.val() as int, i) == 1
                            && x.val() == fmul(self.pval() as int, self.val() as int, i)
                },
                Err(e) => {
                    &&& (e == MathError::DivisionByZero <==> rhs.val() == 0)
                    &&& (e == MathError::NotInvertible <==> (rhs.val() != 0 && gcd(
                        rhs.val(),
                        self.pval(),
                    ) != 1))
                    &&& (e == MathError::DivisionByZero || e == MathError::NotInvertible)
                },
            },
    {
        if rhs.is_zero() {
            return Err(MathError::DivisionByZero);
        }
        match rhs.inverse() {
            Ok(inv) => {
                let r = self.mul(&inv);
                proof {
                    assert(0 <= inv.val() < self.pval());
                    lemma_mul_is_commutative(rhs.val() as int, inv.val() as int);
                }
                Ok(r)
            },
            Err(e) => Err(e),
        }
    }

    /// The textual form of this element: the value and the modulus.
    pub fn to_string(&self) -> (r: String)
        ensures
            r@ == mod_render(self.val(), self.pval()),
    {
        let mut s = String::from_str("Mod(");
        s.append(nat_to_decimal(&self.n).as_str());
        s.append(",");
        s.append(nat_to_decimal(&self.modulus.p).as_str());
        s.append(")");
        proof {
            assert(s@ =~= mod_render(self.val(), self.pval()));
        }
        s
    }

    /// A one-step sum that reports a modulus mismatch as an error value
    /// instead of demanding proof of matching fields from the caller.
    pub fn checked_add(&self, rhs: &Mod) -> (r: Result<Mod, MathError>)
        requires
            self.wf(),
            rhs.wf(),
        ensures
            match r {
                Ok(x) => {
                    &&& self.same_field(rhs)
                    &&& x.wf()
                    &&& x.pval() == self.pval()
                    &&& x.val() == fadd(self.pval() as int, self.val() as int, rhs.val() as int)
                },
                Err(e) => {
                    &&& e == MathError::MismatchedModulus
                    &&& !self.same_field(rhs)
                },
            },
    {
        if nat_eq(&self.modulus.p, &rhs.modulus.p) {
            Ok(self.add(rhs))
        } else {
            Err(MathError::MismatchedModulus)
        }
    }
}

/// The textual form of a field element: its value and modulus in decimal.
pub open spec fn mod_render(v: nat, p: nat) -> Seq<char> {
    "Mod("@ + spec_decimal(v) + ","@ + spec_decimal(p) + ")"@
}

/// The modular sum lies in `[0, p)`.
pub proof fn lemma_fadd_bound(p: int, a: int, b: int)
    requires
        p >= 1,
    ensures
        0 <= fadd(p, a, b) < p,
        0 <= fmul(p, a, b) < p,
        0 <= fneg(p, a) < p,
        0 <= fsub(p, a, b) < p,
{
    lemma_mod_bound(a + b, p);
    lemma_mod_bound(a * b, p);
    lemma_mod_bound(p - a, p);
    lemma_mod_bound(a - b, p);
}

/// Modular addition is associative.
pub proof fn lemma_fadd_assoc(p: int, a: int, b: int, c: int)
    requires
        p >= 1,
    ensures
        fadd(p, fadd(p, a, b), c) == fadd(p, a, fadd(p, b, c)),
        fadd(p, fadd(p, a, b), c) == (a + b + c) % p,
{
    lemma_add_mod_noop_right(c, a + b, p);
    lemma_add_mod_noop_right(a, b + c, p);
}

/// Zero is the identity of modular addition on reduced values.
pub proof fn lemma_fadd_zero(p: int, a: int)
    requires
        p >= 1,
        0 <= a < p,
    ensures
        fadd(p, a, 0) == a,
        fadd(p, 0, a) == a,
    {
    lemma_small_mod(a as nat, p as nat);
}

/// A reduced value plus its negation vanishes.
pub proof fn lemma_fneg_cancel(p: int, a: int)
    requires
        p >= 1,
        0 <= a < p,
    ensures
        fadd(p, a, fneg(p, a)) == 0,
        fadd(p, fneg(p, a), a) == 0,
{
    lemma_mod_self_0(p);
    if a == 0 {
        lemma_small_mod(0nat, p as nat);
    } else {
        lemma_small_mod((p - a) as nat, p as nat);
    }
}

/// Negating a reduced modular value agrees with negating before reduction.
pub proof fn lemma_fneg_mod(p: int, x: int)
    requires
        p >= 1,
    ensures
        fneg(p, x % p) == (-x) % p,
{
    lemma_mod_bound(x, p);
    lemma_mod_add_multiples_vanish(-(x % p), p);
    lemma_small_mod(0nat, p as nat);
    lemma_sub_mod_noop(0, x, p);
}

/// Modular multiplication distributes over modular addition.
pub proof fn lemma_fmul_distr(p: int, a: int, b: int, c: int)
    requires
        p >= 1,
    ensures
        fmul(p, a, fadd(p, b, c)) == fadd(p, fmul(p, a, b), fmul(p, a, c)),
{
    lemma_mul_mod_noop_right(a, b + c, p);
    lemma_mul_is_distributive_add(a, b, c);
    lemma_add_mod_noop(a * b, a * c, p);
}

/// Multiplying by zero and one, and commutativity.
pub proof fn lemma_fmul_basics(p: int, a: int)
    requires
        p >= 1,
    ensures
        fmul(p, a, 0) == 0,
        fmul(p, 0, a) == 0,
        0 <= a < p ==> fmul(p, a, 1) == a,
        0 <= a < p ==> fmul(p, 1, a) == a,
{
    lemma_mul_basics(a);
    lemma_small_mod(0nat, p as nat);
    if 0 <= a < p {
        lemma_small_mod(a as nat, p as nat);
    }
}

/// Modular multiplication is commutative and associative.
pub proof fn lemma_fmul_assoc(p: int, a: int, b: int, c: int)
    requires
        p >= 1,
    ensures
        fmul(p, a, b) == fmul(p, b, a),
        fmul(p, fmul(p, a, b), c) == fmul(p, a, fmul(p, b, c)),
{
    lemma_mul_is_commutative(a, b);
    lemma_mul_mod_noop_left(a * b, c, p);
    lemma_mul_mod_noop_right(a, b * c, p);
    lemma_mul_is_associative(a, b, c);
}


/// Negation distributes over modular addition.
pub proof fn lemma_fneg_distr(p: int, x: int, y: int)
    requires
        p >= 1,
    ensures
        fneg(p, fadd(p, x, y)) == fadd(p, fneg(p, x), fneg(p, y)),
{
    lemma_fneg_mod(p, x + y);
    lemma_add_mod_noop(p - x, p - y, p);
    lemma_mod_sub_multiples_vanish(p - x - y, p);
    lemma_mod_sub_multiples_vanish(2 * p - x - y, p);
}

/// Rebracketing a modular sum of four addends.
pub proof fn lemma_fadd4(p: int, x: int, a: int, y: int, b: int)
    requires
        p >= 1,
    ensures
        fadd(p, fadd(p, x, a), fadd(p, y, b)) == fadd(p, fadd(p, x, y), fadd(p, a, b)),
        fadd(p, fadd(p, x, a), fadd(p, y, b)) == (x + a + y + b) % p,
{
    lemma_add_mod_noop(x + a, y + b, p);
    lemma_add_mod_noop(x + y, a + b, p);
}


/// For residues, subtraction agrees with adding the negation.
pub proof fn lemma_fsub_is_fadd_fneg(p: int, a: int, b: int)
    requires
        p >= 2,
        0 <= a < p,
        0 <= b < p,
    ensures
        fsub(p, a, b) == fadd(p, a, fneg(p, b)),
{
    lemma_mod_bound(p - b, p);
    if b == 0 {
        lemma_mod_self_0(p);
        lemma_small_mod(a as nat, p as nat);
        lemma_small_mod(0nat, p as nat);
    } else {
        lemma_small_mod((p - b) as nat, p as nat);
        lemma_mod_sub_multiples_vanish(a + p - b, p);
    }
}

/// One step of the extended Euclidean loop preserves the Bezout congruence.
proof fn lemma_euclid_step(p: int, a: int, r0: int, r1: int, s0: int, s1: int, q: int)
    requires
        p >= 2,
        0 <= a < p,
        r1 > 0,
        r0 >= 0,
        0 <= s0 < p,
        0 <= s1 < p,
        (s0 * a) % p == r0 % p,
        (s1 * a) % p == r1 % p,
        q == r0 / r1,
    ensures
        ((s0 + (p - (q * s1) % p)) % p * a) % p == (r0 % r1) % p,
{
    let qs = (q * s1) % p;
    let s2 = (s0 + (p - qs)) % p;
    let r2 = r0 % r1;
    lemma_mod_bound(q * s1, p);
    // r2 == r0 - q * r1
    lemma_fundamental_div_mod(r0, r1);
    assert(r2 == r0 - q * r1);
    // (p - qs) % p == (-(q * s1)) % p
    assert((p - qs) % p == (-(q * s1)) % p) by {
        lemma_mod_add_multiples_vanish(-qs, p);
        lemma_small_mod(0nat, p as nat);
        lemma_sub_mod_noop(0, q * s1, p);
    };
    // s2 == (s0 - q * s1) % p
    assert(s2 == (s0 - q * s1) % p) by {
        lemma_add_mod_noop_right(s0, p - qs, p);
        lemma_add_mod_noop_right(s0, -(q * s1), p);
    };
    // (s2 * a) % p == ((s0 - q * s1) * a) % p
    assert((s2 * a) % p == ((s0 - q * s1) * a) % p) by {
        lemma_mul_mod_noop_left(s0 - q * s1, a, p);
    };
    // ((s0 - q*s1) * a) == s0 * a - q * (s1 * a)
    assert((s0 - q * s1) * a == s0 * a - q * (s1 * a)) by {
        lemma_mul_is_distributive_sub_other_way(a, s0, q * s1);
        lemma_mul_is_associative(q, s1, a);
    };
    assert((s0 * a - q * (s1 * a)) % p == (r0 - q * r1) % p) by {
        lemma_sub_mod_noop(s0 * a, q * (s1 * a), p);
        lemma_sub_mod_noop(r0, q * r1, p);
        assert((q * (s1 * a)) % p == (q * r1) % p) by {
            lemma_mul_mod_noop_right(q, s1 * a, p);
            lemma_mul_mod_noop_right(q, r1, p);
        };
    };
}

} // verus!
