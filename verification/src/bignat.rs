//! Arbitrary-precision natural numbers.
//!
//! A `BigNat` stores the little-endian base-2^32 digits of a natural number.
//! The mathematical value of a digit sequence is given by the spec function
//! [`value`], so every contract in this crate can speak about the exact
//! integer a `BigNat` denotes.  The arithmetic itself is delegated to the
//! `num_bigint` crate through small trusted wrappers; each wrapper's contract
//! states what the wrapped operation computes in terms of [`value`].

use vstd::prelude::*;

verus! {

/// Base of the digit representation: 2^32.
pub open spec fn base() -> nat {
    0x1_0000_0000
}

/// The natural number denoted by a little-endian sequence of base-2^32 digits.
pub open spec fn value(s: Seq<u32>) -> nat
    decreases s.len(),
{
    if s.len() == 0 {
        0
    } else {
        (s[0] + base() * value(s.skip(1))) as nat
    }
}

/// A digit sequence is canonical when it has no most-significant zero digit.
/// `num_bigint` produces exactly this form, so equal values have equal digits.
pub open spec fn canonical(s: Seq<u32>) -> bool {
    s.len() == 0 || s[s.len() - 1] != 0
}

/// An arbitrary-precision natural number in canonical little-endian form.
#[derive(Debug, PartialEq, Eq)]
pub struct BigNat {
    pub digits: Vec<u32>,
}

impl Clone for BigNat {
    /// A clone denotes the same number.
    fn clone(&self) -> (r: Self)
        ensures
            r.digits@ == self.digits@,
    {
        let digits = self.digits.clone();
        proof {
            assert(digits@ =~= self.digits@);
        }
        BigNat { digits }
    }
}

impl BigNat {
    /// The integer this number denotes.
    pub open spec fn val(&self) -> nat {
        value(self.digits@)
    }

    /// Well-formed: the digit vector is canonical.
    pub open spec fn wf(&self) -> bool {
        canonical(self.digits@)
    }

    /// The number zero.
    pub fn zero() -> (r: BigNat)
        ensures
            r.wf(),
            r.val() == 0,
    {
        BigNat { digits: Vec::new() }
    }

    /// Whether this number is zero.
    pub fn is_zero(&self) -> (r: bool)
        requires
            self.wf(),
        ensures
            r == (self.val() == 0),
    {
        proof {
            lemma_canonical_value_zero(self.digits@);
        }
        self.digits.len() == 0
    }
}

/// Sum of two numbers.  Relies on `num_bigint::BigUint`'s `Add`.
#[verifier::external_body]
pub(crate) fn nat_add(a: &BigNat, b: &BigNat) -> (r: BigNat)
    ensures
        r.wf(),
        r.val() == a.val() + b.val(),
{
    let x = num_bigint::BigUint::from_slice(&a.digits);
    let y = num_bigint::BigUint::from_slice(&b.digits);
    BigNat { digits: (x + y).to_u32_digits() }
}

/// Difference of two numbers.  Relies on `num_bigint::BigUint`'s `Sub`,
/// which panics on underflow; the precondition rules that out.
#[verifier::external_body]
pub(crate) fn nat_sub(a: &BigNat, b: &BigNat) -> (r: BigNat)
    requires
        b.val() <= a.val(),
    ensures
        r.wf(),
        r.val() == a.val() - b.val(),
{
    let x = num_bigint::BigUint::from_slice(&a.digits);
    let y = num_bigint::BigUint::from_slice(&b.digits);
    BigNat { digits: (x - y).to_u32_digits() }
}

/// Product of two numbers.  Relies on `num_bigint::BigUint`'s `Mul`.
#[verifier::external_body]
pub(crate) fn nat_mul(a: &BigNat, b: &BigNat) -> (r: BigNat)
    ensures
        r.wf(),
        r.val() == a.val() * b.val(),
{
    let x = num_bigint::BigUint::from_slice(&a.digits);
    let y = num_bigint::BigUint::from_slice(&b.digits);
    BigNat { digits: (x * y).to_u32_digits() }
}

/// Euclidean quotient.  Relies on `num_bigint::BigUint`'s `Div`, which
/// panics on a zero divisor; the precondition rules that out.
#[verifier::external_body]
pub(crate) fn nat_div(a: &BigNat, b: &BigNat) -> (r: BigNat)
    requires
        b.val() > 0,
    ensures
        r.wf(),
        r.val() == a.val() / b.val(),
{
    let x = num_bigint::BigUint::from_slice(&a.digits);
    let y = num_bigint::BigUint::from_slice(&b.digits);
    BigNat { digits: (x / y).to_u32_digits() }
}

/// Euclidean remainder.  Relies on `num_bigint::BigUint`'s `Rem`, which
/// panics on a zero divisor; the precondition rules that out.
#[verifier::external_body]
pub(crate) fn nat_rem(a: &BigNat, b: &BigNat) -> (r: BigNat)
    requires
        b.val() > 0,
    ensures
        r.wf(),
        r.val() == a.val() % b.val(),
{
    let x = num_bigint::BigUint::from_slice(&a.digits);
    let y = num_bigint::BigUint::from_slice(&b.digits);
    BigNat { digits: (x % y).to_u32_digits() }
}

/// Strict comparison.  Relies on `num_bigint::BigUint`'s `Ord`.
#[verifier::external_body]
pub fn nat_lt(a: &BigNat, b: &BigNat) -> (r: bool)
    ensures
        r == (a.val() < b.val()),
{
    let x = num_bigint::BigUint::from_slice(&a.digits);
    let y = num_bigint::BigUint::from_slice(&b.digits);
    x < y
}

/// Value equality.  Relies on `num_bigint::BigUint`'s `PartialEq`.
#[verifier::external_body]
pub fn nat_eq(a: &BigNat, b: &BigNat) -> (r: bool)
    ensures
        r == (a.val() == b.val()),
{
    let x = num_bigint::BigUint::from_slice(&a.digits);
    let y = num_bigint::BigUint::from_slice(&b.digits);
    x == y
}

/// Conversion from a machine integer.  Relies on `num_bigint::BigUint::from`.
#[verifier::external_body]
pub fn nat_from_u64(x: u64) -> (r: BigNat)
    ensures
        r.wf(),
        r.val() == x,
{
    BigNat { digits: num_bigint::BigUint::from(x).to_u32_digits() }
}

/// A number drawn uniformly below `bound`.  Relies on
/// `num_bigint::RandBigInt::gen_biguint_below`, which panics on a zero
/// bound; the precondition rules that out.  Nothing is promised of the
/// draw beyond its range.
#[verifier::external_body]
pub(crate) fn nat_random_below(bound: &BigNat) -> (r: BigNat)
    requires
        bound.val() > 0,
    ensures
        r.wf(),
        r.val() < bound.val(),
{
    let b = num_bigint::BigUint::from_slice(&bound.digits);
    let mut rng = rand::thread_rng();
    let n = num_bigint::RandBigInt::gen_biguint_below(&mut rng, &b);
    BigNat { digits: n.to_u32_digits() }
}

/// Decimal rendering.  Relies on `num_bigint::BigUint::to_str_radix` with
/// radix ten: most significant digit first, no leading zeros, `"0"` for zero.
#[verifier::external_body]
pub fn nat_to_decimal(a: &BigNat) -> (r: String)
    ensures
        r@ == spec_decimal(a.val()),
{
    num_bigint::BigUint::from_slice(&a.digits).to_str_radix(10)
}

/// The decimal digit character for a value below ten.
pub open spec fn decimal_digit(d: nat) -> char {
    if d == 0 { '0' }
    else if d == 1 { '1' }
    else if d == 2 { '2' }
    else if d == 3 { '3' }
    else if d == 4 { '4' }
    else if d == 5 { '5' }
    else if d == 6 { '6' }
    else if d == 7 { '7' }
    else if d == 8 { '8' }
    else { '9' }
}

/// Decimal digits of a positive number, most significant first.
pub open spec fn decimal_digits(n: nat) -> Seq<char>
    decreases n,
{
    if n == 0 {
        Seq::empty()
    } else {
        decimal_digits(n / 10).push(decimal_digit(n % 10))
    }
}

/// The decimal rendering of a natural number.
pub open spec fn spec_decimal(n: nat) -> Seq<char> {
    if n == 0 {
        seq!['0']
    } else {
        decimal_digits(n)
    }
}

/// A canonical digit sequence denotes zero exactly when it is empty.
pub proof fn lemma_canonical_value_zero(s: Seq<u32>)
    requires
        canonical(s),
    ensures
        (value(s) == 0) <==> (s.len() == 0),
    decreases s.len(),
{
    if s.len() > 0 {
        if s.len() == 1 {
            assert(s[s.len() - 1] != 0);
            assert(value(s) == s[0] + base() * value(s.skip(1)));
            assert(s.skip(1).len() == 0);
        } else {
            assert(canonical(s.skip(1))) by {
                assert(s.skip(1)[s.skip(1).len() - 1] == s[s.len() - 1]);
            }
            lemma_canonical_value_zero(s.skip(1));
            assert(value(s) == s[0] + base() * value(s.skip(1)));
        }
    }
}

} // verus!
