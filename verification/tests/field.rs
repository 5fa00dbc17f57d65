//! Tests of the prime field layer and the big natural numbers beneath it.

use algebra::bignat::{nat_eq, nat_from_u64, nat_lt, nat_to_decimal, BigNat};
use algebra::intmod::{MathError, Mod, PrimeField};

fn z13() -> PrimeField {
    PrimeField { p: nat_from_u64(13) }
}

fn el(f: &PrimeField, n: u64) -> Mod {
    f.new(nat_from_u64(n))
}

#[test]
fn test_mod_arithmetic() {
    let z13 = z13();
    let x = el(&z13, 12);
    let y = el(&z13, 3);
    assert_eq!(el(&z13, 2), x.add(&y));
    assert_eq!(el(&z13, 9), x.sub(&y));
    assert_eq!(el(&z13, 10), x.mul(&y));
    assert_eq!(el(&z13, 4), x.div(&y).unwrap());
    assert_eq!(el(&z13, 1), x.neg());
}

#[test]
fn test_mod_reduction() {
    let z13 = z13();
    // representatives are reduced into the canonical range
    assert_eq!(el(&z13, 28), el(&z13, 2));
    assert!(z13.zero().is_zero());
    assert!(z13.one().is_one());
    assert!(!z13.one().is_zero());
}

#[test]
fn test_inverse() {
    let z13 = z13();
    let four = el(&z13, 4);
    let inv = four.inverse().unwrap();
    assert_eq!(inv, el(&z13, 10));
    assert_eq!(four.mul(&inv), z13.one());
    // zero has no inverse
    assert_eq!(z13.zero().inverse(), Err(MathError::NotInvertible));
    // modulo 12 the residue 4 shares a factor with the modulus
    let z12 = PrimeField { p: nat_from_u64(12) };
    let bad = z12.new(nat_from_u64(4));
    assert_eq!(bad.inverse(), Err(MathError::NotInvertible));
}

#[test]
fn test_division_by_zero_element() {
    let z13 = z13();
    assert_eq!(el(&z13, 5).div(&z13.zero()), Err(MathError::DivisionByZero));
}

#[test]
fn test_mismatched_modulus() {
    let z13 = z13();
    let z17 = PrimeField { p: nat_from_u64(17) };
    let a = el(&z13, 5);
    let b = z17.new(nat_from_u64(5));
    assert_eq!(a.checked_add(&b), Err(MathError::MismatchedModulus));
    assert_eq!(a.checked_add(&a).unwrap(), el(&z13, 10));
}

#[test]
fn test_random_in_range() {
    let z13 = z13();
    for _ in 0..32 {
        let r = z13.random();
        assert!(nat_lt(&r.n, &z13.p));
    }
}

#[test]
fn test_bignat_values() {
    let a = nat_from_u64(60);
    let b = nat_from_u64(24);
    assert!(nat_lt(&b, &a));
    assert!(!nat_lt(&a, &b));
    assert!(nat_eq(&a, &nat_from_u64(60)));
    assert!(BigNat::zero().is_zero());
    assert!(!a.is_zero());
    assert_eq!(nat_to_decimal(&a), "60");
    assert_eq!(nat_to_decimal(&BigNat::zero()), "0");
}

#[test]
fn test_mod_to_string() {
    let z13 = z13();
    assert_eq!(el(&z13, 5).to_string(), "Mod(5,13)");
    assert_eq!(z13.zero().to_string(), "Mod(0,13)");
}
