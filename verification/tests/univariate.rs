//! Tests of the univariate layer: polynomial ring arithmetic, division,
//! the extended Euclidean algorithm, and Chinese remaindering.

use algebra::bignat::nat_from_u64;
use algebra::intmod::{Mod, PrimeField};
use algebra::poly::Poly;
use algebra::polymod::{Modulus, PolyMod};

fn z13() -> PrimeField {
    PrimeField { p: nat_from_u64(13) }
}

fn el(f: &PrimeField, n: u64) -> Mod {
    f.new(nat_from_u64(n))
}

#[test]
fn test_add_poly() {
    let z13 = z13();
    let p1 = Poly::new_from_coeffs(&vec![el(&z13, 1), el(&z13, 2), el(&z13, 3)]);
    let p2 = Poly::new_from_coeffs(&vec![el(&z13, 5), el(&z13, 2)]);
    let expected_add = Poly::new_from_coeffs(&vec![el(&z13, 1), el(&z13, 7), el(&z13, 5)]);
    let expected_sub = Poly::new_from_coeffs(&vec![el(&z13, 1), el(&z13, 10), el(&z13, 1)]);
    let expected_mul = Poly::new_from_coeffs(&vec![
        el(&z13, 5),
        el(&z13, 12),
        el(&z13, 6),
        el(&z13, 6),
    ]);
    let expected_quot = Poly::new_from_coeffs(&vec![el(&z13, 8), el(&z13, 5)]);
    let expected_rem = Poly::new_from_coeffs(&vec![el(&z13, 6)]);

    assert_eq!(expected_add, p1.add(&p2));
    assert_eq!(expected_sub, p1.sub(&p2));
    assert_eq!(expected_mul, p1.mul(&p2));
    let (q, r) = Poly::div_rem(&p1, &p2).unwrap();
    assert_eq!(expected_quot, q);
    assert_eq!(expected_rem, r);
}

#[test]
fn gcdext_univariate() {
    let z13 = z13();
    let p1 = Poly::new_from_coeffs(&vec![
        el(&z13, 1),
        z13.zero(),
        el(&z13, 10),
        el(&z13, 2),
    ]);
    let p2 = Poly::new_from_coeffs(&vec![el(&z13, 1), z13.zero(), z13.one().neg()]);
    let gcd = Poly::gcdext(&p1, &p2).unwrap();

    let expected_gcd = Poly::new_from_coeffs(&vec![el(&z13, 11), el(&z13, 2)]);
    assert_eq!(gcd.2, expected_gcd);
}

#[test]
fn test_bezout_univariate() {
    let z13 = z13();
    let p1 = Poly::new_from_coeffs(&vec![
        el(&z13, 1),
        z13.zero(),
        el(&z13, 10),
        el(&z13, 2),
    ]);
    let p2 = Poly::new_from_coeffs(&vec![el(&z13, 1), z13.zero(), z13.one().neg()]);
    let bezout = Poly::gcdext(&p1, &p2).unwrap();
    let gcd = p1.mul(&bezout.0).add(&p2.mul(&bezout.1));
    assert_eq!(gcd, bezout.2);
}

#[test]
fn test_gcdext_polynomial() {
    let z13 = z13();
    let p1 = Poly::new_from_coeffs(&vec![el(&z13, 1), el(&z13, 0), el(&z13, 9)]);
    let p2 = Poly::new_from_coeffs(&vec![el(&z13, 1), el(&z13, 0)]);
    let expected_pol_d = Poly::new_from_coeffs(&vec![el(&z13, 9)]);
    let expected_pol_u = Poly::new_from_coeffs(&vec![el(&z13, 1)]);
    let expected_pol_v = Poly::new_from_coeffs(&vec![el(&z13, 12), el(&z13, 0)]);
    let bez = Poly::gcdext(&p1, &p2).unwrap();
    assert_eq!(bez.0, expected_pol_u);
    assert_eq!(bez.1, expected_pol_v);
    assert_eq!(bez.2, expected_pol_d);
}

#[test]
fn text_poly_ops() {
    let z13 = z13();
    let p1 = Poly::new_from_coeffs(&vec![el(&z13, 1), el(&z13, 2), el(&z13, 3)]);
    let p2 = Poly::new_from_coeffs(&vec![el(&z13, 5), el(&z13, 2)]);
    let add = Poly::new_from_coeffs(&vec![el(&z13, 1), el(&z13, 7), el(&z13, 5)]);
    let sub = Poly::new_from_coeffs(&vec![el(&z13, 1), el(&z13, 10), el(&z13, 1)]);
    let prod = Poly::new_from_coeffs(&vec![
        el(&z13, 5),
        el(&z13, 12),
        el(&z13, 6),
        el(&z13, 6),
    ]);
    let quoz = Poly::new_from_coeffs(&vec![el(&z13, 8), el(&z13, 5)]);
    let rem = Poly::new_from_coeffs(&vec![el(&z13, 6)]);
    assert_eq!(add, p1.add(&p2));
    assert_eq!(sub, p1.sub(&p2));
    assert_eq!(prod, p1.mul(&p2));
    let (q, r) = Poly::div_rem(&p1, &p2).unwrap();
    assert_eq!(quoz, q);
    assert_eq!(rem, r);
}

#[test]
fn test_coprime_polynomial() {
    let z13 = z13();
    let p1 = Poly::new_from_coeffs(&vec![el(&z13, 1), el(&z13, 0), el(&z13, 9)]);
    let p2 = Poly::new_from_coeffs(&vec![el(&z13, 1), el(&z13, 0)]);
    assert_ne!(Poly::is_coprime(&p1, &p2).unwrap(), true);
}

#[test]
fn test_chinese_univariate() {
    let z13 = z13();
    let modulus1 = Modulus(Poly::new_from_coeffs(&vec![z13.one(), z13.one(), z13.one()]));
    let modulus2 = Modulus(Poly::new_from_coeffs(&vec![z13.one(), z13.one()]));

    let p1 = modulus1.new(Poly::new_from_coeffs(&vec![z13.one(), z13.one()])).unwrap();
    let p2 = modulus2.new(Poly::new_from_coeffs(&vec![z13.one(), el(&z13, 2)])).unwrap();

    let chinese = PolyMod::chinese(&vec![p1.clone(), p2.clone()]).unwrap();
    let chinese_proof1 = modulus1.new(chinese.clone().poly).unwrap();
    let chinese_proof2 = modulus2.new(chinese.clone().poly).unwrap();

    assert_eq!(chinese_proof1, p1);
    assert_eq!(chinese_proof2, p2);
}

#[test]
fn test_evaluate() {
    let z13 = z13();
    let p1 = Poly::new_from_coeffs(&vec![el(&z13, 1), el(&z13, 2), el(&z13, 3)]);
    let alpha = el(&z13, 3);
    let value = el(&z13, 5);
    assert_eq!(value, p1.evaluate(&alpha));
}

#[test]
fn test_normal_poly() {
    // 2x + 4 scaled by the inverse of its constant term 4 (which is 10):
    // 20x + 40 == 7x + 1 modulo 13
    let z13 = z13();
    let p = Poly::new_from_coeffs(&vec![el(&z13, 2), el(&z13, 4)]);
    let n = p.normal_poly().unwrap();
    let expected = Poly::new_from_coeffs(&vec![el(&z13, 7), el(&z13, 1)]);
    assert_eq!(n, expected);
}

#[test]
fn test_poly_getters() {
    let z13 = z13();
    let p = Poly::new_from_coeffs(&vec![z13.zero(), el(&z13, 2), el(&z13, 3)]);
    // the leading zero is stripped
    assert_eq!(p.len(), 2);
    assert_eq!(p.deg(), 1);
    assert!(!p.is_constant());
    assert!(!p.is_zero());
    assert!(!p.is_one());
    assert!(p.one().is_one());
    assert!(p.zero().is_zero());
    let ext = p.extend(2);
    assert_eq!(ext.len(), 4);
    let scaled = p.multiple(&el(&z13, 2));
    let expected = Poly::new_from_coeffs(&vec![el(&z13, 4), el(&z13, 6)]);
    assert_eq!(scaled, expected);
}

#[test]
fn test_polymod_ops() {
    let z13 = z13();
    // residues modulo x^2 + 1
    let m = Modulus(Poly::new_from_coeffs(&vec![z13.one(), z13.zero(), z13.one()]));
    let a = m.new(Poly::new_from_coeffs(&vec![el(&z13, 2), el(&z13, 3)])).unwrap();
    let b = m.new(Poly::new_from_coeffs(&vec![el(&z13, 5), el(&z13, 1)])).unwrap();
    let sum = a.add(&b).unwrap();
    let expected_sum = m.new(Poly::new_from_coeffs(&vec![el(&z13, 7), el(&z13, 4)])).unwrap();
    assert_eq!(sum, expected_sum);
    // (2x + 3)(5x + 1) == 10x^2 + 17x + 3 == 17x - 7 == 4x + 6 modulo 13
    let prod = a.mul(&b).unwrap();
    let expected_prod = m.new(Poly::new_from_coeffs(&vec![el(&z13, 4), el(&z13, 6)])).unwrap();
    assert_eq!(prod, expected_prod);
    assert!(a.zero().is_zero());
    assert!(a.one().is_one());
    let diff = a.sub(&a).unwrap();
    assert!(diff.is_zero());
}

#[test]
fn test_print_poly() {
    let z13 = z13();
    let p = Poly::new_from_coeffs(&vec![el(&z13, 1), el(&z13, 2), el(&z13, 3)]);
    assert_eq!(p.print_poly("x"), "Mod(1,13)*x^2+Mod(2,13)*x+Mod(3,13)");
}

#[test]
fn test_polymod_inverse() {
    let z13 = z13();
    // modulo x^2 + 1 the residue x squares to -1, so its inverse is -x
    let m = Modulus(Poly::new_from_coeffs(&vec![z13.one(), z13.zero(), z13.one()]));
    let a = m.new(Poly::new_from_coeffs(&vec![z13.one(), z13.zero()])).unwrap();
    let inv = a.inverse().unwrap();
    let expected = m
        .new(Poly::new_from_coeffs(&vec![el(&z13, 12), z13.zero()]))
        .unwrap();
    assert_eq!(inv, expected);
    let check = a.mul(&inv).unwrap();
    assert!(check.is_one());
}
