//! Tests of the multivariate layer: indices, terms, and polynomial
//! division with remainder.

use algebra::bignat::nat_from_u64;
use algebra::intmod::{MathError, Mod, PrimeField};
use algebra::multiindex::MultiIndex;
use algebra::multivariatepoly::MultivariatePoly;
use algebra::terms::Terms;

fn z13() -> PrimeField {
    PrimeField { p: nat_from_u64(13) }
}

fn el(f: &PrimeField, n: u64) -> Mod {
    f.new(nat_from_u64(n))
}

#[test]
fn test_multivariate_division() {
    let z13 = z13();

    let index0 = MultiIndex::new(&vec![2, 1]);
    let index1 = MultiIndex::new(&vec![1, 2]);
    let index2 = MultiIndex::new(&vec![1, 1]);
    let index3 = MultiIndex::new(&vec![0]);
    let index4 = MultiIndex::new(&vec![0, 2]);

    let term0 = Terms::new(z13.one(), index0);
    let term1 = Terms::new(z13.one(), index1);
    let term2 = Terms::new(z13.one(), index4);
    let term3 = Terms::new(z13.one().neg(), index3);
    let term4 = Terms::new(z13.one(), index2.clone());

    let m1 = MultivariatePoly::new(vec![term0, term1, term2]);
    let m2 = MultivariatePoly::new(vec![term3, term4]);
    let (q, r) = m1.div_rem(&m2).unwrap();

    let proof = m2.mul(&q).add(&r);
    assert_eq!(m1, proof);
}

#[test]
fn test_multi_division() {
    // The quotients depend on the ordering of the divisor tuple
    // (f1, ..., fs): reordering the divisors changes the outcome.
    let z13 = z13();

    let index0 = MultiIndex::new(&vec![2, 1]);
    let index1 = MultiIndex::new(&vec![1, 2]);
    let index2 = MultiIndex::new(&vec![0, 2]);
    let index3 = MultiIndex::new(&vec![0]);
    let index4 = MultiIndex::new(&vec![1, 1]);
    let index5 = MultiIndex::new(&vec![1]);
    let index6 = MultiIndex::new(&vec![0, 1]);

    let term0 = Terms::new(z13.one(), index0); // x_0^2*x_1
    let term1 = Terms::new(z13.one(), index1); // x_0*x_1^2
    let term2 = Terms::new(z13.one(), index2); // x_1^2
    let term3 = Terms::new(z13.one().neg(), index3); // -1
    let term4 = Terms::new(z13.one(), index4); // x_0*x_1
    let term5 = Terms::new(z13.one(), index5.clone()); // x_0
    let term6 = Terms::new(z13.one(), index6); // x_1
    let term7 = Terms::new(el(&z13, 2), index5); // 2*x_0

    let m1 = MultivariatePoly::new(vec![term0.clone(), term1.clone(), term2.clone()]);
    let m2 = MultivariatePoly::new(vec![term4.clone(), term3.clone()]);
    let m3 = MultivariatePoly::new(vec![term2.clone(), term3.clone()]);
    let multi_div = m1.multi_division_reminder(&vec![m2.clone(), m3.clone()]).unwrap();

    let expected_q0 = MultivariatePoly::new(vec![term5.clone(), term6.clone()]);
    let expected_q1 = MultivariatePoly::new(vec![term3.neg()]);
    let expected_reminder =
        MultivariatePoly::new(vec![term5.clone(), term6, term3.neg()]);

    assert_eq!(multi_div.0[0], expected_q0);
    assert_eq!(multi_div.0[1], expected_q1);
    assert_eq!(multi_div.1, expected_reminder);

    let multi_div = m1.multi_division_reminder(&vec![m3, m2]).unwrap();
    let expected_q0 = MultivariatePoly::new(vec![term5.clone(), term3.neg()]);
    let expected_q1 = MultivariatePoly::new(vec![term5]);
    let expected_reminder = MultivariatePoly::new(vec![term7, term3.neg()]);

    assert_eq!(multi_div.0[0], expected_q0);
    assert_eq!(multi_div.0[1], expected_q1);
    assert_eq!(multi_div.1, expected_reminder);
}

#[test]
fn test_multi_index_add() {
    let mi1 = MultiIndex::new(&vec![2, 0]);
    let mi2 = MultiIndex::new(&vec![1, 0, 1]);
    let sum = mi1.add(&mi2);
    let expected_sum = MultiIndex::new(&vec![3, 0, 1]);
    assert_eq!(sum, expected_sum);
}

#[test]
fn test_multi_index_sub() {
    // trailing-zero-preserving subtraction of exponent vectors
    let mi1 = MultiIndex::new(&vec![2, 2, 3, 0]);
    let mi2 = MultiIndex::new(&vec![1, 0, 1]);
    let sub = mi1.sub(&mi2);
    let expected_sub = MultiIndex::new(&vec![1, 2, 2, 0]);
    assert_eq!(sub, expected_sub);
}

#[test]
fn test_term_division() {
    // 5*x0^2*x1^3*x2 divided by 4*x0^2*x2 modulo 13: the inverse of 4 is
    // 10, and 5 * 10 mod 13 = 11, giving 11*x1^3
    let z13 = z13();
    let t1 = Terms::new(el(&z13, 5), MultiIndex::new(&vec![2, 3, 1]));
    let t2 = Terms::new(el(&z13, 4), MultiIndex::new(&vec![2, 0, 1]));
    let division = t1.div(&t2).unwrap();
    let expected = Terms::new(el(&z13, 11), MultiIndex::new(&vec![0, 3]));
    assert_eq!(division, expected);
}

#[test]
fn test_term_multiplication() {
    let z13 = z13();
    let t1 = Terms::new(el(&z13, 9), MultiIndex::new(&vec![2, 0]));
    let t2 = Terms::new(el(&z13, 5), MultiIndex::new(&vec![1, 0, 1]));
    let mul = t1.mul(&t2);
    let expected = Terms::new(el(&z13, 6), MultiIndex::new(&vec![3, 0, 1]));
    assert_eq!(mul, expected);
}

#[test]
fn test_canonicalization_idempotent() {
    // building a polynomial from its own canonical term list reproduces it
    let z13 = z13();
    let t_hi = Terms::new(el(&z13, 3), MultiIndex::new(&vec![2, 1]));
    let t_lo = Terms::new(el(&z13, 7), MultiIndex::new(&vec![0, 1]));
    let p = MultivariatePoly::new(vec![t_hi.clone(), t_lo.clone()]);
    let again = MultivariatePoly::new(p.terms.clone());
    assert_eq!(p, again);
    assert_eq!(p.number_of_terms(), 2);
}

#[test]
fn test_canonicalization_merges_and_drops() {
    // duplicate monomials are summed, zero sums are dropped
    let z13 = z13();
    let a = Terms::new(el(&z13, 5), MultiIndex::new(&vec![1, 1]));
    let b = Terms::new(el(&z13, 8), MultiIndex::new(&vec![1, 1]));
    let c = Terms::new(el(&z13, 2), MultiIndex::new(&vec![1]));
    let p = MultivariatePoly::new(vec![a, b, c.clone()]);
    let expected = MultivariatePoly::new(vec![c]);
    assert_eq!(p, expected);
}

#[test]
fn test_additive_identity_and_inverse() {
    let z13 = z13();
    let t0 = Terms::new(el(&z13, 4), MultiIndex::new(&vec![2]));
    let t1 = Terms::new(el(&z13, 9), MultiIndex::new(&vec![0, 1]));
    let a = MultivariatePoly::new(vec![t0, t1]);
    let sum = a.add(&a.zero());
    assert_eq!(sum, a);
    let cancel = a.add(&a.neg());
    assert!(cancel.is_zero());
}

#[test]
fn test_multiplication_cross_product() {
    // (x0 + 1) * (x0 + 12) == x0^2 + 12 modulo 13
    let z13 = z13();
    let one_term = Terms::new(z13.one(), MultiIndex::new(&vec![0]));
    let x0 = Terms::new(z13.one(), MultiIndex::new(&vec![1]));
    let a = MultivariatePoly::new(vec![x0.clone(), one_term.clone()]);
    let b = MultivariatePoly::new(vec![x0, Terms::new(el(&z13, 12), MultiIndex::new(&vec![0]))]);
    let prod = a.mul(&b);
    let expected = MultivariatePoly::new(vec![
        Terms::new(z13.one(), MultiIndex::new(&vec![2])),
        Terms::new(el(&z13, 12), MultiIndex::new(&vec![0])),
    ]);
    assert_eq!(prod, expected);
}

#[test]
fn test_division_by_zero_poly() {
    let z13 = z13();
    let t0 = Terms::new(el(&z13, 4), MultiIndex::new(&vec![2]));
    let a = MultivariatePoly::new(vec![t0]);
    let zero = a.zero();
    assert_eq!(a.div_rem(&zero), Err(MathError::DivisionByZero));
}

#[test]
fn test_not_invertible_leading_coeff() {
    // modulo 12 the leading coefficient 4 shares a factor with the modulus
    let z12 = PrimeField { p: nat_from_u64(12) };
    let a = MultivariatePoly::new(vec![Terms::new(
        z12.new(nat_from_u64(5)),
        MultiIndex::new(&vec![2]),
    )]);
    let b = MultivariatePoly::new(vec![Terms::new(
        z12.new(nat_from_u64(4)),
        MultiIndex::new(&vec![1]),
    )]);
    assert_eq!(a.div_rem(&b), Err(MathError::NotInvertible));
}

#[test]
fn test_term_not_divisible() {
    let z13 = z13();
    let t1 = Terms::new(el(&z13, 5), MultiIndex::new(&vec![1, 0]));
    let t2 = Terms::new(el(&z13, 4), MultiIndex::new(&vec![0, 1]));
    assert_eq!(t1.div(&t2), Err(MathError::NotDivisible));
}

#[test]
fn test_leading_term_of_zero_poly() {
    let z13 = z13();
    let t0 = Terms::new(el(&z13, 4), MultiIndex::new(&vec![2]));
    let a = MultivariatePoly::new(vec![t0]);
    let zero = a.zero();
    assert!(zero.leading_term().is_err());
    assert_eq!(zero.leading_term().unwrap_err(), MathError::EmptyPolynomial);
}

#[test]
fn test_term_predicates() {
    let z13 = z13();
    let c = Terms::new(el(&z13, 7), MultiIndex::new(&vec![0]));
    assert!(c.is_constant());
    assert!(!c.is_zero());
    let t = Terms::new(el(&z13, 7), MultiIndex::new(&vec![2, 1]));
    assert!(!t.is_constant());
    assert_eq!(t.total_degree(), 3);
    assert_eq!(t.number_of_variables(), 2);
    let lt = Terms::new(z13.one(), MultiIndex::new(&vec![1, 1]));
    assert!(t.is_divisible_by(&lt));
}

#[test]
fn test_multi_index_basics() {
    let zero = MultiIndex::zero();
    assert!(zero.is_zero());
    assert_eq!(zero.len(), 1);
    assert!(!zero.is_empty());
    let mi = MultiIndex::new(&vec![1, 0, 2, 0]);
    assert_eq!(mi.len(), 3);
    assert_eq!(mi.weight(), 3);
    assert!(!mi.is_zero());
    let small = MultiIndex::new(&vec![1, 0, 1]);
    assert!(small.is_subtractable_by(&mi));
    assert!(!mi.is_subtractable_by(&small));
    let (a, b) = small.resize(&MultiIndex::new(&vec![1]));
    assert_eq!(a.len(), b.len());
}

#[test]
fn test_print_terms() {
    let z13 = z13();
    let t = Terms::new(el(&z13, 5), MultiIndex::new(&vec![2, 1, 0]));
    assert_eq!(t.print_terms(), "Mod(5,13)*x_0^2*x_1");
    let c = Terms::new(el(&z13, 7), MultiIndex::new(&vec![0]));
    assert_eq!(c.print_terms(), "Mod(7,13)");
}

#[test]
fn test_check_sub_and_vector_terms() {
    let z13 = z13();
    let big = MultiIndex::new(&vec![2, 2, 3]);
    let small = MultiIndex::new(&vec![1, 0, 1]);
    assert!(big.check_sub(&small));
    assert!(!small.check_sub(&big));
    let t = Terms::new(el(&z13, 3), MultiIndex::new(&vec![1]));
    let p = MultivariatePoly::new(vec![t.clone()]);
    let terms = p.vector_terms();
    assert_eq!(terms, vec![t]);
}

#[test]
fn test_zero_index_subtraction() {
    // the zero index is subtractable from every index, itself included
    let zero = MultiIndex::zero();
    assert!(zero.is_subtractable_by(&zero));
    assert!(zero.sub(&zero).is_zero());
    let mi = MultiIndex::new(&vec![2, 1]);
    assert!(zero.is_subtractable_by(&mi));
    assert_eq!(mi.sub(&zero), mi);
}

#[test]
fn test_constant_term_division() {
    // a constant term is divisible by a constant term
    let z13 = z13();
    let t1 = Terms::new(el(&z13, 5), MultiIndex::new(&vec![0]));
    let t2 = Terms::new(el(&z13, 4), MultiIndex::new(&vec![0]));
    assert!(t1.is_divisible_by(&t2));
    let q = t1.div(&t2).unwrap();
    // 5 * inverse(4) == 5 * 10 == 11 modulo 13
    assert_eq!(q, Terms::new(el(&z13, 11), MultiIndex::zero()));
}

#[test]
fn test_division_by_constant_poly() {
    // dividing by the constant polynomial 2 divides everything out:
    // (x0 + 3) / 2 == 7*x0 + 8 modulo 13, with no remainder
    let z13 = z13();
    let m1 = MultivariatePoly::new(vec![
        Terms::new(z13.one(), MultiIndex::new(&vec![1])),
        Terms::new(el(&z13, 3), MultiIndex::new(&vec![0])),
    ]);
    let m2 = MultivariatePoly::new(vec![Terms::new(el(&z13, 2), MultiIndex::new(&vec![0]))]);
    let (q, r) = m1.div_rem(&m2).unwrap();
    assert!(r.is_zero());
    let expected_q = MultivariatePoly::new(vec![
        Terms::new(el(&z13, 7), MultiIndex::new(&vec![1])),
        Terms::new(el(&z13, 8), MultiIndex::new(&vec![0])),
    ]);
    assert_eq!(q, expected_q);
    assert_eq!(m2.mul(&q).add(&r), m1);
    // the same holds in a multi-divisor reduction
    let multi = m1.multi_division_reminder(&vec![m2]).unwrap();
    assert!(multi.1.is_zero());
    assert_eq!(multi.0[0], expected_q);
}
