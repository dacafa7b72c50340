use finfield::errors::AlgebraError;
use finfield::field::Field;
use finfield::rzp::RZp;

fn zp(x: u64, p: u64) -> RZp {
    RZp::new(x, p)
}

#[test]
fn new_reduces_into_range() {
    assert_eq!(zp(25, 7).val(), 4);
    assert_eq!(zp(7, 7).val(), 0);
    assert_eq!(zp(3, 7).val(), 3);
    assert_eq!(zp(3, 7).modulus(), 7);
}

#[test]
fn inverse_of_three_mod_seven_is_five() {
    let a = zp(3, 7);
    let inv = a.inverse().unwrap();
    assert_eq!(inv.val(), 5);
    assert_eq!(a.mul(&inv).val(), 1);
}

#[test]
fn two_to_the_sixth_mod_thirteen_is_twelve() {
    let a = zp(2, 13);
    assert_eq!(a.pow(6).val(), 12);
}

#[test]
fn pow_zero_is_one() {
    assert_eq!(zp(5, 13).pow(0).val(), 1);
    assert_eq!(zp(0, 13).pow(0).val(), 1);
}

#[test]
fn pow_matches_repeated_multiplication() {
    let a = zp(6, 11);
    let mut acc = a.one_of();
    for e in 0..8u64 {
        assert_eq!(a.pow(e).val(), acc.val());
        acc = acc.mul(&a);
    }
}

#[test]
fn addition_is_commutative_and_associative() {
    let (a, b, c) = (zp(3, 11), zp(5, 11), zp(7, 11));
    assert_eq!(a.add(&b).val(), b.add(&a).val());
    assert_eq!(a.add(&b).add(&c).val(), a.add(&b.add(&c)).val());
}

#[test]
fn additive_inverse_cancels() {
    for x in 0..11u64 {
        let a = zp(x, 11);
        assert_eq!(a.add(&a.neg()).val(), 0);
    }
}

#[test]
fn multiplication_distributes_over_addition() {
    let (a, b, c) = (zp(4, 11), zp(9, 11), zp(6, 11));
    let lhs = a.mul(&b.add(&c));
    let rhs = a.mul(&b).add(&a.mul(&c));
    assert_eq!(lhs.val(), rhs.val());
}

#[test]
fn every_nonzero_element_has_an_inverse_mod_eleven() {
    for x in 1..11u64 {
        let a = zp(x, 11);
        let inv = a.inverse().unwrap();
        assert_eq!(a.mul(&inv).val(), 1);
    }
}

#[test]
fn inverse_of_zero_is_division_by_zero() {
    assert_eq!(zp(0, 7).inverse().unwrap_err(), AlgebraError::DivisionByZero);
}

#[test]
fn division_by_zero_is_reported() {
    let a = zp(3, 7);
    assert_eq!(a.div(&zp(0, 7)).unwrap_err(), AlgebraError::DivisionByZero);
}

#[test]
fn division_multiplies_by_the_inverse() {
    // 5^(-1) = 3 mod 7, so 3 / 5 = 3 * 3 = 2 mod 7.
    let q = zp(3, 7).div(&zp(5, 7)).unwrap();
    assert_eq!(q.val(), 2);
}

#[test]
fn subtraction_adds_the_additive_inverse() {
    assert_eq!(zp(2, 7).sub(&zp(5, 7)).val(), 4);
    assert_eq!(zp(5, 7).sub(&zp(2, 7)).val(), 3);
}

#[test]
fn multiplication_reduces_wide_products() {
    // Residues near 2^63: the product overflows 64 bits before reduction.
    let p = 18446744073709551557u64; // largest prime below 2^64
    let a = zp(p - 2, p);
    let b = zp(p - 3, p);
    // (p-2)(p-3) = p^2 - 5p + 6 = 6 mod p.
    assert_eq!(a.mul(&b).val(), 6);
}

#[test]
fn metadata_of_a_prime_field() {
    let a = zp(3, 7);
    assert_eq!(a.characteristic(), 7);
    assert_eq!(a.extension_degree(), 1);
    assert_eq!(a.order(), 7);
    assert!(a.zero_of().is_zero());
    assert!(!a.one_of().is_zero());
    assert!(a.equals(&zp(10, 7)));
}
