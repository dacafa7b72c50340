use finfield::errors::AlgebraError;
use finfield::field::Field;
use finfield::poly::Poly;
use finfield::rfq::RFq;
use finfield::rzp::RZp;

fn poly_low(coeffs: &[u64], p: u64) -> Poly<RZp> {
    let mut v: Vec<RZp> = Vec::new();
    for &x in coeffs {
        v.push(RZp::new(x, p));
    }
    Poly::from_coeffs(v)
}

fn coeff_vals(q: &Poly<RZp>) -> Vec<u64> {
    let mut out: Vec<u64> = Vec::new();
    let cs = q.coefficients();
    for i in 0..cs.len() {
        out.push(cs[i].val());
    }
    out
}

#[test]
fn new_takes_coefficients_highest_degree_first() {
    // 3x^2 + 2x + 1, written down as it is read.
    let mut v: Vec<RZp> = Vec::new();
    for &x in &[3u64, 2, 1] {
        v.push(RZp::new(x, 7));
    }
    let q = Poly::new(v);
    assert_eq!(coeff_vals(&q), vec![1, 2, 3]);
}

#[test]
fn poly_product_over_gf7() {
    // (3x^2 + 2x + 1) * (x + 1) = 3x^3 + 5x^2 + 3x + 1.
    let a = poly_low(&[1, 2, 3], 7);
    let b = poly_low(&[1, 1], 7);
    let ab = a.mul(&b);
    assert_eq!(coeff_vals(&ab), vec![1, 3, 5, 3]);
}

#[test]
fn poly_multiplication_is_commutative() {
    let a = poly_low(&[1, 2, 3], 7);
    let b = poly_low(&[4, 0, 5, 6], 7);
    assert!(a.mul(&b).equals(&b.mul(&a)));
}

#[test]
fn degrees_ignore_trailing_zero_coefficients() {
    let q = poly_low(&[0, 1, 0], 7);
    assert_eq!(q.deg(), 1);
    assert_eq!(q.mindeg(), 1);
    assert_eq!(q.maxdeg(), 2);
    let z = poly_low(&[0, 0], 7);
    assert_eq!(z.deg(), 0);
    assert_eq!(z.mindeg(), 2);
    assert_eq!(Poly::zero(&RZp::new(0, 7)).deg(), 0);
    assert_eq!(Poly::one(&RZp::new(0, 7)).coefficients()[0].val(), 1);
}

#[test]
fn remainder_of_poly_mul_mod_divisor() {
    // (x^2 + 2) * (x + 1) mod (x^2 + 1) over GF(7):
    // product = x^3 + x^2 + 2x + 2; x^3 = -x, x^2 = -1 mod x^2+1,
    // so remainder = (2x - x) + (2 - 1) = x + 1.
    let a = poly_low(&[2, 0, 1], 7);
    let b = poly_low(&[1, 1], 7);
    let c = poly_low(&[1, 0, 1], 7);
    let prod = a.mul(&b);
    let r = prod.rem(&c).unwrap();
    assert_eq!(r.deg(), 1);
    assert_eq!(r.coefficients()[0].val(), 1);
    assert_eq!(r.coefficients()[1].val(), 1);
}

#[test]
fn remainder_by_zero_polynomial_is_division_by_zero() {
    let a = poly_low(&[1, 2, 3], 7);
    let z = poly_low(&[0, 0], 7);
    assert_eq!(a.rem(&z).err().unwrap(), AlgebraError::DivisionByZero);
}

#[test]
fn long_division_round_trips() {
    // a = q*b + r must recover a exactly.
    let a = poly_low(&[5, 2, 0, 1, 6], 7);
    let b = poly_low(&[3, 1], 7);
    let (q, r) = a.divrem(&b).unwrap();
    let back = q.mul(&b).add(&r);
    // back may carry more stored coefficients; compare the common prefix
    // and demand zeros above.
    let av = coeff_vals(&a);
    let bv = coeff_vals(&back);
    for i in 0..bv.len() {
        let want = if i < av.len() { av[i] } else { 0 };
        assert_eq!(bv[i], want);
    }
    assert!(r.deg() < b.deg() || r.deg() == 0);
}

#[test]
fn addition_pads_the_shorter_operand() {
    let a = poly_low(&[1, 2], 7);
    let b = poly_low(&[3, 4, 5], 7);
    let s = a.add(&b);
    assert_eq!(coeff_vals(&s), vec![4, 6, 5]);
    let d = a.sub(&b);
    assert_eq!(coeff_vals(&d), vec![5, 5, 2]);
}

fn gf8_element(coeffs: &[u64]) -> RFq {
    // GF(2^3) with modulus x^3 + x + 1.
    let r = poly_low(&[1, 1, 0, 1], 2);
    RFq::new(poly_low(coeffs, 2), r)
}

#[test]
fn extension_product_stays_reduced() {
    // (x^2 + 1)(x^2 + x) = x + 1 mod (x^3 + x + 1) over GF(2).
    let a = gf8_element(&[1, 0, 1]);
    let b = gf8_element(&[0, 1, 1]);
    let ab = a.mul(&b);
    let rep = ab.representative();
    assert_eq!(rep.coefficients().len(), 3);
    assert!(rep.deg() < 3);
    assert_eq!(coeff_vals(rep), vec![1, 1, 0]);
}

#[test]
fn extension_new_reduces_high_degree_input() {
    // x^3 = x + 1 mod (x^3 + x + 1).
    let a = gf8_element(&[0, 0, 0, 1]);
    assert_eq!(coeff_vals(a.representative()), vec![1, 1, 0]);
}

#[test]
fn extension_pow_matches_repeated_multiplication() {
    let a = gf8_element(&[0, 1, 1]);
    let mut acc = a.one_of();
    for e in 0..8u64 {
        assert!(a.pow(e).equals(&acc));
        acc = acc.mul(&a);
    }
}

#[test]
fn extension_pow_zero_is_one() {
    let a = gf8_element(&[1, 1, 0]);
    assert!(a.pow(0).equals(&a.one_of()));
}

#[test]
fn extension_inverse_multiplies_to_one() {
    // Every non-zero element of GF(8).
    for bits in 1..8u64 {
        let a = gf8_element(&[bits & 1, (bits >> 1) & 1, (bits >> 2) & 1]);
        let inv = a.inverse().unwrap();
        assert!(a.mul(&inv).equals(&a.one_of()));
    }
}

#[test]
fn extension_inverse_of_zero_is_division_by_zero() {
    let z = gf8_element(&[0, 0, 0]);
    assert_eq!(z.inverse().err().unwrap(), AlgebraError::DivisionByZero);
}

#[test]
fn extension_field_metadata() {
    let a = gf8_element(&[0, 1, 0]);
    assert_eq!(a.characteristic(), 2);
    assert_eq!(a.extension_degree(), 3);
    assert_eq!(a.order(), 8);
    assert_eq!(a.modulus_poly().deg(), 3);
    assert!(a.zero_of().is_zero());
}

#[test]
fn extension_addition_is_coefficientwise() {
    // Over GF(5) with modulus x^2 + 2 (irreducible over GF(5)).
    let r = poly_low(&[2, 0, 1], 5);
    let a = RFq::new(poly_low(&[3, 4], 5), r.duplicate());
    let b = RFq::new(poly_low(&[4, 2], 5), r);
    let s = a.add(&b);
    assert_eq!(coeff_vals(s.representative()), vec![2, 1]);
    let d = a.sub(&b);
    assert_eq!(coeff_vals(d.representative()), vec![4, 2]);
}

#[test]
fn poly_multiplication_is_associative() {
    let a = poly_low(&[1, 2, 3], 7);
    let b = poly_low(&[4, 0, 5], 7);
    let c = poly_low(&[6, 1], 7);
    assert!(a.mul(&b).mul(&c).equals(&a.mul(&b.mul(&c))));
}

#[test]
fn extension_multiplication_is_commutative_and_associative() {
    let a = gf8_element(&[1, 0, 1]);
    let b = gf8_element(&[0, 1, 1]);
    let c = gf8_element(&[1, 1, 1]);
    assert!(a.mul(&b).equals(&b.mul(&a)));
    assert!(a.mul(&b).mul(&c).equals(&a.mul(&b.mul(&c))));
    // distributivity
    let lhs = a.mul(&b.add(&c));
    let rhs = a.mul(&b).add(&a.mul(&c));
    assert!(lhs.equals(&rhs));
}
