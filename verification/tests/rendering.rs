use finfield::matrix::Matrix;
use finfield::poly::Poly;
use finfield::rfq::RFq;
use finfield::rzp::RZp;
use finfield::text::u64_text;
use finfield::vector::Vector;

fn poly_low(coeffs: &[u64], p: u64) -> Poly<RZp> {
    let mut v: Vec<RZp> = Vec::new();
    for &x in coeffs {
        v.push(RZp::new(x, p));
    }
    Poly::from_coeffs(v)
}

#[test]
fn decimal_text_of_integers() {
    assert_eq!(u64_text(0), "0");
    assert_eq!(u64_text(7), "7");
    assert_eq!(u64_text(10), "10");
    assert_eq!(u64_text(1234567890), "1234567890");
    assert_eq!(u64_text(u64::MAX), "18446744073709551615");
}

#[test]
fn element_text_is_its_residue() {
    assert_eq!(RZp::new(25, 7).to_text(), "4");
}

#[test]
fn polynomial_text_follows_the_conventions() {
    assert_eq!(poly_low(&[1, 2, 3], 7).to_text(), "3x^2 + 2x + 1");
    // a unit coefficient is written only for the constant term
    assert_eq!(poly_low(&[1, 1], 7).to_text(), "x + 1");
    assert_eq!(poly_low(&[1], 7).to_text(), "1");
    // zero coefficients are omitted
    assert_eq!(poly_low(&[5, 0, 1], 7).to_text(), "x^2 + 5");
    // no ^1 suffix for degree one, no variable for degree zero
    assert_eq!(poly_low(&[0, 2], 7).to_text(), "2x");
    // an identically zero polynomial renders as "0"
    assert_eq!(poly_low(&[0, 0, 0], 7).to_text(), "0");
}

#[test]
fn extension_element_text_uses_the_generator() {
    let r = poly_low(&[1, 1, 0, 1], 2);
    let a = RFq::new(poly_low(&[1, 0, 1], 2), r);
    assert_eq!(a.to_text(), "a^2 + 1");
}

#[test]
fn vector_text_is_a_bracketed_list() {
    let mut v: Vec<RZp> = Vec::new();
    for &x in &[1u64, 2, 3] {
        v.push(RZp::new(x, 7));
    }
    assert_eq!(Vector::new(v).to_text(), "[1, 2, 3]");
    let empty: Vector<RZp> = Vector::new(Vec::new());
    assert_eq!(empty.to_text(), "[]");
}

#[test]
fn matrix_text_is_one_row_per_line() {
    let mut v: Vec<RZp> = Vec::new();
    for &x in &[1u64, 2, 3, 4] {
        v.push(RZp::new(x, 7));
    }
    let m = Matrix::new(v, 2, 2);
    assert_eq!(m.to_text(), "[1, 2]\n[3, 4]\n");
}
