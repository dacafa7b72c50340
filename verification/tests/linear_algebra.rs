use finfield::errors::AlgebraError;
use finfield::matrix::Matrix;
use finfield::rzp::RZp;
use finfield::vector::Vector;

fn vec_of(vals: &[u64], p: u64) -> Vector<RZp> {
    let mut v: Vec<RZp> = Vec::new();
    for &x in vals {
        v.push(RZp::new(x, p));
    }
    Vector::new(v)
}

fn mat_of(vals: &[u64], rows: usize, cols: usize, p: u64) -> Matrix<RZp> {
    let mut v: Vec<RZp> = Vec::new();
    for &x in vals {
        v.push(RZp::new(x, p));
    }
    Matrix::new(v, rows, cols)
}

fn vector_vals(v: &Vector<RZp>) -> Vec<u64> {
    let mut out: Vec<u64> = Vec::new();
    for i in 0..v.len() {
        out.push(v.get(i).val());
    }
    out
}

fn matrix_vals(m: &Matrix<RZp>) -> Vec<u64> {
    let mut out: Vec<u64> = Vec::new();
    for i in 0..m.rows() {
        for j in 0..m.cols() {
            out.push(m.get(i, j).val());
        }
    }
    out
}

#[test]
fn circulant_with_unit_impulse_is_identity() {
    let v = vec_of(&[1, 2, 3, 4], 7);
    let e = vec_of(&[1, 0, 0, 0], 7);
    let r = v.circ_mul(&e).unwrap();
    assert!(r.equals(&v));
}

#[test]
fn circulant_product_over_large_prime() {
    // result[i] = sum over j of a[j] * b[(n + i - j) % n]
    let v = vec_of(&[1, 2, 3], 1000000007);
    let r = v.circ_mul(&v).unwrap();
    assert_eq!(vector_vals(&r), vec![13, 13, 10]);
}

#[test]
fn circulant_demands_equal_nonzero_lengths() {
    let a = vec_of(&[1, 2, 3], 7);
    let b = vec_of(&[1, 2], 7);
    assert_eq!(a.circ_mul(&b).err().unwrap(), AlgebraError::DimensionMismatch);
    let empty = vec_of(&[], 7);
    assert_eq!(
        empty.circ_mul(&empty).err().unwrap(),
        AlgebraError::DimensionMismatch
    );
}

#[test]
fn circ_mul_assign_replaces_in_place() {
    let mut v = vec_of(&[1, 2, 3], 7);
    let e = vec_of(&[0, 1, 0], 7);
    // cyclic shift by one
    v.circ_mul_assign(&e).unwrap();
    assert_eq!(vector_vals(&v), vec![3, 1, 2]);
}

#[test]
fn vector_elementwise_operations() {
    let a = vec_of(&[1, 2, 3], 7);
    let b = vec_of(&[6, 5, 4], 7);
    assert_eq!(vector_vals(&a.add(&b).unwrap()), vec![0, 0, 0]);
    assert_eq!(vector_vals(&a.sub(&b).unwrap()), vec![2, 4, 6]);
    assert_eq!(vector_vals(&a.neg()), vec![6, 5, 4]);
    let s = RZp::new(3, 7);
    assert_eq!(vector_vals(&a.scalar_mul(&s)), vec![3, 6, 2]);
    // 3^(-1) = 5 mod 7
    assert_eq!(vector_vals(&a.scalar_div(&s).unwrap()), vec![5, 3, 1]);
}

#[test]
fn vector_length_mismatch_is_reported() {
    let a = vec_of(&[1, 2, 3], 7);
    let b = vec_of(&[1, 2], 7);
    assert_eq!(a.add(&b).err().unwrap(), AlgebraError::DimensionMismatch);
    assert_eq!(a.sub(&b).err().unwrap(), AlgebraError::DimensionMismatch);
}

#[test]
fn vector_elementwise_inverse() {
    let a = vec_of(&[1, 2, 3], 7);
    // 1^(-1)=1, 2^(-1)=4, 3^(-1)=5 mod 7
    assert_eq!(vector_vals(&a.inv_elems().unwrap()), vec![1, 4, 5]);
    let with_zero = vec_of(&[1, 0, 3], 7);
    assert_eq!(
        with_zero.inv_elems().err().unwrap(),
        AlgebraError::DivisionByZero
    );
}

#[test]
fn vector_zero_and_set() {
    let like = RZp::new(0, 7);
    let mut z = Vector::zero(4, &like);
    assert_eq!(vector_vals(&z), vec![0, 0, 0, 0]);
    z.set(2, RZp::new(5, 7));
    assert_eq!(vector_vals(&z), vec![0, 0, 5, 0]);
}

#[test]
fn matrix_zero_allocates_full_storage() {
    let like = RZp::new(0, 7);
    let z: Matrix<RZp> = Matrix::zero(2, 3, &like);
    assert_eq!(z.rows(), 2);
    assert_eq!(z.cols(), 3);
    assert_eq!(matrix_vals(&z), vec![0, 0, 0, 0, 0, 0]);
}

#[test]
fn multiplying_by_the_identity_matrix_changes_nothing() {
    let a = mat_of(&[1, 2, 3, 4], 2, 2, 7);
    let id = mat_of(&[1, 0, 0, 1], 2, 2, 7);
    assert!(a.mul(&id).unwrap().equals(&a));
    assert!(id.mul(&a).unwrap().equals(&a));
}

#[test]
fn matrix_product_known_values() {
    let a = mat_of(&[1, 2, 3, 4], 2, 2, 11);
    let b = mat_of(&[5, 6, 7, 0], 2, 2, 11);
    let ab = a.mul(&b).unwrap();
    assert_eq!(matrix_vals(&ab), vec![8, 6, 10, 7]);
}

#[test]
fn matrix_product_demands_matching_inner_dimension() {
    let a = mat_of(&[1, 2, 3, 4, 5, 6], 2, 3, 7);
    let b = mat_of(&[1, 2, 3, 4], 2, 2, 7);
    assert_eq!(a.mul(&b).err().unwrap(), AlgebraError::DimensionMismatch);
}

#[test]
fn matrix_product_of_rectangular_shapes() {
    let a = mat_of(&[1, 2, 3, 4, 5, 6], 2, 3, 7);
    let b = mat_of(&[1, 0, 0, 1, 1, 1], 3, 2, 7);
    let ab = a.mul(&b).unwrap();
    assert_eq!(ab.rows(), 2);
    assert_eq!(ab.cols(), 2);
    // row 0: [1+3, 2+3] = [4, 5]; row 1: [4+6, 5+6] = [10, 11] = [3, 4] mod 7
    assert_eq!(matrix_vals(&ab), vec![4, 5, 3, 4]);
}

#[test]
fn transpose_swaps_rows_and_columns() {
    let a = mat_of(&[1, 2, 3, 4, 5, 6], 2, 3, 7);
    let t = a.transpose();
    assert_eq!(t.rows(), 3);
    assert_eq!(t.cols(), 2);
    assert_eq!(matrix_vals(&t), vec![1, 4, 2, 5, 3, 6]);
}

#[test]
fn transpose_assign_on_a_square_matrix() {
    let mut a = mat_of(&[1, 2, 3, 4], 2, 2, 7);
    a.transpose_assign();
    assert_eq!(matrix_vals(&a), vec![1, 3, 2, 4]);
}

#[test]
fn swap_exchanges_two_entries() {
    let mut a = mat_of(&[1, 2, 3, 4], 2, 2, 7);
    a.swap((0, 1), (1, 0));
    assert_eq!(matrix_vals(&a), vec![1, 3, 2, 4]);
}

#[test]
fn matrix_elementwise_operations() {
    let a = mat_of(&[1, 2, 3, 4], 2, 2, 7);
    let b = mat_of(&[6, 5, 4, 3], 2, 2, 7);
    assert_eq!(matrix_vals(&a.add(&b).unwrap()), vec![0, 0, 0, 0]);
    assert_eq!(matrix_vals(&a.sub(&b).unwrap()), vec![2, 4, 6, 1]);
    assert_eq!(matrix_vals(&a.neg()), vec![6, 5, 4, 3]);
    let s = RZp::new(2, 7);
    assert_eq!(matrix_vals(&a.scalar_mul(&s)), vec![2, 4, 6, 1]);
    // 2^(-1) = 4 mod 7
    assert_eq!(matrix_vals(&a.scalar_div(&s).unwrap()), vec![4, 1, 5, 2]);
    assert_eq!(
        matrix_vals(&a.inv_elems().unwrap()),
        vec![1, 4, 5, 2]
    );
    let shape = mat_of(&[1, 2], 1, 2, 7);
    assert_eq!(a.add(&shape).err().unwrap(), AlgebraError::DimensionMismatch);
}

#[test]
fn matrix_set_and_get() {
    let like = RZp::new(0, 7);
    let mut m: Matrix<RZp> = Matrix::zero(2, 2, &like);
    m.set(1, 0, RZp::new(6, 7));
    assert_eq!(m.get(1, 0).val(), 6);
    assert_eq!(m.get(0, 0).val(), 0);
}
