use unitary_simulator::matrix::{permutation_valid, Matrix, MatrixError};

fn m_real(rows: &[&[i64]]) -> Matrix<i64> {
    let mut values = Vec::new();
    for row in rows {
        values.extend_from_slice(row);
    }
    Matrix::new_from_row_slice(&values).unwrap()
}

fn entries(m: &Matrix<i64>) -> Vec<i64> {
    m.as_slice().to_vec()
}

#[test]
fn matrix_test() {
    let m = m_real(&[&[1, 2], &[3, 4]]);

    let mut v = Matrix::new_from_vector(2, vec![0i64; 4]);
    v.set(0, 0, &10);
    v.set(1, 0, &20);

    let mut expected = Matrix::new_from_vector(2, vec![0i64; 4]);
    expected.set(0, 0, &50);
    expected.set(1, 0, &110);

    let added = m_real(&[&[2, 4], &[6, 8]]);
    let squared = m_real(&[&[7, 10], &[15, 22]]);

    assert!(added.approx_eq(&m.add(&m)));
    assert!(squared.approx_eq(&m.mul(&m)));
    assert!(expected.approx_eq(&m.mul(&v)));
}

#[test]
fn embed_test() {
    let mut m = m_real(&[&[1, 2], &[3, 4]]);
    let n = m_real(&[&[5]]);

    assert_eq!(m.embed(&n, 1, 1), Ok(()));

    assert!(m_real(&[&[1, 2], &[3, 5]]).approx_eq(&m));
}

#[test]
fn permutation_test() {
    let m = m_real(&[&[1, 2], &[3, 4]]);

    assert!(m_real(&[&[1, 2], &[3, 4]]).approx_eq(&m.permute_rows(vec![0, 1]).unwrap()));
    assert!(m_real(&[&[3, 4], &[1, 2]]).approx_eq(&m.permute_rows(vec![1, 0]).unwrap()));

    assert!(m_real(&[&[1, 2], &[3, 4]]).approx_eq(&m.permute_columns(vec![0, 1]).unwrap()));
    assert!(m_real(&[&[2, 1], &[4, 3]]).approx_eq(&m.permute_columns(vec![1, 0]).unwrap()));
}

#[test]
fn bad_row_permutation_test() {
    let m = m_real(&[&[1, 2], &[3, 4]]);

    assert_eq!(m.permute_rows(vec![0, 0]).err(), Some(MatrixError::NotPermutation));
}

#[test]
fn bad_column_permutation_test() {
    let m = m_real(&[&[1, 2], &[3, 4]]);

    assert_eq!(m.permute_columns(vec![0, 0]).err(), Some(MatrixError::NotPermutation));
}

#[test]
fn kronecker_test() {
    let temp1 = Matrix::<i64>::identity(2);
    let temp2 = Matrix::new_from_row_slice(&[1i64, 1, 1, 1]).unwrap();

    let res = temp1.kronecker(&temp2);

    let expected = Matrix::new_from_row_slice(&[
        1i64, 1, 0, 0, //
        1, 1, 0, 0, //
        0, 0, 1, 1, //
        0, 0, 1, 1,
    ])
    .unwrap();
    assert!(res.approx_eq(&expected));
}

#[test]
fn kronecker_of_unequal_sizes() {
    let a = m_real(&[&[1, 2], &[3, 4]]);
    let b = m_real(&[&[0, 5, 0], &[6, 7, 0], &[0, 0, 1]]);
    let k = a.kronecker(&b);
    assert_eq!(k.size(), 6);
    // entry (i, j) is a[i / 3][j / 3] * b[i % 3][j % 3]
    assert_eq!(*k.get(1, 4), 2 * 7);
    assert_eq!(*k.get(3, 1), 3 * 5);
    assert_eq!(*k.get(5, 5), 4);
    assert_eq!(*k.get(0, 2), 0);
}

#[test]
fn kronecker_is_associative_on_values() {
    let a = m_real(&[&[1, 2], &[3, 4]]);
    let b = m_real(&[&[0, 1], &[-1, 2]]);
    let c = m_real(&[&[5, -6], &[7, 8]]);
    let left = a.kronecker(&b).kronecker(&c);
    let right = a.kronecker(&b.kronecker(&c));
    assert_eq!(left.size(), 8);
    assert_eq!(entries(&left), entries(&right));
}

#[test]
fn dot_of_matrix_and_vector() {
    let m = m_real(&[&[1, 2], &[3, 4]]);
    assert_eq!(m.dot(&vec![5, 6]), vec![17, 39]);
}

#[test]
fn embed_out_of_bounds_fails() {
    let mut m = m_real(&[&[1, 2], &[3, 4]]);
    let n = m_real(&[&[5, 6], &[7, 8]]);
    assert_eq!(m.embed(&n, 1, 0), Err(MatrixError::OutOfBounds));
    assert_eq!(m.embed(&n, 0, 1), Err(MatrixError::OutOfBounds));
    assert_eq!(entries(&m), vec![1, 2, 3, 4]);
}

#[test]
fn embed_uses_both_offsets() {
    let mut m = Matrix::<i64>::new(3);
    let n = m_real(&[&[5]]);
    assert_eq!(m.embed(&n, 0, 2), Ok(()));
    assert_eq!(*m.get(0, 2), 5);
    assert_eq!(*m.get(2, 0), 0);
}

#[test]
fn embed_then_read_block_back() {
    let mut m = Matrix::<i64>::identity(4);
    let n = m_real(&[&[5, 6], &[7, 8]]);
    assert_eq!(m.embed(&n, 1, 2), Ok(()));
    assert_eq!(*m.get(1, 2), 5);
    assert_eq!(*m.get(1, 3), 6);
    assert_eq!(*m.get(2, 2), 7);
    assert_eq!(*m.get(2, 3), 8);
    assert_eq!(*m.get(0, 0), 1);
    assert_eq!(*m.get(3, 3), 1);
    assert_eq!(*m.get(2, 1), 0);
}

#[test]
fn identity_permutation_is_no_op() {
    let m = m_real(&[&[1, 2, 3], &[4, 5, 6], &[7, 8, 9]]);
    let rows = m.permute_rows(vec![0, 1, 2]).unwrap();
    let columns = m.permute_columns(vec![0, 1, 2]).unwrap();
    assert_eq!(entries(&rows), entries(&m));
    assert_eq!(entries(&columns), entries(&m));
}

#[test]
fn permutation_of_wrong_length_fails() {
    let m = m_real(&[&[1, 2], &[3, 4]]);
    assert_eq!(m.permute_rows(vec![0, 1, 2]).err(), Some(MatrixError::NotPermutation));
    assert_eq!(m.permute_columns(vec![1]).err(), Some(MatrixError::NotPermutation));
}

#[test]
fn rotation_of_rows() {
    let m = m_real(&[&[1, 2, 3], &[4, 5, 6], &[7, 8, 9]]);
    let r = m.permute_rows(vec![1, 2, 0]).unwrap();
    assert_eq!(entries(&r), vec![7, 8, 9, 1, 2, 3, 4, 5, 6]);
}

#[test]
fn permutation_validity() {
    assert!(permutation_valid(&vec![2, 0, 1]));
    assert!(permutation_valid(&vec![]));
    assert!(!permutation_valid(&vec![0, 2]));
    assert!(!permutation_valid(&vec![1, 1, 0]));
}

#[test]
fn row_slice_must_be_square() {
    assert_eq!(Matrix::new_from_row_slice(&[1i64, 2, 3]).err(), Some(MatrixError::NotSquare));
    let m = Matrix::new_from_row_slice(&[1i64, 2, 3, 4, 5, 6, 7, 8, 9]).unwrap();
    assert_eq!(m.size(), 3);
    assert_eq!(*m.get(1, 2), 6);
    let empty = Matrix::<i64>::new_from_row_slice(&[]).unwrap();
    assert_eq!(empty.size(), 0);
}

#[test]
fn constructors() {
    let z = Matrix::<i64>::new(2);
    assert_eq!(entries(&z), vec![0, 0, 0, 0]);
    let v = Matrix::new_from_value(2, 7i64);
    assert_eq!(entries(&v), vec![7, 7, 7, 7]);
    let id = Matrix::<i64>::identity(3);
    assert_eq!(entries(&id), vec![1, 0, 0, 0, 1, 0, 0, 0, 1]);
    assert_eq!(id.to_vec(), entries(&id));
}

#[test]
fn approx_eq_compares_sizes_and_entries() {
    let a = m_real(&[&[1, 2], &[3, 4]]);
    let b = m_real(&[&[1, 2], &[3, 5]]);
    assert!(a.approx_eq(&a));
    assert!(!a.approx_eq(&b));
    assert!(!a.approx_eq(&Matrix::identity(3)));
}
