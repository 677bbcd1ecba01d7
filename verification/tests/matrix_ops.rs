use linalg::frac::Frac;
use linalg::matrix::Matrix;
use linalg::vector::Vector;
use linalg::scalar::Scalar;

fn q(n: i64, d: i64) -> Frac {
    Frac::new(n, d)
}

fn m(rows: Vec<Vec<i64>>) -> Matrix<Frac> {
    Matrix {
        rows: rows
            .into_iter()
            .map(|r| r.into_iter().map(|n| q(n, 1)).collect())
            .collect(),
    }
}

fn assert_mat_value(a: &Matrix<Frac>, expected: &Vec<Vec<i64>>) {
    assert_eq!(a.rows.len(), expected.len());
    for i in 0..expected.len() {
        assert_eq!(a.rows[i].len(), expected[i].len());
        for j in 0..expected[i].len() {
            assert!(
                a.rows[i][j].eq_value(&q(expected[i][j], 1)),
                "entry ({}, {}) was {}/{}",
                i,
                j,
                a.rows[i][j].numerator(),
                a.rows[i][j].denominator()
            );
        }
    }
}

#[test]
fn constructors() {
    let f = Matrix::filled(2, 3, q(7, 1));
    assert_eq!(f.nrows(), 2);
    assert_eq!(f.ncols(), 3);
    assert_eq!(f.rows[1][2], q(7, 1));
    let z = Matrix::<Frac>::zero(2, 2);
    assert!(z.rows[0][0].is_zero());
    let id = Matrix::<Frac>::id(3);
    assert_eq!(id.rows[1][1], Frac::one());
    assert!(id.rows[0][1].is_zero());
    assert!(id.is_square());
}

#[test]
fn transpose_twice_is_identity_exactly() {
    let a = m(vec![vec![1, 2, 3], vec![4, 5, 6]]);
    let t = a.transpose();
    assert_eq!(t.nrows(), 3);
    assert_eq!(t.ncols(), 2);
    assert_eq!(t.rows[2][1], q(6, 1));
    let tt = t.transpose();
    assert_eq!(tt, a);
}

#[test]
fn elementwise_arithmetic() {
    let a = m(vec![vec![1, 2], vec![3, 4]]);
    let b = m(vec![vec![5, 6], vec![7, 8]]);
    assert_mat_value(&a.clone().add(b.clone()), &vec![vec![6, 8], vec![10, 12]]);
    assert_mat_value(&b.clone().sub(a.clone()), &vec![vec![4, 4], vec![4, 4]]);
    assert_mat_value(&a.clone().neg(), &vec![vec![-1, -2], vec![-3, -4]]);
    assert_mat_value(&a.scale(q(3, 1)), &vec![vec![3, 6], vec![9, 12]]);
    assert_mat_value(&a.hadamard(&b), &vec![vec![5, 12], vec![21, 32]]);
}

#[test]
fn matrix_product() {
    let a = m(vec![vec![1, 2], vec![3, 4]]);
    let b = m(vec![vec![5, 6], vec![7, 8]]);
    assert_mat_value(&a.mul(b), &vec![vec![19, 22], vec![43, 50]]);
}

#[test]
fn predicates() {
    let s = m(vec![vec![1, 2], vec![2, 1]]);
    assert!(s.is_symmetric());
    let ns = m(vec![vec![1, 2], vec![3, 1]]);
    assert!(!ns.is_symmetric());
    let sk = m(vec![vec![0, 2], vec![-2, 0]]);
    assert!(sk.is_skew_symmetric());
    assert!(!s.is_skew_symmetric());
    let d = m(vec![vec![4, 0], vec![0, 5]]);
    assert!(d.is_diagonal());
    assert!(!s.is_diagonal());
    let rect = m(vec![vec![1, 2, 3], vec![4, 5, 6]]);
    assert!(!rect.is_symmetric());
    assert!(!rect.is_diagonal());
}

#[test]
fn mul_vector_and_dimension_error() {
    let a = m(vec![vec![1, 2], vec![3, 4]]);
    let x = Vector {
        entries: vec![q(1, 1), q(1, 1)],
    };
    let y = a.mul_vector(&x).unwrap();
    assert!(y.at(0).eq_value(&q(3, 1)));
    assert!(y.at(1).eq_value(&q(7, 1)));
    let bad = Vector {
        entries: vec![q(1, 1)],
    };
    assert_eq!(
        a.mul_vector(&bad).unwrap_err(),
        "Vector does not have same dimension as matrix"
    );
}

#[test]
fn row_operations() {
    let a = m(vec![vec![1, 2], vec![3, 4], vec![5, 6]]);
    let sw = a.rowswap(0, 2).unwrap();
    assert_mat_value(&sw, &vec![vec![5, 6], vec![3, 4], vec![1, 2]]);
    assert_eq!(a.rowswap(0, 3).unwrap_err(), "Row index exceeds last row");
    let sc = a.rowscale(1, q(2, 1)).unwrap();
    assert_mat_value(&sc, &vec![vec![1, 2], vec![6, 8], vec![5, 6]]);
    assert_eq!(a.rowscale(9, q(2, 1)).unwrap_err(), "Row index exceeds last row");
    let ad = a.rowadd(0, 1, q(10, 1)).unwrap();
    assert_mat_value(&ad, &vec![vec![31, 42], vec![3, 4], vec![5, 6]]);
    assert_eq!(a.rowadd(0, 9, q(1, 1)).unwrap_err(), "Row index exceeds last row");
    assert_eq!(a.rowadd(1, 1, q(1, 1)).unwrap_err(), "Cannot add a row to itself");
}

#[test]
fn submatrix_and_errors() {
    let a = m(vec![vec![1, 2, 3], vec![4, 5, 6], vec![7, 8, 9]]);
    let s = a.submatrix(1, 0).unwrap();
    assert_mat_value(&s, &vec![vec![2, 3], vec![8, 9]]);
    assert_eq!(
        a.submatrix(5, 0).unwrap_err(),
        "Cannot remove row that does not exist"
    );
    assert_eq!(
        a.submatrix(0, 5).unwrap_err(),
        "Cannot remove column that does not exist"
    );
}

#[test]
fn embed_and_augment() {
    let base = Matrix::<Frac>::zero(3, 3);
    let block = m(vec![vec![1, 2], vec![3, 4]]);
    let e = base.embed_matrix(&block, 1, 1);
    assert_mat_value(
        &e,
        &vec![vec![0, 0, 0], vec![0, 1, 2], vec![0, 3, 4]],
    );
    let a = m(vec![vec![1], vec![2]]);
    let b = m(vec![vec![3], vec![4]]);
    let h = a.augment_cols(&b).unwrap();
    assert_mat_value(&h, &vec![vec![1, 3], vec![2, 4]]);
    let wide = m(vec![vec![1, 2]]);
    assert_eq!(
        a.augment_cols(&wide).unwrap_err(),
        "Cannot horizontally augment matrices of different heights"
    );
    let v = a.augment_rows(&b).unwrap();
    assert_mat_value(&v, &vec![vec![1], vec![2], vec![3], vec![4]]);
    assert_eq!(
        a.augment_rows(&wide).unwrap_err(),
        "Cannot vertically augment matrices of different widths"
    );
}

#[test]
fn trace_and_error() {
    let a = m(vec![vec![1, 2], vec![3, 4]]);
    assert!(a.trace().unwrap().eq_value(&q(5, 1)));
    let r = m(vec![vec![1, 2, 3], vec![4, 5, 6]]);
    assert_eq!(
        r.trace().unwrap_err(),
        "Cannot compute trace of non-square matrix"
    );
}
