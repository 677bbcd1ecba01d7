use linalg::frac::Frac;
use linalg::matrix::Matrix;
use linalg::echelon::Echelon;
use linalg::scalar::Scalar;

fn q(n: i64, d: i64) -> Frac {
    Frac::new(n, d)
}

fn m(rows: Vec<Vec<i64>>) -> Matrix<Frac> {
    Matrix {
        rows: rows
            .into_iter()
            .map(|r| r.into_iter().map(|n| q(n, 1)).collect())
            .collect(),
    }
}

fn assert_mat_value(a: &Matrix<Frac>, expected: &Vec<Vec<i64>>) {
    assert_eq!(a.rows.len(), expected.len());
    for i in 0..expected.len() {
        assert_eq!(a.rows[i].len(), expected[i].len());
        for j in 0..expected[i].len() {
            assert!(
                a.rows[i][j].eq_value(&q(expected[i][j], 1)),
                "entry ({}, {}) was {}/{}",
                i,
                j,
                a.rows[i][j].numerator(),
                a.rows[i][j].denominator()
            );
        }
    }
}

fn assert_mat_values_eq(a: &Matrix<Frac>, b: &Matrix<Frac>) {
    assert_eq!(a.rows.len(), b.rows.len());
    for i in 0..a.rows.len() {
        assert_eq!(a.rows[i].len(), b.rows[i].len());
        for j in 0..a.rows[i].len() {
            assert!(
                a.rows[i][j].eq_value(&b.rows[i][j]),
                "entry ({}, {}) differs",
                i,
                j
            );
        }
    }
}

#[test]
fn echelon_reduces_below_pivots() {
    let a = m(vec![vec![2, 1], vec![4, 1]]);
    let (e, swaps) = a.echelon();
    assert_eq!(swaps, 0);
    assert_mat_value(&e, &vec![vec![2, 1], vec![0, -1]]);
}

#[test]
fn echelon_swaps_a_zero_pivot() {
    let a = m(vec![vec![0, 1], vec![3, 4]]);
    let (e, swaps) = a.echelon();
    assert_eq!(swaps, 1);
    assert_mat_value(&e, &vec![vec![3, 4], vec![0, 1]]);
}

#[test]
fn echelon_pivoted_orders_by_magnitude() {
    // after eliminating the first column, partial pivoting must swap row 2
    // (|2| > |0|) into the second pivot position
    let a = m(vec![vec![1, -4, 2], vec![0, 0, 5], vec![0, 2, 0]]);
    let (e, swaps) = a.echelon_pivoted();
    assert_eq!(swaps, 1);
    assert_mat_value(&e, &vec![vec![1, -4, 2], vec![0, 2, 0], vec![0, 0, 5]]);
}

#[test]
fn det_of_products_multiplies() {
    let a = m(vec![vec![2, 1], vec![1, 1]]);
    let b = m(vec![vec![3, 0], vec![4, 5]]);
    let da = a.clone().det().unwrap();
    let db = b.clone().det().unwrap();
    let dab = a.mul(b).det().unwrap();
    assert!(dab.eq_value(&da.mul(db)));
}

#[test]
fn det_values_and_swap_sign() {
    let a = m(vec![vec![0, 1], vec![1, 0]]);
    assert!(a.det().unwrap().eq_value(&q(-1, 1)));
    let b = m(vec![vec![1, 2], vec![3, 4]]);
    assert!(b.det().unwrap().eq_value(&q(-2, 1)));
    let s = m(vec![vec![1, 2], vec![2, 4]]);
    assert!(s.det().unwrap().is_zero());
}

#[test]
fn det_of_non_square_matrix_is_a_domain_error() {
    let a = m(vec![
        vec![1, -1, 4],
        vec![1, 4, -2],
        vec![1, 4, 2],
        vec![1, -1, 0],
    ]);
    assert_eq!(a.det().unwrap_err(), "Non-square matrix has no determinant");
}

#[test]
fn reduced_echelon_normalises_pivots() {
    let a = m(vec![vec![2, 4], vec![1, 3]]);
    let r = a.reduced_echelon();
    assert_mat_value(&r, &vec![vec![1, 0], vec![0, 1]]);
    let sing = m(vec![vec![1, 2], vec![2, 4]]);
    let rs = sing.reduced_echelon();
    assert_mat_value(&rs, &vec![vec![1, 2], vec![0, 0]]);
}

#[test]
fn inverse_and_double_inverse() {
    let a = m(vec![vec![2, 1], vec![1, 1]]);
    let inv = a.inverse().unwrap();
    assert_mat_value(&inv, &vec![vec![1, -1], vec![-1, 2]]);
    let back = inv.inverse().unwrap();
    assert_mat_values_eq(&back, &a);
}

#[test]
fn inverse_of_singular_matrix_is_an_error() {
    let s = m(vec![vec![1, 2], vec![2, 4]]);
    assert_eq!(s.inverse().unwrap_err(), "Matrix is not invertible");
    assert!(!s.is_invertible());
    assert!(m(vec![vec![2, 1], vec![1, 1]]).is_invertible());
}

#[test]
fn powi_of_twice_identity() {
    let a = m(vec![vec![2, 0, 0], vec![0, 2, 0], vec![0, 0, 2]]);
    let p = a.powi(3).unwrap();
    assert_mat_value(&p, &vec![vec![8, 0, 0], vec![0, 8, 0], vec![0, 0, 8]]);
}

#[test]
fn powi_exponent_laws() {
    let a = m(vec![vec![2, 1], vec![1, 1]]);
    let p0 = a.powi(0).unwrap();
    assert_mat_value(&p0, &vec![vec![1, 0], vec![0, 1]]);
    let p1 = a.powi(1).unwrap();
    assert_mat_values_eq(&p1, &a);
    let pm1 = a.powi(-1).unwrap();
    assert_mat_values_eq(&pm1, &a.inverse().unwrap());
    let p5 = a.powi(5).unwrap();
    let p23 = a.powi(2).unwrap().mul(a.powi(3).unwrap());
    assert_mat_values_eq(&p5, &p23);
    let p1b = a.powi(-1).unwrap().mul(a.powi(2).unwrap());
    assert_mat_values_eq(&a.powi(1).unwrap(), &p1b);
}

#[test]
fn powi_non_square_is_a_domain_error() {
    let r = m(vec![vec![1, 2, 3], vec![4, 5, 6]]);
    assert_eq!(
        r.powi(2).unwrap_err(),
        "Cannot take powers of non-square matrix"
    );
    let sing = m(vec![vec![1, 2], vec![2, 4]]);
    assert_eq!(sing.powi(-2).unwrap_err(), "Matrix is not invertible");
}

#[test]
fn exp_of_zero_matrix_is_identity() {
    let z = Matrix::<Frac>::zero(2, 2);
    let e = z.exp().unwrap();
    assert_mat_value(&e, &vec![vec![1, 0], vec![0, 1]]);
    let r = m(vec![vec![1, 2, 3], vec![4, 5, 6]]);
    assert_eq!(r.exp().unwrap_err(), "Cannot exponentiate non-square matrix");
}

#[test]
fn exp_of_diagonal_accumulates_the_series() {
    // exp over one entry: 1 + sum over k of 1/k!, twenty terms
    let a = m(vec![vec![1]]);
    let e = a.exp().unwrap();
    let mut expected = Frac::one();
    for k in 1..21i64 {
        expected = expected.add(Frac::one().div(Frac::from_int(linalg::common::factorial(k))));
    }
    assert!(e.rows[0][0].eq_value(&expected));
}
