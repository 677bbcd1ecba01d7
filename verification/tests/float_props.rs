use linalg::matrix::Matrix;
use linalg::vector::Vector;
use linalg::scalar::{MagScalar, NormScalar, Scalar};

#[derive(Debug, Clone, Copy, PartialEq)]
struct F(f64);

// The sp_* and law_* members are the trait's ghost half; erased at run
// time, they only need well-typed stand-ins here.
impl Scalar for F {
    fn sp_wf(self) -> bool {
        true
    }
    fn sp_add(self, other: Self) -> Self {
        F(self.0 + other.0)
    }
    fn sp_sub(self, other: Self) -> Self {
        F(self.0 - other.0)
    }
    fn sp_mul(self, other: Self) -> Self {
        F(self.0 * other.0)
    }
    fn sp_div(self, other: Self) -> Self {
        F(self.0 / other.0)
    }
    fn sp_neg(self) -> Self {
        F(-self.0)
    }
    fn sp_zero() -> Self {
        F(0.0)
    }
    fn sp_one() -> Self {
        F(1.0)
    }
    fn sp_from_int(n: i64) -> Self {
        F(n as f64)
    }
    fn sp_is_zero(self) -> bool {
        self.0 == 0.0
    }
    fn law_wf(_: Self, _: Self) {}
    fn law_consts_wf(_: i64) {}
    fn law_add_zero(_: Self) {}
    fn law_sub_zero(_: Self) {}
    fn law_mul_one(_: Self) {}
    fn law_mul_zero(_: Self) {}
    fn law_zero_is_zero() {}

    fn add(self, other: Self) -> Self {
        F(self.0 + other.0)
    }
    fn sub(self, other: Self) -> Self {
        F(self.0 - other.0)
    }
    fn mul(self, other: Self) -> Self {
        F(self.0 * other.0)
    }
    fn div(self, other: Self) -> Self {
        F(self.0 / other.0)
    }
    fn neg(self) -> Self {
        F(-self.0)
    }
    fn zero() -> Self {
        F(0.0)
    }
    fn one() -> Self {
        F(1.0)
    }
    fn from_int(n: i64) -> Self {
        F(n as f64)
    }
    fn is_zero(&self) -> bool {
        self.0 == 0.0
    }
    fn eq_val(&self, other: &Self) -> bool {
        self.0 == other.0
    }
}

impl MagScalar for F {
    fn sp_abs_gt(self, other: Self) -> bool {
        self.0.abs() > other.0.abs()
    }

    fn abs_gt(&self, other: &Self) -> bool {
        self.0.abs() > other.0.abs()
    }
}

impl NormScalar for F {
    fn sp_sqrt(self) -> Self {
        F(self.0.sqrt())
    }
    fn sp_signum(self) -> Self {
        F(self.0.signum())
    }

    fn sqrt(self) -> Self {
        F(self.0.sqrt())
    }
    fn signum(self) -> Self {
        F(self.0.signum())
    }
}

fn fm(rows: Vec<Vec<f64>>) -> Matrix<F> {
    Matrix {
        rows: rows
            .into_iter()
            .map(|r| r.into_iter().map(F).collect())
            .collect(),
    }
}

fn assert_close(a: f64, b: f64) {
    assert!((a - b).abs() < 1e-9, "{} differs from {}", a, b);
}

fn assert_mat_close(a: &Matrix<F>, b: &Matrix<F>) {
    assert_eq!(a.rows.len(), b.rows.len());
    for i in 0..a.rows.len() {
        assert_eq!(a.rows[i].len(), b.rows[i].len());
        for j in 0..a.rows[i].len() {
            assert_close(a.rows[i][j].0, b.rows[i][j].0);
        }
    }
}

#[test]
fn double_inverse_returns_close_to_the_input() {
    let a = fm(vec![
        vec![2.0, 1.0, 0.5],
        vec![1.0, 3.0, -1.0],
        vec![0.0, 4.0, 1.0],
    ]);
    let back = a.inverse().unwrap().inverse().unwrap();
    assert_mat_close(&back, &a);
}

#[test]
fn determinant_is_multiplicative_within_tolerance() {
    let a = fm(vec![vec![2.0, 1.0], vec![1.0, 1.0]]);
    let b = fm(vec![vec![3.0, 0.5], vec![4.0, 5.0]]);
    let da = a.clone().det().unwrap().0;
    let db = b.clone().det().unwrap().0;
    let dab = a.mul(b).det().unwrap().0;
    assert_close(dab, da * db);
}

#[test]
fn powi_adds_exponents_within_tolerance() {
    let a = fm(vec![vec![2.0, 1.0], vec![1.0, 1.0]]);
    let lhs = a.powi(1).unwrap();
    let rhs = a.powi(3).unwrap().mul(a.powi(-2).unwrap());
    assert_mat_close(&lhs, &rhs);
}

#[test]
fn pivoted_echelon_swaps_the_larger_magnitude_into_place() {
    let a = fm(vec![
        vec![1.0, -4.0, 2.0],
        vec![0.0, 0.0, 5.0],
        vec![0.0, 2.0, 0.0],
    ]);
    let (e, swaps) = a.echelon_pivoted();
    assert_eq!(swaps, 1);
    let expected = fm(vec![
        vec![1.0, -4.0, 2.0],
        vec![0.0, 2.0, 0.0],
        vec![0.0, 0.0, 5.0],
    ]);
    assert_mat_close(&e, &expected);
}

#[test]
fn qr_reconstructs_and_q_is_orthogonal() {
    let a = fm(vec![
        vec![12.0, -51.0, 4.0],
        vec![6.0, 167.0, -68.0],
        vec![-4.0, 24.0, -41.0],
    ]);
    let (qm, rm) = a.qr_decomposition().unwrap();
    let prod = qm.clone().mul(rm);
    assert_mat_close(&prod, &a);
    let qtq = qm.transpose().mul(qm);
    let id = Matrix::<F>::id(3);
    assert_mat_close(&qtq, &id);
    // R is upper triangular up to the tolerance
    let (_, r2) = a.qr_decomposition().unwrap();
    for i in 0..3 {
        for j in 0..i {
            assert!(r2.rows[i][j].0.abs() < 1e-9);
        }
    }
}

#[test]
fn qr_of_non_square_matrix_is_a_domain_error() {
    let a = fm(vec![vec![1.0, 2.0, 3.0], vec![4.0, 5.0, 6.0]]);
    assert_eq!(
        a.qr_decomposition().unwrap_err(),
        "Cannot decompose non-square matrix"
    );
}

#[test]
fn householder_reflects_onto_the_first_axis() {
    let v = Vector {
        entries: vec![F(3.0), F(4.0)],
    };
    let p = Matrix::householder_standard(v.clone());
    let image = p.mul_vector(&v).unwrap();
    // the reflector sends v to -sign(v[0]) * |v| * e1
    assert_close(image.at(0).0, -5.0);
    assert_close(image.at(1).0, 0.0);
}
