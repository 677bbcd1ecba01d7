use linalg::frac::Frac;
use linalg::vector::Vector;
use linalg::scalar::Scalar;

fn q(n: i64, d: i64) -> Frac {
    Frac::new(n, d)
}

fn v(entries: Vec<i64>) -> Vector<Frac> {
    Vector {
        entries: entries.into_iter().map(|n| q(n, 1)).collect(),
    }
}

#[test]
fn vector_basics() {
    let a = v(vec![1, 2, 3]);
    assert_eq!(a.dim(), 3);
    assert_eq!(a.at(1), q(2, 1));
    let z = Vector::<Frac>::zero(4);
    assert_eq!(z.dim(), 4);
    assert!(z.at(3).is_zero());
    let e = Vector::<Frac>::standard_basis(3, 1);
    assert!(e.at(0).is_zero());
    assert_eq!(e.at(1), Frac::one());
    let mut w = v(vec![5, 6]);
    w.set_entry(0, q(9, 1));
    assert_eq!(w.at(0), q(9, 1));
}

#[test]
fn vector_arithmetic() {
    let a = v(vec![1, 2, 3]);
    let b = v(vec![4, 5, 6]);
    let s = a.clone().add(b.clone());
    assert_eq!(s.at(0), q(5, 1));
    assert_eq!(s.at(2), q(9, 1));
    let d = b.clone().sub(a.clone());
    assert_eq!(d.at(1), q(3, 1));
    let n = a.clone().neg();
    assert_eq!(n.at(2), q(-3, 1));
    let sc = a.scale(q(2, 1));
    assert_eq!(sc.at(1), q(4, 1));
}

#[test]
fn inner_product_and_norm() {
    let a = v(vec![3, 4]);
    assert!(a.inner(&a).eq_value(&q(25, 1)));
    assert!(a.norm().eq_value(&q(5, 1)));
    let u = a.normalised();
    assert!(u.at(0).eq_value(&q(3, 5)));
    assert!(u.at(1).eq_value(&q(4, 5)));
}

#[test]
fn outer_product() {
    let a = v(vec![1, 2]);
    let b = v(vec![3, 4, 5]);
    let m = a.outer_mul(&b);
    assert_eq!(m.nrows(), 2);
    assert_eq!(m.ncols(), 3);
    assert!(m.rows[1][2].eq_value(&q(10, 1)));
}

#[test]
fn row_and_column_matrices() {
    let a = v(vec![1, 2, 3]);
    let r = a.row_matrix();
    assert_eq!(r.nrows(), 1);
    assert_eq!(r.ncols(), 3);
    let c = a.column_matrix();
    assert_eq!(c.nrows(), 3);
    assert_eq!(c.ncols(), 1);
    assert_eq!(c.rows[2][0], q(3, 1));
}

#[test]
fn cross_product_three_dimensional_basis() {
    let e1 = Vector::<Frac>::standard_basis(3, 0);
    let e2 = Vector::<Frac>::standard_basis(3, 1);
    let e3 = Vector::<Frac>::standard_basis(3, 2);
    let c = e1.cross_product(&e2).unwrap();
    assert_eq!(c.entries, e3.entries);
}

#[test]
fn cross_product_small_dimensions() {
    let z0 = Vector::<Frac>::zero(0);
    assert_eq!(z0.cross_product(&z0).unwrap().dim(), 0);
    let a1 = v(vec![7]);
    let c1 = a1.cross_product(&a1).unwrap();
    assert_eq!(c1.dim(), 1);
    assert!(c1.at(0).is_zero());
}

#[test]
fn cross_product_seven_dimensional_basis() {
    let e1 = Vector::<Frac>::standard_basis(7, 0);
    let e2 = Vector::<Frac>::standard_basis(7, 1);
    let c = e1.cross_product(&e2).unwrap();
    for i in 0..7 {
        if i == 3 {
            assert_eq!(c.at(i), Frac::one());
        } else {
            assert!(c.at(i).is_zero());
        }
    }
}

#[test]
fn cross_product_dimension_five_is_a_domain_error() {
    let a = v(vec![1, 2, 3, 4, 5]);
    let e = a.cross_product(&a).unwrap_err();
    assert_eq!(
        e,
        "Cross product is only defined for pairs of 0, 1, 3 or 7 dimensional vectors"
    );
}
