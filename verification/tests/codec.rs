use linalg::frac::Frac;
use linalg::matrix::Matrix;
use linalg::vector::Vector;
use linalg::convert::Convertable;

fn q(n: i64, d: i64) -> Frac {
    Frac::new(n, d)
}

fn m(rows: Vec<Vec<i64>>) -> Matrix<Frac> {
    Matrix {
        rows: rows
            .into_iter()
            .map(|r| r.into_iter().map(|n| q(n, 1)).collect())
            .collect(),
    }
}

#[test]
fn matrix_encoding_joins_rows_and_entries() {
    let a = m(vec![vec![1, 2], vec![3, 4]]);
    assert_eq!(a.to_bytes(), b"1,2;3,4".to_vec());
    let with_fraction = Matrix {
        rows: vec![vec![q(1, 2), q(-3, 1)]],
    };
    assert_eq!(with_fraction.to_bytes(), b"1/2,-3".to_vec());
}

#[test]
fn matrix_decoding_round_trip() {
    let a = Matrix {
        rows: vec![vec![q(1, 2), q(-3, 1)], vec![q(0, 1), q(7, 5)]],
    };
    let bytes = a.to_bytes();
    let back = Matrix::<Frac>::from_bytes(&bytes).unwrap();
    assert_eq!(back, a);
}

#[test]
fn matrix_decoding_errors() {
    assert_eq!(
        Matrix::<Frac>::from_bytes(b"1,x;3,4").unwrap_err(),
        "Unable to parse number in matrix"
    );
    assert_eq!(
        Matrix::<Frac>::from_bytes(b"1,2;3").unwrap_err(),
        "Non-rectangular matrix"
    );
    assert_eq!(
        Matrix::<Frac>::from_bytes(b"").unwrap_err(),
        "Unable to parse number in matrix"
    );
}

#[test]
fn vector_codec_round_trip_and_errors() {
    let v = Vector {
        entries: vec![q(1, 3), q(-2, 1), q(5, 1)],
    };
    let bytes = v.to_bytes();
    assert_eq!(bytes, b"1/3,-2,5".to_vec());
    let back = Vector::<Frac>::from_bytes(&bytes).unwrap();
    assert_eq!(back, v);
    assert_eq!(
        Vector::<Frac>::from_bytes(b"1,,2").unwrap_err(),
        "Unable to parse number in vector"
    );
}

#[test]
fn decoding_parses_plain_integer_tables() {
    let a = Matrix::<Frac>::from_bytes(b"1,-4,2;0,0,5;0,2,0").unwrap();
    assert_eq!(a.nrows(), 3);
    assert_eq!(a.ncols(), 3);
    assert_eq!(a.rows[0][1], q(-4, 1));
    assert_eq!(a.rows[1][2], q(5, 1));
}
