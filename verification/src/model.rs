//! The mathematical model of the matrix algorithms: rectangular tables of
//! scalars as sequences of sequences, with the transpose, scalar product,
//! matrix product, identity and trace as specification functions, and the
//! laws the library proves about them.

use vstd::prelude::*;

use crate::matrix::Matrix;
use crate::scalar::Scalar;

verus! {

/// Ties a row of the underlying vector to the corresponding row of the view,
/// so that facts stated over the view reach code that indexes the vector.
pub broadcast proof fn lemma_rows_view<T: Scalar>(m: &Matrix<T>, i: int)
    requires
        0 <= i < m.rows@.len(),
    ensures
        (#[trigger] m.rows@[i])@ == m@[i],
        m@.len() == m.rows@.len(),
{
}

/// The column count of a row table: the length of its first row.
pub open spec fn sp_cols<T>(m: Seq<Seq<T>>) -> nat {
    if m.len() == 0 {
        0
    } else {
        m[0].len()
    }
}

/// Rectangularity: every row as long as the first.
pub open spec fn sp_rect<T>(m: Seq<Seq<T>>) -> bool {
    forall|i: int| 0 <= i < m.len() ==> (#[trigger] m[i]).len() == sp_cols(m)
}

/// Every entry well-formed.
pub open spec fn sp_wf_mat<T: Scalar>(m: Seq<Seq<T>>) -> bool {
    forall|i: int, j: int|
        0 <= i < m.len() && 0 <= j < m[i].len() ==> (#[trigger] m[i][j]).sp_wf()
}

/// The transpose: entry `(j, i)` holds entry `(i, j)` of the argument.
pub open spec fn sp_transpose<T>(m: Seq<Seq<T>>) -> Seq<Seq<T>> {
    Seq::new(sp_cols(m), |j: int| Seq::new(m.len(), |i: int| m[i][j]))
}

/// The first `k` terms of the scalar product of two equally long rows,
/// accumulated left to right from the additive identity.
pub open spec fn sp_dot_prefix<T: Scalar>(a: Seq<T>, b: Seq<T>, k: int) -> T
    decreases k,
{
    if k <= 0 {
        T::sp_zero()
    } else {
        sp_dot_prefix(a, b, k - 1).sp_add(a[k - 1].sp_mul(b[k - 1]))
    }
}

/// The scalar product of two rows, over the length of the first.
pub open spec fn sp_dot<T: Scalar>(a: Seq<T>, b: Seq<T>) -> T {
    sp_dot_prefix(a, b, a.len() as int)
}

/// Column `j` of a row table.
pub open spec fn sp_col<T>(m: Seq<Seq<T>>, j: int) -> Seq<T> {
    Seq::new(m.len(), |i: int| m[i][j])
}

/// The matrix product: entry `(i, j)` is the scalar product of row `i` of
/// `a` and column `j` of `b`.
pub open spec fn sp_matmul<T: Scalar>(a: Seq<Seq<T>>, b: Seq<Seq<T>>) -> Seq<Seq<T>> {
    Seq::new(a.len(), |i: int| Seq::new(sp_cols(b), |j: int| sp_dot(a[i], sp_col(b, j))))
}

/// The identity table of the given dimension.
pub open spec fn sp_id<T: Scalar>(n: nat) -> Seq<Seq<T>> {
    Seq::new(
        n,
        |i: int|
            Seq::new(
                n,
                |j: int|
                    if i == j {
                        T::sp_one()
                    } else {
                        T::sp_zero()
                    },
            ),
    )
}

/// The first `k` diagonal entries summed left to right from the additive
/// identity.
pub open spec fn sp_diag_sum_prefix<T: Scalar>(m: Seq<Seq<T>>, k: int) -> T
    decreases k,
{
    if k <= 0 {
        T::sp_zero()
    } else {
        sp_diag_sum_prefix(m, k - 1).sp_add(m[k - 1][k - 1])
    }
}

/// The trace of a square table: the sum of its diagonal.
pub open spec fn sp_trace<T: Scalar>(m: Seq<Seq<T>>) -> T {
    sp_diag_sum_prefix(m, m.len() as int)
}

/// Transposing twice gives the original table back, exactly. A table with
/// rows but no columns is left out: its transpose is empty and transposing
/// again cannot recover the row count.
pub proof fn lemma_transpose_transpose<T: Scalar>(m: Seq<Seq<T>>)
    requires
        sp_rect(m),
        m.len() == 0 || sp_cols(m) > 0,
    ensures
        sp_transpose(sp_transpose(m)) == m,
{
    assert(sp_transpose(sp_transpose(m)) =~~= m);
}


/// Symmetry: square, and entry `(i, j)` equal to entry `(j, i)` off the
/// diagonal.
pub open spec fn sp_symmetric<T: Scalar>(m: Seq<Seq<T>>) -> bool {
    m.len() == sp_cols(m) && forall|i: int, j: int|
        0 <= i < m.len() && 0 <= j < m.len() && i != j ==> #[trigger] m[i][j] == m[j][i]
}

/// Skew symmetry: square, and every entry the negation of its mirror.
pub open spec fn sp_skew_symmetric<T: Scalar>(m: Seq<Seq<T>>) -> bool {
    m.len() == sp_cols(m) && forall|i: int, j: int|
        0 <= i < m.len() && 0 <= j < m.len() ==> #[trigger] m[i][j] == m[j][i].sp_neg()
}

/// Diagonality: square, and every entry off the diagonal a zero.
pub open spec fn sp_diagonal<T: Scalar>(m: Seq<Seq<T>>) -> bool {
    m.len() == sp_cols(m) && forall|i: int, j: int|
        0 <= i < m.len() && 0 <= j < m.len() && i != j ==> (#[trigger] m[i][j]).sp_is_zero()
}


/// Elementwise sum of two tables.
pub open spec fn sp_ew_add<T: Scalar>(a: Seq<Seq<T>>, b: Seq<Seq<T>>) -> Seq<Seq<T>> {
    Seq::new(a.len(), |i: int| Seq::new(a[i].len(), |j: int| a[i][j].sp_add(b[i][j])))
}

/// Every entry of a table multiplied by `c`.
pub open spec fn sp_scale_seq<T: Scalar>(a: Seq<Seq<T>>, c: T) -> Seq<Seq<T>> {
    Seq::new(a.len(), |i: int| Seq::new(a[i].len(), |j: int| a[i][j].sp_mul(c)))
}


/// The scalar product of a prefix of a basis row against any row: zero until
/// the basis index enters the prefix, the matching entry afterwards.
proof fn lemma_dot_basis_left<T: Scalar>(n: nat, i: int, v: Seq<T>, k: int)
    requires
        0 <= i < n,
        v.len() == n,
        forall|p: int| 0 <= p < v.len() ==> (#[trigger] v[p]).sp_wf(),
        k <= n,
    ensures
        sp_dot_prefix(sp_id::<T>(n)[i], v, k) == (if k <= i {
            T::sp_zero()
        } else {
            v[i]
        }),
    decreases k,
{
    T::law_consts_wf(0);
    if k <= 0 {
    } else {
        lemma_dot_basis_left(n, i, v, k - 1);
        let e = sp_id::<T>(n)[i];
        if k - 1 < i {
            T::law_mul_zero(v[k - 1]);
            T::law_add_zero(T::sp_zero());
            assert(e[k - 1] == T::sp_zero());
        } else if k - 1 == i {
            T::law_mul_one(v[i]);
            T::law_add_zero(v[i]);
            assert(e[i] == T::sp_one());
        } else {
            T::law_mul_zero(v[k - 1]);
            T::law_add_zero(v[i]);
            assert(e[k - 1] == T::sp_zero());
        }
    }
}

/// The identity is neutral on the left of the matrix product, for tables of
/// well-formed entries.
pub proof fn lemma_matmul_id_left<T: Scalar>(m: Seq<Seq<T>>)
    requires
        sp_rect(m),
        sp_wf_mat(m),
    ensures
        sp_matmul(sp_id::<T>(m.len()), m) == m,
{
    let n = m.len();
    let r = sp_matmul(sp_id::<T>(n), m);
    assert forall|i: int, j: int| 0 <= i < n && 0 <= j < sp_cols(m) implies #[trigger] r[i][j]
        == m[i][j] by {
        let v = sp_col(m, j);
        assert(forall|p: int| 0 <= p < v.len() ==> (#[trigger] v[p]).sp_wf());
        lemma_dot_basis_left(n, i, v, n as int);
        assert(sp_id::<T>(n)[i].len() == n);
        assert(r[i][j] == sp_dot(sp_id::<T>(n)[i], v));
    }
    assert(r =~~= m);
}

} // verus!
