//! The rectangular matrix type and its core operations: construction,
//! elementwise arithmetic, the matrix product, transposition, structural
//! predicates, row operations, submatrices, augmentation and the trace.

use vstd::prelude::*;

use crate::model::lemma_rows_view;
use crate::model::sp_cols;
use crate::model::sp_col;
use crate::model::sp_diagonal;
use crate::model::sp_dot;
use crate::model::sp_dot_prefix;
use crate::model::sp_diag_sum_prefix;
use crate::model::sp_id;
use crate::model::sp_trace;
use crate::model::sp_matmul;
use crate::model::sp_skew_symmetric;
use crate::model::sp_symmetric;
use crate::model::sp_rect;
use crate::model::sp_transpose;
use crate::scalar::Scalar;
use crate::vector::Vector;

verus! {

/// An owned table of scalars, ordered by row. Rectangularity — every row of
/// the same length — is an invariant the operations require, not one the
/// constructor enforces.
#[derive(Debug, Clone, PartialEq)]
pub struct Matrix<T: Scalar> {
    pub rows: Vec<Vec<T>>,
}

impl<T: Scalar> View for Matrix<T> {
    type V = Seq<Seq<T>>;

    open spec fn view(&self) -> Seq<Seq<T>> {
        Seq::new(self.rows@.len(), |i: int| self.rows@[i]@)
    }
}



impl<T: Scalar> Matrix<T> {
    /// Number of rows.
    pub fn nrows(&self) -> (r: usize)
        ensures
            r == self@.len(),
    {
        broadcast use lemma_rows_view;
        self.rows.len()
    }

    /// Number of columns: the length of the first row.
    pub fn ncols(&self) -> (r: usize)
        requires
            self@.len() > 0,
        ensures
            r == sp_cols(self@),
    {
        broadcast use lemma_rows_view;
        self.rows[0].len()
    }

    /// Whether the matrix is square.
    pub fn is_square(&self) -> (r: bool)
        requires
            self@.len() > 0,
        ensures
            r == (self@.len() == sp_cols(self@)),
    {
        broadcast use lemma_rows_view;
        self.rows.len() == self.rows[0].len()
    }

    /// A `rows` by `cols` matrix with every entry equal to `value`.
    pub fn filled(rows: usize, cols: usize, value: T) -> (r: Self)
        ensures
            r@.len() == rows,
            sp_cols(r@) == if rows == 0 { 0nat } else { cols as nat },
            sp_rect(r@),
            forall|i: int, j: int| 0 <= i < rows && 0 <= j < cols ==> r@[i][j] == value,
    {
        broadcast use lemma_rows_view;
        let mut out: Vec<Vec<T>> = Vec::new();
        let mut i: usize = 0;
        while i < rows
            invariant
                i <= rows,
                out@.len() == i,
                forall|p: int| 0 <= p < i ==> (#[trigger] out@[p])@.len() == cols,
                forall|p: int, q: int|
                    0 <= p < i && 0 <= q < cols ==> (#[trigger] out@[p]@[q]) == value,
            decreases rows - i,
        {
            let mut row: Vec<T> = Vec::new();
            let mut j: usize = 0;
            while j < cols
                invariant
                    j <= cols,
                    row@.len() == j,
                    forall|q: int| 0 <= q < j ==> row@[q] == value,
                decreases cols - j,
            {
                row.push(value);
                j = j + 1;
            }
            out.push(row);
            i = i + 1;
        }
        Matrix { rows: out }
    }

    /// The `rows` by `cols` matrix of zeroes.
    pub fn zero(rows: usize, cols: usize) -> (r: Self)
        ensures
            r@.len() == rows,
            sp_cols(r@) == if rows == 0 { 0nat } else { cols as nat },
            sp_rect(r@),
            forall|i: int, j: int| 0 <= i < rows && 0 <= j < cols ==> r@[i][j] == T::sp_zero(),
    {
        broadcast use lemma_rows_view;
        Matrix::filled(rows, cols, T::zero())
    }

    /// The identity matrix of the given dimension.
    pub fn id(dim: usize) -> (r: Self)
        ensures
            r@ == sp_id::<T>(dim as nat),
            sp_rect(r@),
    {
        broadcast use lemma_rows_view;
        let mut out: Vec<Vec<T>> = Vec::new();
        let mut i: usize = 0;
        while i < dim
            invariant
                i <= dim,
                out@.len() == i,
                forall|p: int| 0 <= p < i ==> (#[trigger] out@[p])@.len() == dim,
                forall|p: int, q: int|
                    0 <= p < i && 0 <= q < dim ==> (#[trigger] out@[p]@[q]) == (if p == q {
                        T::sp_one()
                    } else {
                        T::sp_zero()
                    }),
            decreases dim - i,
        {
            let mut row: Vec<T> = Vec::new();
            let mut j: usize = 0;
            while j < dim
                invariant
                    j <= dim,
                    i < dim,
                    row@.len() == j,
                    forall|q: int|
                        0 <= q < j ==> row@[q] == (if i == q {
                            T::sp_one()
                        } else {
                            T::sp_zero()
                        }),
                decreases dim - j,
            {
                if i == j {
                    row.push(T::one());
                } else {
                    row.push(T::zero());
                }
                j = j + 1;
            }
            out.push(row);
            i = i + 1;
        }
        let r = Matrix { rows: out };
        proof {
            assert(r@ =~~= sp_id::<T>(dim as nat));
        }
        r
    }

    /// Elementwise sum; the shapes must agree.
    pub fn add(self, rhs: Self) -> (r: Self)
        requires
            self@.len() == rhs@.len(),
            sp_cols(self@) == sp_cols(rhs@),
            sp_rect(self@),
            sp_rect(rhs@),
        ensures
            r@.len() == self@.len(),
            sp_cols(r@) == sp_cols(self@),
            sp_rect(r@),
            forall|i: int, j: int|
                0 <= i < self@.len() && 0 <= j < sp_cols(self@) ==> r@[i][j] == self@[i][j].sp_add(
                    rhs@[i][j],
                ),
    {
        broadcast use lemma_rows_view;
        let n = self.rows.len();
        let mut out: Vec<Vec<T>> = Vec::new();
        let mut i: usize = 0;
        while i < n
            invariant
                i <= n,
                n == self@.len(),
                rhs@.len() == n,
                sp_cols(rhs@) == sp_cols(self@),
                sp_rect(self@),
                sp_rect(rhs@),
                out@.len() == i,
                forall|p: int| 0 <= p < i ==> (#[trigger] out@[p])@.len() == sp_cols(self@),
                forall|p: int, q: int|
                    0 <= p < i && 0 <= q < sp_cols(self@) ==> (#[trigger] out@[p]@[q])
                        == self@[p][q].sp_add(rhs@[p][q]),
            decreases n - i,
        {
            let cols = self.rows[i].len();
            let mut row: Vec<T> = Vec::new();
            let mut j: usize = 0;
            while j < cols
                invariant
                    j <= cols,
                    i < n,
                    n == self@.len(),
                    rhs@.len() == n,
                    sp_cols(rhs@) == sp_cols(self@),
                    sp_rect(self@),
                    sp_rect(rhs@),
                    cols == sp_cols(self@),
                    row@.len() == j,
                    forall|q: int|
                        0 <= q < j ==> row@[q] == self@[i as int][q].sp_add(rhs@[i as int][q]),
                decreases cols - j,
            {
                let x = self.rows[i][j].add(rhs.rows[i][j]);
                row.push(x);
                j = j + 1;
            }
            out.push(row);
            i = i + 1;
        }
        Matrix { rows: out }
    }

    /// Elementwise difference; the shapes must agree.
    pub fn sub(self, rhs: Self) -> (r: Self)
        requires
            self@.len() == rhs@.len(),
            sp_cols(self@) == sp_cols(rhs@),
            sp_rect(self@),
            sp_rect(rhs@),
        ensures
            r@.len() == self@.len(),
            sp_cols(r@) == sp_cols(self@),
            sp_rect(r@),
            forall|i: int, j: int|
                0 <= i < self@.len() && 0 <= j < sp_cols(self@) ==> r@[i][j] == self@[i][j].sp_sub(
                    rhs@[i][j],
                ),
    {
        broadcast use lemma_rows_view;
        let n = self.rows.len();
        let mut out: Vec<Vec<T>> = Vec::new();
        let mut i: usize = 0;
        while i < n
            invariant
                i <= n,
                n == self@.len(),
                rhs@.len() == n,
                sp_cols(rhs@) == sp_cols(self@),
                sp_rect(self@),
                sp_rect(rhs@),
                out@.len() == i,
                forall|p: int| 0 <= p < i ==> (#[trigger] out@[p])@.len() == sp_cols(self@),
                forall|p: int, q: int|
                    0 <= p < i && 0 <= q < sp_cols(self@) ==> (#[trigger] out@[p]@[q])
                        == self@[p][q].sp_sub(rhs@[p][q]),
            decreases n - i,
        {
            let cols = self.rows[i].len();
            let mut row: Vec<T> = Vec::new();
            let mut j: usize = 0;
            while j < cols
                invariant
                    j <= cols,
                    i < n,
                    n == self@.len(),
                    rhs@.len() == n,
                    sp_cols(rhs@) == sp_cols(self@),
                    sp_rect(self@),
                    sp_rect(rhs@),
                    cols == sp_cols(self@),
                    row@.len() == j,
                    forall|q: int|
                        0 <= q < j ==> row@[q] == self@[i as int][q].sp_sub(rhs@[i as int][q]),
                decreases cols - j,
            {
                let x = self.rows[i][j].sub(rhs.rows[i][j]);
                row.push(x);
                j = j + 1;
            }
            out.push(row);
            i = i + 1;
        }
        Matrix { rows: out }
    }

    /// Elementwise negation.
    pub fn neg(self) -> (r: Self)
        requires
            sp_rect(self@),
        ensures
            r@.len() == self@.len(),
            sp_cols(r@) == sp_cols(self@),
            sp_rect(r@),
            forall|i: int, j: int|
                0 <= i < self@.len() && 0 <= j < sp_cols(self@) ==> r@[i][j]
                    == self@[i][j].sp_neg(),
    {
        broadcast use lemma_rows_view;
        let n = self.rows.len();
        let mut out: Vec<Vec<T>> = Vec::new();
        let mut i: usize = 0;
        while i < n
            invariant
                i <= n,
                n == self@.len(),
                sp_rect(self@),
                out@.len() == i,
                forall|p: int| 0 <= p < i ==> (#[trigger] out@[p])@.len() == sp_cols(self@),
                forall|p: int, q: int|
                    0 <= p < i && 0 <= q < sp_cols(self@) ==> (#[trigger] out@[p]@[q])
                        == self@[p][q].sp_neg(),
            decreases n - i,
        {
            let cols = self.rows[i].len();
            let mut row: Vec<T> = Vec::new();
            let mut j: usize = 0;
            while j < cols
                invariant
                    j <= cols,
                    i < n,
                    n == self@.len(),
                    sp_rect(self@),
                    cols == sp_cols(self@),
                    row@.len() == j,
                    forall|q: int| 0 <= q < j ==> row@[q] == self@[i as int][q].sp_neg(),
                decreases cols - j,
            {
                let x = self.rows[i][j].neg();
                row.push(x);
                j = j + 1;
            }
            out.push(row);
            i = i + 1;
        }
        Matrix { rows: out }
    }

    /// Every entry multiplied by `scalar`.
    pub fn scale(&self, scalar: T) -> (r: Self)
        requires
            sp_rect(self@),
        ensures
            r@.len() == self@.len(),
            sp_cols(r@) == sp_cols(self@),
            sp_rect(r@),
            forall|i: int, j: int|
                0 <= i < self@.len() && 0 <= j < sp_cols(self@) ==> r@[i][j] == self@[i][j].sp_mul(
                    scalar,
                ),
    {
        broadcast use lemma_rows_view;
        let n = self.rows.len();
        let mut out: Vec<Vec<T>> = Vec::new();
        let mut i: usize = 0;
        while i < n
            invariant
                i <= n,
                n == self@.len(),
                sp_rect(self@),
                out@.len() == i,
                forall|p: int| 0 <= p < i ==> (#[trigger] out@[p])@.len() == sp_cols(self@),
                forall|p: int, q: int|
                    0 <= p < i && 0 <= q < sp_cols(self@) ==> (#[trigger] out@[p]@[q])
                        == self@[p][q].sp_mul(scalar),
            decreases n - i,
        {
            let cols = self.rows[i].len();
            let mut row: Vec<T> = Vec::new();
            let mut j: usize = 0;
            while j < cols
                invariant
                    j <= cols,
                    i < n,
                    n == self@.len(),
                    sp_rect(self@),
                    cols == sp_cols(self@),
                    row@.len() == j,
                    forall|q: int| 0 <= q < j ==> row@[q] == self@[i as int][q].sp_mul(scalar),
                decreases cols - j,
            {
                let x = self.rows[i][j].mul(scalar);
                row.push(x);
                j = j + 1;
            }
            out.push(row);
            i = i + 1;
        }
        Matrix { rows: out }
    }

    /// Elementwise product; the shapes must agree.
    pub fn hadamard(&self, rhs: &Self) -> (r: Self)
        requires
            self@.len() == rhs@.len(),
            sp_cols(self@) == sp_cols(rhs@),
            sp_rect(self@),
            sp_rect(rhs@),
        ensures
            r@.len() == self@.len(),
            sp_cols(r@) == sp_cols(self@),
            sp_rect(r@),
            forall|i: int, j: int|
                0 <= i < self@.len() && 0 <= j < sp_cols(self@) ==> r@[i][j] == self@[i][j].sp_mul(
                    rhs@[i][j],
                ),
    {
        broadcast use lemma_rows_view;
        let n = self.rows.len();
        let mut out: Vec<Vec<T>> = Vec::new();
        let mut i: usize = 0;
        while i < n
            invariant
                i <= n,
                n == self@.len(),
                rhs@.len() == n,
                sp_cols(rhs@) == sp_cols(self@),
                sp_rect(self@),
                sp_rect(rhs@),
                out@.len() == i,
                forall|p: int| 0 <= p < i ==> (#[trigger] out@[p])@.len() == sp_cols(self@),
                forall|p: int, q: int|
                    0 <= p < i && 0 <= q < sp_cols(self@) ==> (#[trigger] out@[p]@[q])
                        == self@[p][q].sp_mul(rhs@[p][q]),
            decreases n - i,
        {
            let cols = self.rows[i].len();
            let mut row: Vec<T> = Vec::new();
            let mut j: usize = 0;
            while j < cols
                invariant
                    j <= cols,
                    i < n,
                    n == self@.len(),
                    rhs@.len() == n,
                    sp_cols(rhs@) == sp_cols(self@),
                    sp_rect(self@),
                    sp_rect(rhs@),
                    cols == sp_cols(self@),
                    row@.len() == j,
                    forall|q: int|
                        0 <= q < j ==> row@[q] == self@[i as int][q].sp_mul(rhs@[i as int][q]),
                decreases cols - j,
            {
                let x = self.rows[i][j].mul(rhs.rows[i][j]);
                row.push(x);
                j = j + 1;
            }
            out.push(row);
            i = i + 1;
        }
        Matrix { rows: out }
    }

    /// The transpose.
    pub fn transpose(&self) -> (r: Self)
        requires
            sp_rect(self@),
        ensures
            r@ == sp_transpose(self@),
            sp_rect(r@),
    {
        broadcast use lemma_rows_view;
        let n = self.rows.len();
        let cols = if n == 0 {
            0
        } else {
            self.rows[0].len()
        };
        let mut out: Vec<Vec<T>> = Vec::new();
        let mut j: usize = 0;
        while j < cols
            invariant
                j <= cols,
                n == self@.len(),
                cols == sp_cols(self@),
                sp_rect(self@),
                out@.len() == j,
                forall|p: int| 0 <= p < j ==> (#[trigger] out@[p])@.len() == n,
                forall|p: int, q: int|
                    0 <= p < j && 0 <= q < n ==> (#[trigger] out@[p]@[q]) == self@[q][p],
            decreases cols - j,
        {
            let mut row: Vec<T> = Vec::new();
            let mut i: usize = 0;
            while i < n
                invariant
                    i <= n,
                    j < cols,
                    n == self@.len(),
                    cols == sp_cols(self@),
                    sp_rect(self@),
                    row@.len() == i,
                    forall|q: int| 0 <= q < i ==> row@[q] == self@[q][j as int],
                decreases n - i,
            {
                let x = self.rows[i][j];
                row.push(x);
                i = i + 1;
            }
            out.push(row);
            j = j + 1;
        }
        let r = Matrix { rows: out };
        proof {
            assert(r@ =~~= sp_transpose(self@));
        }
        r
    }

    /// Whether the matrix equals its transpose.
    pub fn is_symmetric(&self) -> (r: bool)
        requires
            self@.len() > 0,
            sp_rect(self@),
        ensures
            r == sp_symmetric(self@),
    {
        broadcast use lemma_rows_view;

        if !self.is_square() {
            return false;
        }
        let n = self.rows.len();
        let mut i: usize = 0;
        while i < n
            invariant
                i <= n,
                forall|p: int, q: int|
                    0 <= p < i && 0 <= q < n && p != q ==> #[trigger] self@[p][q] == self@[q][p],
            decreases n - i,
        {
            let mut j: usize = 0;
            while j < n
                invariant
                    j <= n,
                    i < n,
                    forall|q: int|
                        0 <= q < j && q != i ==> #[trigger] self@[i as int][q] == self@[q][i as int],
                decreases n - j,
            {
                if i != j && !self.rows[i][j].eq_val(&self.rows[j][i]) {
                    return false;
                }
                j = j + 1;
            }
            i = i + 1;
        }
        true
    }

    /// Whether every entry is the negation of its mirror.
    pub fn is_skew_symmetric(&self) -> (r: bool)
        requires
            self@.len() > 0,
            sp_rect(self@),
        ensures
            r == sp_skew_symmetric(self@),
    {
        broadcast use lemma_rows_view;

        if !self.is_square() {
            return false;
        }
        let n = self.rows.len();
        let mut i: usize = 0;
        while i < n
            invariant
                i <= n,
                forall|p: int, q: int|
                    0 <= p < i && 0 <= q < n ==> #[trigger] self@[p][q] == self@[q][p].sp_neg(),
            decreases n - i,
        {
            let mut j: usize = 0;
            while j < n
                invariant
                    j <= n,
                    i < n,
                    forall|q: int|
                        0 <= q < j ==> #[trigger] self@[i as int][q] == self@[q][i as int].sp_neg(),
                decreases n - j,
            {
                let m = self.rows[j][i].neg();
                if !self.rows[i][j].eq_val(&m) {
                    return false;
                }
                j = j + 1;
            }
            i = i + 1;
        }
        true
    }

    /// Whether every entry off the diagonal is a zero.
    pub fn is_diagonal(&self) -> (r: bool)
        requires
            self@.len() > 0,
            sp_rect(self@),
        ensures
            r == sp_diagonal(self@),
    {
        broadcast use lemma_rows_view;

        if !self.is_square() {
            return false;
        }
        let n = self.rows.len();
        let mut i: usize = 0;
        while i < n
            invariant
                i <= n,
                forall|p: int, q: int|
                    0 <= p < i && 0 <= q < n && p != q ==> (#[trigger] self@[p][q]).sp_is_zero(),
            decreases n - i,
        {
            let mut j: usize = 0;
            while j < n
                invariant
                    j <= n,
                    i < n,
                    forall|q: int|
                        0 <= q < j && q != i ==> (#[trigger] self@[i as int][q]).sp_is_zero(),
                decreases n - j,
            {
                if i != j && !self.rows[i][j].is_zero() {
                    return false;
                }
                j = j + 1;
            }
            i = i + 1;
        }
        true
    }

    /// The matrix product; the inner dimensions must agree.
    pub fn mul(self, rhs: Self) -> (r: Self)
        requires
            sp_rect(self@),
            sp_rect(rhs@),
            rhs@.len() == sp_cols(self@),
            rhs@.len() > 0,
        ensures
            r@ == sp_matmul(self@, rhs@),
            sp_rect(r@),
            r@.len() == self@.len(),
            r@.len() > 0 ==> sp_cols(r@) == sp_cols(rhs@),
    {
        broadcast use lemma_rows_view;

        let n = self.rows.len();
        let bc = rhs.rows[0].len();
        let bn = rhs.rows.len();
        let mut out: Vec<Vec<T>> = Vec::new();
        let mut i: usize = 0;
        while i < n
            invariant
                i <= n,
                out@.len() == i,
                forall|p: int| 0 <= p < i ==> (#[trigger] out@[p])@.len() == bc,
                forall|p: int, q: int|
                    0 <= p < i && 0 <= q < bc ==> (#[trigger] out@[p]@[q]) == sp_dot(
                        self@[p],
                        sp_col(rhs@, q),
                    ),
            decreases n - i,
        {
            let mut row: Vec<T> = Vec::new();
            let mut j: usize = 0;
            while j < bc
                invariant
                    j <= bc,
                    i < n,
                    row@.len() == j,
                    forall|q: int|
                        0 <= q < j ==> row@[q] == sp_dot(self@[i as int], sp_col(rhs@, q)),
                decreases bc - j,
            {
                let mut acc = T::zero();
                let mut k: usize = 0;
                while k < bn
                    invariant
                        k <= bn,
                        i < n,
                        j < bc,
                        acc == sp_dot_prefix(self@[i as int], sp_col(rhs@, j as int), k as int),
                    decreases bn - k,
                {
                    let x = self.rows[i][k].mul(rhs.rows[k][j]);
                    acc = acc.add(x);
                    k = k + 1;
                }
                proof {
                    assert(acc == sp_dot(self@[i as int], sp_col(rhs@, j as int)));
                }
                row.push(acc);
                j = j + 1;
            }
            out.push(row);
            i = i + 1;
        }
        let r = Matrix { rows: out };
        proof {
            assert(r@ =~~= sp_matmul(self@, rhs@));
        }
        r
    }

    /// The image of a vector under the matrix; the one arithmetic boundary
    /// that reports a dimension mismatch as a recoverable error.
    pub fn mul_vector(&self, v: &Vector<T>) -> (r: Result<Vector<T>, String>)
        requires
            self@.len() > 0,
            sp_rect(self@),
        ensures
            (r is Ok) == (v@.len() == sp_cols(self@)),
            r matches Ok(w) ==> w@.len() == self@.len() && forall|i: int|
                0 <= i < self@.len() ==> w@[i] == sp_dot(self@[i], v@),
            r matches Err(m) ==> m@ == "Vector does not have same dimension as matrix"@,
    {
        broadcast use lemma_rows_view;

        if v.entries.len() != self.rows[0].len() {
            return Err("Vector does not have same dimension as matrix".to_owned());
        }
        let n = self.rows.len();
        let cols = self.rows[0].len();
        let mut res: Vec<T> = Vec::new();
        let mut i: usize = 0;
        while i < n
            invariant
                i <= n,
                res@.len() == i,
                forall|p: int| 0 <= p < i ==> res@[p] == sp_dot(self@[p], v@),
            decreases n - i,
        {
            let mut entry = T::zero();
            let mut j: usize = 0;
            while j < cols
                invariant
                    j <= cols,
                    i < n,
                    entry == sp_dot_prefix(self@[i as int], v@, j as int),
                decreases cols - j,
            {
                let x = self.rows[i][j].mul(v.entries[j]);
                entry = entry.add(x);
                j = j + 1;
            }
            res.push(entry);
            i = i + 1;
        }
        Ok(Vector { entries: res })
    }

    /// Column `col` of the matrix as a vector.
    pub(crate) fn get_vector(&self, col: usize) -> (r: Vector<T>)
        requires
            sp_rect(self@),
            col < sp_cols(self@),
        ensures
            r@ == sp_col(self@, col as int),
    {
        broadcast use lemma_rows_view;

        let n = self.rows.len();
        let mut out: Vec<T> = Vec::new();
        let mut i: usize = 0;
        while i < n
            invariant
                i <= n,
                out@.len() == i,
                forall|p: int| 0 <= p < i ==> out@[p] == self@[p][col as int],
            decreases n - i,
        {
            let x = self.rows[i][col];
            out.push(x);
            i = i + 1;
        }
        let r = Vector { entries: out };
        proof {
            assert(r@ =~= sp_col(self@, col as int));
        }
        r
    }

    /// A copy of one row.
    pub(crate) fn copy_row(row: &Vec<T>) -> (r: Vec<T>)
        ensures
            r@ == row@,
    {
        let n = row.len();
        let mut out: Vec<T> = Vec::new();
        let mut i: usize = 0;
        while i < n
            invariant
                i <= n,
                out@.len() == i,
                forall|p: int| 0 <= p < i ==> out@[p] == row@[p],
            decreases n - i,
        {
            let x = row[i];
            out.push(x);
            i = i + 1;
        }
        proof {
            assert(out@ =~= row@);
        }
        out
    }

    /// The matrix with rows `r1` and `r2` exchanged; an out-of-range index is
    /// a recoverable error.
    pub fn rowswap(&self, r1: usize, r2: usize) -> (r: Result<Self, String>)
        ensures
            (r is Ok) == (r1 < self@.len() && r2 < self@.len()),
            r matches Ok(m) ==> m@ == self@.update(r1 as int, self@[r2 as int]).update(
                r2 as int,
                self@[r1 as int],
            ),
            r matches Err(m) ==> m@ == "Row index exceeds last row"@,
    {
        broadcast use lemma_rows_view;

        let n = self.rows.len();
        if r1 >= n || r2 >= n {
            return Err("Row index exceeds last row".to_owned());
        }
        let mut out: Vec<Vec<T>> = Vec::new();
        let mut i: usize = 0;
        while i < n
            invariant
                i <= n,
                r1 < n,
                r2 < n,
                out@.len() == i,
                forall|p: int|
                    0 <= p < i ==> (#[trigger] out@[p])@ == self@.update(
                        r1 as int,
                        self@[r2 as int],
                    ).update(r2 as int, self@[r1 as int])[p],
            decreases n - i,
        {
            let src: usize = if i == r1 {
                r2
            } else if i == r2 {
                r1
            } else {
                i
            };
            let row = Self::copy_row(&self.rows[src]);
            out.push(row);
            i = i + 1;
        }
        let m = Matrix { rows: out };
        proof {
            assert(m@ =~~= self@.update(r1 as int, self@[r2 as int]).update(
                r2 as int,
                self@[r1 as int],
            ));
        }
        Ok(m)
    }

    /// The matrix with row `row` multiplied by `c`; an out-of-range index is
    /// a recoverable error.
    pub fn rowscale(&self, row: usize, c: T) -> (r: Result<Self, String>)
        ensures
            (r is Ok) == (row < self@.len()),
            r matches Ok(m) ==> m@ == self@.update(
                row as int,
                Seq::new(self@[row as int].len(), |j: int| self@[row as int][j].sp_mul(c)),
            ),
            r matches Err(m) ==> m@ == "Row index exceeds last row"@,
    {
        broadcast use lemma_rows_view;

        let n = self.rows.len();
        if row >= n {
            return Err("Row index exceeds last row".to_owned());
        }
        let mut out: Vec<Vec<T>> = Vec::new();
        let mut i: usize = 0;
        while i < n
            invariant
                i <= n,
                row < n,
                out@.len() == i,
                forall|p: int|
                    0 <= p < i && p != row ==> (#[trigger] out@[p])@ == self@[p],
                forall|p: int|
                    0 <= p < i && p == row ==> (#[trigger] out@[p])@ == Seq::new(
                        self@[row as int].len(),
                        |j: int| self@[row as int][j].sp_mul(c),
                    ),
            decreases n - i,
        {
            if i == row {
                let cols = self.rows[i].len();
                let mut scaled: Vec<T> = Vec::new();
                let mut j: usize = 0;
                while j < cols
                    invariant
                        j <= cols,
                        i < n,
                        i == row,
                        cols == self@[row as int].len(),
                        scaled@.len() == j,
                        forall|q: int| 0 <= q < j ==> scaled@[q] == self@[row as int][q].sp_mul(c),
                    decreases cols - j,
                {
                    let x = self.rows[i][j].mul(c);
                    scaled.push(x);
                    j = j + 1;
                }
                proof {
                    assert(scaled@ =~= Seq::new(
                        self@[row as int].len(),
                        |j: int| self@[row as int][j].sp_mul(c),
                    ));
                }
                out.push(scaled);
            } else {
                let copied = Self::copy_row(&self.rows[i]);
                out.push(copied);
            }
            i = i + 1;
        }
        let m = Matrix { rows: out };
        proof {
            assert(m@ =~~= self@.update(
                row as int,
                Seq::new(self@[row as int].len(), |j: int| self@[row as int][j].sp_mul(c)),
            ));
        }
        Ok(m)
    }

    /// The matrix with `c` times row `r2` added into row `r1`; an
    /// out-of-range index or `r1 == r2` is a recoverable error.
    pub fn rowadd(&self, r1: usize, r2: usize, c: T) -> (r: Result<Self, String>)
        requires
            sp_rect(self@),
        ensures
            (r is Ok) == (r1 < self@.len() && r2 < self@.len() && r1 != r2),
            r matches Ok(m) ==> m@ == self@.update(
                r1 as int,
                Seq::new(
                    self@[r1 as int].len(),
                    |j: int| self@[r1 as int][j].sp_add(c.sp_mul(self@[r2 as int][j])),
                ),
            ),
            (r1 >= self@.len() || r2 >= self@.len()) ==> (r matches Err(m) && m@
                == "Row index exceeds last row"@),
            (r1 < self@.len() && r2 < self@.len() && r1 == r2) ==> (r matches Err(m) && m@
                == "Cannot add a row to itself"@),
    {
        broadcast use lemma_rows_view;

        let n = self.rows.len();
        if r1 >= n || r2 >= n {
            return Err("Row index exceeds last row".to_owned());
        }
        if r1 == r2 {
            return Err("Cannot add a row to itself".to_owned());
        }
        let mut out: Vec<Vec<T>> = Vec::new();
        let mut i: usize = 0;
        while i < n
            invariant
                i <= n,
                r1 < n,
                r2 < n,
                r1 != r2,
                out@.len() == i,
                forall|p: int|
                    0 <= p < i && p != r1 ==> (#[trigger] out@[p])@ == self@[p],
                forall|p: int|
                    0 <= p < i && p == r1 ==> (#[trigger] out@[p])@ == Seq::new(
                        self@[r1 as int].len(),
                        |j: int| self@[r1 as int][j].sp_add(c.sp_mul(self@[r2 as int][j])),
                    ),
            decreases n - i,
        {
            if i == r1 {
                let cols = self.rows[i].len();
                let mut summed: Vec<T> = Vec::new();
                let mut j: usize = 0;
                while j < cols
                    invariant
                        j <= cols,
                        i < n,
                        i == r1,
                        cols == self@[r1 as int].len(),
                        summed@.len() == j,
                        forall|q: int|
                            0 <= q < j ==> summed@[q] == self@[r1 as int][q].sp_add(
                                c.sp_mul(self@[r2 as int][q]),
                            ),
                    decreases cols - j,
                {
                    let x = c.mul(self.rows[r2][j]);
                    let y = self.rows[r1][j].add(x);
                    summed.push(y);
                    j = j + 1;
                }
                proof {
                    assert(summed@ =~= Seq::new(
                        self@[r1 as int].len(),
                        |j: int| self@[r1 as int][j].sp_add(c.sp_mul(self@[r2 as int][j])),
                    ));
                }
                out.push(summed);
            } else {
                let copied = Self::copy_row(&self.rows[i]);
                out.push(copied);
            }
            i = i + 1;
        }
        let m = Matrix { rows: out };
        proof {
            assert(m@ =~~= self@.update(
                r1 as int,
                Seq::new(
                    self@[r1 as int].len(),
                    |j: int| self@[r1 as int][j].sp_add(c.sp_mul(self@[r2 as int][j])),
                ),
            ));
        }
        Ok(m)
    }

    /// The matrix with row `row` and column `col` deleted; a nonexistent row
    /// or column is a recoverable error.
    pub fn submatrix(&self, row: usize, col: usize) -> (r: Result<Self, String>)
        requires
            sp_rect(self@),
        ensures
            (r is Ok) == (row < self@.len() && col < sp_cols(self@)),
            r matches Ok(m) ==> {
                &&& m@.len() == self@.len() - 1
                &&& sp_rect(m@)
                &&& forall|i: int|
                    0 <= i < m@.len() ==> (#[trigger] m@[i]).len() == sp_cols(self@) - 1
                &&& forall|i: int, j: int|
                    0 <= i < m@.len() && 0 <= j < sp_cols(self@) - 1 ==> (#[trigger] m@[i][j])
                        == self@[if i < row { i } else { i + 1 }][if j < col { j } else { j + 1 }]
            },
            row >= self@.len() ==> (r matches Err(m) && m@
                == "Cannot remove row that does not exist"@),
            row < self@.len() && col >= sp_cols(self@) ==> (r matches Err(m) && m@
                == "Cannot remove column that does not exist"@),
    {
        broadcast use lemma_rows_view;

        let n = self.rows.len();
        if row >= n {
            return Err("Cannot remove row that does not exist".to_owned());
        }
        if col >= self.rows[0].len() {
            return Err("Cannot remove column that does not exist".to_owned());
        }
        let cols = self.rows[0].len();
        let mut out: Vec<Vec<T>> = Vec::new();
        let mut i: usize = 0;
        while i < n
            invariant
                i <= n,
                row < n,
                col < cols,
                cols == sp_cols(self@),
                out@.len() == if i <= row { i as int } else { i - 1 },
                forall|p: int| 0 <= p < out@.len() ==> (#[trigger] out@[p])@.len() == cols - 1,
                forall|p: int, q: int|
                    0 <= p < out@.len() && 0 <= q < cols - 1 ==> (#[trigger] out@[p]@[q])
                        == self@[if p < row { p } else { p + 1 }][if q < col { q } else { q + 1 }],
            decreases n - i,
        {
            if i != row {
                let mut mat_row: Vec<T> = Vec::new();
                let mut j: usize = 0;
                while j < cols
                    invariant
                        j <= cols,
                        i < n,
                        i != row,
                        col < cols,
                        cols == sp_cols(self@),
                        mat_row@.len() == if j <= col { j as int } else { j - 1 },
                        forall|q: int|
                            0 <= q < mat_row@.len() ==> #[trigger] mat_row@[q] == self@[i as int][
                                if q < col { q } else { q + 1 }
                            ],
                    decreases cols - j,
                {
                    if j != col {
                        let x = self.rows[i][j];
                        mat_row.push(x);
                    }
                    j = j + 1;
                }
                out.push(mat_row);
            }
            i = i + 1;
        }
        Ok(Matrix { rows: out })
    }

    /// The matrix with `other` written over the block rooted at
    /// `(row, col)`; the caller guarantees that the block fits.
    pub fn embed_matrix(&self, other: &Self, row: usize, col: usize) -> (r: Self)
        requires
            sp_rect(self@),
            sp_rect(other@),
            row + other@.len() <= self@.len(),
            col + sp_cols(other@) <= sp_cols(self@),
        ensures
            r@.len() == self@.len(),
            sp_cols(r@) == sp_cols(self@),
            sp_rect(r@),
            forall|i: int, j: int|
                0 <= i < self@.len() && 0 <= j < sp_cols(self@) ==> (#[trigger] r@[i][j]) == (
                if row <= i < row + other@.len() && col <= j < col + sp_cols(other@) {
                    other@[i - row][j - col]
                } else {
                    self@[i][j]
                }),
    {
        broadcast use lemma_rows_view;

        let n = self.rows.len();
        let on = other.rows.len();
        let mut out: Vec<Vec<T>> = Vec::new();
        let mut i: usize = 0;
        while i < n
            invariant
                i <= n,
                out@.len() == i,
                forall|p: int| 0 <= p < i ==> (#[trigger] out@[p])@.len() == sp_cols(self@),
                forall|p: int, q: int|
                    0 <= p < i && 0 <= q < sp_cols(self@) ==> (#[trigger] out@[p]@[q]) == (
                    if row <= p < row + other@.len() && col <= q < col + sp_cols(other@) {
                        other@[p - row][q - col]
                    } else {
                        self@[p][q]
                    }),
            decreases n - i,
        {
            let cols = self.rows[i].len();
            let mut mat_row: Vec<T> = Vec::new();
            let mut j: usize = 0;
            while j < cols
                invariant
                    j <= cols,
                    i < n,
                    cols == sp_cols(self@),
                    mat_row@.len() == j,
                    forall|q: int|
                        0 <= q < j ==> #[trigger] mat_row@[q] == (if row <= i < row + other@.len()
                            && col <= q < col + sp_cols(other@) {
                            other@[i - row][q - col]
                        } else {
                            self@[i as int][q]
                        }),
                decreases cols - j,
            {
                if row <= i && i < row + on && col <= j && j < col + other.rows[0].len() {
                    let x = other.rows[i - row][j - col];
                    mat_row.push(x);
                } else {
                    let x = self.rows[i][j];
                    mat_row.push(x);
                }
                j = j + 1;
            }
            out.push(mat_row);
            i = i + 1;
        }
        Matrix { rows: out }
    }

    /// The two matrices side by side; differing heights are a recoverable
    /// error.
    pub fn augment_cols(&self, right: &Self) -> (r: Result<Self, String>)
        ensures
            (r is Ok) == (self@.len() == right@.len()),
            r matches Ok(m) ==> m@.len() == self@.len() && forall|i: int|
                0 <= i < self@.len() ==> #[trigger] m@[i] == self@[i] + right@[i],
            r matches Err(m) ==> m@
                == "Cannot horizontally augment matrices of different heights"@,
    {
        broadcast use lemma_rows_view;

        let n = self.rows.len();
        if n != right.rows.len() {
            return Err("Cannot horizontally augment matrices of different heights".to_owned());
        }
        let mut out: Vec<Vec<T>> = Vec::new();
        let mut i: usize = 0;
        while i < n
            invariant
                i <= n,
                right@.len() == n,
                out@.len() == i,
                forall|p: int| 0 <= p < i ==> (#[trigger] out@[p])@ == self@[p] + right@[p],
            decreases n - i,
        {
            let mut mat_row = Self::copy_row(&self.rows[i]);
            let rc = right.rows[i].len();
            let mut j: usize = 0;
            while j < rc
                invariant
                    j <= rc,
                    i < n,
                    right@.len() == n,
                    rc == right@[i as int].len(),
                    mat_row@.len() == self@[i as int].len() + j,
                    mat_row@ == self@[i as int] + right@[i as int].subrange(0, j as int),
                decreases rc - j,
            {
                let x = right.rows[i][j];
                mat_row.push(x);
                proof {
                    assert(mat_row@ =~= self@[i as int] + right@[i as int].subrange(
                        0,
                        j + 1 as int,
                    ));
                }
                j = j + 1;
            }
            proof {
                assert(right@[i as int].subrange(0, rc as int) =~= right@[i as int]);
            }
            out.push(mat_row);
            i = i + 1;
        }
        Ok(Matrix { rows: out })
    }

    /// The second matrix below the first; differing widths are a recoverable
    /// error.
    pub fn augment_rows(&self, below: &Self) -> (r: Result<Self, String>)
        requires
            self@.len() > 0,
            below@.len() > 0,
        ensures
            (r is Ok) == (sp_cols(self@) == sp_cols(below@)),
            r matches Ok(m) ==> m@ == self@ + below@,
            r matches Err(m) ==> m@ == "Cannot vertically augment matrices of different widths"@,
    {
        broadcast use lemma_rows_view;

        if self.rows[0].len() != below.rows[0].len() {
            return Err("Cannot vertically augment matrices of different widths".to_owned());
        }
        let n = self.rows.len();
        let bn = below.rows.len();
        let mut out: Vec<Vec<T>> = Vec::new();
        let mut i: usize = 0;
        while i < n
            invariant
                i <= n,
                out@.len() == i,
                forall|p: int| 0 <= p < i ==> (#[trigger] out@[p])@ == self@[p],
            decreases n - i,
        {
            let copied = Self::copy_row(&self.rows[i]);
            out.push(copied);
            i = i + 1;
        }
        let mut k: usize = 0;
        while k < bn
            invariant
                k <= bn,
                out@.len() == n + k,
                forall|p: int| 0 <= p < n ==> (#[trigger] out@[p])@ == self@[p],
                forall|p: int| n <= p < n + k ==> (#[trigger] out@[p])@ == below@[p - n],
            decreases bn - k,
        {
            let copied = Self::copy_row(&below.rows[k]);
            out.push(copied);
            k = k + 1;
        }
        let m = Matrix { rows: out };
        proof {
            assert(m@ =~~= self@ + below@);
        }
        Ok(m)
    }

    /// The sum of the diagonal; a non-square matrix is a recoverable error.
    pub fn trace(&self) -> (r: Result<T, String>)
        requires
            self@.len() > 0,
            sp_rect(self@),
        ensures
            (r is Ok) == (self@.len() == sp_cols(self@)),
            r matches Ok(t) ==> t == sp_trace(self@),
            r matches Err(m) ==> m@ == "Cannot compute trace of non-square matrix"@,
    {
        broadcast use lemma_rows_view;

        if !self.is_square() {
            return Err("Cannot compute trace of non-square matrix".to_owned());
        }
        let n = self.rows.len();
        let mut acc = T::zero();
        let mut i: usize = 0;
        while i < n
            invariant
                i <= n,
                acc == sp_diag_sum_prefix(self@, i as int),
            decreases n - i,
        {
            let x = self.rows[i][i];
            acc = acc.add(x);
            i = i + 1;
        }
        Ok(acc)
    }
}

} // verus!
