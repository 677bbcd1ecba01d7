//! The algorithms built on echelon reduction: determinant, invertibility,
//! reduced echelon form, inverse, integer powers by repeated squaring, and
//! the fixed 20-term truncated matrix exponential.

use vstd::prelude::*;

use crate::common::factorial;
use crate::common::spec_factorial;
use crate::echelon::Echelon;
use crate::echelon::sp_echelon_seq;
use crate::echelon::lemma_echelon_shape;
use crate::echelon::lemma_wf_echelon;
use crate::matrix::Matrix;
use crate::model::lemma_rows_view;
use crate::model::sp_cols;
use crate::model::sp_ew_add;
use crate::model::sp_id;
use crate::model::sp_matmul;
use crate::model::sp_rect;
use crate::model::sp_wf_mat;
use crate::model::lemma_matmul_id_left;
use crate::model::sp_scale_seq;
use crate::scalar::Scalar;

verus! {

/// The first `k` diagonal entries of `m` multiplied into `init`, left to
/// right.
pub open spec fn sp_diag_prod_prefix<T: Scalar>(m: Seq<Seq<T>>, k: int, init: T) -> T
    decreases k,
{
    if k <= 0 {
        init
    } else {
        sp_diag_prod_prefix(m, k - 1, init).sp_mul(m[k - 1][k - 1])
    }
}

/// The determinant of a square table: the diagonal product of its echelon
/// form, with the sign of the swap parity.
pub open spec fn sp_det<T: Scalar>(m: Seq<Seq<T>>) -> T {
    let e = sp_echelon_seq(m);
    let init = if e.1 % 2 == 0 {
        T::sp_one()
    } else {
        T::sp_one().sp_neg()
    };
    sp_diag_prod_prefix(e.0, sp_cols(m) as int, init)
}

/// Invertibility: square, with a nonzero bottom-right entry in the echelon
/// form — the last pivot of a full-rank reduction.
pub open spec fn sp_invertible<T: Scalar>(m: Seq<Seq<T>>) -> bool {
    m.len() == sp_cols(m) && !sp_echelon_seq(m).0[m.len() - 1][sp_cols(m) - 1].sp_is_zero()
}

/// The pivot column of `row`: the first column at or after `pcol` holding a
/// nonzero entry.
pub open spec fn sp_rref_find<T: Scalar>(m: Seq<Seq<T>>, row: int, pcol: int, cols: int) -> Option<
    int,
>
    decreases cols - pcol,
{
    if pcol < 0 || pcol >= cols {
        None
    } else if !m[row][pcol].sp_is_zero() {
        Some(pcol)
    } else {
        sp_rref_find(m, row, pcol + 1, cols)
    }
}

/// Row `row` rescaled so its pivot at column `p` becomes the exact one.
pub open spec fn sp_rref_scale<T: Scalar>(m: Seq<Seq<T>>, row: int, p: int) -> Seq<Seq<T>> {
    m.update(
        row,
        Seq::new(
            m[row].len(),
            |j: int|
                if j == p {
                    T::sp_one()
                } else {
                    m[row][j].sp_mul(T::sp_one().sp_div(m[row][p]))
                },
        ),
    )
}

/// Back substitution: the pivot column `p` of row `row` cleared in every row
/// above it, each cleared entry set to the exact zero.
pub open spec fn sp_rref_elim_above<T: Scalar>(m: Seq<Seq<T>>, row: int, p: int) -> Seq<Seq<T>> {
    Seq::new(
        m.len(),
        |i: int|
            if i < row {
                Seq::new(
                    m[i].len(),
                    |j: int|
                        if j == p {
                            T::sp_zero()
                        } else {
                            m[i][j].sp_add(m[i][p].sp_neg().sp_mul(m[row][j]))
                        },
                )
            } else {
                m[i]
            },
    )
}

/// One pass of back substitution from `row` on, carrying the column at which
/// the pivot search resumes; a row without a pivot ends the pass.
pub open spec fn sp_rref_step<T: Scalar>(
    m: Seq<Seq<T>>,
    row: int,
    pcol: int,
    rows: int,
    cols: int,
) -> Seq<Seq<T>>
    decreases rows - row,
{
    if row < 0 || row >= rows {
        m
    } else {
        match sp_rref_find(m, row, pcol, cols) {
            Option::None => m,
            Option::Some(p) => {
                let m1 = sp_rref_scale(m, row, p);
                let m2 = sp_rref_elim_above(m1, row, p);
                sp_rref_step(m2, row + 1, p, rows, cols)
            },
        }
    }
}

/// The reduced echelon form: echelon reduction followed by pivot
/// normalization and upward elimination.
pub open spec fn sp_reduced_echelon<T: Scalar>(m: Seq<Seq<T>>) -> Seq<Seq<T>> {
    sp_rref_step(sp_echelon_seq(m).0, 0, 0, m.len() as int, sp_cols(m) as int)
}

/// Rescaling a row keeps the shape.
proof fn lemma_rref_scale_shape<T: Scalar>(m: Seq<Seq<T>>, row: int, p: int)
    requires
        sp_rect(m),
        0 <= row < m.len(),
    ensures
        sp_rref_scale(m, row, p).len() == m.len(),
        sp_cols(sp_rref_scale(m, row, p)) == sp_cols(m),
        sp_rect(sp_rref_scale(m, row, p)),
{
    let r = sp_rref_scale(m, row, p);
    assert(r[0].len() == sp_cols(m));
    assert(forall|i: int| 0 <= i < r.len() ==> (#[trigger] r[i]).len() == sp_cols(m));
}

/// Back substitution keeps the shape.
proof fn lemma_rref_elim_shape<T: Scalar>(m: Seq<Seq<T>>, row: int, p: int)
    requires
        sp_rect(m),
        0 <= row < m.len(),
    ensures
        sp_rref_elim_above(m, row, p).len() == m.len(),
        sp_cols(sp_rref_elim_above(m, row, p)) == sp_cols(m),
        sp_rect(sp_rref_elim_above(m, row, p)),
{
    let r = sp_rref_elim_above(m, row, p);
    assert(r[0].len() == sp_cols(m));
    assert(forall|i: int| 0 <= i < r.len() ==> (#[trigger] r[i]).len() == sp_cols(m));
}

/// The back-substitution pass keeps the shape.
proof fn lemma_rref_step_shape<T: Scalar>(m: Seq<Seq<T>>, row: int, pcol: int, rows: int, cols: int)
    requires
        sp_rect(m),
        sp_cols(m) == cols,
        m.len() == rows,
    ensures
        sp_rref_step(m, row, pcol, rows, cols).len() == rows,
        sp_cols(sp_rref_step(m, row, pcol, rows, cols)) == cols,
        sp_rect(sp_rref_step(m, row, pcol, rows, cols)),
    decreases rows - row,
{
    if row < 0 || row >= rows {
    } else {
        match sp_rref_find(m, row, pcol, cols) {
            Option::None => {},
            Option::Some(p) => {
                let m1 = sp_rref_scale(m, row, p);
                lemma_rref_scale_shape(m, row, p);
                let m2 = sp_rref_elim_above(m1, row, p);
                lemma_rref_elim_shape(m1, row, p);
                lemma_rref_step_shape(m2, row + 1, p, rows, cols);
            },
        }
    }
}

/// The reduced echelon form keeps the shape: the public corollary.
pub proof fn lemma_reduced_echelon_shape<T: Scalar>(m: Seq<Seq<T>>)
    requires
        sp_rect(m),
        m.len() > 0,
    ensures
        sp_reduced_echelon(m).len() == m.len(),
        sp_cols(sp_reduced_echelon(m)) == sp_cols(m),
        sp_rect(sp_reduced_echelon(m)),
{
    lemma_echelon_shape(m);
    lemma_rref_step_shape(sp_echelon_seq(m).0, 0, 0, m.len() as int, sp_cols(m) as int);
}

/// The inverse of a square table: the right half of the reduced echelon form
/// of the table augmented with the identity.
pub open spec fn sp_augmented_id<T: Scalar>(m: Seq<Seq<T>>) -> Seq<Seq<T>> {
    Seq::new(m.len(), |i: int| m[i] + sp_id::<T>(m.len())[i])
}

pub open spec fn sp_inverse<T: Scalar>(m: Seq<Seq<T>>) -> Seq<Seq<T>> {
    let red = sp_reduced_echelon(sp_augmented_id(m));
    Seq::new(m.len(), |i: int| red[i].subrange(sp_cols(m) as int, red[i].len() as int))
}

/// The square-and-multiply pass: the accumulator takes the current power of
/// two of the base whenever that bit of the exponent is set, and the base is
/// squared until the power of two passes the exponent.
pub open spec fn sp_powi_loop<T: Scalar>(
    res: Seq<Seq<T>>,
    mult: Seq<Seq<T>>,
    absp: i64,
    pow2: i64,
) -> Seq<Seq<T>>
    decreases absp + 2 - pow2,
{
    let res1 = if absp & pow2 != 0 {
        sp_matmul(res, mult)
    } else {
        res
    };
    if pow2 <= 0 || 2 * pow2 > absp {
        res1
    } else {
        sp_powi_loop(res1, sp_matmul(mult, mult), absp, (2 * pow2) as i64)
    }
}

/// The integer power of a square table: binary exponentiation, from the
/// inverse when the exponent is negative.
pub open spec fn sp_powi<T: Scalar>(m: Seq<Seq<T>>, power: i64) -> Seq<Seq<T>> {
    let base = if power >= 0 {
        m
    } else {
        sp_inverse(m)
    };
    let absp: i64 = if power >= 0 {
        power
    } else {
        (-(power as int)) as i64
    };
    sp_powi_loop(sp_id(m.len()), base, absp, 1)
}

/// The truncated exponential pass: terms `mult / k!` accumulated for
/// `k` from 1 through 20, the running power multiplied by `m` each step.
pub open spec fn sp_exp_loop<T: Scalar>(
    m: Seq<Seq<T>>,
    res: Seq<Seq<T>>,
    mult: Seq<Seq<T>>,
    k: int,
) -> Seq<Seq<T>>
    decreases 21 - k,
{
    if k < 1 || k >= 21 {
        res
    } else {
        let c = T::sp_one().sp_div(T::sp_from_int((spec_factorial(k)) as i64));
        sp_exp_loop(m, sp_ew_add(res, sp_scale_seq(mult, c)), sp_matmul(mult, m), k + 1)
    }
}

/// The fixed 20-term truncated Taylor series of the matrix exponential.
pub open spec fn sp_exp<T: Scalar>(m: Seq<Seq<T>>) -> Seq<Seq<T>> {
    sp_exp_loop(m, sp_id(m.len()), m, 1)
}


/// A found pivot column lies in range and holds a nonzero entry.
proof fn lemma_rref_find_range<T: Scalar>(m: Seq<Seq<T>>, row: int, pcol: int, cols: int)
    requires
        sp_rref_find(m, row, pcol, cols) is Some,
    ensures
        0 <= sp_rref_find(m, row, pcol, cols)->Some_0 < cols,
    decreases cols - pcol,
{
    if pcol < 0 || pcol >= cols {
    } else if !m[row][pcol].sp_is_zero() {
    } else {
        lemma_rref_find_range(m, row, pcol + 1, cols);
    }
}

/// Rescaling a pivot row keeps every entry well-formed.
proof fn lemma_wf_rref_scale<T: Scalar>(m: Seq<Seq<T>>, row: int, p: int)
    requires
        sp_wf_mat(m),
        sp_rect(m),
        0 <= row < m.len(),
        0 <= p < sp_cols(m),
    ensures
        sp_wf_mat(sp_rref_scale(m, row, p)),
{
    let r = sp_rref_scale(m, row, p);
    T::law_consts_wf(0);
    assert forall|i: int, j: int| 0 <= i < r.len() && 0 <= j < r[i].len() implies (#[trigger] r[i][j]).sp_wf() by {
        if i == row {
            assert(r[i].len() == m[row].len());
            if j != p {
                T::law_wf(T::sp_one(), m[row][p]);
                T::law_wf(m[row][j], T::sp_one().sp_div(m[row][p]));
            }
        } else {
            assert(r[i] == m[i]);
        }
    }
}

/// Back substitution keeps every entry well-formed.
proof fn lemma_wf_rref_elim<T: Scalar>(m: Seq<Seq<T>>, row: int, p: int)
    requires
        sp_wf_mat(m),
        sp_rect(m),
        0 <= row < m.len(),
        0 <= p < sp_cols(m),
    ensures
        sp_wf_mat(sp_rref_elim_above(m, row, p)),
{
    let r = sp_rref_elim_above(m, row, p);
    T::law_consts_wf(0);
    assert forall|i: int, j: int| 0 <= i < r.len() && 0 <= j < r[i].len() implies (#[trigger] r[i][j]).sp_wf() by {
        if i < row {
            assert(r[i].len() == m[i].len());
            if j != p {
                T::law_wf(m[i][p], m[i][p]);
                T::law_wf(m[i][p].sp_neg(), m[row][j]);
                T::law_wf(m[i][j], m[i][p].sp_neg().sp_mul(m[row][j]));
            }
        } else {
            assert(r[i] == m[i]);
        }
    }
}

/// The back-substitution pass keeps every entry well-formed.
proof fn lemma_wf_rref_step<T: Scalar>(m: Seq<Seq<T>>, row: int, pcol: int, rows: int, cols: int)
    requires
        sp_wf_mat(m),
        sp_rect(m),
        sp_cols(m) == cols,
        m.len() == rows,
    ensures
        sp_wf_mat(sp_rref_step(m, row, pcol, rows, cols)),
    decreases rows - row,
{
    if row < 0 || row >= rows {
    } else {
        match sp_rref_find(m, row, pcol, cols) {
            Option::None => {},
            Option::Some(p) => {
                lemma_rref_find_range(m, row, pcol, cols);
                let m1 = sp_rref_scale(m, row, p);
                lemma_rref_scale_shape(m, row, p);
                lemma_wf_rref_scale(m, row, p);
                let m2 = sp_rref_elim_above(m1, row, p);
                lemma_rref_elim_shape(m1, row, p);
                lemma_wf_rref_elim(m1, row, p);
                lemma_wf_rref_step(m2, row + 1, p, rows, cols);
            },
        }
    }
}

/// The inverse of a well-formed square table has its shape and is
/// well-formed entrywise.
pub proof fn lemma_wf_inverse<T: Scalar>(m: Seq<Seq<T>>)
    requires
        sp_wf_mat(m),
        sp_rect(m),
        m.len() > 0,
        m.len() == sp_cols(m),
    ensures
        sp_inverse(m).len() == m.len(),
        sp_cols(sp_inverse(m)) == sp_cols(m),
        sp_rect(sp_inverse(m)),
        sp_wf_mat(sp_inverse(m)),
{
    let n = m.len();
    let aug = sp_augmented_id(m);
    T::law_consts_wf(0);
    assert(sp_rect(aug)) by {
        assert(forall|i: int| 0 <= i < aug.len() ==> (#[trigger] aug[i]).len() == 2 * n);
        assert(aug[0].len() == 2 * n);
    }
    assert(sp_wf_mat(aug)) by {
        assert forall|i: int, j: int| 0 <= i < aug.len() && 0 <= j < aug[i].len() implies (
        #[trigger] aug[i][j]).sp_wf() by {
            if j < m[i].len() {
                assert(aug[i][j] == m[i][j]);
            } else {
                assert(aug[i][j] == sp_id::<T>(n)[i][j - n]);
            }
        }
    }
    lemma_echelon_shape(aug);
    lemma_wf_echelon(aug);
    lemma_reduced_echelon_shape(aug);
    lemma_rref_step_shape(sp_echelon_seq(aug).0, 0, 0, aug.len() as int, sp_cols(aug) as int);
    lemma_wf_rref_step(sp_echelon_seq(aug).0, 0, 0, aug.len() as int, sp_cols(aug) as int);
    let red = sp_reduced_echelon(aug);
    let inv = sp_inverse(m);
    assert(forall|i: int| 0 <= i < inv.len() ==> (#[trigger] inv[i]).len() == n);
    assert(inv[0].len() == n);
    assert forall|i: int, j: int| 0 <= i < inv.len() && 0 <= j < inv[i].len() implies (#[trigger] inv[i][j]).sp_wf() by {
        assert(inv[i][j] == red[i][j + n]);
    }
}

/// Raising to the zeroth power yields the identity, exactly.
pub proof fn lemma_powi_zero<T: Scalar>(m: Seq<Seq<T>>)
    ensures
        sp_powi(m, 0i64) == sp_id::<T>(m.len()),
{
    assert(0i64 & 1i64 == 0) by (bit_vector);
}

/// Raising to the first power yields the matrix itself, exactly, for tables
/// of well-formed entries.
pub proof fn lemma_powi_one<T: Scalar>(m: Seq<Seq<T>>)
    requires
        sp_rect(m),
        sp_wf_mat(m),
    ensures
        sp_powi(m, 1i64) == m,
{
    assert(1i64 & 1i64 == 1) by (bit_vector);
    lemma_matmul_id_left(m);
}

/// Raising to the power minus one yields the inverse, exactly, for
/// well-formed square tables.
pub proof fn lemma_powi_neg_one<T: Scalar>(m: Seq<Seq<T>>)
    requires
        sp_rect(m),
        sp_wf_mat(m),
        m.len() > 0,
        m.len() == sp_cols(m),
    ensures
        sp_powi(m, -1i64) == sp_inverse(m),
{
    assert(1i64 & 1i64 == 1) by (bit_vector);
    lemma_wf_inverse(m);
    assert(sp_inverse(m).len() == m.len());
    lemma_matmul_id_left(sp_inverse(m));
}

impl<T: Scalar> Matrix<T> {
    /// The determinant; a non-square matrix is a domain error.
    pub fn det(&self) -> (r: Result<T, String>)
        requires
            self@.len() > 0,
            sp_rect(self@),
        ensures
            (r is Ok) == (self@.len() == sp_cols(self@)),
            r matches Ok(d) ==> d == sp_det(self@),
            r matches Err(m) ==> m@ == "Non-square matrix has no determinant"@,
    {
        broadcast use lemma_rows_view;

        if !self.is_square() {
            return Err("Non-square matrix has no determinant".to_owned());
        }
        proof {
            lemma_echelon_shape(self@);
        }
        let (mat_ref, swaps) = self.echelon();
        let cols = self.rows[0].len();
        let mut determinant = if swaps % 2 == 0 {
            T::one()
        } else {
            T::one().neg()
        };
        let mut i: usize = 0;
        while i < cols
            invariant
                i <= cols,
                determinant == sp_diag_prod_prefix(
                    mat_ref@,
                    i as int,
                    if sp_echelon_seq(self@).1 % 2 == 0 {
                        T::sp_one()
                    } else {
                        T::sp_one().sp_neg()
                    },
                ),
            decreases cols - i,
        {
            let x = mat_ref.rows[i][i];
            determinant = determinant.mul(x);
            i = i + 1;
        }
        Ok(determinant)
    }

    /// Whether the matrix is square with full rank, judged by the last pivot
    /// of its echelon form.
    pub fn is_invertible(&self) -> (r: bool)
        requires
            self@.len() > 0,
            sp_rect(self@),
        ensures
            r == sp_invertible(self@),
    {
        broadcast use lemma_rows_view;

        if !self.is_square() {
            return false;
        }
        proof {
            lemma_echelon_shape(self@);
        }
        let (e, _swaps) = self.echelon();
        let n = self.rows.len();
        let cols = self.rows[0].len();
        !e.rows[n - 1][cols - 1].is_zero()
    }

    /// The reduced row-echelon form: pivots normalized to one and cleared
    /// above and below.
    pub fn reduced_echelon(&self) -> (r: Self)
        requires
            self@.len() > 0,
            sp_cols(self@) > 0,
            sp_rect(self@),
        ensures
            r@ == sp_reduced_echelon(self@),
            r@.len() == self@.len(),
            sp_cols(r@) == sp_cols(self@),
            sp_rect(r@),
    {
        broadcast use lemma_rows_view;

        proof {
            lemma_echelon_shape(self@);
            lemma_reduced_echelon_shape(self@);
        }
        let rows = self.rows.len();
        let cols = self.rows[0].len();
        let (e, _swaps) = self.echelon();
        let mut out = e;
        let mut row: usize = 0;
        let mut pcol: usize = 0;
        while row < rows
            invariant
                row <= rows,
                pcol < cols,
                out@.len() == rows,
                sp_cols(out@) == cols,
                sp_rect(out@),
                sp_reduced_echelon(self@) == sp_rref_step(
                    out@,
                    row as int,
                    pcol as int,
                    rows as int,
                    cols as int,
                ),
            decreases rows - row,
        {
            let mut p = pcol;
            while p < cols && out.rows[row][p].is_zero()
                invariant
                    pcol <= p <= cols,
                    row < rows,
                    sp_rref_find(out@, row as int, pcol as int, cols as int) == sp_rref_find(
                        out@,
                        row as int,
                        p as int,
                        cols as int,
                    ),
                decreases cols - p,
            {
                p = p + 1;
            }
            if p >= cols {
                return out;
            }
            let ghost pre = out@;
            out = out.rref_scale_row(row, p);
            proof {
                lemma_rref_scale_shape(pre, row as int, p as int);
            }
            let ghost mid = out@;
            out = out.rref_eliminate_above(row, p);
            proof {
                lemma_rref_elim_shape(mid, row as int, p as int);
            }
            row = row + 1;
            pcol = p;
        }
        out
    }

    /// Rescales row `row` so its pivot at column `p` becomes the exact one.
    fn rref_scale_row(&self, row: usize, p: usize) -> (r: Self)
        requires
            sp_rect(self@),
            row < self@.len(),
            p < sp_cols(self@),
        ensures
            r@ == sp_rref_scale(self@, row as int, p as int),
    {
        broadcast use lemma_rows_view;

        let n = self.rows.len();
        let c = T::one().div(self.rows[row][p]);
        let mut out: Vec<Vec<T>> = Vec::new();
        let mut i: usize = 0;
        while i < n
            invariant
                i <= n,
                c == T::sp_one().sp_div(self@[row as int][p as int]),
                out@.len() == i,
                forall|q: int|
                    0 <= q < i ==> (#[trigger] out@[q])@ == sp_rref_scale(
                        self@,
                        row as int,
                        p as int,
                    )[q],
            decreases n - i,
        {
            if i == row {
                let cols = self.rows[i].len();
                let mut scaled: Vec<T> = Vec::new();
                let mut j: usize = 0;
                while j < cols
                    invariant
                        j <= cols,
                        i == row < n,
                        cols == self@[row as int].len(),
                        c == T::sp_one().sp_div(self@[row as int][p as int]),
                        scaled@.len() == j,
                        forall|q: int|
                            0 <= q < j ==> scaled@[q] == (if q == p {
                                T::sp_one()
                            } else {
                                self@[row as int][q].sp_mul(c)
                            }),
                    decreases cols - j,
                {
                    if j == p {
                        scaled.push(T::one());
                    } else {
                        let x = self.rows[i][j].mul(c);
                        scaled.push(x);
                    }
                    j = j + 1;
                }
                proof {
                    assert(scaled@ =~= sp_rref_scale(self@, row as int, p as int)[row as int]);
                }
                out.push(scaled);
            } else {
                let copied = Self::copy_row(&self.rows[i]);
                out.push(copied);
            }
            i = i + 1;
        }
        let r = Matrix { rows: out };
        proof {
            assert(r@ =~~= sp_rref_scale(self@, row as int, p as int));
        }
        r
    }

    /// Clears the pivot column `p` of row `row` in every row above it.
    fn rref_eliminate_above(&self, row: usize, p: usize) -> (r: Self)
        requires
            sp_rect(self@),
            row < self@.len(),
            p < sp_cols(self@),
        ensures
            r@ == sp_rref_elim_above(self@, row as int, p as int),
    {
        broadcast use lemma_rows_view;

        let n = self.rows.len();
        let cols = self.rows[0].len();
        let mut out: Vec<Vec<T>> = Vec::new();
        let mut i: usize = 0;
        while i < n
            invariant
                i <= n,
                out@.len() == i,
                forall|q: int|
                    0 <= q < i ==> (#[trigger] out@[q])@ == sp_rref_elim_above(
                        self@,
                        row as int,
                        p as int,
                    )[q],
            decreases n - i,
        {
            if i < row {
                let c = self.rows[i][p].neg();
                let mut cleared: Vec<T> = Vec::new();
                let mut j: usize = 0;
                while j < cols
                    invariant
                        j <= cols,
                        i < row < n,
                        cols == sp_cols(self@),
                        c == self@[i as int][p as int].sp_neg(),
                        cleared@.len() == j,
                        forall|q: int|
                            0 <= q < j ==> cleared@[q] == (if q == p {
                                T::sp_zero()
                            } else {
                                self@[i as int][q].sp_add(c.sp_mul(self@[row as int][q]))
                            }),
                    decreases cols - j,
                {
                    if j == p {
                        cleared.push(T::zero());
                    } else {
                        let x = self.rows[i][j].add(c.mul(self.rows[row][j]));
                        cleared.push(x);
                    }
                    j = j + 1;
                }
                proof {
                    assert(cleared@ =~= sp_rref_elim_above(self@, row as int, p as int)[i as int]);
                }
                out.push(cleared);
            } else {
                let copied = Self::copy_row(&self.rows[i]);
                out.push(copied);
            }
            i = i + 1;
        }
        let r = Matrix { rows: out };
        proof {
            assert(r@ =~~= sp_rref_elim_above(self@, row as int, p as int));
        }
        r
    }

    /// The inverse; a matrix that is not invertible is a domain error.
    pub fn inverse(&self) -> (r: Result<Self, String>)
        requires
            self@.len() > 0,
            sp_rect(self@),
        ensures
            (r is Ok) == sp_invertible(self@),
            r matches Ok(m) ==> m@ == sp_inverse(self@) && m@.len() == self@.len() && sp_cols(m@)
                == sp_cols(self@) && sp_rect(m@),
            r matches Err(m) ==> m@ == "Matrix is not invertible"@,
    {
        broadcast use lemma_rows_view;

        if !self.is_invertible() {
            return Err("Matrix is not invertible".to_owned());
        }
        let n = self.rows.len();
        let idm = Matrix::<T>::id(n);
        let augmented = match self.augment_cols(&idm) {
            Ok(a) => a,
            Err(_) => {
                proof {
                    assert(false);
                }
                return Err("Matrix is not invertible".to_owned());
            },
        };
        proof {
            assert(sp_rect(augmented@)) by {
                assert(forall|i: int|
                    0 <= i < augmented@.len() ==> (#[trigger] augmented@[i]).len() == sp_cols(
                        augmented@,
                    ));
            }
            assert(augmented@ =~~= sp_augmented_id(self@));
            lemma_reduced_echelon_shape(sp_augmented_id(self@));
        }
        let reduced = augmented.reduced_echelon();
        let cols = self.rows[0].len();
        let mut inverse_rows: Vec<Vec<T>> = Vec::new();
        let mut i: usize = 0;
        while i < n
            invariant
                i <= n,
                cols == sp_cols(self@),
                reduced@.len() == n,
                sp_cols(reduced@) == 2 * cols,
                sp_rect(reduced@),
                reduced@ == sp_reduced_echelon(sp_augmented_id(self@)),
                inverse_rows@.len() == i,
                forall|q: int|
                    0 <= q < i ==> (#[trigger] inverse_rows@[q])@ == sp_inverse(self@)[q],
            decreases n - i,
        {
            let rl = reduced.rows[i].len();
            let mut row: Vec<T> = Vec::new();
            let mut j: usize = cols;
            while j < rl
                invariant
                    cols <= j <= rl,
                    i < n,
                    rl == 2 * cols,
                    row@.len() == j - cols,
                    forall|q: int|
                        0 <= q < j - cols ==> row@[q] == reduced@[i as int][q + cols],
                decreases rl - j,
            {
                let x = reduced.rows[i][j];
                row.push(x);
                j = j + 1;
            }
            proof {
                assert(row@ =~= sp_inverse(self@)[i as int]);
            }
            out_push_row(&mut inverse_rows, row);
            i = i + 1;
        }
        let m = Matrix { rows: inverse_rows };
        proof {
            assert(m@ =~~= sp_inverse(self@));
            assert(forall|i: int|
                0 <= i < m@.len() ==> (#[trigger] m@[i]).len() == sp_cols(self@));
        }
        Ok(m)
    }

    /// The integer power by repeated squaring; a non-square matrix is a
    /// domain error, and a negative exponent needs an invertible matrix.
    pub fn powi(&self, power: i64) -> (r: Result<Self, String>)
        requires
            self@.len() > 0,
            sp_rect(self@),
            -0x4000_0000_0000_0000 < power < 0x4000_0000_0000_0000,
        ensures
            (r is Ok) == (self@.len() == sp_cols(self@) && (power >= 0 || sp_invertible(self@))),
            r matches Ok(m) ==> m@ == sp_powi(self@, power),
            self@.len() != sp_cols(self@) ==> (r matches Err(m) && m@
                == "Cannot take powers of non-square matrix"@),
            self@.len() == sp_cols(self@) && power < 0 && !sp_invertible(self@) ==> (r matches Err(
                m,
            ) && m@ == "Matrix is not invertible"@),
    {
        broadcast use lemma_rows_view;

        if !self.is_square() {
            return Err("Cannot take powers of non-square matrix".to_owned());
        }
        let n = self.rows.len();
        let mut mult = if power >= 0 {
            self.copy()
        } else {
            match self.inverse() {
                Ok(m) => m,
                Err(e) => {
                    return Err(e);
                },
            }
        };
        let mut res = Matrix::<T>::id(n);
        let abs_power: i64 = if power >= 0 {
            power
        } else {
            -power
        };
        let mut pow2: i64 = 1;
        let mut done = false;
        while !done
            invariant
                1 <= pow2,
                !done ==> (pow2 == 1 || 2 * pow2 <= 2 * abs_power),
                res@.len() == n,
                sp_cols(res@) == n,
                sp_rect(res@),
                mult@.len() == n,
                sp_cols(mult@) == n,
                sp_rect(mult@),
                n == self@.len(),
                !done ==> sp_powi(self@, power) == sp_powi_loop(res@, mult@, abs_power, pow2),
                done ==> res@ == sp_powi(self@, power),
            decreases
                    (if done {
                        0int
                    } else {
                        2 * abs_power + 2 - pow2
                    }),
        {
            if abs_power & pow2 != 0 {
                let m2 = mult.copy();
                res = res.mul(m2);
            }
            if pow2 > abs_power {
                done = true;
            } else {
                pow2 = pow2 * 2;
                if pow2 > abs_power {
                    done = true;
                } else {
                    let m2 = mult.copy();
                    mult = mult.mul(m2);
                }
            }
        }
        Ok(res)
    }

    /// The truncated matrix exponential: twenty Taylor terms, never more; a
    /// non-square matrix is a domain error.
    pub fn exp(&self) -> (r: Result<Self, String>)
        requires
            self@.len() > 0,
            sp_rect(self@),
        ensures
            (r is Ok) == (self@.len() == sp_cols(self@)),
            r matches Ok(m) ==> m@ == sp_exp(self@),
            r matches Err(m) ==> m@ == "Cannot exponentiate non-square matrix"@,
    {
        broadcast use lemma_rows_view;

        if !self.is_square() {
            return Err("Cannot exponentiate non-square matrix".to_owned());
        }
        let n = self.rows.len();
        let mut res = Matrix::<T>::id(n);
        let mut mult = self.copy();
        let mut k: i64 = 1;
        while k < 21
            invariant
                1 <= k <= 21,
                res@.len() == n,
                sp_cols(res@) == n,
                sp_rect(res@),
                mult@.len() == n,
                sp_cols(mult@) == n,
                sp_rect(mult@),
                n == self@.len(),
                sp_exp(self@) == sp_exp_loop(self@, res@, mult@, k as int),
            decreases 21 - k,
        {
            let f = factorial(k);
            let c = T::one().div(T::from_int(f));
            let term = mult.scale(c);
            proof {
                assert(term@ =~~= sp_scale_seq(mult@, c));
            }
            let ghost old_res = res@;
            res = res.add(term);
            proof {
                assert(res@ =~~= sp_ew_add(old_res, sp_scale_seq(mult@, c)));
            }
            let s2 = self.copy();
            mult = mult.mul(s2);
            k = k + 1;
        }
        Ok(res)
    }
}

/// Pushes a built row; a helper the inverse extraction uses.
fn out_push_row<T: Scalar>(rows: &mut Vec<Vec<T>>, row: Vec<T>)
    ensures
        final(rows)@ == old(rows)@.push(row),
{
    rows.push(row);
}

} // verus!
