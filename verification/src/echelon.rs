//! Echelon reduction and what is derived from it. The generic variant takes
//! the first nonzero entry below the pivot, swaps it into place and
//! eliminates below; it performs no numerical stabilization and is meant for
//! exact scalar types. A partial-pivoting variant for magnitude-ordered
//! scalars stands beside it. Each algorithm's result is pinned exactly by a
//! specification-level mirror.

use vstd::prelude::*;

use crate::matrix::Matrix;
use crate::model::lemma_rows_view;
use crate::model::sp_cols;
use crate::model::sp_rect;
use crate::model::sp_wf_mat;
use crate::scalar::MagScalar;
use crate::scalar::Scalar;

verus! {

/// The table with rows `a` and `b` exchanged.
pub open spec fn sp_swap<T>(m: Seq<Seq<T>>, a: int, b: int) -> Seq<Seq<T>> {
    m.update(a, m[b]).update(b, m[a])
}

/// The first row at or after `i` whose entry in column `pcol` is not a zero.
pub open spec fn sp_scan<T: Scalar>(m: Seq<Seq<T>>, i: int, pcol: int) -> Option<int>
    decreases m.len() - i,
{
    if i < 0 || i >= m.len() {
        None
    } else if !m[i][pcol].sp_is_zero() {
        Some(i)
    } else {
        sp_scan(m, i + 1, pcol)
    }
}

/// Elimination below the pivot at `(prow, pcol)`: each lower row gains
/// `-(entry / pivot)` times the pivot row, and its entry in the pivot column
/// is set to the exact zero.
pub open spec fn sp_eliminate<T: Scalar>(m: Seq<Seq<T>>, prow: int, pcol: int) -> Seq<Seq<T>> {
    Seq::new(
        m.len(),
        |i: int|
            if i <= prow {
                m[i]
            } else {
                Seq::new(
                    m[i].len(),
                    |j: int|
                        if j == pcol {
                            T::sp_zero()
                        } else {
                            m[i][j].sp_add(
                                m[i][pcol].sp_neg().sp_div(m[prow][pcol]).sp_mul(m[prow][j]),
                            )
                        },
                )
            },
    )
}

/// One pass of the generic echelon reduction from column `pcol` on, carrying
/// the current pivot row and swap count. A zero pivot is repaired with the
/// first nonzero entry below it; a fully zero remainder of the column is
/// skipped without advancing the pivot row; the pass stops once the pivot
/// row is the last one.
pub open spec fn sp_ech_step<T: Scalar>(
    m: Seq<Seq<T>>,
    prow: int,
    swaps: nat,
    pcol: int,
    cols: int,
) -> (Seq<Seq<T>>, nat)
    decreases cols - pcol,
{
    if pcol < 0 || pcol >= cols || prow < 0 || prow >= m.len() {
        (m, swaps)
    } else {
        let zero_piv = m[prow][pcol].sp_is_zero();
        if zero_piv && sp_scan(m, prow + 1, pcol) is None {
            sp_ech_step(m, prow, swaps, pcol + 1, cols)
        } else {
            let m1 = if zero_piv {
                sp_swap(m, prow, sp_scan(m, prow + 1, pcol)->Some_0)
            } else {
                m
            };
            let s1 = if zero_piv {
                swaps + 1
            } else {
                swaps
            };
            if prow == m.len() - 1 {
                (m1, s1)
            } else {
                let m2 = sp_eliminate(m1, prow, pcol);
                if prow + 1 == m.len() - 1 {
                    (m2, s1)
                } else {
                    sp_ech_step(m2, prow + 1, s1, pcol + 1, cols)
                }
            }
        }
    }
}

/// The generic echelon reduction: the reduced table and its swap count.
pub open spec fn sp_echelon_seq<T: Scalar>(m: Seq<Seq<T>>) -> (Seq<Seq<T>>, nat) {
    sp_ech_step(m, 0, 0, 0, sp_cols(m) as int)
}

/// Swapping two rows keeps the shape.
proof fn lemma_swap_shape<T: Scalar>(m: Seq<Seq<T>>, a: int, b: int)
    requires
        sp_rect(m),
        0 <= a < m.len(),
        0 <= b < m.len(),
    ensures
        sp_swap(m, a, b).len() == m.len(),
        sp_cols(sp_swap(m, a, b)) == sp_cols(m),
        sp_rect(sp_swap(m, a, b)),
{
    let r = sp_swap(m, a, b);
    assert(forall|i: int| 0 <= i < r.len() ==> (#[trigger] r[i]).len() == sp_cols(m));
    assert(r[0].len() == sp_cols(m));
}

/// Elimination keeps the shape.
proof fn lemma_eliminate_shape<T: Scalar>(m: Seq<Seq<T>>, prow: int, pcol: int)
    requires
        sp_rect(m),
        0 <= prow < m.len(),
    ensures
        sp_eliminate(m, prow, pcol).len() == m.len(),
        sp_cols(sp_eliminate(m, prow, pcol)) == sp_cols(m),
        sp_rect(sp_eliminate(m, prow, pcol)),
{
    let r = sp_eliminate(m, prow, pcol);
    assert(r[0] == m[0]);
    assert(forall|i: int| 0 <= i < r.len() ==> (#[trigger] r[i]).len() == sp_cols(m));
}

/// The echelon pass keeps the shape.
proof fn lemma_ech_step_shape<T: Scalar>(
    m: Seq<Seq<T>>,
    prow: int,
    swaps: nat,
    pcol: int,
    cols: int,
)
    requires
        sp_rect(m),
        sp_cols(m) == cols,
        0 <= prow < m.len(),
    ensures
        sp_ech_step(m, prow, swaps, pcol, cols).0.len() == m.len(),
        sp_cols(sp_ech_step(m, prow, swaps, pcol, cols).0) == cols,
        sp_rect(sp_ech_step(m, prow, swaps, pcol, cols).0),
    decreases cols - pcol,
{
    if pcol < 0 || pcol >= cols || prow >= m.len() {
    } else {
        let zero_piv = m[prow][pcol].sp_is_zero();
        if zero_piv && sp_scan(m, prow + 1, pcol) is None {
            lemma_ech_step_shape(m, prow, swaps, pcol + 1, cols);
        } else {
            let m1 = if zero_piv {
                sp_swap(m, prow, sp_scan(m, prow + 1, pcol)->Some_0)
            } else {
                m
            };
            let s1 = if zero_piv {
                swaps + 1
            } else {
                swaps
            };
            if zero_piv {
                lemma_scan_in_range(m, prow + 1, pcol);
                lemma_swap_shape(m, prow, sp_scan(m, prow + 1, pcol)->Some_0);
            }
            if prow == m.len() - 1 {
            } else {
                let m2 = sp_eliminate(m1, prow, pcol);
                lemma_eliminate_shape(m1, prow, pcol);
                if prow + 1 == m.len() - 1 {
                } else {
                    lemma_ech_step_shape(m2, prow + 1, s1, pcol + 1, cols);
                }
            }
        }
    }
}

/// A found scan index lies within the table, after the start.
proof fn lemma_scan_in_range<T: Scalar>(m: Seq<Seq<T>>, i: int, pcol: int)
    requires
        sp_scan(m, i, pcol) is Some,
    ensures
        i <= sp_scan(m, i, pcol)->Some_0 < m.len(),
        !m[sp_scan(m, i, pcol)->Some_0][pcol].sp_is_zero(),
    decreases m.len() - i,
{
    if i < 0 || i >= m.len() {
    } else if !m[i][pcol].sp_is_zero() {
    } else {
        lemma_scan_in_range(m, i + 1, pcol);
    }
}

/// The echelon pass keeps the shape: the public corollary.
pub proof fn lemma_echelon_shape<T: Scalar>(m: Seq<Seq<T>>)
    requires
        sp_rect(m),
        m.len() > 0,
    ensures
        sp_echelon_seq(m).0.len() == m.len(),
        sp_cols(sp_echelon_seq(m).0) == sp_cols(m),
        sp_rect(sp_echelon_seq(m).0),
{
    lemma_ech_step_shape(m, 0, 0, 0, sp_cols(m) as int);
}


/// The row of largest magnitude: walking from row `i` with current champion
/// `cur`, a nonzero entry of strictly larger absolute value takes over.
pub open spec fn sp_maxscan<T: MagScalar>(m: Seq<Seq<T>>, i: int, cur: int, pcol: int) -> int
    decreases m.len() - i,
{
    if i < 0 || i >= m.len() {
        cur
    } else {
        let cur2 = if !m[i][pcol].sp_is_zero() && m[i][pcol].sp_abs_gt(m[cur][pcol]) {
            i
        } else {
            cur
        };
        sp_maxscan(m, i + 1, cur2, pcol)
    }
}

/// Elimination below the pivot at `(prow, pcol)` in the pivoted variant:
/// each lower row gains `-(entry / pivot)` times the pivot row — negated
/// after the division — and its pivot-column entry is set to the exact zero.
pub open spec fn sp_eliminate_pivot<T: Scalar>(m: Seq<Seq<T>>, prow: int, pcol: int) -> Seq<
    Seq<T>,
> {
    Seq::new(
        m.len(),
        |i: int|
            if i <= prow {
                m[i]
            } else {
                Seq::new(
                    m[i].len(),
                    |j: int|
                        if j == pcol {
                            T::sp_zero()
                        } else {
                            m[i][j].sp_add(
                                m[i][pcol].sp_div(m[prow][pcol]).sp_neg().sp_mul(m[prow][j]),
                            )
                        },
                )
            },
    )
}

/// One pass of the partial-pivoting echelon reduction from `(prow, pcol)`
/// on. A column whose remainder is all zero is skipped without advancing the
/// pivot row; otherwise the remaining entry of largest absolute value is
/// swapped into the pivot row before eliminating below it, and both indices
/// advance together.
pub open spec fn sp_pech_step<T: MagScalar>(
    m: Seq<Seq<T>>,
    prow: int,
    swaps: nat,
    pcol: int,
    cols: int,
) -> (Seq<Seq<T>>, nat)
    decreases cols - pcol,
{
    if pcol < 0 || pcol >= cols || prow < 0 || prow >= m.len() {
        (m, swaps)
    } else if sp_scan(m, prow, pcol) is None {
        sp_pech_step(m, prow, swaps, pcol + 1, cols)
    } else {
        let maxl = sp_maxscan(m, prow, prow, pcol);
        let m1 = if prow != maxl {
            sp_swap(m, prow, maxl)
        } else {
            m
        };
        let s1: nat = if prow != maxl {
            swaps + 1
        } else {
            swaps
        };
        let m2 = sp_eliminate_pivot(m1, prow, pcol);
        sp_pech_step(m2, prow + 1, s1, pcol + 1, cols)
    }
}

/// The partial-pivoting echelon reduction: the reduced table and its swap
/// count.
pub open spec fn sp_echelon_pivoted<T: MagScalar>(m: Seq<Seq<T>>) -> (Seq<Seq<T>>, nat) {
    sp_pech_step(m, 0, 0, 0, sp_cols(m) as int)
}

/// The champion of the magnitude scan stays within the scanned range.
proof fn lemma_maxscan_in_range<T: MagScalar>(m: Seq<Seq<T>>, i: int, cur: int, pcol: int)
    requires
        0 <= cur < m.len(),
    ensures
        0 <= sp_maxscan(m, i, cur, pcol) < m.len(),
    decreases m.len() - i,
{
    if i < 0 || i >= m.len() {
    } else {
        let cur2 = if !m[i][pcol].sp_is_zero() && m[i][pcol].sp_abs_gt(m[cur][pcol]) {
            i
        } else {
            cur
        };
        lemma_maxscan_in_range(m, i + 1, cur2, pcol);
    }
}

/// Pivoted elimination keeps the shape.
proof fn lemma_eliminate_pivot_shape<T: Scalar>(m: Seq<Seq<T>>, prow: int, pcol: int)
    requires
        sp_rect(m),
        0 <= prow < m.len(),
    ensures
        sp_eliminate_pivot(m, prow, pcol).len() == m.len(),
        sp_cols(sp_eliminate_pivot(m, prow, pcol)) == sp_cols(m),
        sp_rect(sp_eliminate_pivot(m, prow, pcol)),
{
    let r = sp_eliminate_pivot(m, prow, pcol);
    assert(r[0] == m[0]);
    assert(forall|i: int| 0 <= i < r.len() ==> (#[trigger] r[i]).len() == sp_cols(m));
}


/// Exchanging rows keeps every entry well-formed.
proof fn lemma_wf_swap<T: Scalar>(m: Seq<Seq<T>>, a: int, b: int)
    requires
        sp_wf_mat(m),
        0 <= a < m.len(),
        0 <= b < m.len(),
    ensures
        sp_wf_mat(sp_swap(m, a, b)),
{
    let r = sp_swap(m, a, b);
    assert forall|i: int, j: int| 0 <= i < r.len() && 0 <= j < r[i].len() implies (#[trigger] r[i][j]).sp_wf() by {
        if i == a {
            assert(r[i] == m[b]);
        } else if i == b {
            assert(r[i] == m[a]);
        } else {
            assert(r[i] == m[i]);
        }
    }
}

/// Elimination keeps every entry well-formed.
proof fn lemma_wf_eliminate<T: Scalar>(m: Seq<Seq<T>>, prow: int, pcol: int)
    requires
        sp_wf_mat(m),
        sp_rect(m),
        0 <= prow < m.len(),
        0 <= pcol < sp_cols(m),
    ensures
        sp_wf_mat(sp_eliminate(m, prow, pcol)),
{
    let r = sp_eliminate(m, prow, pcol);
    T::law_consts_wf(0);
    assert forall|i: int, j: int| 0 <= i < r.len() && 0 <= j < r[i].len() implies (#[trigger] r[i][j]).sp_wf() by {
        if i <= prow {
            assert(r[i] == m[i]);
        } else {
            assert(r[i].len() == m[i].len());
            if j != pcol {
                T::law_wf(m[i][pcol], m[i][pcol]);
                T::law_wf(m[i][pcol].sp_neg(), m[prow][pcol]);
                T::law_wf(m[i][pcol].sp_neg().sp_div(m[prow][pcol]), m[prow][j]);
                T::law_wf(m[i][j], m[i][pcol].sp_neg().sp_div(m[prow][pcol]).sp_mul(m[prow][j]));
            }
        }
    }
}

/// Pivoted elimination keeps every entry well-formed.
proof fn lemma_wf_eliminate_pivot<T: Scalar>(m: Seq<Seq<T>>, prow: int, pcol: int)
    requires
        sp_wf_mat(m),
        sp_rect(m),
        0 <= prow < m.len(),
        0 <= pcol < sp_cols(m),
    ensures
        sp_wf_mat(sp_eliminate_pivot(m, prow, pcol)),
{
    let r = sp_eliminate_pivot(m, prow, pcol);
    T::law_consts_wf(0);
    assert forall|i: int, j: int| 0 <= i < r.len() && 0 <= j < r[i].len() implies (#[trigger] r[i][j]).sp_wf() by {
        if i <= prow {
            assert(r[i] == m[i]);
        } else {
            assert(r[i].len() == m[i].len());
            if j != pcol {
                T::law_wf(m[i][pcol], m[prow][pcol]);
                T::law_wf(m[i][pcol].sp_div(m[prow][pcol]), m[i][pcol].sp_div(m[prow][pcol]));
                T::law_wf(m[i][pcol].sp_div(m[prow][pcol]).sp_neg(), m[prow][j]);
                T::law_wf(m[i][j], m[i][pcol].sp_div(m[prow][pcol]).sp_neg().sp_mul(m[prow][j]));
            }
        }
    }
}

/// The generic echelon pass keeps every entry well-formed.
proof fn lemma_wf_ech_step<T: Scalar>(m: Seq<Seq<T>>, prow: int, swaps: nat, pcol: int, cols: int)
    requires
        sp_wf_mat(m),
        sp_rect(m),
        sp_cols(m) == cols,
        0 <= prow < m.len(),
    ensures
        sp_wf_mat(sp_ech_step(m, prow, swaps, pcol, cols).0),
    decreases cols - pcol,
{
    if pcol < 0 || pcol >= cols || prow >= m.len() {
    } else {
        let zero_piv = m[prow][pcol].sp_is_zero();
        if zero_piv && sp_scan(m, prow + 1, pcol) is None {
            lemma_wf_ech_step(m, prow, swaps, pcol + 1, cols);
        } else {
            let m1 = if zero_piv {
                sp_swap(m, prow, sp_scan(m, prow + 1, pcol)->Some_0)
            } else {
                m
            };
            let s1 = if zero_piv {
                swaps + 1
            } else {
                swaps
            };
            if zero_piv {
                lemma_scan_in_range(m, prow + 1, pcol);
                lemma_swap_shape(m, prow, sp_scan(m, prow + 1, pcol)->Some_0);
                lemma_wf_swap(m, prow, sp_scan(m, prow + 1, pcol)->Some_0);
            }
            if prow == m.len() - 1 {
            } else {
                let m2 = sp_eliminate(m1, prow, pcol);
                lemma_eliminate_shape(m1, prow, pcol);
                lemma_wf_eliminate(m1, prow, pcol);
                if prow + 1 == m.len() - 1 {
                } else {
                    lemma_wf_ech_step(m2, prow + 1, s1, pcol + 1, cols);
                }
            }
        }
    }
}

/// Echelon reduction keeps every entry well-formed: the public corollary.
pub proof fn lemma_wf_echelon<T: Scalar>(m: Seq<Seq<T>>)
    requires
        sp_wf_mat(m),
        sp_rect(m),
        m.len() > 0,
    ensures
        sp_wf_mat(sp_echelon_seq(m).0),
{
    lemma_wf_ech_step(m, 0, 0, 0, sp_cols(m) as int);
}

/// A type reducible to row-echelon form.
pub trait Echelon: View + Sized {
    /// What the reduction requires of the value.
    spec fn echelon_wf(self) -> bool;

    /// The echelon form and the number of row swaps performed.
    spec fn sp_echelon(self) -> (Self::V, nat);

    /// Reduces to row-echelon form, returning the swap count along with the
    /// reduced value.
    fn echelon(&self) -> (r: (Self, usize))
        requires
            self.echelon_wf(),
        ensures
            r.0@ == self.sp_echelon().0,
            r.1 as nat == self.sp_echelon().1,
    ;
}

impl<T: Scalar> Matrix<T> {
    /// A copy of the matrix.
    pub(crate) fn copy(&self) -> (r: Self)
        ensures
            r@ == self@,
    {
        broadcast use lemma_rows_view;

        let n = self.rows.len();
        let mut out: Vec<Vec<T>> = Vec::new();
        let mut i: usize = 0;
        while i < n
            invariant
                i <= n,
                out@.len() == i,
                forall|p: int| 0 <= p < i ==> (#[trigger] out@[p])@ == self@[p],
            decreases n - i,
        {
            let mut row: Vec<T> = Vec::new();
            let cols = self.rows[i].len();
            let mut j: usize = 0;
            while j < cols
                invariant
                    j <= cols,
                    i < n,
                    cols == self@[i as int].len(),
                    row@.len() == j,
                    forall|q: int| 0 <= q < j ==> row@[q] == self@[i as int][q],
                decreases cols - j,
            {
                let x = self.rows[i][j];
                row.push(x);
                j = j + 1;
            }
            proof {
                assert(row@ =~= self@[i as int]);
            }
            out.push(row);
            i = i + 1;
        }
        let r = Matrix { rows: out };
        proof {
            assert(r@ =~~= self@);
        }
        r
    }

    /// The matrix with rows `a` and `b` exchanged; both must exist.
    fn swap_rows(&self, a: usize, b: usize) -> (r: Self)
        requires
            a < self@.len(),
            b < self@.len(),
        ensures
            r@ == sp_swap(self@, a as int, b as int),
    {
        broadcast use lemma_rows_view;

        let n = self.rows.len();
        let mut out: Vec<Vec<T>> = Vec::new();
        let mut i: usize = 0;
        while i < n
            invariant
                i <= n,
                a < n,
                b < n,
                out@.len() == i,
                forall|p: int|
                    0 <= p < i ==> (#[trigger] out@[p])@ == sp_swap(self@, a as int, b as int)[p],
            decreases n - i,
        {
            let src: usize = if i == a {
                b
            } else if i == b {
                a
            } else {
                i
            };
            let row = Self::copy_row(&self.rows[src]);
            out.push(row);
            i = i + 1;
        }
        let r = Matrix { rows: out };
        proof {
            assert(r@ =~~= sp_swap(self@, a as int, b as int));
        }
        r
    }

    /// The first row at or after `start` with a nonzero entry in column
    /// `pcol`.
    fn find_pivot_below(&self, start: usize, pcol: usize) -> (r: Option<usize>)
        requires
            sp_rect(self@),
            pcol < sp_cols(self@),
        ensures
            match r {
                Some(i) => sp_scan(self@, start as int, pcol as int) == Some(i as int),
                None => sp_scan(self@, start as int, pcol as int) is None,
            },
    {
        broadcast use lemma_rows_view;

        let n = self.rows.len();
        let mut i: usize = start;
        while i < n
            invariant
                start <= i,
                sp_scan(self@, start as int, pcol as int) == sp_scan(self@, i as int, pcol as int),
            decreases n - i,
        {
            if !self.rows[i][pcol].is_zero() {
                return Some(i);
            }
            i = i + 1;
        }
        None
    }

    /// Eliminates every entry strictly below the pivot at `(prow, pcol)`.
    fn eliminate_below(&self, prow: usize, pcol: usize) -> (r: Self)
        requires
            sp_rect(self@),
            prow < self@.len(),
            pcol < sp_cols(self@),
        ensures
            r@ == sp_eliminate(self@, prow as int, pcol as int),
    {
        broadcast use lemma_rows_view;

        let n = self.rows.len();
        let cols = self.rows[0].len();
        let mut out: Vec<Vec<T>> = Vec::new();
        let mut i: usize = 0;
        while i < n
            invariant
                i <= n,
                out@.len() == i,
                forall|p: int|
                    0 <= p < i ==> (#[trigger] out@[p])@ == sp_eliminate(
                        self@,
                        prow as int,
                        pcol as int,
                    )[p],
            decreases n - i,
        {
            if i <= prow {
                let row = Self::copy_row(&self.rows[i]);
                out.push(row);
            } else {
                let c = self.rows[i][pcol].neg().div(self.rows[prow][pcol]);
                let mut row: Vec<T> = Vec::new();
                let mut j: usize = 0;
                while j < cols
                    invariant
                        j <= cols,
                        prow < i < n,
                        cols == sp_cols(self@),
                        c == self@[i as int][pcol as int].sp_neg().sp_div(
                            self@[prow as int][pcol as int],
                        ),
                        row@.len() == j,
                        forall|q: int|
                            0 <= q < j ==> row@[q] == (if q == pcol {
                                T::sp_zero()
                            } else {
                                self@[i as int][q].sp_add(c.sp_mul(self@[prow as int][q]))
                            }),
                    decreases cols - j,
                {
                    if j == pcol {
                        row.push(T::zero());
                    } else {
                        let x = self.rows[i][j].add(c.mul(self.rows[prow][j]));
                        row.push(x);
                    }
                    j = j + 1;
                }
                proof {
                    assert(row@ =~= sp_eliminate(self@, prow as int, pcol as int)[i as int]);
                }
                out.push(row);
            }
            i = i + 1;
        }
        let r = Matrix { rows: out };
        proof {
            assert(r@ =~~= sp_eliminate(self@, prow as int, pcol as int));
        }
        r
    }
}

impl<T: Scalar> Echelon for Matrix<T> {
    open spec fn echelon_wf(self) -> bool {
        self@.len() > 0 && sp_rect(self@)
    }

    open spec fn sp_echelon(self) -> (Seq<Seq<T>>, nat) {
        sp_echelon_seq(self@)
    }

    fn echelon(&self) -> (r: (Self, usize)) {
        broadcast use lemma_rows_view;

        let rows = self.rows.len();
        let cols = self.rows[0].len();
        let mut out = self.copy();
        let mut prow: usize = 0;
        let mut swaps: usize = 0;
        let mut pcol: usize = 0;
        let mut done = false;
        while pcol < cols && !done
            invariant
                prow < rows,
                pcol <= cols,
                !done ==> swaps <= pcol,
                out@.len() == rows,
                sp_cols(out@) == cols,
                sp_rect(out@),
                !done ==> sp_echelon_seq(self@) == sp_ech_step(
                    out@,
                    prow as int,
                    swaps as nat,
                    pcol as int,
                    cols as int,
                ),
                done ==> (out@, swaps as nat) == sp_echelon_seq(self@),
            decreases
                    cols - pcol,
                    (if done {
                        0int
                    } else {
                        1int
                    }),
        {
            let ghost pre = out@;
            let mut do_eliminate = true;
            if out.rows[prow][pcol].is_zero() {
                match out.find_pivot_below(prow + 1, pcol) {
                    Some(i) => {
                        proof {
                            lemma_scan_in_range(out@, prow + 1 as int, pcol as int);
                        }
                        out = out.swap_rows(prow, i);
                        swaps = swaps + 1;
                        proof {
                            lemma_swap_shape(pre, prow as int, i as int);
                        }
                    },
                    None => {
                        do_eliminate = false;
                    },
                }
            }
            if do_eliminate {
                if prow == rows - 1 {
                    done = true;
                } else {
                    let ghost mid = out@;
                    out = out.eliminate_below(prow, pcol);
                    proof {
                        lemma_eliminate_shape(mid, prow as int, pcol as int);
                    }
                    prow = prow + 1;
                    if prow == rows - 1 {
                        done = true;
                    } else {
                        pcol = pcol + 1;
                    }
                }
            } else {
                pcol = pcol + 1;
            }
        }
        (out, swaps)
    }
}


impl<T: MagScalar> Matrix<T> {
    /// The row at or after `prow` whose entry in column `pcol` has the
    /// largest absolute value, and whether any such entry is nonzero.
    fn find_max_pivot(&self, prow: usize, pcol: usize) -> (r: (usize, bool))
        requires
            sp_rect(self@),
            prow < self@.len(),
            pcol < sp_cols(self@),
        ensures
            r.0 == sp_maxscan(self@, prow as int, prow as int, pcol as int),
            prow <= r.0 < self@.len(),
            r.1 == (sp_scan(self@, prow as int, pcol as int) is Some),
    {
        broadcast use lemma_rows_view;

        let n = self.rows.len();
        let mut maxl: usize = prow;
        let mut any = false;
        let mut i: usize = prow;
        while i < n
            invariant
                prow <= i,
                prow <= maxl < n,
                sp_maxscan(self@, prow as int, prow as int, pcol as int) == sp_maxscan(
                    self@,
                    i as int,
                    maxl as int,
                    pcol as int,
                ),
                (sp_scan(self@, prow as int, pcol as int) is Some) == (any || sp_scan(
                    self@,
                    i as int,
                    pcol as int,
                ) is Some),
            decreases n - i,
        {
            if !self.rows[i][pcol].is_zero() {
                any = true;
                if self.rows[i][pcol].abs_gt(&self.rows[maxl][pcol]) {
                    maxl = i;
                }
            }
            i = i + 1;
        }
        (maxl, any)
    }

    /// Eliminates below the pivot at `(prow, pcol)`, negating the multiplier
    /// after the division as the pivoted variant does.
    fn eliminate_pivot_below(&self, prow: usize, pcol: usize) -> (r: Self)
        requires
            sp_rect(self@),
            prow < self@.len(),
            pcol < sp_cols(self@),
        ensures
            r@ == sp_eliminate_pivot(self@, prow as int, pcol as int),
    {
        broadcast use lemma_rows_view;

        let n = self.rows.len();
        let cols = self.rows[0].len();
        let mut out: Vec<Vec<T>> = Vec::new();
        let mut i: usize = 0;
        while i < n
            invariant
                i <= n,
                out@.len() == i,
                forall|p: int|
                    0 <= p < i ==> (#[trigger] out@[p])@ == sp_eliminate_pivot(
                        self@,
                        prow as int,
                        pcol as int,
                    )[p],
            decreases n - i,
        {
            if i <= prow {
                let row = Self::copy_row(&self.rows[i]);
                out.push(row);
            } else {
                let c = self.rows[i][pcol].div(self.rows[prow][pcol]).neg();
                let mut row: Vec<T> = Vec::new();
                let mut j: usize = 0;
                while j < cols
                    invariant
                        j <= cols,
                        prow < i < n,
                        cols == sp_cols(self@),
                        c == self@[i as int][pcol as int].sp_div(
                            self@[prow as int][pcol as int],
                        ).sp_neg(),
                        row@.len() == j,
                        forall|q: int|
                            0 <= q < j ==> row@[q] == (if q == pcol {
                                T::sp_zero()
                            } else {
                                self@[i as int][q].sp_add(c.sp_mul(self@[prow as int][q]))
                            }),
                    decreases cols - j,
                {
                    if j == pcol {
                        row.push(T::zero());
                    } else {
                        let x = self.rows[i][j].add(c.mul(self.rows[prow][j]));
                        row.push(x);
                    }
                    j = j + 1;
                }
                proof {
                    assert(row@ =~= sp_eliminate_pivot(self@, prow as int, pcol as int)[i as int]);
                }
                out.push(row);
            }
            i = i + 1;
        }
        let r = Matrix { rows: out };
        proof {
            assert(r@ =~~= sp_eliminate_pivot(self@, prow as int, pcol as int));
        }
        r
    }

    /// The numerically stable echelon reduction: partial pivoting picks the
    /// remaining entry of largest absolute value as each pivot. Call sites
    /// choose this variant deliberately for magnitude-ordered scalars such as
    /// floating point.
    pub fn echelon_pivoted(&self) -> (r: (Self, usize))
        requires
            self@.len() > 0,
            sp_rect(self@),
        ensures
            r.0@ == sp_echelon_pivoted(self@).0,
            r.1 as nat == sp_echelon_pivoted(self@).1,
            r.0@.len() == self@.len(),
            sp_cols(r.0@) == sp_cols(self@),
            sp_rect(r.0@),
    {
        broadcast use lemma_rows_view;

        let rows = self.rows.len();
        let cols = self.rows[0].len();
        let mut out = self.copy();
        let mut prow: usize = 0;
        let mut swaps: usize = 0;
        let mut pcol: usize = 0;
        while prow < rows && pcol < cols
            invariant
                prow <= rows,
                pcol <= cols,
                swaps <= pcol,
                out@.len() == rows,
                sp_cols(out@) == cols,
                sp_rect(out@),
                sp_echelon_pivoted(self@) == sp_pech_step(
                    out@,
                    prow as int,
                    swaps as nat,
                    pcol as int,
                    cols as int,
                ),
            decreases cols - pcol,
        {
            let ghost pre = out@;
            let (maxl, any) = out.find_max_pivot(prow, pcol);
            if !any {
                pcol = pcol + 1;
            } else {
                if prow != maxl {
                    out = out.swap_rows(prow, maxl);
                    swaps = swaps + 1;
                    proof {
                        lemma_swap_shape(pre, prow as int, maxl as int);
                    }
                }
                let ghost mid = out@;
                out = out.eliminate_pivot_below(prow, pcol);
                proof {
                    lemma_eliminate_pivot_shape(mid, prow as int, pcol as int);
                }
                prow = prow + 1;
                pcol = pcol + 1;
            }
        }
        (out, swaps)
    }
}


/// A column holding the exact zero in every row at or below the pivot row
/// keeps those zeros through the rest of the pivoted pass, and rows above
/// the pivot row are never touched again: swaps permute the zeroed rows,
/// later eliminations add multiples of entries that are themselves those
/// zeros, and the pivot row only advances.
proof fn lemma_pech_step_keeps_zero_column<T: MagScalar>(
    m: Seq<Seq<T>>,
    prow: int,
    swaps: nat,
    pcol: int,
    cols: int,
    c0: int,
)
    requires
        sp_rect(m),
        sp_cols(m) == cols,
        sp_wf_mat(m),
        0 <= prow,
        0 <= c0 < pcol,
        forall|r: int| prow <= r < m.len() ==> m[r][c0] == T::sp_zero(),
    ensures
        forall|r: int|
            0 <= r < prow && r < m.len() ==> sp_pech_step(m, prow, swaps, pcol, cols).0[r] == m[r],
        forall|r: int|
            prow <= r < m.len() ==> sp_pech_step(m, prow, swaps, pcol, cols).0[r][c0]
                == T::sp_zero(),
    decreases cols - pcol,
{
    if pcol < 0 || pcol >= cols || prow >= m.len() {
    } else if sp_scan(m, prow, pcol) is None {
        lemma_pech_step_keeps_zero_column(m, prow, swaps, pcol + 1, cols, c0);
    } else {
        let maxl = sp_maxscan(m, prow, prow, pcol);
        lemma_maxscan_in_range(m, prow, prow, pcol);
        lemma_maxscan_at_least(m, prow, prow, pcol);
        assert(prow <= maxl);
        let m1 = if prow != maxl {
            sp_swap(m, prow, maxl)
        } else {
            m
        };
        let s1: nat = if prow != maxl {
            swaps + 1
        } else {
            swaps
        };
        if prow != maxl {
            lemma_swap_shape(m, prow, maxl);
            lemma_wf_swap(m, prow, maxl);
        }
        assert(forall|r: int| 0 <= r < prow ==> m1[r] == m[r]);
        assert(forall|r: int| prow <= r < m1.len() ==> m1[r][c0] == T::sp_zero());
        let m2 = sp_eliminate_pivot(m1, prow, pcol);
        lemma_eliminate_pivot_shape(m1, prow, pcol);
        lemma_wf_eliminate_pivot(m1, prow, pcol);
        assert(forall|r: int| 0 <= r <= prow ==> m2[r] == m1[r]);
        assert forall|r: int| prow <= r < m2.len() implies m2[r][c0] == T::sp_zero() by {
            if r <= prow {
                assert(m2[r] == m1[r]);
            } else {
                let c = m1[r][pcol].sp_div(m1[prow][pcol]).sp_neg();
                assert(m2[r][c0] == m1[r][c0].sp_add(c.sp_mul(m1[prow][c0])));
                T::law_wf(m1[r][pcol], m1[prow][pcol]);
                T::law_wf(m1[r][pcol].sp_div(m1[prow][pcol]), m1[prow][pcol]);
                T::law_mul_zero(c);
                T::law_consts_wf(0);
                T::law_add_zero(T::sp_zero());
            }
        }
        lemma_pech_step_keeps_zero_column(m2, prow + 1, s1, pcol + 1, cols, c0);
        let res = sp_pech_step(m2, prow + 1, s1, pcol + 1, cols).0;
        assert(sp_pech_step(m, prow, swaps, pcol, cols).0 == res);
        assert forall|r: int| prow <= r < m.len() implies res[r][c0] == T::sp_zero() by {
            if r == prow {
                assert(res[r] == m2[r]);
            }
        }
    }
}

/// The magnitude scan never goes backwards.
proof fn lemma_maxscan_at_least<T: MagScalar>(m: Seq<Seq<T>>, i: int, cur: int, pcol: int)
    ensures
        sp_maxscan(m, i, cur, pcol) == cur || sp_maxscan(m, i, cur, pcol) >= i,
    decreases m.len() - i,
{
    if i < 0 || i >= m.len() {
    } else {
        let cur2 = if !m[i][pcol].sp_is_zero() && m[i][pcol].sp_abs_gt(m[cur][pcol]) {
            i
        } else {
            cur
        };
        lemma_maxscan_at_least(m, i + 1, cur2, pcol);
    }
}

/// When the first column holds a nonzero entry, the pivoted reduction
/// leaves the exact zero everywhere in that column below the top row: the
/// first pivot is eliminated for good.
pub proof fn lemma_pivoted_zeroes_first_column<T: MagScalar>(m: Seq<Seq<T>>)
    requires
        sp_rect(m),
        sp_wf_mat(m),
        m.len() >= 1,
        sp_cols(m) >= 1,
        sp_scan(m, 0, 0) is Some,
    ensures
        forall|r: int| 1 <= r < m.len() ==> sp_echelon_pivoted(m).0[r][0] == T::sp_zero(),
{
    let cols = sp_cols(m) as int;
    let maxl = sp_maxscan(m, 0, 0, 0);
    lemma_maxscan_in_range(m, 0, 0, 0);
    let m1 = if 0 != maxl {
        sp_swap(m, 0, maxl)
    } else {
        m
    };
    let s1: nat = if 0 != maxl {
        1
    } else {
        0
    };
    if 0 != maxl {
        lemma_swap_shape(m, 0, maxl);
        lemma_wf_swap(m, 0, maxl);
    }
    let m2 = sp_eliminate_pivot(m1, 0, 0);
    lemma_eliminate_pivot_shape(m1, 0, 0);
    lemma_wf_eliminate_pivot(m1, 0, 0);
    assert(forall|r: int| 1 <= r < m2.len() ==> m2[r][0] == T::sp_zero());
    lemma_pech_step_keeps_zero_column(m2, 1, s1, 1, cols, 0);
    assert(sp_echelon_pivoted(m).0 == sp_pech_step(m2, 1, s1, 1, cols).0);
}

} // verus!
