//! The fixed-length vector type: elementwise arithmetic, scaling, conversion
//! to row and column matrices, and the cross product in the dimensions where
//! one exists.

use vstd::prelude::*;

use crate::matrix::Matrix;
use crate::model::sp_col;
use crate::model::sp_cols;
use crate::model::sp_dot;
use crate::model::sp_dot_prefix;
use crate::model::sp_rect;
use crate::scalar::NormScalar;
use crate::scalar::Scalar;

verus! {

/// An owned, fixed-length ordered sequence of scalars.
#[derive(Debug, Clone, PartialEq)]
pub struct Vector<T: Scalar> {
    pub entries: Vec<T>,
}

impl<T: Scalar> View for Vector<T> {
    type V = Seq<T>;

    open spec fn view(&self) -> Seq<T> {
        self.entries@
    }
}

/// The `i`-th standard basis sequence of length `n`.
pub open spec fn sp_basis<T: Scalar>(n: nat, i: int) -> Seq<T> {
    Seq::new(
        n,
        |j: int|
            if j == i {
                T::sp_one()
            } else {
                T::sp_zero()
            },
    )
}

/// The three-dimensional cross product.
pub open spec fn sp_cross3<T: Scalar>(a: Seq<T>, b: Seq<T>) -> Seq<T> {
    seq![
        a[1].sp_mul(b[2]).sp_sub(a[2].sp_mul(b[1])),
        a[2].sp_mul(b[0]).sp_sub(a[0].sp_mul(b[2])),
        a[0].sp_mul(b[1]).sp_sub(a[1].sp_mul(b[0])),
    ]
}

/// One entry of the seven-dimensional generalized cross product: the three
/// index-offset pairs (1,3), (2,6) and (4,5) taken modulo 7 relative to `i`,
/// accumulated left to right.
pub open spec fn sp_cross7_entry<T: Scalar>(a: Seq<T>, b: Seq<T>, i: int) -> T {
    a[(i + 1) % 7].sp_mul(b[(i + 3) % 7]).sp_sub(a[(i + 3) % 7].sp_mul(b[(i + 1) % 7])).sp_add(
        a[(i + 2) % 7].sp_mul(b[(i + 6) % 7]),
    ).sp_sub(a[(i + 6) % 7].sp_mul(b[(i + 2) % 7])).sp_add(
        a[(i + 4) % 7].sp_mul(b[(i + 5) % 7]),
    ).sp_sub(a[(i + 5) % 7].sp_mul(b[(i + 4) % 7]))
}

/// The seven-dimensional generalized cross product.
pub open spec fn sp_cross7<T: Scalar>(a: Seq<T>, b: Seq<T>) -> Seq<T> {
    Seq::new(7, |i: int| sp_cross7_entry(a, b, i))
}

impl<T: Scalar> Vector<T> {
    /// The number of entries.
    pub fn dim(&self) -> (r: usize)
        ensures
            r == self@.len(),
    {
        self.entries.len()
    }

    /// Wraps a plain sequence of entries.
    pub fn from_entries(entries: Vec<T>) -> (r: Self)
        ensures
            r@ == entries@,
    {
        Vector { entries }
    }

    /// The zero vector of the given dimension.
    pub fn zero(dim: usize) -> (r: Self)
        ensures
            r@.len() == dim,
            forall|i: int| 0 <= i < dim ==> r@[i] == T::sp_zero(),
    {
        let mut out: Vec<T> = Vec::new();
        let mut i: usize = 0;
        while i < dim
            invariant
                i <= dim,
                out@.len() == i,
                forall|j: int| 0 <= j < i ==> out@[j] == T::sp_zero(),
            decreases dim - i,
        {
            out.push(T::zero());
            i = i + 1;
        }
        Vector { entries: out }
    }

    /// The `i`-th standard basis vector of the given dimension.
    pub fn standard_basis(dim: usize, i: usize) -> (r: Self)
        requires
            i < dim,
        ensures
            r@ == sp_basis::<T>(dim as nat, i as int),
    {
        let mut e = Self::zero(dim);
        e.entries.set(i, T::one());
        proof {
            assert(e@ =~= sp_basis::<T>(dim as nat, i as int));
        }
        e
    }

    /// The entry at `i`.
    pub fn at(&self, i: usize) -> (r: T)
        requires
            i < self@.len(),
        ensures
            r == self@[i as int],
    {
        self.entries[i]
    }

    /// Replaces the entry at `i`; the one operation that mutates in place.
    pub fn set_entry(&mut self, i: usize, value: T)
        requires
            i < old(self)@.len(),
        ensures
            final(self)@ == old(self)@.update(i as int, value),
    {
        self.entries.set(i, value);
    }

    /// Elementwise sum; the dimensions must agree.
    pub fn add(self, rhs: Vector<T>) -> (r: Vector<T>)
        requires
            self@.len() == rhs@.len(),
        ensures
            r@.len() == self@.len(),
            forall|i: int| 0 <= i < self@.len() ==> r@[i] == self@[i].sp_add(rhs@[i]),
    {
        let n = self.entries.len();
        let mut out: Vec<T> = Vec::new();
        let mut i: usize = 0;
        while i < n
            invariant
                i <= n,
                n == self@.len(),
                rhs@.len() == n,
                out@.len() == i,
                forall|j: int| 0 <= j < i ==> out@[j] == self@[j].sp_add(rhs@[j]),
            decreases n - i,
        {
            let x = self.entries[i].add(rhs.entries[i]);
            out.push(x);
            i = i + 1;
        }
        Vector { entries: out }
    }

    /// Elementwise difference; the dimensions must agree.
    pub fn sub(self, rhs: Vector<T>) -> (r: Vector<T>)
        requires
            self@.len() == rhs@.len(),
        ensures
            r@.len() == self@.len(),
            forall|i: int| 0 <= i < self@.len() ==> r@[i] == self@[i].sp_sub(rhs@[i]),
    {
        let n = self.entries.len();
        let mut out: Vec<T> = Vec::new();
        let mut i: usize = 0;
        while i < n
            invariant
                i <= n,
                n == self@.len(),
                rhs@.len() == n,
                out@.len() == i,
                forall|j: int| 0 <= j < i ==> out@[j] == self@[j].sp_sub(rhs@[j]),
            decreases n - i,
        {
            let x = self.entries[i].sub(rhs.entries[i]);
            out.push(x);
            i = i + 1;
        }
        Vector { entries: out }
    }

    /// Elementwise negation.
    pub fn neg(self) -> (r: Vector<T>)
        ensures
            r@.len() == self@.len(),
            forall|i: int| 0 <= i < self@.len() ==> r@[i] == self@[i].sp_neg(),
    {
        let n = self.entries.len();
        let mut out: Vec<T> = Vec::new();
        let mut i: usize = 0;
        while i < n
            invariant
                i <= n,
                n == self@.len(),
                out@.len() == i,
                forall|j: int| 0 <= j < i ==> out@[j] == self@[j].sp_neg(),
            decreases n - i,
        {
            let x = self.entries[i].neg();
            out.push(x);
            i = i + 1;
        }
        Vector { entries: out }
    }

    /// Every entry multiplied by `c`.
    pub fn scale(&self, c: T) -> (r: Vector<T>)
        ensures
            r@.len() == self@.len(),
            forall|i: int| 0 <= i < self@.len() ==> r@[i] == self@[i].sp_mul(c),
    {
        let n = self.entries.len();
        let mut out: Vec<T> = Vec::new();
        let mut i: usize = 0;
        while i < n
            invariant
                i <= n,
                n == self@.len(),
                out@.len() == i,
                forall|j: int| 0 <= j < i ==> out@[j] == self@[j].sp_mul(c),
            decreases n - i,
        {
            let x = self.entries[i].mul(c);
            out.push(x);
            i = i + 1;
        }
        Vector { entries: out }
    }

    /// The vector as a `1 x n` matrix.
    pub fn row_matrix(&self) -> (r: Matrix<T>)
        ensures
            r@.len() == 1,
            r@[0] == self@,
            sp_cols(r@) == self@.len(),
            sp_rect(r@),
    {
        let mut row: Vec<T> = Vec::new();
        let n = self.entries.len();
        let mut i: usize = 0;
        while i < n
            invariant
                i <= n,
                n == self@.len(),
                row@.len() == i,
                forall|j: int| 0 <= j < i ==> row@[j] == self@[j],
            decreases n - i,
        {
            let x = self.entries[i];
            row.push(x);
            i = i + 1;
        }
        let mut rows: Vec<Vec<T>> = Vec::new();
        rows.push(row);
        let r = Matrix { rows };
        proof {
            assert(r@[0] =~= self@);
        }
        r
    }

    /// The vector as an `n x 1` matrix.
    pub fn column_matrix(&self) -> (r: Matrix<T>)
        ensures
            r@.len() == self@.len(),
            self@.len() > 0 ==> sp_cols(r@) == 1,
            sp_rect(r@),
            forall|i: int| 0 <= i < self@.len() ==> r@[i].len() == 1 && r@[i][0] == self@[i],
    {
        self.row_matrix().transpose()
    }

    /// The cross product, defined for dimension pairs (0,0), (1,1), (3,3) and
    /// (7,7); any other pair is a domain error.
    pub fn cross_product(&self, rhs: &Self) -> (r: Result<Self, String>)
        ensures
            (r is Ok) == ((self@.len() == 0 && rhs@.len() == 0) || (self@.len() == 1 && rhs@.len()
                == 1) || (self@.len() == 3 && rhs@.len() == 3) || (self@.len() == 7 && rhs@.len()
                == 7)),
            r matches Ok(v) ==> v@ == (if self@.len() == 0 {
                Seq::<T>::empty()
            } else if self@.len() == 1 {
                seq![T::sp_zero()]
            } else if self@.len() == 3 {
                sp_cross3(self@, rhs@)
            } else {
                sp_cross7(self@, rhs@)
            }),
            r matches Err(m) ==> m@
                == "Cross product is only defined for pairs of 0, 1, 3 or 7 dimensional vectors"@,
    {
        let sd = self.entries.len();
        let rd = rhs.entries.len();
        if sd == 0 && rd == 0 {
            let v = Self::zero(0);
            proof {
                assert(v@ =~= Seq::<T>::empty());
            }
            Ok(v)
        } else if sd == 1 && rd == 1 {
            let v = Self::zero(1);
            proof {
                assert(v@ =~= seq![T::sp_zero()]);
            }
            Ok(v)
        } else if sd == 3 && rd == 3 {
            let a = &self.entries;
            let b = &rhs.entries;
            let mut out: Vec<T> = Vec::new();
            out.push(a[1].mul(b[2]).sub(a[2].mul(b[1])));
            out.push(a[2].mul(b[0]).sub(a[0].mul(b[2])));
            out.push(a[0].mul(b[1]).sub(a[1].mul(b[0])));
            let v = Vector { entries: out };
            proof {
                assert(v@ =~= sp_cross3(self@, rhs@));
            }
            Ok(v)
        } else if sd == 7 && rd == 7 {
            let a = &self.entries;
            let b = &rhs.entries;
            let mut out: Vec<T> = Vec::new();
            let mut i: usize = 0;
            while i < 7
                invariant
                    i <= 7,
                    a@.len() == 7,
                    b@.len() == 7,
                    a@ == self@,
                    b@ == rhs@,
                    out@.len() == i,
                    forall|k: int| 0 <= k < i ==> out@[k] == sp_cross7_entry(self@, rhs@, k),
                decreases 7 - i,
            {
                let x = a[(i + 1) % 7].mul(b[(i + 3) % 7]).sub(a[(i + 3) % 7].mul(b[(i + 1) % 7]))
                    .add(a[(i + 2) % 7].mul(b[(i + 6) % 7])).sub(
                    a[(i + 6) % 7].mul(b[(i + 2) % 7]),
                ).add(a[(i + 4) % 7].mul(b[(i + 5) % 7])).sub(a[(i + 5) % 7].mul(b[(i + 4) % 7]));
                out.push(x);
                i = i + 1;
            }
            let v = Vector { entries: out };
            proof {
                assert(v@ =~= sp_cross7(self@, rhs@));
            }
            Ok(v)
        } else {
            Err("Cross product is only defined for pairs of 0, 1, 3 or 7 dimensional vectors"
                .to_owned())
        }
    }
}


/// The Euclidean norm of a row: the square root of its scalar product with
/// itself.
pub open spec fn sp_norm<T: NormScalar>(v: Seq<T>) -> T {
    sp_dot(v, v).sp_sqrt()
}

impl<T: Scalar> Vector<T> {
    /// The scalar product with `other`; the dimensions must agree.
    pub fn inner(&self, other: &Self) -> (r: T)
        requires
            self@.len() == other@.len(),
        ensures
            r == sp_dot(self@, other@),
    {
        let n = self.entries.len();
        let mut acc = T::zero();
        let mut i: usize = 0;
        while i < n
            invariant
                i <= n,
                acc == sp_dot_prefix(self@, other@, i as int),
            decreases n - i,
        {
            let x = self.entries[i].mul(other.entries[i]);
            acc = acc.add(x);
            i = i + 1;
        }
        acc
    }

    /// The outer product: the column matrix of `self` times the row matrix
    /// of `other`.
    pub fn outer_mul(&self, other: &Self) -> (r: Matrix<T>)
        requires
            self@.len() > 0,
        ensures
            r@.len() == self@.len(),
            sp_cols(r@) == other@.len(),
            sp_rect(r@),
            forall|i: int, j: int|
                0 <= i < self@.len() && 0 <= j < other@.len() ==> #[trigger] r@[i][j]
                    == T::sp_zero().sp_add(self@[i].sp_mul(other@[j])),
    {
        let cm = self.column_matrix();
        let rm = other.row_matrix();
        proof {
            assert(sp_cols(cm@) == 1);
        }
        let r = cm.mul(rm);
        proof {
            assert forall|i: int, j: int|
                0 <= i < self@.len() && 0 <= j < other@.len() implies #[trigger] r@[i][j]
                == T::sp_zero().sp_add(self@[i].sp_mul(other@[j])) by {
                assert(r@[i][j] == sp_dot(cm@[i], sp_col(rm@, j)));
                assert(cm@[i].len() == 1);
                assert(cm@[i][0] == self@[i]);
                assert(sp_col(rm@, j)[0] == other@[j]);
                assert(sp_dot_prefix(cm@[i], sp_col(rm@, j), 0) == T::sp_zero());
                assert(sp_dot(cm@[i], sp_col(rm@, j)) == sp_dot_prefix(cm@[i], sp_col(rm@, j), 1));
            }
        }
        r
    }
}

impl<T: NormScalar> Vector<T> {
    /// The Euclidean norm.
    pub fn norm(&self) -> (r: T)
        ensures
            r == sp_norm(self@),
    {
        let d = self.inner(self);
        d.sqrt()
    }

    /// The vector scaled by the reciprocal of its norm.
    pub fn normalised(&self) -> (r: Vector<T>)
        ensures
            r@.len() == self@.len(),
            forall|i: int|
                0 <= i < self@.len() ==> r@[i] == self@[i].sp_mul(
                    T::sp_one().sp_div(sp_norm(self@)),
                ),
    {
        let n = self.norm();
        let c = T::one().div(n);
        self.scale(c)
    }
}

/// In three dimensions the cross product of the first two standard basis
/// vectors is the third one.
pub proof fn lemma_cross_basis<T: Scalar>()
    ensures
        sp_cross3(sp_basis::<T>(3, 0), sp_basis::<T>(3, 1)) == sp_basis::<T>(3, 2),
{
    T::law_consts_wf(0);
    let o = T::sp_one();
    let z = T::sp_zero();
    T::law_mul_zero(z);
    T::law_mul_zero(o);
    T::law_mul_one(o);
    T::law_mul_one(z);
    T::law_sub_zero(z);
    T::law_sub_zero(o);
    assert(sp_cross3(sp_basis::<T>(3, 0), sp_basis::<T>(3, 1)) =~= sp_basis::<T>(3, 2));
}

} // verus!
