//! Householder QR factorization: reflectors built column by column, embedded
//! into the full dimension, and multiplied in order for Q and in reverse
//! order against the input for R.

use vstd::prelude::*;

use crate::matrix::Matrix;
use crate::model::lemma_rows_view;
use crate::model::sp_col;
use crate::model::sp_cols;
use crate::model::sp_id;
use crate::model::sp_matmul;
use crate::model::sp_rect;
use crate::scalar::NormScalar;
use crate::scalar::Scalar;
use crate::vector::Vector;
use crate::vector::sp_basis;
use crate::vector::sp_norm;

verus! {

/// The table with its first row and first column deleted.
pub open spec fn sp_sub00<T>(m: Seq<Seq<T>>) -> Seq<Seq<T>> {
    if m.len() == 0 {
        m
    } else {
        Seq::new(
            (m.len() - 1) as nat,
            |r: int| Seq::new((sp_cols(m) - 1) as nat, |c: int| m[r + 1][c + 1]),
        )
    }
}

/// A block written over a base table at offset `(row, col)`.
pub open spec fn sp_embed<T>(base: Seq<Seq<T>>, other: Seq<Seq<T>>, row: int, col: int) -> Seq<
    Seq<T>,
> {
    Seq::new(
        base.len(),
        |i: int|
            Seq::new(
                sp_cols(base),
                |j: int|
                    if row <= i < row + other.len() && col <= j < col + sp_cols(other) {
                        other[i - row][j - col]
                    } else {
                        base[i][j]
                    },
            ),
    )
}

/// The Householder reflector of a column vector `v`: with
/// `u = v + sign(v[0]) * |v| * e1` normalized to `w`, the table
/// `I - 2 * (w outer w)`. The sign choice follows the leading entry to avoid
/// cancellation, and is load-bearing.
pub open spec fn sp_householder<T: NormScalar>(v: Seq<T>) -> Seq<Seq<T>> {
    let n = v.len();
    let sgn = v[0].sp_signum();
    let nrm = sp_norm(v);
    let u = Seq::new(n, |i: int| v[i].sp_add(sp_basis::<T>(n, 0)[i].sp_mul(sgn).sp_mul(nrm)));
    let w = Seq::new(n, |i: int| u[i].sp_mul(T::sp_one().sp_div(sp_norm(u))));
    Seq::new(
        n,
        |i: int|
            Seq::new(
                n,
                |j: int|
                    sp_id::<T>(n)[i][j].sp_sub(
                        T::sp_zero().sp_add(w[i].sp_mul(w[j])).sp_mul(T::sp_from_int(2)),
                    ),
            ),
    )
}

/// The full-size reflectors recorded by the factorization, one per column:
/// at step `i` the working matrix is deflated (past the first step), the
/// reflector of its leading column is embedded at `(i, i)`, and the working
/// matrix is reduced by the reflector until the last column.
pub open spec fn sp_qr_ps<T: NormScalar>(m: Seq<Seq<T>>, i: int, dim: nat, cols: int) -> Seq<
    Seq<Seq<T>>,
>
    decreases cols - i,
{
    if i < 0 || i >= cols {
        Seq::empty()
    } else {
        let w = if i > 0 {
            sp_sub00(m)
        } else {
            m
        };
        let p = sp_householder(sp_col(w, 0));
        let emb = sp_embed(sp_id::<T>(dim), p, i, i);
        let next = if i == cols - 1 {
            w
        } else {
            sp_matmul(p, w)
        };
        seq![emb] + sp_qr_ps(next, i + 1, dim, cols)
    }
}

/// The product of the first `k` recorded reflectors, in order.
pub open spec fn sp_prod_fwd<T: Scalar>(ps: Seq<Seq<Seq<T>>>, k: int) -> Seq<Seq<T>>
    decreases k,
{
    if k <= 1 {
        ps[0]
    } else {
        sp_matmul(sp_prod_fwd(ps, k - 1), ps[k - 1])
    }
}

/// The product of the recorded reflectors from the last one down to index
/// `i`.
pub open spec fn sp_prod_rev<T: Scalar>(ps: Seq<Seq<Seq<T>>>, i: int) -> Seq<Seq<T>>
    decreases ps.len() - i,
{
    if i >= ps.len() - 1 {
        ps[ps.len() - 1]
    } else {
        sp_matmul(sp_prod_rev(ps, i + 1), ps[i])
    }
}

/// The QR factorization of a square table: Q is the product of the
/// reflectors in order, R the product in reverse order applied to the input.
pub open spec fn sp_qr<T: NormScalar>(m: Seq<Seq<T>>) -> (Seq<Seq<T>>, Seq<Seq<T>>) {
    let ps = sp_qr_ps(m, 0, m.len(), sp_cols(m) as int);
    (sp_prod_fwd(ps, ps.len() as int), sp_matmul(sp_prod_rev(ps, 0), m))
}

/// The reflector of a nonempty column is square of its dimension.
proof fn lemma_householder_shape<T: NormScalar>(v: Seq<T>)
    requires
        v.len() > 0,
    ensures
        sp_householder(v).len() == v.len(),
        sp_cols(sp_householder(v)) == v.len(),
        sp_rect(sp_householder(v)),
{
    let p = sp_householder(v);
    assert(p[0].len() == v.len());
    assert(forall|i: int| 0 <= i < p.len() ==> (#[trigger] p[i]).len() == v.len());
}

/// An embedded block keeps the base's shape.
proof fn lemma_embed_shape<T: NormScalar>(base: Seq<Seq<T>>, other: Seq<Seq<T>>, row: int, col: int)
    requires
        base.len() > 0,
    ensures
        sp_embed(base, other, row, col).len() == base.len(),
        sp_cols(sp_embed(base, other, row, col)) == sp_cols(base),
        sp_rect(sp_embed(base, other, row, col)),
{
    let r = sp_embed(base, other, row, col);
    assert(r[0].len() == sp_cols(base));
    assert(forall|i: int| 0 <= i < r.len() ==> (#[trigger] r[i]).len() == sp_cols(base));
}

/// The recorded reflectors: one per remaining column, each square of the
/// full dimension.
proof fn lemma_qr_ps_shape<T: NormScalar>(m: Seq<Seq<T>>, i: int, dim: nat, cols: int)
    requires
        0 <= i <= cols,
        cols == dim,
        dim >= 1,
        m.len() == (if i == 0 {
            dim as int
        } else {
            dim - i + 1
        }),
        sp_cols(m) == m.len(),
        sp_rect(m),
    ensures
        sp_qr_ps(m, i, dim, cols).len() == cols - i,
        forall|k: int|
            0 <= k < cols - i ==> {
                &&& (#[trigger] sp_qr_ps(m, i, dim, cols)[k]).len() == dim
                &&& sp_cols(sp_qr_ps(m, i, dim, cols)[k]) == dim
                &&& sp_rect(sp_qr_ps(m, i, dim, cols)[k])
            },
    decreases cols - i,
{
    if i >= cols {
    } else {
        let w = if i > 0 {
            sp_sub00(m)
        } else {
            m
        };
        assert(w.len() == dim - i);
        assert(sp_cols(w) == w.len() && sp_rect(w)) by {
            if i > 0 {
                assert(forall|r: int| 0 <= r < w.len() ==> (#[trigger] w[r]).len() == m.len() - 1);
                if w.len() > 0 {
                    assert(w[0].len() == m.len() - 1);
                }
            }
        }
        let v = sp_col(w, 0);
        assert(v.len() == dim - i >= 1);
        let p = sp_householder(v);
        lemma_householder_shape(v);
        let emb = sp_embed(sp_id::<T>(dim), p, i, i);
        lemma_embed_shape(sp_id::<T>(dim), p, i, i);
        let next = if i == cols - 1 {
            w
        } else {
            sp_matmul(p, w)
        };
        assert(next.len() == dim - i && sp_cols(next) == next.len() && sp_rect(next)) by {
            if i != cols - 1 {
                assert(next.len() == p.len());
                assert(forall|r: int|
                    0 <= r < next.len() ==> (#[trigger] next[r]).len() == sp_cols(w));
                assert(next[0].len() == sp_cols(w));
            }
        }
        lemma_qr_ps_shape(next, i + 1, dim, cols);
        let ps = sp_qr_ps(m, i, dim, cols);
        let rest = sp_qr_ps(next, i + 1, dim, cols);
        assert(ps == seq![emb] + rest);
        assert(ps.len() == cols - i);
        assert forall|k: int| 0 <= k < cols - i implies {
            &&& (#[trigger] ps[k]).len() == dim
            &&& sp_cols(ps[k]) == dim
            &&& sp_rect(ps[k])
        } by {
            if k == 0 {
                assert(ps[k] == emb);
            } else {
                assert(ps[k] == rest[k - 1]);
            }
        }
    }
}

impl<T: NormScalar> Matrix<T> {
    /// The Householder reflector of `v`, reflecting it onto the first
    /// coordinate axis.
    pub fn householder_standard(v: Vector<T>) -> (r: Self)
        requires
            v@.len() > 0,
        ensures
            r@ == sp_householder(v@),
            r@.len() == v@.len(),
            sp_cols(r@) == v@.len(),
            sp_rect(r@),
    {
        let ghost v0 = v@;
        let dim = v.dim();
        let e1 = Vector::<T>::standard_basis(dim, 0);
        let sgn = v.at(0).signum();
        let nrm = v.norm();
        let u = v.add(e1.scale(sgn).scale(nrm));
        proof {
            assert(u@ =~= Seq::new(
                v0.len(),
                |i: int| v0[i].sp_add(sp_basis::<T>(v0.len(), 0)[i].sp_mul(sgn).sp_mul(nrm)),
            ));
        }
        let w = u.normalised();
        proof {
            assert(w@ =~= Seq::new(u@.len(), |i: int| u@[i].sp_mul(T::sp_one().sp_div(sp_norm(u@)))));
        }
        let outer = w.outer_mul(&w);
        let two = T::from_int(2);
        let scaled = outer.scale(two);
        let idm = Matrix::<T>::id(dim);
        let r = idm.sub(scaled);
        proof {
            lemma_householder_shape(v0);
            assert(r@ =~~= sp_householder(v0));
        }
        r
    }

    /// The QR factorization by Householder reflectors; a non-square matrix
    /// is a domain error.
    pub fn qr_decomposition(&self) -> (r: Result<(Self, Self), String>)
        requires
            self@.len() > 0,
            sp_rect(self@),
        ensures
            (r is Ok) == (self@.len() == sp_cols(self@)),
            r matches Ok(qr) ==> qr.0@ == sp_qr(self@).0 && qr.1@ == sp_qr(self@).1,
            r matches Ok(qr) ==> {
                &&& qr.0@.len() == self@.len()
                &&& sp_cols(qr.0@) == self@.len()
                &&& sp_rect(qr.0@)
                &&& qr.1@.len() == self@.len()
                &&& sp_cols(qr.1@) == self@.len()
                &&& sp_rect(qr.1@)
            },
            r matches Err(m) ==> m@ == "Cannot decompose non-square matrix"@,
    {
        broadcast use lemma_rows_view;

        if !self.is_square() {
            return Err("Cannot decompose non-square matrix".to_owned());
        }
        let n = self.rows.len();
        let cols = n;
        let ghost spec_ps = sp_qr_ps(self@, 0, n as nat, cols as int);
        proof {
            lemma_qr_ps_shape(self@, 0, n as nat, cols as int);
        }
        let mut m = self.copy();
        let mut ps: Vec<Matrix<T>> = Vec::new();
        let mut i: usize = 0;
        while i < cols
            invariant
                i <= cols,
                cols == n,
                1 <= n == self@.len(),
                sp_cols(self@) == n,
                sp_rect(self@),
                m@.len() == (if i == 0 {
                    n as int
                } else {
                    n - i + 1
                }),
                sp_cols(m@) == m@.len(),
                sp_rect(m@),
                ps@.len() == i,
                forall|k: int|
                    0 <= k < i ==> {
                        &&& (#[trigger] ps@[k])@.len() == n
                        &&& sp_cols(ps@[k]@) == n
                        &&& sp_rect(ps@[k]@)
                    },
                spec_ps == Seq::new(ps@.len(), |k: int| ps@[k]@) + sp_qr_ps(
                    m@,
                    i as int,
                    n as nat,
                    cols as int,
                ),
            decreases cols - i,
        {
            if i > 0 {
                let mm = match m.submatrix(0, 0) {
                    Ok(x) => x,
                    Err(_) => {
                        proof {
                            assert(false);
                        }
                        return Err("Cannot decompose non-square matrix".to_owned());
                    },
                };
                proof {
                    assert(mm@ =~~= sp_sub00(m@));
                }
                m = mm;
            }
            proof {
                assert(sp_cols(m@) == m@.len() && sp_rect(m@)) by {
                    if m@.len() > 0 {
                        assert(m@[0].len() == sp_cols(m@));
                    }
                }
            }
            let v = m.get_vector(0);
            let p = Matrix::<T>::householder_standard(v);
            let idm = Matrix::<T>::id(n);
            let embedded = idm.embed_matrix(&p, i, i);
            proof {
                assert(embedded@ =~~= sp_embed(sp_id::<T>(n as nat), p@, i as int, i as int));
            }
            let ghost prev_views = Seq::new(ps@.len(), |k: int| ps@[k]@);
            ps.push(embedded);
            proof {
                assert(Seq::new(ps@.len(), |k: int| ps@[k]@) =~= prev_views + seq![embedded@]);
            }
            if i == cols - 1 {
                proof {
                    assert(spec_ps =~= (prev_views + seq![embedded@]) + sp_qr_ps(
                        m@,
                        i + 1 as int,
                        n as nat,
                        cols as int,
                    ));
                }
            } else {
                let w2 = m;
                m = p.mul(w2);
                proof {
                    assert(spec_ps =~= (prev_views + seq![embedded@]) + sp_qr_ps(
                        m@,
                        i + 1 as int,
                        n as nat,
                        cols as int,
                    ));
                }
            }
            i = i + 1;
        }
        proof {
            assert(spec_ps =~= Seq::new(ps@.len(), |k: int| ps@[k]@));
            assert(forall|k: int| 0 <= k < cols ==> spec_ps[k] == (#[trigger] ps@[k])@);
        }
        let num = cols;
        let mut q = ps[0].copy();
        let mut k: usize = 1;
        while k < num
            invariant
                1 <= k <= num,
                num == cols,
                ps@.len() == num,
                forall|t: int|
                    0 <= t < num ==> {
                        &&& (#[trigger] ps@[t])@.len() == n
                        &&& sp_cols(ps@[t]@) == n
                        &&& sp_rect(ps@[t]@)
                    },
                forall|t: int| 0 <= t < num ==> spec_ps[t] == (#[trigger] ps@[t])@,
                n >= 1,
                q@ == sp_prod_fwd(spec_ps, k as int),
                q@.len() == n,
                sp_cols(q@) == n,
                sp_rect(q@),
            decreases num - k,
        {
            let pk = ps[k].copy();
            q = q.mul(pk);
            k = k + 1;
        }
        let mut rr = ps[num - 1].copy();
        let mut t: usize = num - 1;
        while t > 0
            invariant
                0 <= t < num,
                num == cols,
                ps@.len() == num,
                forall|u: int|
                    0 <= u < num ==> {
                        &&& (#[trigger] ps@[u])@.len() == n
                        &&& sp_cols(ps@[u]@) == n
                        &&& sp_rect(ps@[u]@)
                    },
                forall|u: int| 0 <= u < num ==> spec_ps[u] == (#[trigger] ps@[u])@,
                n >= 1,
                rr@ == sp_prod_rev(spec_ps, t as int),
                rr@.len() == n,
                sp_cols(rr@) == n,
                sp_rect(rr@),
            decreases t,
        {
            t = t - 1;
            let pt = ps[t].copy();
            rr = rr.mul(pt);
        }
        let sc = self.copy();
        let rfin = rr.mul(sc);
        Ok((q, rfin))
    }
}

} // verus!
