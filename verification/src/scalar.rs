//! The scalar capability contract: the algebraic operations an element type
//! must support to be used in `Vector` and `Matrix`, together with the
//! algebraic laws the matrix lemmas rely on. Extensions add a magnitude
//! comparison (for partial pivoting), square root and sign (for Householder
//! reflectors), and a textual form (for the byte codec).

use vstd::prelude::*;

use crate::common::spec_truncate_b;

verus! {

/// A numeric element type. Every executable operation is pinned to a
/// specification-level counterpart (`sp_*`), so that the contracts of the
/// matrix and vector algorithms state their results exactly. The laws only
/// need to hold on well-formed values (`sp_wf`), which every executable value
/// of an implementing type is expected to satisfy.
pub trait Scalar: Sized + Copy {
    /// Well-formedness of a value; executable values always satisfy it.
    spec fn sp_wf(self) -> bool;

    /// The value of `self + other`.
    spec fn sp_add(self, other: Self) -> Self;

    /// The value of `self - other`.
    spec fn sp_sub(self, other: Self) -> Self;

    /// The value of `self * other`.
    spec fn sp_mul(self, other: Self) -> Self;

    /// The value of `self / other`.
    spec fn sp_div(self, other: Self) -> Self;

    /// The value of `-self`.
    spec fn sp_neg(self) -> Self;

    /// The additive identity.
    spec fn sp_zero() -> Self;

    /// The multiplicative identity.
    spec fn sp_one() -> Self;

    /// The value standing for the integer `n`.
    spec fn sp_from_int(n: i64) -> Self;

    /// Whether the value is a zero.
    spec fn sp_is_zero(self) -> bool;

    fn add(self, other: Self) -> (r: Self)
        ensures
            r == self.sp_add(other),
    ;

    fn sub(self, other: Self) -> (r: Self)
        ensures
            r == self.sp_sub(other),
    ;

    fn mul(self, other: Self) -> (r: Self)
        ensures
            r == self.sp_mul(other),
    ;

    fn div(self, other: Self) -> (r: Self)
        ensures
            r == self.sp_div(other),
    ;

    fn neg(self) -> (r: Self)
        ensures
            r == self.sp_neg(),
    ;

    fn zero() -> (r: Self)
        ensures
            r == Self::sp_zero(),
    ;

    fn one() -> (r: Self)
        ensures
            r == Self::sp_one(),
    ;

    fn from_int(n: i64) -> (r: Self)
        ensures
            r == Self::sp_from_int(n),
    ;

    fn is_zero(&self) -> (r: bool)
        ensures
            r == self.sp_is_zero(),
    ;

    fn eq_val(&self, other: &Self) -> (r: bool)
        ensures
            r == (*self == *other),
    ;

    /// Well-formedness is preserved by the operations.
    proof fn law_wf(x: Self, y: Self)
        requires
            x.sp_wf(),
            y.sp_wf(),
        ensures
            x.sp_add(y).sp_wf(),
            x.sp_sub(y).sp_wf(),
            x.sp_mul(y).sp_wf(),
            x.sp_div(y).sp_wf(),
            x.sp_neg().sp_wf(),
    ;

    /// The identities and every integer value are well-formed.
    proof fn law_consts_wf(n: i64)
        ensures
            Self::sp_zero().sp_wf(),
            Self::sp_one().sp_wf(),
            Self::sp_from_int(n).sp_wf(),
    ;

    /// The additive identity is neutral.
    proof fn law_add_zero(x: Self)
        requires
            x.sp_wf(),
        ensures
            x.sp_add(Self::sp_zero()) == x,
            Self::sp_zero().sp_add(x) == x,
    ;

    /// Subtracting the additive identity changes nothing.
    proof fn law_sub_zero(x: Self)
        requires
            x.sp_wf(),
        ensures
            x.sp_sub(Self::sp_zero()) == x,
    ;

    /// The multiplicative identity is neutral.
    proof fn law_mul_one(x: Self)
        requires
            x.sp_wf(),
        ensures
            x.sp_mul(Self::sp_one()) == x,
            Self::sp_one().sp_mul(x) == x,
    ;

    /// Multiplying by the additive identity yields it back.
    proof fn law_mul_zero(x: Self)
        requires
            x.sp_wf(),
        ensures
            x.sp_mul(Self::sp_zero()) == Self::sp_zero(),
            Self::sp_zero().sp_mul(x) == Self::sp_zero(),
    ;

    /// The additive identity answers the zero test.
    proof fn law_zero_is_zero()
        ensures
            Self::sp_zero().sp_is_zero(),
    ;
}

/// A scalar whose magnitude can be compared; the partial-pivoting echelon
/// variant picks the remaining entry of largest absolute value with it.
pub trait MagScalar: Scalar {
    /// Whether `|self| > |other|`.
    spec fn sp_abs_gt(self, other: Self) -> bool;

    fn abs_gt(&self, other: &Self) -> (r: bool)
        ensures
            r == self.sp_abs_gt(*other),
    ;
}

/// A scalar with a square root and a sign, enough to build Householder
/// reflectors.
pub trait NormScalar: Scalar {
    /// The value of the square root of `self`.
    spec fn sp_sqrt(self) -> Self;

    /// The sign of `self`: the multiplicative identity or its negation.
    spec fn sp_signum(self) -> Self;

    fn sqrt(self) -> (r: Self)
        ensures
            r == self.sp_sqrt(),
    ;

    fn signum(self) -> (r: Self)
        ensures
            r == self.sp_signum(),
    ;
}

/// A scalar with a canonical textual form, used by the byte codec.
pub trait TextScalar: Scalar {
    /// The canonical text of the value.
    spec fn sp_text(self) -> Seq<u8>;

    /// The value a text stands for, if it parses.
    spec fn sp_from_text(t: Seq<u8>) -> Option<Self>;

    fn to_text(&self) -> (r: Vec<u8>)
        ensures
            r@ == self.sp_text(),
    ;

    fn from_text(t: &[u8]) -> (r: Option<Self>)
        ensures
            r == Self::sp_from_text(t@),
    ;

    /// The canonical text never holds the codec's separators, so entries
    /// survive being joined and split again.
    proof fn law_text_no_separators(x: Self)
        requires
            x.sp_wf(),
        ensures
            forall|k: int|
                0 <= k < x.sp_text().len() ==> x.sp_text()[k] != 44 && x.sp_text()[k] != 59,
    ;

    /// Parsing the truncated canonical text of a well-formed value yields
    /// the value back; the byte codec's round trip rests on this.
    proof fn law_text_roundtrip(x: Self)
        requires
            x.sp_wf(),
        ensures
            Self::sp_from_text(spec_truncate_b(x.sp_text())) == Some(x),
    ;
}

} // verus!
