//! An exact rational scalar. Values are pairs `num / den` with a positive
//! denominator; the pair is not reduced, but a zero numerator is held
//! canonically as `0 / 1`. Products and cross sums are computed in 128-bit
//! intermediates, which cannot overflow for 64-bit fields; a result whose
//! fields would leave the 64-bit range falls back to the canonical zero, and
//! the specification says exactly when.

use vstd::prelude::*;

use crate::common::lemma_truncate_b_no_sep;
use crate::convert::lemma_find_at;
use crate::convert::lemma_find_none;
use crate::convert::lemma_int_text_chars;
use crate::convert::lemma_parse_int_text;
use crate::convert::parse_i64;
use crate::convert::push_int_text;
use crate::convert::sp_find;
use crate::convert::sp_int_text;
use crate::convert::sp_parse_i64;
use crate::scalar::MagScalar;
use crate::scalar::NormScalar;
use crate::scalar::Scalar;
use crate::scalar::TextScalar;
use vstd::slice::slice_subrange;

verus! {

/// `|n|` over mathematical integers.
pub open spec fn sp_abs(n: int) -> int {
    if n >= 0 {
        n
    } else {
        -n
    }
}

/// Any product of two 64-bit values stays within `2^126`, so within `i128`.
pub(crate) proof fn lemma_i64_prod_fits(a: int, b: int)
    requires
        -0x8000_0000_0000_0000 <= a <= 0x8000_0000_0000_0000,
        -0x8000_0000_0000_0000 <= b <= 0x8000_0000_0000_0000,
    ensures
        -0x4000_0000_0000_0000_0000_0000_0000_0000 <= a * b
            <= 0x4000_0000_0000_0000_0000_0000_0000_0000,
{
    assert(-0x4000_0000_0000_0000_0000_0000_0000_0000 <= a * b
        <= 0x4000_0000_0000_0000_0000_0000_0000_0000) by (nonlinear_arith)
        requires
            -0x8000_0000_0000_0000 <= a <= 0x8000_0000_0000_0000,
            -0x8000_0000_0000_0000 <= b <= 0x8000_0000_0000_0000,
    ;
}

/// A product against a positive denominator keeps room for one more sum.
pub(crate) proof fn lemma_den_prod_bound(a: int, b: int)
    requires
        -0x8000_0000_0000_0000 <= a <= 0x7fff_ffff_ffff_ffff,
        0 <= b <= 0x7fff_ffff_ffff_ffff,
    ensures
        -0x3fff_ffff_ffff_ffff_8000_0000_0000_0000 <= a * b
            <= 0x3fff_ffff_ffff_ffff_8000_0000_0000_0000,
{
    assert(-0x3fff_ffff_ffff_ffff_8000_0000_0000_0000 <= a * b
        <= 0x3fff_ffff_ffff_ffff_8000_0000_0000_0000) by (nonlinear_arith)
        requires
            -0x8000_0000_0000_0000 <= a <= 0x7fff_ffff_ffff_ffff,
            0 <= b <= 0x7fff_ffff_ffff_ffff,
    ;
}

pub(crate) proof fn lemma_pos_prod(a: int, b: int)
    requires
        a >= 1,
        b >= 1,
    ensures
        a * b >= 1,
{
    assert(a * b >= 1) by (nonlinear_arith)
        requires
            a >= 1,
            b >= 1,
    ;
}

/// An exact rational number.
#[derive(Clone, Copy, Debug, PartialEq, Eq, Structural)]
pub struct Frac {
    pub(crate) num: i64,
    pub(crate) den: i64,
}

impl Frac {
    /// Positive denominator, and the zero held canonically as `0 / 1`.
    #[verifier::type_invariant]
    pub closed spec fn inv(self) -> bool {
        1 <= self.den && (self.num == 0 ==> self.den == 1)
    }

    /// The numerator as a mathematical integer.
    pub closed spec fn sp_num(self) -> int {
        self.num as int
    }

    /// The denominator as a mathematical integer.
    pub closed spec fn sp_den(self) -> int {
        self.den as int
    }

    /// The value `n / d` fitted into the 64-bit fields: a zero numerator
    /// collapses to the canonical zero, and a pair out of range falls back to
    /// it as well.
    pub(crate) closed spec fn sp_make(n: int, d: int) -> Frac {
        if n == 0 {
            Frac { num: 0, den: 1 }
        } else if -0x8000_0000_0000_0000 <= n <= 0x7fff_ffff_ffff_ffff
            && -0x8000_0000_0000_0000 <= d <= 0x7fff_ffff_ffff_ffff {
            Frac { num: n as i64, den: d as i64 }
        } else {
            Frac { num: 0, den: 1 }
        }
    }

    fn make(n: i128, d: i128) -> (r: Frac)
        requires
            1 <= d,
        ensures
            r == Frac::sp_make(n as int, d as int),
    {
        if n == 0 {
            Frac { num: 0, den: 1 }
        } else if n >= i64::MIN as i128 && n <= i64::MAX as i128 && d <= i64::MAX as i128 {
            Frac { num: n as i64, den: d as i64 }
        } else {
            Frac { num: 0, den: 1 }
        }
    }

    /// The value `n / d`, brought to a positive denominator; `d == 0` gives
    /// the canonical zero.
    pub closed spec fn sp_new(n: int, d: int) -> Frac {
        if d == 0 {
            Frac { num: 0, den: 1 }
        } else if d > 0 {
            Frac::sp_make(n, d)
        } else {
            Frac::sp_make(-n, -d)
        }
    }

    /// Builds `num / den`; a zero denominator yields the canonical zero.
    pub fn new(num: i64, den: i64) -> (r: Frac)
        ensures
            r == Frac::sp_new(num as int, den as int),
    {
        if den == 0 {
            Frac { num: 0, den: 1 }
        } else if den > 0 {
            Frac::make(num as i128, den as i128)
        } else {
            Frac::make(-(num as i128), -(den as i128))
        }
    }

    pub fn numerator(&self) -> (r: i64)
        ensures
            r as int == self.sp_num(),
    {
        self.num
    }

    pub fn denominator(&self) -> (r: i64)
        ensures
            r as int == self.sp_den(),
    {
        self.den
    }

    /// Whether the two pairs stand for the same rational, by cross
    /// multiplication; representations need not match.
    pub fn eq_value(&self, other: &Frac) -> (r: bool)
        ensures
            r == (self.sp_num() * other.sp_den() == other.sp_num() * self.sp_den()),
    {
        proof {
            use_type_invariant(self);
            use_type_invariant(other);
            lemma_i64_prod_fits(self.sp_num(), other.sp_den());
            lemma_i64_prod_fits(other.sp_num(), self.sp_den());
        }
        (self.num as i128) * (other.den as i128) == (other.num as i128) * (self.den as i128)
    }
}

impl Scalar for Frac {
    closed spec fn sp_wf(self) -> bool {
        self.inv()
    }

    closed spec fn sp_add(self, other: Self) -> Self {
        Frac::sp_make(
            self.sp_num() * other.sp_den() + other.sp_num() * self.sp_den(),
            self.sp_den() * other.sp_den(),
        )
    }

    closed spec fn sp_sub(self, other: Self) -> Self {
        Frac::sp_make(
            self.sp_num() * other.sp_den() - other.sp_num() * self.sp_den(),
            self.sp_den() * other.sp_den(),
        )
    }

    closed spec fn sp_mul(self, other: Self) -> Self {
        Frac::sp_make(self.sp_num() * other.sp_num(), self.sp_den() * other.sp_den())
    }

    closed spec fn sp_div(self, other: Self) -> Self {
        if other.sp_num() == 0 {
            Frac { num: 0, den: 1 }
        } else if other.sp_num() > 0 {
            Frac::sp_make(self.sp_num() * other.sp_den(), self.sp_den() * other.sp_num())
        } else {
            Frac::sp_make(-(self.sp_num() * other.sp_den()), self.sp_den() * -other.sp_num())
        }
    }

    closed spec fn sp_neg(self) -> Self {
        Frac::sp_make(-self.sp_num(), self.sp_den())
    }

    closed spec fn sp_zero() -> Self {
        Frac { num: 0, den: 1 }
    }

    closed spec fn sp_one() -> Self {
        Frac { num: 1, den: 1 }
    }

    closed spec fn sp_from_int(n: i64) -> Self {
        Frac::sp_make(n as int, 1)
    }

    closed spec fn sp_is_zero(self) -> bool {
        self.sp_num() == 0
    }

    fn add(self, other: Self) -> (r: Self) {
        proof {
            use_type_invariant(&self);
            use_type_invariant(&other);
            lemma_den_prod_bound(self.sp_num(), other.sp_den());
            lemma_den_prod_bound(other.sp_num(), self.sp_den());
            lemma_pos_prod(self.sp_den(), other.sp_den());
            lemma_i64_prod_fits(self.sp_den(), other.sp_den());
        }
        let n = (self.num as i128) * (other.den as i128) + (other.num as i128) * (self.den
            as i128);
        let d = (self.den as i128) * (other.den as i128);
        Frac::make(n, d)
    }

    fn sub(self, other: Self) -> (r: Self) {
        proof {
            use_type_invariant(&self);
            use_type_invariant(&other);
            lemma_den_prod_bound(self.sp_num(), other.sp_den());
            lemma_den_prod_bound(other.sp_num(), self.sp_den());
            lemma_pos_prod(self.sp_den(), other.sp_den());
            lemma_i64_prod_fits(self.sp_den(), other.sp_den());
        }
        let n = (self.num as i128) * (other.den as i128) - (other.num as i128) * (self.den
            as i128);
        let d = (self.den as i128) * (other.den as i128);
        Frac::make(n, d)
    }

    fn mul(self, other: Self) -> (r: Self) {
        proof {
            use_type_invariant(&self);
            use_type_invariant(&other);
            lemma_i64_prod_fits(self.sp_num(), other.sp_num());
            lemma_pos_prod(self.sp_den(), other.sp_den());
            lemma_i64_prod_fits(self.sp_den(), other.sp_den());
        }
        let n = (self.num as i128) * (other.num as i128);
        let d = (self.den as i128) * (other.den as i128);
        Frac::make(n, d)
    }

    fn div(self, other: Self) -> (r: Self) {
        proof {
            use_type_invariant(&self);
            use_type_invariant(&other);
            lemma_i64_prod_fits(self.sp_num(), other.sp_den());
            lemma_i64_prod_fits(self.sp_den(), other.sp_num());
        }
        if other.num == 0 {
            Frac { num: 0, den: 1 }
        } else if other.num > 0 {
            let n = (self.num as i128) * (other.den as i128);
            let d = (self.den as i128) * (other.num as i128);
            proof {
                lemma_pos_prod(self.sp_den(), other.sp_num());
            }
            Frac::make(n, d)
        } else {
            proof {
                lemma_i64_prod_fits(self.sp_den(), -other.sp_num());
                lemma_pos_prod(self.sp_den(), -other.sp_num());
            }
            let n = -((self.num as i128) * (other.den as i128));
            let d = (self.den as i128) * (-(other.num as i128));
            Frac::make(n, d)
        }
    }

    fn neg(self) -> (r: Self) {
        proof {
            use_type_invariant(&self);
        }
        Frac::make(-(self.num as i128), self.den as i128)
    }

    fn zero() -> (r: Self) {
        Frac { num: 0, den: 1 }
    }

    fn one() -> (r: Self) {
        Frac { num: 1, den: 1 }
    }

    fn from_int(n: i64) -> (r: Self) {
        Frac::make(n as i128, 1)
    }

    fn is_zero(&self) -> (r: bool) {
        self.num == 0
    }

    fn eq_val(&self, other: &Self) -> (r: bool) {
        self.num == other.num && self.den == other.den
    }

    proof fn law_wf(x: Self, y: Self) {
        lemma_pos_prod(x.sp_den(), y.sp_den());
        if y.sp_num() > 0 {
            lemma_pos_prod(x.sp_den(), y.sp_num());
        }
        if y.sp_num() < 0 {
            lemma_pos_prod(x.sp_den(), -y.sp_num());
        }
    }

    proof fn law_consts_wf(n: i64) {
    }

    proof fn law_add_zero(x: Self) {
        assert(x.sp_num() * 1 == x.sp_num());
        assert(x.sp_den() * 1 == x.sp_den());
    }

    proof fn law_sub_zero(x: Self) {
        assert(x.sp_num() * 1 == x.sp_num());
        assert(x.sp_den() * 1 == x.sp_den());
    }

    proof fn law_mul_one(x: Self) {
        assert(x.sp_num() * 1 == x.sp_num());
        assert(x.sp_den() * 1 == x.sp_den());
    }

    proof fn law_mul_zero(x: Self) {
        assert(x.sp_num() * 0 == 0);
        assert(x.sp_den() * 1 == x.sp_den());
    }

    proof fn law_zero_is_zero() {
    }
}

impl MagScalar for Frac {
    closed spec fn sp_abs_gt(self, other: Self) -> bool {
        sp_abs(self.sp_num()) * other.sp_den() > sp_abs(other.sp_num()) * self.sp_den()
    }

    fn abs_gt(&self, other: &Self) -> (r: bool) {
        proof {
            use_type_invariant(self);
            use_type_invariant(other);
            lemma_i64_prod_fits(sp_abs(self.sp_num()), other.sp_den());
            lemma_i64_prod_fits(sp_abs(other.sp_num()), self.sp_den());
        }
        let mut a: i128 = self.num as i128;
        if a < 0 {
            a = -a;
        }
        let mut b: i128 = other.num as i128;
        if b < 0 {
            b = -b;
        }
        a * (other.den as i128) > b * (self.den as i128)
    }
}


/// Whether `r` is the floor square root of `x`.
pub open spec fn is_floor_sqrt(x: int, r: int) -> bool {
    r >= 0 && r * r <= x < (r + 1) * (r + 1)
}

/// The floor square root of a nonnegative integer, as the unique `r` with
/// `r * r <= x < (r + 1) * (r + 1)`.
pub open spec fn sp_isqrt(x: int) -> int {
    if x >= 0 {
        choose|r: int| is_floor_sqrt(x, r)
    } else {
        0
    }
}

/// Two floor square roots of the same value agree.
proof fn lemma_isqrt_unique(x: int, r1: int, r2: int)
    requires
        r1 >= 0,
        r1 * r1 <= x < (r1 + 1) * (r1 + 1),
        r2 >= 0,
        r2 * r2 <= x < (r2 + 1) * (r2 + 1),
    ensures
        r1 == r2,
{
    assert(r1 == r2) by (nonlinear_arith)
        requires
            r1 >= 0,
            r1 * r1 <= x < (r1 + 1) * (r1 + 1),
            r2 >= 0,
            r2 * r2 <= x < (r2 + 1) * (r2 + 1),
    ;
}

/// The floor square root by bisection.
fn isqrt_i128(x: i128) -> (r: i128)
    requires
        0 <= x <= 0x4000_0000_0000_0000_0000_0000_0000_0000,
    ensures
        r == sp_isqrt(x as int),
        0 <= r <= 0x8000_0000_0000_0000,
{
    let mut lo: i128 = 0;
    let mut hi: i128 = 0x8000_0000_0000_0001;
    proof {
        assert(hi * hi > x) by (nonlinear_arith)
            requires
                hi == 0x8000_0000_0000_0001,
                x <= 0x4000_0000_0000_0000_0000_0000_0000_0000,
        ;
    }
    while hi - lo > 1
        invariant
            0 <= lo < hi <= 0x8000_0000_0000_0001,
            lo * lo <= x,
            hi * hi > x,
        decreases hi - lo,
    {
        let mid = lo + (hi - lo) / 2;
        proof {
            assert(lo < mid < hi);
            assert(mid * mid <= 0x8000_0000_0000_0001 * 0x8000_0000_0000_0001)
                by (nonlinear_arith)
                requires
                    0 <= mid <= 0x8000_0000_0000_0001,
            ;
        }
        if mid * mid <= x {
            lo = mid;
        } else {
            hi = mid;
        }
    }
    proof {
        assert(hi == lo + 1);
        assert(is_floor_sqrt(x as int, lo as int));
        let w = choose|r: int| is_floor_sqrt(x as int, r);
        assert(is_floor_sqrt(x as int, w));
        lemma_isqrt_unique(x as int, lo as int, w);
    }
    lo
}

impl NormScalar for Frac {
    /// The floor square root of `num * den` over `den`: an exact rational
    /// floor approximation of the square root of `num / den`. A negative
    /// value maps to the canonical zero.
    closed spec fn sp_sqrt(self) -> Self {
        if self.sp_num() < 0 {
            Frac { num: 0, den: 1 }
        } else {
            Frac::sp_make(sp_isqrt(self.sp_num() * self.sp_den()), self.sp_den())
        }
    }

    /// The sign by the numerator, with the positive sign for zero.
    closed spec fn sp_signum(self) -> Self {
        if self.sp_num() >= 0 {
            Frac { num: 1, den: 1 }
        } else {
            Frac { num: (-1) as i64, den: 1 }
        }
    }

    fn sqrt(self) -> (r: Self) {
        proof {
            use_type_invariant(&self);
        }
        if self.num < 0 {
            Frac { num: 0, den: 1 }
        } else {
            proof {
                lemma_den_prod_bound(self.sp_num(), self.sp_den());
            }
            let p = (self.num as i128) * (self.den as i128);
            let root = isqrt_i128(p);
            Frac::make(root, self.den as i128)
        }
    }

    fn signum(self) -> (r: Self) {
        if self.num >= 0 {
            Frac { num: 1, den: 1 }
        } else {
            Frac { num: -1, den: 1 }
        }
    }
}


impl TextScalar for Frac {
    /// The numerator's decimal text, then `/` and the denominator's when
    /// the denominator is not one.
    closed spec fn sp_text(self) -> Seq<u8> {
        sp_int_text(self.sp_num()) + (if self.sp_den() == 1 {
            Seq::<u8>::empty()
        } else {
            seq![47u8] + sp_int_text(self.sp_den())
        })
    }

    /// An optional `/` splits numerator and denominator; both parse as
    /// decimal integers, and the pair is brought to a positive denominator.
    closed spec fn sp_from_text(t: Seq<u8>) -> Option<Frac> {
        match sp_find(t, 47, 0) {
            Option::None => match sp_parse_i64(t) {
                Option::Some(v) => Some(Frac::sp_new(v, 1)),
                Option::None => None,
            },
            Option::Some(k) => match (sp_parse_i64(t.take(k)), sp_parse_i64(t.skip(k + 1))) {
                (Option::Some(n), Option::Some(d)) => Some(Frac::sp_new(n, d)),
                _ => None,
            },
        }
    }

    fn to_text(&self) -> (r: Vec<u8>) {
        proof {
            use_type_invariant(self);
        }
        let mut out: Vec<u8> = Vec::new();
        push_int_text(&mut out, self.num);
        if self.den != 1 {
            out.push(47);
            push_int_text(&mut out, self.den);
        }
        proof {
            assert(out@ =~= self.sp_text());
        }
        out
    }

    fn from_text(t: &[u8]) -> (r: Option<Self>) {
        let n = t.len();
        let mut k: usize = 0;
        while k < n && t[k] != 47
            invariant
                0 <= k <= n,
                n == t@.len(),
                sp_find(t@, 47, 0) == sp_find(t@, 47, k as int),
            decreases n - k,
        {
            k = k + 1;
        }
        if k >= n {
            match parse_i64(t) {
                Some(v) => Some(Frac::new(v, 1)),
                None => None,
            }
        } else {
            let a = slice_subrange(t, 0, k);
            let b = slice_subrange(t, k + 1, n);
            proof {
                assert(a@ =~= t@.take(k as int));
                assert(b@ =~= t@.skip(k + 1 as int));
            }
            match parse_i64(a) {
                None => None,
                Some(nv) => match parse_i64(b) {
                    None => None,
                    Some(dv) => Some(Frac::new(nv, dv)),
                },
            }
        }
    }

    proof fn law_text_no_separators(x: Self) {
        lemma_int_text_chars(x.sp_num());
        lemma_int_text_chars(x.sp_den());
    }

    proof fn law_text_roundtrip(x: Self) {
        let t = x.sp_text();
        lemma_int_text_chars(x.sp_num());
        lemma_int_text_chars(x.sp_den());
        let a = sp_int_text(x.sp_num());
        if x.sp_den() == 1 {
            assert(t =~= a);
            assert(forall|k: int| 0 <= k < t.len() ==> t[k] != 46);
            lemma_truncate_b_no_sep(t, 0, false, 0);
            assert(forall|k: int| 0 <= k < t.len() ==> t[k] != 47);
            lemma_find_none(t, 47, 0);
            lemma_parse_int_text(x.sp_num());
        } else {
            let b = sp_int_text(x.sp_den());
            assert(t =~= a + seq![47u8] + b) by {
                assert(t == a + (seq![47u8] + b));
                assert(a + (seq![47u8] + b) =~= a + seq![47u8] + b);
            }
            assert(forall|k: int| 0 <= k < t.len() ==> t[k] != 46);
            lemma_truncate_b_no_sep(t, 0, false, 0);
            assert(t[a.len() as int] == 47);
            assert(forall|k: int| 0 <= k < a.len() ==> t[k] == a[k] && t[k] != 47);
            lemma_find_at(t, 47, 0, a.len() as int);
            assert(t.take(a.len() as int) =~= a);
            assert(t.skip(a.len() as int + 1) =~= b);
            lemma_parse_int_text(x.sp_num());
            lemma_parse_int_text(x.sp_den());
        }
    }
}

} // verus!
