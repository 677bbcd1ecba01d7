//! The textual byte codec: decimal text for integers, the delimited
//! encodings of vectors and matrices, and the byte-level split that decoding
//! rests on.

use vstd::prelude::*;
use vstd::slice::slice_subrange;

use crate::common::spec_truncate_b;
use crate::matrix::Matrix;
use crate::model::lemma_rows_view;
use crate::model::sp_cols;
use crate::model::sp_rect;
use crate::scalar::TextScalar;
use crate::vector::Vector;

verus! {

/// The decimal text of a nonnegative integer; most significant digit first.
pub open spec fn sp_nat_text(n: int) -> Seq<u8>
    decreases n,
{
    if n < 0 {
        seq![48u8]
    } else if n < 10 {
        seq![(48 + n) as u8]
    } else {
        sp_nat_text(n / 10) + seq![(48 + n % 10) as u8]
    }
}

/// The decimal text of an integer, with a leading minus sign when negative.
pub open spec fn sp_int_text(n: int) -> Seq<u8> {
    if n < 0 {
        seq![45u8] + sp_nat_text(-n)
    } else {
        sp_nat_text(n)
    }
}

/// Every byte of a nonnegative integer's text is a decimal digit.
pub proof fn lemma_nat_text_digits(n: int)
    ensures
        sp_nat_text(n).len() >= 1,
        forall|k: int|
            0 <= k < sp_nat_text(n).len() ==> 48 <= #[trigger] sp_nat_text(n)[k] <= 57,
    decreases n,
{
    if n < 0 {
    } else if n < 10 {
    } else {
        lemma_nat_text_digits(n / 10);
    }
}

/// Every byte of an integer's text is a decimal digit or the minus sign.
pub proof fn lemma_int_text_chars(n: int)
    ensures
        sp_int_text(n).len() >= 1,
        forall|k: int|
            0 <= k < sp_int_text(n).len() ==> (#[trigger] sp_int_text(n)[k] == 45 || 48
                <= sp_int_text(n)[k] <= 57),
{
    if n < 0 {
        lemma_nat_text_digits(-n);
    } else {
        lemma_nat_text_digits(n);
    }
}

/// Digit accumulation from position `i`: each digit multiplies the
/// accumulator by ten; a non-digit or a value past `limit` fails the parse.
pub open spec fn sp_parse_digits(t: Seq<u8>, i: int, acc: int, limit: int) -> Option<int>
    decreases t.len() - i,
{
    if i < 0 || i >= t.len() {
        Some(acc)
    } else if 48 <= t[i] <= 57 {
        let a2 = acc * 10 + (t[i] - 48);
        if a2 > limit {
            None
        } else {
            sp_parse_digits(t, i + 1, a2, limit)
        }
    } else {
        None
    }
}

/// The value a decimal text stands for: an optional minus sign, then
/// digits; the magnitude must fit a 64-bit signed integer.
pub open spec fn sp_parse_i64(t: Seq<u8>) -> Option<int> {
    if t.len() == 0 {
        None
    } else if t[0] == 45 {
        if t.len() == 1 {
            None
        } else {
            match sp_parse_digits(t, 1, 0, 0x8000_0000_0000_0000) {
                Some(v) => Some(-v),
                None => None,
            }
        }
    } else {
        sp_parse_digits(t, 0, 0, 0x7fff_ffff_ffff_ffff)
    }
}

/// Appending one byte to a digit text extends the accumulation by one step.
proof fn lemma_parse_digits_append(t: Seq<u8>, d: u8, i: int, acc: int, limit: int)
    requires
        0 <= i <= t.len(),
    ensures
        sp_parse_digits(t + seq![d], i, acc, limit) == (match sp_parse_digits(t, i, acc, limit) {
            Option::None => None::<int>,
            Option::Some(a) => if 48 <= d <= 57 {
                if a * 10 + (d - 48) > limit {
                    None::<int>
                } else {
                    Some(a * 10 + (d - 48))
                }
            } else {
                None::<int>
            },
        }),
    decreases t.len() - i,
{
    let te = t + seq![d];
    if i == t.len() {
        assert(te[i] == d);
        if 48 <= d <= 57 {
            let a2 = acc * 10 + (d - 48);
            if a2 <= limit {
                assert(sp_parse_digits(te, i + 1, a2, limit) == Some(a2));
            }
        }
        assert(sp_parse_digits(t, i, acc, limit) == Some(acc));
    } else {
        assert(te[i] == t[i]);
        if 48 <= t[i] <= 57 {
            let a2 = acc * 10 + (t[i] - 48);
            if a2 > limit {
            } else {
                lemma_parse_digits_append(t, d, i + 1, a2, limit);
            }
        }
    }
}

/// Parsing the text of a nonnegative integer within the limit yields it
/// back.
proof fn lemma_parse_nat_text(v: int, limit: int)
    requires
        0 <= v <= limit,
    ensures
        sp_parse_digits(sp_nat_text(v), 0, 0, limit) == Some(v),
    decreases v,
{
    if v < 10 {
        let t = sp_nat_text(v);
        assert(t.len() == 1 && t[0] == 48 + v);
        assert(t[0] - 48 == v);
        assert(0 * 10 + v == v);
        assert(sp_parse_digits(t, 1, v, limit) == Some(v));
    } else {
        lemma_parse_nat_text(v / 10, limit);
        let d = (48 + v % 10) as u8;
        lemma_parse_digits_append(sp_nat_text(v / 10), d, 0, 0, limit);
        assert((v / 10) * 10 + (v % 10) == v) by (nonlinear_arith);
    }
}

/// Digit accumulation ignores a prefix that sits before its start.
proof fn lemma_parse_digits_shift(a: Seq<u8>, s: Seq<u8>, j: int, acc: int, limit: int)
    requires
        j >= 0,
    ensures
        sp_parse_digits(a + s, a.len() + j, acc, limit) == sp_parse_digits(s, j, acc, limit),
    decreases s.len() - j,
{
    let t = a + s;
    let i = a.len() + j;
    if j >= s.len() {
    } else {
        assert(t[i] == s[j]);
        if 48 <= s[j] <= 57 {
            let a2 = acc * 10 + (s[j] - 48);
            if a2 > limit {
            } else {
                lemma_parse_digits_shift(a, s, j + 1, a2, limit);
            }
        }
    }
}

/// Parsing the decimal text of any 64-bit integer yields it back.
pub proof fn lemma_parse_int_text(n: int)
    requires
        -0x8000_0000_0000_0000 <= n <= 0x7fff_ffff_ffff_ffff,
    ensures
        sp_parse_i64(sp_int_text(n)) == Some(n),
{
    if n >= 0 {
        lemma_nat_text_digits(n);
        lemma_parse_nat_text(n, 0x7fff_ffff_ffff_ffff);
        assert(sp_int_text(n)[0] != 45);
    } else {
        lemma_nat_text_digits(-n);
        let t = sp_int_text(n);
        assert(t[0] == 45);
        assert(t.len() >= 2);
        lemma_parse_nat_text(-n, 0x8000_0000_0000_0000);
        lemma_parse_digits_shift(seq![45u8], sp_nat_text(-n), 0, 0, 0x8000_0000_0000_0000);
        assert(seq![45u8] + sp_nat_text(-n) == t);
        assert(seq![45u8].len() + 0 == 1);
        assert(sp_parse_digits(t, 1, 0, 0x8000_0000_0000_0000) == Some(-n));
    }
}

/// Appends the decimal text of a nonnegative value.
pub fn push_nat_text(out: &mut Vec<u8>, n: u64)
    ensures
        final(out)@ == old(out)@ + sp_nat_text(n as int),
    decreases n,
{
    if n < 10 {
        out.push(48 + n as u8);
        proof {
            assert(final(out)@ =~= old(out)@ + sp_nat_text(n as int));
        }
    } else {
        push_nat_text(out, n / 10);
        out.push(48 + (n % 10) as u8);
        proof {
            assert(final(out)@ =~= old(out)@ + sp_nat_text(n as int));
        }
    }
}

/// Appends the decimal text of a signed value.
pub fn push_int_text(out: &mut Vec<u8>, n: i64)
    ensures
        final(out)@ == old(out)@ + sp_int_text(n as int),
{
    if n < 0 {
        out.push(45);
        let m = (-(n as i128)) as u64;
        push_nat_text(out, m);
        proof {
            assert(final(out)@ =~= old(out)@ + sp_int_text(n as int));
        }
    } else {
        push_nat_text(out, n as u64);
    }
}

/// Parses a decimal text into a 64-bit integer.
pub fn parse_i64(t: &[u8]) -> (r: Option<i64>)
    ensures
        match r {
            Some(v) => sp_parse_i64(t@) == Some(v as int),
            None => sp_parse_i64(t@) is None,
        },
{
    let n = t.len();
    if n == 0 {
        return None;
    }
    let neg = t[0] == 45;
    if neg && n == 1 {
        return None;
    }
    let limit: i128 = if neg {
        0x8000_0000_0000_0000
    } else {
        0x7fff_ffff_ffff_ffff
    };
    let start: usize = if neg {
        1
    } else {
        0
    };
    let mut acc: i128 = 0;
    let mut i: usize = start;
    while i < n
        invariant
            start <= i <= n,
            0 <= acc <= limit,
            limit <= 0x8000_0000_0000_0000,
            sp_parse_digits(t@, start as int, 0, limit as int) == sp_parse_digits(
                t@,
                i as int,
                acc as int,
                limit as int,
            ),
        decreases n - i,
    {
        let c = t[i];
        if c < 48 || c > 57 {
            return None;
        }
        let a2 = acc * 10 + ((c - 48) as i128);
        if a2 > limit {
            return None;
        }
        acc = a2;
        i = i + 1;
    }
    if neg {
        Some((-acc) as i64)
    } else {
        Some(acc as i64)
    }
}


/// The first position at or after `i` holding byte `c`.
pub open spec fn sp_find(t: Seq<u8>, c: u8, i: int) -> Option<int>
    decreases t.len() - i,
{
    if i < 0 || i >= t.len() {
        None
    } else if t[i] == c {
        Some(i)
    } else {
        sp_find(t, c, i + 1)
    }
}

/// A byte that occurs nowhere from `i` on is not found.
pub proof fn lemma_find_none(t: Seq<u8>, c: u8, i: int)
    requires
        forall|k: int| i <= k < t.len() ==> t[k] != c,
    ensures
        sp_find(t, c, i) is None,
    decreases t.len() - i,
{
    if i < 0 || i >= t.len() {
    } else {
        lemma_find_none(t, c, i + 1);
    }
}

/// The first occurrence is the one the search returns.
pub proof fn lemma_find_at(t: Seq<u8>, c: u8, i: int, p: int)
    requires
        0 <= i <= p < t.len(),
        t[p] == c,
        forall|k: int| i <= k < p ==> t[k] != c,
    ensures
        sp_find(t, c, i) == Some(p),
    decreases t.len() - i,
{
    if i == p {
    } else {
        lemma_find_at(t, c, i + 1, p);
    }
}

/// What a byte text decodes to: a value, or one of the two decoding
/// failures — a token that is no number, or rows of differing lengths.
pub enum Decoded<V> {
    Value(V),
    BadNumber,
    Ragged,
}

/// The tokens of `t` split on `sep`, walking from `i` with the token built
/// so far and the tokens already cut; an empty text yields one empty token.
pub open spec fn sp_split_loop(
    t: Seq<u8>,
    i: int,
    cur: Seq<u8>,
    acc: Seq<Seq<u8>>,
    sep: u8,
) -> Seq<Seq<u8>>
    decreases t.len() - i,
{
    if i < 0 || i >= t.len() {
        acc.push(cur)
    } else if t[i] == sep {
        sp_split_loop(t, i + 1, Seq::empty(), acc.push(cur), sep)
    } else {
        sp_split_loop(t, i + 1, cur.push(t[i]), acc, sep)
    }
}

/// The tokens of `t` split on `sep`.
pub open spec fn sp_split(t: Seq<u8>, sep: u8) -> Seq<Seq<u8>> {
    sp_split_loop(t, 0, Seq::empty(), Seq::empty(), sep)
}

/// Splits a byte text on a separator.
pub fn split_bytes(t: &[u8], sep: u8) -> (r: Vec<Vec<u8>>)
    ensures
        Seq::new(r@.len(), |k: int| r@[k]@) == sp_split(t@, sep),
{
    let n = t.len();
    let mut acc: Vec<Vec<u8>> = Vec::new();
    let mut cur: Vec<u8> = Vec::new();
    let mut i: usize = 0;
    proof {
        assert(Seq::new(acc@.len(), |k: int| acc@[k]@) =~= Seq::<Seq<u8>>::empty());
    }
    while i < n
        invariant
            0 <= i <= n,
            n == t@.len(),
            sp_split(t@, sep) == sp_split_loop(
                t@,
                i as int,
                cur@,
                Seq::new(acc@.len(), |k: int| acc@[k]@),
                sep,
            ),
        decreases n - i,
    {
        let ghost pre = Seq::new(acc@.len(), |k: int| acc@[k]@);
        let c = t[i];
        if c == sep {
            acc.push(cur);
            cur = Vec::new();
            proof {
                assert(Seq::new(acc@.len(), |k: int| acc@[k]@) =~= pre.push(
                    acc@[acc@.len() - 1]@,
                ));
            }
        } else {
            cur.push(c);
        }
        i = i + 1;
    }
    let ghost pre = Seq::new(acc@.len(), |k: int| acc@[k]@);
    acc.push(cur);
    proof {
        assert(Seq::new(acc@.len(), |k: int| acc@[k]@) =~= pre.push(acc@[acc@.len() - 1]@));
    }
    acc
}

/// The canonical text of one scalar entry: its textual form run through the
/// trailing-zero truncation rule.
pub open spec fn sp_entry_text<T: TextScalar>(x: T) -> Seq<u8> {
    spec_truncate_b(x.sp_text())
}

/// The first `j` entries of a row joined with commas.
pub open spec fn sp_row_text_prefix<T: TextScalar>(row: Seq<T>, j: int) -> Seq<u8>
    decreases j,
{
    if j <= 0 {
        Seq::empty()
    } else if j == 1 {
        sp_entry_text(row[0])
    } else {
        sp_row_text_prefix(row, j - 1) + seq![44u8] + sp_entry_text(row[j - 1])
    }
}

/// A row of entries joined with commas.
pub open spec fn sp_row_text<T: TextScalar>(row: Seq<T>) -> Seq<u8> {
    sp_row_text_prefix(row, row.len() as int)
}

/// The first `i` rows of a table joined with semicolons.
pub open spec fn sp_mat_text_prefix<T: TextScalar>(m: Seq<Seq<T>>, i: int) -> Seq<u8>
    decreases i,
{
    if i <= 0 {
        Seq::empty()
    } else if i == 1 {
        sp_row_text(m[0])
    } else {
        sp_mat_text_prefix(m, i - 1) + seq![59u8] + sp_row_text(m[i - 1])
    }
}

/// A table of rows joined with semicolons.
pub open spec fn sp_mat_text<T: TextScalar>(m: Seq<Seq<T>>) -> Seq<u8> {
    sp_mat_text_prefix(m, m.len() as int)
}

/// The entries a row of tokens stands for, from token `j` on; a token that
/// does not parse fails the row.
pub open spec fn sp_parse_row<T: TextScalar>(toks: Seq<Seq<u8>>, j: int, acc: Seq<T>) -> Option<
    Seq<T>,
>
    decreases toks.len() - j,
{
    if j < 0 || j >= toks.len() {
        Some(acc)
    } else {
        match T::sp_from_text(toks[j]) {
            Option::Some(x) => sp_parse_row(toks, j + 1, acc.push(x)),
            Option::None => None,
        }
    }
}

/// The table a sequence of row tokens stands for, from row `i` on: each row
/// splits on commas and parses, and every row must be as long as the first.
pub open spec fn sp_decode_rows<T: TextScalar>(
    rts: Seq<Seq<u8>>,
    i: int,
    rlen: int,
    acc: Seq<Seq<T>>,
) -> Decoded<Seq<Seq<T>>>
    decreases rts.len() - i,
{
    if i < 0 || i >= rts.len() {
        Decoded::Value(acc)
    } else {
        match sp_parse_row::<T>(sp_split(rts[i], 44), 0, Seq::empty()) {
            Option::None => Decoded::BadNumber,
            Option::Some(row) => if i > 0 && row.len() != rlen {
                Decoded::Ragged
            } else {
                sp_decode_rows(rts, i + 1, row.len() as int, acc.push(row))
            },
        }
    }
}

/// What a matrix text decodes to.
pub open spec fn sp_mat_decode<T: TextScalar>(b: Seq<u8>) -> Decoded<Seq<Seq<T>>> {
    sp_decode_rows(sp_split(b, 59), 0, 0, Seq::empty())
}

/// What a vector text decodes to.
pub open spec fn sp_vec_decode<T: TextScalar>(b: Seq<u8>) -> Decoded<Seq<T>> {
    match sp_parse_row::<T>(sp_split(b, 44), 0, Seq::empty()) {
        Option::Some(row) => Decoded::Value(row),
        Option::None => Decoded::BadNumber,
    }
}

/// A value with a delimited textual byte encoding.
pub trait Convertable: View + Sized {
    /// The encoded bytes.
    spec fn sp_to_bytes(self) -> Seq<u8>;

    /// The value a byte text stands for, when it decodes.
    spec fn sp_decoded(b: Seq<u8>) -> Option<Self::V>;

    /// The message reported when a byte text does not decode.
    spec fn sp_decode_err(b: Seq<u8>) -> Seq<char>;

    fn to_bytes(&self) -> (r: Vec<u8>)
        ensures
            r@ == self.sp_to_bytes(),
    ;

    fn from_bytes(b: &[u8]) -> (r: Result<Self, String>)
        ensures
            (r is Ok) == (Self::sp_decoded(b@) is Some),
            r matches Ok(v) ==> v@ == Self::sp_decoded(b@)->Some_0,
            r matches Err(e) ==> e@ == Self::sp_decode_err(b@),
    ;
}


impl<T: TextScalar> Convertable for Matrix<T> {
    /// Rows joined by `;`, entries joined by `,`, each entry truncated.
    open spec fn sp_to_bytes(self) -> Seq<u8> {
        sp_mat_text(self@)
    }

    open spec fn sp_decoded(b: Seq<u8>) -> Option<Seq<Seq<T>>> {
        match sp_mat_decode::<T>(b) {
            Decoded::Value(s) => Some(s),
            _ => None,
        }
    }

    open spec fn sp_decode_err(b: Seq<u8>) -> Seq<char> {
        match sp_mat_decode::<T>(b) {
            Decoded::Ragged => "Non-rectangular matrix"@,
            _ => "Unable to parse number in matrix"@,
        }
    }

    fn to_bytes(&self) -> (r: Vec<u8>) {
        broadcast use lemma_rows_view;

        let mut out: Vec<u8> = Vec::new();
        let n = self.rows.len();
        let mut i: usize = 0;
        while i < n
            invariant
                0 <= i <= n,
                n == self@.len(),
                out@ == sp_mat_text_prefix(self@, i as int),
            decreases n - i,
        {
            let ghost head = sp_mat_text_prefix(self@, i as int) + (if i > 0 {
                seq![59u8]
            } else {
                Seq::<u8>::empty()
            });
            if i > 0 {
                out.push(59);
            }
            proof {
                assert(out@ =~= head + sp_row_text_prefix(self@[i as int], 0));
            }
            let cols = self.rows[i].len();
            let mut j: usize = 0;
            while j < cols
                invariant
                    0 <= j <= cols,
                    i < n,
                    n == self@.len(),
                    cols == self@[i as int].len(),
                    out@ == head + sp_row_text_prefix(self@[i as int], j as int),
                decreases cols - j,
            {
                if j > 0 {
                    out.push(44);
                }
                let e = self.rows[i][j].to_text();
                let mut te = crate::common::truncate_zeroes_bytes(e);
                out.append(&mut te);
                proof {
                    assert(out@ =~= head + sp_row_text_prefix(self@[i as int], j + 1));
                }
                j = j + 1;
            }
            proof {
                assert(out@ == head + sp_row_text(self@[i as int]));
                assert(out@ =~= sp_mat_text_prefix(self@, i + 1));
            }
            i = i + 1;
        }
        out
    }

    fn from_bytes(b: &[u8]) -> (r: Result<Self, String>) {
        let row_toks = split_bytes(b, 59);
        let ghost rts = sp_split(b@, 59);
        let nr = row_toks.len();
        let mut rows: Vec<Vec<T>> = Vec::new();
        let mut rlen: usize = 0;
        let mut i: usize = 0;
        proof {
            assert(Seq::new(rows@.len(), |k: int| rows@[k]@) =~= Seq::<Seq<T>>::empty());
        }
        while i < nr
            invariant
                0 <= i <= nr,
                nr == rts.len(),
                row_toks@.len() == nr,
                Seq::new(row_toks@.len(), |k: int| row_toks@[k]@) == rts,
                rows@.len() == i,
                sp_mat_decode::<T>(b@) == sp_decode_rows::<T>(
                    rts,
                    i as int,
                    rlen as int,
                    Seq::new(rows@.len(), |k: int| rows@[k]@),
                ),
            decreases nr - i,
        {
            proof {
                assert(row_toks@[i as int]@ == rts[i as int]);
            }
            let toks = split_bytes(row_toks[i].as_slice(), 44);
            let ghost tks = sp_split(rts[i as int], 44);
            let nt = toks.len();
            let mut row: Vec<T> = Vec::new();
            let mut j: usize = 0;
            proof {
                assert(row@ =~= Seq::<T>::empty());
            }
            while j < nt
                invariant
                    0 <= j <= nt,
                    nt == tks.len(),
                    toks@.len() == nt,
                    Seq::new(toks@.len(), |k: int| toks@[k]@) == tks,
                    row@.len() == j,
                    sp_parse_row::<T>(tks, 0, Seq::empty()) == sp_parse_row::<T>(
                        tks,
                        j as int,
                        row@,
                    ),
                decreases nt - j,
            {
                proof {
                    assert(toks@[j as int]@ == tks[j as int]);
                }
                match T::from_text(toks[j].as_slice()) {
                    Some(x) => {
                        row.push(x);
                    },
                    None => {
                        return Err("Unable to parse number in matrix".to_owned());
                    },
                }
                j = j + 1;
            }
            let ghost pre_rows = Seq::new(rows@.len(), |k: int| rows@[k]@);
            if i == 0 {
                rlen = row.len();
            } else if row.len() != rlen {
                return Err("Non-rectangular matrix".to_owned());
            }
            rows.push(row);
            proof {
                assert(Seq::new(rows@.len(), |k: int| rows@[k]@) =~= pre_rows.push(
                    rows@[rows@.len() - 1]@,
                ));
            }
            i = i + 1;
        }
        let m = Matrix { rows };
        proof {
            assert(m@ =~= Seq::new(m.rows@.len(), |k: int| m.rows@[k]@));
        }
        Ok(m)
    }
}

impl<T: TextScalar> Convertable for Vector<T> {
    /// Entries joined by `,`, each entry truncated.
    open spec fn sp_to_bytes(self) -> Seq<u8> {
        sp_row_text(self@)
    }

    open spec fn sp_decoded(b: Seq<u8>) -> Option<Seq<T>> {
        match sp_vec_decode::<T>(b) {
            Decoded::Value(s) => Some(s),
            _ => None,
        }
    }

    open spec fn sp_decode_err(b: Seq<u8>) -> Seq<char> {
        "Unable to parse number in vector"@
    }

    fn to_bytes(&self) -> (r: Vec<u8>) {
        let mut out: Vec<u8> = Vec::new();
        let n = self.entries.len();
        let mut j: usize = 0;
        while j < n
            invariant
                0 <= j <= n,
                n == self@.len(),
                out@ == sp_row_text_prefix(self@, j as int),
            decreases n - j,
        {
            if j > 0 {
                out.push(44);
            }
            let e = self.entries[j].to_text();
            let mut te = crate::common::truncate_zeroes_bytes(e);
            out.append(&mut te);
            proof {
                assert(out@ =~= sp_row_text_prefix(self@, j + 1));
            }
            j = j + 1;
        }
        out
    }

    fn from_bytes(b: &[u8]) -> (r: Result<Self, String>) {
        let toks = split_bytes(b, 44);
        let ghost tks = sp_split(b@, 44);
        let nt = toks.len();
        let mut entries: Vec<T> = Vec::new();
        let mut j: usize = 0;
        proof {
            assert(entries@ =~= Seq::<T>::empty());
        }
        while j < nt
            invariant
                0 <= j <= nt,
                nt == tks.len(),
                toks@.len() == nt,
                Seq::new(toks@.len(), |k: int| toks@[k]@) == tks,
                entries@.len() == j,
                sp_parse_row::<T>(tks, 0, Seq::empty()) == sp_parse_row::<T>(
                    tks,
                    j as int,
                    entries@,
                ),
            decreases nt - j,
        {
            proof {
                assert(toks@[j as int]@ == tks[j as int]);
            }
            match T::from_text(toks[j].as_slice()) {
                Some(x) => {
                    entries.push(x);
                },
                None => {
                    return Err("Unable to parse number in vector".to_owned());
                },
            }
            j = j + 1;
        }
        Ok(Vector { entries })
    }
}

impl Convertable for i64 {
    /// The decimal text of the value.
    open spec fn sp_to_bytes(self) -> Seq<u8> {
        sp_int_text(self as int)
    }

    open spec fn sp_decoded(b: Seq<u8>) -> Option<i64> {
        match sp_parse_i64(b) {
            Option::Some(v) => Some(v as i64),
            Option::None => None,
        }
    }

    open spec fn sp_decode_err(b: Seq<u8>) -> Seq<char> {
        "Unable to parse integer"@
    }

    fn to_bytes(&self) -> (r: Vec<u8>) {
        let mut out: Vec<u8> = Vec::new();
        push_int_text(&mut out, *self);
        out
    }

    fn from_bytes(b: &[u8]) -> (r: Result<Self, String>) {
        match parse_i64(b) {
            Some(v) => Ok(v),
            None => Err("Unable to parse integer".to_owned()),
        }
    }
}

/// The value an unsigned decimal text stands for, bounded by `usize`.
pub open spec fn sp_parse_usize(t: Seq<u8>) -> Option<int> {
    if t.len() == 0 {
        None
    } else {
        sp_parse_digits(t, 0, 0, usize::MAX as int)
    }
}

/// Parses an unsigned decimal text into a `usize`.
pub fn parse_usize(t: &[u8]) -> (r: Option<usize>)
    ensures
        match r {
            Some(v) => sp_parse_usize(t@) == Some(v as int),
            None => sp_parse_usize(t@) is None,
        },
{
    let n = t.len();
    if n == 0 {
        return None;
    }
    let limit: u128 = usize::MAX as u128;
    let mut acc: u128 = 0;
    let mut i: usize = 0;
    while i < n
        invariant
            0 <= i <= n,
            acc <= limit,
            limit == usize::MAX as u128,
            sp_parse_digits(t@, 0, 0, limit as int) == sp_parse_digits(
                t@,
                i as int,
                acc as int,
                limit as int,
            ),
        decreases n - i,
    {
        let c = t[i];
        if c < 48 || c > 57 {
            return None;
        }
        let a2 = acc * 10 + ((c - 48) as u128);
        if a2 > limit {
            return None;
        }
        acc = a2;
        i = i + 1;
    }
    Some(acc as usize)
}

impl Convertable for usize {
    /// The decimal text of the value.
    open spec fn sp_to_bytes(self) -> Seq<u8> {
        sp_nat_text(self as int)
    }

    open spec fn sp_decoded(b: Seq<u8>) -> Option<usize> {
        match sp_parse_usize(b) {
            Option::Some(v) => Some(v as usize),
            Option::None => None,
        }
    }

    open spec fn sp_decode_err(b: Seq<u8>) -> Seq<char> {
        "Unable to parse integer"@
    }

    fn to_bytes(&self) -> (r: Vec<u8>) {
        let mut out: Vec<u8> = Vec::new();
        push_nat_text(&mut out, *self as u64);
        out
    }

    fn from_bytes(b: &[u8]) -> (r: Result<Self, String>) {
        match parse_usize(b) {
            Some(v) => Ok(v),
            None => Err("Unable to parse integer".to_owned()),
        }
    }
}


/// Splitting a text without the separator yields one token: everything left.
proof fn lemma_split_nosep(t: Seq<u8>, i: int, cur: Seq<u8>, acc: Seq<Seq<u8>>, sep: u8)
    requires
        0 <= i <= t.len(),
        forall|k: int| i <= k < t.len() ==> t[k] != sep,
    ensures
        sp_split_loop(t, i, cur, acc, sep) == acc.push(cur + t.skip(i)),
    decreases t.len() - i,
{
    if i >= t.len() {
        assert(cur + t.skip(i) =~= cur);
    } else {
        lemma_split_nosep(t, i + 1, cur.push(t[i]), acc, sep);
        assert(cur.push(t[i]) + t.skip(i + 1) =~= cur + t.skip(i));
    }
}

/// Splitting ignores a prefix that sits before its position.
proof fn lemma_split_shift(a: Seq<u8>, s: Seq<u8>, j: int, cur: Seq<u8>, acc: Seq<Seq<u8>>, sep: u8)
    requires
        j >= 0,
    ensures
        sp_split_loop(a + s, a.len() + j, cur, acc, sep) == sp_split_loop(s, j, cur, acc, sep),
    decreases s.len() - j,
{
    let t = a + s;
    let i = a.len() + j;
    if j >= s.len() {
    } else {
        assert(t[i] == s[j]);
        if s[j] == sep {
            lemma_split_shift(a, s, j + 1, Seq::empty(), acc.push(cur), sep);
        } else {
            lemma_split_shift(a, s, j + 1, cur.push(s[j]), acc, sep);
        }
    }
}

/// A separator between two texts splits them independently.
proof fn lemma_split_concat(
    a: Seq<u8>,
    b: Seq<u8>,
    i: int,
    cur: Seq<u8>,
    acc: Seq<Seq<u8>>,
    sep: u8,
)
    requires
        0 <= i <= a.len(),
    ensures
        sp_split_loop(a + seq![sep] + b, i, cur, acc, sep) == sp_split_loop(
            b,
            0,
            Seq::empty(),
            sp_split_loop(a, i, cur, acc, sep),
            sep,
        ),
    decreases a.len() - i,
{
    let t = a + seq![sep] + b;
    if i == a.len() {
        assert(t[i] == sep);
        assert((a + seq![sep]) + b =~= t);
        lemma_split_shift(a + seq![sep], b, 0, Seq::empty(), acc.push(cur), sep);
        assert(sp_split_loop(a, i, cur, acc, sep) == acc.push(cur));
    } else {
        assert(t[i] == a[i]);
        if a[i] == sep {
            lemma_split_concat(a, b, i + 1, Seq::empty(), acc.push(cur), sep);
        } else {
            lemma_split_concat(a, b, i + 1, cur.push(a[i]), acc, sep);
        }
    }
}

/// A truncated canonical entry text still holds no separators.
proof fn lemma_entry_text_chars<T: TextScalar>(x: T)
    requires
        x.sp_wf(),
    ensures
        forall|k: int|
            0 <= k < sp_entry_text(x).len() ==> sp_entry_text(x)[k] != 44 && sp_entry_text(x)[k]
                != 59,
{
    T::law_text_no_separators(x);
    crate::common::lemma_truncate_b_prefix(x.sp_text(), 0, false, false, 0);
    let e = sp_entry_text(x);
    assert forall|k: int| 0 <= k < e.len() implies e[k] != 44 && e[k] != 59 by {
        assert(e[k] == x.sp_text()[k]);
    }
}

/// A joined row of entry texts holds no row separator.
proof fn lemma_row_text_chars<T: TextScalar>(row: Seq<T>, j: int)
    requires
        forall|q: int| 0 <= q < row.len() ==> (#[trigger] row[q]).sp_wf(),
        j <= row.len(),
    ensures
        forall|k: int|
            0 <= k < sp_row_text_prefix(row, j).len() ==> sp_row_text_prefix(row, j)[k] != 59,
    decreases j,
{
    if j <= 0 {
    } else if j == 1 {
        lemma_entry_text_chars(row[0]);
    } else {
        lemma_row_text_chars(row, j - 1);
        lemma_entry_text_chars(row[j - 1]);
        let a = sp_row_text_prefix(row, j - 1);
        let e = sp_entry_text(row[j - 1]);
        let t = sp_row_text_prefix(row, j);
        assert forall|k: int| 0 <= k < t.len() implies t[k] != 59 by {
            if k < a.len() {
                assert(t[k] == a[k]);
            } else if k == a.len() {
                assert(t[k] == 44);
            } else {
                assert(t[k] == e[k - a.len() - 1]);
            }
        }
    }
}

/// Splitting a joined row on commas recovers the entry texts.
proof fn lemma_split_row<T2: TextScalar>(row: Seq<T2>, k: int)
    requires
        1 <= k <= row.len(),
        forall|q: int| 0 <= q < row.len() ==> (#[trigger] row[q]).sp_wf(),
    ensures
        sp_split(sp_row_text_prefix(row, k), 44) == Seq::new(
            k as nat,
            |j: int| sp_entry_text(row[j]),
        ),
    decreases k,
{
    if k == 1 {
        lemma_entry_text_chars(row[0]);
        lemma_split_nosep(sp_entry_text(row[0]), 0, Seq::empty(), Seq::empty(), 44);
        assert(Seq::empty().push(Seq::empty() + sp_entry_text(row[0]).skip(0)) =~~= Seq::new(
            1nat,
            |j: int| sp_entry_text(row[j]),
        ));
    } else {
        lemma_split_row(row, k - 1);
        let a = sp_row_text_prefix(row, k - 1);
        let e = sp_entry_text(row[k - 1]);
        assert(sp_row_text_prefix(row, k) =~= a + seq![44u8] + e) by {
            assert(sp_row_text_prefix(row, k) == a + seq![44u8] + e);
        }
        lemma_split_concat(a, e, 0, Seq::empty(), Seq::empty(), 44);
        lemma_entry_text_chars(row[k - 1]);
        lemma_split_nosep(e, 0, Seq::empty(), sp_split(a, 44), 44);
        assert(sp_split(a, 44).push(Seq::empty() + e.skip(0)) =~~= Seq::new(
            k as nat,
            |j: int| sp_entry_text(row[j]),
        ));
    }
}

/// Splitting a joined table on semicolons recovers the row texts.
proof fn lemma_split_mat<T2: TextScalar>(m: Seq<Seq<T2>>, k: int)
    requires
        1 <= k <= m.len(),
        forall|i: int, j: int|
            0 <= i < m.len() && 0 <= j < m[i].len() ==> (#[trigger] m[i][j]).sp_wf(),
    ensures
        sp_split(sp_mat_text_prefix(m, k), 59) == Seq::new(k as nat, |i: int| sp_row_text(m[i])),
    decreases k,
{
    if k == 1 {
        lemma_row_text_chars(m[0], m[0].len() as int);
        lemma_split_nosep(sp_row_text(m[0]), 0, Seq::empty(), Seq::empty(), 59);
        assert(Seq::empty().push(Seq::empty() + sp_row_text(m[0]).skip(0)) =~~= Seq::new(
            1nat,
            |i: int| sp_row_text(m[i]),
        ));
    } else {
        lemma_split_mat(m, k - 1);
        let a = sp_mat_text_prefix(m, k - 1);
        let r = sp_row_text(m[k - 1]);
        assert(sp_mat_text_prefix(m, k) =~= a + seq![59u8] + r) by {
            assert(sp_mat_text_prefix(m, k) == a + seq![59u8] + r);
        }
        lemma_split_concat(a, r, 0, Seq::empty(), Seq::empty(), 59);
        lemma_row_text_chars(m[k - 1], m[k - 1].len() as int);
        lemma_split_nosep(r, 0, Seq::empty(), sp_split(a, 59), 59);
        assert(sp_split(a, 59).push(Seq::empty() + r.skip(0)) =~~= Seq::new(
            k as nat,
            |i: int| sp_row_text(m[i]),
        ));
    }
}

/// Parsing the entry texts of a row yields the row back.
proof fn lemma_parse_row_roundtrip<T2: TextScalar>(row: Seq<T2>, j: int, acc: Seq<T2>)
    requires
        0 <= j <= row.len(),
        forall|q: int| 0 <= q < row.len() ==> (#[trigger] row[q]).sp_wf(),
    ensures
        sp_parse_row::<T2>(Seq::new(row.len(), |q: int| sp_entry_text(row[q])), j, acc) == Some(
            acc + row.skip(j),
        ),
    decreases row.len() - j,
{
    let toks = Seq::new(row.len(), |q: int| sp_entry_text(row[q]));
    if j >= row.len() {
        assert(acc + row.skip(j) =~= acc);
    } else {
        T2::law_text_roundtrip(row[j]);
        assert(T2::sp_from_text(toks[j]) == Some(row[j]));
        lemma_parse_row_roundtrip(row, j + 1, acc.push(row[j]));
        assert(acc.push(row[j]) + row.skip(j + 1) =~= acc + row.skip(j));
    }
}

/// Decoding the encoded rows yields the table back.
proof fn lemma_decode_rows_roundtrip<T2: TextScalar>(m: Seq<Seq<T2>>, i: int, acc: Seq<Seq<T2>>, rlen: int)
    requires
        0 <= i <= m.len(),
        m.len() >= 1,
        sp_cols(m) >= 1,
        sp_rect(m),
        forall|p: int, q: int|
            0 <= p < m.len() && 0 <= q < m[p].len() ==> (#[trigger] m[p][q]).sp_wf(),
        i > 0 ==> rlen == sp_cols(m),
    ensures
        sp_decode_rows::<T2>(
            Seq::new(m.len(), |p: int| sp_row_text(m[p])),
            i,
            rlen,
            acc,
        ) == Decoded::<Seq<Seq<T2>>>::Value(acc + m.skip(i)),
    decreases m.len() - i,
{
    let rts = Seq::new(m.len(), |p: int| sp_row_text(m[p]));
    if i >= m.len() {
        assert(acc + m.skip(i) =~= acc);
    } else {
        assert(m[i].len() == sp_cols(m));
        lemma_split_row(m[i], m[i].len() as int);
        assert(sp_row_text_prefix(m[i], m[i].len() as int) == sp_row_text(m[i]));
        lemma_parse_row_roundtrip(m[i], 0, Seq::empty());
        assert(Seq::empty() + m[i].skip(0) =~= m[i]);
        lemma_decode_rows_roundtrip(m, i + 1, acc.push(m[i]), m[i].len() as int);
        assert(acc.push(m[i]) + m.skip(i + 1) =~= acc + m.skip(i));
    }
}

/// Decoding the encoding of a rectangular matrix of well-formed entries
/// yields an equal matrix: the byte codec's round trip. A matrix without
/// rows, or without columns, is left out: its encoding is the empty text,
/// which decodes to a parse failure.
pub proof fn lemma_codec_roundtrip_matrix<T2: TextScalar>(m: Seq<Seq<T2>>)
    requires
        m.len() >= 1,
        sp_cols(m) >= 1,
        sp_rect(m),
        forall|p: int, q: int|
            0 <= p < m.len() && 0 <= q < m[p].len() ==> (#[trigger] m[p][q]).sp_wf(),
    ensures
        sp_mat_decode::<T2>(sp_mat_text(m)) == Decoded::<Seq<Seq<T2>>>::Value(m),
{
    lemma_split_mat(m, m.len() as int);
    lemma_decode_rows_roundtrip(m, 0, Seq::empty(), 0);
    assert(Seq::empty() + m.skip(0) =~= m);
}

/// Decoding the encoding of a nonempty vector of well-formed entries yields
/// an equal vector.
pub proof fn lemma_codec_roundtrip_vector<T2: TextScalar>(v: Seq<T2>)
    requires
        v.len() >= 1,
        forall|q: int| 0 <= q < v.len() ==> (#[trigger] v[q]).sp_wf(),
    ensures
        sp_vec_decode::<T2>(sp_row_text(v)) == Decoded::<Seq<T2>>::Value(v),
{
    lemma_split_row(v, v.len() as int);
    lemma_parse_row_roundtrip(v, 0, Seq::empty());
    assert(Seq::empty() + v.skip(0) =~= v);
}

} // verus!



