//! Shared helpers: the trailing-zero truncation rule for scalar text and a
//! small factorial used by the truncated matrix exponential.

use vstd::prelude::*;

verus! {

/// One nonzero decimal digit.
pub open spec fn nonzero_digit(c: char) -> bool {
    c == '1' || c == '2' || c == '3' || c == '4' || c == '5' || c == '6' || c == '7' || c == '8'
        || c == '9'
}

/// The truncation rule, walking the text from position `i` with the state so
/// far: whether a decimal separator was seen, whether a nonzero digit was
/// seen, and the length of the current run of `'0'` characters. Once both a
/// separator and a nonzero digit have appeared, a run of ten `'0'` characters
/// cuts the text right after that run; a nonzero digit or any other character
/// resets the run.
pub open spec fn truncate_from(
    s: Seq<char>,
    i: int,
    sep_found: bool,
    nonzero_found: bool,
    zeroes: int,
) -> Seq<char>
    decreases s.len() - i,
{
    if i < 0 || i >= s.len() {
        s
    } else {
        let c = s[i];
        if c == '.' {
            truncate_from(s, i + 1, true, nonzero_found, zeroes)
        } else if nonzero_digit(c) {
            truncate_from(s, i + 1, sep_found, true, 0)
        } else if sep_found && nonzero_found && c == '0' {
            if zeroes + 1 == 10 {
                s.subrange(0, i + 1)
            } else {
                truncate_from(s, i + 1, sep_found, nonzero_found, zeroes + 1)
            }
        } else {
            truncate_from(s, i + 1, sep_found, nonzero_found, 0)
        }
    }
}

/// What `truncate_zeroes` returns: the text, cut after the first run of ten
/// `'0'` characters that follows a decimal separator and a nonzero digit.
pub open spec fn spec_truncate(s: Seq<char>) -> Seq<char> {
    truncate_from(s, 0, false, false, 0)
}

fn is_nonzero_digit(c: char) -> (r: bool)
    ensures
        r == nonzero_digit(c),
{
    c == '1' || c == '2' || c == '3' || c == '4' || c == '5' || c == '6' || c == '7' || c == '8'
        || c == '9'
}

/// Cuts a scalar's canonical text after a run of ten `'0'` characters, once a
/// decimal separator and a nonzero digit have both appeared; this bounds the
/// textual noise of binary floating-point values.
pub fn truncate_zeroes(num_str: String) -> (r: String)
    ensures
        r@ == spec_truncate(num_str@),
{
    let n: usize = num_str.as_str().unicode_len();
    let mut sep_found: bool = false;
    let mut nonzero_found: bool = false;
    let mut zeroes: usize = 0;
    let mut i: usize = 0;
    while i < n
        invariant
            0 <= i <= n,
            n == num_str@.len(),
            zeroes <= 9,
            spec_truncate(num_str@) == truncate_from(
                num_str@,
                i as int,
                sep_found,
                nonzero_found,
                zeroes as int,
            ),
        decreases n - i,
    {
        let c = num_str.as_str().get_char(i);
        if c == '.' {
            sep_found = true;
        } else if is_nonzero_digit(c) {
            nonzero_found = true;
            zeroes = 0;
        } else if sep_found && nonzero_found && c == '0' {
            zeroes = zeroes + 1;
            if zeroes == 10 {
                let pre = num_str.as_str().substring_char(0, i + 1);
                return pre.to_owned();
            }
        } else {
            zeroes = 0;
        }
        i = i + 1;
    }
    num_str
}


/// One nonzero decimal digit, as a byte.
pub open spec fn nonzero_digit_b(c: u8) -> bool {
    49 <= c <= 57
}

/// The truncation rule over bytes, walking from position `i` with the state
/// so far; the same rule as `truncate_from`, applied to a byte encoding.
pub open spec fn truncate_from_b(
    s: Seq<u8>,
    i: int,
    sep_found: bool,
    nonzero_found: bool,
    zeroes: int,
) -> Seq<u8>
    decreases s.len() - i,
{
    if i < 0 || i >= s.len() {
        s
    } else {
        let c = s[i];
        if c == 46 {
            truncate_from_b(s, i + 1, true, nonzero_found, zeroes)
        } else if nonzero_digit_b(c) {
            truncate_from_b(s, i + 1, sep_found, true, 0)
        } else if sep_found && nonzero_found && c == 48 {
            if zeroes + 1 == 10 {
                s.subrange(0, i + 1)
            } else {
                truncate_from_b(s, i + 1, sep_found, nonzero_found, zeroes + 1)
            }
        } else {
            truncate_from_b(s, i + 1, sep_found, nonzero_found, 0)
        }
    }
}

/// What `truncate_zeroes_bytes` returns.
pub open spec fn spec_truncate_b(s: Seq<u8>) -> Seq<u8> {
    truncate_from_b(s, 0, false, false, 0)
}

/// A text without a decimal separator is left untouched by the truncation
/// rule.
pub proof fn lemma_truncate_b_no_sep(s: Seq<u8>, i: int, nonzero_found: bool, zeroes: int)
    requires
        forall|k: int| 0 <= k < s.len() ==> s[k] != 46,
    ensures
        truncate_from_b(s, i, false, nonzero_found, zeroes) == s,
    decreases s.len() - i,
{
    if i < 0 || i >= s.len() {
    } else {
        let c = s[i];
        if nonzero_digit_b(c) {
            lemma_truncate_b_no_sep(s, i + 1, true, 0);
        } else {
            lemma_truncate_b_no_sep(s, i + 1, nonzero_found, 0);
        }
    }
}

/// The truncation only ever cuts: its result is a prefix of the input.
pub proof fn lemma_truncate_b_prefix(s: Seq<u8>, i: int, sep: bool, nonzero: bool, zeroes: int)
    ensures
        truncate_from_b(s, i, sep, nonzero, zeroes).len() <= s.len(),
        truncate_from_b(s, i, sep, nonzero, zeroes) == s.subrange(
            0,
            truncate_from_b(s, i, sep, nonzero, zeroes).len() as int,
        ),
    decreases s.len() - i,
{
    if i < 0 || i >= s.len() {
        assert(s.subrange(0, s.len() as int) =~= s);
    } else {
        let c = s[i];
        if c == 46 {
            lemma_truncate_b_prefix(s, i + 1, true, nonzero, zeroes);
        } else if nonzero_digit_b(c) {
            lemma_truncate_b_prefix(s, i + 1, sep, true, 0);
        } else if sep && nonzero && c == 48 {
            if zeroes + 1 == 10 {
                let r = s.subrange(0, i + 1);
                assert(r == s.subrange(0, r.len() as int));
            } else {
                lemma_truncate_b_prefix(s, i + 1, sep, nonzero, zeroes + 1);
            }
        } else {
            lemma_truncate_b_prefix(s, i + 1, sep, nonzero, 0);
        }
    }
}

fn is_nonzero_digit_b(c: u8) -> (r: bool)
    ensures
        r == nonzero_digit_b(c),
{
    49 <= c && c <= 57
}

/// The truncation rule applied to a byte text; the codec runs every encoded
/// scalar through it.
pub fn truncate_zeroes_bytes(data: Vec<u8>) -> (r: Vec<u8>)
    ensures
        r@ == spec_truncate_b(data@),
{
    let n = data.len();
    let mut sep_found: bool = false;
    let mut nonzero_found: bool = false;
    let mut zeroes: usize = 0;
    let mut i: usize = 0;
    while i < n
        invariant
            0 <= i <= n,
            n == data@.len(),
            zeroes <= 9,
            spec_truncate_b(data@) == truncate_from_b(
                data@,
                i as int,
                sep_found,
                nonzero_found,
                zeroes as int,
            ),
        decreases n - i,
    {
        let c = data[i];
        if c == 46 {
            sep_found = true;
        } else if is_nonzero_digit_b(c) {
            nonzero_found = true;
            zeroes = 0;
        } else if sep_found && nonzero_found && c == 48 {
            zeroes = zeroes + 1;
            if zeroes == 10 {
                let mut cut = data;
                cut.truncate(i + 1);
                return cut;
            }
        } else {
            zeroes = 0;
        }
        i = i + 1;
    }
    data
}

/// The factorial of `n`, with the empty product for `n <= 0`.
pub open spec fn spec_factorial(n: int) -> int
    decreases n,
{
    if n <= 0 {
        1
    } else {
        n * spec_factorial(n - 1)
    }
}

pub proof fn lemma_factorial_at_least_one(n: int)
    ensures
        spec_factorial(n) >= 1,
    decreases n,
{
    if n > 0 {
        lemma_factorial_at_least_one(n - 1);
        assert(n * spec_factorial(n - 1) >= spec_factorial(n - 1)) by (nonlinear_arith)
            requires
                n >= 1,
                spec_factorial(n - 1) >= 1,
        ;
    }
}

pub proof fn lemma_factorial_monotonic(a: int, b: int)
    requires
        0 <= a <= b,
    ensures
        spec_factorial(a) <= spec_factorial(b),
    decreases b - a,
{
    if a < b {
        lemma_factorial_monotonic(a, b - 1);
        lemma_factorial_at_least_one(b - 1);
        assert(b * spec_factorial(b - 1) >= spec_factorial(b - 1)) by (nonlinear_arith)
            requires
                b >= 1,
                spec_factorial(b - 1) >= 1,
        ;
    }
}

pub proof fn lemma_factorial_value_20()
    ensures
        spec_factorial(20) == 2432902008176640000,
{
    assert(spec_factorial(0) == 1);
    assert(spec_factorial(1) == 1);
    assert(spec_factorial(2) == 2);
    assert(spec_factorial(3) == 6);
    assert(spec_factorial(4) == 24);
    assert(spec_factorial(5) == 120);
    assert(spec_factorial(6) == 720);
    assert(spec_factorial(7) == 5040);
    assert(spec_factorial(8) == 40320);
    assert(spec_factorial(9) == 362880);
    assert(spec_factorial(10) == 3628800);
    assert(spec_factorial(11) == 39916800);
    assert(spec_factorial(12) == 479001600);
    assert(spec_factorial(13) == 6227020800);
    assert(spec_factorial(14) == 87178291200);
    assert(spec_factorial(15) == 1307674368000);
    assert(spec_factorial(16) == 20922789888000);
    assert(spec_factorial(17) == 355687428096000);
    assert(spec_factorial(18) == 6402373705728000);
    assert(spec_factorial(19) == 121645100408832000);
    assert(spec_factorial(20) == 2432902008176640000);
}

/// The product of `1..=num`; `num` is capped so the result fits in an `i64`.
pub fn factorial(num: i64) -> (r: i64)
    requires
        num <= 20,
    ensures
        r == spec_factorial(num as int),
{
    if num <= 0 {
        return 1;
    }
    let mut acc: i64 = 1;
    let mut k: i64 = 0;
    while k < num
        invariant
            0 <= k <= num <= 20,
            acc == spec_factorial(k as int),
        decreases num - k,
    {
        k = k + 1;
        proof {
            lemma_factorial_at_least_one(k as int);
            lemma_factorial_monotonic(k as int, 20);
            lemma_factorial_value_20();
            assert(spec_factorial(k as int) == k * spec_factorial(k as int - 1));
            assert(acc * k == k * acc) by (nonlinear_arith);
            assert(1 <= acc * k <= 2432902008176640000);
        }
        acc = acc * k;
    }
    acc
}

} // verus!
