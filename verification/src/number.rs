//! Numbers as they are written.
//!
//! A count is a decimal integer. Every other value of a frame is a decimal literal: an optional
//! sign, then digits with an optional point among them and an optional exponent, or one of
//! the words `inf`, `infinity` and `nan` in any case. A literal is kept as it was written,
//! so that nothing of it is lost; what it stands for is read off its digits.

use crate::error::{ErrorView, ParseError};
use vstd::arithmetic::div_mod::{lemma_basic_div, lemma_div_denominator};
use vstd::arithmetic::mul::lemma_mul_inequality;
use vstd::prelude::*;
use vstd::slice::slice_to_vec;
use vstd::string::{StringExecFns, StringSliceAdditionalSpecFns};

verus! {

/// True for the ten decimal digits.
pub open spec fn is_digit(b: u8) -> bool {
    0x30 <= b <= 0x39
}

/// 10 to the power `n`.
pub open spec fn pow10(n: nat) -> nat
    decreases n,
{
    if n == 0 {
        1
    } else {
        10 * pow10((n - 1) as nat)
    }
}

/// The number that a run of decimal digits stands for.
pub open spec fn digits_value(d: Seq<u8>) -> nat
    decreases d.len(),
{
    if d.len() == 0 {
        0
    } else {
        digits_value(d.drop_last()) * 10 + (d.last() - 0x30) as nat
    }
}

/// First position at or after `i` that holds no decimal digit.
pub open spec fn digit_run(s: Seq<u8>, i: int) -> int
    decreases s.len() - i,
{
    if i < 0 || i >= s.len() || !is_digit(s[i]) {
        i
    } else {
        digit_run(s, i + 1)
    }
}

/// A run of digits lies within the text, holds digits only and ends in front of a byte
/// that is none.
pub proof fn lemma_digit_run(s: Seq<u8>, i: int)
    requires
        0 <= i <= s.len(),
    ensures
        i <= digit_run(s, i) <= s.len(),
        forall|k: int| i <= k < digit_run(s, i) ==> is_digit(#[trigger] s[k]),
        digit_run(s, i) < s.len() ==> !is_digit(s[digit_run(s, i)]),
    decreases s.len() - i,
{
    if i < s.len() && is_digit(s[i]) {
        lemma_digit_run(s, i + 1);
    }
}

/// The decimal digits of `n`, without leading zeros.
pub open spec fn decimal_text(n: nat) -> Seq<u8>
    decreases n,
{
    if n < 10 {
        seq![(0x30 + n) as u8]
    } else {
        decimal_text(n / 10).push((0x30 + n % 10) as u8)
    }
}

/// The decimal text of an integer holds digits only and stands for the integer.
pub proof fn lemma_decimal_text(n: nat)
    ensures
        decimal_text(n).len() >= 1,
        forall|k: int| 0 <= k < decimal_text(n).len() ==> is_digit(#[trigger] decimal_text(n)[k]),
        digits_value(decimal_text(n)) == n,
    decreases n,
{
    if n < 10 {
        let t = decimal_text(n);
        assert(t.drop_last() =~= Seq::<u8>::empty());
        assert(digits_value(t.drop_last()) == 0);
    } else {
        lemma_decimal_text(n / 10);
        let t = decimal_text(n);
        assert(t.drop_last() =~= decimal_text(n / 10));
    }
}

/// Appends the decimal digits of `n` to `out`.
pub fn push_decimal(out: &mut Vec<u8>, n: u64)
    ensures
        final(out)@ == old(out)@ + decimal_text(n as nat),
        forall|k: int|
            old(out)@.len() <= k < final(out)@.len() ==> is_digit(#[trigger] final(out)@[k]),
{
    let ghost start = out@;
    let mut rev: Vec<u8> = Vec::new();
    let mut m = n;
    while m >= 10
        invariant
            decimal_text(n as nat) == decimal_text(m as nat) + rev@.reverse(),
        decreases m,
    {
        let d: u8 = (m % 10) as u8;
        proof {
            assert((rev@.push((0x30 + d) as u8)).reverse() =~= seq![(0x30 + d) as u8]
                + rev@.reverse());
            assert(decimal_text(m as nat) =~= decimal_text((m / 10) as nat) + seq![(0x30
                + d) as u8]);
        }
        rev.push(0x30 + d);
        m = m / 10;
    }
    let d: u8 = m as u8;
    out.push(0x30 + d);
    let mut i = rev.len();
    while i > 0
        invariant
            i <= rev.len(),
            out@ == start + decimal_text(m as nat) + rev@.reverse().subrange(
                0,
                rev.len() - i,
            ),
        decreases i,
    {
        i = i - 1;
        proof {
            let r = rev@.reverse();
            assert(r.subrange(0, rev.len() - i) =~= r.subrange(0, rev.len() - i - 1).push(
                rev@[i as int],
            ));
        }
        out.push(rev[i]);
    }
    proof {
        let r = rev@.reverse();
        assert(r.subrange(0, rev.len() as int) =~= r);
        assert(out@ =~= start + decimal_text(n as nat));
        lemma_decimal_text(n as nat);
    }
}

/// What a token stands for as a count, or the message that says why it stands for none.
///
/// A count is written as decimal digits, with `+` in front of them or not. Where the digits
/// in front of the first other character already exceed `usize::MAX`, the number is too
/// large; otherwise that character is reported.
pub open spec fn count_value(s: Seq<u8>) -> Result<usize, Seq<char>> {
    if s.len() == 0 {
        Err("cannot parse integer from empty string"@)
    } else {
        let b: int = if s.len() > 1 && s[0] == 0x2B {
            1
        } else {
            0
        };
        let j = digit_run(s, b);
        let v = digits_value(s.subrange(b, j));
        if v > usize::MAX {
            Err("number too large to fit in target type"@)
        } else if j < s.len() {
            Err("invalid digit found in string"@)
        } else {
            Ok(v as usize)
        }
    }
}

/// One more digit multiplies by ten and adds the digit.
pub proof fn lemma_digits_value_push(d: Seq<u8>, x: u8)
    ensures
        digits_value(d.push(x)) == digits_value(d) * 10 + (x - 0x30) as nat,
{
    assert(d.push(x).drop_last() =~= d);
}

/// Reads a count.
pub fn parse_count(token: &[u8]) -> (r: Result<usize, ParseError>)
    ensures
        match r {
            Ok(v) => count_value(token@) == Ok::<usize, Seq<char>>(v),
            Err(e) => e@ matches ErrorView::InvalidNumberFormat(m) && count_value(token@) == Err::<
                usize,
                Seq<char>,
            >(m),
        },
{
    let n = token.len();
    if n == 0 {
        return Err(
            ParseError::InvalidNumberFormat(
                String::from_str("cannot parse integer from empty string"),
            ),
        );
    }
    let b: usize = if n > 1 && token[0] == 0x2B {
        1
    } else {
        0
    };
    let mut i = b;
    let mut acc: usize = 0;
    proof {
        assert(token@.subrange(b as int, b as int) =~= Seq::<u8>::empty());
    }
    while i < n && 0x30 <= token[i] && token[i] <= 0x39
        invariant
            b <= i <= n,
            n == token.len(),
            n > 0,
            b == (if n > 1 && token@[0] == 0x2B {
                1int
            } else {
                0int
            }),
            digit_run(token@, i as int) == digit_run(token@, b as int),
            acc == digits_value(token@.subrange(b as int, i as int)),
        decreases n - i,
    {
        let d: usize = (token[i] - 0x30) as usize;
        proof {
            lemma_digits_value_push(token@.subrange(b as int, i as int), token@[i as int]);
            assert(token@.subrange(b as int, i + 1) =~= token@.subrange(b as int, i as int).push(
                token@[i as int],
            ));
        }
        if acc > (usize::MAX - d) / 10 {
            proof {
                lemma_digit_run(token@, b as int);
                lemma_digit_run(token@, (i + 1) as int);
                let run = token@.subrange(b as int, digit_run(token@, b as int));
                assert forall|j: int| 0 <= j < run.len() implies is_digit(#[trigger] run[j]) by {
                    assert(run[j] == token@[b + j]);
                }
                lemma_digits_value_prefix(
                    token@.subrange(b as int, digit_run(token@, b as int)),
                    i + 1 - b,
                );
                assert(run.subrange(0, i + 1 - b) =~= token@.subrange(b as int, i + 1));
            }
            return Err(
                ParseError::InvalidNumberFormat(
                    String::from_str("number too large to fit in target type"),
                ),
            );
        }
        acc = acc * 10 + d;
        i = i + 1;
    }
    if i < n {
        Err(ParseError::InvalidNumberFormat(String::from_str("invalid digit found in string")))
    } else {
        Ok(acc)
    }
}

/// A run of digits stands for at least what any of its beginnings stands for.
pub proof fn lemma_digits_value_prefix(d: Seq<u8>, k: int)
    requires
        0 <= k <= d.len(),
        forall|j: int| 0 <= j < d.len() ==> is_digit(#[trigger] d[j]),
    ensures
        digits_value(d.subrange(0, k)) <= digits_value(d),
    decreases d.len() - k,
{
    if k == d.len() {
        assert(d.subrange(0, k) =~= d);
    } else {
        lemma_digits_value_prefix(d, k + 1);
        lemma_digits_value_push(d.subrange(0, k), d[k]);
        assert(d.subrange(0, k + 1) =~= d.subrange(0, k).push(d[k]));
    }
}

/// The lower-case form of an ASCII letter; any other byte as it is.
pub open spec fn lower(b: u8) -> u8 {
    if 0x41 <= b <= 0x5A {
        (b + 0x20) as u8
    } else {
        b
    }
}

/// Number of bytes that the sign at the start of `s` takes.
pub open spec fn sign_len(s: Seq<u8>) -> int {
    if s.len() > 0 && (s[0] == 0x2B || s[0] == 0x2D) {
        1
    } else {
        0
    }
}

/// True when `s` begins with a minus sign.
pub open spec fn is_negative(s: Seq<u8>) -> bool {
    s.len() > 0 && s[0] == 0x2D
}

/// True when `s` is `inf` or `infinity` behind its sign, in any case.
pub open spec fn is_infinite(s: Seq<u8>) -> bool {
    let f = sign_len(s);
    ||| (s.len() - f == 3 && lower(s[f]) == 0x69 && lower(s[f + 1]) == 0x6E && lower(s[f + 2])
        == 0x66)
    ||| (s.len() - f == 8 && lower(s[f]) == 0x69 && lower(s[f + 1]) == 0x6E && lower(s[f + 2])
        == 0x66 && lower(s[f + 3]) == 0x69 && lower(s[f + 4]) == 0x6E && lower(s[f + 5]) == 0x69
        && lower(s[f + 6]) == 0x74 && lower(s[f + 7]) == 0x79)
}

/// True when `s` is `nan` behind its sign, in any case.
pub open spec fn is_nan(s: Seq<u8>) -> bool {
    let f = sign_len(s);
    s.len() - f == 3 && lower(s[f]) == 0x6E && lower(s[f + 1]) == 0x61 && lower(s[f + 2]) == 0x6E
}

/// End of the digits in front of the point.
pub open spec fn int_end(s: Seq<u8>) -> int {
    digit_run(s, sign_len(s))
}

/// True when a point follows the digits in front of it.
pub open spec fn has_point(s: Seq<u8>) -> bool {
    int_end(s) < s.len() && s[int_end(s)] == 0x2E
}

/// Start of the digits behind the point.
pub open spec fn frac_start(s: Seq<u8>) -> int {
    if has_point(s) {
        int_end(s) + 1
    } else {
        int_end(s)
    }
}

/// End of the digits behind the point.
pub open spec fn frac_end(s: Seq<u8>) -> int {
    digit_run(s, frac_start(s))
}

/// True when the letter `e` follows the digits, in either case.
pub open spec fn has_exponent(s: Seq<u8>) -> bool {
    frac_end(s) < s.len() && lower(s[frac_end(s)]) == 0x65
}

/// True when the exponent has a minus sign.
pub open spec fn exp_negative(s: Seq<u8>) -> bool {
    frac_end(s) + 1 < s.len() && s[frac_end(s) + 1] == 0x2D
}

/// Start of the digits of the exponent.
pub open spec fn exp_start(s: Seq<u8>) -> int {
    let x = frac_end(s) + 1;
    if x < s.len() && (s[x] == 0x2B || s[x] == 0x2D) {
        x + 1
    } else {
        x
    }
}

/// True when `s` is written in digits: a sign or none, digits with a point among them or
/// none, at least one digit in all, and an exponent or none.
pub open spec fn is_finite(s: Seq<u8>) -> bool {
    &&& (int_end(s) - sign_len(s)) + (frac_end(s) - frac_start(s)) > 0
    &&& if has_exponent(s) {
        exp_start(s) < s.len() && digit_run(s, exp_start(s)) == s.len()
    } else {
        frac_end(s) == s.len()
    }
}

/// True when `s` is a decimal literal.
pub open spec fn is_number(s: Seq<u8>) -> bool {
    is_finite(s) || is_infinite(s) || is_nan(s)
}

/// What a token stands for as a number: itself where it is a decimal literal, else the
/// message that says so.
pub open spec fn number_value(s: Seq<u8>) -> Result<Seq<u8>, Seq<char>> {
    if is_number(s) {
        Ok(s)
    } else if s.len() == 0 {
        Err("cannot parse float from empty string"@)
    } else {
        Err("invalid float literal"@)
    }
}

/// The digits of a literal, those in front of the point and those behind it.
pub open spec fn mantissa_digits(s: Seq<u8>) -> Seq<u8> {
    s.subrange(sign_len(s), int_end(s)) + s.subrange(frac_start(s), frac_end(s))
}

/// The exponent of a literal; 0 where it has none.
pub open spec fn exponent(s: Seq<u8>) -> int {
    if has_exponent(s) {
        let v = digits_value(s.subrange(exp_start(s), s.len() as int));
        if exp_negative(s) {
            -v
        } else {
            v as int
        }
    } else {
        0
    }
}

/// The power of ten by which the digits of a literal are to be multiplied.
pub open spec fn scale(s: Seq<u8>) -> int {
    exponent(s) - (frac_end(s) - frac_start(s))
}

/// True when a literal stands for something other than zero. `inf` and `nan` do.
pub open spec fn number_is_nonzero(s: Seq<u8>) -> bool {
    !is_finite(s) || digits_value(mantissa_digits(s)) > 0
}

/// The whole part of the magnitude of a literal that is written in digits.
pub open spec fn whole_part(s: Seq<u8>) -> nat {
    let m = digits_value(mantissa_digits(s));
    if scale(s) >= 0 {
        m * pow10(scale(s) as nat)
    } else {
        m / pow10((-scale(s)) as nat)
    }
}

/// A literal as an unsigned 64-bit integer: its whole part, or the nearest end of the range
/// where that lies outside. `nan` gives 0.
pub open spec fn number_to_u64(s: Seq<u8>) -> u64 {
    if is_negative(s) || !is_number(s) || is_nan(s) {
        0
    } else if is_infinite(s) {
        u64::MAX
    } else if whole_part(s) > u64::MAX {
        u64::MAX
    } else {
        whole_part(s) as u64
    }
}

/// The places at which the parts of a literal begin and end.
struct Shape {
    finite: bool,
    nan: bool,
    int_start: usize,
    int_end: usize,
    frac_start: usize,
    frac_end: usize,
    exp_start: usize,
    exp_negative: bool,
}

impl Shape {
    /// The shape is that of the literal `s`.
    spec fn fits(&self, s: Seq<u8>) -> bool {
        &&& is_number(s)
        &&& self.finite == is_finite(s)
        &&& self.nan == is_nan(s)
        &&& self.finite ==> {
            &&& self.int_start == sign_len(s)
            &&& self.int_end == int_end(s)
            &&& self.frac_start == frac_start(s)
            &&& self.frac_end == frac_end(s)
            &&& self.int_start <= self.int_end <= self.frac_start <= self.frac_end <= s.len()
            &&& has_exponent(s) ==> self.exp_start == exp_start(s) && self.frac_end
                < self.exp_start < s.len()
            &&& !has_exponent(s) ==> self.exp_start == s.len()
            &&& self.exp_negative == (has_exponent(s) && exp_negative(s))
            &&& forall|k: int| self.int_start <= k < self.int_end ==> is_digit(#[trigger] s[k])
            &&& forall|k: int| self.frac_start <= k < self.frac_end ==> is_digit(#[trigger] s[k])
            &&& forall|k: int| self.exp_start <= k < s.len() ==> is_digit(#[trigger] s[k])
        }
    }
}

fn lower_byte(b: u8) -> (r: u8)
    ensures
        r == lower(b),
{
    if 0x41 <= b && b <= 0x5A {
        b + 0x20
    } else {
        b
    }
}

/// End of the run of digits that begins at `i`.
fn run_end(b: &[u8], i: usize) -> (r: usize)
    requires
        i <= b.len(),
    ensures
        r == digit_run(b@, i as int),
        i <= r <= b.len(),
        forall|k: int| i <= k < r ==> is_digit(#[trigger] b@[k]),
{
    let mut p = i;
    while p < b.len() && 0x30 <= b[p] && b[p] <= 0x39
        invariant
            i <= p <= b.len(),
            digit_run(b@, p as int) == digit_run(b@, i as int),
            forall|k: int| i <= k < p ==> is_digit(#[trigger] b@[k]),
        decreases b.len() - p,
    {
        p = p + 1;
    }
    p
}

/// Takes a token apart where it is a decimal literal.
fn shape_of(b: &[u8]) -> (r: Option<Shape>)
    ensures
        r.is_some() == is_number(b@),
        r matches Some(shape) ==> shape.fits(b@),
{
    let n = b.len();
    let f: usize = if n > 0 && (b[0] == 0x2B || b[0] == 0x2D) {
        1
    } else {
        0
    };
    let ie = run_end(b, f);
    let fs: usize = if ie < n && b[ie] == 0x2E {
        ie + 1
    } else {
        ie
    };
    let fe = run_end(b, fs);
    if (ie - f) + (fe - fs) > 0 {
        if fe == n {
            return Some(
                Shape {
                    finite: true,
                    nan: false,
                    int_start: f,
                    int_end: ie,
                    frac_start: fs,
                    frac_end: fe,
                    exp_start: n,
                    exp_negative: false,
                },
            );
        }
        if lower_byte(b[fe]) == 0x65 {
            let x = fe + 1;
            let neg = x < n && b[x] == 0x2D;
            let xs: usize = if x < n && (b[x] == 0x2B || b[x] == 0x2D) {
                x + 1
            } else {
                x
            };
            if xs < n && run_end(b, xs) == n {
                return Some(
                    Shape {
                        finite: true,
                        nan: false,
                        int_start: f,
                        int_end: ie,
                        frac_start: fs,
                        frac_end: fe,
                        exp_start: xs,
                        exp_negative: neg,
                    },
                );
            }
        }
        assert(!is_infinite(b@) && !is_nan(b@));
        return None;
    }
    if n - f == 3 {
        let c0 = lower_byte(b[f]);
        let c1 = lower_byte(b[f + 1]);
        let c2 = lower_byte(b[f + 2]);
        if c0 == 0x69 && c1 == 0x6E && c2 == 0x66 {
            return Some(
                Shape {
                    finite: false,
                    nan: false,
                    int_start: f,
                    int_end: f,
                    frac_start: f,
                    frac_end: f,
                    exp_start: n,
                    exp_negative: false,
                },
            );
        }
        if c0 == 0x6E && c1 == 0x61 && c2 == 0x6E {
            return Some(
                Shape {
                    finite: false,
                    nan: true,
                    int_start: f,
                    int_end: f,
                    frac_start: f,
                    frac_end: f,
                    exp_start: n,
                    exp_negative: false,
                },
            );
        }
        return None;
    }
    if n - f == 8 {
        if lower_byte(b[f]) == 0x69 && lower_byte(b[f + 1]) == 0x6E && lower_byte(b[f + 2]) == 0x66
            && lower_byte(b[f + 3]) == 0x69 && lower_byte(b[f + 4]) == 0x6E && lower_byte(b[f + 5])
            == 0x69 && lower_byte(b[f + 6]) == 0x74 && lower_byte(b[f + 7]) == 0x79 {
            return Some(
                Shape {
                    finite: false,
                    nan: false,
                    int_start: f,
                    int_end: f,
                    frac_start: f,
                    frac_end: f,
                    exp_start: n,
                    exp_negative: false,
                },
            );
        }
    }
    None
}

/// A decimal literal, kept as it was written.
#[derive(Debug, PartialEq, Eq)]
pub struct Number {
    text: Vec<u8>,
}

impl View for Number {
    type V = Seq<u8>;

    closed spec fn view(&self) -> Seq<u8> {
        self.text@
    }
}

impl Clone for Number {
    fn clone(&self) -> (r: Self)
        ensures
            r@ == self@,
    {
        proof {
            use_type_invariant(self);
        }
        Number { text: slice_to_vec(self.text.as_slice()) }
    }
}

impl Number {
    #[verifier::type_invariant]
    spec fn well_formed(self) -> bool {
        is_number(self.text@)
    }

    /// Reads a number from its text.
    pub fn parse(text: &str) -> (r: Result<Number, ParseError>)
        ensures
            match r {
                Ok(v) => number_value(text.spec_bytes()) == Ok::<Seq<u8>, Seq<char>>(v@),
                Err(e) => e@ matches ErrorView::InvalidNumberFormat(m) && number_value(
                    text.spec_bytes(),
                ) == Err::<Seq<u8>, Seq<char>>(m),
            },
    {
        Number::from_token(text.as_bytes())
    }

    /// The decimal text of an unsigned integer as a number.
    pub fn from_u64(n: u64) -> (r: Number)
        ensures
            r@ == decimal_text(n as nat),
    {
        let mut text: Vec<u8> = Vec::new();
        push_decimal(&mut text, n);
        proof {
            lemma_decimal_is_number(n as nat);
        }
        Number { text }
    }

    /// The literal as it was written.
    pub fn as_bytes(&self) -> (r: &[u8])
        ensures
            r@ == self@,
            is_number(self@),
    {
        proof {
            use_type_invariant(self);
        }
        self.text.as_slice()
    }

    /// Tells whether the number differs from zero.
    pub fn is_nonzero(&self) -> (r: bool)
        ensures
            r == number_is_nonzero(self@),
    {
        proof {
            use_type_invariant(self);
        }
        let b = self.text.as_slice();
        match shape_of(b) {
            None => true,
            Some(shape) => {
                if !shape.finite {
                    return true;
                }
                let a = range_has_nonzero(b, shape.int_start, shape.int_end);
                let c = range_has_nonzero(b, shape.frac_start, shape.frac_end);
                proof {
                    let d = mantissa_digits(b@);
                    let d1 = b@.subrange(shape.int_start as int, shape.int_end as int);
                    let d2 = b@.subrange(shape.frac_start as int, shape.frac_end as int);
                    lemma_digits_zero(d);
                    if a {
                        let k = choose|k: int|
                            shape.int_start <= k < shape.int_end && b@[k] != 0x30;
                        assert(d[k - shape.int_start] == b@[k]);
                    }
                    if c {
                        let k = choose|k: int|
                            shape.frac_start <= k < shape.frac_end && b@[k] != 0x30;
                        assert(d[d1.len() + k - shape.frac_start] == b@[k]);
                    }
                    if !a && !c {
                        assert forall|k: int| 0 <= k < d.len() implies d[k] == 0x30 by {
                            if k < d1.len() {
                                assert(d[k] == b@[shape.int_start + k]);
                            } else {
                                assert(d[k] == b@[shape.frac_start + (k - d1.len())]);
                            }
                        }
                    }
                }
                a || c
            },
        }
    }

    /// The number as an unsigned 64-bit integer.
    pub fn to_u64(&self) -> (r: u64)
        ensures
            r == number_to_u64(self@),
    {
        proof {
            use_type_invariant(self);
        }
        let b = self.text.as_slice();
        let n = b.len();
        if n > 0 && b[0] == 0x2D {
            return 0;
        }
        match shape_of(b) {
            None => 0,
            Some(shape) => {
                if shape.nan {
                    0
                } else if !shape.finite {
                    u64::MAX
                } else {
                    whole_of(b, &shape)
                }
            },
        }
    }
}

/// The decimal text of an integer is a decimal literal.
pub proof fn lemma_decimal_is_number(n: nat)
    ensures
        is_finite(decimal_text(n)),
        !is_negative(decimal_text(n)),
        !has_exponent(decimal_text(n)),
        !has_point(decimal_text(n)),
        mantissa_digits(decimal_text(n)) == decimal_text(n),
        whole_part(decimal_text(n)) == n,
{
    let t = decimal_text(n);
    lemma_decimal_text(n);
    assert(is_digit(t[0]));
    lemma_digit_run_all(t, 0);
    assert(t.subrange(0, t.len() as int) =~= t);
    assert(t.subrange(t.len() as int, t.len() as int) =~= Seq::<u8>::empty());
    assert(mantissa_digits(t) =~= t);
    assert(pow10(0) == 1);
    assert(scale(t) == 0);
    assert(digits_value(t) * pow10(0) == digits_value(t)) by (nonlinear_arith)
        requires
            pow10(0) == 1,
    ;
}

/// A run of digits that reaches the end of `s` ends there.
pub proof fn lemma_digit_run_all(s: Seq<u8>, i: int)
    requires
        0 <= i <= s.len(),
        forall|k: int| i <= k < s.len() ==> is_digit(#[trigger] s[k]),
    ensures
        digit_run(s, i) == s.len(),
    decreases s.len() - i,
{
    if i < s.len() {
        lemma_digit_run_all(s, i + 1);
    }
}

/// Digits stand for zero exactly when each of them is the digit zero.
pub proof fn lemma_digits_zero(d: Seq<u8>)
    requires
        forall|k: int| 0 <= k < d.len() ==> is_digit(#[trigger] d[k]),
    ensures
        (digits_value(d) == 0) == (forall|k: int| 0 <= k < d.len() ==> #[trigger] d[k] == 0x30),
    decreases d.len(),
{
    if d.len() > 0 {
        let front = d.drop_last();
        lemma_digits_zero(front);
        if digits_value(d) == 0 {
            assert forall|k: int| 0 <= k < d.len() implies #[trigger] d[k] == 0x30 by {
                if k < d.len() - 1 {
                    assert(front[k] == d[k]);
                }
            }
        } else {
            if forall|k: int| 0 <= k < d.len() ==> #[trigger] d[k] == 0x30 {
                assert forall|k: int| 0 <= k < front.len() implies #[trigger] front[k]
                    == 0x30 by {
                    assert(front[k] == d[k]);
                }
                assert(d.last() == d[d.len() - 1]);
            }
        }
    }
}

/// Tells whether a digit other than zero stands between `from` and `to`.
fn range_has_nonzero(b: &[u8], from: usize, to: usize) -> (r: bool)
    requires
        from <= to <= b.len(),
    ensures
        r == exists|k: int| from <= k < to && b@[k] != 0x30,
{
    let mut i = from;
    while i < to
        invariant
            from <= i <= to <= b.len(),
            forall|k: int| from <= k < i ==> b@[k] == 0x30,
        decreases to - i,
    {
        if b[i] != 0x30 {
            return true;
        }
        i = i + 1;
    }
    false
}

/// A power of ten is at least one.
pub proof fn lemma_pow10_positive(n: nat)
    ensures
        pow10(n) >= 1,
    decreases n,
{
    if n > 0 {
        lemma_pow10_positive((n - 1) as nat);
    }
}

/// A higher power of ten is no smaller.
pub proof fn lemma_pow10_monotone(a: nat, b: nat)
    requires
        a <= b,
    ensures
        pow10(a) <= pow10(b),
    decreases b,
{
    if a < b {
        lemma_pow10_monotone(a, (b - 1) as nat);
    }
}

/// Ten to the power 20 exceeds every unsigned 64-bit integer.
pub proof fn lemma_pow10_exceeds_u64()
    ensures
        pow10(20) > u64::MAX,
{
    reveal_with_fuel(pow10, 21);
}

/// A run of digits stands for less than the power of ten of its length.
pub proof fn lemma_digits_value_bound(d: Seq<u8>)
    requires
        forall|k: int| 0 <= k < d.len() ==> is_digit(#[trigger] d[k]),
    ensures
        digits_value(d) < pow10(d.len()),
    decreases d.len(),
{
    if d.len() > 0 {
        let front = d.drop_last();
        assert forall|k: int| 0 <= k < front.len() implies is_digit(#[trigger] front[k]) by {
            assert(front[k] == d[k]);
        }
        lemma_digits_value_bound(front);
        assert(is_digit(d[d.len() - 1]));
    }
}

/// The first `k` digits stand for the whole part of the quotient by the power of ten of
/// the number of the digits that are left.
pub proof fn lemma_digits_value_take(d: Seq<u8>, k: int)
    requires
        0 <= k <= d.len(),
        forall|j: int| 0 <= j < d.len() ==> is_digit(#[trigger] d[j]),
    ensures
        digits_value(d.subrange(0, k)) == digits_value(d) / pow10((d.len() - k) as nat),
    decreases d.len() - k,
{
    let total = digits_value(d) as int;
    if k == d.len() {
        assert(d.subrange(0, k) =~= d);
        assert(pow10(0) == 1);
        assert(total / 1 == total);
    } else {
        lemma_digits_value_take(d, k + 1);
        lemma_digits_value_push(d.subrange(0, k), d[k]);
        assert(d.subrange(0, k + 1) =~= d.subrange(0, k).push(d[k]));
        let v = digits_value(d.subrange(0, k)) as int;
        let x = (d[k] - 0x30) as int;
        let p = pow10((d.len() - k - 1) as nat) as int;
        let q = pow10((d.len() - k) as nat) as int;
        lemma_pow10_positive((d.len() - k - 1) as nat);
        assert(q == 10 * p);
        assert(total / p == v * 10 + x);
        lemma_div_denominator(total, p, 10);
        assert(p * 10 == q);
        assert((total / p) / 10 == total / q);
        assert(is_digit(d[k]));
        assert((v * 10 + x) / 10 == v);
    }
}

/// The whole part of a literal that is written in digits, capped at `u64::MAX`.
fn whole_of(b: &[u8], shape: &Shape) -> (r: u64)
    requires
        shape.fits(b@),
        shape.finite,
    ensures
        r == (if whole_part(b@) > u64::MAX {
            u64::MAX
        } else {
            whole_part(b@) as u64
        }),
{
    let n = b.len();
    let n_int = shape.int_end - shape.int_start;
    let n_frac = shape.frac_end - shape.frac_start;
    let ghost d1 = b@.subrange(shape.int_start as int, shape.int_end as int);
    let ghost d2 = b@.subrange(shape.frac_start as int, shape.frac_end as int);
    let ghost d = mantissa_digits(b@);
    let ghost m = digits_value(d);
    proof {
        assert(d =~= d1 + d2);
        assert forall|k: int| 0 <= k < d.len() implies is_digit(#[trigger] d[k]) by {
            if k < d1.len() {
                assert(d[k] == b@[shape.int_start + k]);
            } else {
                assert(d[k] == b@[shape.frac_start + (k - d1.len())]);
            }
        }
        lemma_digits_value_bound(d);
    }
    // The magnitude of the exponent, as far as it matters.
    let limit: u128 = 0x1_0000_0000_0000_0000_0000;
    let mut mag: u128 = 0;
    let mut huge = false;
    let mut i = shape.exp_start;
    let ghost xd = b@.subrange(shape.exp_start as int, n as int);
    proof {
        assert(b@.subrange(shape.exp_start as int, shape.exp_start as int) =~= Seq::<u8>::empty());
        assert forall|k: int| 0 <= k < xd.len() implies is_digit(#[trigger] xd[k]) by {
            assert(xd[k] == b@[shape.exp_start + k]);
        }
    }
    while i < n
        invariant
            shape.exp_start <= i <= n,
            n == b.len(),
            limit == 0x1_0000_0000_0000_0000_0000,
            xd == b@.subrange(shape.exp_start as int, n as int),
            forall|k: int| shape.exp_start <= k < n ==> is_digit(#[trigger] b@[k]),
            !huge ==> mag == digits_value(b@.subrange(shape.exp_start as int, i as int)) && mag
                < limit,
            huge ==> digits_value(b@.subrange(shape.exp_start as int, i as int)) >= limit,
        decreases n - i,
    {
        proof {
            lemma_digits_value_push(b@.subrange(shape.exp_start as int, i as int), b@[i as int]);
            assert(b@.subrange(shape.exp_start as int, i + 1) =~= b@.subrange(
                shape.exp_start as int,
                i as int,
            ).push(b@[i as int]));
        }
        if !huge {
            let x: u128 = (b[i] - 0x30) as u128;
            mag = mag * 10 + x;
            if mag >= limit {
                huge = true;
            }
        }
        i = i + 1;
    }
    proof {
        assert(b@.subrange(shape.exp_start as int, n as int) == xd);
    }
    let ghost e = exponent(b@);
    let ghost sc = scale(b@);
    assert(sc == e - n_frac);
    assert(has_exponent(b@) ==> (if shape.exp_negative {
        e == -digits_value(xd)
    } else {
        e == digits_value(xd)
    }));
    assert(!has_exponent(b@) ==> e == 0 && mag == 0 && !huge) by {
        if !has_exponent(b@) {
            assert(xd =~= Seq::<u8>::empty());
        }
    }
    // The number of digits that stand in front of the point once the exponent is applied.
    let total: u128 = n_int as u128 + n_frac as u128;
    let lead: u128;
    if shape.exp_negative {
        if huge || mag >= n_int as u128 {
            proof {
                // Every digit stands behind the point.
                lemma_pow10_monotone(d.len(), (-sc) as nat);
                lemma_basic_div(m as int, pow10((-sc) as nat) as int);
            }
            return 0;
        }
        lead = n_int as u128 - mag;
    } else {
        if huge {
            let nonzero = range_has_nonzero(b, shape.int_start, shape.int_end)
                || range_has_nonzero(b, shape.frac_start, shape.frac_end);
            proof {
                lemma_digits_zero(d);
                if nonzero {
                    if exists|k: int| shape.int_start <= k < shape.int_end && b@[k] != 0x30 {
                        let k = choose|k: int|
                            shape.int_start <= k < shape.int_end && b@[k] != 0x30;
                        assert(d[k - shape.int_start] == b@[k]);
                    } else {
                        let k = choose|k: int|
                            shape.frac_start <= k < shape.frac_end && b@[k] != 0x30;
                        assert(d[d1.len() + k - shape.frac_start] == b@[k]);
                    }
                    assert(m >= 1);
                    lemma_pow10_exceeds_u64();
                    lemma_pow10_monotone(20, sc as nat);
                    lemma_mul_inequality(1, m as int, pow10(sc as nat) as int);
                } else {
                    assert forall|k: int| 0 <= k < d.len() implies #[trigger] d[k] == 0x30 by {
                        if k < d1.len() {
                            assert(d[k] == b@[shape.int_start + k]);
                        } else {
                            assert(d[k] == b@[shape.frac_start + (k - d1.len())]);
                        }
                    }
                    assert(m == 0);
                    assert(m * pow10(sc as nat) == 0) by (nonlinear_arith)
                        requires
                            m == 0,
                    ;
                }
            }
            return if nonzero {
                u64::MAX
            } else {
                0
            };
        }
        lead = n_int as u128 + mag;
    }
    assert(lead == n_int + e);
    assert(sc == lead - total);
    assert(total == d.len());
    // The digits in front of the point.
    let taken: u128 = if lead < total {
        lead
    } else {
        total
    };
    let mut acc: u64 = 0;
    let mut sat = false;
    let mut j: usize = 0;
    proof {
        assert(d.subrange(0, 0) =~= Seq::<u8>::empty());
    }
    while (j as u128) < taken
        invariant
            j <= taken <= total,
            total == n_int + n_frac,
            n_int == shape.int_end - shape.int_start,
            n_frac == shape.frac_end - shape.frac_start,
            shape.int_start <= shape.int_end <= shape.frac_start <= shape.frac_end <= b.len(),
            d == b@.subrange(shape.int_start as int, shape.int_end as int) + b@.subrange(
                shape.frac_start as int,
                shape.frac_end as int,
            ),
            d.len() == total,
            forall|k: int| 0 <= k < d.len() ==> is_digit(#[trigger] d[k]),
            !sat ==> acc == digits_value(d.subrange(0, j as int)),
            sat ==> digits_value(d.subrange(0, j as int)) > u64::MAX,
        decreases taken - j,
    {
        let c: u8 = if j < n_int {
            b[shape.int_start + j]
        } else {
            b[shape.frac_start + (j - n_int)]
        };
        proof {
            assert(c == d[j as int]);
            lemma_digits_value_push(d.subrange(0, j as int), d[j as int]);
            assert(d.subrange(0, j + 1) =~= d.subrange(0, j as int).push(d[j as int]));
        }
        if !sat {
            let x: u64 = (c - 0x30) as u64;
            if acc > (u64::MAX - x) / 10 {
                sat = true;
            } else {
                acc = acc * 10 + x;
            }
        }
        j = j + 1;
    }
    if lead <= total {
        proof {
            lemma_digits_value_take(d, lead as int);
            if lead == total {
                assert(pow10(0) == 1);
                assert(m * pow10(0) == m) by (nonlinear_arith)
                    requires
                        pow10(0) == 1,
                ;
                assert(d.subrange(0, total as int) =~= d);
            }
            assert(digits_value(d.subrange(0, lead as int)) == whole_part(b@));
        }
        return if sat {
            u64::MAX
        } else {
            acc
        };
    }
    proof {
        assert(d.subrange(0, total as int) =~= d);
    }
    if sat {
        proof {
            lemma_pow10_positive(sc as nat);
            lemma_mul_inequality(1, pow10(sc as nat) as int, m as int);
            assert(m * pow10(sc as nat) == pow10(sc as nat) * m) by (nonlinear_arith);
        }
        return u64::MAX;
    }
    // Zeros are appended for the places that the digits do not reach.
    let extra: u128 = lead - total;
    let mut t: u128 = 0;
    proof {
        assert(pow10(0) == 1);
    }
    while t < extra && acc != 0 && !sat
        invariant
            t <= extra,
            acc == 0 ==> m == 0 && !sat,
            !sat ==> acc == m * pow10(t as nat),
            sat ==> m * pow10(t as nat) > u64::MAX,
        decreases extra - t,
    {
        proof {
            assert(pow10((t + 1) as nat) == 10 * pow10(t as nat));
            assert(m * pow10((t + 1) as nat) == (m * pow10(t as nat)) * 10) by (nonlinear_arith)
                requires
                    pow10((t + 1) as nat) == 10 * pow10(t as nat),
            ;
        }
        if acc > u64::MAX / 10 {
            sat = true;
        } else {
            acc = acc * 10;
        }
        t = t + 1;
    }
    proof {
        if acc == 0 {
            assert(m * pow10(sc as nat) == 0) by (nonlinear_arith)
                requires
                    m == 0,
            ;
        } else if sat {
            lemma_pow10_monotone(t as nat, sc as nat);
            lemma_mul_inequality(pow10(t as nat) as int, pow10(sc as nat) as int, m as int);
            assert(m * pow10(t as nat) == pow10(t as nat) * m) by (nonlinear_arith);
            assert(m * pow10(sc as nat) == pow10(sc as nat) * m) by (nonlinear_arith);
        }
    }
    if sat {
        u64::MAX
    } else {
        acc
    }
}

/// A value that is written as one token of a line.
pub trait LineValue: Sized {
    /// The mathematical value that a value of this type stands for.
    type Model;

    spec fn model(&self) -> Self::Model;

    /// What a token stands for, or the message that says why it stands for nothing.
    spec fn read(token: Seq<u8>) -> Result<Self::Model, Seq<char>>;

    /// Reads one token.
    fn from_token(token: &[u8]) -> (r: Result<Self, ParseError>)
        ensures
            match r {
                Ok(v) => Self::read(token@) == Ok::<Self::Model, Seq<char>>(v.model()),
                Err(e) => e@ matches ErrorView::InvalidNumberFormat(m) && Self::read(token@)
                    == Err::<Self::Model, Seq<char>>(m),
            },
    ;
}

impl LineValue for usize {
    type Model = usize;

    open spec fn model(&self) -> usize {
        *self
    }

    open spec fn read(token: Seq<u8>) -> Result<usize, Seq<char>> {
        count_value(token)
    }

    fn from_token(token: &[u8]) -> (r: Result<usize, ParseError>) {
        parse_count(token)
    }
}

impl LineValue for Number {
    type Model = Seq<u8>;

    open spec fn model(&self) -> Seq<u8> {
        self@
    }

    open spec fn read(token: Seq<u8>) -> Result<Seq<u8>, Seq<char>> {
        number_value(token)
    }

    fn from_token(token: &[u8]) -> (r: Result<Number, ParseError>) {
        match shape_of(token) {
            Some(_) => Ok(Number { text: slice_to_vec(token) }),
            None => {
                if token.len() == 0 {
                    Err(
                        ParseError::InvalidNumberFormat(
                            String::from_str("cannot parse float from empty string"),
                        ),
                    )
                } else {
                    Err(ParseError::InvalidNumberFormat(String::from_str("invalid float literal")))
                }
            },
        }
    }
}

} // verus!
