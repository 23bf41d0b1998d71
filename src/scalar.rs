use vstd::prelude::*;
use vstd::slice::{slice_subrange, slice_to_vec};

use crate::bytes::{
    eat_until_next_token, has_prefix, same_bytes, skip_len, spec_is_digit, starts_with, tail, DIGIT_0,
    DIGIT_9, DOT, MINUS, PLUS,
};
use crate::object::{Decimal, ObjectView, Outcome, ParseError, ParseResult, PdfObject};

verus! {

pub const UPPER_R: u8 = 0x52;

/// The bytes of `null`.
pub open spec fn null_word() -> Seq<u8> {
    seq![0x6Eu8, 0x75u8, 0x6Cu8, 0x6Cu8]
}

/// The bytes of `true`.
pub open spec fn true_word() -> Seq<u8> {
    seq![0x74u8, 0x72u8, 0x75u8, 0x65u8]
}

/// The bytes of `false`.
pub open spec fn false_word() -> Seq<u8> {
    seq![0x66u8, 0x61u8, 0x6Cu8, 0x73u8, 0x65u8]
}

/// The number of decimal digits at the start of `s`.
pub open spec fn digit_run(s: Seq<u8>) -> nat
    decreases s.len(),
{
    if s.len() > 0 && spec_is_digit(s[0]) {
        1 + digit_run(tail(s, 1))
    } else {
        0
    }
}

/// The value of a string of decimal digits.
pub open spec fn digits_value(d: Seq<u8>) -> nat
    decreases d.len(),
{
    if d.len() == 0 {
        0
    } else {
        digits_value(d.subrange(0, d.len() - 1)) * 10 + (d[d.len() - 1] - DIGIT_0) as nat
    }
}

/// The length of an optional leading sign.
pub open spec fn sign_len(s: Seq<u8>) -> nat {
    if s.len() > 0 && (s[0] == PLUS || s[0] == MINUS) {
        1
    } else {
        0
    }
}

pub open spec fn is_negative(s: Seq<u8>) -> bool {
    s.len() > 0 && s[0] == MINUS
}

pub open spec fn spec_null(s: Seq<u8>) -> Outcome<ObjectView> {
    if starts_with(s, null_word()) {
        Outcome::Done(4, ObjectView::Null)
    } else {
        Outcome::Error(ParseError::InvalidCharacter)
    }
}

pub open spec fn spec_boolean(s: Seq<u8>) -> Outcome<ObjectView> {
    if starts_with(s, true_word()) {
        Outcome::Done(4, ObjectView::Boolean(true))
    } else if starts_with(s, false_word()) {
        Outcome::Done(5, ObjectView::Boolean(false))
    } else {
        Outcome::Error(ParseError::InvalidCharacter)
    }
}

/// An optional sign and one or more decimal digits, whose value must fit in an `i32`.
pub open spec fn spec_integer(s: Seq<u8>) -> Outcome<ObjectView> {
    let k = sign_len(s);
    let n = digit_run(tail(s, k as int));
    if n == 0 {
        Outcome::Error(ParseError::InvalidCharacter)
    } else {
        let m = digits_value(s.subrange(k as int, (k + n) as int));
        let v = if is_negative(s) {
            -m
        } else {
            m as int
        };
        if i32::MIN <= v <= i32::MAX {
            Outcome::Done(k + n, ObjectView::Integer(v as i32))
        } else {
            Outcome::Error(ParseError::NumericOverflow)
        }
    }
}

/// An optional sign, optional digits, a point and optional digits, with at least one digit.
pub open spec fn spec_real(s: Seq<u8>) -> Outcome<ObjectView> {
    let k = sign_len(s);
    let a = digit_run(tail(s, k as int));
    let p = k + a;
    if p < s.len() && s[p as int] == DOT {
        let f = digit_run(tail(s, (p + 1) as int));
        if a + f == 0 {
            Outcome::Error(ParseError::InvalidCharacter)
        } else {
            Outcome::Done(
                p + 1 + f,
                ObjectView::Real(
                    is_negative(s),
                    s.subrange(k as int, p as int),
                    s.subrange((p + 1) as int, (p + 1 + f) as int),
                ),
            )
        }
    } else {
        Outcome::Error(ParseError::InvalidCharacter)
    }
}

/// Two unsigned numbers and `R`, each of the first two followed by optional whitespace.
pub open spec fn spec_reference(s: Seq<u8>) -> Outcome<ObjectView> {
    let a = digit_run(s);
    let p = a + skip_len(tail(s, a as int));
    let b = digit_run(tail(s, p as int));
    let q = p + b;
    let r = q + skip_len(tail(s, q as int));
    if a == 0 || b == 0 || !(r < s.len() && s[r as int] == UPPER_R) {
        Outcome::Error(ParseError::InvalidCharacter)
    } else {
        let n = digits_value(s.subrange(0, a as int));
        let g = digits_value(s.subrange(p as int, q as int));
        if n <= i32::MAX && g <= i32::MAX {
            Outcome::Done(r + 1, ObjectView::Reference(n as i32, g as i32))
        } else {
            Outcome::Error(ParseError::NumericOverflow)
        }
    }
}

pub proof fn lemma_digit_run_bound(s: Seq<u8>)
    ensures
        digit_run(s) <= s.len(),
        forall|i: int| 0 <= i < digit_run(s) ==> spec_is_digit(#[trigger] s[i]),
    decreases s.len(),
{
    if s.len() > 0 && spec_is_digit(s[0]) {
        lemma_digit_run_bound(tail(s, 1));
        assert forall|i: int| 0 <= i < digit_run(s) implies spec_is_digit(#[trigger] s[i]) by {
            if i > 0 {
                assert(s[i] == tail(s, 1)[i - 1]);
            }
        }
    }
}

pub proof fn lemma_digits_value_prefix(d: Seq<u8>, k: int)
    requires
        0 <= k <= d.len(),
    ensures
        digits_value(d.subrange(0, k)) <= digits_value(d),
    decreases d.len(),
{
    if k == d.len() {
        assert(d.subrange(0, k) =~= d);
    } else {
        let p = d.subrange(0, d.len() - 1);
        assert(p.subrange(0, k) =~= d.subrange(0, k));
        lemma_digits_value_prefix(p, k);
    }
}

/// The keywords, numbers and references consume at least one byte and never more than their
/// input holds.
pub proof fn lemma_scalar_bound(s: Seq<u8>)
    ensures
        spec_null(s) matches Outcome::Done(n, _) ==> 0 < n <= s.len(),
        spec_boolean(s) matches Outcome::Done(n, _) ==> 0 < n <= s.len(),
        spec_integer(s) matches Outcome::Done(n, _) ==> 0 < n <= s.len(),
        spec_real(s) matches Outcome::Done(n, _) ==> 0 < n <= s.len(),
        spec_reference(s) matches Outcome::Done(n, _) ==> 0 < n <= s.len(),
{
    let k = sign_len(s);
    lemma_digit_run_bound(tail(s, k as int));
    let p = k + digit_run(tail(s, k as int));
    if p < s.len() {
        lemma_digit_run_bound(tail(s, (p + 1) as int));
    }
}

/// The number of decimal digits at the start of `input`.
pub fn scan_digits(input: &[u8]) -> (n: usize)
    ensures
        n == digit_run(input@),
        n <= input@.len(),
{
    let mut i: usize = 0;
    assert(tail(input@, 0) =~= input@);
    while i < input.len() && input[i] >= DIGIT_0 && input[i] <= DIGIT_9
        invariant
            i <= input@.len(),
            digit_run(input@) == i + digit_run(tail(input@, i as int)),
        decreases input@.len() - i,
    {
        assert(tail(tail(input@, i as int), 1) =~= tail(input@, i + 1));
        i = i + 1;
    }
    i
}

/// The value of the `n` digits of `input` at `start`, or `None` when it exceeds 2^31.
fn decimal_value(input: &[u8], start: usize, n: usize) -> (r: Option<u64>)
    requires
        start + n <= input@.len(),
        forall|i: int| start <= i < start + n ==> spec_is_digit(#[trigger] input@[i]),
    ensures
        match r {
            Some(v) => v == digits_value(input@.subrange(start as int, start + n)) && v <= 0x8000_0000,
            None => digits_value(input@.subrange(start as int, start + n)) > 0x8000_0000,
        },
{
    let ghost d = input@.subrange(start as int, start + n);
    let mut v: u64 = 0;
    let mut i: usize = 0;
    assert(d.subrange(0, 0) =~= Seq::<u8>::empty());
    while i < n
        invariant
            start + n <= input@.len(),
            d == input@.subrange(start as int, start + n),
            forall|j: int| start <= j < start + n ==> spec_is_digit(#[trigger] input@[j]),
            i <= n,
            start + n <= input.len(),
            v == digits_value(d.subrange(0, i as int)),
            v <= 0x8000_0000,
        decreases n - i,
    {
        let c = input[start + i];
        assert(d.subrange(0, i + 1).subrange(0, i as int) =~= d.subrange(0, i as int));
        assert(d[i as int] == c);
        v = v * 10 + (c - DIGIT_0) as u64;
        i = i + 1;
        if v > 0x8000_0000 {
            proof {
                lemma_digits_value_prefix(d, i as int);
            }
            return None;
        }
    }
    assert(d.subrange(0, n as int) =~= d);
    Some(v)
}

/// Whether the input starts with `null`.
pub fn null(input: &[u8]) -> (r: ParseResult<PdfObject>)
    ensures
        r@ == spec_null(input@),
        r.within(input@.len()),
{
    let word: [u8; 4] = [0x6E, 0x75, 0x6C, 0x6C];
    assert(word@ =~= null_word());
    if has_prefix(input, word.as_slice()) {
        ParseResult::Done(4, PdfObject::Null)
    } else {
        ParseResult::Error(ParseError::InvalidCharacter)
    }
}

/// The value of the literal `true` or `false`.
pub fn from_bool_literal(s: &[u8]) -> (r: bool)
    requires
        s@ == true_word() || s@ == false_word(),
    ensures
        r == (s@ == true_word()),
{
    let word: [u8; 4] = [0x74, 0x72, 0x75, 0x65];
    assert(word@ =~= true_word());
    same_bytes(s, word.as_slice())
}

/// The literal `true` or `false`.
pub fn boolean(input: &[u8]) -> (r: ParseResult<PdfObject>)
    ensures
        r@ == spec_boolean(input@),
        r.within(input@.len()),
{
    let t: [u8; 4] = [0x74, 0x72, 0x75, 0x65];
    let f: [u8; 5] = [0x66, 0x61, 0x6C, 0x73, 0x65];
    assert(t@ =~= true_word());
    assert(f@ =~= false_word());
    let n: usize = if has_prefix(input, t.as_slice()) {
        4
    } else if has_prefix(input, f.as_slice()) {
        5
    } else {
        return ParseResult::Error(ParseError::InvalidCharacter);
    };
    let word = slice_subrange(input, 0, n);
    ParseResult::Done(n, PdfObject::Boolean(from_bool_literal(word)))
}

/// The length of an optional leading sign of `input`.
fn scan_sign(input: &[u8]) -> (k: usize)
    ensures
        k == sign_len(input@),
{
    if input.len() > 0 && (input[0] == PLUS || input[0] == MINUS) {
        1
    } else {
        0
    }
}

/// A signed decimal integer. A value outside the range of `i32` is a `NumericOverflow`
/// error: it is neither wrapped nor saturated.
pub fn integer(input: &[u8]) -> (r: ParseResult<PdfObject>)
    ensures
        r@ == spec_integer(input@),
        r.within(input@.len()),
{
    let k = scan_sign(input);
    let rest = slice_subrange(input, k, input.len());
    assert(rest@ =~= tail(input@, k as int));
    let n = scan_digits(rest);
    if n == 0 {
        return ParseResult::Error(ParseError::InvalidCharacter);
    }
    proof {
        lemma_digit_run_bound(tail(input@, k as int));
        assert forall|i: int| k <= i < k + n implies spec_is_digit(#[trigger] input@[i]) by {
            assert(input@[i] == tail(input@, k as int)[i - k]);
        }
    }
    let negative = input.len() > 0 && input[0] == MINUS;
    match decimal_value(input, k, n) {
        Some(m) => {
            if negative {
                ParseResult::Done(k + n, PdfObject::Integer((0 - m as i64) as i32))
            } else if m <= 0x7FFF_FFFF {
                ParseResult::Done(k + n, PdfObject::Integer(m as i32))
            } else {
                ParseResult::Error(ParseError::NumericOverflow)
            }
        },
        None => ParseResult::Error(ParseError::NumericOverflow),
    }
}

/// A real number written with a decimal point.
pub fn real_number(input: &[u8]) -> (r: ParseResult<PdfObject>)
    ensures
        r@ == spec_real(input@),
        r.within(input@.len()),
{
    let k = scan_sign(input);
    let rest = slice_subrange(input, k, input.len());
    assert(rest@ =~= tail(input@, k as int));
    let a = scan_digits(rest);
    let p = k + a;
    if p < input.len() && input[p] == DOT {
        let after = slice_subrange(input, p + 1, input.len());
        assert(after@ =~= tail(input@, (p + 1) as int));
        let f = scan_digits(after);
        if a + f == 0 {
            return ParseResult::Error(ParseError::InvalidCharacter);
        }
        let integral = slice_to_vec(slice_subrange(input, k, p));
        let fraction = slice_to_vec(slice_subrange(input, p + 1, p + 1 + f));
        let negative = input.len() > 0 && input[0] == MINUS;
        ParseResult::Done(p + 1 + f, PdfObject::Real(Decimal { negative, integral, fraction }))
    } else {
        ParseResult::Error(ParseError::InvalidCharacter)
    }
}

/// The digits of an unsigned number at `start`, then whitespace: the number of digits, the
/// number of bytes up to the next token, and the value if it fits in an `i32`.
pub fn number_then_space(input: &[u8], start: usize) -> (r: (usize, usize, Option<i32>))
    requires
        start <= input@.len(),
    ensures
        r.0 == digit_run(tail(input@, start as int)),
        r.1 == start + r.0 + skip_len(tail(input@, start + r.0)),
        r.1 <= input@.len(),
        r.0 > 0 ==> match r.2 {
            Some(v) => v as int == digits_value(input@.subrange(start as int, start + r.0)),
            None => digits_value(input@.subrange(start as int, start + r.0)) > i32::MAX,
        },
{
    let rest = slice_subrange(input, start, input.len());
    assert(rest@ =~= tail(input@, start as int));
    let n = scan_digits(rest);
    let after = slice_subrange(input, start + n, input.len());
    assert(after@ =~= tail(input@, start + n));
    let w = eat_until_next_token(after);
    if n == 0 {
        return (n, start + n + w, None);
    }
    proof {
        lemma_digit_run_bound(tail(input@, start as int));
        assert forall|i: int| start <= i < start + n implies spec_is_digit(#[trigger] input@[i]) by {
            assert(input@[i] == tail(input@, start as int)[i - start]);
        }
    }
    let value = match decimal_value(input, start, n) {
        Some(v) => if v <= 0x7FFF_FFFF {
            Some(v as i32)
        } else {
            None
        },
        None => None,
    };
    (n, start + n + w, value)
}

/// An unresolved reference `N G R`.
#[verifier::rlimit(40)]
pub fn reference(input: &[u8]) -> (r: ParseResult<PdfObject>)
    ensures
        r@ == spec_reference(input@),
        r.within(input@.len()),
{
    assert(tail(input@, 0) =~= input@);
    let (a, p, number) = number_then_space(input, 0);
    let (b, r, generation) = number_then_space(input, p);
    if a == 0 || b == 0 || !(r < input.len() && input[r] == UPPER_R) {
        return ParseResult::Error(ParseError::InvalidCharacter);
    }
    match (number, generation) {
        (Some(n), Some(g)) => ParseResult::Done(r + 1, PdfObject::Reference(n, g)),
        _ => ParseResult::Error(ParseError::NumericOverflow),
    }
}

} // verus!
