use vstd::arithmetic::div_mod::lemma_fundamental_div_mod_converse;
use vstd::prelude::*;

use crate::{offset_in, XRefEntry};

use crate::bytes::{
    hex_value, spec_is_digit, spec_is_hex_digit, tail, BACKSLASH, CR, DIGIT_0, GREATER, LESS, LF,
    LOWER_A, LPAREN, MINUS, RPAREN, UPPER_A, UPPER_F,
};
use crate::object::{ObjectView, Outcome, ParseError};
use crate::parser::{length_key, spec_evaluate_reference, stream_length};
use crate::scalar::{
    digit_run, digits_value, is_negative, lemma_digit_run_bound, lemma_digits_value_prefix,
    sign_len, spec_integer,
};
use crate::text::{
    escape_byte, eol_len, hex_decode, hex_run, octal_run, octal_value, spec_hex_literal,
    spec_string_literal, string_body,
};

verus! {

/// The decimal digits of `n`, without leading zeros.
pub open spec fn digits_text(n: nat) -> Seq<u8>
    decreases n,
{
    if n < 10 {
        seq![(DIGIT_0 + n) as u8]
    } else {
        digits_text(n / 10).push((DIGIT_0 + n % 10) as u8)
    }
}

/// The decimal form of an integer: a minus sign when it is negative, then its digits.
pub open spec fn decimal_text(v: int) -> Seq<u8> {
    if v < 0 {
        seq![MINUS] + digits_text((-v) as nat)
    } else {
        digits_text(v as nat)
    }
}

/// Digits without their leading zeros.
pub open spec fn strip_zeros(d: Seq<u8>) -> Seq<u8>
    decreases d.len(),
{
    if d.len() > 0 && d[0] == DIGIT_0 {
        strip_zeros(tail(d, 1))
    } else {
        d
    }
}

/// The normal form of an integer literal: no plus sign, no leading zeros, no sign on zero.
pub open spec fn normalized_integer(s: Seq<u8>) -> Seq<u8> {
    let d = strip_zeros(tail(s, sign_len(s) as int));
    if d.len() == 0 {
        seq![DIGIT_0]
    } else if is_negative(s) {
        seq![MINUS] + d
    } else {
        d
    }
}

/// Whether all of `s` is one integer literal: an optional sign and one or more digits.
pub open spec fn is_integer_literal(s: Seq<u8>) -> bool {
    let k = sign_len(s);
    k < s.len() && digit_run(tail(s, k as int)) == s.len() - k
}

/// The value that an integer literal writes.
pub open spec fn literal_value(s: Seq<u8>) -> int {
    let m = digits_value(tail(s, sign_len(s) as int));
    if is_negative(s) {
        -m
    } else {
        m as int
    }
}

proof fn lemma_leading_zero(d: Seq<u8>)
    requires
        d.len() > 0,
        d[0] == DIGIT_0,
    ensures
        digits_value(d) == digits_value(tail(d, 1)),
    decreases d.len(),
{
    let p = d.subrange(0, d.len() - 1);
    let t = tail(d, 1);
    assert(digits_value(d) == digits_value(p) * 10 + (d[d.len() - 1] - DIGIT_0) as nat);
    if d.len() == 1 {
        assert(digits_value(p) == 0);
        assert(digits_value(t) == 0);
    } else {
        lemma_leading_zero(p);
        assert(t.subrange(0, t.len() - 1) =~= tail(p, 1));
        assert(t[t.len() - 1] == d[d.len() - 1]);
    }
}

proof fn lemma_strip_zeros(d: Seq<u8>)
    requires
        forall|i: int| 0 <= i < d.len() ==> spec_is_digit(#[trigger] d[i]),
    ensures
        digits_value(strip_zeros(d)) == digits_value(d),
        forall|i: int|
            0 <= i < strip_zeros(d).len() ==> spec_is_digit(#[trigger] strip_zeros(d)[i]),
        strip_zeros(d).len() > 0 ==> strip_zeros(d)[0] != DIGIT_0,
    decreases d.len(),
{
    if d.len() > 0 && d[0] == DIGIT_0 {
        lemma_leading_zero(d);
        assert forall|i: int| 0 <= i < tail(d, 1).len() implies spec_is_digit(
            #[trigger] tail(d, 1)[i],
        ) by {
            assert(tail(d, 1)[i] == d[i + 1]);
        }
        lemma_strip_zeros(tail(d, 1));
    }
}

proof fn lemma_digits_text(d: Seq<u8>)
    requires
        d.len() > 0,
        d[0] != DIGIT_0,
        forall|i: int| 0 <= i < d.len() ==> spec_is_digit(#[trigger] d[i]),
    ensures
        digits_text(digits_value(d)) == d,
    decreases d.len(),
{
    let p = d.subrange(0, d.len() - 1);
    let x = (d[d.len() - 1] - DIGIT_0) as nat;
    assert(spec_is_digit(d[d.len() - 1]));
    if d.len() == 1 {
        assert(p.len() == 0);
        assert(digits_text(digits_value(d)) =~= d);
    } else {
        assert(p[0] == d[0]);
        lemma_digits_text(p);
        lemma_digits_value_prefix(p, 1);
        assert(p.subrange(0, 0).len() == 0);
        let q = p.subrange(0, 1);
        assert(digits_value(q.subrange(0, 0)) == 0);
        assert(q[0] == p[0]);
        assert(digits_value(q) == digits_value(q.subrange(0, 0)) * 10 + (q[0] - DIGIT_0) as nat);
        let v = digits_value(d);
        assert(v == digits_value(p) * 10 + x);
        lemma_fundamental_div_mod_converse(v as int, 10, digits_value(p) as int, x as int);
        assert(digits_text(v) =~= d);
    }
}

/// Reading an integer literal whose value fits in an `i32`, then writing the value in
/// decimal, gives the literal in normal form: the plus sign, the leading zeros and the sign
/// of a zero are gone.
pub proof fn lemma_integer_round_trip(s: Seq<u8>)
    requires
        is_integer_literal(s),
        i32::MIN <= literal_value(s) <= i32::MAX,
    ensures
        spec_integer(s) == Outcome::Done(s.len(), ObjectView::Integer(literal_value(s) as i32)),
        decimal_text(literal_value(s)) == normalized_integer(s),
{
    let k = sign_len(s);
    let d = tail(s, k as int);
    assert(s.subrange(k as int, s.len() as int) =~= d);
    lemma_digit_run_bound(d);
    lemma_strip_zeros(d);
    let z = strip_zeros(d);
    if z.len() > 0 {
        lemma_digits_text(z);
    }
}

/// How a byte is written inside a string literal so that it reads back as itself: the bytes
/// with a named escape and the parentheses and backslash behind a backslash, other control
/// bytes as three octal digits, the rest as they are.
pub open spec fn escaped_byte(c: u8) -> Seq<u8> {
    if c == LF {
        seq![BACKSLASH, 0x6Eu8]
    } else if c == CR {
        seq![BACKSLASH, 0x72u8]
    } else if c == 0x09 {
        seq![BACKSLASH, 0x74u8]
    } else if c == 0x08 {
        seq![BACKSLASH, 0x62u8]
    } else if c == 0x0C {
        seq![BACKSLASH, 0x66u8]
    } else if c == LPAREN || c == RPAREN || c == BACKSLASH {
        seq![BACKSLASH, c]
    } else if c < 0x20 || c >= 0x7F {
        seq![
            BACKSLASH,
            (DIGIT_0 + c / 64) as u8,
            (DIGIT_0 + (c / 8) % 8) as u8,
            (DIGIT_0 + c % 8) as u8,
        ]
    } else {
        seq![c]
    }
}

/// The bytes of `b`, each written as `escaped_byte` writes it.
pub open spec fn escaped_bytes(b: Seq<u8>) -> Seq<u8>
    decreases b.len(),
{
    if b.len() == 0 {
        Seq::empty()
    } else {
        escaped_byte(b[0]) + escaped_bytes(tail(b, 1))
    }
}

/// A string literal that holds the bytes `b`.
pub open spec fn string_literal_of(b: Seq<u8>) -> Seq<u8> {
    seq![LPAREN] + escaped_bytes(b) + seq![RPAREN]
}

proof fn lemma_octal_escape(c: u8)
    requires
        escaped_byte(c).len() == 4,
    ensures
        ({
            let u = escaped_byte(c).subrange(1, 4);
            octal_run(u) == 3 && octal_value(u) == c as nat
        }),
{
    let d0 = (DIGIT_0 + c / 64) as u8;
    let d1 = (DIGIT_0 + (c / 8) % 8) as u8;
    let d2 = (DIGIT_0 + c % 8) as u8;
    let u = seq![d0, d1, d2];
    assert(escaped_byte(c) == seq![BACKSLASH, d0, d1, d2]);
    assert(escaped_byte(c).subrange(1, 4) =~= u);
    assert(c / 64 < 4 && (c / 8) % 8 < 8 && c % 8 < 8);
    assert(d0 - DIGIT_0 == c / 64);
    assert(d1 - DIGIT_0 == (c / 8) % 8);
    assert(u.subrange(0, 2) =~= seq![d0, d1]);
    assert(u.subrange(0, 2).subrange(0, 1) =~= seq![d0]);
    let one = seq![d0];
    assert(one.subrange(0, 0) =~= Seq::<u8>::empty());
    assert(octal_value(one.subrange(0, 0)) == 0);
    assert(one[one.len() - 1] == d0);
    assert(octal_value(one) == (c / 64) as nat);
    assert(octal_value(seq![d0, d1]) == (c / 64) as nat * 8 + ((c / 8) % 8) as nat);
    assert(((c / 64) * 8 + (c / 8) % 8) * 8 + c % 8 == c) by (bit_vector);
}

proof fn lemma_string_body_escaped(b: Seq<u8>, acc: Seq<u8>)
    ensures
        string_body(escaped_bytes(b) + seq![RPAREN], 1, acc) == Outcome::Done(
            escaped_bytes(b).len() + 1,
            acc + b,
        ),
    decreases b.len(),
{
    let t = escaped_bytes(b) + seq![RPAREN];
    if b.len() == 0 {
        assert(t =~= seq![RPAREN]);
        assert(acc + b =~= acc);
    } else {
        let c = b[0];
        let e = escaped_byte(c);
        let rest = escaped_bytes(tail(b, 1)) + seq![RPAREN];
        assert(t =~= e + rest);
        assert(acc.push(c) + tail(b, 1) =~= acc + b);
        lemma_string_body_escaped(tail(b, 1), acc.push(c));
        if e.len() == 2 {
            assert(tail(t, 2) =~= rest);
            assert(tail(t, 1)[0] == e[1]);
        } else if e.len() == 4 {
            lemma_octal_escape(c);
            assert(tail(t, 4) =~= rest);
            assert(tail(t, 1).subrange(0, 3) =~= e.subrange(1, 4));
            assert(tail(t, 1)[0] == e[1]);
            assert(eol_len(tail(t, 1)) == 0);
            assert(escape_byte(e[1]) is None);
        } else {
            assert(tail(t, 1) =~= rest);
        }
    }
}

/// Writing any bytes as a string literal and reading the literal back gives the same bytes,
/// and consumes the whole literal.
pub proof fn lemma_string_literal_round_trip(b: Seq<u8>)
    ensures
        spec_string_literal(string_literal_of(b)) == Outcome::Done(
            string_literal_of(b).len(),
            ObjectView::String(b),
        ),
{
    let s = string_literal_of(b);
    assert(tail(s, 1) =~= escaped_bytes(b) + seq![RPAREN]);
    lemma_string_body_escaped(b, Seq::empty());
    assert(Seq::<u8>::empty() + b =~= b);
}

/// The hexadecimal digit, in lower case, of a value below sixteen.
pub open spec fn hex_digit_char(v: u8) -> u8 {
    if v < 10 {
        (DIGIT_0 + v) as u8
    } else {
        (LOWER_A + v - 10) as u8
    }
}

/// Each byte of `b` as two lower-case hexadecimal digits, high digit first.
pub open spec fn hex_encode(b: Seq<u8>) -> Seq<u8>
    decreases b.len(),
{
    if b.len() == 0 {
        Seq::empty()
    } else {
        seq![hex_digit_char(b[0] / 16), hex_digit_char(b[0] % 16)] + hex_encode(tail(b, 1))
    }
}

/// A hexadecimal digit in lower case.
pub open spec fn lower_hex(c: u8) -> u8 {
    if UPPER_A <= c <= UPPER_F {
        (c + 32) as u8
    } else {
        c
    }
}

/// Whether every byte of `d` is a hexadecimal digit.
pub open spec fn all_hex_digits(d: Seq<u8>) -> bool {
    forall|i: int| 0 <= i < d.len() ==> spec_is_hex_digit(#[trigger] d[i])
}

/// A hexadecimal literal that holds the digits `d`.
pub open spec fn hex_literal_of(d: Seq<u8>) -> Seq<u8> {
    seq![LESS] + d + seq![GREATER]
}

proof fn lemma_hex_run_of(d: Seq<u8>)
    requires
        all_hex_digits(d),
    ensures
        hex_run(d + seq![GREATER]) == d.len(),
    decreases d.len(),
{
    let t = d + seq![GREATER];
    if d.len() > 0 {
        assert(tail(t, 1) =~= tail(d, 1) + seq![GREATER]);
        assert(all_hex_digits(tail(d, 1)));
        lemma_hex_run_of(tail(d, 1));
    } else {
        assert(t[0] == GREATER);
    }
}

proof fn lemma_hex_pair(x: u8, y: u8)
    requires
        spec_is_hex_digit(x),
        spec_is_hex_digit(y),
    ensures
        ({
            let b = (hex_value(x) * 16 + hex_value(y)) as u8;
            hex_digit_char(b / 16) == lower_hex(x) && hex_digit_char(b % 16) == lower_hex(y)
        }),
{
    let hx = hex_value(x);
    let hy = hex_value(y);
    assert(hx < 16 && hy < 16);
    let b = (hx * 16 + hy) as u8;
    assert(b / 16 == hx && b % 16 == hy) by (bit_vector)
        requires
            hx < 16,
            hy < 16,
            b == (hx * 16 + hy) as u8,
    ;
}

proof fn lemma_hex_encode_decode(d: Seq<u8>)
    requires
        all_hex_digits(d),
        d.len() % 2 == 0,
    ensures
        hex_encode(hex_decode(d)) == d.map_values(|c: u8| lower_hex(c)),
    decreases d.len(),
{
    if d.len() > 0 {
        let r = tail(d, 2);
        assert(all_hex_digits(r));
        lemma_hex_encode_decode(r);
        lemma_hex_pair(d[0], d[1]);
        let x = hex_decode(d);
        assert(tail(x, 1) =~= hex_decode(r));
        assert(d.map_values(|c: u8| lower_hex(c)) =~= seq![lower_hex(d[0]), lower_hex(d[1])]
            + r.map_values(|c: u8| lower_hex(c)));
        assert(hex_encode(x) =~= d.map_values(|c: u8| lower_hex(c)));
    } else {
        assert(d.map_values(|c: u8| lower_hex(c)) =~= Seq::<u8>::empty());
    }
}

/// An even number of hexadecimal digits between `<` and `>` reads as bytes that, written back
/// as hexadecimal, give the same digits in lower case.
pub proof fn lemma_hex_round_trip(d: Seq<u8>)
    requires
        all_hex_digits(d),
        d.len() % 2 == 0,
    ensures
        spec_hex_literal(hex_literal_of(d)) == Outcome::Done(
            d.len() + 2,
            ObjectView::String(hex_decode(d)),
        ),
        hex_encode(hex_decode(d)) == d.map_values(|c: u8| lower_hex(c)),
{
    let s = hex_literal_of(d);
    assert(tail(s, 1) =~= d + seq![GREATER]);
    lemma_hex_run_of(d);
    assert(s.subrange(1, (1 + d.len()) as int) =~= d);
    lemma_hex_encode_decode(d);
}

/// An odd number of hexadecimal digits reads as if a zero digit followed the last one.
pub proof fn lemma_hex_odd_padding(d: Seq<u8>)
    requires
        all_hex_digits(d),
        d.len() % 2 == 1,
    ensures
        hex_decode(d) == hex_decode(d.push(DIGIT_0)),
    decreases d.len(),
{
    let p = d.push(DIGIT_0);
    if d.len() == 1 {
        assert(tail(p, 2).len() == 0);
        assert(hex_decode(tail(p, 2)) =~= Seq::<u8>::empty());
        assert(p[0] == d[0] && p[1] == DIGIT_0 && hex_value(DIGIT_0) == 0);
        assert(hex_decode(d) =~= hex_decode(p));
    } else {
        assert(tail(p, 2) =~= tail(d, 2).push(DIGIT_0));
        assert(all_hex_digits(tail(d, 2)));
        lemma_hex_odd_padding(tail(d, 2));
    }
}

/// A reference whose number the table does not list as in use resolves to nothing.
pub proof fn lemma_unlisted_reference_is_absent(
    n: i32,
    g: i32,
    d: nat,
    xref: Map<u32, XRefEntry>,
    data: Seq<u8>,
)
    requires
        n < 0 || offset_in(xref, n as u32) is None,
    ensures
        spec_evaluate_reference(ObjectView::Reference(n, g), d, xref, data) is None,
{
}

/// A stream whose `Length` is a reference that the table does not list as in use fails with
/// `UnresolvableReference`.
pub proof fn lemma_unlisted_length_is_unresolvable(
    m: Map<Seq<u8>, ObjectView>,
    n: i32,
    g: i32,
    d: nat,
    xref: Map<u32, XRefEntry>,
    data: Seq<u8>,
)
    requires
        m.contains_key(length_key()),
        m[length_key()] == ObjectView::Reference(n, g),
        n < 0 || offset_in(xref, n as u32) is None,
    ensures
        stream_length(m, d, xref, data) == Err::<nat, ParseError>(ParseError::UnresolvableReference),
{
    lemma_unlisted_reference_is_absent(n, g, d, xref, data);
}

} // verus!
