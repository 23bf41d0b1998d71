use vstd::prelude::*;
use vstd::slice::slice_subrange;

use crate::bytes::{
    from_hex_char, hex_value, is_hex_digit, is_regular, spec_is_hex_digit, spec_is_octal_digit,
    spec_is_regular, tail, BACKSLASH, CR, DIGIT_0, DIGIT_7, GREATER, HASH, LESS, LF, LPAREN, RPAREN,
    SOLIDUS,
};
use crate::object::{advance, ObjectView, Outcome, ParseError, ParseResult, PdfObject};

verus! {

/// What the byte after a backslash stands for, for the escapes that name a single byte.
pub open spec fn escape_byte(c: u8) -> Option<u8> {
    if c == 0x6E {
        Some(LF)
    } else if c == 0x72 {
        Some(CR)
    } else if c == 0x74 {
        Some(0x09u8)
    } else if c == 0x62 {
        Some(0x08u8)
    } else if c == 0x66 {
        Some(0x0Cu8)
    } else if c == LPAREN || c == RPAREN || c == BACKSLASH {
        Some(c)
    } else {
        None
    }
}

/// The length of a line break at the start of `s`: CR LF, CR or LF.
pub open spec fn eol_len(s: Seq<u8>) -> nat {
    if s.len() >= 2 && s[0] == CR && s[1] == LF {
        2
    } else if s.len() >= 1 && (s[0] == CR || s[0] == LF) {
        1
    } else {
        0
    }
}

/// The number of octal digits, at most three, at the start of `s`.
pub open spec fn octal_run(s: Seq<u8>) -> nat {
    if s.len() >= 1 && spec_is_octal_digit(s[0]) {
        if s.len() >= 2 && spec_is_octal_digit(s[1]) {
            if s.len() >= 3 && spec_is_octal_digit(s[2]) {
                3
            } else {
                2
            }
        } else {
            1
        }
    } else {
        0
    }
}

/// The value of a string of octal digits.
pub open spec fn octal_value(d: Seq<u8>) -> nat
    decreases d.len(),
{
    if d.len() == 0 {
        0
    } else {
        octal_value(d.subrange(0, d.len() - 1)) * 8 + (d[d.len() - 1] - DIGIT_0) as nat
    }
}

/// The rest of a string literal after its opening parenthesis, read with `depth` parentheses
/// open and `acc` decoded so far. The literal ends at the parenthesis that closes the first.
pub open spec fn string_body(t: Seq<u8>, depth: nat, acc: Seq<u8>) -> Outcome<Seq<u8>>
    decreases t.len(),
{
    if t.len() == 0 {
        Outcome::Incomplete
    } else if t[0] == BACKSLASH {
        let u = tail(t, 1);
        if u.len() == 0 {
            Outcome::Incomplete
        } else if escape_byte(u[0]) is Some {
            advance(2, string_body(tail(t, 2), depth, acc.push(escape_byte(u[0])->0)))
        } else if eol_len(u) > 0 {
            advance(1 + eol_len(u), string_body(tail(t, (1 + eol_len(u)) as int), depth, acc))
        } else if octal_run(u) > 0 {
            let k = octal_run(u);
            let v = octal_value(u.subrange(0, k as int));
            if v > 255 {
                Outcome::Error(ParseError::NumericOverflow)
            } else {
                advance(1 + k, string_body(tail(t, (1 + k) as int), depth, acc.push(v as u8)))
            }
        } else {
            Outcome::Error(ParseError::InvalidEscape)
        }
    } else if t[0] == LPAREN {
        advance(1, string_body(tail(t, 1), depth + 1, acc.push(t[0])))
    } else if t[0] == RPAREN {
        if depth <= 1 {
            Outcome::Done(1, acc)
        } else {
            advance(1, string_body(tail(t, 1), (depth - 1) as nat, acc.push(t[0])))
        }
    } else {
        advance(1, string_body(tail(t, 1), depth, acc.push(t[0])))
    }
}

/// A successful outcome's bytes as a string object.
pub open spec fn as_string(o: Outcome<Seq<u8>>) -> Outcome<ObjectView> {
    match o {
        Outcome::Done(n, v) => Outcome::Done(n, ObjectView::String(v)),
        Outcome::Error(e) => Outcome::Error(e),
        Outcome::Incomplete => Outcome::Incomplete,
    }
}

/// A successful outcome's bytes as a name object.
pub open spec fn as_name(o: Outcome<Seq<u8>>) -> Outcome<ObjectView> {
    match o {
        Outcome::Done(n, v) => Outcome::Done(n, ObjectView::NameObject(v)),
        Outcome::Error(e) => Outcome::Error(e),
        Outcome::Incomplete => Outcome::Incomplete,
    }
}

/// A parenthesized string literal.
pub open spec fn spec_string_literal(s: Seq<u8>) -> Outcome<ObjectView> {
    if s.len() == 0 {
        Outcome::Incomplete
    } else if s[0] != LPAREN {
        Outcome::Error(ParseError::InvalidCharacter)
    } else {
        as_string(advance(1, string_body(tail(s, 1), 1, Seq::empty())))
    }
}

/// The number of hexadecimal digits at the start of `s`.
pub open spec fn hex_run(s: Seq<u8>) -> nat
    decreases s.len(),
{
    if s.len() > 0 && spec_is_hex_digit(s[0]) {
        1 + hex_run(tail(s, 1))
    } else {
        0
    }
}

/// The bytes that hexadecimal digits stand for, two digits a byte, high digit first; a last
/// digit without a partner is the high half of a byte whose low half is zero.
pub open spec fn hex_decode(d: Seq<u8>) -> Seq<u8>
    decreases d.len(),
{
    if d.len() == 0 {
        Seq::empty()
    } else if d.len() == 1 {
        seq![(hex_value(d[0]) * 16) as u8]
    } else {
        seq![(hex_value(d[0]) * 16 + hex_value(d[1])) as u8] + hex_decode(tail(d, 2))
    }
}

/// A hexadecimal string literal between `<` and `>`.
pub open spec fn spec_hex_literal(s: Seq<u8>) -> Outcome<ObjectView> {
    if s.len() == 0 {
        Outcome::Incomplete
    } else if s[0] != LESS {
        Outcome::Error(ParseError::InvalidCharacter)
    } else {
        let k = hex_run(tail(s, 1));
        if 1 + k == s.len() {
            Outcome::Incomplete
        } else if s[(1 + k) as int] == GREATER {
            Outcome::Done(k + 2, ObjectView::String(hex_decode(s.subrange(1, (1 + k) as int))))
        } else {
            Outcome::Error(ParseError::InvalidCharacter)
        }
    }
}

/// The rest of a name after its solidus, with `acc` decoded so far. The name ends before the
/// first byte that is not regular; `#` and two hexadecimal digits stand for one byte.
pub open spec fn name_body(t: Seq<u8>, acc: Seq<u8>) -> Outcome<Seq<u8>>
    decreases t.len(),
{
    if t.len() == 0 || !spec_is_regular(t[0]) {
        Outcome::Done(0, acc)
    } else if t[0] == HASH {
        if t.len() >= 3 && spec_is_hex_digit(t[1]) && spec_is_hex_digit(t[2]) {
            advance(
                3,
                name_body(tail(t, 3), acc.push((hex_value(t[1]) * 16 + hex_value(t[2])) as u8)),
            )
        } else {
            Outcome::Error(ParseError::InvalidEscape)
        }
    } else {
        advance(1, name_body(tail(t, 1), acc.push(t[0])))
    }
}

/// A name: a solidus and the regular bytes after it.
pub open spec fn spec_name_object(s: Seq<u8>) -> Outcome<ObjectView> {
    if s.len() == 0 {
        Outcome::Incomplete
    } else if s[0] != SOLIDUS {
        Outcome::Error(ParseError::InvalidCharacter)
    } else {
        as_name(advance(1, name_body(tail(s, 1), Seq::empty())))
    }
}

/// A string literal, a hexadecimal literal and a name each consume at least one byte and
/// never more than their input holds.
pub proof fn lemma_text_bound(s: Seq<u8>)
    ensures
        spec_string_literal(s) matches Outcome::Done(n, _) ==> 0 < n <= s.len(),
        spec_hex_literal(s) matches Outcome::Done(n, _) ==> 0 < n <= s.len(),
        spec_name_object(s) matches Outcome::Done(n, _) ==> 0 < n <= s.len(),
{
    lemma_name_bound(s);
    if s.len() > 0 {
        lemma_string_body_bound(tail(s, 1), 1, Seq::empty());
        lemma_hex_run_bound(tail(s, 1));
    }
}

proof fn lemma_hex_run_bound(s: Seq<u8>)
    ensures
        hex_run(s) <= s.len(),
    decreases s.len(),
{
    if s.len() > 0 && spec_is_hex_digit(s[0]) {
        lemma_hex_run_bound(tail(s, 1));
    }
}

proof fn lemma_string_body_bound(t: Seq<u8>, depth: nat, acc: Seq<u8>)
    ensures
        string_body(t, depth, acc) matches Outcome::Done(n, _) ==> 0 < n <= t.len(),
    decreases t.len(),
{
    if t.len() > 0 {
        if t[0] == BACKSLASH {
            let u = tail(t, 1);
            if u.len() > 0 {
                if escape_byte(u[0]) is Some {
                    lemma_string_body_bound(tail(t, 2), depth, acc.push(escape_byte(u[0])->0));
                } else if eol_len(u) > 0 {
                    lemma_string_body_bound(tail(t, (1 + eol_len(u)) as int), depth, acc);
                } else if octal_run(u) > 0 {
                    let k = octal_run(u);
                    let v = octal_value(u.subrange(0, k as int));
                    lemma_string_body_bound(tail(t, (1 + k) as int), depth, acc.push(v as u8));
                }
            }
        } else if t[0] == LPAREN {
            lemma_string_body_bound(tail(t, 1), depth + 1, acc.push(t[0]));
        } else if t[0] == RPAREN {
            if depth > 1 {
                lemma_string_body_bound(tail(t, 1), (depth - 1) as nat, acc.push(t[0]));
            }
        } else {
            lemma_string_body_bound(tail(t, 1), depth, acc.push(t[0]));
        }
    }
}

/// A name never reaches past the end of its input.
pub proof fn lemma_name_bound(s: Seq<u8>)
    ensures
        spec_name_object(s) matches Outcome::Done(n, v) ==> 0 < n <= s.len() && v is NameObject,
{
    if s.len() > 0 && s[0] == SOLIDUS {
        lemma_name_body_bound(tail(s, 1), Seq::empty());
    }
}

proof fn lemma_name_body_bound(t: Seq<u8>, acc: Seq<u8>)
    ensures
        name_body(t, acc) matches Outcome::Done(n, _) ==> n <= t.len(),
    decreases t.len(),
{
    if t.len() > 0 && spec_is_regular(t[0]) {
        if t[0] == HASH {
            if t.len() >= 3 && spec_is_hex_digit(t[1]) && spec_is_hex_digit(t[2]) {
                lemma_name_body_bound(
                    tail(t, 3),
                    acc.push((hex_value(t[1]) * 16 + hex_value(t[2])) as u8),
                );
            }
        } else {
            lemma_name_body_bound(tail(t, 1), acc.push(t[0]));
        }
    }
}

pub proof fn lemma_tail_tail(s: Seq<u8>, i: int, k: int)
    requires
        0 <= i,
        0 <= k,
        i + k <= s.len(),
    ensures
        tail(tail(s, i), k) == tail(s, i + k),
{
    assert(tail(tail(s, i), k) =~= tail(s, i + k));
}

pub proof fn lemma_advance_advance<V>(i: nat, k: nat, o: Outcome<V>)
    ensures
        advance(i, advance(k, o)) == advance(i + k, o),
{
}

/// The byte that a single-byte escape stands for.
fn unescape(c: u8) -> (r: Option<u8>)
    ensures
        r == escape_byte(c),
{
    match c {
        0x6E => Some(LF),
        0x72 => Some(CR),
        0x74 => Some(0x09),
        0x62 => Some(0x08),
        0x66 => Some(0x0C),
        LPAREN | RPAREN | BACKSLASH => Some(c),
        _ => None,
    }
}

fn is_octal_digit(c: u8) -> (r: bool)
    ensures
        r == spec_is_octal_digit(c),
{
    c >= DIGIT_0 && c <= DIGIT_7
}

/// The octal escape at `start`: how many digits it has and their value.
fn octal_escape(input: &[u8], start: usize) -> (r: (usize, u32))
    requires
        start <= input@.len(),
    ensures
        r.0 == octal_run(tail(input@, start as int)),
        r.1 == octal_value(tail(input@, start as int).subrange(0, r.0 as int)),
{
    let ghost t = tail(input@, start as int);
    let mut k: usize = 0;
    let mut v: u32 = 0;
    assert(t.subrange(0, 0) =~= Seq::<u8>::empty());
    while k < 3 && start + k < input.len() && is_octal_digit(input[start + k])
        invariant
            start <= input@.len(),
            t == tail(input@, start as int),
            k <= 3,
            start + k <= input.len(),
            forall|j: int| 0 <= j < k ==> spec_is_octal_digit(#[trigger] t[j]),
            v == octal_value(t.subrange(0, k as int)),
            v < 512,
            v < if k == 0 {
                1int
            } else if k == 1 {
                8int
            } else if k == 2 {
                64int
            } else {
                512int
            },
        decreases 3 - k,
    {
        assert(t.subrange(0, k + 1).subrange(0, k as int) =~= t.subrange(0, k as int));
        assert(t[k as int] == input@[start + k]);
        v = v * 8 + (input[start + k] - DIGIT_0) as u32;
        k = k + 1;
    }
    (k, v)
}

/// A parenthesized string literal, with its escapes decoded.
#[verifier::rlimit(60)]
pub fn string_literal(input: &[u8]) -> (r: ParseResult<PdfObject>)
    ensures
        r@ == spec_string_literal(input@),
        r.within(input@.len()),
{
    let ghost s = input@;
    if input.len() == 0 {
        return ParseResult::Incomplete;
    }
    if input[0] != LPAREN {
        return ParseResult::Error(ParseError::InvalidCharacter);
    }
    let mut result: Vec<u8> = Vec::new();
    let mut i: usize = 1;
    let mut depth: usize = 1;
    while i < input.len()
        invariant
            s == input@,
            1 <= depth <= i <= s.len(),
            spec_string_literal(s) == as_string(
                advance(i as nat, string_body(tail(s, i as int), depth as nat, result@)),
            ),
        decreases s.len() - i,
    {
        let ghost t = tail(s, i as int);
        let c = input[i];
        if c == BACKSLASH {
            if i + 1 == input.len() {
                return ParseResult::Incomplete;
            }
            let e = input[i + 1];
            let ghost u = tail(t, 1);
            assert(u[0] == e);
            match unescape(e) {
                Some(b) => {
                    proof {
                        lemma_tail_tail(s, i as int, 2);
                        lemma_advance_advance(i as nat, 2, string_body(tail(t, 2), depth as nat, result@.push(b)));
                    }
                    result.push(b);
                    i = i + 2;
                },
                None => {
                    if e == CR || e == LF {
                        let k: usize = if e == CR && i + 2 < input.len() && input[i + 2] == LF {
                            2
                        } else {
                            1
                        };
                        assert(eol_len(u) == k);
                        proof {
                            lemma_tail_tail(s, i as int, 1 + k);
                            lemma_advance_advance(i as nat, (1 + k) as nat, string_body(tail(t, 1 + k), depth as nat, result@));
                        }
                        i = i + 1 + k;
                    } else if is_octal_digit(e) {
                        let (k, v) = octal_escape(input, i + 1);
                        proof {
                            lemma_tail_tail(s, i as int, 1);
                        }
                        if v > 255 {
                            return ParseResult::Error(ParseError::NumericOverflow);
                        }
                        proof {
                            lemma_tail_tail(s, i as int, 1 + k);
                            lemma_advance_advance(i as nat, (1 + k) as nat, string_body(tail(t, 1 + k), depth as nat, result@.push(v as u8)));
                        }
                        result.push(v as u8);
                        i = i + 1 + k;
                    } else {
                        return ParseResult::Error(ParseError::InvalidEscape);
                    }
                },
            }
        } else if c == RPAREN && depth == 1 {
            return ParseResult::Done(i + 1, PdfObject::String(result));
        } else {
            proof {
                lemma_tail_tail(s, i as int, 1);
            }
            if c == LPAREN {
                proof {
                    lemma_advance_advance(i as nat, 1, string_body(tail(t, 1), (depth + 1) as nat, result@.push(c)));
                }
                depth = depth + 1;
            } else if c == RPAREN {
                proof {
                    lemma_advance_advance(i as nat, 1, string_body(tail(t, 1), (depth - 1) as nat, result@.push(c)));
                }
                depth = depth - 1;
            } else {
                proof {
                    lemma_advance_advance(i as nat, 1, string_body(tail(t, 1), depth as nat, result@.push(c)));
                }
            }
            result.push(c);
            i = i + 1;
        }
    }
    ParseResult::Incomplete
}

/// The number of hexadecimal digits at the start of `input`.
fn scan_hex_digits(input: &[u8]) -> (n: usize)
    ensures
        n == hex_run(input@),
        n <= input@.len(),
        forall|j: int| 0 <= j < n ==> spec_is_hex_digit(#[trigger] input@[j]),
{
    let mut i: usize = 0;
    assert(tail(input@, 0) =~= input@);
    while i < input.len() && is_hex_digit(input[i])
        invariant
            i <= input@.len(),
            hex_run(input@) == i + hex_run(tail(input@, i as int)),
            forall|j: int| 0 <= j < i ==> spec_is_hex_digit(#[trigger] input@[j]),
        decreases input@.len() - i,
    {
        proof {
            lemma_tail_tail(input@, i as int, 1);
        }
        i = i + 1;
    }
    i
}

/// The bytes that the hexadecimal digits `digits` stand for.
fn decode_hex(digits: &[u8]) -> (r: Vec<u8>)
    requires
        forall|j: int| 0 <= j < digits@.len() ==> spec_is_hex_digit(#[trigger] digits@[j]),
    ensures
        r@ == hex_decode(digits@),
{
    let ghost d = digits@;
    let mut out: Vec<u8> = Vec::new();
    let mut j: usize = 0;
    assert(tail(d, 0) =~= d);
    assert(out@ + hex_decode(tail(d, 0)) =~= hex_decode(d));
    while j < digits.len() && digits.len() - j >= 2
        invariant
            d == digits@,
            forall|i: int| 0 <= i < d.len() ==> spec_is_hex_digit(#[trigger] d[i]),
            j <= d.len(),
            hex_decode(d) == out@ + hex_decode(tail(d, j as int)),
        decreases d.len() - j,
    {
        let hi = from_hex_char(digits[j]);
        let lo = from_hex_char(digits[j + 1]);
        let ghost rest = tail(d, j as int);
        proof {
            lemma_tail_tail(d, j as int, 2);
        }
        assert(rest[0] == digits@[j as int] && rest[1] == digits@[j + 1]);
        let ghost before = out@;
        out.push(16 * hi + lo);
        assert(before + hex_decode(rest) =~= out@ + hex_decode(tail(d, j + 2)));
        j = j + 2;
    }
    if j < digits.len() {
        let hi = from_hex_char(digits[j]);
        let ghost rest = tail(d, j as int);
        assert(rest.len() == 1 && rest[0] == digits@[j as int]);
        let ghost before = out@;
        out.push(16 * hi);
        assert(before + hex_decode(rest) =~= out@);
    } else {
        assert(out@ + hex_decode(tail(d, j as int)) =~= out@);
    }
    out
}

/// A hexadecimal string literal between `<` and `>`.
pub fn hex_literal(input: &[u8]) -> (r: ParseResult<PdfObject>)
    ensures
        r@ == spec_hex_literal(input@),
        r.within(input@.len()),
{
    if input.len() == 0 {
        return ParseResult::Incomplete;
    }
    if input[0] != LESS {
        return ParseResult::Error(ParseError::InvalidCharacter);
    }
    let rest = slice_subrange(input, 1, input.len());
    assert(rest@ =~= tail(input@, 1));
    let k = scan_hex_digits(rest);
    if 1 + k == input.len() {
        return ParseResult::Incomplete;
    }
    if input[1 + k] != GREATER {
        return ParseResult::Error(ParseError::InvalidCharacter);
    }
    let digits = slice_subrange(input, 1, 1 + k);
    assert(forall|j: int| 0 <= j < k ==> digits@[j] == rest@[j]);
    let bytes = decode_hex(digits);
    ParseResult::Done(k + 2, PdfObject::String(bytes))
}

/// A name: a solidus and the regular bytes after it, with its `#` escapes decoded.
pub fn name_object(input: &[u8]) -> (r: ParseResult<PdfObject>)
    ensures
        r@ == spec_name_object(input@),
        r.within(input@.len()),
{
    let ghost s = input@;
    if input.len() == 0 {
        return ParseResult::Incomplete;
    }
    if input[0] != SOLIDUS {
        return ParseResult::Error(ParseError::InvalidCharacter);
    }
    let mut result: Vec<u8> = Vec::new();
    let mut i: usize = 1;
    while i < input.len() && is_regular(input[i])
        invariant
            s == input@,
            1 <= i <= s.len(),
            spec_name_object(s) == as_name(
                advance(i as nat, name_body(tail(s, i as int), result@)),
            ),
        decreases s.len() - i,
    {
        let ghost t = tail(s, i as int);
        let c = input[i];
        assert(t[0] == c);
        if c == HASH {
            if input.len() - i > 2 && is_hex_digit(input[i + 1]) && is_hex_digit(input[i + 2]) {
                let b = 16 * from_hex_char(input[i + 1]) + from_hex_char(input[i + 2]);
                assert(t[1] == input@[i + 1] && t[2] == input@[i + 2]);
                proof {
                    lemma_tail_tail(s, i as int, 3);
                    lemma_advance_advance(i as nat, 3, name_body(tail(t, 3), result@.push(b)));
                }
                result.push(b);
                i = i + 3;
            } else {
                return ParseResult::Error(ParseError::InvalidEscape);
            }
        } else {
            proof {
                lemma_tail_tail(s, i as int, 1);
                lemma_advance_advance(i as nat, 1, name_body(tail(t, 1), result@.push(c)));
            }
            result.push(c);
            i = i + 1;
        }
    }
    ParseResult::Done(i, PdfObject::NameObject(result))
}

} // verus!
