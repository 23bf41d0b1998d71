use vstd::prelude::*;
use vstd::slice::{slice_subrange, slice_to_vec};

use crate::bytes::{
    eat_until_next_token, has_prefix, lemma_skip_len_bound, skip_len, spec_is_digit, starts_with,
    tail, CR, DIGIT_0, DIGIT_9, DOT, GREATER, LBRACKET, LESS, LF, LPAREN, MINUS, PLUS, RBRACKET,
    SOLIDUS,
};
use crate::object::{
    advance, first_done, objects_view, Dictionary, ObjectView, Outcome, ParseError, ParseResult,
    PdfObject,
};
use crate::scalar::{
    lemma_scalar_bound, boolean, digit_run, digits_value, integer, null, number_then_space, real_number, reference,
    spec_boolean, spec_integer, spec_null, spec_real, spec_reference,
};
use crate::text::{
    eol_len, hex_literal, lemma_text_bound, lemma_advance_advance, lemma_name_bound, lemma_tail_tail, name_object,
    spec_hex_literal, spec_name_object, spec_string_literal, string_literal,
};
use crate::{offset_in, XRef, XRefEntry};

verus! {

/// How deeply arrays, dictionaries and resolved references may nest by default.
pub const MAX_DEPTH: u32 = 64;

/// The bytes of `obj`.
pub open spec fn obj_word() -> Seq<u8> {
    seq![0x6Fu8, 0x62u8, 0x6Au8]
}

/// The bytes of `endobj`.
pub open spec fn endobj_word() -> Seq<u8> {
    seq![0x65u8, 0x6Eu8, 0x64u8, 0x6Fu8, 0x62u8, 0x6Au8]
}

/// The bytes of `stream`.
pub open spec fn stream_word() -> Seq<u8> {
    seq![0x73u8, 0x74u8, 0x72u8, 0x65u8, 0x61u8, 0x6Du8]
}

/// The bytes of `endstream`.
pub open spec fn endstream_word() -> Seq<u8> {
    seq![0x65u8, 0x6Eu8, 0x64u8, 0x73u8, 0x74u8, 0x72u8, 0x65u8, 0x61u8, 0x6Du8]
}

/// The bytes of `Length`.
pub open spec fn length_key() -> Seq<u8> {
    seq![0x4Cu8, 0x65u8, 0x6Eu8, 0x67u8, 0x74u8, 0x68u8]
}

/// The line break that follows the `stream` keyword: LF or CR LF.
pub open spec fn stream_eol_len(s: Seq<u8>) -> nat {
    if s.len() >= 1 && s[0] == LF {
        1
    } else if s.len() >= 2 && s[0] == CR && s[1] == LF {
        2
    } else {
        0
    }
}

/// One value, chosen by its first byte. `d` bounds how deeply arrays, dictionaries and
/// resolved references may nest inside it; `xref` and `data` serve to resolve references.
pub open spec fn spec_object(
    s: Seq<u8>,
    d: nat,
    xref: Map<u32, XRefEntry>,
    data: Seq<u8>,
) -> Outcome<ObjectView>
    decreases d, 4nat, 0nat,
{
    if s.len() == 0 {
        Outcome::Incomplete
    } else {
        let c = s[0];
        if c == 0x6E {
            spec_null(s)
        } else if spec_is_digit(c) {
            first_done(spec_reference(s), first_done(spec_real(s), spec_integer(s)))
        } else if c == MINUS || c == PLUS {
            first_done(spec_real(s), spec_integer(s))
        } else if c == DOT {
            spec_real(s)
        } else if c == 0x74 || c == 0x66 {
            spec_boolean(s)
        } else if c == LPAREN {
            spec_string_literal(s)
        } else if c == LESS {
            if s.len() >= 2 && s[1] == LESS {
                spec_stream_or_dictionary(s, d, xref, data)
            } else {
                spec_hex_literal(s)
            }
        } else if c == SOLIDUS {
            spec_name_object(s)
        } else if c == LBRACKET {
            spec_array(s, d, xref, data)
        } else {
            Outcome::Error(ParseError::UnexpectedCharacter)
        }
    }
}

/// `[`, values separated by whitespace and comments, `]`.
pub open spec fn spec_array(
    s: Seq<u8>,
    d: nat,
    xref: Map<u32, XRefEntry>,
    data: Seq<u8>,
) -> Outcome<ObjectView>
    decreases d, 0nat, 0nat,
{
    if s.len() == 0 {
        Outcome::Incomplete
    } else if s[0] != LBRACKET {
        Outcome::Error(ParseError::InvalidCharacter)
    } else if d == 0 {
        Outcome::Error(ParseError::DepthExceeded)
    } else {
        proof {
            lemma_skip_len_bound(tail(s, 1));
        }
        let w = skip_len(tail(s, 1));
        advance(1 + w, array_items(tail(s, (1 + w) as int), (d - 1) as nat, xref, data, Seq::empty()))
    }
}

/// The rest of an array, with the values `acc` read so far.
pub open spec fn array_items(
    t: Seq<u8>,
    e: nat,
    xref: Map<u32, XRefEntry>,
    data: Seq<u8>,
    acc: Seq<ObjectView>,
) -> Outcome<ObjectView>
    decreases e, 5nat, t.len(),
{
    if t.len() == 0 {
        Outcome::Incomplete
    } else if t[0] == RBRACKET {
        Outcome::Done(1, ObjectView::Array(acc))
    } else {
        match spec_object(t, e, xref, data) {
            Outcome::Done(n, v) => {
                // A value consumes at least one byte and never more than there is; the test
                // keeps the recursion on the rest of the input well founded.
                if !(0 < n <= t.len()) {
                    Outcome::Error(ParseError::InvalidCharacter)
                } else {
                    proof {
                        lemma_skip_len_bound(tail(t, n as int));
                    }
                    let k = n + skip_len(tail(t, n as int));
                    advance(k, array_items(tail(t, k as int), e, xref, data, acc.push(v)))
                }
            },
            Outcome::Error(x) => Outcome::Error(x),
            Outcome::Incomplete => Outcome::Incomplete,
        }
    }
}

/// `<<`, pairs of a name and a value, `>>`. A pair whose value is `null` adds nothing; a
/// later pair replaces an earlier one with the same name.
pub open spec fn spec_dictionary(
    s: Seq<u8>,
    d: nat,
    xref: Map<u32, XRefEntry>,
    data: Seq<u8>,
) -> Outcome<ObjectView>
    decreases d, 0nat, 0nat,
{
    if s.len() == 0 {
        Outcome::Incomplete
    } else if s[0] != LESS {
        Outcome::Error(ParseError::InvalidCharacter)
    } else if s.len() == 1 {
        Outcome::Incomplete
    } else if s[1] != LESS {
        Outcome::Error(ParseError::InvalidCharacter)
    } else if d == 0 {
        Outcome::Error(ParseError::DepthExceeded)
    } else {
        proof {
            lemma_skip_len_bound(tail(s, 2));
        }
        let w = skip_len(tail(s, 2));
        advance(
            2 + w,
            dictionary_entries(tail(s, (2 + w) as int), (d - 1) as nat, xref, data, Map::empty()),
        )
    }
}

/// The rest of a dictionary, with the mapping `acc` read so far.
pub open spec fn dictionary_entries(
    t: Seq<u8>,
    e: nat,
    xref: Map<u32, XRefEntry>,
    data: Seq<u8>,
    acc: Map<Seq<u8>, ObjectView>,
) -> Outcome<ObjectView>
    decreases e, 5nat, t.len(),
{
    if t.len() == 0 {
        Outcome::Incomplete
    } else if t[0] == GREATER {
        if t.len() == 1 {
            Outcome::Incomplete
        } else if t[1] == GREATER {
            Outcome::Done(2, ObjectView::Dictionary(acc))
        } else {
            Outcome::Error(ParseError::InvalidCharacter)
        }
    } else {
        proof {
            lemma_name_bound(t);
        }
        match spec_name_object(t) {
            Outcome::Done(n1, ObjectView::NameObject(key)) => {
                proof {
                    lemma_skip_len_bound(tail(t, n1 as int));
                }
                let j = n1 + skip_len(tail(t, n1 as int));
                let u = tail(t, j as int);
                match spec_object(u, e, xref, data) {
                    Outcome::Done(n2, v) => {
                        // As in `array_items`: a value consumes between one and all bytes.
                        if !(0 < n2 <= u.len()) {
                            Outcome::Error(ParseError::InvalidCharacter)
                        } else {
                            proof {
                                lemma_skip_len_bound(tail(u, n2 as int));
                            }
                            let k = j + n2 + skip_len(tail(u, n2 as int));
                            let next = if v is Null {
                                acc
                            } else {
                                acc.insert(key, v)
                            };
                            advance(k, dictionary_entries(tail(t, k as int), e, xref, data, next))
                        }
                    },
                    Outcome::Error(x) => Outcome::Error(x),
                    Outcome::Incomplete => Outcome::Incomplete,
                }
            },
            Outcome::Done(_, _) => Outcome::Error(ParseError::InvalidCharacter),
            Outcome::Error(x) => Outcome::Error(x),
            Outcome::Incomplete => Outcome::Incomplete,
        }
    }
}

/// A dictionary, and the stream that follows it when the next token is `stream`.
pub open spec fn spec_stream_or_dictionary(
    s: Seq<u8>,
    d: nat,
    xref: Map<u32, XRefEntry>,
    data: Seq<u8>,
) -> Outcome<ObjectView>
    decreases d, 3nat, 0nat,
{
    match spec_dictionary(s, d, xref, data) {
        Outcome::Done(n, ObjectView::Dictionary(m)) => {
            let p = n + skip_len(tail(s, n as int));
            let t = tail(s, p as int);
            if starts_with(t, stream_word()) {
                advance(p, stream_rest(t, m, d, xref, data))
            } else {
                Outcome::Done(p, ObjectView::Dictionary(m))
            }
        },
        other => other,
    }
}

/// A stream from its `stream` keyword on, whose dictionary is `m`: a line break, as many
/// bytes as `Length` gives, a line break and `endstream`.
pub open spec fn stream_rest(
    t: Seq<u8>,
    m: Map<Seq<u8>, ObjectView>,
    d: nat,
    xref: Map<u32, XRefEntry>,
    data: Seq<u8>,
) -> Outcome<ObjectView>
    decreases d, 2nat, 0nat,
{
    let e1 = stream_eol_len(tail(t, 6));
    if e1 == 0 {
        Outcome::Error(ParseError::InvalidCharacter)
    } else {
        match stream_length(m, d, xref, data) {
            Err(x) => Outcome::Error(x),
            Ok(len) => {
                let p = 6 + e1;
                if t.len() < p + len {
                    Outcome::Incomplete
                } else {
                    let u = tail(t, (p + len) as int);
                    let e2 = eol_len(u);
                    if e2 > 0 && starts_with(tail(u, e2 as int), endstream_word()) {
                        Outcome::Done(
                            p + len + e2 + 9,
                            ObjectView::Stream(m, t.subrange(p as int, (p + len) as int)),
                        )
                    } else {
                        Outcome::Error(ParseError::InvalidCharacter)
                    }
                }
            },
        }
    }
}

/// The byte count of a stream whose dictionary is `m`: its `Length`, directly or through a
/// reference.
pub open spec fn stream_length(
    m: Map<Seq<u8>, ObjectView>,
    d: nat,
    xref: Map<u32, XRefEntry>,
    data: Seq<u8>,
) -> Result<nat, ParseError>
    decreases d, 1nat, 0nat,
{
    if !m.contains_key(length_key()) {
        Err(ParseError::MissingKey)
    } else {
        match m[length_key()] {
            ObjectView::Integer(k) => if k >= 0 {
                Ok(k as nat)
            } else {
                Err(ParseError::WrongType)
            },
            ObjectView::Reference(_, _) => match spec_evaluate_reference(
                m[length_key()],
                d,
                xref,
                data,
            ) {
                Some(ObjectView::Integer(k)) => if k >= 0 {
                    Ok(k as nat)
                } else {
                    Err(ParseError::UnresolvableReference)
                },
                _ => Err(ParseError::UnresolvableReference),
            },
            _ => Err(ParseError::WrongType),
        }
    }
}

/// The value that a reference stands for: the inner value of the indirect object at the
/// offset that the table gives for its number. Absent when the number is not in use, the
/// offset lies outside `data`, no indirect object stands there, or `d` is zero.
pub open spec fn spec_evaluate_reference(
    o: ObjectView,
    d: nat,
    xref: Map<u32, XRefEntry>,
    data: Seq<u8>,
) -> Option<ObjectView>
    decreases d, 0nat, 0nat,
{
    match o {
        ObjectView::Reference(n, _) => {
            if d == 0 || n < 0 {
                None
            } else {
                match offset_in(xref, n as u32) {
                    Some(off) => if off > data.len() {
                        None
                    } else {
                        match spec_indirect_object(
                            tail(data, off as int),
                            (d - 1) as nat,
                            xref,
                            data,
                        ) {
                            Outcome::Done(_, ObjectView::Indirect(_, _, inner)) => Some(*inner),
                            _ => None,
                        }
                    },
                    None => None,
                }
            }
        },
        _ => None,
    }
}

/// `N G obj`, a value, `endobj`.
pub open spec fn spec_indirect_object(
    s: Seq<u8>,
    d: nat,
    xref: Map<u32, XRefEntry>,
    data: Seq<u8>,
) -> Outcome<ObjectView>
    decreases d, 5nat, 0nat,
{
    let a = digit_run(s);
    let p = a + skip_len(tail(s, a as int));
    let b = digit_run(tail(s, p as int));
    let q = p + b;
    let r = q + skip_len(tail(s, q as int));
    if a == 0 || b == 0 || !starts_with(tail(s, r as int), obj_word()) {
        Outcome::Error(ParseError::InvalidCharacter)
    } else {
        let number = digits_value(s.subrange(0, a as int));
        let generation = digits_value(s.subrange(p as int, q as int));
        if number > i32::MAX || generation > i32::MAX {
            Outcome::Error(ParseError::NumericOverflow)
        } else {
            let j = r + 3 + skip_len(tail(s, (r + 3) as int));
            let u = tail(s, j as int);
            match spec_object(u, d, xref, data) {
                Outcome::Done(n, v) => {
                    let z = j + n + skip_len(tail(u, n as int));
                    if starts_with(tail(s, z as int), endobj_word()) {
                        Outcome::Done(
                            z + 6,
                            ObjectView::Indirect(number as i32, generation as i32, Box::new(v)),
                        )
                    } else {
                        Outcome::Error(ParseError::InvalidCharacter)
                    }
                },
                other => other,
            }
        }
    }
}

/// Whatever value the grammar reads consumes at least one byte and never more than its input
/// holds. So the tests on the consumed length in `array_items` and `dictionary_entries`
/// never reject anything.
pub proof fn lemma_object_bound(s: Seq<u8>, d: nat, xref: Map<u32, XRefEntry>, data: Seq<u8>)
    ensures
        spec_object(s, d, xref, data) matches Outcome::Done(n, _) ==> 0 < n <= s.len(),
    decreases d, 4nat, 0nat,
{
    lemma_scalar_bound(s);
    lemma_text_bound(s);
    if s.len() >= 2 && s[0] == LESS && s[1] == LESS {
        lemma_stream_or_dictionary_bound(s, d, xref, data);
    }
    if s.len() > 0 && s[0] == LBRACKET {
        lemma_array_bound(s, d, xref, data);
    }
}

proof fn lemma_array_bound(s: Seq<u8>, d: nat, xref: Map<u32, XRefEntry>, data: Seq<u8>)
    ensures
        spec_array(s, d, xref, data) matches Outcome::Done(n, _) ==> 0 < n <= s.len(),
    decreases d, 0nat, 0nat,
{
    if s.len() > 0 && s[0] == LBRACKET && d > 0 {
        lemma_skip_len_bound(tail(s, 1));
        let w = skip_len(tail(s, 1));
        lemma_items_bound(tail(s, (1 + w) as int), (d - 1) as nat, xref, data, Seq::empty());
    }
}

proof fn lemma_items_bound(
    t: Seq<u8>,
    e: nat,
    xref: Map<u32, XRefEntry>,
    data: Seq<u8>,
    acc: Seq<ObjectView>,
)
    ensures
        array_items(t, e, xref, data, acc) matches Outcome::Done(n, _) ==> 0 < n <= t.len(),
    decreases e, 5nat, t.len(),
{
    if t.len() > 0 && t[0] != RBRACKET {
        lemma_object_bound(t, e, xref, data);
        if let Outcome::Done(n, v) = spec_object(t, e, xref, data) {
            lemma_skip_len_bound(tail(t, n as int));
            let k = n + skip_len(tail(t, n as int));
            lemma_items_bound(tail(t, k as int), e, xref, data, acc.push(v));
        }
    }
}

proof fn lemma_dictionary_bound(s: Seq<u8>, d: nat, xref: Map<u32, XRefEntry>, data: Seq<u8>)
    ensures
        spec_dictionary(s, d, xref, data) matches Outcome::Done(n, _) ==> 0 < n <= s.len(),
    decreases d, 0nat, 0nat,
{
    if s.len() >= 2 && s[0] == LESS && s[1] == LESS && d > 0 {
        lemma_skip_len_bound(tail(s, 2));
        let w = skip_len(tail(s, 2));
        lemma_entries_bound(tail(s, (2 + w) as int), (d - 1) as nat, xref, data, Map::empty());
    }
}

proof fn lemma_entries_bound(
    t: Seq<u8>,
    e: nat,
    xref: Map<u32, XRefEntry>,
    data: Seq<u8>,
    acc: Map<Seq<u8>, ObjectView>,
)
    ensures
        dictionary_entries(t, e, xref, data, acc) matches Outcome::Done(n, _) ==> 0 < n <= t.len(),
    decreases e, 5nat, t.len(),
{
    if t.len() > 0 && t[0] != GREATER {
        lemma_name_bound(t);
        if let Outcome::Done(n1, ObjectView::NameObject(key)) = spec_name_object(t) {
            lemma_skip_len_bound(tail(t, n1 as int));
            let j = n1 + skip_len(tail(t, n1 as int));
            let u = tail(t, j as int);
            lemma_object_bound(u, e, xref, data);
            if let Outcome::Done(n2, v) = spec_object(u, e, xref, data) {
                lemma_skip_len_bound(tail(u, n2 as int));
                let k = j + n2 + skip_len(tail(u, n2 as int));
                let next = if v is Null {
                    acc
                } else {
                    acc.insert(key, v)
                };
                lemma_entries_bound(tail(t, k as int), e, xref, data, next);
            }
        }
    }
}

proof fn lemma_stream_or_dictionary_bound(
    s: Seq<u8>,
    d: nat,
    xref: Map<u32, XRefEntry>,
    data: Seq<u8>,
)
    ensures
        spec_stream_or_dictionary(s, d, xref, data) matches Outcome::Done(n, _) ==> 0 < n
            <= s.len(),
    decreases d, 3nat, 0nat,
{
    lemma_dictionary_bound(s, d, xref, data);
    if let Outcome::Done(n, _) = spec_dictionary(s, d, xref, data) {
        lemma_skip_len_bound(tail(s, n as int));
    }
}

/// The bytes of `input` from `start` on.
fn rest_of(input: &[u8], start: usize) -> (r: &[u8])
    requires
        start <= input@.len(),
    ensures
        r@ == tail(input@, start as int),
{
    let r = slice_subrange(input, start, input.len());
    assert(r@ =~= tail(input@, start as int));
    r
}

/// One value, chosen by its first byte, with arrays, dictionaries and resolved references
/// nested at most `depth` deep.
pub fn direct_object_within(input: &[u8], xref: &XRef, data: &[u8], depth: u32) -> (r:
    ParseResult<PdfObject>)
    ensures
        r@ == spec_object(input@, depth as nat, xref@, data@),
        r.within(input@.len()),
    decreases depth, 4nat, 0nat,
{
    if input.len() == 0 {
        return ParseResult::Incomplete;
    }
    let c = input[0];
    if c == 0x6E {
        null(input)
    } else if c >= DIGIT_0 && c <= DIGIT_9 {
        let r = reference(input);
        if let ParseResult::Done(_, _) = r {
            return r;
        }
        let r = real_number(input);
        if let ParseResult::Done(_, _) = r {
            return r;
        }
        integer(input)
    } else if c == MINUS || c == PLUS {
        let r = real_number(input);
        if let ParseResult::Done(_, _) = r {
            return r;
        }
        integer(input)
    } else if c == DOT {
        real_number(input)
    } else if c == 0x74 || c == 0x66 {
        boolean(input)
    } else if c == LPAREN {
        string_literal(input)
    } else if c == LESS {
        if input.len() >= 2 && input[1] == LESS {
            stream_or_dictionary_within(input, xref, data, depth)
        } else {
            hex_literal(input)
        }
    } else if c == SOLIDUS {
        name_object(input)
    } else if c == LBRACKET {
        array_within(input, xref, data, depth)
    } else {
        ParseResult::Error(ParseError::UnexpectedCharacter)
    }
}

/// One value, chosen by its first byte, with nesting bounded by `MAX_DEPTH`.
pub fn direct_object(input: &[u8], xref: &XRef, data: &[u8]) -> (r: ParseResult<PdfObject>)
    ensures
        r@ == spec_object(input@, MAX_DEPTH as nat, xref@, data@),
        r.within(input@.len()),
{
    direct_object_within(input, xref, data, MAX_DEPTH)
}

/// An array whose elements nest at most `depth - 1` deep.
pub fn array_within(input: &[u8], xref: &XRef, data: &[u8], depth: u32) -> (r: ParseResult<
    PdfObject,
>)
    ensures
        r@ == spec_array(input@, depth as nat, xref@, data@),
        r.within(input@.len()),
    decreases depth, 0nat, 0nat,
{
    let ghost s = input@;
    if input.len() == 0 {
        return ParseResult::Incomplete;
    }
    if input[0] != LBRACKET {
        return ParseResult::Error(ParseError::InvalidCharacter);
    }
    if depth == 0 {
        return ParseResult::Error(ParseError::DepthExceeded);
    }
    let e = depth - 1;
    let w = eat_until_next_token(rest_of(input, 1));
    let mut i: usize = 1 + w;
    let mut items: Vec<PdfObject> = Vec::new();
    assert(objects_view(items@) =~= Seq::<ObjectView>::empty());
    while i < input.len()
        invariant
            s == input@,
            1 <= i <= s.len(),
            e == depth - 1,
            spec_array(s, depth as nat, xref@, data@) == advance(
                i as nat,
                array_items(tail(s, i as int), e as nat, xref@, data@, objects_view(items@)),
            ),
        decreases s.len() - i,
    {
        let ghost t = tail(s, i as int);
        if input[i] == RBRACKET {
            return ParseResult::Done(i + 1, PdfObject::Array(items));
        }
        let t_exec = rest_of(input, i);
        match direct_object_within(t_exec, xref, data, e) {
            ParseResult::Done(n, v) => {
                let w2 = eat_until_next_token(rest_of(t_exec, n));
                let k = n + w2;
                proof {
                    lemma_skip_len_bound(tail(t, n as int));
                    lemma_tail_tail(s, i as int, k as int);
                    lemma_advance_advance(
                        i as nat,
                        k as nat,
                        array_items(
                            tail(t, k as int),
                            e as nat,
                            xref@,
                            data@,
                            objects_view(items@).push(v@),
                        ),
                    );
                }
                let ghost before = items@;
                items.push(v);
                assert(items@.subrange(0, items@.len() - 1) =~= before);
                i = i + k;
            },
            ParseResult::Error(x) => {
                return ParseResult::Error(x);
            },
            ParseResult::Incomplete => {
                return ParseResult::Incomplete;
            },
        }
    }
    ParseResult::Incomplete
}

/// An array, with nesting bounded by `MAX_DEPTH`.
pub fn array(input: &[u8], xref: &XRef, data: &[u8]) -> (r: ParseResult<PdfObject>)
    ensures
        r@ == spec_array(input@, MAX_DEPTH as nat, xref@, data@),
        r.within(input@.len()),
{
    array_within(input, xref, data, MAX_DEPTH)
}

/// A dictionary whose values nest at most `depth - 1` deep.
#[verifier::rlimit(60)]
pub fn dictionary_within(input: &[u8], xref: &XRef, data: &[u8], depth: u32) -> (r: ParseResult<
    PdfObject,
>)
    ensures
        r@ == spec_dictionary(input@, depth as nat, xref@, data@),
        r.within(input@.len()),
    decreases depth, 0nat, 0nat,
{
    let ghost s = input@;
    if input.len() == 0 {
        return ParseResult::Incomplete;
    }
    if input[0] != LESS {
        return ParseResult::Error(ParseError::InvalidCharacter);
    }
    if input.len() == 1 {
        return ParseResult::Incomplete;
    }
    if input[1] != LESS {
        return ParseResult::Error(ParseError::InvalidCharacter);
    }
    if depth == 0 {
        return ParseResult::Error(ParseError::DepthExceeded);
    }
    let e = depth - 1;
    let w = eat_until_next_token(rest_of(input, 2));
    let mut i: usize = 2 + w;
    let mut dict = Dictionary::new();
    while i < input.len()
        invariant
            s == input@,
            2 <= i <= s.len(),
            e == depth - 1,
            spec_dictionary(s, depth as nat, xref@, data@) == advance(
                i as nat,
                dictionary_entries(tail(s, i as int), e as nat, xref@, data@, dict@),
            ),
        decreases s.len() - i,
    {
        let ghost t = tail(s, i as int);
        if input[i] == GREATER {
            if i + 1 == input.len() {
                return ParseResult::Incomplete;
            }
            if input[i + 1] == GREATER {
                return ParseResult::Done(i + 2, PdfObject::Dictionary(dict));
            }
            return ParseResult::Error(ParseError::InvalidCharacter);
        }
        let t_exec = rest_of(input, i);
        proof {
            lemma_name_bound(t);
        }
        let (n1, key) = match name_object(t_exec) {
            ParseResult::Done(n1, PdfObject::NameObject(key)) => (n1, key),
            ParseResult::Done(_, _) => {
                return ParseResult::Error(ParseError::InvalidCharacter);
            },
            ParseResult::Error(x) => {
                return ParseResult::Error(x);
            },
            ParseResult::Incomplete => {
                return ParseResult::Incomplete;
            },
        };
        let w1 = eat_until_next_token(rest_of(t_exec, n1));
        let j = n1 + w1;
        let ghost u = tail(t, j as int);
        let u_exec = rest_of(t_exec, j);
        match direct_object_within(u_exec, xref, data, e) {
            ParseResult::Done(n2, v) => {
                let w2 = eat_until_next_token(rest_of(u_exec, n2));
                let k = j + n2 + w2;
                proof {
                    lemma_skip_len_bound(tail(u, n2 as int));
                    lemma_tail_tail(t, j as int, n2 + w2);
                    lemma_tail_tail(s, i as int, k as int);
                }
                let ghost next = if v@ is Null {
                    dict@
                } else {
                    dict@.insert(key@, v@)
                };
                proof {
                    lemma_advance_advance(
                        i as nat,
                        k as nat,
                        dictionary_entries(tail(t, k as int), e as nat, xref@, data@, next),
                    );
                }
                dict.insert(key, v);
                i = i + k;
            },
            ParseResult::Error(x) => {
                return ParseResult::Error(x);
            },
            ParseResult::Incomplete => {
                return ParseResult::Incomplete;
            },
        }
    }
    ParseResult::Incomplete
}

/// A dictionary, with nesting bounded by `MAX_DEPTH`.
pub fn dictionary(input: &[u8], xref: &XRef, data: &[u8]) -> (r: ParseResult<PdfObject>)
    ensures
        r@ == spec_dictionary(input@, MAX_DEPTH as nat, xref@, data@),
        r.within(input@.len()),
{
    dictionary_within(input, xref, data, MAX_DEPTH)
}

/// The byte count that the `Length` entry of `dict` gives.
fn stream_length_within(dict: &Dictionary, xref: &XRef, data: &[u8], depth: u32) -> (r: Result<
    usize,
    ParseError,
>)
    ensures
        match r {
            Ok(n) => stream_length(dict@, depth as nat, xref@, data@) == Ok::<nat, ParseError>(
                n as nat,
            ),
            Err(x) => stream_length(dict@, depth as nat, xref@, data@) == Err::<nat, ParseError>(x),
        },
    decreases depth, 1nat, 0nat,
{
    let key: [u8; 6] = [0x4C, 0x65, 0x6E, 0x67, 0x74, 0x68];
    assert(key@ =~= length_key());
    match dict.get(key.as_slice()) {
        None => Err(ParseError::MissingKey),
        Some(value) => match value {
            PdfObject::Integer(k) => {
                if *k >= 0 {
                    Ok(*k as usize)
                } else {
                    Err(ParseError::WrongType)
                }
            },
            PdfObject::Reference(_, _) => match value.evaluate_reference_within(
                xref,
                data,
                depth,
            ) {
                Some(PdfObject::Integer(k)) => {
                    if k >= 0 {
                        Ok(k as usize)
                    } else {
                        Err(ParseError::UnresolvableReference)
                    }
                },
                _ => Err(ParseError::UnresolvableReference),
            },
            _ => Err(ParseError::WrongType),
        },
    }
}

/// A stream from its `stream` keyword on, whose dictionary is `dict`.
fn stream_rest_within(t: &[u8], dict: Dictionary, xref: &XRef, data: &[u8], depth: u32) -> (r:
    ParseResult<PdfObject>)
    requires
        starts_with(t@, stream_word()),
    ensures
        r@ == stream_rest(t@, dict@, depth as nat, xref@, data@),
        r.within(t@.len()),
    decreases depth, 2nat, 0nat,
{
    let e1: usize = if t.len() >= 7 && t[6] == LF {
        1
    } else if t.len() >= 8 && t[6] == CR && t[7] == LF {
        2
    } else {
        0
    };
    assert(e1 == stream_eol_len(tail(t@, 6)));
    if e1 == 0 {
        return ParseResult::Error(ParseError::InvalidCharacter);
    }
    let len = match stream_length_within(&dict, xref, data, depth) {
        Ok(len) => len,
        Err(x) => {
            return ParseResult::Error(x);
        },
    };
    let q = 6 + e1;
    if t.len() - q < len {
        return ParseResult::Incomplete;
    }
    let payload = slice_to_vec(slice_subrange(t, q, q + len));
    let u = rest_of(t, q + len);
    let e2: usize = if u.len() >= 2 && u[0] == CR && u[1] == LF {
        2
    } else if u.len() >= 1 && (u[0] == CR || u[0] == LF) {
        1
    } else {
        0
    };
    assert(e2 == eol_len(u@));
    if e2 == 0 {
        return ParseResult::Error(ParseError::InvalidCharacter);
    }
    let end: [u8; 9] = [0x65, 0x6E, 0x64, 0x73, 0x74, 0x72, 0x65, 0x61, 0x6D];
    assert(end@ =~= endstream_word());
    let after = rest_of(u, e2);
    if !has_prefix(after, end.as_slice()) {
        return ParseResult::Error(ParseError::InvalidCharacter);
    }
    assert(after@.len() >= 9);
    ParseResult::Done(q + len + e2 + 9, PdfObject::Stream(dict, payload))
}

/// A dictionary, and the stream that follows it when the next token is `stream`, with
/// nesting bounded by `depth`.
#[verifier::rlimit(100)]
pub fn stream_or_dictionary_within(input: &[u8], xref: &XRef, data: &[u8], depth: u32) -> (r:
    ParseResult<PdfObject>)
    ensures
        r@ == spec_stream_or_dictionary(input@, depth as nat, xref@, data@),
        r.within(input@.len()),
    decreases depth, 3nat, 0nat,
{
    let ghost s = input@;
    assert(s.len() == input.len());
    let res = dictionary_within(input, xref, data, depth);
    let ghost res_view = res@;
    let (n, dict) = match res {
        ParseResult::Done(n, PdfObject::Dictionary(dict)) => (n, dict),
        ParseResult::Done(n, other) => {
            return ParseResult::Done(n, other);
        },
        ParseResult::Error(x) => {
            return ParseResult::Error(x);
        },
        ParseResult::Incomplete => {
            return ParseResult::Incomplete;
        },
    };
    assert(res_view == Outcome::Done(n as nat, ObjectView::Dictionary(dict@)));
    assert(0 < n <= s.len());
    let w = eat_until_next_token(rest_of(input, n));
    let p = n + w;
    let t = rest_of(input, p);
    let word: [u8; 6] = [0x73, 0x74, 0x72, 0x65, 0x61, 0x6D];
    assert(word@ =~= stream_word());
    if !has_prefix(t, word.as_slice()) {
        return ParseResult::Done(p, PdfObject::Dictionary(dict));
    }
    match stream_rest_within(t, dict, xref, data, depth) {
        ParseResult::Done(m, v) => ParseResult::Done(p + m, v),
        ParseResult::Error(x) => ParseResult::Error(x),
        ParseResult::Incomplete => ParseResult::Incomplete,
    }
}

/// A dictionary or a stream, with nesting bounded by `MAX_DEPTH`.
pub fn stream_or_dictionary(input: &[u8], xref: &XRef, data: &[u8]) -> (r: ParseResult<
    PdfObject,
>)
    ensures
        r@ == spec_stream_or_dictionary(input@, MAX_DEPTH as nat, xref@, data@),
        r.within(input@.len()),
{
    stream_or_dictionary_within(input, xref, data, MAX_DEPTH)
}

/// An indirect object `N G obj ... endobj` whose value nests at most `depth` deep.
#[verifier::rlimit(100)]
pub fn indirect_object_within(input: &[u8], xref: &XRef, data: &[u8], depth: u32) -> (r:
    ParseResult<PdfObject>)
    ensures
        r@ == spec_indirect_object(input@, depth as nat, xref@, data@),
        r.within(input@.len()),
    decreases depth, 5nat, 0nat,
{
    let ghost s = input@;
    assert(s.len() == input.len());
    assert(tail(s, 0) =~= s);
    let (a, p, number) = number_then_space(input, 0);
    let (b, r, generation) = number_then_space(input, p);
    let word: [u8; 3] = [0x6F, 0x62, 0x6A];
    assert(word@ =~= obj_word());
    if a == 0 || b == 0 {
        return ParseResult::Error(ParseError::InvalidCharacter);
    }
    let at_word = rest_of(input, r);
    if !has_prefix(at_word, word.as_slice()) {
        return ParseResult::Error(ParseError::InvalidCharacter);
    }
    assert(at_word@.len() >= 3);
    let (number, generation) = match (number, generation) {
        (Some(n), Some(g)) => (n, g),
        _ => {
            return ParseResult::Error(ParseError::NumericOverflow);
        },
    };
    let w = eat_until_next_token(rest_of(input, r + 3));
    let j = r + 3 + w;
    let u = rest_of(input, j);
    match direct_object_within(u, xref, data, depth) {
        ParseResult::Done(n, v) => {
            let w2 = eat_until_next_token(rest_of(u, n));
            let z = j + n + w2;
            let end: [u8; 6] = [0x65, 0x6E, 0x64, 0x6F, 0x62, 0x6A];
            assert(end@ =~= endobj_word());
            proof {
                lemma_tail_tail(s, j as int, n + w2);
            }
            if has_prefix(rest_of(input, z), end.as_slice()) {
                ParseResult::Done(z + 6, PdfObject::Indirect(number, generation, Box::new(v)))
            } else {
                ParseResult::Error(ParseError::InvalidCharacter)
            }
        },
        ParseResult::Error(x) => ParseResult::Error(x),
        ParseResult::Incomplete => ParseResult::Incomplete,
    }
}

/// An indirect object, with nesting bounded by `MAX_DEPTH`.
pub fn indirect_object(input: &[u8], xref: &XRef, data: &[u8]) -> (r: ParseResult<PdfObject>)
    ensures
        r@ == spec_indirect_object(input@, MAX_DEPTH as nat, xref@, data@),
        r.within(input@.len()),
{
    indirect_object_within(input, xref, data, MAX_DEPTH)
}

impl PdfObject {
    /// What a reference stands for: the value inside the indirect object found at the offset
    /// that `xref` gives for its number in `data`, resolved at most `depth` deep. Every other
    /// object, and a reference that cannot be resolved, gives `None`.
    pub fn evaluate_reference_within(&self, xref: &XRef, data: &[u8], depth: u32) -> (r: Option<
        PdfObject,
    >)
        ensures
            match r {
                Some(o) => spec_evaluate_reference(self@, depth as nat, xref@, data@) == Some(o@),
                None => spec_evaluate_reference(self@, depth as nat, xref@, data@) is None,
            },
        decreases depth, 0nat, 0nat,
    {
        if let PdfObject::Reference(n, _) = self {
            if depth == 0 || *n < 0 {
                return None;
            }
            match xref.find_offset(*n as u32) {
                Some(off) => {
                    if off as usize > data.len() {
                        return None;
                    }
                    match indirect_object_within(rest_of(data, off as usize), xref, data, depth - 1) {
                        ParseResult::Done(_, PdfObject::Indirect(_, _, inner)) => Some(*inner),
                        _ => None,
                    }
                },
                None => None,
            }
        } else {
            None
        }
    }

    /// What a reference stands for, resolved at most `MAX_DEPTH` deep.
    pub fn evaluate_reference(&self, xref: &XRef, data: &[u8]) -> (r: Option<PdfObject>)
        ensures
            match r {
                Some(o) => spec_evaluate_reference(self@, MAX_DEPTH as nat, xref@, data@) == Some(
                    o@,
                ),
                None => spec_evaluate_reference(self@, MAX_DEPTH as nat, xref@, data@) is None,
            },
    {
        self.evaluate_reference_within(xref, data, MAX_DEPTH)
    }
}

} // verus!
