use pdf::object::{ParseError, ParseResult, PdfObject};
use pdf::text::{hex_literal, name_object, string_literal};

fn string(bytes: &[u8]) -> PdfObject {
    PdfObject::String(bytes.to_vec())
}

#[test]
fn plain_and_nested_strings() {
    assert_eq!(string_literal(b"(abc) rest"), ParseResult::Done(5, string(b"abc")));
    assert_eq!(string_literal(b"()"), ParseResult::Done(2, string(b"")));
    assert_eq!(string_literal(b"(a(b)c)"), ParseResult::Done(7, string(b"a(b)c")));
    assert_eq!(string_literal(b"(a\\)b)"), ParseResult::Done(6, string(b"a)b")));
    assert_eq!(string_literal(b"x"), ParseResult::Error(ParseError::InvalidCharacter));
}

#[test]
fn string_escapes() {
    assert_eq!(
        string_literal(b"(\\n\\r\\t\\b\\f\\(\\)\\\\)"),
        ParseResult::Done(18, string(b"\n\r\t\x08\x0c()\\"))
    );
    assert_eq!(string_literal(b"(a\\\nb)"), ParseResult::Done(6, string(b"ab")));
    assert_eq!(string_literal(b"(a\\\r\nb)"), ParseResult::Done(7, string(b"ab")));
    assert_eq!(string_literal(b"(\\101\\40x)"), ParseResult::Done(10, string(b"A x")));
    assert_eq!(string_literal(b"(\\0053)"), ParseResult::Done(7, string(b"\x053")));
    assert_eq!(string_literal(b"(\\q)"), ParseResult::Error(ParseError::InvalidEscape));
}

#[test]
fn octal_escape_overflow_is_an_error() {
    assert_eq!(string_literal(b"(\\777)"), ParseResult::Error(ParseError::NumericOverflow));
    assert_eq!(string_literal(b"(\\400)"), ParseResult::Error(ParseError::NumericOverflow));
    assert_eq!(string_literal(b"(\\377)"), ParseResult::Done(6, string(b"\xff")));
}

#[test]
fn unterminated_string_is_incomplete_until_closed() {
    let mut buffer = b"(abc".to_vec();
    assert_eq!(string_literal(&buffer), ParseResult::Incomplete);
    buffer.push(b')');
    assert_eq!(string_literal(&buffer), ParseResult::Done(5, string(b"abc")));
    assert_eq!(string_literal(b""), ParseResult::Incomplete);
    assert_eq!(string_literal(b"(a\\"), ParseResult::Incomplete);
    assert_eq!(string_literal(b"((a)"), ParseResult::Incomplete);
}

fn escape_for_literal(bytes: &[u8]) -> Vec<u8> {
    let mut out = vec![b'('];
    for &c in bytes {
        match c {
            b'\n' => out.extend_from_slice(b"\\n"),
            b'\r' => out.extend_from_slice(b"\\r"),
            b'\t' => out.extend_from_slice(b"\\t"),
            0x08 => out.extend_from_slice(b"\\b"),
            0x0c => out.extend_from_slice(b"\\f"),
            b'(' | b')' | b'\\' => {
                out.push(b'\\');
                out.push(c);
            }
            c if c < 0x20 || c >= 0x7f => {
                out.push(b'\\');
                out.push(b'0' + c / 64);
                out.push(b'0' + (c / 8) % 8);
                out.push(b'0' + c % 8);
            }
            c => out.push(c),
        }
    }
    out.push(b')');
    out
}

#[test]
fn string_literal_round_trip() {
    let samples: Vec<Vec<u8>> = vec![
        b"".to_vec(),
        b"plain text".to_vec(),
        b"a(b)c))((".to_vec(),
        b"\\ back \\\\ slash".to_vec(),
        vec![0, 1, 2, 0x1f, 0x7f, 0x80, 0xff, b'7', b'\n', b'\r', 0x08, 0x0c, b'\t'],
        (0u8..=255).collect(),
    ];
    for b in samples {
        let literal = escape_for_literal(&b);
        assert_eq!(string_literal(&literal), ParseResult::Done(literal.len(), PdfObject::String(b)));
    }
}

#[test]
fn hex_strings() {
    assert_eq!(hex_literal(b"<48656C6c6F>"), ParseResult::Done(12, string(b"Hello")));
    assert_eq!(hex_literal(b"<>"), ParseResult::Done(2, string(b"")));
    assert_eq!(hex_literal(b"<901FA>"), ParseResult::Done(7, string(&[0x90, 0x1f, 0xa0])));
    assert_eq!(hex_literal(b"<7>"), ParseResult::Done(3, string(&[0x70])));
    assert_eq!(hex_literal(b"<4G>"), ParseResult::Error(ParseError::InvalidCharacter));
    assert_eq!(hex_literal(b"<48 65>"), ParseResult::Error(ParseError::InvalidCharacter));
    assert_eq!(hex_literal(b"<4865"), ParseResult::Incomplete);
    assert_eq!(hex_literal(b""), ParseResult::Incomplete);
    assert_eq!(hex_literal(b"(4865)"), ParseResult::Error(ParseError::InvalidCharacter));
}

#[test]
fn hex_round_trip_lowers_case_and_pads_odd_input() {
    let digits = b"DeadBEEF0a1B";
    let mut literal = vec![b'<'];
    literal.extend_from_slice(digits);
    literal.push(b'>');
    let bytes = match hex_literal(&literal) {
        ParseResult::Done(n, PdfObject::String(bytes)) => {
            assert_eq!(n, literal.len());
            bytes
        }
        other => panic!("not a string: {:?}", other),
    };
    let encoded: String = bytes.iter().map(|b| format!("{:02x}", b)).collect();
    assert_eq!(encoded, "deadbeef0a1b");
    assert_eq!(value(hex_literal(b"<ABC>")), value(hex_literal(b"<ABC0>")));
    assert_eq!(value(hex_literal(b"<ABC>")), string(&[0xab, 0xc0]));
}

fn value(r: ParseResult<PdfObject>) -> PdfObject {
    match r {
        ParseResult::Done(_, v) => v,
        other => panic!("no value: {:?}", other),
    }
}

#[test]
fn names() {
    assert_eq!(name_object(b"/Type /Page"), ParseResult::Done(5, PdfObject::NameObject(b"Type".to_vec())));
    assert_eq!(name_object(b"/A#20B(x)"), ParseResult::Done(6, PdfObject::NameObject(b"A B".to_vec())));
    assert_eq!(name_object(b"/Name"), ParseResult::Done(5, PdfObject::NameObject(b"Name".to_vec())));
    assert_eq!(name_object(b"/"), ParseResult::Done(1, PdfObject::NameObject(Vec::new())));
    assert_eq!(name_object(b"/K]"), ParseResult::Done(2, PdfObject::NameObject(b"K".to_vec())));
    assert_eq!(name_object(b"/A#4G"), ParseResult::Error(ParseError::InvalidEscape));
    assert_eq!(name_object(b"/A#4"), ParseResult::Error(ParseError::InvalidEscape));
    assert_eq!(name_object(b"Name"), ParseResult::Error(ParseError::InvalidCharacter));
    assert_eq!(name_object(b""), ParseResult::Incomplete);
}
