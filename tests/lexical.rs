use pdf::bytes::{
    eat_until_next_token, from_hex_char, is_delimiter, is_hex_digit, is_regular, is_space,
};
use pdf::object::{Decimal, ParseError, ParseResult, PdfObject};
use pdf::scalar::{boolean, from_bool_literal, integer, null, real_number, reference};
use pdf::{XRef, XRefEntry};

#[test]
fn classifies_bytes() {
    for c in [0x00u8, 0x09, 0x0A, 0x0C, 0x0D, 0x20] {
        assert!(is_space(c));
        assert!(!is_regular(c));
    }
    for c in b"()<>[]{}/%".iter() {
        assert!(is_delimiter(*c));
        assert!(!is_regular(*c));
    }
    assert!(is_regular(b'a'));
    assert!(is_regular(b'#'));
    assert!(!is_space(b'a'));
    assert!(!is_delimiter(b'a'));
}

#[test]
fn hex_digits() {
    assert!(is_hex_digit(b'0'));
    assert!(is_hex_digit(b'f'));
    assert!(is_hex_digit(b'F'));
    assert!(!is_hex_digit(b'g'));
    assert_eq!(from_hex_char(b'0'), 0);
    assert_eq!(from_hex_char(b'9'), 9);
    assert_eq!(from_hex_char(b'a'), 10);
    assert_eq!(from_hex_char(b'F'), 15);
}

#[test]
fn skips_whitespace_and_comments() {
    assert_eq!(eat_until_next_token(b"  \r\n\tnull"), 5);
    assert_eq!(eat_until_next_token(b"% a comment\n  /Name"), 14);
    assert_eq!(eat_until_next_token(b"%only a comment"), 15);
    assert_eq!(eat_until_next_token(b"% one\r% two\n7"), 12);
    assert_eq!(eat_until_next_token(b"x"), 0);
    assert_eq!(eat_until_next_token(b""), 0);
}

#[test]
fn cross_reference_table() {
    let mut xref = XRef::new();
    assert_eq!(xref.find_offset(5), None);
    xref.add_entry(5, 100, 0, true);
    xref.add_entry(6, 200, 1, false);
    assert_eq!(xref.get_offset(5), 100);
    assert_eq!(xref.find_offset(5), Some(100));
    assert_eq!(xref.find_offset(6), None);
    xref.add_entry(5, 300, 2, true);
    assert_eq!(xref.get_offset(5), 300);
    let entry = XRefEntry { offset: 300, generation: 2, in_use: true };
    assert_eq!(entry.offset, 300);
}

#[test]
fn keywords() {
    assert_eq!(null(b"null"), ParseResult::Done(4, PdfObject::Null));
    assert_eq!(null(b"nul"), ParseResult::Error(ParseError::InvalidCharacter));
    assert_eq!(boolean(b"true "), ParseResult::Done(4, PdfObject::Boolean(true)));
    assert_eq!(boolean(b"false]"), ParseResult::Done(5, PdfObject::Boolean(false)));
    assert_eq!(boolean(b"truth"), ParseResult::Error(ParseError::InvalidCharacter));
    assert!(from_bool_literal(b"true"));
    assert!(!from_bool_literal(b"false"));
}

#[test]
fn integers() {
    assert_eq!(integer(b"123 "), ParseResult::Done(3, PdfObject::Integer(123)));
    assert_eq!(integer(b"+17"), ParseResult::Done(3, PdfObject::Integer(17)));
    assert_eq!(integer(b"-98"), ParseResult::Done(3, PdfObject::Integer(-98)));
    assert_eq!(integer(b"0"), ParseResult::Done(1, PdfObject::Integer(0)));
    assert_eq!(integer(b"2147483647"), ParseResult::Done(10, PdfObject::Integer(i32::MAX)));
    assert_eq!(integer(b"-2147483648"), ParseResult::Done(11, PdfObject::Integer(i32::MIN)));
    assert_eq!(integer(b"2147483648"), ParseResult::Error(ParseError::NumericOverflow));
    assert_eq!(integer(b"99999999999999999999"), ParseResult::Error(ParseError::NumericOverflow));
    assert_eq!(integer(b"-"), ParseResult::Error(ParseError::InvalidCharacter));
    assert_eq!(integer(b"x"), ParseResult::Error(ParseError::InvalidCharacter));
}

fn written_back(literal: &[u8]) -> String {
    match integer(literal) {
        ParseResult::Done(n, PdfObject::Integer(v)) => {
            assert_eq!(n, literal.len());
            v.to_string()
        }
        other => panic!("not an integer: {:?}", other),
    }
}

#[test]
fn integers_read_back_in_normal_form() {
    assert_eq!(written_back(b"+007"), "7");
    assert_eq!(written_back(b"-000"), "0");
    assert_eq!(written_back(b"-0042"), "-42");
    assert_eq!(written_back(b"1000"), "1000");
    assert_eq!(written_back(b"-2147483648"), "-2147483648");
}

fn decimal(negative: bool, integral: &[u8], fraction: &[u8]) -> PdfObject {
    PdfObject::Real(Decimal { negative, integral: integral.to_vec(), fraction: fraction.to_vec() })
}

#[test]
fn reals() {
    assert_eq!(real_number(b"2.0 "), ParseResult::Done(3, decimal(false, b"2", b"0")));
    assert_eq!(real_number(b"-.5"), ParseResult::Done(3, decimal(true, b"", b"5")));
    assert_eq!(real_number(b"+4."), ParseResult::Done(3, decimal(false, b"4", b"")));
    assert_eq!(real_number(b"34.5678]"), ParseResult::Done(7, decimal(false, b"34", b"5678")));
    assert_eq!(real_number(b"-."), ParseResult::Error(ParseError::InvalidCharacter));
    assert_eq!(real_number(b"."), ParseResult::Error(ParseError::InvalidCharacter));
    assert_eq!(real_number(b"12"), ParseResult::Error(ParseError::InvalidCharacter));
}

#[test]
fn references() {
    assert_eq!(reference(b"5 0 R"), ParseResult::Done(5, PdfObject::Reference(5, 0)));
    assert_eq!(reference(b"12  3\nR /X"), ParseResult::Done(7, PdfObject::Reference(12, 3)));
    assert_eq!(reference(b"5 0 obj"), ParseResult::Error(ParseError::InvalidCharacter));
    assert_eq!(reference(b"5 R"), ParseResult::Error(ParseError::InvalidCharacter));
    assert_eq!(reference(b"3000000000 0 R"), ParseResult::Error(ParseError::NumericOverflow));
}
