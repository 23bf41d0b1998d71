use pdf::object::{Decimal, Dictionary, ParseError, ParseResult, PdfObject};
use pdf::parser::{
    array, dictionary, direct_object, direct_object_within, indirect_object, stream_or_dictionary,
};
use pdf::XRef;

fn value(r: ParseResult<PdfObject>) -> PdfObject {
    match r {
        ParseResult::Done(_, v) => v,
        other => panic!("no value: {:?}", other),
    }
}

fn dict_of(r: ParseResult<PdfObject>) -> Dictionary {
    match value(r) {
        PdfObject::Dictionary(d) => d,
        other => panic!("not a dictionary: {:?}", other),
    }
}

#[test]
fn dispatches_on_the_first_byte() {
    let xref = XRef::new();
    let data: &[u8] = b"";
    assert_eq!(direct_object(b"null", &xref, data), ParseResult::Done(4, PdfObject::Null));
    assert_eq!(direct_object(b"true", &xref, data), ParseResult::Done(4, PdfObject::Boolean(true)));
    assert_eq!(direct_object(b"42 ", &xref, data), ParseResult::Done(2, PdfObject::Integer(42)));
    assert_eq!(direct_object(b"4 0 R", &xref, data), ParseResult::Done(5, PdfObject::Reference(4, 0)));
    assert_eq!(direct_object(b"4 0 obj", &xref, data), ParseResult::Done(1, PdfObject::Integer(4)));
    assert_eq!(
        direct_object(b"-1.5", &xref, data),
        ParseResult::Done(
            4,
            PdfObject::Real(Decimal { negative: true, integral: b"1".to_vec(), fraction: b"5".to_vec() })
        )
    );
    assert_eq!(direct_object(b"-7", &xref, data), ParseResult::Done(2, PdfObject::Integer(-7)));
    assert_eq!(direct_object(b"<41>", &xref, data), ParseResult::Done(4, PdfObject::String(b"A".to_vec())));
    assert_eq!(direct_object(b"(x)", &xref, data), ParseResult::Done(3, PdfObject::String(b"x".to_vec())));
    assert_eq!(direct_object(b"/N", &xref, data), ParseResult::Done(2, PdfObject::NameObject(b"N".to_vec())));
    assert_eq!(direct_object(b"", &xref, data), ParseResult::Incomplete);
    assert_eq!(direct_object(b")", &xref, data), ParseResult::Error(ParseError::UnexpectedCharacter));
    assert_eq!(direct_object(b"]", &xref, data), ParseResult::Error(ParseError::UnexpectedCharacter));
    assert_eq!(direct_object(b"@", &xref, data), ParseResult::Error(ParseError::UnexpectedCharacter));
}

#[test]
fn array_of_every_kind() {
    let xref = XRef::new();
    let input: &[u8] = b"[1 2.0 /Name (str) [3] << /K true >>] rest";
    let result = array(input, &xref, input);
    let items = match result {
        ParseResult::Done(n, PdfObject::Array(items)) => {
            assert_eq!(n, 37);
            items
        }
        other => panic!("not an array: {:?}", other),
    };
    assert_eq!(items.len(), 6);
    assert_eq!(items[0], PdfObject::Integer(1));
    assert_eq!(
        items[1],
        PdfObject::Real(Decimal { negative: false, integral: b"2".to_vec(), fraction: b"0".to_vec() })
    );
    assert_eq!(items[2], PdfObject::NameObject(b"Name".to_vec()));
    assert_eq!(items[3], PdfObject::String(b"str".to_vec()));
    assert_eq!(items[4], PdfObject::Array(vec![PdfObject::Integer(3)]));
    let mut inner = Dictionary::new();
    inner.insert(b"K".to_vec(), PdfObject::Boolean(true));
    assert_eq!(items[5], PdfObject::Dictionary(inner));
}

#[test]
fn array_with_comments_and_whitespace() {
    let xref = XRef::new();
    let input: &[u8] = b"[ % first\n 1 %second\r\n 2\t]";
    assert_eq!(
        array(input, &xref, input),
        ParseResult::Done(input.len(), PdfObject::Array(vec![PdfObject::Integer(1), PdfObject::Integer(2)]))
    );
    assert_eq!(array(b"[]", &xref, input), ParseResult::Done(2, PdfObject::Array(Vec::new())));
    assert_eq!(array(b"[1 2", &xref, input), ParseResult::Incomplete);
    assert_eq!(array(b"[1 )", &xref, input), ParseResult::Error(ParseError::UnexpectedCharacter));
    assert_eq!(array(b"(1)", &xref, input), ParseResult::Error(ParseError::InvalidCharacter));
}

#[test]
fn nesting_is_bounded() {
    let xref = XRef::new();
    let data: &[u8] = b"";
    assert_eq!(
        direct_object_within(b"[[1]]", &xref, data, 1),
        ParseResult::Error(ParseError::DepthExceeded)
    );
    assert_eq!(
        direct_object_within(b"[[1]]", &xref, data, 2),
        ParseResult::Done(5, PdfObject::Array(vec![PdfObject::Array(vec![PdfObject::Integer(1)])]))
    );
    let deep: Vec<u8> = std::iter::repeat(b'[').take(100).chain(std::iter::repeat(b']').take(100)).collect();
    assert_eq!(direct_object(&deep, &xref, data), ParseResult::Error(ParseError::DepthExceeded));
}

#[test]
fn dictionary_ignores_key_order() {
    let xref = XRef::new();
    let data: &[u8] = b"";
    let ab = dict_of(dictionary(b"<< /A 1 /B 2 >>", &xref, data));
    let ba = dict_of(dictionary(b"<< /B 2 /A 1 >>", &xref, data));
    assert_eq!(ab.len(), 2);
    assert_eq!(ba.len(), 2);
    for key in [b"A".as_ref(), b"B".as_ref()] {
        assert_eq!(ab.get(key), ba.get(key));
    }
    assert_eq!(ab.get(b"A"), Some(&PdfObject::Integer(1)));
    assert_eq!(ab.get(b"B"), Some(&PdfObject::Integer(2)));
    assert_eq!(ab.get(b"C"), None);
}

#[test]
fn dictionary_drops_null_values() {
    let xref = XRef::new();
    let data: &[u8] = b"";
    let d = dict_of(dictionary(b"<< /A null >>", &xref, data));
    assert_eq!(d.len(), 0);
    assert_eq!(d.get(b"A"), None);
    let d = dict_of(dictionary(b"<</A 1/A null>>", &xref, data));
    assert_eq!(d.get(b"A"), Some(&PdfObject::Integer(1)));
}

#[test]
fn dictionary_keeps_the_last_duplicate() {
    let xref = XRef::new();
    let data: &[u8] = b"";
    let d = dict_of(dictionary(b"<</A 1 /A (two)>>", &xref, data));
    assert_eq!(d.len(), 1);
    assert_eq!(d.get(b"A"), Some(&PdfObject::String(b"two".to_vec())));
}

#[test]
fn dictionary_errors() {
    let xref = XRef::new();
    let data: &[u8] = b"";
    assert_eq!(dictionary(b"<< /A 1", &xref, data), ParseResult::Incomplete);
    assert_eq!(dictionary(b"<< /A 1 >", &xref, data), ParseResult::Incomplete);
    assert_eq!(dictionary(b"<< /A 1 >x", &xref, data), ParseResult::Error(ParseError::InvalidCharacter));
    assert_eq!(dictionary(b"<< 1 2 >>", &xref, data), ParseResult::Error(ParseError::InvalidCharacter));
    assert_eq!(dictionary(b"<x", &xref, data), ParseResult::Error(ParseError::InvalidCharacter));
    assert_eq!(dictionary(b"<", &xref, data), ParseResult::Incomplete);
}

fn document_with_length_object() -> (Vec<u8>, XRef) {
    let mut data = b"<< /Length 5 0 R >>\nstream\n1234567\nendstream\n".to_vec();
    while data.len() < 100 {
        data.push(b' ');
    }
    data.extend_from_slice(b"5 0 obj 7 endobj");
    let mut xref = XRef::new();
    xref.add_entry(5, 100, 0, true);
    (data, xref)
}

#[test]
fn stream_length_through_a_reference() {
    let (data, xref) = document_with_length_object();
    match stream_or_dictionary(&data, &xref, &data) {
        ParseResult::Done(n, PdfObject::Stream(dict, payload)) => {
            assert_eq!(payload, b"1234567".to_vec());
            assert_eq!(n, 44);
            assert_eq!(dict.get(b"Length"), Some(&PdfObject::Reference(5, 0)));
        }
        other => panic!("not a stream: {:?}", other),
    }
}

#[test]
fn stream_with_direct_length() {
    let xref = XRef::new();
    let input: &[u8] = b"<</Length 3>>\r\nstream\r\nabc\r\nendstream";
    match stream_or_dictionary(input, &xref, input) {
        ParseResult::Done(n, PdfObject::Stream(_, payload)) => {
            assert_eq!(n, input.len());
            assert_eq!(payload, b"abc".to_vec());
        }
        other => panic!("not a stream: {:?}", other),
    }
    let short: &[u8] = b"<</Length 30>>\nstream\nabc";
    assert_eq!(stream_or_dictionary(short, &xref, short), ParseResult::Incomplete);
}

#[test]
fn stream_length_errors() {
    let xref = XRef::new();
    let missing: &[u8] = b"<< /Other 3 >>\nstream\nabc\nendstream";
    assert_eq!(stream_or_dictionary(missing, &xref, missing), ParseResult::Error(ParseError::MissingKey));
    let wrong: &[u8] = b"<< /Length /Three >>\nstream\nabc\nendstream";
    assert_eq!(stream_or_dictionary(wrong, &xref, wrong), ParseResult::Error(ParseError::WrongType));
    let negative: &[u8] = b"<< /Length -3 >>\nstream\nabc\nendstream";
    assert_eq!(stream_or_dictionary(negative, &xref, negative), ParseResult::Error(ParseError::WrongType));
    let no_end: &[u8] = b"<< /Length 3 >>\nstream\nabc\nend";
    assert_eq!(stream_or_dictionary(no_end, &xref, no_end), ParseResult::Error(ParseError::InvalidCharacter));
}

#[test]
fn unresolvable_length_reference() {
    let (data, _) = document_with_length_object();
    let empty = XRef::new();
    assert_eq!(stream_or_dictionary(&data, &empty, &data), ParseResult::Error(ParseError::UnresolvableReference));
    let mut freed = XRef::new();
    freed.add_entry(5, 100, 0, false);
    assert_eq!(stream_or_dictionary(&data, &freed, &data), ParseResult::Error(ParseError::UnresolvableReference));
    let mut wrong_place = XRef::new();
    wrong_place.add_entry(5, 3, 0, true);
    assert_eq!(
        stream_or_dictionary(&data, &wrong_place, &data),
        ParseResult::Error(ParseError::UnresolvableReference)
    );
    let mut outside = XRef::new();
    outside.add_entry(5, 100_000, 0, true);
    assert_eq!(stream_or_dictionary(&data, &outside, &data), ParseResult::Error(ParseError::UnresolvableReference));
}

#[test]
fn dictionary_without_stream() {
    let xref = XRef::new();
    let input: &[u8] = b"<< /A 1 >>  endobj";
    match stream_or_dictionary(input, &xref, input) {
        ParseResult::Done(n, PdfObject::Dictionary(d)) => {
            assert_eq!(n, 12);
            assert_eq!(d.get(b"A"), Some(&PdfObject::Integer(1)));
        }
        other => panic!("not a dictionary: {:?}", other),
    }
}

#[test]
fn reference_resolution() {
    let (data, xref) = document_with_length_object();
    assert_eq!(PdfObject::Reference(5, 0).evaluate_reference(&xref, &data), Some(PdfObject::Integer(7)));
    assert_eq!(PdfObject::Reference(6, 0).evaluate_reference(&xref, &data), None);
    assert_eq!(PdfObject::Reference(-1, 0).evaluate_reference(&xref, &data), None);
    assert_eq!(PdfObject::Integer(5).evaluate_reference(&xref, &data), None);
    assert_eq!(PdfObject::Reference(5, 0).evaluate_reference_within(&xref, &data, 0), None);
}

#[test]
fn indirect_objects() {
    let xref = XRef::new();
    let input: &[u8] = b"12 0 obj\n(abc)\nendobj\n";
    assert_eq!(
        indirect_object(input, &xref, input),
        ParseResult::Done(21, PdfObject::Indirect(12, 0, Box::new(PdfObject::String(b"abc".to_vec()))))
    );
    let with_reference: &[u8] = b"1 0 obj 2 0 R endobj";
    assert_eq!(
        indirect_object(with_reference, &xref, with_reference),
        ParseResult::Done(20, PdfObject::Indirect(1, 0, Box::new(PdfObject::Reference(2, 0))))
    );
    assert_eq!(indirect_object(b"1 0 ob", &xref, input), ParseResult::Error(ParseError::InvalidCharacter));
    assert_eq!(indirect_object(b"1 0 obj 5 end", &xref, input), ParseResult::Error(ParseError::InvalidCharacter));
    assert_eq!(indirect_object(b"1 0 obj (ab", &xref, input), ParseResult::Incomplete);
    assert_eq!(
        indirect_object(b"9999999999 0 obj 1 endobj", &xref, input),
        ParseResult::Error(ParseError::NumericOverflow)
    );
}

#[test]
fn indirect_stream_object() {
    let (data, xref) = document_with_length_object();
    let mut object = b"3 0 obj ".to_vec();
    object.extend_from_slice(&data[..45]);
    object.extend_from_slice(b" endobj");
    match indirect_object(&object, &xref, &data) {
        ParseResult::Done(n, PdfObject::Indirect(3, 0, inner)) => {
            assert_eq!(n, object.len());
            match *inner {
                PdfObject::Stream(_, payload) => assert_eq!(payload, b"1234567".to_vec()),
                other => panic!("not a stream: {:?}", other),
            }
        }
        other => panic!("not an indirect object: {:?}", other),
    }
}

#[test]
fn dictionary_insert_and_get() {
    let mut d = Dictionary::new();
    assert_eq!(d.len(), 0);
    d.insert(b"A".to_vec(), PdfObject::Integer(1));
    d.insert(b"B".to_vec(), PdfObject::Null);
    assert_eq!(d.len(), 1);
    assert_eq!(d.get(b"B"), None);
    d.insert(b"A".to_vec(), PdfObject::Boolean(false));
    assert_eq!(d.len(), 1);
    assert_eq!(d.get(b"A"), Some(&PdfObject::Boolean(false)));
    d.insert(b"C".to_vec(), PdfObject::Integer(3));
    assert_eq!(d.len(), 2);
    assert_eq!(d.get(b"C"), Some(&PdfObject::Integer(3)));
}
