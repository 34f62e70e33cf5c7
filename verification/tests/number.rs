use fdon_rs::number::{decode_number, float_literal, integer_literal};
use fdon_rs::parser::unescape;
use fdon_rs::scan::{find, find_any2, find_any3};
use fdon_rs::{excerpt, Excerpt, FdonErrorKind, FdonNumber};

#[test]
fn integers_decode_to_their_value() {
    assert_eq!(decode_number("0"), Ok(FdonNumber::Integer(0)));
    assert_eq!(decode_number("-17"), Ok(FdonNumber::Integer(-17)));
    assert_eq!(decode_number("+17"), Ok(FdonNumber::Integer(17)));
    assert_eq!(decode_number("1700000000"), Ok(FdonNumber::Integer(1700000000)));
    assert_eq!(decode_number("000000000000000000000000012"), Ok(FdonNumber::Integer(12)));
}

#[test]
fn integers_at_the_bounds() {
    assert_eq!(decode_number("9223372036854775807"), Ok(FdonNumber::Integer(i64::MAX)));
    assert_eq!(decode_number("-9223372036854775808"), Ok(FdonNumber::Integer(i64::MIN)));
    assert_eq!(decode_number("9223372036854775808"), Err(FdonErrorKind::InvalidInteger));
    assert_eq!(decode_number("-9223372036854775809"), Err(FdonErrorKind::InvalidInteger));
    assert_eq!(decode_number("99999999999999999999999"), Err(FdonErrorKind::InvalidInteger));
}

#[test]
fn malformed_integers_are_rejected() {
    for text in [&b"1N2"[..], b"-", b"+", b"abc", b"12a", b" 1", b"1 ", b"--1", b"1e5", b"0x10"] {
        let literal = std::str::from_utf8(text).unwrap();
        assert_eq!(decode_number(literal), Err(FdonErrorKind::InvalidInteger), "{:?}", literal);
        assert!(!integer_literal(text));
    }
}

#[test]
fn empty_number_is_rejected() {
    assert_eq!(decode_number(""), Err(FdonErrorKind::EmptyNumber));
}

#[test]
fn floats_keep_their_text() {
    for text in [
        &b"3.14"[..],
        b"-0.5",
        b"+2.5",
        b"1.",
        b".5",
        b"-.5",
        b"1.5e10",
        b"1.5E-3",
        b"1.e+7",
        b"0.000000000000000000000000000001",
        b"123456789012345678901234567890.5",
    ] {
        let literal = std::str::from_utf8(text).unwrap();
        assert_eq!(decode_number(literal), Ok(FdonNumber::Float(literal)), "{:?}", literal);
        assert!(float_literal(text));
        assert!(!integer_literal(text));
    }
}

#[test]
fn float_literals_are_what_the_float_decoder_takes() {
    for text in [
        &b"3.14"[..],
        b"-0.5",
        b"+2.5",
        b"1.",
        b".5",
        b"-.5",
        b"1.5e10",
        b"1.5E-3",
        b"1.e+7",
        b".",
        b"-.",
        b"1.2.3",
        b"1.5e",
        b"1.5e+",
        b"1.5x",
        b"e.5",
        b"1e.5",
        b"1.5e1.0",
        b"nan.",
        b"inf.",
        b"1..",
        b" 1.5",
        b"1.5 ",
        b"--1.5",
    ] {
        let taken = fast_float::parse::<f64, _>(text).is_ok();
        assert_eq!(float_literal(text), taken, "{:?}", text);
    }
}

#[test]
fn malformed_floats_are_rejected() {
    for text in [&b"."[..], b"-.", b"1.2.3", b"1.5e", b"1.5e+", b"1.5x", b"e.5", b"1e.5", b"a.b"] {
        let literal = std::str::from_utf8(text).unwrap();
        assert_eq!(decode_number(literal), Err(FdonErrorKind::InvalidFloat), "{:?}", literal);
    }
}

#[test]
fn float_text_gives_the_float() {
    match decode_number("-12.5e2") {
        Ok(FdonNumber::Float(text)) => {
            let value: f64 = fast_float::parse(text).unwrap();
            assert_eq!(value, -1250.0);
        }
        other => panic!("no float: {:?}", other),
    }
}

#[test]
fn find_gives_the_first_position_at_or_after_the_start() {
    let data = b"a:b:c";
    assert_eq!(find(data, 0, b':'), Some(1));
    assert_eq!(find(data, 1, b':'), Some(1));
    assert_eq!(find(data, 2, b':'), Some(3));
    assert_eq!(find(data, 4, b':'), None);
    assert_eq!(find(data, 5, b':'), None);
    assert_eq!(find(b"", 0, b':'), None);
}

#[test]
fn find_any_gives_the_first_of_the_bytes() {
    let data = b"ab\\cd\"ef";
    assert_eq!(find_any2(data, 0, b'\\', b'"'), Some(2));
    assert_eq!(find_any2(data, 3, b'\\', b'"'), Some(5));
    assert_eq!(find_any2(data, 6, b'\\', b'"'), None);
    let data = b"12]34}56,78";
    assert_eq!(find_any3(data, 0, b',', b'}', b']'), Some(2));
    assert_eq!(find_any3(data, 3, b',', b'}', b']'), Some(5));
    assert_eq!(find_any3(data, 6, b',', b'}', b']'), Some(8));
    assert_eq!(find_any3(data, 9, b',', b'}', b']'), None);
}

#[test]
fn unescape_follows_the_table() {
    assert_eq!(unescape(b'n'), 0x0A);
    assert_eq!(unescape(b't'), 0x09);
    assert_eq!(unescape(b'r'), 0x0D);
    assert_eq!(unescape(b'"'), 0x22);
    assert_eq!(unescape(b'\\'), 0x5C);
    assert_eq!(unescape(b'a'), b'a');
    assert_eq!(unescape(0xC3), 0xC3);
}

#[test]
fn excerpt_of_a_short_buffer_is_the_whole_buffer() {
    assert_eq!(excerpt(0, 0), Excerpt { start: 0, end: 0, caret: 0, cut: false });
    assert_eq!(excerpt(9, 7), Excerpt { start: 0, end: 9, caret: 7, cut: false });
    assert_eq!(excerpt(100, 100), Excerpt { start: 0, end: 100, caret: 100, cut: false });
}

#[test]
fn excerpt_of_a_long_buffer_is_a_window_around_the_offset() {
    assert_eq!(excerpt(101, 0), Excerpt { start: 0, end: 100, caret: 0, cut: true });
    assert_eq!(excerpt(101, 50), Excerpt { start: 0, end: 100, caret: 50, cut: true });
    assert_eq!(excerpt(101, 51), Excerpt { start: 1, end: 101, caret: 50, cut: true });
    assert_eq!(excerpt(1000, 500), Excerpt { start: 450, end: 550, caret: 50, cut: true });
    assert_eq!(excerpt(1000, 990), Excerpt { start: 940, end: 1000, caret: 50, cut: true });
    assert_eq!(excerpt(1000, 1000), Excerpt { start: 950, end: 1000, caret: 50, cut: true });
}

#[test]
fn every_kind_of_failure_has_its_words() {
    assert_eq!(FdonErrorKind::UnexpectedEof.message(), "Unexpected EOF");
    assert_eq!(
        FdonErrorKind::Expected { expected: b'{', found: None }.message(),
        "Unexpected byte"
    );
    assert_eq!(FdonErrorKind::UnknownTag { tag: b'X' }.message(), "Unknown data type specifier");
    assert_eq!(FdonErrorKind::InvalidBoolean.message(), "Invalid boolean value");
    assert_eq!(FdonErrorKind::EmptyNumber.message(), "Empty number value");
    assert_eq!(
        FdonErrorKind::InvalidInteger.message(),
        "Invalid integer format or out of range"
    );
    assert_eq!(FdonErrorKind::InvalidFloat.message(), "Invalid float format");
    assert_eq!(FdonErrorKind::UnterminatedKey.message(), "EOF while reading key (':' not found)");
    assert_eq!(
        FdonErrorKind::UnterminatedString.message(),
        "EOF while reading string ('\"' not found)"
    );
    assert_eq!(
        FdonErrorKind::UnterminatedEscapedString.message(),
        "EOF while reading escaped string ('\"' not found)"
    );
    assert_eq!(FdonErrorKind::EofAfterEscape.message(), "EOF after escape character '\\'");
    assert_eq!(
        FdonErrorKind::TrailingCommaInObject.message(),
        "Trailing comma detected in object"
    );
    assert_eq!(FdonErrorKind::TrailingCommaInArray.message(), "Trailing comma detected in array");
    assert_eq!(FdonErrorKind::MissingCommaInObject.message(), "Missing comma or '}' in object");
    assert_eq!(FdonErrorKind::MissingCommaInArray.message(), "Missing comma or ']' in array");
    assert_eq!(FdonErrorKind::ExtraData.message(), "Extra data detected at end of file");
}
