use bumpalo::Bump;
use fdon_rs::{
    minify_fdon, parse_fdon_zero_copy_arena, FdonErrorKind, FdonNumber, FdonParseError,
    FdonParser, FdonValue,
};

fn fault(input: &str) -> FdonParseError {
    let arena = Bump::new();
    let parsed = parse_fdon_zero_copy_arena(input, &arena);
    match parsed {
        Ok(value) => panic!("parsed to {:?}", value),
        Err(fault) => fault,
    }
}

fn float_of(value: &FdonValue) -> f64 {
    match value {
        FdonValue::Number(FdonNumber::Float(text)) => fast_float::parse(text).unwrap(),
        other => panic!("no float: {:?}", other),
    }
}

fn integer_of(value: &FdonValue) -> i64 {
    match value {
        FdonValue::Number(FdonNumber::Integer(v)) => *v,
        other => panic!("no integer: {:?}", other),
    }
}

#[test]
fn empty_object_parses_to_empty_container() {
    let arena = Bump::new();
    let value = parse_fdon_zero_copy_arena("O{}", &arena).unwrap();
    match value {
        FdonValue::Object(entries) => {
            assert_eq!(entries.len(), 0);
            assert!(entries.keys().is_empty());
        }
        other => panic!("no object: {:?}", other),
    }
}

#[test]
fn empty_array_parses_to_empty_container() {
    let arena = Bump::new();
    let value = parse_fdon_zero_copy_arena("A[]", &arena).unwrap();
    match value {
        FdonValue::Array(items) => {
            assert_eq!(items.len(), 0);
            assert!(items.get(0).is_none());
        }
        other => panic!("no array: {:?}", other),
    }
}

#[test]
fn trailing_comma_in_object_is_an_error() {
    assert_eq!(
        fault("O{a:N1,}"),
        FdonParseError { kind: FdonErrorKind::TrailingCommaInObject, offset: 7 }
    );
}

#[test]
fn trailing_comma_in_array_is_an_error() {
    assert_eq!(
        fault("A[N1,]"),
        FdonParseError { kind: FdonErrorKind::TrailingCommaInArray, offset: 5 }
    );
}

#[test]
fn extra_bytes_after_the_value_are_an_error() {
    assert_eq!(fault("UU"), FdonParseError { kind: FdonErrorKind::ExtraData, offset: 1 });
    assert_eq!(fault("A[]x"), FdonParseError { kind: FdonErrorKind::ExtraData, offset: 3 });
    assert_eq!(fault("Btruefalse"), FdonParseError { kind: FdonErrorKind::ExtraData, offset: 5 });
}

#[test]
fn top_level_null() {
    let arena = Bump::new();
    assert!(matches!(parse_fdon_zero_copy_arena("U", &arena), Ok(FdonValue::Null)));
}

#[test]
fn top_level_booleans() {
    let arena = Bump::new();
    assert!(matches!(parse_fdon_zero_copy_arena("Btrue", &arena), Ok(FdonValue::Bool(true))));
    assert!(matches!(parse_fdon_zero_copy_arena("Bfalse", &arena), Ok(FdonValue::Bool(false))));
}

#[test]
fn top_level_integers() {
    let arena = Bump::new();
    assert_eq!(integer_of(&parse_fdon_zero_copy_arena("N0", &arena).unwrap()), 0);
    assert_eq!(integer_of(&parse_fdon_zero_copy_arena("N-1", &arena).unwrap()), -1);
    assert_eq!(integer_of(&parse_fdon_zero_copy_arena("N+5", &arena).unwrap()), 5);
    assert_eq!(integer_of(&parse_fdon_zero_copy_arena("N0042", &arena).unwrap()), 42);
}

#[test]
fn top_level_float() {
    let arena = Bump::new();
    let value = parse_fdon_zero_copy_arena("N3.14", &arena).unwrap();
    assert!(matches!(value, FdonValue::Number(FdonNumber::Float(text)) if text == "3.14"));
    assert_eq!(float_of(&value), 3.14);
}

#[test]
fn top_level_timestamp() {
    let arena = Bump::new();
    assert!(matches!(
        parse_fdon_zero_copy_arena("T1700000000", &arena),
        Ok(FdonValue::Timestamp(FdonNumber::Integer(1700000000)))
    ));
    assert!(matches!(
        parse_fdon_zero_copy_arena("T1.5", &arena),
        Ok(FdonValue::Timestamp(FdonNumber::Float(text))) if text == "1.5"
    ));
}

#[test]
fn top_level_time() {
    let arena = Bump::new();
    assert!(matches!(
        parse_fdon_zero_copy_arena("T\"12:00:00\"", &arena),
        Ok(FdonValue::Time(text)) if text == "12:00:00"
    ));
}

#[test]
fn top_level_date() {
    let arena = Bump::new();
    assert!(matches!(
        parse_fdon_zero_copy_arena("D\"2024-01-01\"", &arena),
        Ok(FdonValue::Date(text)) if text == "2024-01-01"
    ));
}

#[test]
fn top_level_raw_string() {
    let arena = Bump::new();
    assert!(matches!(
        parse_fdon_zero_copy_arena("S\"abc\"", &arena),
        Ok(FdonValue::RawString(text)) if text == "abc"
    ));
    assert!(matches!(
        parse_fdon_zero_copy_arena("S\"\"", &arena),
        Ok(FdonValue::RawString(text)) if text.is_empty()
    ));
}

#[test]
fn raw_string_keeps_backslashes() {
    let arena = Bump::new();
    assert!(matches!(
        parse_fdon_zero_copy_arena("S\"a\\nb\"", &arena),
        Ok(FdonValue::RawString(text)) if text == "a\\nb"
    ));
}

#[test]
fn top_level_escaped_string() {
    let arena = Bump::new();
    let value = parse_fdon_zero_copy_arena("SE\"a\\nb\"", &arena).unwrap();
    match value {
        FdonValue::EscapedString(buffer) => assert_eq!(buffer.as_str(), "a\nb"),
        other => panic!("no escaped string: {:?}", other),
    }
}

#[test]
fn object_with_one_raw_string() {
    let arena = Bump::new();
    let value = parse_fdon_zero_copy_arena("O{k:S\"v\"}", &arena).unwrap();
    match value {
        FdonValue::Object(entries) => {
            assert_eq!(entries.len(), 1);
            assert_eq!(entries.keys(), vec!["k"]);
            assert!(matches!(entries.get("k"), Some(FdonValue::RawString(text)) if *text == "v"));
            assert!(entries.get("v").is_none());
        }
        other => panic!("no object: {:?}", other),
    }
}

#[test]
fn array_of_three_integers() {
    let arena = Bump::new();
    let value = parse_fdon_zero_copy_arena("A[N1,N2,N3]", &arena).unwrap();
    match value {
        FdonValue::Array(items) => {
            assert_eq!(items.len(), 3);
            assert_eq!(integer_of(items.get(0).unwrap()), 1);
            assert_eq!(integer_of(items.get(1).unwrap()), 2);
            assert_eq!(integer_of(items.get(2).unwrap()), 3);
            assert!(items.get(3).is_none());
        }
        other => panic!("no array: {:?}", other),
    }
}

#[test]
fn object_with_nested_array() {
    let arena = Bump::new();
    let value = parse_fdon_zero_copy_arena("O{a:N1,b:A[Btrue,U]}", &arena).unwrap();
    match value {
        FdonValue::Object(entries) => {
            assert_eq!(entries.len(), 2);
            assert_eq!(integer_of(entries.get("a").unwrap()), 1);
            match entries.get("b").unwrap() {
                FdonValue::Array(items) => {
                    assert_eq!(items.len(), 2);
                    assert!(matches!(items.get(0), Some(FdonValue::Bool(true))));
                    assert!(matches!(items.get(1), Some(FdonValue::Null)));
                }
                other => panic!("no array: {:?}", other),
            }
        }
        other => panic!("no object: {:?}", other),
    }
}

#[test]
fn escaped_string_with_line_feed_and_quote() {
    let arena = Bump::new();
    let value = parse_fdon_zero_copy_arena("SE\"a\\n\\\"b\"", &arena).unwrap();
    match value {
        FdonValue::EscapedString(buffer) => {
            assert_eq!(buffer.as_str(), "a\n\"b");
        }
        other => panic!("no escaped string: {:?}", other),
    }
}

#[test]
fn escaped_string_table() {
    let arena = Bump::new();
    let value = parse_fdon_zero_copy_arena("SE\"\\n\\t\\r\\\"\\\\\\a\\N|tail\"", &arena).unwrap();
    match value {
        FdonValue::EscapedString(buffer) => {
            assert_eq!(buffer.as_str(), "\n\t\r\"\\aN|tail");
        }
        other => panic!("no escaped string: {:?}", other),
    }
}

#[test]
fn escaped_string_without_escapes_and_empty() {
    let arena = Bump::new();
    let value = parse_fdon_zero_copy_arena("SE\"plain text\"", &arena).unwrap();
    match value {
        FdonValue::EscapedString(buffer) => assert_eq!(buffer.as_str(), "plain text"),
        other => panic!("no escaped string: {:?}", other),
    }
    let value = parse_fdon_zero_copy_arena("SE\"\"", &arena).unwrap();
    match value {
        FdonValue::EscapedString(buffer) => assert!(buffer.is_empty()),
        other => panic!("no escaped string: {:?}", other),
    }
}

#[test]
fn object_with_timestamp_and_time() {
    let arena = Bump::new();
    let value = parse_fdon_zero_copy_arena("O{t:T1700000000,s:T\"10:00\"}", &arena).unwrap();
    match value {
        FdonValue::Object(entries) => {
            assert_eq!(entries.len(), 2);
            assert!(matches!(
                entries.get("t"),
                Some(FdonValue::Timestamp(FdonNumber::Integer(1700000000)))
            ));
            assert!(matches!(entries.get("s"), Some(FdonValue::Time(text)) if *text == "10:00"));
        }
        other => panic!("no object: {:?}", other),
    }
}

#[test]
fn spaced_document_minifies_and_parses() {
    let minified = minify_fdon("  O {  k : N 3.5 }  ");
    assert_eq!(minified, "O{k:N3.5}");
    let arena = Bump::new();
    let value = parse_fdon_zero_copy_arena(&minified, &arena).unwrap();
    match value {
        FdonValue::Object(entries) => {
            assert_eq!(entries.len(), 1);
            assert_eq!(float_of(entries.get("k").unwrap()), 3.5);
        }
        other => panic!("no object: {:?}", other),
    }
}

#[test]
fn valid_documents_parse_after_minify() {
    for input in [
        " U ",
        "B true",
        "A [ ]",
        "O { }",
        "O {\n  name : S \"Ada Lovelace\",\n  born : D \"1815-12-10\",\n  tags : A [ S\"a b\" , SE \"c \\\" d\" ],\n  n : N -12 ,\n  t : T 1700000000\n}\n",
    ] {
        let minified = minify_fdon(input);
        let arena = Bump::new();
        assert!(parse_fdon_zero_copy_arena(&minified, &arena).is_ok(), "{}", input);
    }
}

#[test]
fn missing_comma_between_numbers() {
    let minified = minify_fdon("A[N1 N2]");
    assert_eq!(minified, "A[N1N2]");
    assert_eq!(
        fault(&minified),
        FdonParseError { kind: FdonErrorKind::InvalidInteger, offset: 3 }
    );
}

#[test]
fn missing_comma_between_values() {
    assert_eq!(
        fault("A[UU]"),
        FdonParseError { kind: FdonErrorKind::MissingCommaInArray, offset: 3 }
    );
    assert_eq!(
        fault("A[U"),
        FdonParseError { kind: FdonErrorKind::MissingCommaInArray, offset: 3 }
    );
    assert_eq!(
        fault("O{a:Ub:U}"),
        FdonParseError { kind: FdonErrorKind::MissingCommaInObject, offset: 5 }
    );
    assert_eq!(
        fault("O{a:U"),
        FdonParseError { kind: FdonErrorKind::MissingCommaInObject, offset: 5 }
    );
}

#[test]
fn number_alone_is_empty() {
    assert_eq!(fault("N"), FdonParseError { kind: FdonErrorKind::EmptyNumber, offset: 1 });
    assert_eq!(fault("A[N,N1]"), FdonParseError { kind: FdonErrorKind::EmptyNumber, offset: 3 });
    assert_eq!(fault("T"), FdonParseError { kind: FdonErrorKind::EmptyNumber, offset: 1 });
}

#[test]
fn unterminated_escaped_string() {
    assert_eq!(
        fault("SE\"abc"),
        FdonParseError { kind: FdonErrorKind::UnterminatedEscapedString, offset: 3 }
    );
    assert_eq!(
        fault("SE\"a\\nbc"),
        FdonParseError { kind: FdonErrorKind::UnterminatedEscapedString, offset: 6 }
    );
}

#[test]
fn backslash_at_the_end() {
    assert_eq!(
        fault("SE\"abc\\"),
        FdonParseError { kind: FdonErrorKind::EofAfterEscape, offset: 7 }
    );
}

#[test]
fn unterminated_raw_string() {
    assert_eq!(
        fault("S\"abc"),
        FdonParseError { kind: FdonErrorKind::UnterminatedString, offset: 2 }
    );
    assert_eq!(
        fault("D\""),
        FdonParseError { kind: FdonErrorKind::UnterminatedString, offset: 2 }
    );
}

#[test]
fn unknown_tag() {
    assert_eq!(
        fault("Xfoo"),
        FdonParseError { kind: FdonErrorKind::UnknownTag { tag: b'X' }, offset: 0 }
    );
    assert_eq!(
        fault("A[U,x]"),
        FdonParseError { kind: FdonErrorKind::UnknownTag { tag: b'x' }, offset: 4 }
    );
}

#[test]
fn end_of_input_at_a_tag() {
    assert_eq!(fault(""), FdonParseError { kind: FdonErrorKind::UnexpectedEof, offset: 0 });
    assert_eq!(fault("A["), FdonParseError { kind: FdonErrorKind::UnexpectedEof, offset: 2 });
    assert_eq!(fault("A[U,"), FdonParseError { kind: FdonErrorKind::UnexpectedEof, offset: 4 });
    assert_eq!(fault("O{k:"), FdonParseError { kind: FdonErrorKind::UnexpectedEof, offset: 4 });
}

#[test]
fn expected_byte_missing() {
    assert_eq!(
        fault("Ox"),
        FdonParseError {
            kind: FdonErrorKind::Expected { expected: b'{', found: Some(b'x') },
            offset: 1
        }
    );
    assert_eq!(
        fault("A"),
        FdonParseError { kind: FdonErrorKind::Expected { expected: b'[', found: None }, offset: 1 }
    );
    assert_eq!(
        fault("Dx"),
        FdonParseError {
            kind: FdonErrorKind::Expected { expected: b'"', found: Some(b'x') },
            offset: 1
        }
    );
    assert_eq!(
        fault("SEx"),
        FdonParseError {
            kind: FdonErrorKind::Expected { expected: b'"', found: Some(b'x') },
            offset: 2
        }
    );
    assert_eq!(
        fault("S"),
        FdonParseError { kind: FdonErrorKind::Expected { expected: b'"', found: None }, offset: 1 }
    );
}

#[test]
fn invalid_boolean() {
    assert_eq!(fault("B"), FdonParseError { kind: FdonErrorKind::InvalidBoolean, offset: 1 });
    assert_eq!(fault("Btru"), FdonParseError { kind: FdonErrorKind::InvalidBoolean, offset: 1 });
    assert_eq!(fault("BTrue"), FdonParseError { kind: FdonErrorKind::InvalidBoolean, offset: 1 });
    assert_eq!(fault("A[Bfals]"), FdonParseError { kind: FdonErrorKind::InvalidBoolean, offset: 3 });
}

#[test]
fn key_without_colon() {
    assert_eq!(fault("O{"), FdonParseError { kind: FdonErrorKind::UnterminatedKey, offset: 2 });
    assert_eq!(fault("O{abc"), FdonParseError { kind: FdonErrorKind::UnterminatedKey, offset: 2 });
    assert_eq!(
        fault("O{a:U,b}"),
        FdonParseError { kind: FdonErrorKind::UnterminatedKey, offset: 6 }
    );
}

#[test]
fn keys_hold_any_byte_but_a_colon() {
    let arena = Bump::new();
    let value = parse_fdon_zero_copy_arena("O{:U,a{\"b,}]:N7}", &arena).unwrap();
    match value {
        FdonValue::Object(entries) => {
            assert_eq!(entries.len(), 2);
            assert!(matches!(entries.get(""), Some(FdonValue::Null)));
            assert_eq!(integer_of(entries.get("a{\"b,}]").unwrap()), 7);
        }
        other => panic!("no object: {:?}", other),
    }
}

#[test]
fn duplicate_keys_keep_the_last_value() {
    let arena = Bump::new();
    let value = parse_fdon_zero_copy_arena("O{a:N1,b:N2,a:N3}", &arena).unwrap();
    match value {
        FdonValue::Object(entries) => {
            assert_eq!(entries.len(), 2);
            let mut keys = entries.keys();
            keys.sort();
            assert_eq!(keys, vec!["a", "b"]);
            assert_eq!(integer_of(entries.get("a").unwrap()), 3);
            assert_eq!(integer_of(entries.get("b").unwrap()), 2);
        }
        other => panic!("no object: {:?}", other),
    }
}

#[test]
fn containers_hold_as_many_entries_as_the_text() {
    let arena = Bump::new();
    let mut text = String::from("A[");
    for i in 0..100 {
        if i > 0 {
            text.push(',');
        }
        text.push_str(&format!("N{}", i));
    }
    text.push(']');
    let value = parse_fdon_zero_copy_arena(&text, &arena).unwrap();
    match value {
        FdonValue::Array(items) => {
            assert_eq!(items.len(), 100);
            for i in 0..100 {
                assert_eq!(integer_of(items.get(i).unwrap()), i as i64);
            }
        }
        other => panic!("no array: {:?}", other),
    }
    let mut text = String::from("O{");
    for i in 0..100 {
        if i > 0 {
            text.push(',');
        }
        text.push_str(&format!("k{}:N{}", i, i));
    }
    text.push('}');
    let value = parse_fdon_zero_copy_arena(&text, &arena).unwrap();
    match value {
        FdonValue::Object(entries) => {
            assert_eq!(entries.len(), 100);
            assert_eq!(entries.keys().len(), 100);
            for i in 0..100 {
                let key = format!("k{}", i);
                assert_eq!(integer_of(entries.get(&key).unwrap()), i as i64);
            }
        }
        other => panic!("no object: {:?}", other),
    }
}

#[test]
fn borrowed_slices_lie_within_the_buffer() {
    let data = String::from("O{key:S\"raw\",d:D\"2024\",t:T\"10:00\",f:N1.5}");
    let range = data.as_bytes().as_ptr_range();
    let within = |slice: &str| {
        let r = slice.as_bytes().as_ptr_range();
        range.start <= r.start && r.end <= range.end
    };
    let arena = Bump::new();
    let value = parse_fdon_zero_copy_arena(&data, &arena).unwrap();
    match value {
        FdonValue::Object(entries) => {
            for key in entries.keys() {
                assert!(within(key));
            }
            assert!(matches!(entries.get("key"), Some(FdonValue::RawString(t)) if within(t)));
            assert!(matches!(entries.get("d"), Some(FdonValue::Date(t)) if within(t)));
            assert!(matches!(entries.get("t"), Some(FdonValue::Time(t)) if within(t)));
            assert!(matches!(
                entries.get("f"),
                Some(FdonValue::Number(FdonNumber::Float(t))) if within(t)
            ));
        }
        other => panic!("no object: {:?}", other),
    }
}

#[test]
fn nested_containers() {
    let arena = Bump::new();
    let value = parse_fdon_zero_copy_arena("A[A[],A[A[U]],O{a:O{}}]", &arena).unwrap();
    match value {
        FdonValue::Array(items) => {
            assert_eq!(items.len(), 3);
            assert!(matches!(items.get(0), Some(FdonValue::Array(inner)) if inner.len() == 0));
            match items.get(1).unwrap() {
                FdonValue::Array(inner) => {
                    assert_eq!(inner.len(), 1);
                    assert!(matches!(inner.get(0), Some(FdonValue::Array(last)) if last.len() == 1));
                }
                other => panic!("no array: {:?}", other),
            }
            match items.get(2).unwrap() {
                FdonValue::Object(entries) => {
                    assert!(matches!(entries.get("a"), Some(FdonValue::Object(e)) if e.len() == 0));
                }
                other => panic!("no object: {:?}", other),
            }
        }
        other => panic!("no array: {:?}", other),
    }
}

#[test]
fn parser_reads_one_document() {
    let arena = Bump::new();
    let mut parser = FdonParser::new("A[U,Bfalse]", &arena);
    let value = parser.parse().unwrap();
    match value {
        FdonValue::Array(items) => assert_eq!(items.len(), 2),
        other => panic!("no array: {:?}", other),
    }
    assert_eq!(
        parser.parse().unwrap_err(),
        FdonParseError { kind: FdonErrorKind::UnexpectedEof, offset: 11 }
    );
}

#[test]
fn first_fault_ends_the_parse() {
    assert_eq!(
        fault("A[N1.2.3,Xfoo"),
        FdonParseError { kind: FdonErrorKind::InvalidFloat, offset: 3 }
    );
}

#[test]
fn equal_texts_parse_to_equal_trees() {
    let arena = Bump::new();
    let one = parse_fdon_zero_copy_arena("O{a:A[N1,S\"x\"],b:SE\"y\\n\"}", &arena).unwrap();
    let two = parse_fdon_zero_copy_arena("O{b:SE\"y\\n\",a:A[N1,S\"x\"]}", &arena).unwrap();
    let other = parse_fdon_zero_copy_arena("O{a:A[N1,S\"x\"],b:SE\"y\\t\"}", &arena).unwrap();
    assert_eq!(one, two);
    assert_ne!(one, other);
}

#[test]
fn whitespace_kept_in_a_literal_that_a_key_opens_is_a_fault() {
    let arena = Bump::new();
    let compact = parse_fdon_zero_copy_arena("O{xS\"y:U}", &arena).unwrap();
    match compact {
        FdonValue::Object(entries) => {
            assert!(matches!(entries.get("xS\"y"), Some(FdonValue::Null)));
        }
        other => panic!("no object: {:?}", other),
    }
    let minified = minify_fdon("O{xS\"y : U}");
    assert_eq!(minified, "O{xS\"y : U}");
    assert_eq!(
        fault(&minified),
        FdonParseError { kind: FdonErrorKind::UnknownTag { tag: b' ' }, offset: 8 }
    );
}

#[test]
fn whitespace_between_the_letters_of_a_marker_is_a_fault() {
    let minified = minify_fdon("S E\"aS\"b c\"");
    assert_eq!(minified, "SE\"aS\"b c\"");
    assert_eq!(fault(&minified), FdonParseError { kind: FdonErrorKind::ExtraData, offset: 6 });
}

#[test]
fn spacing_outside_literals_does_not_change_the_tree() {
    let arena = Bump::new();
    let compact = "O{name:S\"Ada  L\",tags:A[SE\"c \\\" d\",T\"1 2\",D\"3 4\"],n:N-12.5e3}";
    let spaced = " O\t{ name :\nS  \"Ada  L\" ,\r\n tags : A [ SE \"c \\\" d\" , T \"1 2\" , D\n\"3 4\" ] , n : N -12.5e3 }\n";
    assert_eq!(minify_fdon(compact), compact);
    let minified = minify_fdon(spaced);
    assert_eq!(minified, compact);
    let one = parse_fdon_zero_copy_arena(compact, &arena).unwrap();
    let two = parse_fdon_zero_copy_arena(&minified, &arena).unwrap();
    assert_eq!(one, two);
}

#[test]
fn faults_lie_within_the_buffer() {
    for input in [
        "",
        "A[",
        "O{k:",
        "SE\"abc\\",
        "S\"abc",
        "O{a:N1,}",
        "A[N1,]",
        "UU",
        "N",
        "Btru",
    ] {
        assert!(fault(input).offset <= input.len(), "{:?}", input);
    }
}

#[test]
fn payloads_hold_text_that_is_not_ascii() {
    let arena = Bump::new();
    assert!(matches!(
        parse_fdon_zero_copy_arena("S\"héllo 日本\"", &arena),
        Ok(FdonValue::RawString(text)) if text == "héllo 日本"
    ));
    let value = parse_fdon_zero_copy_arena("O{ключ:D\"é\",é:T\"ü\"}", &arena).unwrap();
    match value {
        FdonValue::Object(entries) => {
            assert_eq!(entries.len(), 2);
            assert!(matches!(entries.get("ключ"), Some(FdonValue::Date(t)) if *t == "é"));
            assert!(matches!(entries.get("é"), Some(FdonValue::Time(t)) if *t == "ü"));
        }
        other => panic!("no object: {:?}", other),
    }
}

#[test]
fn escaped_byte_that_is_not_ascii_stands_for_itself() {
    let arena = Bump::new();
    let value = parse_fdon_zero_copy_arena("SE\"a\\é\\\"b\\日本\\n\"", &arena).unwrap();
    match value {
        FdonValue::EscapedString(buffer) => assert_eq!(buffer.as_str(), "aé\"b日本\n"),
        other => panic!("no escaped string: {:?}", other),
    }
    let value = parse_fdon_zero_copy_arena("SE\"\\é\"", &arena).unwrap();
    match value {
        FdonValue::EscapedString(buffer) => assert_eq!(buffer.as_str(), "é"),
        other => panic!("no escaped string: {:?}", other),
    }
}

#[test]
fn faults_in_text_that_is_not_ascii() {
    assert_eq!(
        fault("éx"),
        FdonParseError { kind: FdonErrorKind::UnknownTag { tag: 0xC3 }, offset: 0 }
    );
    assert_eq!(fault("N1é"), FdonParseError { kind: FdonErrorKind::InvalidInteger, offset: 1 });
    assert_eq!(fault("Btrueé"), FdonParseError { kind: FdonErrorKind::ExtraData, offset: 5 });
    assert_eq!(fault("Btrué"), FdonParseError { kind: FdonErrorKind::InvalidBoolean, offset: 1 });
    assert_eq!(
        fault("SE\"\\é"),
        FdonParseError { kind: FdonErrorKind::UnterminatedEscapedString, offset: 5 }
    );
    assert_eq!(
        fault("Sé"),
        FdonParseError {
            kind: FdonErrorKind::Expected { expected: b'"', found: Some(0xC3) },
            offset: 1
        }
    );
    assert_eq!(
        fault("A[Ué]"),
        FdonParseError { kind: FdonErrorKind::MissingCommaInArray, offset: 3 }
    );
}

fn second_fault(input: &str) -> (FdonParseError, FdonParseError) {
    let arena = Bump::new();
    let mut parser = FdonParser::new(input, &arena);
    let first = parser.parse().unwrap_err();
    let second = parser.parse().unwrap_err();
    (first, second)
}

#[test]
fn a_fault_leaves_the_cursor_where_it_was_found_to_stay() {
    // A second parse reads on from where the first one left the cursor.
    let unknown = |tag: u8, offset: usize| FdonParseError {
        kind: FdonErrorKind::UnknownTag { tag },
        offset,
    };
    // An unexpected byte, an unknown tag, a key without `:` and a malformed
    // boolean leave the cursor where it stood.
    assert_eq!(second_fault("Ox").1, unknown(b'x', 1));
    assert_eq!(second_fault("Xfoo"), (unknown(b'X', 0), unknown(b'X', 0)));
    assert_eq!(second_fault("O{abc").1, unknown(b'a', 2));
    assert_eq!(second_fault("Bxyz").1, unknown(b'x', 1));
    // A number leaves it at the delimiter that ends the number.
    let (first, second) = second_fault("N1x,U");
    assert_eq!(first, FdonParseError { kind: FdonErrorKind::InvalidInteger, offset: 1 });
    assert_eq!(second, unknown(b',', 3));
    let (first, second) = second_fault("N1.2.3");
    assert_eq!(first, FdonParseError { kind: FdonErrorKind::InvalidFloat, offset: 1 });
    assert_eq!(second, FdonParseError { kind: FdonErrorKind::UnexpectedEof, offset: 6 });
    // A string leaves it after the opening quote.
    assert_eq!(second_fault("S\"abc").1, unknown(b'a', 2));
    assert_eq!(second_fault("SE\"a\\nbc").1, unknown(b'a', 3));
    assert_eq!(second_fault("SE\"abc\\").1, unknown(b'a', 3));
    // A trailing or missing comma leaves it at the fault.
    assert_eq!(second_fault("A[U,]").1, unknown(b']', 4));
    assert_eq!(second_fault("O{a:U,}").1, unknown(b'}', 6));
    assert_eq!(second_fault("A[Ux]").1, unknown(b'x', 3));
}

#[test]
fn bytes_after_the_value_leave_the_cursor_at_the_first_of_them() {
    let arena = Bump::new();
    let mut parser = FdonParser::new("UBtrue", &arena);
    assert_eq!(
        parser.parse().unwrap_err(),
        FdonParseError { kind: FdonErrorKind::ExtraData, offset: 1 }
    );
    assert!(matches!(parser.parse(), Ok(FdonValue::Bool(true))));
}

#[test]
fn array_reader_keeps_every_item_in_its_order() {
    let arena = Bump::new();
    let mut parser = FdonParser::new("[N3,S\"x\",N3,U]", &arena);
    let value = parser.parse_array().unwrap();
    match value {
        FdonValue::Array(items) => {
            assert_eq!(items.len(), 4);
            assert_eq!(integer_of(items.get(0).unwrap()), 3);
            assert!(matches!(items.get(1), Some(FdonValue::RawString(t)) if *t == "x"));
            assert_eq!(integer_of(items.get(2).unwrap()), 3);
            assert!(matches!(items.get(3), Some(FdonValue::Null)));
        }
        other => panic!("no array: {:?}", other),
    }
    assert_eq!(parser.peek(), None);
    let mut parser = FdonParser::new("[]U", &arena);
    assert!(matches!(parser.parse_array(), Ok(FdonValue::Array(items)) if items.len() == 0));
    assert_eq!(parser.peek(), Some(b'U'));
}

#[test]
fn object_reader_fails_on_a_trailing_comma() {
    let arena = Bump::new();
    let mut parser = FdonParser::new("{a:N1,b:U,}", &arena);
    assert_eq!(
        parser.parse_object().unwrap_err(),
        FdonParseError { kind: FdonErrorKind::TrailingCommaInObject, offset: 10 }
    );
    assert_eq!(parser.peek(), Some(b'}'));
    let mut parser = FdonParser::new("[N1,]", &arena);
    assert_eq!(
        parser.parse_array().unwrap_err(),
        FdonParseError { kind: FdonErrorKind::TrailingCommaInArray, offset: 4 }
    );
    assert_eq!(parser.peek(), Some(b']'));
}

#[test]
fn readers_leave_the_cursor_after_what_they_read() {
    let arena = Bump::new();
    let mut parser = FdonParser::new("true,false]key:\"raw\"x\"e\\ts\"y12.5}", &arena);
    assert!(matches!(parser.parse_boolean(), Ok(FdonValue::Bool(true))));
    assert_eq!(parser.peek(), Some(b','));
    assert_eq!(
        parser.parse_boolean().unwrap_err(),
        FdonParseError { kind: FdonErrorKind::InvalidBoolean, offset: 4 }
    );
    assert_eq!(parser.peek(), Some(b','));
    assert_eq!(
        parser.parse_number_internal().unwrap_err(),
        FdonParseError { kind: FdonErrorKind::EmptyNumber, offset: 4 }
    );
    assert_eq!(
        parser.parse_value().unwrap_err(),
        FdonParseError { kind: FdonErrorKind::UnknownTag { tag: b',' }, offset: 4 }
    );
    assert_eq!(parser.parse_key().unwrap(), ",false]key");
    assert_eq!(parser.peek(), Some(b':'));
    assert_eq!(
        parser.parse_key().unwrap(),
        ""
    );
    assert_eq!(
        parser.parse_raw_string().unwrap_err(),
        FdonParseError {
            kind: FdonErrorKind::Expected { expected: b'"', found: Some(b':') },
            offset: 14
        }
    );
    assert_eq!(parser.peek(), Some(b':'));
    let mut parser = FdonParser::new("\"raw\"x\"e\\ts\"y12.5}z", &arena);
    assert_eq!(parser.parse_raw_string().unwrap(), "raw");
    assert_eq!(parser.peek(), Some(b'x'));
    assert_eq!(
        parser.parse_number_internal().unwrap_err(),
        FdonParseError { kind: FdonErrorKind::InvalidFloat, offset: 5 }
    );
    assert_eq!(parser.peek(), Some(b'}'));
    let mut parser = FdonParser::new("\"e\\ts\"12.5}z", &arena);
    match parser.parse_escaped_string().unwrap() {
        FdonValue::EscapedString(text) => assert_eq!(text.as_str(), "e\ts"),
        other => panic!("no escaped string: {:?}", other),
    }
    assert_eq!(parser.peek(), Some(b'1'));
    assert_eq!(parser.parse_number_internal(), Ok(FdonNumber::Float("12.5")));
    assert_eq!(parser.peek(), Some(b'}'));
    assert_eq!(
        parser.parse_key().unwrap_err(),
        FdonParseError { kind: FdonErrorKind::UnterminatedKey, offset: 10 }
    );
    assert_eq!(parser.peek(), Some(b'}'));
}
