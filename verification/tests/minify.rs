use fdon_rs::{minify_bytes, minify_fdon};

fn minified(input: &str) -> String {
    minify_fdon(input)
}

#[test]
fn minify_strips_whitespace_between_tokens() {
    assert_eq!(minified("  O {  k : N 3.5 }  "), "O{k:N3.5}");
}

#[test]
fn minify_strips_every_kind_of_whitespace() {
    assert_eq!(minified("A[\tN1,\r\nN2 ,\nN3 ]"), "A[N1,N2,N3]");
}

#[test]
fn minify_of_empty_input_is_empty() {
    assert_eq!(minify_fdon(""), "");
    assert_eq!(minify_bytes(b""), Vec::<u8>::new());
}

#[test]
fn minify_keeps_raw_string_contents() {
    assert_eq!(minified("O{ k : S\"a  b\tc\" }"), "O{k:S\"a  b\tc\"}");
}

#[test]
fn minify_keeps_date_and_time_contents() {
    assert_eq!(minified("A[ D\"2024 01 01\" , T\"12 : 00\" ]"), "A[D\"2024 01 01\",T\"12 : 00\"]");
}

#[test]
fn minify_opens_a_raw_literal_on_the_last_byte_written() {
    assert_eq!(minified("S  \"a b\""), "S\"a b\"");
    assert_eq!(minified("T\n\"1 2\""), "T\"1 2\"");
}

#[test]
fn minify_does_not_open_a_literal_after_another_byte() {
    assert_eq!(minified("k\"a b\""), "k\"ab\"");
    assert_eq!(minified("\"a b\""), "\"ab\"");
}

#[test]
fn minify_keeps_escaped_string_contents() {
    assert_eq!(minified("SE\"a \\\" b\" "), "SE\"a \\\" b\"");
}

#[test]
fn minify_drops_whitespace_between_marker_and_quote() {
    assert_eq!(minified("SE  \"a b\" , U"), "SE\"a b\",U");
}

#[test]
fn minify_escaped_backslash_does_not_hide_the_closing_quote() {
    assert_eq!(minified("SE\"a\\\\\" N 1"), "SE\"a\\\\\"N1");
}

#[test]
fn minify_marker_without_quote_is_plain() {
    assert_eq!(minified("SE x \"a b\""), "SEx\"ab\"");
}

#[test]
fn minify_copies_a_marker_inside_a_raw_literal() {
    assert_eq!(minified("S\"SE  x y\" N 1"), "S\"SE  x y\"N1");
    assert_eq!(minified("S\"SE  \\\" x\" N 1"), "S\"SE  \\\"x\"N1");
}

#[test]
fn minify_copies_an_unterminated_literal_to_the_end() {
    assert_eq!(minified("S\"a b "), "S\"a b ");
    assert_eq!(minified("SE\"a b \\"), "SE\"a b \\");
}

#[test]
fn minify_twice_is_minify_once() {
    for input in [
        "  O {  k : N 3.5 }  ",
        "O{ a : S \"x y\", b : SE \"p \\\" q\" , c : A[ U , Btrue ] }",
        "S\"a b",
        "SE\"a b \\",
        "k\"a b\" S \"c d\"",
        "",
    ] {
        let once = minify_fdon(input);
        let twice = minify_fdon(&once);
        assert_eq!(twice, once);
    }
}

#[test]
fn minify_twice_differs_where_whitespace_splits_a_marker() {
    let once = minify_fdon("S E\"aS\"b c\"");
    assert_eq!(once, "SE\"aS\"b c\"");
    let twice = minify_fdon(&once);
    assert_eq!(twice, "SE\"aS\"bc\"");
}

#[test]
fn minify_keeps_text_that_is_not_ascii() {
    assert_eq!(minified(" S \"é ü\" , k é : N 1 "), "S\"é ü\",ké:N1");
    assert_eq!(minified("SE \"\\é \\\" 日本\" "), "SE\"\\é \\\" 日本\"");
}

#[test]
fn minify_bytes_takes_any_bytes() {
    assert_eq!(minify_bytes(b" \xFF \xC3 S\" \x80 \" "), b"\xFF\xC3S\" \x80 \"".to_vec());
    assert_eq!(minify_bytes("  O {  k : N 3.5 }  ".as_bytes()), b"O{k:N3.5}".to_vec());
}

#[test]
fn minify_twice_differs_where_a_second_pass_finds_an_escaped_literal() {
    let once = minify_fdon("S E\"x\\\" S\"a b\"");
    assert_eq!(once, "SE\"x\\\"S\"a b\"");
    assert_eq!(minify_fdon(&once), "SE\"x\\\"S\"ab\"");
}

#[test]
fn minify_twice_is_minify_once_on_a_split_marker_without_whitespace_after() {
    let once = minify_fdon("S E\"abc\"");
    assert_eq!(once, "SE\"abc\"");
    assert_eq!(minify_fdon(&once), once);
}
