use http_headers::grammar::{
    eq_ignore_ascii_case, is_ctl, is_separator, is_token, is_token_byte, is_whitespace,
    to_ascii_lower,
};
use http_headers::serialization_utils::{
    push_maybe_quoted_string, push_parameter, push_parameters, push_quoted_string,
    write_maybe_quoted_string, write_parameter, write_parameters, write_quoted_string,
    write_token,
};

fn pair(k: &str, v: &str) -> (String, String) {
    (k.to_string(), v.to_string())
}

#[test]
fn byte_classes() {
    let separators = b"()<>@,;:\\\"/[]?={} \t";
    let mut tokens = 0;
    for b in 0u8..=255 {
        assert_eq!(is_separator(b), separators.contains(&b));
        assert_eq!(is_ctl(b), b < 32 || b == 127);
        assert_eq!(is_whitespace(b), b == b' ' || b == b'\t');
        assert_eq!(is_token_byte(b), b < 128 && !is_ctl(b) && !is_separator(b));
        if is_token_byte(b) {
            tokens += 1;
        }
    }
    assert_eq!(tokens, 77);
}

#[test]
fn tokens_are_told_from_other_text() {
    assert!(is_token("gzip"));
    assert!(is_token("1.0"));
    assert!(is_token("x-y_z"));
    assert!(!is_token(""));
    assert!(!is_token("a b"));
    assert!(!is_token("a;b"));
    assert!(!is_token("a\"b"));
    assert!(!is_token("a\u{7f}"));
    assert!(!is_token("caf\u{e9}"));
    assert!(!is_token("\u{1f600}"));
}

#[test]
fn lower_case_of_ascii_letters_only() {
    assert_eq!(to_ascii_lower('A'), 'a');
    assert_eq!(to_ascii_lower('Z'), 'z');
    assert_eq!(to_ascii_lower('m'), 'm');
    assert_eq!(to_ascii_lower('@'), '@');
    assert_eq!(to_ascii_lower('['), '[');
    assert_eq!(to_ascii_lower('\u{c9}'), '\u{c9}');
}

#[test]
fn comparison_ignores_ascii_case_only() {
    assert!(eq_ignore_ascii_case("CHUNKED", "chunked"));
    assert!(eq_ignore_ascii_case("chunked", "ChUnKeD"));
    assert!(eq_ignore_ascii_case("", ""));
    assert!(!eq_ignore_ascii_case("chunked", "chunke"));
    assert!(!eq_ignore_ascii_case("chunke", "chunked"));
    assert!(!eq_ignore_ascii_case("chunked", "chunkee"));
    assert!(!eq_ignore_ascii_case("\u{c9}", "\u{e9}"));
    assert!(eq_ignore_ascii_case("\u{e9}A", "\u{e9}a"));
}

#[test]
fn quoted_string_is_pushed_with_escapes() {
    assert_eq!(push_quoted_string("k=".to_string(), "a b"), "k=\"a b\"");
    assert_eq!(push_quoted_string(String::new(), ""), "\"\"");
    assert_eq!(push_quoted_string(String::new(), "a\"b\\c"), "\"a\\\"b\\\\c\"");
    assert_eq!(push_quoted_string(String::new(), "caf\u{e9}"), "\"caf\u{e9}\"");
}

#[test]
fn value_is_pushed_bare_or_quoted() {
    assert_eq!(push_maybe_quoted_string("k=".to_string(), "token"), "k=token");
    assert_eq!(push_maybe_quoted_string("k=".to_string(), "two words"), "k=\"two words\"");
    assert_eq!(push_maybe_quoted_string("k=".to_string(), ""), "k=\"\"");
}

#[test]
fn parameter_is_pushed() {
    assert_eq!(push_parameter("x;".to_string(), "q", "1.0"), "x;q=1.0");
    assert_eq!(push_parameter(String::new(), "t", "a;b"), "t=\"a;b\"");
}

#[test]
fn parameters_are_pushed_in_order() {
    assert_eq!(push_parameters("gzip".to_string(), &[]), "gzip");
    assert_eq!(
        push_parameters("foo".to_string(), &[pair("b", "2"), pair("a", "1 2"), pair("b", "3")]),
        "foo;b=2;a=\"1 2\";b=3"
    );
}

#[test]
fn token_is_written_as_it_stands() {
    let mut sink = b"x".to_vec();
    write_token(&mut sink, "gzip");
    assert_eq!(sink, b"xgzip".to_vec());
}

#[test]
fn quoted_string_is_written_with_escapes() {
    let mut sink = Vec::new();
    write_quoted_string(&mut sink, "a\"b\\c d");
    assert_eq!(sink, b"\"a\\\"b\\\\c d\"".to_vec());
    let mut high = Vec::new();
    write_quoted_string(&mut high, "\u{e9}\u{20ac}\u{1f600}");
    assert_eq!(high, "\"\u{e9}\u{20ac}\u{1f600}\"".as_bytes().to_vec());
}

#[test]
fn value_is_written_bare_or_quoted() {
    let mut sink = Vec::new();
    write_maybe_quoted_string(&mut sink, "token");
    write_maybe_quoted_string(&mut sink, "");
    write_maybe_quoted_string(&mut sink, "a=b");
    assert_eq!(sink, b"token\"\"\"a=b\"".to_vec());
}

#[test]
fn parameter_is_written() {
    let mut sink = Vec::new();
    write_parameter(&mut sink, "q", "1.0");
    assert_eq!(sink, b"q=1.0".to_vec());
}

#[test]
fn parameters_are_written_in_order() {
    let mut sink = b"foo".to_vec();
    write_parameters(&mut sink, &[pair("b", "2"), pair("a", "1 2")]);
    assert_eq!(sink, b"foo;b=2;a=\"1 2\"".to_vec());
    let mut none = b"foo".to_vec();
    write_parameters(&mut none, &[]);
    assert_eq!(none, b"foo".to_vec());
}

#[test]
fn written_and_pushed_forms_agree() {
    let parameters = [pair("a", "b"), pair("c", "d e"), pair("f", "\u{e9}\"\\"), pair("g", "")];
    let mut sink = Vec::new();
    write_parameters(&mut sink, &parameters);
    assert_eq!(sink, push_parameters(String::new(), &parameters).into_bytes());
}
