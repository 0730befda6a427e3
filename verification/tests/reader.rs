use http_headers::reader::HeaderValueReader;

fn pair(k: &str, v: &str) -> (String, String) {
    (k.to_string(), v.to_string())
}

#[test]
fn new_reader_holds_all_bytes() {
    let reader = HeaderValueReader::new(b"abc");
    assert_eq!(reader.remaining(), b"abc");
    assert_eq!(reader.peek(), Some(b'a'));
    assert!(!reader.is_empty());
    let empty = HeaderValueReader::new(b"");
    assert!(empty.is_empty());
    assert_eq!(empty.peek(), None);
}

#[test]
fn advance_moves_one_byte() {
    let mut reader = HeaderValueReader::new(b"ab");
    reader.advance();
    assert_eq!(reader.remaining(), b"b");
    reader.advance();
    assert!(reader.is_empty());
}

#[test]
fn skip_whitespace_takes_spaces_and_tabs() {
    let mut reader = HeaderValueReader::new(b" \t  x y");
    reader.skip_whitespace();
    assert_eq!(reader.remaining(), b"x y");
    reader.skip_whitespace();
    assert_eq!(reader.remaining(), b"x y");
}

#[test]
fn read_token_takes_the_longest_run() {
    let mut reader = HeaderValueReader::new(b"gzip;q=1");
    assert_eq!(reader.read_token(), Some("gzip".to_string()));
    assert_eq!(reader.remaining(), b";q=1");
}

#[test]
fn read_token_leaves_trailing_whitespace() {
    let mut reader = HeaderValueReader::new(b"abc  def");
    assert_eq!(reader.read_token(), Some("abc".to_string()));
    assert_eq!(reader.remaining(), b"  def");
}

#[test]
fn read_token_takes_all_to_the_end() {
    let mut reader = HeaderValueReader::new(b"x-token_1.0!#$%&'*+^`|~");
    assert_eq!(reader.read_token(), Some("x-token_1.0!#$%&'*+^`|~".to_string()));
    assert!(reader.is_empty());
    assert_eq!(reader.read_token(), None);
}

#[test]
fn read_token_stops_at_each_separator() {
    for separator in b"()<>@,;:\\\"/[]?={} \t".iter() {
        let input = [b'a', *separator, b'b'];
        let mut reader = HeaderValueReader::new(&input);
        assert_eq!(reader.read_token(), Some("a".to_string()));
        assert_eq!(reader.remaining(), &input[1..]);
    }
}

#[test]
fn read_token_stops_at_control_and_high_bytes() {
    for stop in [0u8, 31, 127, 128, 255].iter() {
        let input = [b'a', b'b', *stop, b'c'];
        let mut reader = HeaderValueReader::new(&input);
        assert_eq!(reader.read_token(), Some("ab".to_string()));
        assert_eq!(reader.remaining(), &input[2..]);
    }
}

#[test]
fn read_token_fails_without_moving() {
    for input in [&b""[..], b" a", b";a", b"\"a\"", b"\x00a", b"\xffa"].iter() {
        let mut reader = HeaderValueReader::new(input);
        assert_eq!(reader.read_token(), None);
        assert_eq!(reader.remaining(), *input);
    }
}

#[test]
fn read_quoted_string_unescapes() {
    let mut reader = HeaderValueReader::new(b"\"a \\\"b\\\" \\\\ \\c\";rest");
    assert_eq!(reader.read_quoted_string(), Some("a \"b\" \\ c".to_string()));
    assert_eq!(reader.remaining(), b";rest");
}

#[test]
fn read_quoted_string_may_be_empty() {
    let mut reader = HeaderValueReader::new(b"\"\"");
    assert_eq!(reader.read_quoted_string(), Some(String::new()));
    assert!(reader.is_empty());
}

#[test]
fn read_quoted_string_keeps_separators_and_controls() {
    let mut reader = HeaderValueReader::new(b"\"a,b;c=d\t\x01\"");
    assert_eq!(reader.read_quoted_string(), Some("a,b;c=d\t\u{1}".to_string()));
    assert!(reader.is_empty());
}

#[test]
fn read_quoted_string_fails_without_moving() {
    for input in
        [&b""[..], b"abc", b"\"abc", b"\"abc\\", b"\"abc\\\"", b"\"\xe9\"", b"\"\\\xe9\"", b"\""]
            .iter()
    {
        let mut reader = HeaderValueReader::new(input);
        assert_eq!(reader.read_quoted_string(), None);
        assert_eq!(reader.remaining(), *input);
    }
}

#[test]
fn read_token_or_quoted_string_takes_either() {
    let mut reader = HeaderValueReader::new(b"abc\"def\"");
    assert_eq!(reader.read_token_or_quoted_string(), Some("abc".to_string()));
    assert_eq!(reader.read_token_or_quoted_string(), Some("def".to_string()));
    assert_eq!(reader.read_token_or_quoted_string(), None);
}

#[test]
fn read_parameter_reads_attribute_and_value() {
    let mut reader = HeaderValueReader::new(b"q=0.5;next");
    assert_eq!(reader.read_parameter(), Some(pair("q", "0.5")));
    assert_eq!(reader.remaining(), b";next");
    let mut quoted = HeaderValueReader::new(b"title=\"a b\"");
    assert_eq!(quoted.read_parameter(), Some(pair("title", "a b")));
    assert!(quoted.is_empty());
}

#[test]
fn read_parameter_fails_without_moving() {
    for input in [&b""[..], b"q", b"q=", b"=1", b"q 1", b"q= 1", b"q=\"1", b"q;=1"].iter() {
        let mut reader = HeaderValueReader::new(input);
        assert_eq!(reader.read_parameter(), None);
        assert_eq!(reader.remaining(), *input);
    }
}

#[test]
fn read_parameters_reads_all() {
    let mut reader = HeaderValueReader::new(b";b=2;a=1;c=\"x;y\"");
    assert_eq!(
        reader.read_parameters(),
        Some(vec![pair("b", "2"), pair("a", "1"), pair("c", "x;y")])
    );
    assert!(reader.is_empty());
}

#[test]
fn read_parameters_may_find_none() {
    let mut reader = HeaderValueReader::new(b"");
    assert_eq!(reader.read_parameters(), Some(vec![]));
    let mut other = HeaderValueReader::new(b"abc");
    assert_eq!(other.read_parameters(), Some(vec![]));
    assert_eq!(other.remaining(), b"abc");
}

#[test]
fn read_parameters_skips_whitespace_before_semicolons() {
    let mut reader = HeaderValueReader::new(b" ;a=1 \t;b=2  , next");
    assert_eq!(reader.read_parameters(), Some(vec![pair("a", "1"), pair("b", "2")]));
    assert_eq!(reader.remaining(), b", next");
}

#[test]
fn read_parameters_fails_without_moving() {
    for input in [&b";"[..], b";a", b";a=", b";a=1;", b";a=1;b", b" ;a=1 ; b=2", b";a=1;=2"].iter()
    {
        let mut reader = HeaderValueReader::new(input);
        assert_eq!(reader.read_parameters(), None);
        assert_eq!(reader.remaining(), *input);
    }
}

#[test]
fn split_list_item_splits_at_top_level_commas() {
    let mut reader = HeaderValueReader::new(b"gzip;q=\"a,b\", chunked,last");
    let first = reader.split_list_item();
    assert_eq!(first.remaining(), b"gzip;q=\"a,b\"");
    assert_eq!(reader.remaining(), b" chunked,last");
    let second = reader.split_list_item();
    assert_eq!(second.remaining(), b" chunked");
    let third = reader.split_list_item();
    assert_eq!(third.remaining(), b"last");
    assert!(reader.is_empty());
    let fourth = reader.split_list_item();
    assert!(fourth.is_empty());
    assert!(reader.is_empty());
}

#[test]
fn split_list_item_knows_escaped_quotes() {
    let mut reader = HeaderValueReader::new(b"a;b=\"x\\\",y\",c");
    let first = reader.split_list_item();
    assert_eq!(first.remaining(), b"a;b=\"x\\\",y\"");
    assert_eq!(reader.remaining(), b"c");
}

#[test]
fn split_list_item_takes_an_open_quote_to_the_end() {
    let mut reader = HeaderValueReader::new(b"a=\"b,c");
    let item = reader.split_list_item();
    assert_eq!(item.remaining(), b"a=\"b,c");
    assert!(reader.is_empty());
}

#[test]
fn split_list_item_keeps_empty_items() {
    let mut reader = HeaderValueReader::new(b",a,");
    assert!(reader.split_list_item().is_empty());
    assert_eq!(reader.split_list_item().remaining(), b"a");
    assert!(reader.is_empty());
}
