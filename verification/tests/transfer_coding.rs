use http_headers::convert::HeaderConvertible;
use http_headers::reader::HeaderValueReader;
use http_headers::transfer_encoding::TransferCoding;

fn parse(input: &str) -> Option<TransferCoding> {
    let mut reader = HeaderValueReader::new(input.as_bytes());
    TransferCoding::from_stream(&mut reader)
}

fn stream(coding: &TransferCoding) -> Vec<u8> {
    let mut sink = Vec::new();
    coding.to_stream(&mut sink);
    sink
}

fn extension(name: &str, parameters: &[(&str, &str)]) -> TransferCoding {
    TransferCoding::TransferExtension(
        name.to_string(),
        parameters.iter().map(|(k, v)| (k.to_string(), v.to_string())).collect(),
    )
}

#[test]
fn chunked_is_written_in_lower_case() {
    assert_eq!(stream(&TransferCoding::Chunked), b"chunked".to_vec());
    assert_eq!(TransferCoding::Chunked.http_value(), "chunked");
}

#[test]
fn chunked_is_read_in_any_case() {
    assert_eq!(parse("chunked"), Some(TransferCoding::Chunked));
    assert_eq!(parse("CHUNKED"), Some(TransferCoding::Chunked));
    assert_eq!(parse("Chunked"), Some(TransferCoding::Chunked));
    assert_eq!(parse("cHuNkEd"), Some(TransferCoding::Chunked));
}

#[test]
fn chunked_round_trip() {
    let written = stream(&TransferCoding::Chunked);
    let mut reader = HeaderValueReader::new(&written);
    assert_eq!(TransferCoding::from_stream(&mut reader), Some(TransferCoding::Chunked));
    assert!(reader.is_empty());
}

#[test]
fn extension_is_written_with_its_parameters() {
    let coding = extension("gzip", &[("q", "1.0")]);
    assert_eq!(stream(&coding), b"gzip;q=1.0".to_vec());
    assert_eq!(coding.http_value(), "gzip;q=1.0");
}

#[test]
fn extension_is_read_with_its_parameters() {
    assert_eq!(parse("gzip;q=1.0"), Some(extension("gzip", &[("q", "1.0")])));
}

#[test]
fn extension_round_trip() {
    let values = [
        extension("gzip", &[]),
        extension("gzip", &[("q", "1.0")]),
        extension("x-coding", &[("a", "two words"), ("b", ""), ("c", "say \"hi\""), ("d", "back\\slash")]),
        extension("deflate", &[("level", "9"), ("level", "9")]),
        extension("Chunked-ish", &[("mode", "a,b;c=d")]),
    ];
    for value in values.iter() {
        let written = stream(value);
        let mut reader = HeaderValueReader::new(&written);
        assert_eq!(TransferCoding::from_stream(&mut reader).as_ref(), Some(value));
        assert!(reader.is_empty());
    }
}

#[test]
fn extension_name_keeps_its_case() {
    assert_eq!(parse("Gzip"), Some(extension("Gzip", &[])));
    assert_eq!(parse("GZIP;Q=1"), Some(extension("GZIP", &[("Q", "1")])));
}

#[test]
fn parameters_keep_their_order() {
    assert_eq!(parse("foo;b=2;a=1"), Some(extension("foo", &[("b", "2"), ("a", "1")])));
}

#[test]
fn duplicate_attributes_are_kept() {
    assert_eq!(parse("foo;a=1;a=2"), Some(extension("foo", &[("a", "1"), ("a", "2")])));
}

#[test]
fn missing_parameter_value_is_refused() {
    assert_eq!(parse("gzip;q="), None);
}

#[test]
fn malformed_parameters_are_refused() {
    assert_eq!(parse("gzip;"), None);
    assert_eq!(parse("gzip;q"), None);
    assert_eq!(parse("gzip;=1"), None);
    assert_eq!(parse("gzip;q=1;"), None);
    assert_eq!(parse("gzip;q=\"open"), None);
    assert_eq!(parse("gzip; q=1"), None);
    assert_eq!(parse("gzip;q =1"), None);
}

#[test]
fn failed_parse_leaves_the_cursor() {
    let mut reader = HeaderValueReader::new(b"gzip;q=");
    assert_eq!(TransferCoding::from_stream(&mut reader), None);
    assert_eq!(reader.remaining(), b"gzip;q=");
}

#[test]
fn empty_input_is_refused() {
    assert_eq!(parse(""), None);
}

#[test]
fn input_that_starts_no_token_is_refused() {
    assert_eq!(parse(" chunked"), None);
    assert_eq!(parse(";q=1"), None);
    assert_eq!(parse(","), None);
    assert_eq!(parse("\"chunked\""), None);
    assert_eq!(parse("\u{1}"), None);
    assert_eq!(parse("\u{e9}"), None);
}

#[test]
fn chunked_leaves_what_follows_it() {
    let mut reader = HeaderValueReader::new(b"chunked;q=1");
    assert_eq!(TransferCoding::from_stream(&mut reader), Some(TransferCoding::Chunked));
    assert_eq!(reader.remaining(), b";q=1");
}

#[test]
fn extension_stops_before_a_comma() {
    let mut reader = HeaderValueReader::new(b"gzip;q=1 , chunked");
    assert_eq!(
        TransferCoding::from_stream(&mut reader),
        Some(extension("gzip", &[("q", "1")]))
    );
    assert_eq!(reader.remaining(), b", chunked");
}

#[test]
fn quoted_values_are_unquoted() {
    assert_eq!(
        parse("foo;a=\"b c\";d=\"e\\\"f\\\\g\""),
        Some(extension("foo", &[("a", "b c"), ("d", "e\"f\\g")]))
    );
    assert_eq!(parse("foo;a=\"\""), Some(extension("foo", &[("a", "")])));
}

#[test]
fn values_are_quoted_only_where_needed() {
    assert_eq!(extension("foo", &[("a", "b")]).http_value(), "foo;a=b");
    assert_eq!(extension("foo", &[("a", "b c")]).http_value(), "foo;a=\"b c\"");
    assert_eq!(extension("foo", &[("a", "")]).http_value(), "foo;a=\"\"");
    assert_eq!(extension("foo", &[("a", "x\"y\\z")]).http_value(), "foo;a=\"x\\\"y\\\\z\"");
    assert_eq!(extension("foo", &[("a", "1"), ("b", "2")]).http_value(), "foo;a=1;b=2");
}

#[test]
fn string_and_stream_forms_agree() {
    let values = [
        TransferCoding::Chunked,
        extension("gzip", &[("q", "1.0")]),
        extension("foo", &[("a", "b c"), ("d", "e\"f")]),
        extension("bar", &[("name", "caf\u{e9} \u{1f600}")]),
    ];
    for value in values.iter() {
        assert_eq!(stream(value), value.http_value().into_bytes());
    }
}

#[test]
fn to_stream_appends_to_the_sink() {
    let mut sink = b"Transfer-Encoding: ".to_vec();
    extension("gzip", &[("q", "1.0")]).to_stream(&mut sink);
    assert_eq!(sink, b"Transfer-Encoding: gzip;q=1.0".to_vec());
}

#[test]
fn clone_is_structural() {
    let value = extension("gzip", &[("q", "1.0"), ("a", "b c")]);
    assert_eq!(value.clone(), value);
    assert_eq!(TransferCoding::Chunked.clone(), TransferCoding::Chunked);
    assert_ne!(value, extension("gzip", &[("a", "b c"), ("q", "1.0")]));
    assert_ne!(value, TransferCoding::Chunked);
}

#[test]
fn list_items_are_split_and_parsed() {
    let mut reader = HeaderValueReader::new(b"gzip;q=\"a,b\", chunked");
    let mut values = Vec::new();
    while !reader.is_empty() {
        let mut item = reader.split_list_item();
        item.skip_whitespace();
        values.push(TransferCoding::from_stream(&mut item));
    }
    assert_eq!(
        values,
        vec![Some(extension("gzip", &[("q", "a,b")])), Some(TransferCoding::Chunked)]
    );
}

#[test]
fn written_values_joined_by_commas_are_read_back() {
    let values = [
        extension("gzip", &[("q", "1,2"), ("r", "say \"a,b\"")]),
        TransferCoding::Chunked,
        extension("x", &[("y", "\\,")]),
    ];
    let mut joined = Vec::new();
    for (i, value) in values.iter().enumerate() {
        if i > 0 {
            joined.push(b',');
        }
        value.to_stream(&mut joined);
    }
    let mut reader = HeaderValueReader::new(&joined);
    for value in values.iter() {
        let mut item = reader.split_list_item();
        assert_eq!(TransferCoding::from_stream(&mut item).as_ref(), Some(value));
        assert!(item.is_empty());
    }
    assert!(reader.is_empty());
}
