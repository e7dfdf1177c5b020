use http_server::headers::Headers;
use http_server::headers::HeadersParser;
use http_server::request::ParseError;

#[test]
fn test_valid_single_header() {
    let data = "Host: localhost:42069\r\n\r\n".as_bytes();
    let mut parser = HeadersParser::new();
    assert_eq!(parser.parse(data), Ok(data.len()));
    let mut headers = Headers::new();
    headers.insert("Host", String::from("localhost:42069"));

    assert_eq!(headers, parser.inner_headers());
}

#[test]
fn test_incomplete_header() {
    let data = "Host: localhost:42069\r".as_bytes();
    let mut parser = HeadersParser::new();
    assert_eq!(parser.parse(data), Ok(0));
    assert!(!parser.done());
}

#[test]
fn test_invalid_header_spacing() {
    let data = "Host :localhost:42069\r\n\r\n".as_bytes();
    let mut parser = HeadersParser::new();
    assert_eq!(parser.parse(data), Err(ParseError::InvalidFieldLineSpacing));
    assert!(!parser.done());
}

#[test]
fn test_multiple_headers() {
    let data = "Host: localhost:42069\r\n\
            Content-Type: plain/text\r\n\
            Content-Length: 40\r\n\r\n"
        .as_bytes();

    let mut parser = HeadersParser::new();
    assert_eq!(parser.parse(data), Ok(data.len()));

    let mut headers = Headers::new();
    headers.insert("Host", String::from("localhost:42069"));
    headers.insert("Content-Type", String::from("plain/text"));
    headers.insert("Content-Length", String::from("40"));

    assert_eq!(headers, parser.inner_headers());
}

#[test]
fn test_multiple_value_header() {
    let data = "Key: Value1\r\n\
            Key: Value2\r\n\
            Key: Value3\r\n\r\n"
        .as_bytes();

    let mut parser = HeadersParser::new();
    assert_eq!(parser.parse(data), Ok(data.len()));

    let mut headers = Headers::new();
    headers.insert("Key", String::from("Value1, Value2, Value3"));

    assert_eq!(headers, parser.inner_headers());
}

#[test]
fn repeated_name_joins_values_in_order() {
    let mut headers = Headers::new();
    headers.insert("Key", String::from("Value1"));
    headers.insert("Key", String::from("Value2"));
    headers.insert("Key", String::from("Value3"));
    assert_eq!(headers.get("Key"), Some(&String::from("Value1, Value2, Value3")));
    assert_eq!(headers.iter().len(), 1);
}

#[test]
fn lookup_ignores_case() {
    let mut headers = Headers::new();
    headers.insert("Host", String::from("localhost"));
    assert_eq!(headers.get("host"), Some(&String::from("localhost")));
    assert_eq!(headers.get("HOST"), Some(&String::from("localhost")));
    assert_eq!(headers.get("hOsT"), Some(&String::from("localhost")));
    assert_eq!(headers.get("Hosts"), None);
}

#[test]
fn names_are_stored_in_lower_case() {
    let mut headers = Headers::new();
    headers.insert("Content-TYPE", String::from("a"));
    headers.insert("X-Other", String::from("b"));
    headers.insert("content-type", String::from("c"));
    let fields = headers.iter();
    assert_eq!(fields.len(), 2);
    assert_eq!(fields[0], (String::from("content-type"), String::from("a, c")));
    assert_eq!(fields[1], (String::from("x-other"), String::from("b")));
}

#[test]
fn names_beyond_ascii_follow_unicode_case() {
    let mut headers = Headers::new();
    headers.insert("ÄRGER", String::from("1"));
    assert_eq!(headers.get("ärger"), Some(&String::from("1")));
    assert_eq!(headers.iter()[0].0, String::from("ärger"));
    headers.insert("Ärger", String::from("2"));
    assert_eq!(headers.get("ÄRGER"), Some(&String::from("1, 2")));
}

#[test]
fn equality_disregards_order() {
    let mut a = Headers::new();
    a.insert("One", String::from("1"));
    a.insert("Two", String::from("2"));
    let mut b = Headers::new();
    b.insert("two", String::from("2"));
    b.insert("one", String::from("1"));
    assert_eq!(a, b);
    assert!(b == a);
}

#[test]
fn equality_sees_values_and_names() {
    let mut a = Headers::new();
    a.insert("One", String::from("1"));
    let mut b = Headers::new();
    b.insert("One", String::from("2"));
    assert_ne!(a, b);
    let mut c = Headers::new();
    c.insert("One", String::from("1"));
    c.insert("Two", String::from("2"));
    assert_ne!(a, c);
    assert_ne!(c, a);
    assert_ne!(a, Headers::new());
    assert_eq!(Headers::new(), Headers::new());
}

#[test]
fn default_headers_announce_chunked_plain_text() {
    let headers = Headers::get_default();
    assert_eq!(headers.get("Transfer-Encoding"), Some(&String::from("chunked")));
    assert_eq!(headers.get("Content-Type"), Some(&String::from("text/plain")));
    assert_eq!(headers.get("Content-Length"), None);
    assert_eq!(headers.iter().len(), 2);
    assert_eq!(headers.iter()[0].0, String::from("transfer-encoding"));
}

#[test]
fn space_before_colon_is_refused() {
    let mut parser = HeadersParser::new();
    assert_eq!(parser.parse(b"Host : x\r\n"), Err(ParseError::InvalidFieldLineSpacing));
    assert!(!parser.done());
}

#[test]
fn line_without_colon_is_refused() {
    let mut parser = HeadersParser::new();
    assert_eq!(parser.parse(b"Host   localhost\r\n"), Err(ParseError::MissingFieldLineColumn));
}

#[test]
fn name_with_byte_beyond_ascii_is_refused() {
    let mut parser = HeadersParser::new();
    assert_eq!(
        parser.parse("H\u{a9}st: localhost\r\n\r\n".as_bytes()),
        Err(ParseError::InvalidTokenCharacter)
    );
    let mut parser = HeadersParser::new();
    assert_eq!(parser.parse(b"H\xffst: x\r\n"), Err(ParseError::InvalidTokenCharacter));
}

#[test]
fn name_with_separator_or_nothing_is_refused() {
    let mut parser = HeadersParser::new();
    assert_eq!(parser.parse(b"Ho(st: x\r\n"), Err(ParseError::InvalidTokenCharacter));
    let mut parser = HeadersParser::new();
    assert_eq!(parser.parse(b": x\r\n"), Err(ParseError::InvalidTokenCharacter));
    let mut parser = HeadersParser::new();
    assert_eq!(parser.parse(b"a b: x\r\n"), Err(ParseError::InvalidTokenCharacter));
    let mut parser = HeadersParser::new();
    assert_eq!(parser.parse(b"\t: x\r\n"), Err(ParseError::InvalidTokenCharacter));
}

#[test]
fn every_token_symbol_is_accepted() {
    let mut parser = HeadersParser::new();
    let data = b"!#$%&'*+-.^_`|~09azAZ: v\r\n\r\n";
    assert_eq!(parser.parse(data), Ok(data.len()));
    assert!(parser.done());
    let headers = parser.inner_headers();
    assert_eq!(headers.iter()[0].0, String::from("!#$%&'*+-.^_`|~09azaz"));
}

#[test]
fn whitespace_around_name_and_value_is_dropped() {
    let mut parser = HeadersParser::new();
    let data = b"  Host:   localhost:42069 \t \r\nEmpty:\r\n\r\n";
    assert_eq!(parser.parse(data), Ok(data.len()));
    let headers = parser.inner_headers();
    assert_eq!(headers.get("host"), Some(&String::from("localhost:42069")));
    assert_eq!(headers.get("empty"), Some(&String::new()));
}

#[test]
fn value_keeps_later_colons_and_replaces_ill_formed_bytes() {
    let mut parser = HeadersParser::new();
    let data = b"A: b:c\r\nB: x\xffy\r\n\r\n";
    assert_eq!(parser.parse(data), Ok(data.len()));
    let headers = parser.inner_headers();
    assert_eq!(headers.get("a"), Some(&String::from("b:c")));
    assert_eq!(headers.get("b"), Some(&String::from("x\u{fffd}y")));
}

#[test]
fn parse_stops_where_a_line_is_incomplete() {
    let mut parser = HeadersParser::new();
    let data = b"Host: a\r\nAccept: b\r\nPart";
    assert_eq!(parser.parse(data), Ok(20));
    assert!(!parser.done());
    assert_eq!(parser.parse(b"Partial: c\r\n\r\nbody"), Ok(14));
    assert!(parser.done());
    let headers = parser.inner_headers();
    assert_eq!(headers.iter().len(), 3);
    assert_eq!(headers.get("partial"), Some(&String::from("c")));
}

#[test]
fn empty_line_alone_ends_the_block() {
    let mut parser = HeadersParser::new();
    assert_eq!(parser.parse(b"\r\nrest"), Ok(2));
    assert!(parser.done());
    assert_eq!(parser.inner_headers(), Headers::new());
}

#[test]
fn fields_before_a_refused_line_are_kept() {
    let mut parser = HeadersParser::new();
    assert_eq!(parser.parse(b"Good: 1\r\nBad\r\n\r\n"), Err(ParseError::MissingFieldLineColumn));
    assert!(!parser.done());
    assert_eq!(parser.inner_headers().get("good"), Some(&String::from("1")));
}
