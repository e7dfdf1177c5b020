use http_server::request::ParseError;
use http_server::request_line::RequestLine;
use http_server::request_line::RequestLineParser;

#[test]
fn request_line_is_split_into_three_fields() {
    let mut parser = RequestLineParser::new();
    assert!(!parser.done());
    assert_eq!(parser.parse(b"GET /index.html HTTP/1.1\r\nHost: x\r\n"), Ok(26));
    assert!(parser.done());
    assert_eq!(
        parser.inner(),
        RequestLine {
            http_version: String::from("1.1"),
            request_target: String::from("/index.html"),
            method: String::from("GET"),
        }
    );
}

#[test]
fn request_line_without_terminator_consumes_nothing() {
    let mut parser = RequestLineParser::new();
    assert_eq!(parser.parse(b"GET / HTTP/1.1\r"), Ok(0));
    assert!(!parser.done());
    assert_eq!(parser.parse(b""), Ok(0));
    assert!(!parser.done());
    assert_eq!(parser.parse(b"GET / HTTP/1.1\r\n"), Ok(16));
    assert!(parser.done());
}

#[test]
fn request_line_with_wrong_field_count_is_malformed() {
    let mut parser = RequestLineParser::new();
    assert_eq!(parser.parse(b"GET /\r\n"), Err(ParseError::MalformedRequestLine));
    assert!(!parser.done());
    let mut parser = RequestLineParser::new();
    assert_eq!(parser.parse(b"GET\r\n"), Err(ParseError::MalformedRequestLine));
    let mut parser = RequestLineParser::new();
    assert_eq!(parser.parse(b"\r\n"), Err(ParseError::MalformedRequestLine));
    let mut parser = RequestLineParser::new();
    assert_eq!(parser.parse(b"GET / HTTP/1.1 extra\r\n"), Err(ParseError::MalformedRequestLine));
    let mut parser = RequestLineParser::new();
    assert_eq!(parser.parse(b"GET / HTTP/1.0 extra\r\n"), Err(ParseError::MalformedRequestLine));
    let mut parser = RequestLineParser::new();
    assert_eq!(parser.parse(b"GET / HTTP/1.1 \r\n"), Err(ParseError::MalformedRequestLine));
}

#[test]
fn other_versions_are_unsupported() {
    let mut parser = RequestLineParser::new();
    assert_eq!(parser.parse(b"GET / HTTP/1.0\r\n"), Err(ParseError::UnsupportedHTTPVersion));
    assert!(!parser.done());
    let mut parser = RequestLineParser::new();
    assert_eq!(parser.parse(b"GET / http/1.1\r\n"), Err(ParseError::UnsupportedHTTPVersion));
    let mut parser = RequestLineParser::new();
    assert_eq!(parser.parse(b"GET / HTTP/1.11\r\n"), Err(ParseError::UnsupportedHTTPVersion));
    let mut parser = RequestLineParser::new();
    assert_eq!(parser.parse(b"GET / \r\n"), Err(ParseError::UnsupportedHTTPVersion));
}

#[test]
fn method_and_target_are_kept_verbatim() {
    let mut parser = RequestLineParser::new();
    assert_eq!(parser.parse(b"get  HTTP/1.1\r\n"), Ok(15));
    let line = parser.inner();
    assert_eq!(line.method, "get");
    assert_eq!(line.request_target, "");
    let mut parser = RequestLineParser::new();
    assert_eq!(parser.parse(b" /a?b=c HTTP/1.1\r\n"), Ok(18));
    let line = parser.inner();
    assert_eq!(line.method, "");
    assert_eq!(line.request_target, "/a?b=c");
}

#[test]
fn ill_formed_bytes_in_target_are_replaced() {
    let mut parser = RequestLineParser::new();
    assert_eq!(parser.parse(b"GET /\xff\xfe HTTP/1.1\r\n"), Ok(18));
    let line = parser.inner();
    assert_eq!(line.request_target, "/\u{fffd}\u{fffd}");
    let mut parser = RequestLineParser::new();
    let data = "GET /caf\u{e9} HTTP/1.1\r\n".as_bytes();
    assert_eq!(parser.parse(data), Ok(data.len()));
    assert_eq!(parser.inner().request_target, "/caf\u{e9}");
}

#[test]
fn a_new_call_forgets_the_line_found_before() {
    let mut parser = RequestLineParser::new();
    assert_eq!(parser.parse(b"GET / HTTP/1.1\r\n"), Ok(16));
    assert!(parser.done());
    assert_eq!(parser.parse(b"GET / HT"), Ok(0));
    assert!(!parser.done());
}
