use http_server::chunk_reader::ChunkReader;
use http_server::headers::Headers;
use http_server::request::ParseError;
use http_server::request::Request;
use http_server::request_line::RequestLine;

#[test]
fn test_standard_request() {
    let mut data = ChunkReader::new(
        "POST /submit HTTP/1.1\r\n\
            Host: localhost:42069\r\n\
            Content-Length: 13\r\n\
            \r\n\
            hello world!\n",
        3,
    );

    let request = Request::from_reader(&mut data);
    assert!(request.is_ok());

    let mut headers = Headers::new();
    headers.insert("Host", String::from("localhost:42069"));
    headers.insert("Content-Length", String::from("13"));
    assert_eq!(
        request.unwrap(),
        Request {
            request_line: RequestLine {
                http_version: String::from("1.1"),
                request_target: String::from("/submit"),
                method: String::from("POST"),
            },
            headers,
            body: "hello world!\n".as_bytes().to_vec(),
        },
    );
}

#[test]
fn test_short_body() {
    let mut data = ChunkReader::new(
        "POST /submit HTTP/1.1\r\n\
            Host: localhost:42069\r\n\
            Content-Length: 20\r\n\
            \r\n\
            hello world!\n",
        3,
    );

    let request = Request::from_reader(&mut data);
    assert_eq!(request, Err(ParseError::BodyShorterThanReported));
}

use http_server::request::RequestParser;
use http_server::request::CAPACITY;

const STANDARD: &str = "POST /submit HTTP/1.1\r\n\
            Host: localhost:42069\r\n\
            Content-Length: 13\r\n\
            \r\n\
            hello world!\n";

fn standard_request() -> Request {
    let mut headers = Headers::new();
    headers.insert("Host", String::from("localhost:42069"));
    headers.insert("Content-Length", String::from("13"));
    Request {
        request_line: RequestLine {
            http_version: String::from("1.1"),
            request_target: String::from("/submit"),
            method: String::from("POST"),
        },
        headers,
        body: "hello world!\n".as_bytes().to_vec(),
    }
}

fn feed_in_fragments(data: &[u8], size: usize) -> Result<Option<Request>, ParseError> {
    let mut parser = RequestParser::new();
    let mut at = 0;
    while at < data.len() {
        let end = usize::min(at + size, data.len());
        match parser.parse_request(&data[at..end]) {
            Ok(None) => {}
            other => return other,
        }
        at = end;
    }
    Ok(None)
}

#[test]
fn every_chunk_size_gives_the_same_request() {
    for size in [1usize, 2, 3, 4, 5, 7, 16, 21, 22, 23, 24, 64, 86, 87, 1000, 5000] {
        let mut reader = ChunkReader::new(STANDARD, size);
        assert_eq!(Request::from_reader(&mut reader), Ok(standard_request()));
    }
}

#[test]
fn every_fragment_size_gives_the_same_request() {
    for size in 1..=STANDARD.len() {
        let outcome = feed_in_fragments(STANDARD.as_bytes(), size);
        assert_eq!(outcome, Ok(Some(standard_request())));
    }
}

#[test]
fn every_fragment_size_gives_the_same_error() {
    let data = b"GET / HTTP/1.1\r\nHost: a\r\nBroken line\r\n\r\n";
    for size in 1..=data.len() {
        assert_eq!(feed_in_fragments(data, size), Err(ParseError::MissingFieldLineColumn));
    }
}

#[test]
fn request_is_found_in_one_fragment() {
    let mut parser = RequestParser::new();
    assert_eq!(parser.parse_request(STANDARD.as_bytes()), Ok(Some(standard_request())));
}

#[test]
fn request_without_content_length_has_no_body() {
    let mut parser = RequestParser::new();
    let request = parser
        .parse_request(b"GET / HTTP/1.1\r\nHost: a\r\n\r\nignored")
        .unwrap()
        .unwrap();
    assert_eq!(request.request_line.method, "GET");
    assert_eq!(request.request_line.request_target, "/");
    assert_eq!(request.request_line.http_version, "1.1");
    assert_eq!(request.headers.get("host"), Some(&String::from("a")));
    assert_eq!(request.body, Vec::<u8>::new());
}

#[test]
fn request_without_headers_is_complete() {
    let mut parser = RequestParser::new();
    let request = parser.parse_request(b"GET / HTTP/1.1\r\n\r\n").unwrap().unwrap();
    assert_eq!(request.headers, Headers::new());
    assert!(request.body.is_empty());
}

#[test]
fn bytes_behind_the_body_are_dropped() {
    let mut parser = RequestParser::new();
    let request = parser
        .parse_request(b"POST / HTTP/1.1\r\nContent-Length: 3\r\n\r\nabcdefGET / HTTP/1.1\r\n")
        .unwrap()
        .unwrap();
    assert_eq!(request.body, b"abc".to_vec());
    let next = parser.parse_request(b"GET /next HTTP/1.1\r\n\r\n").unwrap().unwrap();
    assert_eq!(next.request_line.request_target, "/next");
}

#[test]
fn incomplete_request_waits_for_more() {
    let mut parser = RequestParser::new();
    assert_eq!(parser.parse_request(b"POST / HT"), Ok(None));
    assert_eq!(parser.parse_request(b"TP/1.1\r"), Ok(None));
    assert_eq!(parser.parse_request(b"\nContent-Length: 2\r\n"), Ok(None));
    assert_eq!(parser.parse_request(b"\r"), Ok(None));
    assert_eq!(parser.parse_request(b"\n"), Ok(None));
    assert_eq!(parser.parse_request(b"a"), Ok(None));
    let request = parser.parse_request(b"b").unwrap().unwrap();
    assert_eq!(request.body, b"ab".to_vec());
}

#[test]
fn end_of_stream_in_the_head_is_an_io_error() {
    let mut parser = RequestParser::new();
    assert_eq!(parser.parse_request(b""), Err(ParseError::IoError));
    assert_eq!(parser.parse_request(b"GET / HTTP/1.1"), Ok(None));
    assert_eq!(parser.parse_request(b""), Err(ParseError::IoError));
    assert_eq!(parser.parse_request(b"GET / HTTP/1.1\r\nHost: a\r\n"), Ok(None));
    assert_eq!(parser.parse_request(b""), Err(ParseError::IoError));
    let mut reader = ChunkReader::new("GET / HTTP/1.1\r\nHost: a\r\n", 4);
    assert_eq!(Request::from_reader(&mut reader), Err(ParseError::IoError));
}

#[test]
fn end_of_stream_in_the_body_is_a_short_body() {
    let mut parser = RequestParser::new();
    let begun = parser.parse_request(b"POST / HTTP/1.1\r\nContent-Length: 5\r\n\r\nabcd");
    assert_eq!(begun, Ok(None));
    assert_eq!(parser.parse_request(b""), Err(ParseError::BodyShorterThanReported));
}

#[test]
fn reader_without_chunks_delivers_nothing() {
    let mut reader = ChunkReader::new(STANDARD, 0);
    assert_eq!(Request::from_reader(&mut reader), Err(ParseError::IoError));
}

#[test]
fn errors_of_the_request_line_end_the_parse() {
    let mut parser = RequestParser::new();
    assert_eq!(
        parser.parse_request(b"GET /\r\nHost: a\r\n\r\n"),
        Err(ParseError::MalformedRequestLine)
    );
    assert_eq!(
        parser.parse_request(b"GET / HTTP/2\r\n\r\n"),
        Err(ParseError::UnsupportedHTTPVersion)
    );
    let mut reader = ChunkReader::new("GET / HTTP/1.0\r\n\r\n", 5);
    assert_eq!(Request::from_reader(&mut reader), Err(ParseError::UnsupportedHTTPVersion));
}

#[test]
fn errors_of_the_header_block_end_the_parse() {
    let mut parser = RequestParser::new();
    assert_eq!(
        parser.parse_request(b"GET / HTTP/1.1\r\nHost : a\r\n\r\n"),
        Err(ParseError::InvalidFieldLineSpacing)
    );
    assert_eq!(
        parser.parse_request(b"GET / HTTP/1.1\r\nHost a\r\n\r\n"),
        Err(ParseError::MissingFieldLineColumn)
    );
    assert_eq!(
        parser.parse_request(b"GET / HTTP/1.1\r\nH@st: a\r\n\r\n"),
        Err(ParseError::InvalidTokenCharacter)
    );
}

#[test]
fn content_length_must_be_a_number() {
    for value in ["abc", "", "-1", "1.5", "12a", "+", "1 2", "0x10", "18446744073709551616000"] {
        let text = format!("POST / HTTP/1.1\r\nContent-Length: {}\r\n\r\nbody", value);
        let mut parser = RequestParser::new();
        assert_eq!(parser.parse_request(text.as_bytes()), Err(ParseError::InvalidHeaderValue));
    }
    let mut parser = RequestParser::new();
    assert_eq!(
        parser.parse_request(b"POST / HTTP/1.1\r\nContent-Length: 1\r\nContent-Length: 1\r\n\r\nb"),
        Err(ParseError::InvalidHeaderValue)
    );
}

#[test]
fn content_length_may_bear_a_plus_and_zeros() {
    let mut parser = RequestParser::new();
    let request = parser
        .parse_request(b"POST / HTTP/1.1\r\ncontent-length: +004\r\n\r\nbody")
        .unwrap()
        .unwrap();
    assert_eq!(request.body, b"body".to_vec());
}

#[test]
fn body_that_the_buffer_cannot_hold_counts_as_short() {
    let mut text = String::from("POST / HTTP/1.1\r\nContent-Length: 1025\r\n\r\n");
    text.push_str(&"x".repeat(1025));
    let mut parser = RequestParser::new();
    assert_eq!(parser.parse_request(text.as_bytes()), Err(ParseError::BodyShorterThanReported));
    let mut reader = ChunkReader::new(&text, 100);
    assert_eq!(Request::from_reader(&mut reader), Err(ParseError::BodyShorterThanReported));
}

#[test]
fn body_of_full_capacity_is_read() {
    let mut text = String::from("POST / HTTP/1.1\r\nContent-Length: 1024\r\n\r\n");
    text.push_str(&"x".repeat(CAPACITY));
    for size in [1usize, 100, 1024, 4096] {
        let mut reader = ChunkReader::new(&text, size);
        let request = Request::from_reader(&mut reader).unwrap();
        assert_eq!(request.body, vec![b'x'; 1024]);
    }
}

#[test]
fn line_that_the_buffer_cannot_hold_is_too_long() {
    let mut text = String::from("GET /");
    text.push_str(&"a".repeat(1024));
    text.push_str(" HTTP/1.1\r\n\r\n");
    for size in [1usize, 3, 1024, 5000] {
        assert_eq!(feed_in_fragments(text.as_bytes(), size), Err(ParseError::LineTooLong));
    }
    let mut long_header = String::from("GET / HTTP/1.1\r\nName: ");
    long_header.push_str(&"v".repeat(1017));
    long_header.push_str("\r\n\r\n");
    for size in [1usize, 7, 2000] {
        assert_eq!(feed_in_fragments(long_header.as_bytes(), size), Err(ParseError::LineTooLong));
    }
}

#[test]
fn line_that_just_fits_the_buffer_is_read() {
    let mut text = String::from("GET / HTTP/1.1\r\nName: ");
    text.push_str(&"v".repeat(1016));
    text.push_str("\r\n\r\n");
    for size in [1usize, 7, 1024, 2000] {
        let request = feed_in_fragments(text.as_bytes(), size).unwrap().unwrap();
        assert_eq!(request.headers.get("name").unwrap().len(), 1016);
    }
    let mut line = String::from("GET /");
    line.push_str(&"a".repeat(1008));
    line.push_str(" HTTP/1.1\r\n");
    assert_eq!(line.len(), 1024);
    line.push_str("\r\n");
    let request = feed_in_fragments(line.as_bytes(), 1500).unwrap().unwrap();
    assert_eq!(request.request_line.request_target.len(), 1009);
}

#[test]
fn many_header_lines_pass_through_the_buffer() {
    let mut text = String::from("GET / HTTP/1.1\r\n");
    for i in 0..200 {
        text.push_str(&format!("X-Header-{}: value-{}\r\n", i, i));
    }
    text.push_str("\r\n");
    assert!(text.len() > 3 * CAPACITY);
    for size in [1usize, 10, 1024, 100000] {
        let request = feed_in_fragments(text.as_bytes(), size).unwrap().unwrap();
        assert_eq!(request.headers.iter().len(), 200);
        assert_eq!(request.headers.get("x-header-199"), Some(&String::from("value-199")));
    }
}

#[test]
fn parser_starts_afresh_after_an_error() {
    let mut parser = RequestParser::new();
    assert_eq!(
        parser.parse_request(b"GET / HTTP/1.1\r\nBad\r\nHost: a\r\n"),
        Err(ParseError::MissingFieldLineColumn)
    );
    assert_eq!(parser.parse_request(STANDARD.as_bytes()), Ok(Some(standard_request())));
}

#[test]
fn reader_hands_out_chunks_in_order() {
    let mut reader = ChunkReader::new("abcdefgh", 3);
    let mut buf = [0u8; 5];
    assert_eq!(reader.read(&mut buf), 3);
    assert_eq!(&buf, b"abc\0\0");
    let mut small = [0u8; 2];
    assert_eq!(reader.read(&mut small), 2);
    assert_eq!(&small, b"de");
    assert_eq!(reader.read(&mut buf), 3);
    assert_eq!(&buf, b"fgh\0\0");
    assert_eq!(reader.read(&mut buf), 0);
    assert_eq!(&buf, b"fgh\0\0");
    let mut none: [u8; 0] = [];
    assert_eq!(ChunkReader::new("abc", 3).read(&mut none), 0);
}

#[test]
fn reader_is_left_behind_the_bytes_it_delivered() {
    let mut reader = ChunkReader::new("GET / HTTP/1.1\r\n\r\nrest of the stream", 6);
    assert!(Request::from_reader(&mut reader).is_ok());
    let mut buf = [0u8; 64];
    let n = reader.read(&mut buf);
    assert_eq!(&buf[..n], b"rest o");
}
