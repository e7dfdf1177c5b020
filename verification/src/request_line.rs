//! The request line: method, target and protocol version.

use crate::request::ParseError;
use crate::request::ParserState;
use crate::scan::find_byte;
use crate::scan::find_crlf;
use crate::scan::first_crlf;
use crate::scan::lemma_first_crlf;
use crate::text::decode_text;
use crate::text::lossy_text;
use crate::text::SP;
use vstd::prelude::*;
use vstd::string::StringExecFns;

verus! {

/// The first line of a request.
#[derive(Debug, PartialEq, Eq)]
pub struct RequestLine {
    /// The protocol version without its `HTTP/` prefix: always `1.1`.
    pub http_version: String,
    /// The target as it stood on the wire.
    pub request_target: String,
    /// The method as it stood on the wire.
    pub method: String,
}

/// A request line as the contracts see it.
pub struct RequestLineView {
    pub http_version: Seq<char>,
    pub request_target: Seq<char>,
    pub method: Seq<char>,
}

impl View for RequestLine {
    type V = RequestLineView;

    open spec fn view(&self) -> RequestLineView {
        RequestLineView {
            http_version: self.http_version@,
            request_target: self.request_target@,
            method: self.method@,
        }
    }
}

/// The only version token that is accepted: `HTTP/1.1`.
pub open spec fn http_1_1() -> Seq<u8> {
    seq![72u8, 84u8, 84u8, 80u8, 47u8, 49u8, 46u8, 49u8]
}

/// The version that a parsed request line records: `1.1`.
pub open spec fn version_1_1() -> Seq<char> {
    seq!['1', '.', '1']
}

/// The three fields of `line`, where splitting it on the space character
/// gives exactly three: the parts before the first space, between the first
/// and the second, and behind the second, which holds no further space.
pub open spec fn request_line_fields(line: Seq<u8>) -> Option<(Seq<u8>, Seq<u8>, Seq<u8>)> {
    match line.index_of_first(SP) {
        None => None,
        Some(first) => {
            let tail = line.skip(first + 1);
            match tail.index_of_first(SP) {
                None => None,
                Some(second) => {
                    let last = tail.skip(second + 1);
                    if last.contains(SP) {
                        None
                    } else {
                        Some((line.take(first), tail.take(second), last))
                    }
                },
            }
        },
    }
}

/// What one request line, taken without its terminator, holds. The line is
/// refused where it has not exactly three fields, and where the third is not
/// `HTTP/1.1`. Method and target are kept as they stand, decoded lossily.
pub open spec fn request_line_of(line: Seq<u8>) -> Result<RequestLineView, ParseError> {
    match request_line_fields(line) {
        None => Err(ParseError::MalformedRequestLine),
        Some((method, target, version)) => {
            if version != http_1_1() {
                Err(ParseError::UnsupportedHTTPVersion)
            } else {
                Ok(
                    RequestLineView {
                        http_version: version_1_1(),
                        request_target: lossy_text(target),
                        method: lossy_text(method),
                    },
                )
            }
        },
    }
}

/// What a scan for the request line has come to.
pub struct LineScan {
    /// The number of bytes that the line and its terminator occupy.
    pub consumed: int,
    /// The line, once it is complete and accepted.
    pub line: Option<RequestLineView>,
    /// The state that the scan ended in, or the error that ended it.
    pub status: Result<ParserState, ParseError>,
}

/// The scan of `data` for a request line. Without a terminator in `data`
/// more data is needed; otherwise the bytes before the first terminator are
/// the line.
pub open spec fn scan_request_line(data: Seq<u8>) -> LineScan {
    match first_crlf(data) {
        None => LineScan { consumed: 0, line: None, status: Ok(ParserState::NeedMoreData) },
        Some(end) => match request_line_of(data.take(end)) {
            Err(e) => LineScan { consumed: 0, line: None, status: Err(e) },
            Ok(line) => LineScan {
                consumed: end + 2,
                line: Some(line),
                status: Ok(ParserState::Done),
            },
        },
    }
}

/// Parses the request line from the bytes that it is handed.
pub struct RequestLineParser {
    state: ParserState,
    request_line: Option<RequestLine>,
}

impl RequestLineParser {
    #[verifier::type_invariant]
    spec fn done_with_line(self) -> bool {
        (self.state == ParserState::Done) == (self.request_line is Some)
    }

    /// The state that the last call of `parse` ended in.
    pub closed spec fn state(&self) -> ParserState {
        self.state
    }

    /// The line that the last call of `parse` found.
    pub closed spec fn line(&self) -> Option<RequestLineView> {
        match self.request_line {
            Some(line) => Some(line@),
            None => None,
        }
    }

    /// A parser that has seen nothing yet.
    pub fn new() -> (r: Self)
        ensures
            r.state() == ParserState::Scanning,
            r.line() is None,
    {
        Self { state: ParserState::Scanning, request_line: None }
    }

    fn is_http_1_1(version: &[u8]) -> (r: bool)
        ensures
            r == (version@ == http_1_1()),
    {
        let expected: [u8; 8] = [72, 84, 84, 80, 47, 49, 46, 49];
        if version.len() != 8 {
            return false;
        }
        let mut i: usize = 0;
        while i < 8
            invariant
                i <= 8,
                version@.len() == 8,
                expected@ == http_1_1(),
                forall|j: int| 0 <= j < i ==> version@[j] == http_1_1()[j],
            decreases 8 - i,
        {
            if version[i] != expected[i] {
                return false;
            }
            i = i + 1;
        }
        assert(version@ =~= http_1_1());
        true
    }

    /// Takes in the line that `b` begins with, if `b` holds it in full.
    fn parse_request_line(&mut self, b: &[u8]) -> (r: Result<usize, ParseError>)
        requires
            old(self).state() == ParserState::Scanning,
        ensures
            final(self).line() == scan_request_line(b@).line,
            match scan_request_line(b@).status {
                Ok(state) => {
                    &&& r matches Ok(n) && n == scan_request_line(b@).consumed
                    &&& final(self).state() == state
                },
                Err(error) => {
                    &&& r matches Err(e) && e == error
                    &&& final(self).state() == ParserState::Scanning
                },
            },
            0 <= scan_request_line(b@).consumed <= b@.len(),
    {
        proof {
            use_type_invariant(&*self);
            lemma_first_crlf(b@);
        }
        let idx = match find_crlf(b) {
            Some(idx) => idx,
            None => {
                *self = Self { state: ParserState::NeedMoreData, request_line: None };
                return Ok(0);
            },
        };
        let n = b.len();
        assert(idx + 2 <= n);
        let start_line = &b[0..idx];
        let read = idx + 2;
        assert(start_line@ =~= b@.take(idx as int));
        let first = match find_byte(start_line, SP) {
            Some(first) => first,
            None => {
                return Err(ParseError::MalformedRequestLine);
            },
        };
        proof {
            start_line@.index_of_first_ensures(SP);
        }
        let method = &start_line[0..first];
        let tail = &start_line[first + 1..idx];
        assert(method@ =~= start_line@.take(first as int));
        assert(tail@ =~= start_line@.skip(first + 1));
        let second = match find_byte(tail, SP) {
            Some(second) => second,
            None => {
                return Err(ParseError::MalformedRequestLine);
            },
        };
        proof {
            tail@.index_of_first_ensures(SP);
        }
        let request_target = &tail[0..second];
        let http_version = &tail[second + 1..tail.len()];
        assert(request_target@ =~= tail@.take(second as int));
        assert(http_version@ =~= tail@.skip(second + 1));
        proof {
            http_version@.index_of_first_ensures(SP);
        }
        if find_byte(http_version, SP).is_some() {
            return Err(ParseError::MalformedRequestLine);
        }
        if !Self::is_http_1_1(http_version) {
            return Err(ParseError::UnsupportedHTTPVersion);
        }
        let request_line = RequestLine {
            http_version: String::from_str("1.1"),
            request_target: decode_text(request_target),
            method: decode_text(method),
        };
        proof {
            reveal_strlit("1.1");
            assert("1.1"@ =~= version_1_1());
        }
        *self = Self { state: ParserState::Done, request_line: Some(request_line) };
        Ok(read)
    }

    /// Looks for the request line at the start of `data` and returns the
    /// number of bytes it occupies with its terminator: none while `data`
    /// holds no terminator yet.
    pub fn parse(&mut self, data: &[u8]) -> (r: Result<usize, ParseError>)
        ensures
            final(self).line() == scan_request_line(data@).line,
            match scan_request_line(data@).status {
                Ok(state) => {
                    &&& r matches Ok(n) && n == scan_request_line(data@).consumed
                    &&& final(self).state() == state
                },
                Err(error) => {
                    &&& r matches Err(e) && e == error
                    &&& final(self).state() == ParserState::Scanning
                },
            },
            0 <= scan_request_line(data@).consumed <= data@.len(),
    {
        *self = Self { state: ParserState::Scanning, request_line: None };
        let mut read: usize = 0;
        proof {
            lemma_first_crlf(data@);
        }
        while self.state == ParserState::Scanning
            invariant
                self.state() == ParserState::Scanning ==> read == 0 && self.line() is None,
                self.state() != ParserState::Scanning ==> {
                    &&& self.line() == scan_request_line(data@).line
                    &&& scan_request_line(data@).status == Ok::<ParserState, ParseError>(
                        self.state(),
                    )
                    &&& read == scan_request_line(data@).consumed
                },
                0 <= scan_request_line(data@).consumed <= data@.len(),
            decreases
                if self.state() == ParserState::Scanning {
                    1int
                } else {
                    0int
                },
        {
            assert(read == 0);
            let rest = &data[read..data.len()];
            assert(rest@ =~= data@);
            match self.parse_request_line(rest) {
                Ok(n) => {
                    read = read + n;
                },
                Err(e) => {
                    return Err(e);
                },
            }
        }
        Ok(read)
    }

    /// Whether the line is complete.
    pub fn done(&self) -> (r: bool)
        ensures
            r == (self.state() == ParserState::Done),
            r == (self.line() is Some),
    {
        proof {
            use_type_invariant(self);
        }
        self.state == ParserState::Done
    }

    /// Hands out the line. Only a parser that is done has one.
    pub fn inner(self) -> (r: RequestLine)
        requires
            self.state() == ParserState::Done,
        ensures
            Some(r@) == self.line(),
    {
        proof {
            use_type_invariant(&self);
        }
        self.request_line.unwrap()
    }
}

impl Default for RequestLineParser {
    fn default() -> (r: Self)
        ensures
            r.state() == ParserState::Scanning,
            r.line() is None,
    {
        RequestLineParser::new()
    }
}

} // verus!
