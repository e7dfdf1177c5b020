//! Requests and their incremental assembly from a fragmented byte stream.

use crate::chunk_reader::ChunkReader;
use crate::headers::distinct_names;
use crate::headers::lemma_field_line_has_token;
use crate::headers::lemma_insert_keeps_distinct;
use crate::headers::lemma_insert_keeps_token_names;
use crate::headers::token_names;
use crate::headers::value_of;
use crate::headers::insert_field;
use crate::headers::parse_field_line;
use crate::headers::scan_field_line;
use crate::headers::scan_field_lines;
use crate::headers::Field;
use crate::headers::Headers;
use crate::headers::HeadersParser;
use crate::request_line::request_line_of;
use crate::request_line::scan_request_line;
use crate::request_line::version_1_1;
use crate::request_line::RequestLine;
use crate::request_line::RequestLineParser;
use crate::request_line::RequestLineView;
use crate::scan::first_crlf;
use crate::scan::lemma_first_crlf;
use crate::scan::lemma_first_crlf_extends;
use crate::text::normalized_name;
use crate::text::parse_usize;
use crate::text::usize_value;
use vstd::prelude::*;
use vstd::slice::slice_to_vec;

verus! {

/// Why a request could not be parsed. Every error ends the parse of the
/// current request.
#[derive(Debug, Clone, Copy, PartialEq, Eq, Structural)]
pub enum ParseError {
    /// The request line does not consist of exactly three fields.
    MalformedRequestLine,
    /// The version field is not `HTTP/1.1`.
    UnsupportedHTTPVersion,
    /// A space stands between a header name and its colon.
    InvalidFieldLineSpacing,
    /// A header line holds no colon.
    MissingFieldLineColumn,
    /// A header name is empty or holds a byte outside the token characters.
    InvalidTokenCharacter,
    /// The stream ended, or the buffer filled, before the announced body
    /// length was reached.
    BodyShorterThanReported,
    /// `Content-Length` is not a non-negative decimal integer that fits a
    /// `usize`.
    InvalidHeaderValue,
    /// The stream failed, or ended before the request line and the header
    /// block were complete.
    IoError,
    /// A line of the message head does not fit the buffer together with its
    /// terminator.
    LineTooLong,
}

/// Where a line-oriented parser stands after looking at the bytes it was
/// given.
#[derive(Debug, Clone, Copy, PartialEq, Eq, Structural)]
pub enum ParserState {
    /// More lines may follow in the bytes at hand.
    Scanning,
    /// The bytes at hand hold no further terminator; the caller has to
    /// supply more.
    NeedMoreData,
    /// The construct is complete.
    Done,
}

impl Default for ParserState {
    fn default() -> (r: Self)
        ensures
            r == ParserState::Scanning,
    {
        ParserState::Scanning
    }
}

/// The number of bytes that the read buffer holds at most. A line of the
/// message head, with its terminator, and the body each have to fit.
pub const CAPACITY: usize = 1024;

/// A request that was read in full.
#[derive(Debug, PartialEq)]
pub struct Request {
    pub request_line: RequestLine,
    pub headers: Headers,
    pub body: Vec<u8>,
}

/// A request as the contracts see it.
pub struct RequestView {
    pub request_line: RequestLineView,
    pub headers: Seq<Field>,
    pub body: Seq<u8>,
}

impl View for Request {
    type V = RequestView;

    open spec fn view(&self) -> RequestView {
        RequestView {
            request_line: self.request_line@,
            headers: self.headers@,
            body: self.body@,
        }
    }
}

/// What a byte stream amounts to as a request.
pub enum Outcome {
    /// The bytes so far are the beginning of a request; more are needed.
    Incomplete,
    /// The bytes hold this request. Bytes behind its body are ignored.
    Complete(RequestView),
    /// The bytes are refused.
    Failed(ParseError),
}

/// The part of `stream` that the buffer can hold at once.
pub open spec fn window(stream: Seq<u8>) -> Seq<u8> {
    if stream.len() <= CAPACITY {
        stream
    } else {
        stream.take(CAPACITY as int)
    }
}

/// The index at which the terminator of the line starts that `stream`
/// begins with, if the buffer can hold that line and its terminator.
pub open spec fn next_line(stream: Seq<u8>) -> Option<int> {
    first_crlf(window(stream))
}

/// What becomes of a stream whose next line has no terminator within reach:
/// the line is too long once the buffer is full; else, a closed stream has
/// failed to deliver it, and an open one may yet do so.
pub open spec fn starved(stream: Seq<u8>, closed: bool) -> Outcome {
    if stream.len() >= CAPACITY {
        Outcome::Failed(ParseError::LineTooLong)
    } else if closed {
        Outcome::Failed(ParseError::IoError)
    } else {
        Outcome::Incomplete
    }
}

/// The body length that `fields` announce: the value of `Content-Length`
/// read as a decimal `usize`, nothing where that value is no such number,
/// and zero without the header.
pub open spec fn content_length(fields: Seq<Field>) -> Option<usize> {
    match value_of(fields, normalized_name("Content-Length"@)) {
        None => Some(0usize),
        Some(value) => usize_value(value),
    }
}

/// The outcome for a message whose head is `line` and `fields` and whose
/// body starts at the beginning of `stream`. The body is the first bytes of
/// the stream, as many as `fields` announce; a length that the buffer cannot
/// hold counts as never reached.
pub open spec fn body_of(
    line: RequestLineView,
    fields: Seq<Field>,
    stream: Seq<u8>,
    closed: bool,
) -> Outcome {
    match content_length(fields) {
        None => Outcome::Failed(ParseError::InvalidHeaderValue),
        Some(len) => {
            if len > CAPACITY {
                Outcome::Failed(ParseError::BodyShorterThanReported)
            } else if stream.len() >= len {
                Outcome::Complete(
                    RequestView {
                        request_line: line,
                        headers: fields,
                        body: stream.take(len as int),
                    },
                )
            } else if closed {
                Outcome::Failed(ParseError::BodyShorterThanReported)
            } else {
                Outcome::Incomplete
            }
        },
    }
}

/// The outcome for a message whose request line is `line`, whose header
/// lines so far gave `fields`, and whose further header lines start at the
/// beginning of `stream`.
pub open spec fn headers_then_body(
    line: RequestLineView,
    fields: Seq<Field>,
    stream: Seq<u8>,
    closed: bool,
) -> Outcome
    decreases stream.len(),
    via headers_then_body_decreases
{
    match next_line(stream) {
        None => starved(stream, closed),
        Some(end) => {
            if end == 0 {
                body_of(line, fields, stream.skip(2), closed)
            } else {
                match parse_field_line(stream.take(end)) {
                    Err(e) => Outcome::Failed(e),
                    Ok((name, value)) => headers_then_body(
                        line,
                        insert_field(fields, normalized_name(name), value),
                        stream.skip(end + 2),
                        closed,
                    ),
                }
            }
        },
    }
}

#[via_fn]
proof fn headers_then_body_decreases(
    line: RequestLineView,
    fields: Seq<Field>,
    stream: Seq<u8>,
    closed: bool,
) {
    lemma_first_crlf(window(stream));
}

/// What `stream` amounts to as a request: a request line, header lines up
/// to an empty line, and a body of the announced length. `closed` says
/// whether the stream has ended behind these bytes.
pub open spec fn request_of(stream: Seq<u8>, closed: bool) -> Outcome {
    match next_line(stream) {
        None => starved(stream, closed),
        Some(end) => match request_line_of(stream.take(end)) {
            Err(e) => Outcome::Failed(e),
            Ok(line) => headers_then_body(line, Seq::empty(), stream.skip(end + 2), closed),
        },
    }
}

/// A line that is within reach stays the next line however the stream goes
/// on, and a full buffer without a terminator stays without one.
pub proof fn lemma_next_line_extends(stream: Seq<u8>, more: Seq<u8>)
    ensures
        next_line(stream) is Some ==> next_line(stream + more) == next_line(stream),
        next_line(stream) is None && stream.len() >= CAPACITY ==> next_line(stream + more) is None,
        match next_line(stream) {
            Some(end) => 0 <= end && end + 2 <= stream.len() && end + 2 <= CAPACITY && (stream
                + more).take(end) == stream.take(end) && (stream + more).skip(end + 2)
                == stream.skip(end + 2) + more,
            None => true,
        },
{
    let w = window(stream);
    lemma_first_crlf(w);
    if stream.len() >= CAPACITY {
        assert(window(stream + more) =~= w);
    } else {
        let fill = if more.len() <= CAPACITY - stream.len() {
            more
        } else {
            more.take(CAPACITY - stream.len())
        };
        assert(window(stream + more) =~= w + fill);
        if first_crlf(w) is Some {
            lemma_first_crlf_extends(w, fill);
        }
    }
    if next_line(stream) is Some {
        let end = next_line(stream).unwrap();
        assert((stream + more).take(end) =~= stream.take(end));
        assert((stream + more).skip(end + 2) =~= stream.skip(end + 2) + more);
    }
}

/// Once the body's outcome is settled, further bytes do not change it.
pub proof fn lemma_body_settled(
    line: RequestLineView,
    fields: Seq<Field>,
    stream: Seq<u8>,
    more: Seq<u8>,
    closed: bool,
)
    requires
        body_of(line, fields, stream, false) != Outcome::Incomplete,
    ensures
        body_of(line, fields, stream + more, closed) == body_of(line, fields, stream, false),
{
    match content_length(fields) {
        None => {},
        Some(len) => {
            if len <= CAPACITY {
                assert((stream + more).take(len as int) =~= stream.take(len as int));
            }
        },
    }
}

/// Once the header block's outcome is settled, further bytes do not change
/// it.
pub proof fn lemma_headers_settled(
    line: RequestLineView,
    fields: Seq<Field>,
    stream: Seq<u8>,
    more: Seq<u8>,
    closed: bool,
)
    requires
        headers_then_body(line, fields, stream, false) != Outcome::Incomplete,
    ensures
        headers_then_body(line, fields, stream + more, closed) == headers_then_body(
            line,
            fields,
            stream,
            false,
        ),
    decreases stream.len(),
{
    lemma_next_line_extends(stream, more);
    match next_line(stream) {
        None => {},
        Some(end) => {
            if end == 0 {
                lemma_body_settled(line, fields, stream.skip(2), more, closed);
            } else {
                match parse_field_line(stream.take(end)) {
                    Err(e) => {},
                    Ok((name, value)) => {
                        lemma_headers_settled(
                            line,
                            insert_field(fields, normalized_name(name), value),
                            stream.skip(end + 2),
                            more,
                            closed,
                        );
                    },
                }
            }
        },
    }
}

/// Once a stream's outcome is settled, it stays: whatever follows the bytes
/// that completed or failed a request changes nothing, and neither does the
/// way in which the bytes are cut into fragments.
pub proof fn lemma_request_settled(stream: Seq<u8>, more: Seq<u8>, closed: bool)
    requires
        request_of(stream, false) != Outcome::Incomplete,
    ensures
        request_of(stream + more, closed) == request_of(stream, false),
{
    lemma_next_line_extends(stream, more);
    match next_line(stream) {
        None => {},
        Some(end) => match request_line_of(stream.take(end)) {
            Err(e) => {},
            Ok(line) => {
                lemma_headers_settled(line, Seq::empty(), stream.skip(end + 2), more, closed);
            },
        },
    }
}

/// A closed stream is never left incomplete.
pub proof fn lemma_closed_is_settled(stream: Seq<u8>)
    ensures
        request_of(stream, true) != Outcome::Incomplete,
{
    match next_line(stream) {
        None => {},
        Some(end) => match request_line_of(stream.take(end)) {
            Err(e) => {},
            Ok(line) => {
                lemma_closed_headers_settled(line, Seq::empty(), stream.skip(end + 2));
            },
        },
    }
}

proof fn lemma_closed_headers_settled(line: RequestLineView, fields: Seq<Field>, stream: Seq<u8>)
    ensures
        headers_then_body(line, fields, stream, true) != Outcome::Incomplete,
    decreases stream.len(),
{
    lemma_first_crlf(window(stream));
    match next_line(stream) {
        None => {},
        Some(end) => {
            if end != 0 {
                match parse_field_line(stream.take(end)) {
                    Err(e) => {},
                    Ok((name, value)) => {
                        lemma_closed_headers_settled(
                            line,
                            insert_field(fields, normalized_name(name), value),
                            stream.skip(end + 2),
                        );
                    },
                }
            }
        },
    }
}

proof fn lemma_headers_keep_names(
    line: RequestLineView,
    fields: Seq<Field>,
    stream: Seq<u8>,
    closed: bool,
)
    requires
        token_names(fields),
        distinct_names(fields),
    ensures
        headers_then_body(line, fields, stream, closed) matches Outcome::Complete(request)
            ==> request.request_line == line && token_names(request.headers) && distinct_names(
            request.headers,
        ) && content_length(request.headers) == Some(request.body.len() as usize)
            && request.body.len() <= CAPACITY,
    decreases stream.len(),
{
    lemma_first_crlf(window(stream));
    match next_line(stream) {
        None => {},
        Some(end) => {
            if end != 0 {
                match parse_field_line(stream.take(end)) {
                    Err(e) => {},
                    Ok((name, value)) => {
                        lemma_field_line_has_token(stream.take(end));
                        let stored = normalized_name(name);
                        lemma_insert_keeps_distinct(fields, stored, value);
                        lemma_insert_keeps_token_names(fields, stored, value);
                        lemma_headers_keep_names(
                            line,
                            insert_field(fields, stored, value),
                            stream.skip(end + 2),
                            closed,
                        );
                    },
                }
            }
        },
    }
}

/// A request that a stream amounts to bears the version `1.1`, has every
/// header stored under a token of its own, and has a body of the length
/// that its headers announce, within the buffer's capacity.
pub proof fn lemma_complete_request(stream: Seq<u8>, closed: bool)
    ensures
        request_of(stream, closed) matches Outcome::Complete(request) ==> {
            &&& request.request_line.http_version == version_1_1()
            &&& token_names(request.headers)
            &&& distinct_names(request.headers)
            &&& content_length(request.headers) == Some(request.body.len() as usize)
            &&& request.body.len() <= CAPACITY
        },
{
    match next_line(stream) {
        None => {},
        Some(end) => match request_line_of(stream.take(end)) {
            Err(e) => {},
            Ok(line) => {
                lemma_headers_keep_names(line, Seq::empty(), stream.skip(end + 2), closed);
            },
        },
    }
}

/// What a parser that has received `received` answers to `fragments`,
/// handed to it one by one: the first outcome that is settled, if there is
/// one. An empty fragment says that the stream has ended.
pub open spec fn fed(received: Seq<u8>, fragments: Seq<Seq<u8>>) -> Outcome
    decreases fragments.len(),
{
    if fragments.len() == 0 {
        Outcome::Incomplete
    } else {
        let first = request_of(received + fragments[0], fragments[0].len() == 0);
        if first != Outcome::Incomplete {
            first
        } else {
            fed(received + fragments[0], fragments.drop_first())
        }
    }
}

proof fn lemma_fed(received: Seq<u8>, fragments: Seq<Seq<u8>>, closed: bool)
    requires
        request_of(received, false) == Outcome::Incomplete,
        forall|i: int| 0 <= i < fragments.len() ==> (#[trigger] fragments[i]).len() > 0,
    ensures
        fed(
            received,
            if closed {
                fragments.push(Seq::empty())
            } else {
                fragments
            },
        ) == request_of(received + fragments.flatten(), closed),
    decreases fragments.len(),
{
    let none = Seq::<u8>::empty();
    if fragments.len() == 0 {
        assert(received + fragments.flatten() =~= received);
        if closed {
            assert(received + none =~= received);
            lemma_closed_is_settled(received);
            assert(fragments.push(none)[0] == none);
        }
    } else {
        let first = fragments[0];
        let rest = fragments.drop_first();
        let now = received + first;
        assert(fragments.flatten() == first + rest.flatten());
        assert(received + fragments.flatten() =~= now + rest.flatten());
        if closed {
            assert(fragments.push(none).drop_first() =~= rest.push(none));
            assert(fragments.push(none)[0] == first);
        }
        if request_of(now, false) != Outcome::Incomplete {
            lemma_request_settled(now, rest.flatten(), closed);
        } else {
            lemma_fed(now, rest, closed);
        }
    }
}

/// The outcome does not depend on the fragments in which a stream arrives:
/// handing the fragments in one by one comes to what the stream amounts to
/// as a whole, be the fragments single bytes or the stream in one piece.
pub proof fn lemma_fragments_agree(fragments: Seq<Seq<u8>>)
    requires
        forall|i: int| 0 <= i < fragments.len() ==> (#[trigger] fragments[i]).len() > 0,
    ensures
        fed(Seq::empty(), fragments) == request_of(fragments.flatten(), false),
        fed(Seq::empty(), fragments.push(Seq::empty())) == request_of(fragments.flatten(), true),
{
    let none = Seq::<u8>::empty();
    lemma_first_crlf(none);
    assert(none + fragments.flatten() =~= fragments.flatten());
    lemma_fed(none, fragments, false);
    lemma_fed(none, fragments, true);
}

/// How far the head of a message has been read.
enum Cursor {
    /// Nothing is read yet.
    Line,
    /// The request line is read, and header lines that gave these fields.
    Headers(RequestLineView, Seq<Field>),
    /// The head is read in full.
    Body(RequestLineView, Seq<Field>),
}

/// The outcome for a message that has been read as far as `cursor` says and
/// goes on with `stream`.
spec fn resume(cursor: Cursor, stream: Seq<u8>, closed: bool) -> Outcome {
    match cursor {
        Cursor::Line => request_of(stream, closed),
        Cursor::Headers(line, fields) => headers_then_body(line, fields, stream, closed),
        Cursor::Body(line, fields) => body_of(line, fields, stream, closed),
    }
}

/// Whether reading on from `cursor` with `pending` and whatever follows it
/// amounts to the same as reading `seen` and whatever follows it from the
/// start.
#[verifier::opaque]
spec fn tracks(seen: Seq<u8>, cursor: Cursor, pending: Seq<u8>) -> bool {
    forall|more: Seq<u8>, closed: bool| #[trigger]
        request_of(seen + more, closed) == resume(cursor, pending + more, closed)
}

proof fn lemma_tracks_grows(seen: Seq<u8>, cursor: Cursor, pending: Seq<u8>, data: Seq<u8>)
    requires
        tracks(seen, cursor, pending),
    ensures
        tracks(seen + data, cursor, pending + data),
{
    reveal(tracks);
    assert forall|more: Seq<u8>, closed: bool| #[trigger]
        request_of(seen + data + more, closed) == resume(
            cursor,
            pending + data + more,
            closed,
        ) by {
        assert(seen + data + more =~= seen + (data + more));
        assert(pending + data + more =~= pending + (data + more));
        assert(request_of(seen + (data + more), closed) == resume(
            cursor,
            pending + (data + more),
            closed,
        ));
    }
}

proof fn lemma_tracks_now(seen: Seq<u8>, cursor: Cursor, pending: Seq<u8>, closed: bool)
    requires
        tracks(seen, cursor, pending),
    ensures
        request_of(seen, closed) == resume(cursor, pending, closed),
{
    reveal(tracks);
    let none = Seq::<u8>::empty();
    assert(seen + none =~= seen);
    assert(pending + none =~= pending);
    assert(request_of(seen + none, closed) == resume(cursor, pending + none, closed));
}

/// What a scan of the buffer for the request line says of the stream that
/// the buffer is the beginning of.
proof fn lemma_line_scanned(held: Seq<u8>, more: Seq<u8>, closed: bool)
    requires
        held.len() <= CAPACITY,
    ensures
        match scan_request_line(held).status {
            Err(e) => request_of(held + more, closed) == Outcome::Failed(e),
            Ok(ParserState::Done) => request_of(held + more, closed) == headers_then_body(
                scan_request_line(held).line.unwrap(),
                Seq::empty(),
                held.skip(scan_request_line(held).consumed) + more,
                closed,
            ),
            Ok(_) => first_crlf(held) is None && (held.len() == CAPACITY ==> request_of(
                held + more,
                closed,
            ) == Outcome::Failed(ParseError::LineTooLong)),
        },
{
    assert(window(held) == held);
    lemma_next_line_extends(held, more);
}

/// A buffer that holds no terminator leaves the stream starved.
proof fn lemma_no_line(cursor: Cursor, held: Seq<u8>, more: Seq<u8>, closed: bool)
    requires
        held.len() <= CAPACITY,
        first_crlf(held) is None,
        !(cursor is Body),
    ensures
        held.len() == CAPACITY ==> resume(cursor, held + more, closed) == Outcome::Failed(
            ParseError::LineTooLong,
        ),
        held.len() < CAPACITY ==> resume(cursor, held, closed) == starved(held, closed),
{
    assert(window(held) == held);
    lemma_next_line_extends(held, more);
}

/// What a scan of the buffer for header lines says of the stream that the
/// buffer is the beginning of.
proof fn lemma_fields_scanned(
    line: RequestLineView,
    fields: Seq<Field>,
    held: Seq<u8>,
    more: Seq<u8>,
    closed: bool,
)
    requires
        held.len() <= CAPACITY,
    ensures
        0 <= scan_field_lines(held, fields).consumed <= held.len(),
        match scan_field_lines(held, fields).status {
            Err(e) => headers_then_body(line, fields, held + more, closed) == Outcome::Failed(e),
            Ok(ParserState::Done) => headers_then_body(line, fields, held + more, closed)
                == body_of(
                line,
                scan_field_lines(held, fields).fields,
                held.skip(scan_field_lines(held, fields).consumed) + more,
                closed,
            ),
            Ok(_) => first_crlf(held.skip(scan_field_lines(held, fields).consumed)) is None
                && headers_then_body(line, fields, held + more, closed) == headers_then_body(
                line,
                scan_field_lines(held, fields).fields,
                held.skip(scan_field_lines(held, fields).consumed) + more,
                closed,
            ),
        },
    decreases held.len(),
{
    assert(window(held) == held);
    lemma_next_line_extends(held, more);
    lemma_first_crlf(held);
    let first = scan_field_line(held, fields);
    if first.status == Ok::<ParserState, ParseError>(ParserState::Scanning) {
        let rest = held.skip(first.consumed);
        lemma_fields_scanned(line, first.fields, rest, more, closed);
        let scan = scan_field_lines(rest, first.fields);
        assert(rest.skip(scan.consumed) =~= held.skip(first.consumed + scan.consumed));
    } else {
        assert(held.skip(0) =~= held);
    }
}

proof fn lemma_step_line(seen: Seq<u8>, held: Seq<u8>, tail: Seq<u8>, closed: bool)
    requires
        tracks(seen, Cursor::Line, held + tail),
        held.len() <= CAPACITY,
    ensures
        match scan_request_line(held).status {
            Err(e) => request_of(seen, closed) == Outcome::Failed(e),
            Ok(ParserState::Done) => tracks(
                seen,
                Cursor::Headers(scan_request_line(held).line.unwrap(), Seq::empty()),
                held.skip(scan_request_line(held).consumed) + tail,
            ),
            Ok(_) => first_crlf(held) is None && (held.len() == CAPACITY ==> request_of(
                seen,
                closed,
            ) == Outcome::Failed(ParseError::LineTooLong)),
        },
{
    reveal(tracks);
    let scan = scan_request_line(held);
    lemma_tracks_now(seen, Cursor::Line, held + tail, closed);
    lemma_line_scanned(held, tail, closed);
    if scan.status == Ok::<ParserState, ParseError>(ParserState::Done) {
        let next = Cursor::Headers(scan.line.unwrap(), Seq::empty());
        let left = held.skip(scan.consumed);
        assert forall|more: Seq<u8>, c: bool| #[trigger]
            request_of(seen + more, c) == resume(next, left + tail + more, c) by {
            lemma_line_scanned(held, tail + more, c);
            assert(held + tail + more =~= held + (tail + more));
            assert(left + tail + more =~= left + (tail + more));
            assert(request_of(seen + more, c) == resume(Cursor::Line, held + tail + more, c));
        }
    }
}

proof fn lemma_step_fields(
    seen: Seq<u8>,
    line: RequestLineView,
    fields: Seq<Field>,
    held: Seq<u8>,
    tail: Seq<u8>,
    closed: bool,
)
    requires
        tracks(seen, Cursor::Headers(line, fields), held + tail),
        held.len() <= CAPACITY,
    ensures
        0 <= scan_field_lines(held, fields).consumed <= held.len(),
        match scan_field_lines(held, fields).status {
            Err(e) => request_of(seen, closed) == Outcome::Failed(e),
            Ok(ParserState::Done) => tracks(
                seen,
                Cursor::Body(line, scan_field_lines(held, fields).fields),
                held.skip(scan_field_lines(held, fields).consumed) + tail,
            ),
            Ok(_) => {
                let left = held.skip(scan_field_lines(held, fields).consumed);
                &&& first_crlf(left) is None
                &&& tracks(
                    seen,
                    Cursor::Headers(line, scan_field_lines(held, fields).fields),
                    left + tail,
                )
                &&& left.len() == CAPACITY ==> request_of(seen, closed) == Outcome::Failed(
                    ParseError::LineTooLong,
                )
            },
        },
{
    reveal(tracks);
    let scan = scan_field_lines(held, fields);
    let now = Cursor::Headers(line, fields);
    lemma_tracks_now(seen, now, held + tail, closed);
    lemma_fields_scanned(line, fields, held, tail, closed);
    let left = held.skip(scan.consumed);
    match scan.status {
        Err(e) => {},
        Ok(state) => {
            let next = if state == ParserState::Done {
                Cursor::Body(line, scan.fields)
            } else {
                Cursor::Headers(line, scan.fields)
            };
            assert forall|more: Seq<u8>, c: bool| #[trigger]
                request_of(seen + more, c) == resume(next, left + tail + more, c) by {
                lemma_fields_scanned(line, fields, held, tail + more, c);
                assert(held + tail + more =~= held + (tail + more));
                assert(left + tail + more =~= left + (tail + more));
                assert(request_of(seen + more, c) == resume(now, held + tail + more, c));
            }
            if state != ParserState::Done && left.len() == CAPACITY {
                lemma_tracks_now(seen, next, left + tail, closed);
                lemma_no_line(next, left, tail, closed);
            }
        },
    }
}

/// Where the assembly of a request stands, with what it has gathered.
enum Stage {
    RequestLine,
    Headers(RequestLine, HeadersParser),
    Body(RequestLine, Headers, usize),
}

spec fn cursor_of(stage: Stage) -> Cursor {
    match stage {
        Stage::RequestLine => Cursor::Line,
        Stage::Headers(line, parser) => Cursor::Headers(line@, parser.fields()),
        Stage::Body(line, headers, len) => Cursor::Body(line@, headers@),
    }
}

/// What holds between two calls: the buffer has room, and lacks what the
/// stage waits for.
spec fn waiting(stage: Stage, held: Seq<u8>) -> bool {
    match stage {
        Stage::Body(line, headers, len) => content_length(headers@) == Some(len) && len
            <= CAPACITY && held.len() < len,
        _ => held.len() < CAPACITY && first_crlf(held) is None,
    }
}

/// Assembles one request from the fragments in which its bytes arrive. The
/// caller reads from the stream and hands each fragment to `parse_request`;
/// the parser buffers what it cannot use yet.
pub struct RequestParser {
    buf: Vec<u8>,
    stage: Stage,
    received: Ghost<Seq<u8>>,
}

impl RequestParser {
    #[verifier::type_invariant]
    spec fn consistent(self) -> bool {
        waiting(self.stage, self.buf@) && tracks(self.received@, cursor_of(self.stage), self.buf@)
    }

    /// The bytes handed in since the last request was completed or refused.
    pub closed spec fn received(&self) -> Seq<u8> {
        self.received@
    }

    /// A parser that has received nothing.
    pub fn new() -> (r: Self)
        ensures
            r.received() == Seq::<u8>::empty(),
    {
        proof {
            lemma_first_crlf(Seq::<u8>::empty());
            reveal(tracks);
        }
        Self { buf: Vec::new(), stage: Stage::RequestLine, received: Ghost(Seq::empty()) }
    }

    /// Takes in a fragment of the stream; an empty fragment says that the
    /// stream has ended. Returns the request once the fragments so far hold it
    /// in full, and nothing while they do not. After a request or an error the
    /// parser starts afresh and drops what it has buffered.
    ///
    /// The result depends on the bytes received, not on how they were cut
    /// into fragments.
    pub fn parse_request(&mut self, data: &[u8]) -> (r: Result<Option<Request>, ParseError>)
        ensures
            match request_of(old(self).received() + data@, data@.len() == 0) {
                Outcome::Incomplete => {
                    &&& r matches Ok(None)
                    &&& final(self).received() == old(self).received() + data@
                },
                Outcome::Complete(request) => {
                    &&& r matches Ok(Some(q)) && q@ == request
                    &&& final(self).received() == Seq::<u8>::empty()
                },
                Outcome::Failed(error) => {
                    &&& r matches Err(e) && e == error
                    &&& final(self).received() == Seq::<u8>::empty()
                },
            },
    {
        proof {
            use_type_invariant(&*self);
        }
        let mut taken = RequestParser::new();
        std::mem::swap(self, &mut taken);
        let RequestParser { mut buf, mut stage, received } = taken;
        let ghost seen = received@ + data@;
        proof {
            lemma_tracks_grows(received@, cursor_of(stage), buf@, data@);
        }
        if data.len() == 0 {
            proof {
                assert(buf@ + data@ =~= buf@);
                lemma_tracks_now(seen, cursor_of(stage), buf@, true);
                if !(stage is Body) {
                    lemma_no_line(cursor_of(stage), buf@, Seq::empty(), true);
                }
            }
            return match stage {
                Stage::Body(_, _, _) => Err(ParseError::BodyShorterThanReported),
                _ => Err(ParseError::IoError),
            };
        }
        let mut offset: usize = 0;
        proof {
            assert(data@.skip(0) =~= data@);
        }
        loop
            invariant
                offset < data@.len(),
                seen == old(self).received() + data@,
                self.received() == Seq::<u8>::empty(),
                waiting(stage, buf@),
                tracks(seen, cursor_of(stage), buf@ + data@.skip(offset as int)),
            decreases data@.len() - offset,
        {
            let ghost before = buf@;
            let n = Self::read_to_buf(&mut buf, &data[offset..data.len()]);
            offset = offset + n;
            let ghost tail = data@.skip(offset as int);
            proof {
                assert(data@.subrange(offset - n, data@.len() as int).take(n as int) + tail
                    =~= data@.skip(offset - n));
                assert(buf@ + tail =~= before + data@.skip(offset - n));
            }
            match Self::advance(stage, &mut buf, Ghost(seen), Ghost(tail)) {
                Err(e) => {
                    return Err(e);
                },
                Ok(Progress::Complete(request)) => {
                    return Ok(Some(request));
                },
                Ok(Progress::Waiting(reached)) => {
                    stage = reached;
                },
            }
            if offset == data.len() {
                proof {
                    assert(buf@ + tail =~= buf@);
                    lemma_tracks_now(seen, cursor_of(stage), buf@, false);
                    if !(stage is Body) {
                        lemma_no_line(cursor_of(stage), buf@, Seq::empty(), false);
                    }
                }
                *self = RequestParser { buf, stage, received: Ghost(seen) };
                return Ok(None);
            }
        }
    }

    /// Works through what the buffer holds: the request line, then the header
    /// lines, then the body, each as far as it is there, and stops where
    /// something is missing.
    fn advance(
        stage: Stage,
        buf: &mut Vec<u8>,
        Ghost(seen): Ghost<Seq<u8>>,
        Ghost(tail): Ghost<Seq<u8>>,
    ) -> (r: Result<Progress, ParseError>)
        requires
            old(buf)@.len() <= CAPACITY,
            stage matches Stage::Body(line, headers, len) ==> content_length(headers@) == Some(len)
                && len <= CAPACITY,
            tracks(seen, cursor_of(stage), old(buf)@ + tail),
        ensures
            match r {
                Err(e) => request_of(seen, false) == Outcome::Failed(e),
                Ok(Progress::Complete(request)) => request_of(seen, false) == Outcome::Complete(
                    request@,
                ),
                Ok(Progress::Waiting(reached)) => {
                    &&& waiting(reached, final(buf)@)
                    &&& tracks(seen, cursor_of(reached), final(buf)@ + tail)
                },
            },
    {
        let (line, parser) = match stage {
            Stage::RequestLine => {
                match Self::parse_request_line(buf, Ghost(seen), Ghost(tail)) {
                    Err(e) => {
                        return Err(e);
                    },
                    Ok(Some(line)) => (line, HeadersParser::new()),
                    Ok(None) => {
                        return Ok(Progress::Waiting(Stage::RequestLine));
                    },
                }
            },
            Stage::Headers(line, parser) => (line, parser),
            Stage::Body(line, headers, body_len) => {
                let progress = Self::parse_body(
                    line,
                    headers,
                    body_len,
                    buf,
                    Ghost(seen),
                    Ghost(tail),
                );
                return Ok(progress);
            },
        };
        let mut parser = parser;
        match Self::parse_headers(&mut parser, buf, Ghost(seen), Ghost(line@), Ghost(tail)) {
            Err(e) => {
                return Err(e);
            },
            Ok(false) => {
                return Ok(Progress::Waiting(Stage::Headers(line, parser)));
            },
            Ok(true) => {},
        }
        let headers = parser.inner_headers();
        proof {
            lemma_tracks_now(seen, Cursor::Body(line@, headers@), buf@ + tail, false);
        }
        let body_len = match headers.get("Content-Length") {
            Some(len) => match parse_usize(len.as_str()) {
                Some(body_len) => body_len,
                None => {
                    return Err(ParseError::InvalidHeaderValue);
                },
            },
            None => 0,
        };
        if body_len > CAPACITY {
            return Err(ParseError::BodyShorterThanReported);
        }
        Ok(Self::parse_body(line, headers, body_len, buf, Ghost(seen), Ghost(tail)))
    }

    /// Moves bytes from the front of `data` into the free part of the
    /// buffer, as many as fit, and returns their number.
    fn read_to_buf(buf: &mut Vec<u8>, data: &[u8]) -> (n: usize)
        requires
            old(buf)@.len() <= CAPACITY,
        ensures
            n <= data@.len(),
            n <= CAPACITY - old(buf)@.len(),
            n == data@.len() || n == CAPACITY - old(buf)@.len(),
            final(buf)@ == old(buf)@ + data@.take(n as int),
    {
        let room = CAPACITY - buf.len();
        let n = if data.len() <= room {
            data.len()
        } else {
            room
        };
        buf.extend_from_slice(&data[0..n]);
        assert(buf@ =~= old(buf)@ + data@.take(n as int));
        n
    }

    /// Drops the first `consumed` bytes of the buffer and moves the rest to
    /// its front.
    fn consume_buf(buf: &mut Vec<u8>, consumed: usize)
        requires
            consumed <= old(buf)@.len(),
        ensures
            final(buf)@ == old(buf)@.skip(consumed as int),
    {
        let rest = buf.split_off(consumed);
        *buf = rest;
    }

    /// Looks for the request line at the front of the buffer and takes it
    /// out once it is there in full. A full buffer without a line is refused.
    fn parse_request_line(
        buf: &mut Vec<u8>,
        Ghost(seen): Ghost<Seq<u8>>,
        Ghost(tail): Ghost<Seq<u8>>,
    ) -> (r: Result<Option<RequestLine>, ParseError>)
        requires
            old(buf)@.len() <= CAPACITY,
            tracks(seen, Cursor::Line, old(buf)@ + tail),
        ensures
            final(buf)@.len() <= CAPACITY,
            match r {
                Err(e) => request_of(seen, false) == Outcome::Failed(e),
                Ok(Some(line)) => tracks(
                    seen,
                    Cursor::Headers(line@, Seq::empty()),
                    final(buf)@ + tail,
                ),
                Ok(None) => final(buf)@ == old(buf)@ && waiting(Stage::RequestLine, final(buf)@),
            },
    {
        proof {
            lemma_step_line(seen, buf@, tail, false);
        }
        let mut parser = RequestLineParser::new();
        let consumed = match parser.parse(buf.as_slice()) {
            Ok(consumed) => consumed,
            Err(e) => {
                return Err(e);
            },
        };
        Self::consume_buf(buf, consumed);
        if parser.done() {
            Ok(Some(parser.inner()))
        } else {
            assert(buf@ =~= old(buf)@);
            if buf.len() == CAPACITY {
                return Err(ParseError::LineTooLong);
            }
            Ok(None)
        }
    }

    /// Takes the header lines that the buffer holds in full out of it, and
    /// says whether the block is complete. A full buffer without a line is
    /// refused.
    fn parse_headers(
        parser: &mut HeadersParser,
        buf: &mut Vec<u8>,
        Ghost(seen): Ghost<Seq<u8>>,
        Ghost(line): Ghost<RequestLineView>,
        Ghost(tail): Ghost<Seq<u8>>,
    ) -> (r: Result<bool, ParseError>)
        requires
            old(buf)@.len() <= CAPACITY,
            tracks(seen, Cursor::Headers(line, old(parser).fields()), old(buf)@ + tail),
        ensures
            final(buf)@.len() <= CAPACITY,
            match r {
                Err(e) => request_of(seen, false) == Outcome::Failed(e),
                Ok(true) => tracks(
                    seen,
                    Cursor::Body(line, final(parser).fields()),
                    final(buf)@ + tail,
                ),
                Ok(false) => {
                    &&& tracks(
                        seen,
                        Cursor::Headers(line, final(parser).fields()),
                        final(buf)@ + tail,
                    )
                    &&& final(buf)@.len() < CAPACITY
                    &&& first_crlf(final(buf)@) is None
                },
            },
    {
        proof {
            lemma_step_fields(seen, line, parser.fields(), buf@, tail, false);
        }
        let consumed = match parser.parse(buf.as_slice()) {
            Ok(consumed) => consumed,
            Err(e) => {
                return Err(e);
            },
        };
        Self::consume_buf(buf, consumed);
        if parser.done() {
            Ok(true)
        } else {
            if buf.len() == CAPACITY {
                return Err(ParseError::LineTooLong);
            }
            Ok(false)
        }
    }

    /// Takes the body from the buffer once all of it is there.
    fn parse_body(
        line: RequestLine,
        headers: Headers,
        body_len: usize,
        buf: &Vec<u8>,
        Ghost(seen): Ghost<Seq<u8>>,
        Ghost(tail): Ghost<Seq<u8>>,
    ) -> (r: Progress)
        requires
            content_length(headers@) == Some(body_len),
            body_len <= CAPACITY,
            tracks(seen, Cursor::Body(line@, headers@), buf@ + tail),
        ensures
            match r {
                Progress::Complete(request) => request_of(seen, false) == Outcome::Complete(
                    request@,
                ),
                Progress::Waiting(reached) => {
                    &&& waiting(reached, buf@)
                    &&& tracks(seen, cursor_of(reached), buf@ + tail)
                },
            },
    {
        if buf.len() < body_len {
            return Progress::Waiting(Stage::Body(line, headers, body_len));
        }
        let body = slice_to_vec(&buf.as_slice()[0..body_len]);
        proof {
            lemma_tracks_now(seen, Cursor::Body(line@, headers@), buf@ + tail, false);
            assert((buf@ + tail).take(body_len as int) =~= buf@.take(body_len as int));
            assert(body@ =~= buf@.take(body_len as int));
        }
        Progress::Complete(Request { request_line: line, headers, body })
    }
}

impl Request {
    /// Reads one request from `reader`, fragment by fragment, until the
    /// request is complete, refused, or the reader has no more to deliver.
    ///
    /// The result is what the reader's bytes amount to as a closed stream,
    /// whatever the size of its chunks.
    pub fn from_reader(reader: &mut ChunkReader) -> (r: Result<Request, ParseError>)
        ensures
            match request_of(old(reader).stream(), true) {
                Outcome::Complete(request) => r matches Ok(q) && q@ == request,
                Outcome::Failed(error) => r matches Err(e) && e == error,
                Outcome::Incomplete => false,
            },
            final(reader).chunk_size() == old(reader).chunk_size(),
            exists|k: int|
                0 <= k <= old(reader).remaining().len() && final(reader).remaining() == old(
                    reader,
                ).remaining().skip(k),
    {
        let mut parser = RequestParser::new();
        let mut chunk: Vec<u8> = vec![0u8; CAPACITY];
        let ghost all = reader.remaining();
        let ghost delivered = Seq::<u8>::empty();
        proof {
            lemma_first_crlf(Seq::<u8>::empty());
            lemma_closed_is_settled(reader.stream());
            assert(all.skip(0) =~= all);
        }
        loop
            invariant
                chunk@.len() == CAPACITY,
                all == old(reader).remaining(),
                reader.chunk_size() == old(reader).chunk_size(),
                parser.received() == delivered,
                0 <= delivered.len() <= all.len(),
                delivered == all.take(delivered.len() as int),
                reader.remaining() == all.skip(delivered.len() as int),
                reader.chunk_size() == 0 ==> delivered.len() == 0,
                request_of(delivered, false) == Outcome::Incomplete,
                request_of(old(reader).stream(), true) != Outcome::Incomplete,
            decreases reader.remaining().len(),
        {
            let n = reader.read(chunk.as_mut_slice());
            let ghost fragment = all.subrange(delivered.len() as int, delivered.len() + n);
            proof {
                assert(chunk@.take(n as int) =~= fragment);
                assert(delivered + fragment =~= all.take(delivered.len() + n));
                assert(all.skip(delivered.len() as int).skip(n as int) =~= all.skip(
                    delivered.len() + n,
                ));
                if n == 0 {
                    assert(delivered + fragment =~= delivered);
                    if reader.chunk_size() != 0 {
                        assert(delivered =~= all);
                    }
                } else {
                    let rest = all.skip(delivered.len() + n);
                    assert(delivered + fragment + rest =~= all);
                    if request_of(delivered + fragment, false) != Outcome::Incomplete {
                        lemma_request_settled(delivered + fragment, rest, true);
                    }
                }
            }
            match parser.parse_request(&chunk.as_slice()[0..n]) {
                Err(e) => {
                    return Err(e);
                },
                Ok(Some(request)) => {
                    return Ok(request);
                },
                Ok(None) => {},
            }
            proof {
                delivered = delivered + fragment;
            }
        }
    }
}

/// How far working through the buffer has come.
enum Progress {
    /// Something is missing; this is the stage that waits for it.
    Waiting(Stage),
    /// The request is there in full.
    Complete(Request),
}

} // verus!
