//! Responses: the status line, the header block and the body, rendered in
//! that order and in no other.

use crate::headers::Field;
use crate::headers::Headers;
use vstd::prelude::*;
use vstd::std_specs::convert::FromSpecImpl;
use vstd::string::StringExecFns;
use vstd::utf8::encode_utf8;

verus! {

/// The status codes that a response can bear.
#[derive(Debug, Clone, Copy, PartialEq, Eq, Structural)]
pub enum StatusCode {
    /// 200
    Okay,
    /// 400
    BadRequest,
    /// 500
    InternalServerError,
}

/// The three digits of a status code.
pub open spec fn code_text(code: StatusCode) -> Seq<char> {
    match code {
        StatusCode::Okay => "200"@,
        StatusCode::BadRequest => "400"@,
        StatusCode::InternalServerError => "500"@,
    }
}

/// The reason phrase that goes with a status code.
pub open spec fn reason_phrase(code: StatusCode) -> Seq<char> {
    match code {
        StatusCode::Okay => "OK"@,
        StatusCode::BadRequest => "Bad Request"@,
        StatusCode::InternalServerError => "Internal Server Error"@,
    }
}

impl StatusCode {
    /// The code as a number.
    pub fn number(&self) -> (r: u16)
        ensures
            r == match *self {
                StatusCode::Okay => 200u16,
                StatusCode::BadRequest => 400u16,
                StatusCode::InternalServerError => 500u16,
            },
    {
        match self {
            StatusCode::Okay => 200,
            StatusCode::BadRequest => 400,
            StatusCode::InternalServerError => 500,
        }
    }

    /// The code as it stands in a status line.
    pub fn as_str(&self) -> (r: &'static str)
        ensures
            r@ == code_text(*self),
    {
        match self {
            StatusCode::Okay => "200",
            StatusCode::BadRequest => "400",
            StatusCode::InternalServerError => "500",
        }
    }

    /// The code as text: its three digits.
    pub fn to_string(&self) -> (r: String)
        ensures
            r@ == code_text(*self),
    {
        String::from_str(self.as_str())
    }
}

/// What the first line of a response says.
#[derive(Debug, Clone, Copy)]
pub struct StatusLine {
    code: StatusCode,
}

impl StatusLine {
    /// The status line for `code`.
    pub closed spec fn of(code: StatusCode) -> StatusLine {
        StatusLine { code }
    }

    /// The code of this line.
    pub closed spec fn spec_code(&self) -> StatusCode {
        self.code
    }

    /// The code of this line.
    #[verifier::when_used_as_spec(spec_code)]
    pub fn code(&self) -> (r: StatusCode)
        ensures
            r == self.code(),
    {
        self.code
    }

    /// The reason phrase of this line.
    pub fn message(&self) -> (r: &'static str)
        ensures
            r@ == reason_phrase(self.code()),
    {
        match self.code {
            StatusCode::Okay => "OK",
            StatusCode::BadRequest => "Bad Request",
            StatusCode::InternalServerError => "Internal Server Error",
        }
    }

    /// A status line is determined by its code.
    pub proof fn lemma_of_code(code: StatusCode)
        ensures
            StatusLine::of(code).code() == code,
    {
    }
}

impl From<StatusCode> for StatusLine {
    fn from(code: StatusCode) -> (r: Self) {
        StatusLine { code }
    }
}

impl FromSpecImpl<StatusCode> for StatusLine {
    open spec fn obeys_from_spec() -> bool {
        true
    }

    open spec fn from_spec(code: StatusCode) -> Self {
        StatusLine::of(code)
    }
}

/// The bytes `\r\n`.
pub open spec fn crlf() -> Seq<u8> {
    seq![13u8, 10u8]
}

/// A status line on the wire: `HTTP/1.1`, the code and the reason phrase,
/// with single spaces between them, and the line terminator.
pub open spec fn status_line_bytes(code: StatusCode) -> Seq<u8> {
    encode_utf8("HTTP/1.1 "@) + encode_utf8(code_text(code)) + seq![32u8] + encode_utf8(
        reason_phrase(code),
    ) + crlf()
}

/// A header field on the wire: the name, a colon and a space, the value,
/// and the line terminator.
pub open spec fn field_bytes(field: Field) -> Seq<u8> {
    encode_utf8(field.0) + seq![58u8, 32u8] + encode_utf8(field.1) + crlf()
}

/// Header fields on the wire, one line each, in their order.
pub open spec fn fields_bytes(fields: Seq<Field>) -> Seq<u8>
    decreases fields.len(),
{
    if fields.len() == 0 {
        Seq::empty()
    } else {
        fields_bytes(fields.drop_last()) + field_bytes(fields.last())
    }
}

/// A header block on the wire: the fields, and the empty line that ends the
/// block.
pub open spec fn header_block_bytes(fields: Seq<Field>) -> Seq<u8> {
    fields_bytes(fields) + crlf()
}

/// The size of every chunk of a chunked body but the last.
pub const CHUNK_SIZE: usize = 1024;

/// The number of chunks that a body of `len` bytes is cut into.
pub open spec fn chunk_count(len: nat) -> nat {
    ((len + CHUNK_SIZE - 1) / (CHUNK_SIZE as int)) as nat
}

/// The chunks that `body` is cut into: slices of `CHUNK_SIZE` bytes each,
/// the last one with what is left.
pub open spec fn chunks(body: Seq<u8>) -> Seq<Seq<u8>> {
    Seq::new(
        chunk_count(body.len()),
        |i: int|
            body.subrange(
                i * CHUNK_SIZE,
                if (i + 1) * CHUNK_SIZE <= body.len() {
                    (i + 1) * CHUNK_SIZE
                } else {
                    body.len() as int
                },
            ),
    )
}

/// The upper-case hexadecimal digit for `d`, which is below sixteen.
pub open spec fn hex_digit(d: nat) -> u8 {
    if d < 10 {
        (48 + d) as u8
    } else {
        (55 + d) as u8
    }
}

/// `n` in upper-case hexadecimal notation without leading zeros.
pub open spec fn hex_bytes(n: nat) -> Seq<u8>
    decreases n,
{
    if n < 16 {
        seq![hex_digit(n)]
    } else {
        hex_bytes(n / 16).push(hex_digit(n % 16))
    }
}

/// One chunk on the wire: its length in hexadecimal, the line terminator,
/// the bytes of the chunk, and the line terminator again.
pub open spec fn chunk_bytes(chunk: Seq<u8>) -> Seq<u8> {
    hex_bytes(chunk.len()) + crlf() + chunk + crlf()
}

/// Chunks on the wire, one behind the other.
pub open spec fn framed(chunks: Seq<Seq<u8>>) -> Seq<u8>
    decreases chunks.len(),
{
    if chunks.len() == 0 {
        Seq::empty()
    } else {
        framed(chunks.drop_last()) + chunk_bytes(chunks.last())
    }
}

/// The chunk of length zero that ends a chunked body: `0\r\n\r\n`.
pub open spec fn last_chunk_bytes() -> Seq<u8> {
    seq![48u8, 13u8, 10u8, 13u8, 10u8]
}

/// A body in chunked transfer encoding: its chunks, and the chunk of length
/// zero.
pub open spec fn chunked_bytes(body: Seq<u8>) -> Seq<u8> {
    framed(chunks(body)) + last_chunk_bytes()
}

/// The chunks of a body, put together again, are the body; none of them is
/// empty, and all but the last have the full chunk size.
pub proof fn lemma_chunks_rejoin(body: Seq<u8>)
    ensures
        chunks(body).flatten() == body,
        forall|i: int|
            0 <= i < chunks(body).len() ==> 0 < (#[trigger] chunks(body)[i]).len() <= CHUNK_SIZE,
        forall|i: int|
            0 <= i < chunks(body).len() - 1 ==> (#[trigger] chunks(body)[i]).len() == CHUNK_SIZE,
    decreases body.len(),
{
    let cs = chunks(body);
    let count = chunk_count(body.len());
    assert forall|i: int| 0 <= i < cs.len() implies 0 < (#[trigger] cs[i]).len() <= CHUNK_SIZE && (
    i < cs.len() - 1 ==> cs[i].len() == CHUNK_SIZE) by {
        lemma_chunk_bounds(body.len(), i);
    }
    if body.len() == 0 {
        assert(cs =~= Seq::<Seq<u8>>::empty());
        assert(cs.flatten() =~= body);
    } else {
        lemma_chunk_bounds(body.len(), count - 1);
        let head = body.take((count - 1) * CHUNK_SIZE);
        lemma_chunk_count_of_full(count - 1);
        assert(chunk_count(head.len()) == count - 1);
        assert(chunks(head) =~= cs.drop_last()) by {
            assert forall|i: int| 0 <= i < count - 1 implies chunks(head)[i] == cs[i] by {
                lemma_chunk_bounds(body.len(), i);
                lemma_chunk_bounds(head.len(), i);
            }
        }
        lemma_chunks_rejoin(head);
        assert(cs =~= cs.drop_last().push(cs.last()));
        cs.drop_last().lemma_flatten_push(cs.last());
        assert(head + cs.last() =~= body);
    }
}

/// The bounds of the `i`-th chunk of a body of `len` bytes.
proof fn lemma_chunk_bounds(len: nat, i: int)
    requires
        0 <= i < chunk_count(len),
    ensures
        i * CHUNK_SIZE < len,
        i < chunk_count(len) - 1 ==> (i + 1) * CHUNK_SIZE < len,
        i == chunk_count(len) - 1 ==> len <= (i + 1) * CHUNK_SIZE,
{
    let count = chunk_count(len) as int;
    assert(count == (len + 1023) / 1024);
    assert(count * 1024 <= len + 1023 < count * 1024 + 1024) by (nonlinear_arith)
        requires
            count == (len + 1023) / 1024,
    ;
    assert(i * 1024 <= (count - 1) * 1024) by (nonlinear_arith)
        requires
            i <= count - 1,
    ;
    if i < count - 1 {
        assert((i + 1) * 1024 <= (count - 1) * 1024) by (nonlinear_arith)
            requires
                i + 1 <= count - 1,
        ;
    }
}

proof fn lemma_chunk_count_of_full(k: int)
    requires
        0 <= k,
    ensures
        chunk_count((k * CHUNK_SIZE) as nat) == k,
{
    assert((k * 1024 + 1023) / 1024 == k) by (nonlinear_arith)
        requires
            0 <= k,
    ;
}

/// `n` in upper-case hexadecimal notation without leading zeros.
pub fn hex_upper(n: usize) -> (r: Vec<u8>)
    ensures
        r@ == hex_bytes(n as nat),
    decreases n,
{
    let d = n % 16;
    let digit: u8 = if d < 10 {
        (48 + d) as u8
    } else {
        (55 + d) as u8
    };
    if n < 16 {
        let mut r: Vec<u8> = Vec::new();
        r.push(digit);
        assert(r@ =~= seq![hex_digit(n as nat)]);
        r
    } else {
        let mut r = hex_upper(n / 16);
        r.push(digit);
        r
    }
}

/// What has been written of a response.
#[derive(Debug, Clone, Copy, PartialEq, Eq, Structural)]
pub enum ResponseWriterState {
    /// Nothing.
    Init,
    /// The status line.
    StatusLineWritten,
    /// The status line and the header block.
    HeadersWritten,
    /// All of it.
    BodyWritten,
}

/// Why the writer refused a part of a response.
#[derive(Debug, Clone, Copy, PartialEq, Eq, Structural)]
pub enum WriteError {
    /// The part is not the one that comes next: the status line comes first,
    /// the header block second, one body third, and nothing after that.
    OutOfOrder,
}

/// Renders one response: a status line, then a header block, then a body,
/// plain or chunked. A part that is handed in out of this order is refused
/// and leaves no trace. The caller takes the rendered bytes out and sends
/// them.
pub struct ResponseWriter {
    inner: Vec<u8>,
    state: ResponseWriterState,
    body_write_done: bool,
}

impl ResponseWriter {
    /// The bytes rendered and not taken out yet.
    pub closed spec fn output(&self) -> Seq<u8> {
        self.inner@
    }

    /// What has been written so far.
    pub closed spec fn state(&self) -> ResponseWriterState {
        self.state
    }

    /// Whether a chunked body was written, up to and with its last chunk.
    pub closed spec fn chunked_body_done(&self) -> bool {
        self.body_write_done
    }

    /// A writer that has written nothing.
    pub fn new() -> (r: Self)
        ensures
            r.output() == Seq::<u8>::empty(),
            r.state() == ResponseWriterState::Init,
            !r.chunked_body_done(),
    {
        Self { inner: Vec::new(), state: ResponseWriterState::Init, body_write_done: false }
    }

    fn put(&mut self, bytes: &[u8])
        ensures
            final(self).output() == old(self).output() + bytes@,
            final(self).state() == old(self).state(),
            final(self).chunked_body_done() == old(self).chunked_body_done(),
    {
        self.inner.extend_from_slice(bytes);
        assert(self.inner@ =~= old(self).inner@ + bytes@);
    }

    /// Writes the status line. It comes first.
    pub fn write_status_line(&mut self, status_line: &StatusLine) -> (r: Result<(), WriteError>)
        ensures
            old(self).state() == ResponseWriterState::Init ==> {
                &&& r is Ok
                &&& final(self).output() == old(self).output() + status_line_bytes(
                    status_line.code(),
                )
                &&& final(self).state() == ResponseWriterState::StatusLineWritten
                &&& final(self).chunked_body_done() == old(self).chunked_body_done()
            },
            old(self).state() != ResponseWriterState::Init ==> {
                &&& r == Err::<(), WriteError>(WriteError::OutOfOrder)
                &&& *final(self) == *old(self)
            },
    {
        if self.state != ResponseWriterState::Init {
            return Err(WriteError::OutOfOrder);
        }
        self.put("HTTP/1.1 ".as_bytes());
        self.put(status_line.code().as_str().as_bytes());
        self.put(&[32u8]);
        self.put(status_line.message().as_bytes());
        self.put(&[13u8, 10u8]);
        self.state = ResponseWriterState::StatusLineWritten;
        Ok(())
    }

    /// Writes the header block: the fields in their order, and the empty
    /// line. It comes second.
    pub fn write_headers(&mut self, headers: &Headers) -> (r: Result<(), WriteError>)
        ensures
            old(self).state() == ResponseWriterState::StatusLineWritten ==> {
                &&& r is Ok
                &&& final(self).output() == old(self).output() + header_block_bytes(headers@)
                &&& final(self).state() == ResponseWriterState::HeadersWritten
                &&& final(self).chunked_body_done() == old(self).chunked_body_done()
            },
            old(self).state() != ResponseWriterState::StatusLineWritten ==> {
                &&& r == Err::<(), WriteError>(WriteError::OutOfOrder)
                &&& *final(self) == *old(self)
            },
    {
        if self.state != ResponseWriterState::StatusLineWritten {
            return Err(WriteError::OutOfOrder);
        }
        let fields = headers.iter();
        let mut i: usize = 0;
        while i < fields.len()
            invariant
                i <= fields@.len(),
                fields@.len() == headers@.len(),
                forall|j: int|
                    0 <= j < fields@.len() ==> (#[trigger] fields@[j]).0@ == headers@[j].0
                        && fields@[j].1@ == headers@[j].1,
                self.output() == old(self).output() + fields_bytes(headers@.take(i as int)),
                self.state() == old(self).state(),
                self.chunked_body_done() == old(self).chunked_body_done(),
            decreases fields@.len() - i,
        {
            let ghost so_far = self.output();
            let field = &fields[i];
            self.put(field.0.as_str().as_bytes());
            self.put(&[58u8, 32u8]);
            self.put(field.1.as_str().as_bytes());
            self.put(&[13u8, 10u8]);
            proof {
                let taken = headers@.take(i + 1);
                assert(taken.drop_last() =~= headers@.take(i as int));
                assert(taken.last() == headers@[i as int]);
                assert(self.output() =~= so_far + field_bytes(headers@[i as int]));
                assert(self.output() =~= old(self).output() + fields_bytes(taken));
            }
            i = i + 1;
        }
        assert(headers@.take(i as int) =~= headers@);
        self.put(&[13u8, 10u8]);
        assert(self.output() =~= old(self).output() + header_block_bytes(headers@));
        self.state = ResponseWriterState::HeadersWritten;
        Ok(())
    }

    /// Writes `body` as it stands. A body comes third.
    pub fn write_body(&mut self, body: &[u8]) -> (r: Result<(), WriteError>)
        ensures
            old(self).state() == ResponseWriterState::HeadersWritten ==> {
                &&& r is Ok
                &&& final(self).output() == old(self).output() + body@
                &&& final(self).state() == ResponseWriterState::BodyWritten
                &&& final(self).chunked_body_done() == old(self).chunked_body_done()
            },
            old(self).state() != ResponseWriterState::HeadersWritten ==> {
                &&& r == Err::<(), WriteError>(WriteError::OutOfOrder)
                &&& *final(self) == *old(self)
            },
    {
        if self.state != ResponseWriterState::HeadersWritten {
            return Err(WriteError::OutOfOrder);
        }
        self.put(body);
        self.state = ResponseWriterState::BodyWritten;
        Ok(())
    }

    /// Writes `body` in chunked transfer encoding, in chunks of `CHUNK_SIZE`
    /// bytes, and ends it with the chunk of length zero. A body comes third.
    pub fn write_chunked_body(&mut self, body: &[u8]) -> (r: Result<(), WriteError>)
        ensures
            old(self).state() == ResponseWriterState::HeadersWritten ==> {
                &&& r is Ok
                &&& final(self).output() == old(self).output() + chunked_bytes(body@)
                &&& final(self).state() == ResponseWriterState::BodyWritten
                &&& final(self).chunked_body_done() == true
            },
            old(self).state() != ResponseWriterState::HeadersWritten ==> {
                &&& r == Err::<(), WriteError>(WriteError::OutOfOrder)
                &&& *final(self) == *old(self)
            },
    {
        if self.state != ResponseWriterState::HeadersWritten {
            return Err(WriteError::OutOfOrder);
        }
        let mut start: usize = 0;
        let ghost mut written: int = 0;
        proof {
            assert(chunks(body@).take(0) =~= Seq::<Seq<u8>>::empty());
            if body@.len() > 0 {
                lemma_chunk_bounds(body@.len(), 0);
            }
        }
        while start < body.len()
            invariant
                start <= body@.len(),
                0 <= written <= chunks(body@).len(),
                start == written * CHUNK_SIZE || (start == body@.len() && written == chunks(
                    body@,
                ).len()),
                start == body@.len() ==> written == chunks(body@).len(),
                self.output() == old(self).output() + framed(chunks(body@).take(written)),
                self.state() == old(self).state(),
            decreases body@.len() - start,
        {
            let ghost so_far = self.output();
            let end = if body.len() - start > CHUNK_SIZE {
                start + CHUNK_SIZE
            } else {
                body.len()
            };
            let chunk = &body[start..end];
            proof {
                assert(written < chunks(body@).len()) by {
                    if written >= chunks(body@).len() {
                        if written > 0 {
                            lemma_chunk_bounds(body@.len(), written - 1);
                        }
                    }
                }
                lemma_chunk_bounds(body@.len(), written);
                assert((written + 1) * CHUNK_SIZE == written * CHUNK_SIZE + CHUNK_SIZE)
                    by (nonlinear_arith);
                assert(chunk@ == chunks(body@)[written]);
            }
            let size = hex_upper(chunk.len());
            self.put(size.as_slice());
            self.put(&[13u8, 10u8]);
            self.put(chunk);
            self.put(&[13u8, 10u8]);
            proof {
                let taken = chunks(body@).take(written + 1);
                assert(taken.drop_last() =~= chunks(body@).take(written));
                assert(taken.last() == chunk@);
                assert(self.output() =~= so_far + chunk_bytes(chunk@));
                assert(self.output() =~= old(self).output() + framed(taken));
                written = written + 1;
                if end == body@.len() {
                    if written < chunks(body@).len() {
                        lemma_chunk_bounds(body@.len(), written);
                    }
                }
            }
            start = end;
        }
        proof {
            assert(chunks(body@).take(written) =~= chunks(body@));
        }
        self.put(&[48u8, 13u8, 10u8, 13u8, 10u8]);
        assert(self.output() =~= old(self).output() + chunked_bytes(body@));
        self.state = ResponseWriterState::BodyWritten;
        self.body_write_done = true;
        Ok(())
    }

    /// Whether a chunked body was written, up to and with its last chunk.
    pub fn write_chunked_body_done(&self) -> (r: bool)
        ensures
            r == self.chunked_body_done(),
    {
        self.body_write_done
    }

    /// Hands out the bytes rendered since the last call, for sending.
    pub fn take_output(&mut self) -> (r: Vec<u8>)
        ensures
            r@ == old(self).output(),
            final(self).output() == Seq::<u8>::empty(),
            final(self).state() == old(self).state(),
            final(self).chunked_body_done() == old(self).chunked_body_done(),
    {
        let mut out: Vec<u8> = Vec::new();
        std::mem::swap(&mut out, &mut self.inner);
        out
    }
}

} // verus!
