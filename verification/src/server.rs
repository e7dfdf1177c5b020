//! What a request handler reports when it cannot answer a request.

use crate::headers::Field;
use crate::headers::Headers;
use crate::response::header_block_bytes;
use crate::response::reason_phrase;
use crate::response::status_line_bytes;
use crate::response::ResponseWriter;
use crate::response::StatusCode;
use crate::response::StatusLine;
use vstd::prelude::*;
use vstd::utf8::encode_utf8;

verus! {

/// The ways in which a handler fails. Each stands for the response that is
/// sent in place of the handler's own.
#[derive(Debug, Clone, Copy, PartialEq, Eq, Structural)]
pub enum HandlerError {
    /// The request was at fault.
    BadRequest,
    /// The handler was at fault.
    InternalServerError,
}

impl HandlerError {
    /// The status code of the response that reports this error.
    pub open spec fn status(&self) -> StatusCode {
        match *self {
            HandlerError::BadRequest => StatusCode::BadRequest,
            HandlerError::InternalServerError => StatusCode::InternalServerError,
        }
    }

    /// The phrase that names this error; it is the body of the response that
    /// reports it.
    pub fn as_str(&self) -> (r: &'static str)
        ensures
            r@ == reason_phrase(self.status()),
    {
        match self {
            HandlerError::BadRequest => "Bad Request",
            HandlerError::InternalServerError => "Internal Server Error",
        }
    }

    /// The status code of the response that reports this error.
    pub fn code(&self) -> (r: StatusCode)
        ensures
            r == self.status(),
    {
        match self {
            HandlerError::BadRequest => StatusCode::BadRequest,
            HandlerError::InternalServerError => StatusCode::InternalServerError,
        }
    }
}

/// The response that reports a handler's error: its status line, an empty
/// header block, and its phrase as the body.
pub open spec fn error_response_bytes(error: HandlerError) -> Seq<u8> {
    status_line_bytes(error.status()) + header_block_bytes(Seq::<Field>::empty()) + encode_utf8(
        reason_phrase(error.status()),
    )
}

/// Renders the response that is sent in place of the handler's own when the
/// handler has failed.
pub fn error_response(error: HandlerError) -> (r: Vec<u8>)
    ensures
        r@ == error_response_bytes(error),
{
    let mut writer = ResponseWriter::new();
    let status_line = StatusLine::from(error.code());
    proof {
        StatusLine::lemma_of_code(error.status());
    }
    let headers = Headers::new();
    let line = writer.write_status_line(&status_line);
    let block = writer.write_headers(&headers);
    let body = writer.write_body(error.as_str().as_bytes());
    let r = writer.take_output();
    assert(r@ =~= error_response_bytes(error));
    r
}

} // verus!
