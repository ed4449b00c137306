//! Responses and the bytes that carry them.
//!
//! A response goes out as its status line, an empty line, and then the body,
//! with no other header: `HTTP/1.1 200 OK`, line ending, line ending, body.

use vstd::prelude::*;
use vstd::string::*;
use vstd::utf8::*;

verus! {

/// How a request ended.
#[derive(Debug, Clone, Copy, PartialEq, Eq, Structural)]
pub enum Status {
    /// 200: the operation was carried out.
    Success,
    /// 400: the request cannot be read, or asks for what the state forbids.
    BadRequest,
    /// 404: there is no such queue, or no such route.
    NotFound,
}

impl Status {
    /// The status as a number.
    pub open spec fn spec_code(self) -> u16 {
        match self {
            Status::Success => 200,
            Status::BadRequest => 400,
            Status::NotFound => 404,
        }
    }

    /// The status as a number.
    #[verifier::when_used_as_spec(spec_code)]
    pub fn code(self) -> (code: u16)
        ensures
            code == self.spec_code(),
    {
        match self {
            Status::Success => 200,
            Status::BadRequest => 400,
            Status::NotFound => 404,
        }
    }

    /// The status line and the empty line after it.
    pub open spec fn spec_head(self) -> Seq<char> {
        match self {
            Status::Success => "HTTP/1.1 200 OK\r\n\r\n"@,
            Status::BadRequest => "HTTP/1.1 400 Bad Request\r\n\r\n"@,
            Status::NotFound => "HTTP/1.1 404 Not Found\r\n\r\n"@,
        }
    }

    /// The status line and the empty line after it.
    pub fn head(self) -> (head: &'static str)
        ensures
            head@ == self.spec_head(),
    {
        match self {
            Status::Success => "HTTP/1.1 200 OK\r\n\r\n",
            Status::BadRequest => "HTTP/1.1 400 Bad Request\r\n\r\n",
            Status::NotFound => "HTTP/1.1 404 Not Found\r\n\r\n",
        }
    }
}

/// The answer to one request.
#[derive(Debug, PartialEq, Eq)]
pub struct Response {
    /// How the request ended.
    pub status: Status,
    /// The message or the explanation that goes with it; empty for none.
    pub body: String,
}

/// A response as a value.
pub ghost struct ResponseView {
    pub status: Status,
    pub body: Seq<char>,
}

impl View for Response {
    type V = ResponseView;

    open spec fn view(&self) -> ResponseView {
        ResponseView { status: self.status, body: self.body@ }
    }
}

/// The bytes that carry `response`: the head, then the body as it is.
pub open spec fn wire(response: ResponseView) -> Seq<u8> {
    encode_utf8(response.status.spec_head()) + encode_utf8(response.body)
}

/// Appends `bytes` to `out`.
fn append_bytes(out: &mut Vec<u8>, bytes: &[u8])
    ensures
        final(out)@ == old(out)@ + bytes@,
{
    let mut i: usize = 0;
    while i < bytes.len()
        invariant
            0 <= i <= bytes@.len(),
            out@ == old(out)@ + bytes@.take(i as int),
        decreases bytes@.len() - i,
    {
        out.push(bytes[i]);
        i += 1;
        assert(out@ =~= old(out)@ + bytes@.take(i as int));
    }
    assert(bytes@.take(i as int) =~= bytes@);
}

impl Response {
    /// A response without a body.
    pub fn empty(status: Status) -> (response: Response)
        ensures
            response@ == (ResponseView { status, body: Seq::empty() }),
    {
        Response { status, body: String::new() }
    }

    /// The bytes to send.
    pub fn to_bytes(&self) -> (bytes: Vec<u8>)
        ensures
            bytes@ == wire(self@),
    {
        let mut bytes: Vec<u8> = Vec::new();
        append_bytes(&mut bytes, self.status.head().as_bytes());
        append_bytes(&mut bytes, self.body.as_str().as_bytes());
        assert(bytes@ =~= wire(self@));
        bytes
    }
}

} // verus!
