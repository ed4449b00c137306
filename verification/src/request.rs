//! Requests as they arrive on a connection.
//!
//! A request is text in UTF-8. Its first line names a method and a path,
//! separated by one space; what else stands on that line is ignored. Lines end
//! with a line feed, and a carriage return before it belongs to the line
//! ending. The body is all that follows the first line that holds nothing but a
//! carriage return, byte for byte.

use crate::error::BrokerError;
use crate::text::{cut_point, lemma_slice_is_text, slice_str, utf8_to_str};
use vstd::prelude::*;
use vstd::string::*;
use vstd::utf8::*;

verus! {

/// Line feed: ends a line.
pub const LF: u8 = 0x0a;

/// Carriage return: stands before the line feed of a line ending.
pub const CR: u8 = 0x0d;

/// Space: separates the tokens of the request line.
pub const SP: u8 = 0x20;

/// A request, borrowed from the bytes it was read from.
#[derive(Debug, Clone, Copy, PartialEq, Eq)]
pub struct Request<'a> {
    /// The verb, such as `POST`.
    pub method: &'a str,
    /// The path, such as `/new/jobs`.
    pub path: &'a str,
    /// What follows the header lines.
    pub body: &'a str,
}

/// A request as a value: the text of its three parts.
pub ghost struct RequestView {
    pub method: Seq<char>,
    pub path: Seq<char>,
    pub body: Seq<char>,
}

impl<'a> View for Request<'a> {
    type V = RequestView;

    open spec fn view(&self) -> RequestView {
        RequestView { method: self.method@, path: self.path@, body: self.body@ }
    }
}

/// The position of the first `mark` in `bytes`, or the length of `bytes` where
/// there is none.
pub open spec fn first_index_of(bytes: Seq<u8>, mark: u8) -> int
    decreases bytes.len(),
{
    if bytes.len() == 0 || bytes[0] == mark {
        0
    } else {
        1 + first_index_of(bytes.drop_first(), mark)
    }
}

/// The first line of `raw` without its line ending.
pub open spec fn request_line(raw: Seq<u8>) -> Seq<u8> {
    let line = raw.take(first_index_of(raw, LF));
    if line.len() > 0 && line.last() == CR {
        line.drop_last()
    } else {
        line
    }
}

/// The request line up to its first space.
pub open spec fn method_bytes(raw: Seq<u8>) -> Seq<u8> {
    let line = request_line(raw);
    line.take(first_index_of(line, SP))
}

/// The request line between its first space and its second, or its end where
/// there is no second.
pub open spec fn path_bytes(raw: Seq<u8>) -> Seq<u8> {
    let line = request_line(raw);
    let rest = line.skip(first_index_of(line, SP) + 1);
    rest.take(first_index_of(rest, SP))
}

/// A line that holds a carriage return and nothing else starts at `at`.
pub open spec fn blank_line_at(raw: Seq<u8>, at: int) -> bool {
    &&& 0 <= at < raw.len()
    &&& raw[at] == CR
    &&& (at == 0 || raw[at - 1] == LF)
    &&& (at + 1 == raw.len() || raw[at + 1] == LF)
}

/// The start of the first such line at or after `from`, or the length of `raw`
/// where there is none.
pub open spec fn first_blank_line(raw: Seq<u8>, from: int) -> int
    decreases raw.len() - from,
{
    if from >= raw.len() {
        raw.len() as int
    } else if blank_line_at(raw, from) {
        from
    } else {
        first_blank_line(raw, from + 1)
    }
}

/// All that follows the first blank line and its line feed; nothing where no
/// line is blank.
pub open spec fn body_bytes(raw: Seq<u8>) -> Seq<u8> {
    let at = first_blank_line(raw, 0);
    if at + 2 <= raw.len() {
        raw.skip(at + 2)
    } else {
        Seq::empty()
    }
}

/// `raw` is a request: text whose first line holds a method and a path.
pub open spec fn well_formed(raw: Seq<u8>) -> bool {
    valid_utf8(raw) && request_line(raw).contains(SP)
}

/// The request that well-formed `raw` holds.
pub open spec fn parsed(raw: Seq<u8>) -> RequestView {
    RequestView {
        method: decode_utf8(method_bytes(raw)),
        path: decode_utf8(path_bytes(raw)),
        body: decode_utf8(body_bytes(raw)),
    }
}

/// `first_index_of` is in range, stands at a `mark` unless it is the length,
/// and no `mark` stands before it.
pub proof fn lemma_first_index_of(bytes: Seq<u8>, mark: u8)
    ensures
        0 <= first_index_of(bytes, mark) <= bytes.len(),
        first_index_of(bytes, mark) < bytes.len() ==> bytes[first_index_of(bytes, mark)] == mark,
        forall|i: int| 0 <= i < first_index_of(bytes, mark) ==> bytes[i] != mark,
        first_index_of(bytes, mark) < bytes.len() <==> bytes.contains(mark),
    decreases bytes.len(),
{
    if bytes.len() == 0 {
    } else if bytes[0] == mark {
    } else {
        let tail = bytes.drop_first();
        lemma_first_index_of(tail, mark);
        assert forall|i: int| 0 <= i < first_index_of(bytes, mark) implies bytes[i] != mark by {
            if i > 0 {
                assert(bytes[i] == tail[i - 1]);
            }
        }
        if first_index_of(bytes, mark) < bytes.len() {
            assert(bytes[first_index_of(bytes, mark)] == tail[first_index_of(tail, mark)]);
        }
        if bytes.contains(mark) {
            let i = choose|i: int| 0 <= i < bytes.len() && bytes[i] == mark;
            assert(tail[i - 1] == mark);
        }
    }
}

/// The position that no `mark` precedes, and that holds one or is the length,
/// is `first_index_of`.
pub proof fn lemma_first_index_of_is(bytes: Seq<u8>, mark: u8, at: int)
    requires
        0 <= at <= bytes.len(),
        forall|i: int| 0 <= i < at ==> bytes[i] != mark,
        at < bytes.len() ==> bytes[at] == mark,
    ensures
        first_index_of(bytes, mark) == at,
{
    lemma_first_index_of(bytes, mark);
}

/// The first blank line at or after `from` is in range and blank unless it is
/// the length, and no line between `from` and it is blank.
pub proof fn lemma_first_blank_line(raw: Seq<u8>, from: int)
    requires
        0 <= from <= raw.len(),
    ensures
        from <= first_blank_line(raw, from) <= raw.len(),
        first_blank_line(raw, from) < raw.len() ==> blank_line_at(raw, first_blank_line(raw, from)),
        forall|i: int| from <= i < first_blank_line(raw, from) ==> !blank_line_at(raw, i),
    decreases raw.len() - from,
{
    if from < raw.len() && !blank_line_at(raw, from) {
        lemma_first_blank_line(raw, from + 1);
    }
}

/// Where the parts of a request with a method and a path stand in `raw`:
/// the ends of method and path and the start of the body, each a cut point.
proof fn lemma_request_parts(raw: Seq<u8>) -> (cuts: (int, int, int))
    requires
        request_line(raw).contains(SP),
    ensures
        0 <= cuts.0 < cuts.1 <= raw.len(),
        0 <= cuts.2 <= raw.len(),
        cut_point(raw, cuts.0),
        cut_point(raw, cuts.0 + 1),
        cut_point(raw, cuts.1),
        cut_point(raw, cuts.2),
        method_bytes(raw) == raw.subrange(0, cuts.0),
        path_bytes(raw) == raw.subrange(cuts.0 + 1, cuts.1),
        body_bytes(raw) == raw.subrange(cuts.2, raw.len() as int),
{
    let line = request_line(raw);
    let method_end = first_index_of(line, SP);
    let rest = line.skip(method_end + 1);
    let path_end = method_end + 1 + first_index_of(rest, SP);
    let blank = first_blank_line(raw, 0);
    let body_start = if blank + 2 <= raw.len() {
        blank + 2
    } else {
        raw.len() as int
    };
    lemma_first_index_of(raw, LF);
    lemma_first_index_of(line, SP);
    lemma_first_index_of(rest, SP);
    lemma_first_blank_line(raw, 0);
    assert(line =~= raw.subrange(0, line.len() as int));
    assert(line.len() < raw.len() ==> raw[line.len() as int] == CR || raw[line.len() as int] == LF);
    assert(raw[method_end] == line[method_end]);
    if path_end < line.len() {
        assert(raw[path_end] == rest[first_index_of(rest, SP)]);
    }
    assert(method_bytes(raw) =~= raw.subrange(0, method_end));
    assert(path_bytes(raw) =~= raw.subrange(method_end + 1, path_end));
    assert(body_bytes(raw) =~= raw.subrange(body_start, raw.len() as int));
    (method_end, path_end, body_start)
}

/// The parts of a well-formed request are text each, so that nothing is lost
/// between the bytes on the wire and the request: encoding a part gives the
/// bytes it was read from. The body in particular is carried byte for byte.
pub proof fn lemma_parts_are_verbatim(raw: Seq<u8>)
    requires
        well_formed(raw),
    ensures
        encode_utf8(parsed(raw).method) == method_bytes(raw),
        encode_utf8(parsed(raw).path) == path_bytes(raw),
        encode_utf8(parsed(raw).body) == body_bytes(raw),
{
    let (method_end, path_end, body_start) = lemma_request_parts(raw);
    lemma_slice_is_text(raw, 0, method_end);
    lemma_slice_is_text(raw, method_end + 1, path_end);
    lemma_slice_is_text(raw, body_start, raw.len() as int);
}

/// The position of the first `mark` in `bytes` between `from` and `to`, or
/// `to` where there is none.
fn find_byte(bytes: &[u8], from: usize, to: usize, mark: u8) -> (at: usize)
    requires
        from <= to <= bytes@.len(),
    ensures
        from <= at <= to,
        at == from + first_index_of(bytes@.subrange(from as int, to as int), mark),
{
    let mut at: usize = from;
    while at < to && bytes[at] != mark
        invariant
            from <= at <= to <= bytes@.len(),
            forall|i: int| from <= i < at ==> bytes@[i] != mark,
        decreases to - at,
    {
        at += 1;
    }
    proof {
        lemma_first_index_of_is(bytes@.subrange(from as int, to as int), mark, at - from);
    }
    at
}

/// The start of the first blank line in `bytes`, or their length where no line
/// is blank.
fn find_blank_line(bytes: &[u8]) -> (at: usize)
    ensures
        at == first_blank_line(bytes@, 0),
        at <= bytes@.len(),
{
    let len = bytes.len();
    let mut at: usize = 0;
    while at < len
        invariant
            len == bytes@.len(),
            0 <= at <= len,
            first_blank_line(bytes@, 0) == first_blank_line(bytes@, at as int),
        decreases len - at,
    {
        if bytes[at] == CR && (at == 0 || bytes[at - 1] == LF) && (at + 1 == len || bytes[at + 1]
            == LF) {
            return at;
        }
        at += 1;
    }
    at
}

/// Where the request line ends: before the first line ending, or at the end
/// of `bytes` where no line ends.
fn find_line_end(bytes: &[u8]) -> (end: usize)
    ensures
        end <= bytes@.len(),
        request_line(bytes@) == bytes@.subrange(0, end as int),
        end < bytes@.len() ==> bytes@[end as int] == CR || bytes@[end as int] == LF,
{
    let len = bytes.len();
    let feed = find_byte(bytes, 0, len, LF);
    proof {
        assert(bytes@.subrange(0, len as int) =~= bytes@);
        lemma_first_index_of(bytes@, LF);
    }
    let end = if feed > 0 && bytes[feed - 1] == CR {
        feed - 1
    } else {
        feed
    };
    assert(request_line(bytes@) =~= bytes@.subrange(0, end as int));
    end
}

/// Reads a request out of the bytes that a connection delivered.
///
/// Fails with `MalformedRequest`, and only then, if the bytes are not UTF-8 or
/// their first line holds no space, so that a method or a path is missing.
pub fn parse_request<'a>(raw: &'a [u8]) -> (result: Result<Request<'a>, BrokerError>)
    ensures
        well_formed(raw@) ==> (result matches Ok(request) && request@ == parsed(raw@)),
        !well_formed(raw@) ==> (result matches Err(e) && e == BrokerError::MalformedRequest),
{
    let text = match utf8_to_str(raw) {
        Some(text) => text,
        None => {
            return Err(BrokerError::MalformedRequest);
        },
    };
    let len = raw.len();
    let line_end = find_line_end(raw);
    let ghost line = request_line(raw@);
    let method_end = find_byte(raw, 0, line_end, SP);
    proof {
        lemma_first_index_of(line, SP);
    }
    if method_end == line_end {
        return Err(BrokerError::MalformedRequest);
    }
    let path_start = method_end + 1;
    let path_end = find_byte(raw, path_start, line_end, SP);
    let blank = find_blank_line(raw);
    let body_start = if len - blank >= 2 {
        blank + 2
    } else {
        len
    };
    proof {
        let rest = line.skip(path_start as int);
        assert(rest =~= raw@.subrange(path_start as int, line_end as int));
        lemma_first_index_of(rest, SP);
        lemma_first_blank_line(raw@, 0);
        assert(method_bytes(raw@) =~= raw@.subrange(0, method_end as int));
        assert(path_bytes(raw@) =~= raw@.subrange(path_start as int, path_end as int));
        assert(body_bytes(raw@) =~= raw@.subrange(body_start as int, len as int));
    }
    let method = slice_str(text, 0, method_end);
    let path = slice_str(text, path_start, path_end);
    let body = slice_str(text, body_start, len);
    Ok(Request { method, path, body })
}

} // verus!
