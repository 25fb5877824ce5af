//! The HTTP response writer: a state machine that puts the status line, the
//! headers and the body on an output byte stream in the order HTTP requires.
//!
//! ```text
//! HTTP-message   = start-line CRLF
//!                  *( field-line CRLF )
//!                  CRLF
//!                  [ message-body ]
//! ```

use vstd::prelude::*;
use vstd::utf8::*;

use crate::error::ErrorKind;
use crate::headers::{insert_field, lookup, Fields, Headers};
use crate::text::{
    decimal, hex_digits_value, hex_upper, law_hex_upper_denotes, law_trim_idempotent, lowercase, push_decimal, push_hex_upper, split_at_char, split_on,
    string_chars, string_from_chars, trim, trim_bounds, sub_vec, views,
};

verus! {

/// Where the writer stands in a response.
///
/// Batch: Empty, StatusLineCompleted, HeadersCompleted, Done.
/// Streaming: Empty, StatusLineCompleted, HeadersCompleted,
/// ChunkedBodyWritten, Done.
#[derive(Clone, Copy, Debug, PartialEq, Eq, Structural)]
pub enum WriterState {
    Empty,
    StatusLineCompleted,
    HeadersCompleted,
    ChunkedBodyWritten,
    Done,
}

/// A writer call made out of order, or trailers that cannot be written.
#[derive(Clone, Copy, Debug, PartialEq, Eq, Structural)]
pub enum WriteError {
    /// The status line was already written.
    StatusLineAlreadyWritten,
    /// Headers come only after the status line.
    StatusLineMissing,
    /// The body was already written.
    BodyAlreadyWritten,
    /// A body comes only after the headers.
    HeadersMissing,
    /// The end of a chunked body, or its trailers, come only after a chunk.
    ChunkedBodyMissing,
    /// The headers given for trailers have no `Trailer` field.
    NoTrailer,
    /// A name listed in the `Trailer` field has no field.
    TrailerMissing,
}

impl WriteError {
    /// The message that describes the error.
    pub fn message(&self) -> (m: &'static str)
        ensures
            m@ == write_error_message(*self),
    {
        match self {
            WriteError::StatusLineAlreadyWritten => "status line already written",
            WriteError::StatusLineMissing => "must call write_status_line() first",
            WriteError::BodyAlreadyWritten => "body already written",
            WriteError::HeadersMissing => "must call write_headers() first",
            WriteError::ChunkedBodyMissing => "must call write_chunked_body() first",
            WriteError::NoTrailer => "no trailer found in headers",
            WriteError::TrailerMissing => "declared trailer missing from headers",
        }
    }

    /// The class of the error.
    pub fn kind(&self) -> (k: ErrorKind)
        ensures
            k == (if *self == WriteError::NoTrailer {
                ErrorKind::NotFound
            } else {
                ErrorKind::InvalidInput
            }),
    {
        match self {
            WriteError::NoTrailer => ErrorKind::NotFound,
            _ => ErrorKind::InvalidInput,
        }
    }
}

/// The message of each writer error.
pub open spec fn write_error_message(e: WriteError) -> Seq<char> {
    match e {
        WriteError::StatusLineAlreadyWritten => "status line already written"@,
        WriteError::StatusLineMissing => "must call write_status_line() first"@,
        WriteError::BodyAlreadyWritten => "body already written"@,
        WriteError::HeadersMissing => "must call write_headers() first"@,
        WriteError::ChunkedBodyMissing => "must call write_chunked_body() first"@,
        WriteError::NoTrailer => "no trailer found in headers"@,
        WriteError::TrailerMissing => "declared trailer missing from headers"@,
    }
}

/// The response statuses this server sends.
#[derive(Clone, Copy, Debug, PartialEq, Eq, Structural)]
pub enum StatusCode {
    /// 200
    Success,
    /// 400
    ClientError,
    /// 500
    ServerError,
}

/// The status line of each status, with its CRLF.
pub open spec fn status_line_text(code: StatusCode) -> Seq<char> {
    match code {
        StatusCode::Success => "HTTP/1.1 200 OK\r\n"@,
        StatusCode::ClientError => "HTTP/1.1 400 Bad Request\r\n"@,
        StatusCode::ServerError => "HTTP/1.1 500 Internal Server Error\r\n"@,
    }
}

/// Appends `b` to `out`.
pub fn append_bytes(out: &mut Vec<u8>, b: &[u8])
    ensures
        final(out)@ == old(out)@ + b@,
{
    let ghost start = out@;
    let mut i: usize = 0;
    while i < b.len()
        invariant
            i <= b@.len(),
            out@ == start + b@.take(i as int),
        decreases b@.len() - i,
    {
        out.push(b[i]);
        assert(out@ =~= start + b@.take(i + 1));
        i = i + 1;
    }
    assert(b@.take(i as int) =~= b@);
}

/// Appends the UTF-8 bytes of `s` to `out`.
pub fn append_str(out: &mut Vec<u8>, s: &str)
    ensures
        final(out)@ == old(out)@ + encode_utf8(s@),
{
    append_bytes(out, s.as_bytes());
}

/// Writes the status line of `status_code`.
pub fn write_status_line(w: &mut Vec<u8>, status_code: StatusCode)
    ensures
        final(w)@ == old(w)@ + encode_utf8(status_line_text(status_code)),
{
    match status_code {
        StatusCode::Success => append_str(w, "HTTP/1.1 200 OK\r\n"),
        StatusCode::ClientError => append_str(w, "HTTP/1.1 400 Bad Request\r\n"),
        StatusCode::ServerError => append_str(w, "HTTP/1.1 500 Internal Server Error\r\n"),
    }
}

/// The fields of a plain-text response with a body of `content_len` bytes:
/// `Content-Length`, `Connection: close` and `Content-Type: text/plain`, in
/// that order.
pub open spec fn default_fields(content_len: nat) -> Fields {
    insert_field(
        insert_field(
            insert_field(seq![], lowercase("Content-Length"@), decimal(content_len)),
            lowercase("Connection"@),
            "close"@,
        ),
        lowercase("Content-Type"@),
        "text/plain"@,
    )
}

/// Builds the fields of a plain-text response with a body of `content_len`
/// bytes.
pub fn get_default_headers(content_len: usize) -> (h: Headers)
    ensures
        h@ == default_fields(content_len as nat),
{
    let mut headers = Headers::new();
    let mut digits: Vec<char> = Vec::new();
    push_decimal(content_len, &mut digits);
    assert(digits@ =~= decimal(content_len as nat));
    headers.insert("Content-Length".to_owned(), string_from_chars(digits.as_slice()));
    headers.insert("Connection".to_owned(), "close".to_owned());
    headers.insert("Content-Type".to_owned(), "text/plain".to_owned());
    headers
}

/// The text of one field line: `name: value` and CRLF.
pub open spec fn field_line(name: Seq<char>, value: Seq<char>) -> Seq<char> {
    name + ": "@ + value + "\r\n"@
}

/// The field line for `name` if the fields hold it, else nothing.
pub open spec fn optional_field_line(e: Fields, name: Seq<char>) -> Seq<u8> {
    match lookup(e, lowercase(name)) {
        Some(v) => encode_utf8(field_line(name, v)),
        None => seq![],
    }
}

/// The header block: the lines of `Content-Type`, `Content-Length`,
/// `Connection` and `Transfer-Encoding`, in that order and each only if
/// present, then the blank line. Other fields are not written.
pub open spec fn header_block(e: Fields) -> Seq<u8> {
    optional_field_line(e, "Content-Type"@) + optional_field_line(e, "Content-Length"@)
        + optional_field_line(e, "Connection"@) + optional_field_line(e, "Transfer-Encoding"@)
        + encode_utf8("\r\n"@)
}

/// Writes the line of the field `name`, if `headers` holds it.
fn write_field_line(w: &mut Vec<u8>, headers: &Headers, name: &str)
    ensures
        final(w)@ == old(w)@ + optional_field_line(headers@, name@),
{
    match headers.get(name) {
        Some(value) => {
            let mut line = name.to_owned();
            line.append(": ");
            line.append(value.as_str());
            line.append("\r\n");
            append_str(w, line.as_str());
        },
        None => {
            assert(old(w)@ + optional_field_line(headers@, name@) =~= old(w)@);
        },
    }
}

/// Writes the header block of `headers`.
pub fn write_headers(w: &mut Vec<u8>, headers: Headers)
    ensures
        final(w)@ == old(w)@ + header_block(headers@),
{
    write_field_line(w, &headers, "Content-Type");
    write_field_line(w, &headers, "Content-Length");
    write_field_line(w, &headers, "Connection");
    write_field_line(w, &headers, "Transfer-Encoding");
    append_str(w, "\r\n");
    assert(w@ =~= old(w)@ + header_block(headers@));
}


/// The writer operations.
pub ghost enum WriterOp {
    StatusLine,
    Headers,
    Body,
    ChunkedBody,
    ChunkedBodyDone,
    Trailers,
}

/// The state that an operation leads to from `s`, or `None` where the
/// operation is out of order there.
pub open spec fn next_state(s: WriterState, op: WriterOp) -> Option<WriterState> {
    match (s, op) {
        (WriterState::Empty, WriterOp::StatusLine) => Some(WriterState::StatusLineCompleted),
        (WriterState::StatusLineCompleted, WriterOp::Headers) => Some(WriterState::HeadersCompleted),
        (WriterState::HeadersCompleted, WriterOp::Body) => Some(WriterState::Done),
        (WriterState::HeadersCompleted, WriterOp::ChunkedBody) => Some(
            WriterState::ChunkedBodyWritten,
        ),
        (WriterState::ChunkedBodyWritten, WriterOp::ChunkedBody) => Some(
            WriterState::ChunkedBodyWritten,
        ),
        (WriterState::ChunkedBodyWritten, WriterOp::ChunkedBodyDone) => Some(WriterState::Done),
        (WriterState::ChunkedBodyWritten, WriterOp::Trailers) => Some(WriterState::Done),
        _ => None,
    }
}

/// The order of the writer states.
pub open spec fn writer_rank(s: WriterState) -> nat {
    match s {
        WriterState::Empty => 0,
        WriterState::StatusLineCompleted => 1,
        WriterState::HeadersCompleted => 2,
        WriterState::ChunkedBodyWritten => 3,
        WriterState::Done => 4,
    }
}

/// The writer moves only forward: the status line comes first and only
/// once, the headers only right after it, a body only after the headers;
/// chunks are the one operation that may repeat, and once done the writer
/// accepts nothing more.
pub proof fn law_writer_order(s: WriterState, op: WriterOp)
    ensures
        next_state(s, op) matches Some(t) ==> writer_rank(t) > writer_rank(s) || (t == s && s
            == WriterState::ChunkedBodyWritten && op == WriterOp::ChunkedBody),
        next_state(WriterState::Done, op) is None,
        next_state(s, WriterOp::StatusLine) is Some <==> s == WriterState::Empty,
        next_state(s, WriterOp::Headers) is Some <==> s == WriterState::StatusLineCompleted,
        next_state(s, WriterOp::Body) is Some <==> s == WriterState::HeadersCompleted,
{
}

/// The bytes of one chunk: its length in uppercase hexadecimal, CRLF, the
/// data, CRLF.
pub open spec fn chunk_bytes(p: Seq<u8>) -> Seq<u8> {
    encode_utf8(hex_upper(p.len()) + "\r\n"@) + p + encode_utf8("\r\n"@)
}

/// The bytes that end a chunked body without trailers.
pub open spec fn last_chunk_bytes() -> Seq<u8> {
    encode_utf8("0\r\n"@) + encode_utf8("\r\n"@)
}

/// The trailer lines for the names `names`, each trimmed and looked up in
/// `e`; the lines run up to the first name that has no field, and the flag
/// tells whether every name had one.
pub open spec fn trailer_lines(e: Fields, names: Seq<Seq<char>>) -> (Seq<u8>, bool)
    decreases names.len(),
{
    if names.len() == 0 {
        (seq![], true)
    } else {
        let t = trim(names[0]);
        match lookup(e, lowercase(t)) {
            None => (seq![], false),
            Some(v) => {
                let (rest, ok) = trailer_lines(e, names.drop_first());
                (encode_utf8(field_line(t, v)) + rest, ok)
            },
        }
    }
}

/// Trailer names are looked up and written trimmed: whitespace around a
/// name in the `Trailer` field changes nothing.
pub proof fn law_trailer_names_trimmed(e: Fields, names: Seq<Seq<char>>)
    ensures
        trailer_lines(e, names) == trailer_lines(e, names.map_values(|n: Seq<char>| trim(n))),
    decreases names.len(),
{
    if names.len() > 0 {
        let m = names.map_values(|n: Seq<char>| trim(n));
        law_trim_idempotent(names[0]);
        assert(m[0] == trim(names[0]));
        assert(m.drop_first() =~= names.drop_first().map_values(|n: Seq<char>| trim(n)));
        law_trailer_names_trimmed(e, names.drop_first());
    }
}

/// The size line of a chunk denotes the chunk's length: its text read as
/// hexadecimal gives the length, with no leading zero, so only an empty
/// chunk announces `0`.
pub proof fn law_chunk_size_line(p: Seq<u8>)
    ensures
        exists|t: Seq<char>|
            #![trigger hex_digits_value(t)]
            chunk_bytes(p) == encode_utf8(t + "\r\n"@) + p + encode_utf8("\r\n"@)
                && hex_digits_value(t) == Some(p.len()) && t.len() > 0 && (p.len() > 0 ==> t[0]
                != '0'),
{
    law_hex_upper_denotes(p.len());
    let t = hex_upper(p.len());
    assert(chunk_bytes(p) == encode_utf8(t + "\r\n"@) + p + encode_utf8("\r\n"@));
}

/// What writing trailers from the fields `e` does to a writer in state `s`
/// with output `out`: the result, the new state and the new output.
///
/// Out of order, nothing happens. Without a `Trailer` field nothing is
/// written. Otherwise the last chunk `0` is written, then the line of each
/// name listed in the `Trailer` field, up to the first name that has no
/// field, which is an error; if all have one, a blank line ends the body.
pub open spec fn trailers_effect(s: WriterState, out: Seq<u8>, e: Fields) -> (
    Result<(), WriteError>,
    WriterState,
    Seq<u8>,
) {
    match next_state(s, WriterOp::Trailers) {
        None => (Err(WriteError::ChunkedBodyMissing), s, out),
        Some(t) => match lookup(e, lowercase("trailer"@)) {
            None => (Err(WriteError::NoTrailer), s, out),
            Some(names) => {
                let (lines, ok) = trailer_lines(e, split_on(names, ','));
                if ok {
                    (Ok(()), t, out + encode_utf8("0\r\n"@) + lines + encode_utf8("\r\n"@))
                } else {
                    (Err(WriteError::TrailerMissing), s, out + encode_utf8("0\r\n"@) + lines)
                }
            },
        },
    }
}

/// A response writer. The bytes of the response accumulate in `stream`;
/// `state` records how far the response has come.
pub struct Writer {
    pub stream: Vec<u8>,
    pub state: WriterState,
}

impl Writer {
    /// A writer that appends to `stream`, with nothing of the response
    /// written yet.
    pub fn new(stream: Vec<u8>) -> (w: Self)
        ensures
            w.stream@ == stream@,
            w.state == WriterState::Empty,
    {
        Writer { stream, state: WriterState::Empty }
    }

    /// Hands over the bytes written so far and keeps writing to an empty
    /// stream.
    pub fn take_output(&mut self) -> (out: Vec<u8>)
        ensures
            out@ == old(self).stream@,
            final(self).stream@ == Seq::<u8>::empty(),
            final(self).state == old(self).state,
    {
        let mut out: Vec<u8> = Vec::new();
        std::mem::swap(&mut out, &mut self.stream);
        out
    }

    /// Writes the status line; allowed only first.
    pub fn write_status_line(&mut self, status_code: StatusCode) -> (r: Result<(), WriteError>)
        ensures
            match next_state(old(self).state, WriterOp::StatusLine) {
                Some(t) => r is Ok && final(self).state == t && final(self).stream@ == old(self).stream@ + encode_utf8(status_line_text(status_code)),
                None => r == Err::<(), WriteError>(WriteError::StatusLineAlreadyWritten)
                    && final(self).state == old(self).state && final(self).stream@ == old(self).stream@,
            },
    {
        match self.state {
            WriterState::Empty => {
                write_status_line(&mut self.stream, status_code);
                self.state = WriterState::StatusLineCompleted;
                Ok(())
            },
            _ => Err(WriteError::StatusLineAlreadyWritten),
        }
    }

    /// Writes the header block; allowed only right after the status line.
    pub fn write_headers(&mut self, headers: Headers) -> (r: Result<(), WriteError>)
        ensures
            match next_state(old(self).state, WriterOp::Headers) {
                Some(t) => r is Ok && final(self).state == t && final(self).stream@ == old(self).stream@ + header_block(headers@),
                None => r == Err::<(), WriteError>(WriteError::StatusLineMissing) && final(self).state == old(self).state && final(self).stream@ == old(self).stream@,
            },
    {
        match self.state {
            WriterState::StatusLineCompleted => {
                write_headers(&mut self.stream, headers);
                self.state = WriterState::HeadersCompleted;
                Ok(())
            },
            _ => Err(WriteError::StatusLineMissing),
        }
    }

    /// Writes the whole body at once; allowed only right after the headers.
    /// Returns the number of bytes written.
    pub fn write_body(&mut self, p: &[u8]) -> (r: Result<usize, WriteError>)
        ensures
            match next_state(old(self).state, WriterOp::Body) {
                Some(t) => r == Ok::<usize, WriteError>(p@.len() as usize) && final(self).state
                    == t && final(self).stream@ == old(self).stream@ + p@,
                None => r == Err::<usize, WriteError>(
                    if old(self).state == WriterState::Done {
                        WriteError::BodyAlreadyWritten
                    } else {
                        WriteError::HeadersMissing
                    },
                ) && final(self).state == old(self).state && final(self).stream@ == old(self).stream@,
            },
    {
        match self.state {
            WriterState::HeadersCompleted => {
                append_bytes(&mut self.stream, p);
                self.state = WriterState::Done;
                Ok(p.len())
            },
            WriterState::Done => Err(WriteError::BodyAlreadyWritten),
            _ => Err(WriteError::HeadersMissing),
        }
    }

    /// Writes one chunk of a chunked body; allowed after the headers and
    /// after another chunk. Returns the number of data bytes.
    pub fn write_chunked_body(&mut self, p: &[u8]) -> (r: Result<usize, WriteError>)
        ensures
            match next_state(old(self).state, WriterOp::ChunkedBody) {
                Some(t) => r == Ok::<usize, WriteError>(p@.len() as usize) && final(self).state
                    == t && final(self).stream@ == old(self).stream@ + chunk_bytes(p@),
                None => r == Err::<usize, WriteError>(WriteError::HeadersMissing) && final(self).state == old(self).state && final(self).stream@ == old(self).stream@,
            },
    {
        match self.state {
            WriterState::HeadersCompleted | WriterState::ChunkedBodyWritten => {
                let n = p.len();
                let mut size: Vec<char> = Vec::new();
                push_hex_upper(n, &mut size);
                assert(size@ =~= hex_upper(n as nat));
                let mut head = string_from_chars(size.as_slice());
                head.append("\r\n");
                append_str(&mut self.stream, head.as_str());
                append_bytes(&mut self.stream, p);
                append_str(&mut self.stream, "\r\n");
                self.state = WriterState::ChunkedBodyWritten;
                Ok(n)
            },
            _ => Err(WriteError::HeadersMissing),
        }
    }

    /// Ends a chunked body without trailers; allowed after a chunk. Returns 0.
    pub fn write_chunked_body_done(&mut self) -> (r: Result<usize, WriteError>)
        ensures
            match next_state(old(self).state, WriterOp::ChunkedBodyDone) {
                Some(t) => r == Ok::<usize, WriteError>(0) && final(self).state == t && final(self).stream@ == old(self).stream@ + last_chunk_bytes(),
                None => r == Err::<usize, WriteError>(WriteError::ChunkedBodyMissing) && final(self).state == old(self).state && final(self).stream@ == old(self).stream@,
            },
    {
        match self.state {
            WriterState::ChunkedBodyWritten => {
                append_str(&mut self.stream, "0\r\n");
                append_str(&mut self.stream, "\r\n");
                self.state = WriterState::Done;
                Ok(0)
            },
            _ => Err(WriteError::ChunkedBodyMissing),
        }
    }

    /// Ends a chunked body with trailers; allowed after a chunk. The names
    /// listed, comma-separated, in the `Trailer` field of `headers` are
    /// written in order with their values from `headers`. Without a
    /// `Trailer` field nothing is written; at the first listed name that has
    /// no field the writing stops with an error, and what was written stays.
    pub fn write_trailers(&mut self, headers: Headers) -> (r: Result<(), WriteError>)
        ensures
            trailers_effect(old(self).state, old(self).stream@, headers@) == (
                r,
                final(self).state,
                final(self).stream@,
            ),
    {
        match self.state {
            WriterState::ChunkedBodyWritten => {},
            _ => {
                return Err(WriteError::ChunkedBodyMissing);
            },
        }
        let trailer_names = match headers.get("trailer") {
            Some(v) => string_chars(v),
            None => {
                return Err(WriteError::NoTrailer);
            },
        };
        append_str(&mut self.stream, "0\r\n");
        let names = split_at_char(&trailer_names, ',');
        let ghost all = views(names@);
        let ghost start = self.stream@;
        let mut i: usize = 0;
        assert(all.skip(0) =~= all);
        assert(start + Seq::<u8>::empty() =~= start);
        while i < names.len()
            invariant
                i <= names@.len(),
                all == views(names@),
                all == split_on(trailer_names@, ','),
                lookup(headers@, lowercase("trailer"@)) == Some(trailer_names@),
                start == old(self).stream@ + encode_utf8("0\r\n"@),
                self.state == old(self).state,
                old(self).state == WriterState::ChunkedBodyWritten,
                all.len() == names@.len(),
                self.stream@.len() >= start.len(),
                self.stream@.take(start.len() as int) == start,
                trailer_lines(headers@, all) == (
                    self.stream@.skip(start.len() as int) + trailer_lines(
                        headers@,
                        all.skip(i as int),
                    ).0,
                    trailer_lines(headers@, all.skip(i as int)).1,
                ),
            decreases names@.len() - i,
        {
            let ghost suffix = all.skip(i as int);
            assert(suffix[0] == names@[i as int]@);
            assert(suffix.drop_first() =~= all.skip(i + 1));
            let (a, b) = trim_bounds(&names[i]);
            let name = string_from_chars(sub_vec(&names[i], a, b).as_slice());
            assert(name@ == trim(suffix[0]));
            match headers.get(name.as_str()) {
                Some(value) => {
                    let ghost before = self.stream@;
                    let mut line = name.clone();
                    line.append(": ");
                    line.append(value.as_str());
                    line.append("\r\n");
                    append_str(&mut self.stream, line.as_str());
                    assert(self.stream@.take(start.len() as int) =~= start);
                    assert(self.stream@.skip(start.len() as int) =~= before.skip(
                        start.len() as int,
                    ) + encode_utf8(line@));
                },
                None => {
                    assert(trailer_lines(headers@, suffix) == (Seq::<u8>::empty(), false));
                    assert(self.stream@.skip(start.len() as int) + Seq::<u8>::empty()
                        =~= self.stream@.skip(start.len() as int));
                    assert(self.stream@ =~= start + self.stream@.skip(start.len() as int));
                    return Err(WriteError::TrailerMissing);
                },
            }
            i = i + 1;
        }
        assert(all.skip(i as int) =~= Seq::<Seq<char>>::empty());
        assert(self.stream@ =~= start + self.stream@.skip(start.len() as int));
        append_str(&mut self.stream, "\r\n");
        self.state = WriterState::Done;
        Ok(())
    }
}

} // verus!
