//! The HTTP request: its parts, and the streaming parser that fills them in
//! from successive slices of bytes.

use vstd::prelude::*;

use crate::error::{parse_error_message, ParseError};
use crate::headers::{lookup, parse_header_bytes, Fields, Headers};
use crate::text::{
    chars_eq, decode_lossy, find_crlf, find_crlf_in, lemma_find_crlf_bounds, lemma_find_crlf_prefix,
    lowercase, parse_usize, parse_usize_chars, split_words, string_chars, string_from_chars,
    sub_vec, utf8_lossy, views, words,
};

verus! {

/// The first line of a request: `method SP request-target SP HTTP/version`.
#[derive(Debug)]
pub struct RequestLine {
    pub http_version: String,
    pub request_target: String,
    pub method: String,
}

/// How far the parsing of a request has come.
#[derive(Clone, Copy, Debug, PartialEq, Eq, Structural)]
pub enum RequestState {
    Initialized,
    ParsingHeaders,
    ParsingBody,
    Done,
}

/// A request under construction: the parser and its result in one.
#[derive(Debug)]
pub struct Request {
    pub request_line: RequestLine,
    pub headers: Headers,
    pub body: Vec<u8>,
    pub status: RequestState,
}

/// The abstract content of a request.
pub ghost struct RequestView {
    pub method: Seq<char>,
    pub target: Seq<char>,
    pub version: Seq<char>,
    pub fields: Fields,
    pub body: Seq<u8>,
    pub status: RequestState,
}

impl View for Request {
    type V = RequestView;

    open spec fn view(&self) -> RequestView {
        RequestView {
            method: self.request_line.method@,
            target: self.request_line.request_target@,
            version: self.request_line.http_version@,
            fields: self.headers@,
            body: self.body@,
            status: self.status,
        }
    }
}

/// `HTTP/`, which starts the protocol part of a request line.
pub open spec fn http_prefix() -> Seq<char> {
    seq!['H', 'T', 'T', 'P', '/']
}

/// `1.1`, the one protocol version accepted.
pub open spec fn version_1_1() -> Seq<char> {
    seq!['1', '.', '1']
}

/// The seven methods accepted: GET, POST, PUT, DELETE, HEAD, OPTIONS, PATCH.
pub open spec fn is_known_method(m: Seq<char>) -> bool {
    ||| m == seq!['G', 'E', 'T']
    ||| m == seq!['P', 'O', 'S', 'T']
    ||| m == seq!['P', 'U', 'T']
    ||| m == seq!['D', 'E', 'L', 'E', 'T', 'E']
    ||| m == seq!['H', 'E', 'A', 'D']
    ||| m == seq!['O', 'P', 'T', 'I', 'O', 'N', 'S']
    ||| m == seq!['P', 'A', 'T', 'C', 'H']
}

/// The request line `line` read as (method, target, version): exactly three
/// whitespace-separated words, the third `HTTP/` followed by `1.1`, the first
/// a known method; the checks come in that order.
pub open spec fn parse_request_line_text(line: Seq<char>) -> Result<
    (Seq<char>, Seq<char>, Seq<char>),
    ParseError,
> {
    let w = words(line);
    if w.len() != 3 {
        Err(ParseError::WrongNumberOfParts)
    } else if !(w[2].len() >= 5 && w[2].take(5) == http_prefix()) {
        Err(ParseError::MissingHttpPrefix)
    } else if w[2].skip(5) != version_1_1() {
        Err(ParseError::UnsupportedVersion)
    } else if !is_known_method(w[0]) {
        Err(ParseError::InvalidMethod)
    } else {
        Ok((w[0], w[1], w[2].skip(5)))
    }
}

/// The documented methods, and only they, are accepted, each as itself: a
/// request line whose words are a method, a target and `HTTP/1.1` parses to
/// that method, that target and version `1.1` when the method is one of
/// GET, POST, PUT, DELETE, HEAD, OPTIONS or PATCH, and is refused as an
/// invalid method otherwise.
pub proof fn law_documented_methods_accepted(line: Seq<char>, m: Seq<char>, t: Seq<char>)
    requires
        words(line) == seq![m, t, seq!['H', 'T', 'T', 'P', '/', '1', '.', '1']],
    ensures
        parse_request_line_text(line) == if m == seq!['G', 'E', 'T'] || m == seq!['P', 'O', 'S', 'T']
            || m == seq!['P', 'U', 'T'] || m == seq!['D', 'E', 'L', 'E', 'T', 'E'] || m == seq![
            'H',
            'E',
            'A',
            'D',
        ] || m == seq!['O', 'P', 'T', 'I', 'O', 'N', 'S'] || m == seq!['P', 'A', 'T', 'C', 'H'] {
            Ok::<(Seq<char>, Seq<char>, Seq<char>), ParseError>((m, t, seq!['1', '.', '1']))
        } else {
            Err(ParseError::InvalidMethod)
        },
{
    let v = seq!['H', 'T', 'T', 'P', '/', '1', '.', '1'];
    assert(words(line)[2] == v);
    assert(v.take(5) =~= http_prefix());
    assert(v.skip(5) =~= version_1_1());
    assert(version_1_1() =~= seq!['1', '.', '1']);
}

/// The body length that the fields announce: the `content-length` value read
/// as a `usize`, or 0 when it is absent or does not parse.
pub open spec fn content_length(e: Fields) -> nat {
    match lookup(e, lowercase("content-length"@)) {
        Some(v) => match parse_usize(v) {
            Some(n) => n as nat,
            None => 0,
        },
        None => 0,
    }
}

/// The state that follows the blank line ending the headers.
pub open spec fn state_after_headers(e: Fields) -> RequestState {
    if content_length(e) > 0 {
        RequestState::ParsingBody
    } else {
        RequestState::Done
    }
}

/// One step of request parsing on the bytes `data`: the request after the
/// step, and the number of bytes consumed or the error.
///
/// - Initialized: without a `"\r\n"` nothing happens; otherwise the bytes
///   before it, decoded as `String::from_utf8_lossy` decodes them, are parsed
///   as the request line, which is consumed with its `"\r\n"`, and headers
///   come next.
/// - ParsingHeaders: one header step; at the end of the headers the request
///   expects a body if a positive content length is announced, else is done.
/// - ParsingBody: takes as many bytes as the body still lacks; once complete
///   the request is done, and bytes left over are an error.
/// - Done: always an error.
pub open spec fn parse_request_bytes(r: RequestView, data: Seq<u8>) -> (
    RequestView,
    Result<nat, ParseError>,
) {
    match r.status {
        RequestState::Initialized => match find_crlf(data) {
            None => (r, Ok(0)),
            Some(i) => match parse_request_line_text(utf8_lossy(data.take(i))) {
                Err(e) => (r, Err(e)),
                Ok((m, t, v)) => (
                    RequestView {
                        method: m,
                        target: t,
                        version: v,
                        status: RequestState::ParsingHeaders,
                        ..r
                    },
                    Ok((i + 2) as nat),
                ),
            },
        },
        RequestState::ParsingHeaders => match parse_header_bytes(r.fields, data) {
            Err(e) => (r, Err(e)),
            Ok((f, n, done)) => (
                RequestView {
                    fields: f,
                    status: if done {
                        state_after_headers(f)
                    } else {
                        RequestState::ParsingHeaders
                    },
                    ..r
                },
                Ok(n),
            ),
        },
        RequestState::ParsingBody => {
            let cl = content_length(r.fields);
            let needed: nat = if cl > r.body.len() {
                (cl - r.body.len()) as nat
            } else {
                0
            };
            let take: nat = if needed < data.len() {
                needed
            } else {
                data.len()
            };
            let body = r.body + data.take(take as int);
            if body.len() == cl {
                (
                    RequestView { body: body, status: RequestState::Done, ..r },
                    if data.len() > take {
                        Err(ParseError::BodyTooLong)
                    } else {
                        Ok(take)
                    },
                )
            } else {
                (RequestView { body: body, ..r }, Ok(take))
            }
        },
        RequestState::Done => (r, Err(ParseError::AlreadyDone)),
    }
}

/// The order of the parsing states.
pub open spec fn state_rank(s: RequestState) -> nat {
    match s {
        RequestState::Initialized => 0,
        RequestState::ParsingHeaders => 1,
        RequestState::ParsingBody => 2,
        RequestState::Done => 3,
    }
}

/// A parse step never moves the state backwards, and a done request refuses
/// every further step and stays as it is.
pub proof fn law_request_state_advances(r: RequestView, data: Seq<u8>)
    ensures
        state_rank(parse_request_bytes(r, data).0.status) >= state_rank(r.status),
        r.status == RequestState::Done ==> parse_request_bytes(r, data) == (
            r,
            Err::<nat, ParseError>(ParseError::AlreadyDone),
        ),
{
}

/// Each part of a request is written in its own stage only: the request line
/// while initialized, the fields while parsing headers, and the body only by
/// appending.
pub proof fn law_request_parts_settle(r: RequestView, data: Seq<u8>)
    ensures
        ({
            let r2 = parse_request_bytes(r, data).0;
            &&& r.status != RequestState::Initialized ==> r2.method == r.method && r2.target
                == r.target && r2.version == r.version
            &&& r.status != RequestState::ParsingHeaders ==> r2.fields == r.fields
            &&& r2.body.len() >= r.body.len()
            &&& r2.body.take(r.body.len() as int) == r.body
        }),
{
    let r2 = parse_request_bytes(r, data).0;
    assert(r2.body.take(r.body.len() as int) =~= r.body);
}

/// What holds of every request the parser builds: no body before the
/// headers are done, never more body than announced, and exactly the
/// announced body once done.
pub open spec fn request_invariant(r: RequestView) -> bool {
    &&& (r.status == RequestState::Initialized || r.status == RequestState::ParsingHeaders)
        ==> r.body.len() == 0
    &&& r.body.len() <= content_length(r.fields)
    &&& r.status == RequestState::Done ==> r.body.len() == content_length(r.fields)
}

/// The invariant holds of a fresh request and survives every parse step,
/// failed ones included.
pub proof fn law_request_invariant(r: RequestView, data: Seq<u8>)
    ensures
        request_invariant(initial_request()),
        request_invariant(r) ==> request_invariant(parse_request_bytes(r, data).0),
{
}

/// Whether `s` starts with `p`.
fn has_prefix(s: &Vec<char>, p: &[char]) -> (b: bool)
    ensures
        b == (p@.len() <= s@.len() && s@.take(p@.len() as int) == p@),
{
    if p.len() > s.len() {
        return false;
    }
    let head = sub_vec(s, 0, p.len());
    assert(head@ =~= s@.take(p@.len() as int));
    chars_eq(head.as_slice(), p)
}

/// Whether `m` is one of the seven accepted methods.
fn known_method(m: &Vec<char>) -> (b: bool)
    ensures
        b == is_known_method(m@),
{
    let get = ['G', 'E', 'T'];
    let post = ['P', 'O', 'S', 'T'];
    let put = ['P', 'U', 'T'];
    let delete = ['D', 'E', 'L', 'E', 'T', 'E'];
    let head = ['H', 'E', 'A', 'D'];
    let options = ['O', 'P', 'T', 'I', 'O', 'N', 'S'];
    let patch = ['P', 'A', 'T', 'C', 'H'];
    assert(get@ =~= seq!['G', 'E', 'T']);
    assert(post@ =~= seq!['P', 'O', 'S', 'T']);
    assert(put@ =~= seq!['P', 'U', 'T']);
    assert(delete@ =~= seq!['D', 'E', 'L', 'E', 'T', 'E']);
    assert(head@ =~= seq!['H', 'E', 'A', 'D']);
    assert(options@ =~= seq!['O', 'P', 'T', 'I', 'O', 'N', 'S']);
    assert(patch@ =~= seq!['P', 'A', 'T', 'C', 'H']);
    chars_eq(m.as_slice(), get.as_slice()) || chars_eq(m.as_slice(), post.as_slice()) || chars_eq(
        m.as_slice(),
        put.as_slice(),
    ) || chars_eq(m.as_slice(), delete.as_slice()) || chars_eq(m.as_slice(), head.as_slice())
        || chars_eq(m.as_slice(), options.as_slice()) || chars_eq(m.as_slice(), patch.as_slice())
}

/// Parses a request line, given as decoded text without its `"\r\n"`.
fn parse_request_line(line: &Vec<char>) -> (r: Result<RequestLine, ParseError>)
    ensures
        match parse_request_line_text(line@) {
            Ok((m, t, v)) => r matches Ok(rl) && rl.method@ == m && rl.request_target@ == t
                && rl.http_version@ == v,
            Err(e) => r == Err::<RequestLine, ParseError>(e),
        },
{
    let w = split_words(line);
    assert(views(w@).len() == w@.len());
    if w.len() != 3 {
        return Err(ParseError::WrongNumberOfParts);
    }
    assert(views(w@)[0] == w@[0]@ && views(w@)[1] == w@[1]@ && views(w@)[2] == w@[2]@);
    let prefix = ['H', 'T', 'T', 'P', '/'];
    assert(prefix@ =~= http_prefix());
    if !has_prefix(&w[2], prefix.as_slice()) {
        return Err(ParseError::MissingHttpPrefix);
    }
    let version = sub_vec(&w[2], 5, w[2].len());
    assert(version@ =~= w@[2]@.skip(5));
    let one_one = ['1', '.', '1'];
    assert(one_one@ =~= version_1_1());
    if !chars_eq(version.as_slice(), one_one.as_slice()) {
        return Err(ParseError::UnsupportedVersion);
    }
    if !known_method(&w[0]) {
        return Err(ParseError::InvalidMethod);
    }
    Ok(
        RequestLine {
            http_version: string_from_chars(version.as_slice()),
            request_target: string_from_chars(w[1].as_slice()),
            method: string_from_chars(w[0].as_slice()),
        },
    )
}


impl Default for Request {
    fn default() -> (r: Self)
        ensures
            r@ == initial_request(),
    {
        Self::new()
    }
}

impl Request {
    /// A request with nothing parsed yet.
    pub fn new() -> (r: Self)
        ensures
            r@ == initial_request(),
    {
        let r = Request {
            request_line: RequestLine {
                http_version: String::new(),
                request_target: String::new(),
                method: String::new(),
            },
            headers: Headers::new(),
            body: Vec::new(),
            status: RequestState::Initialized,
        };
        assert(r@.method =~= seq![]);
        assert(r@.target =~= seq![]);
        assert(r@.version =~= seq![]);
        assert(r@.fields =~= seq![]);
        assert(r@.body =~= seq![]);
        r
    }

    /// The body length that the headers announce.
    fn content_length(&self) -> (n: usize)
        ensures
            n == content_length(self.headers@),
    {
        match self.headers.get("content-length") {
            Some(v) => {
                let cs = string_chars(v);
                match parse_usize_chars(&cs) {
                    Some(n) => n,
                    None => 0,
                }
            },
            None => 0,
        }
    }

    /// Parses the next slice of bytes into the request, as far as the current
    /// state allows, and returns the number of bytes consumed. The caller
    /// drops those bytes and passes the rest, with any new ones, next time.
    pub fn parse(&mut self, data: &[u8]) -> (r: Result<usize, ParseError>)
        ensures
            final(self)@ == parse_request_bytes(old(self)@, data@).0,
            match parse_request_bytes(old(self)@, data@).1 {
                Ok(n) => r matches Ok(m) && m == n,
                Err(e) => r == Err::<usize, ParseError>(e),
            },
            r matches Ok(n) ==> n <= data@.len(),
    {
        match self.status {
            RequestState::Initialized => {
                let data_len = data.len();
                let i = match find_crlf_in(data) {
                    None => {
                        return Ok(0);
                    },
                    Some(i) => i,
                };
                proof {
                    lemma_find_crlf_bounds(data@);
                }
                assert(i + 2 <= data_len);
                let line_bytes = vstd::slice::slice_subrange(data, 0, i);
                assert(line_bytes@ =~= data@.take(i as int));
                let line = decode_lossy(line_bytes);
                let request_line = parse_request_line(&line)?;
                self.request_line = request_line;
                self.status = RequestState::ParsingHeaders;
                Ok(i + 2)
            },
            RequestState::ParsingHeaders => {
                let (bytes_parsed, done) = self.headers.parse(data)?;
                if done {
                    let content_length = self.content_length();
                    if content_length > 0 {
                        self.status = RequestState::ParsingBody;
                    } else {
                        self.status = RequestState::Done;
                    }
                }
                Ok(bytes_parsed)
            },
            RequestState::ParsingBody => {
                let content_length = self.content_length();
                let bytes_needed = if content_length > self.body.len() {
                    content_length - self.body.len()
                } else {
                    0
                };
                let bytes_to_consume = if bytes_needed < data.len() {
                    bytes_needed
                } else {
                    data.len()
                };
                let ghost old_body = self.body@;
                let mut k: usize = 0;
                while k < bytes_to_consume
                    invariant
                        k <= bytes_to_consume <= data@.len(),
                        self.body@ == old_body + data@.take(k as int),
                        old_body == old(self)@.body,
                        self@ == (RequestView { body: self.body@, ..old(self)@ }),
                    decreases bytes_to_consume - k,
                {
                    self.body.push(data[k]);
                    assert(self.body@ =~= old_body + data@.take(k + 1));
                    k = k + 1;
                }
                if self.body.len() == content_length {
                    self.status = RequestState::Done;
                    if data.len() > bytes_to_consume {
                        return Err(ParseError::BodyTooLong);
                    }
                }
                Ok(bytes_to_consume)
            },
            RequestState::Done => Err(ParseError::AlreadyDone),
        }
    }
}


/// Why reading a request from a stream of bytes failed.
#[derive(Clone, Copy, Debug, PartialEq, Eq, Structural)]
pub enum ReadFailure {
    /// A parse step rejected the bytes.
    Parse(ParseError),
    /// The stream ended before the request was complete.
    Incomplete,
}

/// The request as it stands before any byte is parsed.
pub open spec fn initial_request() -> RequestView {
    RequestView {
        method: seq![],
        target: seq![],
        version: seq![],
        fields: seq![],
        body: seq![],
        status: RequestState::Initialized,
    }
}

/// Parse steps over `data` from `req`, repeated while the request is not
/// done and each step consumes bytes: the request, the bytes left, and the
/// failure if a step failed.
pub open spec fn drain(req: RequestView, data: Seq<u8>) -> (
    RequestView,
    Seq<u8>,
    Option<ReadFailure>,
)
    decreases data.len(),
{
    if req.status == RequestState::Done {
        (req, data, None)
    } else {
        let (r, res) = parse_request_bytes(req, data);
        match res {
            Err(e) => (r, data, Some(ReadFailure::Parse(e))),
            Ok(n) => if 0 < n && n <= data.len() {
                drain(r, data.skip(n as int))
            } else {
                (r, data, None)
            },
        }
    }
}

/// What a state of the reading loop amounts to: the failure, else the
/// request if it is done, else `Incomplete`.
pub open spec fn outcome_of(s: (RequestView, Seq<u8>, Option<ReadFailure>)) -> Result<
    RequestView,
    ReadFailure,
> {
    match s.2 {
        Some(e) => Err(e),
        None => if s.0.status == RequestState::Done {
            Ok(s.0)
        } else {
            Err(ReadFailure::Incomplete)
        },
    }
}

/// What comes of the bytes `data` parsed from `req` when nothing follows them.
pub open spec fn end_outcome(req: RequestView, data: Seq<u8>) -> Result<RequestView, ReadFailure> {
    outcome_of(drain(req, data))
}

/// What the bytes `input` give as a whole: parsed from a fresh request, with
/// nothing after them.
pub open spec fn parse_all(input: Seq<u8>) -> Result<RequestView, ReadFailure> {
    end_outcome(initial_request(), input)
}

/// One round of the reading loop, on the bytes `chunk` of one read and the
/// unparsed bytes `pending`. Gives the request, the unparsed bytes, and any
/// failure.
///
/// - Bytes arrived: they are appended to the pending ones, one parse step
///   runs over them, and the consumed prefix is dropped.
/// - The stream ended (an empty read): parse steps run while they consume
///   bytes; a request that is then still not done is `Incomplete`.
pub open spec fn stream_step(req: RequestView, pending: Seq<u8>, chunk: Seq<u8>) -> (
    RequestView,
    Seq<u8>,
    Option<ReadFailure>,
) {
    if chunk.len() > 0 {
        let data = pending + chunk;
        let (r, res) = parse_request_bytes(req, data);
        match res {
            Err(e) => (r, data, Some(ReadFailure::Parse(e))),
            Ok(n) => (r, data.skip(n as int), None),
        }
    } else {
        let (r, p, f) = drain(req, pending);
        if f is None && r.status != RequestState::Done {
            (r, p, Some(ReadFailure::Incomplete))
        } else {
            (r, p, f)
        }
    }
}

/// The rounds of the reading loop over the successive reads `reads`,
/// starting from a fresh request; a failure ends them.
pub open spec fn stream_run(reads: Seq<Seq<u8>>) -> (RequestView, Seq<u8>, Option<ReadFailure>)
    decreases reads.len(),
{
    if reads.len() == 0 {
        (initial_request(), seq![], None)
    } else {
        let (r, p, f) = stream_run(reads.drop_last());
        if f is Some {
            (r, p, f)
        } else {
            stream_step(r, p, reads.last())
        }
    }
}

/// After the reads `reads` the loop reads again: nothing failed and the
/// request is not done.
pub open spec fn continues(reads: Seq<Seq<u8>>) -> bool {
    let (r, p, f) = stream_run(reads);
    &&& f is None
    &&& r.status != RequestState::Done
}

/// The loop, having made the reads `reads`, is still reading: after each of
/// them, and before the first, it went on.
pub open spec fn still_reading(reads: Seq<Seq<u8>>) -> bool {
    forall|j: int| 0 <= j <= reads.len() ==> continues(#[trigger] reads.take(j))
}

/// The number of bytes in all the reads.
pub open spec fn total_len(reads: Seq<Seq<u8>>) -> nat
    decreases reads.len(),
{
    if reads.len() == 0 {
        0
    } else {
        total_len(reads.drop_last()) + reads.last().len()
    }
}

/// The bytes of all the reads, in order.
pub open spec fn joined(reads: Seq<Seq<u8>>) -> Seq<u8>
    decreases reads.len(),
{
    if reads.len() == 0 {
        seq![]
    } else {
        joined(reads.drop_last()) + reads.last()
    }
}

/// The length that the loop's buffer, `len` bytes long and holding `pending`
/// unparsed bytes, has before the next read: 8 bytes more when it is full.
pub open spec fn grown_len(len: int, pending: nat) -> int {
    if pending >= len {
        len + 8
    } else {
        len
    }
}

/// The length of the loop's buffer after the reads `reads`: 8 bytes at
/// first; before each read it grows as `grown_len` says, and the bytes that
/// the round consumed then leave it.
#[verifier::opaque]
pub open spec fn trace_buffer_len(reads: Seq<Seq<u8>>) -> int
    decreases reads.len(),
{
    if reads.len() == 0 {
        8
    } else {
        let prev = reads.drop_last();
        let p = stream_run(prev).1.len();
        grown_len(trace_buffer_len(prev), p) - (p + reads.last().len() - stream_run(reads).1.len())
    }
}

/// How many bytes the loop asks for in the read after `reads`: the free room
/// of its buffer once grown.
#[verifier::opaque]
pub open spec fn read_space(reads: Seq<Seq<u8>>) -> int {
    grown_len(trace_buffer_len(reads), stream_run(reads).1.len()) - stream_run(reads).1.len()
}

/// Each of the reads `reads` brought at most the bytes the loop asked for.
pub open spec fn reads_fit(reads: Seq<Seq<u8>>) -> bool {
    forall|j: int| 0 <= j < reads.len() ==> #[trigger] reads[j].len() <= read_space(reads.take(j))
}

/// `reads` are all the reads of one run of the loop, to its end.
pub open spec fn complete_trace(reads: Seq<Seq<u8>>) -> bool {
    &&& reads.len() > 0
    &&& forall|j: int| 0 <= j < reads.len() ==> continues(#[trigger] reads.take(j))
    &&& !continues(reads)
}

/// What a run of the loop over `reads` returns: the first failure, else the
/// request if it is done, else `Incomplete`.
pub open spec fn trace_outcome(reads: Seq<Seq<u8>>) -> Result<RequestView, ReadFailure> {
    outcome_of(stream_run(reads))
}

/// `reads` come from the stream of bytes `input`: they are its beginning,
/// and all of it once a read came back empty.
pub open spec fn reads_of(reads: Seq<Seq<u8>>, input: Seq<u8>) -> bool {
    &&& joined(reads).len() <= input.len()
    &&& input.take(joined(reads).len() as int) == joined(reads)
    &&& reads.len() > 0 && reads.last().len() == 0 ==> joined(reads) == input
}

/// A parse step never reports more bytes consumed than it was given.
pub proof fn lemma_parse_count_bounded(r: RequestView, data: Seq<u8>)
    ensures
        parse_request_bytes(r, data).1 matches Ok(n) ==> n <= data.len(),
{
    lemma_find_crlf_bounds(data);
}

/// The body stage in closed form: from a request that awaits its body, the
/// bytes `x` with nothing after them complete it exactly when they are as
/// many as the body lacks; fewer leave it incomplete and more are too many.
proof fn lemma_body_end(r: RequestView, x: Seq<u8>)
    requires
        r.status == RequestState::ParsingBody,
        request_invariant(r),
    ensures
        end_outcome(r, x) == ({
            let needed = content_length(r.fields) - r.body.len();
            if x.len() < needed {
                Err(ReadFailure::Incomplete)
            } else if x.len() == needed {
                Ok(RequestView { body: r.body + x, status: RequestState::Done, ..r })
            } else {
                Err(ReadFailure::Parse(ParseError::BodyTooLong))
            }
        }),
{
    let needed = content_length(r.fields) - r.body.len();
    let (r2, res) = parse_request_bytes(r, x);
    if x.len() < needed {
        assert(x.take(x.len() as int) =~= x);
        if x.len() > 0 {
            let e = x.skip(x.len() as int);
            assert(e.len() == 0);
            assert(r2.status == RequestState::ParsingBody);
            assert(parse_request_bytes(r2, e).1 == Ok::<nat, ParseError>(0));
            assert(drain(r2, e) == (parse_request_bytes(r2, e).0, e, None::<ReadFailure>));
        }
    } else if x.len() == needed {
        assert(x.take(needed as int) =~= x);
        assert(r2 == RequestView { body: r.body + x, status: RequestState::Done, ..r });
        if needed > 0 {
            assert(drain(r2, x.skip(needed as int)) == (r2, x.skip(needed as int), None::<ReadFailure>));
        }
    }
}

/// One successful parse step over `d` loses nothing: what comes of the rest
/// with any bytes `u` after it is what comes of `d` and `u` together, unless
/// `d` completes the body and `u` then is too much.
proof fn lemma_step_end_outcome(r: RequestView, d: Seq<u8>, u: Seq<u8>)
    requires
        request_invariant(r),
        r.status != RequestState::Done,
        parse_request_bytes(r, d).1 is Ok,
    ensures
        ({
            let (r2, res) = parse_request_bytes(r, d);
            let n = res->Ok_0;
            ||| end_outcome(r, d + u) == Err::<RequestView, ReadFailure>(
                ReadFailure::Parse(ParseError::BodyTooLong),
            )
            ||| end_outcome(r2, d.skip(n as int) + u) == end_outcome(r, d + u)
        }),
{
    let (r2, res) = parse_request_bytes(r, d);
    let n = res->Ok_0;
    lemma_find_crlf_bounds(d);
    lemma_find_crlf_prefix(d, u);
    law_request_invariant(r, d);
    if r.status == RequestState::ParsingBody {
        lemma_body_end(r, d + u);
        if r2.status == RequestState::ParsingBody {
            lemma_body_end(r2, d.skip(n as int) + u);
            assert(d.take(n as int) =~= d);
            assert(r2.body + (d.skip(n as int) + u) =~= r.body + (d + u));
        } else {
            assert(d.take(n as int) =~= d);
            assert(d.skip(n as int) + u =~= u);
            if u.len() == 0 {
                assert(d + u =~= d);
            }
        }
    } else {
        match find_crlf(d) {
            None => {
                assert(d.skip(0) =~= d);
            },
            Some(i) => {
                assert((d + u).take(i) =~= d.take(i));
                assert(parse_request_bytes(r, d + u) == parse_request_bytes(r, d));
                assert((d + u).skip(n as int) =~= d.skip(n as int) + u);
            },
        }
    }
}

/// A failed parse step over `d` fails the same way whatever bytes follow.
proof fn lemma_step_fault(r: RequestView, d: Seq<u8>, u: Seq<u8>)
    requires
        request_invariant(r),
        r.status != RequestState::Done,
        parse_request_bytes(r, d).1 is Err,
    ensures
        end_outcome(r, d + u) == Err::<RequestView, ReadFailure>(
            ReadFailure::Parse(parse_request_bytes(r, d).1->Err_0),
        ),
{
    lemma_find_crlf_bounds(d);
    lemma_find_crlf_prefix(d, u);
    if r.status == RequestState::ParsingBody {
        lemma_body_end(r, d + u);
    } else {
        let i = find_crlf(d)->Some_0;
        assert((d + u).take(i) =~= d.take(i));
        assert(parse_request_bytes(r, d + u) == parse_request_bytes(r, d));
    }
}

/// One round on a read that brought bytes keeps what the request and the
/// unparsed bytes give with the rest `u` of the input, or fails as they do.
proof fn lemma_round_end_outcome(r0: RequestView, p0: Seq<u8>, c: Seq<u8>, u: Seq<u8>)
    requires
        request_invariant(r0),
        r0.status != RequestState::Done,
        c.len() > 0,
        end_outcome(r0, p0 + (c + u)) != Err::<RequestView, ReadFailure>(
            ReadFailure::Parse(ParseError::BodyTooLong),
        ),
    ensures
        ({
            let (r, p, f) = stream_step(r0, p0, c);
            &&& f is None ==> end_outcome(r, p + u) == end_outcome(r0, p0 + (c + u))
            &&& f matches Some(e) ==> end_outcome(r0, p0 + (c + u)) == Err::<
                RequestView,
                ReadFailure,
            >(e)
        }),
{
    let d = p0 + c;
    assert(p0 + (c + u) =~= d + u);
    if parse_request_bytes(r0, d).1 is Err {
        lemma_step_fault(r0, d, u);
    } else {
        lemma_step_end_outcome(r0, d, u);
    }
}

/// Where the reads are the beginning of the input, so are all but the last,
/// and the input goes on after them with the last read.
proof fn lemma_reads_prefix(reads: Seq<Seq<u8>>, input: Seq<u8>)
    requires
        reads.len() > 0,
        joined(reads).len() <= input.len(),
        input.take(joined(reads).len() as int) == joined(reads),
    ensures
        joined(reads.drop_last()).len() <= input.len(),
        input.take(joined(reads.drop_last()).len() as int) == joined(reads.drop_last()),
        input.skip(joined(reads.drop_last()).len() as int) == reads.last() + input.skip(
            joined(reads).len() as int,
        ),
{
    let jp = joined(reads.drop_last());
    let c = reads.last();
    assert(joined(reads) == jp + c);
    assert(input.take(jp.len() as int) =~= jp) by {
        assert forall|k: int| 0 <= k < jp.len() implies input[k] == jp[k] by {
            assert(input.take(joined(reads).len() as int)[k] == joined(reads)[k]);
        }
    }
    assert(input.skip(jp.len() as int) =~= c + input.skip(joined(reads).len() as int)) by {
        assert forall|k: int| 0 <= k < c.len() implies input[jp.len() + k] == c[k] by {
            assert(input.take(joined(reads).len() as int)[jp.len() + k] == joined(reads)[jp.len()
                + k]);
        }
    }
}

/// While the loop goes on, what its request and unparsed bytes give with the
/// rest of the input is what the whole input gives.
proof fn lemma_run_end_outcome(reads: Seq<Seq<u8>>, input: Seq<u8>)
    requires
        still_reading(reads),
        joined(reads).len() <= input.len(),
        input.take(joined(reads).len() as int) == joined(reads),
        parse_all(input) != Err::<RequestView, ReadFailure>(
            ReadFailure::Parse(ParseError::BodyTooLong),
        ),
    ensures
        end_outcome(stream_run(reads).0, stream_run(reads).1 + input.skip(joined(reads).len() as int))
            == parse_all(input),
    decreases reads.len(),
{
    if reads.len() == 0 {
        assert(Seq::<u8>::empty() + input.skip(0) =~= input);
    } else {
        let prev = reads.drop_last();
        assert forall|j: int| 0 <= j <= prev.len() implies continues(#[trigger] prev.take(j)) by {
            assert(prev.take(j) =~= reads.take(j));
        }
        lemma_reads_prefix(reads, input);
        lemma_run_end_outcome(prev, input);
        lemma_stream_run_invariant(prev);
        assert(reads.take(reads.len() as int) =~= reads);
        assert(prev.take(prev.len() as int) =~= prev);
        let (r0, p0, f0) = stream_run(prev);
        let u = input.skip(joined(reads).len() as int);
        assert(continues(reads));
        assert(reads.last().len() > 0);
        lemma_round_end_outcome(r0, p0, reads.last(), u);
    }
}

/// However the bytes of a request are split into reads, the reading loop
/// gives what parsing them as a whole gives: a complete run of the loop over
/// reads taken from `input` returns `parse_all(input)`. The one exception is
/// input with bytes after the announced body, which a run that stops at the
/// complete body never reads.
pub proof fn law_read_split_independence(reads: Seq<Seq<u8>>, input: Seq<u8>)
    requires
        complete_trace(reads),
        reads_of(reads, input),
        parse_all(input) != Err::<RequestView, ReadFailure>(
            ReadFailure::Parse(ParseError::BodyTooLong),
        ),
    ensures
        trace_outcome(reads) == parse_all(input),
{
    let prev = reads.drop_last();
    let c = reads.last();
    assert forall|j: int| 0 <= j <= prev.len() implies continues(#[trigger] prev.take(j)) by {
        assert(prev.take(j) =~= reads.take(j));
    }
    lemma_reads_prefix(reads, input);
    lemma_run_end_outcome(prev, input);
    lemma_stream_run_invariant(prev);
    assert(prev.take(prev.len() as int) =~= prev);
    let (r0, p0, f0) = stream_run(prev);
    let u = input.skip(joined(reads).len() as int);
    if c.len() > 0 {
        lemma_round_end_outcome(r0, p0, c, u);
    } else {
        assert(u.len() == 0);
        assert(p0 + (c + u) =~= p0);
    }
}

/// Two complete runs of the reading loop over reads taken from the same
/// input, split in any two ways, return the same, unless the input has bytes
/// after the announced body.
pub proof fn law_read_splits_agree(reads1: Seq<Seq<u8>>, reads2: Seq<Seq<u8>>, input: Seq<u8>)
    requires
        complete_trace(reads1),
        complete_trace(reads2),
        reads_of(reads1, input),
        reads_of(reads2, input),
        parse_all(input) != Err::<RequestView, ReadFailure>(
            ReadFailure::Parse(ParseError::BodyTooLong),
        ),
    ensures
        trace_outcome(reads1) == trace_outcome(reads2),
{
    law_read_split_independence(reads1, input);
    law_read_split_independence(reads2, input);
}

/// How a request read from a stream stands after a round.
#[derive(Clone, Copy, Debug, PartialEq, Eq, Structural)]
pub enum StreamStatus {
    /// The request is not complete yet: more bytes are needed.
    NeedMore,
    /// The request is complete.
    Complete,
    /// Reading failed.
    Failed(ReadFailure),
}

/// The status that a state of the reading loop reports.
pub open spec fn stream_status(r: RequestView, f: Option<ReadFailure>) -> StreamStatus {
    match f {
        Some(e) => StreamStatus::Failed(e),
        None => if r.status == RequestState::Done {
            StreamStatus::Complete
        } else {
            StreamStatus::NeedMore
        },
    }
}

/// A request read from a stream of bytes: the request so far and the bytes
/// read but not parsed yet.
#[derive(Debug)]
pub struct RequestStream {
    pub request: Request,
    pub pending: Vec<u8>,
}

/// Appends the bytes `s` to `v`.
fn append_bytes(v: &mut Vec<u8>, s: &[u8])
    ensures
        final(v)@ == old(v)@ + s@,
{
    let mut i: usize = 0;
    while i < s.len()
        invariant
            i <= s@.len(),
            v@ == old(v)@ + s@.take(i as int),
        decreases s@.len() - i,
    {
        v.push(s[i]);
        i = i + 1;
        assert(v@ =~= old(v)@ + s@.take(i as int));
    }
    assert(s@.take(s@.len() as int) =~= s@);
}

impl RequestStream {
    /// A stream with nothing read yet.
    pub fn new() -> (s: Self)
        ensures
            s.request@ == initial_request(),
            s.pending@ == Seq::<u8>::empty(),
    {
        RequestStream { request: Request::new(), pending: Vec::new() }
    }

    /// Takes the bytes of one read, an empty `chunk` meaning that the stream
    /// ended, and runs one round of the reading loop on them. Returns whether
    /// the request is complete, has failed, or needs more bytes.
    pub fn push(&mut self, chunk: &[u8]) -> (s: StreamStatus)
        ensures
            ({
                let (r, p, f) = stream_step(old(self).request@, old(self).pending@, chunk@);
                &&& final(self).request@ == r
                &&& final(self).pending@ == p
                &&& s == stream_status(r, f)
            }),
    {
        if chunk.len() > 0 {
            append_bytes(&mut self.pending, chunk);
            let ghost data = self.pending@;
            let parsed = self.request.parse(self.pending.as_slice());
            match parsed {
                Err(e) => {
                    return StreamStatus::Failed(ReadFailure::Parse(e));
                },
                Ok(n) => {
                    let rest = self.pending.split_off(n);
                    self.pending = rest;
                    assert(self.pending@ =~= data.skip(n as int));
                },
            }
            if self.request.status == RequestState::Done {
                StreamStatus::Complete
            } else {
                StreamStatus::NeedMore
            }
        } else {
            let ghost target = drain(old(self).request@, old(self).pending@);
            loop
                invariant
                    drain(self.request@, self.pending@) == target,
                    target == drain(old(self).request@, old(self).pending@),
                    chunk@.len() == 0,
                decreases self.pending@.len(),
            {
                if self.request.status == RequestState::Done {
                    return StreamStatus::Complete;
                }
                let ghost data = self.pending@;
                let parsed = self.request.parse(self.pending.as_slice());
                match parsed {
                    Err(e) => {
                        return StreamStatus::Failed(ReadFailure::Parse(e));
                    },
                    Ok(n) => {
                        if n == 0 {
                            if self.request.status == RequestState::Done {
                                return StreamStatus::Complete;
                            }
                            return StreamStatus::Failed(ReadFailure::Incomplete);
                        }
                        let rest = self.pending.split_off(n);
                        self.pending = rest;
                        assert(self.pending@ =~= data.skip(n as int));
                    },
                }
            }
        }
    }
}

/// Why `request_from_reader` returned no request.
#[derive(Debug)]
pub enum RequestError {
    /// The bytes read do not form a request.
    Failed(ReadFailure),
    /// The reader reported an error.
    Io(std::io::Error),
    /// More bytes arrived than a `usize` can count.
    TooLong,
}

impl RequestError {
    /// The message that describes the error; a reader's own error is
    /// described by that error itself.
    pub fn message(&self) -> (m: &'static str)
        ensures
            m@ == request_error_message(self),
    {
        match self {
            RequestError::Failed(ReadFailure::Parse(e)) => e.message(),
            RequestError::Failed(ReadFailure::Incomplete) => "could not finish parsing request",
            RequestError::Io(_) => "read error",
            RequestError::TooLong => "request too long",
        }
    }
}

/// The message of each request error.
pub open spec fn request_error_message(e: &RequestError) -> Seq<char> {
    match e {
        RequestError::Failed(ReadFailure::Parse(p)) => parse_error_message(*p),
        RequestError::Failed(ReadFailure::Incomplete) => "could not finish parsing request"@,
        RequestError::Io(_) => "read error"@,
        RequestError::TooLong => "request too long"@,
    }
}

/// `std::io::Error`, the error a reader reports; it is carried through
/// without being looked into.
#[verifier::external_type_specification]
#[verifier::external_body]
pub struct ExIoError(std::io::Error);

/// Reads from `reader` into `buf[start..]` with one call of
/// `std::io::Read::read`. The contract states what the trait documents of
/// every implementation: a count `n` with `n <= buf.len() - start`. Which
/// bytes arrive, and whether an error comes, depends on the reader and is not
/// stated; the bytes before `start` and the length of `buf` are untouched,
/// since only the tail slice is lent to the reader.
#[verifier::external_body]
fn read_into<R: std::io::Read>(reader: &mut R, buf: &mut Vec<u8>, start: usize) -> (r: Result<
    usize,
    std::io::Error,
>)
    requires
        start <= old(buf)@.len(),
    ensures
        final(buf)@.len() == old(buf)@.len(),
        final(buf)@.take(start as int) == old(buf)@.take(start as int),
        r matches Ok(n) ==> n <= old(buf)@.len() - start,
{
    reader.read(&mut buf[start..])
}

/// Reads a request from `reader`. Each read asks for as many bytes as fit a
/// buffer that holds the unparsed bytes and grows by 8 bytes when full
/// (`read_space`); each read is a round of `RequestStream::push`. Reading
/// stops when the request is done or has failed; a read that returns no
/// bytes ends the stream.
///
/// Which bytes arrive is up to the reader, so the contract speaks of them as
/// some sequence of reads: a request or a failure is what `trace_outcome`
/// gives for a complete trace of the loop, each read no longer than the loop
/// asked for; a reader error or an overlong stream comes while the loop is
/// still reading such reads.
pub fn request_from_reader<R: std::io::BufRead>(mut reader: R) -> (r: Result<Request, RequestError>)
    ensures
        r matches Ok(req) ==> exists|reads: Seq<Seq<u8>>|
            complete_trace(reads) && reads_fit(reads) && trace_outcome(reads) == Ok::<
                RequestView,
                ReadFailure,
            >(req@),
        r matches Ok(req) ==> req@.status == RequestState::Done && req@.body.len()
            == content_length(req@.fields),
        r matches Err(RequestError::Io(_)) ==> exists|reads: Seq<Seq<u8>>|
            still_reading(reads) && reads_fit(reads),
        r matches Err(RequestError::TooLong) ==> exists|reads: Seq<Seq<u8>>|
            still_reading(reads) && reads_fit(reads) && total_len(reads) + 8 > usize::MAX,
        r matches Err(RequestError::Failed(f)) ==> exists|reads: Seq<Seq<u8>>|
            complete_trace(reads) && reads_fit(reads) && trace_outcome(reads) == Err::<
                RequestView,
                ReadFailure,
            >(f),
{
    let mut stream = RequestStream::new();
    let chunk_size: usize = 8;
    let mut buffer_len: usize = chunk_size;
    let mut total_read: usize = 0;
    let ghost mut reads: Seq<Seq<u8>> = seq![];
    assert(stream.pending@ =~= Seq::<u8>::empty());
    assert(trace_buffer_len(reads) == 8) by {
        reveal(trace_buffer_len);
    }
    loop
        invariant
            stream.pending@.len() <= buffer_len,
            chunk_size == 8,
            stream_run(reads) == (stream.request@, stream.pending@, None::<ReadFailure>),
            forall|j: int| 0 <= j <= reads.len() ==> continues(#[trigger] reads.take(j)),
            total_read == total_len(reads),
            buffer_len == trace_buffer_len(reads),
            reads_fit(reads),
        decreases usize::MAX - total_read,
    {
        assert(reads.take(reads.len() as int) =~= reads);
        assert(still_reading(reads));
        if stream.pending.len() >= buffer_len {
            if buffer_len > usize::MAX - chunk_size {
                proof {
                    lemma_pending_len(reads);
                }
                return Err(RequestError::TooLong);
            }
            buffer_len = buffer_len + chunk_size;
        }
        let before = stream.pending.len();
        let space: usize = buffer_len - before;
        assert(space == read_space(reads)) by {
            reveal(read_space);
        }
        let mut buf: Vec<u8> = vec![0u8; space];
        let bytes_read = match read_into(&mut reader, &mut buf, 0) {
            Ok(n) => n,
            Err(e) => {
                return Err(RequestError::Io(e));
            },
        };
        let chunk = vstd::slice::slice_subrange(buf.as_slice(), 0, bytes_read);
        let ghost prev_reads = reads;
        proof {
            reads = reads.push(chunk@);
            assert(reads.drop_last() =~= prev_reads);
            lemma_reads_fit_push(prev_reads, chunk@);
            lemma_buffer_len_push(prev_reads, chunk@);
            lemma_stream_run_push(prev_reads, chunk@);
            lemma_parse_count_bounded(stream.request@, stream.pending@ + chunk@);
        }
        let status = stream.push(chunk);
        match status {
            StreamStatus::Complete => {
                proof {
                    lemma_trace_ends(reads);
                    lemma_stream_run_invariant(reads);
                }
                return Ok(stream.request);
            },
            StreamStatus::Failed(f) => {
                proof {
                    lemma_trace_ends(reads);
                }
                return Err(RequestError::Failed(f));
            },
            StreamStatus::NeedMore => {},
        }
        proof {
            assert(continues(reads));
            assert(bytes_read > 0);
            assert(total_len(reads) == total_read + bytes_read);
            assert forall|j: int| 0 <= j <= reads.len() implies continues(#[trigger] reads.take(j)) by {
                if j < reads.len() {
                    assert(reads.take(j) =~= prev_reads.take(j));
                } else {
                    assert(reads.take(j) =~= reads);
                }
            }
        }
        buffer_len = buffer_len - (before + bytes_read - stream.pending.len());
        assert(buffer_len == trace_buffer_len(reads));
        if total_read > usize::MAX - bytes_read {
            assert(still_reading(reads) && total_len(reads) + 8 > usize::MAX);
            return Err(RequestError::TooLong);
        }
        total_read = total_read + bytes_read;
    }
}

/// Repeated parse steps keep the request invariant and leave no more bytes
/// than they were given.
proof fn lemma_drain_facts(r: RequestView, x: Seq<u8>)
    ensures
        request_invariant(r) ==> request_invariant(drain(r, x).0),
        drain(r, x).1.len() <= x.len(),
    decreases x.len(),
{
    law_request_invariant(r, x);
    lemma_parse_count_bounded(r, x);
    if r.status != RequestState::Done {
        let (r2, res) = parse_request_bytes(r, x);
        if let Ok(n) = res {
            if 0 < n && n <= x.len() {
                lemma_drain_facts(r2, x.skip(n as int));
            }
        }
    }
}

/// Every request the reading loop holds satisfies the request invariant.
pub proof fn lemma_stream_run_invariant(reads: Seq<Seq<u8>>)
    ensures
        request_invariant(stream_run(reads).0),
    decreases reads.len(),
{
    if reads.len() > 0 {
        lemma_stream_run_invariant(reads.drop_last());
        let (r, p, f) = stream_run(reads.drop_last());
        law_request_invariant(r, p + reads.last());
        lemma_drain_facts(r, p);
    } else {
        law_request_invariant(initial_request(), seq![]);
    }
}

/// The unparsed bytes are some of the bytes read.
proof fn lemma_pending_len(reads: Seq<Seq<u8>>)
    ensures
        stream_run(reads).1.len() <= total_len(reads),
    decreases reads.len(),
{
    if reads.len() > 0 {
        lemma_pending_len(reads.drop_last());
        let (r, p, f) = stream_run(reads.drop_last());
        lemma_parse_count_bounded(r, p + reads.last());
        lemma_drain_facts(r, p);
    }
}

/// One more read extends the run by one round.
proof fn lemma_stream_run_push(prev: Seq<Seq<u8>>, chunk: Seq<u8>)
    requires
        stream_run(prev).2 is None,
    ensures
        stream_run(prev.push(chunk)) == stream_step(stream_run(prev).0, stream_run(prev).1, chunk),
{
    assert(prev.push(chunk).drop_last() =~= prev);
}

/// One more read sets the buffer length by the rule of `trace_buffer_len`.
proof fn lemma_buffer_len_push(prev: Seq<Seq<u8>>, chunk: Seq<u8>)
    ensures
        trace_buffer_len(prev.push(chunk)) == grown_len(
            trace_buffer_len(prev),
            stream_run(prev).1.len(),
        ) - (stream_run(prev).1.len() + chunk.len() - stream_run(prev.push(chunk)).1.len()),
{
    reveal(trace_buffer_len);
    assert(prev.push(chunk).drop_last() =~= prev);
}

/// A read of no more than the loop asked for keeps the reads fitting.
proof fn lemma_reads_fit_push(prev: Seq<Seq<u8>>, chunk: Seq<u8>)
    requires
        reads_fit(prev),
        chunk.len() <= read_space(prev),
    ensures
        reads_fit(prev.push(chunk)),
{
    let reads = prev.push(chunk);
    assert forall|j: int| 0 <= j < reads.len() implies #[trigger] reads[j].len() <= read_space(
        reads.take(j),
    ) by {
        if j < prev.len() {
            assert(reads.take(j) =~= prev.take(j));
        } else {
            assert(reads.take(j) =~= prev);
        }
    }
}

/// A loop that stops after `reads` has made a complete trace of them.
proof fn lemma_trace_ends(reads: Seq<Seq<u8>>)
    requires
        reads.len() > 0,
        forall|j: int| 0 <= j < reads.len() ==> continues(#[trigger] reads.drop_last().take(j)),
        !continues(reads),
    ensures
        complete_trace(reads),
{
    assert forall|j: int| 0 <= j < reads.len() implies continues(#[trigger] reads.take(j)) by {
        assert(reads.take(j) =~= reads.drop_last().take(j));
        assert(continues(reads.drop_last().take(j)));
    }
}

} // verus!
