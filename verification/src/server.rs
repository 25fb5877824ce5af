//! What the server answers: the routing of a request target and the
//! responses it leads to, written through a `Writer`. The network side (the
//! listener, the connections, the upstream fetch and the file read) is left
//! to the caller, which hands the results in as plain values.

use vstd::prelude::*;
use vstd::utf8::*;

use crate::headers::{
    insert_field, law_lookup_after_insert, law_lookup_other_after_insert, lookup, Fields, Headers,
};
use crate::response::{
    chunk_bytes, header_block, last_chunk_bytes, next_state, status_line_text, trailer_lines,
    StatusCode, WriteError, Writer, WriterOp, WriterState,
};
use crate::text::{
    ascii_lowercase, chars_eq, decimal, hex_string, law_decimal_parse_roundtrip, lowercase,
    parse_usize, push_decimal, split_on, string_chars,
    string_from_chars, sub_vec, to_hex_string,
};

verus! {

/// The handler a request target leads to.
#[derive(Debug, PartialEq, Eq)]
pub enum Route {
    /// `/httpbin` followed by this path: relayed from `https://httpbin.org`.
    Proxy(String),
    /// `/yourproblem`: a 400 page.
    YourProblem,
    /// `/myproblem`: a 500 page.
    MyProblem,
    /// `/video`: the video file.
    Video,
    /// Anything else: a 200 page.
    Success,
}

/// The abstract form of a route.
pub ghost enum RouteView {
    Proxy(Seq<char>),
    YourProblem,
    MyProblem,
    Video,
    Success,
}

impl View for Route {
    type V = RouteView;

    open spec fn view(&self) -> RouteView {
        match self {
            Route::Proxy(p) => RouteView::Proxy(p@),
            Route::YourProblem => RouteView::YourProblem,
            Route::MyProblem => RouteView::MyProblem,
            Route::Video => RouteView::Video,
            Route::Success => RouteView::Success,
        }
    }
}

/// `/httpbin`, the prefix of proxied targets.
pub open spec fn proxy_prefix() -> Seq<char> {
    seq!['/', 'h', 't', 't', 'p', 'b', 'i', 'n']
}

/// The route of a request target: a proxied path after `/httpbin` first,
/// then the three fixed targets, else the success page.
pub open spec fn route_of(target: Seq<char>) -> RouteView {
    if target.len() >= 8 && target.take(8) == proxy_prefix() {
        RouteView::Proxy(target.skip(8))
    } else if target == seq!['/', 'y', 'o', 'u', 'r', 'p', 'r', 'o', 'b', 'l', 'e', 'm'] {
        RouteView::YourProblem
    } else if target == seq!['/', 'm', 'y', 'p', 'r', 'o', 'b', 'l', 'e', 'm'] {
        RouteView::MyProblem
    } else if target == seq!['/', 'v', 'i', 'd', 'e', 'o'] {
        RouteView::Video
    } else {
        RouteView::Success
    }
}

/// Chooses the handler for a request target.
pub fn route(target: &String) -> (r: Route)
    ensures
        r@ == route_of(target@),
{
    let t = string_chars(target);
    let prefix = ['/', 'h', 't', 't', 'p', 'b', 'i', 'n'];
    assert(prefix@ =~= proxy_prefix());
    if t.len() >= 8 {
        let head = sub_vec(&t, 0, 8);
        assert(head@ =~= t@.take(8));
        if chars_eq(head.as_slice(), prefix.as_slice()) {
            let rest = sub_vec(&t, 8, t.len());
            assert(rest@ =~= t@.skip(8));
            return Route::Proxy(string_from_chars(rest.as_slice()));
        }
    }
    let yours = ['/', 'y', 'o', 'u', 'r', 'p', 'r', 'o', 'b', 'l', 'e', 'm'];
    let mine = ['/', 'm', 'y', 'p', 'r', 'o', 'b', 'l', 'e', 'm'];
    let video = ['/', 'v', 'i', 'd', 'e', 'o'];
    assert(yours@ =~= seq!['/', 'y', 'o', 'u', 'r', 'p', 'r', 'o', 'b', 'l', 'e', 'm']);
    assert(mine@ =~= seq!['/', 'm', 'y', 'p', 'r', 'o', 'b', 'l', 'e', 'm']);
    assert(video@ =~= seq!['/', 'v', 'i', 'd', 'e', 'o']);
    if chars_eq(t.as_slice(), yours.as_slice()) {
        Route::YourProblem
    } else if chars_eq(t.as_slice(), mine.as_slice()) {
        Route::MyProblem
    } else if chars_eq(t.as_slice(), video.as_slice()) {
        Route::Video
    } else {
        Route::Success
    }
}

/// The fields of a complete response: `Content-Type`, `Content-Length` and
/// `Connection: close`, in that order.
pub open spec fn response_fields(content_type: Seq<char>, content_len: nat) -> Fields {
    insert_field(
        insert_field(
            insert_field(seq![], lowercase("Content-Type"@), content_type),
            lowercase("Content-Length"@),
            decimal(content_len),
        ),
        lowercase("Connection"@),
        "close"@,
    )
}

/// The bytes of a complete response.
pub open spec fn response_bytes(status: StatusCode, content_type: Seq<char>, body: Seq<u8>) -> Seq<
    u8,
> {
    encode_utf8(status_line_text(status)) + header_block(response_fields(content_type, body.len()))
        + body
}

/// The three field names of a response, lowercased as `str::to_lowercase`
/// lowercases them, are `content-type`, `content-length` and `connection`.
pub open spec fn response_names_lowercased() -> bool {
    &&& lowercase("Content-Type"@) == "content-type"@
    &&& lowercase("Content-Length"@) == "content-length"@
    &&& lowercase("Connection"@) == "connection"@
}

/// The fields of a response announce its content type and, as a decimal
/// number that parses back to it, the length of its body.
proof fn lemma_response_fields_lookup(content_type: Seq<char>, content_len: nat)
    requires
        response_names_lowercased(),
    ensures
        lookup(response_fields(content_type, content_len), "content-type"@) == Some(content_type),
        lookup(response_fields(content_type, content_len), "content-length"@) == Some(
            decimal(content_len),
        ),
{
    reveal_strlit("content-type");
    reveal_strlit("content-length");
    reveal_strlit("connection");
    let ct = "content-type"@;
    let cl = "content-length"@;
    let cn = "connection"@;
    assert(ct != cl && ct != cn && cl != cn) by {
        assert(ct.len() != cl.len() && ct.len() != cn.len() && cl.len() != cn.len());
    }
    let e0 = Seq::<(Seq<char>, Seq<char>)>::empty();
    let e1 = insert_field(e0, ct, content_type);
    let e2 = insert_field(e1, cl, decimal(content_len));
    law_lookup_after_insert(e0, ct, content_type);
    law_lookup_other_after_insert(e1, cl, decimal(content_len), ct);
    law_lookup_other_after_insert(e2, cn, "close"@, ct);
    law_lookup_other_after_insert(e0, ct, content_type, cl);
    law_lookup_after_insert(e1, cl, decimal(content_len));
    law_lookup_other_after_insert(e2, cn, "close"@, cl);
}

/// `to_lowercase` gives the lowercase field names of a response.
proof fn lemma_response_names(a: Seq<char>, b: Seq<char>, c: Seq<char>)
    requires
        a == "Content-Type"@,
        b == "Content-Length"@,
        c == "Connection"@,
        is_ascii_chars(a) ==> lowercase(a) == ascii_lowercase(a),
        is_ascii_chars(b) ==> lowercase(b) == ascii_lowercase(b),
        is_ascii_chars(c) ==> lowercase(c) == ascii_lowercase(c),
    ensures
        response_names_lowercased(),
{
    reveal_strlit("Content-Type");
    reveal_strlit("Content-Length");
    reveal_strlit("Connection");
    reveal_strlit("content-type");
    reveal_strlit("content-length");
    reveal_strlit("connection");
    assert(ascii_lowercase(a) =~= "content-type"@);
    assert(ascii_lowercase(b) =~= "content-length"@);
    assert(ascii_lowercase(c) =~= "connection"@);
}

/// Writes a complete response: status line, the fields of
/// `response_fields`, and the body. On a fresh writer it succeeds and the
/// response is done; otherwise the status line is refused and nothing is
/// written.
pub fn write_response(w: &mut Writer, status: StatusCode, content_type: &str, body: &[u8]) -> (r:
    Result<(), WriteError>)
    ensures
        old(w).state == WriterState::Empty ==> r is Ok && final(w).state == WriterState::Done
            && final(w).stream@ == old(w).stream@ + response_bytes(status, content_type@, body@),
        old(w).state != WriterState::Empty ==> r == Err::<(), WriteError>(
            WriteError::StatusLineAlreadyWritten,
        ) && final(w).state == old(w).state && final(w).stream@ == old(w).stream@,
        old(w).state == WriterState::Empty ==> exists|f: Fields|
            #![trigger header_block(f)]
            {
                &&& final(w).stream@ == old(w).stream@ + encode_utf8(status_line_text(status))
                    + header_block(f) + body@
                &&& lookup(f, "content-type"@) == Some(content_type@)
                &&& lookup(f, "content-length"@) is Some
                &&& parse_usize(lookup(f, "content-length"@)->Some_0) == Some(body@.len() as usize)
            },
{
    let mut headers = Headers::new();
    let ct_name = "Content-Type".to_owned();
    let cl_name = "Content-Length".to_owned();
    let cn_name = "Connection".to_owned();
    let ghost names = (ct_name@, cl_name@, cn_name@);
    headers.insert(ct_name, content_type.to_owned());
    let mut digits: Vec<char> = Vec::new();
    push_decimal(body.len(), &mut digits);
    assert(digits@ =~= decimal(body@.len()));
    headers.insert(cl_name, string_from_chars(digits.as_slice()));
    headers.insert(cn_name, "close".to_owned());
    assert(headers@ == response_fields(content_type@, body@.len()));
    proof {
        lemma_response_names(names.0, names.1, names.2);
        lemma_response_fields_lookup(content_type@, body@.len());
        law_decimal_parse_roundtrip(body.len());
    }
    w.write_status_line(status)?;
    w.write_headers(headers)?;
    w.write_body(body)?;
    assert(w.stream@ =~= old(w).stream@ + response_bytes(status, content_type@, body@));
    assert(w.stream@ == old(w).stream@ + encode_utf8(status_line_text(status)) + header_block(
        response_fields(content_type@, body@.len()),
    ) + body@);
    Ok(())
}


/// The body of the 400 page.
pub open spec fn bad_request_page() -> Seq<char> {
    "<html>
  <head>
    <title>400 Bad Request</title>
  </head>
  <body>
    <h1>Bad Request</h1>
    <p>Your request honestly kinda sucked.</p>
  </body>
</html>"@
}

/// The body of the 500 page.
pub open spec fn server_error_page() -> Seq<char> {
    "<html>
  <head>
    <title>500 Internal Server Error</title>
  </head>
  <body>
    <h1>Internal Server Error</h1>
    <p>Okay, you know what? This one is on me.</p>
  </body>
</html>"@
}

/// The body of the 200 page.
pub open spec fn success_page() -> Seq<char> {
    "<html>
  <head>
    <title>200 OK</title>
  </head>
  <body>
    <h1>Success!</h1>
    <p>Your request was an absolute banger.</p>
  </body>
</html>"@
}

/// The status and HTML body of each fixed page; other routes have none.
pub open spec fn page_of(route: RouteView) -> Option<(StatusCode, Seq<char>)> {
    match route {
        RouteView::YourProblem => Some((StatusCode::ClientError, bad_request_page())),
        RouteView::MyProblem => Some((StatusCode::ServerError, server_error_page())),
        RouteView::Success => Some((StatusCode::Success, success_page())),
        _ => None,
    }
}

/// The status and HTML body of the fixed page of a route.
pub fn page(route: &Route) -> (r: Option<(StatusCode, &'static str)>)
    ensures
        match page_of(route@) {
            Some((status, body)) => r matches Some((s, b)) && s == status && b@ == body,
            None => r is None,
        },
{
    match route {
        Route::YourProblem => Some(
            (
                StatusCode::ClientError,
                "<html>
  <head>
    <title>400 Bad Request</title>
  </head>
  <body>
    <h1>Bad Request</h1>
    <p>Your request honestly kinda sucked.</p>
  </body>
</html>",
            ),
        ),
        Route::MyProblem => Some(
            (
                StatusCode::ServerError,
                "<html>
  <head>
    <title>500 Internal Server Error</title>
  </head>
  <body>
    <h1>Internal Server Error</h1>
    <p>Okay, you know what? This one is on me.</p>
  </body>
</html>",
            ),
        ),
        Route::Success => Some(
            (
                StatusCode::Success,
                "<html>
  <head>
    <title>200 OK</title>
  </head>
  <body>
    <h1>Success!</h1>
    <p>Your request was an absolute banger.</p>
  </body>
</html>",
            ),
        ),
        _ => None,
    }
}

/// Writes the fixed page of a route as a complete `text/html` response.
/// Routes without a fixed page write nothing and return `Ok(false)`.
pub fn write_page(w: &mut Writer, route: &Route) -> (r: Result<bool, WriteError>)
    ensures
        match page_of(route@) {
            None => r == Ok::<bool, WriteError>(false) && final(w).state == old(w).state && final(w).stream@ == old(w).stream@,
            Some((status, body)) => if old(w).state == WriterState::Empty {
                r == Ok::<bool, WriteError>(true) && final(w).state == WriterState::Done && final(w).stream@ == old(w).stream@ + response_bytes(
                    status,
                    "text/html"@,
                    encode_utf8(body),
                )
            } else {
                r == Err::<bool, WriteError>(WriteError::StatusLineAlreadyWritten) && final(w).state == old(w).state && final(w).stream@ == old(w).stream@
            },
        },
{
    match page(route) {
        Some((status, body)) => {
            write_response(w, status, "text/html", body.as_bytes())?;
            Ok(true)
        },
        None => Ok(false),
    }
}

/// Writes the answer to a request that could not be parsed: status 400, no
/// fields, and the message as the body.
pub fn write_bad_request(w: &mut Writer, message: &str) -> (r: Result<(), WriteError>)
    ensures
        old(w).state == WriterState::Empty ==> r is Ok && final(w).state == WriterState::Done
            && final(w).stream@ == old(w).stream@ + encode_utf8(
            status_line_text(StatusCode::ClientError),
        ) + header_block(seq![]) + encode_utf8(message@),
        old(w).state != WriterState::Empty ==> r == Err::<(), WriteError>(
            WriteError::StatusLineAlreadyWritten,
        ) && final(w).state == old(w).state && final(w).stream@ == old(w).stream@,
{
    let headers = Headers::new();
    w.write_status_line(StatusCode::ClientError)?;
    w.write_headers(headers)?;
    w.write_body(message.as_bytes())?;
    Ok(())
}


/// `/html`, the proxied path whose response announces trailers.
pub open spec fn html_path() -> Seq<char> {
    seq!['/', 'h', 't', 'm', 'l']
}

/// The fields of a proxied response: the upstream content type (or
/// `application/octet-stream`), `Transfer-Encoding: chunked` and
/// `Connection: close`; for `/html` also a `Trailer` field announcing
/// `X-Content-SHA256` and `X-Content-Length`.
pub open spec fn proxy_fields(path: Seq<char>, content_type: Option<Seq<char>>) -> Fields {
    let ct = match content_type {
        Some(c) => c,
        None => "application/octet-stream"@,
    };
    let e = insert_field(
        insert_field(
            insert_field(seq![], lowercase("Content-Type"@), ct),
            lowercase("Transfer-Encoding"@),
            "chunked"@,
        ),
        lowercase("Connection"@),
        "close"@,
    );
    if path == html_path() {
        insert_field(e, lowercase("Trailer"@), "X-Content-SHA256, X-Content-Length"@)
    } else {
        e
    }
}

/// The view of an optional string.
pub open spec fn opt_view(o: Option<String>) -> Option<Seq<char>> {
    match o {
        Some(s) => Some(s@),
        None => None,
    }
}

/// Builds the fields of a proxied response for the path after `/httpbin`,
/// given the upstream `content-type`, if it had a readable one.
pub fn proxy_headers(path: &String, content_type: Option<String>) -> (h: Headers)
    ensures
        h@ == proxy_fields(path@, opt_view(content_type)),
{
    let ghost ct_view = opt_view(content_type);
    let ct = match content_type {
        Some(c) => c,
        None => "application/octet-stream".to_owned(),
    };
    let mut headers = Headers::new();
    headers.insert("Content-Type".to_owned(), ct);
    headers.insert("Transfer-Encoding".to_owned(), "chunked".to_owned());
    headers.insert("Connection".to_owned(), "close".to_owned());
    let p = string_chars(path);
    let html = ['/', 'h', 't', 'm', 'l'];
    assert(html@ =~= html_path());
    if chars_eq(p.as_slice(), html.as_slice()) {
        headers.insert("Trailer".to_owned(), "X-Content-SHA256, X-Content-Length".to_owned());
    }
    headers
}

/// The SHA-256 digest of a byte string, as the `sha2` crate computes it.
pub uninterp spec fn sha256(data: Seq<u8>) -> Seq<u8>;

/// A call of `sha2::Sha256::digest`. The digest is named `sha256(data)`; the
/// contract adds its length of 32 bytes, which the output type fixes. The
/// hash function itself is not stated.
#[verifier::external_body]
fn sha256_digest(data: &[u8]) -> (d: Vec<u8>)
    ensures
        d@ == sha256(data@),
        d@.len() == 32,
{
    <sha2::Sha256 as sha2::Digest>::digest(data).to_vec()
}

/// The SHA-256 digest of `data` in lowercase hexadecimal, two digits per
/// byte.
pub fn sha256_hex(data: &[u8]) -> (s: String)
    ensures
        s@ == hex_string(sha256(data@)),
{
    let digest = sha256_digest(data);
    let hex = to_hex_string(&digest);
    string_from_chars(hex.as_slice())
}

/// The trailer fields of a proxied body: its SHA-256 digest in lowercase
/// hexadecimal and its length in decimal.
pub open spec fn proxy_trailer_fields(body: Seq<u8>) -> Fields {
    insert_field(
        insert_field(seq![], lowercase("X-Content-SHA256"@), hex_string(sha256(body))),
        lowercase("X-Content-Length"@),
        decimal(body.len()),
    )
}

/// The relay of a proxied body: each upstream chunk is written as a chunk of
/// the response; when the response announces trailers, the body is kept to
/// compute them at the end.
pub struct ProxyRelay {
    pub has_trailers: bool,
    pub body: Vec<u8>,
}

impl ProxyRelay {
    /// Writes the status line (200) and `headers`, and starts the relay;
    /// trailers are kept for when `headers` has a `Trailer` field.
    pub fn start(w: &mut Writer, headers: Headers) -> (r: Result<ProxyRelay, WriteError>)
        ensures
            old(w).state == WriterState::Empty ==> {
                &&& r matches Ok(relay)
                &&& relay.has_trailers == (lookup(headers@, lowercase("trailer"@)) is Some)
                &&& relay.body@ == Seq::<u8>::empty()
                &&& final(w).state == WriterState::HeadersCompleted
                &&& final(w).stream@ == old(w).stream@ + encode_utf8(
                    status_line_text(StatusCode::Success),
                ) + header_block(headers@)
            },
            old(w).state != WriterState::Empty ==> {
                &&& r matches Err(e)
                &&& e == WriteError::StatusLineAlreadyWritten
                &&& final(w).state == old(w).state
                &&& final(w).stream@ == old(w).stream@
            },
    {
        let has_trailers = headers.get("trailer").is_some();
        w.write_status_line(StatusCode::Success)?;
        w.write_headers(headers)?;
        Ok(ProxyRelay { has_trailers, body: Vec::new() })
    }

    /// Writes one upstream chunk as a chunk of the response.
    pub fn relay(&mut self, w: &mut Writer, chunk: &[u8]) -> (r: Result<usize, WriteError>)
        ensures
            final(self).has_trailers == old(self).has_trailers,
            match next_state(old(w).state, WriterOp::ChunkedBody) {
                Some(t) => r == Ok::<usize, WriteError>(chunk@.len() as usize) && final(w).state
                    == t && final(w).stream@ == old(w).stream@ + chunk_bytes(chunk@) && final(
                    self).body@ == (if old(self).has_trailers {
                    old(self).body@ + chunk@
                } else {
                    old(self).body@
                }),
                None => r == Err::<usize, WriteError>(WriteError::HeadersMissing) && final(w).state
                    == old(w).state && final(w).stream@ == old(w).stream@ && final(self).body@
                    == old(self).body@,
            },
    {
        let n = w.write_chunked_body(chunk)?;
        if self.has_trailers {
            let ghost before = self.body@;
            let mut i: usize = 0;
            while i < chunk.len()
                invariant
                    i <= chunk@.len(),
                    self.body@ == before + chunk@.take(i as int),
                    self.has_trailers == old(self).has_trailers,
                decreases chunk@.len() - i,
            {
                self.body.push(chunk[i]);
                assert(self.body@ =~= before + chunk@.take(i + 1));
                i = i + 1;
            }
            assert(chunk@.take(i as int) =~= chunk@);
        }
        Ok(n)
    }

    /// Ends the relayed body: with trailers, writes the digest and length of
    /// the body as `proxy_trailer_fields` gives them, through
    /// `Writer::write_trailers`; without, writes the last chunk.
    pub fn finish(self, w: &mut Writer) -> (r: Result<(), WriteError>)
        ensures
            self.has_trailers ==> crate::response::trailers_effect(
                old(w).state,
                old(w).stream@,
                proxy_trailer_fields(self.body@),
            ) == (r, final(w).state, final(w).stream@),
            !self.has_trailers ==> match next_state(old(w).state, WriterOp::ChunkedBodyDone) {
                Some(t) => r is Ok && final(w).state == t && final(w).stream@ == old(w).stream@
                    + last_chunk_bytes(),
                None => r == Err::<(), WriteError>(WriteError::ChunkedBodyMissing) && final(
                    w).state == old(w).state && final(w).stream@ == old(w).stream@,
            },
    {
        if self.has_trailers {
            let hex = sha256_hex(self.body.as_slice());
            let mut len_digits: Vec<char> = Vec::new();
            push_decimal(self.body.len(), &mut len_digits);
            assert(len_digits@ =~= decimal(self.body@.len()));
            let mut trailers = Headers::new();
            trailers.insert("X-Content-SHA256".to_owned(), hex);
            trailers.insert("X-Content-Length".to_owned(), string_from_chars(len_digits.as_slice()));
            w.write_trailers(trailers)
        } else {
            match w.write_chunked_body_done() {
                Ok(_) => Ok(()),
                Err(e) => Err(e),
            }
        }
    }
}

} // verus!
