# httpfromtcp

An HTTP/1.1 request parser and response writer, verified with Verus, and a
small TCP server built on them.

## Layout

- `src/` — the verified library.
  - `text.rs`: Unicode whitespace, trimming, splitting, searching, decimal
    and hexadecimal conversion over `Seq<char>`; the lossy UTF-8 decoding and
    Unicode lowercasing of std behind named results.
  - `headers.rs`: header fields (case-insensitive names, repeated names joined
    with `", "`) and the one-line header parser.
  - `request.rs`: the request, its streaming parser, the per-read
    `RequestStream`, and `request_from_reader`, whose result is
    characterised by a trace of reads no longer than the loop asks for.
    By a proved law the outcome does not depend on how the bytes were split
    into reads, except for input with bytes after the announced body: a run
    that stops at the complete body never reads them, while the same bytes
    read at once fail as a body too long.
  - `response.rs`: the response writer state machine and its byte output.
  - `server.rs`: routing of request targets, the fixed pages, and the relay of
    proxied bodies with SHA-256 trailers.
  - `lines.rs`: assembly of lines from chunks read off a connection.
  - `utils.rs`: a reader that serves a string in bounded chunks.
- `tests/` — the test suite.
- `app/` — the programs: the HTTP server on `127.0.0.1:42069` (default), and
  the `tcplistener`, `lines` and `udpsender` tools selected by the first
  argument.
