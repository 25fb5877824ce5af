use std::io::BufReader;

use httpfromtcp::error::ParseError;
use httpfromtcp::request::{
    request_from_reader, ReadFailure, Request, RequestError, RequestState, RequestStream, StreamStatus,
};
use httpfromtcp::utils::ChunkReader;

#[test]
fn test_good_get_request_line() {
    // Given
    let data = "GET / HTTP/1.1\r\nHost: localhost:42069\r\nUser-Agent: curl/7.81.0\r\nAccept: */*\r\n\r\n";
    let reader = BufReader::new(data.as_bytes());

    // When
    let r = request_from_reader(reader);

    // Then
    assert!(r.is_ok(), "Expected Ok, got Err: {:?}", r.err());

    let r = r.unwrap();
    assert_eq!("GET", r.request_line.method);
    assert_eq!("/", r.request_line.request_target);
    assert_eq!("1.1", r.request_line.http_version);
}

#[test]
fn test_good_get_request_line_with_path() {
    // Given
    let data = "GET /coffee HTTP/1.1\r\nHost: localhost:42069\r\nUser-Agent: curl/7.81.0\r\nAccept: */*\r\n\r\n";
    let reader = BufReader::new(data.as_bytes());

    // When
    let r = request_from_reader(reader);

    // Then
    assert!(r.is_ok(), "Expected Ok, got Err: {:?}", r.err());

    let r = r.unwrap();
    assert_eq!("GET", r.request_line.method);
    assert_eq!("/coffee", r.request_line.request_target);
    assert_eq!("1.1", r.request_line.http_version);
}

#[test]
fn test_invalid_number_of_parts_in_request_line() {
    // Given
    let data = "/coffee HTTP/1.1\r\nHost: localhost:42069\r\nUser-Agent: curl/7.81.0\r\nAccept: */*\r\n\r\n";
    let reader = BufReader::new(data.as_bytes());

    // When
    let r = request_from_reader(reader);

    // Then
    assert!(r.is_err());
}

#[test]
fn test_method_non_capitalized() {
    // Given
    let data = "get / HTTP/1.1\r\nHost: localhost:42069\r\nUser-Agent: curl/7.81.0\r\nAccept: */*\r\n\r\n";
    let reader = BufReader::new(data.as_bytes());

    // When
    let r = request_from_reader(reader);

    // Then
    assert!(r.is_err());
}

#[test]
fn test_invalid_method() {
    // Given
    let data = "XXX / HTTP/1.1\r\nHost: localhost:42069\r\nUser-Agent: curl/7.81.0\r\nAccept: */*\r\n\r\n";
    let reader = BufReader::new(data.as_bytes());

    // When
    let r = request_from_reader(reader);

    // Then
    assert!(r.is_err());
}

#[test]
fn test_only_http_1_1_supported() {
    // Given
    let data = "GET / HTTP/1.0\r\nHost: localhost:42069\r\nUser-Agent: curl/7.81.0\r\nAccept: */*\r\n\r\n";
    let reader = BufReader::new(data.as_bytes());

    // When
    let r = request_from_reader(reader);

    // Then
    assert!(r.is_err());
}

#[test]
fn test_good_post_request_with_path() {
    // Given
    let data = "POST /coffee HTTP/1.1\r\nHost: localhost:42069\r\nUser-Agent: curl/7.81.0\r\nAccept: */*\r\n\r\n";
    let reader = BufReader::new(data.as_bytes());

    // When
    let r = request_from_reader(reader);

    // Then
    assert!(r.is_ok(), "Expected Ok, got Err: {:?}", r.err());

    let r = r.unwrap();
    assert_eq!("POST", r.request_line.method);
    assert_eq!("/coffee", r.request_line.request_target);
    assert_eq!("1.1", r.request_line.http_version);
}

#[test]
fn test_empty_request() {
    // Given
    let data = "";
    let reader = BufReader::new(data.as_bytes());

    // When
    let r = request_from_reader(reader);

    // Then
    assert!(r.is_err());
}

#[test]
fn test_missing_http_version() {
    // Given
    let data = "GET /\r\n";
    let reader = BufReader::new(data.as_bytes());

    // When
    let r = request_from_reader(reader);

    // Then
    assert!(r.is_err());
}

#[test]
fn test_request_with_query_params() {
    // Given
    let data = "GET /coffee?flavor=dark HTTP/1.1\r\n\r\n";
    let reader = BufReader::new(data.as_bytes());

    // When
    let r = request_from_reader(reader);

    // Then
    assert!(r.is_ok(), "Expected Ok, got Err: {:?}", r.err());

    let r = r.unwrap();
    assert_eq!("/coffee?flavor=dark", r.request_line.request_target);
}

fn assert_chunked_request_parses(chunk_size: usize) {
    // Given
    let data = "GET /coffee HTTP/1.1\r\n\r\n".to_string();

    // Simulate network reading small chunks
    let chunk_reader = ChunkReader::new(data, chunk_size);
    let reader = BufReader::new(chunk_reader);

    // When
    let r = request_from_reader(reader);

    // Then
    assert!(r.is_ok(), "Expected Ok, got Err: {:?}", r.err());

    let r = r.unwrap();
    assert_eq!(r.request_line.method, "GET");
    assert_eq!(r.request_line.request_target, "/coffee");
    assert_eq!(r.request_line.http_version, "1.1");
}

#[test]
fn test_chunk_reader_integration_one_byte_chunks() {
    assert_chunked_request_parses(1);
}

#[test]
fn test_chunk_reader_integration_three_byte_chunks() {
    assert_chunked_request_parses(3);
}

#[test]
fn test_chunk_reader_integration_chunk_as_big_as_entire_request() {
    assert_chunked_request_parses(22);
}

fn assert_incomplete_request_fails(data: &str) {
    let reader = BufReader::new(data.as_bytes());
    let r = request_from_reader(reader);
    assert!(r.is_err());
}

#[test]
fn test_incomplete_request_hangs_without_crlf() {
    assert_incomplete_request_fails("GET /coffee HTTP/1.1");
}

#[test]
fn test_incomplete_request_hangs_with_carriage_return() {
    assert_incomplete_request_fails("GET /coffee HTTP/1.1/\r");
}

#[test]
fn test_incomplete_request_hangs_with_newline() {
    assert_incomplete_request_fails("GET /coffee HTTP/1.1/\n");
}

fn assert_bytes_parsed(data: &str, expected: usize) {
    // Given
    let mut request = Request::new();

    // When
    let bytes_parsed = request.parse(data.as_bytes()).unwrap();

    // Then
    assert_eq!(bytes_parsed, expected);
}

#[test]
fn test_request_parse_no_delimiter_returns_0() {
    assert_bytes_parsed("GET", 0);
}

#[test]
fn test_request_parse_request_line_and_delimiter() {
    assert_bytes_parsed("GET / HTTP/1.1\r\n", 16);
}

#[test]
fn test_request_parse_only_parses_request_line() {
    assert_bytes_parsed(
        "POST /coffee HTTP/1.1\r\nHost: localhost:42069\r\nUser-Agent: curl/7.81.0\r\nAccept: */*\r\n\r\n",
        23,
    );
}

#[test]
fn test_standard_headers() {
    // Given
    let data = "GET / HTTP/1.1\r\nHost: localhost:42069\r\nUser-Agent: curl/7.81.0\r\nAccept: */*\r\n\r\n".to_string();
    let chunk_reader = ChunkReader::new(data, 3);
    let reader = BufReader::new(chunk_reader);

    // When
    let r = request_from_reader(reader);

    // Then
    assert!(r.is_ok(), "Expected Ok, got Err: {:?}", r.err());
    let r = r.unwrap();
    assert_eq!(r.headers.get("host"), Some(&"localhost:42069".to_string()));
    assert_eq!(
        r.headers.get("user-agent"),
        Some(&"curl/7.81.0".to_string())
    );
    assert_eq!(r.headers.get("accept"), Some(&"*/*".to_string()));
}

#[test]
fn test_malformed_header_missing_colon() {
    // Given
    let data = "GET / HTTP/1.1\r\nHost localhost:42069\r\n\r\n".to_string();
    let chunk_reader = ChunkReader::new(data, 3);
    let reader = BufReader::new(chunk_reader);

    // When
    let r = request_from_reader(reader);

    // Then
    assert!(r.is_err());
}

#[test]
fn test_request_with_no_headers() {
    // Given
    let data = "GET / HTTP/1.1\r\n\r\n";
    let reader = BufReader::new(data.as_bytes());

    // When
    let r = request_from_reader(reader);

    // Then
    assert!(r.is_ok(), "Expected Ok, got Err: {:?}", r.err());
    let r = r.unwrap();
    assert_eq!(r.request_line.method, "GET");
    assert_eq!(r.headers.inner.len(), 0); // No headers
}

#[test]
fn test_request_missing_end_of_headers() {
    // Given
    let data = "GET / HTTP/1.1\r\nHost: localhost:42069\r\nUser-Agent: curl\r\n";
    let reader = BufReader::new(data.as_bytes());

    // When
    let r = request_from_reader(reader);

    // Then
    assert!(r.is_err()); // Should fail because headers never terminate
}

#[test]
fn test_request_with_very_long_header_value() {
    // Given
    let long_value = "a".repeat(1000);
    let data = format!("GET / HTTP/1.1\r\nX-Long-Header: {}\r\n\r\n", long_value);
    let reader = BufReader::new(data.as_bytes());

    // When
    let r = request_from_reader(reader);

    // Then
    assert!(r.is_ok(), "Expected Ok, got Err: {:?}", r.err());
    let r = r.unwrap();
    assert_eq!(r.headers.get("x-long-header"), Some(&long_value));
}

#[test]
fn test_request_with_duplicate_headers_integration() {
    // Given
    let data = "GET / HTTP/1.1\r\nSet-Cookie: session=abc\r\nSet-Cookie: token=xyz\r\n\r\n";
    let reader = BufReader::new(data.as_bytes());

    // When
    let r = request_from_reader(reader);

    // Then
    assert!(r.is_ok(), "Expected Ok, got Err: {:?}", r.err());
    let r = r.unwrap();
    assert_eq!(
        r.headers.get("set-cookie"),
        Some(&"session=abc, token=xyz".to_string())
    );
}

#[test]
fn test_request_with_empty_header_value() {
    // Given
    let data = "GET / HTTP/1.1\r\nX-Empty:\r\n\r\n";
    let reader = BufReader::new(data.as_bytes());

    // When
    let r = request_from_reader(reader);

    // Then
    assert!(r.is_ok(), "Expected Ok, got Err: {:?}", r.err());
    let r = r.unwrap();
    assert_eq!(r.headers.get("x-empty"), Some(&"".to_string()));
}

#[test]
fn test_request_header_with_only_spaces_in_value() {
    // Given
    let data = "GET / HTTP/1.1\r\nX-Spaces:     \r\n\r\n";
    let reader = BufReader::new(data.as_bytes());

    // When
    let r = request_from_reader(reader);

    // Then
    assert!(r.is_ok(), "Expected Ok, got Err: {:?}", r.err());
    let r = r.unwrap();
    assert_eq!(r.headers.get("x-spaces"), Some(&"".to_string()));
}

#[test]
fn test_standard_body() {
    // Given
    let data = "POST /submit HTTP/1.1\r\n\
Host: localhost:42069\r\n\
Content-Length: 13\r\n\
\r\n\
hello world!\n"
        .to_string();
    let chunk_reader = ChunkReader::new(data, 3);
    let reader = BufReader::new(chunk_reader);

    // When
    let r = request_from_reader(reader);

    // Then
    assert!(r.is_ok(), "Expected Ok, got Err: {:?}", r.err());
    let r = r.unwrap();
    assert_eq!("hello world!\n", String::from_utf8_lossy(&r.body));
}

#[test]
fn test_body_shorter_than_reported_content_length() {
    // Given
    let data = "POST /submit HTTP/1.1\r\n\
Host: localhost:42069\r\n\
Content-Length: 20\r\n\
\r\n\
partial content"
        .to_string();
    let chunk_reader = ChunkReader::new(data, 3);
    let reader = BufReader::new(chunk_reader);

    // When
    let r = request_from_reader(reader);

    // Then
    assert!(r.is_err()); // Should fail because body is shorter than Content-Length
}

#[test]
fn test_body_longer_than_reported_content_length() {
    // Given
    let data = "POST /submit HTTP/1.1\r\n\
Host: localhost:42069\r\n\
Content-Length: 1\r\n\
\r\n\
content exceeding provided content length\n"
        .to_string();
    let chunk_reader = ChunkReader::new(data, 3);
    let reader = BufReader::new(chunk_reader);

    // When
    let r = request_from_reader(reader);

    // Then
    assert!(r.is_err()); // Should fail because body is longer than Content-Length
}

#[test]
fn request_errors_name_their_cause() {
    let r = request_from_reader(BufReader::new("GET /\r\n".as_bytes()));
    match r {
        Err(RequestError::Failed(ReadFailure::Parse(e))) => {
            assert_eq!(e, ParseError::WrongNumberOfParts);
            assert_eq!(e.message(), "more than 3 elements to parse");
        }
        other => panic!("unexpected result {:?}", other.err()),
    }
    let r = request_from_reader(BufReader::new("GET / HTTP/1.0\r\n\r\n".as_bytes()));
    assert!(matches!(
        r,
        Err(RequestError::Failed(ReadFailure::Parse(ParseError::UnsupportedVersion)))
    ));
    let r = request_from_reader(BufReader::new("GET / FTP/1.1\r\n\r\n".as_bytes()));
    assert!(matches!(
        r,
        Err(RequestError::Failed(ReadFailure::Parse(ParseError::MissingHttpPrefix)))
    ));
    let r = request_from_reader(BufReader::new("BREW / HTTP/1.1\r\n\r\n".as_bytes()));
    assert!(matches!(
        r,
        Err(RequestError::Failed(ReadFailure::Parse(ParseError::InvalidMethod)))
    ));
    let r = request_from_reader(BufReader::new("".as_bytes()));
    match r {
        Err(e) => {
            assert!(matches!(e, RequestError::Failed(ReadFailure::Incomplete)));
            assert_eq!(e.message(), "could not finish parsing request");
        }
        Ok(_) => panic!("empty input parsed"),
    }
}

#[test]
fn request_parse_states_progress() {
    let mut request = Request::new();
    assert_eq!(request.status, RequestState::Initialized);
    assert_eq!(request.parse(b"PUT /x HTTP/1.1\r\n"), Ok(17));
    assert_eq!(request.status, RequestState::ParsingHeaders);
    assert_eq!(request.parse(b"Content-Length: 3\r\n"), Ok(19));
    assert_eq!(request.parse(b"\r\n"), Ok(2));
    assert_eq!(request.status, RequestState::ParsingBody);
    assert_eq!(request.parse(b"ab"), Ok(2));
    assert_eq!(request.status, RequestState::ParsingBody);
    assert_eq!(request.parse(b"c"), Ok(1));
    assert_eq!(request.status, RequestState::Done);
    assert_eq!(request.body, b"abc".to_vec());
    assert_eq!(request.parse(b"more"), Err(ParseError::AlreadyDone));
}

#[test]
fn request_body_longer_in_one_slice_is_an_error() {
    let mut request = Request::new();
    request.parse(b"POST / HTTP/1.1\r\n").unwrap();
    request.parse(b"Content-Length: 2\r\n").unwrap();
    request.parse(b"\r\n").unwrap();
    assert_eq!(request.parse(b"abc"), Err(ParseError::BodyTooLong));
    assert_eq!(request.status, RequestState::Done);
    assert_eq!(request.body, b"ab".to_vec());
}

#[test]
fn request_unparsable_content_length_means_no_body() {
    let mut request = Request::new();
    request.parse(b"POST / HTTP/1.1\r\n").unwrap();
    request.parse(b"Content-Length: ten\r\n").unwrap();
    request.parse(b"\r\n").unwrap();
    assert_eq!(request.status, RequestState::Done);
}

#[test]
fn request_content_length_with_plus_sign() {
    let mut request = Request::new();
    request.parse(b"POST / HTTP/1.1\r\n").unwrap();
    request.parse(b"Content-Length: +1\r\n").unwrap();
    request.parse(b"\r\n").unwrap();
    assert_eq!(request.status, RequestState::ParsingBody);
}

#[test]
fn request_default_is_initialized() {
    let request = Request::default();
    assert_eq!(request.status, RequestState::Initialized);
    assert_eq!(request.request_line.method, "");
}

#[test]
fn request_line_with_extra_whitespace() {
    let mut request = Request::new();
    assert_eq!(request.parse(b"  GET\t/a   HTTP/1.1 \r\n"), Ok(22));
    assert_eq!(request.request_line.method, "GET");
    assert_eq!(request.request_line.request_target, "/a");
}

#[test]
fn request_with_all_lines_buffered_at_once() {
    let reader = BufReader::new(&b"GET / HTTP/1.1\r\nA:\r\nB:\r\nC:\r\nD:\r\n\r\n"[..]);
    let r = request_from_reader(reader).unwrap();
    assert_eq!(r.request_line.method, "GET");
    assert_eq!(r.headers.inner.len(), 4);
    assert_eq!(r.headers.get("a"), Some(&"".to_string()));
    assert_eq!(r.headers.get("d"), Some(&"".to_string()));
}

#[test]
fn request_outcome_does_not_depend_on_read_sizes() {
    let data = "POST /submit HTTP/1.1\r\nHost: x\r\nA:\r\nB: 1\r\nContent-Length: 5\r\n\r\nhello";
    let whole = request_from_reader(BufReader::new(data.as_bytes())).unwrap();
    for k in 1..=data.len() {
        let r = request_from_reader(BufReader::new(ChunkReader::new(data.to_string(), k))).unwrap();
        assert_eq!(r.request_line.method, whole.request_line.method);
        assert_eq!(r.request_line.request_target, whole.request_line.request_target);
        assert_eq!(r.headers.inner, whole.headers.inner);
        assert_eq!(r.body, whole.body);
        assert_eq!(r.body, b"hello".to_vec());
    }
    let short = "GET / HTTP/1.1\r\nHost: x\r\n";
    for k in 1..=short.len() {
        let r = request_from_reader(BufReader::new(ChunkReader::new(short.to_string(), k)));
        assert!(matches!(r, Err(RequestError::Failed(ReadFailure::Incomplete))));
    }
}

#[test]
fn request_stream_drains_buffered_lines_at_end_of_input() {
    let mut stream = RequestStream::new();
    let status = stream.push(b"GET / HTTP/1.1\r\nA: 1\r\n\r\n");
    assert_eq!(status, StreamStatus::NeedMore);
    assert_eq!(stream.request.status, RequestState::ParsingHeaders);
    assert_eq!(stream.pending, b"A: 1\r\n\r\n".to_vec());
    assert_eq!(stream.push(b""), StreamStatus::Complete);
    assert_eq!(stream.request.headers.get("A"), Some(&"1".to_string()));
    assert!(stream.pending.is_empty());
}

#[test]
fn request_stream_reports_incomplete_and_failures() {
    let mut stream = RequestStream::new();
    assert_eq!(stream.push(b"GET / HTTP/1.1\r\nHost"), StreamStatus::NeedMore);
    assert_eq!(stream.push(b""), StreamStatus::Failed(ReadFailure::Incomplete));
    let mut stream = RequestStream::new();
    assert_eq!(
        stream.push(b"GET / HTTP/1.0\r\n"),
        StreamStatus::Failed(ReadFailure::Parse(ParseError::UnsupportedVersion))
    );
}

#[test]
fn request_line_with_invalid_utf8_counts_raw_bytes() {
    let mut request = Request::new();
    let data = b"GET /\xff HTTP/1.1\r\n";
    assert_eq!(data.len(), 17);
    assert_eq!(request.parse(data), Ok(17));
    assert_eq!(request.request_line.request_target, "/\u{fffd}");
}

#[test]
fn request_body_after_end_is_too_long_when_read_at_once() {
    let data = "POST / HTTP/1.1\r\nContent-Length: 1\r\n\r\nab";
    let r = request_from_reader(BufReader::new(data.as_bytes()));
    assert!(matches!(
        r,
        Err(RequestError::Failed(ReadFailure::Parse(ParseError::BodyTooLong)))
    ));
}
