use httpfromtcp::headers::Headers;
use httpfromtcp::response::{
    get_default_headers, write_headers, write_status_line, StatusCode, WriteError, Writer,
    WriterState,
};

fn assert_status_line(status_code: StatusCode, expected: &[u8]) {
    // Given
    let mut w = Writer::new(Vec::new());

    // When
    w.write_status_line(status_code).unwrap();

    // Then
    assert_eq!(w.stream, expected);
}

#[test]
fn test_write_status_line_ok() {
    assert_status_line(StatusCode::Success, b"HTTP/1.1 200 OK\r\n");
}

#[test]
fn test_write_status_line_client_error() {
    assert_status_line(StatusCode::ClientError, b"HTTP/1.1 400 Bad Request\r\n");
}

#[test]
fn test_write_status_line_server_error() {
    assert_status_line(
        StatusCode::ServerError,
        b"HTTP/1.1 500 Internal Server Error\r\n",
    );
}

#[test]
fn test_get_default_headers_helper_function() {
    // Given
    let content_len = 13_usize;

    // When
    let headers = get_default_headers(content_len);

    // Then
    assert_eq!(headers.get("Content-Length"), Some(&"13".to_string()));
    assert_eq!(headers.get("Connection"), Some(&"close".to_string()));
    assert_eq!(headers.get("Content-Type"), Some(&"text/plain".to_string()));
}

#[test]
fn test_write_headers() {
    // Given
    let mut w = Writer::new(Vec::new());
    w.state = WriterState::StatusLineCompleted;

    let headers = get_default_headers(13_usize);

    // When
    w.write_headers(headers).unwrap();

    // Then
    assert_eq!(
        w.stream,
        b"Content-Type: text/plain\r\nContent-Length: 13\r\nConnection: close\r\n\r\n"
    );
}

#[test]
fn test_write_body() {
    // Given
    let mut w = Writer::new(Vec::new());
    w.state = WriterState::HeadersCompleted;

    // When
    let bytes_written = w.write_body(b"hello").unwrap();

    // Then
    assert_eq!(w.stream, b"hello");
    assert_eq!(bytes_written, 5);
}

#[test]
fn test_chunked_encoding() {
    // Given
    let mut w = Writer::new(Vec::new());
    w.state = WriterState::HeadersCompleted;

    // When
    let bytes_written = w.write_chunked_body(b"hello").unwrap();

    // Then
    assert_eq!(w.stream, b"5\r\nhello\r\n");
    assert_eq!(bytes_written, 5);
}

#[test]
fn test_chunked_encoding_done() {
    // Given
    let mut w = Writer::new(Vec::new());
    w.state = WriterState::ChunkedBodyWritten;

    // When
    let bytes_written = w.write_chunked_body_done().unwrap();

    // Then
    assert_eq!(w.stream, b"0\r\n\r\n");
    assert_eq!(bytes_written, 0);
}

#[test]
fn test_write_trailers() {
    // Given
    let mut w = Writer::new(Vec::new());
    w.state = WriterState::ChunkedBodyWritten;

    let mut headers = get_default_headers(13_usize);
    headers.inner.retain(|(k, _)| k != "Content-Length");
    headers.insert("Trailer".to_string(), "X-Content-Length".to_string());
    headers.insert("X-Content-Length".to_string(), "15".to_string());

    // When
    w.write_trailers(headers).unwrap();

    // Then
    assert_eq!(w.stream, b"0\r\nX-Content-Length: 15\r\n\r\n");
}

#[test]
fn test_write_trailers_raises_error_if_trailers_header_is_missing() {
    // Given
    let mut w = Writer::new(Vec::new());
    w.state = WriterState::ChunkedBodyWritten;

    let mut headers = get_default_headers(13_usize);
    headers.inner.retain(|(k, _)| k != "Content-Length");
    headers.insert("X-Content-Length".to_string(), "15".to_string());

    // When
    let result = w.write_trailers(headers);

    // Then
    assert!(result.is_err());
}

fn assert_trailers_state_machine(state: WriterState, should_succeed: bool) {
    let mut w = Writer::new(Vec::new());
    w.state = state;

    let mut headers = Headers::new();
    headers.insert("Trailer".to_string(), "X-Content-Length".to_string());
    headers.insert("X-Content-Length".to_string(), "15".to_string());

    let result = w.write_trailers(headers);
    assert_eq!(result.is_ok(), should_succeed);
}

#[test]
fn test_write_trailers_state_machine_empty() {
    assert_trailers_state_machine(WriterState::Empty, false);
}

#[test]
fn test_write_trailers_state_machine_status_line_completed() {
    assert_trailers_state_machine(WriterState::StatusLineCompleted, false);
}

#[test]
fn test_write_trailers_state_machine_headers_completed() {
    assert_trailers_state_machine(WriterState::HeadersCompleted, false);
}

#[test]
fn test_write_trailers_state_machine_chunked_body_written() {
    assert_trailers_state_machine(WriterState::ChunkedBodyWritten, true);
}

#[test]
fn test_write_trailers_state_machine_done() {
    assert_trailers_state_machine(WriterState::Done, false);
}

#[test]
fn writer_full_batch_response() {
    let mut w = Writer::new(Vec::new());
    w.write_status_line(StatusCode::Success).unwrap();
    w.write_headers(get_default_headers(2)).unwrap();
    assert_eq!(w.write_body(b"hi"), Ok(2));
    assert_eq!(w.state, WriterState::Done);
    assert_eq!(
        w.stream,
        b"HTTP/1.1 200 OK\r\nContent-Type: text/plain\r\nContent-Length: 2\r\nConnection: close\r\n\r\nhi"
            .to_vec()
    );
    assert_eq!(w.write_body(b"x"), Err(WriteError::BodyAlreadyWritten));
    assert_eq!(w.write_status_line(StatusCode::Success), Err(WriteError::StatusLineAlreadyWritten));
}

#[test]
fn writer_refuses_out_of_order_calls() {
    let mut w = Writer::new(Vec::new());
    assert_eq!(w.write_headers(Headers::new()), Err(WriteError::StatusLineMissing));
    assert_eq!(w.write_body(b"x"), Err(WriteError::HeadersMissing));
    assert_eq!(w.write_chunked_body(b"x"), Err(WriteError::HeadersMissing));
    assert_eq!(w.write_chunked_body_done(), Err(WriteError::ChunkedBodyMissing));
    assert_eq!(w.write_trailers(Headers::new()), Err(WriteError::ChunkedBodyMissing));
    assert!(w.stream.is_empty());
    assert_eq!(w.state, WriterState::Empty);
    assert_eq!(WriteError::StatusLineMissing.message(), "must call write_status_line() first");
}

#[test]
fn writer_chunk_sizes_are_uppercase_hex() {
    let mut w = Writer::new(Vec::new());
    w.state = WriterState::HeadersCompleted;
    let data = vec![b'a'; 26];
    assert_eq!(w.write_chunked_body(&data), Ok(26));
    let mut expected = b"1A\r\n".to_vec();
    expected.extend_from_slice(&data);
    expected.extend_from_slice(b"\r\n");
    assert_eq!(w.stream, expected);
    let out = w.take_output();
    assert_eq!(out, expected);
    assert!(w.stream.is_empty());
    assert_eq!(w.write_chunked_body(b""), Ok(0));
    assert_eq!(w.stream, b"0\r\n\r\n".to_vec());
}

#[test]
fn writer_trailer_missing_keeps_partial_output() {
    let mut w = Writer::new(Vec::new());
    w.state = WriterState::ChunkedBodyWritten;
    let mut headers = Headers::new();
    headers.insert("Trailer".to_string(), "A, B".to_string());
    headers.insert("A".to_string(), "1".to_string());
    assert_eq!(w.write_trailers(headers), Err(WriteError::TrailerMissing));
    assert_eq!(w.stream, b"0\r\nA: 1\r\n".to_vec());
    assert_eq!(w.state, WriterState::ChunkedBodyWritten);
}

#[test]
fn writer_no_trailer_field_writes_nothing() {
    let mut w = Writer::new(Vec::new());
    w.state = WriterState::ChunkedBodyWritten;
    assert_eq!(w.write_trailers(Headers::new()), Err(WriteError::NoTrailer));
    assert!(w.stream.is_empty());
}

#[test]
fn free_functions_write_status_and_headers() {
    let mut out = Vec::new();
    write_status_line(&mut out, StatusCode::ServerError);
    let mut headers = Headers::new();
    headers.insert("Transfer-Encoding".to_string(), "chunked".to_string());
    headers.insert("X-Other".to_string(), "ignored".to_string());
    write_headers(&mut out, headers);
    assert_eq!(
        out,
        b"HTTP/1.1 500 Internal Server Error\r\nTransfer-Encoding: chunked\r\n\r\n".to_vec()
    );
}
