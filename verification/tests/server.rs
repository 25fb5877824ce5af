use std::io::BufReader;

use httpfromtcp::headers::Headers;
use httpfromtcp::request::request_from_reader;
use httpfromtcp::response::{StatusCode, WriteError, Writer, WriterState};
use httpfromtcp::server::{
    page, proxy_headers, route, sha256_hex, write_bad_request, write_page, write_response, ProxyRelay, Route,
};

const SUCCESS_RESPONSE: &str = "HTTP/1.1 200 OK\r\nContent-Type: text/html\r\nContent-Length: 148\r\nConnection: close\r\n\r\n<html>\n  <head>\n    <title>200 OK</title>\n  </head>\n  <body>\n    <h1>Success!</h1>\n    <p>Your request was an absolute banger.</p>\n  </body>\n</html>";

fn respond(raw: &str) -> Vec<u8> {
    let mut w = Writer::new(Vec::new());
    match request_from_reader(BufReader::new(raw.as_bytes())) {
        Ok(request) => {
            let r = route(&request.request_line.request_target);
            assert_eq!(write_page(&mut w, &r), Ok(true));
        }
        Err(e) => {
            write_bad_request(&mut w, e.message()).unwrap();
        }
    }
    w.stream
}

#[test]
fn get_request_answers_success_page() {
    let response = respond(
        "GET / HTTP/1.1\r\nHost: localhost:42069\r\nUser-Agent: curl/7.81.0\r\nAccept: */*\r\n\r\n",
    );
    assert_eq!(String::from_utf8(response).unwrap(), SUCCESS_RESPONSE);
}

#[test]
fn post_request_answers_success_page() {
    let response = respond("POST /coffee HTTP/1.1\r\nHost: localhost:42069\r\nContent-Type: application/json\r\nContent-Length: 39\r\n\r\n{\"type\": \"dark mode\", \"size\": \"medium\"}");
    assert_eq!(String::from_utf8(response).unwrap(), SUCCESS_RESPONSE);
}

#[test]
fn myproblem_answers_server_error_page() {
    let response = respond("POST /myproblem HTTP/1.1\r\nHost: localhost:42069\r\nContent-Type: application/json\r\nContent-Length: 39\r\n\r\n{\"type\": \"dark mode\", \"size\": \"medium\"}");
    assert_eq!(
        String::from_utf8(response).unwrap(),
        "HTTP/1.1 500 Internal Server Error\r\nContent-Type: text/html\r\nContent-Length: 183\r\nConnection: close\r\n\r\n<html>\n  <head>\n    <title>500 Internal Server Error</title>\n  </head>\n  <body>\n    <h1>Internal Server Error</h1>\n    <p>Okay, you know what? This one is on me.</p>\n  </body>\n</html>"
    );
}

#[test]
fn yourproblem_answers_bad_request_page() {
    let response = respond("GET /yourproblem HTTP/1.1\r\n\r\n");
    let text = String::from_utf8(response).unwrap();
    assert!(text.starts_with("HTTP/1.1 400 Bad Request\r\nContent-Type: text/html\r\nContent-Length: 159\r\n"));
    assert!(text.ends_with("<p>Your request honestly kinda sucked.</p>\n  </body>\n</html>"));
}

#[test]
fn malformed_request_answers_400_with_message() {
    let response = respond("BADREQUEST\r\n\r\n");
    assert_eq!(
        String::from_utf8(response).unwrap(),
        "HTTP/1.1 400 Bad Request\r\n\r\nmore than 3 elements to parse"
    );
}

#[test]
fn routes_are_chosen_by_target() {
    assert_eq!(route(&"/httpbin/html".to_string()), Route::Proxy("/html".to_string()));
    assert_eq!(route(&"/httpbin".to_string()), Route::Proxy("".to_string()));
    assert_eq!(route(&"/yourproblem".to_string()), Route::YourProblem);
    assert_eq!(route(&"/myproblem".to_string()), Route::MyProblem);
    assert_eq!(route(&"/video".to_string()), Route::Video);
    assert_eq!(route(&"/videos".to_string()), Route::Success);
    assert_eq!(route(&"/".to_string()), Route::Success);
    assert!(page(&Route::Video).is_none());
}

#[test]
fn pages_without_fixed_body_write_nothing() {
    let mut w = Writer::new(Vec::new());
    assert_eq!(write_page(&mut w, &Route::Video), Ok(false));
    assert!(w.stream.is_empty());
    w.state = WriterState::Done;
    assert_eq!(
        write_page(&mut w, &Route::Success),
        Err(WriteError::StatusLineAlreadyWritten)
    );
}

#[test]
fn file_response_announces_its_length() {
    let mut w = Writer::new(Vec::new());
    write_response(&mut w, StatusCode::Success, "video/mp4", b"abcd").unwrap();
    assert_eq!(
        w.stream,
        b"HTTP/1.1 200 OK\r\nContent-Type: video/mp4\r\nContent-Length: 4\r\nConnection: close\r\n\r\nabcd"
            .to_vec()
    );
}

#[test]
fn proxy_headers_for_html_announce_trailers() {
    let h = proxy_headers(&"/html".to_string(), Some("text/html; charset=utf-8".to_string()));
    assert_eq!(h.get("content-type"), Some(&"text/html; charset=utf-8".to_string()));
    assert_eq!(h.get("transfer-encoding"), Some(&"chunked".to_string()));
    assert_eq!(h.get("connection"), Some(&"close".to_string()));
    assert_eq!(
        h.get("trailer"),
        Some(&"X-Content-SHA256, X-Content-Length".to_string())
    );
    let h = proxy_headers(&"/get".to_string(), None);
    assert_eq!(h.get("content-type"), Some(&"application/octet-stream".to_string()));
    assert_eq!(h.get("trailer"), None);
}

#[test]
fn proxy_relay_without_trailers() {
    let mut w = Writer::new(Vec::new());
    let headers = proxy_headers(&"/get".to_string(), Some("application/json".to_string()));
    let mut relay = ProxyRelay::start(&mut w, headers).unwrap();
    assert!(!relay.has_trailers);
    assert_eq!(relay.relay(&mut w, b"{}"), Ok(2));
    relay.finish(&mut w).unwrap();
    assert_eq!(
        String::from_utf8(w.stream).unwrap(),
        "HTTP/1.1 200 OK\r\nContent-Type: application/json\r\nConnection: close\r\nTransfer-Encoding: chunked\r\n\r\n2\r\n{}\r\n0\r\n\r\n"
    );
}

#[test]
fn proxy_relay_with_trailers_keeps_body_and_fails_on_trailer_field() {
    let mut w = Writer::new(Vec::new());
    let headers = proxy_headers(&"/html".to_string(), None);
    let mut relay = ProxyRelay::start(&mut w, headers).unwrap();
    assert!(relay.has_trailers);
    relay.relay(&mut w, b"abc").unwrap();
    assert_eq!(relay.body, b"abc".to_vec());
    let before = w.stream.clone();
    // The trailer fields carry no `Trailer` field of their own, so nothing
    // more is written.
    assert_eq!(relay.finish(&mut w), Err(WriteError::NoTrailer));
    assert_eq!(w.stream, before);
}

#[test]
fn bad_request_needs_fresh_writer() {
    let mut w = Writer::new(Vec::new());
    w.state = WriterState::HeadersCompleted;
    assert_eq!(
        write_bad_request(&mut w, "x"),
        Err(WriteError::StatusLineAlreadyWritten)
    );
    let h = Headers::new();
    assert_eq!(h.inner.len(), 0);
}

#[test]
fn body_digest_is_sha256_in_hex() {
    assert_eq!(
        sha256_hex(b"hello world"),
        "b94d27b9934d3e08a52e52d7da7dabfac484efe37a5380ee9088f7ace2efcde9"
    );
    assert_eq!(sha256_hex(b"").len(), 64);
}
