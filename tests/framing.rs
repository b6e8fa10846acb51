use http_engine::client::{ApiClient, ClientError};
use http_engine::framing::find_header_end;
use http_engine::request::{parse_request, Method, ReadError, ReadState, RequestReader};
use http_engine::response::{build_response, reason_phrase};

const POST: &[u8] = b"POST /api/users HTTP/1.1\r\nHost: x\r\nContent-Length: 5\r\n\r\nhello";

#[test]
fn header_end_found() {
    assert_eq!(find_header_end(b"GET / HTTP/1.1\r\n\r\n"), Some(14));
    assert_eq!(find_header_end(b"GET / HTTP/1.1\r\n"), None);
}

#[test]
fn whole_request_in_one_read() {
    let mut r = RequestReader::new();
    assert!(r.feed(POST));
    assert_eq!(r.state(), ReadState::Complete);
    let p = r.finish().unwrap();
    assert_eq!(p.method, Method::Post);
    assert_eq!(p.path, b"/api/users".to_vec());
    assert_eq!(p.body, b"hello".to_vec());
}

#[test]
fn fragmented_request_parses_identically() {
    let whole = parse_request(POST).unwrap();
    for cut1 in 0..POST.len() {
        for cut2 in cut1..POST.len() {
            let mut r = RequestReader::new();
            let mut done = r.feed(&POST[..cut1]);
            if !done {
                done = r.feed(&POST[cut1..cut2]);
            }
            if !done {
                done = r.feed(&POST[cut2..]);
            }
            assert!(done);
            let p = r.finish().unwrap();
            assert_eq!(p.method, whole.method);
            assert_eq!(p.path, whole.path);
            assert_eq!(p.body, whole.body);
        }
    }
}

#[test]
fn reader_states() {
    let mut r = RequestReader::new();
    assert_eq!(r.state(), ReadState::AwaitingHeaders);
    assert!(!r.feed(b"POST /api/users HTTP/1.1\r\ncontent-length: 5\r\n\r\nhe"));
    assert_eq!(r.state(), ReadState::AwaitingBody(3));
    assert!(r.feed(b"llo"));
    assert_eq!(r.state(), ReadState::Complete);
}

#[test]
fn body_truncated_to_declared_length() {
    let p = parse_request(b"POST /submit HTTP/1.1\r\nContent-Length: 3\r\n\r\nabcdef").unwrap();
    assert_eq!(p.body, b"abc".to_vec());
}

#[test]
fn no_content_length_means_empty_body() {
    let p = parse_request(b"GET /api/users HTTP/1.1\r\nHost: a\r\n\r\nxyz").unwrap();
    assert_eq!(p.method, Method::Get);
    assert!(p.body.is_empty());
}

#[test]
fn other_method() {
    let p = parse_request(b"DELETE /api/users/1 HTTP/1.1\r\n\r\n").unwrap();
    assert_eq!(p.method, Method::Other);
    assert_eq!(p.path, b"/api/users/1".to_vec());
}

#[test]
fn closed_connection_errors() {
    assert_eq!(parse_request(b"").unwrap_err(), ReadError::ConnectionClosed);
    assert_eq!(parse_request(b"GET / HT").unwrap_err(), ReadError::IncompleteRequest);
    assert_eq!(
        parse_request(b"POST / HTTP/1.1\r\nContent-Length: 9\r\n\r\nabc").unwrap_err(),
        ReadError::IncompleteRequest
    );
    assert_eq!(parse_request(b"GARBAGE\r\n\r\n").unwrap_err(), ReadError::MalformedRequest);
}

#[test]
fn response_framing_exact() {
    let r = build_response(201, "application/json", b"{\"a\":1}", true);
    let expected: &[u8] = b"HTTP/1.1 201 Created\r\nContent-Type: application/json\r\nContent-Length: 7\r\nAccess-Control-Allow-Origin: *\r\n\r\n{\"a\":1}";
    assert_eq!(r, expected.to_vec());
}

#[test]
fn response_framing_empty_body_and_unknown_status() {
    let r = build_response(500, "text/plain", b"", false);
    let expected: &[u8] = b"HTTP/1.1 500 Unknown\r\nContent-Type: text/plain\r\nContent-Length: 0\r\n\r\n";
    assert_eq!(r, expected.to_vec());
}

#[test]
fn response_content_length_matches_body() {
    let body = vec![b'x'; 1234];
    let r = build_response(200, "text/html", &body, false);
    let head_len = find_header_end(&r).unwrap() + 4;
    assert_eq!(r.len(), head_len + 1234);
    assert_eq!(ApiClient::extract_content_length(std::str::from_utf8(&r[..head_len]).unwrap()), Some(1234));
    assert!(ApiClient::is_response_complete(&r));
}

#[test]
fn reason_phrases() {
    assert_eq!(reason_phrase(200), b"OK".to_vec());
    assert_eq!(reason_phrase(400), b"Bad Request".to_vec());
    assert_eq!(reason_phrase(404), b"Not Found".to_vec());
    assert_eq!(reason_phrase(302), b"Unknown".to_vec());
}

#[test]
fn content_length_case_insensitive_first_wins() {
    assert_eq!(ApiClient::extract_content_length("HTTP/1.1 200 OK\r\ncontent-LENGTH:  12 \r\nContent-Length: 3"), Some(12));
    assert_eq!(ApiClient::extract_content_length("HTTP/1.1 200 OK\r\nHost: a"), None);
    assert_eq!(ApiClient::extract_content_length("Content-Length: abc"), None);
    assert_eq!(ApiClient::extract_content_length("Content-Length: 99999999999999999999999"), None);
}

#[test]
fn client_request_bytes() {
    let c = ApiClient::new("http://127.0.0.1:8080");
    assert_eq!(c.host(), b"127.0.0.1:8080".to_vec());
    let get: &[u8] = b"GET /api/users HTTP/1.1\r\nHost: 127.0.0.1:8080\r\n\r\n";
    assert_eq!(c.build_request("GET", "/api/users", None), get.to_vec());
    let post: &[u8] = b"POST /api/users HTTP/1.1\r\nHost: 127.0.0.1:8080\r\nContent-Type: application/json\r\nContent-Length: 2\r\n\r\n{}";
    assert_eq!(c.build_request("POST", "/api/users", Some("{}")), post.to_vec());
}

#[test]
fn client_response_body() {
    let resp: &[u8] = b"HTTP/1.1 200 OK\r\nContent-Length: 2\r\n\r\nok\0\0";
    assert_eq!(ApiClient::extract_body(resp).unwrap(), b"ok".to_vec());
    assert_eq!(ApiClient::extract_body(b"HTTP/1.1 200").unwrap_err(), ClientError::InvalidResponse);
    assert_eq!(
        ApiClient::extract_body(b"HTTP/1.1 200 OK\r\nContent-Length: 5\r\n\r\nabc").unwrap_err(),
        ClientError::IncompleteResponse
    );
    assert_eq!(ApiClient::extract_body(b"HTTP/1.1 200 OK\r\n\r\nabc").unwrap(), b"abc".to_vec());
    assert!(!ApiClient::is_response_complete(b"HTTP/1.1 200 OK\r\n\r\nabc"));
    assert!(!ApiClient::is_response_complete(b"HTTP/1.1 200 OK\r\nContent-Length: 5\r\n\r\nabc"));
}

#[test]
fn protocol_token_required() {
    assert_eq!(parse_request(b"GET /api/users X\r\n\r\n").unwrap_err(), ReadError::MalformedRequest);
    assert_eq!(parse_request(b"GET /api/users\r\n\r\n").unwrap_err(), ReadError::MalformedRequest);
    assert_eq!(parse_request(b"GET /\r\n\r\n").unwrap_err(), ReadError::MalformedRequest);
    assert_eq!(parse_request(b"GET / HTTP/1.0\r\n\r\n").unwrap().path, b"/".to_vec());
}

#[test]
fn content_length_value_as_str_parse_reads_it() {
    assert_eq!(ApiClient::extract_content_length("Content-Length: +5"), Some(5));
    assert_eq!(ApiClient::extract_content_length("Content-Length: 5:6"), Some(5));
    assert_eq!(ApiClient::extract_content_length("Content-Length: +"), None);
    assert_eq!(ApiClient::extract_content_length("Content-Length: -5"), None);
    let p = parse_request(b"POST / HTTP/1.1\r\nContent-Length: +2\r\n\r\nabc").unwrap();
    assert_eq!(p.body, b"ab".to_vec());
}

#[test]
fn client_host_drops_every_scheme_marker() {
    assert_eq!(ApiClient::new("ahttp://b").host(), b"ab".to_vec());
    assert_eq!(ApiClient::new("http://http://h:1").host(), b"h:1".to_vec());
    assert_eq!(ApiClient::new("h:1").host(), b"h:1".to_vec());
}

#[test]
fn content_length_trims_unicode_whitespace() {
    assert_eq!(ApiClient::extract_content_length("Content-Length:5\u{a0}"), Some(5));
    assert_eq!(ApiClient::extract_content_length("Content-Length:\u{3000}\u{2009}42\u{85}\u{202f} "), Some(42));
    assert_eq!(ApiClient::extract_content_length("Content-Length: \u{2028}7\u{205f}\u{1680}"), Some(7));
    assert_eq!(ApiClient::extract_content_length("Content-Length: 7\u{200b}"), None);
    assert_eq!(ApiClient::extract_content_length("Content-Length: \u{a0}"), None);
}
