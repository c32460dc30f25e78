use zettel_web::request::{parse_headers, ReqError, MAX_HEADERS};

fn head(lines: &[&str]) -> Vec<u8> {
    let mut s = String::new();
    for l in lines {
        s.push_str(l);
        s.push_str("\r\n");
    }
    s.push_str("\r\n");
    s.into_bytes()
}

#[test]
fn request_line_tokens_are_recovered() {
    let req = parse_headers(&head(&["GET /notes/index HTTP/1.1"])).unwrap();
    assert_eq!(req.method, b"GET".to_vec());
    assert_eq!(req.target, b"/notes/index".to_vec());
    assert_eq!(req.version, b"HTTP/1.1".to_vec());
    assert!(req.headers.is_empty());
    assert!(req.body.is_empty());
}

#[test]
fn headers_are_split_on_first_colon_and_trimmed() {
    let req = parse_headers(&head(&["GET / HTTP/1.1", "Host:  example.org:8080 \t", "Accept: text/html"])).unwrap();
    assert_eq!(req.headers.len(), 2);
    assert_eq!(req.headers[0].name, b"Host".to_vec());
    assert_eq!(req.headers[0].value, b"example.org:8080".to_vec());
    assert_eq!(req.headers[1].name, b"Accept".to_vec());
    assert_eq!(req.headers[1].value, b"text/html".to_vec());
}

#[test]
fn empty_header_value_is_kept() {
    let req = parse_headers(&head(&["GET / HTTP/1.1", "X-Empty:"])).unwrap();
    assert_eq!(req.headers[0].value, Vec::<u8>::new());
}

#[test]
fn unfinished_head_is_incomplete() {
    assert_eq!(parse_headers(b"").unwrap_err(), ReqError::Incomplete);
    assert_eq!(parse_headers(b"GET / HTTP/1.1\r\n").unwrap_err(), ReqError::Incomplete);
    assert_eq!(parse_headers(b"GET / HTTP/1.1\r\nHost: a\r\n").unwrap_err(), ReqError::Incomplete);
}

#[test]
fn request_line_needs_three_tokens() {
    assert_eq!(parse_headers(&head(&["GET /"])).unwrap_err(), ReqError::Malformed);
    assert_eq!(parse_headers(&head(&["GET / HTTP/1.1 extra"])).unwrap_err(), ReqError::Malformed);
    assert_eq!(parse_headers(&head(&["GET  / HTTP/1.1"])).unwrap_err(), ReqError::Malformed);
    assert_eq!(parse_headers(&head(&[""])).unwrap_err(), ReqError::Malformed);
}

#[test]
fn header_line_without_colon_is_malformed() {
    assert_eq!(parse_headers(&head(&["GET / HTTP/1.1", "NoColonHere"])).unwrap_err(), ReqError::Malformed);
    assert_eq!(parse_headers(&head(&["GET / HTTP/1.1", ": value"])).unwrap_err(), ReqError::Malformed);
    assert_eq!(parse_headers(&head(&["GET / HTTP/1.1", "Bad Name: value"])).unwrap_err(), ReqError::Malformed);
}

fn many_headers(n: usize) -> Vec<u8> {
    let mut lines: Vec<String> = vec!["GET / HTTP/1.1".to_string()];
    for i in 0..n {
        lines.push(format!("X-H{}: {}", i, i));
    }
    let refs: Vec<&str> = lines.iter().map(|s| s.as_str()).collect();
    head(&refs)
}

#[test]
fn header_count_at_cap_is_accepted() {
    let req = parse_headers(&many_headers(MAX_HEADERS)).unwrap();
    assert_eq!(req.headers.len(), 100);
}

#[test]
fn header_count_over_cap_overflows() {
    assert_eq!(parse_headers(&many_headers(MAX_HEADERS + 1)).unwrap_err(), ReqError::HeaderOverflow);
    assert_eq!(parse_headers(&many_headers(1000)).unwrap_err(), ReqError::HeaderOverflow);
}

#[test]
fn overflow_is_found_before_the_head_ends() {
    let mut bytes = many_headers(150);
    bytes.truncate(bytes.len() - 2);
    assert_eq!(parse_headers(&bytes).unwrap_err(), ReqError::HeaderOverflow);
}

#[test]
fn header_lookup_ignores_case() {
    let req = parse_headers(&head(&["GET / HTTP/1.1", "content-LENGTH: 12", "Accept: a", "accept: b"])).unwrap();
    assert_eq!(req.header(b"Content-Length"), Some(&b"12".to_vec()));
    assert_eq!(req.header(b"ACCEPT"), Some(&b"a".to_vec()));
    assert_eq!(req.header(b"Host"), None);
}

#[test]
fn content_length_is_read() {
    let req = parse_headers(&head(&["POST /x HTTP/1.1", "Content-Length: 5"])).unwrap();
    assert_eq!(req.content_length(), Ok(5));
    let none = parse_headers(&head(&["GET / HTTP/1.1"])).unwrap();
    assert_eq!(none.content_length(), Ok(0));
    let bad = parse_headers(&head(&["GET / HTTP/1.1", "Content-Length: 5x"])).unwrap();
    assert_eq!(bad.content_length(), Err(ReqError::Malformed));
    let huge = parse_headers(&head(&["GET / HTTP/1.1", "Content-Length: 99999999999999999999"])).unwrap();
    assert_eq!(huge.content_length(), Err(ReqError::Malformed));
}

#[test]
fn body_is_taken_by_length() {
    let req = parse_headers(&head(&["POST /x HTTP/1.1", "Content-Length: 5"])).unwrap();
    let req = req.take_body(b"hello world".to_vec(), 5).unwrap();
    assert_eq!(req.body, b"hello".to_vec());
    assert_eq!(req.body_text().unwrap(), "hello".to_string());
}

#[test]
fn short_body_is_an_io_error() {
    let req = parse_headers(&head(&["POST /x HTTP/1.1", "Content-Length: 5"])).unwrap();
    assert_eq!(req.take_body(b"hey".to_vec(), 5).unwrap_err(), ReqError::Io);
}

#[test]
fn body_that_is_not_text_is_refused() {
    let req = parse_headers(&head(&["POST /x HTTP/1.1"])).unwrap();
    let req = req.take_body(vec![0xff, 0xfe], 2).unwrap();
    assert_eq!(req.body_text().unwrap_err(), ReqError::BodyEncoding);
}
