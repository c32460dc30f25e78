use zettel_web::request::Header;
use zettel_web::response::{
    bad_request, encode_header, not_allowed, parse_response_head, server_error, unimplemented,
    IntoBytes, Response,
};

fn header(name: &str, value: &str) -> Header {
    Header { name: name.as_bytes().to_vec(), value: value.as_bytes().to_vec() }
}

#[test]
fn response_is_encoded_exactly() {
    let resp = Response::from_bytes(200, b"hi".to_vec());
    assert_eq!(resp.encode(), b"HTTP/1.1 200 OK\r\nContent-Length: 2\r\n\r\nhi".to_vec());
}

#[test]
fn status_line_carries_registered_reason() {
    let resp = Response { status: 404, headers: vec![], body: vec![] };
    assert_eq!(encode_header(&resp), b"HTTP/1.1 404 Not Found\r\n".to_vec());
    let teapot = Response { status: 418, headers: vec![], body: vec![] };
    assert_eq!(encode_header(&teapot), b"HTTP/1.1 418 I'm a teapot\r\n".to_vec());
}

#[test]
fn unregistered_status_has_empty_reason() {
    let resp = Response { status: 599, headers: vec![], body: vec![] };
    assert_eq!(encode_header(&resp), b"HTTP/1.1 599 \r\n".to_vec());
    let odd = Response { status: 42, headers: vec![], body: vec![] };
    assert_eq!(encode_header(&odd), b"HTTP/1.1 42 \r\n".to_vec());
}

#[test]
fn into_bytes_matches_encode() {
    let a = Response::from_bytes(500, vec![]);
    let b = Response::from_bytes(500, vec![]);
    assert_eq!(a.into_bytes(), b.encode());
}

#[test]
fn head_round_trip_keeps_status_and_headers() {
    let resp = Response {
        status: 301,
        headers: vec![header("Location", "/elsewhere"), header("X-Empty", ""), header("Content-Length", "0")],
        body: vec![],
    };
    let bytes = resp.encode();
    let (status, headers) = parse_response_head(&bytes).unwrap();
    assert_eq!(status, 301);
    assert_eq!(headers.len(), 3);
    assert_eq!(headers[0].name, b"Location".to_vec());
    assert_eq!(headers[0].value, b"/elsewhere".to_vec());
    assert_eq!(headers[1].value, Vec::<u8>::new());
    assert_eq!(headers[2].value, b"0".to_vec());
}

#[test]
fn head_round_trip_with_body() {
    let resp = Response::from_bytes(404, b"File not found: /x".to_vec());
    let bytes = resp.encode();
    let (status, headers) = parse_response_head(&bytes).unwrap();
    assert_eq!(status, 404);
    assert_eq!(headers[0].name, b"Content-Length".to_vec());
    assert_eq!(headers[0].value, b"18".to_vec());
}

#[test]
fn canned_responses() {
    assert_eq!(unimplemented().status, 501);
    assert_eq!(not_allowed().status, 405);
    assert_eq!(server_error().status, 500);
    assert_eq!(bad_request().status, 400);
    assert_eq!(unimplemented().encode(), b"HTTP/1.1 501 Not Implemented\r\nContent-Length: 0\r\n\r\n".to_vec());
    assert!(server_error().body.is_empty());
}
