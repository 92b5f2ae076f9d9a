use h1http::decode::{decode_http_request, DecodeHttpError, Method};
use std::io::Read;
use h1http::encode::{encode_response, Content, Encoding, Response};

fn find_subslice(hay: &[u8], needle: &[u8]) -> Option<usize> {
    if needle.len() > hay.len() {
        return None;
    }
    (0..=hay.len() - needle.len()).find(|&i| &hay[i..i + needle.len()] == needle)
}

#[test]
fn decode_valid_post_with_body() {
    let buf = b"POST /submit HTTP/1.1\r\nContent-Type: text/plain\r\nContent-Length: 5\r\n\r\nhelloEXTRA";
    let (req, consumed) = decode_http_request(buf).unwrap();
    assert!(matches!(req.method, Method::Post));
    assert_eq!(req.uri, "/submit");
    assert_eq!(req.content, b"hello".to_vec());
    // header terminator sits after the three lines; 4 + body length follow
    let header_end = find_subslice(buf, b"\r\n\r\n").unwrap();
    assert_eq!(consumed, header_end + 4 + 5);
    let ct = req.headers.get(&"Content-Type".to_string()).unwrap();
    assert_eq!(ct, "text/plain");
    let cl = req.headers.get(&"Content-Length".to_string()).unwrap();
    assert_eq!(cl, "5");
}

#[test]
fn decode_get_without_body() {
    let buf = b"GET / HTTP/1.1\r\nHost: example\r\n\r\ntrailing";
    let (req, consumed) = decode_http_request(buf).unwrap();
    assert!(matches!(req.method, Method::Get));
    assert_eq!(req.uri, "/");
    assert!(req.content.is_empty());
    // without Content-Type and Content-Length the body is never read
    let header_end = find_subslice(buf, b"\r\n\r\n").unwrap();
    assert_eq!(consumed, header_end + 4);
}

#[test]
fn decode_incomplete_header_fails() {
    let buf = b"GET / HTTP/1.1\r\nHost: exa";
    let r = decode_http_request(buf);
    assert!(matches!(r, Err(DecodeHttpError::InvalidHeader)));
    // the buffer was not consumed: the same call can be retried as is
    let r2 = decode_http_request(buf);
    assert!(matches!(r2, Err(DecodeHttpError::InvalidHeader)));
}

#[test]
fn decode_unknown_method() {
    let buf = b"PATCH / HTTP/1.1\r\n\r\n";
    match decode_http_request(buf) {
        Err(DecodeHttpError::InvalidMethod(tok)) => assert_eq!(tok, "PATCH"),
        _ => panic!("expected InvalidMethod"),
    }
}

#[test]
fn decode_request_line_token_counts() {
    assert!(matches!(
        decode_http_request(b"GET /\r\n\r\n"),
        Err(DecodeHttpError::InvalidHeader)
    ));
    assert!(matches!(
        decode_http_request(b"GET / HTTP/1.1 extra\r\n\r\n"),
        Err(DecodeHttpError::InvalidHeader)
    ));
}

#[test]
fn decode_header_line_without_colon() {
    let buf = b"GET / HTTP/1.1\r\nnocolonhere\r\n\r\n";
    assert!(matches!(
        decode_http_request(buf),
        Err(DecodeHttpError::InvalidHeader)
    ));
}

#[test]
fn decode_header_trimming_and_duplicates() {
    let buf = b"GET / HTTP/1.1\r\n  Host :  first  \r\nHost: second\r\n\r\n";
    let (req, _) = decode_http_request(buf).unwrap();
    let v = req.headers.get(&"Host".to_string()).unwrap();
    assert_eq!(v, "second");
    assert_eq!(req.headers.len(), 1);
}

#[test]
fn decode_bad_content_length() {
    let buf = b"POST / HTTP/1.1\r\nContent-Type: a\r\nContent-Length: five\r\n\r\nhello";
    assert!(matches!(
        decode_http_request(buf),
        Err(DecodeHttpError::ParsingContentError)
    ));
    let huge = b"POST / HTTP/1.1\r\nContent-Type: a\r\nContent-Length: 99999999999999999999999999\r\n\r\n";
    assert!(matches!(
        decode_http_request(huge),
        Err(DecodeHttpError::ParsingContentError)
    ));
}

#[test]
fn decode_plus_signed_content_length() {
    let buf = b"POST / HTTP/1.1\r\nContent-Type: a\r\nContent-Length: +2\r\n\r\nhi";
    let (req, _) = decode_http_request(buf).unwrap();
    assert_eq!(req.content, b"hi".to_vec());
}

#[test]
fn decode_short_body_is_not_sliced() {
    // Content-Length promises more bytes than the buffer holds: the decoder
    // refuses instead of reading out of bounds, and the buffer can be
    // retried once the rest has arrived.
    let buf = b"POST / HTTP/1.1\r\nContent-Type: a\r\nContent-Length: 10\r\n\r\nhi";
    assert!(matches!(
        decode_http_request(buf),
        Err(DecodeHttpError::InvalidHeader)
    ));
}

#[test]
fn decode_non_utf8_header_fails() {
    let mut buf = b"GET / HTTP/1.1\r\nHost: ex".to_vec();
    buf.push(0xff);
    buf.extend_from_slice(b"\r\n\r\n");
    assert!(matches!(
        decode_http_request(&buf),
        Err(DecodeHttpError::InvalidHeader)
    ));
}

#[test]
fn encode_text_round_trip_status_line() {
    let resp = Response::new(200, Content::Text("hi".to_string()));
    let bytes = encode_response(resp);
    assert!(bytes.starts_with(b"HTTP/1.1 200 OK\r\n"));
    assert!(find_subslice(&bytes, b"Content-Length: 2\r\n").is_some());
    assert!(find_subslice(&bytes, b"Content-Type: text/plain\r\n").is_some());
    assert!(bytes.ends_with(b"\r\n\r\nhi"));
    // reading the status line back out of the wire bytes
    let line_end = find_subslice(&bytes, b"\r\n").unwrap();
    let status = std::str::from_utf8(&bytes[..line_end]).unwrap();
    assert_eq!(status, "HTTP/1.1 200 OK");
    let code: u16 = status.split(' ').nth(1).unwrap().parse().unwrap();
    assert_eq!(code, 200);
}

#[test]
fn encode_reason_phrases() {
    let b201 = encode_response(Response::new(201, Content::Empty));
    assert!(b201.starts_with(b"HTTP/1.1 201 Created\r\n"));
    let b404 = encode_response(Response::new(404, Content::Empty));
    assert!(b404.starts_with(b"HTTP/1.1 404 Not Found\r\n"));
    // anything outside the supported set collapses to the 500 phrase
    let b999 = encode_response(Response::new(999, Content::Empty));
    assert!(b999.starts_with(b"HTTP/1.1 500 Internal Server Error\r\n"));
    let b403 = encode_response(Response::new(403, Content::Empty));
    assert!(b403.starts_with(b"HTTP/1.1 500 Internal Server Error\r\n"));
}

#[test]
fn encode_content_types() {
    let b = encode_response(Response::new(200, Content::Html(b"<p>x</p>".to_vec())));
    assert!(find_subslice(&b, b"Content-Type: text/html\r\n").is_some());
    let b = encode_response(Response::new(200, Content::OctetStream(vec![1, 2, 3])));
    assert!(find_subslice(&b, b"Content-Type: application/octet-stream\r\n").is_some());
    let b = encode_response(Response::new(200, Content::ImageXIcon(vec![9])));
    assert!(find_subslice(&b, b"Content-Type: image/x-icon\r\n").is_some());
    // raw bytes and empty responses carry no implied content type
    let b = encode_response(Response::new(200, Content::Bytes(vec![1])));
    assert!(find_subslice(&b, b"Content-Type").is_none());
    let b = encode_response(Response::new(200, Content::Empty));
    assert!(find_subslice(&b, b"Content-Type").is_none());
    assert!(find_subslice(&b, b"Content-Length: 0\r\n").is_some());
}

#[test]
fn encode_gzip_body_decompresses_to_plain_body() {
    let text = "hello hello hello hello";
    let plain = encode_response(Response::new(200, Content::Text(text.to_string())));
    let plain_body_at = find_subslice(&plain, b"\r\n\r\n").unwrap() + 4;
    let plain_body = &plain[plain_body_at..];
    assert_eq!(plain_body, text.as_bytes());

    let mut gz = Response::new(200, Content::Text(text.to_string()));
    gz.content_encoding = Some(Encoding::Gzip);
    let wire = encode_response(gz);
    assert!(find_subslice(&wire, b"Content-Encoding: gzip\r\n").is_some());
    let body_at = find_subslice(&wire, b"\r\n\r\n").unwrap() + 4;
    let body = &wire[body_at..];
    // the compressed body is what Content-Length promises
    let head = std::str::from_utf8(&wire[..body_at]).unwrap();
    let cl_line = head
        .lines()
        .find(|l| l.starts_with("Content-Length: "))
        .unwrap();
    let cl: usize = cl_line["Content-Length: ".len()..].parse().unwrap();
    assert_eq!(cl, body.len());
    // and it inflates back to the plain body, byte for byte
    let mut dec = flate2::read::GzDecoder::new(body);
    let mut out = Vec::new();
    dec.read_to_end(&mut out).unwrap();
    assert_eq!(out, plain_body);
    assert_eq!(out.len(), plain_body.len());
}

#[test]
fn encode_gzip_same_input_same_stream() {
    let mut a = Response::new(200, Content::Text("abcabc".to_string()));
    a.content_encoding = Some(Encoding::Gzip);
    let mut b = Response::new(200, Content::Text("abcabc".to_string()));
    b.content_encoding = Some(Encoding::Gzip);
    assert_eq!(encode_response(a), encode_response(b));
}

#[test]
fn encode_caller_header_survives() {
    let mut resp = Response::new(200, Content::Empty);
    resp.headers.insert("X-Custom".to_string(), "yes".to_string());
    let b = encode_response(resp);
    assert!(find_subslice(&b, b"X-Custom: yes\r\n").is_some());
}

#[test]
fn response_new_is_bare() {
    let r = Response::new(200, Content::Empty);
    assert_eq!(r.code, 200);
    assert!(matches!(r.content, Content::Empty));
    assert_eq!(r.headers.len(), 0);
    assert!(r.content_encoding.is_none());
}
