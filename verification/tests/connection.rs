use h1http::conn::{accepts_gzip, handle_request, process_buffer, wants_close};
use std::io::Read;
use h1http::decode::{decode_http_request, Method};
use h1http::encode::Content;
use h1http::headers::Headers;

fn find_subslice(hay: &[u8], needle: &[u8]) -> Option<usize> {
    if needle.len() > hay.len() {
        return None;
    }
    (0..=hay.len() - needle.len()).find(|&i| &hay[i..i + needle.len()] == needle)
}

#[test]
fn headers_insert_get_len() {
    let mut h = Headers::new();
    assert_eq!(h.len(), 0);
    h.insert("A".to_string(), "1".to_string());
    h.insert("B".to_string(), "2".to_string());
    h.insert("A".to_string(), "3".to_string());
    assert_eq!(h.len(), 2);
    assert_eq!(h.get(&"A".to_string()).unwrap(), "3");
    assert_eq!(h.get(&"B".to_string()).unwrap(), "2");
    assert!(h.get(&"C".to_string()).is_none());
    // replacement keeps the position of the first insertion
    let (k, v) = h.index(0);
    assert_eq!(k, "A");
    assert_eq!(v, "3");
}

#[test]
fn wants_close_reads_connection_header() {
    let (req, _) = decode_http_request(b"GET / HTTP/1.1\r\nConnection: close\r\n\r\n").unwrap();
    assert!(wants_close(&req));
    let (req, _) = decode_http_request(b"GET / HTTP/1.1\r\nConnection: keep-alive\r\n\r\n").unwrap();
    assert!(!wants_close(&req));
    let (req, _) = decode_http_request(b"GET / HTTP/1.1\r\n\r\n").unwrap();
    assert!(!wants_close(&req));
}

#[test]
fn accepts_gzip_comma_list() {
    assert!(accepts_gzip(&"gzip".to_string()));
    assert!(accepts_gzip(&"br, gzip".to_string()));
    assert!(accepts_gzip(&" deflate ,  gzip ,br".to_string()));
    assert!(!accepts_gzip(&"gzipx".to_string()));
    assert!(!accepts_gzip(&"br, deflate".to_string()));
    assert!(!accepts_gzip(&"".to_string()));
}

#[test]
fn handle_request_routes() {
    let (req, _) = decode_http_request(b"GET / HTTP/1.1\r\n\r\n").unwrap();
    let r = handle_request(req, Some(b"<p>hi</p>".to_vec()));
    assert_eq!(r.code, 200);
    assert!(matches!(r.content, Content::Html(ref b) if b == b"<p>hi</p>"));

    let (req, _) = decode_http_request(b"GET / HTTP/1.1\r\n\r\n").unwrap();
    let r = handle_request(req, None);
    assert_eq!(r.code, 404);
    assert!(matches!(r.content, Content::Text(ref t) if t == "File not found"));

    let (req, _) = decode_http_request(b"GET /other HTTP/1.1\r\n\r\n").unwrap();
    let r = handle_request(req, Some(b"x".to_vec()));
    assert_eq!(r.code, 404);
    assert!(matches!(r.content, Content::Empty));

    let (req, _) = decode_http_request(b"POST / HTTP/1.1\r\n\r\n").unwrap();
    assert!(matches!(req.method, Method::Post));
    let r = handle_request(req, Some(b"x".to_vec()));
    assert_eq!(r.code, 404);
}

#[test]
fn process_close_negotiation() {
    let buf = b"GET / HTTP/1.1\r\nConnection: close\r\n\r\n";
    let (bytes, consumed, close) = process_buffer(buf, Some(b"<p>hi</p>".to_vec())).unwrap();
    assert!(close);
    assert_eq!(consumed, buf.len());
    assert!(find_subslice(&bytes, b"Connection: close\r\n").is_some());
}

#[test]
fn process_keep_alive_by_default() {
    let buf = b"GET / HTTP/1.1\r\n\r\n";
    let (bytes, _, close) = process_buffer(buf, Some(b"x".to_vec())).unwrap();
    assert!(!close);
    assert!(find_subslice(&bytes, b"Connection").is_none());
}

#[test]
fn process_main_page_exact_bytes() {
    let buf = b"GET / HTTP/1.1\r\n\r\n";
    let (bytes, consumed, close) = process_buffer(buf, Some(b"<p>hi</p>".to_vec())).unwrap();
    assert!(bytes.starts_with(b"HTTP/1.1 200 OK\r\n"));
    assert!(
        find_subslice(&bytes, b"Content-Type: text/html\r\nContent-Length: 9\r\n\r\n<p>hi</p>")
            .is_some()
    );
    assert_eq!(consumed, buf.len());
    assert!(!close);
}

#[test]
fn process_gzip_negotiation() {
    let buf = b"GET / HTTP/1.1\r\nAccept-Encoding: br, gzip\r\n\r\n";
    let (bytes, _, _) = process_buffer(buf, Some(b"<p>hi</p>".to_vec())).unwrap();
    assert!(find_subslice(&bytes, b"Content-Encoding: gzip\r\n").is_some());
    let body_at = find_subslice(&bytes, b"\r\n\r\n").unwrap() + 4;
    let mut dec = flate2::read::GzDecoder::new(&bytes[body_at..]);
    let mut out = Vec::new();
    dec.read_to_end(&mut out).unwrap();
    assert_eq!(out, b"<p>hi</p>".to_vec());

    let buf = b"GET / HTTP/1.1\r\nAccept-Encoding: br\r\n\r\n";
    let (bytes, _, _) = process_buffer(buf, Some(b"<p>hi</p>".to_vec())).unwrap();
    assert!(find_subslice(&bytes, b"Content-Encoding").is_none());
}

#[test]
fn process_undecodable_buffer_keeps_reading() {
    assert!(process_buffer(b"GET / HTT", Some(b"x".to_vec())).is_none());
    assert!(process_buffer(b"", None).is_none());
}

#[test]
fn process_pipelined_requests_consume_one_at_a_time() {
    let buf = b"GET / HTTP/1.1\r\n\r\nGET /other HTTP/1.1\r\n\r\n";
    let (_, consumed, _) = process_buffer(buf, Some(b"x".to_vec())).unwrap();
    assert_eq!(consumed, b"GET / HTTP/1.1\r\n\r\n".len());
    let rest = &buf[consumed..];
    let (bytes, consumed2, _) = process_buffer(rest, Some(b"x".to_vec())).unwrap();
    assert_eq!(consumed2, rest.len());
    assert!(bytes.starts_with(b"HTTP/1.1 404 Not Found\r\n"));
}
