//! The per-connection decisions around the codec: whether the client asked
//! to close the connection, whether it accepts gzip, how the response is
//! amended before encoding, and the whole decode–dispatch–encode step on one
//! buffer. The socket reads and writes themselves stay outside; a caller
//! feeds buffered bytes in and writes the returned bytes out.

use vstd::prelude::*;
use vstd::string::StringSliceAdditionalSpecFns;
use vstd::utf8::{decode_utf8, encode_utf8};
use crate::bytesx::{bytes_eq, find_byte, find_byte_from, lemma_find_byte_bounds, subvec};
use crate::decode::{
    decode_http_request, decoded_pairs, spec_decode, trim, trim_bytes, DecodeOutcome, Method,
    Request, SpecRequest,
};
use crate::encode::{
    encode_response, spec_encode_parts, spec_final_headers, Content, Encoding, Response,
};
use crate::headers::{insert_pair, lookup, lemma_lookup_insert_other};

verus! {

/// The client asked for the connection to be closed after this exchange.
pub open spec fn spec_wants_close(hs: Seq<(Seq<char>, Seq<char>)>) -> bool {
    lookup(hs, "Connection"@) == Some("close"@)
}

/// True when the request carries `Connection: close`.
pub fn wants_close(req: &Request) -> (r: bool)
    ensures
        r == spec_wants_close(req.headers@),
{
    let key = "Connection".to_owned();
    match req.headers.get(&key) {
        Some(v) => {
            let close = "close".to_owned();
            *v == close
        },
        None => false,
    }
}

/// Whether any comma-separated element of `s` at or after `i`, trimmed,
/// reads `gzip`.
pub open spec fn spec_accepts_from(s: Seq<u8>, i: int) -> bool
    decreases s.len() - i,
        via spec_accepts_from_decreases
{
    match find_byte_from(s, 44u8, i) {
        None => trim(s.subrange(i, s.len() as int)) == "gzip".spec_bytes(),
        Some(j) => trim(s.subrange(i, j)) == "gzip".spec_bytes() || spec_accepts_from(s, j + 1),
    }
}

#[via_fn]
proof fn spec_accepts_from_decreases(s: Seq<u8>, i: int) {
    if 0 <= i < s.len() {
        lemma_find_byte_bounds(s, 44u8, i);
    }
}

/// The client's `Accept-Encoding` value admits gzip: some comma-separated
/// element, trimmed of whitespace, is exactly `gzip`.
pub open spec fn spec_accepts_gzip(s: Seq<u8>) -> bool {
    spec_accepts_from(s, 0)
}

fn accepts_from(b: &[u8], i: usize) -> (r: bool)
    requires
        i <= b@.len(),
    ensures
        r == spec_accepts_from(b@, i as int),
    decreases b@.len() - i,
{
    match find_byte(b, 44, i) {
        None => {
            let piece = trim_bytes(subvec(b, i, b.len()).as_slice());
            bytes_eq(piece.as_slice(), "gzip".as_bytes())
        },
        Some(j) => {
            let piece = trim_bytes(subvec(b, i, j).as_slice());
            if bytes_eq(piece.as_slice(), "gzip".as_bytes()) {
                true
            } else {
                let n: usize = b.len();
                assert(j < n);
                accepts_from(b, j + 1)
            }
        },
    }
}

/// True when the comma-separated `Accept-Encoding` value admits gzip.
pub fn accepts_gzip(value: &String) -> (r: bool)
    ensures
        r == spec_accepts_gzip(encode_utf8(value@)),
{
    let b = value.as_str().as_bytes();
    accepts_from(b, 0)
}

/// The headers the connection loop seeds a response with: `Connection:
/// close` when the client asked for it, nothing otherwise.
pub open spec fn spec_close_headers(h: Seq<(Seq<char>, Seq<char>)>, close: bool) -> Seq<
    (Seq<char>, Seq<char>),
> {
    if close {
        insert_pair(h, "Connection"@, "close"@)
    } else {
        h
    }
}

/// The transfer encoding negotiated from the client's `Accept-Encoding`
/// value, if one was sent; otherwise the response keeps its own.
pub open spec fn spec_negotiated(e: Option<Encoding>, accept: Option<Seq<char>>) -> Option<
    Encoding,
> {
    match accept {
        Some(a) => if spec_accepts_gzip(encode_utf8(a)) {
            Some(Encoding::Gzip)
        } else {
            e
        },
        None => e,
    }
}

/// Amends a handler's response before encoding: marks the connection closed
/// when the client asked, and switches on gzip when the client accepts it.
pub fn finalize_response(
    response: &mut Response,
    should_close: bool,
    accept_encoding: Option<&String>,
)
    ensures
        final(response).code == old(response).code,
        final(response).content == old(response).content,
        final(response).headers@ == spec_close_headers(old(response).headers@, should_close),
        final(response).content_encoding == spec_negotiated(
            old(response).content_encoding,
            match accept_encoding {
                Some(a) => Some(a@),
                None => None,
            },
        ),
{
    if should_close {
        response.headers.insert("Connection".to_owned(), "close".to_owned());
    }
    match accept_encoding {
        Some(a) => {
            if accepts_gzip(a) {
                response.content_encoding = Some(Encoding::Gzip);
            }
        },
        None => {},
    }
}

/// What the router answers, by parts: the status code, the implied
/// `Content-Type`, and the plain body bytes. `GET /` serves the main page
/// when one could be read, a plain-text not-found note when none could, and
/// everything else is an empty not-found response.
pub open spec fn spec_handle(method: Method, uri: Seq<char>, page: Option<Seq<u8>>) -> (
    u16,
    Option<Seq<char>>,
    Seq<u8>,
) {
    if method == Method::Get && uri == "/"@ {
        match page {
            Some(f) => (200u16, Some("text/html"@), f),
            None => (404u16, Some("text/plain"@), encode_utf8("File not found"@)),
        }
    } else {
        (404u16, None, Seq::empty())
    }
}

/// Routes a request: `main_page` carries the bytes of the main page where
/// the caller could read them. Returns a fresh response with no headers and
/// no transfer encoding.
pub fn handle_request(request: Request, main_page: Option<Vec<u8>>) -> (r: Response)
    ensures
        r.headers@ == Seq::<(Seq<char>, Seq<char>)>::empty(),
        r.content_encoding is None,
        r.code == spec_handle(
            request.method,
            request.uri@,
            match main_page {
                Some(f) => Some(f@),
                None => None,
            },
        ).0,
        crate::encode::spec_content_type(r.content) == spec_handle(
            request.method,
            request.uri@,
            match main_page {
                Some(f) => Some(f@),
                None => None,
            },
        ).1,
        crate::encode::spec_plain_body(r.content) == spec_handle(
            request.method,
            request.uri@,
            match main_page {
                Some(f) => Some(f@),
                None => None,
            },
        ).2,
        request.method == Method::Get && request.uri@ == "/"@ ==> match main_page {
            Some(_) => r.content is Html,
            None => r.content is Text,
        },
        !(request.method == Method::Get && request.uri@ == "/"@) ==> r.content is Empty,
{
    let root = "/".to_owned();
    let is_root = request.uri == root;
    match (request.method, is_root) {
        (Method::Get, true) => match main_page {
            Some(file) => Response::new(200, Content::Html(file)),
            None => Response::new(404, Content::Text("File not found".to_owned())),
        },
        (_, _) => Response::new(404, Content::Empty),
    }
}

/// The wire bytes that one full step answers an accepted request with.
pub open spec fn spec_response_bytes(o: SpecRequest, page: Option<Seq<u8>>, close: bool) -> Seq<
    u8,
> {
    spec_encode_parts(
        spec_handle(o.method, decode_utf8(o.uri), page).0,
        spec_close_headers(Seq::empty(), close),
        spec_handle(o.method, decode_utf8(o.uri), page).1,
        spec_handle(o.method, decode_utf8(o.uri), page).2,
        spec_negotiated(None, lookup(decoded_pairs(o.headers), "Accept-Encoding"@)),
    )
}

/// One full step on a buffered connection went as the codec prescribes.
pub open spec fn process_ok(
    s: Seq<u8>,
    page: Option<Seq<u8>>,
    bytes: Seq<u8>,
    n: int,
    close: bool,
) -> bool {
    &&& spec_decode(s) matches DecodeOutcome::Accepted(o, c)
    &&& n == c
    &&& close == spec_wants_close(decoded_pairs(o.headers))
    &&& bytes == spec_response_bytes(o, page, close)
}

/// One decode–dispatch–encode step on the buffered bytes of a connection.
///
/// Returns the wire bytes to write back, how many bytes of `buf` were
/// consumed (the caller advances its buffer by that much), and whether the
/// connection must be closed after writing. Returns nothing when no request
/// could be decoded; the caller then keeps the buffer and reads on.
pub fn process_buffer(buf: &[u8], main_page: Option<Vec<u8>>) -> (r: Option<
    (Vec<u8>, usize, bool),
>)
    ensures
        match r {
            Some((bytes, n, close)) => process_ok(
                buf@,
                match main_page {
                    Some(f) => Some(f@),
                    None => None,
                },
                bytes@,
                n as int,
                close,
            ) && n <= buf@.len(),
            None => spec_decode(buf@) matches DecodeOutcome::Rejected(_),
        },
{
    let (req, n) = match decode_http_request(buf) {
        Err(_) => {
            return None;
        },
        Ok(x) => x,
    };
    let should_close = wants_close(&req);
    let ae_key = "Accept-Encoding".to_owned();
    let accept: Option<String> = match req.headers.get(&ae_key) {
        Some(v) => Some(v.clone()),
        None => None,
    };
    let mut response = handle_request(req, main_page);
    match &accept {
        Some(a) => finalize_response(&mut response, should_close, Some(a)),
        None => finalize_response(&mut response, should_close, None),
    }
    let bytes = encode_response(response);
    Some((bytes, n, should_close))
}

/// Law: whenever the client asked to close, the headers of the encoded
/// response carry `Connection: close`, whatever the payload and encoding.
pub proof fn lemma_close_negotiation(
    ct: Option<Seq<char>>,
    plain: Seq<u8>,
    e: Option<Encoding>,
)
    ensures
        lookup(
            spec_final_headers(spec_close_headers(Seq::empty(), true), ct, plain, e),
            "Connection"@,
        ) == Some("close"@),
{
    reveal_strlit("Connection");
    reveal_strlit("close");
    reveal_strlit("Content-Type");
    reveal_strlit("Content-Encoding");
    reveal_strlit("Content-Length");
    let h0 = spec_close_headers(Seq::empty(), true);
    assert(h0 =~= seq![("Connection"@, "close"@)]);
    assert(lookup(h0, "Connection"@) == Some("close"@));
    let h1 = crate::encode::spec_type_headers(h0, ct);
    assert(lookup(h1, "Connection"@) == Some("close"@)) by {
        match ct {
            Some(t) => {
                assert("Connection"@.len() == 10);
                assert("Content-Type"@.len() == 12);
                lemma_lookup_insert_other(h0, "Content-Type"@, t, "Connection"@);
            },
            None => {},
        }
    }
    let h2 = crate::encode::spec_encoding_headers(h1, e);
    assert(lookup(h2, "Connection"@) == Some("close"@)) by {
        match e {
            Some(Encoding::Gzip) => {
                assert("Connection"@.len() == 10);
                assert("Content-Encoding"@.len() == 16);
                lemma_lookup_insert_other(h1, "Content-Encoding"@, "gzip"@, "Connection"@);
            },
            None => {},
        }
    }
    assert("Connection"@.len() == 10);
    assert("Content-Length"@.len() == 14);
    lemma_lookup_insert_other(
        h2,
        "Content-Length"@,
        crate::encode::dec_chars(crate::encode::spec_final_body(plain, e).len() as int),
        "Connection"@,
    );
}

} // verus!
