//! The response encoder: turns a `Response` value into wire-format bytes.
//!
//! The wire bytes are pinned down by `spec_encode`: a status line with a
//! canonical reason phrase, the headers in insertion order after the encoder
//! has added `Content-Type`, `Content-Encoding` and `Content-Length`, a blank
//! line, and the (possibly gzip-compressed) body. `Content-Length` is always
//! the length of the final body, computed after any compression.

use vstd::prelude::*;
use vstd::string::StringExecFns;
use vstd::utf8::encode_utf8;
use crate::bytesx::subvec;
use crate::headers::{insert_pair, Headers};
use std::io::Write;

verus! {

/// A response payload; each variant implies its `Content-Type`.
pub enum Content {
    Text(String),
    Bytes(Vec<u8>),
    OctetStream(Vec<u8>),
    Html(Vec<u8>),
    ImageXIcon(Vec<u8>),
    Empty,
}

/// A transfer encoding the encoder can apply to the body.
#[derive(Debug, Copy, Clone, PartialEq, Eq, Structural)]
pub enum Encoding {
    Gzip,
}

/// A response to be encoded.
pub struct Response {
    pub code: u16,
    pub content: Content,
    pub headers: Headers,
    pub content_encoding: Option<Encoding>,
}

impl Response {
    /// A response with the given status and payload, no headers and no
    /// transfer encoding.
    pub fn new(code: u16, content: Content) -> (r: Response)
        ensures
            r.code == code,
            r.content == content,
            r.headers@ == Seq::<(Seq<char>, Seq<char>)>::empty(),
            r.content_encoding is None,
    {
        Response { code, content, headers: Headers::new(), content_encoding: None }
    }
}

/// The gzip stream that flate2 produces for the given bytes at the default
/// compression level.
pub uninterp spec fn gzip_of(bytes: Seq<u8>) -> Seq<u8>;

/// Relies on flate2's `GzEncoder` over a `Vec` sink: its output depends on
/// the input bytes alone (default level, zero mtime, fixed OS byte), and
/// writing to a `Vec` cannot fail.
#[verifier::external_body]
fn gzip_compress(data: &[u8]) -> (r: Vec<u8>)
    ensures
        r@ == gzip_of(data@),
{
    let mut enc = flate2::write::GzEncoder::new(Vec::new(), flate2::Compression::default());
    enc.write_all(data).unwrap();
    enc.finish().unwrap()
}

/// The body bytes a payload carries before any transfer encoding.
pub open spec fn spec_plain_body(c: Content) -> Seq<u8> {
    match c {
        Content::Text(t) => encode_utf8(t@),
        Content::Bytes(b) => b@,
        Content::OctetStream(b) => b@,
        Content::Html(b) => b@,
        Content::ImageXIcon(b) => b@,
        Content::Empty => Seq::empty(),
    }
}

/// The body bytes actually sent: compressed when gzip was requested.
pub open spec fn spec_final_body(plain: Seq<u8>, e: Option<Encoding>) -> Seq<u8> {
    match e {
        Some(Encoding::Gzip) => gzip_of(plain),
        None => plain,
    }
}

/// The `Content-Type` value a payload implies, if any.
pub open spec fn spec_content_type(c: Content) -> Option<Seq<char>> {
    match c {
        Content::Text(_) => Some("text/plain"@),
        Content::Bytes(_) => None,
        Content::OctetStream(_) => Some("application/octet-stream"@),
        Content::Html(_) => Some("text/html"@),
        Content::ImageXIcon(_) => Some("image/x-icon"@),
        Content::Empty => None,
    }
}

/// The decimal digit characters of a non-negative number.
pub open spec fn dec_chars(n: int) -> Seq<char>
    recommends
        n >= 0,
    decreases n,
{
    if n < 10 {
        seq![digit_char(n)]
    } else {
        dec_chars(n / 10).push(digit_char(n % 10))
    }
}

/// The character for one decimal digit.
pub open spec fn digit_char(d: int) -> char {
    if d == 0 {
        '0'
    } else if d == 1 {
        '1'
    } else if d == 2 {
        '2'
    } else if d == 3 {
        '3'
    } else if d == 4 {
        '4'
    } else if d == 5 {
        '5'
    } else if d == 6 {
        '6'
    } else if d == 7 {
        '7'
    } else if d == 8 {
        '8'
    } else {
        '9'
    }
}

/// Appends the decimal digits of `n` to `s`.
fn append_dec(s: &mut String, n: usize)
    ensures
        final(s)@ == old(s)@ + dec_chars(n as int),
    decreases n,
{
    if n >= 10 {
        append_dec(s, n / 10);
    }
    let d = n % 10;
    let ds: &str = if d == 0 {
        "0"
    } else if d == 1 {
        "1"
    } else if d == 2 {
        "2"
    } else if d == 3 {
        "3"
    } else if d == 4 {
        "4"
    } else if d == 5 {
        "5"
    } else if d == 6 {
        "6"
    } else if d == 7 {
        "7"
    } else if d == 8 {
        "8"
    } else {
        "9"
    };
    proof {
        reveal_strlit("0");
        reveal_strlit("1");
        reveal_strlit("2");
        reveal_strlit("3");
        reveal_strlit("4");
        reveal_strlit("5");
        reveal_strlit("6");
        reveal_strlit("7");
        reveal_strlit("8");
        reveal_strlit("9");
        assert(ds@ == seq![digit_char(d as int)]);
    }
    s.append(ds);
    proof {
        if n >= 10 {
            assert(old(s)@ + dec_chars((n / 10) as int) + seq![digit_char(d as int)] =~= old(
                s,
            )@ + dec_chars(n as int));
        } else {
            assert(old(s)@ + seq![digit_char(n as int)] =~= old(s)@ + dec_chars(n as int));
        }
    }
}

/// The canonical status text: the code and its reason phrase. Codes outside
/// the supported set collapse to the internal-error phrase, code included.
pub open spec fn spec_status_text(code: u16) -> Seq<char> {
    if code == 200 {
        "200 OK"@
    } else if code == 201 {
        "201 Created"@
    } else if code == 404 {
        "404 Not Found"@
    } else {
        "500 Internal Server Error"@
    }
}

/// The header block rendered as text: each pair as `Name: Value\r\n`, in
/// insertion order.
pub open spec fn render_headers(hs: Seq<(Seq<char>, Seq<char>)>) -> Seq<char>
    decreases hs.len(),
{
    if hs.len() == 0 {
        Seq::empty()
    } else {
        render_headers(hs.drop_last()) + hs.last().0 + ": "@ + hs.last().1 + "\r\n"@
    }
}

/// The headers an encoded response carries: the caller's headers plus the
/// implied `Content-Type`, `Content-Encoding` when gzip was applied, and the
/// exact `Content-Length` of the final body, in that insertion order.
pub open spec fn spec_final_headers(
    h: Seq<(Seq<char>, Seq<char>)>,
    ct: Option<Seq<char>>,
    plain: Seq<u8>,
    e: Option<Encoding>,
) -> Seq<(Seq<char>, Seq<char>)> {
    insert_pair(
        spec_encoding_headers(spec_type_headers(h, ct), e),
        "Content-Length"@,
        dec_chars(spec_final_body(plain, e).len() as int),
    )
}

/// The headers after the implied `Content-Type` is added.
pub open spec fn spec_type_headers(h: Seq<(Seq<char>, Seq<char>)>, ct: Option<Seq<char>>) -> Seq<
    (Seq<char>, Seq<char>),
> {
    match ct {
        Some(t) => insert_pair(h, "Content-Type"@, t),
        None => h,
    }
}

/// The headers after `Content-Encoding` is added when gzip was applied.
pub open spec fn spec_encoding_headers(
    h: Seq<(Seq<char>, Seq<char>)>,
    e: Option<Encoding>,
) -> Seq<(Seq<char>, Seq<char>)> {
    match e {
        Some(Encoding::Gzip) => insert_pair(h, "Content-Encoding"@, "gzip"@),
        None => h,
    }
}

/// The text before the body: status line, headers, and a blank line.
pub open spec fn spec_head_chars(
    code: u16,
    h: Seq<(Seq<char>, Seq<char>)>,
    ct: Option<Seq<char>>,
    plain: Seq<u8>,
    e: Option<Encoding>,
) -> Seq<char> {
    "HTTP/1.1 "@ + spec_status_text(code) + "\r\n"@ + render_headers(
        spec_final_headers(h, ct, plain, e),
    ) + "\r\n"@
}

/// The wire bytes built from the parts of a response: the status line and
/// headers as UTF-8 text, then the final body.
pub open spec fn spec_encode_parts(
    code: u16,
    h: Seq<(Seq<char>, Seq<char>)>,
    ct: Option<Seq<char>>,
    plain: Seq<u8>,
    e: Option<Encoding>,
) -> Seq<u8> {
    encode_utf8(spec_head_chars(code, h, ct, plain, e)) + spec_final_body(plain, e)
}

/// The wire bytes of a response.
pub open spec fn spec_encode(resp: Response) -> Seq<u8> {
    spec_encode_parts(
        resp.code,
        resp.headers@,
        spec_content_type(resp.content),
        spec_plain_body(resp.content),
        resp.content_encoding,
    )
}

/// Law: when gzip is requested, the encoded body is exactly the gzip stream
/// of the body that the plain encoding of the same payload carries.
pub proof fn lemma_gzip_body(plain: Seq<u8>)
    ensures
        spec_final_body(plain, Some(Encoding::Gzip)) == gzip_of(spec_final_body(plain, None)),
{
}

/// Law: the `Content-Length` header of an encoded response is the decimal
/// length of the final body, whatever headers the response already carried.
pub proof fn lemma_content_length(
    h: Seq<(Seq<char>, Seq<char>)>,
    ct: Option<Seq<char>>,
    plain: Seq<u8>,
    e: Option<Encoding>,
)
    ensures
        crate::headers::lookup(spec_final_headers(h, ct, plain, e), "Content-Length"@) == Some(
            dec_chars(spec_final_body(plain, e).len() as int),
        ),
{
    let base = spec_encoding_headers(spec_type_headers(h, ct), e);
    let k = "Content-Length"@;
    let v = dec_chars(spec_final_body(plain, e).len() as int);
    crate::headers::lemma_find_key_props(base, k, 0);
    match crate::headers::find_key(base, k, 0) {
        Some(p) => {
            let u = base.update(p, (k, v));
            crate::headers::lemma_find_key_first(u, k, p);
        },
        None => {
            let u = base.push((k, v));
            crate::headers::lemma_find_key_first(u, k, base.len() as int);
        },
    }
}

/// Encodes a response into wire bytes, consuming it.
#[verifier::loop_isolation(false)]
pub fn encode_response(response: Response) -> (r: Vec<u8>)
    ensures
        r@ == spec_encode(response),
{
    let ghost resp0: Response = response;
    let Response { code, content, mut headers, content_encoding } = response;
    // content materialization: body bytes and implied Content-Type
    let mut body: Vec<u8> = match &content {
        Content::Text(t) => {
            headers.insert("Content-Type".to_owned(), "text/plain".to_owned());
            let b = t.as_str().as_bytes();
            subvec(b, 0, b.len())
        },
        Content::Bytes(b) => subvec(b.as_slice(), 0, b.len()),
        Content::OctetStream(b) => {
            headers.insert("Content-Type".to_owned(), "application/octet-stream".to_owned());
            subvec(b.as_slice(), 0, b.len())
        },
        Content::Html(b) => {
            headers.insert("Content-Type".to_owned(), "text/html".to_owned());
            subvec(b.as_slice(), 0, b.len())
        },
        Content::ImageXIcon(b) => {
            headers.insert("Content-Type".to_owned(), "image/x-icon".to_owned());
            subvec(b.as_slice(), 0, b.len())
        },
        Content::Empty => Vec::new(),
    };
    assert(body@ =~= spec_plain_body(resp0.content));
    assert(headers@ == spec_type_headers(resp0.headers@, spec_content_type(resp0.content)));
    // encoding transform
    match &content_encoding {
        None => {},
        Some(Encoding::Gzip) => {
            headers.insert("Content-Encoding".to_owned(), "gzip".to_owned());
            body = gzip_compress(body.as_slice());
        },
    }
    assert(body@ == spec_final_body(spec_plain_body(resp0.content), resp0.content_encoding));
    // framing: the length of the final body, then the head text
    let mut lenstr = String::new();
    append_dec(&mut lenstr, body.len());
    headers.insert("Content-Length".to_owned(), lenstr);
    assert(headers@ == spec_final_headers(
        resp0.headers@,
        spec_content_type(resp0.content),
        spec_plain_body(resp0.content),
        resp0.content_encoding,
    ));
    let mut head = String::new();
    head.append("HTTP/1.1 ");
    head.append(
        match code {
            200 => "200 OK",
            201 => "201 Created",
            404 => "404 Not Found",
            _ => "500 Internal Server Error",
        },
    );
    head.append("\r\n");
    let ghost base = "HTTP/1.1 "@ + spec_status_text(code) + "\r\n"@;
    assert(head@ =~= base);
    let n = headers.len();
    let mut i: usize = 0;
    while i < n
        invariant
            0 <= i <= n,
            n == headers@.len(),
            head@ == base + render_headers(headers@.take(i as int)),
        decreases n - i,
    {
        let (k, v) = headers.index(i);
        head.append(k.as_str());
        head.append(": ");
        head.append(v.as_str());
        head.append("\r\n");
        proof {
            let hs = headers@.take(i as int + 1);
            assert(hs.drop_last() =~= headers@.take(i as int));
            assert(hs.last() == headers@[i as int]);
            assert(head@ =~= base + render_headers(hs));
        }
        i = i + 1;
    }
    assert(headers@.take(n as int) =~= headers@);
    head.append("\r\n");
    assert(head@ =~= spec_head_chars(
        resp0.code,
        resp0.headers@,
        spec_content_type(resp0.content),
        spec_plain_body(resp0.content),
        resp0.content_encoding,
    ));
    let hb = head.as_str().as_bytes();
    let mut out = subvec(hb, 0, hb.len());
    out.append(&mut body);
    assert(out@ =~= spec_encode(resp0));
    out
}


/// The digit characters and digit bytes of a number line up one for one.
proof fn lemma_dec_repr(n: int)
    requires
        n >= 0,
    ensures
        dec_chars(n).len() == crate::decode::dec_bytes(n).len(),
        forall|i: int|
            0 <= i < dec_chars(n).len() ==> '0' <= #[trigger] dec_chars(n)[i] <= '9' && (
            dec_chars(n)[i] as u8) == crate::decode::dec_bytes(n)[i],
    decreases n,
{
    let cs = dec_chars(n);
    let bs = crate::decode::dec_bytes(n);
    if n < 10 {
        assert(cs == seq![digit_char(n)]);
        assert(bs == seq![(48 + n) as u8]);
        assert('0' <= digit_char(n) <= '9' && (digit_char(n) as u8) == 48 + n);
    } else {
        lemma_dec_repr(n / 10);
        assert(cs.drop_last() =~= dec_chars(n / 10));
        assert(bs.drop_last() =~= crate::decode::dec_bytes(n / 10));
        assert(cs.last() == digit_char(n % 10));
        assert(bs.last() == (48 + (n % 10)) as u8);
        assert('0' <= digit_char(n % 10) <= '9' && (digit_char(n % 10) as u8) == 48 + (n % 10));
        assert forall|i: int|
            0 <= i < cs.len() implies '0' <= #[trigger] cs[i] <= '9' && (cs[i] as u8) == bs[i] by {
            if i < cs.len() - 1 {
                assert(cs[i] == dec_chars(n / 10)[i]);
                assert(bs[i] == crate::decode::dec_bytes(n / 10)[i]);
            }
        }
    }
}

/// Law: the `Content-Length` text the encoder writes, put on the wire as
/// UTF-8, parses back to exactly the number it was written from. Together
/// with `lemma_content_length`, the header a response carries names the true
/// byte length of its final body.
pub proof fn lemma_content_length_round(n: usize)
    ensures
        crate::decode::parse_dec(encode_utf8(dec_chars(n as int))) == Some(n),
{
    lemma_dec_repr(n as int);
    let cs = dec_chars(n as int);
    let bs = crate::decode::dec_bytes(n as int);
    assert(vstd::utf8::is_ascii_chars(cs)) by {
        assert(forall|i: int| 0 <= i < cs.len() ==> '\0' <= #[trigger] cs[i] <= '\u{7f}');
    }
    vstd::utf8::is_ascii_chars_encode_utf8(cs);
    assert(encode_utf8(cs) =~= bs);
    crate::decode::lemma_parse_dec_round(n);
}

} // verus!
