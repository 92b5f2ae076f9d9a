//! The request decoder: parses a prefix of a raw byte buffer into a
//! structured `Request` plus the number of bytes consumed, or a typed error.
//!
//! The wire-level meaning of a buffer is pinned down by `spec_decode`, a pure
//! function over the byte sequence: find the first `\r\n\r\n`, read the bytes
//! before it as UTF-8 text, split the text into a request line and header
//! lines, and slice the body by `Content-Length`. The executable decoder is
//! proved to return exactly what `spec_decode` says, and never to consume
//! more bytes than the buffer holds.

use vstd::prelude::*;
use vstd::string::StringSliceAdditionalSpecFns;
use vstd::utf8::{decode_utf8, encode_utf8, valid_utf8};
use crate::bytesx::{bytes_eq, find_byte, find_byte_from, lemma_find_byte_bounds, subvec};
use crate::headers::{find_key, insert_pair, lookup, Headers};

verus! {

/// The request methods this codec understands.
#[derive(Debug, Copy, Clone, PartialEq, Eq, Structural)]
pub enum Method {
    Get,
    Post,
}

/// Why a buffer prefix could not be decoded into a request.
#[derive(Debug)]
pub enum DecodeHttpError {
    /// The header section is incomplete, not yet fully buffered, or malformed.
    InvalidHeader,
    /// The method token is outside the supported set; carries the token.
    InvalidMethod(String),
    /// The `Content-Length` value is not a non-negative integer that fits.
    ParsingContentError,
}

/// A decoded request.
pub struct Request {
    pub method: Method,
    pub uri: String,
    pub headers: Headers,
    pub content: Vec<u8>,
}

/// Relies on `String::from_utf8`: returns the decoded string exactly when
/// the bytes are valid UTF-8, as `vstd::utf8` defines validity and decoding.
#[verifier::external_body]
fn bytes_to_string(v: Vec<u8>) -> (r: Option<String>)
    ensures
        r is Some <==> valid_utf8(v@),
        r matches Some(s) ==> s@ == decode_utf8(v@),
{
    match String::from_utf8(v) {
        Ok(s) => Some(s),
        Err(_) => None,
    }
}

/// True when the four-byte header terminator `\r\n\r\n` sits at `i`.
pub open spec fn is_term_at(s: Seq<u8>, i: int) -> bool {
    &&& 0 <= i
    &&& i + 4 <= s.len()
    &&& s[i] == 13u8
    &&& s[i + 1] == 10u8
    &&& s[i + 2] == 13u8
    &&& s[i + 3] == 10u8
}

/// The first position at or after `i` where the header terminator occurs.
pub open spec fn find_term_from(s: Seq<u8>, i: int) -> Option<int>
    decreases s.len() - i,
{
    if i < 0 || i + 4 > s.len() {
        None
    } else if is_term_at(s, i) {
        Some(i)
    } else {
        find_term_from(s, i + 1)
    }
}

/// Finds the first header terminator in `s`.
fn find_term(s: &[u8]) -> (r: Option<usize>)
    ensures
        match r {
            Some(t) => t + 4 <= s@.len() && find_term_from(s@, 0) == Some(t as int),
            None => find_term_from(s@, 0) is None,
        },
{
    let n: usize = s.len();
    if n < 4 {
        return None;
    }
    let mut i: usize = 0;
    while i <= n - 4
        invariant
            4 <= n,
            0 <= i <= n - 3,
            n == s@.len(),
            find_term_from(s@, 0) == find_term_from(s@, i as int),
        decreases n - i,
    {
        if s[i] == 13 && s[i + 1] == 10 && s[i + 2] == 13 && s[i + 3] == 10 {
            return Some(i);
        }
        assert(find_term_from(s@, i as int) == find_term_from(s@, i as int + 1));
        i = i + 1;
    }
    assert(find_term_from(s@, i as int) is None);
    None
}

/// ASCII whitespace, as the request line and header values are trimmed.
pub open spec fn is_ws(b: u8) -> bool {
    b == 32u8 || (9u8 <= b && b <= 13u8)
}

fn is_ws_b(b: u8) -> (r: bool)
    ensures
        r == is_ws(b),
{
    b == 32 || (9 <= b && b <= 13)
}

/// The sequence of lines in `s`, split on `\n`, each stripped of one
/// trailing `\r`; a final empty piece after a trailing `\n` is dropped.
pub open spec fn strip_cr(s: Seq<u8>) -> Seq<u8> {
    if s.len() > 0 && s.last() == 13u8 {
        s.drop_last()
    } else {
        s
    }
}

/// The lines of `s` starting at offset `i`.
pub open spec fn split_lines_from(s: Seq<u8>, i: int) -> Seq<Seq<u8>>
    decreases s.len() - i,
        via split_lines_from_decreases
{
    if i < 0 || i >= s.len() {
        Seq::empty()
    } else {
        match find_byte_from(s, 10u8, i) {
            None => seq![strip_cr(s.subrange(i, s.len() as int))],
            Some(j) => seq![strip_cr(s.subrange(i, j))] + split_lines_from(s, j + 1),
        }
    }
}

#[via_fn]
proof fn split_lines_from_decreases(s: Seq<u8>, i: int) {
    if 0 <= i < s.len() {
        lemma_find_byte_bounds(s, 10u8, i);
    }
}

/// The views of a vector of byte vectors.
pub open spec fn views_of(v: Seq<Vec<u8>>) -> Seq<Seq<u8>> {
    v.map(|i: int, x: Vec<u8>| x@)
}

/// Strips one trailing `\r` from a line.
fn strip_cr_vec(p: Vec<u8>) -> (r: Vec<u8>)
    ensures
        r@ == strip_cr(p@),
{
    let mut p = p;
    let n = p.len();
    if n > 0 && p[n - 1] == 13 {
        p.pop();
    }
    p
}

/// Splits `v` into lines, as `str::lines` does at the byte level.
fn split_lines(v: &[u8]) -> (r: Vec<Vec<u8>>)
    ensures
        views_of(r@) == split_lines_from(v@, 0),
{
    let n: usize = v.len();
    let mut r: Vec<Vec<u8>> = Vec::new();
    let mut i: usize = 0;
    while i < n
        invariant
            0 <= i <= n,
            n == v@.len(),
            split_lines_from(v@, 0) == views_of(r@) + split_lines_from(v@, i as int),
        decreases n - i,
    {
        let ghost prev = r@;
        let ghost i0 = i as int;
        match find_byte(v, 10, i) {
            Some(j) => {
                let piece = strip_cr_vec(subvec(v, i, j));
                r.push(piece);
                proof {
                    assert(views_of(r@) =~= views_of(prev) + seq![strip_cr(v@.subrange(i0, j as int))]);
                    assert(split_lines_from(v@, i0) == seq![strip_cr(v@.subrange(i0, j as int))]
                        + split_lines_from(v@, j + 1));
                    assert(views_of(prev) + split_lines_from(v@, i0) =~= views_of(r@)
                        + split_lines_from(v@, j + 1));
                }
                i = j + 1;
            },
            None => {
                let piece = strip_cr_vec(subvec(v, i, n));
                r.push(piece);
                proof {
                    assert(views_of(r@) =~= views_of(prev) + seq![strip_cr(v@.subrange(i0, n as int))]);
                    assert(split_lines_from(v@, i0) == seq![strip_cr(v@.subrange(i0, n as int))]);
                    assert(views_of(prev) + split_lines_from(v@, i0) =~= views_of(r@)
                        + split_lines_from(v@, n as int));
                }
                i = n;
            },
        }
    }
    proof {
        assert(views_of(r@) + split_lines_from(v@, n as int) =~= views_of(r@));
    }
    r
}

/// The first position at or after `i` holding whitespace, or the length.
pub open spec fn next_ws(s: Seq<u8>, i: int) -> int
    decreases s.len() - i,
{
    if i < 0 || i >= s.len() {
        s.len() as int
    } else if is_ws(s[i]) {
        i
    } else {
        next_ws(s, i + 1)
    }
}

/// `next_ws` stays between its argument and the length.
pub proof fn lemma_next_ws(s: Seq<u8>, i: int)
    requires
        0 <= i <= s.len(),
    ensures
        i <= next_ws(s, i) <= s.len(),
    decreases s.len() - i,
{
    if i < s.len() && !is_ws(s[i]) {
        lemma_next_ws(s, i + 1);
    }
}

/// The whitespace-separated tokens of `s` starting at offset `i`.
pub open spec fn split_ws_from(s: Seq<u8>, i: int) -> Seq<Seq<u8>>
    decreases s.len() - i, 1int
        via split_ws_from_decreases
{
    if i < 0 || i >= s.len() {
        Seq::empty()
    } else if is_ws(s[i]) {
        split_ws_from(s, i + 1)
    } else {
        seq![s.subrange(i, next_ws(s, i))] + split_ws_from(s, next_ws(s, i))
    }
}

#[via_fn]
proof fn split_ws_from_decreases(s: Seq<u8>, i: int) {
    if 0 <= i < s.len() && !is_ws(s[i]) {
        lemma_next_ws(s, i + 1);
        assert(next_ws(s, i) == next_ws(s, i + 1));
    }
}

/// Splits `v` into whitespace-separated tokens.
fn split_ws(v: &[u8]) -> (r: Vec<Vec<u8>>)
    ensures
        views_of(r@) == split_ws_from(v@, 0),
{
    let n: usize = v.len();
    let mut r: Vec<Vec<u8>> = Vec::new();
    let mut i: usize = 0;
    while i < n
        invariant
            0 <= i <= n,
            n == v@.len(),
            split_ws_from(v@, 0) == views_of(r@) + split_ws_from(v@, i as int),
        decreases n - i,
    {
        if is_ws_b(v[i]) {
            assert(split_ws_from(v@, i as int) == split_ws_from(v@, i as int + 1));
            i = i + 1;
        } else {
            let ghost prev = r@;
            let ghost i0 = i as int;
            let mut j: usize = i + 1;
            while j < n && !is_ws_b(v[j])
                invariant
                    i < j <= n,
                    n == v@.len(),
                    next_ws(v@, i0) == next_ws(v@, j as int),
                    i0 == i as int,
                decreases n - j,
            {
                assert(next_ws(v@, j as int) == next_ws(v@, j as int + 1));
                j = j + 1;
            }
            assert(next_ws(v@, i0) == j as int);
            let tok = subvec(v, i, j);
            r.push(tok);
            proof {
                assert(views_of(r@) =~= views_of(prev) + seq![v@.subrange(i0, j as int)]);
                assert(split_ws_from(v@, i0) == seq![v@.subrange(i0, j as int)]
                    + split_ws_from(v@, j as int));
                assert(views_of(prev) + split_ws_from(v@, i0) =~= views_of(r@)
                    + split_ws_from(v@, j as int));
            }
            i = j;
        }
    }
    proof {
        assert(views_of(r@) + split_ws_from(v@, n as int) =~= views_of(r@));
    }
    r
}

/// The offset of the first non-whitespace byte at or after `i`.
pub open spec fn skip_ws_from(s: Seq<u8>, i: int) -> int
    decreases s.len() - i,
{
    if i < 0 || i >= s.len() {
        s.len() as int
    } else if !is_ws(s[i]) {
        i
    } else {
        skip_ws_from(s, i + 1)
    }
}

/// The offset just after the last non-whitespace byte before `i`.
pub open spec fn rskip_ws_to(s: Seq<u8>, i: int) -> int
    decreases i,
{
    if i <= 0 || i > s.len() {
        0
    } else if !is_ws(s[i - 1]) {
        i
    } else {
        rskip_ws_to(s, i - 1)
    }
}

/// `s` with leading and trailing ASCII whitespace removed.
pub open spec fn trim(s: Seq<u8>) -> Seq<u8> {
    let a = skip_ws_from(s, 0);
    let b = rskip_ws_to(s, s.len() as int);
    if a <= b {
        s.subrange(a, b)
    } else {
        Seq::empty()
    }
}

/// Trims ASCII whitespace from both ends of `v`.
pub fn trim_bytes(v: &[u8]) -> (r: Vec<u8>)
    ensures
        r@ == trim(v@),
{
    let n: usize = v.len();
    let mut a: usize = 0;
    while a < n && is_ws_b(v[a])
        invariant
            0 <= a <= n,
            n == v@.len(),
            skip_ws_from(v@, 0) == skip_ws_from(v@, a as int),
        decreases n - a,
    {
        assert(skip_ws_from(v@, a as int) == skip_ws_from(v@, a as int + 1));
        a = a + 1;
    }
    assert(skip_ws_from(v@, 0) == a as int);
    let mut b: usize = n;
    while b > 0 && is_ws_b(v[b - 1])
        invariant
            0 <= b <= n,
            n == v@.len(),
            rskip_ws_to(v@, n as int) == rskip_ws_to(v@, b as int),
        decreases b,
    {
        assert(rskip_ws_to(v@, b as int) == rskip_ws_to(v@, b as int - 1));
        b = b - 1;
    }
    assert(rskip_ws_to(v@, n as int) == b as int);
    if a <= b {
        subvec(v, a, b)
    } else {
        Vec::new()
    }
}

/// Which method a request-line token denotes.
pub open spec fn spec_method(tok: Seq<u8>) -> Option<Method> {
    if tok == "GET".spec_bytes() {
        Some(Method::Get)
    } else if tok == "POST".spec_bytes() {
        Some(Method::Post)
    } else {
        None
    }
}

/// Whether a digit in the ASCII sense.
pub open spec fn is_digit(b: u8) -> bool {
    48 <= b <= 57
}

/// All bytes of `s` are ASCII digits.
pub open spec fn all_digits(s: Seq<u8>) -> bool {
    forall|i: int| 0 <= i < s.len() ==> is_digit(#[trigger] s[i])
}

/// The numeric value of a digit string.
pub open spec fn dec_val(s: Seq<u8>) -> int
    decreases s.len(),
{
    if s.len() == 0 {
        0
    } else {
        dec_val(s.drop_last()) * 10 + (s.last() - 48)
    }
}

/// `s` without one leading `+` sign, if it has one.
pub open spec fn strip_plus(s: Seq<u8>) -> Seq<u8> {
    if s.len() > 0 && s[0] == 43u8 {
        s.drop_first()
    } else {
        s
    }
}

/// The digits after an optional sign, read as a number if they fit.
pub open spec fn parse_digits(t: Seq<u8>) -> Option<usize> {
    if t.len() > 0 && all_digits(t) && dec_val(t) <= usize::MAX {
        Some(dec_val(t) as usize)
    } else {
        None
    }
}

/// The value a digit string denotes, as `str::parse::<usize>` reads it: an
/// optional leading `+`, then one or more ASCII digits, fitting in `usize`.
pub open spec fn parse_dec(s: Seq<u8>) -> Option<usize> {
    parse_digits(strip_plus(s))
}

proof fn lemma_dec_val_nonneg(s: Seq<u8>)
    requires
        all_digits(s),
    ensures
        dec_val(s) >= 0,
    decreases s.len(),
{
    if s.len() > 0 {
        assert(all_digits(s.drop_last()));
        lemma_dec_val_nonneg(s.drop_last());
        assert(dec_val(s.drop_last()) * 10 >= 0) by (nonlinear_arith)
            requires dec_val(s.drop_last()) >= 0;
    }
}

proof fn lemma_dec_val_mono(s: Seq<u8>, m: int)
    requires
        all_digits(s),
        0 <= m <= s.len(),
    ensures
        dec_val(s.take(m)) <= dec_val(s),
    decreases s.len(),
{
    if m < s.len() {
        let d = s.drop_last();
        assert(all_digits(d));
        assert(d.take(m) =~= s.take(m));
        lemma_dec_val_mono(d, m);
        lemma_dec_val_nonneg(d);
        assert(dec_val(d) * 10 >= dec_val(d)) by (nonlinear_arith)
            requires dec_val(d) >= 0;
        assert(dec_val(s) >= dec_val(d));
    } else {
        assert(s.take(m) =~= s);
    }
}

/// Appending one digit multiplies the value by ten and adds the digit.
proof fn lemma_dec_val_snoc(s: Seq<u8>, a: int, b: int)
    requires
        0 <= a <= b < s.len(),
    ensures
        dec_val(s.subrange(a, b + 1)) == dec_val(s.subrange(a, b)) * 10 + (s[b] - 48),
        all_digits(s.subrange(a, b)) && is_digit(s[b]) ==> all_digits(s.subrange(a, b + 1)),
{
    let pre = s.subrange(a, b);
    let cur = s.subrange(a, b + 1);
    assert(cur.drop_last() =~= pre);
    assert(cur.last() == s[b]);
    if all_digits(pre) && is_digit(s[b]) {
        assert forall|i: int| 0 <= i < cur.len() implies is_digit(cur[i]) by {
            if i < b - a {
                assert(cur[i] == pre[i]);
            }
        }
    }
}

/// A string whose digits are malformed or too large parses to nothing.
proof fn lemma_parse_dec_none(v: Seq<u8>)
    requires
        !(strip_plus(v).len() > 0 && all_digits(strip_plus(v)) && dec_val(strip_plus(v))
            <= usize::MAX),
    ensures
        parse_dec(v) is None,
{
}

/// A well-formed digit string parses to its value.
proof fn lemma_parse_dec_some(v: Seq<u8>, x: usize)
    requires
        strip_plus(v).len() > 0,
        all_digits(strip_plus(v)),
        dec_val(strip_plus(v)) == x,
    ensures
        parse_dec(v) == Some(x),
{
}

/// Parses a decimal `usize` as `str::parse` would.
fn parse_dec_bytes(v: &[u8]) -> (r: Option<usize>)
    ensures
        r == parse_dec(v@),
{
    let n: usize = v.len();
    let mut i0: usize = 0;
    if n > 0 && v[0] == 43 {
        i0 = 1;
    }
    proof {
        assert(strip_plus(v@) =~= v@.subrange(i0 as int, n as int));
    }
    if i0 >= n {
        proof {
            lemma_parse_dec_none(v@);
        }
        return None;
    }
    let mut acc: usize = 0;
    let mut k: usize = i0;
    while k < n
        invariant
            i0 <= k <= n,
            i0 < n,
            n == v@.len(),
            strip_plus(v@) == v@.subrange(i0 as int, n as int),
            all_digits(v@.subrange(i0 as int, k as int)),
            acc == dec_val(v@.subrange(i0 as int, k as int)),
        decreases n - k,
    {
        let b = v[k];
        if !(48 <= b && b <= 57) {
            proof {
                assert(!is_digit(v@.subrange(i0 as int, n as int)[k - i0]));
                lemma_parse_dec_none(v@);
            }
            return None;
        }
        let d = (b - 48) as usize;
        proof {
            lemma_dec_val_snoc(v@, i0 as int, k as int);
        }
        let next = match acc.checked_mul(10) {
            Some(x) => x.checked_add(d),
            None => None,
        };
        match next {
            Some(y) => {
                acc = y;
            },
            None => {
                proof {
                    assert(dec_val(v@.subrange(i0 as int, k + 1)) > usize::MAX);
                    if all_digits(strip_plus(v@)) && dec_val(strip_plus(v@)) <= usize::MAX {
                        assert(v@.subrange(i0 as int, k + 1) =~= strip_plus(v@).take(
                            k + 1 - i0));
                        lemma_dec_val_mono(strip_plus(v@), k + 1 - i0);
                        assert(false);
                    }
                    lemma_parse_dec_none(v@);
                }
                return None;
            },
        }
        k = k + 1;
    }
    proof {
        lemma_parse_dec_some(v@, acc);
    }
    Some(acc)
}


/// The views of a vector of byte-pair entries.
pub open spec fn pair_views(v: Seq<(Vec<u8>, Vec<u8>)>) -> Seq<(Seq<u8>, Seq<u8>)> {
    v.map(|i: int, p: (Vec<u8>, Vec<u8>)| (p.0@, p.1@))
}

/// The byte pairs turned into text pairs.
pub open spec fn decoded_pairs(hs: Seq<(Seq<u8>, Seq<u8>)>) -> Seq<(Seq<char>, Seq<char>)> {
    hs.map(|i: int, p: (Seq<u8>, Seq<u8>)| (decode_utf8(p.0), decode_utf8(p.1)))
}

/// Every name and value in `hs` is valid UTF-8.
pub open spec fn pairs_valid(hs: Seq<(Seq<u8>, Seq<u8>)>) -> bool {
    forall|j: int| 0 <= j < hs.len() ==> valid_utf8((#[trigger] hs[j]).0) && valid_utf8(hs[j].1)
}

/// Copies a byte vector.
fn copy_vec(v: &Vec<u8>) -> (r: Vec<u8>)
    ensures
        r@ == v@,
{
    let r = subvec(v.as_slice(), 0, v.len());
    assert(r@ =~= v@);
    r
}

/// Finds the position of `k` among the byte pairs.
fn pairs_position(ps: &Vec<(Vec<u8>, Vec<u8>)>, k: &[u8]) -> (r: Option<usize>)
    ensures
        match r {
            Some(p) => p < ps@.len() && find_key(pair_views(ps@), k@, 0) == Some(p as int),
            None => find_key(pair_views(ps@), k@, 0) is None,
        },
{
    let n: usize = ps.len();
    let mut i: usize = 0;
    while i < n
        invariant
            0 <= i <= n,
            n == ps@.len(),
            find_key(pair_views(ps@), k@, 0) == find_key(pair_views(ps@), k@, i as int),
        decreases n - i,
    {
        assert(pair_views(ps@)[i as int] == (ps@[i as int].0@, ps@[i as int].1@));
        if bytes_eq(ps[i].0.as_slice(), k) {
            assert(find_key(pair_views(ps@), k@, i as int) == Some(i as int));
            return Some(i);
        }
        assert(find_key(pair_views(ps@), k@, i as int) == find_key(
            pair_views(ps@),
            k@,
            i as int + 1,
        ));
        i = i + 1;
    }
    None
}

/// The value bound to `k` among the byte pairs, if any.
fn pairs_get<'a>(ps: &'a Vec<(Vec<u8>, Vec<u8>)>, k: &[u8]) -> (r: Option<&'a Vec<u8>>)
    ensures
        match r {
            Some(v) => lookup(pair_views(ps@), k@) == Some(v@),
            None => lookup(pair_views(ps@), k@) is None,
        },
{
    match pairs_position(ps, k) {
        Some(p) => {
            assert(pair_views(ps@)[p as int] == (ps@[p as int].0@, ps@[p as int].1@));
            Some(&ps[p].1)
        },
        None => None,
    }
}

/// Binds `k` to `v` among the byte pairs, replacing in place.
fn pairs_insert(ps: &mut Vec<(Vec<u8>, Vec<u8>)>, k: Vec<u8>, v: Vec<u8>)
    ensures
        pair_views(final(ps)@) == insert_pair(pair_views(old(ps)@), k@, v@),
{
    let ghost before = pair_views(ps@);
    match pairs_position(ps, k.as_slice()) {
        Some(p) => {
            ps.remove(p);
            ps.insert(p, (k, v));
            assert(pair_views(ps@) =~= before.update(p as int, (k@, v@)));
        },
        None => {
            ps.push((k, v));
            assert(pair_views(ps@) =~= before.push((k@, v@)));
        },
    }
}

/// The header pairs read from `lines[i..]`, added to `acc`: each line is
/// split at its first `:`; name and value are trimmed; later duplicate
/// names overwrite earlier ones. A line without `:` spoils the whole parse.
pub open spec fn parse_headers_from(
    lines: Seq<Seq<u8>>,
    i: int,
    acc: Seq<(Seq<u8>, Seq<u8>)>,
) -> Option<Seq<(Seq<u8>, Seq<u8>)>>
    decreases lines.len() - i,
{
    if i < 0 || i >= lines.len() {
        Some(acc)
    } else {
        match find_byte_from(lines[i], 58u8, 0) {
            None => None,
            Some(j) => parse_headers_from(
                lines,
                i + 1,
                insert_pair(
                    acc,
                    trim(lines[i].subrange(0, j)),
                    trim(lines[i].subrange(j + 1, lines[i].len() as int)),
                ),
            ),
        }
    }
}

/// A successful header parse keeps keys unique.
proof fn lemma_parse_headers_unique(
    lines: Seq<Seq<u8>>,
    i: int,
    acc: Seq<(Seq<u8>, Seq<u8>)>,
)
    requires
        0 <= i,
        crate::headers::unique_keys(acc),
    ensures
        match parse_headers_from(lines, i, acc) {
            Some(hb) => crate::headers::unique_keys(hb),
            None => true,
        },
    decreases lines.len() - i,
{
    if i < lines.len() {
        match find_byte_from(lines[i], 58u8, 0) {
            None => {},
            Some(j) => {
                let k = trim(lines[i].subrange(0, j));
                let v = trim(lines[i].subrange(j + 1, lines[i].len() as int));
                crate::headers::lemma_insert_unique(acc, k, v);
                lemma_parse_headers_unique(lines, i + 1, insert_pair(acc, k, v));
            },
        }
    }
}

/// Text decoding is injective on valid UTF-8 byte sequences.
proof fn lemma_decode_injective(a: Seq<u8>, b: Seq<u8>)
    requires
        valid_utf8(a),
        valid_utf8(b),
        decode_utf8(a) == decode_utf8(b),
    ensures
        a == b,
{
    broadcast use vstd::utf8::decode_utf8_encode_utf8;

    assert(encode_utf8(decode_utf8(a)) == a);
    assert(encode_utf8(decode_utf8(b)) == b);
}

/// Parses the header lines (all lines after the request line) into byte
/// pairs.
fn parse_header_pairs(lines: &Vec<Vec<u8>>) -> (r: Option<Vec<(Vec<u8>, Vec<u8>)>>)
    requires
        lines@.len() >= 1,
    ensures
        match r {
            Some(ps) => parse_headers_from(views_of(lines@), 1, Seq::empty()) == Some(
                pair_views(ps@),
            ),
            None => parse_headers_from(views_of(lines@), 1, Seq::empty()) is None,
        },
{
    let ghost lv = views_of(lines@);
    let n: usize = lines.len();
    let mut ps: Vec<(Vec<u8>, Vec<u8>)> = Vec::new();
    assert(pair_views(ps@) =~= Seq::<(Seq<u8>, Seq<u8>)>::empty());
    let mut i: usize = 1;
    while i < n
        invariant
            1 <= i <= n,
            n == lines@.len(),
            lv == views_of(lines@),
            parse_headers_from(lv, 1, Seq::empty()) == parse_headers_from(
                lv,
                i as int,
                pair_views(ps@),
            ),
        decreases n - i,
    {
        let line = &lines[i];
        assert(lv[i as int] == line@);
        let ll: usize = line.len();
        match find_byte(line.as_slice(), 58, 0) {
            None => {
                return None;
            },
            Some(j) => {
                let name = trim_bytes(subvec(line.as_slice(), 0, j).as_slice());
                let value = trim_bytes(subvec(line.as_slice(), j + 1, ll).as_slice());
                let ghost kk = trim(lv[i as int].subrange(0, j as int));
                let ghost vv = trim(lv[i as int].subrange(j + 1, lv[i as int].len() as int));
                assert(name@ == kk);
                assert(value@ == vv);
                let ghost before = pair_views(ps@);
                pairs_insert(&mut ps, name, value);
                assert(parse_headers_from(lv, i as int, before) == parse_headers_from(
                    lv,
                    i as int + 1,
                    insert_pair(before, kk, vv),
                ));
                i = i + 1;
            },
        }
    }
    Some(ps)
}

/// A parsed request, in wire-level terms: the method, the raw bytes of the
/// URI token, the trimmed raw bytes of each header pair, and the body.
pub struct SpecRequest {
    pub method: Method,
    pub uri: Seq<u8>,
    pub headers: Seq<(Seq<u8>, Seq<u8>)>,
    pub body: Seq<u8>,
}

/// The wire-level decode errors.
pub enum SpecDecodeError {
    InvalidHeader,
    InvalidMethod(Seq<u8>),
    ParsingContentError,
}

/// What a buffer prefix means: a request and how many bytes it took, or why
/// it is refused.
pub enum DecodeOutcome {
    Accepted(SpecRequest, int),
    Rejected(SpecDecodeError),
}

/// The bytes of the `Content-Type` header name.
pub open spec fn ct_key() -> Seq<u8> {
    "Content-Type".spec_bytes()
}

/// The bytes of the `Content-Length` header name.
pub open spec fn cl_key() -> Seq<u8> {
    "Content-Length".spec_bytes()
}

/// The last decode stage: the text fields must be valid UTF-8 to build a
/// `Request` (they always are, being slices of the checked header section).
pub open spec fn spec_finish(
    m: Method,
    uri: Seq<u8>,
    hb: Seq<(Seq<u8>, Seq<u8>)>,
    body: Seq<u8>,
    consumed: int,
) -> DecodeOutcome {
    if valid_utf8(uri) && pairs_valid(hb) {
        DecodeOutcome::Accepted(SpecRequest { method: m, uri, headers: hb, body }, consumed)
    } else {
        DecodeOutcome::Rejected(SpecDecodeError::InvalidHeader)
    }
}

/// The body stage: a body is read only when both `Content-Type` and
/// `Content-Length` are present; it must be fully buffered already.
pub open spec fn spec_content_stage(
    s: Seq<u8>,
    t: int,
    m: Method,
    uri: Seq<u8>,
    hb: Seq<(Seq<u8>, Seq<u8>)>,
) -> DecodeOutcome {
    match (lookup(hb, ct_key()), lookup(hb, cl_key())) {
        (Some(_), Some(clv)) => match parse_dec(clv) {
            None => DecodeOutcome::Rejected(SpecDecodeError::ParsingContentError),
            Some(len) => if t + 4 + len <= s.len() {
                spec_finish(m, uri, hb, s.subrange(t + 4, t + 4 + len), t + 4 + len)
            } else {
                DecodeOutcome::Rejected(SpecDecodeError::InvalidHeader)
            },
        },
        _ => spec_finish(m, uri, hb, Seq::empty(), t + 4),
    }
}

/// The request-line stage: exactly three tokens, a known method.
pub open spec fn spec_with_tokens(
    s: Seq<u8>,
    t: int,
    lines: Seq<Seq<u8>>,
    toks: Seq<Seq<u8>>,
) -> DecodeOutcome {
    if toks.len() != 3 {
        DecodeOutcome::Rejected(SpecDecodeError::InvalidHeader)
    } else {
        match spec_method(toks[0]) {
            None => if valid_utf8(toks[0]) {
                DecodeOutcome::Rejected(SpecDecodeError::InvalidMethod(toks[0]))
            } else {
                DecodeOutcome::Rejected(SpecDecodeError::InvalidHeader)
            },
            Some(m) => match parse_headers_from(lines, 1, Seq::empty()) {
                None => DecodeOutcome::Rejected(SpecDecodeError::InvalidHeader),
                Some(hb) => spec_content_stage(s, t, m, toks[1], hb),
            },
        }
    }
}

/// The header-section stage: UTF-8 text with at least a request line.
pub open spec fn spec_with_block(s: Seq<u8>, t: int, block: Seq<u8>) -> DecodeOutcome {
    if !valid_utf8(block) {
        DecodeOutcome::Rejected(SpecDecodeError::InvalidHeader)
    } else if split_lines_from(block, 0).len() == 0 {
        DecodeOutcome::Rejected(SpecDecodeError::InvalidHeader)
    } else {
        spec_with_tokens(
            s,
            t,
            split_lines_from(block, 0),
            split_ws_from(split_lines_from(block, 0)[0], 0),
        )
    }
}

/// What decoding the byte sequence `s` yields.
pub open spec fn spec_decode(s: Seq<u8>) -> DecodeOutcome {
    match find_term_from(s, 0) {
        None => DecodeOutcome::Rejected(SpecDecodeError::InvalidHeader),
        Some(t) => spec_with_block(s, t, s.subrange(0, t)),
    }
}

/// The request `req` and count `n` are what `spec_decode` accepts for `s`.
pub open spec fn decode_ok(s: Seq<u8>, req: Request, n: int) -> bool {
    &&& spec_decode(s) matches DecodeOutcome::Accepted(o, c)
    &&& req.method == o.method
    &&& req.uri@ == decode_utf8(o.uri)
    &&& req.headers@ == decoded_pairs(o.headers)
    &&& req.content@ == o.body
    &&& n == c
}

/// The error `e` is what `spec_decode` rejects `s` with.
pub open spec fn decode_err(s: Seq<u8>, e: DecodeHttpError) -> bool {
    match e {
        DecodeHttpError::InvalidHeader => spec_decode(s) == DecodeOutcome::Rejected(
            SpecDecodeError::InvalidHeader,
        ),
        DecodeHttpError::InvalidMethod(m) => spec_decode(s) matches DecodeOutcome::Rejected(
            SpecDecodeError::InvalidMethod(tb),
        ) && m@ == decode_utf8(tb),
        DecodeHttpError::ParsingContentError => spec_decode(s) == DecodeOutcome::Rejected(
            SpecDecodeError::ParsingContentError,
        ),
    }
}

/// Decodes one HTTP/1.1 request from the front of `buf`.
///
/// Returns the request and how many bytes of `buf` it occupied, so the
/// caller can advance its buffer, or the error `spec_decode` assigns to the
/// buffer. On an error no bytes are consumed and the buffer may be retried
/// once more bytes have arrived.
#[verifier::loop_isolation(false)]
pub fn decode_http_request(buf: &[u8]) -> (r: Result<(Request, usize), DecodeHttpError>)
    ensures
        match r {
            Ok((req, n)) => decode_ok(buf@, req, n as int) && n <= buf@.len(),
            Err(e) => decode_err(buf@, e),
        },
{
    let blen: usize = buf.len();
    let t = match find_term(buf) {
        None => {
            return Err(DecodeHttpError::InvalidHeader);
        },
        Some(t) => t,
    };
    let ghost tt: int = t as int;
    let block = subvec(buf, 0, t);
    match bytes_to_string(copy_vec(&block)) {
        None => {
            return Err(DecodeHttpError::InvalidHeader);
        },
        Some(_) => {},
    }
    assert(valid_utf8(block@));
    let lines = split_lines(block.as_slice());
    let ghost lv = views_of(lines@);
    if lines.len() == 0 {
        return Err(DecodeHttpError::InvalidHeader);
    }
    assert(lv[0] == lines@[0]@);
    let toks = split_ws(lines[0].as_slice());
    let ghost tv = views_of(toks@);
    if toks.len() != 3 {
        return Err(DecodeHttpError::InvalidHeader);
    }
    assert(tv[0] == toks@[0]@);
    assert(tv[1] == toks@[1]@);
    let method: Method = if bytes_eq(toks[0].as_slice(), "GET".as_bytes()) {
        Method::Get
    } else if bytes_eq(toks[0].as_slice(), "POST".as_bytes()) {
        Method::Post
    } else {
        assert(spec_method(tv[0]) is None);
        match bytes_to_string(copy_vec(&toks[0])) {
            Some(s) => {
                return Err(DecodeHttpError::InvalidMethod(s));
            },
            None => {
                return Err(DecodeHttpError::InvalidHeader);
            },
        }
    };
    assert(spec_method(tv[0]) == Some(method));
    let ps = match parse_header_pairs(&lines) {
        None => {
            return Err(DecodeHttpError::InvalidHeader);
        },
        Some(ps) => ps,
    };
    let ghost hb = pair_views(ps@);
    let mut content: Vec<u8> = Vec::new();
    let mut consumed: usize = t + 4;
    let has_ct = pairs_get(&ps, "Content-Type".as_bytes()).is_some();
    let cl_opt = pairs_get(&ps, "Content-Length".as_bytes());
    if has_ct && cl_opt.is_some() {
        let cl = match cl_opt {
            Some(cl) => cl,
            None => {
                return Err(DecodeHttpError::InvalidHeader);
            },
        };
        match parse_dec_bytes(cl.as_slice()) {
            None => {
                return Err(DecodeHttpError::ParsingContentError);
            },
            Some(len) => {
                if len > buf.len() - (t + 4) {
                    return Err(DecodeHttpError::InvalidHeader);
                }
                content = subvec(buf, t + 4, t + 4 + len);
                consumed = t + 4 + len;
            },
        }
    } else {
        assert(content@ =~= Seq::<u8>::empty());
    }
    // the text fields: slices of the header section, checked above
    let uri = match bytes_to_string(copy_vec(&toks[1])) {
        None => {
            return Err(DecodeHttpError::InvalidHeader);
        },
        Some(s) => s,
    };
    proof {
        lemma_parse_headers_unique(lv, 1, Seq::empty());
    }
    let mut hmap = Headers::new();
    assert(hmap@ =~= decoded_pairs(hb.take(0)));
    let np: usize = ps.len();
    let mut ci: usize = 0;
    while ci < np
        invariant
            0 <= ci <= np,
            np == ps@.len(),
            hb == pair_views(ps@),
            crate::headers::unique_keys(hb),
            forall|j: int| 0 <= j < ci ==> valid_utf8((#[trigger] hb[j]).0) && valid_utf8(
                hb[j].1,
            ),
            hmap@ == decoded_pairs(hb.take(ci as int)),
        decreases np - ci,
    {
        assert(hb[ci as int] == (ps@[ci as int].0@, ps@[ci as int].1@));
        let ks = match bytes_to_string(copy_vec(&ps[ci].0)) {
            None => {
                assert(!pairs_valid(hb));
                return Err(DecodeHttpError::InvalidHeader);
            },
            Some(s) => s,
        };
        let vs = match bytes_to_string(copy_vec(&ps[ci].1)) {
            None => {
                assert(!pairs_valid(hb));
                return Err(DecodeHttpError::InvalidHeader);
            },
            Some(s) => s,
        };
        proof {
            crate::headers::lemma_find_key_props(hmap@, ks@, 0);
            match find_key(hmap@, ks@, 0) {
                Some(p) => {
                    assert(hmap@[p] == (
                        decode_utf8(hb.take(ci as int)[p].0),
                        decode_utf8(hb.take(ci as int)[p].1),
                    ));
                    assert(hb.take(ci as int)[p] == hb[p]);
                    lemma_decode_injective(hb[p].0, hb[ci as int].0);
                    assert(false);
                },
                None => {},
            }
        }
        let ghost before = hmap@;
        hmap.insert(ks, vs);
        proof {
            assert(insert_pair(before, ks@, vs@) == before.push((ks@, vs@)));
            assert(hmap@ =~= decoded_pairs(hb.take(ci as int + 1)));
        }
        ci = ci + 1;
    }
    assert(hb.take(np as int) =~= hb);
    assert(pairs_valid(hb));
    let req = Request { method, uri, headers: hmap, content };
    proof {
        assert(spec_decode(buf@) == spec_with_block(buf@, tt, buf@.subrange(0, tt)));
        assert(block@ == buf@.subrange(0, tt));
    }
    Ok((req, consumed))
}


/// Law: a buffer that holds no `\r\n\r\n` terminator yet is always refused
/// with the header-incomplete error, whatever else it holds; and since only
/// a successful decode reports a consumed count, such a buffer is left whole
/// for a retry once more bytes have arrived.
pub proof fn lemma_incomplete_header(s: Seq<u8>)
    requires
        find_term_from(s, 0) is None,
    ensures
        spec_decode(s) == DecodeOutcome::Rejected(SpecDecodeError::InvalidHeader),
{
}


/// Where a terminator found by `find_term_from` sits in the sequence.
proof fn lemma_find_term_bounds(s: Seq<u8>, i: int)
    requires
        0 <= i,
    ensures
        match find_term_from(s, i) {
            Some(t) => i <= t && t + 4 <= s.len() && is_term_at(s, t),
            None => true,
        },
    decreases s.len() - i,
{
    if i + 4 <= s.len() && !is_term_at(s, i) {
        lemma_find_term_bounds(s, i + 1);
    }
}

proof fn lemma_find_term_first(s: Seq<u8>, t: int, i: int)
    requires
        0 <= i <= t,
        is_term_at(s, t),
        forall|k: int| i <= k < t ==> !is_term_at(s, k),
    ensures
        find_term_from(s, i) == Some(t),
    decreases t - i,
{
    if i < t {
        lemma_find_term_first(s, t, i + 1);
    }
}

proof fn lemma_find_byte_first(s: Seq<u8>, b: u8, p: int, i: int)
    requires
        0 <= i <= p < s.len(),
        s[p] == b,
        forall|q: int| i <= q < p ==> s[q] != b,
    ensures
        find_byte_from(s, b, i) == Some(p),
    decreases p - i,
{
    if i < p {
        lemma_find_byte_first(s, b, p, i + 1);
    }
}

proof fn lemma_next_ws_at(s: Seq<u8>, i: int, p: int)
    requires
        0 <= i <= p <= s.len(),
        forall|q: int| i <= q < p ==> !is_ws(s[q]),
        p == s.len() || is_ws(s[p]),
    ensures
        next_ws(s, i) == p,
    decreases p - i,
{
    if i < p {
        lemma_next_ws_at(s, i + 1, p);
    }
}

/// The byte values of the fixed tokens of the wire grammar.
proof fn lemma_grammar_bytes()
    ensures
        "GET".spec_bytes() == seq![71u8, 69u8, 84u8],
        "POST".spec_bytes() == seq![80u8, 79u8, 83u8, 84u8],
        "HTTP/1.1".spec_bytes() == seq![72u8, 84u8, 84u8, 80u8, 47u8, 49u8, 46u8, 49u8],
        ": ".spec_bytes() == seq![58u8, 32u8],
{
    broadcast use vstd::utf8::is_ascii_chars_encode_utf8;

    reveal_strlit("GET");
    reveal_strlit("POST");
    reveal_strlit("HTTP/1.1");
    reveal_strlit(": ");
    assert(vstd::utf8::is_ascii_chars("GET"@));
    assert(vstd::utf8::is_ascii_chars("POST"@));
    assert(vstd::utf8::is_ascii_chars("HTTP/1.1"@));
    assert(vstd::utf8::is_ascii_chars(": "@));
    assert("GET".spec_bytes() =~= seq![71u8, 69u8, 84u8]);
    assert("POST".spec_bytes() =~= seq![80u8, 79u8, 83u8, 84u8]);
    assert("HTTP/1.1".spec_bytes() =~= seq![72u8, 84u8, 84u8, 80u8, 47u8, 49u8, 46u8, 49u8]);
    assert(": ".spec_bytes() =~= seq![58u8, 32u8]);
}

/// A request line from its two variable tokens.
pub open spec fn request_line(mt: Seq<u8>, uri: Seq<u8>) -> Seq<u8> {
    mt + seq![32u8] + uri + seq![32u8] + "HTTP/1.1".spec_bytes()
}

/// A header line from its name and value.
pub open spec fn header_line(name: Seq<u8>, value: Seq<u8>) -> Seq<u8> {
    name + ": ".spec_bytes() + value
}

/// The header section of a well-formed single-header request.
pub open spec fn request_block(mt: Seq<u8>, uri: Seq<u8>, name: Seq<u8>, value: Seq<u8>) -> Seq<
    u8,
> {
    request_line(mt, uri) + seq![13u8, 10u8] + header_line(name, value)
}

/// A well-formed request of one header line and no body, as wire bytes.
pub open spec fn request_wire(mt: Seq<u8>, uri: Seq<u8>, name: Seq<u8>, value: Seq<u8>) -> Seq<
    u8,
> {
    request_block(mt, uri, name, value) + seq![13u8, 10u8, 13u8, 10u8]
}

/// A non-empty token free of ASCII whitespace.
pub open spec fn token_ok(t: Seq<u8>) -> bool {
    t.len() > 0 && (forall|i: int| 0 <= i < t.len() ==> !is_ws(#[trigger] t[i]))
}

/// Bytes a header field may hold: no carriage return, no line feed.
pub open spec fn field_ok(t: Seq<u8>) -> bool {
    forall|i: int| 0 <= i < t.len() ==> (#[trigger] t[i]) != 13u8 && t[i] != 10u8
}

/// The one version token is a whitespace-free ASCII word.
proof fn lemma_version_token()
    ensures
        token_ok("HTTP/1.1".spec_bytes()),
        "HTTP/1.1".spec_bytes().len() == 8,
        forall|i: int| 0 <= i < 8 ==> ("HTTP/1.1".spec_bytes())[i] < 128,
{
    lemma_grammar_bytes();
    let v = "HTTP/1.1".spec_bytes();
    assert(forall|i: int| 0 <= i < v.len() ==> !is_ws(#[trigger] v[i]));
    assert(forall|i: int| 0 <= i < 8 ==> #[trigger] v[i] < 128);
}

/// A well-formed request line splits into exactly its three tokens.
proof fn lemma_request_line_tokens(mt: Seq<u8>, uri: Seq<u8>)
    requires
        token_ok(mt),
        token_ok(uri),
    ensures
        split_ws_from(request_line(mt, uri), 0) == seq![mt, uri, "HTTP/1.1".spec_bytes()],
{
    lemma_version_token();
    let ver = "HTTP/1.1".spec_bytes();
    let line1 = request_line(mt, uri);
    let lm = mt.len() as int;
    let lu = uri.len() as int;
    let l1 = lm + 1 + lu + 1 + 8;
    assert(line1.len() == l1);
    assert(forall|i: int| 0 <= i < lm ==> line1[i] == mt[i]);
    assert(line1[lm] == 32u8);
    assert(forall|i: int| 0 <= i < lu ==> line1[lm + 1 + i] == uri[i]);
    assert(line1[lm + 1 + lu] == 32u8);
    assert(forall|i: int| 0 <= i < 8 ==> line1[lm + 2 + lu + i] == ver[i]);
    assert(next_ws(line1, 0) == lm) by {
        assert(forall|q: int| 0 <= q < lm ==> !is_ws(line1[q]));
        lemma_next_ws_at(line1, 0, lm);
    }
    assert(next_ws(line1, lm + 1) == lm + 1 + lu) by {
        assert(forall|q: int| lm + 1 <= q < lm + 1 + lu ==> !is_ws(line1[q]));
        lemma_next_ws_at(line1, lm + 1, lm + 1 + lu);
    }
    assert(next_ws(line1, lm + 2 + lu) == l1) by {
        assert(forall|q: int| lm + 2 + lu <= q < l1 ==> !is_ws(line1[q]));
        lemma_next_ws_at(line1, lm + 2 + lu, l1);
    }
    assert(line1.subrange(0, lm) =~= mt);
    assert(line1.subrange(lm + 1, lm + 1 + lu) =~= uri);
    assert(line1.subrange(lm + 2 + lu, l1) =~= ver);
    assert(!is_ws(line1[0]));
    assert(split_ws_from(line1, 0) == seq![mt] + split_ws_from(line1, lm));
    assert(is_ws(line1[lm]));
    assert(split_ws_from(line1, lm) == split_ws_from(line1, lm + 1));
    assert(!is_ws(line1[lm + 1]));
    assert(split_ws_from(line1, lm + 1) == seq![uri] + split_ws_from(line1, lm + 1 + lu));
    assert(is_ws(line1[lm + 1 + lu]));
    assert(split_ws_from(line1, lm + 1 + lu) == split_ws_from(line1, lm + 2 + lu));
    assert(!is_ws(line1[lm + 2 + lu]));
    assert(split_ws_from(line1, lm + 2 + lu) == seq![ver] + split_ws_from(line1, l1));
    assert(split_ws_from(line1, l1) =~= Seq::<Seq<u8>>::empty());
    assert(split_ws_from(line1, 0) =~= seq![mt, uri, ver]);
}

proof fn lemma_skip_ws_bounds(s: Seq<u8>, i: int)
    requires
        0 <= i <= s.len(),
    ensures
        i <= skip_ws_from(s, i) <= s.len(),
    decreases s.len() - i,
{
    if i < s.len() && is_ws(s[i]) {
        lemma_skip_ws_bounds(s, i + 1);
    }
}

proof fn lemma_rskip_ws_bounds(s: Seq<u8>, i: int)
    requires
        0 <= i <= s.len(),
    ensures
        0 <= rskip_ws_to(s, i) <= i,
    decreases i,
{
    if i > 0 && is_ws(s[i - 1]) {
        lemma_rskip_ws_bounds(s, i - 1);
    }
}

/// Trimming a whitespace-ended sequence shortens it.
proof fn lemma_trim_shrinks_on_ws_last(v: Seq<u8>)
    requires
        v.len() > 0,
        is_ws(v.last()),
    ensures
        trim(v).len() < v.len(),
{
    lemma_skip_ws_bounds(v, 0);
    assert(rskip_ws_to(v, v.len() as int) == rskip_ws_to(v, v.len() as int - 1));
    lemma_rskip_ws_bounds(v, v.len() as int - 1);
}

/// A value that trims to itself neither begins nor ends with whitespace.
proof fn lemma_self_trimmed(value: Seq<u8>)
    requires
        trim(value) == value,
        value.len() > 0,
    ensures
        !is_ws(value[0]),
        !is_ws(value[value.len() - 1]),
{
    if is_ws(value[value.len() - 1]) {
        lemma_trim_shrinks_on_ws_last(value);
    }
    if is_ws(value[0]) {
        assert(skip_ws_from(value, 0) == skip_ws_from(value, 1));
        lemma_skip_ws_bounds(value, 1);
        lemma_rskip_ws_bounds(value, value.len() as int);
        assert(trim(value).len() < value.len());
    }
}

/// A single leading space falls away when a self-trimmed value is trimmed.
proof fn lemma_trim_after_space(value: Seq<u8>)
    requires
        trim(value) == value,
    ensures
        trim(seq![32u8] + value) == value,
{
    let v = seq![32u8] + value;
    let lw = value.len() as int;
    if lw == 0 {
        assert(is_ws(v[0]));
        assert(skip_ws_from(v, 0) == skip_ws_from(v, 1));
        assert(skip_ws_from(v, 1) == 1);
        assert(rskip_ws_to(v, 1) == rskip_ws_to(v, 0));
        assert(trim(v) =~= Seq::<u8>::empty());
        assert(trim(v) =~= value);
    } else {
        lemma_self_trimmed(value);
        assert(v[0] == 32u8 && is_ws(v[0]));
        assert(v[1] == value[0]);
        assert(skip_ws_from(v, 0) == skip_ws_from(v, 1));
        assert(skip_ws_from(v, 1) == 1);
        assert(v[lw] == value[lw - 1]);
        assert(rskip_ws_to(v, lw + 1) == lw + 1);
        assert(trim(v) =~= value);
    }
}

/// A well-formed header line parses to exactly its trimmed name and value.
proof fn lemma_header_line_pair(name: Seq<u8>, value: Seq<u8>)
    requires
        field_ok(name),
        forall|i: int| 0 <= i < name.len() ==> (#[trigger] name[i]) != 58u8,
        trim(name) == name,
        field_ok(value),
        trim(value) == value,
    ensures
        find_byte_from(header_line(name, value), 58u8, 0) == Some(name.len() as int),
        trim(header_line(name, value).subrange(0, name.len() as int)) == name,
        trim(
            header_line(name, value).subrange(
                name.len() as int + 1,
                header_line(name, value).len() as int,
            ),
        ) == value,
{
    lemma_grammar_bytes();
    let line2 = header_line(name, value);
    let ln = name.len() as int;
    let l2 = line2.len() as int;
    assert(line2[ln] == 58u8);
    assert(forall|q: int| 0 <= q < ln ==> line2[q] == name[q]);
    lemma_find_byte_first(line2, 58u8, ln, 0);
    assert(line2.subrange(0, ln) =~= name);
    assert(line2.subrange(ln + 1, l2) =~= seq![32u8] + value);
    lemma_trim_after_space(value);
}

/// A sequence of ASCII bytes is valid UTF-8.
proof fn lemma_ascii_seq_valid(s: Seq<u8>)
    requires
        forall|i: int| 0 <= i < s.len() ==> (#[trigger] s[i]) < 128,
    ensures
        valid_utf8(s),
    decreases s.len(),
{
    if s.len() > 0 {
        assert(vstd::utf8::is_leading_byte_width_1(s[0]));
        assert(vstd::utf8::pop_first_scalar(s) =~= s.drop_first());
        lemma_ascii_seq_valid(s.drop_first());
    }
}

/// Law: every well-formed `method URI HTTP/1.1\r\nName: Value\r\n\r\n` input
/// decodes to exactly its parts — the method, the URI token, the one header
/// pair — with an empty body, and consumes the whole buffer: the header
/// section plus the four terminator bytes.
#[verifier::rlimit(100)]
pub proof fn lemma_decode_valid_request(
    method: Method,
    mt: Seq<u8>,
    uri: Seq<u8>,
    name: Seq<u8>,
    value: Seq<u8>,
)
    requires
        spec_method(mt) == Some(method),
        token_ok(uri),
        valid_utf8(uri),
        field_ok(name),
        forall|i: int| 0 <= i < name.len() ==> (#[trigger] name[i]) != 58u8,
        trim(name) == name,
        valid_utf8(name),
        field_ok(value),
        trim(value) == value,
        valid_utf8(value),
    ensures
        spec_decode(request_wire(mt, uri, name, value)) == DecodeOutcome::Accepted(
            SpecRequest { method, uri, headers: seq![(name, value)], body: Seq::<u8>::empty() },
            request_wire(mt, uri, name, value).len() as int,
        ),
{
    let pairs = seq![(name, value)];
    assert(pair_wf(pairs[0]));
    assert(forall|j: int| 0 <= j < pairs.len() ==> pair_wf(#[trigger] pairs[j]));
    let h1 = insert_pair(Seq::<(Seq<u8>, Seq<u8>)>::empty(), name, value);
    assert(h1 =~= seq![(name, value)]);
    let hb = fold_pairs(pairs);
    assert(hb == h1) by {
        assert(insert_pair(Seq::empty(), pairs[0].0, pairs[0].1) == h1);
        assert(fold_pairs_from(pairs, 1, h1) == h1);
    }
    // one header pair can never be both Content-Type and Content-Length
    assert(!(lookup(hb, ct_key()) is Some && lookup(hb, cl_key()) is Some)) by {
        lemma_header_names();
        if lookup(hb, ct_key()) is Some && lookup(hb, cl_key()) is Some {
            crate::headers::lemma_find_key_props(hb, ct_key(), 0);
            crate::headers::lemma_find_key_props(hb, cl_key(), 0);
            assert(hb[0].0 == ct_key());
            assert(hb[0].0 == cl_key());
            assert(false);
        }
    }
    lemma_decode_valid_header_list(method, mt, uri, pairs, Seq::empty());
    assert(list_request_wire(mt, uri, pairs, Seq::empty()) =~= request_wire(
        mt,
        uri,
        name,
        value,
    )) by {
        assert(header_section_from(pairs, 1) =~= Seq::<u8>::empty());
        assert(header_section_from(pairs, 0) =~= seq![13u8, 10u8] + header_line(name, value));
    }
}


/// Law: whatever request is accepted, the consumed count is exactly the
/// offset of the header terminator, plus its four bytes, plus the length of
/// the body that was sliced out.
pub proof fn lemma_consumed_bytes(s: Seq<u8>)
    requires
        spec_decode(s) matches DecodeOutcome::Accepted(_, _),
    ensures
        spec_decode(s) matches DecodeOutcome::Accepted(o, c) && find_term_from(s, 0)
            matches Some(t) && c == t + 4 + o.body.len(),
{
    lemma_find_term_bounds(s, 0);
    match find_term_from(s, 0) {
        None => {},
        Some(t) => {
            let block = s.subrange(0, t);
            if valid_utf8(block) && split_lines_from(block, 0).len() != 0 {
                let lines = split_lines_from(block, 0);
                let toks = split_ws_from(lines[0], 0);
                if toks.len() == 3 {
                    match spec_method(toks[0]) {
                        None => {},
                        Some(m) => {
                            match parse_headers_from(lines, 1, Seq::empty()) {
                                None => {},
                                Some(hb) => {
                                    match (lookup(hb, ct_key()), lookup(hb, cl_key())) {
                                        (Some(_), Some(clv)) => {
                                            match parse_dec(clv) {
                                                None => {},
                                                Some(len) => {
                                                    if t + 4 + len <= s.len() {
                                                        assert(s.subrange(
                                                            t + 4,
                                                            t + 4 + len,
                                                        ).len() == len);
                                                    }
                                                },
                                            }
                                        },
                                        _ => {},
                                    }
                                },
                            }
                        },
                    }
                }
            }
        },
    }
}


/// The decimal digit bytes of a non-negative number.
pub open spec fn dec_bytes(n: int) -> Seq<u8>
    recommends
        n >= 0,
    decreases n,
{
    if n < 10 {
        seq![(48 + n) as u8]
    } else {
        dec_bytes(n / 10).push((48 + (n % 10)) as u8)
    }
}

proof fn lemma_dec_bytes_digits(n: int)
    requires
        n >= 0,
    ensures
        dec_bytes(n).len() > 0,
        all_digits(dec_bytes(n)),
        dec_val(dec_bytes(n)) == n,
    decreases n,
{
    if n < 10 {
        assert((48 + n) as u8 == 48 + n);
        assert(dec_bytes(n) == seq![(48 + n) as u8]);
        assert(dec_bytes(n).drop_last() =~= Seq::<u8>::empty());
        assert(dec_bytes(n).last() == 48 + n);
        assert(dec_val(dec_bytes(n)) == dec_val(Seq::<u8>::empty()) * 10 + n);
    } else {
        lemma_dec_bytes_digits(n / 10);
        let s = dec_bytes(n);
        assert(s.drop_last() =~= dec_bytes(n / 10));
        assert(s.last() == (48 + (n % 10)) as u8);
        assert forall|i: int| 0 <= i < s.len() implies is_digit(#[trigger] s[i]) by {
            if i < s.len() - 1 {
                assert(s[i] == dec_bytes(n / 10)[i]);
            }
        }
    }
}

/// Law: the decimal digits of a number parse back to that number.
pub proof fn lemma_parse_dec_round(n: usize)
    ensures
        parse_dec(dec_bytes(n as int)) == Some(n),
{
    lemma_dec_bytes_digits(n as int);
    let s = dec_bytes(n as int);
    assert(s[0] != 43u8) by {
        assert(is_digit(s[0]));
    }
    assert(strip_plus(s) == s);
    assert(parse_digits(s) == Some(n));
}

/// A sequence with no whitespace at either end trims to itself.
proof fn lemma_trim_id(s: Seq<u8>)
    requires
        s.len() == 0 || (!is_ws(s[0]) && !is_ws(s.last())),
    ensures
        trim(s) == s,
{
    if s.len() == 0 {
        assert(trim(s) =~= s);
    } else {
        assert(skip_ws_from(s, 0) == 0);
        assert(rskip_ws_to(s, s.len() as int) == s.len());
        assert(trim(s) =~= s);
    }
}

/// The byte values of the two body-framing header names.
proof fn lemma_header_names()
    ensures
        ct_key() == seq![
            67u8, 111u8, 110u8, 116u8, 101u8, 110u8, 116u8, 45u8, 84u8, 121u8, 112u8, 101u8,
        ],
        cl_key() == seq![
            67u8, 111u8, 110u8, 116u8, 101u8, 110u8, 116u8, 45u8, 76u8, 101u8, 110u8, 103u8,
            116u8, 104u8,
        ],
{
    broadcast use vstd::utf8::is_ascii_chars_encode_utf8;

    reveal_strlit("Content-Type");
    reveal_strlit("Content-Length");
    assert(vstd::utf8::is_ascii_chars("Content-Type"@));
    assert(vstd::utf8::is_ascii_chars("Content-Length"@));
    assert(ct_key() =~= seq![
        67u8, 111u8, 110u8, 116u8, 101u8, 110u8, 116u8, 45u8, 84u8, 121u8, 112u8, 101u8,
    ]);
    assert(cl_key() =~= seq![
        67u8, 111u8, 110u8, 116u8, 101u8, 110u8, 116u8, 45u8, 76u8, 101u8, 110u8, 103u8, 116u8,
        104u8,
    ]);
}

/// The header section of a well-formed request that carries a body.
pub open spec fn body_request_block(mt: Seq<u8>, uri: Seq<u8>, ctv: Seq<u8>, body: Seq<u8>) -> Seq<
    u8,
> {
    request_line(mt, uri) + seq![13u8, 10u8] + header_line(ct_key(), ctv) + seq![13u8, 10u8]
        + header_line(cl_key(), dec_bytes(body.len() as int))
}

/// A well-formed request with a `Content-Type`, a matching `Content-Length`
/// and a body, as wire bytes.
pub open spec fn body_request_wire(mt: Seq<u8>, uri: Seq<u8>, ctv: Seq<u8>, body: Seq<u8>) -> Seq<
    u8,
> {
    body_request_block(mt, uri, ctv, body) + seq![13u8, 10u8, 13u8, 10u8] + body
}

/// Law: every well-formed request carrying a `Content-Type`, a
/// `Content-Length` that matches its body, and that body, decodes to exactly
/// its parts and consumes the header section, the four terminator bytes and
/// the body — the whole buffer.
#[verifier::rlimit(100)]
pub proof fn lemma_decode_valid_body_request(
    method: Method,
    mt: Seq<u8>,
    uri: Seq<u8>,
    ctv: Seq<u8>,
    body: Seq<u8>,
)
    requires
        spec_method(mt) == Some(method),
        token_ok(uri),
        valid_utf8(uri),
        field_ok(ctv),
        trim(ctv) == ctv,
        valid_utf8(ctv),
        body.len() <= usize::MAX,
    ensures
        spec_decode(body_request_wire(mt, uri, ctv, body)) == DecodeOutcome::Accepted(
            SpecRequest {
                method,
                uri,
                headers: seq![
                    (ct_key(), ctv),
                    (cl_key(), dec_bytes(body.len() as int)),
                ],
                body,
            },
            body_request_wire(mt, uri, ctv, body).len() as int,
        ),
{
    lemma_header_names();
    lemma_dec_bytes_digits(body.len() as int);
    let digits = dec_bytes(body.len() as int);
    let pairs = seq![(ct_key(), ctv), (cl_key(), digits)];
    // both framing pairs are well-formed header entries
    assert(pair_wf(pairs[0])) by {
        assert(forall|i: int|
            0 <= i < ct_key().len() ==> (#[trigger] ct_key()[i]) != 13u8 && ct_key()[i] != 10u8
                && ct_key()[i] != 58u8);
        lemma_trim_id(ct_key());
        lemma_ascii_seq_valid(ct_key());
    }
    assert(pair_wf(pairs[1])) by {
        assert(forall|i: int|
            0 <= i < cl_key().len() ==> (#[trigger] cl_key()[i]) != 13u8 && cl_key()[i] != 10u8
                && cl_key()[i] != 58u8);
        lemma_trim_id(cl_key());
        lemma_ascii_seq_valid(cl_key());
        assert(forall|i: int|
            0 <= i < digits.len() ==> is_digit(#[trigger] digits[i]) && !is_ws(digits[i])
                && digits[i] != 13u8 && digits[i] != 10u8 && digits[i] < 128);
        lemma_trim_id(digits);
        lemma_ascii_seq_valid(digits);
    }
    assert(forall|j: int| 0 <= j < pairs.len() ==> pair_wf(#[trigger] pairs[j]));
    // the two names differ, so the mapping holds both pairs in order
    assert(ct_key() != cl_key()) by {
        assert(ct_key().len() != cl_key().len());
    }
    let h1 = insert_pair(Seq::<(Seq<u8>, Seq<u8>)>::empty(), ct_key(), ctv);
    assert(h1 =~= seq![(ct_key(), ctv)]);
    let h2 = insert_pair(h1, cl_key(), digits);
    assert(h2 =~= seq![(ct_key(), ctv), (cl_key(), digits)]) by {
        assert(find_key(h1, cl_key(), 0) == find_key(h1, cl_key(), 1));
    }
    let hb = fold_pairs(pairs);
    assert(hb == h2) by {
        assert(insert_pair(Seq::empty(), pairs[0].0, pairs[0].1) == h1);
        assert(insert_pair(h1, pairs[1].0, pairs[1].1) == h2);
        assert(fold_pairs(pairs) == fold_pairs_from(
            pairs,
            1,
            insert_pair(Seq::empty(), pairs[0].0, pairs[0].1),
        ));
        assert(fold_pairs_from(pairs, 1, h1) == fold_pairs_from(
            pairs,
            2,
            insert_pair(h1, pairs[1].0, pairs[1].1),
        ));
        assert(fold_pairs_from(pairs, 2, h2) == h2);
    }
    assert(lookup(hb, ct_key()) == Some(ctv)) by {
        assert(find_key(hb, ct_key(), 0) == Some(0int));
    }
    assert(lookup(hb, cl_key()) == Some(digits)) by {
        assert(hb[0].0 != cl_key());
        assert(find_key(hb, cl_key(), 0) == find_key(hb, cl_key(), 1));
        assert(find_key(hb, cl_key(), 1) == Some(1int));
    }
    lemma_parse_dec_round(body.len() as usize);
    lemma_decode_valid_header_list(method, mt, uri, pairs, body);
    assert(list_request_wire(mt, uri, pairs, body) =~= body_request_wire(mt, uri, ctv, body))
        by {
        assert(header_section_from(pairs, 2) =~= Seq::<u8>::empty());
        assert(header_section_from(pairs, 1) =~= seq![13u8, 10u8] + header_line(
            cl_key(),
            digits,
        ));
        assert(header_section_from(pairs, 0) =~= seq![13u8, 10u8] + header_line(ct_key(), ctv) + (
        seq![13u8, 10u8] + header_line(cl_key(), digits)));
    }
}



/// Searching forward in a concatenation, starting inside the second part,
/// sees only the second part.
proof fn lemma_find_byte_shift(a: Seq<u8>, b: Seq<u8>, c: u8, i: int)
    requires
        0 <= i <= b.len(),
    ensures
        find_byte_from(a + b, c, a.len() + i) == match find_byte_from(b, c, i) {
            Some(j) => Some(a.len() + j),
            None => None,
        },
    decreases b.len() - i,
{
    if i < b.len() {
        assert((a + b)[a.len() + i] == b[i]);
        if b[i] != c {
            lemma_find_byte_shift(a, b, c, i + 1);
        }
    }
}

/// Splitting lines from a position inside the second part of a
/// concatenation sees only the second part.
proof fn lemma_split_lines_shift(a: Seq<u8>, b: Seq<u8>, i: int)
    requires
        0 <= i <= b.len(),
    ensures
        split_lines_from(a + b, a.len() + i) == split_lines_from(b, i),
    decreases b.len() - i,
{
    if i < b.len() {
        lemma_find_byte_shift(a, b, 10u8, i);
        lemma_find_byte_bounds(b, 10u8, i);
        match find_byte_from(b, 10u8, i) {
            None => {
                assert((a + b).subrange(a.len() + i, (a + b).len() as int) =~= b.subrange(
                    i,
                    b.len() as int,
                ));
            },
            Some(j) => {
                assert((a + b).subrange(a.len() + i, a.len() + j) =~= b.subrange(i, j));
                lemma_split_lines_shift(a, b, j + 1);
            },
        }
    } else {
        assert(split_lines_from(a + b, a.len() + i) =~= Seq::<Seq<u8>>::empty());
        assert(split_lines_from(b, i) =~= Seq::<Seq<u8>>::empty());
    }
}

/// A well-formed header-pair entry: a trimmed, colon-free name and a trimmed
/// value, both free of line breaks and valid UTF-8.
pub open spec fn pair_wf(p: (Seq<u8>, Seq<u8>)) -> bool {
    &&& field_ok(p.0)
    &&& (forall|i: int| 0 <= i < p.0.len() ==> (#[trigger] p.0[i]) != 58u8)
    &&& trim(p.0) == p.0
    &&& valid_utf8(p.0)
    &&& field_ok(p.1)
    &&& trim(p.1) == p.1
    &&& valid_utf8(p.1)
}

/// The header lines of `pairs[i..]`, each prefixed by its line break.
pub open spec fn header_section_from(pairs: Seq<(Seq<u8>, Seq<u8>)>, i: int) -> Seq<u8>
    decreases pairs.len() - i,
{
    if i < 0 || i >= pairs.len() {
        Seq::empty()
    } else {
        seq![13u8, 10u8] + header_line(pairs[i].0, pairs[i].1) + header_section_from(
            pairs,
            i + 1,
        )
    }
}

/// The header section of a request with any list of header pairs.
pub open spec fn list_request_block(
    mt: Seq<u8>,
    uri: Seq<u8>,
    pairs: Seq<(Seq<u8>, Seq<u8>)>,
) -> Seq<u8> {
    request_line(mt, uri) + header_section_from(pairs, 0)
}

/// A request with any list of header pairs and a body, as wire bytes.
pub open spec fn list_request_wire(
    mt: Seq<u8>,
    uri: Seq<u8>,
    pairs: Seq<(Seq<u8>, Seq<u8>)>,
    body: Seq<u8>,
) -> Seq<u8> {
    list_request_block(mt, uri, pairs) + seq![13u8, 10u8, 13u8, 10u8] + body
}

/// The pairs of `pairs[i..]` bound over `acc`, later duplicates winning.
pub open spec fn fold_pairs_from(
    pairs: Seq<(Seq<u8>, Seq<u8>)>,
    i: int,
    acc: Seq<(Seq<u8>, Seq<u8>)>,
) -> Seq<(Seq<u8>, Seq<u8>)>
    decreases pairs.len() - i,
{
    if i < 0 || i >= pairs.len() {
        acc
    } else {
        fold_pairs_from(pairs, i + 1, insert_pair(acc, pairs[i].0, pairs[i].1))
    }
}

/// The header mapping a list of pairs denotes: each name bound to its value,
/// the last occurrence of a duplicate name winning.
pub open spec fn fold_pairs(pairs: Seq<(Seq<u8>, Seq<u8>)>) -> Seq<(Seq<u8>, Seq<u8>)> {
    fold_pairs_from(pairs, 0, Seq::empty())
}

/// The rendered lines of `pairs[i..]`.
pub open spec fn lines_of(pairs: Seq<(Seq<u8>, Seq<u8>)>, i: int) -> Seq<Seq<u8>>
    decreases pairs.len() - i,
{
    if i < 0 || i >= pairs.len() {
        Seq::empty()
    } else {
        seq![header_line(pairs[i].0, pairs[i].1)] + lines_of(pairs, i + 1)
    }
}

proof fn lemma_lines_of_index(pairs: Seq<(Seq<u8>, Seq<u8>)>, i: int)
    requires
        0 <= i <= pairs.len(),
    ensures
        lines_of(pairs, i).len() == pairs.len() - i,
        forall|j: int|
            i <= j < pairs.len() ==> lines_of(pairs, i)[j - i] == header_line(
                (#[trigger] pairs[j]).0,
                pairs[j].1,
            ),
    decreases pairs.len() - i,
{
    if i < pairs.len() {
        lemma_lines_of_index(pairs, i + 1);
    }
}

/// No byte of a well-formed header line is a line break; it starts and ends
/// on bytes that cannot open or close a terminator.
proof fn lemma_header_line_clean(name: Seq<u8>, value: Seq<u8>)
    requires
        field_ok(name),
        field_ok(value),
        trim(value) == value,
    ensures
        header_line(name, value).len() >= 2,
        forall|k: int|
            0 <= k < header_line(name, value).len() ==> (#[trigger] header_line(name, value)[k])
                != 13u8 && header_line(name, value)[k] != 10u8,
        header_line(name, value).last() != 13u8 && header_line(name, value).last() != 10u8,
    decreases 0int,
{
    lemma_grammar_bytes();
    let line = header_line(name, value);
    let ln = name.len() as int;
    let lw = value.len() as int;
    assert forall|k: int| 0 <= k < line.len() implies (#[trigger] line[k]) != 13u8 && line[k]
        != 10u8 by {
        if k < ln {
            assert(line[k] == name[k]);
        } else if k == ln {
            assert(line[k] == 58u8);
        } else if k == ln + 1 {
            assert(line[k] == 32u8);
        } else {
            assert(line[k] == value[k - ln - 2]);
        }
    }
    if lw > 0 {
        lemma_self_trimmed(value);
        assert(line.last() == value[lw - 1]);
    } else {
        assert(line.last() == 32u8);
    }
}

/// A header section holds no terminator, opens with its line break, and
/// closes on a byte that cannot extend one.
proof fn lemma_section_no_term(pairs: Seq<(Seq<u8>, Seq<u8>)>, i: int)
    requires
        0 <= i,
        forall|j: int| 0 <= j < pairs.len() ==> pair_wf(#[trigger] pairs[j]),
    ensures
        forall|k: int| !is_term_at(header_section_from(pairs, i), k),
        header_section_from(pairs, i).len() > 0 ==> header_section_from(pairs, i).last() != 13u8
            && header_section_from(pairs, i).last() != 10u8,
    decreases pairs.len() - i,
{
    if i < pairs.len() {
        let line = header_line(pairs[i].0, pairs[i].1);
        let rest = header_section_from(pairs, i + 1);
        let s = header_section_from(pairs, i);
        let li = line.len() as int;
        lemma_header_line_clean(pairs[i].0, pairs[i].1);
        lemma_section_no_term(pairs, i + 1);
        assert(s =~= seq![13u8, 10u8] + line + rest);
        assert(s.len() == 2 + li + rest.len());
        assert(forall|x: int| 0 <= x < li ==> s[2 + x] == line[x]);
        assert(forall|x: int| 0 <= x < rest.len() ==> s[2 + li + x] == rest[x]);
        if rest.len() > 0 {
            assert(s.last() == rest.last());
        } else {
            assert(s.last() == line.last());
        }
        assert forall|k: int| !is_term_at(s, k) by {
            if 0 <= k && k + 4 <= s.len() {
                if k == 0 {
                    assert(s[2] == line[0]);
                    assert(s[2] != 13u8);
                } else if k == 1 {
                    assert(s[1] == 10u8);
                } else if k < 2 + li {
                    assert(s[k] == line[k - 2]);
                } else {
                    let x = k - 2 - li;
                    assert(!is_term_at(rest, x));
                    assert(s[k] == rest[x] && s[k + 1] == rest[x + 1] && s[k + 2] == rest[x + 2]
                        && s[k + 3] == rest[x + 3]);
                }
            }
        }
    }
}

/// A header section is valid UTF-8 when each of its pairs is.
proof fn lemma_section_valid(pairs: Seq<(Seq<u8>, Seq<u8>)>, i: int)
    requires
        0 <= i,
        forall|j: int| 0 <= j < pairs.len() ==> pair_wf(#[trigger] pairs[j]),
    ensures
        valid_utf8(header_section_from(pairs, i)),
    decreases pairs.len() - i,
{
    lemma_grammar_bytes();
    if i >= pairs.len() {
        assert(valid_utf8(Seq::<u8>::empty()));
    } else {
        let cs = ": ".spec_bytes();
        lemma_ascii_seq_valid(seq![13u8, 10u8]);
        lemma_ascii_seq_valid(cs);
        lemma_section_valid(pairs, i + 1);
        vstd::utf8::valid_utf8_concat(pairs[i].0, cs);
        vstd::utf8::valid_utf8_concat(pairs[i].0 + cs, pairs[i].1);
        vstd::utf8::valid_utf8_concat(seq![13u8, 10u8], header_line(pairs[i].0, pairs[i].1));
        vstd::utf8::valid_utf8_concat(
            seq![13u8, 10u8] + header_line(pairs[i].0, pairs[i].1),
            header_section_from(pairs, i + 1),
        );
        assert(header_section_from(pairs, i) =~= (seq![13u8, 10u8] + header_line(
            pairs[i].0,
            pairs[i].1,
        )) + header_section_from(pairs, i + 1));
    }
}

/// A header section, split into lines, is exactly its rendered lines.
proof fn lemma_section_lines(pairs: Seq<(Seq<u8>, Seq<u8>)>, i: int)
    requires
        0 <= i < pairs.len(),
        forall|j: int| 0 <= j < pairs.len() ==> pair_wf(#[trigger] pairs[j]),
    ensures
        split_lines_from(
            header_line(pairs[i].0, pairs[i].1) + header_section_from(pairs, i + 1),
            0,
        ) == lines_of(pairs, i),
    decreases pairs.len() - i,
{
    let line = header_line(pairs[i].0, pairs[i].1);
    let rest = header_section_from(pairs, i + 1);
    let s = line + rest;
    let li = line.len() as int;
    lemma_header_line_clean(pairs[i].0, pairs[i].1);
    assert(forall|x: int| 0 <= x < li ==> s[x] == line[x]);
    if i + 1 >= pairs.len() {
        assert(s =~= line);
        assert(find_byte_from(line, 10u8, 0) is None) by {
            lemma_find_byte_bounds(line, 10u8, 0);
            match find_byte_from(line, 10u8, 0) {
                Some(j) => {
                    assert(line[j] != 10u8);
                },
                None => {},
            }
        }
        assert(split_lines_from(line, 0) == seq![strip_cr(line.subrange(0, li))]);
        assert(line.subrange(0, li) =~= line);
        assert(strip_cr(line) == line);
        assert(s == line);
        assert(split_lines_from(s, 0) == split_lines_from(line, 0));
        assert(split_lines_from(line, 0) =~= seq![line]);
        assert(lines_of(pairs, i + 1) =~= Seq::<Seq<u8>>::empty());
        assert(lines_of(pairs, i) =~= seq![line]);
        assert(split_lines_from(s, 0) =~= lines_of(pairs, i));
    } else {
        let line2 = header_line(pairs[i + 1].0, pairs[i + 1].1);
        let rest2 = header_section_from(pairs, i + 2);
        assert(rest =~= seq![13u8, 10u8] + line2 + rest2);
        assert(s[li] == 13u8 && s[li + 1] == 10u8);
        lemma_find_byte_first(s, 10u8, li + 1, 0);
        assert(split_lines_from(s, 0) == seq![strip_cr(s.subrange(0, li + 1))]
            + split_lines_from(s, li + 2));
        assert(strip_cr(s.subrange(0, li + 1)) =~= line) by {
            assert(s.subrange(0, li + 1) =~= line + seq![13u8]);
            assert((line + seq![13u8]).last() == 13u8);
            assert((line + seq![13u8]).drop_last() =~= line);
        }
        let b = line2 + rest2;
        let a = line + seq![13u8, 10u8];
        assert(s =~= a + b);
        lemma_split_lines_shift(a, b, 0);
        assert(split_lines_from(s, li + 2) == split_lines_from(b, 0));
        lemma_section_lines(pairs, i + 1);
        assert(split_lines_from(s, 0) =~= lines_of(pairs, i));
    }
}

/// The parsed header lines fold into the pair mapping, entry by entry.
proof fn lemma_fold_parse(
    lines: Seq<Seq<u8>>,
    pairs: Seq<(Seq<u8>, Seq<u8>)>,
    i: int,
    acc: Seq<(Seq<u8>, Seq<u8>)>,
)
    requires
        lines.len() == 1 + pairs.len(),
        forall|j: int|
            0 <= j < pairs.len() ==> lines[1 + j] == header_line(
                (#[trigger] pairs[j]).0,
                pairs[j].1,
            ),
        forall|j: int| 0 <= j < pairs.len() ==> pair_wf(#[trigger] pairs[j]),
        0 <= i <= pairs.len(),
    ensures
        parse_headers_from(lines, 1 + i, acc) == Some(fold_pairs_from(pairs, i, acc)),
    decreases pairs.len() - i,
{
    if i < pairs.len() {
        let name = pairs[i].0;
        let value = pairs[i].1;
        let line = lines[1 + i];
        lemma_header_line_pair(name, value);
        assert(find_byte_from(line, 58u8, 0) == Some(name.len() as int));
        assert(trim(line.subrange(0, name.len() as int)) == name);
        assert(trim(line.subrange(name.len() as int + 1, line.len() as int)) == value);
        lemma_fold_parse(lines, pairs, i + 1, insert_pair(acc, name, value));
    }
}

/// Binding a valid name to a valid value keeps every entry valid.
proof fn lemma_insert_pairs_valid(acc: Seq<(Seq<u8>, Seq<u8>)>, k: Seq<u8>, v: Seq<u8>)
    requires
        pairs_valid(acc),
        valid_utf8(k),
        valid_utf8(v),
    ensures
        pairs_valid(insert_pair(acc, k, v)),
{
    crate::headers::lemma_find_key_props(acc, k, 0);
    match find_key(acc, k, 0) {
        Some(p) => {
            let u = acc.update(p, (k, v));
            assert forall|j: int| 0 <= j < u.len() implies valid_utf8((#[trigger] u[j]).0)
                && valid_utf8(u[j].1) by {
                if j != p {
                    assert(u[j] == acc[j]);
                }
            }
        },
        None => {
            let u = acc.push((k, v));
            assert forall|j: int| 0 <= j < u.len() implies valid_utf8((#[trigger] u[j]).0)
                && valid_utf8(u[j].1) by {
                if j < acc.len() {
                    assert(u[j] == acc[j]);
                }
            }
        },
    }
}

/// Every entry of the folded mapping of well-formed pairs is valid text.
proof fn lemma_fold_pairs_valid(
    pairs: Seq<(Seq<u8>, Seq<u8>)>,
    i: int,
    acc: Seq<(Seq<u8>, Seq<u8>)>,
)
    requires
        forall|j: int| 0 <= j < pairs.len() ==> pair_wf(#[trigger] pairs[j]),
        pairs_valid(acc),
        0 <= i,
    ensures
        pairs_valid(fold_pairs_from(pairs, i, acc)),
    decreases pairs.len() - i,
{
    if i < pairs.len() {
        lemma_insert_pairs_valid(acc, pairs[i].0, pairs[i].1);
        lemma_fold_pairs_valid(pairs, i + 1, insert_pair(acc, pairs[i].0, pairs[i].1));
    }
}

/// The request line holds no line break.
proof fn lemma_request_line_clean(mt: Seq<u8>, uri: Seq<u8>)
    requires
        token_ok(mt),
        token_ok(uri),
    ensures
        forall|k: int|
            0 <= k < request_line(mt, uri).len() ==> (#[trigger] request_line(mt, uri)[k])
                != 13u8 && request_line(mt, uri)[k] != 10u8,
{
    lemma_grammar_bytes();
    let line1 = request_line(mt, uri);
    let lm = mt.len() as int;
    let lu = uri.len() as int;
    assert forall|k: int| 0 <= k < line1.len() implies (#[trigger] line1[k]) != 13u8 && line1[k]
        != 10u8 by {
        if k < lm {
            assert(line1[k] == mt[k] && !is_ws(mt[k]));
        } else if k == lm {
            assert(line1[k] == 32u8);
        } else if k < lm + 1 + lu {
            assert(line1[k] == uri[k - lm - 1] && !is_ws(uri[k - lm - 1]));
        } else if k == lm + 1 + lu {
            assert(line1[k] == 32u8);
        } else {
            assert(line1[k] == ("HTTP/1.1".spec_bytes())[k - lm - 2 - lu]);
        }
    }
}

/// Law: every well-formed request — any list of well-formed header lines,
/// and a body exactly when the folded headers carry both `Content-Type` and
/// a `Content-Length` that parses to its length — decodes to exactly its
/// parts: the method, the URI token, each trimmed name bound to its trimmed
/// value with the last duplicate winning, and that body; and it consumes the
/// header section, the four terminator bytes and the body, the whole buffer.
#[verifier::rlimit(100)]
pub proof fn lemma_decode_valid_header_list(
    method: Method,
    mt: Seq<u8>,
    uri: Seq<u8>,
    pairs: Seq<(Seq<u8>, Seq<u8>)>,
    body: Seq<u8>,
)
    requires
        spec_method(mt) == Some(method),
        token_ok(uri),
        valid_utf8(uri),
        forall|j: int| 0 <= j < pairs.len() ==> pair_wf(#[trigger] pairs[j]),
        body.len() <= usize::MAX,
        match (lookup(fold_pairs(pairs), ct_key()), lookup(fold_pairs(pairs), cl_key())) {
            (Some(_), Some(clv)) => parse_dec(clv) == Some(body.len() as usize),
            _ => body == Seq::<u8>::empty(),
        },
    ensures
        spec_decode(list_request_wire(mt, uri, pairs, body)) == DecodeOutcome::Accepted(
            SpecRequest { method, uri, headers: fold_pairs(pairs), body },
            list_request_wire(mt, uri, pairs, body).len() as int,
        ),
{
    lemma_grammar_bytes();
    lemma_version_token();
    let w = list_request_wire(mt, uri, pairs, body);
    let block = list_request_block(mt, uri, pairs);
    let line1 = request_line(mt, uri);
    let section = header_section_from(pairs, 0);
    let l1 = line1.len() as int;
    let tt = block.len() as int;
    assert(token_ok(mt)) by {
        assert(mt == "GET".spec_bytes() || mt == "POST".spec_bytes());
        assert(forall|i: int| 0 <= i < mt.len() ==> !is_ws(#[trigger] mt[i]));
    }
    lemma_request_line_clean(mt, uri);
    lemma_section_no_term(pairs, 0);
    // the terminator first occurs at the end of the header section
    assert(is_term_at(w, tt));
    assert(forall|x: int| 0 <= x < section.len() ==> block[l1 + x] == section[x]);
    assert forall|k: int| 0 <= k < tt implies !is_term_at(w, k) by {
        if k < l1 {
            assert(w[k] == line1[k]);
        } else {
            let x = k - l1;
            if x + 4 <= section.len() {
                assert(!is_term_at(section, x));
                assert(w[k] == section[x] && w[k + 1] == section[x + 1] && w[k + 2] == section[x
                    + 2] && w[k + 3] == section[x + 3]);
            } else {
                // the window reaches into the terminator: the section's last
                // bytes cannot open one
                if x == section.len() - 1 {
                    assert(w[k] == section.last());
                } else if x == section.len() - 2 {
                    assert(w[k + 1] == section.last());
                    assert(w[k] == section[x]);
                    if section[x] == 13u8 {
                        assert(!is_term_at(section, x)) by {
                            lemma_section_no_term(pairs, 0);
                        }
                        assert(w[k + 1] != 10u8);
                    }
                } else {
                    assert(x == section.len() - 3);
                    assert(w[k + 2] == section.last());
                }
            }
        }
    }
    lemma_find_term_first(w, tt, 0);
    assert(w.subrange(0, tt) =~= block);
    // the section is UTF-8 text
    assert(valid_utf8(block)) by {
        broadcast use vstd::utf8::valid_utf8_concat;

        let sp = seq![32u8];
        lemma_ascii_seq_valid(sp);
        lemma_ascii_seq_valid("HTTP/1.1".spec_bytes());
        lemma_ascii_seq_valid(mt);
        lemma_section_valid(pairs, 0);
        assert(valid_utf8(mt + sp));
        assert(valid_utf8(mt + sp + uri));
        assert(valid_utf8(mt + sp + uri + sp));
        assert(valid_utf8(line1));
        assert(valid_utf8(block));
    }
    // the block splits into the request line and the header lines
    let lines = split_lines_from(block, 0);
    assert(lines == seq![line1] + lines_of(pairs, 0)) by {
        if pairs.len() == 0 {
            assert(block =~= line1);
            assert(find_byte_from(line1, 10u8, 0) is None) by {
                lemma_find_byte_bounds(line1, 10u8, 0);
                match find_byte_from(line1, 10u8, 0) {
                    Some(j) => {
                        assert(line1[j] != 10u8);
                    },
                    None => {},
                }
            }
            assert(split_lines_from(line1, 0) == seq![strip_cr(line1.subrange(0, l1))]);
            assert(line1.subrange(0, l1) =~= line1);
            assert(line1.last() == ("HTTP/1.1".spec_bytes())[7]);
            assert(strip_cr(line1) == line1);
            assert(lines =~= seq![line1] + lines_of(pairs, 0));
        } else {
            assert(section =~= seq![13u8, 10u8] + header_line(pairs[0].0, pairs[0].1)
                + header_section_from(pairs, 1));
            assert(block[l1] == 13u8 && block[l1 + 1] == 10u8);
            lemma_find_byte_first(block, 10u8, l1 + 1, 0);
            assert(split_lines_from(block, 0) == seq![strip_cr(block.subrange(0, l1 + 1))]
                + split_lines_from(block, l1 + 2));
            assert(strip_cr(block.subrange(0, l1 + 1)) =~= line1) by {
                assert(block.subrange(0, l1 + 1) =~= line1 + seq![13u8]);
                assert((line1 + seq![13u8]).last() == 13u8);
                assert((line1 + seq![13u8]).drop_last() =~= line1);
            }
            let a = line1 + seq![13u8, 10u8];
            let b = header_line(pairs[0].0, pairs[0].1) + header_section_from(pairs, 1);
            assert(block =~= a + b);
            lemma_split_lines_shift(a, b, 0);
            lemma_section_lines(pairs, 0);
            assert(lines =~= seq![line1] + lines_of(pairs, 0));
        }
    }
    lemma_lines_of_index(pairs, 0);
    assert(lines.len() == 1 + pairs.len());
    assert(lines[0] == line1);
    assert(forall|j: int|
        0 <= j < pairs.len() ==> lines[1 + j] == header_line(
            (#[trigger] pairs[j]).0,
            pairs[j].1,
        ));
    // the request line splits into its three tokens
    lemma_request_line_tokens(mt, uri);
    let toks = split_ws_from(line1, 0);
    assert(toks.len() == 3 && toks[0] == mt && toks[1] == uri);
    // the header lines fold into the pair mapping
    lemma_fold_parse(lines, pairs, 0, Seq::empty());
    let hb = fold_pairs(pairs);
    assert(parse_headers_from(lines, 1, Seq::empty()) == Some(hb));
    assert(pairs_valid(hb)) by {
        lemma_fold_pairs_valid(pairs, 0, Seq::empty());
    }
    // the content stage reads the body exactly when both headers are there
    assert(spec_decode(w) == spec_with_block(w, tt, w.subrange(0, tt)));
    assert(spec_with_block(w, tt, w.subrange(0, tt)) == spec_with_tokens(w, tt, lines, toks));
    assert(spec_with_tokens(w, tt, lines, toks) == spec_content_stage(w, tt, method, uri, hb));
    match (lookup(hb, ct_key()), lookup(hb, cl_key())) {
        (Some(_), Some(clv)) => {
            assert(w.len() == tt + 4 + body.len());
            assert(w.subrange(tt + 4, tt + 4 + body.len() as usize) =~= body);
            assert(spec_content_stage(w, tt, method, uri, hb) == spec_finish(
                method,
                uri,
                hb,
                w.subrange(tt + 4, tt + 4 + body.len() as usize),
                tt + 4 + body.len() as usize,
            ));
        },
        _ => {
            assert(body == Seq::<u8>::empty());
            assert(w.len() == tt + 4);
            assert(spec_content_stage(w, tt, method, uri, hb) == spec_finish(
                method,
                uri,
                hb,
                Seq::empty(),
                tt + 4,
            ));
        },
    }
    assert(spec_decode(w) == DecodeOutcome::Accepted(
        SpecRequest { method, uri, headers: hb, body },
        w.len() as int,
    ));
}

} // verus!
