//! Response decoding: the head/body split at the first blank line, the
//! status line, folded headers, and the body transfer modes (chunked,
//! `content-length` with lenient clamping, or the whole remainder), each
//! pinned to a specification.

use vstd::prelude::*;
use vstd::utf8::valid_utf8;

use crate::bytes::find_crlf_crlf;
use crate::bytes::find_sep;
use crate::bytes::is_digit;
use crate::bytes::is_ws;
use crate::bytes::lemma_find_sep_none;
use crate::bytes::lemma_find_sep_unique;
use crate::bytes::sub_vec;
use crate::bytes::to_lower;
use crate::chunked::parse_chunked;
use crate::chunked::parse_chunked_spec;
use crate::errors::HttpError;
use crate::headers::fold_header_lines;
use crate::headers::fold_lines;
use crate::headers::lines_view;
use crate::headers::lookup;
use crate::headers::lookup_header;
use crate::headers::pairs_view;
use crate::headers::split_head_lines;
use crate::headers::split_lines;
use crate::number::parse_dec;
use crate::number::parse_dec_bytes;

verus! {

/// A decoded control-plane response: status code, folded headers with
/// lower-cased names, and the raw body bytes (valid UTF-8 text).
#[derive(Debug)]
pub struct Response {
    pub status: u16,
    pub headers: Vec<(Vec<u8>, Vec<u8>)>,
    pub body: Vec<u8>,
}

/// Where the head of a raw message ends: at the first blank line if one
/// occurs, else the whole buffer is the head and the remainder is empty.
pub open spec fn head_of(raw: Seq<u8>) -> Seq<u8> {
    let p = find_sep(raw);
    if p < 0 {
        raw
    } else {
        raw.take(p + 4)
    }
}

/// The bytes after the head.
pub open spec fn rest_of(raw: Seq<u8>) -> Seq<u8> {
    let p = find_sep(raw);
    if p < 0 {
        Seq::empty()
    } else {
        raw.skip(p + 4)
    }
}

/// Run of whitespace starting at `i`.
pub open spec fn ws_run(s: Seq<u8>, i: int) -> int
    decreases s.len() - i,
{
    if 0 <= i < s.len() && is_ws(s[i]) {
        1 + ws_run(s, i + 1)
    } else {
        0
    }
}

/// Run of decimal digits starting at `i`.
pub open spec fn digit_run(s: Seq<u8>, i: int) -> int
    decreases s.len() - i,
{
    if 0 <= i < s.len() && is_digit(s[i]) {
        1 + digit_run(s, i + 1)
    } else {
        0
    }
}

/// The literal `HTTP/`.
pub open spec fn http_slash() -> Seq<u8> {
    seq![72u8, 84u8, 84u8, 80u8, 47u8]
}

/// Status code of a well-formed status line
/// `HTTP/<digits>.<digits> <3 digits> [<reason>]`, or nothing.  The code
/// must be exactly three digits followed by whitespace or the line end.
pub open spec fn parse_status_line(line: Seq<u8>) -> Option<int> {
    if line.len() < 5 || line.take(5) != http_slash() {
        None
    } else {
        let d1 = digit_run(line, 5);
        if d1 == 0 {
            None
        } else {
            let dot = 5 + d1;
            if !(dot < line.len() && line[dot] == 46) {
                None
            } else {
                let d2 = digit_run(line, dot + 1);
                if d2 == 0 {
                    None
                } else {
                    let w = ws_run(line, dot + 1 + d2);
                    if w == 0 {
                        None
                    } else {
                        let c = dot + 1 + d2 + w;
                        let d3 = digit_run(line, c);
                        if d3 != 3 {
                            None
                        } else if !(c + 3 == line.len() || is_ws(line[c + 3])) {
                            None
                        } else {
                            Some(
                                (line[c] - 48) * 100 + (line[c + 1] - 48) * 10 + (line[c + 2]
                                    - 48),
                            )
                        }
                    }
                }
            }
        }
    }
}

/// Body of a response whose folded headers are `hdrs` and whose bytes
/// after the head are `rest`: a `transfer-encoding` containing `chunked`
/// selects the chunk decoder; else a `content-length` takes that many
/// bytes, clamped to what is there; else the whole remainder.
pub open spec fn body_of(hdrs: Seq<(Seq<u8>, Seq<u8>)>, rest: Seq<u8>) -> Result<
    Seq<u8>,
    HttpError,
> {
    match lookup(hdrs, te_name()) {
        Some(te) => if crate::bytes::contains_seq(to_lower(te), chunked_name()) {
            parse_chunked_spec(rest)
        } else {
            Ok(rest)
        },
        None => match lookup(hdrs, cl_name()) {
            Some(cl) => match parse_dec(cl) {
                None => Err(HttpError::InvalidContentLength),
                Some(nv) => Ok(
                    rest.take(
                        if nv < rest.len() {
                            nv
                        } else {
                            rest.len() as int
                        },
                    ),
                ),
            },
            None => Ok(rest),
        },
    }
}

/// The header name `transfer-encoding`.
pub open spec fn te_name() -> Seq<u8> {
    seq![
        116u8, 114u8, 97u8, 110u8, 115u8, 102u8, 101u8, 114u8, 45u8, 101u8, 110u8, 99u8, 111u8,
        100u8, 105u8, 110u8, 103u8,
    ]
}

/// The header value fragment `chunked`.
pub open spec fn chunked_name() -> Seq<u8> {
    seq![99u8, 104u8, 117u8, 110u8, 107u8, 101u8, 100u8]
}

/// The header name `content-length`.
pub open spec fn cl_name() -> Seq<u8> {
    seq![99u8, 111u8, 110u8, 116u8, 101u8, 110u8, 116u8, 45u8, 108u8, 101u8, 110u8, 103u8, 116u8,
        104u8]
}

/// What decoding a raw response yields: the status code, the folded
/// headers, and the body, or the first failure.  The head must be UTF-8
/// text, the status line well formed with a code of at least 100, and
/// the body valid UTF-8.
pub open spec fn parse_response_spec(raw: Seq<u8>) -> Result<
    (int, Seq<(Seq<u8>, Seq<u8>)>, Seq<u8>),
    HttpError,
> {
    let head = head_of(raw);
    let rest = rest_of(raw);
    if !valid_utf8(head) {
        Err(HttpError::MalformedResponse)
    } else {
        let lines = split_lines(head);
        match parse_status_line(lines[0]) {
            None => Err(HttpError::MalformedResponse),
            Some(code) => if code < 100 {
                Err(HttpError::MalformedResponse)
            } else {
                let hdrs = fold_header_lines(lines.skip(1));
                match body_of(hdrs, rest) {
                    Err(e) => Err(e),
                    Ok(body) => if !valid_utf8(body) {
                        Err(HttpError::InvalidEncoding)
                    } else {
                        Ok((code, hdrs, body))
                    },
                }
            },
        }
    }
}

/// Relies on `str::from_utf8`: it returns `Ok` exactly on valid UTF-8
/// input, which vstd's `valid_utf8` describes.
#[verifier::external_body]
fn utf8_check(v: &[u8]) -> (r: bool)
    ensures
        r == valid_utf8(v@),
{
    str::from_utf8(v).is_ok()
}

/// Check a status line, exactly as `parse_status_line` describes.
fn check_status_line(line: &Vec<u8>) -> (r: Option<u16>)
    ensures
        (match r {
            Some(c) => parse_status_line(line@) == Some(c as int) && c <= 999,
            None => parse_status_line(line@) is None,
        }),
{
    let n: usize = line.len();
    if n < 5 {
        return None;
    }
    if !(line[0] == 72 && line[1] == 84 && line[2] == 84 && line[3] == 80 && line[4] == 47) {
        proof {
            if line@.take(5) == http_slash() {
                assert(line@.take(5)[0] == line@[0]);
                assert(line@.take(5)[1] == line@[1]);
                assert(line@.take(5)[2] == line@[2]);
                assert(line@.take(5)[3] == line@[3]);
                assert(line@.take(5)[4] == line@[4]);
            }
        }
        return None;
    }
    proof {
        assert(line@.take(5) =~= http_slash());
    }
    let d1 = scan_digits(line, 5);
    if d1 == 0 {
        return None;
    }
    let dot = 5 + d1;
    if !(dot < n && line[dot] == 46) {
        return None;
    }
    let d2 = scan_digits(line, dot + 1);
    if d2 == 0 {
        return None;
    }
    let w = scan_ws(line, dot + 1 + d2);
    if w == 0 {
        return None;
    }
    let c = dot + 1 + d2 + w;
    let d3 = scan_digits(line, c);
    if d3 != 3 {
        return None;
    }
    if !(c + 3 == n || (line[c + 3] == 9 || line[c + 3] == 10 || line[c + 3] == 11 || line[c + 3]
        == 12 || line[c + 3] == 13 || line[c + 3] == 32)) {
        return None;
    }
    proof {
        lemma_digit_run_digits(line@, c as int, c as int);
        lemma_digit_run_digits(line@, c as int, c + 1);
        lemma_digit_run_digits(line@, c as int, c + 2);
    }
    let code: u16 = ((line[c] - 48) as u16) * 100 + ((line[c + 1] - 48) as u16) * 10 + ((line[c
        + 2] - 48) as u16);
    Some(code)
}

/// Every position inside a digit run holds a digit.
proof fn lemma_digit_run_digits(s: Seq<u8>, i: int, k: int)
    requires
        0 <= i,
        i <= k < i + digit_run(s, i),
    ensures
        k < s.len() && is_digit(s[k]),
    decreases k - i,
{
    if k == i {
    } else {
        lemma_digit_run_digits(s, i + 1, k);
    }
}

/// Length of the digit run starting at `i`, as `digit_run` describes.
fn scan_digits(line: &Vec<u8>, i: usize) -> (r: usize)
    requires
        i <= line@.len(),
    ensures
        r == digit_run(line@, i as int),
        i + r <= line@.len(),
{
    let mut j: usize = i;
    while j < line.len() && 48 <= line[j] && line[j] <= 57
        invariant
            i <= j <= line@.len(),
            digit_run(line@, i as int) == (j - i) + digit_run(line@, j as int),
        decreases line@.len() - j,
    {
        j = j + 1;
    }
    j - i
}

/// Length of the whitespace run starting at `i`, as `ws_run` describes.
fn scan_ws(line: &Vec<u8>, i: usize) -> (r: usize)
    requires
        i <= line@.len(),
    ensures
        r == ws_run(line@, i as int),
        i + r <= line@.len(),
{
    let mut j: usize = i;
    while j < line.len() && (line[j] == 9 || line[j] == 10 || line[j] == 11 || line[j] == 12
        || line[j] == 13 || line[j] == 32)
        invariant
            i <= j <= line@.len(),
            ws_run(line@, i as int) == (j - i) + ws_run(line@, j as int),
        decreases line@.len() - j,
    {
        j = j + 1;
    }
    j - i
}

/// Decode a raw response, exactly as `parse_response_spec` describes.
pub fn parse_http_response(raw: &[u8]) -> (r: Result<Response, HttpError>)
    ensures
        (match r {
            Ok(resp) => parse_response_spec(raw@) == Ok::<_, HttpError>(
                (resp.status as int, pairs_view(resp.headers@), resp.body@),
            ) && resp.status >= 100,
            Err(e) => parse_response_spec(raw@) == Err::<(int, Seq<(Seq<u8>, Seq<u8>)>, Seq<u8>), HttpError>(
                e,
            ),
        }),
{
    let n: usize = raw.len();
    let (head, rest) = match find_crlf_crlf(raw, 0) {
        Some(p) => {
            proof {
                lemma_find_sep_unique(raw@, p as int);
                assert(raw@.subrange(0, p + 4) =~= raw@.take(p + 4));
                assert(raw@.subrange(p + 4, raw@.len() as int) =~= raw@.skip(p + 4));
            }
            (sub_vec(raw, 0, p + 4), sub_vec(raw, p + 4, n))
        },
        None => {
            proof {
                lemma_find_sep_none(raw@);
                assert(raw@.subrange(0, raw@.len() as int) =~= raw@);
            }
            (sub_vec(raw, 0, n), Vec::new())
        },
    };
    proof {
        assert(head@ == head_of(raw@));
        assert(rest@ == rest_of(raw@));
    }
    if !utf8_check(head.as_slice()) {
        return Err(HttpError::MalformedResponse);
    }
    let lines = split_head_lines(head.as_slice());
    proof {
        assert(split_lines(head@).len() > 0);
        assert(lines@.len() > 0);
        assert(lines_view(lines@)[0] == lines@[0]@);
    }
    let code = match check_status_line(&lines[0]) {
        None => {
            return Err(HttpError::MalformedResponse);
        },
        Some(c) => c,
    };
    if code < 100 {
        return Err(HttpError::MalformedResponse);
    }
    let mut tail_lines: Vec<Vec<u8>> = lines;
    tail_lines.remove(0);
    proof {
        assert(lines_view(tail_lines@) =~= lines_view(lines@).skip(1));
    }
    let hdrs = fold_lines(&tail_lines);
    let ghost hdrs_spec = fold_header_lines(split_lines(head@).skip(1));
    proof {
        assert(pairs_view(hdrs@) == hdrs_spec);
    }
    let te_lit: [u8; 17] = [116, 114, 97, 110, 115, 102, 101, 114, 45, 101, 110, 99, 111, 100, 105,
        110, 103];
    let cl_lit: [u8; 14] = [99, 111, 110, 116, 101, 110, 116, 45, 108, 101, 110, 103, 116, 104];
    let chunked_lit: [u8; 7] = [99, 104, 117, 110, 107, 101, 100];
    proof {
        assert(te_lit@ =~= te_name());
        assert(cl_lit@ =~= cl_name());
        assert(chunked_lit@ =~= chunked_name());
    }
    let body: Vec<u8> = match lookup_header(&hdrs, te_lit.as_slice()) {
        Some(te) => {
            let te_low = crate::bytes::lower_bytes(te.as_slice());
            if crate::bytes::contains_bytes(te_low.as_slice(), chunked_lit.as_slice()) {
                match parse_chunked(rest.as_slice()) {
                    Ok(b) => b,
                    Err(e) => {
                        return Err(e);
                    },
                }
            } else {
                rest
            }
        },
        None => {
            match lookup_header(&hdrs, cl_lit.as_slice()) {
                Some(cl) => {
                    match parse_dec_bytes(cl.as_slice()) {
                        None => {
                            return Err(HttpError::InvalidContentLength);
                        },
                        Some(nv) => {
                            let take_n: usize = if nv < rest.len() {
                                nv
                            } else {
                                rest.len()
                            };
                            proof {
                                assert(rest@.subrange(0, take_n as int) =~= rest@.take(
                                    take_n as int,
                                ));
                            }
                            sub_vec(rest.as_slice(), 0, take_n)
                        },
                    }
                },
                None => rest,
            }
        },
    };
    if !utf8_check(body.as_slice()) {
        return Err(HttpError::InvalidEncoding);
    }
    Ok(Response { status: code, headers: hdrs, body })
}

impl Response {
    /// The folded value stored under a (lower-case) header name.
    pub fn header_value(&self, name: &[u8]) -> (r: Option<Vec<u8>>)
        ensures
            (match r {
                Some(v) => lookup(pairs_view(self.headers@), name@) == Some(v@),
                None => lookup(pairs_view(self.headers@), name@) is None,
            }),
    {
        lookup_header(&self.headers, name)
    }
}

/// Under a `content-length` header (and no `transfer-encoding`), the
/// decoded body is exactly the declared count of bytes when that many
/// remain, and all remaining bytes when the declaration exceeds them:
/// truncation, not an error.
pub proof fn lemma_content_length_clamp(hdrs: Seq<(Seq<u8>, Seq<u8>)>, rest: Seq<u8>, nv: int)
    requires
        lookup(hdrs, te_name()) is None,
        lookup(hdrs, cl_name()) is Some,
        parse_dec(lookup(hdrs, cl_name()).unwrap()) == Some(nv),
    ensures
        nv <= rest.len() ==> body_of(hdrs, rest) == Ok::<Seq<u8>, HttpError>(rest.take(nv)),
        nv > rest.len() ==> body_of(hdrs, rest) == Ok::<Seq<u8>, HttpError>(rest),
{
    if nv > rest.len() {
        assert(rest.take(rest.len() as int) =~= rest);
    }
}

} // verus!
