//! Request building and decoding.  A request is assembled incrementally
//! (headers keep unique names and insertion order; setting the body
//! refreshes `Content-Length`), serialized as
//! `VERB TARGET HTTP/1.1`, one `Name: Value` line per header, a blank
//! line, then the raw body, and re-parsing the serialized bytes is proved
//! to recover what was built.

use vstd::prelude::*;

use crate::bytes::eq_bytes;
use crate::bytes::extend_bytes;
use crate::bytes::find1;
use crate::bytes::find2;
use crate::bytes::find_byte;
use crate::bytes::find_crlf_crlf;
use crate::bytes::find_sep;
use crate::bytes::lemma_find_sep_none;
use crate::bytes::lemma_find_sep_unique;
use crate::bytes::lemma_find1_none;
use crate::bytes::lemma_find1_unique;
use crate::bytes::sub_vec;
use crate::errors::HttpError;
use crate::headers::collect_header_lines;
use crate::headers::crlf;
use crate::headers::lines_view;
use crate::headers::pairs_view;
use crate::headers::parse_header_line;
use crate::headers::split_head_lines;
use crate::headers::split_lines;
use crate::number::dec_bytes;
use crate::number::dec_of;

verus! {

/// The verb of a control-plane request.
#[derive(Clone, Copy, Debug, PartialEq, Eq, Structural)]
pub enum Method {
    Get,
    Put,
    Post,
    Delete,
    Patch,
}

/// The wire form of each verb.
pub open spec fn method_bytes(m: Method) -> Seq<u8> {
    match m {
        Method::Get => seq![71u8, 69u8, 84u8],
        Method::Put => seq![80u8, 85u8, 84u8],
        Method::Post => seq![80u8, 79u8, 83u8, 84u8],
        Method::Delete => seq![68u8, 69u8, 76u8, 69u8, 84u8, 69u8],
        Method::Patch => seq![80u8, 65u8, 84u8, 67u8, 72u8],
    }
}

/// The verb a wire token denotes, if any.
pub open spec fn bytes_to_method(s: Seq<u8>) -> Option<Method> {
    if s == method_bytes(Method::Get) {
        Some(Method::Get)
    } else if s == method_bytes(Method::Put) {
        Some(Method::Put)
    } else if s == method_bytes(Method::Post) {
        Some(Method::Post)
    } else if s == method_bytes(Method::Delete) {
        Some(Method::Delete)
    } else if s == method_bytes(Method::Patch) {
        Some(Method::Patch)
    } else {
        None
    }
}

/// The literal `HTTP/1.1`.
pub open spec fn http11() -> Seq<u8> {
    seq![72u8, 84u8, 84u8, 80u8, 47u8, 49u8, 46u8, 49u8]
}

/// The header name `Content-Length`, as the builder writes it.
pub open spec fn content_length_name() -> Seq<u8> {
    seq![67u8, 111u8, 110u8, 116u8, 101u8, 110u8, 116u8, 45u8, 76u8, 101u8, 110u8, 103u8, 116u8,
        104u8]
}

/// Store a header: an existing name keeps its place and takes the new
/// value, a fresh name is appended.
pub open spec fn upsert(m: Seq<(Seq<u8>, Seq<u8>)>, k: Seq<u8>, v: Seq<u8>) -> Seq<
    (Seq<u8>, Seq<u8>),
>
    decreases m.len(),
{
    if m.len() == 0 {
        seq![(k, v)]
    } else if m[0].0 == k {
        seq![(k, v)] + m.skip(1)
    } else {
        seq![m[0]] + upsert(m.skip(1), k, v)
    }
}

/// One serialized header line without its terminator: `Name: Value`.
pub open spec fn header_line_of(kv: (Seq<u8>, Seq<u8>)) -> Seq<u8> {
    kv.0 + seq![58u8, 32u8] + kv.1
}

/// All serialized header lines, each with its CR LF terminator.
pub open spec fn encode_headers(hs: Seq<(Seq<u8>, Seq<u8>)>) -> Seq<u8>
    decreases hs.len(),
{
    if hs.len() == 0 {
        Seq::empty()
    } else {
        (header_line_of(hs[0]) + crlf()) + encode_headers(hs.skip(1))
    }
}

/// The serialized request line without its terminator.
pub open spec fn request_line_of(m: Method, target: Seq<u8>) -> Seq<u8> {
    method_bytes(m) + seq![32u8] + target + seq![32u8] + http11()
}

/// A whole serialized request.
pub open spec fn encode_request(
    m: Method,
    target: Seq<u8>,
    hs: Seq<(Seq<u8>, Seq<u8>)>,
    body: Seq<u8>,
) -> Seq<u8> {
    request_line_of(m, target) + crlf() + encode_headers(hs) + crlf() + body
}

/// A control-plane request under construction.
#[derive(Debug)]
pub struct Request {
    pub method: Method,
    pub target: Vec<u8>,
    pub headers: Vec<(Vec<u8>, Vec<u8>)>,
    pub body: Vec<u8>,
}

/// The verb and target of a well-formed request line, if any.
pub open spec fn parse_request_line(line: Seq<u8>) -> Option<(Method, Seq<u8>)> {
    let s1 = find1(line, 32);
    if s1 < 0 {
        None
    } else {
        match bytes_to_method(line.take(s1)) {
            None => None,
            Some(m) => {
                let rest = line.skip(s1 + 1);
                let s2 = find1(rest, 32);
                if s2 < 1 {
                    None
                } else if rest.skip(s2 + 1) != http11() {
                    None
                } else {
                    Some((m, rest.take(s2)))
                }
            },
        }
    }
}

/// What decoding a raw request yields: verb, target, the header lines
/// kept verbatim (names case-sensitive, repeats separate), and the body.
pub open spec fn parse_request_spec(raw: Seq<u8>) -> Result<
    (Method, Seq<u8>, Seq<(Seq<u8>, Seq<u8>)>, Seq<u8>),
    HttpError,
> {
    let p = find_sep(raw);
    if p < 0 {
        Err(HttpError::MalformedRequest)
    } else {
        let head = raw.take(p + 4);
        let rest = raw.skip(p + 4);
        let lines = split_lines(head);
        match parse_request_line(lines[0]) {
            None => Err(HttpError::MalformedRequest),
            Some(mt) => Ok((mt.0, mt.1, collect_header_lines(lines.skip(1)), rest)),
        }
    }
}

/// Serialize a verb.
pub fn method_to_vec(m: Method) -> (r: Vec<u8>)
    ensures
        r@ == method_bytes(m),
{
    let mut v: Vec<u8> = Vec::new();
    match m {
        Method::Get => {
            v.push(71);
            v.push(69);
            v.push(84);
        },
        Method::Put => {
            v.push(80);
            v.push(85);
            v.push(84);
        },
        Method::Post => {
            v.push(80);
            v.push(79);
            v.push(83);
            v.push(84);
        },
        Method::Delete => {
            v.push(68);
            v.push(69);
            v.push(76);
            v.push(69);
            v.push(84);
            v.push(69);
        },
        Method::Patch => {
            v.push(80);
            v.push(65);
            v.push(84);
            v.push(67);
            v.push(72);
        },
    }
    proof {
        assert(v@ =~= method_bytes(m));
    }
    v
}

/// Recognize a verb token, exactly as `bytes_to_method` describes.
pub fn method_from_bytes(s: &[u8]) -> (r: Option<Method>)
    ensures
        r == bytes_to_method(s@),
{
    let get_lit: [u8; 3] = [71, 69, 84];
    let put_lit: [u8; 3] = [80, 85, 84];
    let post_lit: [u8; 4] = [80, 79, 83, 84];
    let delete_lit: [u8; 6] = [68, 69, 76, 69, 84, 69];
    let patch_lit: [u8; 5] = [80, 65, 84, 67, 72];
    proof {
        assert(get_lit@ =~= method_bytes(Method::Get));
        assert(put_lit@ =~= method_bytes(Method::Put));
        assert(post_lit@ =~= method_bytes(Method::Post));
        assert(delete_lit@ =~= method_bytes(Method::Delete));
        assert(patch_lit@ =~= method_bytes(Method::Patch));
    }
    if eq_bytes(s, get_lit.as_slice()) {
        Some(Method::Get)
    } else if eq_bytes(s, put_lit.as_slice()) {
        Some(Method::Put)
    } else if eq_bytes(s, post_lit.as_slice()) {
        Some(Method::Post)
    } else if eq_bytes(s, delete_lit.as_slice()) {
        Some(Method::Delete)
    } else if eq_bytes(s, patch_lit.as_slice()) {
        Some(Method::Patch)
    } else {
        None
    }
}

/// Store a header pair, exactly as `upsert` describes.
fn upsert_header(m: Vec<(Vec<u8>, Vec<u8>)>, k: Vec<u8>, v: Vec<u8>) -> (r: Vec<
    (Vec<u8>, Vec<u8>),
>)
    ensures
        pairs_view(r@) == upsert(pairs_view(m@), k@, v@),
    decreases m@.len(),
{
    let mut m = m;
    let ghost m0 = m@;
    if m.len() == 0 {
        let mut r: Vec<(Vec<u8>, Vec<u8>)> = Vec::new();
        r.push((k, v));
        proof {
            assert(pairs_view(r@) =~= upsert(pairs_view(m@), k@, v@));
        }
        r
    } else {
        let first = m.remove(0);
        proof {
            assert(pairs_view(m0)[0] == (first.0@, first.1@));
            assert(pairs_view(m@) =~= pairs_view(m0).skip(1));
        }
        if eq_bytes(first.0.as_slice(), k.as_slice()) {
            let mut r: Vec<(Vec<u8>, Vec<u8>)> = Vec::new();
            r.push((k, v));
            let mut m2 = m;
            r.append(&mut m2);
            proof {
                assert(pairs_view(r@) =~= upsert(pairs_view(m0), k@, v@)) by {
                    assert(forall|q: int|
                        0 <= q < pairs_view(r@).len() ==> #[trigger] pairs_view(r@)[q] == (
                        r@[q].0@,
                        r@[q].1@,
                        ));
                }
            }
            r
        } else {
            let rest = upsert_header(m, k, v);
            let mut r: Vec<(Vec<u8>, Vec<u8>)> = Vec::new();
            r.push(first);
            let mut rest2 = rest;
            r.append(&mut rest2);
            proof {
                assert(pairs_view(r@) =~= upsert(pairs_view(m0), k@, v@)) by {
                    assert(forall|q: int|
                        0 <= q < pairs_view(r@).len() ==> #[trigger] pairs_view(r@)[q] == (
                        r@[q].0@,
                        r@[q].1@,
                        ));
                }
            }
            r
        }
    }
}

impl Request {
    /// A fresh request for a verb and target, with no headers and an
    /// empty body.
    pub fn new_request(target: &[u8], method: Method) -> (r: Request)
        ensures
            r.method == method,
            r.target@ == target@,
            pairs_view(r.headers@) == Seq::<(Seq<u8>, Seq<u8>)>::empty(),
            r.body@ == Seq::<u8>::empty(),
    {
        let mut t: Vec<u8> = Vec::new();
        extend_bytes(&mut t, target);
        proof {
            assert(t@ =~= target@);
            assert(pairs_view(Seq::<(Vec<u8>, Vec<u8>)>::empty()) =~= Seq::<
                (Seq<u8>, Seq<u8>),
            >::empty());
        }
        Request { method, target: t, headers: Vec::new(), body: Vec::new() }
    }

    /// Store a header; an existing name keeps its place and takes the
    /// new value.
    pub fn add_header(self, k: &[u8], v: &[u8]) -> (r: Request)
        ensures
            r.method == self.method,
            r.target@ == self.target@,
            r.body@ == self.body@,
            pairs_view(r.headers@) == upsert(pairs_view(self.headers@), k@, v@),
    {
        let mut kv: Vec<u8> = Vec::new();
        extend_bytes(&mut kv, k);
        let mut vv: Vec<u8> = Vec::new();
        extend_bytes(&mut vv, v);
        proof {
            assert(kv@ =~= k@);
            assert(vv@ =~= v@);
        }
        let headers = upsert_header(self.headers, kv, vv);
        Request { method: self.method, target: self.target, headers, body: self.body }
    }

    /// Set the body and refresh `Content-Length` to its byte length.
    pub fn body(self, b: &[u8]) -> (r: Request)
        ensures
            r.method == self.method,
            r.target@ == self.target@,
            r.body@ == b@,
            pairs_view(r.headers@) == upsert(
                pairs_view(self.headers@),
                content_length_name(),
                dec_of(b@.len() as int),
            ),
    {
        let cl_lit: [u8; 14] = [67, 111, 110, 116, 101, 110, 116, 45, 76, 101, 110, 103, 116, 104];
        proof {
            assert(cl_lit@ =~= content_length_name());
        }
        let len_v = dec_bytes(b.len());
        let with_cl = self.add_header(cl_lit.as_slice(), len_v.as_slice());
        let mut bv: Vec<u8> = Vec::new();
        extend_bytes(&mut bv, b);
        proof {
            assert(bv@ =~= b@);
        }
        Request {
            method: with_cl.method,
            target: with_cl.target,
            headers: with_cl.headers,
            body: bv,
        }
    }

    /// Serialize the request, exactly as `encode_request` describes.
    pub fn build(&self) -> (r: Vec<u8>)
        ensures
            r@ == encode_request(self.method, self.target@, pairs_view(self.headers@), self.body@),
    {
        let mut out: Vec<u8> = Vec::new();
        let mv = method_to_vec(self.method);
        extend_bytes(&mut out, mv.as_slice());
        out.push(32);
        extend_bytes(&mut out, self.target.as_slice());
        out.push(32);
        let http_lit: [u8; 8] = [72, 84, 84, 80, 47, 49, 46, 49];
        extend_bytes(&mut out, http_lit.as_slice());
        out.push(13);
        out.push(10);
        proof {
            assert(http_lit@ =~= http11());
            assert(out@ =~= request_line_of(self.method, self.target@) + crlf());
        }
        let ghost line_part = out@;
        let hs = &self.headers;
        let mut i: usize = 0;
        proof {
            assert(encode_headers(pairs_view(hs@).take(0)) == Seq::<u8>::empty()) by {
                assert(pairs_view(hs@).take(0) =~= Seq::<(Seq<u8>, Seq<u8>)>::empty());
            }
            assert(out@ =~= line_part + encode_headers(pairs_view(hs@).take(0)));
        }
        while i < hs.len()
            invariant
                i <= hs@.len(),
                out@ == line_part + encode_headers(pairs_view(hs@).take(i as int)),
            decreases hs@.len() - i,
        {
            let ghost pv = pairs_view(hs@);
            extend_bytes(&mut out, hs[i].0.as_slice());
            out.push(58);
            out.push(32);
            extend_bytes(&mut out, hs[i].1.as_slice());
            out.push(13);
            out.push(10);
            proof {
                assert(pv[i as int] == (hs@[i as int].0@, hs@[i as int].1@));
                lemma_encode_headers_snoc(pv.take(i as int), pv[i as int]);
                assert(pv.take(i + 1) =~= pv.take(i as int).push(pv[i as int]));
                assert(out@ =~= line_part + (encode_headers(pv.take(i as int)) + (header_line_of(
                    pv[i as int],
                ) + crlf())));
            }
            i = i + 1;
        }
        extend_bytes(&mut out, {
            let crlf_lit: [u8; 2] = [13, 10];
            crlf_lit
        }.as_slice());
        extend_bytes(&mut out, self.body.as_slice());
        proof {
            assert(pairs_view(hs@).take(hs@.len() as int) =~= pairs_view(hs@));
            assert(out@ =~= encode_request(
                self.method,
                self.target@,
                pairs_view(self.headers@),
                self.body@,
            ));
        }
        out
    }
}

/// Appending one header extends the serialization by one line.
proof fn lemma_encode_headers_snoc(hs: Seq<(Seq<u8>, Seq<u8>)>, kv: (Seq<u8>, Seq<u8>))
    ensures
        encode_headers(hs.push(kv)) == encode_headers(hs) + (header_line_of(kv) + crlf()),
    decreases hs.len(),
{
    let e = hs.push(kv);
    if hs.len() == 0 {
        assert(e[0] == kv);
        assert(e.skip(1) =~= Seq::<(Seq<u8>, Seq<u8>)>::empty());
        assert(encode_headers(e.skip(1)) == Seq::<u8>::empty());
        assert(encode_headers(e) =~= encode_headers(hs) + (header_line_of(kv) + crlf()));
    } else {
        assert(e[0] == hs[0]);
        assert(e.skip(1) =~= hs.skip(1).push(kv));
        lemma_encode_headers_snoc(hs.skip(1), kv);
        assert(encode_headers(e) == (header_line_of(hs[0]) + crlf()) + encode_headers(
            hs.skip(1).push(kv),
        ));
        assert((header_line_of(hs[0]) + crlf()) + (encode_headers(hs.skip(1)) + (header_line_of(kv)
            + crlf())) =~= ((header_line_of(hs[0]) + crlf()) + encode_headers(hs.skip(1))) + (
        header_line_of(kv) + crlf()));
    }
}

/// Collect verbatim headers from lines, as `collect_header_lines`
/// describes.
fn collect_lines(lines: &Vec<Vec<u8>>) -> (r: Vec<(Vec<u8>, Vec<u8>)>)
    ensures
        pairs_view(r@) == collect_header_lines(lines_view(lines@)),
{
    let mut acc: Vec<(Vec<u8>, Vec<u8>)> = Vec::new();
    let mut i: usize = 0;
    proof {
        assert(lines_view(lines@).take(0) =~= Seq::<Seq<u8>>::empty());
        assert(pairs_view(acc@) =~= Seq::<(Seq<u8>, Seq<u8>)>::empty());
    }
    while i < lines.len()
        invariant
            i <= lines@.len(),
            pairs_view(acc@) == collect_header_lines(lines_view(lines@).take(i as int)),
        decreases lines@.len() - i,
    {
        proof {
            let lv = lines_view(lines@);
            assert(lv.take(i + 1).drop_last() =~= lv.take(i as int));
            assert(lv.take(i + 1).last() == lv[i as int]);
            assert(lv[i as int] == lines@[i as int]@);
        }
        match parse_header_line(&lines[i]) {
            Some(p) => {
                let ghost before = pairs_view(acc@);
                acc.push((p.0, p.1));
                proof {
                    assert(pairs_view(acc@) =~= before.push((p.0@, p.1@)));
                }
            },
            None => {},
        }
        i = i + 1;
    }
    proof {
        assert(lines_view(lines@).take(lines@.len() as int) =~= lines_view(lines@));
    }
    acc
}

/// Decode a raw request, exactly as `parse_request_spec` describes.
pub fn parse_http_request(raw: &[u8]) -> (r: Result<Request, HttpError>)
    ensures
        (match r {
            Ok(req) => parse_request_spec(raw@) == Ok::<_, HttpError>(
                (req.method, req.target@, pairs_view(req.headers@), req.body@),
            ),
            Err(e) => parse_request_spec(raw@) == Err::<
                (Method, Seq<u8>, Seq<(Seq<u8>, Seq<u8>)>, Seq<u8>),
                HttpError,
            >(e),
        }),
{
    let n: usize = raw.len();
    let p = match find_crlf_crlf(raw, 0) {
        Some(p) => {
            proof {
                lemma_find_sep_unique(raw@, p as int);
            }
            p
        },
        None => {
            proof {
                lemma_find_sep_none(raw@);
            }
            return Err(HttpError::MalformedRequest);
        },
    };
    let head = sub_vec(raw, 0, p + 4);
    let body = sub_vec(raw, p + 4, n);
    proof {
        assert(head@ =~= raw@.take(p + 4));
        assert(body@ =~= raw@.skip(p + 4));
    }
    let lines = split_head_lines(head.as_slice());
    proof {
        assert(split_lines(head@).len() > 0);
        assert(lines@.len() > 0);
        assert(lines_view(lines@)[0] == lines@[0]@);
    }
    let line0 = &lines[0];
    let s1 = match find_byte(line0.as_slice(), 0, 32) {
        Some(j) => {
            proof {
                lemma_find1_unique(line0@, 32, j as int);
            }
            j
        },
        None => {
            proof {
                lemma_find1_none(line0@, 32);
            }
            return Err(HttpError::MalformedRequest);
        },
    };
    let mtoken = sub_vec(line0.as_slice(), 0, s1);
    proof {
        assert(mtoken@ =~= line0@.take(s1 as int));
    }
    let m = match method_from_bytes(mtoken.as_slice()) {
        Some(m) => m,
        None => {
            return Err(HttpError::MalformedRequest);
        },
    };
    let rest_line = sub_vec(line0.as_slice(), s1 + 1, line0.len());
    proof {
        assert(rest_line@ =~= line0@.skip(s1 + 1));
    }
    let s2 = match find_byte(rest_line.as_slice(), 0, 32) {
        Some(j) => {
            proof {
                lemma_find1_unique(rest_line@, 32, j as int);
            }
            j
        },
        None => {
            proof {
                lemma_find1_none(rest_line@, 32);
            }
            return Err(HttpError::MalformedRequest);
        },
    };
    if s2 == 0 {
        return Err(HttpError::MalformedRequest);
    }
    let target = sub_vec(rest_line.as_slice(), 0, s2);
    let tail = sub_vec(rest_line.as_slice(), s2 + 1, rest_line.len());
    proof {
        assert(target@ =~= rest_line@.take(s2 as int));
        assert(tail@ =~= rest_line@.skip(s2 + 1));
    }
    let http_lit: [u8; 8] = [72, 84, 84, 80, 47, 49, 46, 49];
    proof {
        assert(http_lit@ =~= http11());
    }
    if !eq_bytes(tail.as_slice(), http_lit.as_slice()) {
        return Err(HttpError::MalformedRequest);
    }
    let mut tail_lines: Vec<Vec<u8>> = lines;
    tail_lines.remove(0);
    proof {
        assert(lines_view(tail_lines@) =~= split_lines(head@).skip(1));
    }
    let headers = collect_lines(&tail_lines);
    Ok(Request { method: m, target, headers, body })
}



/// The `Content-Length` pair the body setter stores survives the wire:
/// its name and printed value meet the round-trip law's conditions.
pub proof fn lemma_content_length_header_wire_safe(n: int)
    requires
        n >= 0,
    ensures
        wire_safe_header((content_length_name(), crate::number::dec_of(n))),
{
    crate::number::lemma_dec_of_digits(n);
    let k = content_length_name();
    assert forall|i: int| 0 <= i < k.len() implies #[trigger] k[i] != 13 && k[i] != 10 && k[i]
        != 58 && !crate::bytes::is_ws(k[i]) by {
        assert(i == 0 || i == 1 || i == 2 || i == 3 || i == 4 || i == 5 || i == 6 || i == 7 || i
            == 8 || i == 9 || i == 10 || i == 11 || i == 12 || i == 13);
    }
    crate::bytes::lemma_trim_no_ws(k);
    let v = crate::number::dec_of(n);
    assert forall|i: int| 0 <= i < v.len() implies #[trigger] v[i] != 13 && v[i] != 10
        && !crate::bytes::is_ws(v[i]) by {
        assert(crate::bytes::is_digit(v[i]));
    }
    crate::bytes::lemma_trim_no_ws(v);
}

/// A line that can sit inside a message head: free of CR and LF.
pub open spec fn clean_line(l: Seq<u8>) -> bool {
    forall|i: int| 0 <= i < l.len() ==> #[trigger] l[i] != 13 && l[i] != 10
}

/// Lines joined with a CR LF terminator after each one.
pub open spec fn join_crlf(lines: Seq<Seq<u8>>) -> Seq<u8>
    decreases lines.len(),
{
    if lines.len() == 0 {
        Seq::empty()
    } else {
        (lines[0] + crlf()) + join_crlf(lines.skip(1))
    }
}

/// A target that can stand in a request line: non-empty, free of CR, LF
/// and spaces.
pub open spec fn wire_safe_target(t: Seq<u8>) -> bool {
    t.len() > 0 && forall|i: int| 0 <= i < t.len() ==> #[trigger] t[i] != 13 && t[i] != 10 && t[i]
        != 32
}

/// A header pair that survives the wire: the name non-empty, free of CR,
/// LF and colons, and trim-stable; the value free of CR and LF and
/// trim-stable.
pub open spec fn wire_safe_header(kv: (Seq<u8>, Seq<u8>)) -> bool {
    &&& kv.0.len() > 0
    &&& (forall|i: int|
        0 <= i < kv.0.len() ==> #[trigger] kv.0[i] != 13 && kv.0[i] != 10 && kv.0[i] != 58)
    &&& crate::bytes::trim(kv.0) == kv.0
    &&& (forall|i: int| 0 <= i < kv.1.len() ==> #[trigger] kv.1[i] != 13 && kv.1[i] != 10)
    &&& crate::bytes::trim(kv.1) == kv.1
}

pub open spec fn wire_safe_headers(hs: Seq<(Seq<u8>, Seq<u8>)>) -> bool {
    forall|i: int| 0 <= i < hs.len() ==> wire_safe_header(#[trigger] hs[i])
}

proof fn lemma_find_sep_join(lines: Seq<Seq<u8>>, y: Seq<u8>)
    requires
        lines.len() > 0,
        forall|i: int| 0 <= i < lines.len() ==> clean_line(#[trigger] lines[i]),
        forall|i: int| 1 <= i < lines.len() ==> (#[trigger] lines[i]).len() > 0,
    ensures
        find_sep(join_crlf(lines) + crlf() + y) == join_crlf(lines).len() - 2,
        join_crlf(lines).len() >= 2,
    decreases lines.len(),
{
    let l0 = lines[0];
    let e = join_crlf(lines) + crlf() + y;
    if lines.len() == 1 {
        assert(lines.skip(1) =~= Seq::<Seq<u8>>::empty());
        assert(join_crlf(lines.skip(1)) == Seq::<u8>::empty());
        let jl = join_crlf(lines);
        assert(jl =~= l0 + crlf());
        assert(jl.len() == l0.len() + 2);
        assert forall|q: int| 0 <= q < l0.len() implies #[trigger] e[q] == l0[q] by {}
        assert(e[l0.len() as int] == 13);
        assert(e[l0.len() as int + 1] == 10);
        assert(e[l0.len() as int + 2] == 13);
        assert(e[l0.len() as int + 3] == 10);
        assert forall|q: int| 0 <= q < l0.len() implies !(#[trigger] e[q] == 13 && e[q + 1] == 10
            && e[q + 2] == 13 && e[q + 3] == 10) by {
            assert(e[q] == l0[q]);
        }
        lemma_find_sep_unique(e, l0.len() as int);
    } else {
        let rest = lines.skip(1);
        let suf = join_crlf(rest) + crlf() + y;
        assert forall|i: int| 0 <= i < rest.len() implies clean_line(#[trigger] rest[i]) by {
            assert(rest[i] == lines[i + 1]);
        }
        assert forall|i: int| 1 <= i < rest.len() implies (#[trigger] rest[i]).len() > 0 by {
            assert(rest[i] == lines[i + 1]);
        }
        assert(rest[0].len() > 0) by {
            assert(rest[0] == lines[1]);
        }
        lemma_find_sep_join(rest, y);
        let rp = join_crlf(rest).len() - 2;
        crate::bytes::lemma_find_sep_props(suf);
        let jl = join_crlf(lines);
        assert(jl == (l0 + crlf()) + join_crlf(rest));
        assert(jl.len() == l0.len() + 2 + join_crlf(rest).len());
        assert(e =~= (l0 + crlf()) + suf) by {
            assert(((l0 + crlf()) + join_crlf(rest)) + crlf() + y =~= (l0 + crlf()) + (join_crlf(
                rest,
            ) + crlf() + y));
        }
        let base = l0.len() + 2;
        assert forall|q: int| 0 <= q < suf.len() implies #[trigger] e[base + q] == suf[q] by {}
        assert forall|q: int| 0 <= q < l0.len() implies #[trigger] e[q] == l0[q] by {}
        assert(e[l0.len() as int] == 13);
        assert(e[l0.len() as int + 1] == 10);
        let pos = base + rp;
        assert(e[pos] == 13 && e[pos + 1] == 10 && e[pos + 2] == 13 && e[pos + 3] == 10) by {
            assert(suf[rp] == 13 && suf[rp + 1] == 10 && suf[rp + 2] == 13 && suf[rp + 3] == 10);
        }
        assert(suf[0] == rest[0][0]) by {
            assert(join_crlf(rest)[0] == (rest[0] + crlf())[0]);
        }
        assert(suf[0] != 13) by {
            assert(clean_line(rest[0]));
        }
        assert forall|q: int| 0 <= q < pos implies !(#[trigger] e[q] == 13 && e[q + 1] == 10 && e[q
            + 2] == 13 && e[q + 3] == 10) by {
            if q < l0.len() {
                assert(e[q] == l0[q]);
            } else if q == l0.len() {
                assert(e[q + 2] == suf[0]);
            } else if q == l0.len() + 1 {
                assert(e[q] == 10);
            } else {
                let qp = q - base;
                assert(0 <= qp < rp);
                assert(e[q] == suf[qp] && e[q + 1] == suf[qp + 1] && e[q + 2] == suf[qp + 2] && e[q
                    + 3] == suf[qp + 3]);
            }
        }
        lemma_find_sep_unique(e, pos);
    }
}

proof fn lemma_split_join(lines: Seq<Seq<u8>>, tail: Seq<u8>)
    requires
        forall|i: int| 0 <= i < lines.len() ==> clean_line(#[trigger] lines[i]),
    ensures
        split_lines(join_crlf(lines) + tail) == lines + split_lines(tail),
    decreases lines.len(),
{
    if lines.len() == 0 {
        assert(join_crlf(lines) + tail =~= tail);
        assert(lines + split_lines(tail) =~= split_lines(tail));
    } else {
        let l0 = lines[0];
        let rest = lines.skip(1);
        assert forall|i: int| 0 <= i < rest.len() implies clean_line(#[trigger] rest[i]) by {
            assert(rest[i] == lines[i + 1]);
        }
        lemma_split_join(rest, tail);
        let e = join_crlf(lines) + tail;
        let suf = join_crlf(rest) + tail;
        assert(e =~= (l0 + crlf()) + suf) by {
            assert(((l0 + crlf()) + join_crlf(rest)) + tail =~= (l0 + crlf()) + (join_crlf(rest)
                + tail));
        }
        assert forall|q: int| 0 <= q < l0.len() implies !(#[trigger] e[q] == 13 && e[q + 1] == 10)
            by {
            assert(e[q] == l0[q]);
        }
        assert(e[l0.len() as int] == 13 && e[l0.len() as int + 1] == 10);
        crate::bytes::lemma_find2_unique(e, 13, 10, l0.len() as int);
        assert(e.take(l0.len() as int) =~= l0);
        assert(e.skip(l0.len() + 2 as int) =~= suf);
        assert(split_lines(e) == seq![l0] + split_lines(suf));
        assert(seq![l0] + (rest + split_lines(tail)) =~= lines + split_lines(tail));
    }
}

proof fn lemma_split_crlf()
    ensures
        split_lines(crlf()) == seq![Seq::<u8>::empty(), Seq::<u8>::empty()],
{
    let s = crlf();
    crate::bytes::lemma_find2_unique(s, 13, 10, 0);
    assert(s.take(0) =~= Seq::<u8>::empty());
    assert(s.skip(2) =~= Seq::<u8>::empty());
    assert(find1(Seq::<u8>::empty(), 13) == -1);
    assert(find2(Seq::<u8>::empty(), 13, 10) == -1);
    assert(split_lines(Seq::<u8>::empty()) == seq![Seq::<u8>::empty()]);
    assert(seq![s.take(0)] + split_lines(s.skip(2)) =~= seq![
        Seq::<u8>::empty(),
        Seq::<u8>::empty(),
    ]);
}

/// The serialized header block is the joined header lines.
proof fn lemma_encode_headers_join(hs: Seq<(Seq<u8>, Seq<u8>)>)
    ensures
        encode_headers(hs) == join_crlf(hs.map_values(|kv: (Seq<u8>, Seq<u8>)| header_line_of(kv))),
    decreases hs.len(),
{
    let lm = hs.map_values(|kv: (Seq<u8>, Seq<u8>)| header_line_of(kv));
    if hs.len() == 0 {
        assert(lm =~= Seq::<Seq<u8>>::empty());
    } else {
        lemma_encode_headers_join(hs.skip(1));
        assert(lm[0] == header_line_of(hs[0]));
        assert(lm.skip(1) =~= hs.skip(1).map_values(
            |kv: (Seq<u8>, Seq<u8>)| header_line_of(kv),
        ));
        assert(join_crlf(lm) == (lm[0] + crlf()) + join_crlf(lm.skip(1)));
    }
}

/// Method tokens hold only upper-case letters: no CR, LF or space.
proof fn lemma_method_bytes_clean(m: Method)
    ensures
        forall|i: int|
            0 <= i < method_bytes(m).len() ==> #[trigger] method_bytes(m)[i] != 13 && method_bytes(
                m,
            )[i] != 10 && method_bytes(m)[i] != 32,
        method_bytes(m).len() > 0,
{
    match m {
        Method::Get => {
            assert forall|i: int| 0 <= i < method_bytes(m).len() implies #[trigger] method_bytes(
                m,
            )[i] != 13 && method_bytes(m)[i] != 10 && method_bytes(m)[i] != 32 by {
                assert(i == 0 || i == 1 || i == 2);
            }
        },
        Method::Put => {
            assert forall|i: int| 0 <= i < method_bytes(m).len() implies #[trigger] method_bytes(
                m,
            )[i] != 13 && method_bytes(m)[i] != 10 && method_bytes(m)[i] != 32 by {
                assert(i == 0 || i == 1 || i == 2);
            }
        },
        Method::Post => {
            assert forall|i: int| 0 <= i < method_bytes(m).len() implies #[trigger] method_bytes(
                m,
            )[i] != 13 && method_bytes(m)[i] != 10 && method_bytes(m)[i] != 32 by {
                assert(i == 0 || i == 1 || i == 2 || i == 3);
            }
        },
        Method::Delete => {
            assert forall|i: int| 0 <= i < method_bytes(m).len() implies #[trigger] method_bytes(
                m,
            )[i] != 13 && method_bytes(m)[i] != 10 && method_bytes(m)[i] != 32 by {
                assert(i == 0 || i == 1 || i == 2 || i == 3 || i == 4 || i == 5);
            }
        },
        Method::Patch => {
            assert forall|i: int| 0 <= i < method_bytes(m).len() implies #[trigger] method_bytes(
                m,
            )[i] != 13 && method_bytes(m)[i] != 10 && method_bytes(m)[i] != 32 by {
                assert(i == 0 || i == 1 || i == 2 || i == 3 || i == 4);
            }
        },
    }
}

/// Each verb token names its own verb back.
proof fn lemma_method_bytes_inverse(m: Method)
    ensures
        bytes_to_method(method_bytes(m)) == Some(m),
{
    match m {
        Method::Get => {},
        Method::Put => {
            assert(method_bytes(Method::Put)[0] != method_bytes(Method::Get)[0]);
        },
        Method::Post => {
            assert(method_bytes(Method::Post).len() != method_bytes(Method::Get).len());
        },
        Method::Delete => {
            assert(method_bytes(Method::Delete).len() != method_bytes(Method::Get).len());
            assert(method_bytes(Method::Delete).len() != method_bytes(Method::Post).len());
        },
        Method::Patch => {
            assert(method_bytes(Method::Patch).len() != method_bytes(Method::Get).len());
            assert(method_bytes(Method::Patch).len() != method_bytes(Method::Post).len());
            assert(method_bytes(Method::Patch).len() != method_bytes(Method::Delete).len());
        },
    }
}

/// A serialized header line reads back as its pair.
proof fn lemma_header_line_parts(kv: (Seq<u8>, Seq<u8>))
    requires
        wire_safe_header(kv),
    ensures
        crate::headers::header_line_parts(header_line_of(kv)) == Some(kv),
{
    let line = header_line_of(kv);
    let k = kv.0;
    let v = kv.1;
    assert(line.len() == k.len() + 2 + v.len());
    assert forall|i: int| 0 <= i < k.len() implies #[trigger] line[i] == k[i] by {}
    assert(line[k.len() as int] == 58);
    assert(line[k.len() as int + 1] == 32);
    assert forall|i: int| 0 <= i < v.len() implies #[trigger] line[k.len() + 2 + i] == v[i] by {}
    assert forall|i: int| 0 <= i < k.len() implies line[i] != 58 by {
        assert(line[i] == k[i]);
    }
    lemma_find1_unique(line, 58, k.len() as int);
    assert(line.take(k.len() as int) =~= k);
    assert(line.skip(k.len() + 1 as int) =~= seq![32u8] + v);
    crate::bytes::lemma_trim_space_prefix(v);
    assert(crate::headers::header_line_parts(line) == Some((crate::bytes::trim(k), v)));
}

/// A blank line carries no header.
proof fn lemma_empty_line_no_header()
    ensures
        crate::headers::header_line_parts(Seq::<u8>::empty()) is None,
{
    assert(find1(Seq::<u8>::empty(), 58) == -1);
}

/// Collecting the serialized header lines recovers the pairs.
proof fn lemma_collect_lines_of(hs: Seq<(Seq<u8>, Seq<u8>)>)
    requires
        wire_safe_headers(hs),
    ensures
        collect_header_lines(hs.map_values(|kv: (Seq<u8>, Seq<u8>)| header_line_of(kv))) == hs,
    decreases hs.len(),
{
    let lm = hs.map_values(|kv: (Seq<u8>, Seq<u8>)| header_line_of(kv));
    if hs.len() == 0 {
        assert(lm =~= Seq::<Seq<u8>>::empty());
        assert(collect_header_lines(lm) =~= hs);
    } else {
        let pre = hs.drop_last();
        assert(wire_safe_headers(pre)) by {
            assert(forall|i: int| 0 <= i < pre.len() ==> #[trigger] pre[i] == hs[i]);
        }
        lemma_collect_lines_of(pre);
        assert(lm.drop_last() =~= pre.map_values(|kv: (Seq<u8>, Seq<u8>)| header_line_of(kv)));
        assert(lm.last() == header_line_of(hs.last()));
        lemma_header_line_parts(hs.last());
        assert(collect_header_lines(lm) == collect_header_lines(lm.drop_last()).push(hs.last()));
        assert(pre.push(hs.last()) =~= hs);
    }
}

/// Trailing blank lines add no headers.
proof fn lemma_collect_snoc_empty(lines: Seq<Seq<u8>>)
    ensures
        collect_header_lines(lines.push(Seq::<u8>::empty())) == collect_header_lines(lines),
{
    lemma_empty_line_no_header();
    let e = lines.push(Seq::<u8>::empty());
    assert(e.drop_last() =~= lines);
    assert(e.last() == Seq::<u8>::empty());
}

/// Re-parsing a serialized well-formed request recovers the verb, the
/// target, the header pairs (same names, case-sensitive, with their
/// values and order, hence the same header set), and the body.
#[verifier::rlimit(80)]
pub proof fn lemma_request_round_trip(
    m: Method,
    target: Seq<u8>,
    hs: Seq<(Seq<u8>, Seq<u8>)>,
    body: Seq<u8>,
)
    requires
        wire_safe_target(target),
        wire_safe_headers(hs),
    ensures
        parse_request_spec(encode_request(m, target, hs, body)) == Ok::<_, HttpError>(
            (m, target, hs, body),
        ),
{
    let rl = request_line_of(m, target);
    let hlines = hs.map_values(|kv: (Seq<u8>, Seq<u8>)| header_line_of(kv));
    let all_lines = seq![rl] + hlines;
    let e = encode_request(m, target, hs, body);
    lemma_method_bytes_clean(m);
    let ml = method_bytes(m).len() as int;
    assert(rl.len() == ml + 1 + target.len() + 1 + 8);
    assert forall|i: int| 0 <= i < ml implies #[trigger] rl[i] == method_bytes(m)[i] by {}
    assert(rl[ml] == 32);
    assert forall|i: int| 0 <= i < target.len() implies #[trigger] rl[ml + 1 + i] == target[i]
        by {}
    assert(rl[ml + 1 + target.len()] == 32);
    assert forall|i: int| 0 <= i < 8 implies #[trigger] rl[ml + 1 + target.len() + 1 + i]
        == http11()[i] by {}
    assert(clean_line(rl)) by {
        assert forall|i: int| 0 <= i < rl.len() implies #[trigger] rl[i] != 13 && rl[i] != 10 by {
            if i < ml {
                assert(rl[i] == method_bytes(m)[i]);
            } else if i == ml {
            } else if i < ml + 1 + target.len() {
                assert(rl[i] == target[i - (ml + 1)]);
            } else if i == ml + 1 + target.len() {
            } else {
                let q = i - (ml + 1 + target.len() + 1);
                assert(rl[i] == http11()[q]);
                assert(q == 0 || q == 1 || q == 2 || q == 3 || q == 4 || q == 5 || q == 6 || q
                    == 7);
            }
        }
    }
    assert forall|i: int| 0 <= i < all_lines.len() implies clean_line(#[trigger] all_lines[i]) by {
        if i == 0 {
            assert(all_lines[0] == rl);
        } else {
            assert(all_lines[i] == hlines[i - 1]);
            assert(hlines[i - 1] == header_line_of(hs[i - 1]));
            let kv = hs[i - 1];
            assert(wire_safe_header(kv));
            let line = header_line_of(kv);
            assert forall|q: int| 0 <= q < line.len() implies #[trigger] line[q] != 13 && line[q]
                != 10 by {
                if q < kv.0.len() {
                    assert(line[q] == kv.0[q]);
                } else if q < kv.0.len() + 2 {
                    assert(line[q] == 58 || line[q] == 32);
                } else {
                    assert(line[q] == kv.1[q - (kv.0.len() + 2)]);
                }
            }
        }
    }
    assert forall|i: int| 1 <= i < all_lines.len() implies (#[trigger] all_lines[i]).len() > 0 by {
        assert(all_lines[i] == hlines[i - 1]);
        assert(hlines[i - 1] == header_line_of(hs[i - 1]));
        assert(wire_safe_header(hs[i - 1]));
    }
    lemma_encode_headers_join(hs);
    assert(join_crlf(all_lines) == (rl + crlf()) + join_crlf(hlines)) by {
        assert(all_lines[0] == rl);
        assert(all_lines.skip(1) =~= hlines);
    }
    assert(e =~= join_crlf(all_lines) + crlf() + body) by {
        assert(e == rl + crlf() + encode_headers(hs) + crlf() + body);
        assert(encode_headers(hs) == join_crlf(hlines));
    }
    lemma_find_sep_join(all_lines, body);
    let p = join_crlf(all_lines).len() - 2;
    assert(find_sep(e) == p);
    let head = e.take(p + 4);
    let rest = e.skip(p + 4);
    assert(head =~= join_crlf(all_lines) + crlf());
    assert(rest =~= body);
    lemma_split_join(all_lines, crlf());
    lemma_split_crlf();
    let lines = split_lines(head);
    assert(lines == all_lines + seq![Seq::<u8>::empty(), Seq::<u8>::empty()]);
    assert(lines[0] == rl) by {
        assert(all_lines[0] == rl);
    }
    // The request line parses back to the verb and target.
    assert forall|i: int| 0 <= i < ml implies rl[i] != 32 by {
        assert(rl[i] == method_bytes(m)[i]);
    }
    lemma_find1_unique(rl, 32, ml);
    assert(rl.take(ml) =~= method_bytes(m));
    lemma_method_bytes_inverse(m);
    let rest_line = rl.skip(ml + 1);
    assert(rest_line.len() == target.len() + 1 + 8);
    assert forall|i: int| 0 <= i < target.len() implies #[trigger] rest_line[i] == target[i] by {
        assert(rest_line[i] == rl[ml + 1 + i]);
    }
    assert(rest_line[target.len() as int] == rl[ml + 1 + target.len()]);
    assert forall|i: int| 0 <= i < target.len() implies rest_line[i] != 32 by {
        assert(rest_line[i] == target[i]);
    }
    lemma_find1_unique(rest_line, 32, target.len() as int);
    assert(rest_line.take(target.len() as int) =~= target);
    assert(rest_line.skip(target.len() + 1 as int) =~= http11()) by {
        assert forall|i: int| 0 <= i < 8 implies #[trigger] rest_line.skip(target.len() + 1 as int)[i]
            == http11()[i] by {
            assert(rest_line.skip(target.len() + 1 as int)[i] == rl[ml + 1 + target.len() + 1 + i]);
        }
    }
    assert(parse_request_line(rl) == Some((m, target)));
    // The header lines collect back to the pairs.
    assert(lines.skip(1) =~= hlines.push(Seq::<u8>::empty()).push(Seq::<u8>::empty()));
    lemma_collect_snoc_empty(hlines.push(Seq::<u8>::empty()));
    lemma_collect_snoc_empty(hlines);
    lemma_collect_lines_of(hs);
    assert(collect_header_lines(lines.skip(1)) == hs);
}

} // verus!
