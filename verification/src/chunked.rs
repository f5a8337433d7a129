//! Chunked transfer-encoding: a body framed as length-prefixed chunks
//! ended by a zero-size chunk.  The decoder is pinned to a specification,
//! and framing followed by decoding is proved to reconstruct the original
//! payloads exactly.

use vstd::prelude::*;

use crate::bytes::find1;
use crate::bytes::find2;
use crate::bytes::find_byte;
use crate::bytes::find_crlf;
use crate::bytes::is_ws;
use crate::bytes::lemma_find1_none;
use crate::bytes::lemma_find1_unique;
use crate::bytes::lemma_find2_none;
use crate::bytes::lemma_find2_unique;
use crate::bytes::lemma_trim_no_ws;
use crate::bytes::extend_bytes;
use crate::bytes::sub_vec;
use crate::bytes::trim;
use crate::bytes::trim_bytes;
use crate::errors::HttpError;
use crate::headers::crlf;
use crate::number::all_hex_digits;
use crate::number::hex_of;
use crate::number::is_hex_digit;
use crate::number::lemma_hex_of_digits;
use crate::number::lemma_hex_value_of;
use crate::number::parse_hex;
use crate::number::parse_hex_bytes;

verus! {

/// The hexadecimal part of a chunk-size line: the line trimmed, cut at
/// the first `;` (a chunk extension, which is ignored).
pub open spec fn chunk_size_part(line: Seq<u8>) -> Seq<u8> {
    let t = trim(line);
    let j = find1(t, 59);
    if j >= 0 {
        t.take(j)
    } else {
        t
    }
}

/// What decoding a chunked body yields: the chunk payloads in order,
/// concatenated, or the first framing error.  Bytes after the zero-size
/// chunk are ignored.
pub open spec fn parse_chunked_spec(raw: Seq<u8>) -> Result<Seq<u8>, HttpError>
    decreases raw.len(),
{
    let p = find2(raw, 13, 10);
    if p < 0 || p + 2 > raw.len() {
        Err(HttpError::TruncatedChunk)
    } else {
        match parse_hex(chunk_size_part(raw.take(p))) {
            None => Err(HttpError::InvalidChunkSize),
            Some(size) => if size == 0 {
                Ok(Seq::empty())
            } else {
                let after = raw.skip(p + 2);
                if after.len() < size + 2 {
                    Err(HttpError::TruncatedChunk)
                } else if !(after[size] == 13 && after[size + 1] == 10) {
                    Err(HttpError::MissingChunkTerminator)
                } else {
                    match parse_chunked_spec(after.skip(size + 2)) {
                        Ok(tail) => Ok(after.take(size) + tail),
                        Err(e) => Err(e),
                    }
                }
            },
        }
    }
}

/// One framed chunk: the payload length in hexadecimal, CR LF, the
/// payload, CR LF.
pub open spec fn encode_chunk(payload: Seq<u8>) -> Seq<u8> {
    hex_of(payload.len() as int) + crlf() + payload + crlf()
}

/// A whole framed body: each chunk in order, then the zero-size chunk
/// `0` CR LF and the final empty line.
pub open spec fn encode_chunked(payloads: Seq<Seq<u8>>) -> Seq<u8>
    decreases payloads.len(),
{
    if payloads.len() == 0 {
        seq![48u8] + crlf() + crlf()
    } else {
        encode_chunk(payloads[0]) + encode_chunked(payloads.skip(1))
    }
}

/// Decode a chunked body, exactly as `parse_chunked_spec` describes.
#[verifier::loop_isolation(false)]
#[verifier::rlimit(80)]
pub fn parse_chunked(raw: &[u8]) -> (r: Result<Vec<u8>, HttpError>)
    ensures
        (match r {
            Ok(v) => parse_chunked_spec(raw@) == Ok::<Seq<u8>, HttpError>(v@),
            Err(e) => parse_chunked_spec(raw@) == Err::<Seq<u8>, HttpError>(e),
        }),
{
    let mut out: Vec<u8> = Vec::new();
    let mut i: usize = 0;
    let n: usize = raw.len();
    proof {
        assert(raw@.skip(0) =~= raw@);
    }
    loop
        invariant
            i <= raw@.len(),
            parse_chunked_spec(raw@) == (match parse_chunked_spec(raw@.skip(i as int)) {
                Ok(t) => Ok::<Seq<u8>, HttpError>(out@ + t),
                Err(e) => Err::<Seq<u8>, HttpError>(e),
            }),
        decreases raw@.len() - i,
    {
        let suf_ghost = Ghost(raw@.skip(i as int));
        match find_crlf(raw, i) {
            None => {
                proof {
                    let suf = suf_ghost@;
                    assert forall|q: int| 0 <= q && q + 1 < suf.len() implies !(#[trigger] suf[q]
                        == 13 && suf[q + 1] == 10) by {
                        assert(suf[q] == raw@[i + q]);
                        assert(suf[q + 1] == raw@[i + q + 1]);
                    }
                    lemma_find2_none(suf, 13, 10);
                }
                return Err(HttpError::TruncatedChunk);
            },
            Some(p) => {
                proof {
                    let suf = suf_ghost@;
                    assert forall|q: int| 0 <= q < p - i implies !(#[trigger] suf[q] == 13 && suf[q
                        + 1] == 10) by {
                        assert(suf[q] == raw@[i + q]);
                        assert(suf[q + 1] == raw@[i + q + 1]);
                    }
                    assert(suf[p - i] == raw@[p as int] && suf[p - i + 1] == raw@[p + 1]);
                    lemma_find2_unique(suf, 13, 10, p - i);
                    assert(suf.take(p - i) =~= raw@.subrange(i as int, p as int));
                    assert(suf.skip(p - i + 2) =~= raw@.skip(p + 2));
                }
                let size_line = sub_vec(raw, i, p);
                let trimmed = trim_bytes(size_line.as_slice());
                let sz_digits = match find_byte(trimmed.as_slice(), 0, 59) {
                    Some(j) => {
                        proof {
                            lemma_find1_unique(trimmed@, 59, j as int);
                        }
                        sub_vec(trimmed.as_slice(), 0, j)
                    },
                    None => {
                        proof {
                            lemma_find1_none(trimmed@, 59);
                        }
                        trimmed
                    },
                };
                proof {
                    assert(sz_digits@ == chunk_size_part(raw@.subrange(i as int, p as int)));
                }
                match parse_hex_bytes(sz_digits.as_slice()) {
                    None => {
                        return Err(HttpError::InvalidChunkSize);
                    },
                    Some(size) => {
                        if size == 0 {
                            proof {
                                assert(out@ + Seq::<u8>::empty() =~= out@);
                            }
                            return Ok(out);
                        }
                        let after_start: usize = p + 2;
                        let rem: usize = n - after_start;
                        let ghost after = raw@.skip(after_start as int);
                        proof {
                            assert(after.len() == rem);
                        }
                        if rem < size || rem - size < 2 {
                            assert(after.len() < size + 2);
                            return Err(HttpError::TruncatedChunk);
                        }
                        proof {
                            assert(after[size as int] == raw@[after_start + size]);
                            assert(after[size + 1] == raw@[after_start + size + 1]);
                        }
                        if !(raw[after_start + size] == 13 && raw[after_start + size + 1] == 10) {
                            return Err(HttpError::MissingChunkTerminator);
                        }
                        let payload = sub_vec(raw, after_start, after_start + size);
                        proof {
                            assert(after.take(size as int) =~= raw@.subrange(
                                after_start as int,
                                after_start + size,
                            ));
                            assert(after.skip(size + 2) =~= raw@.skip(after_start + size + 2));
                        }
                        let ghost prev_out = out@;
                        extend_bytes(&mut out, payload.as_slice());
                        proof {
                            assert(payload@ == after.take(size as int));
                            match parse_chunked_spec(raw@.skip(after_start + size + 2)) {
                                Ok(t) => {
                                    assert(prev_out + (payload@ + t) =~= out@ + t);
                                },
                                Err(_) => {},
                            }
                        }
                        i = after_start + size + 2;
                    },
                }
            },
        }
    }
}

/// Framing payloads and decoding them reconstructs the concatenation of
/// the payloads exactly: chunk boundaries are transparent, and an empty
/// payload list (the zero-size chunk alone) yields an empty body.
pub proof fn lemma_chunked_round_trip(payloads: Seq<Seq<u8>>)
    requires
        forall|k: int| 0 <= k < payloads.len() ==> 0 < #[trigger] payloads[k].len() <= usize::MAX,
    ensures
        parse_chunked_spec(encode_chunked(payloads)) == Ok::<Seq<u8>, HttpError>(
            payloads.flatten(),
        ),
    decreases payloads.len(),
{
    if payloads.len() == 0 {
        let e = encode_chunked(payloads);
        assert(e =~= seq![48u8, 13u8, 10u8, 13u8, 10u8]);
        lemma_find2_unique(e, 13, 10, 1);
        assert(e.take(1) =~= seq![48u8]);
        let sl = e.take(1);
        assert(forall|q: int| 0 <= q < sl.len() ==> !is_ws(#[trigger] sl[q]));
        lemma_trim_no_ws(sl);
        lemma_find1_none(sl, 59);
        assert(chunk_size_part(sl) == sl);
        assert(all_hex_digits(sl));
        assert(sl.take(0) =~= Seq::<u8>::empty());
        assert(crate::number::hex_value(Seq::<u8>::empty()) == 0);
        assert(sl[0] == 48 && crate::number::hex_val(48) == 0);
        assert(crate::number::hex_value(sl) == 0);
        assert(parse_hex(sl) == Some(0int));
        assert(parse_chunked_spec(e) == Ok::<Seq<u8>, HttpError>(Seq::empty()));
        assert(payloads.flatten() == Seq::<u8>::empty());
    } else {
        let p0 = payloads[0];
        let nn = p0.len() as int;
        let h = hex_of(nn);
        let hl = h.len() as int;
        let rest = encode_chunked(payloads.skip(1));
        let e = encode_chunked(payloads);
        lemma_hex_of_digits(nn);
        lemma_hex_value_of(nn);
        assert(e == (h + crlf() + p0 + crlf()) + rest);
        assert(e.len() == hl + 2 + nn + 2 + rest.len());
        assert forall|q: int| 0 <= q < hl implies e[q] == h[q] by {}
        assert(e[hl] == 13 && e[hl + 1] == 10);
        assert forall|q: int| 0 <= q < nn implies e[hl + 2 + q] == p0[q] by {}
        assert(e[hl + 2 + nn] == 13 && e[hl + 2 + nn + 1] == 10);
        assert forall|q: int| 0 <= q < rest.len() implies e[hl + 2 + nn + 2 + q] == rest[q] by {}
        assert forall|q: int| 0 <= q < hl implies !(#[trigger] e[q] == 13 && e[q + 1] == 10) by {
            assert(is_hex_digit(h[q]));
        }
        lemma_find2_unique(e, 13, 10, hl);
        assert(e.take(hl) =~= h);
        assert(forall|q: int| 0 <= q < h.len() ==> !is_ws(#[trigger] h[q]));
        lemma_trim_no_ws(h);
        lemma_find1_none(h, 59);
        assert(chunk_size_part(e.take(hl)) == h);
        assert(parse_hex(h) == Some(nn));
        let after = e.skip(hl + 2);
        assert(after.len() == nn + 2 + rest.len());
        assert(after[nn as int] == e[hl + 2 + nn]);
        assert(after[nn + 1] == e[hl + 2 + nn + 1]);
        assert(after.take(nn) =~= p0);
        assert(after.skip(nn + 2) =~= rest);
        assert forall|k: int| 0 <= k < payloads.skip(1).len() implies 0 < #[trigger] payloads.skip(
            1,
        )[k].len() <= usize::MAX by {
            assert(payloads.skip(1)[k] == payloads[k + 1]);
        }
        lemma_chunked_round_trip(payloads.skip(1));
        assert(parse_chunked_spec(e) == Ok::<Seq<u8>, HttpError>(
            p0 + payloads.skip(1).flatten(),
        ));
        assert(payloads.flatten() == payloads.first() + payloads.drop_first().flatten());
        assert(payloads.drop_first() =~= payloads.skip(1));
        assert(payloads.first() == p0);
    }
}

} // verus!
