//! Header machinery shared by request and response handling: splitting a
//! message head into CR-LF-terminated lines, reading one `Name: Value`
//! line, and folding repeated names with a `", "` separator in encounter
//! order, as multi-value headers are conventionally joined.

use vstd::prelude::*;

use crate::bytes::find1;
use crate::bytes::find2;
use crate::bytes::find_byte;
use crate::bytes::find_crlf;
use crate::bytes::lemma_find1_none;
use crate::bytes::lemma_find1_unique;
use crate::bytes::lemma_find2_none;
use crate::bytes::lemma_find2_unique;
use crate::bytes::eq_bytes;
use crate::bytes::extend_bytes;
use crate::bytes::lower_bytes;
use crate::bytes::sub_vec;
use crate::bytes::to_lower;
use crate::bytes::trim;
use crate::bytes::trim_bytes;

verus! {

/// The CR LF line terminator.
pub open spec fn crlf() -> Seq<u8> {
    seq![13u8, 10u8]
}

/// The `", "` separator placed between folded header values.
pub open spec fn comma_sp() -> Seq<u8> {
    seq![44u8, 32u8]
}

/// View of a vector of byte vectors as a sequence of byte strings.
pub open spec fn lines_view(ls: Seq<Vec<u8>>) -> Seq<Seq<u8>> {
    ls.map_values(|l: Vec<u8>| l@)
}

/// View of a vector of header pairs as a sequence of byte-string pairs.
pub open spec fn pairs_view(hs: Seq<(Vec<u8>, Vec<u8>)>) -> Seq<(Seq<u8>, Seq<u8>)> {
    hs.map_values(|p: (Vec<u8>, Vec<u8>)| (p.0@, p.1@))
}

/// Split a byte string at every CR LF.  The final piece (after the last
/// terminator, or the whole string if none occurs) is kept, so a string
/// ending in CR LF yields a trailing empty piece.
pub open spec fn split_lines(s: Seq<u8>) -> Seq<Seq<u8>>
    decreases s.len(),
{
    let p = find2(s, 13, 10);
    if p < 0 || p + 2 > s.len() {
        seq![s]
    } else {
        seq![s.take(p)] + split_lines(s.skip(p + 2))
    }
}

/// Read one `Name: Value` header line: the name is what stands before the
/// first colon, the value what stands after it, both trimmed.  Lines
/// without a colon, or with nothing before it, carry no header.
pub open spec fn header_line_parts(line: Seq<u8>) -> Option<(Seq<u8>, Seq<u8>)> {
    let j = find1(line, 58);
    if j >= 1 {
        Some((trim(line.take(j)), trim(line.skip(j + 1))))
    } else {
        None
    }
}

/// Fold one `(name, value)` pair into an association list: a repeated name
/// extends the stored value with `", "` and the new value, a fresh name is
/// appended at the end.
pub open spec fn fold_in(m: Seq<(Seq<u8>, Seq<u8>)>, k: Seq<u8>, v: Seq<u8>) -> Seq<
    (Seq<u8>, Seq<u8>),
>
    decreases m.len(),
{
    if m.len() == 0 {
        seq![(k, v)]
    } else if m[0].0 == k {
        seq![(m[0].0, m[0].1 + comma_sp() + v)] + m.skip(1)
    } else {
        seq![m[0]] + fold_in(m.skip(1), k, v)
    }
}

/// Headers of a sequence of lines, names lower-cased, repeated names
/// folded in encounter order.
pub open spec fn fold_header_lines(lines: Seq<Seq<u8>>) -> Seq<(Seq<u8>, Seq<u8>)>
    decreases lines.len(),
{
    if lines.len() == 0 {
        Seq::empty()
    } else {
        let prev = fold_header_lines(lines.drop_last());
        match header_line_parts(lines.last()) {
            None => prev,
            Some(p) => fold_in(prev, to_lower(p.0), p.1),
        }
    }
}

/// Headers of a sequence of lines kept verbatim: names keep their case and
/// repeated names stay separate entries, in order.
pub open spec fn collect_header_lines(lines: Seq<Seq<u8>>) -> Seq<(Seq<u8>, Seq<u8>)>
    decreases lines.len(),
{
    if lines.len() == 0 {
        Seq::empty()
    } else {
        let prev = collect_header_lines(lines.drop_last());
        match header_line_parts(lines.last()) {
            None => prev,
            Some(p) => prev.push(p),
        }
    }
}

/// First value stored under a name in an association list.
pub open spec fn lookup(m: Seq<(Seq<u8>, Seq<u8>)>, k: Seq<u8>) -> Option<Seq<u8>>
    decreases m.len(),
{
    if m.len() == 0 {
        None
    } else if m[0].0 == k {
        Some(m[0].1)
    } else {
        lookup(m.skip(1), k)
    }
}

/// Values of the header lines carrying `name` (compared lower-cased), in
/// encounter order.
pub open spec fn values_for(lines: Seq<Seq<u8>>, name: Seq<u8>) -> Seq<Seq<u8>>
    decreases lines.len(),
{
    if lines.len() == 0 {
        Seq::empty()
    } else {
        let prev = values_for(lines.drop_last(), name);
        match header_line_parts(lines.last()) {
            None => prev,
            Some(p) => if to_lower(p.0) == name {
                prev.push(p.1)
            } else {
                prev
            },
        }
    }
}

/// The values joined with `", "` in order.
pub open spec fn join_comma(vs: Seq<Seq<u8>>) -> Seq<u8>
    decreases vs.len(),
{
    if vs.len() == 0 {
        Seq::empty()
    } else if vs.len() == 1 {
        vs[0]
    } else {
        join_comma(vs.drop_last()) + comma_sp() + vs.last()
    }
}

proof fn lemma_fold_in_same(m: Seq<(Seq<u8>, Seq<u8>)>, k: Seq<u8>, v: Seq<u8>)
    ensures
        lookup(fold_in(m, k, v), k) == match lookup(m, k) {
            Some(x) => Some(x + comma_sp() + v),
            None => Some(v),
        },
    decreases m.len(),
{
    if m.len() == 0 {
        assert(fold_in(m, k, v)[0] == (k, v));
    } else if m[0].0 == k {
        let r = fold_in(m, k, v);
        assert(r[0] == (m[0].0, m[0].1 + comma_sp() + v));
    } else {
        lemma_fold_in_same(m.skip(1), k, v);
        let r = fold_in(m, k, v);
        assert(r[0] == m[0]);
        assert(r.skip(1) =~= fold_in(m.skip(1), k, v));
    }
}

proof fn lemma_fold_in_other(m: Seq<(Seq<u8>, Seq<u8>)>, k: Seq<u8>, v: Seq<u8>, k2: Seq<u8>)
    requires
        k2 != k,
    ensures
        lookup(fold_in(m, k, v), k2) == lookup(m, k2),
    decreases m.len(),
{
    if m.len() == 0 {
        let r = fold_in(m, k, v);
        assert(r[0] == (k, v));
        assert(r.skip(1) =~= Seq::<(Seq<u8>, Seq<u8>)>::empty());
        assert(lookup(r.skip(1), k2) is None);
        assert(lookup(r, k2) == lookup(r.skip(1), k2));
    } else if m[0].0 == k {
        let r = fold_in(m, k, v);
        assert(r[0] == (m[0].0, m[0].1 + comma_sp() + v));
        assert(r.skip(1) =~= m.skip(1));
        assert(lookup(r, k2) == lookup(m.skip(1), k2));
        assert(lookup(m, k2) == lookup(m.skip(1), k2));
    } else {
        lemma_fold_in_other(m.skip(1), k, v, k2);
        let r = fold_in(m, k, v);
        assert(r[0] == m[0]);
        assert(r.skip(1) =~= fold_in(m.skip(1), k, v));
        if m[0].0 == k2 {
            assert(lookup(r, k2) == Some(r[0].1));
        } else {
            assert(lookup(r, k2) == lookup(r.skip(1), k2));
            assert(lookup(m, k2) == lookup(m.skip(1), k2));
        }
    }
}

/// Repeated header names fold into one entry whose value is the `", "`
/// joining of the individual values in encounter order; a name that no
/// line carries is absent.
pub proof fn lemma_duplicate_headers_fold(lines: Seq<Seq<u8>>, name: Seq<u8>)
    ensures
        lookup(fold_header_lines(lines), name) == (if values_for(lines, name).len() > 0 {
            Some(join_comma(values_for(lines, name)))
        } else {
            None
        }),
    decreases lines.len(),
{
    if lines.len() == 0 {
    } else {
        lemma_duplicate_headers_fold(lines.drop_last(), name);
        let prev = fold_header_lines(lines.drop_last());
        match header_line_parts(lines.last()) {
            None => {},
            Some(p) => {
                let k = to_lower(p.0);
                if k == name {
                    lemma_fold_in_same(prev, k, p.1);
                    let vs = values_for(lines, name);
                    assert(vs == values_for(lines.drop_last(), name).push(p.1));
                    assert(vs.drop_last() =~= values_for(lines.drop_last(), name));
                    assert(vs.last() == p.1);
                } else {
                    lemma_fold_in_other(prev, k, p.1, name);
                }
            },
        }
    }
}

/// Split a message head into its lines.
#[verifier::loop_isolation(false)]
pub fn split_head_lines(head: &[u8]) -> (r: Vec<Vec<u8>>)
    ensures
        lines_view(r@) == split_lines(head@),
{
    let mut acc: Vec<Vec<u8>> = Vec::new();
    let mut i: usize = 0;
    let n: usize = head.len();
    proof {
        assert(n == head@.len());
        assert(head@.skip(0) =~= head@);
        assert(lines_view(acc@) =~= Seq::<Seq<u8>>::empty());
    }
    loop
        invariant
            i <= head@.len(),
            split_lines(head@) == lines_view(acc@) + split_lines(head@.skip(i as int)),
        decreases head@.len() - i,
    {
        match find_crlf(head, i) {
            Some(p) => {
                let line = sub_vec(head, i, p);
                proof {
                    let suf = head@.skip(i as int);
                    assert forall|q: int| 0 <= q < p - i implies !(#[trigger] suf[q] == 13
                        && suf[q + 1] == 10) by {
                        assert(suf[q] == head@[i + q]);
                        assert(suf[q + 1] == head@[i + q + 1]);
                    }
                    assert(suf[p - i] == head@[p as int] && suf[p - i + 1] == head@[p + 1]);
                    lemma_find2_unique(suf, 13, 10, p - i);
                    assert(split_lines(suf) == seq![suf.take(p - i)] + split_lines(
                        suf.skip(p - i + 2),
                    ));
                    assert(suf.take(p - i) =~= head@.subrange(i as int, p as int));
                    assert(suf.skip(p - i + 2) =~= head@.skip(p + 2));
                    assert(lines_view(acc@.push(line)) =~= lines_view(acc@) + seq![line@]);
                    assert(lines_view(acc@) + (seq![suf.take(p - i)] + split_lines(
                        head@.skip(p + 2),
                    )) =~= (lines_view(acc@) + seq![line@]) + split_lines(head@.skip(p + 2)));
                }
                acc.push(line);
                i = p + 2;
            },
            None => {
                let line = sub_vec(head, i, head.len());
                proof {
                    let suf = head@.skip(i as int);
                    assert forall|q: int| 0 <= q && q + 1 < suf.len() implies !(#[trigger] suf[q]
                        == 13 && suf[q + 1] == 10) by {
                        assert(suf[q] == head@[i + q]);
                        assert(suf[q + 1] == head@[i + q + 1]);
                    }
                    lemma_find2_none(suf, 13, 10);
                    assert(split_lines(suf) == seq![suf]);
                    assert(suf =~= head@.subrange(i as int, head@.len() as int));
                    assert(lines_view(acc@.push(line)) =~= lines_view(acc@) + seq![line@]);
                }
                acc.push(line);
                return acc;
            },
        }
    }
}

/// Read one header line, as `header_line_parts` describes.
pub fn parse_header_line(line: &Vec<u8>) -> (r: Option<(Vec<u8>, Vec<u8>)>)
    ensures
        match r {
            Some(p) => header_line_parts(line@) == Some((p.0@, p.1@)),
            None => header_line_parts(line@) is None,
        },
{
    match find_byte(line.as_slice(), 0, 58) {
        Some(j) => {
            proof {
                lemma_find1_unique(line@, 58, j as int);
            }
            if j == 0 {
                None
            } else {
                let n: usize = line.len();
                let name = trim_bytes(sub_vec(line.as_slice(), 0, j).as_slice());
                let value = trim_bytes(sub_vec(line.as_slice(), j + 1, n).as_slice());
                proof {
                    assert(line@.subrange(0, j as int) =~= line@.take(j as int));
                    assert(line@.subrange(j + 1, line@.len() as int) =~= line@.skip(j + 1));
                }
                Some((name, value))
            }
        },
        None => {
            proof {
                lemma_find1_none(line@, 58);
            }
            None
        },
    }
}

/// Fold one pair into the accumulated header list, as `fold_in` describes.
pub fn fold_in_headers(m: Vec<(Vec<u8>, Vec<u8>)>, k: Vec<u8>, v: Vec<u8>) -> (r: Vec<
    (Vec<u8>, Vec<u8>),
>)
    ensures
        pairs_view(r@) == fold_in(pairs_view(m@), k@, v@),
    decreases m@.len(),
{
    let mut m = m;
    let ghost m0 = m@;
    if m.len() == 0 {
        let mut r: Vec<(Vec<u8>, Vec<u8>)> = Vec::new();
        r.push((k, v));
        proof {
            assert(pairs_view(r@) =~= fold_in(pairs_view(m@), k@, v@));
        }
        r
    } else {
        let first = m.remove(0);
        proof {
            assert(pairs_view(m0)[0] == (first.0@, first.1@));
            assert(pairs_view(m@) =~= pairs_view(m0).skip(1));
        }
        if eq_bytes(first.0.as_slice(), k.as_slice()) {
            let mut fv = first.1;
            let sep: [u8; 2] = [44, 32];
            extend_bytes(&mut fv, sep.as_slice());
            extend_bytes(&mut fv, v.as_slice());
            let mut r: Vec<(Vec<u8>, Vec<u8>)> = Vec::new();
            r.push((first.0, fv));
            let mut m2 = m;
            r.append(&mut m2);
            proof {
                assert(sep@ =~= comma_sp());
                assert(pairs_view(r@) =~= fold_in(pairs_view(m0), k@, v@)) by {
                    assert(forall|q: int|
                        0 <= q < pairs_view(r@).len() ==> #[trigger] pairs_view(r@)[q] == (
                        r@[q].0@,
                        r@[q].1@,
                        ));
                }
            }
            r
        } else {
            let rest = fold_in_headers(m, k, v);
            let mut r: Vec<(Vec<u8>, Vec<u8>)> = Vec::new();
            r.push(first);
            let mut rest2 = rest;
            r.append(&mut rest2);
            proof {
                assert(pairs_view(r@) =~= fold_in(pairs_view(m0), k@, v@)) by {
                    assert(forall|q: int|
                        0 <= q < pairs_view(r@).len() ==> #[trigger] pairs_view(r@)[q] == (
                        r@[q].0@,
                        r@[q].1@,
                        ));
                }
            }
            r
        }
    }
}

/// Fold a whole run of lines into headers, as `fold_header_lines` describes.
pub fn fold_lines(lines: &Vec<Vec<u8>>) -> (r: Vec<(Vec<u8>, Vec<u8>)>)
    ensures
        pairs_view(r@) == fold_header_lines(lines_view(lines@)),
{
    let mut acc: Vec<(Vec<u8>, Vec<u8>)> = Vec::new();
    let mut i: usize = 0;
    proof {
        assert(lines_view(lines@).take(0) =~= Seq::<Seq<u8>>::empty());
    }
    while i < lines.len()
        invariant
            i <= lines@.len(),
            pairs_view(acc@) == fold_header_lines(lines_view(lines@).take(i as int)),
        decreases lines@.len() - i,
    {
        proof {
            let lv = lines_view(lines@);
            assert(lv.take(i + 1).drop_last() =~= lv.take(i as int));
            assert(lv.take(i + 1).last() == lv[i as int]);
            assert(lv[i as int] == lines@[i as int]@);
        }
        match parse_header_line(&lines[i]) {
            Some(p) => {
                let name = lower_bytes(p.0.as_slice());
                acc = fold_in_headers(acc, name, p.1);
            },
            None => {},
        }
        i = i + 1;
    }
    proof {
        assert(lines_view(lines@).take(lines@.len() as int) =~= lines_view(lines@));
    }
    acc
}

/// Look a name up in a header list, as `lookup` describes.
pub fn lookup_header(m: &Vec<(Vec<u8>, Vec<u8>)>, k: &[u8]) -> (r: Option<Vec<u8>>)
    ensures
        match r {
            Some(v) => lookup(pairs_view(m@), k@) == Some(v@),
            None => lookup(pairs_view(m@), k@) is None,
        },
{
    let mut i: usize = 0;
    proof {
        assert(pairs_view(m@).skip(0) =~= pairs_view(m@));
    }
    while i < m.len()
        invariant
            i <= m@.len(),
            lookup(pairs_view(m@), k@) == lookup(pairs_view(m@).skip(i as int), k@),
        decreases m@.len() - i,
    {
        proof {
            assert(pairs_view(m@).skip(i as int)[0] == pairs_view(m@)[i as int]);
            assert(pairs_view(m@)[i as int] == (m@[i as int].0@, m@[i as int].1@));
            assert(pairs_view(m@).skip(i as int).skip(1) =~= pairs_view(m@).skip(i + 1));
        }
        if eq_bytes(m[i].0.as_slice(), k) {
            let mut out: Vec<u8> = Vec::new();
            extend_bytes(&mut out, m[i].1.as_slice());
            proof {
                assert(out@ =~= m@[i as int].1@);
            }
            return Some(out);
        }
        i = i + 1;
    }
    proof {
        assert(pairs_view(m@).skip(i as int).len() == 0);
    }
    None
}

} // verus!
