//! Byte-sequence helpers shared by the message codec and the asset
//! resolver: first-occurrence searches, ASCII classification, trimming,
//! lower-casing and lexicographic comparison, each with an executable
//! form pinned to its specification.

use vstd::prelude::*;

verus! {

/// ASCII whitespace as the wire protocol understands it.
pub open spec fn is_ws(b: u8) -> bool {
    b == 9 || b == 10 || b == 11 || b == 12 || b == 13 || b == 32
}

/// ASCII decimal digit.
pub open spec fn is_digit(b: u8) -> bool {
    48 <= b && b <= 57
}

/// ASCII lower-casing of a single byte.
pub open spec fn lower(b: u8) -> u8 {
    if 65 <= b && b <= 90 {
        (b + 32) as u8
    } else {
        b
    }
}

/// ASCII lower-casing of a whole byte string.
pub open spec fn to_lower(s: Seq<u8>) -> Seq<u8> {
    s.map_values(|b: u8| lower(b))
}

/// Index of the first occurrence of byte `c` in `s`, or -1.
pub open spec fn find1(s: Seq<u8>, c: u8) -> int
    decreases s.len(),
{
    if s.len() == 0 {
        -1
    } else if s[0] == c {
        0
    } else {
        let r = find1(s.skip(1), c);
        if r == -1 {
            -1
        } else {
            r + 1
        }
    }
}

/// Index of the first occurrence of the two-byte pattern `a b` in `s`, or -1.
pub open spec fn find2(s: Seq<u8>, a: u8, b: u8) -> int
    decreases s.len(),
{
    if s.len() < 2 {
        -1
    } else if s[0] == a && s[1] == b {
        0
    } else {
        let r = find2(s.skip(1), a, b);
        if r == -1 {
            -1
        } else {
            r + 1
        }
    }
}

/// Index of the first occurrence of the four-byte pattern CR LF CR LF, or -1.
pub open spec fn find_sep(s: Seq<u8>) -> int
    decreases s.len(),
{
    if s.len() < 4 {
        -1
    } else if s[0] == 13 && s[1] == 10 && s[2] == 13 && s[3] == 10 {
        0
    } else {
        let r = find_sep(s.skip(1));
        if r == -1 {
            -1
        } else {
            r + 1
        }
    }
}

pub proof fn lemma_find1_props(s: Seq<u8>, c: u8)
    ensures
        find1(s, c) == -1 ==> forall|i: int| 0 <= i < s.len() ==> s[i] != c,
        find1(s, c) != -1 ==> {
            let r = find1(s, c);
            &&& 0 <= r < s.len()
            &&& s[r] == c
            &&& forall|i: int| 0 <= i < r ==> s[i] != c
        },
    decreases s.len(),
{
    if s.len() == 0 {
    } else if s[0] == c {
    } else {
        lemma_find1_props(s.skip(1), c);
        assert forall|i: int| 1 <= i < s.len() implies s.skip(1)[i - 1] == s[i] by {}
    }
}

pub proof fn lemma_find2_props(s: Seq<u8>, a: u8, b: u8)
    ensures
        find2(s, a, b) == -1 ==> forall|i: int| 0 <= i && i + 1 < s.len() ==> !(#[trigger] s[i] == a && s[i
            + 1] == b),
        find2(s, a, b) != -1 ==> {
            let r = find2(s, a, b);
            &&& 0 <= r
            &&& r + 1 < s.len()
            &&& s[r] == a
            &&& s[r + 1] == b
            &&& forall|i: int| 0 <= i < r ==> !(#[trigger] s[i] == a && s[i + 1] == b)
        },
    decreases s.len(),
{
    if s.len() < 2 {
    } else if s[0] == a && s[1] == b {
    } else {
        lemma_find2_props(s.skip(1), a, b);
        assert forall|i: int| 1 <= i < s.len() implies s.skip(1)[i - 1] == s[i] by {}
    }
}

pub proof fn lemma_find_sep_props(s: Seq<u8>)
    ensures
        find_sep(s) == -1 ==> forall|i: int| 0 <= i && i + 3 < s.len() ==> !(#[trigger] s[i] == 13 && s[i + 1]
            == 10 && s[i + 2] == 13 && s[i + 3] == 10),
        find_sep(s) != -1 ==> {
            let r = find_sep(s);
            &&& 0 <= r
            &&& r + 3 < s.len()
            &&& s[r] == 13
            &&& s[r + 1] == 10
            &&& s[r + 2] == 13
            &&& s[r + 3] == 10
            &&& forall|i: int| 0 <= i < r ==> !(#[trigger] s[i] == 13 && s[i + 1] == 10 && s[i + 2] == 13
                && s[i + 3] == 10)
        },
    decreases s.len(),
{
    if s.len() < 4 {
    } else if s[0] == 13 && s[1] == 10 && s[2] == 13 && s[3] == 10 {
    } else {
        lemma_find_sep_props(s.skip(1));
        assert forall|i: int| 1 <= i < s.len() implies s.skip(1)[i - 1] == s[i] by {}
    }
}

/// A witness position with the first-occurrence property pins `find1` down.
pub proof fn lemma_find1_unique(s: Seq<u8>, c: u8, r: int)
    requires
        0 <= r < s.len(),
        s[r] == c,
        forall|i: int| 0 <= i < r ==> s[i] != c,
    ensures
        find1(s, c) == r,
{
    lemma_find1_props(s, c);
}

/// With no occurrence at all, `find1` reports -1.
pub proof fn lemma_find1_none(s: Seq<u8>, c: u8)
    requires
        forall|i: int| 0 <= i < s.len() ==> s[i] != c,
    ensures
        find1(s, c) == -1,
{
    lemma_find1_props(s, c);
}

/// With no occurrence at all, `find2` reports -1.
pub proof fn lemma_find2_none(s: Seq<u8>, a: u8, b: u8)
    requires
        forall|i: int| 0 <= i && i + 1 < s.len() ==> !(#[trigger] s[i] == a && s[i + 1] == b),
    ensures
        find2(s, a, b) == -1,
{
    lemma_find2_props(s, a, b);
}

/// With no occurrence at all, `find_sep` reports -1.
pub proof fn lemma_find_sep_none(s: Seq<u8>)
    requires
        forall|i: int|
            0 <= i && i + 3 < s.len() ==> !(#[trigger] s[i] == 13 && s[i + 1] == 10 && s[i + 2]
                == 13 && s[i + 3] == 10),
    ensures
        find_sep(s) == -1,
{
    lemma_find_sep_props(s);
}

/// A witness position with the first-occurrence property pins `find2` down.
pub proof fn lemma_find2_unique(s: Seq<u8>, a: u8, b: u8, r: int)
    requires
        0 <= r,
        r + 1 < s.len(),
        s[r] == a,
        s[r + 1] == b,
        forall|i: int| 0 <= i < r ==> !(#[trigger] s[i] == a && s[i + 1] == b),
    ensures
        find2(s, a, b) == r,
{
    lemma_find2_props(s, a, b);
}

pub proof fn lemma_find_sep_unique(s: Seq<u8>, r: int)
    requires
        0 <= r,
        r + 3 < s.len(),
        s[r] == 13,
        s[r + 1] == 10,
        s[r + 2] == 13,
        s[r + 3] == 10,
        forall|i: int| 0 <= i < r ==> !(#[trigger] s[i] == 13 && s[i + 1] == 10 && s[i + 2] == 13 && s[i + 3]
            == 10),
    ensures
        find_sep(s) == r,
{
    lemma_find_sep_props(s);
}

/// First CR LF at or after `from`, as an executable search.
pub fn find_crlf(s: &[u8], from: usize) -> (r: Option<usize>)
    requires
        from <= s@.len(),
    ensures
        match r {
            Some(i) => {
                &&& from <= i
                &&& i + 1 < s@.len()
                &&& s@[i as int] == 13
                &&& s@[i + 1] == 10
                &&& forall|j: int| from <= j < i ==> !(#[trigger] s@[j] == 13 && s@[j + 1] == 10)
            },
            None => forall|j: int|
                from <= j && j + 1 < s@.len() ==> !(#[trigger] s@[j] == 13 && s@[j + 1] == 10),
        },
{
    if s.len() < 2 {
        return None;
    }
    let mut i: usize = from;
    while i < s.len() - 1
        invariant
            s@.len() >= 2,
            from <= i <= s@.len(),
            forall|j: int| from <= j < i ==> !(#[trigger] s@[j] == 13 && s@[j + 1] == 10),
        decreases s@.len() - i,
    {
        if s[i] == 13 && s[i + 1] == 10 {
            return Some(i);
        }
        i = i + 1;
    }
    None
}

/// First CR LF CR LF at or after `from`, as an executable search.
pub fn find_crlf_crlf(s: &[u8], from: usize) -> (r: Option<usize>)
    requires
        from <= s@.len(),
    ensures
        match r {
            Some(i) => {
                &&& from <= i
                &&& i + 3 < s@.len()
                &&& s@[i as int] == 13
                &&& s@[i + 1] == 10
                &&& s@[i + 2] == 13
                &&& s@[i + 3] == 10
                &&& forall|j: int|
                    from <= j < i ==> !(#[trigger] s@[j] == 13 && s@[j + 1] == 10 && s@[j + 2] == 13 && s@[j
                        + 3] == 10)
            },
            None => forall|j: int|
                from <= j && j + 3 < s@.len() ==> !(#[trigger] s@[j] == 13 && s@[j + 1] == 10 && s@[j + 2]
                    == 13 && s@[j + 3] == 10),
        },
{
    if s.len() < 4 {
        return None;
    }
    let mut i: usize = from;
    while i < s.len() - 3
        invariant
            s@.len() >= 4,
            from <= i <= s@.len(),
            forall|j: int|
                from <= j < i ==> !(#[trigger] s@[j] == 13 && s@[j + 1] == 10 && s@[j + 2] == 13 && s@[j + 3]
                    == 10),
        decreases s@.len() - i,
    {
        if s[i] == 13 && s[i + 1] == 10 && s[i + 2] == 13 && s[i + 3] == 10 {
            return Some(i);
        }
        i = i + 1;
    }
    None
}

/// First occurrence of byte `c` in `s[from..]`, as an executable search.
pub fn find_byte(s: &[u8], from: usize, c: u8) -> (r: Option<usize>)
    requires
        from <= s@.len(),
    ensures
        match r {
            Some(i) => {
                &&& from <= i < s@.len()
                &&& s@[i as int] == c
                &&& forall|j: int| from <= j < i ==> s@[j] != c
            },
            None => forall|j: int| from <= j < s@.len() ==> s@[j] != c,
        },
{
    let mut i: usize = from;
    while i < s.len()
        invariant
            from <= i <= s@.len(),
            forall|j: int| from <= j < i ==> s@[j] != c,
        decreases s@.len() - i,
    {
        if s[i] == c {
            return Some(i);
        }
        i = i + 1;
    }
    None
}


/// Strip leading whitespace bytes.
pub open spec fn trim_start(s: Seq<u8>) -> Seq<u8>
    decreases s.len(),
{
    if s.len() > 0 && is_ws(s[0]) {
        trim_start(s.skip(1))
    } else {
        s
    }
}

/// Strip trailing whitespace bytes.
pub open spec fn trim_end(s: Seq<u8>) -> Seq<u8>
    decreases s.len(),
{
    if s.len() > 0 && is_ws(s[s.len() - 1]) {
        trim_end(s.take(s.len() - 1))
    } else {
        s
    }
}

/// Strip whitespace bytes from both ends.
pub open spec fn trim(s: Seq<u8>) -> Seq<u8> {
    trim_end(trim_start(s))
}

pub proof fn lemma_trim_start_subrange(s: Seq<u8>)
    ensures
        ({
            let k = s.len() - trim_start(s).len();
            &&& 0 <= k <= s.len()
            &&& trim_start(s) == s.skip(k)
            &&& forall|i: int| 0 <= i < k ==> is_ws(s[i])
            &&& trim_start(s).len() > 0 ==> !is_ws(s[k])
        }),
    decreases s.len(),
{
    if s.len() > 0 && is_ws(s[0]) {
        lemma_trim_start_subrange(s.skip(1));
        let k1 = s.skip(1).len() - trim_start(s.skip(1)).len();
        let k = s.len() - trim_start(s).len();
        assert(k == k1 + 1);
        assert(trim_start(s) == s.skip(1).skip(k1));
        assert(s.skip(1).skip(k1) =~= s.skip(k)) by {
            assert(forall|i: int|
                0 <= i < s.skip(1).skip(k1).len() ==> s.skip(1).skip(k1)[i] == s[1 + k1 + i]
                    == #[trigger] s.skip(k)[i]);
        }
        assert(forall|i: int| 1 <= i < k ==> is_ws(#[trigger] s[i])) by {
            assert(forall|i: int| 0 <= i < k1 ==> is_ws(#[trigger] s.skip(1)[i]));
            assert(forall|i: int| 1 <= i < k ==> s[i] == s.skip(1)[i - 1]);
        }
        if trim_start(s).len() > 0 {
            assert(!is_ws(s.skip(1)[k1]));
            assert(s.skip(1)[k1] == s[k]);
        }
    } else {
        assert(s.skip(0) =~= s);
    }
}

pub proof fn lemma_trim_end_subrange(s: Seq<u8>)
    ensures
        ({
            let m = trim_end(s).len() as int;
            &&& 0 <= m <= s.len()
            &&& trim_end(s) == s.take(m)
            &&& forall|i: int| m <= i < s.len() ==> is_ws(s[i])
            &&& m > 0 ==> !is_ws(s[m - 1])
        }),
    decreases s.len(),
{
    if s.len() > 0 && is_ws(s[s.len() - 1]) {
        let s1 = s.take(s.len() - 1);
        lemma_trim_end_subrange(s1);
        let m = trim_end(s).len() as int;
        assert(trim_end(s) == s1.take(m));
        assert(s1.take(m) =~= s.take(m)) by {
            assert(forall|i: int| 0 <= i < m ==> #[trigger] s1.take(m)[i] == s1[i] == s[i]);
        }
        assert(forall|i: int| m <= i < s.len() ==> is_ws(#[trigger] s[i])) by {
            assert(forall|i: int| m <= i < s1.len() ==> is_ws(#[trigger] s1[i]));
            assert(forall|i: int| m <= i < s.len() - 1 ==> s[i] == s1[i]);
        }
        if m > 0 {
            assert(!is_ws(s1[m - 1]));
            assert(s1[m - 1] == s[m - 1]);
        }
    } else {
        assert(s.take(s.len() as int) =~= s);
    }
}

/// A byte string without whitespace is untouched by trimming.
pub proof fn lemma_trim_no_ws(s: Seq<u8>)
    requires
        forall|i: int| 0 <= i < s.len() ==> !is_ws(#[trigger] s[i]),
    ensures
        trim(s) == s,
{
    lemma_trim_start_subrange(s);
    let k = s.len() - trim_start(s).len();
    if k > 0 {
        assert(is_ws(s[0]));
    }
    assert(s.skip(0) =~= s);
    assert(trim_start(s) == s);
    lemma_trim_end_subrange(s);
    let m = trim_end(s).len() as int;
    if m < s.len() {
        assert(is_ws(s[s.len() - 1]));
    }
    assert(s.take(s.len() as int) =~= s);
}

/// A trim-stable byte string is stable under each one-sided trim too.
pub proof fn lemma_trim_stable(s: Seq<u8>)
    requires
        trim(s) == s,
    ensures
        trim_start(s) == s,
        trim_end(s) == s,
{
    lemma_trim_start_subrange(s);
    let k = s.len() - trim_start(s).len();
    lemma_trim_end_subrange(trim_start(s));
    assert(trim(s).len() <= trim_start(s).len() <= s.len());
    assert(trim_start(s).len() == s.len());
    assert(s.skip(0) =~= s);
    assert(trim_start(s) == s);
}

/// A leading space falls away, leaving a trim-stable remainder untouched.
pub proof fn lemma_trim_space_prefix(v: Seq<u8>)
    requires
        trim(v) == v,
    ensures
        trim(seq![32u8] + v) == v,
{
    lemma_trim_stable(v);
    let s = seq![32u8] + v;
    assert(s.len() > 0 && is_ws(s[0]));
    assert(s.skip(1) =~= v);
    assert(trim_start(s) == trim_start(v));
}

/// Copy of `s[from..to]` as a fresh vector.
pub fn sub_vec(s: &[u8], from: usize, to: usize) -> (r: Vec<u8>)
    requires
        from <= to <= s@.len(),
    ensures
        r@ == s@.subrange(from as int, to as int),
{
    let mut r: Vec<u8> = Vec::new();
    let mut i: usize = from;
    while i < to
        invariant
            from <= i <= to <= s@.len(),
            r@ == s@.subrange(from as int, i as int),
        decreases to - i,
    {
        r.push(s[i]);
        proof {
            assert(r@ =~= s@.subrange(from as int, i + 1));
        }
        i = i + 1;
    }
    r
}

/// Append all of `src` to `dst`.
pub fn extend_bytes(dst: &mut Vec<u8>, src: &[u8])
    ensures
        final(dst)@ == old(dst)@ + src@,
{
    let mut i: usize = 0;
    while i < src.len()
        invariant
            i <= src@.len(),
            dst@ == old(dst)@ + src@.take(i as int),
        decreases src@.len() - i,
    {
        dst.push(src[i]);
        proof {
            assert(old(dst)@ + src@.take(i + 1) =~= (old(dst)@ + src@.take(i as int)).push(
                src@[i as int],
            ));
        }
        i = i + 1;
    }
    proof {
        assert(src@.take(src@.len() as int) =~= src@);
    }
}

/// Byte-for-byte equality of two slices.
pub fn eq_bytes(a: &[u8], b: &[u8]) -> (r: bool)
    ensures
        r == (a@ == b@),
{
    if a.len() != b.len() {
        assert(a@ != b@) by {
            assert(a@.len() != b@.len());
        }
        return false;
    }
    let mut i: usize = 0;
    while i < a.len()
        invariant
            a@.len() == b@.len(),
            i <= a@.len(),
            forall|j: int| 0 <= j < i ==> a@[j] == b@[j],
        decreases a@.len() - i,
    {
        if a[i] != b[i] {
            return false;
        }
        i = i + 1;
    }
    proof {
        assert(a@ =~= b@);
    }
    true
}

/// Trim whitespace from both ends, returning a fresh vector.
pub fn trim_bytes(s: &[u8]) -> (r: Vec<u8>)
    ensures
        r@ == trim(s@),
{
    proof {
        assert(s@.skip(0) =~= s@);
    }
    let mut from: usize = 0;
    while from < s.len() && (s[from] == 9 || s[from] == 10 || s[from] == 11 || s[from] == 12
        || s[from] == 13 || s[from] == 32)
        invariant
            from <= s@.len(),
            trim_start(s@) == trim_start(s@.skip(from as int)),
        decreases s@.len() - from,
    {
        proof {
            assert(s@.skip(from as int)[0] == s@[from as int]);
            assert(s@.skip(from as int).skip(1) =~= s@.skip(from + 1));
        }
        from = from + 1;
    }
    proof {
        if from < s@.len() {
            assert(s@.skip(from as int)[0] == s@[from as int]);
        }
        assert(trim_start(s@.skip(from as int)) == s@.skip(from as int));
        assert(trim(s@) == trim_end(s@.subrange(from as int, s@.len() as int)));
    }
    let mut to: usize = s.len();
    while to > from && (s[to - 1] == 9 || s[to - 1] == 10 || s[to - 1] == 11 || s[to - 1] == 12 || s[
        to - 1] == 13 || s[to - 1] == 32)
        invariant
            from <= to <= s@.len(),
            trim(s@) == trim_end(s@.subrange(from as int, to as int)),
        decreases to,
    {
        proof {
            let cur = s@.subrange(from as int, to as int);
            assert(cur[cur.len() - 1] == s@[to - 1]);
            assert(cur.take(cur.len() - 1) =~= s@.subrange(from as int, to - 1));
        }
        to = to - 1;
    }
    proof {
        let cur = s@.subrange(from as int, to as int);
        if cur.len() > 0 {
            assert(cur[cur.len() - 1] == s@[to - 1]);
        }
        assert(trim_end(cur) == cur);
    }
    sub_vec(s, from, to)
}

/// Lower-case a byte string.
pub fn lower_bytes(s: &[u8]) -> (r: Vec<u8>)
    ensures
        r@ == to_lower(s@),
{
    let mut r: Vec<u8> = Vec::new();
    let mut i: usize = 0;
    while i < s.len()
        invariant
            i <= s@.len(),
            r@ == to_lower(s@.take(i as int)),
        decreases s@.len() - i,
    {
        let b = s[i];
        let lb: u8 = if 65 <= b && b <= 90 {
            b + 32
        } else {
            b
        };
        r.push(lb);
        proof {
            assert(to_lower(s@.take(i + 1)) =~= to_lower(s@.take(i as int)).push(
                lower(s@[i as int]),
            ));
        }
        i = i + 1;
    }
    proof {
        assert(s@.take(s@.len() as int) =~= s@);
    }
    r
}

/// `pat` occurs somewhere in `s` as a contiguous run.
pub open spec fn contains_seq(s: Seq<u8>, pat: Seq<u8>) -> bool {
    exists|i: int|
        0 <= i && i + pat.len() <= s.len() && #[trigger] s.subrange(i, i + pat.len()) == pat
}

#[verifier::loop_isolation(false)]
fn match_at(s: &[u8], pat: &[u8], i: usize) -> (r: bool)
    requires
        i + pat@.len() <= s@.len(),
    ensures
        r == (s@.subrange(i as int, i + pat@.len()) == pat@),
{
    let n: usize = s.len();
    let mut j: usize = 0;
    while j < pat.len()
        invariant
            i + pat@.len() <= s@.len(),
            j <= pat@.len(),
            forall|m: int| 0 <= m < j ==> #[trigger] s@[i + m] == pat@[m],
        decreases pat@.len() - j,
    {
        if s[i + j] != pat[j] {
            proof {
                assert(s@.subrange(i as int, i + pat@.len())[j as int] == s@[i + j]);
            }
            return false;
        }
        j = j + 1;
    }
    proof {
        assert forall|m: int| 0 <= m < pat@.len() implies s@.subrange(i as int, i + pat@.len())[m]
            == pat@[m] by {
            assert(s@.subrange(i as int, i + pat@.len())[m] == s@[i + m]);
        }
        assert(s@.subrange(i as int, i + pat@.len()) =~= pat@);
    }
    true
}

/// Executable substring search.
#[verifier::loop_isolation(false)]
pub fn contains_bytes(s: &[u8], pat: &[u8]) -> (r: bool)
    ensures
        r == contains_seq(s@, pat@),
{
    if pat.len() > s.len() {
        return false;
    }
    if pat.len() == 0 {
        proof {
            let i: int = 0;
            assert(s@.subrange(i, i + pat@.len()) =~= pat@);
            assert(contains_seq(s@, pat@));
        }
        return true;
    }
    let mut i: usize = 0;
    while i <= s.len() - pat.len()
        invariant
            pat@.len() <= s@.len(),
            i <= s@.len() - pat@.len() + 1,
            forall|k: int| 0 <= k < i ==> #[trigger] s@.subrange(k, k + pat@.len()) != pat@,
        decreases s@.len() - pat@.len() + 1 - i,
    {
        if match_at(s, pat, i) {
            return true;
        }
        i = i + 1;
    }
    false
}

/// Lexicographic (byte-wise) order on byte strings, the order in which
/// version keys are compared.
pub open spec fn lex_le(a: Seq<u8>, b: Seq<u8>) -> bool
    decreases a.len(),
{
    if a.len() == 0 {
        true
    } else if b.len() == 0 {
        false
    } else if a[0] < b[0] {
        true
    } else if a[0] > b[0] {
        false
    } else {
        lex_le(a.skip(1), b.skip(1))
    }
}

/// Executable lexicographic comparison.
pub fn lex_le_bytes(a: &[u8], b: &[u8]) -> (r: bool)
    ensures
        r == lex_le(a@, b@),
{
    proof {
        assert(a@.skip(0) =~= a@);
        assert(b@.skip(0) =~= b@);
    }
    let n: usize = if a.len() < b.len() {
        a.len()
    } else {
        b.len()
    };
    let mut i: usize = 0;
    while i < n
        invariant
            n == if a@.len() < b@.len() {
                a@.len()
            } else {
                b@.len()
            },
            i <= n,
            lex_le(a@, b@) == lex_le(a@.skip(i as int), b@.skip(i as int)),
        decreases n - i,
    {
        proof {
            assert(a@.skip(i as int)[0] == a@[i as int]);
            assert(b@.skip(i as int)[0] == b@[i as int]);
        }
        if a[i] < b[i] {
            return true;
        }
        if a[i] > b[i] {
            return false;
        }
        proof {
            assert(a@.skip(i as int).skip(1) =~= a@.skip(i + 1));
            assert(b@.skip(i as int).skip(1) =~= b@.skip(i + 1));
        }
        i = i + 1;
    }
    proof {
        assert(a@.skip(i as int).len() == a@.len() - i);
        assert(b@.skip(i as int).len() == b@.len() - i);
        if a@.len() <= b@.len() {
            assert(lex_le(a@.skip(i as int), b@.skip(i as int)));
        } else {
            assert(a@.skip(i as int).len() > 0);
            assert(b@.skip(i as int).len() == 0);
        }
    }
    a.len() <= b.len()
}

/// The order is total: two byte strings can always be compared.
pub proof fn lemma_lex_le_total(a: Seq<u8>, b: Seq<u8>)
    ensures
        lex_le(a, b) || lex_le(b, a),
    decreases a.len(),
{
    if a.len() == 0 || b.len() == 0 {
    } else if a[0] == b[0] {
        lemma_lex_le_total(a.skip(1), b.skip(1));
    }
}

/// The order is transitive.
pub proof fn lemma_lex_le_trans(a: Seq<u8>, b: Seq<u8>, c: Seq<u8>)
    requires
        lex_le(a, b),
        lex_le(b, c),
    ensures
        lex_le(a, c),
    decreases a.len(),
{
    if a.len() == 0 {
    } else {
        assert(b.len() > 0);
        assert(c.len() > 0);
        if a[0] == b[0] && b[0] == c[0] {
            lemma_lex_le_trans(a.skip(1), b.skip(1), c.skip(1));
        }
    }
}


/// Index of the first occurrence of `pat` as a contiguous run in `s`,
/// or -1.
pub open spec fn find_seq(s: Seq<u8>, pat: Seq<u8>) -> int
    decreases s.len(),
{
    if s.len() < pat.len() {
        -1
    } else if s.take(pat.len() as int) == pat {
        0
    } else if s.len() == 0 {
        -1
    } else {
        let r = find_seq(s.skip(1), pat);
        if r == -1 {
            -1
        } else {
            r + 1
        }
    }
}

pub proof fn lemma_find_seq_props(s: Seq<u8>, pat: Seq<u8>)
    ensures
        find_seq(s, pat) == -1 ==> forall|i: int|
            0 <= i && i + pat.len() <= s.len() ==> #[trigger] s.subrange(i, i + pat.len()) != pat,
        find_seq(s, pat) != -1 ==> {
            let r = find_seq(s, pat);
            &&& 0 <= r
            &&& r + pat.len() <= s.len()
            &&& s.subrange(r, r + pat.len()) == pat
            &&& forall|i: int| 0 <= i < r ==> #[trigger] s.subrange(i, i + pat.len()) != pat
        },
    decreases s.len(),
{
    if s.len() < pat.len() {
        assert forall|i: int| 0 <= i && i + pat.len() <= s.len() implies #[trigger] s.subrange(
            i,
            i + pat.len(),
        ) != pat by {
            assert(i + pat.len() > s.len());
        }
    } else if s.take(pat.len() as int) == pat {
        assert(s.subrange(0, pat.len() as int) =~= s.take(pat.len() as int));
    } else if s.len() == 0 {
    } else {
        lemma_find_seq_props(s.skip(1), pat);
        assert forall|i: int| 1 <= i && i + pat.len() <= s.len() implies #[trigger] s.subrange(
            i,
            i + pat.len(),
        ) =~= s.skip(1).subrange(i - 1, i - 1 + pat.len()) by {
            assert(forall|q: int|
                0 <= q < pat.len() ==> s.subrange(i, i + pat.len())[q] == s[i + q] == #[trigger] s
                    .skip(1).subrange(i - 1, i - 1 + pat.len())[q]);
        }
        assert(s.subrange(0, pat.len() as int) =~= s.take(pat.len() as int));
    }
}

/// A witness position with the first-occurrence property pins `find_seq`
/// down.
pub proof fn lemma_find_seq_unique(s: Seq<u8>, pat: Seq<u8>, r: int)
    requires
        0 <= r,
        r + pat.len() <= s.len(),
        s.subrange(r, r + pat.len()) == pat,
        forall|i: int| 0 <= i < r ==> #[trigger] s.subrange(i, i + pat.len()) != pat,
    ensures
        find_seq(s, pat) == r,
{
    lemma_find_seq_props(s, pat);
    let f = find_seq(s, pat);
    if f == -1 {
        assert(s.subrange(r, r + pat.len()) != pat);
    } else if f < r {
        assert(s.subrange(f, f + pat.len()) != pat);
    } else if f > r {
        assert(s.subrange(r, r + pat.len()) != pat);
    }
}

/// With no occurrence at all, `find_seq` reports -1.
pub proof fn lemma_find_seq_none(s: Seq<u8>, pat: Seq<u8>)
    requires
        forall|i: int|
            0 <= i && i + pat.len() <= s.len() ==> #[trigger] s.subrange(i, i + pat.len()) != pat,
    ensures
        find_seq(s, pat) == -1,
{
    lemma_find_seq_props(s, pat);
    let f = find_seq(s, pat);
    if f != -1 {
        assert(s.subrange(f, f + pat.len()) != pat);
    }
}

/// First occurrence of `pat` at or after `from`, as an executable
/// search.
#[verifier::loop_isolation(false)]
pub fn find_pattern(s: &[u8], from: usize, pat: &[u8]) -> (r: Option<usize>)
    requires
        from <= s@.len(),
        pat@.len() > 0,
    ensures
        (match r {
            Some(i) => {
                &&& from <= i
                &&& i + pat@.len() <= s@.len()
                &&& s@.subrange(i as int, i + pat@.len()) == pat@
                &&& forall|j: int|
                    from <= j < i ==> #[trigger] s@.subrange(j, j + pat@.len()) != pat@
            },
            None => forall|j: int|
                from <= j && j + pat@.len() <= s@.len() ==> #[trigger] s@.subrange(
                    j,
                    j + pat@.len(),
                ) != pat@,
        }),
{
    if pat.len() > s.len() {
        return None;
    }
    let limit: usize = s.len() - pat.len();
    if from > limit {
        return None;
    }
    let mut i: usize = from;
    while i <= limit
        invariant
            from <= i,
            i <= limit + 1,
            limit == s@.len() - pat@.len(),
            forall|j: int| from <= j < i ==> #[trigger] s@.subrange(j, j + pat@.len()) != pat@,
        decreases limit + 1 - i,
    {
        if match_at(s, pat, i) {
            return Some(i);
        }
        i = i + 1;
    }
    None
}

} // verus!
