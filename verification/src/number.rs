//! Decimal and hexadecimal byte-string numerals: the forms the wire
//! protocol uses for `content-length` values and chunk sizes, with
//! parsers and printers pinned to one another.

use vstd::prelude::*;

use crate::bytes::is_digit;

verus! {

/// ASCII hexadecimal digit (both cases).
pub open spec fn is_hex_digit(b: u8) -> bool {
    is_digit(b) || (97 <= b && b <= 102) || (65 <= b && b <= 70)
}

/// Numeric value of one hexadecimal digit.
pub open spec fn hex_val(b: u8) -> int {
    if is_digit(b) {
        b - 48
    } else if 97 <= b && b <= 102 {
        b - 97 + 10
    } else {
        b - 65 + 10
    }
}

pub open spec fn all_digits(s: Seq<u8>) -> bool {
    forall|i: int| 0 <= i < s.len() ==> is_digit(#[trigger] s[i])
}

pub open spec fn all_hex_digits(s: Seq<u8>) -> bool {
    forall|i: int| 0 <= i < s.len() ==> is_hex_digit(#[trigger] s[i])
}

/// Value of a decimal digit string (most significant digit first).
pub open spec fn dec_value(s: Seq<u8>) -> int
    decreases s.len(),
{
    if s.len() == 0 {
        0
    } else {
        dec_value(s.take(s.len() - 1)) * 10 + (s[s.len() - 1] - 48)
    }
}

/// Value of a hexadecimal digit string (most significant digit first).
pub open spec fn hex_value(s: Seq<u8>) -> int
    decreases s.len(),
{
    if s.len() == 0 {
        0
    } else {
        hex_value(s.take(s.len() - 1)) * 16 + hex_val(s[s.len() - 1])
    }
}

/// What parsing a decimal numeral yields: the value, provided the string
/// is a non-empty run of digits whose value fits in `usize`.
pub open spec fn parse_dec(s: Seq<u8>) -> Option<int> {
    if s.len() > 0 && all_digits(s) && dec_value(s) <= usize::MAX {
        Some(dec_value(s))
    } else {
        None
    }
}

/// What parsing a hexadecimal numeral yields, under the same conditions.
pub open spec fn parse_hex(s: Seq<u8>) -> Option<int> {
    if s.len() > 0 && all_hex_digits(s) && 0 <= hex_value(s) <= usize::MAX {
        Some(hex_value(s))
    } else {
        None
    }
}

pub proof fn lemma_dec_value_nonneg(s: Seq<u8>)
    requires
        all_digits(s),
    ensures
        dec_value(s) >= 0,
    decreases s.len(),
{
    if s.len() > 0 {
        assert(all_digits(s.take(s.len() - 1))) by {
            assert(forall|i: int|
                0 <= i < s.len() - 1 ==> #[trigger] s.take(s.len() - 1)[i] == s[i]);
        }
        lemma_dec_value_nonneg(s.take(s.len() - 1));
    }
}

pub proof fn lemma_hex_value_nonneg(s: Seq<u8>)
    requires
        all_hex_digits(s),
    ensures
        hex_value(s) >= 0,
    decreases s.len(),
{
    if s.len() > 0 {
        assert(all_hex_digits(s.take(s.len() - 1))) by {
            assert(forall|i: int|
                0 <= i < s.len() - 1 ==> #[trigger] s.take(s.len() - 1)[i] == s[i]);
        }
        lemma_hex_value_nonneg(s.take(s.len() - 1));
    }
}

/// Extending a digit run to the right cannot shrink its value.
pub proof fn lemma_dec_value_prefix_le(s: Seq<u8>, i: int)
    requires
        all_digits(s),
        0 <= i <= s.len(),
    ensures
        dec_value(s.take(i)) <= dec_value(s),
    decreases s.len() - i,
{
    if i < s.len() {
        let t = s.take(s.len() - 1);
        assert(all_digits(t) && t.len() == s.len() - 1) by {
            assert(forall|j: int| 0 <= j < t.len() ==> #[trigger] t[j] == s[j]);
        }
        if i == s.len() - 1 {
            lemma_dec_value_nonneg(t);
            assert(dec_value(s) == dec_value(t) * 10 + (s[s.len() - 1] - 48));
            assert(dec_value(t) * 10 >= dec_value(t));
        } else {
            lemma_dec_value_prefix_le(t, i);
            assert(t.take(i) =~= s.take(i));
            lemma_dec_value_prefix_le(s, s.len() - 1);
            assert(s.take(s.len() - 1) == t);
        }
    } else {
        assert(s.take(i) =~= s);
    }
}

pub proof fn lemma_hex_value_prefix_le(s: Seq<u8>, i: int)
    requires
        all_hex_digits(s),
        0 <= i <= s.len(),
    ensures
        hex_value(s.take(i)) <= hex_value(s),
    decreases s.len() - i,
{
    if i < s.len() {
        let t = s.take(s.len() - 1);
        assert(all_hex_digits(t) && t.len() == s.len() - 1) by {
            assert(forall|j: int| 0 <= j < t.len() ==> #[trigger] t[j] == s[j]);
        }
        if i == s.len() - 1 {
            lemma_hex_value_nonneg(t);
            assert(hex_value(s) == hex_value(t) * 16 + hex_val(s[s.len() - 1]));
            assert(hex_value(t) * 16 >= hex_value(t));
        } else {
            lemma_hex_value_prefix_le(t, i);
            assert(t.take(i) =~= s.take(i));
            lemma_hex_value_prefix_le(s, s.len() - 1);
            assert(s.take(s.len() - 1) == t);
        }
    } else {
        assert(s.take(i) =~= s);
    }
}

/// Parse a decimal numeral, exactly as `parse_dec` describes.
pub fn parse_dec_bytes(s: &[u8]) -> (r: Option<usize>)
    ensures
        match r {
            Some(n) => parse_dec(s@) == Some(n as int),
            None => parse_dec(s@) is None,
        },
{
    if s.len() == 0 {
        return None;
    }
    let mut acc: usize = 0;
    let mut i: usize = 0;
    while i < s.len()
        invariant
            i <= s@.len(),
            s@.len() > 0,
            all_digits(s@.take(i as int)),
            acc == dec_value(s@.take(i as int)),
        decreases s@.len() - i,
    {
        let b = s[i];
        if !(48 <= b && b <= 57) {
            assert(!is_digit(s@[i as int]));
            return None;
        }
        let d: usize = (b - 48) as usize;
        if acc > (usize::MAX - d) / 10 {
            proof {
                assert(all_digits(s@.take(i + 1))) by {
                    assert(forall|j: int|
                        0 <= j < i + 1 ==> #[trigger] s@.take(i + 1)[j] == s@[j]);
                    assert(forall|j: int| 0 <= j < i ==> s@[j] == s@.take(i as int)[j]);
                }
                if all_digits(s@) {
                    assert(s@.take(i + 1).take(i as int) =~= s@.take(i as int));
                    assert(dec_value(s@.take(i + 1)) == acc * 10 + d);
                    assert(acc * 10 + d > usize::MAX) by (nonlinear_arith)
                        requires
                            acc > (usize::MAX - d) / 10,
                            0 <= d <= 9,
                    ;
                    lemma_dec_value_prefix_le(s@, i + 1);
                }
            }
            return None;
        }
        proof {
            assert(acc * 10 + d <= usize::MAX) by (nonlinear_arith)
                requires
                    acc <= (usize::MAX - d) / 10,
                    0 <= d <= 9,
            ;
        }
        let new_acc: usize = acc * 10 + d;
        proof {
            assert(s@.take(i + 1).take(i as int) =~= s@.take(i as int));
            assert(all_digits(s@.take(i + 1))) by {
                assert(forall|j: int| 0 <= j < i + 1 ==> #[trigger] s@.take(i + 1)[j] == s@[j]);
                assert(forall|j: int| 0 <= j < i ==> s@[j] == s@.take(i as int)[j]);
            }
        }
        acc = new_acc;
        i = i + 1;
    }
    proof {
        assert(s@.take(s@.len() as int) =~= s@);
    }
    Some(acc)
}

/// Parse a hexadecimal numeral, exactly as `parse_hex` describes.
pub fn parse_hex_bytes(s: &[u8]) -> (r: Option<usize>)
    ensures
        match r {
            Some(n) => parse_hex(s@) == Some(n as int),
            None => parse_hex(s@) is None,
        },
{
    if s.len() == 0 {
        return None;
    }
    let mut acc: usize = 0;
    let mut i: usize = 0;
    while i < s.len()
        invariant
            i <= s@.len(),
            s@.len() > 0,
            all_hex_digits(s@.take(i as int)),
            acc == hex_value(s@.take(i as int)),
        decreases s@.len() - i,
    {
        let b = s[i];
        let dv: usize = if 48 <= b && b <= 57 {
            (b - 48) as usize
        } else if 97 <= b && b <= 102 {
            (b - 97 + 10) as usize
        } else if 65 <= b && b <= 70 {
            (b - 65 + 10) as usize
        } else {
            assert(!is_hex_digit(s@[i as int]));
            return None;
        };
        assert(dv == hex_val(s@[i as int]) && dv <= 15);
        if acc > (usize::MAX - dv) / 16 {
            proof {
                assert(all_hex_digits(s@.take(i + 1))) by {
                    assert(forall|j: int|
                        0 <= j < i + 1 ==> #[trigger] s@.take(i + 1)[j] == s@[j]);
                    assert(forall|j: int| 0 <= j < i ==> s@[j] == s@.take(i as int)[j]);
                }
                if all_hex_digits(s@) {
                    assert(s@.take(i + 1).take(i as int) =~= s@.take(i as int));
                    assert(hex_value(s@.take(i + 1)) == acc * 16 + dv);
                    assert(acc * 16 + dv > usize::MAX) by (nonlinear_arith)
                        requires
                            acc > (usize::MAX - dv) / 16,
                            0 <= dv <= 15,
                    ;
                    lemma_hex_value_prefix_le(s@, i + 1);
                }
            }
            return None;
        }
        proof {
            assert(acc * 16 + dv <= usize::MAX) by (nonlinear_arith)
                requires
                    acc <= (usize::MAX - dv) / 16,
                    0 <= dv <= 15,
            ;
        }
        let new_acc: usize = acc * 16 + dv;
        proof {
            assert(s@.take(i + 1).take(i as int) =~= s@.take(i as int));
            assert(all_hex_digits(s@.take(i + 1))) by {
                assert(forall|j: int| 0 <= j < i + 1 ==> #[trigger] s@.take(i + 1)[j] == s@[j]);
                assert(forall|j: int| 0 <= j < i ==> s@[j] == s@.take(i as int)[j]);
            }
        }
        acc = new_acc;
        i = i + 1;
    }
    proof {
        assert(s@.take(s@.len() as int) =~= s@);
    }
    Some(acc)
}

/// Decimal rendering of a number, most significant digit first.
pub open spec fn dec_of(n: int) -> Seq<u8>
    decreases n,
{
    if n < 10 {
        seq![(48 + if n >= 0 {
            n
        } else {
            0
        }) as u8]
    } else {
        dec_of(n / 10).push((48 + n % 10) as u8)
    }
}

/// Hexadecimal rendering of a number, lower case, most significant first.
pub open spec fn hex_of(n: int) -> Seq<u8>
    decreases n,
{
    let d = if 0 <= n % 16 < 10 {
        48 + n % 16
    } else {
        97 + n % 16 - 10
    };
    if n < 16 {
        seq![(if n >= 0 {
            d
        } else {
            48
        }) as u8]
    } else {
        hex_of(n / 16).push(d as u8)
    }
}

/// Print a number in decimal, exactly as `dec_of` describes.
pub fn dec_bytes(n: usize) -> (r: Vec<u8>)
    ensures
        r@ == dec_of(n as int),
    decreases n,
{
    if n < 10 {
        let mut v: Vec<u8> = Vec::new();
        v.push(48 + (n as u8));
        proof {
            assert(v@ =~= dec_of(n as int));
        }
        v
    } else {
        let mut v = dec_bytes(n / 10);
        v.push(48 + ((n % 10) as u8));
        v
    }
}

/// Digits printed in decimal are decimal digits, and at least one is printed.
pub proof fn lemma_dec_of_digits(n: int)
    requires
        n >= 0,
    ensures
        dec_of(n).len() > 0,
        all_digits(dec_of(n)),
    decreases n,
{
    if n < 10 {
    } else {
        lemma_dec_of_digits(n / 10);
        assert(forall|i: int|
            0 <= i < dec_of(n / 10).len() ==> #[trigger] dec_of(n)[i] == dec_of(n / 10)[i]);
        assert(is_digit(dec_of(n)[dec_of(n).len() - 1]));
    }
}

/// Parsing a printed decimal numeral recovers the number.
pub proof fn lemma_parse_dec_of(n: int)
    requires
        0 <= n <= usize::MAX,
    ensures
        parse_dec(dec_of(n)) == Some(n),
{
    lemma_dec_of_digits(n);
    lemma_dec_value_of(n);
}

/// The value a printed decimal numeral denotes is the number printed.
pub proof fn lemma_dec_value_of(n: int)
    requires
        n >= 0,
    ensures
        dec_value(dec_of(n)) == n,
    decreases n,
{
    if n < 10 {
        assert(dec_value(dec_of(n)) == dec_value(dec_of(n).take(0)) * 10 + (dec_of(n)[0] - 48));
        assert(dec_of(n).take(0) =~= Seq::<u8>::empty());
    } else {
        lemma_dec_value_of(n / 10);
        let s = dec_of(n);
        assert(s.take(s.len() - 1) =~= dec_of(n / 10));
    }
}

/// Digits printed in hexadecimal are hexadecimal digits.
pub proof fn lemma_hex_of_digits(n: int)
    requires
        n >= 0,
    ensures
        hex_of(n).len() > 0,
        all_hex_digits(hex_of(n)),
    decreases n,
{
    if n < 16 {
    } else {
        lemma_hex_of_digits(n / 16);
        assert(forall|i: int|
            0 <= i < hex_of(n / 16).len() ==> #[trigger] hex_of(n)[i] == hex_of(n / 16)[i]);
        assert(is_hex_digit(hex_of(n)[hex_of(n).len() - 1]));
    }
}

/// Parsing a printed hexadecimal numeral recovers the number.
pub proof fn lemma_hex_value_of(n: int)
    requires
        n >= 0,
    ensures
        hex_value(hex_of(n)) == n,
    decreases n,
{
    if n < 16 {
        assert(hex_value(hex_of(n)) == hex_value(hex_of(n).take(0)) * 16 + hex_val(hex_of(n)[0]));
        assert(hex_of(n).take(0) =~= Seq::<u8>::empty());
    } else {
        lemma_hex_value_of(n / 16);
        let s = hex_of(n);
        assert(s.take(s.len() - 1) =~= hex_of(n / 16));
    }
}

} // verus!
