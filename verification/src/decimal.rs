//! Integers written as ASCII decimal text.
use vstd::prelude::*;
use vstd::utf8::{encode_utf8, is_ascii_chars_encode_utf8};

use crate::text::{decimal, lemma_decimal_digits};

verus! {

/// Every byte is an ASCII digit.
pub open spec fn all_digits(s: Seq<u8>) -> bool {
    forall|i: int| 0 <= i < s.len() ==> 48 <= #[trigger] s[i] <= 57
}

/// The number that a run of ASCII digits stands for.
pub open spec fn digits_value(s: Seq<u8>) -> nat
    decreases s.len(),
{
    if s.len() == 0 {
        0
    } else {
        digits_value(s.drop_last()) * 10 + (s.last() - 48) as nat
    }
}

/// A non-empty run of digits, as a number.
pub open spec fn magnitude(s: Seq<u8>) -> Option<nat> {
    if s.len() > 0 && all_digits(s) {
        Some(digits_value(s))
    } else {
        None
    }
}

/// What remains of `s` behind one leading `sign` byte, if it has one.
pub open spec fn unsigned_part(s: Seq<u8>, sign: u8) -> Option<Seq<u8>> {
    if s.len() > 0 && s[0] == sign {
        Some(s.skip(1))
    } else {
        None
    }
}

/// An unsigned decimal: an optional `+`, then digits only, no larger than `u64::MAX`.
pub open spec fn decimal_u64(s: Seq<u8>) -> Option<u64> {
    let body = match unsigned_part(s, 43) {
        Some(rest) => rest,
        None => s,
    };
    match magnitude(body) {
        Some(n) => if n <= u64::MAX {
            Some(n as u64)
        } else {
            None
        },
        None => None,
    }
}

/// A signed decimal: an optional `+` or `-`, then digits only, within the range of `i64`.
pub open spec fn decimal_i64(s: Seq<u8>) -> Option<i64> {
    match unsigned_part(s, 45) {
        Some(rest) => match magnitude(rest) {
            Some(n) => if n <= i64::MAX + 1 {
                Some((-n) as i64)
            } else {
                None
            },
            None => None,
        },
        None => {
            let body = match unsigned_part(s, 43) {
                Some(rest) => rest,
                None => s,
            };
            match magnitude(body) {
                Some(n) => if n <= i64::MAX {
                    Some(n as i64)
                } else {
                    None
                },
                None => None,
            }
        },
    }
}

/// How an unsigned decimal begins: a digit is itself, a `+` before a digit changes nothing, and
/// neither the empty string nor any other byte is a number.
pub proof fn lemma_u64_begins(c: u8)
    ensures
        decimal_u64(seq![]) is None,
        decimal_u64(seq![c]) == (if 48 <= c <= 57 {
            Some((c - 48) as u64)
        } else {
            None
        }),
        decimal_u64(seq![43u8, c]) == (if 48 <= c <= 57 {
            Some((c - 48) as u64)
        } else {
            None
        }),
{
    let one = seq![c];
    let signed = seq![43u8, c];
    assert(signed.skip(1) =~= one);
    assert(one.drop_last() =~= seq![]);
    assert(seq![c].skip(1) =~= seq![]);
    assert(digits_value(seq![]) == 0);
    assert(all_digits(one) <==> 48 <= c <= 57) by {
        assert(one[0] == c);
    }
}

/// How an unsigned decimal goes on: one more digit multiplies by ten and adds it, as far as a `u64`
/// reaches; behind any other byte, or behind what is no number, there is no number.
pub proof fn lemma_u64_goes_on(s: Seq<u8>, c: u8)
    requires
        s.len() > 0,
        s != seq![43u8],
    ensures
        decimal_u64(s.push(c)) == match decimal_u64(s) {
            Some(n) => if 48 <= c <= 57 && n * 10 + (c - 48) <= 0xffff_ffff_ffff_ffff {
                Some((n * 10 + (c - 48)) as u64)
            } else {
                None
            },
            None => None,
        },
{
    lemma_body_goes_on(s, 43, c);
    let body = match unsigned_part(s, 43) {
        Some(rest) => rest,
        None => s,
    };
    lemma_magnitude_goes_on(body, c);
}

proof fn lemma_body_goes_on(s: Seq<u8>, sign: u8, c: u8)
    requires
        s.len() > 0,
        s != seq![sign],
    ensures
        match unsigned_part(s, sign) {
            Some(rest) => rest.len() > 0 && unsigned_part(s.push(c), sign) == Some(rest.push(c)),
            None => unsigned_part(s.push(c), sign) is None,
        },
{
    assert(s.push(c)[0] == s[0]);
    if s[0] == sign {
        if s.len() == 1 {
            assert(s =~= seq![sign]);
        }
        assert(s.push(c).skip(1) =~= s.skip(1).push(c));
    }
}

proof fn lemma_magnitude_goes_on(body: Seq<u8>, c: u8)
    requires
        body.len() > 0,
    ensures
        magnitude(body.push(c)) == match magnitude(body) {
            Some(n) => if 48 <= c <= 57 {
                Some((n * 10 + (c - 48)) as nat)
            } else {
                None
            },
            None => None,
        },
{
    let longer = body.push(c);
    assert(longer.drop_last() =~= body);
    assert(all_digits(longer) <==> all_digits(body) && 48 <= c <= 57) by {
        if all_digits(longer) {
            assert(longer[body.len() as int] == c);
            assert forall|i: int| 0 <= i < body.len() implies 48 <= #[trigger] body[i] <= 57 by {
                assert(longer[i] == body[i]);
            }
        }
    }
}

/// How a signed decimal begins: as an unsigned one does, or with a `-`, which makes it negative.
pub proof fn lemma_i64_begins(c: u8)
    ensures
        decimal_i64(seq![]) is None,
        decimal_i64(seq![c]) == (if 48 <= c <= 57 {
            Some((c - 48) as i64)
        } else {
            None
        }),
        decimal_i64(seq![43u8, c]) == (if 48 <= c <= 57 {
            Some((c - 48) as i64)
        } else {
            None
        }),
        decimal_i64(seq![45u8, c]) == (if 48 <= c <= 57 {
            Some((48 - c) as i64)
        } else {
            None
        }),
{
    let one = seq![c];
    assert(seq![43u8, c].skip(1) =~= one);
    assert(seq![45u8, c].skip(1) =~= one);
    assert(one.drop_last() =~= seq![]);
    assert(seq![c].skip(1) =~= seq![]);
    assert(digits_value(seq![]) == 0);
    assert(all_digits(one) <==> 48 <= c <= 57) by {
        assert(one[0] == c);
    }
}

/// How a signed decimal goes on: one more digit multiplies by ten and moves it away from zero, as far
/// as an `i64` reaches.
pub proof fn lemma_i64_goes_on(s: Seq<u8>, c: u8)
    requires
        s.len() > 0,
        s != seq![43u8],
        s != seq![45u8],
    ensures
        decimal_i64(s.push(c)) == match decimal_i64(s) {
            Some(n) => {
                let m = if s[0] == 45 {
                    n * 10 - (c - 48)
                } else {
                    n * 10 + (c - 48)
                };
                if 48 <= c <= 57 && -0x8000_0000_0000_0000 <= m <= 0x7fff_ffff_ffff_ffff {
                    Some(m as i64)
                } else {
                    None
                }
            },
            None => None,
        },
{
    lemma_body_goes_on(s, 45, c);
    lemma_body_goes_on(s, 43, c);
    match unsigned_part(s, 45) {
        Some(rest) => {
            lemma_magnitude_goes_on(rest, c);
        },
        None => {
            match unsigned_part(s, 43) {
                Some(rest) => {
                    lemma_magnitude_goes_on(rest, c);
                },
                None => {
                    lemma_magnitude_goes_on(s, c);
                },
            }
        },
    }
}

/// The digits of a number in decimal stand for the number.
proof fn lemma_digits_of_text(n: nat)
    ensures
        ({
            let s = Seq::new(decimal(n).len(), |i: int| decimal(n)[i] as u8);
            s.len() > 0 && all_digits(s) && digits_value(s) == n
        }),
    decreases n,
{
    let s = Seq::new(decimal(n).len(), |i: int| decimal(n)[i] as u8);
    if n < 10 {
        assert(s =~= seq![(48 + n) as u8]);
        assert(s.drop_last() =~= seq![]);
        assert(digits_value(seq![]) == 0);
    } else {
        lemma_digits_of_text(n / 10);
        let t = Seq::new(decimal(n / 10).len(), |i: int| decimal(n / 10)[i] as u8);
        let d = (48 + n % 10) as u8;
        assert(s =~= t.push(d));
        assert(s.drop_last() =~= t);
        assert forall|i: int| 0 <= i < s.len() implies 48 <= #[trigger] s[i] <= 57 by {
            if i < t.len() {
                assert(s[i] == t[i]);
            }
        }
    }
}

/// What is written in decimal reads back, with and without a sign.
pub proof fn lemma_text_reads_back(n: nat)
    ensures
        decimal_u64(encode_utf8(decimal(n))) == (if n <= u64::MAX {
            Some(n as u64)
        } else {
            None
        }),
        decimal_i64(encode_utf8(decimal(n))) == (if n <= i64::MAX {
            Some(n as i64)
        } else {
            None
        }),
        decimal_i64(seq![45u8] + encode_utf8(decimal(n))) == (if n <= i64::MAX + 1 {
            Some((-n) as i64)
        } else {
            None
        }),
{
    lemma_decimal_digits(n);
    is_ascii_chars_encode_utf8(decimal(n));
    let e = encode_utf8(decimal(n));
    let s = Seq::new(decimal(n).len(), |i: int| decimal(n)[i] as u8);
    assert(e =~= s);
    lemma_digits_of_text(n);
    assert(48 <= s[0] <= 57);
    assert((seq![45u8] + e).skip(1) =~= e);
}

proof fn lemma_digits_grow(s: Seq<u8>, i: int)
    requires
        all_digits(s),
        0 <= i <= s.len(),
    ensures
        digits_value(s.take(i)) <= digits_value(s),
    decreases s.len(),
{
    if i == s.len() {
        assert(s.take(i) =~= s);
    } else {
        lemma_digits_grow(s.drop_last(), i);
        assert(s.drop_last().take(i) =~= s.take(i));
    }
}

/// Reads a run of digits; `None` where it is empty, holds another byte, or does not fit.
fn read_magnitude(s: &[u8]) -> (r: Option<u64>)
    ensures
        r == (match magnitude(s@) {
            Some(n) => if n <= u64::MAX {
                Some(n as u64)
            } else {
                None
            },
            None => None,
        }),
{
    if s.len() == 0 {
        return None;
    }
    let mut i: usize = 0;
    while i < s.len()
        invariant
            i <= s@.len(),
            forall|j: int| 0 <= j < i ==> 48 <= #[trigger] s@[j] <= 57,
        decreases s@.len() - i,
    {
        if s[i] < 48 || s[i] > 57 {
            return None;
        }
        i = i + 1;
    }
    let mut acc: u64 = 0;
    let mut k: usize = 0;
    assert(s@.take(0) =~= Seq::<u8>::empty());
    while k < s.len()
        invariant
            k <= s@.len(),
            all_digits(s@),
            acc == digits_value(s@.take(k as int)),
        decreases s@.len() - k,
    {
        let d: u64 = (s[k] - 48) as u64;
        proof {
            assert(s@.take(k + 1).drop_last() =~= s@.take(k as int));
            assert(s@.take(k + 1).last() == s@[k as int]);
            lemma_digits_grow(s@, k + 1);
        }
        if acc > (u64::MAX - d) / 10 {
            return None;
        }
        acc = acc * 10 + d;
        k = k + 1;
    }
    assert(s@.take(k as int) =~= s@);
    Some(acc)
}

/// Reads an unsigned decimal.
pub fn read_u64(s: &[u8]) -> (r: Option<u64>)
    ensures
        r == decimal_u64(s@),
{
    if s.len() > 0 && s[0] == 43 {
        let rest = vstd::slice::slice_subrange(s, 1, s.len());
        assert(rest@ =~= s@.skip(1));
        read_magnitude(rest)
    } else {
        read_magnitude(s)
    }
}

/// Reads a signed decimal.
pub fn read_i64(s: &[u8]) -> (r: Option<i64>)
    ensures
        r == decimal_i64(s@),
{
    if s.len() > 0 && s[0] == 45 {
        let rest = vstd::slice::slice_subrange(s, 1, s.len());
        assert(rest@ =~= s@.skip(1));
        match read_magnitude(rest) {
            Some(n) => if n <= i64::MAX as u64 {
                Some(-(n as i64))
            } else if n == 0x8000_0000_0000_0000 {
                Some(i64::MIN)
            } else {
                None
            },
            None => None,
        }
    } else {
        let body = if s.len() > 0 && s[0] == 43 {
            vstd::slice::slice_subrange(s, 1, s.len())
        } else {
            s
        };
        proof {
            if s@.len() > 0 && s@[0] == 43 {
                assert(body@ =~= s@.skip(1));
            }
        }
        match read_magnitude(body) {
            Some(n) => if n <= i64::MAX as u64 {
                Some(n as i64)
            } else {
                None
            },
            None => None,
        }
    }
}

} // verus!
