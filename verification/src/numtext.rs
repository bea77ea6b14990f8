//! Verified byte-level text utilities: decimal formatting and parsing,
//! ASCII trimming, lower-casing and comparison.
use vstd::prelude::*;

use crate::wire::all_digits;
use crate::wire::bytes_lt;
use crate::wire::dec_digits;
use crate::wire::digits_val;
use crate::wire::is_digit;
use crate::wire::is_ws;
use crate::wire::lower_byte;
use crate::wire::lower_bytes;
use crate::wire::parse_i64_bytes;
use crate::wire::parse_usize_bytes;
use crate::wire::trim_bytes;
use crate::wire::trim_end_bytes;
use crate::wire::trim_start_bytes;
use crate::frame::NEGATIVE_SIGN;
use crate::frame::POSITIVE_SIGN;

verus! {

/// The value of a digit sequence is nonnegative.
pub proof fn lemma_digits_val_nonneg(s: Seq<u8>)
    requires
        all_digits(s),
    ensures
        digits_val(s) >= 0,
    decreases s.len(),
{
    if s.len() > 0 {
        assert(all_digits(s.drop_last())) by {
            assert(forall|i: int|
                0 <= i < s.len() - 1 ==> is_digit(#[trigger] s.drop_last()[i]) == is_digit(s[i]));
        }
        lemma_digits_val_nonneg(s.drop_last());
    }
}

/// One more digit multiplies the value by ten and adds the digit.
pub proof fn lemma_digits_val_take_step(s: Seq<u8>, i: int)
    requires
        0 <= i < s.len(),
    ensures
        digits_val(s.take(i + 1)) == digits_val(s.take(i)) * 10 + (s[i] - 48),
{
    assert(s.take(i + 1).drop_last() =~= s.take(i));
    assert(s.take(i + 1).last() == s[i]);
}

/// The value never shrinks as digits are appended.
pub proof fn lemma_digits_val_take_mono(s: Seq<u8>, i: int, j: int)
    requires
        all_digits(s),
        0 <= i <= j <= s.len(),
    ensures
        digits_val(s.take(i)) <= digits_val(s.take(j)),
    decreases j - i,
{
    if i < j {
        lemma_digits_val_take_mono(s, i, j - 1);
        lemma_digits_val_take_step(s, j - 1);
        assert(all_digits(s.take(j - 1))) by {
            assert(forall|k: int|
                0 <= k < j - 1 ==> is_digit(#[trigger] s.take(j - 1)[k]) == is_digit(s[k]));
        }
        lemma_digits_val_nonneg(s.take(j - 1));
    }
}

/// The digit rendering of a number consists of digits and has it as its
/// value.
pub proof fn lemma_dec_digits_val(n: int)
    requires
        n >= 0,
    ensures
        all_digits(dec_digits(n)),
        digits_val(dec_digits(n)) == n,
        dec_digits(n).len() >= 1,
    decreases n,
{
    if n <= 9 {
        let d = dec_digits(n);
        assert(d =~= seq![(48 + n) as u8]);
        assert(d.drop_last() =~= Seq::<u8>::empty());
        assert(digits_val(d) == digits_val(d.drop_last()) * 10 + (d.last() - 48));
    } else {
        lemma_dec_digits_val(n / 10);
        let d = dec_digits(n / 10).push((48 + n % 10) as u8);
        assert(d.drop_last() =~= dec_digits(n / 10));
        assert(forall|i: int|
            0 <= i < d.len() - 1 ==> is_digit(#[trigger] d[i]) == is_digit(dec_digits(n / 10)[i]));
    }
}

/// Renders a number as its decimal digits.
pub fn fmt_u64(n: u64) -> (r: Vec<u8>)
    ensures
        r@ == dec_digits(n as int),
    decreases n,
{
    if n <= 9 {
        let mut v: Vec<u8> = Vec::new();
        v.push(48 + (n as u8));
        proof {
            assert(v@ =~= dec_digits(n as int));
        }
        v
    } else {
        let mut v = fmt_u64(n / 10);
        v.push(48 + ((n % 10) as u8));
        proof {
            assert(v@ =~= dec_digits(n as int));
        }
        v
    }
}

/// Parses an unsigned decimal count, as the wire header grammar allows
/// it: an optional plus sign, at least one digit, nothing else.
pub fn parse_usize(s: &[u8]) -> (r: Option<usize>)
    ensures
        match parse_usize_bytes(s@) {
            Option::Some(n) => r matches Option::Some(m) && m as int == n,
            Option::None => r is None,
        },
{
    let has_sign: bool = s.len() >= 1 && s[0] == POSITIVE_SIGN;
    let start: usize = if has_sign {
        1
    } else {
        0
    };
    let ghost d = if has_sign {
        s@.drop_first()
    } else {
        s@
    };
    proof {
        assert(d =~= s@.subrange(start as int, s@.len() as int));
    }
    if s.len() == start {
        return None;
    }
    let mut acc: usize = 0;
    let mut i: usize = start;
    while i < s.len()
        invariant
            start <= i <= s@.len(),
            s@.len() >= start + 1,
            start == if s@.len() >= 1 && s@[0] == POSITIVE_SIGN {
                1int
            } else {
                0int
            },
            d == s@.subrange(start as int, s@.len() as int),
            d == if s@.len() >= 1 && s@[0] == POSITIVE_SIGN {
                s@.drop_first()
            } else {
                s@
            },
            all_digits(d.take(i - start)),
            acc as int == digits_val(d.take(i - start)),
        decreases s@.len() - i,
    {
        let c = s[i];
        if c < 48 || c > 57 {
            proof {
                assert(d[i - start] == s@[i as int]);
                assert(!is_digit(d[i - start]));
                assert(!all_digits(d));
            }
            return None;
        }
        let dig = (c - 48) as usize;
        proof {
            lemma_digits_val_take_step(d, i - start);
            assert(d[i - start] == s@[i as int]);
        }
        let bound: usize = usize::MAX;
        if acc > bound / 10 || (acc == bound / 10 && dig > bound % 10) {
            proof {
                assert(digits_val(d.take(i - start + 1)) > bound as int) by {
                    assert(acc as int * 10 + dig as int > bound as int);
                }
                if all_digits(d) {
                    lemma_digits_val_take_mono(d, i - start + 1, d.len() as int);
                    assert(d.take(d.len() as int) =~= d);
                }
            }
            return None;
        }
        proof {
            assert(acc as int * 10 + dig as int <= bound as int);
        }
        acc = acc * 10 + dig;
        i = i + 1;
        proof {
            assert(forall|k: int|
                0 <= k < i - start ==> is_digit(#[trigger] d.take(i - start)[k]) == is_digit(
                    d[k],
                ));
        }
    }
    proof {
        assert(d.take(d.len() as int) =~= d);
    }
    Some(acc)
}

/// Parses a signed 64-bit decimal integer: an optional sign, at least
/// one digit, nothing else, value in range.
pub fn parse_i64(s: &[u8]) -> (r: Option<i64>)
    ensures
        r == parse_i64_bytes(s@),
{
    let has_sign: bool = s.len() >= 1 && (s[0] == POSITIVE_SIGN || s[0] == NEGATIVE_SIGN);
    let neg: bool = s.len() >= 1 && s[0] == NEGATIVE_SIGN;
    let start: usize = if has_sign {
        1
    } else {
        0
    };
    let ghost d = if has_sign {
        s@.drop_first()
    } else {
        s@
    };
    proof {
        assert(d =~= s@.subrange(start as int, s@.len() as int));
    }
    if s.len() == start {
        return None;
    }
    let bound: u64 = if neg {
        0x8000000000000000
    } else {
        0x7FFFFFFFFFFFFFFF
    };
    let mut acc: u64 = 0;
    let mut i: usize = start;
    while i < s.len()
        invariant
            start <= i <= s@.len(),
            s@.len() >= start + 1,
            start == if s@.len() >= 1 && (s@[0] == POSITIVE_SIGN || s@[0] == NEGATIVE_SIGN) {
                1int
            } else {
                0int
            },
            neg == (s@.len() >= 1 && s@[0] == NEGATIVE_SIGN),
            d == s@.subrange(start as int, s@.len() as int),
            d == if s@.len() >= 1 && (s@[0] == POSITIVE_SIGN || s@[0] == NEGATIVE_SIGN) {
                s@.drop_first()
            } else {
                s@
            },
            all_digits(d.take(i - start)),
            acc as int == digits_val(d.take(i - start)),
            acc <= bound,
            bound == if neg {
                0x8000000000000000u64
            } else {
                0x7FFFFFFFFFFFFFFFu64
            },
        decreases s@.len() - i,
    {
        let c = s[i];
        if c < 48 || c > 57 {
            proof {
                assert(d[i - start] == s@[i as int]);
                assert(!is_digit(d[i - start]));
                assert(!all_digits(d));
            }
            return None;
        }
        let dig = (c - 48) as u64;
        proof {
            lemma_digits_val_take_step(d, i - start);
            assert(d[i - start] == s@[i as int]);
        }
        if acc > bound / 10 || (acc == bound / 10 && dig > bound % 10) {
            proof {
                assert(digits_val(d.take(i - start + 1)) > bound as int) by {
                    assert(acc as int * 10 + dig as int > bound as int);
                }
                if all_digits(d) {
                    lemma_digits_val_take_mono(d, i - start + 1, d.len() as int);
                    assert(d.take(d.len() as int) =~= d);
                }
            }
            return None;
        }
        proof {
            assert(acc as int * 10 + dig as int <= bound as int);
        }
        acc = acc * 10 + dig;
        i = i + 1;
        proof {
            assert(forall|k: int|
                0 <= k < i - start ==> is_digit(#[trigger] d.take(i - start)[k]) == is_digit(
                    d[k],
                ));
        }
    }
    proof {
        assert(d.take(d.len() as int) =~= d);
    }
    if neg {
        if acc == 0x8000000000000000 {
            Some(i64::MIN)
        } else {
            Some(-(acc as i64))
        }
    } else {
        Some(acc as i64)
    }
}

/// Strips leading and trailing ASCII whitespace.
pub fn trim_ascii(s: &[u8]) -> (r: &[u8])
    ensures
        r@ == trim_bytes(s@),
{
    let mut lo: usize = 0;
    proof {
        assert(s@.subrange(0, s@.len() as int) =~= s@);
    }
    while lo < s.len() && (s[lo] == 32 || (9 <= s[lo] && s[lo] <= 13))
        invariant
            lo <= s@.len(),
            trim_start_bytes(s@) == trim_start_bytes(s@.subrange(lo as int, s@.len() as int)),
        decreases s@.len() - lo,
    {
        proof {
            let cur = s@.subrange(lo as int, s@.len() as int);
            assert(cur.first() == s@[lo as int] && is_ws(cur.first()));
            assert(cur.drop_first() =~= s@.subrange(lo as int + 1, s@.len() as int));
        }
        lo = lo + 1;
    }
    let mut hi: usize = s.len();
    proof {
        let cur = s@.subrange(lo as int, s@.len() as int);
        if lo < s@.len() {
            assert(!is_ws(cur.first()));
        }
        assert(trim_start_bytes(cur) == cur);
    }
    proof {
        assert(s@.subrange(lo as int, hi as int) =~= s@.subrange(lo as int, s@.len() as int));
    }
    while hi > lo && (s[hi - 1] == 32 || (9 <= s[hi - 1] && s[hi - 1] <= 13))
        invariant
            lo <= hi <= s@.len(),
            trim_start_bytes(s@) == s@.subrange(lo as int, s@.len() as int),
            trim_end_bytes(s@.subrange(lo as int, s@.len() as int)) == trim_end_bytes(
                s@.subrange(lo as int, hi as int),
            ),
        decreases hi,
    {
        proof {
            let cur = s@.subrange(lo as int, hi as int);
            assert(cur.last() == s@[hi - 1] && is_ws(cur.last()));
            assert(cur.drop_last() =~= s@.subrange(lo as int, hi as int - 1));
        }
        hi = hi - 1;
    }
    proof {
        let cur = s@.subrange(lo as int, hi as int);
        if hi > lo {
            assert(!is_ws(cur.last()));
        }
        assert(trim_end_bytes(cur) == cur);
    }
    &s[lo..hi]
}

/// Lower-cases ASCII letters.
pub fn lower_ascii(s: &[u8]) -> (r: Vec<u8>)
    ensures
        r@ == lower_bytes(s@),
{
    let mut out: Vec<u8> = Vec::new();
    let mut i: usize = 0;
    while i < s.len()
        invariant
            i <= s@.len(),
            out@.len() == i as int,
            forall|j: int| 0 <= j < i as int ==> out@[j] == lower_byte(s@[j]),
        decreases s@.len() - i,
    {
        let c = s[i];
        if 65 <= c && c <= 90 {
            out.push(c + 32);
        } else {
            out.push(c);
        }
        i = i + 1;
    }
    proof {
        lemma_lower_bytes(s@);
        assert(out@ =~= lower_bytes(s@));
    }
    out
}

/// `lower_bytes` is the pointwise lower-casing of its argument.
pub broadcast proof fn lemma_lower_bytes(s: Seq<u8>)
    ensures
        (#[trigger] lower_bytes(s)).len() == s.len(),
        forall|i: int| 0 <= i < s.len() ==> lower_bytes(s)[i] == lower_byte(s[i]),
    decreases s.len(),
{
    if s.len() > 0 {
        lemma_lower_bytes(s.drop_first());
    }
}

/// Appends a byte slice to a vector.
pub fn append_bytes(out: &mut Vec<u8>, s: &[u8])
    ensures
        final(out)@ == old(out)@ + s@,
{
    let mut i: usize = 0;
    while i < s.len()
        invariant
            i <= s@.len(),
            out@ == old(out)@ + s@.take(i as int),
        decreases s@.len() - i,
    {
        let c = s[i];
        out.push(c);
        i = i + 1;
        proof {
            assert(old(out)@ + s@.take(i as int) =~= (old(out)@ + s@.take(i - 1)).push(
                s@[i - 1],
            ));
        }
    }
    proof {
        assert(s@.take(s@.len() as int) =~= s@);
    }
}

/// Whether two byte sequences are equal.
pub fn bytes_eq(a: &[u8], b: &[u8]) -> (r: bool)
    ensures
        r == (a@ == b@),
{
    if a.len() != b.len() {
        return false;
    }
    let mut i: usize = 0;
    while i < a.len()
        invariant
            a@.len() == b@.len(),
            i <= a@.len(),
            forall|j: int| 0 <= j < i as int ==> a@[j] == b@[j],
        decreases a@.len() - i,
    {
        if a[i] != b[i] {
            return false;
        }
        i = i + 1;
    }
    proof {
        assert(a@ =~= b@);
    }
    true
}

/// Whether `a` comes strictly before `b` in lexicographic byte order.
pub fn bytes_before(a: &[u8], b: &[u8]) -> (r: bool)
    ensures
        r == bytes_lt(a@, b@),
{
    let mut i: usize = 0;
    proof {
        assert(a@.subrange(0, a@.len() as int) =~= a@);
        assert(b@.subrange(0, b@.len() as int) =~= b@);
    }
    while i < a.len() && i < b.len() && a[i] == b[i]
        invariant
            i <= a@.len(),
            i <= b@.len(),
            bytes_lt(a@, b@) == bytes_lt(
                a@.subrange(i as int, a@.len() as int),
                b@.subrange(i as int, b@.len() as int),
            ),
        decreases a@.len() - i,
    {
        proof {
            let x = a@.subrange(i as int, a@.len() as int);
            let y = b@.subrange(i as int, b@.len() as int);
            assert(x.first() == a@[i as int] && y.first() == b@[i as int]);
            assert(x.drop_first() =~= a@.subrange(i as int + 1, a@.len() as int));
            assert(y.drop_first() =~= b@.subrange(i as int + 1, b@.len() as int));
        }
        i = i + 1;
    }
    let r = if i < b.len() {
        if i < a.len() {
            a[i] < b[i]
        } else {
            true
        }
    } else {
        false
    };
    proof {
        let x = a@.subrange(i as int, a@.len() as int);
        let y = b@.subrange(i as int, b@.len() as int);
        if i < b@.len() {
            assert(y.first() == b@[i as int]);
            if i < a@.len() {
                assert(x.first() == a@[i as int]);
            }
        }
    }
    r
}

} // verus!
