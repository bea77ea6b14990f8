//! Executable analysis of double frame text: the float grammar and the
//! magnitude threshold beyond which the encoder collapses a value to an
//! infinity marker.
use vstd::prelude::*;

use crate::frame::NEGATIVE_SIGN;
use crate::frame::POSITIVE_SIGN;
use crate::numtext::lemma_digits_val_take_step;
use crate::numtext::lower_ascii;
use crate::numtext::append_bytes;
use crate::numtext::bytes_eq;
use crate::wire::all_digits;
use crate::wire::digits_val;
use crate::wire::find_dot_at;
use crate::wire::find_exp_at;
use crate::wire::float_body;
use crate::wire::inf_word;
use crate::wire::infinity_word;
use crate::wire::is_digit;
use crate::wire::is_exp_part;
use crate::wire::is_float_text;
use crate::wire::is_mantissa;
use crate::wire::is_number_body;
use crate::wire::leading_zeros;
use crate::wire::nan_word;
use crate::wire::number_digits;
use crate::wire::number_exceeds_1e11;
use crate::wire::double_body_bytes;

verus! {

/// Ten to the given power.
pub open spec fn pow10(n: nat) -> int
    decreases n,
{
    if n == 0 {
        1
    } else {
        10 * pow10((n - 1) as nat)
    }
}

/// A digit sequence is worth less than ten to its length.
pub proof fn lemma_digits_val_upper(s: Seq<u8>)
    requires
        all_digits(s),
    ensures
        digits_val(s) < pow10(s.len()),
    decreases s.len(),
{
    if s.len() > 0 {
        assert(all_digits(s.drop_last())) by {
            assert(forall|i: int|
                0 <= i < s.len() - 1 ==> is_digit(#[trigger] s.drop_last()[i]) == is_digit(s[i]));
        }
        lemma_digits_val_upper(s.drop_last());
    }
}

/// A digit sequence with a nonzero first digit is worth at least ten to
/// its length less one.
pub proof fn lemma_digits_val_lower(s: Seq<u8>)
    requires
        all_digits(s),
        s.len() >= 1,
        s[0] != 48,
    ensures
        digits_val(s) >= pow10((s.len() - 1) as nat),
    decreases s.len(),
{
    if s.len() == 1 {
        assert(digits_val(s) == digits_val(s.drop_last()) * 10 + (s.last() - 48));
        assert(s.drop_last() =~= Seq::<u8>::empty());
    } else {
        assert(all_digits(s.drop_last())) by {
            assert(forall|i: int|
                0 <= i < s.len() - 1 ==> is_digit(#[trigger] s.drop_last()[i]) == is_digit(s[i]));
        }
        lemma_digits_val_lower(s.drop_last());
        assert(digits_val(s) == digits_val(s.drop_last()) * 10 + (s.last() - 48));
    }
}

/// Ten to any power is positive.
pub proof fn lemma_pow10_pos(n: nat)
    ensures
        pow10(n) >= 1,
    decreases n,
{
    if n > 0 {
        lemma_pow10_pos((n - 1) as nat);
    }
}

/// Powers of ten grow with the exponent.
pub proof fn lemma_pow10_mono(a: nat, b: nat)
    requires
        a <= b,
    ensures
        pow10(a) <= pow10(b),
        pow10(a) >= 1,
    decreases b,
{
    lemma_pow10_pos(a);
    if a < b {
        lemma_pow10_mono(a, (b - 1) as nat);
    }
}

/// Finds the first exponent letter.
fn find_exp(s: &[u8]) -> (r: Option<usize>)
    ensures
        match find_exp_at(s@, 0) {
            Option::Some(i) => r matches Option::Some(j) && j as int == i && i < s@.len(),
            Option::None => r is None,
        },
        r matches Option::Some(j) ==> j < s@.len(),
{
    let mut i: usize = 0;
    while i < s.len() && s[i] != 101 && s[i] != 69
        invariant
            i <= s@.len(),
            find_exp_at(s@, 0) == find_exp_at(s@, i as int),
        decreases s@.len() - i,
    {
        i = i + 1;
    }
    if i < s.len() {
        Some(i)
    } else {
        None
    }
}

/// Finds the first decimal dot.
fn find_dot(s: &[u8]) -> (r: Option<usize>)
    ensures
        match find_dot_at(s@, 0) {
            Option::Some(i) => r matches Option::Some(j) && j as int == i && i < s@.len(),
            Option::None => r is None,
        },
        r matches Option::Some(j) ==> j < s@.len(),
{
    let mut i: usize = 0;
    while i < s.len() && s[i] != 46
        invariant
            i <= s@.len(),
            find_dot_at(s@, 0) == find_dot_at(s@, i as int),
        decreases s@.len() - i,
    {
        i = i + 1;
    }
    if i < s.len() {
        Some(i)
    } else {
        None
    }
}

/// Whether every byte is a decimal digit.
fn check_all_digits(s: &[u8]) -> (r: bool)
    ensures
        r == all_digits(s@),
{
    let mut i: usize = 0;
    while i < s.len()
        invariant
            i <= s@.len(),
            forall|j: int| 0 <= j < i as int ==> is_digit(#[trigger] s@[j]),
        decreases s@.len() - i,
    {
        if s[i] < 48 || s[i] > 57 {
            return false;
        }
        i = i + 1;
    }
    true
}

/// A digit sequence contains no dot.
proof fn lemma_digits_no_dot(s: Seq<u8>, i: int)
    requires
        all_digits(s),
        0 <= i,
    ensures
        find_dot_at(s, i) is None,
    decreases s.len() - i,
{
    if i < s.len() {
        assert(is_digit(s[i]));
        lemma_digits_no_dot(s, i + 1);
    }
}

/// Whether a byte slice matches the decimal mantissa grammar.
fn check_mantissa(m: &[u8]) -> (r: bool)
    ensures
        r == is_mantissa(m@),
{
    match find_dot(m) {
        Option::None => m.len() >= 1 && check_all_digits(m),
        Option::Some(d) => {
            let mlen = m.len();
            proof {
                assert(d < m@.len());
            }
            let ip = &m[0..d];
            let fp = &m[d + 1..mlen];
            proof {
                assert(ip@ =~= m@.take(d as int));
                assert(fp@ =~= m@.subrange(d as int + 1, m@.len() as int));
            }
            let ip_ok = check_all_digits(ip);
            let fp_ok = check_all_digits(fp);
            if ip_ok && fp_ok {
                proof {
                    lemma_digits_no_dot(fp@, 0);
                }
                ip.len() >= 1 || fp.len() >= 1
            } else {
                false
            }
        },
    }
}

/// Whether a byte slice matches the exponent part grammar.
fn check_exp_part(p: &[u8]) -> (r: bool)
    ensures
        r == is_exp_part(p@),
{
    let start: usize = if p.len() >= 1 && (p[0] == POSITIVE_SIGN || p[0] == NEGATIVE_SIGN) {
        1
    } else {
        0
    };
    let d = &p[start..p.len()];
    proof {
        if start == 1 {
            assert(d@ =~= p@.drop_first());
        } else {
            assert(d@ =~= p@);
        }
    }
    d.len() >= 1 && check_all_digits(d)
}

/// Whether a byte slice matches the number grammar of a float body.
fn check_number_body(b: &[u8]) -> (r: bool)
    ensures
        r == is_number_body(b@),
{
    match find_exp(b) {
        Option::None => check_mantissa(b),
        Option::Some(e) => {
            let blen = b.len();
            proof {
                assert(e < b@.len());
            }
            let m = &b[0..e];
            let p = &b[e + 1..blen];
            proof {
                assert(m@ =~= b@.take(e as int));
                assert(p@ =~= b@.subrange(e as int + 1, b@.len() as int));
            }
            check_mantissa(m) && check_exp_part(p)
        },
    }
}

/// Whether a byte slice matches the float text grammar.
pub fn check_float_text(s: &[u8]) -> (r: bool)
    ensures
        r == is_float_text(s@),
{
    let start: usize = if s.len() >= 1 && (s[0] == POSITIVE_SIGN || s[0] == NEGATIVE_SIGN) {
        1
    } else {
        0
    };
    let b = &s[start..s.len()];
    proof {
        if start == 1 {
            assert(b@ =~= s@.drop_first());
        } else {
            assert(b@ =~= s@);
        }
        assert(b@ == float_body(s@));
    }
    let low = lower_ascii(b);
    let inf3: [u8; 3] = [105, 110, 102];
    let nan3: [u8; 3] = [110, 97, 110];
    let inf8: [u8; 8] = [105, 110, 102, 105, 110, 105, 116, 121];
    proof {
        assert(inf3@ =~= inf_word());
        assert(nan3@ =~= nan_word());
        assert(inf8@ =~= infinity_word());
    }
    if bytes_eq(low.as_slice(), inf3.as_slice()) {
        return true;
    }
    if bytes_eq(low.as_slice(), inf8.as_slice()) {
        return true;
    }
    if bytes_eq(low.as_slice(), nan3.as_slice()) {
        return true;
    }
    check_number_body(b)
}


/// A leading zero does not change the value of a digit sequence.
proof fn lemma_digits_val_drop_zero(s: Seq<u8>)
    requires
        s.len() >= 1,
        s[0] == 48,
    ensures
        digits_val(s) == digits_val(s.drop_first()),
    decreases s.len(),
{
    if s.len() == 1 {
        assert(s.drop_last() =~= Seq::<u8>::empty());
        assert(s.drop_first() =~= Seq::<u8>::empty());
    } else {
        lemma_digits_val_drop_zero(s.drop_last());
        assert(s.drop_last().drop_first() =~= s.drop_first().drop_last());
        assert(s.drop_first().last() == s.last());
    }
}

/// Ten to the twentieth power, written out.
proof fn lemma_pow10_20()
    ensures
        pow10(20) == 100_000_000_000_000_000_000,
{
    reveal_with_fuel(pow10, 21);
}

/// Decides whether a number body denotes a magnitude strictly beyond
/// `1.0e11`, by the order of magnitude of its digits and exponent.
#[verifier::rlimit(100)]
pub fn check_exceeds_1e11(b: &[u8]) -> (r: bool)
    requires
        is_number_body(b@),
    ensures
        r == number_exceeds_1e11(b@),
{
    let blen = b.len();
    // Split off the exponent part.
    let (m, eneg, ehuge, eabs): (&[u8], bool, bool, u128) = match find_exp(b) {
        Option::None => (b, false, false, 0u128),
        Option::Some(i) => {
            let m = &b[0..i];
            let p = &b[i + 1..blen];
            proof {
                assert(m@ =~= b@.take(i as int));
                assert(p@ =~= b@.subrange(i as int + 1, b@.len() as int));
            }
            let estart: usize = if p.len() >= 1 && (p[0] == POSITIVE_SIGN || p[0]
                == NEGATIVE_SIGN) {
                1
            } else {
                0
            };
            let eneg = p.len() >= 1 && p[0] == NEGATIVE_SIGN;
            let ed = &p[estart..p.len()];
            proof {
                if estart == 1 {
                    assert(ed@ =~= p@.drop_first());
                } else {
                    assert(ed@ =~= p@);
                }
                assert(all_digits(ed@) && ed@.len() >= 1);
            }
            // Skip leading zeros of the exponent digits.
            let mut z: usize = 0;
            proof {
                assert(ed@.subrange(0, ed@.len() as int) =~= ed@);
            }
            while z < ed.len() && ed[z] == 48
                invariant
                    z <= ed@.len(),
                    all_digits(ed@),
                    digits_val(ed@) == digits_val(ed@.subrange(z as int, ed@.len() as int)),
                decreases ed@.len() - z,
            {
                proof {
                    let cur = ed@.subrange(z as int, ed@.len() as int);
                    assert(cur[0] == ed@[z as int]);
                    lemma_digits_val_drop_zero(cur);
                    assert(cur.drop_first() =~= ed@.subrange(z as int + 1, ed@.len() as int));
                }
                z = z + 1;
            }
            let edz = &ed[z..ed.len()];
            proof {
                assert(edz@ =~= ed@.subrange(z as int, ed@.len() as int));
                assert(forall|k: int|
                    0 <= k < edz@.len() ==> is_digit(#[trigger] edz@[k]) == is_digit(
                        ed@[z + k],
                    ));
            }
            if edz.len() == 0 {
                proof {
                    assert(digits_val(edz@) == 0);
                }
                (m, eneg, false, 0u128)
            } else if edz.len() > 20 {
                proof {
                    lemma_digits_val_lower(edz@);
                    lemma_pow10_mono(20, (edz@.len() - 1) as nat);
                    lemma_pow10_20();
                }
                (m, eneg, true, 0u128)
            } else {
                // At most twenty digits: the value fits comfortably.
                proof {
                    lemma_digits_val_upper(edz@);
                    lemma_pow10_mono(edz@.len() as nat, 20);
                    lemma_pow10_20();
                }
                let mut acc: u128 = 0;
                let mut j: usize = 0;
                while j < edz.len()
                    invariant
                        j <= edz@.len(),
                        edz@.len() <= 20,
                        all_digits(edz@),
                        acc as int == digits_val(edz@.take(j as int)),
                        (acc as int) < pow10(20),
                        pow10(20) == 100_000_000_000_000_000_000,
                    decreases edz@.len() - j,
                {
                    let c = edz[j];
                    proof {
                        lemma_digits_val_take_step(edz@, j as int);
                        assert(all_digits(edz@.take(j as int + 1))) by {
                            assert(forall|k: int|
                                0 <= k < j + 1 ==> is_digit(
                                    #[trigger] edz@.take(j as int + 1)[k],
                                ) == is_digit(edz@[k]));
                        }
                        lemma_digits_val_upper(edz@.take(j as int + 1));
                        lemma_pow10_mono((j + 1) as nat, 20);
                    }
                    acc = acc * 10 + ((c - 48) as u128);
                    j = j + 1;
                }
                proof {
                    assert(edz@.take(edz@.len() as int) =~= edz@);
                }
                (m, eneg, false, acc)
            }
        },
    };
    let mlen = m.len();
    // Concatenate the digits around the dot.
    let mut c: Vec<u8> = Vec::new();
    let fraclen: usize = match find_dot(m) {
        Option::None => {
            append_bytes(&mut c, m);
            proof {
                assert(Seq::<u8>::empty() + m@ =~= m@);
            }
            0
        },
        Option::Some(d) => {
            let ip = &m[0..d];
            let fp = &m[d + 1..mlen];
            proof {
                assert(ip@ =~= m@.take(d as int));
                assert(fp@ =~= m@.subrange(d as int + 1, m@.len() as int));
            }
            append_bytes(&mut c, ip);
            append_bytes(&mut c, fp);
            proof {
                assert(Seq::<u8>::empty() + ip@ =~= ip@);
            }
            mlen - d - 1
        },
    };
    let ghost spec_c = number_digits(b@).0;
    let ghost spec_f = number_digits(b@).1;
    let ghost spec_e = number_digits(b@).2;
    proof {
        assert(c@ =~= spec_c);
        assert(fraclen as int == spec_f);
        if ehuge {
            if eneg {
                assert(spec_e <= -100_000_000_000_000_000_000);
            } else {
                assert(spec_e >= 100_000_000_000_000_000_000);
            }
        } else {
            assert(spec_e == if eneg {
                -(eabs as int)
            } else {
                eabs as int
            });
        }
    }
    // Skip leading zeros of the digits.
    let mut lz: usize = 0;
    proof {
        assert(c@.subrange(0, c@.len() as int) =~= c@);
    }
    while lz < c.len() && c[lz] == 48
        invariant
            lz <= c@.len(),
            leading_zeros(c@) == lz + leading_zeros(c@.subrange(lz as int, c@.len() as int)),
        decreases c@.len() - lz,
    {
        proof {
            let cur = c@.subrange(lz as int, c@.len() as int);
            assert(cur.first() == c@[lz as int]);
            assert(cur.drop_first() =~= c@.subrange(lz as int + 1, c@.len() as int));
        }
        lz = lz + 1;
    }
    proof {
        let cur = c@.subrange(lz as int, c@.len() as int);
        if lz < c@.len() {
            assert(cur.first() == c@[lz as int]);
        }
        assert(leading_zeros(cur) == 0);
        assert(leading_zeros(c@) == lz as int);
    }
    if lz == c.len() {
        // All digits are zero: the value is zero.
        return false;
    }
    let l: usize = c.len() - lz;
    let ghost spec_m = l as int + spec_e - spec_f;
    if ehuge {
        if eneg {
            proof {
                assert(spec_m < 12);
            }
            return false;
        }
        proof {
            assert(spec_f <= mlen as int);
            assert(spec_m > 12);
            assert(number_exceeds_1e11(b@));
        }
        return true;
    }
    let e128: i128 = if eneg {
        -(eabs as i128)
    } else {
        eabs as i128
    };
    proof {
        assert(l as int <= c@.len());
        assert(c@.len() <= usize::MAX as int);
    }
    let mval: i128 = (l as i128) + e128 - (fraclen as i128);
    proof {
        assert(mval as int == spec_m);
    }
    if mval > 12 {
        proof {
            assert(number_exceeds_1e11(b@));
        }
        return true;
    }
    if mval < 12 {
        return false;
    }
    if c[lz] > 49 {
        proof {
            assert(number_exceeds_1e11(b@));
        }
        return true;
    }
    // First significant digit is one: look for any later nonzero digit.
    let mut j: usize = lz + 1;
    while j < c.len()
        invariant
            lz < j <= c@.len(),
            forall|k: int| lz < k < j as int ==> c@[k] == 48,
            c@ == spec_c,
            fraclen as int == spec_f,
            spec_m == 12,
            spec_m == (c@.len() - lz) + spec_e - spec_f,
            leading_zeros(spec_c) == lz as int,
            spec_c == number_digits(b@).0,
            spec_f == number_digits(b@).1,
            spec_e == number_digits(b@).2,
        decreases c@.len() - j,
    {
        if c[j] != 48 {
            proof {
                assert(spec_c[j as int] != 48);
                assert(number_exceeds_1e11(b@));
            }
            return true;
        }
        j = j + 1;
    }
    proof {
        assert(forall|k: int| lz < k < spec_c.len() ==> spec_c[k] == 48);
    }
    false
}


/// Renders the body of a double frame: NaN and out-of-range magnitudes
/// collapse to their markers, all other texts pass through unchanged.
pub fn render_double_body(s: &[u8]) -> (r: Vec<u8>)
    ensures
        r@ == double_body_bytes(s@),
{
    let slen = s.len();
    let start: usize = if s.len() >= 1 && (s[0] == POSITIVE_SIGN || s[0] == NEGATIVE_SIGN) {
        1
    } else {
        0
    };
    let neg = s.len() >= 1 && s[0] == NEGATIVE_SIGN;
    let b = &s[start..slen];
    proof {
        if start == 1 {
            assert(b@ =~= s@.drop_first());
        } else {
            assert(b@ =~= s@);
        }
        assert(b@ == float_body(s@));
    }
    let low = lower_ascii(b);
    let inf3: [u8; 3] = [105, 110, 102];
    let nan3: [u8; 3] = [110, 97, 110];
    let inf8: [u8; 8] = [105, 110, 102, 105, 110, 105, 116, 121];
    proof {
        assert(inf3@ =~= inf_word());
        assert(nan3@ =~= nan_word());
        assert(inf8@ =~= infinity_word());
    }
    if bytes_eq(low.as_slice(), nan3.as_slice()) {
        let mut v: Vec<u8> = Vec::new();
        v.push(110);
        v.push(97);
        v.push(110);
        proof {
            assert(v@ =~= nan_word());
        }
        return v;
    }
    let inf_like = if bytes_eq(low.as_slice(), inf3.as_slice()) || bytes_eq(
        low.as_slice(),
        inf8.as_slice(),
    ) {
        true
    } else if check_number_body(b) {
        check_exceeds_1e11(b)
    } else {
        false
    };
    if inf_like {
        let mut v: Vec<u8> = Vec::new();
        if neg {
            v.push(NEGATIVE_SIGN);
        }
        v.push(105);
        v.push(110);
        v.push(102);
        proof {
            if neg {
                assert(v@ =~= seq![NEGATIVE_SIGN] + inf_word());
            } else {
                assert(v@ =~= inf_word());
            }
        }
        return v;
    }
    let mut v: Vec<u8> = Vec::new();
    append_bytes(&mut v, s);
    proof {
        assert(Seq::<u8>::empty() + s@ =~= s@);
    }
    v
}

} // verus!
