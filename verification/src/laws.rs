//! The laws of the wire format: a well-formedness notion for frames, and
//! the round-trip theorem — decoding a canonical encoding reproduces the
//! frame exactly and consumes exactly its span.
use vstd::prelude::*;

use crate::frame::ASTERISK;
use crate::frame::COLON;
use crate::frame::COMMA;
use crate::frame::CR;
use crate::frame::DOLLAR;
use crate::frame::EXCLAMATION_MARK;
use crate::frame::FALSE;
use crate::frame::FrameSpec;
use crate::frame::LF;
use crate::frame::NEGATIVE_SIGN;
use crate::frame::PERCENT_SIGN;
use crate::frame::POND_SIGN;
use crate::frame::POSITIVE_SIGN;
use crate::frame::TILDE_SIGN;
use crate::frame::TRUE;
use crate::frame::UNDERLINE;
use crate::wire::LenOut;
use crate::wire::Parsed;
use crate::wire::ParsedEntries;
use crate::wire::ParsedSeq;
use crate::wire::SimpleOut;
use crate::wire::all_digits;
use crate::wire::calc_elems;
use crate::wire::calc_entries;
use crate::wire::calc_len;
use crate::wire::crlf;
use crate::wire::dec_digits;
use crate::wire::double_body_bytes;
use crate::wire::encoded;
use crate::wire::encoded_entries;
use crate::wire::encoded_seq;
use crate::wire::entries_sorted;
use crate::wire::find_crlf_from;
use crate::wire::int_text;
use crate::wire::is_digit;
use crate::wire::is_float_text;
use crate::wire::is_ws;
use crate::wire::key_lt;
use crate::wire::map_from_pairs;
use crate::wire::map_insert;
use crate::wire::null_array_literal;
use crate::wire::null_bulk_literal;
use crate::wire::null_literal;
use crate::wire::parse_elems;
use crate::wire::parse_entries;
use crate::wire::parse_frame;
use crate::wire::parse_i64_bytes;
use crate::wire::parse_usize_bytes;
use crate::wire::scan_simple;
use crate::wire::tail_at;
use crate::wire::text_of_bytes;
use crate::wire::trim_bytes;
use crate::wire::trim_end_bytes;
use crate::wire::trim_start_bytes;
use crate::numtext::lemma_dec_digits_val;
use vstd::utf8::encode_utf8;

verus! {

/// Whether the byte sequence holds a terminator pair anywhere.
pub open spec fn has_crlf(b: Seq<u8>) -> bool {
    exists|i: int| 0 <= i < b.len() - 1 && b[i] == CR && #[trigger] b[i + 1] == LF
}

/// A constructible frame whose canonical encoding decodes back to it:
/// simple texts and map keys hold no terminator pair, map keys are
/// strictly ascending, a double text is canonical and uncollapsed, and
/// every span fits in one machine word.
pub open spec fn wf(f: FrameSpec) -> bool
    decreases f,
{
    &&& encoded(f).len() <= usize::MAX as int
    &&& match f {
        FrameSpec::SimpleString(s) => !has_crlf(encode_utf8(s)),
        FrameSpec::SimpleError(s) => !has_crlf(encode_utf8(s)),
        FrameSpec::Integer(n) => true,
        FrameSpec::BulkString(p) => true,
        FrameSpec::NullBulkString => true,
        FrameSpec::Arrays(fs) => wf_seq(fs),
        FrameSpec::NullArray => true,
        FrameSpec::Null => true,
        FrameSpec::Booleans(v) => true,
        FrameSpec::Doubles(t) => is_float_text(encode_utf8(t)) && double_body_bytes(
            encode_utf8(t),
        ) == encode_utf8(t),
        FrameSpec::BulkErrors(p) => true,
        FrameSpec::Maps(es) => entries_sorted(es) && wf_entries(es),
        FrameSpec::Sets(fs) => wf_seq(fs),
    }
}

/// Well-formedness of every frame of a sequence.
pub open spec fn wf_seq(fs: Seq<FrameSpec>) -> bool
    decreases fs,
{
    if fs.len() == 0 {
        true
    } else {
        wf(fs.first()) && wf_seq(fs.drop_first())
    }
}

/// Well-formedness of every entry of a map: keys without terminator
/// pairs, values well formed.
pub open spec fn wf_entries(es: Seq<(Seq<char>, FrameSpec)>) -> bool
    decreases es,
{
    if es.len() == 0 {
        true
    } else {
        !has_crlf(encode_utf8(es.first().0)) && wf(es.first().1) && wf_entries(es.drop_first())
    }
}

/// The terminator scan on a marker, a pair-free payload, the terminator
/// and anything after it finds exactly the payload.
pub proof fn lemma_scan_of_encoded(marker: u8, pb: Seq<u8>, rest: Seq<u8>)
    requires
        !has_crlf(pb),
    ensures
        ({
            let b = seq![marker] + pb + crlf() + rest;
            scan_simple(b, marker) == (SimpleOut::Pay { payload: pb, end: 1 + pb.len() as int })
        }),
{
    let b = seq![marker] + pb + crlf() + rest;
    assert(b.len() >= 3 && b[0] == marker);
    assert(b[1 + pb.len() as int] == CR && b[1 + pb.len() as int + 1] == LF);
    lemma_find_from_exact(b, pb, 1);
    assert(b.subrange(1, 1 + pb.len() as int) =~= pb);
}

/// The scan from any position within the payload region reaches the
/// terminator.
proof fn lemma_find_from_exact(b: Seq<u8>, pb: Seq<u8>, i: int)
    requires
        1 <= i <= 1 + pb.len(),
        b.len() >= 3 + pb.len(),
        forall|j: int| 0 <= j < pb.len() ==> b[j + 1] == #[trigger] pb[j],
        b[1 + pb.len() as int] == CR,
        b[1 + pb.len() as int + 1] == LF,
        !has_crlf(pb),
    ensures
        find_crlf_from(b, i) == Option::Some(1 + pb.len() as int),
    decreases 2 + pb.len() - i,
{
    let pos = 1 + pb.len() as int;
    if i == pos {
        assert(b[i] == CR && b[i + 1] == LF);
    } else {
        assert(!(b[i] == CR && b[i + 1] == LF)) by {
            if b[i] == CR && b[i + 1] == LF {
                if i + 1 < pos {
                    assert(pb[i - 1] == CR && pb[i - 1 + 1] == LF);
                    assert(has_crlf(pb));
                } else {
                    assert(i + 1 == pos);
                    assert(b[i + 1] == pb[i]);
                    assert(pb[i] == LF && b[pos] == CR);
                }
            }
        }
        lemma_find_from_exact(b, pb, i + 1);
    }
}

/// Decimal digits hold no terminator byte and no whitespace.
pub proof fn lemma_digits_plain(s: Seq<u8>)
    requires
        all_digits(s),
    ensures
        !has_crlf(s),
        forall|i: int| 0 <= i < s.len() ==> !is_ws(#[trigger] s[i]),
{
    assert(forall|i: int| 0 <= i < s.len() ==> is_digit(#[trigger] s[i]));
    assert(!has_crlf(s)) by {
        if has_crlf(s) {
            let i = choose|i: int| 0 <= i < s.len() - 1 && s[i] == CR && #[trigger] s[i + 1] == LF;
            assert(is_digit(s[i]));
        }
    }
}

/// The count rendering parses back to the count.
pub proof fn lemma_parse_usize_of_dec(n: int)
    requires
        0 <= n <= usize::MAX as int,
    ensures
        parse_usize_bytes(dec_digits(n)) == Option::Some(n),
{
    lemma_dec_digits_val(n);
    let d = dec_digits(n);
    assert(d[0] != POSITIVE_SIGN) by {
        assert(is_digit(d[0]));
    }
}

/// The sign-and-magnitude rendering of an integer parses back to it.
pub proof fn lemma_parse_i64_of_text(n: i64)
    ensures
        parse_i64_bytes(int_text(n)) == Option::Some(n),
        !has_crlf(int_text(n)),
        trim_bytes(int_text(n)) == int_text(n),
{
    let t = int_text(n);
    let mag = if n < 0 {
        -(n as int)
    } else {
        n as int
    };
    lemma_dec_digits_val(mag);
    let d = dec_digits(mag);
    assert(t.drop_first() =~= d);
    assert(t[0] == POSITIVE_SIGN || t[0] == NEGATIVE_SIGN);
    assert(!has_crlf(t)) by {
        lemma_digits_plain(d);
        if has_crlf(t) {
            let i = choose|i: int| 0 <= i < t.len() - 1 && t[i] == CR && #[trigger] t[i + 1] == LF;
            if i >= 1 {
                assert(is_digit(d[i - 1]));
            }
        }
    }
    lemma_trim_plain(t);
}

/// Trimming leaves a sequence without whitespace at either end unchanged.
pub proof fn lemma_trim_plain(s: Seq<u8>)
    requires
        forall|i: int| 0 <= i < s.len() ==> !is_ws(#[trigger] s[i]),
    ensures
        trim_bytes(s) == s,
{
    if s.len() > 0 {
        assert(!is_ws(s.first()));
        assert(!is_ws(s.last()));
    }
    assert(trim_start_bytes(s) == s);
    assert(trim_end_bytes(s) == s);
}

/// A float text holds neither terminator bytes nor whitespace.
pub proof fn lemma_float_text_plain(s: Seq<u8>)
    requires
        is_float_text(s),
    ensures
        !has_crlf(s),
        forall|i: int| 0 <= i < s.len() ==> !is_ws(#[trigger] s[i]),
{
    let b = crate::wire::float_body(s);
    assert(forall|i: int| 0 <= i < b.len() ==> !is_ws(#[trigger] b[i]) && b[i] != CR && b[i] != LF)
        by {
        lemma_float_body_plain(b);
    }
    assert forall|i: int| 0 <= i < s.len() implies !is_ws(#[trigger] s[i]) && s[i] != CR && s[i]
        != LF by {
        if s.len() >= 1 && (s[0] == POSITIVE_SIGN || s[0] == NEGATIVE_SIGN) {
            if i >= 1 {
                assert(s[i] == b[i - 1]);
            }
        } else {
            assert(s[i] == b[i]);
        }
    }
    assert(!has_crlf(s)) by {
        if has_crlf(s) {
            let i = choose|i: int| 0 <= i < s.len() - 1 && s[i] == CR && #[trigger] s[i + 1] == LF;
        }
    }
}

/// The body of a float text consists of word letters, digits, dots, signs
/// and exponent letters only.
#[verifier::rlimit(100)]
proof fn lemma_float_body_plain(b: Seq<u8>)
    requires
        crate::wire::lower_bytes(b) == crate::wire::inf_word() || crate::wire::lower_bytes(b)
            == crate::wire::infinity_word() || crate::wire::lower_bytes(b)
            == crate::wire::nan_word() || crate::wire::is_number_body(b),
    ensures
        forall|i: int| 0 <= i < b.len() ==> !is_ws(#[trigger] b[i]) && b[i] != CR && b[i] != LF,
{
    crate::numtext::lemma_lower_bytes(b);
    if crate::wire::lower_bytes(b) == crate::wire::inf_word() || crate::wire::lower_bytes(b)
        == crate::wire::infinity_word() || crate::wire::lower_bytes(b)
        == crate::wire::nan_word() {
        assert forall|i: int| 0 <= i < b.len() implies !is_ws(#[trigger] b[i]) && b[i] != CR
            && b[i] != LF by {
            assert(crate::wire::lower_bytes(b)[i] == crate::wire::lower_byte(b[i]));
            assert(crate::wire::lower_byte(b[i]) >= 97);
        }
    } else {
        let (m, p): (Seq<u8>, Seq<u8>) = match crate::wire::find_exp_at(b, 0) {
            Option::None => (b, Seq::<u8>::empty()),
            Option::Some(e) => (b.take(e), b.subrange(e + 1, b.len() as int)),
        };
        lemma_find_exp_bounds(b, 0);
        assert forall|i: int| 0 <= i < b.len() implies !is_ws(#[trigger] b[i]) && b[i] != CR
            && b[i] != LF by {
            match crate::wire::find_exp_at(b, 0) {
                Option::None => {
                    lemma_mantissa_plain(b);
                    assert(b[i] != CR && b[i] != LF && !is_ws(b[i]));
                },
                Option::Some(e) => {
                    lemma_mantissa_plain(m);
                    if i < e {
                        assert(b[i] == m[i]);
                        assert(m[i] != CR && m[i] != LF && !is_ws(m[i]));
                    } else if i == e {
                        assert(b[i] == 101 || b[i] == 69);
                    } else {
                        assert(b[i] == p[i - e - 1]);
                        let d = if p.len() >= 1 && (p[0] == POSITIVE_SIGN || p[0]
                            == NEGATIVE_SIGN) {
                            p.drop_first()
                        } else {
                            p
                        };
                        if p.len() >= 1 && (p[0] == POSITIVE_SIGN || p[0] == NEGATIVE_SIGN) && i
                            == e + 1 {
                            assert(b[i] == POSITIVE_SIGN || b[i] == NEGATIVE_SIGN);
                        } else {
                            if p.len() >= 1 && (p[0] == POSITIVE_SIGN || p[0] == NEGATIVE_SIGN) {
                                assert(p[i - e - 1] == d[i - e - 2]);
                            } else {
                                assert(p[i - e - 1] == d[i - e - 1]);
                            }
                            assert(crate::wire::all_digits(d));
                        }
                    }
                },
            }
        }
    }
}

/// A found exponent letter lies within the buffer and is the letter.
proof fn lemma_find_exp_bounds(b: Seq<u8>, i: int)
    requires
        0 <= i,
    ensures
        crate::wire::find_exp_at(b, i) matches Option::Some(e) ==> i <= e < b.len() && (b[e]
            == 101 || b[e] == 69),
    decreases b.len() - i,
{
    if i < b.len() && !(b[i] == 101 || b[i] == 69) {
        lemma_find_exp_bounds(b, i + 1);
    }
}

/// A found dot lies within the buffer.
proof fn lemma_find_dot_bounds(b: Seq<u8>, i: int)
    requires
        0 <= i,
    ensures
        crate::wire::find_dot_at(b, i) matches Option::Some(e) ==> i <= e < b.len() && b[e] == 46,
    decreases b.len() - i,
{
    if i < b.len() && b[i] != 46 {
        lemma_find_dot_bounds(b, i + 1);
    }
}

/// A mantissa consists of digits and at most one dot.
proof fn lemma_mantissa_plain(m: Seq<u8>)
    requires
        crate::wire::is_mantissa(m),
    ensures
        forall|i: int| 0 <= i < m.len() ==> !is_ws(#[trigger] m[i]) && m[i] != CR && m[i] != LF,
{
    lemma_find_dot_bounds(m, 0);
    assert forall|i: int| 0 <= i < m.len() implies !is_ws(#[trigger] m[i]) && m[i] != CR && m[i]
        != LF by {
        match crate::wire::find_dot_at(m, 0) {
            Option::None => {
                assert(is_digit(m[i]));
            },
            Option::Some(d) => {
                if i < d {
                    assert(m.take(d)[i] == m[i]);
                    assert(is_digit(m.take(d)[i]));
                } else if i == d {
                    assert(m[i] == 46);
                } else {
                    assert(m.subrange(d + 1, m.len() as int)[i - d - 1] == m[i]);
                    assert(is_digit(m.subrange(d + 1, m.len() as int)[i - d - 1]));
                }
            },
        }
    }
}

/// Byte order is irreflexive and asymmetric.
pub proof fn lemma_bytes_lt_asym(a: Seq<u8>, b: Seq<u8>)
    requires
        crate::wire::bytes_lt(a, b),
    ensures
        !crate::wire::bytes_lt(b, a),
        a != b,
    decreases a.len(),
{
    if a.len() > 0 && b.len() > 0 && a.first() == b.first() {
        lemma_bytes_lt_asym(a.drop_first(), b.drop_first());
        assert(a != b) by {
            if a == b {
                assert(a.drop_first() =~= b.drop_first());
            }
        }
    }
}

/// Inserting an entry whose key orders after every present key appends
/// it.
proof fn lemma_map_insert_at_end(es: Seq<(Seq<char>, FrameSpec)>, k: Seq<char>, v: FrameSpec)
    requires
        forall|i: int| 0 <= i < es.len() ==> key_lt(#[trigger] es[i].0, k),
    ensures
        map_insert(es, k, v) == es.push((k, v)),
    decreases es.len(),
{
    if es.len() == 0 {
        assert(map_insert(es, k, v) =~= es.push((k, v)));
    } else {
        assert(key_lt(es[0].0, k));
        lemma_bytes_lt_asym(encode_utf8(es[0].0), encode_utf8(k));
        assert(!key_lt(k, es.first().0));
        assert(k != es.first().0) by {
            if k == es.first().0 {
                assert(encode_utf8(k) == encode_utf8(es[0].0));
                assert(crate::wire::bytes_lt(encode_utf8(es[0].0), encode_utf8(k)));
            }
        }
        assert(forall|i: int|
            0 <= i < es.drop_first().len() ==> key_lt(#[trigger] es.drop_first()[i].0, k));
        lemma_map_insert_at_end(es.drop_first(), k, v);
        assert(map_insert(es, k, v) =~= es.push((k, v)));
    }
}

/// Folding a strictly ascending entry sequence through insertion
/// reproduces it: the encoder's source order is already the map order.
pub proof fn lemma_map_from_sorted(es: Seq<(Seq<char>, FrameSpec)>)
    requires
        entries_sorted(es),
    ensures
        map_from_pairs(es) == es,
    decreases es.len(),
{
    if es.len() > 0 {
        let head = es.drop_last();
        assert(entries_sorted(head)) by {
            assert(forall|i: int, j: int|
                0 <= i < j < head.len() ==> key_lt(#[trigger] head[i].0, #[trigger] head[j].0))
                by {
                assert(forall|i: int| 0 <= i < head.len() ==> head[i] == es[i]);
            }
        }
        lemma_map_from_sorted(head);
        assert(forall|i: int| 0 <= i < head.len() ==> key_lt(#[trigger] head[i].0, es.last().0))
            by {
            assert(forall|i: int| 0 <= i < head.len() ==> head[i] == es[i]);
        }
        lemma_map_insert_at_end(head, es.last().0, es.last().1);
        assert(head.push((es.last().0, es.last().1)) =~= es);
    }
}


/// One encoding spans at least one byte, a sequence of them at least as
/// many bytes as frames.
pub proof fn lemma_seq_count_bound(fs: Seq<FrameSpec>)
    ensures
        encoded_seq(fs).len() >= fs.len(),
    decreases fs,
{
    if fs.len() > 0 {
        assert(encoded(fs.first()).len() >= 1) by {
            lemma_encoded_min(fs.first());
        }
        lemma_seq_count_bound(fs.drop_first());
    }
}

/// Entry encodings span at least as many bytes as entries.
pub proof fn lemma_entries_count_bound(es: Seq<(Seq<char>, FrameSpec)>)
    ensures
        encoded_entries(es).len() >= es.len(),
    decreases es,
{
    if es.len() > 0 {
        lemma_entries_count_bound(es.drop_first());
    }
}

/// Every encoding starts with its marker byte, so it is never empty.
pub proof fn lemma_encoded_min(f: FrameSpec)
    ensures
        encoded(f).len() >= 1,
{
}

/// On a canonical encoding followed by anything, the length calculator
/// finds exactly the encoding's span.
#[verifier::rlimit(100)]
pub proof fn lemma_calc_of_encoded(f: FrameSpec, rest: Seq<u8>)
    requires
        wf(f),
    ensures
        calc_len(encoded(f) + rest) == LenOut::Len(encoded(f).len() as int),
    decreases f,
{
    let b = encoded(f) + rest;
    match f {
        FrameSpec::SimpleString(s) => {
            assert(b =~= seq![POSITIVE_SIGN] + encode_utf8(s) + crlf() + rest);
            lemma_scan_of_encoded(POSITIVE_SIGN, encode_utf8(s), rest);
        },
        FrameSpec::SimpleError(s) => {
            assert(b =~= seq![NEGATIVE_SIGN] + encode_utf8(s) + crlf() + rest);
            lemma_scan_of_encoded(NEGATIVE_SIGN, encode_utf8(s), rest);
        },
        FrameSpec::Integer(n) => {
            assert(b =~= seq![COLON] + int_text(n) + crlf() + rest);
            lemma_parse_i64_of_text(n);
            lemma_scan_of_encoded(COLON, int_text(n), rest);
        },
        FrameSpec::Booleans(v) => {
            let pb = seq![if v { TRUE } else { FALSE }];
            assert(b =~= seq![POND_SIGN] + pb + crlf() + rest);
            assert(!has_crlf(pb));
            lemma_scan_of_encoded(POND_SIGN, pb, rest);
        },
        FrameSpec::Doubles(t) => {
            assert(b =~= seq![COMMA] + encode_utf8(t) + crlf() + rest);
            lemma_float_text_plain(encode_utf8(t));
            lemma_scan_of_encoded(COMMA, encode_utf8(t), rest);
        },
        FrameSpec::Null => {
            let pb = Seq::<u8>::empty();
            assert(b =~= seq![UNDERLINE] + pb + crlf() + rest);
            assert(!has_crlf(pb));
            lemma_scan_of_encoded(UNDERLINE, pb, rest);
        },
        FrameSpec::NullBulkString => {
            let pb = seq![NEGATIVE_SIGN, 49u8];
            assert(b =~= seq![DOLLAR] + pb + crlf() + rest);
            assert(!has_crlf(pb));
            lemma_scan_of_encoded(DOLLAR, pb, rest);
            assert(parse_usize_bytes(pb) is None) by {
                assert(!is_digit(pb[0]));
            }
            assert(b.take(5) =~= null_bulk_literal());
        },
        FrameSpec::NullArray => {
            let pb = seq![NEGATIVE_SIGN, 49u8];
            assert(b =~= seq![ASTERISK] + pb + crlf() + rest);
            assert(!has_crlf(pb));
            lemma_scan_of_encoded(ASTERISK, pb, rest);
            assert(parse_usize_bytes(pb) is None) by {
                assert(!is_digit(pb[0]));
            }
            assert(b.take(5) =~= null_array_literal());
        },
        FrameSpec::BulkString(p) => {
            let dd = dec_digits(p.len() as int);
            lemma_digits_ok(p.len() as int);
            assert(b =~= seq![DOLLAR] + dd + crlf() + (p + crlf() + rest));
            lemma_scan_of_encoded(DOLLAR, dd, p + crlf() + rest);
            lemma_parse_usize_of_dec(p.len() as int);
        },
        FrameSpec::BulkErrors(p) => {
            let dd = dec_digits(p.len() as int);
            lemma_digits_ok(p.len() as int);
            assert(b =~= seq![EXCLAMATION_MARK] + dd + crlf() + (p + crlf() + rest));
            lemma_scan_of_encoded(EXCLAMATION_MARK, dd, p + crlf() + rest);
            lemma_parse_usize_of_dec(p.len() as int);
        },
        FrameSpec::Arrays(fs) => {
            lemma_seq_count_bound(fs);
            lemma_calc_of_encoded_agg(ASTERISK, fs, rest);
        },
        FrameSpec::Sets(fs) => {
            lemma_seq_count_bound(fs);
            lemma_calc_of_encoded_agg(TILDE_SIGN, fs, rest);
        },
        FrameSpec::Maps(es) => {
            let dd = dec_digits(es.len() as int);
            lemma_digits_ok(es.len() as int);
            lemma_entries_count_bound(es);
            assert(b =~= seq![PERCENT_SIGN] + dd + crlf() + (encoded_entries(es) + rest));
            lemma_scan_of_encoded(PERCENT_SIGN, dd, encoded_entries(es) + rest);
            lemma_parse_usize_of_dec(es.len() as int);
            let end = 1 + dd.len() as int;
            assert(tail_at(b, end + 2) =~= encoded_entries(es) + rest);
            lemma_calc_of_entries(es, rest);
        },
    }
}

/// The aggregate case of [`lemma_calc_of_encoded`], shared by arrays and
/// sets.
#[verifier::rlimit(100)]
proof fn lemma_calc_of_encoded_agg(marker: u8, fs: Seq<FrameSpec>, rest: Seq<u8>)
    requires
        marker == ASTERISK || marker == TILDE_SIGN,
        wf_seq(fs),
        fs.len() <= usize::MAX as int,
        encoded_seq(fs).len() + 3 + dec_digits(fs.len() as int).len() <= usize::MAX as int,
    ensures
        ({
            let enc = seq![marker] + dec_digits(fs.len() as int) + crlf() + encoded_seq(fs);
            calc_len(enc + rest) == LenOut::Len(enc.len() as int)
        }),
    decreases fs, 1int,
{
    let dd = dec_digits(fs.len() as int);
    lemma_digits_ok(fs.len() as int);
    let enc = seq![marker] + dd + crlf() + encoded_seq(fs);
    let b = enc + rest;
    assert(b =~= seq![marker] + dd + crlf() + (encoded_seq(fs) + rest));
    lemma_scan_of_encoded(marker, dd, encoded_seq(fs) + rest);
    lemma_parse_usize_of_dec(fs.len() as int);
    let end = 1 + dd.len() as int;
    assert(tail_at(b, end + 2) =~= encoded_seq(fs) + rest);
    lemma_encoded_seq_nonneg(fs);
    lemma_calc_of_elems(fs, rest);
}

/// The digit rendering of a nonnegative count is digits without a
/// terminator pair.
pub proof fn lemma_digits_ok(n: int)
    requires
        n >= 0,
    ensures
        all_digits(dec_digits(n)),
        !has_crlf(dec_digits(n)),
        dec_digits(n).len() >= 1,
{
    lemma_dec_digits_val(n);
    lemma_digits_plain(dec_digits(n));
}

/// The concatenated encodings of frames are at least three bytes each.
pub proof fn lemma_encoded_seq_nonneg(fs: Seq<FrameSpec>)
    ensures
        encoded_seq(fs).len() >= 0,
{
}

/// The concatenated encodings of entries have nonnegative length.
pub proof fn lemma_encoded_entries_nonneg(es: Seq<(Seq<char>, FrameSpec)>)
    ensures
        encoded_entries(es).len() >= 0,
{
}

/// The length calculator walks the concatenated encodings of a frame
/// sequence to exactly their total span.
#[verifier::rlimit(100)]
pub proof fn lemma_calc_of_elems(fs: Seq<FrameSpec>, rest: Seq<u8>)
    requires
        wf_seq(fs),
        encoded_seq(fs).len() <= usize::MAX as int,
    ensures
        calc_elems(encoded_seq(fs) + rest, fs.len() as int) == LenOut::Len(
            encoded_seq(fs).len() as int,
        ),
    decreases fs, 0int,
{
    if fs.len() == 0 {
        assert(encoded_seq(fs) + rest =~= rest);
    } else {
        let f0 = fs.first();
        let tailfs = fs.drop_first();
        let b = encoded_seq(fs) + rest;
        assert(b =~= encoded(f0) + (encoded_seq(tailfs) + rest));
        assert(encoded(f0).len() <= usize::MAX as int && wf(f0));
        lemma_calc_of_encoded(f0, encoded_seq(tailfs) + rest);
        assert(tail_at(b, encoded(f0).len() as int) =~= encoded_seq(tailfs) + rest);
        lemma_calc_of_elems(tailfs, rest);
    }
}

/// The length calculator walks the concatenated encodings of map entries
/// to exactly their total span.
#[verifier::rlimit(100)]
pub proof fn lemma_calc_of_entries(es: Seq<(Seq<char>, FrameSpec)>, rest: Seq<u8>)
    requires
        wf_entries(es),
        encoded_entries(es).len() <= usize::MAX as int,
    ensures
        calc_entries(encoded_entries(es) + rest, es.len() as int) == LenOut::Len(
            encoded_entries(es).len() as int,
        ),
    decreases es, 0int,
{
    if es.len() == 0 {
        assert(encoded_entries(es) + rest =~= rest);
    } else {
        let k = es.first().0;
        let v = es.first().1;
        let taile = es.drop_first();
        let kb = encode_utf8(k);
        let kenc = seq![POSITIVE_SIGN] + kb + crlf();
        let b = encoded_entries(es) + rest;
        assert(b =~= seq![POSITIVE_SIGN] + kb + crlf() + (encoded(v) + (encoded_entries(taile)
            + rest)));
        lemma_scan_of_encoded(POSITIVE_SIGN, kb, encoded(v) + (encoded_entries(taile) + rest));
        let end = 1 + kb.len() as int;
        assert(tail_at(b, end + 2) =~= encoded(v) + (encoded_entries(taile) + rest));
        lemma_calc_of_encoded(v, encoded_entries(taile) + rest);
        assert(tail_at(b, end + 2 + encoded(v).len()) =~= encoded_entries(taile) + rest);
        lemma_calc_of_entries(taile, rest);
    }
}


/// A seven-bit character encodes as the single byte of its code.
pub proof fn lemma_encode_ascii_char(c: char)
    requires
        c as u32 <= 0x7F,
    ensures
        encode_utf8(seq![c]) == seq![(c as u32) as u8],
{
    let cv = c as u32;
    assert(cv <= 0x7F ==> cv & 0x7F == cv) by (bit_vector);
    assert(seq![c].drop_first() =~= Seq::<char>::empty());
    assert(encode_utf8(seq![c]) =~= vstd::utf8::encode_scalar(cv) + encode_utf8(
        Seq::<char>::empty(),
    ));
    assert(encode_utf8(seq![c]) =~= seq![(cv) as u8]);
}

/// Round trip: on the canonical encoding of a well-formed frame followed
/// by anything, the parser reproduces the frame exactly and consumes
/// exactly the encoding's span — nothing before, nothing after it.
#[verifier::rlimit(100)]
pub proof fn lemma_round_trip(f: FrameSpec, rest: Seq<u8>)
    requires
        wf(f),
    ensures
        parse_frame(encoded(f) + rest) == Parsed::Done(f, encoded(f).len() as int),
    decreases f,
{
    broadcast use vstd::utf8::encode_utf8_valid_utf8;
    broadcast use vstd::utf8::encode_utf8_decode_utf8;

    let b = encoded(f) + rest;
    match f {
        FrameSpec::SimpleString(s) => {
            assert(b =~= seq![POSITIVE_SIGN] + encode_utf8(s) + crlf() + rest);
            lemma_scan_of_encoded(POSITIVE_SIGN, encode_utf8(s), rest);
            assert(text_of_bytes(encode_utf8(s)) == s);
        },
        FrameSpec::SimpleError(s) => {
            assert(b =~= seq![NEGATIVE_SIGN] + encode_utf8(s) + crlf() + rest);
            lemma_scan_of_encoded(NEGATIVE_SIGN, encode_utf8(s), rest);
            assert(text_of_bytes(encode_utf8(s)) == s);
        },
        FrameSpec::Integer(n) => {
            assert(b =~= seq![COLON] + int_text(n) + crlf() + rest);
            lemma_parse_i64_of_text(n);
            lemma_scan_of_encoded(COLON, int_text(n), rest);
        },
        FrameSpec::Booleans(v) => {
            let pb = seq![if v { TRUE } else { FALSE }];
            assert(b =~= seq![POND_SIGN] + pb + crlf() + rest);
            assert(!has_crlf(pb));
            lemma_scan_of_encoded(POND_SIGN, pb, rest);
            lemma_encode_ascii_char('t');
            lemma_encode_ascii_char('f');
            assert(encode_utf8(seq!['t']) =~= seq![TRUE]);
            assert(encode_utf8(seq!['f']) =~= seq![FALSE]);
            assert(text_of_bytes(seq![TRUE]) == seq!['t']);
            assert(text_of_bytes(seq![FALSE]) == seq!['f']);
            if v {
                assert(text_of_bytes(pb) == seq!['t']);
            } else {
                assert(text_of_bytes(pb) == seq!['f']);
                assert(seq!['f'] != seq!['t']) by {
                    assert(seq!['f'][0] == 'f' && seq!['t'][0] == 't');
                }
            }
        },
        FrameSpec::Doubles(t) => {
            assert(b =~= seq![COMMA] + encode_utf8(t) + crlf() + rest);
            lemma_float_text_plain(encode_utf8(t));
            lemma_scan_of_encoded(COMMA, encode_utf8(t), rest);
            lemma_trim_plain(encode_utf8(t));
            assert(text_of_bytes(encode_utf8(t)) == t);
        },
        FrameSpec::Null => {
            assert(b.take(3) =~= null_literal());
        },
        FrameSpec::NullBulkString => {
            let pb = seq![NEGATIVE_SIGN, 49u8];
            assert(b =~= seq![DOLLAR] + pb + crlf() + rest);
            assert(!has_crlf(pb));
            lemma_scan_of_encoded(DOLLAR, pb, rest);
            assert(parse_usize_bytes(pb) is None) by {
                assert(!is_digit(pb[0]));
            }
            assert(b.take(5) =~= null_bulk_literal());
        },
        FrameSpec::NullArray => {
            let pb = seq![NEGATIVE_SIGN, 49u8];
            assert(b =~= seq![ASTERISK] + pb + crlf() + rest);
            assert(!has_crlf(pb));
            lemma_scan_of_encoded(ASTERISK, pb, rest);
            assert(parse_usize_bytes(pb) is None) by {
                assert(!is_digit(pb[0]));
            }
            assert(b.take(5) =~= null_array_literal());
        },
        FrameSpec::BulkString(p) => {
            let dd = dec_digits(p.len() as int);
            lemma_digits_ok(p.len() as int);
            assert(b =~= seq![DOLLAR] + dd + crlf() + (p + crlf() + rest));
            lemma_scan_of_encoded(DOLLAR, dd, p + crlf() + rest);
            lemma_parse_usize_of_dec(p.len() as int);
            let end = 1 + dd.len() as int;
            assert(b.len() - (end + 2) >= p.len() + 2);
            assert(b.subrange(end + 2, end + 2 + p.len()) =~= p);
        },
        FrameSpec::BulkErrors(p) => {
            let dd = dec_digits(p.len() as int);
            lemma_digits_ok(p.len() as int);
            assert(b =~= seq![EXCLAMATION_MARK] + dd + crlf() + (p + crlf() + rest));
            lemma_scan_of_encoded(EXCLAMATION_MARK, dd, p + crlf() + rest);
            lemma_parse_usize_of_dec(p.len() as int);
            let end = 1 + dd.len() as int;
            assert(b.len() - (end + 2) >= p.len() + 2);
            assert(b.subrange(end + 2, end + 2 + p.len()) =~= p);
        },
        FrameSpec::Arrays(fs) => {
            lemma_seq_count_bound(fs);
            lemma_round_trip_agg(ASTERISK, fs, rest);
        },
        FrameSpec::Sets(fs) => {
            lemma_seq_count_bound(fs);
            lemma_round_trip_agg(TILDE_SIGN, fs, rest);
        },
        FrameSpec::Maps(es) => {
            let dd = dec_digits(es.len() as int);
            lemma_digits_ok(es.len() as int);
            lemma_entries_count_bound(es);
            assert(b =~= seq![PERCENT_SIGN] + dd + crlf() + (encoded_entries(es) + rest));
            lemma_scan_of_encoded(PERCENT_SIGN, dd, encoded_entries(es) + rest);
            lemma_parse_usize_of_dec(es.len() as int);
            let end = 1 + dd.len() as int;
            assert(tail_at(b, end + 2) =~= encoded_entries(es) + rest);
            lemma_calc_of_entries(es, rest);
            lemma_parse_of_entries(es, rest);
            lemma_map_from_sorted(es);
        },
    }
}

/// The aggregate case of the round trip, shared by arrays and sets.
#[verifier::rlimit(100)]
proof fn lemma_round_trip_agg(marker: u8, fs: Seq<FrameSpec>, rest: Seq<u8>)
    requires
        marker == ASTERISK || marker == TILDE_SIGN,
        wf_seq(fs),
        fs.len() <= usize::MAX as int,
        encoded_seq(fs).len() + 3 + dec_digits(fs.len() as int).len() <= usize::MAX as int,
    ensures
        ({
            let enc = seq![marker] + dec_digits(fs.len() as int) + crlf() + encoded_seq(fs);
            parse_frame(enc + rest) == Parsed::Done(
                if marker == ASTERISK {
                    FrameSpec::Arrays(fs)
                } else {
                    FrameSpec::Sets(fs)
                },
                enc.len() as int,
            )
        }),
    decreases fs, 1int,
{
    let dd = dec_digits(fs.len() as int);
    lemma_digits_ok(fs.len() as int);
    let enc = seq![marker] + dd + crlf() + encoded_seq(fs);
    let b = enc + rest;
    assert(b =~= seq![marker] + dd + crlf() + (encoded_seq(fs) + rest));
    lemma_scan_of_encoded(marker, dd, encoded_seq(fs) + rest);
    lemma_parse_usize_of_dec(fs.len() as int);
    let end = 1 + dd.len() as int;
    assert(tail_at(b, end + 2) =~= encoded_seq(fs) + rest);
    lemma_calc_of_elems(fs, rest);
    lemma_parse_of_elems(fs, rest);
}

/// The parser walks the concatenated encodings of a frame sequence to
/// exactly the frames and their total span.
#[verifier::rlimit(100)]
pub proof fn lemma_parse_of_elems(fs: Seq<FrameSpec>, rest: Seq<u8>)
    requires
        wf_seq(fs),
    ensures
        parse_elems(encoded_seq(fs) + rest, fs.len() as int) == ParsedSeq::Done(
            fs,
            encoded_seq(fs).len() as int,
        ),
    decreases fs, 0int,
{
    if fs.len() == 0 {
        assert(encoded_seq(fs) =~= Seq::<u8>::empty());
        assert(parse_elems(encoded_seq(fs) + rest, 0) == ParsedSeq::Done(
            Seq::<FrameSpec>::empty(),
            0,
        ));
        assert(fs =~= Seq::<FrameSpec>::empty());
    } else {
        let f0 = fs.first();
        let tailfs = fs.drop_first();
        let b = encoded_seq(fs) + rest;
        assert(b =~= encoded(f0) + (encoded_seq(tailfs) + rest));
        lemma_round_trip(f0, encoded_seq(tailfs) + rest);
        assert(tail_at(b, encoded(f0).len() as int) =~= encoded_seq(tailfs) + rest);
        lemma_parse_of_elems(tailfs, rest);
        assert(seq![f0] + tailfs =~= fs);
    }
}

/// The parser walks the concatenated encodings of map entries to exactly
/// the pairs in order and their total span.
#[verifier::rlimit(100)]
pub proof fn lemma_parse_of_entries(es: Seq<(Seq<char>, FrameSpec)>, rest: Seq<u8>)
    requires
        wf_entries(es),
    ensures
        parse_entries(encoded_entries(es) + rest, es.len() as int) == ParsedEntries::Done(
            es,
            encoded_entries(es).len() as int,
        ),
    decreases es, 0int,
{
    broadcast use vstd::utf8::encode_utf8_valid_utf8;
    broadcast use vstd::utf8::encode_utf8_decode_utf8;

    if es.len() == 0 {
        assert(encoded_entries(es) =~= Seq::<u8>::empty());
        assert(es =~= Seq::<(Seq<char>, FrameSpec)>::empty());
    } else {
        let k = es.first().0;
        let v = es.first().1;
        let taile = es.drop_first();
        let kb = encode_utf8(k);
        let b = encoded_entries(es) + rest;
        assert(b =~= seq![POSITIVE_SIGN] + kb + crlf() + (encoded(v) + (encoded_entries(taile)
            + rest)));
        lemma_scan_of_encoded(POSITIVE_SIGN, kb, encoded(v) + (encoded_entries(taile) + rest));
        let end = 1 + kb.len() as int;
        assert(tail_at(b, end + 2) =~= encoded(v) + (encoded_entries(taile) + rest));
        lemma_round_trip(v, encoded_entries(taile) + rest);
        assert(tail_at(b, end + 2 + encoded(v).len()) =~= encoded_entries(taile) + rest);
        lemma_parse_of_entries(taile, rest);
        assert(text_of_bytes(kb) == k);
        assert(seq![(k, v)] + taile =~= es);
    }
}


/// Where no terminator pair exists from the scan position on, the scan
/// finds nothing.
proof fn lemma_find_none(b: Seq<u8>, i: int)
    requires
        1 <= i,
        forall|j: int| i <= j < b.len() - 1 ==> !(b[j] == CR && #[trigger] b[j + 1] == LF),
    ensures
        find_crlf_from(b, i) is None,
    decreases b.len() - i,
{
    if i + 1 < b.len() {
        lemma_find_none(b, i + 1);
    }
}

/// On a strict prefix of a simple frame the scan comes up empty.
proof fn lemma_scan_prefix_more(marker: u8, pb: Seq<u8>, k: int)
    requires
        !has_crlf(pb),
        0 <= k < 3 + pb.len(),
    ensures
        scan_simple((seq![marker] + pb + crlf()).take(k), marker) == SimpleOut::More,
{
    let full = seq![marker] + pb + crlf();
    let p = full.take(k);
    if k >= 3 {
        assert forall|j: int| 1 <= j < p.len() - 1 implies !(p[j] == CR && #[trigger] p[j + 1]
            == LF) by {
            if p[j] == CR && p[j + 1] == LF {
                assert(full[j] == CR && full[j + 1] == LF);
                if j + 1 <= pb.len() {
                    assert(pb[j - 1] == CR && pb[j - 1 + 1] == LF);
                    assert(has_crlf(pb));
                } else {
                    assert(j + 1 == 1 + pb.len());
                    assert(full[j + 1] == CR);
                }
            }
        }
        lemma_find_none(p, 1);
    }
}

/// On any strict prefix of a canonical encoding the length calculator
/// reports incompleteness, or the full span, which the prefix cannot
/// hold.
#[verifier::rlimit(100)]
pub proof fn lemma_calc_prefix(f: FrameSpec, n: int)
    requires
        wf(f),
        0 <= n < encoded(f).len(),
    ensures
        calc_len(encoded(f).take(n)) == LenOut::More || calc_len(encoded(f).take(n))
            == LenOut::Len(encoded(f).len() as int),
    decreases f,
{
    let enc = encoded(f);
    let p = enc.take(n);
    if n == 0 {
        return;
    }
    match f {
        FrameSpec::SimpleString(s) => {
            assert(enc =~= seq![POSITIVE_SIGN] + encode_utf8(s) + crlf());
            lemma_scan_prefix_more(POSITIVE_SIGN, encode_utf8(s), n);
        },
        FrameSpec::SimpleError(s) => {
            assert(enc =~= seq![NEGATIVE_SIGN] + encode_utf8(s) + crlf());
            lemma_scan_prefix_more(NEGATIVE_SIGN, encode_utf8(s), n);
        },
        FrameSpec::Integer(m) => {
            assert(enc =~= seq![COLON] + int_text(m) + crlf());
            lemma_parse_i64_of_text(m);
            lemma_scan_prefix_more(COLON, int_text(m), n);
        },
        FrameSpec::Booleans(v) => {
            let pb = seq![if v { TRUE } else { FALSE }];
            assert(enc =~= seq![POND_SIGN] + pb + crlf());
            assert(!has_crlf(pb));
            lemma_scan_prefix_more(POND_SIGN, pb, n);
        },
        FrameSpec::Doubles(t) => {
            assert(enc =~= seq![COMMA] + encode_utf8(t) + crlf());
            lemma_float_text_plain(encode_utf8(t));
            lemma_scan_prefix_more(COMMA, encode_utf8(t), n);
        },
        FrameSpec::Null => {
            let pb = Seq::<u8>::empty();
            assert(enc =~= seq![UNDERLINE] + pb + crlf());
            assert(!has_crlf(pb));
            lemma_scan_prefix_more(UNDERLINE, pb, n);
        },
        FrameSpec::NullBulkString => {
            let pb = seq![NEGATIVE_SIGN, 49u8];
            assert(enc =~= seq![DOLLAR] + pb + crlf());
            assert(!has_crlf(pb));
            lemma_scan_prefix_more(DOLLAR, pb, n);
        },
        FrameSpec::NullArray => {
            let pb = seq![NEGATIVE_SIGN, 49u8];
            assert(enc =~= seq![ASTERISK] + pb + crlf());
            assert(!has_crlf(pb));
            lemma_scan_prefix_more(ASTERISK, pb, n);
        },
        FrameSpec::BulkString(pl) => {
            lemma_calc_prefix_bulk(DOLLAR, pl, n);
        },
        FrameSpec::BulkErrors(pl) => {
            lemma_calc_prefix_bulk(EXCLAMATION_MARK, pl, n);
        },
        FrameSpec::Arrays(fs) => {
            lemma_seq_count_bound(fs);
            lemma_calc_prefix_agg(ASTERISK, fs, n);
        },
        FrameSpec::Sets(fs) => {
            lemma_seq_count_bound(fs);
            lemma_calc_prefix_agg(TILDE_SIGN, fs, n);
        },
        FrameSpec::Maps(es) => {
            let dd = dec_digits(es.len() as int);
            lemma_digits_ok(es.len() as int);
            lemma_entries_count_bound(es);
            let hd = 1 + dd.len() as int;
            if n < hd + 2 {
                assert(p =~= (seq![PERCENT_SIGN] + dd + crlf()).take(n));
                lemma_scan_prefix_more(PERCENT_SIGN, dd, n);
            } else {
                assert(enc =~= seq![PERCENT_SIGN] + dd + crlf() + encoded_entries(es));
                assert(p =~= seq![PERCENT_SIGN] + dd + crlf() + encoded_entries(es).take(
                    n - hd - 2,
                ));
                lemma_scan_of_encoded(
                    PERCENT_SIGN,
                    dd,
                    encoded_entries(es).take(n - hd - 2),
                );
                lemma_parse_usize_of_dec(es.len() as int);
                assert(tail_at(p, hd + 2) =~= encoded_entries(es).take(n - hd - 2));
                lemma_calc_prefix_entries(es, n - hd - 2);
            }
        },
    }
}

/// The bulk case of [`lemma_calc_prefix`].
#[verifier::rlimit(100)]
proof fn lemma_calc_prefix_bulk(marker: u8, pl: Seq<u8>, n: int)
    requires
        marker == DOLLAR || marker == EXCLAMATION_MARK,
        0 <= n < (seq![marker] + dec_digits(pl.len() as int) + crlf() + pl + crlf()).len(),
        (seq![marker] + dec_digits(pl.len() as int) + crlf() + pl + crlf()).len()
            <= usize::MAX as int,
    ensures
        ({
            let enc = seq![marker] + dec_digits(pl.len() as int) + crlf() + pl + crlf();
            calc_len(enc.take(n)) == LenOut::More || calc_len(enc.take(n)) == LenOut::Len(
                enc.len() as int,
            )
        }),
{
    let dd = dec_digits(pl.len() as int);
    lemma_digits_ok(pl.len() as int);
    let enc = seq![marker] + dd + crlf() + pl + crlf();
    let p = enc.take(n);
    let hd = 1 + dd.len() as int;
    if n < hd + 2 {
        assert(p =~= (seq![marker] + dd + crlf()).take(n));
        lemma_scan_prefix_more(marker, dd, n);
    } else {
        assert(p =~= seq![marker] + dd + crlf() + (pl + crlf()).take(n - hd - 2));
        lemma_scan_of_encoded(marker, dd, (pl + crlf()).take(n - hd - 2));
        lemma_parse_usize_of_dec(pl.len() as int);
    }
}

/// The aggregate case of [`lemma_calc_prefix`], shared by arrays and
/// sets.
#[verifier::rlimit(100)]
proof fn lemma_calc_prefix_agg(marker: u8, fs: Seq<FrameSpec>, n: int)
    requires
        marker == ASTERISK || marker == TILDE_SIGN,
        wf_seq(fs),
        fs.len() <= usize::MAX as int,
        0 <= n < (seq![marker] + dec_digits(fs.len() as int) + crlf() + encoded_seq(fs)).len(),
        (seq![marker] + dec_digits(fs.len() as int) + crlf() + encoded_seq(fs)).len()
            <= usize::MAX as int,
    ensures
        ({
            let enc = seq![marker] + dec_digits(fs.len() as int) + crlf() + encoded_seq(fs);
            calc_len(enc.take(n)) == LenOut::More || calc_len(enc.take(n)) == LenOut::Len(
                enc.len() as int,
            )
        }),
    decreases fs, 1int,
{
    let dd = dec_digits(fs.len() as int);
    lemma_digits_ok(fs.len() as int);
    let enc = seq![marker] + dd + crlf() + encoded_seq(fs);
    let p = enc.take(n);
    let hd = 1 + dd.len() as int;
    if n < hd + 2 {
        assert(p =~= (seq![marker] + dd + crlf()).take(n));
        lemma_scan_prefix_more(marker, dd, n);
    } else {
        assert(p =~= seq![marker] + dd + crlf() + encoded_seq(fs).take(n - hd - 2));
        lemma_scan_of_encoded(marker, dd, encoded_seq(fs).take(n - hd - 2));
        lemma_parse_usize_of_dec(fs.len() as int);
        assert(tail_at(p, hd + 2) =~= encoded_seq(fs).take(n - hd - 2));
        lemma_calc_prefix_elems(fs, n - hd - 2);
    }
}

/// On a strict prefix of concatenated encodings the elementwise length
/// calculator reports incompleteness or the full total.
#[verifier::rlimit(100)]
proof fn lemma_calc_prefix_elems(fs: Seq<FrameSpec>, j: int)
    requires
        wf_seq(fs),
        encoded_seq(fs).len() <= usize::MAX as int,
        0 <= j < encoded_seq(fs).len(),
    ensures
        calc_elems(encoded_seq(fs).take(j), fs.len() as int) == LenOut::More || calc_elems(
            encoded_seq(fs).take(j),
            fs.len() as int,
        ) == LenOut::Len(encoded_seq(fs).len() as int),
    decreases fs, 0int,
{
    let f0 = fs.first();
    let tailfs = fs.drop_first();
    let e0 = encoded(f0);
    let p = encoded_seq(fs).take(j);
    assert(encoded_seq(fs) =~= e0 + encoded_seq(tailfs));
    if j < e0.len() {
        assert(p =~= e0.take(j));
        lemma_calc_prefix(f0, j);
        match calc_len(p) {
            LenOut::More => {
                assert(calc_elems(p, fs.len() as int) == LenOut::More);
            },
            LenOut::Len(l0) => {
                assert(l0 == e0.len());
                assert(tail_at(p, l0) =~= Seq::<u8>::empty());
                if fs.len() == 1 {
                    assert(calc_elems(tail_at(p, l0), 0) == LenOut::Len(0));
                    assert(tailfs.len() == 0);
                    assert(encoded_seq(tailfs).len() == 0);
                    assert(encoded_seq(fs).len() == e0.len());
                    assert(calc_elems(p, fs.len() as int) == LenOut::Len(
                        encoded_seq(fs).len() as int,
                    ));
                } else {
                    assert(encoded_seq(tailfs).len() >= tailfs.len() >= 1) by {
                        lemma_seq_count_bound(tailfs);
                    }
                    assert(calc_len(Seq::<u8>::empty()) == LenOut::More);
                    assert(calc_elems(tail_at(p, l0), fs.len() as int - 1) == LenOut::More);
                    assert(calc_elems(p, fs.len() as int) == LenOut::More);
                }
            },
            LenOut::Bad(k) => {
                assert(false);
            },
        }
    } else {
        assert(p =~= e0 + encoded_seq(tailfs).take(j - e0.len()));
        lemma_calc_of_encoded(f0, encoded_seq(tailfs).take(j - e0.len()));
        assert(tail_at(p, e0.len() as int) =~= encoded_seq(tailfs).take(j - e0.len()));
        lemma_calc_prefix_elems(tailfs, j - e0.len());
    }
}

/// On a strict prefix of concatenated entry encodings the entrywise
/// length calculator reports incompleteness or the full total.
#[verifier::rlimit(100)]
proof fn lemma_calc_prefix_entries(es: Seq<(Seq<char>, FrameSpec)>, j: int)
    requires
        wf_entries(es),
        encoded_entries(es).len() <= usize::MAX as int,
        0 <= j < encoded_entries(es).len(),
    ensures
        calc_entries(encoded_entries(es).take(j), es.len() as int) == LenOut::More
            || calc_entries(encoded_entries(es).take(j), es.len() as int) == LenOut::Len(
            encoded_entries(es).len() as int,
        ),
    decreases es, 0int,
{
    let k = es.first().0;
    let v = es.first().1;
    let taile = es.drop_first();
    let kb = encode_utf8(k);
    let kenc = seq![POSITIVE_SIGN] + kb + crlf();
    let e0 = encoded(v);
    let p = encoded_entries(es).take(j);
    assert(encoded_entries(es) =~= kenc + e0 + encoded_entries(taile));
    let hd = 1 + kb.len() as int;
    if j < hd + 2 {
        assert(p =~= kenc.take(j));
        assert(p =~= (seq![POSITIVE_SIGN] + kb + crlf()).take(j));
        lemma_scan_prefix_more(POSITIVE_SIGN, kb, j);
    } else if j < hd + 2 + e0.len() {
        assert(p =~= seq![POSITIVE_SIGN] + kb + crlf() + e0.take(j - hd - 2));
        lemma_scan_of_encoded(POSITIVE_SIGN, kb, e0.take(j - hd - 2));
        assert(tail_at(p, hd + 2) =~= e0.take(j - hd - 2));
        lemma_calc_prefix(v, j - hd - 2);
        match calc_len(e0.take(j - hd - 2)) {
            LenOut::More => {
                assert(calc_entries(p, es.len() as int) == LenOut::More);
            },
            LenOut::Len(l0) => {
                assert(l0 == e0.len());
                assert(tail_at(tail_at(p, hd + 2), l0) =~= Seq::<u8>::empty());
                assert(tail_at(p, hd + 2 + l0) =~= Seq::<u8>::empty());
                if es.len() == 1 {
                    assert(taile.len() == 0);
                    assert(encoded_entries(taile).len() == 0);
                    assert(calc_entries(tail_at(p, hd + 2 + l0), 0) == LenOut::Len(0));
                    assert(encoded_entries(es).len() == hd + 2 + e0.len());
                    assert(calc_entries(p, es.len() as int) == LenOut::Len(
                        encoded_entries(es).len() as int,
                    ));
                } else {
                    assert(encoded_entries(taile).len() >= taile.len() >= 1) by {
                        lemma_entries_count_bound(taile);
                    }
                    assert(scan_simple(Seq::<u8>::empty(), POSITIVE_SIGN) == SimpleOut::More);
                    assert(calc_entries(tail_at(p, hd + 2 + l0), es.len() as int - 1)
                        == LenOut::More);
                    assert(calc_entries(p, es.len() as int) == LenOut::More);
                }
            },
            LenOut::Bad(x) => {
                assert(false);
            },
        }
    } else {
        assert(p =~= seq![POSITIVE_SIGN] + kb + crlf() + (e0 + encoded_entries(taile).take(
            j - hd - 2 - e0.len(),
        )));
        lemma_scan_of_encoded(
            POSITIVE_SIGN,
            kb,
            e0 + encoded_entries(taile).take(j - hd - 2 - e0.len()),
        );
        assert(tail_at(p, hd + 2) =~= e0 + encoded_entries(taile).take(j - hd - 2 - e0.len()));
        lemma_calc_of_encoded(v, encoded_entries(taile).take(j - hd - 2 - e0.len()));
        assert(tail_at(p, hd + 2 + e0.len()) =~= encoded_entries(taile).take(
            j - hd - 2 - e0.len(),
        ));
        lemma_calc_prefix_entries(taile, j - hd - 2 - e0.len());
    }
}

/// Incompleteness monotonicity: on any strict byte prefix of the
/// canonical encoding of a well-formed frame the parser asks for more
/// bytes; the sole exception is the null frame, whose too-short prefixes
/// the fixed-literal rule reports as a length error.
#[verifier::rlimit(100)]
pub proof fn lemma_prefix_incomplete(f: FrameSpec, n: int)
    requires
        wf(f),
        !(f is Null),
        0 <= n < encoded(f).len(),
    ensures
        parse_frame(encoded(f).take(n)) == Parsed::More,
{
    let enc = encoded(f);
    let p = enc.take(n);
    if n == 0 {
        return;
    }
    match f {
        FrameSpec::SimpleString(s) => {
            assert(enc =~= seq![POSITIVE_SIGN] + encode_utf8(s) + crlf());
            lemma_scan_prefix_more(POSITIVE_SIGN, encode_utf8(s), n);
        },
        FrameSpec::SimpleError(s) => {
            assert(enc =~= seq![NEGATIVE_SIGN] + encode_utf8(s) + crlf());
            lemma_scan_prefix_more(NEGATIVE_SIGN, encode_utf8(s), n);
        },
        FrameSpec::Integer(m) => {
            assert(enc =~= seq![COLON] + int_text(m) + crlf());
            lemma_parse_i64_of_text(m);
            lemma_scan_prefix_more(COLON, int_text(m), n);
        },
        FrameSpec::Booleans(v) => {
            let pb = seq![if v { TRUE } else { FALSE }];
            assert(enc =~= seq![POND_SIGN] + pb + crlf());
            assert(!has_crlf(pb));
            lemma_scan_prefix_more(POND_SIGN, pb, n);
        },
        FrameSpec::Doubles(t) => {
            assert(enc =~= seq![COMMA] + encode_utf8(t) + crlf());
            lemma_float_text_plain(encode_utf8(t));
            lemma_scan_prefix_more(COMMA, encode_utf8(t), n);
        },
        FrameSpec::Null => {},
        FrameSpec::NullBulkString => {
            let pb = seq![NEGATIVE_SIGN, 49u8];
            assert(enc =~= seq![DOLLAR] + pb + crlf());
            assert(!has_crlf(pb));
            lemma_scan_prefix_more(DOLLAR, pb, n);
        },
        FrameSpec::NullArray => {
            let pb = seq![NEGATIVE_SIGN, 49u8];
            assert(enc =~= seq![ASTERISK] + pb + crlf());
            assert(!has_crlf(pb));
            lemma_scan_prefix_more(ASTERISK, pb, n);
        },
        FrameSpec::BulkString(pl) => {
            let dd = dec_digits(pl.len() as int);
            lemma_digits_ok(pl.len() as int);
            let hd = 1 + dd.len() as int;
            if n < hd + 2 {
                assert(p =~= (seq![DOLLAR] + dd + crlf()).take(n));
                lemma_scan_prefix_more(DOLLAR, dd, n);
            } else {
                assert(enc =~= seq![DOLLAR] + dd + crlf() + pl + crlf());
                assert(p =~= seq![DOLLAR] + dd + crlf() + (pl + crlf()).take(n - hd - 2));
                lemma_scan_of_encoded(DOLLAR, dd, (pl + crlf()).take(n - hd - 2));
                lemma_parse_usize_of_dec(pl.len() as int);
                assert(p.len() - (hd + 2) < pl.len() + 2);
            }
        },
        FrameSpec::BulkErrors(pl) => {
            let dd = dec_digits(pl.len() as int);
            lemma_digits_ok(pl.len() as int);
            let hd = 1 + dd.len() as int;
            if n < hd + 2 {
                assert(p =~= (seq![EXCLAMATION_MARK] + dd + crlf()).take(n));
                lemma_scan_prefix_more(EXCLAMATION_MARK, dd, n);
            } else {
                assert(enc =~= seq![EXCLAMATION_MARK] + dd + crlf() + pl + crlf());
                assert(p =~= seq![EXCLAMATION_MARK] + dd + crlf() + (pl + crlf()).take(
                    n - hd - 2,
                ));
                lemma_scan_of_encoded(EXCLAMATION_MARK, dd, (pl + crlf()).take(n - hd - 2));
                lemma_parse_usize_of_dec(pl.len() as int);
                assert(p.len() - (hd + 2) < pl.len() + 2);
            }
        },
        FrameSpec::Arrays(fs) => {
            lemma_seq_count_bound(fs);
            lemma_prefix_incomplete_agg(ASTERISK, fs, n);
        },
        FrameSpec::Sets(fs) => {
            lemma_seq_count_bound(fs);
            lemma_prefix_incomplete_agg(TILDE_SIGN, fs, n);
        },
        FrameSpec::Maps(es) => {
            let dd = dec_digits(es.len() as int);
            lemma_digits_ok(es.len() as int);
            lemma_entries_count_bound(es);
            let hd = 1 + dd.len() as int;
            if n < hd + 2 {
                assert(p =~= (seq![PERCENT_SIGN] + dd + crlf()).take(n));
                lemma_scan_prefix_more(PERCENT_SIGN, dd, n);
            } else {
                assert(enc =~= seq![PERCENT_SIGN] + dd + crlf() + encoded_entries(es));
                assert(p =~= seq![PERCENT_SIGN] + dd + crlf() + encoded_entries(es).take(
                    n - hd - 2,
                ));
                lemma_scan_of_encoded(
                    PERCENT_SIGN,
                    dd,
                    encoded_entries(es).take(n - hd - 2),
                );
                lemma_parse_usize_of_dec(es.len() as int);
                assert(tail_at(p, hd + 2) =~= encoded_entries(es).take(n - hd - 2));
                lemma_calc_prefix_entries(es, n - hd - 2);
            }
        },
    }
}

/// The aggregate case of [`lemma_prefix_incomplete`].
#[verifier::rlimit(100)]
proof fn lemma_prefix_incomplete_agg(marker: u8, fs: Seq<FrameSpec>, n: int)
    requires
        marker == ASTERISK || marker == TILDE_SIGN,
        wf_seq(fs),
        fs.len() <= usize::MAX as int,
        0 <= n < (seq![marker] + dec_digits(fs.len() as int) + crlf() + encoded_seq(fs)).len(),
        (seq![marker] + dec_digits(fs.len() as int) + crlf() + encoded_seq(fs)).len()
            <= usize::MAX as int,
    ensures
        ({
            let enc = seq![marker] + dec_digits(fs.len() as int) + crlf() + encoded_seq(fs);
            parse_frame(enc.take(n)) == Parsed::More
        }),
{
    let dd = dec_digits(fs.len() as int);
    lemma_digits_ok(fs.len() as int);
    let enc = seq![marker] + dd + crlf() + encoded_seq(fs);
    let p = enc.take(n);
    let hd = 1 + dd.len() as int;
    if n == 0 {
        return;
    }
    if n < hd + 2 {
        assert(p =~= (seq![marker] + dd + crlf()).take(n));
        lemma_scan_prefix_more(marker, dd, n);
    } else {
        assert(p =~= seq![marker] + dd + crlf() + encoded_seq(fs).take(n - hd - 2));
        lemma_scan_of_encoded(marker, dd, encoded_seq(fs).take(n - hd - 2));
        lemma_parse_usize_of_dec(fs.len() as int);
        assert(tail_at(p, hd + 2) =~= encoded_seq(fs).take(n - hd - 2));
        lemma_calc_prefix_elems(fs, n - hd - 2);
    }
}


/// Byte order composes.
proof fn lemma_bytes_lt_trans(a: Seq<u8>, b: Seq<u8>, c: Seq<u8>)
    requires
        crate::wire::bytes_lt(a, b),
        crate::wire::bytes_lt(b, c),
    ensures
        crate::wire::bytes_lt(a, c),
    decreases a.len() + b.len() + c.len(),
{
    if a.len() > 0 && b.len() > 0 && c.len() > 0 && a.first() == b.first() && b.first()
        == c.first() {
        lemma_bytes_lt_trans(a.drop_first(), b.drop_first(), c.drop_first());
    }
}

/// Byte order decides: two sequences that order neither way are equal.
proof fn lemma_bytes_lt_total(a: Seq<u8>, b: Seq<u8>)
    requires
        !crate::wire::bytes_lt(a, b),
        !crate::wire::bytes_lt(b, a),
    ensures
        a == b,
    decreases a.len(),
{
    if a.len() > 0 && b.len() > 0 {
        assert(a.first() == b.first()) by {
            if a.first() < b.first() {
                assert(crate::wire::bytes_lt(a, b));
            }
            if a.first() > b.first() {
                assert(crate::wire::bytes_lt(b, a));
            }
        }
        lemma_bytes_lt_total(a.drop_first(), b.drop_first());
        assert(a.len() == b.len());
        assert forall|i: int| 0 <= i < a.len() implies a[i] == b[i] by {
            if i >= 1 {
                assert(a[i] == a.drop_first()[i - 1]);
                assert(b[i] == b.drop_first()[i - 1]);
            }
        }
        assert(a =~= b);
    } else {
        if a.len() == 0 && b.len() > 0 {
            assert(crate::wire::bytes_lt(a, b));
        }
        if b.len() == 0 && a.len() > 0 {
            assert(crate::wire::bytes_lt(b, a));
        }
        assert(a =~= b);
    }
}

/// Every key of an inserted sequence is the new key or one already
/// present.
proof fn lemma_map_insert_keys(es: Seq<(Seq<char>, FrameSpec)>, k: Seq<char>, v: FrameSpec)
    ensures
        forall|j: int|
            0 <= j < map_insert(es, k, v).len() ==> (#[trigger] map_insert(es, k, v)[j].0 == k
                || exists|i: int| 0 <= i < es.len() && #[trigger] es[i].0 == map_insert(
                es,
                k,
                v,
            )[j].0),
    decreases es.len(),
{
    if es.len() == 0 {
    } else if key_lt(k, es.first().0) {
    } else if k == es.first().0 {
        assert forall|j: int| 0 <= j < map_insert(es, k, v).len() implies (#[trigger] map_insert(
            es,
            k,
            v,
        )[j].0 == k || exists|i: int| 0 <= i < es.len() && #[trigger] es[i].0 == map_insert(
            es,
            k,
            v,
        )[j].0) by {
            if j >= 1 {
                assert(map_insert(es, k, v)[j] == es.drop_first()[j - 1]);
                assert(es[j].0 == map_insert(es, k, v)[j].0);
            }
        }
    } else {
        lemma_map_insert_keys(es.drop_first(), k, v);
        let r = map_insert(es, k, v);
        assert forall|j: int| 0 <= j < r.len() implies (#[trigger] r[j].0 == k || exists|i: int|
            0 <= i < es.len() && #[trigger] es[i].0 == r[j].0) by {
            if j == 0 {
                assert(es[0].0 == r[0].0);
            } else {
                let rt = map_insert(es.drop_first(), k, v);
                assert(r[j] == rt[j - 1]);
                if rt[j - 1].0 == k {
                } else {
                    let i = choose|i: int|
                        0 <= i < es.drop_first().len() && #[trigger] es.drop_first()[i].0 == rt[
                            j - 1].0;
                    assert(es[i + 1].0 == r[j].0);
                }
            }
        }
    }
}

/// Map key uniqueness and order: inserting an entry into a key-sorted
/// entry sequence keeps the keys strictly ascending, so the encoder
/// always emits map keys in ascending order and no key appears twice.
pub proof fn lemma_map_insert_sorted(es: Seq<(Seq<char>, FrameSpec)>, k: Seq<char>, v: FrameSpec)
    requires
        entries_sorted(es),
    ensures
        entries_sorted(map_insert(es, k, v)),
    decreases es.len(),
{
    let r = map_insert(es, k, v);
    if es.len() == 0 {
    } else if key_lt(k, es.first().0) {
        assert forall|i: int, j: int| 0 <= i < j < r.len() implies key_lt(
            #[trigger] r[i].0,
            #[trigger] r[j].0,
        ) by {
            if i == 0 {
                assert(r[j] == es[j - 1]);
                if j == 1 {
                } else {
                    lemma_bytes_lt_trans(
                        encode_utf8(k),
                        encode_utf8(es[0].0),
                        encode_utf8(es[j - 1].0),
                    );
                }
            } else {
                assert(r[i] == es[i - 1] && r[j] == es[j - 1]);
            }
        }
    } else if k == es.first().0 {
        assert forall|i: int, j: int| 0 <= i < j < r.len() implies key_lt(
            #[trigger] r[i].0,
            #[trigger] r[j].0,
        ) by {
            if i == 0 {
                assert(r[j] == es.drop_first()[j - 1]);
                assert(r[j].0 == es[j].0);
                assert(key_lt(es[0].0, es[j].0));
            } else {
                assert(r[i].0 == es[i].0 && r[j].0 == es[j].0);
            }
        }
    } else {
        assert(entries_sorted(es.drop_first())) by {
            assert(forall|i: int|
                0 <= i < es.drop_first().len() ==> #[trigger] es.drop_first()[i] == es[i + 1]);
        }
        lemma_map_insert_sorted(es.drop_first(), k, v);
        lemma_map_insert_keys(es.drop_first(), k, v);
        assert(key_lt(es.first().0, k)) by {
            if !crate::wire::bytes_lt(encode_utf8(es.first().0), encode_utf8(k)) {
                lemma_bytes_lt_total(encode_utf8(k), encode_utf8(es.first().0));
                vstd::utf8::encode_utf8_decode_utf8(k);
                vstd::utf8::encode_utf8_decode_utf8(es.first().0);
                assert(k == es.first().0);
            }
        }
        let rt = map_insert(es.drop_first(), k, v);
        assert forall|i: int, j: int| 0 <= i < j < r.len() implies key_lt(
            #[trigger] r[i].0,
            #[trigger] r[j].0,
        ) by {
            if i == 0 {
                assert(r[j] == rt[j - 1]);
                if rt[j - 1].0 == k {
                } else {
                    let x = choose|x: int|
                        0 <= x < es.drop_first().len() && #[trigger] es.drop_first()[x].0 == rt[
                            j - 1].0;
                    assert(key_lt(es[0].0, es[x + 1].0));
                }
            } else {
                assert(r[i] == rt[i - 1] && r[j] == rt[j - 1]);
            }
        }
    }
}


/// Every map the decoder assembles has strictly ascending keys: folding
/// any pair sequence through insertion yields a sorted entry sequence.
pub proof fn lemma_map_from_pairs_sorted(ps: Seq<(Seq<char>, FrameSpec)>)
    ensures
        entries_sorted(map_from_pairs(ps)),
    decreases ps.len(),
{
    if ps.len() > 0 {
        lemma_map_from_pairs_sorted(ps.drop_last());
        lemma_map_insert_sorted(map_from_pairs(ps.drop_last()), ps.last().0, ps.last().1);
    }
}

} // verus!
