//! The mathematical model of the wire format: the canonical encoding of a
//! frame, the pure length calculator, and the parser that the executable
//! decoder is proved against.
use vstd::prelude::*;

use crate::frame::ASTERISK;
use crate::frame::COLON;
use crate::frame::COMMA;
use crate::frame::CR;
use crate::frame::DOLLAR;
use crate::frame::ErrKind;
use crate::frame::EXCLAMATION_MARK;
use crate::frame::FALSE;
use crate::frame::FrameSpec;
use crate::frame::LF;
use crate::frame::NEGATIVE_SIGN;
use crate::frame::PERCENT_SIGN;
use crate::frame::POND_SIGN;
use crate::frame::POSITIVE_SIGN;
use crate::frame::TILDE_SIGN;
use crate::frame::TRUE;
use crate::frame::UNDERLINE;
use vstd::utf8::decode_utf8;
use vstd::utf8::encode_utf8;
use vstd::utf8::valid_utf8;

verus! {

/// What `String::from_utf8_lossy` returns on a byte sequence; stated only
/// through the trusted wrapper around that call.
pub uninterp spec fn lossy_text(b: Seq<u8>) -> Seq<char>;

/// The text that a byte payload denotes: an exact UTF-8 decoding where the
/// bytes are valid, the lossy replacement decoding otherwise.
pub open spec fn text_of_bytes(b: Seq<u8>) -> Seq<char> {
    if valid_utf8(b) {
        decode_utf8(b)
    } else {
        lossy_text(b)
    }
}

/// The suffix of `b` from position `i`; empty when `i` lies past the end.
pub open spec fn tail_at(b: Seq<u8>, i: int) -> Seq<u8> {
    if 0 <= i <= b.len() {
        b.subrange(i, b.len() as int)
    } else {
        Seq::empty()
    }
}

/// The frame terminator.
pub open spec fn crlf() -> Seq<u8> {
    seq![CR, LF]
}

/// Position of the first carriage return immediately followed by a line
/// feed, scanning pairs from position `i` on; the final byte alone is
/// never a match.
pub open spec fn find_crlf_from(b: Seq<u8>, i: int) -> Option<int>
    recommends
        i >= 1,
    decreases b.len() - i,
{
    if i < 1 || i + 1 >= b.len() {
        None
    } else if b[i] == CR && b[i + 1] == LF {
        Some(i)
    } else {
        find_crlf_from(b, i + 1)
    }
}

/// The scan rule for simple frames: the terminator search starts one byte
/// after the leading marker.
pub open spec fn find_crlf(b: Seq<u8>) -> Option<int> {
    find_crlf_from(b, 1)
}

/// Outcome of scanning one simple (terminator-delimited) frame.
pub enum SimpleOut {
    /// Payload between the marker and the terminator; the frame spans
    /// `end + 2` bytes.
    Pay { payload: Seq<u8>, end: int },
    /// Too few bytes to find the terminator.
    More,
    /// The leading byte is not the expected marker.
    BadMarker,
}

/// Scan one simple frame with the given marker byte: the buffer must hold
/// the three-byte minimum, start with the marker, and contain a
/// terminator.
pub open spec fn scan_simple(b: Seq<u8>, marker: u8) -> SimpleOut {
    if b.len() < 3 {
        SimpleOut::More
    } else if b[0] != marker {
        SimpleOut::BadMarker
    } else {
        match find_crlf(b) {
            Option::None => SimpleOut::More,
            Option::Some(end) => if 1 <= end && end + 1 < b.len() {
                SimpleOut::Pay { payload: b.subrange(1, end), end }
            } else {
                SimpleOut::More
            },
        }
    }
}

/// A found terminator always lies strictly inside the buffer, so the
/// in-bounds guard of [`scan_simple`] never fires.
pub broadcast proof fn lemma_find_crlf_bounds(b: Seq<u8>, i: int)
    requires
        i >= 1,
    ensures
        (#[trigger] find_crlf_from(b, i)) matches Option::Some(e) ==> i <= e && e + 1 < b.len()
            && b[e] == CR && b[e + 1] == LF,
    decreases b.len() - i,
{
    if i + 1 < b.len() && !(b[i] == CR && b[i + 1] == LF) {
        lemma_find_crlf_bounds(b, i + 1);
    }
}

/// Whether a byte is an ASCII decimal digit.
pub open spec fn is_digit(c: u8) -> bool {
    48 <= c && c <= 57
}

/// Whether every byte of the sequence is an ASCII decimal digit.
pub open spec fn all_digits(s: Seq<u8>) -> bool {
    forall|i: int| 0 <= i < s.len() ==> is_digit(#[trigger] s[i])
}

/// Numeric value of a sequence of ASCII digits.
pub open spec fn digits_val(s: Seq<u8>) -> int
    decreases s.len(),
{
    if s.len() == 0 {
        0
    } else {
        digits_val(s.drop_last()) * 10 + (s.last() - 48)
    }
}

/// The shortest decimal digit rendering of a nonnegative number.
pub open spec fn dec_digits(n: int) -> Seq<u8>
    recommends
        n >= 0,
    decreases n,
{
    if n <= 9 {
        seq![(48 + if n >= 0 { n } else { 0 }) as u8]
    } else {
        dec_digits(n / 10).push((48 + n % 10) as u8)
    }
}

/// What parsing an unsigned decimal count from a byte payload gives: an
/// optional plus sign, at least one digit, nothing else, value within the
/// machine word; mirrors `str::parse::<usize>`.
pub open spec fn parse_usize_bytes(s: Seq<u8>) -> Option<int> {
    let d = if s.len() >= 1 && s[0] == POSITIVE_SIGN {
        s.drop_first()
    } else {
        s
    };
    if d.len() >= 1 && all_digits(d) && digits_val(d) <= usize::MAX as int {
        Option::Some(digits_val(d))
    } else {
        Option::None
    }
}

/// What parsing a signed 64-bit decimal integer from a byte payload gives:
/// an optional sign, at least one digit, nothing else, value in range;
/// mirrors `str::parse::<i64>`.
pub open spec fn parse_i64_bytes(s: Seq<u8>) -> Option<i64> {
    let neg = s.len() >= 1 && s[0] == NEGATIVE_SIGN;
    let d = if s.len() >= 1 && (s[0] == POSITIVE_SIGN || s[0] == NEGATIVE_SIGN) {
        s.drop_first()
    } else {
        s
    };
    if d.len() >= 1 && all_digits(d) && (if neg {
        digits_val(d) <= 0x8000000000000000
    } else {
        digits_val(d) <= i64::MAX as int
    }) {
        Option::Some((if neg { -digits_val(d) } else { digits_val(d) }) as i64)
    } else {
        Option::None
    }
}

/// Whether a byte is ASCII whitespace.
pub open spec fn is_ws(c: u8) -> bool {
    c == 32 || c == 9 || c == 10 || c == 11 || c == 12 || c == 13
}

/// The sequence without its leading ASCII whitespace.
pub open spec fn trim_start_bytes(s: Seq<u8>) -> Seq<u8>
    decreases s.len(),
{
    if s.len() > 0 && is_ws(s.first()) {
        trim_start_bytes(s.drop_first())
    } else {
        s
    }
}

/// The sequence without its trailing ASCII whitespace.
pub open spec fn trim_end_bytes(s: Seq<u8>) -> Seq<u8>
    decreases s.len(),
{
    if s.len() > 0 && is_ws(s.last()) {
        trim_end_bytes(s.drop_last())
    } else {
        s
    }
}

/// The sequence without leading and trailing ASCII whitespace.
pub open spec fn trim_bytes(s: Seq<u8>) -> Seq<u8> {
    trim_end_bytes(trim_start_bytes(s))
}

/// Lower-casing of one ASCII byte.
pub open spec fn lower_byte(c: u8) -> u8 {
    if 65 <= c && c <= 90 {
        (c + 32) as u8
    } else {
        c
    }
}

/// Lower-casing of a byte sequence, ASCII letters only.
pub open spec fn lower_bytes(s: Seq<u8>) -> Seq<u8>
    decreases s.len(),
{
    if s.len() == 0 {
        Seq::empty()
    } else {
        seq![lower_byte(s.first())] + lower_bytes(s.drop_first())
    }
}

/// The bytes of the word `inf`.
pub open spec fn inf_word() -> Seq<u8> {
    seq![105u8, 110u8, 102u8]
}

/// The bytes of the word `infinity`.
pub open spec fn infinity_word() -> Seq<u8> {
    seq![105u8, 110u8, 102u8, 105u8, 110u8, 105u8, 116u8, 121u8]
}

/// The bytes of the word `nan`.
pub open spec fn nan_word() -> Seq<u8> {
    seq![110u8, 97u8, 110u8]
}

/// Position of the first exponent letter in a number body.
pub open spec fn find_exp_at(s: Seq<u8>, i: int) -> Option<int>
    decreases s.len() - i,
{
    if i < 0 || i >= s.len() {
        Option::None
    } else if s[i] == 101 || s[i] == 69 {
        Option::Some(i)
    } else {
        find_exp_at(s, i + 1)
    }
}

/// Position of the first decimal dot in a mantissa.
pub open spec fn find_dot_at(s: Seq<u8>, i: int) -> Option<int>
    decreases s.len() - i,
{
    if i < 0 || i >= s.len() {
        Option::None
    } else if s[i] == 46 {
        Option::Some(i)
    } else {
        find_dot_at(s, i + 1)
    }
}

/// The decimal mantissa grammar: digits, or digits around one dot with at
/// least one digit on some side.
pub open spec fn is_mantissa(m: Seq<u8>) -> bool {
    match find_dot_at(m, 0) {
        Option::None => m.len() >= 1 && all_digits(m),
        Option::Some(d) => {
            let ip = m.take(d);
            let fp = m.subrange(d + 1, m.len() as int);
            all_digits(ip) && all_digits(fp) && find_dot_at(fp, 0) is None && (ip.len() >= 1
                || fp.len() >= 1)
        },
    }
}

/// The exponent part grammar: an optional sign and at least one digit.
pub open spec fn is_exp_part(p: Seq<u8>) -> bool {
    let d = if p.len() >= 1 && (p[0] == POSITIVE_SIGN || p[0] == NEGATIVE_SIGN) {
        p.drop_first()
    } else {
        p
    };
    d.len() >= 1 && all_digits(d)
}

/// The number grammar of a float body: a mantissa with an optional
/// exponent part.
pub open spec fn is_number_body(b: Seq<u8>) -> bool {
    match find_exp_at(b, 0) {
        Option::None => is_mantissa(b),
        Option::Some(e) => is_mantissa(b.take(e)) && is_exp_part(b.subrange(e + 1, b.len() as int)),
    }
}

/// The body of a float text, the optional leading sign stripped.
pub open spec fn float_body(s: Seq<u8>) -> Seq<u8> {
    if s.len() >= 1 && (s[0] == POSITIVE_SIGN || s[0] == NEGATIVE_SIGN) {
        s.drop_first()
    } else {
        s
    }
}

/// Whether a float text is negative: it carries a leading minus sign.
pub open spec fn float_neg(s: Seq<u8>) -> bool {
    s.len() >= 1 && s[0] == NEGATIVE_SIGN
}

/// The float text grammar: an optional sign, followed by an infinity
/// word, a NaN word, or a decimal number; the words are case-insensitive.
pub open spec fn is_float_text(s: Seq<u8>) -> bool {
    let b = float_body(s);
    lower_bytes(b) == inf_word() || lower_bytes(b) == infinity_word() || lower_bytes(b)
        == nan_word() || is_number_body(b)
}

/// The signed value of an exponent part.
pub open spec fn exp_value(p: Seq<u8>) -> int {
    if p.len() >= 1 && p[0] == NEGATIVE_SIGN {
        -digits_val(p.drop_first())
    } else if p.len() >= 1 && p[0] == POSITIVE_SIGN {
        digits_val(p.drop_first())
    } else {
        digits_val(p)
    }
}

/// The digits of a number body with the dot removed, together with the
/// count of fractional digits and the exponent value.
pub open spec fn number_digits(b: Seq<u8>) -> (Seq<u8>, int, int) {
    let (m, e) = match find_exp_at(b, 0) {
        Option::None => (b, 0int),
        Option::Some(i) => (b.take(i), exp_value(b.subrange(i + 1, b.len() as int))),
    };
    match find_dot_at(m, 0) {
        Option::None => (m, 0int, e),
        Option::Some(d) => (m.take(d) + m.subrange(d + 1, m.len() as int), m.len() - d - 1, e),
    }
}

/// Count of leading zero digits.
pub open spec fn leading_zeros(c: Seq<u8>) -> int
    decreases c.len(),
{
    if c.len() > 0 && c.first() == 48 {
        1 + leading_zeros(c.drop_first())
    } else {
        0
    }
}

/// Whether the number body of a float text denotes a magnitude strictly
/// beyond `1.0e11`.
///
/// With `c` the digits, `f` the fractional count and `e` the exponent,
/// the value is `val(c) * 10^(e - f)`.  Let `l` be the count of
/// significant digits; the value lies in `[10^(m-1), 10^m)` for
/// `m = l + e - f`, so it exceeds `10^11` exactly when `m > 12`, or
/// `m == 12` and the significant digits exceed a one followed by zeros.
pub open spec fn number_exceeds_1e11(b: Seq<u8>) -> bool {
    let (c, f, e) = number_digits(b);
    let lz = leading_zeros(c);
    let l = c.len() - lz;
    let m = l + e - f;
    l > 0 && (m > 12 || (m == 12 && (c[lz] > 49 || exists|i: int|
        lz < i < c.len() && #[trigger] c[i] != 48)))
}

/// The byte form of an encoded double body: magnitudes beyond the
/// threshold collapse to an infinity marker, NaN to a NaN marker, all
/// other texts pass through unchanged.
pub open spec fn double_body_bytes(s: Seq<u8>) -> Seq<u8> {
    let b = float_body(s);
    let inf_like = lower_bytes(b) == inf_word() || lower_bytes(b) == infinity_word() || (
    is_number_body(b) && number_exceeds_1e11(b));
    if lower_bytes(b) == nan_word() {
        nan_word()
    } else if inf_like && !float_neg(s) {
        inf_word()
    } else if inf_like && float_neg(s) {
        seq![NEGATIVE_SIGN] + inf_word()
    } else {
        s
    }
}

/// The text body of an encoded double, over the UTF-8 bytes of the held
/// text.
pub open spec fn double_body(t: Seq<char>) -> Seq<u8> {
    double_body_bytes(encode_utf8(t))
}

/// The sign-then-magnitude decimal text of a 64-bit integer; the sign
/// character is always present.
pub open spec fn int_text(n: i64) -> Seq<u8> {
    if n < 0 {
        seq![NEGATIVE_SIGN] + dec_digits(-(n as int))
    } else {
        seq![POSITIVE_SIGN] + dec_digits(n as int)
    }
}

/// The fixed literal `$-1\r\n` of a null bulk string.
pub open spec fn null_bulk_literal() -> Seq<u8> {
    seq![DOLLAR, NEGATIVE_SIGN, 49u8, CR, LF]
}

/// The fixed literal `*-1\r\n` of a null array.
pub open spec fn null_array_literal() -> Seq<u8> {
    seq![ASTERISK, NEGATIVE_SIGN, 49u8, CR, LF]
}

/// The fixed literal `_\r\n` of a null frame.
pub open spec fn null_literal() -> Seq<u8> {
    seq![UNDERLINE, CR, LF]
}

/// The canonical encoding of a frame.
pub open spec fn encoded(f: FrameSpec) -> Seq<u8>
    decreases f,
{
    match f {
        FrameSpec::SimpleString(s) => seq![POSITIVE_SIGN] + encode_utf8(s) + crlf(),
        FrameSpec::SimpleError(s) => seq![NEGATIVE_SIGN] + encode_utf8(s) + crlf(),
        FrameSpec::Integer(n) => seq![COLON] + int_text(n) + crlf(),
        FrameSpec::BulkString(p) => seq![DOLLAR] + dec_digits(p.len() as int) + crlf() + p
            + crlf(),
        FrameSpec::NullBulkString => null_bulk_literal(),
        FrameSpec::Arrays(fs) => seq![ASTERISK] + dec_digits(fs.len() as int) + crlf()
            + encoded_seq(fs),
        FrameSpec::NullArray => null_array_literal(),
        FrameSpec::Null => null_literal(),
        FrameSpec::Booleans(v) => seq![POND_SIGN, if v { TRUE } else { FALSE }, CR, LF],
        FrameSpec::Doubles(t) => seq![COMMA] + double_body(t) + crlf(),
        FrameSpec::BulkErrors(p) => seq![EXCLAMATION_MARK] + dec_digits(p.len() as int) + crlf()
            + p + crlf(),
        FrameSpec::Maps(es) => seq![PERCENT_SIGN] + dec_digits(es.len() as int) + crlf()
            + encoded_entries(es),
        FrameSpec::Sets(fs) => seq![TILDE_SIGN] + dec_digits(fs.len() as int) + crlf()
            + encoded_seq(fs),
    }
}

/// The concatenated encodings of a sequence of frames.
pub open spec fn encoded_seq(fs: Seq<FrameSpec>) -> Seq<u8>
    decreases fs,
{
    if fs.len() == 0 {
        Seq::empty()
    } else {
        encoded(fs.first()) + encoded_seq(fs.drop_first())
    }
}

/// The concatenated encodings of map entries: each key re-encoded as a
/// simple string, followed by the encoding of its value.
pub open spec fn encoded_entries(es: Seq<(Seq<char>, FrameSpec)>) -> Seq<u8>
    decreases es,
{
    if es.len() == 0 {
        Seq::empty()
    } else {
        (seq![POSITIVE_SIGN] + encode_utf8(es.first().0) + crlf()) + encoded(es.first().1)
            + encoded_entries(es.drop_first())
    }
}

/// Strict lexicographic order on byte sequences.
pub open spec fn bytes_lt(a: Seq<u8>, b: Seq<u8>) -> bool
    decreases a.len(),
{
    if b.len() == 0 {
        false
    } else if a.len() == 0 {
        true
    } else if a.first() < b.first() {
        true
    } else if a.first() > b.first() {
        false
    } else {
        bytes_lt(a.drop_first(), b.drop_first())
    }
}

/// Order on map keys: the lexicographic order of their UTF-8 encodings,
/// which for valid text agrees with the order on the texts themselves.
pub open spec fn key_lt(a: Seq<char>, b: Seq<char>) -> bool {
    bytes_lt(encode_utf8(a), encode_utf8(b))
}

/// Insertion into a key-sorted entry sequence: an existing entry with the
/// same key is replaced, otherwise the new entry lands at its ordered
/// position.
pub open spec fn map_insert(
    es: Seq<(Seq<char>, FrameSpec)>,
    k: Seq<char>,
    v: FrameSpec,
) -> Seq<(Seq<char>, FrameSpec)>
    decreases es.len(),
{
    if es.len() == 0 {
        seq![(k, v)]
    } else if key_lt(k, es.first().0) {
        seq![(k, v)] + es
    } else if k == es.first().0 {
        seq![(k, v)] + es.drop_first()
    } else {
        seq![es.first()] + map_insert(es.drop_first(), k, v)
    }
}

/// The key-sorted entry sequence built by inserting the pairs in order;
/// on equal keys the later write wins.
pub open spec fn map_from_pairs(ps: Seq<(Seq<char>, FrameSpec)>) -> Seq<(Seq<char>, FrameSpec)>
    decreases ps.len(),
{
    if ps.len() == 0 {
        Seq::empty()
    } else {
        map_insert(map_from_pairs(ps.drop_last()), ps.last().0, ps.last().1)
    }
}

/// Whether an entry sequence is sorted with strictly ascending keys.
pub open spec fn entries_sorted(es: Seq<(Seq<char>, FrameSpec)>) -> bool {
    forall|i: int, j: int| 0 <= i < j < es.len() ==> key_lt(#[trigger] es[i].0, #[trigger] es[j].0)
}

/// Outcome of the pure length calculator.
pub enum LenOut {
    /// A complete frame starting at offset zero would span exactly this
    /// many bytes.
    Len(int),
    /// Too few bytes are present to determine the length.
    More,
    /// The bytes present already contradict every frame shape.
    Bad(ErrKind),
}

/// The pure length calculator on one frame: the exact byte length of one
/// complete frame starting at offset zero, without consuming anything.
///
/// A declared span that could not fit in one machine word is reported as
/// `More`: such a frame can never be completely buffered.
pub open spec fn calc_len(b: Seq<u8>) -> LenOut
    decreases b.len(), 0int,
{
    if b.len() == 0 {
        LenOut::More
    } else if b[0] == POSITIVE_SIGN || b[0] == NEGATIVE_SIGN || b[0] == COLON || b[0] == UNDERLINE
        || b[0] == POND_SIGN || b[0] == COMMA {
        match scan_simple(b, b[0]) {
            SimpleOut::More => LenOut::More,
            SimpleOut::BadMarker => LenOut::Bad(ErrKind::BadType),
            SimpleOut::Pay { payload, end } => LenOut::Len(end + 2),
        }
    } else if b[0] == DOLLAR || b[0] == EXCLAMATION_MARK {
        match scan_simple(b, b[0]) {
            SimpleOut::More => LenOut::More,
            SimpleOut::BadMarker => LenOut::Bad(ErrKind::BadType),
            SimpleOut::Pay { payload, end } => match parse_usize_bytes(payload) {
                Option::Some(n) => if end + 4 + n <= usize::MAX as int {
                    LenOut::Len(end + 4 + n)
                } else {
                    LenOut::More
                },
                Option::None => if b[0] == DOLLAR {
                    calc_fixed(b, null_bulk_literal())
                } else {
                    LenOut::Bad(ErrKind::BadInt)
                },
            },
        }
    } else if b[0] == ASTERISK || b[0] == TILDE_SIGN || b[0] == PERCENT_SIGN {
        match scan_simple(b, b[0]) {
            SimpleOut::More => LenOut::More,
            SimpleOut::BadMarker => LenOut::Bad(ErrKind::BadType),
            SimpleOut::Pay { payload, end } => match parse_usize_bytes(payload) {
                Option::Some(cnt) => {
                    let inner = if b[0] == PERCENT_SIGN {
                        calc_entries(tail_at(b, end + 2), cnt)
                    } else {
                        calc_elems(tail_at(b, end + 2), cnt)
                    };
                    match inner {
                        LenOut::More => LenOut::More,
                        LenOut::Bad(k) => LenOut::Bad(k),
                        LenOut::Len(l) => if end + 2 + l <= usize::MAX as int {
                            LenOut::Len(end + 2 + l)
                        } else {
                            LenOut::More
                        },
                    }
                },
                Option::None => if b[0] == ASTERISK {
                    calc_fixed(b, null_array_literal())
                } else {
                    LenOut::Bad(ErrKind::BadInt)
                },
            },
        }
    } else {
        LenOut::Bad(ErrKind::BadType)
    }
}

/// Length of a fixed-literal frame: the buffer must start with the exact
/// literal.
pub open spec fn calc_fixed(b: Seq<u8>, lit: Seq<u8>) -> LenOut {
    if b.len() < lit.len() {
        LenOut::Bad(ErrKind::BadLength(b.len() as int))
    } else if b.take(lit.len() as int) == lit {
        LenOut::Len(lit.len() as int)
    } else {
        LenOut::Bad(ErrKind::BadType)
    }
}

/// Total length of `cnt` consecutive frames starting at offset zero.
pub open spec fn calc_elems(rest: Seq<u8>, cnt: int) -> LenOut
    decreases rest.len(), cnt,
{
    if cnt <= 0 {
        LenOut::Len(0)
    } else {
        match calc_len(rest) {
            LenOut::More => LenOut::More,
            LenOut::Bad(k) => LenOut::Bad(k),
            LenOut::Len(l) => match calc_elems(tail_at(rest, l), cnt - 1) {
                LenOut::More => LenOut::More,
                LenOut::Bad(k) => LenOut::Bad(k),
                LenOut::Len(l2) => if l + l2 <= usize::MAX as int {
                    LenOut::Len(l + l2)
                } else {
                    LenOut::More
                },
            },
        }
    }
}

/// Total length of `cnt` consecutive map entries, each a simple-string
/// key followed by any frame.
pub open spec fn calc_entries(rest: Seq<u8>, cnt: int) -> LenOut
    decreases rest.len(), cnt,
{
    if cnt <= 0 {
        LenOut::Len(0)
    } else {
        match scan_simple(rest, POSITIVE_SIGN) {
            SimpleOut::More => LenOut::More,
            SimpleOut::BadMarker => LenOut::Bad(ErrKind::BadType),
            SimpleOut::Pay { payload, end } => match calc_len(tail_at(rest, end + 2)) {
                LenOut::More => LenOut::More,
                LenOut::Bad(k) => LenOut::Bad(k),
                LenOut::Len(vl) => match calc_entries(tail_at(rest, end + 2 + vl), cnt - 1) {
                    LenOut::More => LenOut::More,
                    LenOut::Bad(k) => LenOut::Bad(k),
                    LenOut::Len(l2) => if end + 2 + vl + l2 <= usize::MAX as int {
                        LenOut::Len(end + 2 + vl + l2)
                    } else {
                        LenOut::More
                    },
                },
            },
        }
    }
}

/// Outcome of parsing one frame from the front of a buffer.
pub enum Parsed {
    /// A complete frame and the exact number of bytes it spans.
    Done(FrameSpec, int),
    /// Too few bytes are buffered; nothing may be consumed.
    More,
    /// A terminal error of the given kind.
    Bad(ErrKind),
}

/// Outcome of parsing a fixed number of consecutive frames.
pub enum ParsedSeq {
    /// The frames in order and the exact number of bytes they span.
    Done(Seq<FrameSpec>, int),
    More,
    Bad(ErrKind),
}

/// Outcome of parsing a fixed number of consecutive map entries.
pub enum ParsedEntries {
    /// The key/value pairs in wire order and the bytes they span.
    Done(Seq<(Seq<char>, FrameSpec)>, int),
    More,
    Bad(ErrKind),
}

/// Parsing a fixed-literal frame: the buffer must start with the exact
/// literal; a shorter buffer is a length error, a mismatch a type error.
pub open spec fn parse_fixed(b: Seq<u8>, lit: Seq<u8>) -> Parsed {
    if b.len() < lit.len() {
        Parsed::Bad(ErrKind::BadLength(b.len() as int))
    } else if b.take(lit.len() as int) == lit {
        Parsed::Done(
            if lit == null_literal() {
                FrameSpec::Null
            } else if lit == null_array_literal() {
                FrameSpec::NullArray
            } else {
                FrameSpec::NullBulkString
            },
            lit.len() as int,
        )
    } else {
        Parsed::Bad(ErrKind::BadType)
    }
}

/// The parser that the executable decoder is proved against: one frame
/// from the front of the buffer, dispatching on the leading marker byte.
///
/// The two shared markers fall back from the length-prefixed variant to
/// the fixed null literal only on a structural failure of the count,
/// never on incompleteness.
pub open spec fn parse_frame(b: Seq<u8>) -> Parsed
    decreases b.len(), 0int,
{
    if b.len() == 0 {
        Parsed::More
    } else if b[0] == POSITIVE_SIGN {
        match scan_simple(b, b[0]) {
            SimpleOut::More => Parsed::More,
            SimpleOut::BadMarker => Parsed::Bad(ErrKind::BadType),
            SimpleOut::Pay { payload, end } => Parsed::Done(
                FrameSpec::SimpleString(text_of_bytes(payload)),
                end + 2,
            ),
        }
    } else if b[0] == NEGATIVE_SIGN {
        match scan_simple(b, b[0]) {
            SimpleOut::More => Parsed::More,
            SimpleOut::BadMarker => Parsed::Bad(ErrKind::BadType),
            SimpleOut::Pay { payload, end } => Parsed::Done(
                FrameSpec::SimpleError(text_of_bytes(payload)),
                end + 2,
            ),
        }
    } else if b[0] == COLON {
        match scan_simple(b, b[0]) {
            SimpleOut::More => Parsed::More,
            SimpleOut::BadMarker => Parsed::Bad(ErrKind::BadType),
            SimpleOut::Pay { payload, end } => match parse_i64_bytes(trim_bytes(payload)) {
                Option::Some(v) => Parsed::Done(FrameSpec::Integer(v), end + 2),
                Option::None => Parsed::Bad(ErrKind::BadInt),
            },
        }
    } else if b[0] == POND_SIGN {
        match scan_simple(b, b[0]) {
            SimpleOut::More => Parsed::More,
            SimpleOut::BadMarker => Parsed::Bad(ErrKind::BadType),
            SimpleOut::Pay { payload, end } => Parsed::Done(
                FrameSpec::Booleans(text_of_bytes(payload) == seq!['t']),
                end + 2,
            ),
        }
    } else if b[0] == COMMA {
        match scan_simple(b, b[0]) {
            SimpleOut::More => Parsed::More,
            SimpleOut::BadMarker => Parsed::Bad(ErrKind::BadType),
            SimpleOut::Pay { payload, end } => if is_float_text(trim_bytes(payload)) {
                Parsed::Done(FrameSpec::Doubles(text_of_bytes(trim_bytes(payload))), end + 2)
            } else {
                Parsed::Bad(ErrKind::BadFloat)
            },
        }
    } else if b[0] == UNDERLINE {
        parse_fixed(b, null_literal())
    } else if b[0] == DOLLAR || b[0] == EXCLAMATION_MARK {
        match scan_simple(b, b[0]) {
            SimpleOut::More => Parsed::More,
            SimpleOut::BadMarker => Parsed::Bad(ErrKind::BadType),
            SimpleOut::Pay { payload, end } => match parse_usize_bytes(payload) {
                Option::Some(n) => if b.len() - (end + 2) < n + 2 {
                    Parsed::More
                } else {
                    Parsed::Done(
                        if b[0] == DOLLAR {
                            FrameSpec::BulkString(b.subrange(end + 2, end + 2 + n))
                        } else {
                            FrameSpec::BulkErrors(b.subrange(end + 2, end + 2 + n))
                        },
                        end + 4 + n,
                    )
                },
                Option::None => if b[0] == DOLLAR {
                    parse_fixed(b, null_bulk_literal())
                } else {
                    Parsed::Bad(ErrKind::BadInt)
                },
            },
        }
    } else if b[0] == ASTERISK || b[0] == TILDE_SIGN {
        match scan_simple(b, b[0]) {
            SimpleOut::More => Parsed::More,
            SimpleOut::BadMarker => Parsed::Bad(ErrKind::BadType),
            SimpleOut::Pay { payload, end } => match parse_usize_bytes(payload) {
                Option::Some(cnt) => match calc_elems(tail_at(b, end + 2), cnt) {
                    LenOut::More => Parsed::More,
                    LenOut::Bad(k) => if b[0] == ASTERISK {
                        parse_fixed(b, null_array_literal())
                    } else {
                        Parsed::Bad(k)
                    },
                    LenOut::Len(l) => if b.len() < end + 2 + l {
                        Parsed::More
                    } else {
                        match parse_elems(tail_at(b, end + 2), cnt) {
                            ParsedSeq::More => Parsed::More,
                            ParsedSeq::Bad(k) => if b[0] == ASTERISK {
                                parse_fixed(b, null_array_literal())
                            } else {
                                Parsed::Bad(k)
                            },
                            ParsedSeq::Done(fs, n) => Parsed::Done(
                                if b[0] == ASTERISK {
                                    FrameSpec::Arrays(fs)
                                } else {
                                    FrameSpec::Sets(fs)
                                },
                                end + 2 + n,
                            ),
                        }
                    },
                },
                Option::None => if b[0] == ASTERISK {
                    parse_fixed(b, null_array_literal())
                } else {
                    Parsed::Bad(ErrKind::BadInt)
                },
            },
        }
    } else if b[0] == PERCENT_SIGN {
        match scan_simple(b, b[0]) {
            SimpleOut::More => Parsed::More,
            SimpleOut::BadMarker => Parsed::Bad(ErrKind::BadType),
            SimpleOut::Pay { payload, end } => match parse_usize_bytes(payload) {
                Option::Some(cnt) => match calc_entries(tail_at(b, end + 2), cnt) {
                    LenOut::More => Parsed::More,
                    LenOut::Bad(k) => Parsed::Bad(k),
                    LenOut::Len(l) => if b.len() < end + 2 + l {
                        Parsed::More
                    } else {
                        match parse_entries(tail_at(b, end + 2), cnt) {
                            ParsedEntries::More => Parsed::More,
                            ParsedEntries::Bad(k) => Parsed::Bad(k),
                            ParsedEntries::Done(ps, n) => Parsed::Done(
                                FrameSpec::Maps(map_from_pairs(ps)),
                                end + 2 + n,
                            ),
                        }
                    },
                },
                Option::None => Parsed::Bad(ErrKind::BadInt),
            },
        }
    } else {
        Parsed::Bad(ErrKind::BadType)
    }
}

/// Parsing `cnt` consecutive frames from the front of the buffer.
pub open spec fn parse_elems(rest: Seq<u8>, cnt: int) -> ParsedSeq
    decreases rest.len(), cnt,
{
    if cnt <= 0 {
        ParsedSeq::Done(Seq::empty(), 0)
    } else {
        match parse_frame(rest) {
            Parsed::More => ParsedSeq::More,
            Parsed::Bad(k) => ParsedSeq::Bad(k),
            Parsed::Done(f, n) => match parse_elems(tail_at(rest, n), cnt - 1) {
                ParsedSeq::More => ParsedSeq::More,
                ParsedSeq::Bad(k) => ParsedSeq::Bad(k),
                ParsedSeq::Done(fs, m) => ParsedSeq::Done(seq![f] + fs, n + m),
            },
        }
    }
}

/// Parsing `cnt` consecutive map entries, each a simple-string key
/// followed by any frame.
pub open spec fn parse_entries(rest: Seq<u8>, cnt: int) -> ParsedEntries
    decreases rest.len(), cnt,
{
    if cnt <= 0 {
        ParsedEntries::Done(Seq::empty(), 0)
    } else {
        match scan_simple(rest, POSITIVE_SIGN) {
            SimpleOut::More => ParsedEntries::More,
            SimpleOut::BadMarker => ParsedEntries::Bad(ErrKind::BadType),
            SimpleOut::Pay { payload, end } => match parse_frame(tail_at(rest, end + 2)) {
                Parsed::More => ParsedEntries::More,
                Parsed::Bad(k) => ParsedEntries::Bad(k),
                Parsed::Done(v, n) => match parse_entries(tail_at(rest, end + 2 + n), cnt - 1) {
                    ParsedEntries::More => ParsedEntries::More,
                    ParsedEntries::Bad(k) => ParsedEntries::Bad(k),
                    ParsedEntries::Done(ps, m) => ParsedEntries::Done(
                        seq![(text_of_bytes(payload), v)] + ps,
                        end + 2 + n + m,
                    ),
                },
            },
        }
    }
}


/// Whether the buffer holds a fully buffered aggregate of this shared or
/// set marker whose nested elements nonetheless fail to parse: the one
/// array/set shape on which the decoder consumes bytes before hitting a
/// terminal error.
pub open spec fn agg_elements_bad(b: Seq<u8>) -> bool {
    b.len() > 0 && match scan_simple(b, b[0]) {
        SimpleOut::Pay { payload, end } => match parse_usize_bytes(payload) {
            Option::Some(cnt) => match calc_elems(tail_at(b, end + 2), cnt) {
                LenOut::Len(l) => b.len() >= end + 2 + l && parse_elems(
                    tail_at(b, end + 2),
                    cnt,
                ) is Bad,
                _ => false,
            },
            Option::None => false,
        },
        _ => false,
    }
}

/// The map form of [`agg_elements_bad`]: a fully buffered map whose
/// entries fail to parse.
pub open spec fn map_entries_bad(b: Seq<u8>) -> bool {
    b.len() > 0 && match scan_simple(b, b[0]) {
        SimpleOut::Pay { payload, end } => match parse_usize_bytes(payload) {
            Option::Some(cnt) => match calc_entries(tail_at(b, end + 2), cnt) {
                LenOut::Len(l) => b.len() >= end + 2 + l && parse_entries(
                    tail_at(b, end + 2),
                    cnt,
                ) is Bad,
                _ => false,
            },
            Option::None => false,
        },
        _ => false,
    }
}

/// Whether a terminal decode error on this buffer comes with bytes
/// already consumed.  A complete but malformed integer or double payload
/// is consumed whole before the parse fails, and a malformed element
/// inside a fully buffered aggregate leaves the header and the leading
/// elements consumed; every other terminal error leaves the buffer
/// untouched.
pub open spec fn terminal_error_consumes(b: Seq<u8>) -> bool {
    b.len() > 0 && (b[0] == COLON || b[0] == COMMA || ((b[0] == ASTERISK || b[0] == TILDE_SIGN)
        && agg_elements_bad(b)) || (b[0] == PERCENT_SIGN && map_entries_bad(b)))
}

} // verus!
