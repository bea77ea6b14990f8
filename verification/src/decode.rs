//! The incremental decoder: consumes bytes from a mutable buffer to
//! produce one frame, never consuming anything unless a complete frame is
//! present, and the pure length calculator it pre-validates aggregates
//! with.
use vstd::prelude::*;

use bytes::BytesMut;

use crate::bytesbuf::buf_advance;
use crate::bytesbuf::buf_slice;
use crate::bytesbuf::bytes_view;
use crate::frame::ASTERISK;
use crate::frame::COLON;
use crate::frame::COMMA;
use crate::frame::CR;
use crate::frame::DOLLAR;
use crate::frame::ErrKind;
use crate::frame::EXCLAMATION_MARK;
use crate::frame::LF;
use crate::frame::NEGATIVE_SIGN;
use crate::frame::PERCENT_SIGN;
use crate::frame::POND_SIGN;
use crate::frame::POSITIVE_SIGN;
use crate::frame::RespError;
use crate::frame::TILDE_SIGN;
use crate::frame::UNDERLINE;
use crate::frame::err_kind;
use crate::frame::FrameSpec;
use crate::frame::RespFrame;
use crate::frame::frame_view;
use crate::frame::frames_view;
use crate::numtext::parse_usize;
use crate::numtext::append_bytes;
use crate::trusted::string_from_bytes_lossy;
use crate::wire::LenOut;
use crate::wire::SimpleOut;
use crate::wire::calc_elems;
use crate::wire::calc_entries;
use crate::wire::calc_fixed;
use crate::wire::calc_len;
use crate::wire::find_crlf;
use crate::wire::find_crlf_from;
use crate::wire::lemma_find_crlf_bounds;
use crate::wire::null_array_literal;
use crate::wire::null_bulk_literal;
use crate::wire::parse_usize_bytes;
use crate::wire::scan_simple;
use crate::wire::Parsed;
use crate::wire::ParsedSeq;
use crate::wire::ParsedEntries;
use crate::wire::parse_frame;
use crate::wire::parse_elems;
use crate::wire::parse_entries;
use crate::wire::parse_fixed;
use crate::wire::null_literal;
use crate::wire::tail_at;

verus! {

/// Finds the position of the first terminator, scanning pairs from one
/// byte after the leading marker.
fn find_first_crlf(buf: &[u8]) -> (r: Option<usize>)
    requires
        buf@.len() >= 1,
    ensures
        match find_crlf(buf@) {
            Option::Some(e) => r matches Option::Some(j) && j as int == e && 1 <= e && e + 1
                < buf@.len(),
            Option::None => r is None,
        },
{
    proof {
        broadcast use lemma_find_crlf_bounds;

    }
    let blen = buf.len();
    let mut i: usize = 1;
    while i < blen - 1 && !(buf[i] == CR && buf[i + 1] == LF)
        invariant
            1 <= i,
            i <= buf@.len(),
            blen == buf@.len(),
            blen >= 1,
            find_crlf(buf@) == find_crlf_from(buf@, i as int),
        decreases buf@.len() - i,
    {
        i = i + 1;
    }
    if i < blen - 1 {
        proof {
            broadcast use lemma_find_crlf_bounds;

        }
        Some(i)
    } else {
        None
    }
}

/// Locates the payload of one simple frame: the buffer must hold the
/// given minimum, start with the marker, and contain a terminator; the
/// returned position is the start of the terminator.
pub fn extract_simple_frame_data(buf: &[u8], prefix: u8, min_len: usize) -> (r: Result<
    usize,
    RespError,
>)
    ensures
        match r {
            Result::Ok(end) => buf@.len() >= min_len && buf@.len() >= 1 && buf@[0] == prefix
                && find_crlf(buf@) == Option::Some(end as int) && 1 <= end && end + 1
                < buf@.len(),
            Result::Err(e) => err_kind(e) == if buf@.len() < min_len {
                ErrKind::Pending
            } else if buf@.len() == 0 || buf@[0] != prefix {
                ErrKind::BadType
            } else {
                ErrKind::Pending
            } && (buf@.len() >= min_len && buf@.len() >= 1 && buf@[0] == prefix ==> find_crlf(
                buf@,
            ) is None),
        },
{
    if buf.len() < min_len {
        return Err(RespError::NotComplete);
    }
    if buf.len() == 0 || buf[0] != prefix {
        return Err(
            RespError::InvalidFrameType(string_from_bytes_lossy("unexpected marker".as_bytes())),
        );
    }
    match find_first_crlf(buf) {
        Option::Some(end) => Ok(end),
        Option::None => Err(RespError::NotComplete),
    }
}

/// Parses the header of a length-prefixed frame: the scan position of its
/// terminator and the declared count.
fn parse_length(buf: &[u8], prefix: u8) -> (r: Result<(usize, usize), RespError>)
    ensures
        match scan_simple(buf@, prefix) {
            SimpleOut::Pay { payload, end } => match parse_usize_bytes(payload) {
                Option::Some(n) => r matches Result::Ok((e, m)) && e as int == end && m as int
                    == n,
                Option::None => r matches Result::Err(e) && err_kind(e) == ErrKind::BadInt,
            },
            SimpleOut::More => r matches Result::Err(e) && e is NotComplete,
            SimpleOut::BadMarker => r matches Result::Err(e) && err_kind(e) == ErrKind::BadType,
        },
{
    proof {
        broadcast use lemma_find_crlf_bounds;

    }
    if buf.len() < 3 {
        return Err(RespError::NotComplete);
    }
    if buf[0] != prefix {
        return Err(
            RespError::InvalidFrameType(string_from_bytes_lossy("unexpected marker".as_bytes())),
        );
    }
    match find_first_crlf(buf) {
        Option::None => Err(RespError::NotComplete),
        Option::Some(end) => {
            let digits = &buf[1..end];
            proof {
                assert(digits@ =~= buf@.subrange(1, end as int));
            }
            match parse_usize(digits) {
                Option::Some(n) => Ok((end, n)),
                Option::None => Err(RespError::ParseIntError(string_from_bytes_lossy(digits))),
            }
        },
    }
}

/// The pure length calculator on one frame: the exact byte length of one
/// complete frame starting at offset zero, computed without consuming
/// anything; aggregates are walked recursively.
pub fn frame_len(buf: &[u8]) -> (r: Result<usize, RespError>)
    ensures
        match calc_len(buf@) {
            LenOut::Len(l) => r matches Result::Ok(m) && m as int == l,
            LenOut::More => r matches Result::Err(e) && e is NotComplete,
            LenOut::Bad(k) => r matches Result::Err(e) && !(e is NotComplete) && err_kind(e)
                == k,
        },
    decreases buf@.len(), 0int,
{
    if buf.len() == 0 {
        return Err(RespError::NotComplete);
    }
    let marker = buf[0];
    if marker == POSITIVE_SIGN || marker == NEGATIVE_SIGN || marker == COLON || marker
        == UNDERLINE || marker == POND_SIGN || marker == COMMA {
        match extract_simple_frame_data(buf, marker, 3) {
            Result::Ok(end) => Ok(end + 2),
            Result::Err(e) => Err(e),
        }
    } else if marker == DOLLAR || marker == EXCLAMATION_MARK {
        match parse_length(buf, marker) {
            Result::Ok((end, n)) => {
                if n <= usize::MAX - 4 && end <= usize::MAX - 4 - n {
                    Ok(end + 4 + n)
                } else {
                    Err(RespError::NotComplete)
                }
            },
            Result::Err(e) => {
                if e_is_not_complete(&e) {
                    Err(e)
                } else if e_is_bad_type(&e) {
                    Err(e)
                } else if marker == DOLLAR {
                    fixed_len(buf, true)
                } else {
                    Err(e)
                }
            },
        }
    } else if marker == ASTERISK || marker == TILDE_SIGN || marker == PERCENT_SIGN {
        match parse_length(buf, marker) {
            Result::Ok((end, cnt)) => {
                let rest = &buf[end + 2..buf.len()];
                proof {
                    assert(rest@ =~= tail_at(buf@, end + 2));
                }
                let inner = if marker == PERCENT_SIGN {
                    entries_len(rest, cnt)
                } else {
                    elems_len(rest, cnt)
                };
                match inner {
                    Result::Ok(l) => {
                        if end <= usize::MAX - 2 && l <= usize::MAX - 2 - end {
                            Ok(end + 2 + l)
                        } else {
                            Err(RespError::NotComplete)
                        }
                    },
                    Result::Err(e) => Err(e),
                }
            },
            Result::Err(e) => {
                if e_is_not_complete(&e) {
                    Err(e)
                } else if e_is_bad_type(&e) {
                    Err(e)
                } else if marker == ASTERISK {
                    fixed_len(buf, false)
                } else {
                    Err(e)
                }
            },
        }
    } else {
        Err(RespError::InvalidFrameType(string_from_bytes_lossy("unknown marker".as_bytes())))
    }
}

/// Whether the error is the incompleteness signal.
fn e_is_not_complete(e: &RespError) -> (r: bool)
    ensures
        r == (*e is NotComplete),
{
    match e {
        RespError::NotComplete => true,
        _ => false,
    }
}

/// Whether the error is a frame type error.
fn e_is_bad_type(e: &RespError) -> (r: bool)
    ensures
        r == (err_kind(*e) == ErrKind::BadType),
{
    match e {
        RespError::InvalidFrameType(_) => true,
        _ => false,
    }
}

/// Length of a null fixed-literal frame, checking the literal itself.
fn fixed_len(buf: &[u8], bulk: bool) -> (r: Result<usize, RespError>)
    ensures
        match calc_fixed(
            buf@,
            if bulk {
                null_bulk_literal()
            } else {
                null_array_literal()
            },
        ) {
            LenOut::Len(l) => r matches Result::Ok(m) && m as int == l,
            LenOut::More => false,
            LenOut::Bad(k) => r matches Result::Err(e) && !(e is NotComplete) && err_kind(e)
                == k,
        },
{
    let lit: [u8; 5] = if bulk {
        [DOLLAR, NEGATIVE_SIGN, 49, CR, LF]
    } else {
        [ASTERISK, NEGATIVE_SIGN, 49, CR, LF]
    };
    proof {
        if bulk {
            assert(lit@ =~= null_bulk_literal());
        } else {
            assert(lit@ =~= null_array_literal());
        }
    }
    if buf.len() < 5 {
        return Err(RespError::InvalidFrameLength(buf.len()));
    }
    let head = &buf[0..5];
    proof {
        assert(head@ =~= buf@.take(5));
    }
    if crate::numtext::bytes_eq(head, lit.as_slice()) {
        Ok(5)
    } else {
        Err(RespError::InvalidFrameType(string_from_bytes_lossy("unexpected literal".as_bytes())))
    }
}

/// Total length of `cnt` consecutive frames starting at offset zero.
fn elems_len(rest: &[u8], cnt: usize) -> (r: Result<usize, RespError>)
    ensures
        match calc_elems(rest@, cnt as int) {
            LenOut::Len(l) => r matches Result::Ok(m) && m as int == l,
            LenOut::More => r matches Result::Err(e) && e is NotComplete,
            LenOut::Bad(k) => r matches Result::Err(e) && !(e is NotComplete) && err_kind(e)
                == k,
        },
    decreases rest@.len(), cnt as int,
{
    if cnt == 0 {
        return Ok(0);
    }
    let l = match frame_len(rest) {
        Result::Ok(l) => l,
        Result::Err(e) => {
            return Err(e);
        },
    };
    let next = if l <= rest.len() {
        &rest[l..rest.len()]
    } else {
        &rest[rest.len()..rest.len()]
    };
    proof {
        assert(next@ =~= tail_at(rest@, l as int));
    }
    match elems_len(next, cnt - 1) {
        Result::Ok(l2) => {
            if l2 <= usize::MAX - l {
                Ok(l + l2)
            } else {
                Err(RespError::NotComplete)
            }
        },
        Result::Err(e) => Err(e),
    }
}

/// Total length of `cnt` consecutive map entries, each a simple-string
/// key followed by any frame.
fn entries_len(rest: &[u8], cnt: usize) -> (r: Result<usize, RespError>)
    ensures
        match calc_entries(rest@, cnt as int) {
            LenOut::Len(l) => r matches Result::Ok(m) && m as int == l,
            LenOut::More => r matches Result::Err(e) && e is NotComplete,
            LenOut::Bad(k) => r matches Result::Err(e) && !(e is NotComplete) && err_kind(e)
                == k,
        },
    decreases rest@.len(), cnt as int,
{
    if cnt == 0 {
        return Ok(0);
    }
    let rlen = rest.len();
    let end = match extract_simple_frame_data(rest, POSITIVE_SIGN, 3) {
        Result::Ok(end) => end,
        Result::Err(e) => {
            return Err(e);
        },
    };
    let after_key = &rest[end + 2..rlen];
    proof {
        assert(after_key@ =~= tail_at(rest@, end + 2));
    }
    let vl = match frame_len(after_key) {
        Result::Ok(vl) => vl,
        Result::Err(e) => {
            return Err(e);
        },
    };
    let next = if vl <= rlen - (end + 2) {
        &rest[end + 2 + vl..rlen]
    } else {
        &rest[rlen..rlen]
    };
    proof {
        assert(next@ =~= tail_at(rest@, end + 2 + vl as int));
    }
    match entries_len(next, cnt - 1) {
        Result::Ok(l2) => {
            if vl <= usize::MAX - (end + 2) && l2 <= usize::MAX - (end + 2) - vl {
                Ok(end + 2 + vl + l2)
            } else {
                Err(RespError::NotComplete)
            }
        },
        Result::Err(e) => Err(e),
    }
}


/// Suffixes compose.
pub proof fn lemma_tail_tail(b: Seq<u8>, i: int, j: int)
    requires
        0 <= i <= b.len(),
        0 <= j,
    ensures
        tail_at(tail_at(b, i), j) == tail_at(b, i + j),
{
    if i + j <= b.len() {
        assert(tail_at(tail_at(b, i), j) =~= tail_at(b, i + j));
    } else {
        assert(tail_at(tail_at(b, i), j) =~= tail_at(b, i + j));
    }
}

/// A parsed count is never negative.
pub proof fn lemma_parse_usize_nonneg(p: Seq<u8>)
    ensures
        parse_usize_bytes(p) matches Option::Some(n) ==> n >= 0,
{
    let d = if p.len() >= 1 && p[0] == POSITIVE_SIGN {
        p.drop_first()
    } else {
        p
    };
    if d.len() >= 1 && crate::wire::all_digits(d) {
        crate::numtext::lemma_digits_val_nonneg(d);
    }
}

/// Where the length calculator finds a complete frame and the buffer
/// holds that many bytes, the parser consumes exactly that span or fails
/// with a terminal error — never with incompleteness.
pub proof fn lemma_calc_parse(b: Seq<u8>)
    ensures
        calc_len(b) matches LenOut::Len(l) ==> 3 <= l && (b.len() >= l ==> match parse_frame(b) {
            Parsed::Done(f, n) => n == l,
            Parsed::More => false,
            Parsed::Bad(k) => true,
        }),
    decreases b.len(), 0int,
{
    broadcast use lemma_find_crlf_bounds;

    if b.len() == 0 {
        return;
    }
    let m = b[0];
    if m == DOLLAR || m == EXCLAMATION_MARK {
        match scan_simple(b, m) {
            SimpleOut::Pay { payload, end } => {
                lemma_parse_usize_nonneg(payload);
            },
            _ => {},
        }
    }
    if m == ASTERISK || m == TILDE_SIGN || m == PERCENT_SIGN {
        match scan_simple(b, m) {
            SimpleOut::Pay { payload, end } => {
                lemma_parse_usize_nonneg(payload);
                match parse_usize_bytes(payload) {
                    Option::Some(cnt) => {
                        if m == PERCENT_SIGN {
                            lemma_calc_parse_entries(tail_at(b, end + 2), cnt);
                        } else {
                            lemma_calc_parse_elems(tail_at(b, end + 2), cnt);
                        }
                    },
                    Option::None => {},
                }
            },
            _ => {},
        }
    }
}

/// The elementwise form of [`lemma_calc_parse`].
pub proof fn lemma_calc_parse_elems(rest: Seq<u8>, cnt: int)
    requires
        cnt >= 0,
    ensures
        calc_elems(rest, cnt) matches LenOut::Len(l) ==> 0 <= l && (rest.len() >= l ==> match
            parse_elems(rest, cnt) {
            ParsedSeq::Done(fs, n) => n == l && fs.len() == cnt,
            ParsedSeq::More => false,
            ParsedSeq::Bad(k) => true,
        }),
    decreases rest.len(), cnt,
{
    if cnt <= 0 {
        return;
    }
    lemma_calc_parse(rest);
    match calc_len(rest) {
        LenOut::Len(l1) => {
            lemma_calc_parse_elems(tail_at(rest, l1), cnt - 1);
            match calc_elems(tail_at(rest, l1), cnt - 1) {
                LenOut::Len(l2) => {
                    if l1 + l2 <= usize::MAX as int && rest.len() >= l1 + l2 {
                        assert(tail_at(rest, l1).len() == rest.len() - l1);
                        match parse_frame(rest) {
                            Parsed::Done(f, n) => {
                                assert(n == l1);
                                match parse_elems(tail_at(rest, n), cnt - 1) {
                                    ParsedSeq::Done(fs2, n2) => {
                                        assert(fs2.len() == cnt - 1);
                                        assert(parse_elems(rest, cnt) == ParsedSeq::Done(
                                            seq![f] + fs2,
                                            n + n2,
                                        ));
                                        assert((seq![f] + fs2).len() == cnt);
                                    },
                                    _ => {},
                                }
                            },
                            _ => {},
                        }
                    }
                },
                _ => {},
            }
        },
        _ => {},
    }
}

/// The entrywise form of [`lemma_calc_parse`].
pub proof fn lemma_calc_parse_entries(rest: Seq<u8>, cnt: int)
    requires
        cnt >= 0,
    ensures
        calc_entries(rest, cnt) matches LenOut::Len(l) ==> 0 <= l && (rest.len() >= l ==> match
            parse_entries(rest, cnt) {
            ParsedEntries::Done(ps, n) => n == l && ps.len() == cnt,
            ParsedEntries::More => false,
            ParsedEntries::Bad(k) => true,
        }),
    decreases rest.len(), cnt,
{
    broadcast use lemma_find_crlf_bounds;

    if cnt <= 0 {
        return;
    }
    match scan_simple(rest, POSITIVE_SIGN) {
        SimpleOut::Pay { payload, end } => {
            lemma_calc_parse(tail_at(rest, end + 2));
            match calc_len(tail_at(rest, end + 2)) {
                LenOut::Len(vl) => {
                    lemma_tail_tail(rest, end + 2, vl);
                    lemma_calc_parse_entries(tail_at(rest, end + 2 + vl), cnt - 1);
                    match calc_entries(tail_at(rest, end + 2 + vl), cnt - 1) {
                        LenOut::Len(l2) => {
                            if end + 2 + vl + l2 <= usize::MAX as int && rest.len() >= end + 2
                                + vl + l2 {
                                assert(tail_at(rest, end + 2).len() == rest.len() - (end + 2));
                                match parse_frame(tail_at(rest, end + 2)) {
                                    Parsed::Done(v, n) => {
                                        assert(n == vl);
                                        match parse_entries(tail_at(rest, end + 2 + n), cnt - 1) {
                                            ParsedEntries::Done(ps2, n2) => {
                                                assert(ps2.len() == cnt - 1);
                                                assert(parse_entries(rest, cnt)
                                                    == ParsedEntries::Done(
                                                    seq![(crate::wire::text_of_bytes(payload), v)]
                                                        + ps2,
                                                    end + 2 + n + n2,
                                                ));
                                                assert((seq![(
                                                    crate::wire::text_of_bytes(payload),
                                                    v,
                                                )] + ps2).len() == cnt);
                                            },
                                            _ => {},
                                        }
                                    },
                                    _ => {},
                                }
                            }
                        },
                        _ => {},
                    }
                },
                _ => {},
            }
        },
        _ => {},
    }
}


/// Removes one simple frame from the front of the buffer and hands back
/// its payload bytes; nothing is consumed unless the frame is complete.
fn take_simple_payload(buf: &mut BytesMut, prefix: u8) -> (r: Result<Vec<u8>, RespError>)
    ensures
        match scan_simple(bytes_view(*old(buf)), prefix) {
            SimpleOut::Pay { payload, end } => r matches Result::Ok(v) && v@ == payload
                && bytes_view(*final(buf)) == tail_at(bytes_view(*old(buf)), end + 2),
            SimpleOut::More => r matches Result::Err(e) && e is NotComplete && bytes_view(
                *final(buf),
            ) == bytes_view(*old(buf)),
            SimpleOut::BadMarker => r matches Result::Err(e) && err_kind(e) == ErrKind::BadType
                && bytes_view(*final(buf)) == bytes_view(*old(buf)),
        },
{
    proof {
        broadcast use lemma_find_crlf_bounds;

    }
    let end: usize;
    let slen: usize;
    {
        let s = buf_slice(buf);
        slen = s.len();
        match extract_simple_frame_data(s, prefix, 3) {
            Result::Ok(e) => {
                end = e;
            },
            Result::Err(e) => {
                return Err(e);
            },
        }
    }
    proof {
        assert(end + 2 <= slen);
    }
    let mut payload: Vec<u8> = Vec::new();
    {
        let s = buf_slice(buf);
        let body = &s[1..end];
        append_bytes(&mut payload, body);
        proof {
            assert(payload@ =~= bytes_view(*buf).subrange(1, end as int));
        }
    }
    buf_advance(buf, end + 2);
    Ok(payload)
}

/// Consumes the exact fixed byte sequence from the front of the buffer;
/// any mismatch is a type error, a shorter buffer a length error.
fn extract_fixed_data(buf: &mut BytesMut, expect: &[u8]) -> (r: Result<(), RespError>)
    ensures
        match parse_fixed(bytes_view(*old(buf)), expect@) {
            Parsed::Done(f, n) => r matches Result::Ok(u) && bytes_view(*final(buf)) == tail_at(
                bytes_view(*old(buf)),
                n,
            ),
            Parsed::More => false,
            Parsed::Bad(k) => r matches Result::Err(e) && !(e is NotComplete) && err_kind(e)
                == k && bytes_view(*final(buf)) == bytes_view(*old(buf)),
        },
{
    let elen = expect.len();
    let matched: bool;
    {
        let s = buf_slice(buf);
        if s.len() < elen {
            return Err(RespError::InvalidFrameLength(s.len()));
        }
        let head = &s[0..elen];
        proof {
            assert(head@ =~= bytes_view(*buf).take(expect@.len() as int));
        }
        matched = crate::numtext::bytes_eq(head, expect);
    }
    if matched {
        buf_advance(buf, elen);
        Ok(())
    } else {
        Err(RespError::InvalidFrameType(string_from_bytes_lossy("unexpected literal".as_bytes())))
    }
}

impl crate::frame::SimpleString {
    /// Decodes one simple string frame: `+OK\r\n`.
    pub fn decode(buf: &mut BytesMut) -> (r: Result<crate::frame::SimpleString, RespError>)
        ensures
            match scan_simple(bytes_view(*old(buf)), POSITIVE_SIGN) {
                SimpleOut::Pay { payload, end } => r matches Result::Ok(s) && s@
                    == crate::wire::text_of_bytes(payload) && bytes_view(*final(buf)) == tail_at(
                    bytes_view(*old(buf)),
                    end + 2,
                ),
                SimpleOut::More => r matches Result::Err(e) && e is NotComplete && bytes_view(
                    *final(buf),
                ) == bytes_view(*old(buf)),
                SimpleOut::BadMarker => r matches Result::Err(e) && err_kind(e)
                    == ErrKind::BadType && bytes_view(*final(buf)) == bytes_view(*old(buf)),
            },
        decreases bytes_view(*buf).len(), 1int,
    {
        let payload = take_simple_payload(buf, POSITIVE_SIGN)?;
        let text = string_from_bytes_lossy(payload.as_slice());
        Ok(crate::frame::SimpleString(text))
    }
}

impl crate::frame::SimpleError {
    /// Decodes one simple error frame: `-Error message\r\n`.
    pub fn decode(buf: &mut BytesMut) -> (r: Result<crate::frame::SimpleError, RespError>)
        ensures
            match scan_simple(bytes_view(*old(buf)), NEGATIVE_SIGN) {
                SimpleOut::Pay { payload, end } => r matches Result::Ok(s) && s@
                    == crate::wire::text_of_bytes(payload) && bytes_view(*final(buf)) == tail_at(
                    bytes_view(*old(buf)),
                    end + 2,
                ),
                SimpleOut::More => r matches Result::Err(e) && e is NotComplete && bytes_view(
                    *final(buf),
                ) == bytes_view(*old(buf)),
                SimpleOut::BadMarker => r matches Result::Err(e) && err_kind(e)
                    == ErrKind::BadType && bytes_view(*final(buf)) == bytes_view(*old(buf)),
            },
        decreases bytes_view(*buf).len(), 1int,
    {
        let payload = take_simple_payload(buf, NEGATIVE_SIGN)?;
        let text = string_from_bytes_lossy(payload.as_slice());
        Ok(crate::frame::SimpleError(text))
    }
}

impl crate::frame::RespInteger {
    /// Decodes one integer frame: `:[<+|->]<value>\r\n`.  A complete but
    /// malformed numeric payload is consumed and reported as a parse
    /// error.
    pub fn decode(buf: &mut BytesMut) -> (r: Result<crate::frame::RespInteger, RespError>)
        ensures
            match scan_simple(bytes_view(*old(buf)), COLON) {
                SimpleOut::Pay { payload, end } => {
                    let consumed = bytes_view(*final(buf)) == tail_at(
                        bytes_view(*old(buf)),
                        end + 2,
                    );
                    match crate::wire::parse_i64_bytes(crate::wire::trim_bytes(payload)) {
                        Option::Some(v) => r matches Result::Ok(s) && s@ == v && consumed,
                        Option::None => r matches Result::Err(e) && err_kind(e)
                            == ErrKind::BadInt && consumed,
                    }
                },
                SimpleOut::More => r matches Result::Err(e) && e is NotComplete && bytes_view(
                    *final(buf),
                ) == bytes_view(*old(buf)),
                SimpleOut::BadMarker => r matches Result::Err(e) && err_kind(e)
                    == ErrKind::BadType && bytes_view(*final(buf)) == bytes_view(*old(buf)),
            },
        decreases bytes_view(*buf).len(), 1int,
    {
        let payload = take_simple_payload(buf, COLON)?;
        let trimmed = crate::numtext::trim_ascii(payload.as_slice());
        match crate::numtext::parse_i64(trimmed) {
            Option::Some(v) => Ok(crate::frame::RespInteger(v)),
            Option::None => Err(RespError::ParseIntError(string_from_bytes_lossy(trimmed))),
        }
    }
}

impl crate::frame::RespBooleans {
    /// Decodes one boolean frame: `#<t|f>\r\n`; any payload other than
    /// the single letter `t` reads as false.
    pub fn decode(buf: &mut BytesMut) -> (r: Result<crate::frame::RespBooleans, RespError>)
        ensures
            match scan_simple(bytes_view(*old(buf)), POND_SIGN) {
                SimpleOut::Pay { payload, end } => r matches Result::Ok(s) && s@
                    == (crate::wire::text_of_bytes(payload) == seq!['t']) && bytes_view(
                    *final(buf),
                ) == tail_at(bytes_view(*old(buf)), end + 2),
                SimpleOut::More => r matches Result::Err(e) && e is NotComplete && bytes_view(
                    *final(buf),
                ) == bytes_view(*old(buf)),
                SimpleOut::BadMarker => r matches Result::Err(e) && err_kind(e)
                    == ErrKind::BadType && bytes_view(*final(buf)) == bytes_view(*old(buf)),
            },
        decreases bytes_view(*buf).len(), 1int,
    {
        let payload = take_simple_payload(buf, POND_SIGN)?;
        let text = string_from_bytes_lossy(payload.as_slice());
        let t = "t".to_owned();
        let is_true = text == t;
        proof {
            reveal_strlit("t");
            assert(t@ =~= seq!['t']);
        }
        Ok(crate::frame::RespBooleans(is_true))
    }
}

impl crate::frame::RespDoubles {
    /// Decodes one double frame: `,<decimal text>\r\n`.  The trimmed
    /// payload must match the float text grammar; it is held as text.
    pub fn decode(buf: &mut BytesMut) -> (r: Result<crate::frame::RespDoubles, RespError>)
        ensures
            match scan_simple(bytes_view(*old(buf)), COMMA) {
                SimpleOut::Pay { payload, end } => {
                    let consumed = bytes_view(*final(buf)) == tail_at(
                        bytes_view(*old(buf)),
                        end + 2,
                    );
                    if crate::wire::is_float_text(crate::wire::trim_bytes(payload)) {
                        r matches Result::Ok(s) && s@ == crate::wire::text_of_bytes(
                            crate::wire::trim_bytes(payload),
                        ) && consumed
                    } else {
                        r matches Result::Err(e) && err_kind(e) == ErrKind::BadFloat && consumed
                    }
                },
                SimpleOut::More => r matches Result::Err(e) && e is NotComplete && bytes_view(
                    *final(buf),
                ) == bytes_view(*old(buf)),
                SimpleOut::BadMarker => r matches Result::Err(e) && err_kind(e)
                    == ErrKind::BadType && bytes_view(*final(buf)) == bytes_view(*old(buf)),
            },
        decreases bytes_view(*buf).len(), 1int,
    {
        let payload = take_simple_payload(buf, COMMA)?;
        let trimmed = crate::numtext::trim_ascii(payload.as_slice());
        if crate::double::check_float_text(trimmed) {
            Ok(crate::frame::RespDoubles(string_from_bytes_lossy(trimmed)))
        } else {
            Err(RespError::ParseFloatError(string_from_bytes_lossy(trimmed)))
        }
    }
}

impl crate::frame::RespNull {
    /// Decodes the fixed null literal `_\r\n`.
    pub fn decode(buf: &mut BytesMut) -> (r: Result<crate::frame::RespNull, RespError>)
        ensures
            match parse_fixed(bytes_view(*old(buf)), null_literal()) {
                Parsed::Done(f, n) => r matches Result::Ok(s) && bytes_view(*final(buf))
                    == tail_at(bytes_view(*old(buf)), n),
                Parsed::More => false,
                Parsed::Bad(k) => r matches Result::Err(e) && !(e is NotComplete) && err_kind(e)
                    == k && bytes_view(*final(buf)) == bytes_view(*old(buf)),
            },
        decreases bytes_view(*buf).len(), 1int,
    {
        let lit: [u8; 3] = [UNDERLINE, CR, LF];
        proof {
            assert(lit@ =~= null_literal());
        }
        extract_fixed_data(buf, lit.as_slice())?;
        Ok(crate::frame::RespNull)
    }
}

impl crate::frame::RespNullArray {
    /// Decodes the fixed null array literal `*-1\r\n`.
    pub fn decode(buf: &mut BytesMut) -> (r: Result<crate::frame::RespNullArray, RespError>)
        ensures
            match parse_fixed(bytes_view(*old(buf)), null_array_literal()) {
                Parsed::Done(f, n) => r matches Result::Ok(s) && bytes_view(*final(buf))
                    == tail_at(bytes_view(*old(buf)), n),
                Parsed::More => false,
                Parsed::Bad(k) => r matches Result::Err(e) && !(e is NotComplete) && err_kind(e)
                    == k && bytes_view(*final(buf)) == bytes_view(*old(buf)),
            },
        decreases bytes_view(*buf).len(), 1int,
    {
        let lit: [u8; 5] = [ASTERISK, NEGATIVE_SIGN, 49, CR, LF];
        proof {
            assert(lit@ =~= null_array_literal());
        }
        extract_fixed_data(buf, lit.as_slice())?;
        Ok(crate::frame::RespNullArray)
    }
}

impl crate::frame::RespNullBulkString {
    /// Decodes the fixed null bulk string literal `$-1\r\n`.
    pub fn decode(buf: &mut BytesMut) -> (r: Result<crate::frame::RespNullBulkString, RespError>)
        ensures
            match parse_fixed(bytes_view(*old(buf)), null_bulk_literal()) {
                Parsed::Done(f, n) => r matches Result::Ok(s) && bytes_view(*final(buf))
                    == tail_at(bytes_view(*old(buf)), n),
                Parsed::More => false,
                Parsed::Bad(k) => r matches Result::Err(e) && !(e is NotComplete) && err_kind(e)
                    == k && bytes_view(*final(buf)) == bytes_view(*old(buf)),
            },
        decreases bytes_view(*buf).len(), 1int,
    {
        let lit: [u8; 5] = [DOLLAR, NEGATIVE_SIGN, 49, CR, LF];
        proof {
            assert(lit@ =~= null_bulk_literal());
        }
        extract_fixed_data(buf, lit.as_slice())?;
        Ok(crate::frame::RespNullBulkString)
    }
}

/// Removes one length-prefixed scalar frame from the front of the buffer
/// and hands back its raw payload bytes unmodified.
fn take_bulk_payload(buf: &mut BytesMut, marker: u8) -> (r: Result<Vec<u8>, RespError>)
    ensures
        ({
            let b = bytes_view(*old(buf));
            match scan_simple(b, marker) {
                SimpleOut::Pay { payload, end } => match parse_usize_bytes(payload) {
                    Option::Some(n) => if b.len() - (end + 2) < n + 2 {
                        r matches Result::Err(e) && e is NotComplete && bytes_view(*final(buf))
                            == b
                    } else {
                        r matches Result::Ok(v) && v@ == b.subrange(end + 2, end + 2 + n)
                            && bytes_view(*final(buf)) == tail_at(b, end + 4 + n)
                    },
                    Option::None => r matches Result::Err(e) && err_kind(e) == ErrKind::BadInt
                        && bytes_view(*final(buf)) == b,
                },
                SimpleOut::More => r matches Result::Err(e) && e is NotComplete && bytes_view(
                    *final(buf),
                ) == b,
                SimpleOut::BadMarker => r matches Result::Err(e) && err_kind(e)
                    == ErrKind::BadType && bytes_view(*final(buf)) == b,
            }
        }),
{
    let end: usize;
    let n: usize;
    {
        let s = buf_slice(buf);
        match parse_length(s, marker) {
            Result::Ok((e, m)) => {
                end = e;
                n = m;
            },
            Result::Err(e) => {
                return Err(e);
            },
        }
    }
    let mut payload: Vec<u8> = Vec::new();
    {
        let s = buf_slice(buf);
        proof {
            broadcast use lemma_find_crlf_bounds;

        }
        if s.len() - (end + 2) < n || (s.len() - (end + 2)) - n < 2 {
            return Err(RespError::NotComplete);
        }
        let body = &s[end + 2..end + 2 + n];
        append_bytes(&mut payload, body);
        proof {
            assert(payload@ =~= bytes_view(*buf).subrange(end + 2, end + 2 + n));
        }
    }
    buf_advance(buf, end + 2 + n + 2);
    proof {
        assert(tail_at(bytes_view(*old(buf)), end + 4 + n) =~= bytes_view(*old(buf)).subrange(
            end + 2 + n + 2,
            bytes_view(*old(buf)).len() as int,
        ));
    }
    Ok(payload)
}

impl crate::frame::RespBulkString {
    /// Decodes one bulk string frame: `$<length>\r\n<data>\r\n`; the
    /// payload is raw bytes, no text assumption is made.
    pub fn decode(buf: &mut BytesMut) -> (r: Result<crate::frame::RespBulkString, RespError>)
        ensures
            ({
                let b = bytes_view(*old(buf));
                match scan_simple(b, DOLLAR) {
                    SimpleOut::Pay { payload, end } => match parse_usize_bytes(payload) {
                        Option::Some(n) => if b.len() - (end + 2) < n + 2 {
                            r matches Result::Err(e) && e is NotComplete && bytes_view(
                                *final(buf),
                            ) == b
                        } else {
                            r matches Result::Ok(v) && v@ == b.subrange(end + 2, end + 2 + n)
                                && bytes_view(*final(buf)) == tail_at(b, end + 4 + n)
                        },
                        Option::None => r matches Result::Err(e) && err_kind(e)
                            == ErrKind::BadInt && bytes_view(*final(buf)) == b,
                    },
                    SimpleOut::More => r matches Result::Err(e) && e is NotComplete
                        && bytes_view(*final(buf)) == b,
                    SimpleOut::BadMarker => r matches Result::Err(e) && err_kind(e)
                        == ErrKind::BadType && bytes_view(*final(buf)) == b,
                }
            }),
        decreases bytes_view(*buf).len(), 1int,
    {
        let payload = take_bulk_payload(buf, DOLLAR)?;
        Ok(crate::frame::RespBulkString(payload))
    }
}

impl crate::frame::RespBulkErrors {
    /// Decodes one bulk error frame: `!<length>\r\n<error>\r\n`.
    pub fn decode(buf: &mut BytesMut) -> (r: Result<crate::frame::RespBulkErrors, RespError>)
        ensures
            ({
                let b = bytes_view(*old(buf));
                match scan_simple(b, EXCLAMATION_MARK) {
                    SimpleOut::Pay { payload, end } => match parse_usize_bytes(payload) {
                        Option::Some(n) => if b.len() - (end + 2) < n + 2 {
                            r matches Result::Err(e) && e is NotComplete && bytes_view(
                                *final(buf),
                            ) == b
                        } else {
                            r matches Result::Ok(v) && v@ == b.subrange(end + 2, end + 2 + n)
                                && bytes_view(*final(buf)) == tail_at(b, end + 4 + n)
                        },
                        Option::None => r matches Result::Err(e) && err_kind(e)
                            == ErrKind::BadInt && bytes_view(*final(buf)) == b,
                    },
                    SimpleOut::More => r matches Result::Err(e) && e is NotComplete
                        && bytes_view(*final(buf)) == b,
                    SimpleOut::BadMarker => r matches Result::Err(e) && err_kind(e)
                        == ErrKind::BadType && bytes_view(*final(buf)) == b,
                }
            }),
        decreases bytes_view(*buf).len(), 1int,
    {
        let payload = take_bulk_payload(buf, EXCLAMATION_MARK)?;
        Ok(crate::frame::RespBulkErrors(payload))
    }
}


/// Inserting the pairs one more step folds through `map_insert`.
pub proof fn lemma_map_from_pairs_take_step(ps: Seq<(Seq<char>, FrameSpec)>, i: int)
    requires
        0 <= i < ps.len(),
    ensures
        crate::wire::map_from_pairs(ps.take(i + 1)) == crate::wire::map_insert(
            crate::wire::map_from_pairs(ps.take(i)),
            ps[i].0,
            ps[i].1,
        ),
{
    assert(ps.take(i + 1).drop_last() =~= ps.take(i));
    assert(ps.take(i + 1).last() == ps[i]);
}

impl crate::frame::RespMaps {
    /// An empty map frame.
    pub fn new() -> (r: crate::frame::RespMaps)
        ensures
            r@ == Seq::<(Seq<char>, FrameSpec)>::empty(),
    {
        let v: Vec<(String, RespFrame)> = Vec::new();
        proof {
            broadcast use crate::frame::lemma_entries_view;

            assert(crate::frame::entries_view(v@) =~= Seq::<(Seq<char>, FrameSpec)>::empty());
        }
        crate::frame::RespMaps(v)
    }

    /// Inserts an entry at its position in ascending key order; an entry
    /// with the same key is replaced, so keys stay unique.
    pub fn insert(&mut self, key: String, value: RespFrame)
        ensures
            final(self)@ == crate::wire::map_insert(old(self)@, key@, frame_view(value)),
    {
        proof {
            broadcast use crate::frame::lemma_entries_view;
            broadcast use vstd::utf8::encode_utf8_decode_utf8;

        }
        let ghost emap = crate::frame::entries_view(self.0@);
        let ghost k = key@;
        let ghost v = frame_view(value);
        let mut j: usize = 0;
        proof {
            assert(emap.take(0) =~= Seq::<(Seq<char>, FrameSpec)>::empty());
            assert(emap.skip(0) =~= emap);
            assert(crate::wire::map_insert(emap, k, v) == emap.take(0) + crate::wire::map_insert(
                emap.skip(0),
                k,
                v,
            ));
        }
        while j < self.0.len()
            invariant
                j <= self.0@.len(),
                self.0@ == old(self).0@,
                emap == crate::frame::entries_view(self.0@),
                emap.len() == self.0@.len(),
                k == key@,
                v == frame_view(value),
                crate::wire::map_insert(emap, k, v) == emap.take(j as int)
                    + crate::wire::map_insert(emap.skip(j as int), k, v),
            decreases self.0@.len() - j,
        {
            proof {
                broadcast use crate::frame::lemma_entries_view;
                broadcast use vstd::utf8::encode_utf8_decode_utf8;

                assert(emap.skip(j as int).first() == emap[j as int]);
                assert(emap[j as int] == (self.0@[j as int].0@, frame_view(self.0@[j as int].1)));
            }
            let kb = key.as_str().as_bytes();
            let eb = self.0[j].0.as_str().as_bytes();
            if crate::numtext::bytes_before(kb, eb) {
                // The new key orders strictly before this entry.
                self.0.insert(j, (key, value));
                proof {
                    broadcast use crate::frame::lemma_entries_view;

                    assert(crate::wire::map_insert(emap.skip(j as int), k, v) == seq![(k, v)]
                        + emap.skip(j as int));
                    assert(crate::frame::entries_view(self.0@) =~= emap.take(j as int) + (seq![
                        (k, v),
                    ] + emap.skip(j as int)));
                    assert(crate::frame::entries_view(self.0@) =~= crate::wire::map_insert(
                        emap,
                        k,
                        v,
                    ));
                }
                return ;
            }
            if crate::numtext::bytes_eq(kb, eb) {
                proof {
                    assert(vstd::utf8::encode_utf8(k) == vstd::utf8::encode_utf8(
                        emap[j as int].0,
                    ));
                    vstd::utf8::encode_utf8_decode_utf8(k);
                    vstd::utf8::encode_utf8_decode_utf8(emap[j as int].0);
                    assert(k == emap[j as int].0);
                    assert(!crate::wire::key_lt(k, emap.skip(j as int).first().0));
                }
                // Same key: the later write wins.
                let ghost pre = self.0@;
                self.0.set(j, (key, value));
                proof {
                    broadcast use crate::frame::lemma_entries_view;

                    assert(crate::wire::map_insert(emap.skip(j as int), k, v) == seq![(k, v)]
                        + emap.skip(j as int).drop_first());
                    assert(emap.skip(j as int).drop_first() =~= emap.skip(j as int + 1));
                    assert(crate::frame::entries_view(self.0@) =~= emap.take(j as int) + (seq![
                        (k, v),
                    ] + emap.skip(j as int + 1)));
                    assert(crate::frame::entries_view(self.0@) =~= crate::wire::map_insert(
                        emap,
                        k,
                        v,
                    ));
                }
                return ;
            }
            proof {
                assert(k != emap[j as int].0) by {
                    if k == emap[j as int].0 {
                        assert(vstd::utf8::encode_utf8(k) == vstd::utf8::encode_utf8(
                            emap[j as int].0,
                        ));
                    }
                }
                assert(crate::wire::map_insert(emap.skip(j as int), k, v) == seq![
                    emap.skip(j as int).first(),
                ] + crate::wire::map_insert(emap.skip(j as int).drop_first(), k, v));
                assert(emap.skip(j as int).drop_first() =~= emap.skip(j as int + 1));
                assert(emap.take(j as int + 1) =~= emap.take(j as int) + seq![emap[j as int]]);
                assert(emap.take(j as int) + crate::wire::map_insert(emap.skip(j as int), k, v)
                    =~= emap.take(j as int + 1) + crate::wire::map_insert(
                    emap.skip(j as int + 1),
                    k,
                    v,
                ));
            }
            j = j + 1;
        }
        proof {
            assert(emap.skip(emap.len() as int) =~= Seq::<(Seq<char>, FrameSpec)>::empty());
        }
        self.0.push((key, value));
        proof {
            broadcast use crate::frame::lemma_entries_view;

            assert(crate::wire::map_insert(Seq::<(Seq<char>, FrameSpec)>::empty(), k, v) =~= seq![
                (k, v),
            ]);
            assert(crate::frame::entries_view(self.0@) =~= emap.take(emap.len() as int) + seq![
                (k, v),
            ]);
            assert(crate::frame::entries_view(self.0@) =~= crate::wire::map_insert(emap, k, v));
        }
    }
}


/// Decodes exactly `cnt` consecutive frames, whose total span the length
/// calculator has already validated to be present.
#[verifier::rlimit(100)]
fn decode_n_elems(buf: &mut BytesMut, cnt: usize) -> (r: Result<Vec<RespFrame>, RespError>)
    requires
        calc_elems(bytes_view(*old(buf)), cnt as int) matches LenOut::Len(l) && bytes_view(
            *old(buf),
        ).len() >= l,
    ensures
        ({
            let rest0 = bytes_view(*old(buf));
            match parse_elems(rest0, cnt as int) {
                ParsedSeq::Done(fs, n) => r matches Result::Ok(v) && frames_view(v@) == fs
                    && bytes_view(*final(buf)) == tail_at(rest0, n),
                ParsedSeq::Bad(k) => r matches Result::Err(e) && !(e is NotComplete) && err_kind(
                    e,
                ) == k && (exists|u: int|
                    0 <= u <= rest0.len() && bytes_view(*final(buf)) == tail_at(rest0, u)),
                ParsedSeq::More => false,
            }
        }),
    decreases bytes_view(*buf).len(), 5int,
{
    let ghost rest0 = bytes_view(*buf);
    let ghost pe = parse_elems(rest0, cnt as int);
    proof {
        lemma_calc_parse_elems(rest0, cnt as int);
        lemma_parse_elems_nonneg(rest0, cnt as int);
        assert(!(pe is More));
        assert(tail_at(rest0, 0) =~= rest0);
        match pe {
            ParsedSeq::Done(fs, n) => {
                assert(fs.take(0) =~= Seq::<FrameSpec>::empty());
                assert(fs.skip(0) =~= fs);
            },
            _ => {},
        }
    }
    let mut out: Vec<RespFrame> = Vec::new();
    let ghost mut used: int = 0;
    let mut i: usize = 0;
    while i < cnt
        invariant
            i <= cnt,
            out@.len() == i as int,
            rest0 == bytes_view(*old(buf)),
            0 <= used <= rest0.len(),
            bytes_view(*buf) == tail_at(rest0, used),
            pe == parse_elems(rest0, cnt as int),
            !(pe is More),
            match pe {
                ParsedSeq::Done(fs, n) => frames_view(out@) == fs.take(i as int) && fs.len()
                    == cnt && 0 <= n <= rest0.len() && parse_elems(
                    tail_at(rest0, used),
                    cnt - i as int,
                ) == ParsedSeq::Done(fs.skip(i as int), n - used),
                ParsedSeq::Bad(k) => parse_elems(tail_at(rest0, used), cnt - i as int)
                    == ParsedSeq::Bad(k),
                ParsedSeq::More => false,
            },
        decreases cnt - i,
    {
        let ghost cur = tail_at(rest0, used);
        proof {
            broadcast use crate::frame::lemma_frames_view;

        }
        match RespFrame::decode(buf) {
            Result::Ok(f) => {
                proof {
                    match parse_frame(cur) {
                        Parsed::Done(f0, n0) => {
                            lemma_parse_frame_nonneg(cur);
                            lemma_tail_tail(rest0, used, n0);
                            match pe {
                                ParsedSeq::Done(fs, n) => {
                                    match parse_elems(tail_at(cur, n0), cnt - i as int - 1) {
                                        ParsedSeq::Done(fs2, m) => {
                                            assert(seq![f0] + fs2 == fs.skip(i as int) && n0 + m
                                                == n - used);
                                            assert((seq![f0] + fs2)[0] == f0);
                                            assert(fs.skip(i as int)[0] == fs[i as int]);
                                            assert(f0 == fs[i as int]);
                                            assert((seq![f0] + fs2).drop_first() =~= fs2);
                                            assert(fs.skip(i as int).drop_first() =~= fs.skip(
                                                i as int + 1,
                                            ));
                                        },
                                        _ => {
                                            assert(false);
                                        },
                                    }
                                    assert(frames_view(out@.push(f)) =~= fs.take(i as int + 1));
                                    assert(0 <= used + n0 <= rest0.len()) by {
                                        assert(n - used - n0 >= 0) by {
                                            lemma_parse_elems_nonneg(
                                                tail_at(cur, n0),
                                                cnt - i as int - 1,
                                            );
                                        }
                                        assert(n0 >= 0) by {
                                            lemma_parse_frame_nonneg(cur);
                                        }
                                    }
                                },
                                ParsedSeq::Bad(k) => {
                                    assert(parse_elems(tail_at(cur, n0), cnt - i as int - 1)
                                        == ParsedSeq::Bad(k));
                                    assert(0 <= used + n0 <= rest0.len()) by {
                                        lemma_parse_frame_nonneg(cur);
                                        assert(n0 <= cur.len());
                                    }
                                },
                                ParsedSeq::More => {},
                            }
                            used = used + n0;
                        },
                        _ => {
                            assert(false);
                        },
                    }
                }
                out.push(f);
            },
            Result::Err(e) => {
                proof {
                    match parse_frame(cur) {
                        Parsed::Done(f0, n0) => {
                            assert(false);
                        },
                        Parsed::More => {
                            assert(false);
                        },
                        Parsed::Bad(k0) => {
                            match pe {
                                ParsedSeq::Done(fs, n) => {
                                    assert(false);
                                },
                                _ => {},
                            }
                            let u0 = choose|u0: int|
                                0 <= u0 <= cur.len() && bytes_view(*buf) == tail_at(cur, u0);
                            lemma_tail_tail(rest0, used, u0);
                            assert(0 <= used + u0 <= rest0.len() && bytes_view(*buf) == tail_at(
                                rest0,
                                used + u0,
                            ));
                        },
                    }
                }
                return Err(e);
            },
        }
        i = i + 1;
    }
    proof {
        match pe {
            ParsedSeq::Done(fs, n) => {
                assert(parse_elems(tail_at(rest0, used), 0) == ParsedSeq::Done(
                    Seq::<FrameSpec>::empty(),
                    0,
                ));
                assert(fs.take(cnt as int) =~= fs);
                assert(used == n);
            },
            _ => {},
        }
    }
    Ok(out)
}

/// A parsed frame always spans at least one byte and never more than the
/// buffer.
pub proof fn lemma_parse_frame_nonneg(b: Seq<u8>)
    ensures
        parse_frame(b) matches Parsed::Done(f, n) ==> 0 <= n <= b.len(),
    decreases b.len(), 0int,
{
    broadcast use lemma_find_crlf_bounds;

    if b.len() == 0 {
        return;
    }
    if b[0] == DOLLAR || b[0] == EXCLAMATION_MARK {
        match scan_simple(b, b[0]) {
            SimpleOut::Pay { payload, end } => {
                lemma_parse_usize_nonneg(payload);
            },
            _ => {},
        }
    }
    if b[0] == ASTERISK || b[0] == TILDE_SIGN || b[0] == PERCENT_SIGN {
        match scan_simple(b, b[0]) {
            SimpleOut::Pay { payload, end } => {
                lemma_parse_usize_nonneg(payload);
                match parse_usize_bytes(payload) {
                    Option::Some(cnt) => {
                        if b[0] == PERCENT_SIGN {
                            lemma_parse_entries_nonneg(tail_at(b, end + 2), cnt);
                        } else {
                            lemma_parse_elems_nonneg(tail_at(b, end + 2), cnt);
                        }
                    },
                    Option::None => {},
                }
            },
            _ => {},
        }
    }
}

/// Parsed frame sequences span a nonnegative count of bytes, within the
/// buffer.
pub proof fn lemma_parse_elems_nonneg(rest: Seq<u8>, cnt: int)
    ensures
        parse_elems(rest, cnt) matches ParsedSeq::Done(fs, n) ==> 0 <= n <= rest.len(),
    decreases rest.len(), cnt,
{
    if cnt <= 0 {
        return;
    }
    lemma_parse_frame_nonneg(rest);
    match parse_frame(rest) {
        Parsed::Done(f, n0) => {
            lemma_parse_elems_nonneg(tail_at(rest, n0), cnt - 1);
        },
        _ => {},
    }
}

/// Parsed map entries span a nonnegative count of bytes, within the
/// buffer.
pub proof fn lemma_parse_entries_nonneg(rest: Seq<u8>, cnt: int)
    ensures
        parse_entries(rest, cnt) matches ParsedEntries::Done(ps, n) ==> 0 <= n <= rest.len(),
    decreases rest.len(), cnt,
{
    broadcast use lemma_find_crlf_bounds;

    if cnt <= 0 {
        return;
    }
    match scan_simple(rest, POSITIVE_SIGN) {
        SimpleOut::Pay { payload, end } => {
            lemma_parse_frame_nonneg(tail_at(rest, end + 2));
            match parse_frame(tail_at(rest, end + 2)) {
                Parsed::Done(v, n0) => {
                    lemma_parse_entries_nonneg(tail_at(rest, end + 2 + n0), cnt - 1);
                },
                _ => {},
            }
        },
        _ => {},
    }
}


/// Decodes exactly `cnt` consecutive map entries, whose total span the
/// length calculator has already validated to be present; entries land in
/// ascending key order, a repeated key keeps the later value.
#[verifier::rlimit(100)]
fn decode_n_entries(buf: &mut BytesMut, cnt: usize) -> (r: Result<
    crate::frame::RespMaps,
    RespError,
>)
    requires
        calc_entries(bytes_view(*old(buf)), cnt as int) matches LenOut::Len(l) && bytes_view(
            *old(buf),
        ).len() >= l,
    ensures
        ({
            let rest0 = bytes_view(*old(buf));
            match parse_entries(rest0, cnt as int) {
                ParsedEntries::Done(ps, n) => r matches Result::Ok(m) && m@
                    == crate::wire::map_from_pairs(ps) && bytes_view(*final(buf)) == tail_at(
                    rest0,
                    n,
                ),
                ParsedEntries::Bad(k) => r matches Result::Err(e) && !(e is NotComplete)
                    && err_kind(e) == k && (exists|u: int|
                    0 <= u <= rest0.len() && bytes_view(*final(buf)) == tail_at(rest0, u)),
                ParsedEntries::More => false,
            }
        }),
    decreases bytes_view(*buf).len(), 5int,
{
    let ghost rest0 = bytes_view(*buf);
    let ghost pe = parse_entries(rest0, cnt as int);
    proof {
        lemma_calc_parse_entries(rest0, cnt as int);
        lemma_parse_entries_nonneg(rest0, cnt as int);
        assert(!(pe is More));
        assert(tail_at(rest0, 0) =~= rest0);
        match pe {
            ParsedEntries::Done(ps, n) => {
                assert(ps.take(0) =~= Seq::<(Seq<char>, FrameSpec)>::empty());
                assert(ps.skip(0) =~= ps);
            },
            _ => {},
        }
    }
    let mut out = crate::frame::RespMaps::new();
    let ghost mut used: int = 0;
    let mut i: usize = 0;
    while i < cnt
        invariant
            i <= cnt,
            rest0 == bytes_view(*old(buf)),
            0 <= used <= rest0.len(),
            bytes_view(*buf) == tail_at(rest0, used),
            pe == parse_entries(rest0, cnt as int),
            !(pe is More),
            match pe {
                ParsedEntries::Done(ps, n) => out@ == crate::wire::map_from_pairs(
                    ps.take(i as int),
                ) && ps.len() == cnt && 0 <= n <= rest0.len() && parse_entries(
                    tail_at(rest0, used),
                    cnt - i as int,
                ) == ParsedEntries::Done(ps.skip(i as int), n - used),
                ParsedEntries::Bad(k) => parse_entries(tail_at(rest0, used), cnt - i as int)
                    == ParsedEntries::Bad(k),
                ParsedEntries::More => false,
            },
        decreases cnt - i,
    {
        let ghost cur = tail_at(rest0, used);
        let key = match crate::frame::SimpleString::decode(buf) {
            Result::Ok(k) => k,
            Result::Err(e) => {
                proof {
                    match scan_simple(cur, POSITIVE_SIGN) {
                        SimpleOut::Pay { payload, end } => {
                            assert(false);
                        },
                        SimpleOut::More => {
                            assert(false);
                        },
                        SimpleOut::BadMarker => {
                            assert(bytes_view(*buf) == tail_at(rest0, used));
                        },
                    }
                }
                return Err(e);
            },
        };
        let ghost kend = scan_simple(cur, POSITIVE_SIGN)->Pay_end;
        let ghost kpay = scan_simple(cur, POSITIVE_SIGN)->Pay_payload;
        proof {
            lemma_tail_tail(rest0, used, kend + 2);
        }
        let ghost cur2 = tail_at(rest0, used + kend + 2);
        let value = match RespFrame::decode(buf) {
            Result::Ok(v) => v,
            Result::Err(e) => {
                proof {
                    match parse_frame(cur2) {
                        Parsed::Done(v0, n0) => {
                            assert(false);
                        },
                        Parsed::More => {
                            assert(false);
                        },
                        Parsed::Bad(k0) => {
                            let u0 = choose|u0: int|
                                0 <= u0 <= cur2.len() && bytes_view(*buf) == tail_at(cur2, u0);
                            lemma_tail_tail(rest0, used + kend + 2, u0);
                            assert(0 <= used + kend + 2 + u0 <= rest0.len() && bytes_view(*buf)
                                == tail_at(rest0, used + kend + 2 + u0));
                        },
                    }
                }
                return Err(e);
            },
        };
        let ghost n0 = parse_frame(cur2)->Done_1;
        let ghost v0 = parse_frame(cur2)->Done_0;
        proof {
            lemma_parse_frame_nonneg(cur2);
            lemma_tail_tail(rest0, used + kend + 2, n0);
            lemma_tail_tail(rest0, used, kend + 2 + n0);
            lemma_tail_tail(cur, kend + 2, n0);
            match pe {
                ParsedEntries::Done(ps, n) => {
                    match parse_entries(tail_at(cur2, n0), cnt - i as int - 1) {
                        ParsedEntries::Done(ps2, m) => {
                            assert(seq![(crate::wire::text_of_bytes(kpay), v0)] + ps2 == ps.skip(
                                i as int,
                            ) && kend + 2 + n0 + m == n - used);
                            assert((seq![(crate::wire::text_of_bytes(kpay), v0)] + ps2)[0]
                                == (crate::wire::text_of_bytes(kpay), v0));
                            assert(ps.skip(i as int)[0] == ps[i as int]);
                            assert((seq![(crate::wire::text_of_bytes(kpay), v0)]
                                + ps2).drop_first() =~= ps2);
                            assert(ps.skip(i as int).drop_first() =~= ps.skip(i as int + 1));
                            lemma_map_from_pairs_take_step(ps, i as int);
                            assert(0 <= used + kend + 2 + n0 <= rest0.len()) by {
                                lemma_parse_entries_nonneg(
                                    tail_at(cur2, n0),
                                    cnt - i as int - 1,
                                );
                            }
                        },
                        _ => {
                            assert(false);
                        },
                    }
                },
                ParsedEntries::Bad(k) => {
                    assert(parse_entries(tail_at(cur2, n0), cnt - i as int - 1)
                        == ParsedEntries::Bad(k));
                    assert(0 <= used + kend + 2 + n0 <= rest0.len()) by {
                        assert(n0 <= cur2.len());
                    }
                },
                ParsedEntries::More => {},
            }
            used = used + kend + 2 + n0;
        }
        out.insert(key.0, value);
        i = i + 1;
    }
    proof {
        match pe {
            ParsedEntries::Done(ps, n) => {
                assert(parse_entries(tail_at(rest0, used), 0) == ParsedEntries::Done(
                    Seq::<(Seq<char>, FrameSpec)>::empty(),
                    0,
                ));
                assert(ps.take(cnt as int) =~= ps);
                assert(used == n);
            },
            _ => {},
        }
    }
    Ok(out)
}


impl crate::frame::RespArray {
    /// Decodes one array frame, pre-validating with the length calculator
    /// that the whole nested structure is present before consuming
    /// anything.
    pub fn decode(buf: &mut BytesMut) -> (r: Result<crate::frame::RespArray, RespError>)
        ensures
            ({
                let b = bytes_view(*old(buf));
                match scan_simple(b, ASTERISK) {
                    SimpleOut::Pay { payload, end } => match parse_usize_bytes(payload) {
                        Option::Some(cnt) => match calc_elems(tail_at(b, end + 2), cnt) {
                            LenOut::More => r matches Result::Err(e) && e is NotComplete
                                && bytes_view(*final(buf)) == b,
                            LenOut::Bad(k) => r matches Result::Err(e) && !(e is NotComplete)
                                && err_kind(e) == k && bytes_view(*final(buf)) == b,
                            LenOut::Len(l) => if b.len() < end + 2 + l {
                                r matches Result::Err(e) && e is NotComplete && bytes_view(
                                    *final(buf),
                                ) == b
                            } else {
                                match parse_elems(tail_at(b, end + 2), cnt) {
                                    ParsedSeq::Done(fs, n) => r matches Result::Ok(a) && a@
                                        == fs && bytes_view(*final(buf)) == tail_at(
                                        b,
                                        end + 2 + n,
                                    ),
                                    ParsedSeq::Bad(k) => r matches Result::Err(e) && !(e
                                        is NotComplete) && err_kind(e) == k && (exists|u: int|
                                        0 <= u <= b.len() && bytes_view(*final(buf)) == tail_at(
                                            b,
                                            u,
                                        )),
                                    ParsedSeq::More => false,
                                }
                            },
                        },
                        Option::None => r matches Result::Err(e) && err_kind(e)
                            == ErrKind::BadInt && bytes_view(*final(buf)) == b,
                    },
                    SimpleOut::More => r matches Result::Err(e) && e is NotComplete
                        && bytes_view(*final(buf)) == b,
                    SimpleOut::BadMarker => r matches Result::Err(e) && err_kind(e)
                        == ErrKind::BadType && bytes_view(*final(buf)) == b,
                }
            }),
        decreases bytes_view(*buf).len(), 3int,
    {
        let v = decode_agg_elems(buf, ASTERISK)?;
        Ok(crate::frame::RespArray(v))
    }
}

impl crate::frame::RespSets {
    /// Decodes one set frame; the representation is an ordered sequence
    /// and duplicates are not rejected.
    pub fn decode(buf: &mut BytesMut) -> (r: Result<crate::frame::RespSets, RespError>)
        ensures
            ({
                let b = bytes_view(*old(buf));
                match scan_simple(b, TILDE_SIGN) {
                    SimpleOut::Pay { payload, end } => match parse_usize_bytes(payload) {
                        Option::Some(cnt) => match calc_elems(tail_at(b, end + 2), cnt) {
                            LenOut::More => r matches Result::Err(e) && e is NotComplete
                                && bytes_view(*final(buf)) == b,
                            LenOut::Bad(k) => r matches Result::Err(e) && !(e is NotComplete)
                                && err_kind(e) == k && bytes_view(*final(buf)) == b,
                            LenOut::Len(l) => if b.len() < end + 2 + l {
                                r matches Result::Err(e) && e is NotComplete && bytes_view(
                                    *final(buf),
                                ) == b
                            } else {
                                match parse_elems(tail_at(b, end + 2), cnt) {
                                    ParsedSeq::Done(fs, n) => r matches Result::Ok(a) && a@
                                        == fs && bytes_view(*final(buf)) == tail_at(
                                        b,
                                        end + 2 + n,
                                    ),
                                    ParsedSeq::Bad(k) => r matches Result::Err(e) && !(e
                                        is NotComplete) && err_kind(e) == k && (exists|u: int|
                                        0 <= u <= b.len() && bytes_view(*final(buf)) == tail_at(
                                            b,
                                            u,
                                        )),
                                    ParsedSeq::More => false,
                                }
                            },
                        },
                        Option::None => r matches Result::Err(e) && err_kind(e)
                            == ErrKind::BadInt && bytes_view(*final(buf)) == b,
                    },
                    SimpleOut::More => r matches Result::Err(e) && e is NotComplete
                        && bytes_view(*final(buf)) == b,
                    SimpleOut::BadMarker => r matches Result::Err(e) && err_kind(e)
                        == ErrKind::BadType && bytes_view(*final(buf)) == b,
                }
            }),
        decreases bytes_view(*buf).len(), 3int,
    {
        let v = decode_agg_elems(buf, TILDE_SIGN)?;
        Ok(crate::frame::RespSets(v))
    }
}

/// The shared body of array and set decoding: parse the count, compute
/// the total span, bail out unless it is fully buffered, and only after
/// that consume the header and the elements.
fn decode_agg_elems(buf: &mut BytesMut, marker: u8) -> (r: Result<Vec<RespFrame>, RespError>)
    ensures
        ({
            let b = bytes_view(*old(buf));
            match scan_simple(b, marker) {
                SimpleOut::Pay { payload, end } => match parse_usize_bytes(payload) {
                    Option::Some(cnt) => match calc_elems(tail_at(b, end + 2), cnt) {
                        LenOut::More => r matches Result::Err(e) && e is NotComplete
                            && bytes_view(*final(buf)) == b,
                        LenOut::Bad(k) => r matches Result::Err(e) && !(e is NotComplete)
                            && err_kind(e) == k && bytes_view(*final(buf)) == b,
                        LenOut::Len(l) => if b.len() < end + 2 + l {
                            r matches Result::Err(e) && e is NotComplete && bytes_view(
                                *final(buf),
                            ) == b
                        } else {
                            match parse_elems(tail_at(b, end + 2), cnt) {
                                ParsedSeq::Done(fs, n) => r matches Result::Ok(v)
                                    && frames_view(v@) == fs && bytes_view(*final(buf))
                                    == tail_at(b, end + 2 + n),
                                ParsedSeq::Bad(k) => r matches Result::Err(e) && !(e
                                    is NotComplete) && err_kind(e) == k && (exists|u: int|
                                    0 <= u <= b.len() && bytes_view(*final(buf)) == tail_at(
                                        b,
                                        u,
                                    )),
                                ParsedSeq::More => false,
                            }
                        },
                    },
                    Option::None => r matches Result::Err(e) && err_kind(e) == ErrKind::BadInt
                        && bytes_view(*final(buf)) == b,
                },
                SimpleOut::More => r matches Result::Err(e) && e is NotComplete && bytes_view(
                    *final(buf),
                ) == b,
                SimpleOut::BadMarker => r matches Result::Err(e) && err_kind(e)
                    == ErrKind::BadType && bytes_view(*final(buf)) == b,
            }
        }),
    decreases bytes_view(*buf).len(), 2int,
{
    let ghost b = bytes_view(*buf);
    let end: usize;
    let cnt: usize;
    let total_inner: usize;
    let slen: usize;
    {
        let s = buf_slice(buf);
        slen = s.len();
        match parse_length(s, marker) {
            Result::Ok((e, c)) => {
                end = e;
                cnt = c;
            },
            Result::Err(e) => {
                return Err(e);
            },
        }
        proof {
            broadcast use lemma_find_crlf_bounds;

        }
        let rest = &s[end + 2..slen];
        proof {
            assert(rest@ =~= tail_at(b, end + 2));
        }
        match elems_len(rest, cnt) {
            Result::Ok(l) => {
                total_inner = l;
            },
            Result::Err(e) => {
                return Err(e);
            },
        }
        if slen - (end + 2) < total_inner {
            return Err(RespError::NotComplete);
        }
    }
    buf_advance(buf, end + 2);
    proof {
        assert(bytes_view(*buf) =~= tail_at(b, end + 2));
        assert(calc_elems(bytes_view(*buf), cnt as int) == LenOut::Len(total_inner as int));
        assert(bytes_view(*buf).len() >= total_inner as int);
    }
    match decode_n_elems(buf, cnt) {
        Result::Ok(out) => {
            proof {
                match parse_elems(tail_at(b, end + 2), cnt as int) {
                    ParsedSeq::Done(fs, n) => {
                        lemma_parse_elems_nonneg(tail_at(b, end + 2), cnt as int);
                        lemma_tail_tail(b, end + 2, n);
                    },
                    _ => {},
                }
            }
            Ok(out)
        },
        Result::Err(e) => {
            proof {
                match parse_elems(tail_at(b, end + 2), cnt as int) {
                    ParsedSeq::Bad(k) => {
                        let u0 = choose|u0: int|
                            0 <= u0 <= tail_at(b, end + 2).len() && bytes_view(*buf)
                                == #[trigger] tail_at(tail_at(b, end + 2), u0);
                        lemma_tail_tail(b, end + 2, u0);
                        assert(0 <= end + 2 + u0 <= b.len() && bytes_view(*buf) == tail_at(
                            b,
                            end + 2 + u0,
                        ));
                    },
                    _ => {
                        assert(false);
                    },
                }
            }
            Err(e)
        },
    }
}

impl crate::frame::RespMaps {
    /// Decodes one map frame, pre-validating completeness, consuming one
    /// simple-string key and one value frame per entry; keys land in
    /// ascending order and a repeated key keeps the later value.
    pub fn decode(buf: &mut BytesMut) -> (r: Result<crate::frame::RespMaps, RespError>)
        ensures
            ({
                let b = bytes_view(*old(buf));
                match scan_simple(b, PERCENT_SIGN) {
                    SimpleOut::Pay { payload, end } => match parse_usize_bytes(payload) {
                        Option::Some(cnt) => match calc_entries(tail_at(b, end + 2), cnt) {
                            LenOut::More => r matches Result::Err(e) && e is NotComplete
                                && bytes_view(*final(buf)) == b,
                            LenOut::Bad(k) => r matches Result::Err(e) && !(e is NotComplete)
                                && err_kind(e) == k && bytes_view(*final(buf)) == b,
                            LenOut::Len(l) => if b.len() < end + 2 + l {
                                r matches Result::Err(e) && e is NotComplete && bytes_view(
                                    *final(buf),
                                ) == b
                            } else {
                                match parse_entries(tail_at(b, end + 2), cnt) {
                                    ParsedEntries::Done(ps, n) => r matches Result::Ok(m) && m@
                                        == crate::wire::map_from_pairs(ps) && bytes_view(
                                        *final(buf),
                                    ) == tail_at(b, end + 2 + n),
                                    ParsedEntries::Bad(k) => r matches Result::Err(e) && !(e
                                        is NotComplete) && err_kind(e) == k && (exists|u: int|
                                        0 <= u <= b.len() && bytes_view(*final(buf)) == tail_at(
                                            b,
                                            u,
                                        )),
                                    ParsedEntries::More => false,
                                }
                            },
                        },
                        Option::None => r matches Result::Err(e) && err_kind(e)
                            == ErrKind::BadInt && bytes_view(*final(buf)) == b,
                    },
                    SimpleOut::More => r matches Result::Err(e) && e is NotComplete
                        && bytes_view(*final(buf)) == b,
                    SimpleOut::BadMarker => r matches Result::Err(e) && err_kind(e)
                        == ErrKind::BadType && bytes_view(*final(buf)) == b,
                }
            }),
        decreases bytes_view(*buf).len(), 3int,
    {
        let ghost b = bytes_view(*buf);
        let end: usize;
        let cnt: usize;
        let total_inner: usize;
        let slen: usize;
        {
            let s = buf_slice(buf);
            slen = s.len();
            match parse_length(s, PERCENT_SIGN) {
                Result::Ok((e, c)) => {
                    end = e;
                    cnt = c;
                },
                Result::Err(e) => {
                    return Err(e);
                },
            }
            proof {
                broadcast use lemma_find_crlf_bounds;

            }
            let rest = &s[end + 2..slen];
            proof {
                assert(rest@ =~= tail_at(b, end + 2));
            }
            match entries_len(rest, cnt) {
                Result::Ok(l) => {
                    total_inner = l;
                },
                Result::Err(e) => {
                    return Err(e);
                },
            }
            if slen - (end + 2) < total_inner {
                return Err(RespError::NotComplete);
            }
        }
        buf_advance(buf, end + 2);
        proof {
            assert(bytes_view(*buf) =~= tail_at(b, end + 2));
            assert(calc_entries(bytes_view(*buf), cnt as int) == LenOut::Len(
                total_inner as int,
            ));
            assert(bytes_view(*buf).len() >= total_inner as int);
        }
        match decode_n_entries(buf, cnt) {
            Result::Ok(out) => {
                proof {
                    match parse_entries(tail_at(b, end + 2), cnt as int) {
                        ParsedEntries::Done(ps, n) => {
                            lemma_parse_entries_nonneg(tail_at(b, end + 2), cnt as int);
                            lemma_tail_tail(b, end + 2, n);
                        },
                        _ => {},
                    }
                }
                Ok(out)
            },
            Result::Err(e) => {
                proof {
                    match parse_entries(tail_at(b, end + 2), cnt as int) {
                        ParsedEntries::Bad(k) => {
                            let u0 = choose|u0: int|
                                0 <= u0 <= tail_at(b, end + 2).len() && bytes_view(*buf)
                                    == #[trigger] tail_at(tail_at(b, end + 2), u0);
                            lemma_tail_tail(b, end + 2, u0);
                            assert(0 <= end + 2 + u0 <= b.len() && bytes_view(*buf) == tail_at(
                                b,
                                end + 2 + u0,
                            ));
                        },
                        _ => {
                            assert(false);
                        },
                    }
                }
                Err(e)
            },
        }
    }
}

impl crate::frame::RespFrame {
    /// The exact byte length of one complete frame starting at offset
    /// zero, or the incompleteness signal; nothing is consumed.
    pub fn expect_length(buf: &[u8]) -> (r: Result<usize, RespError>)
        ensures
            match calc_len(buf@) {
                LenOut::Len(l) => r matches Result::Ok(m) && m as int == l,
                LenOut::More => r matches Result::Err(e) && e is NotComplete,
                LenOut::Bad(k) => r matches Result::Err(e) && !(e is NotComplete) && err_kind(e)
                    == k,
            },
    {
        frame_len(buf)
    }

    /// Decodes one frame, dispatching on the leading marker byte.  On the
    /// two shared markers the length-prefixed variant is tried first and
    /// the fixed null literal only on a structural failure, with
    /// incompleteness propagated immediately.  Nothing is consumed unless
    /// a complete frame is present; even a terminal error leaves the
    /// buffer untouched except where a complete numeric payload or the
    /// elements of a fully buffered aggregate were already being read.
    #[verifier::rlimit(100)]
    pub fn decode(buf: &mut BytesMut) -> (r: Result<RespFrame, RespError>)
        ensures
            ({
                let b = bytes_view(*old(buf));
                match parse_frame(b) {
                    Parsed::Done(fv, n) => r matches Result::Ok(f) && f@ == fv && bytes_view(
                        *final(buf),
                    ) == tail_at(b, n),
                    Parsed::More => r matches Result::Err(e) && e is NotComplete && bytes_view(
                        *final(buf),
                    ) == b,
                    Parsed::Bad(k) => r matches Result::Err(e) && !(e is NotComplete)
                        && err_kind(e) == k && (exists|u: int|
                        0 <= u <= b.len() && bytes_view(*final(buf)) == tail_at(b, u)) && (
                    !crate::wire::terminal_error_consumes(b) ==> bytes_view(*final(buf)) == b),
                }
            }),
        decreases bytes_view(*buf).len(), 4int,
    {
        let ghost b = bytes_view(*buf);
        proof {
            assert(tail_at(b, 0) =~= b);
        }
        let marker: u8;
        {
            let s = buf_slice(buf);
            if s.len() == 0 {
                return Err(RespError::NotComplete);
            }
            marker = s[0];
        }
        if marker == POSITIVE_SIGN {
            match crate::frame::SimpleString::decode(buf) {
                Result::Ok(f) => Ok(RespFrame::SimpleString(f)),
                Result::Err(e) => Err(e),
            }
        } else if marker == NEGATIVE_SIGN {
            match crate::frame::SimpleError::decode(buf) {
                Result::Ok(f) => Ok(RespFrame::SimpleError(f)),
                Result::Err(e) => Err(e),
            }
        } else if marker == COLON {
            proof {
                broadcast use lemma_find_crlf_bounds;

            }
            match crate::frame::RespInteger::decode(buf) {
                Result::Ok(f) => Ok(RespFrame::Integer(f)),
                Result::Err(e) => Err(e),
            }
        } else if marker == POND_SIGN {
            match crate::frame::RespBooleans::decode(buf) {
                Result::Ok(f) => Ok(RespFrame::Booleans(f)),
                Result::Err(e) => Err(e),
            }
        } else if marker == COMMA {
            proof {
                broadcast use lemma_find_crlf_bounds;

            }
            match crate::frame::RespDoubles::decode(buf) {
                Result::Ok(f) => Ok(RespFrame::Doubles(f)),
                Result::Err(e) => Err(e),
            }
        } else if marker == UNDERLINE {
            match crate::frame::RespNull::decode(buf) {
                Result::Ok(f) => Ok(RespFrame::Null(f)),
                Result::Err(e) => Err(e),
            }
        } else if marker == DOLLAR {
            match crate::frame::RespBulkString::decode(buf) {
                Result::Ok(f) => {
                    proof {
                        broadcast use lemma_find_crlf_bounds;

                    }
                    Ok(RespFrame::BulkString(f))
                },
                Result::Err(e) => {
                    if e_is_not_complete(&e) {
                        Err(e)
                    } else {
                        match crate::frame::RespNullBulkString::decode(buf) {
                            Result::Ok(f) => Ok(RespFrame::NullBulkString(f)),
                            Result::Err(e2) => Err(e2),
                        }
                    }
                },
            }
        } else if marker == EXCLAMATION_MARK {
            match crate::frame::RespBulkErrors::decode(buf) {
                Result::Ok(f) => {
                    proof {
                        broadcast use lemma_find_crlf_bounds;

                    }
                    Ok(RespFrame::BulkErrors(f))
                },
                Result::Err(e) => Err(e),
            }
        } else if marker == TILDE_SIGN {
            match crate::frame::RespSets::decode(buf) {
                Result::Ok(f) => Ok(RespFrame::Sets(f)),
                Result::Err(e) => Err(e),
            }
        } else if marker == PERCENT_SIGN {
            match crate::frame::RespMaps::decode(buf) {
                Result::Ok(f) => Ok(RespFrame::Maps(f)),
                Result::Err(e) => Err(e),
            }
        } else if marker == ASTERISK {
            decode_array_or_null(buf)
        } else {
            Err(
                RespError::InvalidFrameType(
                    string_from_bytes_lossy("unknown marker".as_bytes()),
                ),
            )
        }
    }
}

/// The shared-marker dispatch for arrays: try the array first; on a
/// structural failure fall back to the fixed null array literal, with
/// incompleteness short-circuiting the fallback.
#[verifier::rlimit(100)]
fn decode_array_or_null(buf: &mut BytesMut) -> (r: Result<RespFrame, RespError>)
    requires
        bytes_view(*old(buf)).len() >= 1,
        bytes_view(*old(buf))[0] == ASTERISK,
    ensures
        ({
            let b = bytes_view(*old(buf));
            match parse_frame(b) {
                Parsed::Done(fv, n) => r matches Result::Ok(f) && f@ == fv && bytes_view(
                    *final(buf),
                ) == tail_at(b, n),
                Parsed::More => r matches Result::Err(e) && e is NotComplete && bytes_view(
                    *final(buf),
                ) == b,
                Parsed::Bad(k) => r matches Result::Err(e) && !(e is NotComplete) && err_kind(e)
                    == k && (exists|u: int|
                    0 <= u <= b.len() && bytes_view(*final(buf)) == tail_at(b, u)) && (
                !crate::wire::terminal_error_consumes(b) ==> bytes_view(*final(buf)) == b),
            }
        }),
    decreases bytes_view(*buf).len(), 3int,
{
    let ghost b = bytes_view(*buf);
    proof {
        assert(tail_at(b, 0) =~= b);
        broadcast use lemma_find_crlf_bounds;

    }
    let end: usize;
    let cnt: usize;
    let total_inner: usize;
    let slen: usize;
    {
        let s = buf_slice(buf);
        slen = s.len();
        match parse_length(s, ASTERISK) {
            Result::Ok((e, c)) => {
                end = e;
                cnt = c;
            },
            Result::Err(e) => {
                if e_is_not_complete(&e) {
                    return Err(e);
                }
                return match crate::frame::RespNullArray::decode(buf) {
                    Result::Ok(f) => Ok(RespFrame::NullArray(f)),
                    Result::Err(e2) => Err(e2),
                };
            },
        }
        let rest = &s[end + 2..slen];
        proof {
            assert(rest@ =~= tail_at(b, end + 2));
        }
        match elems_len(rest, cnt) {
            Result::Ok(l) => {
                total_inner = l;
            },
            Result::Err(e) => {
                if e_is_not_complete(&e) {
                    return Err(e);
                }
                return match crate::frame::RespNullArray::decode(buf) {
                    Result::Ok(f) => Ok(RespFrame::NullArray(f)),
                    Result::Err(e2) => Err(e2),
                };
            },
        }
        if slen - (end + 2) < total_inner {
            return Err(RespError::NotComplete);
        }
    }
    buf_advance(buf, end + 2);
    proof {
        assert(bytes_view(*buf) =~= tail_at(b, end + 2));
    }
    let ghost rest0 = tail_at(b, end + 2);
    match decode_n_elems(buf, cnt) {
        Result::Ok(out) => {
            proof {
                match parse_elems(rest0, cnt as int) {
                    ParsedSeq::Done(fs, n) => {
                        lemma_parse_elems_nonneg(rest0, cnt as int);
                        lemma_tail_tail(b, end + 2, n);
                    },
                    _ => {},
                }
            }
            Ok(RespFrame::Arrays(crate::frame::RespArray(out)))
        },
        Result::Err(e) => {
            proof {
                match parse_elems(rest0, cnt as int) {
                    ParsedSeq::Bad(k) => {
                        // A failed nested element: the fallback literal can
                        // never match a counted header, so the outcome is a
                        // type error.
                        assert(cnt >= 1) by {
                            if cnt == 0 {
                                assert(parse_elems(rest0, 0int) == ParsedSeq::Done(
                                    Seq::<FrameSpec>::empty(),
                                    0int,
                                ));
                            }
                        }
                        assert(parse_fixed(b, null_array_literal()) == Parsed::Bad(
                            ErrKind::BadType,
                        )) by {
                            assert(b.len() >= 5) by {
                                lemma_calc_parse(rest0);
                                let payload = scan_simple(b, ASTERISK)->Pay_payload;
                                let e0 = scan_simple(b, ASTERISK)->Pay_end;
                                assert(payload.len() >= 1);
                                assert(e0 >= 2);
                                assert(calc_elems(rest0, cnt as int) == LenOut::Len(
                                    total_inner as int,
                                ));
                                match calc_len(rest0) {
                                    LenOut::Len(l1) => {
                                        match calc_elems(tail_at(rest0, l1), cnt as int - 1) {
                                            LenOut::Len(l2) => {
                                                lemma_calc_parse_elems(
                                                    tail_at(rest0, l1),
                                                    cnt as int - 1,
                                                );
                                                assert(l1 >= 3 && l2 >= 0);
                                                assert(total_inner as int == l1 + l2);
                                            },
                                            _ => {
                                                assert(false);
                                            },
                                        }
                                    },
                                    _ => {
                                        assert(false);
                                    },
                                }
                                assert(total_inner >= 3);
                            }
                            assert(b[1] != NEGATIVE_SIGN) by {
                                let payload = scan_simple(b, ASTERISK)->Pay_payload;
                                let e0 = scan_simple(b, ASTERISK)->Pay_end;
                                assert(payload[0] == b[1]);
                                lemma_parse_usize_first(payload);
                            }
                            assert(b.take(5)[1] == b[1]);
                            assert(null_array_literal()[1] == NEGATIVE_SIGN);
                            assert(b.take(5) != null_array_literal());
                        }
                        let u0 = choose|u0: int|
                            0 <= u0 <= rest0.len() && bytes_view(*buf) == tail_at(rest0, u0);
                        lemma_tail_tail(b, end + 2, u0);
                    },
                    _ => {
                        assert(false);
                    },
                }
            }
            Err(
                RespError::InvalidFrameType(
                    string_from_bytes_lossy("neither an array nor a null array".as_bytes()),
                ),
            )
        },
    }
}

/// A parsed count starts with a digit or a plus sign, never a minus.
pub proof fn lemma_parse_usize_first(p: Seq<u8>)
    ensures
        parse_usize_bytes(p) matches Option::Some(n) ==> p.len() >= 1 && p[0] != NEGATIVE_SIGN,
{
    match parse_usize_bytes(p) {
        Option::Some(n) => {
            if p.len() >= 1 && p[0] == POSITIVE_SIGN {
            } else {
                assert(crate::wire::is_digit(p[0]));
            }
        },
        Option::None => {},
    }
}


/// The byte length of one complete simple (terminator-delimited) frame:
/// the scan position of its terminator plus the terminator itself.
fn simple_expect_length(buf: &[u8], marker: u8) -> (r: Result<usize, RespError>)
    ensures
        match scan_simple(buf@, marker) {
            SimpleOut::Pay { payload, end } => r matches Result::Ok(m) && m as int == end + 2,
            SimpleOut::More => r matches Result::Err(e) && e is NotComplete,
            SimpleOut::BadMarker => r matches Result::Err(e) && err_kind(e) == ErrKind::BadType,
        },
{
    let blen = buf.len();
    let end = extract_simple_frame_data(buf, marker, 3)?;
    Ok(end + 2)
}

impl crate::frame::SimpleString {
    /// The byte length of one complete simple string frame starting at
    /// offset zero, or the incompleteness signal; nothing is consumed.
    pub fn expect_length(buf: &[u8]) -> (r: Result<usize, RespError>)
        ensures
            match scan_simple(buf@, POSITIVE_SIGN) {
                SimpleOut::Pay { payload, end } => r matches Result::Ok(m) && m as int == end
                    + 2,
                SimpleOut::More => r matches Result::Err(e) && e is NotComplete,
                SimpleOut::BadMarker => r matches Result::Err(e) && err_kind(e)
                    == ErrKind::BadType,
            },
    {
        simple_expect_length(buf, POSITIVE_SIGN)
    }
}

impl crate::frame::SimpleError {
    /// The byte length of one complete simple error frame starting at
    /// offset zero, or the incompleteness signal; nothing is consumed.
    pub fn expect_length(buf: &[u8]) -> (r: Result<usize, RespError>)
        ensures
            match scan_simple(buf@, NEGATIVE_SIGN) {
                SimpleOut::Pay { payload, end } => r matches Result::Ok(m) && m as int == end
                    + 2,
                SimpleOut::More => r matches Result::Err(e) && e is NotComplete,
                SimpleOut::BadMarker => r matches Result::Err(e) && err_kind(e)
                    == ErrKind::BadType,
            },
    {
        simple_expect_length(buf, NEGATIVE_SIGN)
    }
}

impl crate::frame::RespInteger {
    /// The byte length of one complete integer frame starting at offset
    /// zero: the terminator scan alone, without parsing the payload.
    pub fn expect_length(buf: &[u8]) -> (r: Result<usize, RespError>)
        ensures
            match scan_simple(buf@, COLON) {
                SimpleOut::Pay { payload, end } => r matches Result::Ok(m) && m as int == end
                    + 2,
                SimpleOut::More => r matches Result::Err(e) && e is NotComplete,
                SimpleOut::BadMarker => r matches Result::Err(e) && err_kind(e)
                    == ErrKind::BadType,
            },
    {
        simple_expect_length(buf, COLON)
    }
}

impl crate::frame::RespBooleans {
    /// The byte length of one complete boolean frame starting at offset
    /// zero: the terminator scan alone.
    pub fn expect_length(buf: &[u8]) -> (r: Result<usize, RespError>)
        ensures
            match scan_simple(buf@, POND_SIGN) {
                SimpleOut::Pay { payload, end } => r matches Result::Ok(m) && m as int == end
                    + 2,
                SimpleOut::More => r matches Result::Err(e) && e is NotComplete,
                SimpleOut::BadMarker => r matches Result::Err(e) && err_kind(e)
                    == ErrKind::BadType,
            },
    {
        simple_expect_length(buf, POND_SIGN)
    }
}

impl crate::frame::RespDoubles {
    /// The byte length of one complete double frame starting at offset
    /// zero: the terminator scan alone, without parsing the payload.
    pub fn expect_length(buf: &[u8]) -> (r: Result<usize, RespError>)
        ensures
            match scan_simple(buf@, COMMA) {
                SimpleOut::Pay { payload, end } => r matches Result::Ok(m) && m as int == end
                    + 2,
                SimpleOut::More => r matches Result::Err(e) && e is NotComplete,
                SimpleOut::BadMarker => r matches Result::Err(e) && err_kind(e)
                    == ErrKind::BadType,
            },
    {
        simple_expect_length(buf, COMMA)
    }
}

impl crate::frame::RespNull {
    /// The byte length of one complete null frame starting at offset
    /// zero: the terminator scan from its marker, without checking the
    /// literal itself.
    pub fn expect_length(buf: &[u8]) -> (r: Result<usize, RespError>)
        ensures
            match scan_simple(buf@, UNDERLINE) {
                SimpleOut::Pay { payload, end } => r matches Result::Ok(m) && m as int == end
                    + 2,
                SimpleOut::More => r matches Result::Err(e) && e is NotComplete,
                SimpleOut::BadMarker => r matches Result::Err(e) && err_kind(e)
                    == ErrKind::BadType,
            },
    {
        simple_expect_length(buf, UNDERLINE)
    }
}

impl crate::frame::RespNullArray {
    /// The byte length of one complete null array frame starting at
    /// offset zero: the terminator scan from the shared marker.
    pub fn expect_length(buf: &[u8]) -> (r: Result<usize, RespError>)
        ensures
            match scan_simple(buf@, ASTERISK) {
                SimpleOut::Pay { payload, end } => r matches Result::Ok(m) && m as int == end
                    + 2,
                SimpleOut::More => r matches Result::Err(e) && e is NotComplete,
                SimpleOut::BadMarker => r matches Result::Err(e) && err_kind(e)
                    == ErrKind::BadType,
            },
    {
        simple_expect_length(buf, ASTERISK)
    }
}

impl crate::frame::RespNullBulkString {
    /// The byte length of one complete null bulk string frame starting at
    /// offset zero: the terminator scan from the shared marker.
    pub fn expect_length(buf: &[u8]) -> (r: Result<usize, RespError>)
        ensures
            match scan_simple(buf@, DOLLAR) {
                SimpleOut::Pay { payload, end } => r matches Result::Ok(m) && m as int == end
                    + 2,
                SimpleOut::More => r matches Result::Err(e) && e is NotComplete,
                SimpleOut::BadMarker => r matches Result::Err(e) && err_kind(e)
                    == ErrKind::BadType,
            },
    {
        simple_expect_length(buf, DOLLAR)
    }
}

/// The byte length of one complete length-prefixed scalar frame: the
/// header span plus the declared count plus the terminator.
fn bulk_expect_length(buf: &[u8], marker: u8) -> (r: Result<usize, RespError>)
    ensures
        match scan_simple(buf@, marker) {
            SimpleOut::Pay { payload, end } => match parse_usize_bytes(payload) {
                Option::Some(n) => if end + 4 + n <= usize::MAX as int {
                    r matches Result::Ok(m) && m as int == end + 4 + n
                } else {
                    r matches Result::Err(e) && e is NotComplete
                },
                Option::None => r matches Result::Err(e) && err_kind(e) == ErrKind::BadInt,
            },
            SimpleOut::More => r matches Result::Err(e) && e is NotComplete,
            SimpleOut::BadMarker => r matches Result::Err(e) && err_kind(e) == ErrKind::BadType,
        },
{
    let (end, n) = parse_length(buf, marker)?;
    if n <= usize::MAX - 4 && end <= usize::MAX - 4 - n {
        Ok(end + 4 + n)
    } else {
        Err(RespError::NotComplete)
    }
}

impl crate::frame::RespBulkString {
    /// The byte length of one complete bulk string frame starting at
    /// offset zero, computed from its declared count alone.
    pub fn expect_length(buf: &[u8]) -> (r: Result<usize, RespError>)
        ensures
            match scan_simple(buf@, DOLLAR) {
                SimpleOut::Pay { payload, end } => match parse_usize_bytes(payload) {
                    Option::Some(n) => if end + 4 + n <= usize::MAX as int {
                        r matches Result::Ok(m) && m as int == end + 4 + n
                    } else {
                        r matches Result::Err(e) && e is NotComplete
                    },
                    Option::None => r matches Result::Err(e) && err_kind(e) == ErrKind::BadInt,
                },
                SimpleOut::More => r matches Result::Err(e) && e is NotComplete,
                SimpleOut::BadMarker => r matches Result::Err(e) && err_kind(e)
                    == ErrKind::BadType,
            },
    {
        bulk_expect_length(buf, DOLLAR)
    }
}

impl crate::frame::RespBulkErrors {
    /// The byte length of one complete bulk error frame starting at
    /// offset zero, computed from its declared count alone.
    pub fn expect_length(buf: &[u8]) -> (r: Result<usize, RespError>)
        ensures
            match scan_simple(buf@, EXCLAMATION_MARK) {
                SimpleOut::Pay { payload, end } => match parse_usize_bytes(payload) {
                    Option::Some(n) => if end + 4 + n <= usize::MAX as int {
                        r matches Result::Ok(m) && m as int == end + 4 + n
                    } else {
                        r matches Result::Err(e) && e is NotComplete
                    },
                    Option::None => r matches Result::Err(e) && err_kind(e) == ErrKind::BadInt,
                },
                SimpleOut::More => r matches Result::Err(e) && e is NotComplete,
                SimpleOut::BadMarker => r matches Result::Err(e) && err_kind(e)
                    == ErrKind::BadType,
            },
    {
        bulk_expect_length(buf, EXCLAMATION_MARK)
    }
}

/// The total byte length of one complete aggregate frame: the header span
/// plus the recursively accumulated spans of its elements or entries.
fn agg_expect_length(buf: &[u8], marker: u8) -> (r: Result<usize, RespError>)
    requires
        marker == ASTERISK || marker == TILDE_SIGN || marker == PERCENT_SIGN,
    ensures
        match scan_simple(buf@, marker) {
            SimpleOut::Pay { payload, end } => match parse_usize_bytes(payload) {
                Option::Some(cnt) => {
                    let inner = if marker == PERCENT_SIGN {
                        calc_entries(tail_at(buf@, end + 2), cnt)
                    } else {
                        calc_elems(tail_at(buf@, end + 2), cnt)
                    };
                    match inner {
                        LenOut::More => r matches Result::Err(e) && e is NotComplete,
                        LenOut::Bad(k) => r matches Result::Err(e) && !(e is NotComplete)
                            && err_kind(e) == k,
                        LenOut::Len(l) => if end + 2 + l <= usize::MAX as int {
                            r matches Result::Ok(m) && m as int == end + 2 + l
                        } else {
                            r matches Result::Err(e) && e is NotComplete
                        },
                    }
                },
                Option::None => r matches Result::Err(e) && err_kind(e) == ErrKind::BadInt,
            },
            SimpleOut::More => r matches Result::Err(e) && e is NotComplete,
            SimpleOut::BadMarker => r matches Result::Err(e) && err_kind(e) == ErrKind::BadType,
        },
{
    let blen = buf.len();
    let (end, cnt) = parse_length(buf, marker)?;
    let rest = &buf[end + 2..blen];
    proof {
        assert(rest@ =~= tail_at(buf@, end + 2));
    }
    let inner = if marker == PERCENT_SIGN {
        entries_len(rest, cnt)?
    } else {
        elems_len(rest, cnt)?
    };
    if end <= usize::MAX - 2 && inner <= usize::MAX - 2 - end {
        Ok(end + 2 + inner)
    } else {
        Err(RespError::NotComplete)
    }
}

impl crate::frame::RespArray {
    /// The total byte length of one complete array frame starting at
    /// offset zero, walking every nested frame without consuming input.
    pub fn expect_length(buf: &[u8]) -> (r: Result<usize, RespError>)
        ensures
            match scan_simple(buf@, ASTERISK) {
                SimpleOut::Pay { payload, end } => match parse_usize_bytes(payload) {
                    Option::Some(cnt) => match calc_elems(tail_at(buf@, end + 2), cnt) {
                        LenOut::More => r matches Result::Err(e) && e is NotComplete,
                        LenOut::Bad(k) => r matches Result::Err(e) && !(e is NotComplete)
                            && err_kind(e) == k,
                        LenOut::Len(l) => if end + 2 + l <= usize::MAX as int {
                            r matches Result::Ok(m) && m as int == end + 2 + l
                        } else {
                            r matches Result::Err(e) && e is NotComplete
                        },
                    },
                    Option::None => r matches Result::Err(e) && err_kind(e) == ErrKind::BadInt,
                },
                SimpleOut::More => r matches Result::Err(e) && e is NotComplete,
                SimpleOut::BadMarker => r matches Result::Err(e) && err_kind(e)
                    == ErrKind::BadType,
            },
    {
        agg_expect_length(buf, ASTERISK)
    }
}

impl crate::frame::RespSets {
    /// The total byte length of one complete set frame starting at offset
    /// zero, walking every nested frame without consuming input.
    pub fn expect_length(buf: &[u8]) -> (r: Result<usize, RespError>)
        ensures
            match scan_simple(buf@, TILDE_SIGN) {
                SimpleOut::Pay { payload, end } => match parse_usize_bytes(payload) {
                    Option::Some(cnt) => match calc_elems(tail_at(buf@, end + 2), cnt) {
                        LenOut::More => r matches Result::Err(e) && e is NotComplete,
                        LenOut::Bad(k) => r matches Result::Err(e) && !(e is NotComplete)
                            && err_kind(e) == k,
                        LenOut::Len(l) => if end + 2 + l <= usize::MAX as int {
                            r matches Result::Ok(m) && m as int == end + 2 + l
                        } else {
                            r matches Result::Err(e) && e is NotComplete
                        },
                    },
                    Option::None => r matches Result::Err(e) && err_kind(e) == ErrKind::BadInt,
                },
                SimpleOut::More => r matches Result::Err(e) && e is NotComplete,
                SimpleOut::BadMarker => r matches Result::Err(e) && err_kind(e)
                    == ErrKind::BadType,
            },
    {
        agg_expect_length(buf, TILDE_SIGN)
    }
}

impl crate::frame::RespMaps {
    /// The total byte length of one complete map frame starting at offset
    /// zero, one key and one value per entry, without consuming input.
    pub fn expect_length(buf: &[u8]) -> (r: Result<usize, RespError>)
        ensures
            match scan_simple(buf@, PERCENT_SIGN) {
                SimpleOut::Pay { payload, end } => match parse_usize_bytes(payload) {
                    Option::Some(cnt) => match calc_entries(tail_at(buf@, end + 2), cnt) {
                        LenOut::More => r matches Result::Err(e) && e is NotComplete,
                        LenOut::Bad(k) => r matches Result::Err(e) && !(e is NotComplete)
                            && err_kind(e) == k,
                        LenOut::Len(l) => if end + 2 + l <= usize::MAX as int {
                            r matches Result::Ok(m) && m as int == end + 2 + l
                        } else {
                            r matches Result::Err(e) && e is NotComplete
                        },
                    },
                    Option::None => r matches Result::Err(e) && err_kind(e) == ErrKind::BadInt,
                },
                SimpleOut::More => r matches Result::Err(e) && e is NotComplete,
                SimpleOut::BadMarker => r matches Result::Err(e) && err_kind(e)
                    == ErrKind::BadType,
            },
    {
        agg_expect_length(buf, PERCENT_SIGN)
    }
}

} // verus!
