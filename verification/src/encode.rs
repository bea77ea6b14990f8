//! The canonical encoder: pure, consuming serialization of one frame to
//! its unique byte representation.
use vstd::prelude::*;

use crate::frame::ASTERISK;
use crate::frame::COLON;
use crate::frame::COMMA;
use crate::frame::CR;
use crate::frame::DOLLAR;
use crate::frame::EXCLAMATION_MARK;
use crate::frame::FALSE;
use crate::frame::FrameSpec;
use crate::frame::LF;
use crate::frame::NEGATIVE_SIGN;
use crate::frame::PERCENT_SIGN;
use crate::frame::POND_SIGN;
use crate::frame::POSITIVE_SIGN;
use crate::frame::RespArray;
use crate::frame::RespBooleans;
use crate::frame::RespBulkErrors;
use crate::frame::RespBulkString;
use crate::frame::RespDoubles;
use crate::frame::RespFrame;
use crate::frame::RespInteger;
use crate::frame::RespMaps;
use crate::frame::RespNull;
use crate::frame::RespNullArray;
use crate::frame::RespNullBulkString;
use crate::frame::RespSets;
use crate::frame::SimpleError;
use crate::frame::SimpleString;
use crate::frame::TILDE_SIGN;
use crate::frame::TRUE;
use crate::frame::UNDERLINE;
use crate::frame::frame_view;
use crate::frame::frames_view;
use crate::frame::entries_view;
use crate::frame::lemma_frames_view;
use crate::frame::lemma_entries_view;
use crate::double::render_double_body;
use crate::numtext::append_bytes;
use crate::numtext::fmt_u64;
use crate::wire::crlf;
use crate::wire::dec_digits;
use crate::wire::encoded;
use crate::wire::encoded_entries;
use crate::wire::encoded_seq;
use vstd::utf8::encode_utf8;

verus! {

/// One more frame extends the concatenated encoding by its own.
pub proof fn lemma_encoded_seq_take_step(fs: Seq<FrameSpec>, i: int)
    requires
        0 <= i < fs.len(),
    ensures
        encoded_seq(fs.take(i + 1)) == encoded_seq(fs.take(i)) + encoded(fs[i]),
    decreases i,
{
    if i == 0 {
        let one = fs.take(1);
        assert(one.first() == fs[0]);
        assert(one.drop_first() =~= Seq::<FrameSpec>::empty());
        assert(fs.take(0) =~= Seq::<FrameSpec>::empty());
        assert(encoded_seq(one) =~= encoded_seq(fs.take(0)) + encoded(fs[0]));
    } else {
        lemma_encoded_seq_take_step(fs.drop_first(), i - 1);
        let a = fs.take(i + 1);
        let b = fs.take(i);
        assert(a.first() == fs[0] && b.first() == fs[0]);
        assert(a.drop_first() =~= fs.drop_first().take(i));
        assert(b.drop_first() =~= fs.drop_first().take(i - 1));
        assert(fs.drop_first()[i - 1] == fs[i]);
        assert(encoded_seq(a) =~= encoded_seq(b) + encoded(fs[i]));
    }
}

/// One more entry extends the concatenated encoding by its key and value.
pub proof fn lemma_encoded_entries_take_step(es: Seq<(Seq<char>, FrameSpec)>, i: int)
    requires
        0 <= i < es.len(),
    ensures
        encoded_entries(es.take(i + 1)) == encoded_entries(es.take(i)) + (seq![POSITIVE_SIGN]
            + encode_utf8(es[i].0) + crlf()) + encoded(es[i].1),
    decreases i,
{
    if i == 0 {
        let one = es.take(1);
        assert(one.first() == es[0]);
        assert(one.drop_first() =~= Seq::<(Seq<char>, FrameSpec)>::empty());
        assert(es.take(0) =~= Seq::<(Seq<char>, FrameSpec)>::empty());
        assert(encoded_entries(one) =~= encoded_entries(es.take(0)) + (seq![POSITIVE_SIGN]
            + encode_utf8(es[0].0) + crlf()) + encoded(es[0].1));
    } else {
        lemma_encoded_entries_take_step(es.drop_first(), i - 1);
        let a = es.take(i + 1);
        let b = es.take(i);
        assert(a.first() == es[0] && b.first() == es[0]);
        assert(a.drop_first() =~= es.drop_first().take(i));
        assert(b.drop_first() =~= es.drop_first().take(i - 1));
        assert(es.drop_first()[i - 1] == es[i]);
        assert(encoded_entries(a) =~= encoded_entries(b) + (seq![POSITIVE_SIGN] + encode_utf8(
            es[i].0,
        ) + crlf()) + encoded(es[i].1));
    }
}


/// The concatenated canonical encodings of a sequence of frames.
fn encode_frames(v: &Vec<RespFrame>) -> (r: Vec<u8>)
    ensures
        r@ == encoded_seq(frames_view(v@)),
    decreases *v,
{
    let mut out: Vec<u8> = Vec::new();
    proof {
        assert(frames_view(v@).take(0) =~= Seq::<FrameSpec>::empty());
        assert(out@ =~= Seq::<u8>::empty() + encoded_seq(frames_view(v@).take(0)));
    }
    let mut i: usize = 0;
    while i < v.len()
        invariant
            i <= v@.len(),
            out@ == encoded_seq(frames_view(v@).take(i as int)),
        decreases v@.len() - i,
    {
        let piece = encode_frame(&v[i]);
        append_bytes(&mut out, piece.as_slice());
        proof {
            broadcast use lemma_frames_view;

            lemma_encoded_seq_take_step(frames_view(v@), i as int);
            assert(out@ =~= encoded_seq(frames_view(v@).take(i as int + 1)));
        }
        i = i + 1;
    }
    proof {
        broadcast use lemma_frames_view;

        assert(frames_view(v@).take(frames_view(v@).len() as int) =~= frames_view(v@));
    }
    out
}

/// The concatenated canonical encodings of a sequence of map entries.
fn encode_map_entries(v: &Vec<(String, RespFrame)>) -> (r: Vec<u8>)
    ensures
        r@ == encoded_entries(entries_view(v@)),
    decreases *v,
{
    let mut out: Vec<u8> = Vec::new();
    proof {
        assert(entries_view(v@).take(0) =~= Seq::<(Seq<char>, FrameSpec)>::empty());
    }
    let mut i: usize = 0;
    while i < v.len()
        invariant
            i <= v@.len(),
            out@ == encoded_entries(entries_view(v@).take(i as int)),
        decreases v@.len() - i,
    {
        out.push(POSITIVE_SIGN);
        append_bytes(&mut out, v[i].0.as_str().as_bytes());
        out.push(CR);
        out.push(LF);
        let piece = encode_frame(&v[i].1);
        append_bytes(&mut out, piece.as_slice());
        proof {
            broadcast use lemma_entries_view;

            lemma_encoded_entries_take_step(entries_view(v@), i as int);
            assert(out@ =~= encoded_entries(entries_view(v@).take(i as int + 1)));
        }
        i = i + 1;
    }
    proof {
        broadcast use lemma_entries_view;

        assert(entries_view(v@).take(entries_view(v@).len() as int) =~= entries_view(v@));
    }
    out
}

/// Serializes one frame to its canonical byte representation.
pub fn encode_frame(f: &RespFrame) -> (r: Vec<u8>)
    ensures
        r@ == encoded(frame_view(*f)),
    decreases *f,
{
    let mut out: Vec<u8> = Vec::new();
    match f {
        RespFrame::SimpleString(s) => {
            out.push(POSITIVE_SIGN);
            append_bytes(&mut out, s.0.as_str().as_bytes());
            out.push(CR);
            out.push(LF);
            proof {
                assert(out@ =~= seq![POSITIVE_SIGN] + encode_utf8(s.0@) + crlf());
                assert(out@ =~= encoded(frame_view(*f)));
            }
        },
        RespFrame::SimpleError(s) => {
            out.push(NEGATIVE_SIGN);
            append_bytes(&mut out, s.0.as_str().as_bytes());
            out.push(CR);
            out.push(LF);
            proof {
                assert(out@ =~= seq![NEGATIVE_SIGN] + encode_utf8(s.0@) + crlf());
                assert(out@ =~= encoded(frame_view(*f)));
            }
        },
        RespFrame::Integer(n) => {
            out.push(COLON);
            let v = n.0;
            if v < 0 {
                out.push(NEGATIVE_SIGN);
            } else {
                out.push(POSITIVE_SIGN);
            }
            let mag: u64 = if v == i64::MIN {
                0x8000000000000000u64
            } else if v < 0 {
                (-v) as u64
            } else {
                v as u64
            };
            let digits = fmt_u64(mag);
            append_bytes(&mut out, digits.as_slice());
            out.push(CR);
            out.push(LF);
            proof {
                if v < 0 {
                    assert(mag as int == -(v as int));
                    assert(out@ =~= seq![COLON] + (seq![NEGATIVE_SIGN] + dec_digits(
                        -(v as int),
                    )) + crlf());
                } else {
                    assert(out@ =~= seq![COLON] + (seq![POSITIVE_SIGN] + dec_digits(v as int))
                        + crlf());
                }
                assert(out@ =~= encoded(frame_view(*f)));
            }
        },
        RespFrame::BulkString(p) => {
            out.push(DOLLAR);
            let digits = fmt_u64(p.0.len() as u64);
            append_bytes(&mut out, digits.as_slice());
            out.push(CR);
            out.push(LF);
            append_bytes(&mut out, p.0.as_slice());
            out.push(CR);
            out.push(LF);
            proof {
                assert(out@ =~= seq![DOLLAR] + dec_digits(p.0@.len() as int) + crlf() + p.0@
                    + crlf());
                assert(out@ =~= encoded(frame_view(*f)));
            }
        },
        RespFrame::NullBulkString(_) => {
            out.push(DOLLAR);
            out.push(NEGATIVE_SIGN);
            out.push(49);
            out.push(CR);
            out.push(LF);
            proof {
                assert(out@ =~= crate::wire::null_bulk_literal());
                assert(out@ =~= encoded(frame_view(*f)));
            }
        },
        RespFrame::Arrays(a) => {
            out.push(ASTERISK);
            let digits = fmt_u64(a.0.len() as u64);
            append_bytes(&mut out, digits.as_slice());
            out.push(CR);
            out.push(LF);
            let body = encode_frames(&a.0);
            append_bytes(&mut out, body.as_slice());
            proof {
                broadcast use lemma_frames_view;

                assert(out@ =~= seq![ASTERISK] + dec_digits(a.0@.len() as int) + crlf()
                    + encoded_seq(frames_view(a.0@)));
                assert(frames_view(a.0@).len() == a.0@.len());
                assert(out@ =~= encoded(frame_view(*f)));
            }
        },
        RespFrame::NullArray(_) => {
            out.push(ASTERISK);
            out.push(NEGATIVE_SIGN);
            out.push(49);
            out.push(CR);
            out.push(LF);
            proof {
                assert(out@ =~= crate::wire::null_array_literal());
                assert(out@ =~= encoded(frame_view(*f)));
            }
        },
        RespFrame::Null(_) => {
            out.push(UNDERLINE);
            out.push(CR);
            out.push(LF);
            proof {
                assert(out@ =~= crate::wire::null_literal());
                assert(out@ =~= encoded(frame_view(*f)));
            }
        },
        RespFrame::Booleans(b) => {
            out.push(POND_SIGN);
            if b.0 {
                out.push(TRUE);
            } else {
                out.push(FALSE);
            }
            out.push(CR);
            out.push(LF);
            proof {
                assert(out@ =~= seq![POND_SIGN, if b.0 { TRUE } else { FALSE }, CR, LF]);
                assert(out@ =~= encoded(frame_view(*f)));
            }
        },
        RespFrame::Doubles(d) => {
            out.push(COMMA);
            let body = render_double_body(d.0.as_str().as_bytes());
            append_bytes(&mut out, body.as_slice());
            out.push(CR);
            out.push(LF);
            proof {
                assert(out@ =~= seq![COMMA] + crate::wire::double_body(d.0@) + crlf());
                assert(out@ =~= encoded(frame_view(*f)));
            }
        },
        RespFrame::BulkErrors(p) => {
            out.push(EXCLAMATION_MARK);
            let digits = fmt_u64(p.0.len() as u64);
            append_bytes(&mut out, digits.as_slice());
            out.push(CR);
            out.push(LF);
            append_bytes(&mut out, p.0.as_slice());
            out.push(CR);
            out.push(LF);
            proof {
                assert(out@ =~= seq![EXCLAMATION_MARK] + dec_digits(p.0@.len() as int) + crlf()
                    + p.0@ + crlf());
                assert(out@ =~= encoded(frame_view(*f)));
            }
        },
        RespFrame::Maps(mm) => {
            out.push(PERCENT_SIGN);
            let digits = fmt_u64(mm.0.len() as u64);
            append_bytes(&mut out, digits.as_slice());
            out.push(CR);
            out.push(LF);
            let body = encode_map_entries(&mm.0);
            append_bytes(&mut out, body.as_slice());
            proof {
                broadcast use lemma_entries_view;

                assert(out@ =~= seq![PERCENT_SIGN] + dec_digits(mm.0@.len() as int) + crlf()
                    + encoded_entries(entries_view(mm.0@)));
                assert(entries_view(mm.0@).len() == mm.0@.len());
                assert(out@ =~= encoded(frame_view(*f)));
            }
        },
        RespFrame::Sets(ss) => {
            out.push(TILDE_SIGN);
            let digits = fmt_u64(ss.0.len() as u64);
            append_bytes(&mut out, digits.as_slice());
            out.push(CR);
            out.push(LF);
            let body = encode_frames(&ss.0);
            append_bytes(&mut out, body.as_slice());
            proof {
                broadcast use lemma_frames_view;

                assert(out@ =~= seq![TILDE_SIGN] + dec_digits(ss.0@.len() as int) + crlf()
                    + encoded_seq(frames_view(ss.0@)));
                assert(frames_view(ss.0@).len() == ss.0@.len());
                assert(out@ =~= encoded(frame_view(*f)));
            }
        },
    }
    out
}

/// Serialization of one wire value to its canonical bytes.
pub trait EncodeResp: Sized {
    /// The canonical encoding this value serializes to.
    spec fn wire(&self) -> Seq<u8>;

    /// Serializes the value.
    fn encode(self) -> (r: Vec<u8>)
        ensures
            r@ == self.wire(),
    ;
}

impl EncodeResp for RespFrame {
    open spec fn wire(&self) -> Seq<u8> {
        encoded(frame_view(*self))
    }

    fn encode(self) -> (r: Vec<u8>) {
        encode_frame(&self)
    }
}

impl EncodeResp for SimpleString {
    open spec fn wire(&self) -> Seq<u8> {
        encoded(FrameSpec::SimpleString(self.0@))
    }

    fn encode(self) -> (r: Vec<u8>) {
        encode_frame(&RespFrame::SimpleString(self))
    }
}

impl EncodeResp for SimpleError {
    open spec fn wire(&self) -> Seq<u8> {
        encoded(FrameSpec::SimpleError(self.0@))
    }

    fn encode(self) -> (r: Vec<u8>) {
        encode_frame(&RespFrame::SimpleError(self))
    }
}

impl EncodeResp for RespInteger {
    open spec fn wire(&self) -> Seq<u8> {
        encoded(FrameSpec::Integer(self.0))
    }

    fn encode(self) -> (r: Vec<u8>) {
        encode_frame(&RespFrame::Integer(self))
    }
}

impl EncodeResp for RespBulkString {
    open spec fn wire(&self) -> Seq<u8> {
        encoded(FrameSpec::BulkString(self.0@))
    }

    fn encode(self) -> (r: Vec<u8>) {
        encode_frame(&RespFrame::BulkString(self))
    }
}

impl EncodeResp for RespNullBulkString {
    open spec fn wire(&self) -> Seq<u8> {
        encoded(FrameSpec::NullBulkString)
    }

    fn encode(self) -> (r: Vec<u8>) {
        encode_frame(&RespFrame::NullBulkString(self))
    }
}

impl EncodeResp for RespArray {
    open spec fn wire(&self) -> Seq<u8> {
        encoded(FrameSpec::Arrays(frames_view(self.0@)))
    }

    fn encode(self) -> (r: Vec<u8>) {
        encode_frame(&RespFrame::Arrays(self))
    }
}

impl EncodeResp for RespNullArray {
    open spec fn wire(&self) -> Seq<u8> {
        encoded(FrameSpec::NullArray)
    }

    fn encode(self) -> (r: Vec<u8>) {
        encode_frame(&RespFrame::NullArray(self))
    }
}

impl EncodeResp for RespNull {
    open spec fn wire(&self) -> Seq<u8> {
        encoded(FrameSpec::Null)
    }

    fn encode(self) -> (r: Vec<u8>) {
        encode_frame(&RespFrame::Null(self))
    }
}

impl EncodeResp for RespBooleans {
    open spec fn wire(&self) -> Seq<u8> {
        encoded(FrameSpec::Booleans(self.0))
    }

    fn encode(self) -> (r: Vec<u8>) {
        encode_frame(&RespFrame::Booleans(self))
    }
}

impl EncodeResp for RespDoubles {
    open spec fn wire(&self) -> Seq<u8> {
        encoded(FrameSpec::Doubles(self.0@))
    }

    fn encode(self) -> (r: Vec<u8>) {
        encode_frame(&RespFrame::Doubles(self))
    }
}

impl EncodeResp for RespBulkErrors {
    open spec fn wire(&self) -> Seq<u8> {
        encoded(FrameSpec::BulkErrors(self.0@))
    }

    fn encode(self) -> (r: Vec<u8>) {
        encode_frame(&RespFrame::BulkErrors(self))
    }
}

impl EncodeResp for RespMaps {
    open spec fn wire(&self) -> Seq<u8> {
        encoded(FrameSpec::Maps(entries_view(self.0@)))
    }

    fn encode(self) -> (r: Vec<u8>) {
        encode_frame(&RespFrame::Maps(self))
    }
}

impl EncodeResp for RespSets {
    open spec fn wire(&self) -> Seq<u8> {
        encoded(FrameSpec::Sets(frames_view(self.0@)))
    }

    fn encode(self) -> (r: Vec<u8>) {
        encode_frame(&RespFrame::Sets(self))
    }
}

} // verus!
