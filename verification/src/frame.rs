//! The frame model: the closed set of wire value variants and their errors.
use vstd::prelude::*;

verus! {

/// Marker byte of a simple string frame.
pub const POSITIVE_SIGN: u8 = 43;

/// Marker byte of a simple error frame.
pub const NEGATIVE_SIGN: u8 = 45;

/// Marker byte of an integer frame.
pub const COLON: u8 = 58;

/// Marker byte of a double frame.
pub const COMMA: u8 = 44;

/// Marker byte of a bulk string frame.
pub const DOLLAR: u8 = 36;

/// Marker byte of an array frame.
pub const ASTERISK: u8 = 42;

/// Marker byte of a null frame.
pub const UNDERLINE: u8 = 95;

/// Marker byte of a boolean frame.
pub const POND_SIGN: u8 = 35;

/// Marker byte of a map frame.
pub const PERCENT_SIGN: u8 = 37;

/// Marker byte of a set frame.
pub const TILDE_SIGN: u8 = 126;

/// Marker byte of a bulk error frame.
pub const EXCLAMATION_MARK: u8 = 33;

/// Payload byte of a true boolean frame.
pub const TRUE: u8 = 116;

/// Payload byte of a false boolean frame.
pub const FALSE: u8 = 102;

/// Carriage return, first byte of the frame terminator.
pub const CR: u8 = 13;

/// Line feed, second byte of the frame terminator.
pub const LF: u8 = 10;

/// Errors of the wire layer.
///
/// `NotComplete` is never a final failure: the caller retries once more
/// bytes are available.  All other variants are terminal for the byte
/// region at hand.
#[derive(Debug, PartialEq)]
pub enum RespError {
    /// The leading marker byte or the content does not match any known shape.
    InvalidFrameType(String),
    /// The buffer is too short for even the minimal fixed-size preamble.
    InvalidFrameLength(usize),
    /// Not enough bytes are buffered to determine or consume a full frame.
    NotComplete,
    /// A payload that should be a decimal integer does not parse as one;
    /// carries the offending text.
    ParseIntError(String),
    /// A payload that should be a decimal float does not parse as one;
    /// carries the offending text.
    ParseFloatError(String),
}

/// Simple string frame: `+OK\r\n`.
#[derive(Debug, PartialEq)]
pub struct SimpleString(pub String);

/// Simple error frame: `-Error message\r\n`.
#[derive(Debug, PartialEq)]
pub struct SimpleError(pub String);

/// Integer frame: `:[<+|->]<value>\r\n`.
#[derive(Debug, Clone, Copy, PartialEq, Eq, Structural)]
pub struct RespInteger(pub i64);

/// Bulk string frame: `$<length>\r\n<data>\r\n`; the payload is raw bytes.
#[derive(Debug, PartialEq)]
pub struct RespBulkString(pub Vec<u8>);

/// Null bulk string frame: the fixed literal `$-1\r\n`.
#[derive(Debug, Clone, Copy, PartialEq, Eq, Structural)]
pub struct RespNullBulkString;

/// Array frame: `*<number-of-elements>\r\n<element-1>...<element-n>`.
#[derive(Debug, PartialEq)]
pub struct RespArray(pub Vec<RespFrame>);

/// Null array frame: the fixed literal `*-1\r\n`.
#[derive(Debug, Clone, Copy, PartialEq, Eq, Structural)]
pub struct RespNullArray;

/// Null frame: the fixed literal `_\r\n`.
#[derive(Debug, Clone, Copy, PartialEq, Eq, Structural)]
pub struct RespNull;

/// Boolean frame: `#<t|f>\r\n`.
#[derive(Debug, Clone, Copy, PartialEq, Eq, Structural)]
pub struct RespBooleans(pub bool);

/// Double frame: `,<decimal text>\r\n`.
///
/// The payload is held as its decimal text body, so that the numeric
/// logic stays in plain values; the wire grammar of that text is checked
/// by the decoder.
#[derive(Debug, PartialEq)]
pub struct RespDoubles(pub String);

/// Bulk error frame: `!<length>\r\n<error>\r\n`; the payload is raw bytes.
#[derive(Debug, PartialEq)]
pub struct RespBulkErrors(pub Vec<u8>);

/// Map frame: `%<number-of-entries>\r\n<key-1><value-1>...`.
///
/// Entries are held sorted by key in ascending order, keys unique; the
/// decoder and `RespMaps::insert` keep that order.
#[derive(Debug, PartialEq)]
pub struct RespMaps(pub Vec<(String, RespFrame)>);

/// Set frame: `~<number-of-elements>\r\n<element-1>...`.
///
/// The representation is an ordered sequence; duplicates are not rejected.
#[derive(Debug, PartialEq)]
pub struct RespSets(pub Vec<RespFrame>);

/// One self-describing value in the wire format's closed type set.
#[derive(Debug, PartialEq)]
pub enum RespFrame {
    SimpleString(SimpleString),
    SimpleError(SimpleError),
    Integer(RespInteger),
    BulkString(RespBulkString),
    NullBulkString(RespNullBulkString),
    Arrays(RespArray),
    NullArray(RespNullArray),
    Null(RespNull),
    Booleans(RespBooleans),
    Doubles(RespDoubles),
    BulkErrors(RespBulkErrors),
    Maps(RespMaps),
    Sets(RespSets),
}

/// The mathematical model of a frame: texts as character sequences, raw
/// payloads as byte sequences, aggregates as sequences of models.
pub enum FrameSpec {
    SimpleString(Seq<char>),
    SimpleError(Seq<char>),
    Integer(i64),
    BulkString(Seq<u8>),
    NullBulkString,
    Arrays(Seq<FrameSpec>),
    NullArray,
    Null,
    Booleans(bool),
    Doubles(Seq<char>),
    BulkErrors(Seq<u8>),
    Maps(Seq<(Seq<char>, FrameSpec)>),
    Sets(Seq<FrameSpec>),
}

/// The model of one frame.
pub open spec fn frame_view(f: RespFrame) -> FrameSpec
    decreases f,
{
    match f {
        RespFrame::SimpleString(s) => FrameSpec::SimpleString(s.0@),
        RespFrame::SimpleError(s) => FrameSpec::SimpleError(s.0@),
        RespFrame::Integer(n) => FrameSpec::Integer(n.0),
        RespFrame::BulkString(b) => FrameSpec::BulkString(b.0@),
        RespFrame::NullBulkString(_) => FrameSpec::NullBulkString,
        RespFrame::Arrays(a) => FrameSpec::Arrays(frames_view(a.0@)),
        RespFrame::NullArray(_) => FrameSpec::NullArray,
        RespFrame::Null(_) => FrameSpec::Null,
        RespFrame::Booleans(b) => FrameSpec::Booleans(b.0),
        RespFrame::Doubles(d) => FrameSpec::Doubles(d.0@),
        RespFrame::BulkErrors(b) => FrameSpec::BulkErrors(b.0@),
        RespFrame::Maps(m) => FrameSpec::Maps(entries_view(m.0@)),
        RespFrame::Sets(s) => FrameSpec::Sets(frames_view(s.0@)),
    }
}

/// The models of a sequence of frames, in order.
pub open spec fn frames_view(s: Seq<RespFrame>) -> Seq<FrameSpec>
    decreases s,
{
    if s.len() == 0 {
        Seq::empty()
    } else {
        seq![frame_view(s.first())] + frames_view(s.drop_first())
    }
}

/// The models of a sequence of map entries, in order.
pub open spec fn entries_view(s: Seq<(String, RespFrame)>) -> Seq<(Seq<char>, FrameSpec)>
    decreases s,
{
    if s.len() == 0 {
        Seq::empty()
    } else {
        seq![(s.first().0@, frame_view(s.first().1))] + entries_view(s.drop_first())
    }
}

/// `frames_view` is the pointwise model of its argument.
pub broadcast proof fn lemma_frames_view(s: Seq<RespFrame>)
    ensures
        (#[trigger] frames_view(s)).len() == s.len(),
        forall|i: int| 0 <= i < s.len() ==> frames_view(s)[i] == frame_view(s[i]),
    decreases s.len(),
{
    if s.len() > 0 {
        lemma_frames_view(s.drop_first());
    }
}

/// `entries_view` is the pointwise model of its argument.
pub broadcast proof fn lemma_entries_view(s: Seq<(String, RespFrame)>)
    ensures
        (#[trigger] entries_view(s)).len() == s.len(),
        forall|i: int|
            0 <= i < s.len() ==> entries_view(s)[i] == (s[i].0@, frame_view(s[i].1)),
    decreases s.len(),
{
    if s.len() > 0 {
        lemma_entries_view(s.drop_first());
    }
}

impl View for RespFrame {
    type V = FrameSpec;

    open spec fn view(&self) -> FrameSpec {
        frame_view(*self)
    }
}

impl View for SimpleString {
    type V = Seq<char>;

    open spec fn view(&self) -> Seq<char> {
        self.0@
    }
}

impl View for SimpleError {
    type V = Seq<char>;

    open spec fn view(&self) -> Seq<char> {
        self.0@
    }
}

impl View for RespInteger {
    type V = i64;

    open spec fn view(&self) -> i64 {
        self.0
    }
}

impl View for RespBulkString {
    type V = Seq<u8>;

    open spec fn view(&self) -> Seq<u8> {
        self.0@
    }
}

impl View for RespArray {
    type V = Seq<FrameSpec>;

    open spec fn view(&self) -> Seq<FrameSpec> {
        frames_view(self.0@)
    }
}

impl View for RespBooleans {
    type V = bool;

    open spec fn view(&self) -> bool {
        self.0
    }
}

impl View for RespDoubles {
    type V = Seq<char>;

    open spec fn view(&self) -> Seq<char> {
        self.0@
    }
}

impl View for RespBulkErrors {
    type V = Seq<u8>;

    open spec fn view(&self) -> Seq<u8> {
        self.0@
    }
}

impl View for RespMaps {
    type V = Seq<(Seq<char>, FrameSpec)>;

    open spec fn view(&self) -> Seq<(Seq<char>, FrameSpec)> {
        entries_view(self.0@)
    }
}

impl View for RespSets {
    type V = Seq<FrameSpec>;

    open spec fn view(&self) -> Seq<FrameSpec> {
        frames_view(self.0@)
    }
}

/// A short name for the error variant, independent of the carried detail
/// text; the contracts of the wire layer pin errors down to this.
pub enum ErrKind {
    BadType,
    BadLength(int),
    BadInt,
    BadFloat,
    Pending,
}

/// The kind of an error value, with the detail text abstracted away.
pub open spec fn err_kind(e: RespError) -> ErrKind {
    match e {
        RespError::InvalidFrameType(_) => ErrKind::BadType,
        RespError::InvalidFrameLength(n) => ErrKind::BadLength(n as int),
        RespError::NotComplete => ErrKind::Pending,
        RespError::ParseIntError(_) => ErrKind::BadInt,
        RespError::ParseFloatError(_) => ErrKind::BadFloat,
    }
}

impl Clone for SimpleString {
    fn clone(&self) -> (r: Self)
        ensures
            r@ == self@,
    {
        SimpleString(self.0.clone())
    }
}

impl Clone for SimpleError {
    fn clone(&self) -> (r: Self)
        ensures
            r@ == self@,
    {
        SimpleError(self.0.clone())
    }
}

impl Clone for RespDoubles {
    fn clone(&self) -> (r: Self)
        ensures
            r@ == self@,
    {
        RespDoubles(self.0.clone())
    }
}

impl Clone for RespBulkString {
    fn clone(&self) -> (r: Self)
        ensures
            r@ == self@,
    {
        let v = self.0.clone();
        proof {
            assert(v@ =~= self.0@);
        }
        RespBulkString(v)
    }
}

impl Clone for RespBulkErrors {
    fn clone(&self) -> (r: Self)
        ensures
            r@ == self@,
    {
        let v = self.0.clone();
        proof {
            assert(v@ =~= self.0@);
        }
        RespBulkErrors(v)
    }
}

/// Deep copy of a frame; mutually recursive with [`clone_frames`] and
/// [`clone_entries`].
fn clone_frame(f: &RespFrame) -> (r: RespFrame)
    ensures
        r@ == f@,
    decreases *f,
{
    match f {
        RespFrame::SimpleString(s) => RespFrame::SimpleString(s.clone()),
        RespFrame::SimpleError(s) => RespFrame::SimpleError(s.clone()),
        RespFrame::Integer(n) => RespFrame::Integer(*n),
        RespFrame::BulkString(b) => RespFrame::BulkString(b.clone()),
        RespFrame::NullBulkString(_) => RespFrame::NullBulkString(RespNullBulkString),
        RespFrame::Arrays(a) => RespFrame::Arrays(RespArray(clone_frames(&a.0))),
        RespFrame::NullArray(_) => RespFrame::NullArray(RespNullArray),
        RespFrame::Null(_) => RespFrame::Null(RespNull),
        RespFrame::Booleans(b) => RespFrame::Booleans(*b),
        RespFrame::Doubles(d) => RespFrame::Doubles(d.clone()),
        RespFrame::BulkErrors(b) => RespFrame::BulkErrors(b.clone()),
        RespFrame::Maps(m) => RespFrame::Maps(RespMaps(clone_entries(&m.0))),
        RespFrame::Sets(s) => RespFrame::Sets(RespSets(clone_frames(&s.0))),
    }
}

/// Deep copy of a sequence of frames.
fn clone_frames(v: &Vec<RespFrame>) -> (r: Vec<RespFrame>)
    ensures
        frames_view(r@) == frames_view(v@),
    decreases *v,
{
    let mut out: Vec<RespFrame> = Vec::new();
    let mut i: usize = 0;
    while i < v.len()
        invariant
            i <= v.len(),
            out@.len() == i as int,
            forall|j: int|
                0 <= j < i as int ==> #[trigger] frame_view(out@[j]) == frame_view(v@[j]),
        decreases v.len() - i,
    {
        let c = clone_frame(&v[i]);
        out.push(c);
        i = i + 1;
    }
    proof {
        broadcast use lemma_frames_view;

        assert(frames_view(out@) =~= frames_view(v@));
    }
    out
}

/// Deep copy of a sequence of map entries.
fn clone_entries(v: &Vec<(String, RespFrame)>) -> (r: Vec<(String, RespFrame)>)
    ensures
        entries_view(r@) == entries_view(v@),
    decreases *v,
{
    let mut out: Vec<(String, RespFrame)> = Vec::new();
    let mut i: usize = 0;
    while i < v.len()
        invariant
            i <= v.len(),
            out@.len() == i as int,
            forall|j: int|
                0 <= j < i as int ==> #[trigger] out@[j].0@ == v@[j].0@ && frame_view(out@[j].1)
                    == frame_view(v@[j].1),
        decreases v.len() - i,
    {
        let k = v[i].0.clone();
        let val = clone_frame(&v[i].1);
        out.push((k, val));
        i = i + 1;
    }
    proof {
        broadcast use lemma_entries_view;

        assert(entries_view(out@) =~= entries_view(v@));
    }
    out
}

impl Clone for RespArray {
    fn clone(&self) -> (r: Self)
        ensures
            r@ == self@,
    {
        RespArray(clone_frames(&self.0))
    }
}

impl Clone for RespSets {
    fn clone(&self) -> (r: Self)
        ensures
            r@ == self@,
    {
        RespSets(clone_frames(&self.0))
    }
}

impl Clone for RespMaps {
    fn clone(&self) -> (r: Self)
        ensures
            r@ == self@,
    {
        RespMaps(clone_entries(&self.0))
    }
}

impl Clone for RespFrame {
    fn clone(&self) -> (r: Self)
        ensures
            r@ == self@,
    {
        clone_frame(self)
    }
}

impl Clone for RespError {
    fn clone(&self) -> (r: Self)
        ensures
            err_kind(r) == err_kind(*self),
    {
        match self {
            RespError::InvalidFrameType(s) => RespError::InvalidFrameType(s.clone()),
            RespError::InvalidFrameLength(n) => RespError::InvalidFrameLength(*n),
            RespError::NotComplete => RespError::NotComplete,
            RespError::ParseIntError(s) => RespError::ParseIntError(s.clone()),
            RespError::ParseFloatError(s) => RespError::ParseFloatError(s.clone()),
        }
    }
}

} // verus!
