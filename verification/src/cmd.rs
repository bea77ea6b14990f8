//! The command layer: validates an aggregate frame as a named command
//! with fixed arity, extracts typed arguments, and executes against the
//! backend store, producing a response frame.
use vstd::prelude::*;

use crate::frame::FrameSpec;
use crate::frame::RespArray;
use crate::frame::RespError;
use crate::frame::RespFrame;
use crate::frame::RespNull;
use crate::frame::SimpleString;
use crate::frame::frame_view;
use crate::frame::frames_view;
use crate::frame::lemma_frames_view;
use crate::numtext::bytes_eq;
use crate::numtext::lower_ascii;
use crate::store::Backend;
use crate::store::StoreModel;
use crate::store::hset_model;
use crate::trusted::string_from_utf8;
use crate::wire::lower_bytes;
use vstd::utf8::decode_utf8;
use vstd::utf8::encode_utf8;
use vstd::utf8::valid_utf8;

verus! {

/// Errors of the command layer; they are reported back to the issuer as a
/// protocol-level error, not a transport failure.
#[derive(Debug, PartialEq)]
pub enum CommandError {
    /// The verb is unknown, or the element that should carry it has the
    /// wrong shape.
    InvalidCommand(String),
    /// The arity is wrong, or an argument frame has the wrong kind.
    InvalidArgument(String),
    /// A wire-layer error carried through.
    RespError(RespError),
    /// A key or table name is not valid UTF-8 text.
    FromUtf8Error(Vec<u8>),
}

/// The kind of a command error, with the detail abstracted away.
pub enum CmdErrKind {
    BadCommand,
    BadArgument,
    Wire,
    BadText,
}

/// The kind of a command error value.
pub open spec fn cmd_err_kind(e: CommandError) -> CmdErrKind {
    match e {
        CommandError::InvalidCommand(_) => CmdErrKind::BadCommand,
        CommandError::InvalidArgument(_) => CmdErrKind::BadArgument,
        CommandError::RespError(_) => CmdErrKind::Wire,
        CommandError::FromUtf8Error(_) => CmdErrKind::BadText,
    }
}

/// Whether a frame sequence is a well-shaped command head: the declared
/// arity, and a bulk-string verb equal to the name under case-insensitive
/// comparison.
pub open spec fn valid_head(fs: Seq<FrameSpec>, name: Seq<char>, n_args: int) -> bool {
    &&& fs.len() == 1 + n_args
    &&& fs[0] is BulkString
    &&& lower_bytes(fs[0]->BulkString_0) == encode_utf8(name)
}


/// The exact outcome of the GET conversion on a frame sequence.
pub open spec fn get_outcome(fs: Seq<FrameSpec>, r: Result<Get, CommandError>) -> bool {
    if !valid_head(fs, "get"@, 1) {
        r matches Result::Err(e) && cmd_err_kind(e) == if fs.len() != 2 {
            CmdErrKind::BadArgument
        } else {
            CmdErrKind::BadCommand
        }
    } else if !(fs[1] is BulkString) {
        r matches Result::Err(e) && cmd_err_kind(e) == CmdErrKind::BadArgument
    } else if !valid_utf8(fs[1]->BulkString_0) {
        r matches Result::Err(e) && cmd_err_kind(e) == CmdErrKind::BadText
    } else {
        r matches Result::Ok(g) && g.key@ == decode_utf8(fs[1]->BulkString_0)
    }
}

/// The exact outcome of the SET conversion on a frame sequence.
pub open spec fn set_outcome(fs: Seq<FrameSpec>, r: Result<SetCmd, CommandError>) -> bool {
    if !valid_head(fs, "set"@, 2) {
        r matches Result::Err(e) && cmd_err_kind(e) == if fs.len() != 3 {
            CmdErrKind::BadArgument
        } else {
            CmdErrKind::BadCommand
        }
    } else if !(fs[1] is BulkString) {
        r matches Result::Err(e) && cmd_err_kind(e) == CmdErrKind::BadArgument
    } else if !valid_utf8(fs[1]->BulkString_0) {
        r matches Result::Err(e) && cmd_err_kind(e) == CmdErrKind::BadText
    } else {
        r matches Result::Ok(s) && s.key@ == decode_utf8(fs[1]->BulkString_0) && frame_view(
            s.value,
        ) == fs[2]
    }
}

/// The exact outcome of the HGET conversion on a frame sequence.
pub open spec fn hget_outcome(fs: Seq<FrameSpec>, r: Result<HGet, CommandError>) -> bool {
    if !valid_head(fs, "hget"@, 2) {
        r matches Result::Err(e) && cmd_err_kind(e) == if fs.len() != 3 {
            CmdErrKind::BadArgument
        } else {
            CmdErrKind::BadCommand
        }
    } else if !(fs[1] is BulkString && fs[2] is BulkString) {
        r matches Result::Err(e) && cmd_err_kind(e) == CmdErrKind::BadArgument
    } else if !(valid_utf8(fs[1]->BulkString_0) && valid_utf8(fs[2]->BulkString_0)) {
        r matches Result::Err(e) && cmd_err_kind(e) == CmdErrKind::BadText
    } else {
        r matches Result::Ok(s) && s.table_name@ == decode_utf8(fs[1]->BulkString_0) && s.key@
            == decode_utf8(fs[2]->BulkString_0)
    }
}

/// The exact outcome of the HSET conversion on a frame sequence: the
/// table and key must be bulk strings holding text, the value may be any
/// frame kind.
pub open spec fn hset_outcome(fs: Seq<FrameSpec>, r: Result<HSet, CommandError>) -> bool {
    if !valid_head(fs, "hset"@, 3) {
        r matches Result::Err(e) && cmd_err_kind(e) == if fs.len() != 4 {
            CmdErrKind::BadArgument
        } else {
            CmdErrKind::BadCommand
        }
    } else if !(fs[1] is BulkString && fs[2] is BulkString) {
        r matches Result::Err(e) && cmd_err_kind(e) == CmdErrKind::BadArgument
    } else if !(valid_utf8(fs[1]->BulkString_0) && valid_utf8(fs[2]->BulkString_0)) {
        r matches Result::Err(e) && cmd_err_kind(e) == CmdErrKind::BadText
    } else {
        r matches Result::Ok(s) && s.table_name@ == decode_utf8(fs[1]->BulkString_0) && s.key@
            == decode_utf8(fs[2]->BulkString_0) && frame_view(s.value) == fs[3]
    }
}

/// The exact outcome of the HGETALL conversion on a frame sequence.
pub open spec fn hgetall_outcome(fs: Seq<FrameSpec>, r: Result<HGetAll, CommandError>) -> bool {
    if !valid_head(fs, "hgetall"@, 1) {
        r matches Result::Err(e) && cmd_err_kind(e) == if fs.len() != 2 {
            CmdErrKind::BadArgument
        } else {
            CmdErrKind::BadCommand
        }
    } else if !(fs[1] is BulkString) {
        r matches Result::Err(e) && cmd_err_kind(e) == CmdErrKind::BadArgument
    } else if !valid_utf8(fs[1]->BulkString_0) {
        r matches Result::Err(e) && cmd_err_kind(e) == CmdErrKind::BadText
    } else {
        r matches Result::Ok(s) && s.table_name@ == decode_utf8(fs[1]->BulkString_0)
    }
}

/// Validates the shape of a command frame: an array of exactly
/// `1 + n_args` elements whose first element is a bulk string equal to
/// the command name under case-insensitive comparison.
pub fn validate_command(value: &RespArray, command_name: &str, n_args: usize) -> (r: Result<
    (),
    CommandError,
>)
    ensures
        ({
            let fs = value@;
            match r {
                Result::Ok(u) => valid_head(fs, command_name@, n_args as int),
                Result::Err(e) => !valid_head(fs, command_name@, n_args as int) && cmd_err_kind(
                    e,
                ) == if fs.len() != 1 + n_args {
                    CmdErrKind::BadArgument
                } else {
                    CmdErrKind::BadCommand
                },
            }
        }),
{
    proof {
        broadcast use lemma_frames_view;

    }
    if value.0.len() == 0 || value.0.len() - 1 != n_args {
        return Err(
            CommandError::InvalidArgument(
                crate::trusted::string_from_bytes_lossy("wrong number of arguments".as_bytes()),
            ),
        );
    }
    match &value.0[0] {
        RespFrame::BulkString(cmd) => {
            let lowered = lower_ascii(cmd.0.as_slice());
            if bytes_eq(lowered.as_slice(), command_name.as_bytes()) {
                Ok(())
            } else {
                Err(
                    CommandError::InvalidCommand(
                        crate::trusted::string_from_bytes_lossy("unexpected verb".as_bytes()),
                    ),
                )
            }
        },
        _ => Err(
            CommandError::InvalidCommand(
                crate::trusted::string_from_bytes_lossy(
                    "the verb should be a bulk string".as_bytes(),
                ),
            ),
        ),
    }
}

/// Hands back the arguments of a command frame: the elements after the
/// first `skip_index`, preserving their order.
pub fn extract_cmd_args(value: RespArray, skip_index: usize) -> (r: Result<
    Vec<RespFrame>,
    CommandError,
>)
    ensures
        r matches Result::Ok(v) && frames_view(v@) == if skip_index as int <= value@.len() {
            value@.skip(skip_index as int)
        } else {
            Seq::<FrameSpec>::empty()
        },
{
    proof {
        broadcast use lemma_frames_view;

    }
    let mut out: Vec<RespFrame> = Vec::new();
    if skip_index >= value.0.len() {
        proof {
            if skip_index as int <= value@.len() {
                assert(frames_view(out@) =~= value@.skip(skip_index as int));
            } else {
                assert(frames_view(out@) =~= Seq::<FrameSpec>::empty());
            }
        }
        return Ok(out);
    }
    let mut i: usize = skip_index;
    while i < value.0.len()
        invariant
            skip_index <= i <= value.0@.len(),
            out@.len() == i - skip_index,
            forall|j: int|
                0 <= j < out@.len() ==> frame_view(#[trigger] out@[j]) == frame_view(
                    value.0@[skip_index + j],
                ),
        decreases value.0@.len() - i,
    {
        let f = value.0[i].clone();
        out.push(f);
        i = i + 1;
    }
    proof {
        broadcast use lemma_frames_view;

        assert(frames_view(out@) =~= value@.skip(skip_index as int));
    }
    Ok(out)
}

/// A command executor: one validated command applied to the backend,
/// producing a response frame.
pub trait CommandExecutor: Sized {
    /// What executing this command means: the relation between the store
    /// before, the store after, and the model of the response.
    spec fn executes_to(self, pre: StoreModel, post: StoreModel, resp: FrameSpec) -> bool;

    /// Executes the command against the backend.
    fn execute(self, backend: &mut Backend) -> (r: RespFrame)
        ensures
            self.executes_to(old(backend)@, final(backend)@, r@),
    ;
}

/// The canonical OK response.
pub fn resp_ok() -> (r: RespFrame)
    ensures
        r@ == FrameSpec::SimpleString("OK"@),
{
    RespFrame::SimpleString(SimpleString("OK".to_owned()))
}

/// The GET command: look one key up in the flat map.
#[derive(Debug, PartialEq)]
pub struct Get {
    pub key: String,
}

impl Get {
    /// Makes a GET command for the key.
    pub fn new(key: String) -> (r: Get)
        ensures
            r.key@ == key@,
    {
        Get { key }
    }

    /// Validated conversion from an array frame: `GET key`, the key a
    /// bulk string holding text.
    pub fn try_from(value: RespArray) -> (r: Result<Get, CommandError>)
        ensures
            get_outcome(value@, r),
    {
        proof {
            broadcast use lemma_frames_view;

        }
        let ghost fs = value@;
        validate_command(&value, "get", 1)?;
        let mut args = extract_cmd_args(value, 1)?;
        proof {
            broadcast use lemma_frames_view;

            assert(args@.len() == 1);
            assert(forall|j: int|
                0 <= j < args@.len() ==> frame_view(#[trigger] args@[j]) == fs.skip(1)[j]);
            assert(forall|j: int| 0 <= j < args@.len() ==> fs.skip(1)[j] == fs[1 + j]);
        }
        match args.pop() {
            Option::Some(RespFrame::BulkString(b)) => match string_from_utf8(b.0) {
                Option::Some(key) => Ok(Get { key }),
                Option::None => Err(CommandError::FromUtf8Error(Vec::new())),
            },
            _ => Err(
                CommandError::InvalidArgument(
                    crate::trusted::string_from_bytes_lossy(
                        "the key should be a bulk string".as_bytes(),
                    ),
                ),
            ),
        }
    }
}

impl CommandExecutor for Get {
    open spec fn executes_to(self, pre: StoreModel, post: StoreModel, resp: FrameSpec) -> bool {
        &&& post == pre
        &&& resp == if pre.kv.dom().contains(self.key@) {
            frame_view(pre.kv[self.key@])
        } else {
            FrameSpec::Null
        }
    }

    fn execute(self, backend: &mut Backend) -> (r: RespFrame) {
        match backend.get(self.key.as_str()) {
            Option::Some(v) => v,
            Option::None => RespFrame::Null(RespNull),
        }
    }
}

/// The SET command: store one value under one key in the flat map.
#[derive(Debug, PartialEq)]
pub struct SetCmd {
    pub key: String,
    pub value: RespFrame,
}

impl SetCmd {
    /// Makes a SET command for the key and value.
    pub fn new(key: String, value: RespFrame) -> (r: SetCmd)
        ensures
            r.key@ == key@,
            r.value == value,
    {
        SetCmd { key, value }
    }

    /// Validated conversion from an array frame: `SET key value`, the key
    /// a bulk string holding text, the value any frame.
    pub fn try_from(value: RespArray) -> (r: Result<SetCmd, CommandError>)
        ensures
            set_outcome(value@, r),
    {
        proof {
            broadcast use lemma_frames_view;

        }
        let ghost fs = value@;
        validate_command(&value, "set", 2)?;
        let mut args = extract_cmd_args(value, 1)?;
        proof {
            broadcast use lemma_frames_view;

            assert(args@.len() == 2);
            assert(forall|j: int|
                0 <= j < args@.len() ==> frame_view(#[trigger] args@[j]) == fs.skip(1)[j]);
            assert(forall|j: int| 0 <= j < args@.len() ==> fs.skip(1)[j] == fs[1 + j]);
        }
        let v = args.pop();
        let k = args.pop();
        match (k, v) {
            (Option::Some(RespFrame::BulkString(b)), Option::Some(val)) => match string_from_utf8(
                b.0,
            ) {
                Option::Some(key) => Ok(SetCmd { key, value: val }),
                Option::None => Err(CommandError::FromUtf8Error(Vec::new())),
            },
            _ => Err(
                CommandError::InvalidArgument(
                    crate::trusted::string_from_bytes_lossy(
                        "the key should be a bulk string".as_bytes(),
                    ),
                ),
            ),
        }
    }
}

impl CommandExecutor for SetCmd {
    open spec fn executes_to(self, pre: StoreModel, post: StoreModel, resp: FrameSpec) -> bool {
        &&& post.kv == pre.kv.insert(self.key@, self.value)
        &&& post.tables == pre.tables
        &&& resp == FrameSpec::SimpleString("OK"@)
    }

    fn execute(self, backend: &mut Backend) -> (r: RespFrame) {
        backend.set(self.key, self.value);
        resp_ok()
    }
}

/// The HSET command: store one value under one key of one named table.
#[derive(Debug, PartialEq)]
pub struct HSet {
    pub table_name: String,
    pub key: String,
    pub value: RespFrame,
}

impl HSet {
    /// Makes an HSET command for the table, key and value.
    pub fn new(table_name: String, key: String, value: RespFrame) -> (r: HSet)
        ensures
            r.table_name@ == table_name@,
            r.key@ == key@,
            r.value == value,
    {
        HSet { table_name, key, value }
    }

    /// Validated conversion from an array frame: `HSET table key value`,
    /// the table and key bulk strings holding text, the value any frame.
    pub fn try_from(value: RespArray) -> (r: Result<HSet, CommandError>)
        ensures
            hset_outcome(value@, r),
    {
        proof {
            broadcast use lemma_frames_view;

        }
        let ghost fs = value@;
        validate_command(&value, "hset", 3)?;
        let mut args = extract_cmd_args(value, 1)?;
        proof {
            broadcast use lemma_frames_view;

            assert(args@.len() == 3);
            assert(forall|j: int|
                0 <= j < args@.len() ==> frame_view(#[trigger] args@[j]) == fs.skip(1)[j]);
            assert(forall|j: int| 0 <= j < args@.len() ==> fs.skip(1)[j] == fs[1 + j]);
        }
        let v = args.pop();
        let k = args.pop();
        let t = args.pop();
        match (t, k, v) {
            (
                Option::Some(RespFrame::BulkString(tb)),
                Option::Some(RespFrame::BulkString(kb)),
                Option::Some(val),
            ) => {
                let table_name = match string_from_utf8(tb.0) {
                    Option::Some(s) => s,
                    Option::None => {
                        return Err(CommandError::FromUtf8Error(Vec::new()));
                    },
                };
                let key = match string_from_utf8(kb.0) {
                    Option::Some(s) => s,
                    Option::None => {
                        return Err(CommandError::FromUtf8Error(Vec::new()));
                    },
                };
                Ok(HSet { table_name, key, value: val })
            },
            _ => Err(
                CommandError::InvalidArgument(
                    crate::trusted::string_from_bytes_lossy(
                        "the table and key should be bulk strings".as_bytes(),
                    ),
                ),
            ),
        }
    }
}

impl CommandExecutor for HSet {
    open spec fn executes_to(self, pre: StoreModel, post: StoreModel, resp: FrameSpec) -> bool {
        &&& post.tables == hset_model(pre.tables, self.table_name@, self.key@, self.value)
        &&& post.kv == pre.kv
        &&& resp == FrameSpec::SimpleString("OK"@)
    }

    fn execute(self, backend: &mut Backend) -> (r: RespFrame) {
        backend.hset(self.table_name, self.key, self.value);
        resp_ok()
    }
}

/// The HGET command: look one key up in one named table.
#[derive(Debug, PartialEq)]
pub struct HGet {
    pub table_name: String,
    pub key: String,
}

impl HGet {
    /// Makes an HGET command for the table and key.
    pub fn new(table_name: String, key: String) -> (r: HGet)
        ensures
            r.table_name@ == table_name@,
            r.key@ == key@,
    {
        HGet { table_name, key }
    }

    /// Validated conversion from an array frame: `HGET table key`, both
    /// arguments bulk strings holding text.
    pub fn try_from(value: RespArray) -> (r: Result<HGet, CommandError>)
        ensures
            hget_outcome(value@, r),
    {
        proof {
            broadcast use lemma_frames_view;

        }
        let ghost fs = value@;
        validate_command(&value, "hget", 2)?;
        let mut args = extract_cmd_args(value, 1)?;
        proof {
            broadcast use lemma_frames_view;

            assert(args@.len() == 2);
            assert(forall|j: int|
                0 <= j < args@.len() ==> frame_view(#[trigger] args@[j]) == fs.skip(1)[j]);
            assert(forall|j: int| 0 <= j < args@.len() ==> fs.skip(1)[j] == fs[1 + j]);
        }
        let k = args.pop();
        let t = args.pop();
        match (t, k) {
            (Option::Some(RespFrame::BulkString(tb)), Option::Some(RespFrame::BulkString(kb))) => {
                let table_name = match string_from_utf8(tb.0) {
                    Option::Some(s) => s,
                    Option::None => {
                        return Err(CommandError::FromUtf8Error(Vec::new()));
                    },
                };
                let key = match string_from_utf8(kb.0) {
                    Option::Some(s) => s,
                    Option::None => {
                        return Err(CommandError::FromUtf8Error(Vec::new()));
                    },
                };
                Ok(HGet { table_name, key })
            },
            _ => Err(
                CommandError::InvalidArgument(
                    crate::trusted::string_from_bytes_lossy(
                        "both arguments should be bulk strings".as_bytes(),
                    ),
                ),
            ),
        }
    }
}

impl CommandExecutor for HGet {
    open spec fn executes_to(self, pre: StoreModel, post: StoreModel, resp: FrameSpec) -> bool {
        &&& post == pre
        &&& resp == if pre.tables.dom().contains(self.table_name@)
            && pre.tables[self.table_name@].dom().contains(self.key@) {
            frame_view(pre.tables[self.table_name@][self.key@])
        } else {
            FrameSpec::Null
        }
    }

    fn execute(self, backend: &mut Backend) -> (r: RespFrame) {
        match backend.hget(self.table_name.as_str(), self.key.as_str()) {
            Option::Some(v) => v,
            Option::None => RespFrame::Null(RespNull),
        }
    }
}

/// The HGETALL command: snapshot one whole named table.  Its conversion
/// into a single response frame is left to the caller, so it carries no
/// executor here.
#[derive(Debug, PartialEq)]
pub struct HGetAll {
    pub table_name: String,
}

impl HGetAll {
    /// Makes an HGETALL command for the table.
    pub fn new(table_name: String) -> (r: HGetAll)
        ensures
            r.table_name@ == table_name@,
    {
        HGetAll { table_name }
    }

    /// Validated conversion from an array frame: `HGETALL table`, the
    /// table name a bulk string holding text.
    pub fn try_from(value: RespArray) -> (r: Result<HGetAll, CommandError>)
        ensures
            hgetall_outcome(value@, r),
    {
        proof {
            broadcast use lemma_frames_view;

        }
        let ghost fs = value@;
        validate_command(&value, "hgetall", 1)?;
        let mut args = extract_cmd_args(value, 1)?;
        proof {
            broadcast use lemma_frames_view;

            assert(args@.len() == 1);
            assert(forall|j: int|
                0 <= j < args@.len() ==> frame_view(#[trigger] args@[j]) == fs.skip(1)[j]);
            assert(forall|j: int| 0 <= j < args@.len() ==> fs.skip(1)[j] == fs[1 + j]);
        }
        match args.pop() {
            Option::Some(RespFrame::BulkString(tb)) => match string_from_utf8(tb.0) {
                Option::Some(table_name) => Ok(HGetAll { table_name }),
                Option::None => Err(CommandError::FromUtf8Error(Vec::new())),
            },
            _ => Err(
                CommandError::InvalidArgument(
                    crate::trusted::string_from_bytes_lossy(
                        "the table name should be a bulk string".as_bytes(),
                    ),
                ),
            ),
        }
    }
}

/// One of the five typed commands, as dispatched from a decoded array
/// frame.
#[derive(Debug)]
pub enum Command {
    SetCmd(SetCmd),
    Get(Get),
    HSet(HSet),
    HGet(HGet),
    HGetAll(HGetAll),
}

impl Command {
    /// Dispatch by verb name: a case-insensitive match on the first
    /// element selects the typed constructor, whose outcome is handed
    /// through unchanged; an empty array, a non-bulk-string verb element
    /// or an unknown verb is an invalid command.
    pub fn try_from(value: RespArray) -> (r: Result<Command, CommandError>)
        ensures
            ({
                let fs = value@;
                if fs.len() == 0 || !(fs[0] is BulkString) {
                    r matches Result::Err(e) && cmd_err_kind(e) == CmdErrKind::BadCommand
                } else {
                    let verb = lower_bytes(fs[0]->BulkString_0);
                    if verb == encode_utf8("get"@) {
                        match r {
                            Result::Ok(c) => c matches Command::Get(g) && get_outcome(
                                fs,
                                Result::Ok(g),
                            ),
                            Result::Err(e) => get_outcome(fs, Result::Err(e)),
                        }
                    } else if verb == encode_utf8("set"@) {
                        match r {
                            Result::Ok(c) => c matches Command::SetCmd(g) && set_outcome(
                                fs,
                                Result::Ok(g),
                            ),
                            Result::Err(e) => set_outcome(fs, Result::Err(e)),
                        }
                    } else if verb == encode_utf8("hget"@) {
                        match r {
                            Result::Ok(c) => c matches Command::HGet(g) && hget_outcome(
                                fs,
                                Result::Ok(g),
                            ),
                            Result::Err(e) => hget_outcome(fs, Result::Err(e)),
                        }
                    } else if verb == encode_utf8("hset"@) {
                        match r {
                            Result::Ok(c) => c matches Command::HSet(g) && hset_outcome(
                                fs,
                                Result::Ok(g),
                            ),
                            Result::Err(e) => hset_outcome(fs, Result::Err(e)),
                        }
                    } else if verb == encode_utf8("hgetall"@) {
                        match r {
                            Result::Ok(c) => c matches Command::HGetAll(g) && hgetall_outcome(
                                fs,
                                Result::Ok(g),
                            ),
                            Result::Err(e) => hgetall_outcome(fs, Result::Err(e)),
                        }
                    } else {
                        r matches Result::Err(e) && cmd_err_kind(e) == CmdErrKind::BadCommand
                    }
                }
            }),
    {
        proof {
            broadcast use lemma_frames_view;

        }
        let ghost fs = value@;
        if value.0.len() == 0 {
            return Err(
                CommandError::InvalidCommand(
                    crate::trusted::string_from_bytes_lossy("an empty command".as_bytes()),
                ),
            );
        }
        let verb: Vec<u8> = match &value.0[0] {
            RespFrame::BulkString(b) => lower_ascii(b.0.as_slice()),
            _ => {
                return Err(
                    CommandError::InvalidCommand(
                        crate::trusted::string_from_bytes_lossy(
                            "the verb should be a bulk string".as_bytes(),
                        ),
                    ),
                );
            },
        };
        proof {
            assert(verb@ == lower_bytes(fs[0]->BulkString_0));
        }
        if bytes_eq(verb.as_slice(), "get".as_bytes()) {
            match Get::try_from(value) {
                Result::Ok(g) => Ok(Command::Get(g)),
                Result::Err(e) => Err(e),
            }
        } else if bytes_eq(verb.as_slice(), "set".as_bytes()) {
            match SetCmd::try_from(value) {
                Result::Ok(g) => Ok(Command::SetCmd(g)),
                Result::Err(e) => Err(e),
            }
        } else if bytes_eq(verb.as_slice(), "hget".as_bytes()) {
            match HGet::try_from(value) {
                Result::Ok(g) => Ok(Command::HGet(g)),
                Result::Err(e) => Err(e),
            }
        } else if bytes_eq(verb.as_slice(), "hset".as_bytes()) {
            match HSet::try_from(value) {
                Result::Ok(g) => Ok(Command::HSet(g)),
                Result::Err(e) => Err(e),
            }
        } else if bytes_eq(verb.as_slice(), "hgetall".as_bytes()) {
            match HGetAll::try_from(value) {
                Result::Ok(g) => Ok(Command::HGetAll(g)),
                Result::Err(e) => Err(e),
            }
        } else {
            Err(
                CommandError::InvalidCommand(
                    crate::trusted::string_from_bytes_lossy("an unknown verb".as_bytes()),
                ),
            )
        }
    }
}

} // verus!
