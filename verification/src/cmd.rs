//! Commands: parsing a decoded frame into a typed command, and executing
//! commands against the shared backend.
mod hmap;
mod map;

pub use hmap::flatten_entries;
pub use hmap::lemma_flatten_snoc;

use vstd::prelude::*;
use vstd::string::StrSliceExecFns;
use vstd::utf8::encode_utf8;
use vstd::utf8::valid_utf8;

use crate::backend::hash_entries;
use crate::backend::hash_lookup;
use crate::backend::Backend;
use crate::backend::BackendInner;
use crate::resp::clone_frame;
use crate::resp::entries_lookup;
use crate::resp::entries_sorted;
use crate::resp::frame_model;
use crate::resp::lemma_frames_model;
use crate::resp::lex_cmp;
use crate::resp::map_insert;
use crate::resp::FrameModel;
use crate::resp::RespError;
use crate::resp::RespFrame;
use crate::resp::RespNull;
use crate::resp::SimpleString;

verus! {

/// Relies on String::from_utf8: it succeeds exactly on input that is
/// valid UTF-8, and the returned string's UTF-8 form is the input bytes.
#[verifier::external_body]
fn bytes_to_string(v: Vec<u8>) -> (r: Option<String>)
    ensures
        match r {
            Some(s) => valid_utf8(v@) && encode_utf8(s@) == v@,
            None => !valid_utf8(v@),
        },
{
    match String::from_utf8(v) {
        Ok(s) => Some(s),
        Err(_) => None,
    }
}

/// Errors of command parsing and execution.
#[derive(Debug, PartialEq, Eq)]
pub enum CommandError {
    InvalidCommand(String),
    InvalidArgument(String),
    RespError(RespError),
    Utf8Error,
}

/// The kind of a command parse error, with diagnostic payloads stripped.
pub enum CmdKind {
    BadCmd,
    BadArg,
    BadUtf8,
}

pub open spec fn cmderr_is(e: CommandError, k: CmdKind) -> bool {
    match k {
        CmdKind::BadCmd => e is InvalidCommand,
        CmdKind::BadArg => e is InvalidArgument,
        CmdKind::BadUtf8 => e is Utf8Error,
    }
}

/// The mathematical value of a parsed command: keys and fields as their
/// UTF-8 bytes.
pub enum CommandModel {
    Get { key: Seq<u8> },
    SetCmd { key: Seq<u8>, value: FrameModel },
    HGet { key: Seq<u8>, field: Seq<u8> },
    HSet { key: Seq<u8>, field: Seq<u8>, value: FrameModel },
    HGetAll { key: Seq<u8> },
}

/// ASCII upper-case letters folded to lower case, other bytes kept.
pub open spec fn ascii_lower(s: Seq<u8>) -> Seq<u8> {
    Seq::new(s.len(), |i: int| if 65 <= s[i] <= 90 {
        (s[i] + 32) as u8
    } else {
        s[i]
    })
}

pub open spec fn name_get() -> Seq<u8> {
    seq![103u8, 101u8, 116u8]
}

pub open spec fn name_set() -> Seq<u8> {
    seq![115u8, 101u8, 116u8]
}

pub open spec fn name_hget() -> Seq<u8> {
    seq![104u8, 103u8, 101u8, 116u8]
}

pub open spec fn name_hset() -> Seq<u8> {
    seq![104u8, 115u8, 101u8, 116u8]
}

pub open spec fn name_hgetall() -> Seq<u8> {
    seq![104u8, 103u8, 101u8, 116u8, 97u8, 108u8, 108u8]
}

/// How a decoded frame is read as a command: an array whose first element
/// is a bulk string naming the command, case-insensitively, followed by
/// the arguments the command's arity demands; keys and fields must be
/// bulk strings holding valid UTF-8.
pub open spec fn parse_command(m: FrameModel) -> Result<CommandModel, CmdKind> {
    match m {
        FrameModel::Arr(es) => {
            if es.len() == 0 {
                Err(CmdKind::BadCmd)
            } else {
                match es[0] {
                    FrameModel::Bulk(nm) => {
                        let name = ascii_lower(nm);
                        if name == name_get() {
                            if es.len() != 2 {
                                Err(CmdKind::BadArg)
                            } else {
                                match es[1] {
                                    FrameModel::Bulk(kb) => if valid_utf8(kb) {
                                        Ok(CommandModel::Get { key: kb })
                                    } else {
                                        Err(CmdKind::BadUtf8)
                                    },
                                    _ => Err(CmdKind::BadArg),
                                }
                            }
                        } else if name == name_set() {
                            if es.len() != 3 {
                                Err(CmdKind::BadArg)
                            } else {
                                match es[1] {
                                    FrameModel::Bulk(kb) => if valid_utf8(kb) {
                                        Ok(CommandModel::SetCmd { key: kb, value: es[2] })
                                    } else {
                                        Err(CmdKind::BadUtf8)
                                    },
                                    _ => Err(CmdKind::BadArg),
                                }
                            }
                        } else if name == name_hget() {
                            if es.len() != 3 {
                                Err(CmdKind::BadArg)
                            } else {
                                match (es[1], es[2]) {
                                    (FrameModel::Bulk(kb), FrameModel::Bulk(fb)) => if valid_utf8(
                                        kb,
                                    ) && valid_utf8(fb) {
                                        Ok(CommandModel::HGet { key: kb, field: fb })
                                    } else {
                                        Err(CmdKind::BadUtf8)
                                    },
                                    _ => Err(CmdKind::BadArg),
                                }
                            }
                        } else if name == name_hset() {
                            if es.len() != 4 {
                                Err(CmdKind::BadArg)
                            } else {
                                match (es[1], es[2]) {
                                    (FrameModel::Bulk(kb), FrameModel::Bulk(fb)) => if valid_utf8(
                                        kb,
                                    ) && valid_utf8(fb) {
                                        Ok(CommandModel::HSet { key: kb, field: fb, value: es[3] })
                                    } else {
                                        Err(CmdKind::BadUtf8)
                                    },
                                    _ => Err(CmdKind::BadArg),
                                }
                            }
                        } else if name == name_hgetall() {
                            if es.len() != 2 {
                                Err(CmdKind::BadArg)
                            } else {
                                match es[1] {
                                    FrameModel::Bulk(kb) => if valid_utf8(kb) {
                                        Ok(CommandModel::HGetAll { key: kb })
                                    } else {
                                        Err(CmdKind::BadUtf8)
                                    },
                                    _ => Err(CmdKind::BadArg),
                                }
                            }
                        } else {
                            Err(CmdKind::BadCmd)
                        }
                    },
                    _ => Err(CmdKind::BadCmd),
                }
            }
        },
        _ => Err(CmdKind::BadCmd),
    }
}

#[derive(Debug)]
pub struct Get {
    pub key: String,
}

#[derive(Debug)]
pub struct SetCmd {
    pub key: String,
    pub value: RespFrame,
}

#[derive(Debug)]
pub struct HGet {
    pub key: String,
    pub field: String,
}

#[derive(Debug)]
pub struct HSet {
    pub key: String,
    pub field: String,
    pub value: RespFrame,
}

#[derive(Debug)]
pub struct HGetAll {
    pub key: String,
    pub sort: bool,
}

#[derive(Debug)]
pub struct Unrecognized;

#[derive(Debug)]
pub enum Command {
    Get(Get),
    SetCmd(SetCmd),
    HGet(HGet),
    HSet(HSet),
    HGetAll(HGetAll),
}

/// The model of a typed command: its keys and fields as UTF-8 bytes.
pub open spec fn cmd_model(c: Command) -> CommandModel {
    match c {
        Command::Get(g) => CommandModel::Get { key: encode_utf8(g.key@) },
        Command::SetCmd(s) => CommandModel::SetCmd {
            key: encode_utf8(s.key@),
            value: frame_model(s.value),
        },
        Command::HGet(g) => CommandModel::HGet {
            key: encode_utf8(g.key@),
            field: encode_utf8(g.field@),
        },
        Command::HSet(s) => CommandModel::HSet {
            key: encode_utf8(s.key@),
            field: encode_utf8(s.field@),
            value: frame_model(s.value),
        },
        Command::HGetAll(g) => CommandModel::HGetAll { key: encode_utf8(g.key@) },
    }
}

/// A command executes itself against the shared backend and produces the
/// response frame.
pub trait CommandExecutor {
    fn execute(self, backend: &Backend) -> RespFrame;
}

pub open spec fn ok_bytes() -> Seq<u8> {
    seq![79u8, 75u8]
}

/// The fixed `OK` reply.
pub fn resp_ok() -> (r: RespFrame)
    ensures
        frame_model(r) == FrameModel::Simple(ok_bytes()),
{
    let v: Vec<u8> = vec![79u8, 75u8];
    proof {
        assert(v@ =~= ok_bytes());
    }
    RespFrame::SimpleString(SimpleString(v))
}

/// ASCII lower-casing of a byte string.
fn lower_vec(v: &Vec<u8>) -> (r: Vec<u8>)
    ensures
        r@ == ascii_lower(v@),
{
    let mut out: Vec<u8> = Vec::new();
    let n = v.len();
    let mut i: usize = 0;
    while i < n
        invariant
            n == v@.len(),
            0 <= i <= n,
            out@.len() == i,
            forall|j: int| 0 <= j < i ==> out@[j] == ascii_lower(v@)[j],
        decreases n - i,
    {
        let b = v[i];
        if b >= 65 && b <= 90 {
            out.push(b + 32);
        } else {
            out.push(b);
        }
        i = i + 1;
    }
    proof {
        assert(out@ =~= ascii_lower(v@));
    }
    out
}

/// Byte-string equality.
fn bytes_eq(a: &[u8], b: &[u8]) -> (r: bool)
    ensures
        r == (a@ == b@),
{
    lex_cmp(a, b) == 0
}

impl Command {
    /// Reads a typed command out of a decoded frame, validating shape,
    /// name, arity, argument types and key encoding exactly as the
    /// command grammar demands.
    pub fn try_from(value: RespFrame) -> (r: Result<Command, CommandError>)
        ensures
            match r {
                Ok(c) => parse_command(frame_model(value)) == Ok::<CommandModel, CmdKind>(
                    cmd_model(c),
                ) && (c matches Command::HGetAll(g) ==> g.sort == false),
                Err(e) => {
                    &&& parse_command(frame_model(value)) is Err
                    &&& cmderr_is(e, parse_command(frame_model(value))->Err_0)
                },
            },
    {
        let arr = match value {
            RespFrame::Array(a) => a,
            _ => {
                return Err(
                    CommandError::InvalidCommand(String::from_str("command must be an array")),
                );
            },
        };
        let es = arr.0;
        proof {
            lemma_frames_model(es@);
        }
        if es.len() == 0 {
            return Err(
                CommandError::InvalidCommand(String::from_str("command array must not be empty")),
            );
        }
        let name: Vec<u8> = match &es[0] {
            RespFrame::BulkString(b) => lower_vec(&b.0),
            _ => {
                return Err(
                    CommandError::InvalidCommand(
                        String::from_str("command name must be a bulk string"),
                    ),
                );
            },
        };
        let lit_get: Vec<u8> = vec![103u8, 101u8, 116u8];
        let lit_set: Vec<u8> = vec![115u8, 101u8, 116u8];
        let lit_hget: Vec<u8> = vec![104u8, 103u8, 101u8, 116u8];
        let lit_hset: Vec<u8> = vec![104u8, 115u8, 101u8, 116u8];
        let lit_hgetall: Vec<u8> = vec![104u8, 103u8, 101u8, 116u8, 97u8, 108u8, 108u8];
        proof {
            assert(lit_get@ =~= name_get());
            assert(lit_set@ =~= name_set());
            assert(lit_hget@ =~= name_hget());
            assert(lit_hset@ =~= name_hset());
            assert(lit_hgetall@ =~= name_hgetall());
        }
        if bytes_eq(name.as_slice(), lit_get.as_slice()) {
            if es.len() != 2 {
                return Err(
                    CommandError::InvalidArgument(
                        String::from_str("get takes exactly one argument"),
                    ),
                );
            }
            let key = match key_string(&es, 1) {
                Ok(s) => s,
                Err(e) => {
                    return Err(e);
                },
            };
            Ok(Command::Get(Get { key }))
        } else if bytes_eq(name.as_slice(), lit_set.as_slice()) {
            if es.len() != 3 {
                return Err(
                    CommandError::InvalidArgument(
                        String::from_str("set takes exactly two arguments"),
                    ),
                );
            }
            let key = match key_string(&es, 1) {
                Ok(s) => s,
                Err(e) => {
                    return Err(e);
                },
            };
            let v = clone_frame(&es[2]);
            Ok(Command::SetCmd(SetCmd { key, value: v }))
        } else if bytes_eq(name.as_slice(), lit_hget.as_slice()) {
            if es.len() != 3 {
                return Err(
                    CommandError::InvalidArgument(
                        String::from_str("hget takes exactly two arguments"),
                    ),
                );
            }
            if !matches!(&es[2], RespFrame::BulkString(_)) {
                return Err(
                    CommandError::InvalidArgument(
                        String::from_str("hget arguments must be bulk strings"),
                    ),
                );
            }
            let key = match key_string(&es, 1) {
                Ok(s) => s,
                Err(e) => {
                    return Err(e);
                },
            };
            let field = match key_string(&es, 2) {
                Ok(s) => s,
                Err(e) => {
                    return Err(e);
                },
            };
            Ok(Command::HGet(HGet { key, field }))
        } else if bytes_eq(name.as_slice(), lit_hset.as_slice()) {
            if es.len() != 4 {
                return Err(
                    CommandError::InvalidArgument(
                        String::from_str("hset takes exactly three arguments"),
                    ),
                );
            }
            if !matches!(&es[2], RespFrame::BulkString(_)) {
                return Err(
                    CommandError::InvalidArgument(
                        String::from_str("hset arguments must be bulk strings"),
                    ),
                );
            }
            let key = match key_string(&es, 1) {
                Ok(s) => s,
                Err(e) => {
                    return Err(e);
                },
            };
            let field = match key_string(&es, 2) {
                Ok(s) => s,
                Err(e) => {
                    return Err(e);
                },
            };
            let v = clone_frame(&es[3]);
            Ok(Command::HSet(HSet { key, field, value: v }))
        } else if bytes_eq(name.as_slice(), lit_hgetall.as_slice()) {
            if es.len() != 2 {
                return Err(
                    CommandError::InvalidArgument(
                        String::from_str("hgetall takes exactly one argument"),
                    ),
                );
            }
            let key = match key_string(&es, 1) {
                Ok(s) => s,
                Err(e) => {
                    return Err(e);
                },
            };
            Ok(Command::HGetAll(HGetAll { key, sort: false }))
        } else {
            Err(CommandError::InvalidCommand(String::from_str("unknown command name")))
        }
    }

    /// Executes one command against the store: the sequential execution
    /// semantics of the command table.
    pub fn apply(self, store: &mut BackendInner) -> (r: RespFrame)
        requires
            old(store).wf(),
        ensures
            final(store).wf(),
            ({
                let kv0 = old(store).map@;
                let hkv0 = old(store).hmap@;
                match cmd_model(self) {
                    CommandModel::Get { key } => {
                        &&& final(store).map@ == kv0
                        &&& final(store).hmap@ == hkv0
                        &&& frame_model(r) == (match entries_lookup(kv0, key) {
                            Some(v) => v,
                            None => FrameModel::Null,
                        })
                    },
                    CommandModel::SetCmd { key, value } => {
                        &&& final(store).map@ == map_insert(kv0, key, value)
                        &&& final(store).hmap@ == hkv0
                        &&& frame_model(r) == FrameModel::Simple(ok_bytes())
                    },
                    CommandModel::HGet { key, field } => {
                        &&& final(store).map@ == kv0
                        &&& final(store).hmap@ == hkv0
                        &&& frame_model(r) == (match hash_lookup(hkv0, key, field) {
                            Some(v) => v,
                            None => FrameModel::Null,
                        })
                    },
                    CommandModel::HSet { key, field, value } => {
                        &&& final(store).map@ == kv0
                        &&& final(store).hmap@ == map_insert(
                            hkv0,
                            key,
                            FrameModel::Dict(map_insert(hash_entries(hkv0, key), field, value)),
                        )
                        &&& frame_model(r) == FrameModel::Simple(ok_bytes())
                    },
                    CommandModel::HGetAll { key } => {
                        &&& final(store).map@ == kv0
                        &&& final(store).hmap@ == hkv0
                        &&& frame_model(r) == FrameModel::Arr(
                            flatten_entries(hash_entries(hkv0, key)),
                        )
                    },
                }
            }),
    {
        match self {
            Command::Get(g) => match store.get(g.key.as_str().as_bytes()) {
                Some(v) => v,
                None => RespFrame::Null(RespNull),
            },
            Command::SetCmd(s) => {
                store.set(SimpleString(s.key.as_str().as_bytes_vec()), s.value);
                resp_ok()
            },
            Command::HGet(g) => match store.hget(
                g.key.as_str().as_bytes(),
                g.field.as_str().as_bytes(),
            ) {
                Some(v) => v,
                None => RespFrame::Null(RespNull),
            },
            Command::HSet(s) => {
                store.hset(
                    SimpleString(s.key.as_str().as_bytes_vec()),
                    SimpleString(s.field.as_str().as_bytes_vec()),
                    s.value,
                );
                resp_ok()
            },
            Command::HGetAll(g) => {
                let pairs = store.hgetall(g.key.as_str().as_bytes());
                hmap::entries_to_array(pairs)
            },
        }
    }
}

/// Reads the bulk-string argument at `i` as a UTF-8 key.
fn key_string(es: &Vec<RespFrame>, i: usize) -> (r: Result<String, CommandError>)
    requires
        i < es@.len(),
    ensures
        match r {
            Ok(s) => frame_model(es@[i as int]) matches FrameModel::Bulk(kb) && valid_utf8(kb)
                && encode_utf8(s@) == kb,
            Err(e) => match frame_model(es@[i as int]) {
                FrameModel::Bulk(kb) => !valid_utf8(kb) && e is Utf8Error,
                _ => e is InvalidArgument,
            },
        },
{
    match &es[i] {
        RespFrame::BulkString(b) => {
            let bytes = vstd::slice::slice_to_vec(b.0.as_slice());
            match bytes_to_string(bytes) {
                Some(s) => Ok(s),
                None => Err(CommandError::Utf8Error),
            }
        },
        _ => Err(
            CommandError::InvalidArgument(String::from_str("argument must be a bulk string")),
        ),
    }
}

impl CommandExecutor for Command {
    /// Executes the command atomically against the shared store. Whatever
    /// the store held, a SET or HSET replies with the fixed `OK`, and an
    /// HGETALL replies with a field-sorted flattened array.
    fn execute(self, backend: &Backend) -> (r: RespFrame)
        ensures
            cmd_model(self) is SetCmd ==> frame_model(r) == FrameModel::Simple(ok_bytes()),
            cmd_model(self) is HSet ==> frame_model(r) == FrameModel::Simple(ok_bytes()),
            cmd_model(self) is HGetAll ==> exists|es: Seq<(Seq<u8>, FrameModel)>|
                entries_sorted(es) && frame_model(r) == FrameModel::Arr(
                    #[trigger] flatten_entries(es),
                ),
    {
        let (mut inner, wh) = backend.0.acquire_write();
        proof {
            match cmd_model(self) {
                CommandModel::HGetAll { key } => {
                    crate::backend::lemma_hash_entries_sorted(inner, key);
                },
                _ => {},
            }
        }
        let ghost hkv0 = inner.hmap@;
        let r = self.apply(&mut inner);
        wh.release_write(inner);
        proof {
            match cmd_model(self) {
                CommandModel::HGetAll { key } => {
                    let es = hash_entries(hkv0, key);
                    assert(entries_sorted(es) && frame_model(r) == FrameModel::Arr(
                        flatten_entries(es),
                    ));
                },
                _ => {},
            }
        }
        r
    }
}

impl CommandExecutor for Unrecognized {
    /// Replies with the fixed `OK` and leaves the store alone.
    fn execute(self, _backend: &Backend) -> (r: RespFrame)
        ensures
            frame_model(r) == FrameModel::Simple(ok_bytes()),
    {
        resp_ok()
    }
}

/// Turns one decoded request frame into its response frame: parse the
/// command, execute it against the backend. A parse failure is fatal for
/// the connection and is handed back to the caller; a request that parses
/// is answered, and the parts of the reply the command table fixes
/// independently of the store are pinned here.
pub fn handle_request(frame: RespFrame, backend: &Backend) -> (r: Result<RespFrame, CommandError>)
    ensures
        r is Err <==> parse_command(frame_model(frame)) is Err,
        r matches Err(e) ==> cmderr_is(e, parse_command(frame_model(frame))->Err_0),
        parse_command(frame_model(frame)) matches Ok(CommandModel::SetCmd { .. }) ==> (r matches Ok(
            f,
        ) && frame_model(f) == FrameModel::Simple(ok_bytes())),
        parse_command(frame_model(frame)) matches Ok(CommandModel::HSet { .. }) ==> (r matches Ok(
            f,
        ) && frame_model(f) == FrameModel::Simple(ok_bytes())),
        parse_command(frame_model(frame)) matches Ok(CommandModel::HGetAll { .. }) ==> (r matches Ok(
            f,
        ) && exists|es: Seq<(Seq<u8>, FrameModel)>|
            entries_sorted(es) && frame_model(f) == FrameModel::Arr(
                #[trigger] flatten_entries(es),
            )),
{
    let cmd = match Command::try_from(frame) {
        Ok(c) => c,
        Err(e) => {
            return Err(e);
        },
    };
    Ok(cmd.execute(backend))
}

} // verus!
