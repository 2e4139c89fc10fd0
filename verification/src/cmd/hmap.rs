//! The hash commands: HGET, HSET and HGETALL.
use vstd::prelude::*;

use crate::backend::Backend;
use crate::cmd::cmd_model;
use crate::cmd::parse_command;
use crate::cmd::resp_ok;
use crate::cmd::CmdKind;
use crate::cmd::Command;
use crate::cmd::CommandModel;
use crate::cmd::CommandError;
use crate::cmd::CommandExecutor;
use crate::cmd::HGet;
use crate::cmd::HGetAll;
use crate::cmd::HSet;
use crate::resp::entries_model;
use crate::resp::entries_sorted;
use crate::resp::frame_model;
use crate::resp::frames_model;
use crate::resp::lemma_frames_model_push;
use crate::resp::BulkString;
use crate::resp::FrameModel;
use crate::resp::RespArray;
use crate::resp::RespFrame;
use crate::resp::RespNull;
use crate::resp::SimpleString;
use vstd::string::StringExecFns;

verus! {

/// The flat array form of a hash snapshot: each pair becomes a bulk
/// string holding the field, then the value frame.
pub open spec fn flatten_entries(es: Seq<(Seq<u8>, FrameModel)>) -> Seq<FrameModel>
    decreases es.len(),
{
    if es.len() == 0 {
        Seq::empty()
    } else {
        seq![FrameModel::Bulk(es.first().0), es.first().1] + flatten_entries(es.drop_first())
    }
}

pub proof fn lemma_flatten_snoc(es: Seq<(Seq<u8>, FrameModel)>, x: (Seq<u8>, FrameModel))
    ensures
        flatten_entries(es.push(x)) == flatten_entries(es).push(FrameModel::Bulk(x.0)).push(x.1),
    decreases es.len(),
{
    if es.len() == 0 {
        assert(es.push(x).drop_first() =~= Seq::<(Seq<u8>, FrameModel)>::empty());
        assert(es.push(x).first() == x);
        assert(flatten_entries(es.push(x)) == seq![FrameModel::Bulk(x.0), x.1] + flatten_entries(
            Seq::<(Seq<u8>, FrameModel)>::empty(),
        ));
        assert(flatten_entries(Seq::<(Seq<u8>, FrameModel)>::empty()) == Seq::<FrameModel>::empty());
        assert(flatten_entries(es) == Seq::<FrameModel>::empty());
        assert(seq![FrameModel::Bulk(x.0), x.1] + Seq::<FrameModel>::empty()
            =~= Seq::<FrameModel>::empty().push(FrameModel::Bulk(x.0)).push(x.1));
    } else {
        assert(es.push(x).first() == es.first());
        assert(es.push(x).drop_first() =~= es.drop_first().push(x));
        lemma_flatten_snoc(es.drop_first(), x);
        assert(flatten_entries(es.push(x)) == seq![
            FrameModel::Bulk(es.first().0),
            es.first().1,
        ] + flatten_entries(es.drop_first().push(x)));
        assert(flatten_entries(es) == seq![FrameModel::Bulk(es.first().0), es.first().1]
            + flatten_entries(es.drop_first()));
        assert(seq![FrameModel::Bulk(es.first().0), es.first().1] + flatten_entries(
            es.drop_first(),
        ).push(FrameModel::Bulk(x.0)).push(x.1) =~= flatten_entries(es).push(
            FrameModel::Bulk(x.0),
        ).push(x.1));
    }
}

/// Builds the alternating field/value array frame out of a hash snapshot.
pub fn entries_to_array(pairs: Vec<(SimpleString, RespFrame)>) -> (r: RespFrame)
    ensures
        frame_model(r) == FrameModel::Arr(flatten_entries(entries_model(pairs@))),
{
    let ghost em = entries_model(pairs@);
    let mut out: Vec<RespFrame> = Vec::new();
    let n = pairs.len();
    let mut i: usize = 0;
    proof {
        crate::resp::lemma_entries_model(pairs@);
        assert(frames_model(out@) =~= flatten_entries(em.take(0)));
    }
    while i < n
        invariant
            n == pairs@.len(),
            0 <= i <= n,
            em == entries_model(pairs@),
            em.len() == n,
            forall|j: int|
                0 <= j < n ==> em[j] == ((#[trigger] pairs@[j]).0@, frame_model(pairs@[j].1)),
            frames_model(out@) == flatten_entries(em.take(i as int)),
        decreases n - i,
    {
        let k = pairs[i].0.clone();
        let v = pairs[i].1.clone();
        let ghost pre = out@;
        out.push(RespFrame::BulkString(BulkString(k.0)));
        let ghost mid = out@;
        out.push(v);
        proof {
            lemma_frames_model_push(pre, RespFrame::BulkString(BulkString(k.0)));
            lemma_frames_model_push(mid, v);
            assert(em.take(i + 1) =~= em.take(i as int).push(em[i as int]));
            lemma_flatten_snoc(em.take(i as int), em[i as int]);
        }
        i = i + 1;
    }
    proof {
        assert(em.take(n as int) =~= em);
    }
    RespFrame::Array(RespArray(out))
}

impl CommandExecutor for HGet {
    /// Reads the stored field value, or a null frame.
    fn execute(self, backend: &Backend) -> RespFrame {
        match backend.hget(self.key.as_str(), self.field.as_str()) {
            Some(v) => v,
            None => RespFrame::Null(RespNull),
        }
    }
}

impl CommandExecutor for HSet {
    /// Installs the field value and replies with the fixed `OK`.
    fn execute(self, backend: &Backend) -> (r: RespFrame)
        ensures
            frame_model(r) == FrameModel::Simple(crate::cmd::ok_bytes()),
    {
        backend.hset(self.key, self.field, self.value);
        resp_ok()
    }
}

impl CommandExecutor for HGetAll {
    /// Replies with the hash's pairs flattened into one array, sorted
    /// ascending by field.
    fn execute(self, backend: &Backend) -> (r: RespFrame)
        ensures
            exists|es: Seq<(Seq<u8>, FrameModel)>|
                entries_sorted(es) && frame_model(r) == FrameModel::Arr(
                    #[trigger] flatten_entries(es),
                ),
    {
        let pairs = backend.hgetall(self.key.as_str());
        let ghost em = entries_model(pairs@);
        let r = entries_to_array(pairs);
        proof {
            assert(entries_sorted(em) && frame_model(r) == FrameModel::Arr(flatten_entries(em)));
        }
        r
    }
}

impl HGet {
    /// Reads an HGET command out of a decoded array frame.
    pub fn try_from(value: RespArray) -> (r: Result<HGet, CommandError>)
        ensures
            match r {
                Ok(g) => parse_command(FrameModel::Arr(value@)) == Ok::<CommandModel, CmdKind>(
                    cmd_model(Command::HGet(g)),
                ),
                Err(e) => match parse_command(FrameModel::Arr(value@)) {
                    Ok(m) => !(m is HGet) && e is InvalidCommand,
                    Err(k) => crate::cmd::cmderr_is(e, k),
                },
            },
    {
        match Command::try_from(RespFrame::Array(value)) {
            Ok(Command::HGet(g)) => Ok(g),
            Ok(_) => Err(CommandError::InvalidCommand(String::from_str("expected hget"))),
            Err(e) => Err(e),
        }
    }
}

impl HSet {
    /// Reads an HSET command out of a decoded array frame.
    pub fn try_from(value: RespArray) -> (r: Result<HSet, CommandError>)
        ensures
            match r {
                Ok(s) => parse_command(FrameModel::Arr(value@)) == Ok::<CommandModel, CmdKind>(
                    cmd_model(Command::HSet(s)),
                ),
                Err(e) => match parse_command(FrameModel::Arr(value@)) {
                    Ok(m) => !(m is HSet) && e is InvalidCommand,
                    Err(k) => crate::cmd::cmderr_is(e, k),
                },
            },
    {
        match Command::try_from(RespFrame::Array(value)) {
            Ok(Command::HSet(s)) => Ok(s),
            Ok(_) => Err(CommandError::InvalidCommand(String::from_str("expected hset"))),
            Err(e) => Err(e),
        }
    }
}

impl HGetAll {
    /// Reads an HGETALL command out of a decoded array frame.
    pub fn try_from(value: RespArray) -> (r: Result<HGetAll, CommandError>)
        ensures
            match r {
                Ok(g) => parse_command(FrameModel::Arr(value@)) == Ok::<CommandModel, CmdKind>(
                    cmd_model(Command::HGetAll(g)),
                ) && g.sort == false,
                Err(e) => match parse_command(FrameModel::Arr(value@)) {
                    Ok(m) => !(m is HGetAll) && e is InvalidCommand,
                    Err(k) => crate::cmd::cmderr_is(e, k),
                },
            },
    {
        match Command::try_from(RespFrame::Array(value)) {
            Ok(Command::HGetAll(g)) => Ok(g),
            Ok(_) => Err(CommandError::InvalidCommand(String::from_str("expected hgetall"))),
            Err(e) => Err(e),
        }
    }
}

} // verus!
