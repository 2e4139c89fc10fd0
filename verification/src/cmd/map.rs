//! The plain key/value commands: GET and SET.
use vstd::prelude::*;

use crate::backend::Backend;
use crate::cmd::cmd_model;
use crate::cmd::parse_command;
use crate::cmd::resp_ok;
use crate::cmd::CmdKind;
use crate::cmd::Command;
use crate::cmd::CommandModel;
use crate::cmd::CommandError;
use crate::cmd::CommandExecutor;
use crate::cmd::Get;
use crate::cmd::SetCmd;
use crate::resp::frame_model;
use crate::resp::FrameModel;
use crate::resp::RespArray;
use crate::resp::RespFrame;
use crate::resp::RespNull;
use vstd::string::StringExecFns;

verus! {

impl CommandExecutor for Get {
    /// Reads the stored value for the key, or a null frame.
    fn execute(self, backend: &Backend) -> RespFrame {
        match backend.get(self.key.as_str()) {
            Some(v) => v,
            None => RespFrame::Null(RespNull),
        }
    }
}

impl CommandExecutor for SetCmd {
    /// Installs the value and replies with the fixed `OK`.
    fn execute(self, backend: &Backend) -> (r: RespFrame)
        ensures
            frame_model(r) == FrameModel::Simple(crate::cmd::ok_bytes()),
    {
        backend.set(self.key, self.value);
        resp_ok()
    }
}

impl Get {
    /// Reads a GET command out of a decoded array frame.
    pub fn try_from(value: RespArray) -> (r: Result<Get, CommandError>)
        ensures
            match r {
                Ok(g) => parse_command(FrameModel::Arr(value@)) == Ok::<CommandModel, CmdKind>(
                    cmd_model(Command::Get(g)),
                ),
                Err(e) => match parse_command(FrameModel::Arr(value@)) {
                    Ok(m) => !(m is Get) && e is InvalidCommand,
                    Err(k) => crate::cmd::cmderr_is(e, k),
                },
            },
    {
        match Command::try_from(RespFrame::Array(value)) {
            Ok(Command::Get(g)) => Ok(g),
            Ok(_) => Err(CommandError::InvalidCommand(String::from_str("expected get"))),
            Err(e) => Err(e),
        }
    }
}

impl SetCmd {
    /// Reads a SET command out of a decoded array frame.
    pub fn try_from(value: RespArray) -> (r: Result<SetCmd, CommandError>)
        ensures
            match r {
                Ok(s) => parse_command(FrameModel::Arr(value@)) == Ok::<CommandModel, CmdKind>(
                    cmd_model(Command::SetCmd(s)),
                ),
                Err(e) => match parse_command(FrameModel::Arr(value@)) {
                    Ok(m) => !(m is SetCmd) && e is InvalidCommand,
                    Err(k) => crate::cmd::cmderr_is(e, k),
                },
            },
    {
        match Command::try_from(RespFrame::Array(value)) {
            Ok(Command::SetCmd(s)) => Ok(s),
            Ok(_) => Err(CommandError::InvalidCommand(String::from_str("expected set"))),
            Err(e) => Err(e),
        }
    }
}

} // verus!
