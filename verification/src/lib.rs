//! An in-memory key/value server speaking the RESP wire format.
//!
//! The library holds everything the server decides and computes: the frame
//! model, the streaming codec with its round-trip laws, the command
//! grammar, and the shared store with its lookup laws. The network glue
//! around it reads bytes into a buffer, hands complete frames in, and
//! writes the encoded responses back.
pub mod backend;
pub mod buf;
pub mod cmd;
pub mod resp;

pub use resp::BulkString;
pub use resp::Double;
pub use resp::RespArray;
pub use resp::RespDecode;
pub use resp::RespEncode;
pub use resp::RespError;
pub use resp::RespFrame;
pub use resp::RespMap;
pub use resp::RespNull;
pub use resp::RespNullArray;
pub use resp::RespNullBulkString;
pub use resp::RespSet;
pub use resp::SimpleError;
pub use resp::SimpleString;
pub use backend::Backend;
pub use backend::BackendInner;
pub use cmd::Command;
pub use cmd::CommandError;
pub use cmd::CommandExecutor;
pub use cmd::Get;
pub use cmd::HGet;
pub use cmd::HGetAll;
pub use cmd::HSet;
pub use cmd::SetCmd;
pub use cmd::Unrecognized;
pub use cmd::handle_request;
pub use resp::find_crlf;
