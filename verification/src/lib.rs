//! A git credential helper, as a library: the lines that git and a helper
//! exchange, and the handling of one request.
//!
//! `parse` reads and writes attribute lines, `operation` answers a request
//! with the help of a source of credentials from `credential`, and `log`
//! holds the sink for messages. The library does no input or output: it is
//! handed the text that git wrote and hands back the text to write.

pub mod credential;
pub mod log;
pub mod operation;
pub mod parse;
pub mod text;

pub use credential::{Credential, EnvProvider, Provide, SourceError};
pub use log::{Log, NopLogger};
pub use operation::{DispatchError, Operation, Operator};
pub use parse::{GitCredentialAttribute, ProtocolError};
