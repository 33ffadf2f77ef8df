//! The wire envelope a client sends: a request kind and its contents.

use vstd::prelude::*;

verus! {

/// The three request kinds the server answers.
#[derive(Debug, Clone, Copy, PartialEq, Eq, Structural)]
pub enum CommandType {
    Query,
    Tables,
    Columns,
}

/// One request envelope.
#[derive(Debug, PartialEq)]
pub struct Command {
    pub cmd: CommandType,
    pub contents: String,
}

impl Command {
    /// Wraps contents and a request kind into an envelope.
    pub fn create_command_from(contents: String, cmd: CommandType) -> (r: Command)
        ensures
            r.cmd == cmd,
            r.contents@ == contents@,
    {
        Command { cmd, contents }
    }
}

} // verus!
