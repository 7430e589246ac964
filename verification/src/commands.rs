//! The commands that a client sends over the wire.

use vstd::prelude::*;

verus! {

/// A command of the wire protocol.
#[derive(Debug, PartialEq)]
pub enum Command {
    /// Asks for the value of a key.
    Get(String),
    /// Gives a key a value.
    Put(String, String),
    /// Asks for an echo of the message, or for `PONG` where there is none.
    Ping(Option<String>),
}

/// A command as a mathematical value.
pub enum CommandModel {
    Get(Seq<char>),
    Put(Seq<char>, Seq<char>),
    Ping(Option<Seq<char>>),
}

impl View for Command {
    type V = CommandModel;

    open spec fn view(&self) -> CommandModel {
        match self {
            Command::Get(key) => CommandModel::Get(key@),
            Command::Put(key, value) => CommandModel::Put(key@, value@),
            Command::Ping(Some(message)) => CommandModel::Ping(Some(message@)),
            Command::Ping(None) => CommandModel::Ping(None),
        }
    }
}

} // verus!
