//! The commands of the text protocol.

use crate::value::{Value, ValueView};
use vstd::prelude::*;

verus! {

/// One request of a client.
#[derive(Debug, PartialEq)]
pub enum Command {
    Store { key: String, value: Value },
    Get { key: String },
    Delete { key: String },
    Stats {  },
}

/// What a `Command` holds.
pub enum CommandView {
    Store { key: Seq<char>, value: ValueView },
    Get { key: Seq<char> },
    Delete { key: Seq<char> },
    Stats,
}

impl View for Command {
    type V = CommandView;

    open spec fn view(&self) -> CommandView {
        match self {
            Command::Store { key, value } => CommandView::Store { key: key@, value: value@ },
            Command::Get { key } => CommandView::Get { key: key@ },
            Command::Delete { key } => CommandView::Delete { key: key@ },
            Command::Stats {  } => CommandView::Stats,
        }
    }
}

impl Command {
    /// The command that stores `value` under `key`.
    pub fn new_set(key: String, value: Value) -> (command: Self)
        ensures
            command == (Command::Store { key, value }),
    {
        Command::Store { key, value }
    }

    /// The command that asks for the value under `key`.
    pub fn new_get(key: String) -> (command: Self)
        ensures
            command == (Command::Get { key }),
    {
        Command::Get { key }
    }

    /// The command that deletes `key`.
    pub fn new_delete(key: String) -> (command: Self)
        ensures
            command == (Command::Delete { key }),
    {
        Command::Delete { key }
    }

    /// The command that asks for the statistics.
    pub fn new_stats() -> (command: Self)
        ensures
            command == (Command::Stats {  }),
    {
        Command::Stats {  }
    }
}

} // verus!
