//! The commands that the log records.

use vstd::prelude::*;

verus! {

/// What a `Command` is, over sequences of characters.
pub enum CommandView {
    Put { key: Seq<char>, value: Seq<char> },
    Del { key: Seq<char> },
}

impl CommandView {
    /// The key that the command is about.
    pub open spec fn key(self) -> Seq<char> {
        match self {
            CommandView::Put { key, .. } => key,
            CommandView::Del { key } => key,
        }
    }
}

/// One record of the log: a key is given a value, or a key is deleted.
#[derive(Debug)]
pub enum Command {
    /// The key is given the value.
    Put {
        /// The key that is set.
        key: String,
        /// The value that it gets.
        value: String,
    },
    /// The key is deleted.
    Del {
        /// The key that is deleted.
        key: String,
    },
}

impl View for Command {
    type V = CommandView;

    open spec fn view(&self) -> CommandView {
        match self {
            Command::Put { key, value } => CommandView::Put { key: key@, value: value@ },
            Command::Del { key } => CommandView::Del { key: key@ },
        }
    }
}

impl Clone for Command {
    fn clone(&self) -> (cmd: Self)
        ensures
            cmd@ == self@,
    {
        match self {
            Command::Put { key, value } => Command::Put { key: key.clone(), value: value.clone() },
            Command::Del { key } => Command::Del { key: key.clone() },
        }
    }
}

impl Command {
    /// A command that gives `key` the value `value`.
    pub fn set(key: String, value: String) -> (cmd: Self)
        ensures
            cmd@ == (CommandView::Put { key: key@, value: value@ }),
    {
        Command::Put { key, value }
    }

    /// A command that deletes `key`.
    pub fn del(key: String) -> (cmd: Self)
        ensures
            cmd@ == (CommandView::Del { key: key@ }),
    {
        Command::Del { key }
    }

    /// The key that the command is about.
    pub fn get_key(&self) -> (key: &String)
        ensures
            key@ == self@.key(),
    {
        match self {
            Command::Put { key, .. } => key,
            Command::Del { key } => key,
        }
    }
}

} // verus!
