//! The commands that the log records.
use vstd::prelude::*;

verus! {

/// A logged change: a key put to a value, or a key removed.
pub enum KvCommand {
    Put(String, String),
    Remove(String),
}

/// The mathematical form of a [`KvCommand`].
pub enum CommandView {
    Put(Seq<char>, Seq<char>),
    Remove(Seq<char>),
}

impl View for KvCommand {
    type V = CommandView;

    open spec fn view(&self) -> CommandView {
        match self {
            KvCommand::Put(k, v) => CommandView::Put(k@, v@),
            KvCommand::Remove(k) => CommandView::Remove(k@),
        }
    }
}

/// The key that a command sets, if it is a `Put`.
pub open spec fn set_key(c: CommandView) -> Option<Seq<char>> {
    match c {
        CommandView::Put(k, _) => Some(k),
        CommandView::Remove(_) => None,
    }
}

impl KvCommand {
    /// The key of a `Put` command; `None` for a `Remove`.
    pub fn set_key(&self) -> (key: Option<String>)
        ensures
            match key {
                Some(k) => set_key(self@) == Some(k@),
                None => set_key(self@) is None,
            },
    {
        match self {
            KvCommand::Put(k, _) => Some(k.clone()),
            KvCommand::Remove(_) => None,
        }
    }
}

} // verus!
