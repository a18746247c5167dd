use vstd::prelude::*;
use vstd::std_specs::convert::FromSpecImpl;

use crate::error::DbError;

verus! {

/// A command as it is written to a log file.
pub enum KvsCommand {
    Put { key: String, value: String },
    Remove { key: String },
}

/// The mathematical content of a command: its key and, for a `Put`, its value.
pub enum CommandView {
    Put { key: Seq<char>, value: Seq<char> },
    Remove { key: Seq<char> },
}

impl CommandView {
    pub open spec fn key(self) -> Seq<char> {
        match self {
            CommandView::Put { key, .. } => key,
            CommandView::Remove { key } => key,
        }
    }
}

impl View for KvsCommand {
    type V = CommandView;

    open spec fn view(&self) -> CommandView {
        match self {
            KvsCommand::Put { key, value } => CommandView::Put { key: key@, value: value@ },
            KvsCommand::Remove { key } => CommandView::Remove { key: key@ },
        }
    }
}

impl KvsCommand {
    /// The command that sets `key` to `value`.
    pub fn set(key: String, value: String) -> (cmd: KvsCommand)
        ensures
            cmd@ == (CommandView::Put { key: key@, value: value@ }),
    {
        KvsCommand::Put { key, value }
    }

    /// The value a command read back for a lookup carries: that of a `Put`;
    /// a `Remove` found where a `Put` was expected is `UnexpectCommandErr`.
    pub fn into_value(self) -> (r: Result<Option<String>, DbError>)
        ensures
            match self@ {
                CommandView::Put { value, .. } => r matches Ok(Some(v)) && v@ == value,
                CommandView::Remove { .. } => r matches Err(DbError::UnexpectCommandErr),
            },
    {
        match self {
            KvsCommand::Put { value, .. } => Ok(Some(value)),
            KvsCommand::Remove { .. } => Err(DbError::UnexpectCommandErr),
        }
    }

    /// The command that removes `key`.
    pub fn remove(key: String) -> (cmd: KvsCommand)
        ensures
            cmd@ == (CommandView::Remove { key: key@ }),
    {
        KvsCommand::Remove { key }
    }
}

/// Where a command lies in the logs: its generation, the offset at which it
/// starts, and the `len` field, which holds the end offset of the range the
/// position was built from (see `From<(u64, Range<u64>)>`).
#[derive(Clone, Copy, PartialEq, Eq, Structural, Debug)]
pub struct CommandPos {
    pub gen: u64,
    pub pos: u64,
    pub len: u64,
}

impl CommandPos {
    /// The position built from a generation and a byte range.
    pub open spec fn of_range(gen: u64, start: u64, end: u64) -> CommandPos {
        CommandPos { gen, pos: start, len: end }
    }
}

impl From<(u64, std::ops::Range<u64>)> for CommandPos {
    fn from(v: (u64, std::ops::Range<u64>)) -> (r: Self) {
        let (gen, range) = v;
        CommandPos { gen, pos: range.start, len: range.end }
    }
}

impl FromSpecImpl<(u64, std::ops::Range<u64>)> for CommandPos {
    open spec fn obeys_from_spec() -> bool {
        true
    }

    open spec fn from_spec(v: (u64, std::ops::Range<u64>)) -> Self {
        CommandPos::of_range(v.0, v.1.start, v.1.end)
    }
}

/// A command read back from a log together with the offset just past it.
pub struct LogEntry {
    pub command: KvsCommand,
    pub end: u64,
}

/// The mathematical content of a log entry.
pub struct EntryView {
    pub command: CommandView,
    pub end: u64,
}

impl View for LogEntry {
    type V = EntryView;

    open spec fn view(&self) -> EntryView {
        EntryView { command: self.command@, end: self.end }
    }
}

} // verus!
