//! What the logic reads of tmux's control mode: identifiers, decoded
//! notifications and the outcome of commands.
use vstd::prelude::*;

use crate::text::texts;

verus! {

/// A pane, `%<n>` on the wire.
#[derive(Clone, Copy, Debug, PartialEq, Eq, PartialOrd, Ord, Hash, Structural)]
pub struct PaneId(pub u32);

/// A window, `@<n>` on the wire.
#[derive(Clone, Copy, Debug, PartialEq, Eq, PartialOrd, Ord, Hash, Structural)]
pub struct WindowId(pub u32);

/// A session, `$<n>` on the wire.
#[derive(Clone, Copy, Debug, PartialEq, Eq, PartialOrd, Ord, Hash, Structural)]
pub struct SessionId(pub u32);

/// Ties a command that was sent to its reply.
#[derive(Clone, Copy, Debug, PartialEq, Eq, PartialOrd, Ord, Hash, Structural)]
pub struct CommandId(pub u64);

/// A decoded `%` line that stands outside of every reply.
#[derive(Debug, PartialEq, Eq)]
pub enum Notification {
    Output { pane: PaneId, bytes: Vec<u8> },
    ExtendedOutput { pane: PaneId, bytes: Vec<u8> },
    LayoutChange(WindowId),
    WindowAdd(WindowId),
    WindowClose(WindowId),
    SessionChanged(SessionId),
    Pause(PaneId),
    Continue(PaneId),
    Exit(Option<String>),
    Unknown(String),
    /// Any notification that changes neither pane contents nor topology.
    Other,
}

/// Why a command gave no output.
#[derive(Debug, PartialEq, Eq)]
pub enum CommandError {
    /// tmux answered with an error and these lines.
    Failed { lines: Vec<String> },
    /// The stream ended before the answer.
    Disconnected,
}

/// One thing that the control stream brought.
#[derive(Debug, PartialEq, Eq)]
pub enum Incoming {
    /// A line outside of every reply, for the notification decoder.
    Line(Vec<u8>),
    /// The answer to a registered command.
    Reply { id: CommandId, result: Result<Vec<String>, CommandError> },
}

/// The answer to a command, as text.
pub enum Answer {
    Done(Seq<Seq<char>>),
    Failed(Seq<Seq<char>>),
    Disconnected,
}

/// The contents of one incoming value.
pub enum Event {
    Line(Seq<u8>),
    Reply { id: CommandId, answer: Answer },
}

pub open spec fn answer_of(result: Result<Vec<String>, CommandError>) -> Answer {
    match result {
        Ok(lines) => Answer::Done(texts(lines@)),
        Err(CommandError::Failed { lines }) => Answer::Failed(texts(lines@)),
        Err(CommandError::Disconnected) => Answer::Disconnected,
    }
}

impl View for Incoming {
    type V = Event;

    open spec fn view(&self) -> Event {
        match *self {
            Incoming::Line(line) => Event::Line(line@),
            Incoming::Reply { id, result } => Event::Reply { id, answer: answer_of(result) },
        }
    }
}

pub open spec fn events_of(v: Seq<Incoming>) -> Seq<Event> {
    v.map_values(|i: Incoming| i@)
}

} // verus!
