//! Synthetic transcripts, replayed into terminals of one fixed size.
//!
//! Live topology discovery and snapshot reconstruction are not part of this.
use vstd::prelude::*;

use crate::control::{
    closed_state, fresh, on_bytes, replies_keep_order, resolved, Control, Error as ControlError,
    State,
};
use crate::order::{find_place, increasing, insert_keeps_order, place, place_facts, Keyed};
use crate::snapshot::output_of;
use crate::terminal::{feedable, kept_history, Input, Shape, Terminal};
use crate::tmux::{events_of, Event, Incoming, Notification, PaneId};
use crate::values::Size;

verus! {

pub const MAX_PANES: usize = 16;

#[derive(Clone, Copy, Debug, PartialEq, Eq, Structural)]
pub enum Error {
    Control(ControlError),
    /// More panes than a replay may have.
    TooManyPanes,
    /// A fixed-size replay does not follow layout changes.
    LayoutChange,
}

/// What an error is shown as.
pub open spec fn error_text(error: Error) -> Seq<char> {
    match error {
        Error::Control(inner) => crate::control::error_text(inner),
        Error::TooManyPanes => "replay exceeds the 16-pane safety budget"@,
        Error::LayoutChange => "fixed-size replay does not implement layout changes"@,
    }
}

impl Error {
    pub fn message(&self) -> (r: String)
        ensures
            r@ == error_text(*self),
    {
        match self {
            Error::Control(inner) => inner.message(),
            Error::TooManyPanes => "replay exceeds the 16-pane safety budget".to_owned(),
            Error::LayoutChange => "fixed-size replay does not implement layout changes".to_owned(),
        }
    }
}

pub struct ReplayPane {
    pub pane: PaneId,
    pub terminal: Terminal,
}

impl Keyed for ReplayPane {
    open spec fn key(self) -> int {
        self.pane.0 as int
    }

    fn get_key(&self) -> (r: u64) {
        self.pane.0 as u64
    }
}

pub struct Replay {
    control: Control,
    size: Size,
    panes: Vec<ReplayPane>,
}

/// The lines among the events.
pub open spec fn event_lines(events: Seq<Event>) -> Seq<Seq<u8>>
    decreases events.len(),
{
    if events.len() == 0 {
        seq![]
    } else {
        match events.last() {
            Event::Line(line) => event_lines(events.drop_last()).push(line),
            Event::Reply { .. } => event_lines(events.drop_last()),
        }
    }
}

pub open spec fn line_bytes(v: Seq<Vec<u8>>) -> Seq<Seq<u8>> {
    v.map_values(|line: Vec<u8>| line@)
}

/// The terminal that a pane starts with.
pub open spec fn blank_shape(size: Size) -> Shape {
    Shape {
        columns: size.spec_columns(),
        rows: size.spec_rows(),
        history: kept_history(size.spec_columns() as int, size.spec_rows() as int, 64) as nat,
    }
}

impl Replay {
    pub closed spec fn stream(self) -> State {
        self.control@
    }

    pub closed spec fn spec_size(self) -> Size {
        self.size
    }

    pub closed spec fn spec_panes(self) -> Seq<ReplayPane> {
        self.panes@
    }

    pub open spec fn wf(self) -> bool {
        &&& increasing(self.spec_panes())
        &&& self.stream().pending.len() == 0
        &&& forall|i: int|
            0 <= i < self.spec_panes().len() ==> (#[trigger] self.spec_panes()[i]).terminal.wf()
                && self.spec_panes()[i].terminal.spec_size() == self.spec_size()
    }

    pub fn new(size: Size) -> (r: Self)
        ensures
            r.wf(),
            r.spec_size() == size,
            r.spec_panes().len() == 0,
            r.stream() == fresh(r.stream().limits),
            r.stream().limits.line_bytes == 65536,
            r.stream().limits.reply_bytes == 1048576,
            r.stream().limits.reply_lines == 16384,
            r.stream().limits.pending_commands == 128,
    {
        Replay { control: Control::default(), size, panes: Vec::new() }
    }

    /// Frame one chunk of a transcript. The lines are still to be decoded; what
    /// they decode to is given to `apply`, in order.
    pub fn feed(&mut self, bytes: &[u8]) -> (r: Result<Vec<Vec<u8>>, Error>)
        requires
            old(self).wf(),
        ensures
            final(self).wf(),
            final(self).spec_size() == old(self).spec_size(),
            final(self).spec_panes() == old(self).spec_panes(),
            ({
                let s = old(self).stream();
                let (end, brought, failure) = if s.closed {
                    (s, seq![], Some(ControlError::Closed))
                } else {
                    on_bytes(s, bytes@)
                };
                &&& final(self).stream() == end
                &&& match failure {
                    Some(error) => r == Err::<Vec<Vec<u8>>, Error>(Error::Control(error)),
                    None => r matches Ok(lines) && line_bytes(lines@) == event_lines(brought),
                }
            }),
    {
        let mut events: Vec<Incoming> = Vec::new();
        let ghost s = self.stream();
        assert(events_of(events@) =~= Seq::<Event>::empty());
        let outcome = self.control.feed(bytes, &mut events);
        proof {
            if !s.closed {
                replies_keep_order(s, bytes@);
                let (end, brought, failure) = on_bytes(s, bytes@);
                assert(events_of(events@) =~= brought);
                assert(resolved(brought) + end.pending == s.pending);
                assert((resolved(brought) + end.pending).len() == 0);
            }
        }
        match outcome {
            Ok(()) => {},
            Err(error) => return Err(Error::Control(error)),
        }
        let ghost brought = events_of(events@);
        let mut lines: Vec<Vec<u8>> = Vec::new();
        let mut i: usize = 0;
        assert(line_bytes(lines@) =~= event_lines(brought.take(0)));
        while i < events.len()
            invariant
                i <= events@.len(),
                brought == events_of(events@),
                line_bytes(lines@) == event_lines(brought.take(i as int)),
            decreases events@.len() - i,
        {
            proof {
                assert(brought.take(i + 1).drop_last() =~= brought.take(i as int));
                assert(brought.take(i + 1).last() == events@[i as int]@);
            }
            if let Incoming::Line(line) = &events[i] {
                let mut copy: Vec<u8> = Vec::new();
                copy.extend_from_slice(line.as_slice());
                assert(copy@ =~= line@);
                let ghost before = lines@;
                lines.push(copy);
                assert(line_bytes(lines@) =~= line_bytes(before).push(line@));
            }
            i += 1;
        }
        assert(brought.take(i as int) =~= brought);
        Ok(lines)
    }

    /// The end of the transcript.
    pub fn finish(&mut self) -> (r: Result<(), Error>)
        requires
            old(self).wf(),
        ensures
            final(self).wf(),
            final(self).spec_size() == old(self).spec_size(),
            final(self).spec_panes() == old(self).spec_panes(),
            ({
                let s = old(self).stream();
                &&& final(self).stream() == if s.closed {
                    s
                } else {
                    closed_state(s)
                }
                &&& r == if !s.closed && (s.line.len() > 0 || s.block is Some) {
                    Err::<(), Error>(Error::Control(ControlError::TruncatedStream))
                } else {
                    Ok(())
                }
            }),
    {
        let mut events: Vec<Incoming> = Vec::new();
        match self.control.finish(&mut events) {
            Ok(()) => Ok(()),
            Err(error) => Err(Error::Control(error)),
        }
    }

    /// The panes, in the order of their numbers.
    pub fn panes(&self) -> (r: &Vec<ReplayPane>)
        ensures
            r@ == self.spec_panes(),
    {
        &self.panes
    }

    /// Take one decoded notification. A pane begins with its first output.
    pub fn apply(&mut self, notification: Notification) -> (r: Result<(), Error>)
        requires
            old(self).wf(),
            output_of(notification) matches Some((_, bytes)) ==> feedable(
                old(self).spec_size().spec_columns() as int,
                bytes,
            ),
        ensures
            final(self).wf(),
            final(self).spec_size() == old(self).spec_size(),
            final(self).stream() == old(self).stream(),
            ({
                let before = old(self).spec_panes();
                let now = final(self).spec_panes();
                match output_of(notification) {
                    None => {
                        &&& now == before
                        &&& r == if notification is LayoutChange {
                            Err::<(), Error>(Error::LayoutChange)
                        } else {
                            Ok(())
                        }
                    },
                    Some((pane, bytes)) => {
                        let k = place(before, pane.0 as int);
                        if k < before.len() && before[k].pane == pane {
                            &&& r is Ok
                            &&& now == before.update(k, now[k])
                            &&& now[k].pane == pane
                            &&& now[k].terminal.shape() == before[k].terminal.shape()
                            &&& now[k].terminal.inputs() == before[k].terminal.inputs().push(
                                Input::Bytes(bytes),
                            )
                        } else if before.len() >= MAX_PANES {
                            now == before && r == Err::<(), Error>(Error::TooManyPanes)
                        } else {
                            &&& r is Ok
                            &&& now.len() == before.len() + 1
                            &&& now == before.insert(k, now[k])
                            &&& now[k].pane == pane
                            &&& now[k].terminal.shape() == blank_shape(old(self).spec_size())
                            &&& now[k].terminal.inputs() == seq![Input::Bytes(bytes)]
                        }
                    },
                }
            }),
    {
        match notification {
            Notification::Output { pane, bytes } => self.write(pane, bytes.as_slice()),
            Notification::ExtendedOutput { pane, bytes } => self.write(pane, bytes.as_slice()),
            Notification::LayoutChange(_) => Err(Error::LayoutChange),
            _ => Ok(()),
        }
    }

    fn write(&mut self, pane: PaneId, bytes: &[u8]) -> (r: Result<(), Error>)
        requires
            old(self).wf(),
            feedable(old(self).spec_size().spec_columns() as int, bytes@),
        ensures
            final(self).wf(),
            final(self).spec_size() == old(self).spec_size(),
            final(self).stream() == old(self).stream(),
            ({
                let before = old(self).spec_panes();
                let now = final(self).spec_panes();
                let k = place(before, pane.0 as int);
                if k < before.len() && before[k].pane == pane {
                    &&& r is Ok
                    &&& now == before.update(k, now[k])
                    &&& now[k].pane == pane
                    &&& now[k].terminal.shape() == before[k].terminal.shape()
                    &&& now[k].terminal.inputs() == before[k].terminal.inputs().push(
                        Input::Bytes(bytes@),
                    )
                } else if before.len() >= MAX_PANES {
                    now == before && r == Err::<(), Error>(Error::TooManyPanes)
                } else {
                    &&& r is Ok
                    &&& now.len() == before.len() + 1
                    &&& now == before.insert(k, now[k])
                    &&& now[k].pane == pane
                    &&& now[k].terminal.shape() == blank_shape(old(self).spec_size())
                    &&& now[k].terminal.inputs() == seq![Input::Bytes(bytes@)]
                }
            }),
    {
        let ghost before = self.panes@;
        let k = find_place(&self.panes, pane.0 as u64);
        proof {
            place_facts(before, pane.0 as int);
        }
        if k < self.panes.len() && self.panes[k].pane == pane {
            assert(before[k as int].terminal.wf());
            self.panes[k].terminal.feed(bytes);
            proof {
                let now = self.panes@;
                assert(now =~= before.update(k as int, now[k as int]));
                assert forall|i: int, j: int| 0 <= i < j < now.len() implies (
                #[trigger] now[i]).key() < (#[trigger] now[j]).key() by {
                    assert(now[i].pane == before[i].pane && now[j].pane == before[j].pane);
                    assert(before[i].key() < before[j].key());
                }
                assert forall|i: int| 0 <= i < now.len() implies (
                #[trigger] now[i]).terminal.wf() && now[i].terminal.spec_size() == self.size by {
                    if i != k {
                        assert(now[i] == before[i]);
                    }
                }
            }
            return Ok(());
        }
        if self.panes.len() >= MAX_PANES {
            return Err(Error::TooManyPanes);
        }
        let mut terminal = Terminal::new(self.size, 64);
        terminal.feed(bytes);
        assert(terminal.inputs() =~= seq![Input::Bytes(bytes@)]);
        let entry = ReplayPane { pane, terminal };
        proof {
            assert forall|i: int| 0 <= i < before.len() implies (#[trigger] before[i]).key()
                != entry.key() by {
                if i > k {
                    assert(before[k as int].key() < before[i].key());
                }
            }
            insert_keeps_order(before, entry);
        }
        self.panes.insert(k, entry);
        proof {
            let now = self.panes@;
            assert(now =~= before.insert(k as int, now[k as int]));
            assert forall|i: int| 0 <= i < now.len() implies (#[trigger] now[i]).terminal.wf()
                && now[i].terminal.spec_size() == self.size by {
                if i < k {
                    assert(now[i] == before[i]);
                } else if i > k {
                    assert(now[i] == before[i - 1]);
                }
            }
        }
        Ok(())
    }
}

} // verus!
