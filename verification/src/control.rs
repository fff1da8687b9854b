//! Bounded framing and lifecycle of a tmux control stream.
//!
//! Bytes come in any chunks. Complete lines leave as notifications still to be
//! decoded, or are collected into the reply of the oldest registered command.
//! Every buffer has a limit, and a stream that breaks the rules is closed for
//! good: all outstanding commands then resolve as disconnected.
use std::collections::VecDeque;

use vstd::prelude::*;
use vstd::string::*;
use vstd::utf8::*;

use crate::text::{is_text, number, parse_number, pieces, rows, split_on, texts};
use crate::tmux::{events_of, Answer, CommandError, CommandId, Event, Incoming};

verus! {

#[derive(Clone, Copy, Debug)]
pub struct Limits {
    pub line_bytes: usize,
    pub reply_bytes: usize,
    pub reply_lines: usize,
    pub pending_commands: usize,
}

impl Default for Limits {
    fn default() -> (r: Self)
        ensures
            r.line_bytes == 65536,
            r.reply_bytes == 1048576,
            r.reply_lines == 16384,
            r.pending_commands == 128,
    {
        Limits { line_bytes: 65536, reply_bytes: 1048576, reply_lines: 16384, pending_commands: 128 }
    }
}

#[derive(Clone, Copy, Debug, PartialEq, Eq, Structural)]
pub enum Error {
    InvalidLimits,
    Closed,
    LineTooLong,
    ReplyTooLarge,
    TooManyReplyLines,
    TooManyPendingCommands,
    MalformedGuard,
    UnexpectedGuard,
    MismatchedGuard,
    NestedReply,
    OutOfOrderReply,
    LayoutTooDeep,
    TruncatedStream,
}

/// What an error is shown as.
pub open spec fn error_text(error: Error) -> Seq<char> {
    match error {
        Error::InvalidLimits => "tmux control stream: InvalidLimits"@,
        Error::Closed => "tmux control stream: Closed"@,
        Error::LineTooLong => "tmux control stream: LineTooLong"@,
        Error::ReplyTooLarge => "tmux control stream: ReplyTooLarge"@,
        Error::TooManyReplyLines => "tmux control stream: TooManyReplyLines"@,
        Error::TooManyPendingCommands => "tmux control stream: TooManyPendingCommands"@,
        Error::MalformedGuard => "tmux control stream: MalformedGuard"@,
        Error::UnexpectedGuard => "tmux control stream: UnexpectedGuard"@,
        Error::MismatchedGuard => "tmux control stream: MismatchedGuard"@,
        Error::NestedReply => "tmux control stream: NestedReply"@,
        Error::OutOfOrderReply => "tmux control stream: OutOfOrderReply"@,
        Error::LayoutTooDeep => "tmux control stream: LayoutTooDeep"@,
        Error::TruncatedStream => "tmux control stream: TruncatedStream"@,
    }
}

impl Error {
    pub fn message(&self) -> (r: String)
        ensures
            r@ == error_text(*self),
    {
        match self {
            Error::InvalidLimits => "tmux control stream: InvalidLimits".to_owned(),
            Error::Closed => "tmux control stream: Closed".to_owned(),
            Error::LineTooLong => "tmux control stream: LineTooLong".to_owned(),
            Error::ReplyTooLarge => "tmux control stream: ReplyTooLarge".to_owned(),
            Error::TooManyReplyLines => "tmux control stream: TooManyReplyLines".to_owned(),
            Error::TooManyPendingCommands => "tmux control stream: TooManyPendingCommands".to_owned(),
            Error::MalformedGuard => "tmux control stream: MalformedGuard".to_owned(),
            Error::UnexpectedGuard => "tmux control stream: UnexpectedGuard".to_owned(),
            Error::MismatchedGuard => "tmux control stream: MismatchedGuard".to_owned(),
            Error::NestedReply => "tmux control stream: NestedReply".to_owned(),
            Error::OutOfOrderReply => "tmux control stream: OutOfOrderReply".to_owned(),
            Error::LayoutTooDeep => "tmux control stream: LayoutTooDeep".to_owned(),
            Error::TruncatedStream => "tmux control stream: TruncatedStream".to_owned(),
        }
    }
}

#[derive(Clone, Copy, Debug, PartialEq, Eq, Structural)]
pub struct Guard {
    pub timestamp: u64,
    pub number: u64,
    pub flags: u32,
}

#[derive(Clone, Copy, Debug, PartialEq, Eq, Structural)]
pub enum GuardKind {
    Begin,
    End,
    Error,
}

/// What a line is, seen as a guard.
pub enum GuardLine {
    Text,
    Malformed,
    Guard(GuardKind, Guard),
}

/// `String::from_utf8_lossy` of the bytes.
pub uninterp spec fn lossy_text(bytes: Seq<u8>) -> Seq<char>;

/// `String::from_utf8_lossy`: valid UTF-8 is decoded unchanged. What stands in
/// for invalid bytes is named, not stated.
#[verifier::external_body]
fn lossy(bytes: &[u8]) -> (r: String)
    ensures
        r@ == lossy_text(bytes@),
        valid_utf8(bytes@) ==> r@ == decode_utf8(bytes@),
{
    String::from_utf8_lossy(bytes).into_owned()
}

/// Each byte as the character of the same number.
pub open spec fn latin(bytes: Seq<u8>) -> Seq<char> {
    bytes.map_values(|b: u8| b as char)
}

fn latin_chars(bytes: &[u8]) -> (r: Vec<char>)
    ensures
        r@ == latin(bytes@),
{
    let mut out: Vec<char> = Vec::new();
    let mut i: usize = 0;
    while i < bytes.len()
        invariant
            i <= bytes@.len(),
            out@ == latin(bytes@.take(i as int)),
        decreases bytes@.len() - i,
    {
        out.push(bytes[i] as char);
        i += 1;
        assert(bytes@.take(i as int) =~= bytes@.take(i - 1).push(bytes@[i - 1]));
        assert(latin(bytes@.take(i as int)) =~= latin(bytes@.take(i - 1)).push(
            bytes@[i - 1] as char,
        ));
    }
    assert(bytes@.take(i as int) =~= bytes@);
    out
}

pub open spec fn guard_kind(word: Seq<char>) -> Option<GuardKind> {
    if word == "%begin"@ {
        Some(GuardKind::Begin)
    } else if word == "%end"@ {
        Some(GuardKind::End)
    } else if word == "%error"@ {
        Some(GuardKind::Error)
    } else {
        None
    }
}

/// A guard is its word, a timestamp, a command number and flags, each after
/// exactly one space.
pub open spec fn guard_of(line: Seq<u8>) -> GuardLine {
    let fields = pieces(latin(line), ' ');
    match guard_kind(fields[0]) {
        None => GuardLine::Text,
        Some(kind) => if fields.len() == 4 && number(fields[1], u64::MAX as nat) is Some && number(
            fields[2],
            u64::MAX as nat,
        ) is Some && number(fields[3], u32::MAX as nat) is Some {
            GuardLine::Guard(
                kind,
                Guard {
                    timestamp: number(fields[1], u64::MAX as nat).unwrap() as u64,
                    number: number(fields[2], u64::MAX as nat).unwrap() as u64,
                    flags: number(fields[3], u32::MAX as nat).unwrap() as u32,
                },
            )
        } else {
            GuardLine::Malformed
        },
    }
}

/// Recognize a guard line. A line that starts like a guard and is none is an
/// error.
pub fn parse_guard(line: &[u8]) -> (r: Result<Option<(GuardKind, Guard)>, Error>)
    ensures
        r == match guard_of(line@) {
            GuardLine::Text => Ok(None),
            GuardLine::Malformed => Err(Error::MalformedGuard),
            GuardLine::Guard(kind, guard) => Ok(Some((kind, guard))),
        },
{
    let chars = latin_chars(line);
    let fields = split_on(chars.as_slice(), ' ');
    assert(rows(fields@)[0] == fields@[0]@);
    let kind = if is_text(fields[0].as_slice(), "%begin") {
        GuardKind::Begin
    } else if is_text(fields[0].as_slice(), "%end") {
        GuardKind::End
    } else if is_text(fields[0].as_slice(), "%error") {
        GuardKind::Error
    } else {
        return Ok(None);
    };
    if fields.len() != 4 {
        return Err(Error::MalformedGuard);
    }
    assert(rows(fields@)[1] == fields@[1]@);
    assert(rows(fields@)[2] == fields@[2]@);
    assert(rows(fields@)[3] == fields@[3]@);
    let timestamp = match parse_number(fields[1].as_slice(), u64::MAX) {
        Ok(n) => n,
        Err(_) => return Err(Error::MalformedGuard),
    };
    let number = match parse_number(fields[2].as_slice(), u64::MAX) {
        Ok(n) => n,
        Err(_) => return Err(Error::MalformedGuard),
    };
    let flags = match parse_number(fields[3].as_slice(), u32::MAX as u64) {
        Ok(n) => n as u32,
        Err(_) => return Err(Error::MalformedGuard),
    };
    Ok(Some((kind, Guard { timestamp, number, flags })))
}

/// The brackets that are open behind the bytes; a stray closing bracket counts
/// for nothing.
pub open spec fn open_brackets(bytes: Seq<u8>) -> nat
    decreases bytes.len(),
{
    if bytes.len() == 0 {
        0
    } else {
        let before = open_brackets(bytes.drop_last());
        let b = bytes.last();
        if b == 0x7b || b == 0x5b {
            before + 1
        } else if (b == 0x7d || b == 0x5d) && before > 0 {
            (before - 1) as nat
        } else {
            before
        }
    }
}

/// A layout change whose brackets nest more than 64 deep.
pub open spec fn layout_too_deep(line: Seq<u8>) -> bool {
    &&& "%layout-change "@.is_prefix_of(latin(line))
    &&& exists|n: int| 0 <= n <= line.len() && open_brackets(#[trigger] line.take(n)) > 64
}

pub fn check_layout_depth(line: &[u8]) -> (r: Result<(), Error>)
    ensures
        r == if layout_too_deep(line@) {
            Err::<(), Error>(Error::LayoutTooDeep)
        } else {
            Ok(())
        },
{
    let chars = latin_chars(line);
    if !crate::text::starts_with(chars.as_slice(), "%layout-change ") {
        return Ok(());
    }
    let mut depth: usize = 0;
    let mut i: usize = 0;
    while i < line.len()
        invariant
            i <= line@.len(),
            depth == open_brackets(line@.take(i as int)),
            depth <= 64,
            forall|n: int| 0 <= n <= i ==> open_brackets(#[trigger] line@.take(n)) <= 64,
            "%layout-change "@.is_prefix_of(latin(line@)),
        decreases line@.len() - i,
    {
        let byte = line[i];
        assert(line@.take(i + 1).drop_last() =~= line@.take(i as int));
        if byte == 0x7b || byte == 0x5b {
            depth += 1;
            if depth > 64 {
                assert(open_brackets(line@.take(i + 1)) > 64);
                return Err(Error::LayoutTooDeep);
            }
        } else if (byte == 0x7d || byte == 0x5d) && depth > 0 {
            depth -= 1;
        }
        i += 1;
    }
    Ok(())
}

/// `%exit`, alone or with a reason.
pub open spec fn exit_line(line: Seq<u8>) -> bool {
    pieces(latin(line), ' ')[0] == "%exit"@
}

pub fn is_exit(line: &[u8]) -> (r: bool)
    ensures
        r == exit_line(line@),
{
    let chars = latin_chars(line);
    let fields = split_on(chars.as_slice(), ' ');
    assert(rows(fields@)[0] == fields@[0]@);
    is_text(fields[0].as_slice(), "%exit")
}

/// A reply that has begun and not ended.
pub struct Block {
    pub guard: Guard,
    pub bytes: nat,
    pub lines: Seq<Seq<u8>>,
}

/// The state of a control stream.
pub struct State {
    pub limits: Limits,
    pub line: Seq<u8>,
    pub block: Option<Block>,
    pub last: Option<u64>,
    pub pending: Seq<CommandId>,
    pub issued: nat,
    pub closed: bool,
}

pub open spec fn lossy_lines(lines: Seq<Seq<u8>>) -> Seq<Seq<char>> {
    lines.map_values(|l: Seq<u8>| lossy_text(l))
}

/// The effect of one complete line on an open stream.
pub open spec fn on_line(s: State, line: Seq<u8>) -> Result<(State, Option<Event>), Error> {
    match (guard_of(line), s.block) {
        (GuardLine::Malformed, _) => Err(Error::MalformedGuard),
        (GuardLine::Guard(GuardKind::Begin, _), Some(_)) => Err(Error::NestedReply),
        (GuardLine::Guard(kind, guard), Some(block)) => if guard != block.guard {
            Err(Error::MismatchedGuard)
        } else {
            let ended = State {
                block: None,
                last: if guard.flags != 0 {
                    Some(guard.number)
                } else {
                    s.last
                },
                ..s
            };
            if guard.flags == 0 || s.pending.len() == 0 {
                Ok((ended, None))
            } else {
                let answer = if kind == GuardKind::End {
                    Answer::Done(lossy_lines(block.lines))
                } else {
                    Answer::Failed(lossy_lines(block.lines))
                };
                Ok(
                    (
                        State { pending: s.pending.drop_first(), ..ended },
                        Some(Event::Reply { id: s.pending[0], answer }),
                    ),
                )
            }
        },
        (GuardLine::Guard(GuardKind::Begin, guard), None) => if guard.flags != 0 && s.last is Some
            && guard.number <= s.last.unwrap() {
            Err(Error::OutOfOrderReply)
        } else {
            Ok((State { block: Some(Block { guard, bytes: 0, lines: seq![] }), ..s }, None))
        },
        (GuardLine::Guard(_, _), None) => Err(Error::UnexpectedGuard),
        (GuardLine::Text, Some(block)) => {
            let bytes = block.bytes + line.len() + 1;
            let lines = block.lines.push(line);
            if bytes > s.limits.reply_bytes {
                Err(Error::ReplyTooLarge)
            } else if lines.len() > s.limits.reply_lines {
                Err(Error::TooManyReplyLines)
            } else {
                Ok((State { block: Some(Block { guard: block.guard, bytes, lines }), ..s }, None))
            }
        },
        (GuardLine::Text, None) => if layout_too_deep(line) {
            Err(Error::LayoutTooDeep)
        } else if line.len() == 0 {
            Ok((s, None))
        } else {
            Ok((s, Some(Event::Line(line))))
        },
    }
}

/// The stream closed for good.
pub open spec fn closed_state(s: State) -> State {
    State { line: seq![], block: None, pending: seq![], closed: true, ..s }
}

/// What closing tells the owners of outstanding commands.
pub open spec fn disconnected(pending: Seq<CommandId>) -> Seq<Event> {
    pending.map_values(|id: CommandId| Event::Reply { id, answer: Answer::Disconnected })
}

/// The effect of one byte: the state behind it, what it brought, and the error
/// that ended the stream.
pub open spec fn on_byte(s: State, byte: u8) -> (State, Seq<Event>, Option<Error>) {
    if s.closed {
        (s, seq![], Some(Error::Closed))
    } else if byte != 0x0a {
        if s.line.len() >= s.limits.line_bytes {
            (closed_state(s), disconnected(s.pending), Some(Error::LineTooLong))
        } else {
            (State { line: s.line.push(byte), ..s }, seq![], None)
        }
    } else {
        match on_line(State { line: seq![], ..s }, s.line) {
            Err(error) => (closed_state(s), disconnected(s.pending), Some(error)),
            Ok((next, None)) => (next, seq![], None),
            Ok((next, Some(event))) => if event is Line && exit_line(s.line) {
                (closed_state(next), seq![event] + disconnected(next.pending), None)
            } else {
                (next, seq![event], None)
            },
        }
    }
}

/// The effect of a run of bytes. Nothing behind an error is read.
pub open spec fn on_bytes(s: State, bytes: Seq<u8>) -> (State, Seq<Event>, Option<Error>)
    decreases bytes.len(),
{
    if bytes.len() == 0 {
        (s, seq![], None)
    } else {
        let (next, events, error) = on_byte(s, bytes[0]);
        if error is Some {
            (next, events, error)
        } else {
            let (end, more, failure) = on_bytes(next, bytes.drop_first());
            (end, events + more, failure)
        }
    }
}

struct Reply {
    guard: Guard,
    bytes: usize,
    lines: Vec<Vec<u8>>,
}

spec fn byte_rows(v: Seq<Vec<u8>>) -> Seq<Seq<u8>> {
    v.map_values(|l: Vec<u8>| l@)
}

pub struct Control {
    limits: Limits,
    line: Vec<u8>,
    reply: Option<Reply>,
    last_control_number: Option<u64>,
    pending: VecDeque<CommandId>,
    issued: u64,
    closed: bool,
}

impl View for Control {
    type V = State;

    closed spec fn view(&self) -> State {
        State {
            limits: self.limits,
            line: self.line@,
            block: match self.reply {
                None => None,
                Some(reply) => Some(
                    Block {
                        guard: reply.guard,
                        bytes: reply.bytes as nat,
                        lines: byte_rows(reply.lines@),
                    },
                ),
            },
            last: self.last_control_number,
            pending: self.pending@,
            issued: self.issued as nat,
            closed: self.closed,
        }
    }
}

/// A stream on which nothing has happened yet.
pub open spec fn fresh(limits: Limits) -> State {
    State {
        limits,
        line: seq![],
        block: None,
        last: None,
        pending: seq![],
        issued: 0,
        closed: false,
    }
}

pub open spec fn valid_limits(limits: Limits) -> bool {
    limits.line_bytes > 0 && limits.reply_bytes > 0 && limits.reply_lines > 0
        && limits.pending_commands > 0
}

fn lossy_strings(lines: &Vec<Vec<u8>>) -> (r: Vec<String>)
    ensures
        texts(r@) == lossy_lines(byte_rows(lines@)),
{
    let mut out: Vec<String> = Vec::new();
    let mut i: usize = 0;
    while i < lines.len()
        invariant
            i <= lines@.len(),
            out@.len() == i,
            forall|j: int| 0 <= j < i ==> #[trigger] out@[j]@ == lossy_text(lines@[j]@),
        decreases lines@.len() - i,
    {
        out.push(lossy(lines[i].as_slice()));
        i += 1;
    }
    assert(texts(out@) =~= lossy_lines(byte_rows(lines@)));
    out
}

impl Control {
    pub fn new(limits: Limits) -> (r: Result<Self, Error>)
        ensures
            match r {
                Ok(control) => valid_limits(limits) && control@ == fresh(limits),
                Err(error) => !valid_limits(limits) && error == Error::InvalidLimits,
            },
    {
        if limits.line_bytes == 0 || limits.reply_bytes == 0 || limits.reply_lines == 0
            || limits.pending_commands == 0 {
            return Err(Error::InvalidLimits);
        }
        let control = Control {
            limits,
            line: Vec::new(),
            reply: None,
            last_control_number: None,
            pending: VecDeque::new(),
            issued: 0,
            closed: false,
        };
        assert(control@.line =~= fresh(limits).line);
        assert(control@.pending =~= fresh(limits).pending);
        Ok(control)
    }

    /// Register immediately before a serialized write. On any partial or failed
    /// write, close the channel and call `finish`; never resend the command.
    pub fn register_command(&mut self) -> (r: Result<CommandId, Error>)
        requires
            old(self)@.issued < u64::MAX,
        ensures
            match r {
                Ok(id) => {
                    &&& !old(self)@.closed
                    &&& old(self)@.pending.len() < old(self)@.limits.pending_commands
                    &&& id == CommandId(old(self)@.issued as u64)
                    &&& final(self)@ == (State {
                        pending: old(self)@.pending.push(id),
                        issued: old(self)@.issued + 1,
                        ..old(self)@
                    })
                },
                Err(error) => {
                    &&& final(self)@ == old(self)@
                    &&& error == if old(self)@.closed {
                        Error::Closed
                    } else {
                        Error::TooManyPendingCommands
                    }
                    &&& old(self)@.closed || old(self)@.pending.len()
                        >= old(self)@.limits.pending_commands
                },
            },
    {
        if self.closed {
            return Err(Error::Closed);
        }
        if self.pending.len() >= self.limits.pending_commands {
            return Err(Error::TooManyPendingCommands);
        }
        let id = CommandId(self.issued);
        self.issued = self.issued + 1;
        self.pending.push_back(id);
        Ok(id)
    }

    pub fn pending_commands(&self) -> (r: usize)
        ensures
            r == self@.pending.len(),
    {
        self.pending.len()
    }

    /// Feed any chunk of the stream. What it brought is appended to `events`.
    /// On failure all pending commands are resolved as disconnected.
    pub fn feed(&mut self, bytes: &[u8], events: &mut Vec<Incoming>) -> (r: Result<(), Error>)
        ensures
            ({
                let s = old(self)@;
                let (end, brought, failure) = if s.closed {
                    (s, seq![], Some(Error::Closed))
                } else {
                    on_bytes(s, bytes@)
                };
                &&& final(self)@ == end
                &&& events_of(final(events)@) == events_of(old(events)@) + brought
                &&& r == match failure {
                    Some(error) => Err::<(), Error>(error),
                    None => Ok(()),
                }
            }),
    {
        if self.closed {
            assert(events_of(events@) =~= events_of(events@) + Seq::<Event>::empty());
            return Err(Error::Closed);
        }
        let mut i: usize = 0;
        let ghost start = self@;
        let ghost whole = on_bytes(start, bytes@);
        assert(bytes@.skip(0) =~= bytes@);
        assert(events_of(events@) + whole.1 == events_of(old(events)@) + whole.1);
        while i < bytes.len()
            invariant
                i <= bytes@.len(),
                whole == on_bytes(start, bytes@),
                start == old(self)@,
                !start.closed,
                ({
                    let (end, more, failure) = on_bytes(self@, bytes@.skip(i as int));
                    &&& end == whole.0
                    &&& failure == whole.2
                    &&& events_of(events@) + more == events_of(old(events)@) + whole.1
                }),
            decreases bytes@.len() - i,
        {
            let ghost before = self@;
            let ghost seen = events@;
            let byte = bytes[i];
            let outcome = self.feed_byte(byte, events);
            proof {
                let rest = bytes@.skip(i as int);
                assert(rest[0] == byte);
                assert(rest.drop_first() =~= bytes@.skip(i + 1));
                let (next, got, error) = on_byte(before, byte);
                let (end, more, failure) = on_bytes(next, bytes@.skip(i + 1));
                if error is None {
                    assert(on_bytes(before, rest).1 == got + more);
                    assert(events_of(events@) + more =~= events_of(seen) + (got + more));
                } else {
                    assert(on_bytes(before, rest).1 == got);
                }
            }
            match outcome {
                Ok(()) => {},
                Err(error) => return Err(error),
            }
            i += 1;
        }
        assert(bytes@.skip(i as int) =~= Seq::<u8>::empty());
        assert(events_of(events@) + Seq::<Event>::empty() =~= events_of(events@));
        Ok(())
    }

    fn feed_byte(&mut self, byte: u8, events: &mut Vec<Incoming>) -> (r: Result<(), Error>)
        ensures
            ({
                let (end, brought, failure) = on_byte(old(self)@, byte);
                &&& final(self)@ == end
                &&& events_of(final(events)@) == events_of(old(events)@) + brought
                &&& r == match failure {
                    Some(error) => Err::<(), Error>(error),
                    None => Ok(()),
                }
            }),
    {
        assert(events_of(events@) =~= events_of(events@) + Seq::<Event>::empty());
        if self.closed {
            return Err(Error::Closed);
        }
        if byte != 0x0a {
            if self.line.len() >= self.limits.line_bytes {
                self.close(events);
                return Err(Error::LineTooLong);
            }
            self.line.push(byte);
            return Ok(());
        }
        let mut line: Vec<u8> = Vec::new();
        std::mem::swap(&mut line, &mut self.line);
        assert(self@.line =~= Seq::<u8>::empty());
        assert(self@ == State { line: seq![], ..old(self)@ });
        let ghost emptied = self@;
        let outcome = self.process_line(line.as_slice());
        match outcome {
            Ok(Some(event)) => {
                let exit = match &event {
                    Incoming::Line(text) => is_exit(text.as_slice()),
                    Incoming::Reply { .. } => false,
                };
                let ghost before = events@;
                let ghost shown = event@;
                events.push(event);
                assert(events_of(events@) =~= events_of(before).push(shown));
                if exit {
                    let ghost pending = self@.pending;
                    self.close(events);
                    assert(events_of(events@) =~= events_of(before) + (seq![shown]
                        + disconnected(pending)));
                } else {
                    assert(events_of(events@) =~= events_of(before) + seq![shown]);
                }
                Ok(())
            },
            Ok(None) => Ok(()),
            Err(error) => {
                self.close(events);
                Err(error)
            },
        }
    }

    /// The end of the stream is no acknowledgement. Outstanding commands are
    /// resolved even when it comes in the middle of a line or of a reply.
    pub fn finish(&mut self, events: &mut Vec<Incoming>) -> (r: Result<(), Error>)
        ensures
            ({
                let s = old(self)@;
                if s.closed {
                    &&& final(self)@ == s
                    &&& events_of(final(events)@) == events_of(old(events)@)
                    &&& r is Ok
                } else {
                    &&& final(self)@ == closed_state(s)
                    &&& events_of(final(events)@) == events_of(old(events)@) + disconnected(
                        s.pending,
                    )
                    &&& r == if s.line.len() > 0 || s.block is Some {
                        Err::<(), Error>(Error::TruncatedStream)
                    } else {
                        Ok(())
                    }
                }
            }),
    {
        if self.closed {
            return Ok(());
        }
        let truncated = self.line.len() > 0 || self.reply.is_some();
        self.close(events);
        if truncated {
            Err(Error::TruncatedStream)
        } else {
            Ok(())
        }
    }

    fn close(&mut self, events: &mut Vec<Incoming>)
        requires
            !old(self)@.closed,
        ensures
            final(self)@ == closed_state(old(self)@),
            events_of(final(events)@) == events_of(old(events)@) + disconnected(
                old(self)@.pending,
            ),
    {
        self.closed = true;
        let ghost before = self@.pending;
        let ghost seen = events@;
        assert(disconnected(before.take(0)) =~= Seq::<Event>::empty());
        assert(before.skip(0) =~= before);
        assert(events_of(events@) =~= events_of(seen) + disconnected(before.take(0)));
        let ghost mut done: int = 0;
        while self.pending.len() > 0
            invariant
                0 <= done <= before.len(),
                self.pending@ == before.skip(done),
                self@ == (State { pending: self.pending@, closed: true, ..old(self)@ }),
                events_of(events@) == events_of(seen) + disconnected(before.take(done)),
            decreases self.pending@.len(),
        {
            let ghost sofar = events@;
            match self.pending.pop_front() {
                Some(id) => {
                    let event = Incoming::Reply { id, result: Err(CommandError::Disconnected) };
                    events.push(event);
                    proof {
                        assert(id == before[done]);
                        assert(before.take(done + 1) =~= before.take(done).push(id));
                        assert(disconnected(before.take(done + 1)) =~= disconnected(
                            before.take(done),
                        ).push(Event::Reply { id, answer: Answer::Disconnected }));
                        assert(events_of(events@) =~= events_of(sofar).push(event@));
                        assert(event@ == (Event::Reply { id, answer: Answer::Disconnected }));
                        assert(events_of(events@) =~= events_of(seen) + disconnected(
                            before.take(done + 1),
                        ));
                        assert(before.skip(done).drop_first() =~= before.skip(done + 1));
                        done = done + 1;
                    }
                },
                None => {},
            }
        }
        assert(before.take(done) =~= before);
        self.line.clear();
        self.reply = None;
        assert(self@.line =~= Seq::<u8>::empty());
        assert(self@.pending =~= Seq::<CommandId>::empty());
    }

    fn process_line(&mut self, line: &[u8]) -> (r: Result<Option<Incoming>, Error>)
        ensures
            match on_line(old(self)@, line@) {
                Err(error) => {
                    &&& r == Err::<Option<Incoming>, Error>(error)
                    &&& final(self)@.closed == old(self)@.closed
                    &&& closed_state(final(self)@) == closed_state(old(self)@)
                    &&& final(self)@.pending == old(self)@.pending
                },
                Ok((next, event)) => {
                    &&& final(self)@ == next
                    &&& match event {
                        None => r == Ok::<Option<Incoming>, Error>(None),
                        Some(event) => r matches Ok(Some(incoming)) && incoming@ == event,
                    }
                },
            },
    {
        let envelope = match parse_guard(line) {
            Ok(envelope) => envelope,
            Err(error) => return Err(error),
        };
        match (envelope, self.reply.take()) {
            (Some((GuardKind::Begin, _)), Some(reply)) => {
                self.reply = Some(reply);
                Err(Error::NestedReply)
            },
            (Some((kind, guard)), Some(reply)) => {
                if guard != reply.guard {
                    self.reply = Some(reply);
                    return Err(Error::MismatchedGuard);
                }
                if guard.flags != 0 {
                    self.last_control_number = Some(guard.number);
                }
                if guard.flags == 0 {
                    return Ok(None);
                }
                match self.pending.pop_front() {
                    None => Ok(None),
                    Some(id) => {
                        let lines = lossy_strings(&reply.lines);
                        let result = match kind {
                            GuardKind::End => Ok(lines),
                            _ => Err(CommandError::Failed { lines }),
                        };
                        Ok(Some(Incoming::Reply { id, result }))
                    },
                }
            },
            (Some((GuardKind::Begin, guard)), None) => {
                let late = match self.last_control_number {
                    Some(last) => guard.number <= last,
                    None => false,
                };
                if guard.flags != 0 && late {
                    return Err(Error::OutOfOrderReply);
                }
                self.reply = Some(Reply { guard, bytes: 0, lines: Vec::new() });
                assert(self@.block.unwrap().lines =~= Seq::<Seq<u8>>::empty());
                Ok(None)
            },
            (Some(_), None) => Err(Error::UnexpectedGuard),
            (None, Some(reply)) => {
                let mut reply = reply;
                let ghost sofar = byte_rows(reply.lines@);
                let fits = match reply.bytes.checked_add(line.len()) {
                    Some(n) => if n < self.limits.reply_bytes {
                        reply.bytes = n + 1;
                        true
                    } else {
                        false
                    },
                    None => false,
                };
                if !fits {
                    self.reply = Some(reply);
                    return Err(Error::ReplyTooLarge);
                }
                let room = reply.lines.len() < self.limits.reply_lines;
                if !room {
                    self.reply = Some(reply);
                    return Err(Error::TooManyReplyLines);
                }
                let mut copy: Vec<u8> = Vec::new();
                copy.extend_from_slice(line);
                assert(copy@ =~= line@);
                reply.lines.push(copy);
                assert(byte_rows(reply.lines@) =~= sofar.push(line@));
                self.reply = Some(reply);
                Ok(None)
            },
            (None, None) => {
                match check_layout_depth(line) {
                    Ok(()) => {},
                    Err(error) => return Err(error),
                }
                if line.len() == 0 {
                    return Ok(None);
                }
                let mut copy: Vec<u8> = Vec::new();
                copy.extend_from_slice(line);
                assert(copy@ =~= line@);
                Ok(Some(Incoming::Line(copy)))
            },
        }
    }
}

impl Default for Control {
    fn default() -> (r: Self)
        ensures
            r@.limits.line_bytes == 65536,
            r@.limits.reply_bytes == 1048576,
            r@.limits.reply_lines == 16384,
            r@.limits.pending_commands == 128,
            r@ == fresh(r@.limits),
    {
        let limits = Limits {
            line_bytes: 65536,
            reply_bytes: 1048576,
            reply_lines: 16384,
            pending_commands: 128,
        };
        let control = Control {
            limits,
            line: Vec::new(),
            reply: None,
            last_control_number: None,
            pending: VecDeque::new(),
            issued: 0,
            closed: false,
        };
        assert(control@.line =~= fresh(limits).line);
        assert(control@.pending =~= fresh(limits).pending);
        control
    }
}

/// Where the stream is cut into chunks makes no difference: reading two chunks
/// in turn is reading them as one, as long as the first leaves the stream open.
pub proof fn chunks_are_invisible(s: State, first: Seq<u8>, second: Seq<u8>)
    requires
        on_bytes(s, first).2 is None,
    ensures
        on_bytes(s, first + second).0 == on_bytes(on_bytes(s, first).0, second).0,
        on_bytes(s, first + second).1 == on_bytes(s, first).1 + on_bytes(
            on_bytes(s, first).0,
            second,
        ).1,
        on_bytes(s, first + second).2 == on_bytes(on_bytes(s, first).0, second).2,
    decreases first.len(),
{
    if first.len() == 0 {
        assert(first + second =~= second);
        assert(Seq::<Event>::empty() + on_bytes(s, second).1 =~= on_bytes(s, second).1);
    } else {
        let next = on_byte(s, first[0]).0;
        chunks_are_invisible(next, first.drop_first(), second);
        assert((first + second).drop_first() =~= first.drop_first() + second);
        assert((first + second)[0] == first[0]);
        let a = on_byte(s, first[0]).1;
        let b = on_bytes(next, first.drop_first()).1;
        let c = on_bytes(on_bytes(s, first).0, second).1;
        assert(a + (b + c) =~= (a + b) + c);
    }
}

/// The commands that the events resolve, in order.
pub open spec fn resolved(events: Seq<Event>) -> Seq<CommandId>
    decreases events.len(),
{
    if events.len() == 0 {
        seq![]
    } else {
        match events[0] {
            Event::Reply { id, .. } => seq![id] + resolved(events.drop_first()),
            Event::Line(_) => resolved(events.drop_first()),
        }
    }
}

proof fn resolved_concat(a: Seq<Event>, b: Seq<Event>)
    ensures
        resolved(a + b) == resolved(a) + resolved(b),
    decreases a.len(),
{
    if a.len() == 0 {
        assert(a + b =~= b);
        assert(resolved(a) + resolved(b) =~= resolved(b));
    } else {
        assert((a + b).drop_first() =~= a.drop_first() + b);
        resolved_concat(a.drop_first(), b);
        match a[0] {
            Event::Reply { id, .. } => {
                assert(seq![id] + (resolved(a.drop_first()) + resolved(b)) =~= (seq![id]
                    + resolved(a.drop_first())) + resolved(b));
            },
            Event::Line(_) => {},
        }
    }
}

proof fn resolved_disconnected(pending: Seq<CommandId>)
    ensures
        resolved(disconnected(pending)) == pending,
    decreases pending.len(),
{
    if pending.len() == 0 {
        assert(disconnected(pending) =~= Seq::<Event>::empty());
        assert(pending =~= Seq::<CommandId>::empty());
    } else {
        assert(disconnected(pending).drop_first() =~= disconnected(pending.drop_first()));
        resolved_disconnected(pending.drop_first());
        assert(seq![pending[0]] + pending.drop_first() =~= pending);
    }
}

/// Commands resolve in the order of their registration, each exactly once:
/// those that the bytes resolved, followed by those still outstanding, are the
/// commands that were outstanding before.
pub proof fn replies_keep_order(s: State, bytes: Seq<u8>)
    ensures
        resolved(on_bytes(s, bytes).1) + on_bytes(s, bytes).0.pending == s.pending,
    decreases bytes.len(),
{
    if bytes.len() == 0 {
        assert(resolved(seq![]) + s.pending =~= s.pending);
    } else {
        let (next, events, error) = on_byte(s, bytes[0]);
        assert(resolved(events) + next.pending == s.pending) by {
            resolved_disconnected(s.pending);
            assert(resolved(Seq::<Event>::empty()) + s.pending =~= s.pending);
            assert(s.pending + Seq::<CommandId>::empty() =~= s.pending);
            if !s.closed && bytes[0] == 0x0a {
                match on_line(State { line: seq![], ..s }, s.line) {
                    Ok((after, Some(event))) => {
                        reveal_with_fuel(resolved, 2);
                        let one = seq![event];
                        assert(one.drop_first() =~= Seq::<Event>::empty());
                        resolved_concat(one, disconnected(after.pending));
                        resolved_disconnected(after.pending);
                        assert(resolved(one) + after.pending =~= s.pending) by {
                            match event {
                                Event::Reply { id, .. } => {
                                    assert(resolved(one) =~= seq![id]);
                                    assert(seq![id] + s.pending.drop_first() =~= s.pending);
                                },
                                Event::Line(_) => {
                                    assert(resolved(one) =~= Seq::<CommandId>::empty());
                                },
                            }
                        }
                        assert(s.pending + Seq::<CommandId>::empty() =~= s.pending);
                    },
                    _ => {},
                }
            }
        }
        if error is None {
            replies_keep_order(next, bytes.drop_first());
            let (end, more, failure) = on_bytes(next, bytes.drop_first());
            resolved_concat(events, more);
            assert((resolved(events) + resolved(more)) + end.pending =~= resolved(events) + (
            resolved(more) + end.pending));
        }
    }
}

/// Every buffer is within its limit.
pub open spec fn within_limits(s: State) -> bool {
    &&& s.line.len() <= s.limits.line_bytes
    &&& s.block is Some ==> s.block.unwrap().bytes <= s.limits.reply_bytes
    &&& s.block is Some ==> s.block.unwrap().lines.len() <= s.limits.reply_lines
    &&& s.pending.len() <= s.limits.pending_commands
}

/// No input makes a buffer grow past its limit.
pub proof fn limits_hold(s: State, bytes: Seq<u8>)
    requires
        within_limits(s),
    ensures
        within_limits(on_bytes(s, bytes).0),
        on_bytes(s, bytes).0.limits == s.limits,
    decreases bytes.len(),
{
    if bytes.len() > 0 {
        let (next, events, error) = on_byte(s, bytes[0]);
        assert(within_limits(next) && next.limits == s.limits);
        if error is None {
            limits_hold(next, bytes.drop_first());
        }
    }
}

/// An error closes the stream, a closed stream has nothing outstanding, and no
/// byte changes it or is accepted by it.
pub proof fn closed_is_final(s: State, bytes: Seq<u8>)
    requires
        s.closed ==> s == closed_state(s),
    ensures
        on_bytes(s, bytes).2 is Some ==> on_bytes(s, bytes).0.closed,
        on_bytes(s, bytes).0.closed ==> on_bytes(s, bytes).0 == closed_state(
            on_bytes(s, bytes).0,
        ),
        s.closed ==> on_bytes(s, bytes).0 == s && on_bytes(s, bytes).1.len() == 0,
        s.closed && bytes.len() > 0 ==> on_bytes(s, bytes).2 == Some(Error::Closed),
    decreases bytes.len(),
{
    if bytes.len() > 0 {
        let (next, events, error) = on_byte(s, bytes[0]);
        assert(next.closed ==> next == closed_state(next));
        if error is None {
            closed_is_final(next, bytes.drop_first());
        }
    }
}

} // verus!
