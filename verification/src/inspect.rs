//! Read-only tmux inspection and bounded control-channel requests.
//!
//! A request is written once and never retried. The program around this module
//! moves the bytes; what is written, what is accepted and when a request is
//! complete is decided here.
use vstd::prelude::*;
use vstd::string::*;
use vstd::utf8::*;

use crate::command::{quotable, quoted, shell_quote};
use crate::control::{closed_state, fresh, on_bytes, Control, Error as ControlError, Limits, State};
use crate::ssh::Io;
use crate::order::{find_key, increasing, insert_ordered, place, place_facts, Keyed};
use crate::snapshot::{read_sigil, sigil_fault, sigil_number};
use crate::text::{
    byte_len, chars_of, decimal, is_text, number, number_error_text, number_fault, parse_number,
    pieces, push_decimal, rows, split_on, split_words, starts_with, string_of, texts, utf8_len,
    words, NumberError,
};
use crate::tmux::{
    events_of, CommandError, CommandId, Incoming, Notification, PaneId, SessionId, WindowId,
};
use crate::values::{valid_size, SessionName, Size};

verus! {

pub const MAX_PANES: usize = 128;

pub const MAX_STDERR: usize = 65_536;

pub const MAX_TRANSFER: usize = 8_388_608;

pub const MAX_HISTORY_LINES: usize = 1000;

pub const MAX_COMMANDS: usize = 256;

/// Asks for the metadata of the own client.
pub const INFO_COMMAND: &'static str =
    "display-message -p '#{version}|#{session_id}|#{client_control_mode}|#{client_readonly}|#{client_flags}|#{client_tty}'\n";

/// Asks for the panes of the session.
pub const PANES_COMMAND: &'static str =
    "list-panes -s -F '#{pane_id} #{window_id} #{pane_width} #{pane_height} #{pane_left} #{pane_top} #{cursor_x} #{cursor_y} #{alternate_on} #{history_size} #{history_limit}'\n";

#[derive(Clone, Copy, Debug, PartialEq, Eq, Structural)]
pub enum Error {
    /// A socket path that is empty, too long or holds control characters.
    Socket,
    /// Anything but one line of client metadata.
    InfoLines,
    /// The required client metadata is missing.
    InfoFields,
    /// The client is not a read-only control client without a terminal.
    InfoClient,
    /// tmux did not apply the inspection safety flags.
    InfoFlags,
    SessionId,
    PaneCount,
    PaneFields,
    PaneId,
    DuplicatePane,
    WindowId,
    Number(NumberError),
    Size,
    Alternate,
    Cursor,
    Position,
    CommandCount,
    Command,
    BatchTooLarge,
    Control(ControlError),
    UnexpectedReply,
    /// tmux answered a request with an error.
    Rejected,
    /// The attachment ended.
    Exited,
    TransferTooLarge,
    StderrTooLarge,
    /// Output that is no control-mode line.
    Stdout,
    UnsolicitedReply,
    History,
    /// The channel took nothing; nobody knows what it delivered.
    Closed,
    /// The channel failed; nobody knows what it delivered.
    Write,
    /// The channel brings nothing more.
    Ended,
}

/// What an error is shown as.
pub open spec fn error_text(error: Error) -> Seq<char> {
    match error {
        Error::Socket => "invalid tmux socket path"@,
        Error::InfoLines => "invalid tmux client metadata"@,
        Error::InfoFields => "tmux does not provide the required client metadata"@,
        Error::InfoClient => "expected a read-only, non-PTY control client"@,
        Error::InfoFlags => "tmux did not apply the inspection safety flags"@,
        Error::SessionId => "invalid tmux session id"@,
        Error::PaneCount => "invalid pane count (maximum 128)"@,
        Error::PaneFields => "invalid pane metadata"@,
        Error::PaneId => "invalid pane id"@,
        Error::DuplicatePane => "duplicate pane id"@,
        Error::WindowId => "invalid window id"@,
        Error::Number(error) => number_error_text(error),
        Error::Size => "terminal dimensions are zero or exceed the cell budget"@,
        Error::Alternate => "invalid alternate-screen state"@,
        Error::Cursor => "cursor is outside the pane"@,
        Error::Position => "pane position exceeds budget"@,
        Error::CommandCount => "invalid command count"@,
        Error::Command => "invalid internal control command"@,
        Error::BatchTooLarge => "command batch exceeds 64 KiB"@,
        Error::Control(inner) => crate::control::error_text(inner),
        Error::UnexpectedReply => "unexpected command reply"@,
        Error::Rejected => "tmux rejected request"@,
        Error::Exited => "tmux attachment ended"@,
        Error::TransferTooLarge => "tmux batch exceeds 8 MiB wire budget"@,
        Error::StderrTooLarge => "remote stderr exceeds 64 KiB"@,
        Error::Stdout => "unexpected stdout in tmux control stream"@,
        Error::UnsolicitedReply => "unsolicited command reply"@,
        Error::History => "history request exceeds 1000 lines"@,
        Error::Closed => "tmux channel closed during write; delivery is uncertain"@,
        Error::Write => "tmux write failed; delivery is uncertain"@,
        Error::Ended => "SSH control channel ended"@,
    }
}

impl Error {
    pub fn message(&self) -> (r: String)
        ensures
            r@ == error_text(*self),
    {
        match self {
            Error::Socket => "invalid tmux socket path".to_owned(),
            Error::InfoLines => "invalid tmux client metadata".to_owned(),
            Error::InfoFields => "tmux does not provide the required client metadata".to_owned(),
            Error::InfoClient => "expected a read-only, non-PTY control client".to_owned(),
            Error::InfoFlags => "tmux did not apply the inspection safety flags".to_owned(),
            Error::SessionId => "invalid tmux session id".to_owned(),
            Error::PaneCount => "invalid pane count (maximum 128)".to_owned(),
            Error::PaneFields => "invalid pane metadata".to_owned(),
            Error::PaneId => "invalid pane id".to_owned(),
            Error::DuplicatePane => "duplicate pane id".to_owned(),
            Error::WindowId => "invalid window id".to_owned(),
            Error::Number(error) => error.message().to_owned(),
            Error::Size => "terminal dimensions are zero or exceed the cell budget".to_owned(),
            Error::Alternate => "invalid alternate-screen state".to_owned(),
            Error::Cursor => "cursor is outside the pane".to_owned(),
            Error::Position => "pane position exceeds budget".to_owned(),
            Error::CommandCount => "invalid command count".to_owned(),
            Error::Command => "invalid internal control command".to_owned(),
            Error::BatchTooLarge => "command batch exceeds 64 KiB".to_owned(),
            Error::Control(inner) => inner.message(),
            Error::UnexpectedReply => "unexpected command reply".to_owned(),
            Error::Rejected => "tmux rejected request".to_owned(),
            Error::Exited => "tmux attachment ended".to_owned(),
            Error::TransferTooLarge => "tmux batch exceeds 8 MiB wire budget".to_owned(),
            Error::StderrTooLarge => "remote stderr exceeds 64 KiB".to_owned(),
            Error::Stdout => "unexpected stdout in tmux control stream".to_owned(),
            Error::UnsolicitedReply => "unsolicited command reply".to_owned(),
            Error::History => "history request exceeds 1000 lines".to_owned(),
            Error::Closed =>
                "tmux channel closed during write; delivery is uncertain".to_owned(),
            Error::Write => "tmux write failed; delivery is uncertain".to_owned(),
            Error::Ended => "SSH control channel ended".to_owned(),
        }
    }
}

/// The remote command that attaches to a session.
pub open spec fn attach_text(session: Seq<char>, socket: Option<Seq<char>>) -> Seq<char> {
    "exec tmux -N -C"@ + (match socket {
        Some(path) => " -S "@ + quoted(path),
        None => ""@,
    }) + " attach-session -E -f read-only,ignore-size,no-output -t "@ + quoted(
        seq!['='] + session,
    )
}

fn quote(value: &str) -> (r: String)
    ensures
        r@ == quoted(value@),
{
    let chars = chars_of(value);
    let mut out = String::new();
    out.push('\'');
    let mut i: usize = 0;
    assert(out@ =~= seq!['\''] + crate::command::escape_quotes(chars@.take(0)));
    while i < chars.len()
        invariant
            i <= chars@.len(),
            out@ == seq!['\''] + crate::command::escape_quotes(chars@.take(i as int)),
        decreases chars@.len() - i,
    {
        let c = chars[i];
        if c == '\'' {
            out.push('\'');
            out.push('"');
            out.push('\'');
            out.push('"');
            out.push('\'');
        } else {
            out.push(c);
        }
        i += 1;
        proof {
            assert(chars@.take(i as int).drop_last() =~= chars@.take(i - 1));
            assert(out@ =~= seq!['\''] + crate::command::escape_quotes(chars@.take(i as int)));
        }
    }
    assert(chars@.take(i as int) =~= chars@);
    out.push('\'');
    assert(out@ =~= quoted(value@));
    out
}

/// The command forbids starting a server and leaves the session's environment
/// untouched. Read-only is a safety flag, not a sandbox.
pub fn attach_command(session: &SessionName, socket: Option<&str>) -> (r: Result<String, Error>)
    ensures
        match r {
            Ok(command) => {
                &&& socket matches Some(path) ==> quotable(path@)
                &&& command@ == attach_text(
                    session@,
                    match socket {
                        Some(path) => Some(path@),
                        None => None,
                    },
                )
            },
            Err(error) => error == Error::Socket && (socket matches Some(path) && !quotable(
                path@,
            )),
        },
{
    let mut command = String::new();
    command.append("exec tmux -N -C");
    if let Some(path) = socket {
        match shell_quote(path) {
            Ok(text) => {
                command.append(" -S ");
                command.append(text.as_str());
            },
            Err(_) => return Err(Error::Socket),
        }
    }
    proof {
        reveal_strlit("");
        assert(command@ =~= "exec tmux -N -C"@ + (match socket {
            Some(path) => " -S "@ + quoted(path@),
            None => ""@,
        }));
    }
    command.append(" attach-session -E -f read-only,ignore-size,no-output -t ");
    let mut target = String::new();
    target.push('=');
    target.append(session.as_str());
    assert(target@ =~= seq!['='] + session@);
    let text = quote(target.as_str());
    command.append(text.as_str());
    Ok(command)
}

/// The number behind a sigil, or the error of its absence or of the number.
pub open spec fn read_id(s: Seq<char>, sigil: char, missing: Error) -> Result<nat, Error> {
    match sigil_number(s, sigil) {
        Some(n) => Ok(n),
        None => match sigil_fault(s, sigil) {
            Some(error) => Err(Error::Number(error)),
            None => Err(missing),
        },
    }
}

/// The tmux version and the session that one line of client metadata reports, or
/// the first thing that is wrong with it.
pub open spec fn read_info(lines: Seq<Seq<char>>) -> Result<(Seq<char>, nat), Error> {
    if lines.len() != 1 {
        Err(Error::InfoLines)
    } else {
        let f = pieces(lines[0], '|');
        if f.len() != 6 || utf8_len(f[0]) > 64 || f[0].len() == 0 {
            Err(Error::InfoFields)
        } else if f[2] != "1"@ || f[3] != "1"@ || f[5].len() != 0 {
            Err(Error::InfoClient)
        } else if !pieces(f[4], ',').contains("ignore-size"@) || !pieces(f[4], ',').contains(
            "no-output"@,
        ) {
            Err(Error::InfoFlags)
        } else {
            match read_id(f[1], '$', Error::SessionId) {
                Err(error) => Err(error),
                Ok(session) => Ok((f[0], session)),
            }
        }
    }
}

fn has_row(fields: &Vec<Vec<char>>, text: &str) -> (r: bool)
    ensures
        r == rows(fields@).contains(text@),
{
    let mut i: usize = 0;
    while i < fields.len()
        invariant
            i <= fields@.len(),
            forall|j: int| 0 <= j < i ==> (#[trigger] fields@[j])@ != text@,
        decreases fields@.len() - i,
    {
        if is_text(fields[i].as_slice(), text) {
            assert(rows(fields@)[i as int] == text@);
            return true;
        }
        i += 1;
    }
    proof {
        if rows(fields@).contains(text@) {
            let k = choose|k: int| 0 <= k < rows(fields@).len() && rows(fields@)[k] == text@;
            assert(fields@[k]@ == text@);
        }
    }
    false
}

fn sigil_id(field: &[char], sigil: char, missing: Error) -> (r: Result<u32, Error>)
    ensures
        match read_id(field@, sigil, missing) {
            Ok(n) => r == Ok::<u32, Error>(n as u32) && n <= u32::MAX,
            Err(error) => r == Err::<u32, Error>(error),
        },
{
    match read_sigil(field, sigil) {
        Ok(n) => Ok(n),
        Err(Some(error)) => Err(Error::Number(error)),
        Err(None) => Err(missing),
    }
}

pub fn parse_info(lines: &[String]) -> (r: Result<(String, SessionId), Error>)
    ensures
        match read_info(texts(lines@)) {
            Ok((version, session)) => r matches Ok(v) && v.0@ == version && v.1.0 == session,
            Err(error) => r == Err::<(String, SessionId), Error>(error),
        },
{
    if lines.len() != 1 {
        return Err(Error::InfoLines);
    }
    let chars = chars_of(lines[0].as_str());
    assert(texts(lines@)[0] == chars@);
    let fields = split_on(chars.as_slice(), '|');
    let ghost f = rows(fields@);
    if fields.len() != 6 {
        return Err(Error::InfoFields);
    }
    assert(f[0] == fields@[0]@ && f[1] == fields@[1]@ && f[2] == fields@[2]@ && f[3] == fields@[3]@
        && f[4] == fields@[4]@ && f[5] == fields@[5]@);
    let version = string_of(fields[0].as_slice());
    if byte_len(version.as_str()) > 64 || fields[0].len() == 0 {
        return Err(Error::InfoFields);
    }
    if !is_text(fields[2].as_slice(), "1") || !is_text(fields[3].as_slice(), "1")
        || fields[5].len() != 0 {
        return Err(Error::InfoClient);
    }
    let flags = split_on(fields[4].as_slice(), ',');
    if !has_row(&flags, "ignore-size") || !has_row(&flags, "no-output") {
        return Err(Error::InfoFlags);
    }
    match sigil_id(fields[1].as_slice(), '$', Error::SessionId) {
        Ok(n) => Ok((version, SessionId(n))),
        Err(error) => Err(error),
    }
}

/// What tmux lists of a pane.
#[derive(Clone, Copy, Debug, PartialEq, Eq, Structural)]
pub struct Pane {
    pub id: PaneId,
    pub window: WindowId,
    pub size: Size,
    pub left: usize,
    pub top: usize,
    pub cursor_x: usize,
    pub cursor_y: usize,
    pub alternate_screen: bool,
    pub history_size: usize,
    pub history_limit: usize,
}

/// What a listed pane holds.
pub struct Listed {
    pub id: nat,
    pub window: nat,
    pub columns: nat,
    pub rows: nat,
    pub left: nat,
    pub top: nat,
    pub cursor_x: nat,
    pub cursor_y: nat,
    pub alternate_screen: bool,
    pub history_size: nat,
    pub history_limit: nat,
}

impl View for Pane {
    type V = Listed;

    open spec fn view(&self) -> Listed {
        Listed {
            id: self.id.0 as nat,
            window: self.window.0 as nat,
            columns: self.size.spec_columns(),
            rows: self.size.spec_rows(),
            left: self.left as nat,
            top: self.top as nat,
            cursor_x: self.cursor_x as nat,
            cursor_y: self.cursor_y as nat,
            alternate_screen: self.alternate_screen,
            history_size: self.history_size as nat,
            history_limit: self.history_limit as nat,
        }
    }
}

impl Keyed for Pane {
    open spec fn key(self) -> int {
        self.id.0 as int
    }

    fn get_key(&self) -> (r: u64) {
        self.id.0 as u64
    }
}

pub open spec fn listed_panes(v: Seq<Pane>) -> Seq<Listed> {
    v.map_values(|p: Pane| p@)
}

pub open spec fn pane_seen(seen: Seq<Listed>, id: nat) -> bool {
    exists|i: int| 0 <= i < seen.len() && (#[trigger] seen[i]).id == id
}

/// The fault of the first field in this range that is no number.
pub open spec fn no_number(f: Seq<Seq<char>>, from: int, to: int) -> Option<NumberError>
    decreases to - from,
{
    if from >= to {
        None
    } else {
        match number_fault(f[from], usize::MAX as nat) {
            Some(error) => Some(error),
            None => no_number(f, from + 1, to),
        }
    }
}

/// The pane that one line lists behind those already listed, or the first thing
/// that is wrong with the line. tmux can leave the cursor past the last column
/// while a wrap is pending.
pub open spec fn read_pane(line: Seq<char>, seen: Seq<Listed>) -> Result<Listed, Error> {
    let f = words(line);
    let n = |i: int| number(f[i], usize::MAX as nat);
    let id = read_id(f[0], '%', Error::PaneId);
    let window = read_id(f[1], '@', Error::WindowId);
    if f.len() != 11 {
        Err(Error::PaneFields)
    } else if id is Err {
        Err(id->Err_0)
    } else if pane_seen(seen, id->Ok_0) {
        Err(Error::DuplicatePane)
    } else if window is Err {
        Err(window->Err_0)
    } else if no_number(f, 2, 4) is Some {
        Err(Error::Number(no_number(f, 2, 4)->0))
    } else if !valid_size(n(2).unwrap() as int, n(3).unwrap() as int) {
        Err(Error::Size)
    } else if no_number(f, 4, 8) is Some {
        Err(Error::Number(no_number(f, 4, 8)->0))
    } else if f[8] != "0"@ && f[8] != "1"@ {
        Err(Error::Alternate)
    } else if n(6).unwrap() > n(2).unwrap() || n(7).unwrap() >= n(3).unwrap() {
        Err(Error::Cursor)
    } else if n(4).unwrap() > 65535 || n(5).unwrap() > 65535 {
        Err(Error::Position)
    } else if no_number(f, 9, 11) is Some {
        Err(Error::Number(no_number(f, 9, 11)->0))
    } else {
        Ok(
            Listed {
                id: id->Ok_0,
                window: window->Ok_0,
                columns: n(2).unwrap(),
                rows: n(3).unwrap(),
                left: n(4).unwrap(),
                top: n(5).unwrap(),
                cursor_x: n(6).unwrap(),
                cursor_y: n(7).unwrap(),
                alternate_screen: f[8] == "1"@,
                history_size: n(9).unwrap(),
                history_limit: n(10).unwrap(),
            },
        )
    }
}

/// The panes that the lines list, in the order of the lines.
pub open spec fn read_panes(lines: Seq<Seq<char>>) -> Result<Seq<Listed>, Error>
    decreases lines.len(),
{
    if lines.len() == 0 {
        Ok(seq![])
    } else {
        match read_panes(lines.drop_last()) {
            Err(error) => Err(error),
            Ok(seen) => match read_pane(lines.last(), seen) {
                Err(error) => Err(error),
                Ok(pane) => Ok(seen.push(pane)),
            },
        }
    }
}

proof fn panes_prefix(lines: Seq<Seq<char>>, n: int)
    requires
        0 <= n <= lines.len(),
    ensures
        read_panes(lines.take(n)) is Err ==> read_panes(lines) == read_panes(lines.take(n)),
    decreases lines.len() - n,
{
    if n == lines.len() {
        assert(lines.take(n) =~= lines);
    } else {
        panes_prefix(lines, n + 1);
        assert(lines.take(n + 1).drop_last() =~= lines.take(n));
    }
}

/// The same panes, whatever their order.
pub open spec fn same_panes(panes: Seq<Pane>, listed: Seq<Listed>) -> bool {
    &&& panes.len() == listed.len()
    &&& forall|i: int|
        0 <= i < listed.len() ==> listed_panes(panes).contains(#[trigger] listed[i])
    &&& forall|k: int| 0 <= k < panes.len() ==> listed.contains((#[trigger] panes[k])@)
}

fn field_number(fields: &Vec<Vec<char>>, i: usize) -> (r: Result<usize, Error>)
    requires
        i < fields@.len(),
    ensures
        match r {
            Ok(n) => number(rows(fields@)[i as int], usize::MAX as nat) == Some(n as nat)
                && number_fault(rows(fields@)[i as int], usize::MAX as nat) is None,
            Err(error) => number_fault(rows(fields@)[i as int], usize::MAX as nat) matches Some(
                fault,
            ) && error == Error::Number(fault),
        },
{
    assert(rows(fields@)[i as int] == fields@[i as int]@);
    match parse_number(fields[i].as_slice(), usize::MAX as u64) {
        Ok(n) => Ok(n as usize),
        Err(error) => Err(Error::Number(error)),
    }
}

fn parse_pane(line: &str, seen: &Vec<Pane>, listed: Ghost<Seq<Listed>>) -> (r: Result<Pane, Error>)
    requires
        increasing(seen@),
        same_panes(seen@, listed@),
    ensures
        match read_pane(line@, listed@) {
            Ok(pane) => r matches Ok(p) && p@ == pane,
            Err(error) => r == Err::<Pane, Error>(error),
        },
{
    let chars = chars_of(line);
    let fields = split_words(chars.as_slice());
    let ghost f = rows(fields@);
    if fields.len() != 11 {
        return Err(Error::PaneFields);
    }
    assert(f[0] == fields@[0]@ && f[1] == fields@[1]@ && f[8] == fields@[8]@);
    proof {
        reveal_with_fuel(no_number, 5);
    }
    let id = sigil_id(fields[0].as_slice(), '%', Error::PaneId)?;
    match find_key(seen, id as u64) {
        Some(k) => {
            proof {
                assert(listed@.contains(seen@[k as int]@));
                let i = choose|i: int| 0 <= i < listed@.len() && listed@[i] == seen@[k as int]@;
                assert(listed@[i].id == id);
            }
            return Err(Error::DuplicatePane);
        },
        None => {
            proof {
                if pane_seen(listed@, id as nat) {
                    let i = choose|i: int| 0 <= i < listed@.len() && (#[trigger] listed@[i]).id == id;
                    assert(listed_panes(seen@).contains(listed@[i]));
                    let k = choose|k: int|
                        0 <= k < listed_panes(seen@).len() && listed_panes(seen@)[k] == listed@[i];
                    assert(seen@[k].key() == id);
                }
            }
        },
    }
    let window = sigil_id(fields[1].as_slice(), '@', Error::WindowId)?;
    let columns = field_number(&fields, 2)?;
    let rows = field_number(&fields, 3)?;
    let size = match Size::new(columns, rows) {
        Ok(size) => size,
        Err(_) => return Err(Error::Size),
    };
    let left = field_number(&fields, 4)?;
    let top = field_number(&fields, 5)?;
    let cursor_x = field_number(&fields, 6)?;
    let cursor_y = field_number(&fields, 7)?;
    let alternate_screen = is_text(fields[8].as_slice(), "1");
    if !alternate_screen && !is_text(fields[8].as_slice(), "0") {
        return Err(Error::Alternate);
    }
    if cursor_x > columns || cursor_y >= rows {
        return Err(Error::Cursor);
    }
    if left > 65535 || top > 65535 {
        return Err(Error::Position);
    }
    let history_size = field_number(&fields, 9)?;
    let history_limit = field_number(&fields, 10)?;
    Ok(
        Pane {
            id: PaneId(id),
            window: WindowId(window),
            size,
            left,
            top,
            cursor_x,
            cursor_y,
            alternate_screen,
            history_size,
            history_limit,
        },
    )
}

/// The panes of a listing, of which there is at least one.
pub open spec fn read_listing(lines: Seq<Seq<char>>) -> Result<Seq<Listed>, Error> {
    if lines.len() == 0 || lines.len() > MAX_PANES {
        Err(Error::PaneCount)
    } else {
        read_panes(lines)
    }
}

/// These are the panes of a listing, in the order of their numbers.
pub open spec fn lists(panes: Seq<Pane>, listed: Seq<Listed>) -> bool {
    increasing(panes) && same_panes(panes, listed)
}

/// The listed panes, in the order of their numbers.
pub fn parse_panes(lines: &[String]) -> (r: Result<Vec<Pane>, Error>)
    ensures
        match read_listing(texts(lines@)) {
            Ok(listed) => r matches Ok(panes) && lists(panes@, listed) && listed.len()
                == lines@.len(),
            Err(error) => r == Err::<Vec<Pane>, Error>(error),
        },
{
    if lines.len() == 0 || lines.len() > MAX_PANES {
        return Err(Error::PaneCount);
    }
    let ghost all = texts(lines@);
    let mut panes: Vec<Pane> = Vec::new();
    let ghost mut listed: Seq<Listed> = seq![];
    let mut i: usize = 0;
    while i < lines.len()
        invariant
            i <= lines@.len(),
            all == texts(lines@),
            0 < lines@.len() <= MAX_PANES,
            read_panes(all.take(i as int)) == Ok::<Seq<Listed>, Error>(listed),
            listed.len() == i,
            increasing(panes@),
            same_panes(panes@, listed),
        decreases lines@.len() - i,
    {
        let ghost head = all.take(i + 1);
        proof {
            assert(head.drop_last() =~= all.take(i as int));
            assert(head.last() == lines@[i as int]@);
            panes_prefix(all, i + 1);
        }
        let pane = match parse_pane(lines[i].as_str(), &panes, Ghost(listed)) {
            Ok(pane) => pane,
            Err(error) => return Err(error),
        };
        let ghost before = panes@;
        let ghost seen = listed;
        insert_ordered(&mut panes, pane);
        proof {
            assert(!pane_seen(seen, pane@.id));
            assert forall|k: int| 0 <= k < before.len() implies (#[trigger] before[k]).key()
                != pane.key() by {
                assert(seen.contains(before[k]@));
                let m = choose|m: int| 0 <= m < seen.len() && seen[m] == before[k]@;
                assert(seen[m].id != pane@.id);
            }
            place_facts(before, pane.key());
            listed = seen.push(pane@);
            same_panes_insert(before, seen, place(before, pane.key()), pane);
        }
        i += 1;
    }
    assert(all.take(i as int) =~= all);
    Ok(panes)
}

proof fn same_panes_insert(panes: Seq<Pane>, listed: Seq<Listed>, at: int, pane: Pane)
    requires
        same_panes(panes, listed),
        0 <= at <= panes.len(),
    ensures
        same_panes(panes.insert(at, pane), listed.push(pane@)),
{
    let p = panes.insert(at, pane);
    let l = listed.push(pane@);
    assert forall|i: int| 0 <= i < l.len() implies listed_panes(p).contains(#[trigger] l[i]) by {
        if i == listed.len() {
            assert(listed_panes(p)[at] == pane@);
        } else {
            assert(listed_panes(panes).contains(listed[i]));
            let k = choose|k: int|
                0 <= k < listed_panes(panes).len() && listed_panes(panes)[k] == listed[i];
            let z = if k < at {
                k
            } else {
                k + 1
            };
            assert(p[z] == panes[k]);
            assert(listed_panes(p)[z] == l[i]);
        }
    }
    assert forall|k: int| 0 <= k < p.len() implies l.contains((#[trigger] p[k])@) by {
        if k == at {
            assert(l[listed.len() as int] == pane@);
        } else {
            let z = if k < at {
                k
            } else {
                k - 1
            };
            assert(p[k] == panes[z]);
            assert(listed.contains(panes[z]@));
            let m = choose|m: int| 0 <= m < listed.len() && listed[m] == panes[z]@;
            assert(l[m] == p[k]@);
        }
    }
}

/// A command without its line ending.
pub open spec fn stripped(command: Seq<char>) -> Seq<char> {
    if command.len() > 0 && command.last() == '\n' {
        command.drop_last()
    } else {
        command
    }
}

/// A command that may stand in a list of commands.
pub open spec fn valid_command(command: Seq<char>) -> bool {
    &&& command.len() > 0
    &&& utf8_len(command) <= 4096
    &&& !command.contains('\n')
    &&& !command.contains('\r')
    &&& !command.contains('\0')
}

/// The commands, one behind the other.
pub open spec fn joined(commands: Seq<Seq<char>>) -> Seq<char>
    decreases commands.len(),
{
    if commands.len() == 0 {
        seq![]
    } else if commands.len() == 1 {
        stripped(commands[0])
    } else {
        joined(commands.drop_last()) + " ; "@ + stripped(commands.last())
    }
}

pub open spec fn all_valid(commands: Seq<Seq<char>>) -> bool {
    forall|i: int| 0 <= i < commands.len() ==> valid_command(stripped(#[trigger] commands[i]))
}

/// What is written for a list of commands, or why nothing is.
pub open spec fn wire_text(commands: Seq<Seq<char>>) -> Result<Seq<char>, Error> {
    if commands.len() == 0 || commands.len() > MAX_COMMANDS {
        Err(Error::CommandCount)
    } else if !all_valid(commands) {
        Err(Error::Command)
    } else if utf8_len(joined(commands)) >= 65536 {
        Err(Error::BatchTooLarge)
    } else {
        Ok(joined(commands).push('\n'))
    }
}

/// One newline-terminated list of commands.
pub fn batch_wire(commands: &[String]) -> (r: Result<String, Error>)
    ensures
        match wire_text(texts(commands@)) {
            Ok(wire) => r matches Ok(text) && text@ == wire,
            Err(error) => r == Err::<String, Error>(error),
        },
{
    if commands.len() == 0 || commands.len() > MAX_COMMANDS {
        return Err(Error::CommandCount);
    }
    let ghost all = texts(commands@);
    let mut wire = String::new();
    let mut i: usize = 0;
    while i < commands.len()
        invariant
            i <= commands@.len(),
            0 < commands@.len() <= MAX_COMMANDS,
            all == texts(commands@),
            wire@ == joined(all.take(i as int)),
            all_valid(all.take(i as int)),
        decreases commands@.len() - i,
    {
        let chars = chars_of(commands[i].as_str());
        assert(all[i as int] == chars@);
        let end: usize = if chars.len() > 0 && chars[chars.len() - 1] == '\n' {
            chars.len() - 1
        } else {
            chars.len()
        };
        let body = vstd::slice::slice_subrange(chars.as_slice(), 0, end);
        assert(body@ =~= stripped(all[i as int]));
        let text = string_of(body);
        if body.len() == 0 || byte_len(text.as_str()) > 4096 || crate::text::contains_char(
            body,
            '\n',
        ) || crate::text::contains_char(body, '\r') || crate::text::contains_char(body, '\0') {
            assert(!valid_command(stripped(all[i as int])));
            return Err(Error::Command);
        }
        if i > 0 {
            wire.append(" ; ");
        }
        wire.append(text.as_str());
        i += 1;
        proof {
            let head = all.take(i as int);
            assert(head.drop_last() =~= all.take(i - 1));
            assert forall|k: int| 0 <= k < head.len() implies valid_command(
                stripped(#[trigger] head[k]),
            ) by {
                if k < i - 1 {
                    assert(head[k] == all.take(i - 1)[k]);
                }
            }
            assert(wire@ =~= joined(head));
        }
    }
    assert(all.take(i as int) =~= all);
    if byte_len(wire.as_str()) >= 65536 {
        return Err(Error::BatchTooLarge);
    }
    wire.push('\n');
    Ok(wire)
}

/// A list of valid commands is written as one line: nothing in a command ends
/// it early.
pub proof fn batches_are_one_line(commands: Seq<Seq<char>>)
    requires
        all_valid(commands),
    ensures
        !joined(commands).contains('\n'),
    decreases commands.len(),
{
    if commands.len() > 1 {
        let head = commands.drop_last();
        assert forall|i: int| 0 <= i < head.len() implies valid_command(
            stripped(#[trigger] head[i]),
        ) by {
            assert(head[i] == commands[i]);
        }
        batches_are_one_line(head);
        reveal_strlit(" ; ");
        let last = stripped(commands.last());
        assert(valid_command(stripped(commands[commands.len() - 1])));
        assert forall|i: int| 0 <= i < joined(commands).len() implies joined(commands)[i] != '\n' by {
            let a = joined(head);
            if i < a.len() {
                assert(joined(commands)[i] == a[i]);
                assert(a.contains(a[i]));
            } else if i >= a.len() + 3 {
                assert(joined(commands)[i] == last[i - a.len() - 3]);
                assert(last.contains(last[i - a.len() - 3]));
            }
        }
    } else if commands.len() == 1 {
        assert(valid_command(stripped(commands[0])));
    }
}

/// A decoded event of the control stream.
pub enum Decoded {
    Reply { id: CommandId, result: Result<Vec<String>, CommandError> },
    Notification(Notification),
}

/// A request that was written: the replies that came so far, and between which
/// replies each notification stood.
pub struct Exchange {
    ids: Vec<CommandId>,
    replies: Vec<Vec<String>>,
    notifications: Vec<(usize, Notification)>,
    total: usize,
}

/// What a request is known by.
pub struct Progress {
    pub ids: Seq<CommandId>,
    pub replies: Seq<Seq<Seq<char>>>,
    pub notifications: Seq<(usize, Notification)>,
    pub total: nat,
}

pub open spec fn reply_texts(v: Seq<Vec<String>>) -> Seq<Seq<Seq<char>>> {
    v.map_values(|lines: Vec<String>| texts(lines@))
}

impl View for Exchange {
    type V = Progress;

    closed spec fn view(&self) -> Progress {
        Progress {
            ids: self.ids@,
            replies: reply_texts(self.replies@),
            notifications: self.notifications@,
            total: self.total as nat,
        }
    }
}

/// The effect of one event. Replies come in the order of the commands, and an
/// error reply or a detach ends the request.
pub open spec fn exchanged(p: Progress, event: Decoded) -> Result<Progress, Error> {
    match event {
        Decoded::Reply { id, result } => if p.replies.len() >= p.ids.len() || p.ids[
        p.replies.len() as int] != id {
            Err(Error::UnexpectedReply)
        } else {
            match result {
                Err(_) => Err(Error::Rejected),
                Ok(lines) => Ok(Progress { replies: p.replies.push(texts(lines@)), ..p }),
            }
        },
        Decoded::Notification(Notification::Exit(_)) => Err(Error::Exited),
        Decoded::Notification(notification) => Ok(
            Progress {
                notifications: p.notifications.push((p.replies.len() as usize, notification)),
                ..p
            },
        ),
    }
}

/// What a completed request brought.
pub struct Batch {
    pub replies: Vec<Vec<String>>,
    /// The number of completed replies at the place of each notification.
    pub notifications: Vec<(usize, Notification)>,
}

impl Exchange {
    /// Count what was read for this request.
    pub fn count(&mut self, bytes: usize) -> (r: Result<(), Error>)
        ensures
            match r {
                Ok(()) => old(self)@.total + bytes <= MAX_TRANSFER && final(self)@ == (Progress {
                    total: old(self)@.total + bytes as nat,
                    ..old(self)@
                }),
                Err(error) => error == Error::TransferTooLarge && old(self)@.total + bytes
                    > MAX_TRANSFER && final(self)@ == old(self)@,
            },
    {
        if self.total > MAX_TRANSFER || bytes > MAX_TRANSFER - self.total {
            return Err(Error::TransferTooLarge);
        }
        self.total = self.total + bytes;
        Ok(())
    }

    /// Take one event.
    pub fn accept(&mut self, event: Decoded) -> (r: Result<(), Error>)
        ensures
            match exchanged(old(self)@, event) {
                Ok(next) => r is Ok && final(self)@ == next,
                Err(error) => r == Err::<(), Error>(error) && final(self)@ == old(self)@,
            },
    {
        match event {
            Decoded::Reply { id, result } => {
                if self.replies.len() >= self.ids.len() || self.ids[self.replies.len()] != id {
                    return Err(Error::UnexpectedReply);
                }
                match result {
                    Ok(lines) => {
                        let ghost before = self.replies@;
                        let ghost shown = texts(lines@);
                        self.replies.push(lines);
                        assert(reply_texts(self.replies@) =~= reply_texts(before).push(shown));
                        Ok(())
                    },
                    Err(_) => Err(Error::Rejected),
                }
            },
            Decoded::Notification(notification) => {
                if let Notification::Exit(_) = &notification {
                    return Err(Error::Exited);
                }
                let at = self.replies.len();
                self.notifications.push((at, notification));
                Ok(())
            },
        }
    }

    pub fn complete(&self) -> (r: bool)
        ensures
            r == (self@.replies.len() == self@.ids.len()),
    {
        self.replies.len() == self.ids.len()
    }

    pub fn finish(self) -> (r: Batch)
        ensures
            reply_texts(r.replies@) == self@.replies,
            r.notifications@ == self@.notifications,
    {
        Batch { replies: self.replies, notifications: self.notifications }
    }
}

/// The side of an attachment that does no input or output: the framing of its
/// control stream and what its error stream said.
pub struct Inspector {
    control: Control,
    stderr: Vec<u8>,
}

/// The ids that the next registrations give.
pub open spec fn next_ids(issued: nat, count: nat) -> Seq<CommandId> {
    Seq::new(count, |i: int| CommandId((issued + i) as u64))
}

impl Inspector {
    pub closed spec fn stream(self) -> State {
        self.control@
    }

    pub closed spec fn spec_stderr(self) -> Seq<u8> {
        self.stderr@
    }

    /// The remote command to run, and the state of its stream before it runs.
    pub fn attach(session: &SessionName, socket: Option<&str>) -> (r: Result<
        (Self, String),
        Error,
    >)
        ensures
            match r {
                Ok((inspector, command)) => {
                    &&& socket matches Some(path) ==> quotable(path@)
                    &&& command@ == attach_text(
                        session@,
                        match socket {
                            Some(path) => Some(path@),
                            None => None,
                        },
                    )
                    &&& inspector.stream() == fresh(inspector.stream().limits)
                    &&& inspector.stream().limits.line_bytes == 65536
                    &&& inspector.stream().limits.reply_bytes == 1048576
                    &&& inspector.stream().limits.reply_lines == 16384
                    &&& inspector.stream().limits.pending_commands == MAX_COMMANDS
                    &&& inspector.spec_stderr().len() == 0
                },
                Err(error) => error == Error::Socket && (socket matches Some(path)
                    && !quotable(path@)),
            },
    {
        let command = attach_command(session, socket)?;
        let limits = Limits {
            line_bytes: 65536,
            reply_bytes: 1048576,
            reply_lines: 16384,
            pending_commands: MAX_COMMANDS,
        };
        match Control::new(limits) {
            Ok(control) => Ok((Inspector { control, stderr: Vec::new() }, command)),
            Err(_) => Err(Error::Socket),
        }
    }

    /// Register every reply before anything is written. The text is written
    /// once; a partial write or a failed list is never retried.
    pub fn request_batch(&mut self, commands: &[String]) -> (r: Result<(String, Exchange), Error>)
        requires
            old(self).stream().issued + MAX_COMMANDS <= u64::MAX,
        ensures
            final(self).spec_stderr() == old(self).spec_stderr(),
            match wire_text(texts(commands@)) {
                Err(error) => r == Err::<(String, Exchange), Error>(error)
                    && final(self).stream() == old(self).stream(),
                Ok(wire) => {
                    let s = old(self).stream();
                    if s.closed {
                        r == Err::<(String, Exchange), Error>(
                            Error::Control(ControlError::Closed),
                        ) && final(self).stream() == s
                    } else if s.pending.len() + commands@.len() > s.limits.pending_commands {
                        let room = if s.pending.len() < s.limits.pending_commands {
                            (s.limits.pending_commands - s.pending.len()) as nat
                        } else {
                            0
                        };
                        &&& r == Err::<(String, Exchange), Error>(
                            Error::Control(ControlError::TooManyPendingCommands),
                        )
                        &&& final(self).stream() == (State {
                            pending: s.pending + next_ids(s.issued, room),
                            issued: s.issued + room,
                            ..s
                        })
                    } else {
                        &&& r matches Ok((text, exchange))
                        &&& text@ == wire
                        &&& exchange@ == (Progress {
                            ids: next_ids(s.issued, commands@.len()),
                            replies: seq![],
                            notifications: seq![],
                            total: 0,
                        })
                        &&& final(self).stream() == (State {
                            pending: s.pending + next_ids(s.issued, commands@.len()),
                            issued: s.issued + commands@.len(),
                            ..s
                        })
                    }
                },
            },
    {
        let wire = batch_wire(commands)?;
        let ghost s = self.stream();
        let mut ids: Vec<CommandId> = Vec::new();
        let mut i: usize = 0;
        assert(s.pending + next_ids(s.issued, 0) =~= s.pending);
        assert(ids@ =~= next_ids(s.issued, 0));
        while i < commands.len()
            invariant
                i <= commands@.len() <= MAX_COMMANDS,
                self.spec_stderr() == old(self).spec_stderr(),
                s == old(self).stream(),
                s.issued + MAX_COMMANDS <= u64::MAX,
                ids@ == next_ids(s.issued, i as nat),
                wire_text(texts(commands@)) is Ok,
                i > 0 ==> !s.closed && s.pending.len() + i <= s.limits.pending_commands,
                self.stream() == (State {
                    pending: s.pending + next_ids(s.issued, i as nat),
                    issued: s.issued + i as nat,
                    ..s
                }),
            decreases commands@.len() - i,
        {
            let id = match self.control.register_command() {
                Ok(id) => id,
                Err(error) => {
                    assert(i == 0 ==> self.stream() == s) by {
                        if i == 0 {
                            assert(s.pending + next_ids(s.issued, 0) =~= s.pending);
                        }
                    }
                    return Err(Error::Control(error));
                },
            };
            ids.push(id);
            i += 1;
            proof {
                assert(ids@ =~= next_ids(s.issued, i as nat));
                assert(self.stream().pending =~= s.pending + next_ids(s.issued, i as nat));
            }
        }
        let exchange = Exchange {
            ids,
            replies: Vec::new(),
            notifications: Vec::new(),
            total: 0,
        };
        assert(exchange@.replies =~= Seq::<Seq<Seq<char>>>::empty());
        assert(exchange@.notifications =~= Seq::<(usize, Notification)>::empty());
        Ok((wire, exchange))
    }

    /// Keep what the error stream said, up to its limit.
    pub fn read_stderr(&mut self, bytes: &[u8]) -> (r: Result<(), Error>)
        ensures
            final(self).stream() == old(self).stream(),
            match r {
                Ok(()) => old(self).spec_stderr().len() + bytes@.len() <= MAX_STDERR
                    && final(self).spec_stderr() == old(self).spec_stderr() + bytes@,
                Err(error) => error == Error::StderrTooLarge && old(self).spec_stderr().len()
                    + bytes@.len() > MAX_STDERR && final(self).spec_stderr()
                    == old(self).spec_stderr(),
            },
    {
        if self.stderr.len() > MAX_STDERR || bytes.len() > MAX_STDERR - self.stderr.len() {
            return Err(Error::StderrTooLarge);
        }
        let ghost before = self.stderr@;
        self.stderr.extend_from_slice(bytes);
        assert(self.stderr@ =~= before + bytes@);
        Ok(())
    }

    pub fn stderr(&self) -> (r: &[u8])
        ensures
            r@ == self.spec_stderr(),
    {
        self.stderr.as_slice()
    }

    /// Frame what the control stream brought.
    pub fn read_stdout(&mut self, bytes: &[u8], events: &mut Vec<Incoming>) -> (r: Result<
        (),
        Error,
    >)
        ensures
            final(self).spec_stderr() == old(self).spec_stderr(),
            ({
                let s = old(self).stream();
                let (end, brought, failure) = if s.closed {
                    (s, seq![], Some(ControlError::Closed))
                } else {
                    on_bytes(s, bytes@)
                };
                &&& final(self).stream() == end
                &&& events_of(final(events)@) == events_of(old(events)@) + brought
                &&& r == match failure {
                    Some(error) => Err::<(), Error>(Error::Control(error)),
                    None => Ok(()),
                }
            }),
    {
        match self.control.feed(bytes, events) {
            Ok(()) => Ok(()),
            Err(error) => Err(Error::Control(error)),
        }
    }

    /// Close the stream for good.
    pub fn abort(&mut self)
        ensures
            final(self).stream() == if old(self).stream().closed {
                old(self).stream()
            } else {
                closed_state(old(self).stream())
            },
            final(self).spec_stderr() == old(self).spec_stderr(),
    {
        let mut events: Vec<Incoming> = Vec::new();
        let _ = self.control.finish(&mut events);
    }
}

/// A line that tmux could not have written in control mode.
pub open spec fn foreign_output(notification: Notification) -> bool {
    notification matches Notification::Unknown(text) && !"%"@.is_prefix_of(text@)
}

pub fn check_stdout(notification: &Notification) -> (r: Result<(), Error>)
    ensures
        r == if foreign_output(*notification) {
            Err::<(), Error>(Error::Stdout)
        } else {
            Ok(())
        },
{
    if let Notification::Unknown(text) = notification {
        let chars = chars_of(text.as_str());
        if !starts_with(chars.as_slice(), "%") {
            return Err(Error::Stdout);
        }
    }
    Ok(())
}

/// Outside of a request only notifications are expected.
pub fn idle_event(event: Decoded) -> (r: Result<Notification, Error>)
    ensures
        r == match event {
            Decoded::Notification(notification) => Ok::<Notification, Error>(notification),
            Decoded::Reply { .. } => Err(Error::UnsolicitedReply),
        },
{
    match event {
        Decoded::Notification(notification) => Ok(notification),
        Decoded::Reply { .. } => Err(Error::UnsolicitedReply),
    }
}

/// The bytes of all lines together.
pub open spec fn row_bytes(rows: Seq<Seq<char>>) -> nat
    decreases rows.len(),
{
    if rows.len() == 0 {
        0
    } else {
        row_bytes(rows.drop_last()) + utf8_len(rows.last())
    }
}

/// Count a capture against the budget of an observation.
pub fn count_capture(total: usize, captured: &[String]) -> (r: Option<usize>)
    ensures
        match r {
            Some(n) => n == total + row_bytes(texts(captured@)) && (captured@.len() > 0 ==> n
                <= MAX_TRANSFER),
            None => total + row_bytes(texts(captured@)) > MAX_TRANSFER,
        },
{
    let ghost all = texts(captured@);
    let mut sum: usize = total;
    let mut i: usize = 0;
    while i < captured.len()
        invariant
            i <= captured@.len(),
            all == texts(captured@),
            sum == total + row_bytes(all.take(i as int)),
            i > 0 ==> sum <= MAX_TRANSFER,
        decreases captured@.len() - i,
    {
        proof {
            assert(all.take(i + 1).drop_last() =~= all.take(i as int));
            assert(all.take(i + 1).last() == captured@[i as int]@);
            row_bytes_grow(all, i + 1);
        }
        let more = byte_len(captured[i].as_str());
        if sum > MAX_TRANSFER || more > MAX_TRANSFER - sum {
            return None;
        }
        sum = sum + more;
        i += 1;
    }
    assert(all.take(i as int) =~= all);
    Some(sum)
}

proof fn row_bytes_grow(rows: Seq<Seq<char>>, n: int)
    requires
        0 <= n <= rows.len(),
    ensures
        row_bytes(rows.take(n)) <= row_bytes(rows),
    decreases rows.len() - n,
{
    if n == rows.len() {
        assert(rows.take(n) =~= rows);
    } else {
        row_bytes_grow(rows, n + 1);
        assert(rows.take(n + 1).drop_last() =~= rows.take(n));
    }
}

/// The command that captures one pane for an observation.
pub fn capture_command(pane: PaneId, history_lines: usize) -> (r: Result<String, Error>)
    ensures
        match r {
            Ok(text) => history_lines <= MAX_HISTORY_LINES && text@ == capture_text(
                pane,
                history_lines as nat,
            ),
            Err(error) => error == Error::History && history_lines > MAX_HISTORY_LINES,
        },
{
    if history_lines > MAX_HISTORY_LINES {
        return Err(Error::History);
    }
    let mut text = String::new();
    text.append("capture-pane -p -C -t ");
    text.push('%');
    push_decimal(&mut text, pane.0 as u64);
    assert(text@ =~= "capture-pane -p -C -t "@ + crate::command::pane_text(pane));
    text.append(" -S -");
    push_decimal(&mut text, history_lines as u64);
    text.append(" -E -\n");
    Ok(text)
}

/// Whether the listing of the panes changed between two requests.
pub fn panes_changed(before: &[Pane], after: &[Pane]) -> (r: bool)
    ensures
        r == (listed_panes(before@) != listed_panes(after@)),
{
    if before.len() != after.len() {
        assert(listed_panes(before@).len() != listed_panes(after@).len());
        return true;
    }
    let mut i: usize = 0;
    while i < before.len()
        invariant
            i <= before@.len(),
            before@.len() == after@.len(),
            forall|k: int| 0 <= k < i ==> (#[trigger] before@[k])@ == after@[k]@,
        decreases before@.len() - i,
    {
        let a = before[i];
        let b = after[i];
        if a.id != b.id || a.window != b.window || a.size.columns() != b.size.columns()
            || a.size.rows() != b.size.rows() || a.left != b.left || a.top != b.top || a.cursor_x
            != b.cursor_x || a.cursor_y != b.cursor_y || a.alternate_screen != b.alternate_screen
            || a.history_size != b.history_size || a.history_limit != b.history_limit {
            assert(listed_panes(before@)[i as int] != listed_panes(after@)[i as int]);
            return true;
        }
        i += 1;
    }
    assert(listed_panes(before@) =~= listed_panes(after@));
    false
}

/// What the bytes of a request that were written came to: how many of them went
/// out, or nothing where the channel has to be waited for.
pub fn sent(outcome: Io) -> (r: Result<Option<usize>, Error>)
    ensures
        r == match outcome {
            Io::Count(count) => if count == 0 {
                Err::<Option<usize>, Error>(Error::Closed)
            } else {
                Ok(Some(count))
            },
            Io::WouldBlock => Ok(None),
            Io::Interrupted => Ok(Some(0)),
            Io::Failed(_) => Err(Error::Write),
        },
{
    match outcome {
        Io::Count(count) => if count == 0 {
            Err(Error::Closed)
        } else {
            Ok(Some(count))
        },
        Io::WouldBlock => Ok(None),
        Io::Interrupted => Ok(Some(0)),
        Io::Failed(_) => Err(Error::Write),
    }
}

/// Whether a read is over: it brought bytes. Without any the channel is waited
/// for, unless it has ended.
pub fn brought(bytes: usize, ended: bool) -> (r: Result<bool, Error>)
    ensures
        r == if bytes != 0 {
            Ok::<bool, Error>(true)
        } else if ended {
            Err(Error::Ended)
        } else {
            Ok(false)
        },
{
    if bytes != 0 {
        Ok(true)
    } else if ended {
        Err(Error::Ended)
    } else {
        Ok(false)
    }
}

/// The rows that were captured of a pane, still escaped.
#[derive(Debug)]
pub struct Capture {
    pub pane: Pane,
    pub escaped_rows: Vec<String>,
}

/// What a series of read-only requests saw. It is no atomic snapshot.
#[derive(Debug)]
pub struct Observation {
    pub tmux_version: String,
    pub session: SessionId,
    pub fingerprint: String,
    pub captures: Vec<Capture>,
    pub metadata_changed_during_capture: bool,
}

/// The request whose reply an observation waits for.
#[derive(Clone, Copy, Debug, PartialEq, Eq, Structural)]
pub enum Sight {
    Info,
    Before,
    Captures,
    After,
}

/// An observation between two of its requests.
#[derive(Debug)]
pub struct Observer {
    pub history: usize,
    pub sight: Sight,
    pub version: String,
    pub session: SessionId,
    pub before: Vec<Pane>,
    pub captures: Vec<Capture>,
    pub total: usize,
}

/// What an observation does next.
#[derive(Debug)]
pub enum Look {
    Ask(Observer, String),
    Done(Observation),
}

/// The bytes of all captures together.
pub open spec fn capture_bytes(captures: Seq<Capture>) -> nat
    decreases captures.len(),
{
    if captures.len() == 0 {
        0
    } else {
        capture_bytes(captures.drop_last()) + row_bytes(texts(captures.last().escaped_rows@))
    }
}

pub open spec fn capture_text(pane: PaneId, history: nat) -> Seq<char> {
    "capture-pane -p -C -t "@ + crate::command::pane_text(pane) + " -S -"@ + decimal(history)
        + " -E -\n"@
}

impl Observer {
    /// Captures are those of the first panes, in their order, and stay within
    /// what may be transferred.
    pub open spec fn wf(self) -> bool {
        &&& self.history <= MAX_HISTORY_LINES
        &&& self.captures@.len() <= self.before@.len()
        &&& (self.sight == Sight::Captures ==> self.captures@.len() < self.before@.len())
        &&& (self.sight == Sight::After ==> self.captures@.len() == self.before@.len())
        &&& forall|i: int|
            0 <= i < self.captures@.len() ==> (#[trigger] self.captures@[i]).pane == self.before@[i]
        &&& self.total == capture_bytes(self.captures@)
        &&& self.total <= MAX_TRANSFER
    }

    /// Begin an observation with the request for the own client's metadata.
    pub fn begin(history_lines: usize) -> (r: Result<(Self, String), Error>)
        ensures
            match r {
                Ok((observer, command)) => {
                    &&& history_lines <= MAX_HISTORY_LINES
                    &&& command@ == INFO_COMMAND@
                    &&& observer.wf()
                    &&& observer.sight == Sight::Info
                    &&& observer.history == history_lines
                    &&& observer.before@.len() == 0
                },
                Err(error) => error == Error::History && history_lines > MAX_HISTORY_LINES,
            },
    {
        if history_lines > MAX_HISTORY_LINES {
            return Err(Error::History);
        }
        let observer = Observer {
            history: history_lines,
            sight: Sight::Info,
            version: String::new(),
            session: SessionId(0),
            before: Vec::new(),
            captures: Vec::new(),
            total: 0,
        };
        Ok((observer, INFO_COMMAND.to_owned()))
    }

    /// Take the reply to the last request. Every pane of the first listing is
    /// captured once, in the order of the numbers; then the panes are listed
    /// again.
    pub fn answer(self, lines: Vec<String>, fingerprint: &str) -> (r: Result<Look, Error>)
        requires
            self.wf(),
        ensures
            r matches Ok(Look::Ask(next, _)) ==> next.wf() && next.history == self.history,
            match self.sight {
                Sight::Info => match read_info(texts(lines@)) {
                    Err(error) => r == Err::<Look, Error>(error),
                    Ok((version, session)) => r matches Ok(Look::Ask(next, command)) && command@
                        == PANES_COMMAND@ && next.sight == Sight::Before && next.version@ == version
                        && next.session.0 == session,
                },
                Sight::Before => match read_listing(texts(lines@)) {
                    Err(error) => r == Err::<Look, Error>(error),
                    Ok(listed) => r matches Ok(Look::Ask(next, command)) && next.sight
                        == Sight::Captures && lists(next.before@, listed) && next.captures@.len()
                        == 0 && next.version == self.version && next.session == self.session
                        && command@ == capture_text(next.before@[0].id, self.history as nat),
                },
                Sight::Captures => if self.total + row_bytes(texts(lines@)) > MAX_TRANSFER {
                    r == Err::<Look, Error>(Error::TransferTooLarge)
                } else {
                    &&& r matches Ok(Look::Ask(next, command))
                    &&& next.before == self.before
                    &&& next.version == self.version
                    &&& next.session == self.session
                    &&& next.captures@ == self.captures@.push(
                        (Capture {
                            pane: self.before@[self.captures@.len() as int],
                            escaped_rows: lines,
                        }),
                    )
                    &&& if next.captures@.len() < self.before@.len() {
                        next.sight == Sight::Captures && command@ == capture_text(
                            self.before@[next.captures@.len() as int].id,
                            self.history as nat,
                        )
                    } else {
                        next.sight == Sight::After && command@ == PANES_COMMAND@
                    }
                },
                Sight::After => match read_listing(texts(lines@)) {
                    Err(error) => r == Err::<Look, Error>(error),
                    Ok(listed) => {
                        &&& r matches Ok(Look::Done(seen))
                        &&& seen.tmux_version == self.version
                        &&& seen.session == self.session
                        &&& seen.fingerprint@ == fingerprint@
                        &&& seen.captures == self.captures
                        &&& exists|after: Seq<Pane>|
                            #![trigger lists(after, listed)]
                            lists(after, listed) && seen.metadata_changed_during_capture == (
                            listed_panes(self.before@) != listed_panes(after))
                    },
                },
            },
    {
        match self.sight {
            Sight::Info => {
                let (version, session) = parse_info(lines.as_slice())?;
                let next = Observer { sight: Sight::Before, version, session, before: Vec::new(), captures: Vec::new(), total: 0, history: self.history };
                Ok(Look::Ask(next, PANES_COMMAND.to_owned()))
            },
            Sight::Before => {
                let before = parse_panes(lines.as_slice())?;
                let command = capture_command(before[0].id, self.history)?;
                let next = Observer { sight: Sight::Captures, before, captures: Vec::new(), total: 0, history: self.history, version: self.version, session: self.session };
                Ok(Look::Ask(next, command))
            },
            Sight::Captures => {
                let total = match count_capture(self.total, lines.as_slice()) {
                    Some(total) => total,
                    None => return Err(Error::TransferTooLarge),
                };
                let mut captures = self.captures;
                let pane = self.before[captures.len()];
                captures.push(Capture { pane, escaped_rows: lines });
                proof {
                    assert(captures@.drop_last() =~= self.captures@);
                    assert(texts(lines@).len() == 0 ==> row_bytes(texts(lines@)) == 0);
                }
                let more = captures.len() < self.before.len();
                let command = if more {
                    capture_command(self.before[captures.len()].id, self.history)?
                } else {
                    PANES_COMMAND.to_owned()
                };
                let sight = if more {
                    Sight::Captures
                } else {
                    Sight::After
                };
                let next = Observer { sight, captures, total, history: self.history, version: self.version, session: self.session, before: self.before };
                Ok(Look::Ask(next, command))
            },
            Sight::After => {
                let after = parse_panes(lines.as_slice())?;
                let changed = panes_changed(self.before.as_slice(), after.as_slice());
                let ghost shown = after@;
                proof {
                    assert(lists(shown, read_listing(texts(lines@))->Ok_0));
                }
                Ok(Look::Done(Observation {
                    tmux_version: self.version,
                    session: self.session,
                    fingerprint: fingerprint.to_owned(),
                    captures: self.captures,
                    metadata_changed_during_capture: changed,
                }))
            },
        }
    }
}

} // verus!
