//! Saved connection tabs, none of them secret.
//!
//! The file records where to connect and how, never anything that would let its
//! reader connect: no keys, passphrases, agent handles, host-key material or
//! terminal contents. A session name is a hint for a form. The format is a few
//! bounded lines: reading them runs nothing, and every limit stands here.
use vstd::prelude::*;
use vstd::string::*;

use crate::snapshot::MAX_HISTORY_LINES;
use crate::ssh_config::{join_path, joined_path};
use crate::text::{
    any_control, byte_len, chars_of, debug_quoted, decimal, decimal_reads_back, digit_char,
    find_char, first_index, first_index_unique, has_control, is_less, is_text, joined, joined_push,
    lines, lines_read_back, number, number_error_text, numbers_have_no_fault, parse_number,
    plain_line, push_decimal, put_line, quote_debug, read_number, rows, same, split_lines,
    string_of, text_less, trim_both, trim_end, trim_end_concat, trim_end_facts, trim_keeps,
    trim_start, trimmed, trimmed_start, trimming_keeps_uncontrolled, trims_commute, utf8_len,
    utf8_len_ascii, utf8_len_concat, white_char, NumberError,
};

verus! {

/// A file that has grown beyond anything that is written here is refused.
pub const MAX_BYTES: usize = 65_536;

pub const MAX_VALUE: usize = 4096;

/// A key, a space and the longest value.
pub const MAX_LINE: usize = 4224;

pub const MAX_TABS: usize = 16;

pub const DEFAULT_FPS: u32 = 5;

pub const MAX_FPS: u32 = 60;

/// Seconds for which a healthy tab may sit without a change before it is marked
/// idle; 0 disables the hint.
pub const DEFAULT_IDLE: u32 = 30;

pub const MAX_IDLE: u32 = 3600;

pub const DEFAULT_HISTORY: usize = 1000;

/// The most seconds that the program is believed to have been open.
pub const MAX_OPEN_SECS: u64 = 3_153_600_000;

/// The redraw cap in effect. 0 means the default, not that nothing is painted.
pub open spec fn fps_in_effect(fps: nat) -> nat {
    if fps == 0 {
        DEFAULT_FPS as nat
    } else if fps > MAX_FPS {
        MAX_FPS as nat
    } else {
        fps
    }
}

pub fn clamp_fps(fps: u32) -> (r: u32)
    ensures
        r == fps_in_effect(fps as nat),
        1 <= r <= MAX_FPS,
{
    if fps == 0 {
        DEFAULT_FPS
    } else if fps > MAX_FPS {
        MAX_FPS
    } else {
        fps
    }
}

/// One saved tab. Every field is a destination or a preference, and none is a
/// credential: paths name a file, never its contents.
#[derive(Debug, PartialEq, Eq)]
pub struct Tab {
    pub destination: String,
    pub host: String,
    pub user: String,
    /// The session that the tab was last attached to, as a hint for its form.
    pub session: String,
    pub port: u16,
    pub identity: String,
    pub known_hosts: String,
    pub socket: String,
    pub history: usize,
    pub interactive: bool,
    pub reconnect: bool,
}

/// The contents of a tab.
pub struct TabFacts {
    pub destination: Seq<char>,
    pub host: Seq<char>,
    pub user: Seq<char>,
    pub session: Seq<char>,
    pub port: nat,
    pub identity: Seq<char>,
    pub known_hosts: Seq<char>,
    pub socket: Seq<char>,
    pub history: nat,
    pub interactive: bool,
    pub reconnect: bool,
}

impl View for Tab {
    type V = TabFacts;

    open spec fn view(&self) -> TabFacts {
        TabFacts {
            destination: self.destination@,
            host: self.host@,
            user: self.user@,
            session: self.session@,
            port: self.port as nat,
            identity: self.identity@,
            known_hosts: self.known_hosts@,
            socket: self.socket@,
            history: self.history as nat,
            interactive: self.interactive,
            reconnect: self.reconnect,
        }
    }
}

impl Default for Tab {
    fn default() -> (r: Self)
        ensures
            r@ == (TabFacts {
                destination: seq![],
                host: seq![],
                user: seq![],
                session: seq![],
                port: 0,
                identity: seq![],
                known_hosts: seq![],
                socket: seq![],
                history: 0,
                interactive: false,
                reconnect: false,
            }),
    {
        Tab {
            destination: String::new(),
            host: String::new(),
            user: String::new(),
            session: String::new(),
            port: 0,
            identity: String::new(),
            known_hosts: String::new(),
            socket: String::new(),
            history: 0,
            interactive: false,
            reconnect: false,
        }
    }
}

#[derive(Debug, PartialEq, Eq)]
pub struct Workspace {
    pub tabs: Vec<Tab>,
    pub active: usize,
    pub restore_tabs: bool,
    pub fps: u32,
    pub idle: u32,
    pub open_secs: u64,
}

/// The contents of a workspace.
pub struct Saved {
    pub tabs: Seq<TabFacts>,
    pub active: nat,
    pub restore_tabs: bool,
    pub fps: nat,
    pub idle: nat,
    pub open_secs: nat,
}

pub open spec fn tab_facts(tabs: Seq<Tab>) -> Seq<TabFacts> {
    tabs.map_values(|tab: Tab| tab@)
}

impl View for Workspace {
    type V = Saved;

    open spec fn view(&self) -> Saved {
        Saved {
            tabs: tab_facts(self.tabs@),
            active: self.active as nat,
            restore_tabs: self.restore_tabs,
            fps: self.fps as nat,
            idle: self.idle as nat,
            open_secs: self.open_secs as nat,
        }
    }
}

/// The workspace of a first run.
pub open spec fn nothing_saved() -> Saved {
    Saved {
        tabs: seq![],
        active: 0,
        restore_tabs: true,
        fps: DEFAULT_FPS as nat,
        idle: DEFAULT_IDLE as nat,
        open_secs: 0,
    }
}

impl Default for Workspace {
    fn default() -> (r: Self)
        ensures
            r@ == nothing_saved(),
    {
        let r = Workspace {
            tabs: Vec::new(),
            active: 0,
            restore_tabs: true,
            fps: DEFAULT_FPS,
            idle: DEFAULT_IDLE,
            open_secs: 0,
        };
        proof {
            assert(tab_facts(r.tabs@) =~= Seq::<TabFacts>::empty());
        }
        r
    }
}

/// Where the file stands: below the configuration directory of the session,
/// where that is an absolute path, or below `.config` in the home directory.
pub open spec fn file_path(config: Option<Seq<char>>, home: Seq<char>) -> Seq<char> {
    let base = match config {
        Some(path) => if path.len() > 0 && path[0] == '/' {
            path
        } else {
            join_path(home, ".config"@)
        },
        None => join_path(home, ".config"@),
    };
    join_path(join_path(base, "starcom"@), "workspace.conf"@)
}

pub fn path(config: Option<&str>, home: &str) -> (r: String)
    ensures
        r@ == file_path(
            match config {
                Some(path) => Some(path@),
                None => None,
            },
            home@,
        ),
{
    let fallback = chars_of(".config");
    let base = match config {
        Some(path) => {
            let chars = chars_of(path);
            if chars.len() > 0 && chars[0] == '/' {
                path.to_owned()
            } else {
                joined_path(home, fallback.as_slice())
            }
        },
        None => joined_path(home, fallback.as_slice()),
    };
    let directory = joined_path(base.as_str(), chars_of("starcom").as_slice());
    joined_path(directory.as_str(), chars_of("workspace.conf").as_slice())
}

/// Why a file is not read.
#[derive(Clone, Copy, Debug, PartialEq, Eq, Structural)]
pub enum Fault {
    TooLarge,
    LineTooLong,
    TooManyTabs,
    ValueTooLong,
    Control,
    /// With the key.
    Duplicate,
    Number(NumberError),
    /// With the value.
    RestoreTabs,
    Fps,
    Idle,
    Open,
    /// With the value.
    Version,
    /// With the key.
    Unexpected,
    /// With the key.
    UnknownKey,
    History(NumberError),
    HistoryLimit,
    Port(NumberError),
    /// With the value.
    Flag(Key),
}

/// A fault, the line at which it was found (0 at the end of the file or for the
/// file as a whole), and the key or value that it is about.
#[derive(Debug, PartialEq, Eq)]
pub struct Error {
    pub line: usize,
    pub fault: Fault,
    pub subject: String,
}

/// The contents of an error.
pub struct Failure {
    pub line: nat,
    pub fault: Fault,
    pub subject: Seq<char>,
}

impl View for Error {
    type V = Failure;

    open spec fn view(&self) -> Failure {
        Failure { line: self.line as nat, fault: self.fault, subject: self.subject@ }
    }
}

/// What is said of a fault, with the key or value that it is about.
pub open spec fn fault_text(fault: Fault, subject: Seq<char>) -> Seq<char> {
    match fault {
        Fault::TooLarge => "saved workspace exceeds 65536 bytes"@,
        Fault::LineTooLong => "line too long"@,
        Fault::TooManyTabs => "saved workspace holds more than 16 tabs"@,
        Fault::ValueTooLong => "value too long"@,
        Fault::Control => "control character in value"@,
        Fault::Duplicate => "duplicate key "@ + subject,
        Fault::Number(error) => number_error_text(error),
        Fault::RestoreTabs => "invalid restore-tabs value "@ + debug_quoted(subject),
        Fault::Fps => "fps must be at most 60"@,
        Fault::Idle => "idle must be at most 3600 seconds"@,
        Fault::Open => "open time exceeds 3153600000 seconds"@,
        Fault::Version => "unsupported saved-workspace version "@ + subject,
        Fault::Unexpected => "unexpected key "@ + subject + " before any [tab]"@,
        Fault::UnknownKey => "unknown key "@ + subject,
        Fault::History(error) => "invalid history: "@ + number_error_text(error),
        Fault::HistoryLimit => "history exceeds 1000 lines"@,
        Fault::Port(error) => "invalid port: "@ + number_error_text(error),
        Fault::Flag(key) => "invalid "@ + key_name(key) + " value "@ + debug_quoted(subject),
    }
}

pub open spec fn failure_text(failure: Failure) -> Seq<char> {
    (if failure.line > 0 {
        "line "@ + decimal(failure.line) + ": "@
    } else {
        seq![]
    }) + fault_text(failure.fault, failure.subject)
}

impl Fault {
    pub fn text(self, subject: &str) -> (r: String)
        ensures
            r@ == fault_text(self, subject@),
    {
        let mut out = String::new();
        let (front, middle, back): (&str, String, &str) = match self {
            Fault::TooLarge => ("saved workspace exceeds 65536 bytes", String::new(), ""),
            Fault::LineTooLong => ("line too long", String::new(), ""),
            Fault::TooManyTabs => ("saved workspace holds more than 16 tabs", String::new(), ""),
            Fault::ValueTooLong => ("value too long", String::new(), ""),
            Fault::Control => ("control character in value", String::new(), ""),
            Fault::Duplicate => ("duplicate key ", subject.to_owned(), ""),
            Fault::Number(error) => (error.message(), String::new(), ""),
            Fault::RestoreTabs => ("invalid restore-tabs value ", quote_debug(subject), ""),
            Fault::Fps => ("fps must be at most 60", String::new(), ""),
            Fault::Idle => ("idle must be at most 3600 seconds", String::new(), ""),
            Fault::Open => ("open time exceeds 3153600000 seconds", String::new(), ""),
            Fault::Version => ("unsupported saved-workspace version ", subject.to_owned(), ""),
            Fault::Unexpected => ("unexpected key ", subject.to_owned(), " before any [tab]"),
            Fault::UnknownKey => ("unknown key ", subject.to_owned(), ""),
            Fault::History(error) => ("invalid history: ", error.message().to_owned(), ""),
            Fault::HistoryLimit => ("history exceeds 1000 lines", String::new(), ""),
            Fault::Port(error) => ("invalid port: ", error.message().to_owned(), ""),
            Fault::Flag(key) => {
                let mut shown = key.name().to_owned();
                shown.append(" value ");
                shown.append(quote_debug(subject).as_str());
                ("invalid ", shown, "")
            },
        };
        out.append(front);
        out.append(middle.as_str());
        out.append(back);
        proof {
            reveal_strlit("");
            assert(out@ =~= fault_text(self, subject@));
        }
        out
    }
}

impl Error {
    pub fn message(&self) -> (r: String)
        ensures
            r@ == failure_text(self@),
    {
        let mut out = String::new();
        if self.line > 0 {
            out.append("line ");
            push_decimal(&mut out, self.line as u64);
            out.append(": ");
        }
        out.append(self.fault.text(self.subject.as_str()).as_str());
        out
    }
}

/// The settings of a tab that may stand in the file.
#[derive(Clone, Copy, Debug, PartialEq, Eq, Structural)]
pub enum Key {
    Destination,
    Host,
    User,
    Session,
    Port,
    Identity,
    KnownHosts,
    Socket,
    History,
    Access,
    Reconnect,
}

pub open spec fn key_name(key: Key) -> Seq<char> {
    match key {
        Key::Destination => "destination"@,
        Key::Host => "host"@,
        Key::User => "user"@,
        Key::Session => "session"@,
        Key::Port => "port"@,
        Key::Identity => "identity"@,
        Key::KnownHosts => "known-hosts"@,
        Key::Socket => "socket"@,
        Key::History => "history"@,
        Key::Access => "access"@,
        Key::Reconnect => "reconnect"@,
    }
}

impl Key {
    fn name(self) -> (r: &'static str)
        ensures
            r@ == key_name(self),
    {
        match self {
            Key::Destination => "destination",
            Key::Host => "host",
            Key::User => "user",
            Key::Session => "session",
            Key::Port => "port",
            Key::Identity => "identity",
            Key::KnownHosts => "known-hosts",
            Key::Socket => "socket",
            Key::History => "history",
            Key::Access => "access",
            Key::Reconnect => "reconnect",
        }
    }
}

pub open spec fn known_key(name: Seq<char>) -> bool {
    exists|key: Key| #[trigger] key_name(key) == name
}

/// A setting of a tab as it was read.
pub struct Field {
    pub key: Vec<char>,
    pub value: Vec<char>,
}

pub open spec fn pairs(fields: Seq<Field>) -> Seq<(Seq<char>, Seq<char>)> {
    fields.map_values(|field: Field| (field.key@, field.value@))
}

/// The value of a key among the settings of a tab.
pub open spec fn lookup(fields: Seq<(Seq<char>, Seq<char>)>, key: Seq<char>) -> Option<Seq<char>>
    decreases fields.len(),
{
    if fields.len() == 0 {
        None
    } else {
        match lookup(fields.drop_last(), key) {
            Some(value) => Some(value),
            None => if fields.last().0 == key {
                Some(fields.last().1)
            } else {
                None
            },
        }
    }
}

/// The least of the keys that are not known, which is the one that is reported.
pub open spec fn least_unknown(fields: Seq<(Seq<char>, Seq<char>)>) -> Option<Seq<char>>
    decreases fields.len(),
{
    if fields.len() == 0 {
        None
    } else {
        let key = fields.last().0;
        match least_unknown(fields.drop_last()) {
            Some(other) => if !known_key(key) && text_less(key, other) {
                Some(key)
            } else {
                Some(other)
            },
            None => if known_key(key) {
                None
            } else {
                Some(key)
            },
        }
    }
}

pub open spec fn text_of(fields: Seq<(Seq<char>, Seq<char>)>, key: Key) -> Seq<char> {
    match lookup(fields, key_name(key)) {
        Some(value) => value,
        None => seq![],
    }
}

/// A number of a tab: the default where it is not set, or why it is no number in
/// range.
pub open spec fn number_of(
    fields: Seq<(Seq<char>, Seq<char>)>,
    key: Key,
    max: nat,
    default: nat,
) -> Result<nat, NumberError> {
    match lookup(fields, key_name(key)) {
        Some(value) => read_number(value, max),
        None => Ok(default),
    }
}

/// A switch of a tab: off where it is not set, `None` where it is neither word.
pub open spec fn flag_of(
    fields: Seq<(Seq<char>, Seq<char>)>,
    key: Key,
    on: Seq<char>,
    off: Seq<char>,
) -> Option<bool> {
    match lookup(fields, key_name(key)) {
        None => Some(false),
        Some(value) => if value == on {
            Some(true)
        } else if value == off {
            Some(false)
        } else {
            None
        },
    }
}

/// The tab that settings describe. Unknown keys are refused, not ignored: a newer
/// program may mean something by them.
pub open spec fn tab_of(fields: Seq<(Seq<char>, Seq<char>)>) -> Result<TabFacts, (Fault, Seq<char>)> {
    let history = number_of(fields, Key::History, usize::MAX as nat, DEFAULT_HISTORY as nat);
    let port = number_of(fields, Key::Port, u16::MAX as nat, 22);
    let interactive = flag_of(fields, Key::Access, "interactive"@, "read-only"@);
    let reconnect = flag_of(fields, Key::Reconnect, "yes"@, "no"@);
    if least_unknown(fields) is Some {
        Err((Fault::UnknownKey, least_unknown(fields)->0))
    } else if history is Err {
        Err((Fault::History(history->Err_0), seq![]))
    } else if history->Ok_0 > MAX_HISTORY_LINES {
        Err((Fault::HistoryLimit, seq![]))
    } else if port is Err {
        Err((Fault::Port(port->Err_0), seq![]))
    } else if interactive is None {
        Err((Fault::Flag(Key::Access), text_of(fields, Key::Access)))
    } else if reconnect is None {
        Err((Fault::Flag(Key::Reconnect), text_of(fields, Key::Reconnect)))
    } else {
        Ok(
            TabFacts {
                destination: text_of(fields, Key::Destination),
                host: text_of(fields, Key::Host),
                user: text_of(fields, Key::User),
                session: text_of(fields, Key::Session),
                port: port->Ok_0,
                identity: text_of(fields, Key::Identity),
                known_hosts: text_of(fields, Key::KnownHosts),
                socket: text_of(fields, Key::Socket),
                history: history->Ok_0,
                interactive: interactive->0,
                reconnect: reconnect->0,
            },
        )
    }
}

/// What was read so far, and the settings of the tab that is being read.
pub struct Draft {
    pub saved: Saved,
    pub fields: Option<Seq<(Seq<char>, Seq<char>)>>,
}

pub open spec fn failed(line: nat, fault: Fault, subject: Seq<char>) -> Result<Draft, Failure> {
    Err(Failure { line, fault, subject })
}

/// The tab whose settings end here.
pub open spec fn closed_tab(d: Draft, line: nat) -> Result<Draft, Failure> {
    match d.fields {
        None => Ok(d),
        Some(fields) => match tab_of(fields) {
            Err((fault, subject)) => failed(line, fault, subject),
            Ok(tab) => Ok(
                Draft { saved: Saved { tabs: d.saved.tabs.push(tab), ..d.saved }, fields: None },
            ),
        },
    }
}

pub open spec fn opened_tab(d: Draft, line: nat) -> Result<Draft, Failure> {
    if d.saved.tabs.len() >= MAX_TABS {
        failed(0, Fault::TooManyTabs, seq![])
    } else {
        match closed_tab(d, line) {
            Err(failure) => Err(failure),
            Ok(closed) => Ok(Draft { fields: Some(seq![]), ..closed }),
        }
    }
}

/// A setting of the file as a whole, which stands before the first tab.
pub open spec fn file_setting(d: Draft, key: Seq<char>, value: Seq<char>, line: nat) -> Result<
    Draft,
    Failure,
> {
    if key == "active"@ {
        match read_number(value, usize::MAX as nat) {
            Err(error) => failed(line, Fault::Number(error), seq![]),
            Ok(active) => Ok(Draft { saved: Saved { active, ..d.saved }, ..d }),
        }
    } else if key == "restore-tabs"@ {
        if value == "yes"@ {
            Ok(Draft { saved: Saved { restore_tabs: true, ..d.saved }, ..d })
        } else if value == "no"@ {
            Ok(Draft { saved: Saved { restore_tabs: false, ..d.saved }, ..d })
        } else {
            failed(line, Fault::RestoreTabs, value)
        }
    } else if key == "fps"@ {
        match read_number(value, u32::MAX as nat) {
            Err(error) => failed(line, Fault::Number(error), seq![]),
            Ok(fps) => if fps > MAX_FPS {
                failed(line, Fault::Fps, seq![])
            } else {
                Ok(Draft { saved: Saved { fps: fps_in_effect(fps), ..d.saved }, ..d })
            },
        }
    } else if key == "idle"@ {
        match read_number(value, u32::MAX as nat) {
            Err(error) => failed(line, Fault::Number(error), seq![]),
            Ok(idle) => if idle > MAX_IDLE {
                failed(line, Fault::Idle, seq![])
            } else {
                Ok(Draft { saved: Saved { idle, ..d.saved }, ..d })
            },
        }
    } else if key == "open"@ {
        match read_number(value, u64::MAX as nat) {
            Err(error) => failed(line, Fault::Number(error), seq![]),
            Ok(open_secs) => if open_secs > MAX_OPEN_SECS {
                failed(line, Fault::Open, seq![])
            } else {
                Ok(Draft { saved: Saved { open_secs, ..d.saved }, ..d })
            },
        }
    } else if key == "version"@ {
        if value == "1"@ {
            Ok(d)
        } else {
            failed(line, Fault::Version, value)
        }
    } else {
        failed(line, Fault::Unexpected, key)
    }
}

/// The key and the value of a line that is neither empty nor a comment.
pub open spec fn setting(line: Seq<char>) -> (Seq<char>, Seq<char>) {
    let i = first_index(line, ' ');
    if i < line.len() {
        (line.take(i), trim_start(line.skip(i + 1)))
    } else {
        (line, seq![])
    }
}

pub open spec fn with_setting(d: Draft, key: Seq<char>, value: Seq<char>, line: nat) -> Result<
    Draft,
    Failure,
> {
    if utf8_len(value) > MAX_VALUE {
        failed(line, Fault::ValueTooLong, seq![])
    } else if has_control(value) {
        failed(line, Fault::Control, seq![])
    } else {
        match d.fields {
            Some(fields) => if lookup(fields, key) is Some {
                failed(line, Fault::Duplicate, key)
            } else {
                Ok(Draft { fields: Some(fields.push((key, value))), ..d })
            },
            None => file_setting(d, key, value, line),
        }
    }
}

/// What a line, the `number`th of the file, adds.
pub open spec fn with_line(d: Draft, given: Seq<char>, line: nat) -> Result<Draft, Failure> {
    let text = trim_both(given);
    if utf8_len(given) > MAX_LINE {
        failed(line, Fault::LineTooLong, seq![])
    } else if text.len() == 0 || text[0] == '#' {
        Ok(d)
    } else if text == "[tab]"@ {
        opened_tab(d, line)
    } else {
        with_setting(d, setting(text).0, setting(text).1, line)
    }
}

/// What all the lines come to.
pub open spec fn with_lines(given: Seq<Seq<char>>) -> Result<Draft, Failure>
    decreases given.len(),
{
    if given.len() == 0 {
        Ok(Draft { saved: nothing_saved(), fields: None })
    } else {
        match with_lines(given.drop_last()) {
            Err(failure) => Err(failure),
            Ok(d) => with_line(d, given.last(), given.len()),
        }
    }
}

/// An index past the last tab selects the last tab.
pub open spec fn selected(active: nat, tabs: nat) -> nat {
    if tabs == 0 {
        0
    } else if active < tabs {
        active
    } else {
        (tabs - 1) as nat
    }
}

pub open spec fn finished(d: Draft) -> Result<Saved, Failure> {
    if d.fields is Some && d.saved.tabs.len() >= MAX_TABS {
        Err(Failure { line: 0, fault: Fault::TooManyTabs, subject: seq![] })
    } else {
        match closed_tab(d, 0) {
            Err(failure) => Err(failure),
            Ok(closed) => Ok(
                Saved {
                    active: selected(closed.saved.active, closed.saved.tabs.len()),
                    ..closed.saved
                },
            ),
        }
    }
}

/// What a file says.
pub open spec fn parsed(text: Seq<char>) -> Result<Saved, Failure> {
    match with_lines(lines(text)) {
        Err(failure) => Err(failure),
        Ok(d) => finished(d),
    }
}

proof fn with_lines_prefix(given: Seq<Seq<char>>, n: int)
    requires
        0 <= n <= given.len(),
        with_lines(given.take(n)) is Err,
    ensures
        with_lines(given) == with_lines(given.take(n)),
    decreases given.len() - n,
{
    if n == given.len() {
        assert(given.take(n) =~= given);
    } else {
        assert(given.take(n + 1).drop_last() =~= given.take(n));
        with_lines_prefix(given, n + 1);
    }
}

fn find_field(fields: &Vec<Field>, key: &[char]) -> (r: Option<usize>)
    ensures
        match r {
            Some(i) => i < fields@.len() && lookup(pairs(fields@), key@) == Some(
                fields@[i as int].value@,
            ),
            None => lookup(pairs(fields@), key@) is None,
        },
{
    let mut i: usize = 0;
    while i < fields.len()
        invariant
            i <= fields.len(),
            lookup(pairs(fields@).take(i as int), key@) is None,
        decreases fields.len() - i,
    {
        proof {
            assert(pairs(fields@).take(i + 1).drop_last() =~= pairs(fields@).take(i as int));
        }
        if same(fields[i].key.as_slice(), key) {
            proof {
                lookup_prefix(pairs(fields@), i + 1, key@);
            }
            return Some(i);
        }
        i += 1;
    }
    proof {
        assert(pairs(fields@).take(i as int) =~= pairs(fields@));
    }
    None
}

proof fn lookup_prefix(fields: Seq<(Seq<char>, Seq<char>)>, n: int, key: Seq<char>)
    requires
        0 <= n <= fields.len(),
        lookup(fields.take(n), key) is Some,
    ensures
        lookup(fields, key) == lookup(fields.take(n), key),
    decreases fields.len() - n,
{
    if n == fields.len() {
        assert(fields.take(n) =~= fields);
    } else {
        assert(fields.take(n + 1).drop_last() =~= fields.take(n));
        lookup_prefix(fields, n + 1, key);
    }
}

fn is_known(name: &[char]) -> (r: bool)
    ensures
        r == known_key(name@),
{
    let r = is_text(name, "destination") || is_text(name, "host") || is_text(name, "user")
        || is_text(name, "session") || is_text(name, "port") || is_text(name, "identity")
        || is_text(name, "known-hosts") || is_text(name, "socket") || is_text(name, "history")
        || is_text(name, "access") || is_text(name, "reconnect");
    proof {
        assert(key_name(Key::Destination) == "destination"@);
        assert(key_name(Key::Host) == "host"@);
        assert(key_name(Key::User) == "user"@);
        assert(key_name(Key::Session) == "session"@);
        assert(key_name(Key::Port) == "port"@);
        assert(key_name(Key::Identity) == "identity"@);
        assert(key_name(Key::KnownHosts) == "known-hosts"@);
        assert(key_name(Key::Socket) == "socket"@);
        assert(key_name(Key::History) == "history"@);
        assert(key_name(Key::Access) == "access"@);
        assert(key_name(Key::Reconnect) == "reconnect"@);
    }
    r
}

fn find_unknown(fields: &Vec<Field>) -> (r: Option<usize>)
    ensures
        match r {
            Some(i) => i < fields@.len() && least_unknown(pairs(fields@)) == Some(
                fields@[i as int].key@,
            ),
            None => least_unknown(pairs(fields@)) is None,
        },
{
    let mut best: Option<usize> = None;
    let mut i: usize = 0;
    while i < fields.len()
        invariant
            i <= fields.len(),
            match best {
                Some(k) => k < fields@.len() && least_unknown(pairs(fields@).take(i as int))
                    == Some(fields@[k as int].key@),
                None => least_unknown(pairs(fields@).take(i as int)) is None,
            },
        decreases fields.len() - i,
    {
        proof {
            assert(pairs(fields@).take(i + 1).drop_last() =~= pairs(fields@).take(i as int));
        }
        if !is_known(fields[i].key.as_slice()) {
            match best {
                Some(k) => {
                    if is_less(fields[i].key.as_slice(), fields[k].key.as_slice()) {
                        best = Some(i);
                    }
                },
                None => {
                    best = Some(i);
                },
            }
        }
        i += 1;
    }
    proof {
        assert(pairs(fields@).take(i as int) =~= pairs(fields@));
    }
    best
}

fn take_text(fields: &Vec<Field>, key: Key) -> (r: String)
    ensures
        r@ == text_of(pairs(fields@), key),
{
    match find_field(fields, chars_of(key.name()).as_slice()) {
        Some(i) => string_of(fields[i].value.as_slice()),
        None => String::new(),
    }
}

fn take_number(fields: &Vec<Field>, key: Key, max: u64, default: u64) -> (r: Result<
    u64,
    NumberError,
>)
    requires
        default <= max,
    ensures
        match r {
            Ok(n) => number_of(pairs(fields@), key, max as nat, default as nat) == Ok::<
                nat,
                NumberError,
            >(n as nat) && n <= max,
            Err(error) => number_of(pairs(fields@), key, max as nat, default as nat) == Err::<
                nat,
                NumberError,
            >(error),
        },
{
    match find_field(fields, chars_of(key.name()).as_slice()) {
        Some(i) => parse_number(fields[i].value.as_slice(), max),
        None => Ok(default),
    }
}

fn take_flag(fields: &Vec<Field>, key: Key, on: &str, off: &str) -> (r: Option<bool>)
    ensures
        r == flag_of(pairs(fields@), key, on@, off@),
{
    match find_field(fields, chars_of(key.name()).as_slice()) {
        None => Some(false),
        Some(i) => if is_text(fields[i].value.as_slice(), on) {
            Some(true)
        } else if is_text(fields[i].value.as_slice(), off) {
            Some(false)
        } else {
            None
        },
    }
}

fn error_at(line: usize, fault: Fault, subject: &[char]) -> (r: Error)
    ensures
        r@ == (Failure { line: line as nat, fault, subject: subject@ }),
{
    Error { line, fault, subject: string_of(subject) }
}

fn flag_error(fields: &Vec<Field>, line: usize, key: Key) -> (r: Error)
    ensures
        r@ == (Failure {
            line: line as nat,
            fault: Fault::Flag(key),
            subject: text_of(pairs(fields@), key),
        }),
{
    Error { line, fault: Fault::Flag(key), subject: take_text(fields, key) }
}

/// The tab that settings describe.
pub fn tab(fields: &Vec<Field>, line: usize) -> (r: Result<Tab, Error>)
    ensures
        match r {
            Ok(tab) => tab_of(pairs(fields@)) == Ok::<TabFacts, (Fault, Seq<char>)>(tab@),
            Err(error) => tab_of(pairs(fields@)) matches Err((fault, subject)) && error@ == (
            Failure { line: line as nat, fault, subject }),
        },
{
    let nothing: Vec<char> = Vec::new();
    proof {
        assert(nothing@ =~= Seq::<char>::empty());
    }
    if let Some(i) = find_unknown(fields) {
        return Err(error_at(line, Fault::UnknownKey, fields[i].key.as_slice()));
    }
    let history = match take_number(
        fields,
        Key::History,
        usize::MAX as u64,
        DEFAULT_HISTORY as u64,
    ) {
        Ok(history) => history,
        Err(error) => return Err(error_at(line, Fault::History(error), nothing.as_slice())),
    };
    if history > MAX_HISTORY_LINES as u64 {
        return Err(error_at(line, Fault::HistoryLimit, nothing.as_slice()));
    }
    let port = match take_number(fields, Key::Port, u16::MAX as u64, 22) {
        Ok(port) => port,
        Err(error) => return Err(error_at(line, Fault::Port(error), nothing.as_slice())),
    };
    let interactive = match take_flag(fields, Key::Access, "interactive", "read-only") {
        Some(interactive) => interactive,
        None => return Err(flag_error(fields, line, Key::Access)),
    };
    let reconnect = match take_flag(fields, Key::Reconnect, "yes", "no") {
        Some(reconnect) => reconnect,
        None => return Err(flag_error(fields, line, Key::Reconnect)),
    };
    Ok(
        Tab {
            destination: take_text(fields, Key::Destination),
            host: take_text(fields, Key::Host),
            user: take_text(fields, Key::User),
            session: take_text(fields, Key::Session),
            port: port as u16,
            identity: take_text(fields, Key::Identity),
            known_hosts: take_text(fields, Key::KnownHosts),
            socket: take_text(fields, Key::Socket),
            history: history as usize,
            interactive,
            reconnect,
        },
    )
}

/// What a reader holds between two lines.
pub open spec fn draft_of(workspace: Workspace, open: bool, fields: Seq<Field>) -> Draft {
    Draft {
        saved: workspace@,
        fields: if open {
            Some(pairs(fields))
        } else {
            None
        },
    }
}

fn read_file_setting(workspace: &mut Workspace, key: &[char], value: &[char], line: usize) -> (r:
    Result<(), Error>)
    ensures
        match r {
            Ok(()) => file_setting(
                draft_of(*old(workspace), false, seq![]),
                key@,
                value@,
                line as nat,
            ) == Ok::<Draft, Failure>(draft_of(*final(workspace), false, seq![])),
            Err(error) => file_setting(
                draft_of(*old(workspace), false, seq![]),
                key@,
                value@,
                line as nat,
            ) == Err::<Draft, Failure>(error@),
        },
{
    let nothing: Vec<char> = Vec::new();
    proof {
        assert(nothing@ =~= Seq::<char>::empty());
    }
    if is_text(key, "active") {
        match parse_number(value, usize::MAX as u64) {
            Err(error) => return Err(
                error_at(line, Fault::Number(error), nothing.as_slice()),
            ),
            Ok(active) => {
                workspace.active = active as usize;
            },
        }
    } else if is_text(key, "restore-tabs") {
        if is_text(value, "yes") {
            workspace.restore_tabs = true;
        } else if is_text(value, "no") {
            workspace.restore_tabs = false;
        } else {
            return Err(error_at(line, Fault::RestoreTabs, value));
        }
    } else if is_text(key, "fps") {
        match parse_number(value, u32::MAX as u64) {
            Err(error) => return Err(
                error_at(line, Fault::Number(error), nothing.as_slice()),
            ),
            Ok(fps) => {
                if fps > MAX_FPS as u64 {
                    return Err(error_at(line, Fault::Fps, nothing.as_slice()));
                }
                workspace.fps = clamp_fps(fps as u32);
            },
        }
    } else if is_text(key, "idle") {
        match parse_number(value, u32::MAX as u64) {
            Err(error) => return Err(
                error_at(line, Fault::Number(error), nothing.as_slice()),
            ),
            Ok(idle) => {
                if idle > MAX_IDLE as u64 {
                    return Err(error_at(line, Fault::Idle, nothing.as_slice()));
                }
                workspace.idle = idle as u32;
            },
        }
    } else if is_text(key, "open") {
        match parse_number(value, u64::MAX) {
            Err(error) => return Err(
                error_at(line, Fault::Number(error), nothing.as_slice()),
            ),
            Ok(open) => {
                if open > MAX_OPEN_SECS {
                    return Err(error_at(line, Fault::Open, nothing.as_slice()));
                }
                workspace.open_secs = open;
            },
        }
    } else if is_text(key, "version") {
        if !is_text(value, "1") {
            return Err(error_at(line, Fault::Version, value));
        }
    } else {
        return Err(error_at(line, Fault::Unexpected, key));
    }
    Ok(())
}

/// Split a line at its first space. The value begins behind the white space.
fn split_setting(text: &[char]) -> (r: (Vec<char>, Vec<char>))
    ensures
        (r.0@, r.1@) == setting(text@),
{
    let i = find_char(text, ' ');
    let mut key: Vec<char> = Vec::new();
    let mut value: Vec<char> = Vec::new();
    if i < text.len() {
        key.extend_from_slice(vstd::slice::slice_subrange(text, 0, i));
        let rest = vstd::slice::slice_subrange(text, i + 1, text.len());
        proof {
            assert(rest@ =~= text@.skip(i + 1));
            assert(key@ =~= text@.take(i as int));
        }
        let shown = trimmed_start(rest);
        value.extend_from_slice(shown);
        assert(value@ =~= shown@);
    } else {
        key.extend_from_slice(text);
        assert(key@ =~= text@);
        assert(value@ =~= Seq::<char>::empty());
    }
    (key, value)
}

/// Close the tab that is being read, if there is one.
fn close_tab(workspace: &mut Workspace, open: bool, fields: &Vec<Field>, line: usize) -> (r: Result<
    (),
    Error,
>)
    ensures
        match r {
            Ok(()) => closed_tab(draft_of(*old(workspace), open, fields@), line as nat) == Ok::<
                Draft,
                Failure,
            >(draft_of(*final(workspace), false, seq![])),
            Err(error) => closed_tab(draft_of(*old(workspace), open, fields@), line as nat)
                == Err::<Draft, Failure>(error@),
        },
{
    if open {
        let tab = tab(fields, line)?;
        let ghost before = workspace.tabs@;
        workspace.tabs.push(tab);
        proof {
            assert(tab_facts(workspace.tabs@) =~= tab_facts(before).push(tab@));
        }
    }
    Ok(())
}

fn read_setting(
    workspace: &mut Workspace,
    open: bool,
    fields: &mut Vec<Field>,
    text: &[char],
    line: usize,
) -> (r: Result<(), Error>)
    requires
        !open ==> old(fields)@.len() == 0,
    ensures
        match r {
            Ok(()) => with_setting(
                draft_of(*old(workspace), open, old(fields)@),
                setting(text@).0,
                setting(text@).1,
                line as nat,
            ) == Ok::<Draft, Failure>(draft_of(*final(workspace), open, final(fields)@))
                && (!open ==> final(fields)@.len() == 0),
            Err(error) => with_setting(
                draft_of(*old(workspace), open, old(fields)@),
                setting(text@).0,
                setting(text@).1,
                line as nat,
            ) == Err::<Draft, Failure>(error@),
        },
{
    let nothing: Vec<char> = Vec::new();
    proof {
        assert(nothing@ =~= Seq::<char>::empty());
    }
    let (key, value) = split_setting(text);
    let shown = string_of(value.as_slice());
    if byte_len(shown.as_str()) > MAX_VALUE {
        return Err(error_at(line, Fault::ValueTooLong, nothing.as_slice()));
    }
    if any_control(value.as_slice()) {
        return Err(error_at(line, Fault::Control, nothing.as_slice()));
    }
    if open {
        if find_field(fields, key.as_slice()).is_some() {
            return Err(error_at(line, Fault::Duplicate, key.as_slice()));
        }
        let ghost before = fields@;
        let field = Field { key, value };
        proof {
            assert(pairs(before.push(field)) =~= pairs(before).push((key@, value@)));
        }
        fields.push(field);
        Ok(())
    } else {
        read_file_setting(workspace, key.as_slice(), value.as_slice(), line)
    }
}

/// Read a file. What is malformed is an error, and nothing is invented in its
/// place.
pub fn parse(text: &str) -> (r: Result<Workspace, Error>)
    ensures
        match r {
            Ok(workspace) => parsed(text@) == Ok::<Saved, Failure>(workspace@),
            Err(error) => parsed(text@) == Err::<Saved, Failure>(error@),
        },
{
    let nothing: Vec<char> = Vec::new();
    let given = split_lines(chars_of(text).as_slice());
    let ghost all = lines(text@);
    let mut workspace = Workspace::default();
    let mut fields: Vec<Field> = Vec::new();
    let mut open = false;
    proof {
        assert(nothing@ =~= Seq::<char>::empty());
        assert(pairs(fields@) =~= Seq::<(Seq<char>, Seq<char>)>::empty());
    }
    let mut i: usize = 0;
    while i < given.len()
        invariant
            i <= given.len(),
            rows(given@) == all,
            all == lines(text@),
            nothing@ == Seq::<char>::empty(),
            !open ==> fields@.len() == 0,
            with_lines(all.take(i as int)) == Ok::<Draft, Failure>(
                draft_of(workspace, open, fields@),
            ),
        decreases given.len() - i,
    {
        let line = i + 1;
        let ghost before = draft_of(workspace, open, fields@);
        proof {
            assert(all.take(i + 1).drop_last() =~= all.take(i as int));
            assert(all.take(i + 1).last() == given@[i as int]@);
            assert(with_lines(all.take(i + 1)) == with_line(
                before,
                given@[i as int]@,
                line as nat,
            ));
            if with_lines(all.take(i + 1)) is Err {
                with_lines_prefix(all, i + 1);
            }
        }
        let shown = string_of(given[i].as_slice());
        if byte_len(shown.as_str()) > MAX_LINE {
            return Err(error_at(line, Fault::LineTooLong, nothing.as_slice()));
        }
        let text_line = trimmed(given[i].as_slice());
        if text_line.len() == 0 || text_line[0] == '#' {
        } else if is_text(text_line, "[tab]") {
            if workspace.tabs.len() >= MAX_TABS {
                return Err(error_at(0, Fault::TooManyTabs, nothing.as_slice()));
            }
            close_tab(&mut workspace, open, &fields, line)?;
            fields = Vec::new();
            open = true;
            proof {
                assert(pairs(fields@) =~= Seq::<(Seq<char>, Seq<char>)>::empty());
            }
        } else {
            read_setting(&mut workspace, open, &mut fields, text_line, line)?;
        }
        i += 1;
    }
    proof {
        assert(all.take(i as int) =~= all);
    }
    if open && workspace.tabs.len() >= MAX_TABS {
        return Err(error_at(0, Fault::TooManyTabs, nothing.as_slice()));
    }
    close_tab(&mut workspace, open, &fields, 0)?;
    if workspace.tabs.len() == 0 {
        workspace.active = 0;
    } else if workspace.active >= workspace.tabs.len() {
        workspace.active = workspace.tabs.len() - 1;
    }
    Ok(workspace)
}

/// What a file, where there is one, holds. No file is the normal state of a
/// first run.
pub fn load(data: Option<&str>) -> (r: Result<Option<Workspace>, Error>)
    ensures
        match data {
            None => r == Ok::<Option<Workspace>, Error>(None),
            Some(text) => if utf8_len(text@) > MAX_BYTES {
                r matches Err(error) && error@ == (Failure {
                    line: 0,
                    fault: Fault::TooLarge,
                    subject: seq![],
                })
            } else {
                match r {
                    Ok(workspace) => workspace is Some && parsed(text@) == Ok::<Saved, Failure>(
                        (workspace->0)@,
                    ),
                    Err(error) => parsed(text@) == Err::<Saved, Failure>(error@),
                }
            },
        },
{
    match data {
        None => Ok(None),
        Some(text) => {
            if byte_len(text) > MAX_BYTES {
                let nothing: Vec<char> = Vec::new();
                proof {
                    assert(nothing@ =~= Seq::<char>::empty());
                }
                return Err(error_at(0, Fault::TooLarge, nothing.as_slice()));
            }
            match parse(text) {
                Ok(workspace) => Ok(Some(workspace)),
                Err(error) => Err(error),
            }
        },
    }
}

/// A value that can be written. Anything else is left out rather than written
/// as something that would not be read.
pub open spec fn storable(value: Seq<char>) -> bool {
    value.len() > 0 && utf8_len(value) <= MAX_VALUE && !has_control(value)
}

pub open spec fn setting_line(key: Seq<char>, value: Seq<char>) -> Seq<char> {
    key.push(' ') + value
}

/// The settings of a tab, in the order in which they are written.
pub open spec fn entries(tab: TabFacts) -> Seq<(Key, Seq<char>)> {
    seq![
        (Key::Destination, tab.destination),
        (Key::Host, tab.host),
        (Key::User, tab.user),
        (Key::Session, tab.session),
        (Key::Port, decimal(tab.port)),
        (Key::Identity, tab.identity),
        (Key::KnownHosts, tab.known_hosts),
        (Key::Socket, tab.socket),
        (Key::History, decimal(tab.history)),
        (
            Key::Access,
            if tab.interactive {
                "interactive"@
            } else {
                "read-only"@
            },
        ),
        (
            Key::Reconnect,
            if tab.reconnect {
                "yes"@
            } else {
                "no"@
            },
        ),
    ]
}

pub open spec fn entry_lines(given: Seq<(Key, Seq<char>)>) -> Seq<Seq<char>>
    decreases given.len(),
{
    if given.len() == 0 {
        seq![]
    } else if storable(given.last().1) {
        entry_lines(given.drop_last()).push(
            setting_line(key_name(given.last().0), given.last().1),
        )
    } else {
        entry_lines(given.drop_last())
    }
}

/// The lines in front of the tabs.
pub open spec fn head_lines(saved: Saved) -> Seq<Seq<char>> {
    seq![
        "# Starcom saved connection tabs."@,
        "# Destinations and preferences only: no keys, passphrases, host-key"@,
        "# material, or terminal contents."@,
        setting_line("version"@, "1"@),
        setting_line("active"@, decimal(saved.active)),
        setting_line(
            "restore-tabs"@,
            if saved.restore_tabs {
                "yes"@
            } else {
                "no"@
            },
        ),
        setting_line("fps"@, decimal(fps_in_effect(saved.fps))),
        setting_line("idle"@, decimal(at_most(saved.idle, MAX_IDLE as nat))),
        setting_line("open"@, decimal(at_most(saved.open_secs, MAX_OPEN_SECS as nat))),
    ]
}

pub open spec fn at_most(n: nat, max: nat) -> nat {
    if n > max {
        max
    } else {
        n
    }
}

pub open spec fn tab_lines(tabs: Seq<TabFacts>) -> Seq<Seq<char>>
    decreases tabs.len(),
{
    if tabs.len() == 0 {
        seq![]
    } else {
        tab_lines(tabs.drop_last()) + (seq![Seq::<char>::empty(), "[tab]"@] + entry_lines(
            entries(tabs.last()),
        ))
    }
}

/// The tabs that are written: no more than are read.
pub open spec fn written_tabs(tabs: Seq<TabFacts>) -> Seq<TabFacts> {
    if tabs.len() > MAX_TABS {
        tabs.take(MAX_TABS as int)
    } else {
        tabs
    }
}

pub open spec fn file_lines(saved: Saved) -> Seq<Seq<char>> {
    head_lines(saved) + tab_lines(written_tabs(saved.tabs))
}

/// The file of a workspace.
pub open spec fn rendered(saved: Saved) -> Seq<char> {
    joined(file_lines(saved))
}

proof fn joined_concat(a: Seq<Seq<char>>, b: Seq<Seq<char>>)
    ensures
        joined(a + b) == joined(a) + joined(b),
    decreases b.len(),
{
    if b.len() == 0 {
        assert(a + b =~= a);
        assert(joined(a) + joined(b) =~= joined(a));
    } else {
        joined_concat(a, b.drop_last());
        assert((a + b).drop_last() =~= a + b.drop_last());
        assert(joined(a + b) =~= joined(a) + joined(b));
    }
}

fn put_setting(out: &mut String, key: &str, value: &str)
    ensures
        final(out)@ == old(out)@ + setting_line(key@, value@).push('\n'),
{
    out.append(key);
    out.push(' ');
    out.append(value);
    out.push('\n');
    proof {
        assert(out@ =~= old(out)@ + setting_line(key@, value@).push('\n'));
    }
}

fn decimal_text(n: u64) -> (r: String)
    ensures
        r@ == decimal(n as nat),
{
    let mut out = String::new();
    push_decimal(&mut out, n);
    assert(out@ =~= decimal(n as nat));
    out
}

/// Write one setting of a tab, where its value can be written, behind those of
/// `given`.
fn put_entry(
    out: &mut String,
    Ghost(base): Ghost<Seq<char>>,
    Ghost(given): Ghost<Seq<(Key, Seq<char>)>>,
    key: Key,
    value: &str,
)
    requires
        old(out)@ == base + joined(entry_lines(given)),
    ensures
        final(out)@ == base + joined(entry_lines(given.push((key, value@)))),
{
    let chars = chars_of(value);
    proof {
        assert(given.push((key, value@)).drop_last() =~= given);
        joined_push(entry_lines(given), setting_line(key_name(key), value@));
    }
    if chars.len() > 0 && byte_len(value) <= MAX_VALUE && !any_control(chars.as_slice()) {
        put_setting(out, key.name(), value);
        proof {
            assert(out@ =~= base + joined(entry_lines(given.push((key, value@)))));
        }
    }
}

/// Write the settings of a tab.
fn put_tab(out: &mut String, tab: &Tab)
    ensures
        final(out)@ == old(out)@ + joined(entry_lines(entries(tab@))),
{
    let ghost base = out@;
    let ghost e = entries(tab@);
    proof {
        assert(out@ =~= base + joined(entry_lines(e.take(0))));
        assert(e.take(11) =~= e);
    }
    put_entry(out, Ghost(base), Ghost(e.take(0)), Key::Destination, tab.destination.as_str());
    assert(e.take(0).push(e[0]) =~= e.take(1));
    put_entry(out, Ghost(base), Ghost(e.take(1)), Key::Host, tab.host.as_str());
    assert(e.take(1).push(e[1]) =~= e.take(2));
    put_entry(out, Ghost(base), Ghost(e.take(2)), Key::User, tab.user.as_str());
    assert(e.take(2).push(e[2]) =~= e.take(3));
    put_entry(out, Ghost(base), Ghost(e.take(3)), Key::Session, tab.session.as_str());
    assert(e.take(3).push(e[3]) =~= e.take(4));
    let port = decimal_text(tab.port as u64);
    put_entry(out, Ghost(base), Ghost(e.take(4)), Key::Port, port.as_str());
    assert(e.take(4).push(e[4]) =~= e.take(5));
    put_entry(out, Ghost(base), Ghost(e.take(5)), Key::Identity, tab.identity.as_str());
    assert(e.take(5).push(e[5]) =~= e.take(6));
    put_entry(out, Ghost(base), Ghost(e.take(6)), Key::KnownHosts, tab.known_hosts.as_str());
    assert(e.take(6).push(e[6]) =~= e.take(7));
    put_entry(out, Ghost(base), Ghost(e.take(7)), Key::Socket, tab.socket.as_str());
    assert(e.take(7).push(e[7]) =~= e.take(8));
    let history = decimal_text(tab.history as u64);
    put_entry(out, Ghost(base), Ghost(e.take(8)), Key::History, history.as_str());
    assert(e.take(8).push(e[8]) =~= e.take(9));
    let access = if tab.interactive {
        "interactive"
    } else {
        "read-only"
    };
    put_entry(out, Ghost(base), Ghost(e.take(9)), Key::Access, access);
    assert(e.take(9).push(e[9]) =~= e.take(10));
    let reconnect = if tab.reconnect {
        "yes"
    } else {
        "no"
    };
    put_entry(out, Ghost(base), Ghost(e.take(10)), Key::Reconnect, reconnect);
    assert(e.take(10).push(e[10]) =~= e.take(11));
}

proof fn joined_step(h: Seq<Seq<char>>, k: int)
    requires
        0 <= k < h.len(),
    ensures
        joined(h.take(k + 1)) == joined(h.take(k)) + h[k].push('\n'),
{
    assert(h.take(k).push(h[k]) =~= h.take(k + 1));
    joined_push(h.take(k), h[k]);
}

/// Write the lines in front of the tabs.
fn put_head(workspace: &Workspace) -> (r: String)
    ensures
        r@ == joined(head_lines(workspace@)),
{
    let mut out = String::new();
    let ghost h = head_lines(workspace@);
    proof {
        assert(out@ =~= joined(h.take(0)));
        assert(h.take(9) =~= h);
    }
    put_line(&mut out, "# Starcom saved connection tabs.");
    proof {
        joined_step(h, 0);
    }
    put_line(&mut out, "# Destinations and preferences only: no keys, passphrases, host-key");
    proof {
        joined_step(h, 1);
    }
    put_line(&mut out, "# material, or terminal contents.");
    proof {
        joined_step(h, 2);
    }
    put_setting(&mut out, "version", "1");
    proof {
        joined_step(h, 3);
    }
    let active = decimal_text(workspace.active as u64);
    put_setting(&mut out, "active", active.as_str());
    proof {
        joined_step(h, 4);
    }
    let restore = if workspace.restore_tabs {
        "yes"
    } else {
        "no"
    };
    put_setting(&mut out, "restore-tabs", restore);
    proof {
        joined_step(h, 5);
    }
    let fps = decimal_text(clamp_fps(workspace.fps) as u64);
    put_setting(&mut out, "fps", fps.as_str());
    proof {
        joined_step(h, 6);
    }
    let idle = decimal_text(
        if workspace.idle > MAX_IDLE {
            MAX_IDLE as u64
        } else {
            workspace.idle as u64
        },
    );
    put_setting(&mut out, "idle", idle.as_str());
    proof {
        joined_step(h, 7);
    }
    let open = decimal_text(
        if workspace.open_secs > MAX_OPEN_SECS {
            MAX_OPEN_SECS
        } else {
            workspace.open_secs
        },
    );
    put_setting(&mut out, "open", open.as_str());
    proof {
        joined_step(h, 8);
    }
    out
}

/// Write a workspace as a file.
pub fn render(workspace: &Workspace) -> (r: String)
    ensures
        r@ == rendered(workspace@),
{
    let mut out = put_head(workspace);
    let ghost head = head_lines(workspace@);
    let ghost tabs = written_tabs(workspace@.tabs);
    let count = if workspace.tabs.len() > MAX_TABS {
        MAX_TABS
    } else {
        workspace.tabs.len()
    };
    proof {
        assert(head + tab_lines(tabs.take(0)) =~= head);
    }
    let mut i: usize = 0;
    while i < count
        invariant
            i <= count <= workspace.tabs.len(),
            count == tabs.len(),
            tabs == written_tabs(workspace@.tabs),
            head == head_lines(workspace@),
            out@ == joined(head + tab_lines(tabs.take(i as int))),
        decreases count - i,
    {
        let ghost before = head + tab_lines(tabs.take(i as int));
        let ghost opening = seq![Seq::<char>::empty(), "[tab]"@];
        put_line(&mut out, "");
        put_line(&mut out, "[tab]");
        proof {
            reveal_strlit("");
            assert(""@ =~= Seq::<char>::empty());
            joined_push(before, Seq::<char>::empty());
            joined_push(before.push(Seq::<char>::empty()), "[tab]"@);
            assert(out@ == joined(before.push(Seq::<char>::empty()).push("[tab]"@)));
        }
        put_tab(&mut out, &workspace.tabs[i]);
        proof {
            let tab = workspace.tabs@[i as int]@;
            assert(tabs[i as int] == tab);
            assert(tabs.take(i + 1).drop_last() =~= tabs.take(i as int));
            let more = entry_lines(entries(tab));
            joined_concat(before.push(Seq::<char>::empty()).push("[tab]"@), more);
            assert(head + tab_lines(tabs.take(i + 1)) =~= before.push(
                Seq::<char>::empty(),
            ).push("[tab]"@) + more);
        }
        i += 1;
    }
    proof {
        assert(tabs.take(count as int) =~= tabs);
    }
    out
}

/// A key that a line can begin with.
pub open spec fn plain_key(key: Seq<char>) -> bool {
    0 < key.len() <= 16 && key[0] != '#' && key[0] != '[' && forall|i: int|
        0 <= i < key.len() ==> 0x20 < (#[trigger] key[i]) as u32 && key[i] as u32 <= 0x7e
}

proof fn setting_reads_back(key: Seq<char>, value: Seq<char>)
    requires
        plain_key(key),
    ensures
        trim_both(setting_line(key, value)).len() > 0,
        trim_both(setting_line(key, value))[0] != '#',
        trim_both(setting_line(key, value)) != "[tab]"@,
        setting(trim_both(setting_line(key, value))) == (key, trim_both(value)),
{
    let line = setting_line(key, value);
    let front = key.push(' ');
    assert(line[0] == key[0]);
    assert(!white_char(key[0]));
    assert(trim_start(line) == line);
    trim_end_concat(front, value);
    trims_commute(value);
    trim_end_facts(value);
    reveal_strlit("[tab]");
    assert(!white_char(key.last())) by {
        assert(key[key.len() - 1] == key.last());
    }
    assert(front.drop_last() =~= key);
    reveal_with_fuel(trim_end, 2);
    assert(trim_end(front) == key);
    let text = trim_both(line);
    if trim_end(value).len() == 0 {
        assert(text == key);
        assert forall|j: int| 0 <= j < key.len() implies #[trigger] key[j] != ' ' by {}
        first_index_unique(key, ' ', key.len() as int);
        assert(trim_end(value) =~= Seq::<char>::empty());
        assert(trim_both(value) =~= Seq::<char>::empty());
    } else {
        assert(text == front + trim_end(value));
        assert forall|j: int| 0 <= j < key.len() implies #[trigger] text[j] != ' ' by {
            assert(text[j] == key[j]);
        }
        assert(text[key.len() as int] == ' ');
        first_index_unique(text, ' ', key.len() as int);
        assert(text.take(key.len() as int) =~= key);
        assert(text.skip(key.len() as int + 1) =~= trim_end(value));
    }
    assert(text[0] == key[0]);
}

proof fn setting_line_fits(key: Seq<char>, value: Seq<char>)
    requires
        plain_key(key),
        utf8_len(value) <= MAX_VALUE,
        !has_control(value),
    ensures
        utf8_len(setting_line(key, value)) <= MAX_LINE,
        plain_line(setting_line(key, value)),
{
    let front = key.push(' ');
    let line = setting_line(key, value);
    utf8_len_concat(front, value);
    utf8_len_ascii(front);
    if line.contains('\n') {
        let i = choose|i: int| 0 <= i < line.len() && line[i] == '\n';
        if i < front.len() {
            assert(line[i] == front[i]);
        } else {
            assert(line[i] == value[i - front.len()]);
        }
    }
    if value.len() > 0 {
        assert(line.last() == value[value.len() - 1]);
    }
}

/// The draft behind one setting line.
proof fn setting_is_taken(d: Draft, key: Seq<char>, value: Seq<char>, line: nat)
    requires
        plain_key(key),
        utf8_len(value) <= MAX_VALUE,
        !has_control(value),
    ensures
        with_line(d, setting_line(key, value), line) == match d.fields {
            Some(fields) => if lookup(fields, key) is Some {
                failed(line, Fault::Duplicate, key)
            } else {
                Ok(Draft { fields: Some(fields.push((key, trim_both(value)))), ..d })
            },
            None => file_setting(d, key, trim_both(value), line),
        },
{
    setting_reads_back(key, value);
    setting_line_fits(key, value);
    trimming_keeps_uncontrolled(value);
}

proof fn decimal_is_plain(n: nat)
    ensures
        !has_control(decimal(n)),
        trim_both(decimal(n)) == decimal(n),
        n <= u64::MAX ==> utf8_len(decimal(n)) <= 20,
        decimal(n).len() > 0,
{
    decimal_reads_back(n);
    let d = decimal(n);
    assert forall|i: int| 0 <= i < d.len() implies (#[trigger] d[i]) as u32 <= 0x7f by {
        assert(digit_char(d[i]));
    }
    utf8_len_ascii(d);
    assert(digit_char(d[0]));
    assert(digit_char(d[d.len() - 1]));
    trim_keeps(d);
    if n <= u64::MAX {
        decimal_is_short(n, 20);
    }
    if has_control(d) {
        let i = choose|i: int| 0 <= i < d.len() && crate::text::control_char(#[trigger] d[i]);
        assert(digit_char(d[i]));
    }
}

pub open spec fn power_of_ten(digits: nat) -> nat
    decreases digits,
{
    if digits == 0 {
        1
    } else {
        10 * power_of_ten((digits - 1) as nat)
    }
}

proof fn decimal_is_short(n: nat, digits: nat)
    requires
        n < power_of_ten(digits) || (digits == 20 && n <= u64::MAX),
        digits > 0,
    ensures
        decimal(n).len() <= digits,
    decreases digits,
{
    if n >= 10 {
        if digits == 20 {
            assert(power_of_ten(19) == 10_000_000_000_000_000_000) by {
                reveal_with_fuel(power_of_ten, 20);
            }
            assert(n / 10 < power_of_ten(19));
        }
        if digits == 1 {
            reveal_with_fuel(power_of_ten, 2);
        } else {
            decimal_is_short(n / 10, (digits - 1) as nat);
        }
    }
}

/// What is left of a value that was written: nothing of one that cannot be
/// written, and of the others all but the white space at their ends.
pub open spec fn kept_text(value: Seq<char>) -> Seq<char> {
    if storable(value) {
        trim_both(value)
    } else {
        seq![]
    }
}

pub open spec fn kept_tab(tab: TabFacts) -> TabFacts {
    TabFacts {
        destination: kept_text(tab.destination),
        host: kept_text(tab.host),
        user: kept_text(tab.user),
        session: kept_text(tab.session),
        identity: kept_text(tab.identity),
        known_hosts: kept_text(tab.known_hosts),
        socket: kept_text(tab.socket),
        ..tab
    }
}

pub open spec fn kept_tabs(tabs: Seq<TabFacts>) -> Seq<TabFacts> {
    tabs.map_values(|tab: TabFacts| kept_tab(tab))
}

/// What is left of a workspace that was written.
pub open spec fn kept(saved: Saved) -> Saved {
    let tabs = kept_tabs(written_tabs(saved.tabs));
    Saved {
        tabs,
        active: selected(saved.active, tabs.len()),
        restore_tabs: saved.restore_tabs,
        fps: fps_in_effect(saved.fps),
        idle: at_most(saved.idle, MAX_IDLE as nat),
        open_secs: at_most(saved.open_secs, MAX_OPEN_SECS as nat),
    }
}

/// The settings of a tab that were written, as they are read.
pub open spec fn stored(given: Seq<(Key, Seq<char>)>) -> Seq<(Seq<char>, Seq<char>)>
    decreases given.len(),
{
    if given.len() == 0 {
        seq![]
    } else if storable(given.last().1) {
        stored(given.drop_last()).push((key_name(given.last().0), trim_both(given.last().1)))
    } else {
        stored(given.drop_last())
    }
}

/// The place of a setting among those of a tab.
pub open spec fn key_place(key: Key) -> int {
    match key {
        Key::Destination => 0,
        Key::Host => 1,
        Key::User => 2,
        Key::Session => 3,
        Key::Port => 4,
        Key::Identity => 5,
        Key::KnownHosts => 6,
        Key::Socket => 7,
        Key::History => 8,
        Key::Access => 9,
        Key::Reconnect => 10,
    }
}

proof fn key_names_are_plain(key: Key)
    ensures
        plain_key(key_name(key)),
{
    reveal_strlit("destination");
    reveal_strlit("host");
    reveal_strlit("user");
    reveal_strlit("session");
    reveal_strlit("port");
    reveal_strlit("identity");
    reveal_strlit("known-hosts");
    reveal_strlit("socket");
    reveal_strlit("history");
    reveal_strlit("access");
    reveal_strlit("reconnect");
}

proof fn key_names_differ(a: Key, b: Key)
    requires
        key_name(a) == key_name(b),
    ensures
        a == b,
{
    reveal_strlit("destination");
    reveal_strlit("host");
    reveal_strlit("user");
    reveal_strlit("session");
    reveal_strlit("port");
    reveal_strlit("identity");
    reveal_strlit("known-hosts");
    reveal_strlit("socket");
    reveal_strlit("history");
    reveal_strlit("access");
    reveal_strlit("reconnect");
    // Two names of one length differ in their first character.
    assert("destination"@.len() == 11 && "destination"@[0] == 'd');
    assert("host"@.len() == 4 && "host"@[0] == 'h');
    assert("user"@.len() == 4 && "user"@[0] == 'u');
    assert("session"@.len() == 7 && "session"@[0] == 's');
    assert("port"@.len() == 4 && "port"@[0] == 'p');
    assert("identity"@.len() == 8 && "identity"@[0] == 'i');
    assert("known-hosts"@.len() == 11 && "known-hosts"@[0] == 'k');
    assert("socket"@.len() == 6 && "socket"@[0] == 's');
    assert("history"@.len() == 7 && "history"@[0] == 'h');
    assert("access"@.len() == 6 && "access"@[0] == 'a');
    assert("reconnect"@.len() == 9 && "reconnect"@[0] == 'r');
}

proof fn stored_keys_are_known(given: Seq<(Key, Seq<char>)>)
    ensures
        least_unknown(stored(given)) is None,
    decreases given.len(),
{
    if given.len() > 0 {
        stored_keys_are_known(given.drop_last());
        let key = given.last().0;
        assert(known_key(key_name(key)));
        let more = stored(given.drop_last()).push((key_name(key), trim_both(given.last().1)));
        assert(more.drop_last() =~= stored(given.drop_last()));
    }
}

/// Looking for a key among written settings that hold it at one place only.
proof fn stored_at(given: Seq<(Key, Seq<char>)>, key: Key, place: int)
    requires
        forall|i: int| 0 <= i < given.len() ==> ((#[trigger] given[i]).0 == key <==> i == place),
    ensures
        lookup(stored(given), key_name(key)) == if 0 <= place < given.len() && storable(
            given[place].1,
        ) {
            Some(trim_both(given[place].1))
        } else {
            None::<Seq<char>>
        },
    decreases given.len(),
{
    if given.len() > 0 {
        let front = given.drop_last();
        let last = given.last();
        assert forall|i: int| 0 <= i < front.len() implies ((#[trigger] front[i]).0 == key <==> i
            == place) by {
            assert(front[i] == given[i]);
        }
        stored_at(front, key, place);
        assert(given[given.len() - 1] == last);
        let more = stored(front).push((key_name(last.0), trim_both(last.1)));
        assert(more.drop_last() =~= stored(front));
        if key_name(last.0) == key_name(key) {
            key_names_differ(last.0, key);
        }
        if 0 <= place < front.len() {
            assert(front[place] == given[place]);
        }
    }
}

proof fn entry_is_stored(tab: TabFacts, key: Key)
    ensures
        entries(tab).len() == 11,
        entries(tab)[key_place(key)].0 == key,
        lookup(stored(entries(tab)), key_name(key)) == if storable(
            entries(tab)[key_place(key)].1,
        ) {
            Some(trim_both(entries(tab)[key_place(key)].1))
        } else {
            None::<Seq<char>>
        },
{
    let given = entries(tab);
    assert forall|i: int| 0 <= i < given.len() implies ((#[trigger] given[i]).0 == key <==> i
        == key_place(key)) by {
        assert(key_place(given[i].0) == i);
    }
    stored_at(given, key, key_place(key));
}

/// A tab whose numbers the format can hold.
pub open spec fn storable_tab(tab: TabFacts) -> bool {
    tab.port <= u16::MAX && tab.history <= MAX_HISTORY_LINES
}

proof fn word_is_plain(word: Seq<char>)
    requires
        word == "yes"@ || word == "no"@ || word == "interactive"@ || word == "read-only"@ || word
            == "1"@,
    ensures
        storable(word),
        trim_both(word) == word,
{
    reveal_strlit("yes");
    reveal_strlit("no");
    reveal_strlit("interactive");
    reveal_strlit("read-only");
    reveal_strlit("1");
    utf8_len_ascii(word);
    assert(!white_char(word[0]));
    assert(!white_char(word.last()));
    trim_keeps(word);
}

/// A tab that was written is read as what is left of it.
proof fn tab_reads_back(tab: TabFacts)
    requires
        storable_tab(tab),
    ensures
        tab_of(stored(entries(tab))) == Ok::<TabFacts, (Fault, Seq<char>)>(kept_tab(tab)),
{
    let fields = stored(entries(tab));
    stored_keys_are_known(entries(tab));
    entry_is_stored(tab, Key::Destination);
    entry_is_stored(tab, Key::Host);
    entry_is_stored(tab, Key::User);
    entry_is_stored(tab, Key::Session);
    entry_is_stored(tab, Key::Port);
    entry_is_stored(tab, Key::Identity);
    entry_is_stored(tab, Key::KnownHosts);
    entry_is_stored(tab, Key::Socket);
    entry_is_stored(tab, Key::History);
    entry_is_stored(tab, Key::Access);
    entry_is_stored(tab, Key::Reconnect);
    decimal_is_plain(tab.port);
    decimal_is_plain(tab.history);
    decimal_reads_back(tab.port);
    decimal_reads_back(tab.history);
    numbers_have_no_fault(decimal(tab.port), u16::MAX as nat);
    numbers_have_no_fault(decimal(tab.history), usize::MAX as nat);
    assert(number_of(fields, Key::Port, u16::MAX as nat, 22) == Ok::<
        nat,
        NumberError,
    >(tab.port));
    assert(number_of(fields, Key::History, usize::MAX as nat, DEFAULT_HISTORY as nat) == Ok::<
        nat,
        NumberError,
    >(tab.history));
    word_is_plain(entries(tab)[9].1);
    word_is_plain(entries(tab)[10].1);
    assert("read-only"@ != "interactive"@) by {
        reveal_strlit("read-only");
        reveal_strlit("interactive");
    }
    assert("yes"@ != "no"@) by {
        reveal_strlit("yes");
        reveal_strlit("no");
    }
    assert(flag_of(fields, Key::Access, "interactive"@, "read-only"@) == Some(tab.interactive));
    assert(flag_of(fields, Key::Reconnect, "yes"@, "no"@) == Some(tab.reconnect));
}

/// A line of a file that begins with `#` says nothing.
proof fn comment_is_skipped(d: Draft, text: Seq<char>, line: nat)
    requires
        0 < text.len() <= 100,
        text[0] == '#',
        forall|i: int| 0 <= i < text.len() ==> 0x20 <= (#[trigger] text[i]) as u32 <= 0x7e,
    ensures
        with_line(d, text, line) == Ok::<Draft, Failure>(d),
        plain_line(text),
{
    utf8_len_ascii(text);
    assert(!white_char(text[0]));
    let front = seq!['#'];
    let rest = text.skip(1);
    assert(text =~= front + rest);
    trim_end_concat(front, rest);
    trim_end_facts(rest);
    reveal_with_fuel(trim_end, 2);
    assert(trim_both(text).len() > 0);
    assert(trim_both(text)[0] == '#');
    if text.contains('\n') {
        let i = choose|i: int| 0 <= i < text.len() && text[i] == '\n';
        assert(0x20 <= text[i] as u32);
    }
    assert(text[text.len() - 1] == text.last());
}

proof fn header_is_plain(d: Draft, line: nat)
    ensures
        with_line(d, "# Starcom saved connection tabs."@, line) == Ok::<Draft, Failure>(d),
        with_line(
            d,
            "# Destinations and preferences only: no keys, passphrases, host-key"@,
            line,
        ) == Ok::<Draft, Failure>(d),
        with_line(d, "# material, or terminal contents."@, line) == Ok::<Draft, Failure>(d),
        plain_line("# Starcom saved connection tabs."@),
        plain_line("# Destinations and preferences only: no keys, passphrases, host-key"@),
        plain_line("# material, or terminal contents."@),
{
    reveal_strlit("# Starcom saved connection tabs.");
    reveal_strlit("# Destinations and preferences only: no keys, passphrases, host-key");
    reveal_strlit("# material, or terminal contents.");
    comment_is_skipped(d, "# Starcom saved connection tabs."@, line);
    comment_is_skipped(
        d,
        "# Destinations and preferences only: no keys, passphrases, host-key"@,
        line,
    );
    comment_is_skipped(d, "# material, or terminal contents."@, line);
}

proof fn file_keys_are_plain()
    ensures
        plain_key("version"@),
        plain_key("active"@),
        plain_key("restore-tabs"@),
        plain_key("fps"@),
        plain_key("idle"@),
        plain_key("open"@),
        "version"@ != "active"@ && "version"@ != "restore-tabs"@ && "version"@ != "fps"@
            && "version"@ != "idle"@ && "version"@ != "open"@,
        "active"@ != "restore-tabs"@ && "active"@ != "fps"@ && "active"@ != "idle"@ && "active"@
            != "open"@,
        "restore-tabs"@ != "fps"@ && "restore-tabs"@ != "idle"@ && "restore-tabs"@ != "open"@,
        "fps"@ != "idle"@ && "fps"@ != "open"@,
        "idle"@ != "open"@,
        "yes"@ != "no"@,
{
    reveal_strlit("version");
    reveal_strlit("active");
    reveal_strlit("restore-tabs");
    reveal_strlit("fps");
    reveal_strlit("idle");
    reveal_strlit("open");
    reveal_strlit("yes");
    reveal_strlit("no");
    assert("version"@.len() == 7);
    assert("active"@.len() == 6);
    assert("restore-tabs"@.len() == 12);
    assert("fps"@.len() == 3);
    assert("idle"@.len() == 4 && "idle"@[0] == 'i');
    assert("open"@.len() == 4 && "open"@[0] == 'o');
    assert("yes"@.len() == 3);
    assert("no"@.len() == 2);
}

proof fn number_reads_back(n: nat, max: nat)
    requires
        n <= max,
    ensures
        number(trim_both(decimal(n)), max) == Some(n),
        read_number(trim_both(decimal(n)), max) == Ok::<nat, NumberError>(n),
{
    numbers_have_no_fault(trim_both(decimal(n)), max);
    decimal_is_plain(n);
    decimal_reads_back(n);
}

/// A line that leads from one draft to another.
#[verifier::opaque]
pub open spec fn leads(d: Draft, text: Seq<char>, line: nat, next: Draft) -> bool {
    with_line(d, text, line) == Ok::<Draft, Failure>(next) && plain_line(text)
}

proof fn header_leads(d: Draft, line: nat)
    ensures
        leads(d, "# Starcom saved connection tabs."@, line, d),
        leads(d, "# Destinations and preferences only: no keys, passphrases, host-key"@, line, d),
        leads(d, "# material, or terminal contents."@, line, d),
{
    reveal(leads);
    header_is_plain(d, line);
}

proof fn version_leads(d: Draft, line: nat)
    requires
        d.fields is None,
    ensures
        leads(d, setting_line("version"@, "1"@), line, d),
{
    file_keys_are_plain();
    word_is_plain("1"@);
    setting_is_taken(d, "version"@, "1"@, line);
    setting_line_fits("version"@, "1"@);
    reveal(leads);
}

proof fn active_leads(d: Draft, n: nat, line: nat)
    requires
        d.fields is None,
        n <= usize::MAX,
    ensures
        leads(
            d,
            setting_line("active"@, decimal(n)),
            line,
            Draft { saved: Saved { active: n, ..d.saved }, ..d },
        ),
{
    file_keys_are_plain();
    decimal_is_plain(n);
    number_reads_back(n, usize::MAX as nat);
    setting_is_taken(d, "active"@, decimal(n), line);
    setting_line_fits("active"@, decimal(n));
    reveal(leads);
}

proof fn restore_leads(d: Draft, on: bool, line: nat)
    requires
        d.fields is None,
    ensures
        leads(
            d,
            setting_line(
                "restore-tabs"@,
                if on {
                    "yes"@
                } else {
                    "no"@
                },
            ),
            line,
            Draft { saved: Saved { restore_tabs: on, ..d.saved }, ..d },
        ),
{
    let word = if on {
        "yes"@
    } else {
        "no"@
    };
    file_keys_are_plain();
    word_is_plain(word);
    setting_is_taken(d, "restore-tabs"@, word, line);
    setting_line_fits("restore-tabs"@, word);
    reveal(leads);
}

proof fn fps_leads(d: Draft, fps: nat, line: nat)
    requires
        d.fields is None,
        1 <= fps <= MAX_FPS,
    ensures
        leads(
            d,
            setting_line("fps"@, decimal(fps)),
            line,
            Draft { saved: Saved { fps, ..d.saved }, ..d },
        ),
{
    file_keys_are_plain();
    decimal_is_plain(fps);
    number_reads_back(fps, u32::MAX as nat);
    setting_is_taken(d, "fps"@, decimal(fps), line);
    setting_line_fits("fps"@, decimal(fps));
    reveal(leads);
}

proof fn idle_leads(d: Draft, idle: nat, line: nat)
    requires
        d.fields is None,
        idle <= MAX_IDLE,
    ensures
        leads(
            d,
            setting_line("idle"@, decimal(idle)),
            line,
            Draft { saved: Saved { idle, ..d.saved }, ..d },
        ),
{
    file_keys_are_plain();
    decimal_is_plain(idle);
    number_reads_back(idle, u32::MAX as nat);
    setting_is_taken(d, "idle"@, decimal(idle), line);
    setting_line_fits("idle"@, decimal(idle));
    reveal(leads);
}

proof fn open_leads(d: Draft, open_secs: nat, line: nat)
    requires
        d.fields is None,
        open_secs <= MAX_OPEN_SECS,
    ensures
        leads(
            d,
            setting_line("open"@, decimal(open_secs)),
            line,
            Draft { saved: Saved { open_secs, ..d.saved }, ..d },
        ),
{
    file_keys_are_plain();
    decimal_is_plain(open_secs);
    number_reads_back(open_secs, u64::MAX as nat);
    setting_is_taken(d, "open"@, decimal(open_secs), line);
    setting_line_fits("open"@, decimal(open_secs));
    reveal(leads);
}

/// Lines that lead from draft to draft are read as a whole.
proof fn chain_reads(given: Seq<Seq<char>>, drafts: Seq<Draft>)
    requires
        drafts.len() == given.len() + 1,
        drafts[0] == (Draft { saved: nothing_saved(), fields: None }),
        forall|k: int|
            0 <= k < given.len() ==> leads(
                drafts[k],
                #[trigger] given[k],
                (k + 1) as nat,
                drafts[k + 1],
            ),
    ensures
        with_lines(given) == Ok::<Draft, Failure>(drafts.last()),
    decreases given.len(),
{
    if given.len() > 0 {
        let n = given.len() - 1;
        let front = given.drop_last();
        let rest = drafts.drop_last();
        assert forall|k: int| 0 <= k < front.len() implies leads(
            rest[k],
            #[trigger] front[k],
            (k + 1) as nat,
            rest[k + 1],
        ) by {
            assert(leads(drafts[k], given[k], (k + 1) as nat, drafts[k + 1]));
        }
        chain_reads(front, rest);
        assert(leads(drafts[n], given[n], (n + 1) as nat, drafts[n + 1]));
        reveal(leads);
    }
}

/// The lines in front of the tabs are read as they were written.
proof fn head_reads_back(saved: Saved)
    requires
        saved.active <= usize::MAX,
    ensures
        with_lines(head_lines(saved)) == Ok::<Draft, Failure>(
            Draft {
                saved: Saved {
                    tabs: seq![],
                    active: saved.active,
                    restore_tabs: saved.restore_tabs,
                    fps: fps_in_effect(saved.fps),
                    idle: at_most(saved.idle, MAX_IDLE as nat),
                    open_secs: at_most(saved.open_secs, MAX_OPEN_SECS as nat),
                },
                fields: None,
            },
        ),
        forall|i: int|
            0 <= i < head_lines(saved).len() ==> plain_line(#[trigger] head_lines(saved)[i]),
{
    let h = head_lines(saved);
    let fps = fps_in_effect(saved.fps);
    let idle = at_most(saved.idle, MAX_IDLE as nat);
    let open_secs = at_most(saved.open_secs, MAX_OPEN_SECS as nat);
    let s0 = nothing_saved();
    let s1 = Saved { active: saved.active, ..s0 };
    let s2 = Saved { restore_tabs: saved.restore_tabs, ..s1 };
    let s3 = Saved { fps, ..s2 };
    let s4 = Saved { idle, ..s3 };
    let s5 = Saved { open_secs, ..s4 };
    let d0 = Draft { saved: s0, fields: None };
    let d1 = Draft { saved: s1, fields: None };
    let d2 = Draft { saved: s2, fields: None };
    let d3 = Draft { saved: s3, fields: None };
    let d4 = Draft { saved: s4, fields: None };
    let d5 = Draft { saved: s5, fields: None };
    let drafts = seq![d0, d0, d0, d0, d0, d1, d2, d3, d4, d5];
    header_leads(d0, 1);
    header_leads(d0, 2);
    header_leads(d0, 3);
    version_leads(d0, 4);
    active_leads(d0, saved.active, 5);
    restore_leads(d1, saved.restore_tabs, 6);
    fps_leads(d2, fps, 7);
    idle_leads(d3, idle, 8);
    open_leads(d4, open_secs, 9);
    assert forall|k: int| 0 <= k < h.len() implies leads(
        drafts[k],
        #[trigger] h[k],
        (k + 1) as nat,
        drafts[k + 1],
    ) by {
        if k == 0 {
        } else if k == 1 {
        } else if k == 2 {
        } else if k == 3 {
        } else if k == 4 {
        } else if k == 5 {
        } else if k == 6 {
        } else if k == 7 {
        } else {
            assert(k == 8);
        }
    }
    chain_reads(h, drafts);
    assert forall|i: int| 0 <= i < h.len() implies plain_line(#[trigger] h[i]) by {
        assert(leads(drafts[i], h[i], (i + 1) as nat, drafts[i + 1]));
        reveal(leads);
    }
}

/// The settings of a tab are read, one line after the other, behind lines that
/// opened it.
proof fn entries_read_back(front: Seq<Seq<char>>, d: Draft, given: Seq<(Key, Seq<char>)>)
    requires
        with_lines(front) == Ok::<Draft, Failure>(d),
        d.fields == Some(Seq::<(Seq<char>, Seq<char>)>::empty()),
        forall|i: int, j: int|
            0 <= i < j < given.len() ==> (#[trigger] given[i]).0 != (#[trigger] given[j]).0,
    ensures
        with_lines(front + entry_lines(given)) == Ok::<Draft, Failure>(
            Draft { fields: Some(stored(given)), ..d },
        ),
        forall|i: int|
            0 <= i < entry_lines(given).len() ==> plain_line(#[trigger] entry_lines(given)[i]),
    decreases given.len(),
{
    if given.len() == 0 {
        assert(front + entry_lines(given) =~= front);
    } else {
        let rest = given.drop_last();
        let key = given.last().0;
        let value = given.last().1;
        assert forall|i: int, j: int| 0 <= i < j < rest.len() implies (#[trigger] rest[i]).0 != (
        #[trigger] rest[j]).0 by {
            assert(given[i].0 != given[j].0);
        }
        entries_read_back(front, d, rest);
        if storable(value) {
            let before = front + entry_lines(rest);
            let now = Draft { fields: Some(stored(rest)), ..d };
            let line = setting_line(key_name(key), value);
            key_names_are_plain(key);
            setting_is_taken(now, key_name(key), value, before.len() + 1);
            setting_line_fits(key_name(key), value);
            assert forall|i: int| 0 <= i < rest.len() implies ((#[trigger] rest[i]).0 == key <==> i
                == rest.len()) by {
                assert(given[i].0 != given[given.len() - 1].0);
            }
            stored_at(rest, key, rest.len() as int);
            assert(before.push(line).drop_last() =~= before);
            assert(front + entry_lines(given) =~= before.push(line));
            assert(with_lines(before.push(line)) == with_line(now, line, before.len() + 1));
            assert forall|i: int| 0 <= i < entry_lines(given).len() implies plain_line(
                #[trigger] entry_lines(given)[i],
            ) by {
                if i < entry_lines(rest).len() {
                    assert(entry_lines(given)[i] == entry_lines(rest)[i]);
                }
            }
        }
    }
}

/// The draft behind the lines of some tabs: all but the last are closed.
pub open spec fn draft_behind(head: Saved, tabs: Seq<TabFacts>) -> Draft {
    if tabs.len() == 0 {
        Draft { saved: head, fields: None }
    } else {
        Draft {
            saved: Saved { tabs: kept_tabs(tabs.drop_last()), ..head },
            fields: Some(stored(entries(tabs.last()))),
        }
    }
}

proof fn opening_lines_are_plain(d: Draft, line: nat)
    ensures
        with_line(d, Seq::<char>::empty(), line) == Ok::<Draft, Failure>(d),
        with_line(d, "[tab]"@, line) == opened_tab(d, line),
        plain_line(Seq::<char>::empty()),
        plain_line("[tab]"@),
{
    reveal_strlit("[tab]");
    let text = "[tab]"@;
    assert(text.len() == 5 && text[0] == '[' && text[4] == ']');
    trim_keeps(text);
    utf8_len_ascii(text);
    utf8_len_ascii(Seq::<char>::empty());
    assert(!text.contains('\n'));
}

/// The two lines that open a tab, behind the lines of others.
spec fn opening_of(before: Seq<Seq<char>>) -> Seq<Seq<char>> {
    before.push(Seq::<char>::empty()).push("[tab]"@)
}

/// The draft in which a tab was just opened, behind others.
spec fn opened_behind(base: Saved, tabs: Seq<TabFacts>) -> Draft {
    Draft {
        saved: Saved { tabs: kept_tabs(tabs), ..base },
        fields: Some(Seq::<(Seq<char>, Seq<char>)>::empty()),
    }
}

/// The line that opens the next tab closes the last one.
proof fn opening_reads_back(before: Seq<Seq<char>>, base: Saved, tabs: Seq<TabFacts>)
    requires
        with_lines(before) == Ok::<Draft, Failure>(draft_behind(base, tabs)),
        base.tabs.len() == 0,
        tabs.len() < MAX_TABS,
        forall|i: int| 0 <= i < tabs.len() ==> storable_tab(#[trigger] tabs[i]),
    ensures
        with_lines(opening_of(before)) == Ok::<Draft, Failure>(opened_behind(base, tabs)),
{
    let d = draft_behind(base, tabs);
    let blank = before.push(Seq::<char>::empty());
    let opening = opening_of(before);
    assert(with_lines(blank) == Ok::<Draft, Failure>(d)) by {
        opening_lines_are_plain(d, blank.len());
        assert(blank.drop_last() =~= before);
    }
    assert(opened_tab(d, opening.len()) == Ok::<Draft, Failure>(opened_behind(base, tabs))) by {
        if tabs.len() > 0 {
            assert(storable_tab(tabs[tabs.len() - 1]));
            tab_reads_back(tabs.last());
            assert(kept_tabs(tabs) =~= kept_tabs(tabs.drop_last()).push(kept_tab(tabs.last())));
        } else {
            assert(kept_tabs(tabs) =~= base.tabs);
        }
    }
    opening_lines_are_plain(d, opening.len());
    assert(opening.drop_last() =~= blank);
}

/// No key of a tab is written twice.
proof fn entries_have_keys_of_their_own(tab: TabFacts)
    ensures
        forall|i: int, j: int|
            0 <= i < j < entries(tab).len() ==> (#[trigger] entries(tab)[i]).0 != (
            #[trigger] entries(tab)[j]).0,
{
    let given = entries(tab);
    assert forall|i: int, j: int| 0 <= i < j < given.len() implies (#[trigger] given[i]).0 != (
    #[trigger] given[j]).0 by {
        assert(key_place(given[i].0) == i);
        assert(key_place(given[j].0) == j);
    }
}

/// The lines of one more tab are as plain as those of the others.
proof fn tab_lines_are_plain(tabs: Seq<TabFacts>)
    requires
        tabs.len() > 0,
        forall|i: int|
            0 <= i < tab_lines(tabs.drop_last()).len() ==> plain_line(
                #[trigger] tab_lines(tabs.drop_last())[i],
            ),
        forall|i: int|
            0 <= i < entry_lines(entries(tabs.last())).len() ==> plain_line(
                #[trigger] entry_lines(entries(tabs.last()))[i],
            ),
    ensures
        forall|i: int|
            0 <= i < tab_lines(tabs).len() ==> plain_line(#[trigger] tab_lines(tabs)[i]),
{
    let front = tab_lines(tabs.drop_last());
    let lines = entry_lines(entries(tabs.last()));
    let more = seq![Seq::<char>::empty(), "[tab]"@] + lines;
    assert(tab_lines(tabs) =~= front + more);
    opening_lines_are_plain(Draft { saved: nothing_saved(), fields: None }, 1);
    assert forall|i: int| 0 <= i < tab_lines(tabs).len() implies plain_line(
        #[trigger] tab_lines(tabs)[i],
    ) by {
        if i < front.len() {
            assert(tab_lines(tabs)[i] == front[i]);
        } else {
            let k = i - front.len();
            assert(tab_lines(tabs)[i] == more[k]);
            if k >= 2 {
                assert(more[k] == lines[k - 2]);
            }
        }
    }
}

/// The lines of tabs are read, one tab after the other.
proof fn tabs_read_back(head: Seq<Seq<char>>, base: Saved, tabs: Seq<TabFacts>)
    requires
        with_lines(head) == Ok::<Draft, Failure>(Draft { saved: base, fields: None }),
        base.tabs.len() == 0,
        tabs.len() <= MAX_TABS,
        forall|i: int| 0 <= i < tabs.len() ==> storable_tab(#[trigger] tabs[i]),
    ensures
        with_lines(head + tab_lines(tabs)) == Ok::<Draft, Failure>(draft_behind(base, tabs)),
        forall|i: int|
            0 <= i < tab_lines(tabs).len() ==> plain_line(#[trigger] tab_lines(tabs)[i]),
    decreases tabs.len(),
{
    if tabs.len() == 0 {
        assert(head + tab_lines(tabs) =~= head);
    } else {
        let rest = tabs.drop_last();
        let given = entries(tabs.last());
        assert forall|i: int| 0 <= i < rest.len() implies storable_tab(#[trigger] rest[i]) by {
            assert(storable_tab(tabs[i]));
        }
        tabs_read_back(head, base, rest);
        let before = head + tab_lines(rest);
        opening_reads_back(before, base, rest);
        entries_have_keys_of_their_own(tabs.last());
        entries_read_back(opening_of(before), opened_behind(base, rest), given);
        assert(head + tab_lines(tabs) =~= opening_of(before) + entry_lines(given));
        tab_lines_are_plain(tabs);
    }
}

/// What is saved is restored: a file that was written is read back, and of each
/// field all is left that the format holds. The first `MAX_TABS` tabs are
/// written; a value that is too long or holds a control character is left out.
pub proof fn saved_workspaces_read_back(saved: Saved)
    requires
        saved.active <= usize::MAX,
        forall|i: int| 0 <= i < saved.tabs.len() ==> storable_tab(#[trigger] saved.tabs[i]),
    ensures
        parsed(rendered(saved)) == Ok::<Saved, Failure>(kept(saved)),
{
    let head = head_lines(saved);
    let tabs = written_tabs(saved.tabs);
    let base = Saved {
        tabs: seq![],
        active: saved.active,
        restore_tabs: saved.restore_tabs,
        fps: fps_in_effect(saved.fps),
        idle: at_most(saved.idle, MAX_IDLE as nat),
        open_secs: at_most(saved.open_secs, MAX_OPEN_SECS as nat),
    };
    head_reads_back(saved);
    assert forall|i: int| 0 <= i < tabs.len() implies storable_tab(#[trigger] tabs[i]) by {
        assert(storable_tab(saved.tabs[i]));
    }
    tabs_read_back(head, base, tabs);
    let all = file_lines(saved);
    assert forall|i: int| 0 <= i < all.len() implies plain_line(#[trigger] all[i]) by {
        if i < head.len() {
            assert(all[i] == head[i]);
        } else {
            assert(all[i] == tab_lines(tabs)[i - head.len()]);
        }
    }
    lines_read_back(all);
    if tabs.len() > 0 {
        assert(storable_tab(tabs[tabs.len() - 1]));
        tab_reads_back(tabs.last());
        assert(kept_tabs(tabs) =~= kept_tabs(tabs.drop_last()).push(kept_tab(tabs.last())));
    } else {
        assert(kept_tabs(tabs) =~= Seq::<TabFacts>::empty());
    }
}

/// A text that the format holds as it stands.
pub open spec fn clean_text(value: Seq<char>) -> bool {
    value.len() == 0 || (storable(value) && trim_both(value) == value)
}

pub open spec fn clean_tab(tab: TabFacts) -> bool {
    storable_tab(tab) && clean_text(tab.destination) && clean_text(tab.host) && clean_text(tab.user)
        && clean_text(tab.session) && clean_text(tab.identity) && clean_text(tab.known_hosts)
        && clean_text(tab.socket)
}

/// A workspace that the format holds as it stands.
pub open spec fn clean(saved: Saved) -> bool {
    &&& saved.tabs.len() <= MAX_TABS
    &&& forall|i: int| 0 <= i < saved.tabs.len() ==> clean_tab(#[trigger] saved.tabs[i])
    &&& saved.active == selected(saved.active, saved.tabs.len())
    &&& saved.active <= usize::MAX
    &&& 1 <= saved.fps <= MAX_FPS
    &&& saved.idle <= MAX_IDLE
    &&& saved.open_secs <= MAX_OPEN_SECS
}

/// A clean workspace survives being written and read exactly.
pub proof fn clean_workspaces_survive(saved: Saved)
    requires
        clean(saved),
    ensures
        parsed(rendered(saved)) == Ok::<Saved, Failure>(saved),
{
    assert forall|i: int| 0 <= i < saved.tabs.len() implies storable_tab(
        #[trigger] saved.tabs[i],
    ) by {
        assert(clean_tab(saved.tabs[i]));
    }
    saved_workspaces_read_back(saved);
    assert forall|i: int| 0 <= i < saved.tabs.len() implies kept_tab(#[trigger] saved.tabs[i])
        == saved.tabs[i] by {
        let tab = saved.tabs[i];
        assert(clean_tab(tab));
        assert(kept_text(tab.destination) =~= tab.destination);
        assert(kept_text(tab.host) =~= tab.host);
        assert(kept_text(tab.user) =~= tab.user);
        assert(kept_text(tab.session) =~= tab.session);
        assert(kept_text(tab.identity) =~= tab.identity);
        assert(kept_text(tab.known_hosts) =~= tab.known_hosts);
        assert(kept_text(tab.socket) =~= tab.socket);
    }
    assert(kept_tabs(saved.tabs) =~= saved.tabs);
}

} // verus!
