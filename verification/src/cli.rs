//! The arguments of the programs.
use vstd::prelude::*;
use vstd::slice::slice_subrange;
use vstd::string::*;

use crate::desktop::Startup;
use crate::inspect::MAX_HISTORY_LINES;
use crate::ssh;
use crate::ssh_config::opt_text;
use crate::text::{
    chars_of, debug_quoted, find_char, first_index, first_index_facts, number, number_error_text,
    parse_number, quote_debug, read_number, same_str, texts, NumberError,
};
use crate::values::{valid_session_name, valid_size, SessionName, Size};

verus! {

pub const HELP: &'static str =
    "Starcom: Session Terminal And Remote COMmander\n\nUsage: starcom [--demo [--snapshot FILE]]\n       starcom --replay FILE [--size COLSxROWS]\n       starcom --help\n\nWithout options a window opens on the connection form. --demo shows built-in\ndata and needs no network; --snapshot writes it to FILE as a picture.\nUse - as FILE to read a synthetic control-mode transcript from stdin.\nThe default pane size is 80x24. All replay panes use the same fixed size.\nOutput rows are quoted/escaped so remote text cannot control this terminal.\n";

pub const INSPECT_HELP: &'static str =
    "Starcom live SSH/tmux inspector (read-only; no GUI or restored terminal)\n\nUsage: starcom-inspect --host HOST --user USER --session NAME --known-hosts FILE\n                      [--identity FILE | --agent] [--port PORT] [--socket PATH]\n                      [--history LINES] [--timeout SECONDS] [--watch SECONDS]\n\nHOST is a DNS name or unbracketed IP, not an SSH config alias. This first backend\ndoes not read ~/.ssh/config. Supply connection settings explicitly.\nHost keys must already be trusted in the supplied OpenSSH known_hosts file.\nUnknown/changed keys are never accepted automatically. Marker/pattern policies\nnot supported by this backend are rejected, not ignored.\nUse --agent for an encrypted key already loaded in an SSH agent; --identity\ncurrently accepts an unencrypted private-key file. Exactly one is required.\nDefaults: port 22, history 200 lines (max 1000), timeout 10 seconds per operation.\nOS DNS resolution and local agent IPC are not covered by the network timeout.\nWith --watch, live models are followed for so long and then shown.\nCaptures are escaped textual observations, NOT an atomic/interactive session.\n";

/// The most bytes of a transcript that are replayed.
pub const MAX_REPLAY_BYTES: usize = 16_777_216;

#[derive(Clone, Copy, Debug, PartialEq, Eq, Structural)]
pub enum Error {
    RepeatedDemo,
    RepeatedSnapshot,
    RepeatedReplay,
    SnapshotFile,
    ReplayFile,
    SizeValue,
    SizeFormat,
    SizeNumber(NumberError),
    SizeRange,
    /// No option, with the number of arguments from it on.
    Unrecognized(usize),
    Mixed,
    SizeAlone,
    SnapshotAlone,
    ReplayBudget,
}

pub open spec fn error_text(error: Error) -> Seq<char> {
    match error {
        Error::RepeatedDemo => "--demo was supplied more than once"@,
        Error::RepeatedSnapshot => "--snapshot was supplied more than once"@,
        Error::RepeatedReplay => "--replay was supplied more than once"@,
        Error::SnapshotFile => "--snapshot needs a file"@,
        Error::ReplayFile => "--replay needs a file"@,
        Error::SizeValue => "--size needs COLSxROWS"@,
        Error::SizeFormat => "size must be COLSxROWS"@,
        Error::SizeNumber(error) => number_error_text(error),
        Error::SizeRange => "terminal dimensions are zero or exceed the cell budget"@,
        Error::Unrecognized(_) => "unrecognized argument; use --help"@,
        Error::Mixed => "desktop and replay options cannot be mixed"@,
        Error::SizeAlone => "--size requires --replay"@,
        Error::SnapshotAlone => "--snapshot requires --demo"@,
        Error::ReplayBudget => "replay exceeds the 16 MiB input budget"@,
    }
}

impl Error {
    pub fn message(self) -> (r: &'static str)
        ensures
            r@ == error_text(self),
    {
        match self {
            Error::RepeatedDemo => "--demo was supplied more than once",
            Error::RepeatedSnapshot => "--snapshot was supplied more than once",
            Error::RepeatedReplay => "--replay was supplied more than once",
            Error::SnapshotFile => "--snapshot needs a file",
            Error::ReplayFile => "--replay needs a file",
            Error::SizeValue => "--size needs COLSxROWS",
            Error::SizeFormat => "size must be COLSxROWS",
            Error::SizeNumber(error) => error.message(),
            Error::SizeRange => "terminal dimensions are zero or exceed the cell budget",
            Error::Unrecognized(_) => "unrecognized argument; use --help",
            Error::Mixed => "desktop and replay options cannot be mixed",
            Error::SizeAlone => "--size requires --replay",
            Error::SnapshotAlone => "--snapshot requires --demo",
            Error::ReplayBudget => "replay exceeds the 16 MiB input budget",
        }
    }
}

/// What is shown of an error of these arguments: the one that is not known is quoted.
pub open spec fn error_text_for(error: Error, args: Seq<Seq<char>>) -> Seq<char> {
    match error {
        Error::Unrecognized(left) => if 0 < left <= args.len() {
            "unrecognized argument "@ + debug_quoted(args[args.len() - left]) + "; use --help"@
        } else {
            error_text(error)
        },
        _ => error_text(error),
    }
}

impl Error {
    pub fn report(self, args: &Vec<String>) -> (r: String)
        ensures
            r@ == error_text_for(self, texts(args@)),
    {
        if let Error::Unrecognized(left) = self {
            if 0 < left && left <= args.len() {
                let place = args.len() - left;
                assert(texts(args@)[place as int] == args@[place as int]@);
                let mut out = "unrecognized argument ".to_owned();
                out.append(quote_debug(args[place].as_str()).as_str());
                out.append("; use --help");
                return out;
            }
        }
        self.message().to_owned()
    }
}

/// What the desktop program is asked to do.
#[derive(Debug)]
pub enum Command {
    Help,
    Version,
    Desktop(Startup),
    Snapshot(String),
    Replay {
        input: String,
        size: Size,
    },
}

/// The contents of a command.
pub enum Order {
    Help,
    Version,
    Desktop(Startup),
    Snapshot(Seq<char>),
    Replay(Seq<char>, nat, nat),
}

impl View for Command {
    type V = Order;

    open spec fn view(&self) -> Order {
        match *self {
            Command::Help => Order::Help,
            Command::Version => Order::Version,
            Command::Desktop(startup) => Order::Desktop(startup),
            Command::Snapshot(path) => Order::Snapshot(path@),
            Command::Replay { input, size } => Order::Replay(
                input@,
                size.spec_columns(),
                size.spec_rows(),
            ),
        }
    }
}

/// A size as it is written: columns, an `x`, and rows.
pub open spec fn written_size(text: Seq<char>) -> Result<(nat, nat), Error> {
    let i = first_index(text, 'x');
    if i >= text.len() {
        Err(Error::SizeFormat)
    } else {
        match (
            read_number(text.take(i), usize::MAX as nat),
            read_number(text.skip(i + 1), usize::MAX as nat),
        ) {
            (Err(error), _) => Err(Error::SizeNumber(error)),
            (_, Err(error)) => Err(Error::SizeNumber(error)),
            (Ok(columns), Ok(rows)) => if valid_size(columns as int, rows as int) {
                Ok((columns, rows))
            } else {
                Err(Error::SizeRange)
            },
        }
    }
}

pub fn parse_size(text: &str) -> (r: Result<Size, Error>)
    ensures
        match r {
            Ok(size) => written_size(text@) == Ok::<(nat, nat), Error>(
                (size.spec_columns(), size.spec_rows()),
            ),
            Err(error) => written_size(text@) == Err::<(nat, nat), Error>(error),
        },
{
    let chars = chars_of(text);
    proof {
        first_index_facts(text@, 'x');
    }
    let i = find_char(chars.as_slice(), 'x');
    if i >= chars.len() {
        return Err(Error::SizeFormat);
    }
    let front = slice_subrange(chars.as_slice(), 0, i);
    let back = slice_subrange(chars.as_slice(), i + 1, chars.len());
    proof {
        assert(front@ =~= text@.take(i as int));
        assert(back@ =~= text@.skip(i + 1));
    }
    let columns = match parse_number(front, usize::MAX as u64) {
        Ok(n) => n,
        Err(error) => return Err(Error::SizeNumber(error)),
    };
    let rows = match parse_number(back, usize::MAX as u64) {
        Ok(n) => n,
        Err(error) => return Err(Error::SizeNumber(error)),
    };
    match Size::new(columns as usize, rows as usize) {
        Ok(size) => Ok(size),
        Err(_) => Err(Error::SizeRange),
    }
}

/// The options that were read so far.
pub struct Options {
    pub demo: bool,
    pub snapshot: Option<Seq<char>>,
    pub replay: Option<Seq<char>>,
    pub size: Option<(nat, nat)>,
}

/// What the options come to together.
pub open spec fn combined(o: Options) -> Result<Order, Error> {
    match o.replay {
        Some(input) => if o.demo || o.snapshot is Some {
            Err(Error::Mixed)
        } else {
            match o.size {
                Some((columns, rows)) => Ok(Order::Replay(input, columns, rows)),
                None => Ok(Order::Replay(input, 80, 24)),
            }
        },
        None => if o.size is Some {
            Err(Error::SizeAlone)
        } else {
            match o.snapshot {
                Some(path) => if o.demo {
                    Ok(Order::Snapshot(path))
                } else {
                    Err(Error::SnapshotAlone)
                },
                None => Ok(
                    Order::Desktop(
                        if o.demo {
                            Startup::Demo
                        } else {
                            Startup::ConnectionForm
                        },
                    ),
                ),
            }
        },
    }
}

/// What arguments ask for, read from the left.
pub open spec fn asked(args: Seq<Seq<char>>, o: Options) -> Result<Order, Error>
    decreases args.len(),
{
    if args.len() == 0 {
        combined(o)
    } else if args[0] == "--help"@ || args[0] == "-h"@ {
        Ok(Order::Help)
    } else if args[0] == "--version"@ {
        Ok(Order::Version)
    } else if args[0] == "--demo"@ {
        if o.demo {
            Err(Error::RepeatedDemo)
        } else {
            asked(args.skip(1), Options { demo: true, ..o })
        }
    } else if args[0] == "--snapshot"@ {
        if o.snapshot is Some {
            Err(Error::RepeatedSnapshot)
        } else if args.len() < 2 {
            Err(Error::SnapshotFile)
        } else {
            asked(args.skip(2), Options { snapshot: Some(args[1]), ..o })
        }
    } else if args[0] == "--replay"@ {
        if o.replay is Some {
            Err(Error::RepeatedReplay)
        } else if args.len() < 2 {
            Err(Error::ReplayFile)
        } else {
            asked(args.skip(2), Options { replay: Some(args[1]), ..o })
        }
    } else if args[0] == "--size"@ {
        if args.len() < 2 {
            Err(Error::SizeValue)
        } else {
            match written_size(args[1]) {
                Err(error) => Err(error),
                Ok(size) => asked(args.skip(2), Options { size: Some(size), ..o }),
            }
        }
    } else {
        Err(Error::Unrecognized(args.len() as usize))
    }
}

pub open spec fn nothing_given() -> Options {
    Options { demo: false, snapshot: None, replay: None, size: None }
}

pub open spec fn size_of(size: Option<Size>) -> Option<(nat, nat)> {
    match size {
        Some(size) => Some((size.spec_columns(), size.spec_rows())),
        None => None,
    }
}

fn combine(demo: bool, snapshot: Option<String>, replay: Option<String>, size: Option<Size>) -> (r:
    Result<Command, Error>)
    ensures
        match r {
            Ok(command) => combined(
                Options {
                    demo,
                    snapshot: opt_text(snapshot),
                    replay: opt_text(replay),
                    size: size_of(size),
                },
            ) == Ok::<Order, Error>(command@),
            Err(error) => combined(
                Options {
                    demo,
                    snapshot: opt_text(snapshot),
                    replay: opt_text(replay),
                    size: size_of(size),
                },
            ) == Err::<Order, Error>(error),
        },
{
    match replay {
        Some(input) => {
            if demo || snapshot.is_some() {
                return Err(Error::Mixed);
            }
            match size {
                Some(size) => Ok(Command::Replay { input, size }),
                None => Ok(Command::Replay { input, size: Size::default() }),
            }
        },
        None => {
            if size.is_some() {
                return Err(Error::SizeAlone);
            }
            match snapshot {
                Some(path) => if demo {
                    Ok(Command::Snapshot(path))
                } else {
                    Err(Error::SnapshotAlone)
                },
                None => if demo {
                    Ok(Command::Desktop(Startup::Demo))
                } else {
                    Ok(Command::Desktop(Startup::ConnectionForm))
                },
            }
        },
    }
}

/// Read the arguments of the desktop program.
pub fn parse(args: &Vec<String>) -> (r: Result<Command, Error>)
    ensures
        match r {
            Ok(command) => asked(texts(args@), nothing_given()) == Ok::<Order, Error>(command@),
            Err(error) => asked(texts(args@), nothing_given()) == Err::<Order, Error>(error),
        },
{
    let ghost all = texts(args@);
    let mut demo = false;
    let mut snapshot: Option<String> = None;
    let mut replay: Option<String> = None;
    let mut size: Option<Size> = None;
    let mut i: usize = 0;
    proof {
        assert(all.skip(0) =~= all);
    }
    while i < args.len()
        invariant
            i <= args.len(),
            all == texts(args@),
            asked(all, nothing_given()) == asked(
                all.skip(i as int),
                Options {
                    demo,
                    snapshot: opt_text(snapshot),
                    replay: opt_text(replay),
                    size: size_of(size),
                },
            ),
        decreases args.len() - i,
    {
        let left = args.len() - i;
        proof {
            assert(all.skip(i as int)[0] == args@[i as int]@);
            assert(all.skip(i as int).skip(1) =~= all.skip(i + 1));
            if left >= 2 {
                assert(all.skip(i as int)[1] == args@[i + 1]@);
                assert(all.skip(i as int).skip(2) =~= all.skip(i + 2));
            }
        }
        let arg = args[i].as_str();
        if same_str(arg, "--help") || same_str(arg, "-h") {
            return Ok(Command::Help);
        } else if same_str(arg, "--version") {
            return Ok(Command::Version);
        } else if same_str(arg, "--demo") {
            if demo {
                return Err(Error::RepeatedDemo);
            }
            demo = true;
            i += 1;
        } else if same_str(arg, "--snapshot") {
            if snapshot.is_some() {
                return Err(Error::RepeatedSnapshot);
            }
            if left < 2 {
                return Err(Error::SnapshotFile);
            }
            snapshot = Some(args[i + 1].clone());
            i += 2;
        } else if same_str(arg, "--replay") {
            if replay.is_some() {
                return Err(Error::RepeatedReplay);
            }
            if left < 2 {
                return Err(Error::ReplayFile);
            }
            replay = Some(args[i + 1].clone());
            i += 2;
        } else if same_str(arg, "--size") {
            if left < 2 {
                return Err(Error::SizeValue);
            }
            size = Some(parse_size(args[i + 1].as_str())?);
            i += 2;
        } else {
            return Err(Error::Unrecognized(left));
        }
    }
    proof {
        assert(all.skip(i as int) =~= Seq::<Seq<char>>::empty());
    }
    combine(demo, snapshot, replay, size)
}

/// Count what was read of a transcript.
pub fn count_replay(total: usize, count: usize) -> (r: Result<usize, Error>)
    requires
        total <= MAX_REPLAY_BYTES,
    ensures
        match r {
            Ok(now) => now == total + count && now <= MAX_REPLAY_BYTES,
            Err(error) => total + count > MAX_REPLAY_BYTES && error == Error::ReplayBudget,
        },
{
    if count > MAX_REPLAY_BYTES - total {
        Err(Error::ReplayBudget)
    } else {
        Ok(total + count)
    }
}

/// The options of the inspector that take a value.
#[derive(Clone, Copy, Debug, PartialEq, Eq, Structural)]
pub enum Flag {
    Host,
    User,
    Session,
    KnownHosts,
    Identity,
    Port,
    Socket,
    History,
    Timeout,
    Watch,
}

pub open spec fn flag_name(flag: Flag) -> Seq<char> {
    match flag {
        Flag::Host => "--host"@,
        Flag::User => "--user"@,
        Flag::Session => "--session"@,
        Flag::KnownHosts => "--known-hosts"@,
        Flag::Identity => "--identity"@,
        Flag::Port => "--port"@,
        Flag::Socket => "--socket"@,
        Flag::History => "--history"@,
        Flag::Timeout => "--timeout"@,
        Flag::Watch => "--watch"@,
    }
}

impl Flag {
    pub fn name(self) -> (r: &'static str)
        ensures
            r@ == flag_name(self),
    {
        match self {
            Flag::Host => "--host",
            Flag::User => "--user",
            Flag::Session => "--session",
            Flag::KnownHosts => "--known-hosts",
            Flag::Identity => "--identity",
            Flag::Port => "--port",
            Flag::Socket => "--socket",
            Flag::History => "--history",
            Flag::Timeout => "--timeout",
            Flag::Watch => "--watch",
        }
    }
}

#[derive(Clone, Copy, Debug, PartialEq, Eq, Structural)]
pub enum InspectError {
    AgentTwice,
    NeedsValue(Flag),
    Duplicate(Flag),
    /// No option, with the number of arguments from it on.
    Unknown(usize),
    Required(Flag),
    SessionName,
    Authentication,
    Number(Flag),
    HistoryLimit,
}

/// What is shown of an error: its text, behind the option that it is about.
pub open spec fn inspect_error_text(error: InspectError) -> Seq<char> {
    match error {
        InspectError::AgentTwice => "--agent supplied twice"@,
        InspectError::NeedsValue(flag) => flag_name(flag) + " needs a value"@,
        InspectError::Duplicate(flag) => "duplicate option "@ + flag_name(flag),
        InspectError::Unknown(_) => "unknown option; use --help"@,
        InspectError::Required(flag) => flag_name(flag) + " is required"@,
        InspectError::SessionName =>
            "session name is empty, too long, or contains control characters"@,
        InspectError::Authentication => "choose exactly one of --identity and --agent"@,
        InspectError::Number(flag) => "invalid number for "@ + flag_name(flag),
        InspectError::HistoryLimit => "--history exceeds 1000"@,
    }
}

impl InspectError {
    pub fn message(self) -> (r: String)
        ensures
            r@ == inspect_error_text(self),
    {
        match self {
            InspectError::AgentTwice => "--agent supplied twice".to_owned(),
            InspectError::NeedsValue(flag) => {
                let mut out = flag.name().to_owned();
                out.append(" needs a value");
                out
            },
            InspectError::Duplicate(flag) => {
                let mut out = "duplicate option ".to_owned();
                out.append(flag.name());
                out
            },
            InspectError::Unknown(_) => "unknown option; use --help".to_owned(),
            InspectError::Required(flag) => {
                let mut out = flag.name().to_owned();
                out.append(" is required");
                out
            },
            InspectError::SessionName =>
                "session name is empty, too long, or contains control characters".to_owned(),
            InspectError::Authentication =>
                "choose exactly one of --identity and --agent".to_owned(),
            InspectError::Number(flag) => {
                let mut out = "invalid number for ".to_owned();
                out.append(flag.name());
                out
            },
            InspectError::HistoryLimit => "--history exceeds 1000".to_owned(),
        }
    }
}

/// What is shown of an error of these arguments: the one that is not known is quoted.
pub open spec fn inspect_error_text_for(error: InspectError, args: Seq<Seq<char>>) -> Seq<char> {
    match error {
        InspectError::Unknown(left) => if 0 < left <= args.len() {
            "unknown option "@ + debug_quoted(args[args.len() - left]) + "; use --help"@
        } else {
            inspect_error_text(error)
        },
        _ => inspect_error_text(error),
    }
}

impl InspectError {
    pub fn report(self, args: &Vec<String>) -> (r: String)
        ensures
            r@ == inspect_error_text_for(self, texts(args@)),
    {
        if let InspectError::Unknown(left) = self {
            if 0 < left && left <= args.len() {
                let place = args.len() - left;
                assert(texts(args@)[place as int] == args@[place as int]@);
                let mut out = "unknown option ".to_owned();
                out.append(quote_debug(args[place].as_str()).as_str());
                out.append("; use --help");
                return out;
            }
        }
        self.message()
    }
}

pub open spec fn flag_of(name: Seq<char>) -> Option<Flag> {
    if name == "--host"@ {
        Some(Flag::Host)
    } else if name == "--user"@ {
        Some(Flag::User)
    } else if name == "--session"@ {
        Some(Flag::Session)
    } else if name == "--known-hosts"@ {
        Some(Flag::KnownHosts)
    } else if name == "--identity"@ {
        Some(Flag::Identity)
    } else if name == "--port"@ {
        Some(Flag::Port)
    } else if name == "--socket"@ {
        Some(Flag::Socket)
    } else if name == "--history"@ {
        Some(Flag::History)
    } else if name == "--timeout"@ {
        Some(Flag::Timeout)
    } else if name == "--watch"@ {
        Some(Flag::Watch)
    } else {
        None
    }
}

fn read_flag(name: &str) -> (r: Option<Flag>)
    ensures
        r == flag_of(name@),
{
    if same_str(name, "--host") {
        Some(Flag::Host)
    } else if same_str(name, "--user") {
        Some(Flag::User)
    } else if same_str(name, "--session") {
        Some(Flag::Session)
    } else if same_str(name, "--known-hosts") {
        Some(Flag::KnownHosts)
    } else if same_str(name, "--identity") {
        Some(Flag::Identity)
    } else if same_str(name, "--port") {
        Some(Flag::Port)
    } else if same_str(name, "--socket") {
        Some(Flag::Socket)
    } else if same_str(name, "--history") {
        Some(Flag::History)
    } else if same_str(name, "--timeout") {
        Some(Flag::Timeout)
    } else if same_str(name, "--watch") {
        Some(Flag::Watch)
    } else {
        None
    }
}

/// A value that was given.
pub struct Given {
    pub flag: Flag,
    pub value: String,
}

pub open spec fn pairs(given: Seq<Given>) -> Seq<(Flag, Seq<char>)> {
    given.map_values(|entry: Given| (entry.flag, entry.value@))
}

/// The value of an option.
pub open spec fn value_of(given: Seq<(Flag, Seq<char>)>, flag: Flag) -> Option<Seq<char>>
    decreases given.len(),
{
    if given.len() == 0 {
        None
    } else {
        match value_of(given.drop_last(), flag) {
            Some(value) => Some(value),
            None => if given.last().0 == flag {
                Some(given.last().1)
            } else {
                None
            },
        }
    }
}

/// What was read of the arguments: the values and whether the agent is used, or
/// that help is asked for.
pub open spec fn read_args(
    args: Seq<Seq<char>>,
    given: Seq<(Flag, Seq<char>)>,
    agent: bool,
) -> Result<Option<(Seq<(Flag, Seq<char>)>, bool)>, InspectError>
    decreases args.len(),
{
    if args.len() == 0 {
        if given.len() == 0 && !agent {
            Ok(None)
        } else {
            Ok(Some((given, agent)))
        }
    } else if args[0] == "--help"@ || args[0] == "-h"@ {
        Ok(None)
    } else if args[0] == "--agent"@ {
        if agent {
            Err(InspectError::AgentTwice)
        } else {
            read_args(args.skip(1), given, true)
        }
    } else {
        match flag_of(args[0]) {
            None => Err(InspectError::Unknown(args.len() as usize)),
            Some(flag) => if args.len() < 2 {
                Err(InspectError::NeedsValue(flag))
            } else if value_of(given, flag) is Some {
                Err(InspectError::Duplicate(flag))
            } else {
                read_args(args.skip(2), given.push((flag, args[1])), agent)
            },
        }
    }
}

/// A number among the values, or its default.
pub open spec fn number_of(
    given: Seq<(Flag, Seq<char>)>,
    flag: Flag,
    max: nat,
    default: nat,
) -> Option<nat> {
    match value_of(given, flag) {
        Some(value) => number(value, max),
        None => Some(default),
    }
}

/// Why the values ask for no inspection.
pub open spec fn values_error(given: Seq<(Flag, Seq<char>)>, agent: bool) -> Option<InspectError> {
    if value_of(given, Flag::Host) is None {
        Some(InspectError::Required(Flag::Host))
    } else if value_of(given, Flag::User) is None {
        Some(InspectError::Required(Flag::User))
    } else if value_of(given, Flag::Session) is None {
        Some(InspectError::Required(Flag::Session))
    } else if !valid_session_name(value_of(given, Flag::Session)->0) {
        Some(InspectError::SessionName)
    } else if value_of(given, Flag::KnownHosts) is None {
        Some(InspectError::Required(Flag::KnownHosts))
    } else if agent == (value_of(given, Flag::Identity) is Some) {
        Some(InspectError::Authentication)
    } else if number_of(given, Flag::Port, u16::MAX as nat, 22) is None {
        Some(InspectError::Number(Flag::Port))
    } else if number_of(given, Flag::History, usize::MAX as nat, 200) is None {
        Some(InspectError::Number(Flag::History))
    } else if number_of(given, Flag::Timeout, u64::MAX as nat, 10) is None {
        Some(InspectError::Number(Flag::Timeout))
    } else if number_of(given, Flag::Watch, u64::MAX as nat, 0) is None {
        Some(InspectError::Number(Flag::Watch))
    } else if number_of(given, Flag::History, usize::MAX as nat, 200)->0 > MAX_HISTORY_LINES {
        Some(InspectError::HistoryLimit)
    } else {
        None
    }
}

/// What the inspector is asked for.
#[derive(Debug)]
pub struct Inspection {
    pub options: ssh::Options,
    pub session: SessionName,
    pub socket: Option<String>,
    pub history: usize,
    /// For how many seconds live models are followed. Without it the panes are
    /// captured once.
    pub watch: Option<u64>,
}

/// The inspection that the values ask for.
pub open spec fn inspects(given: Seq<(Flag, Seq<char>)>, agent: bool, i: Inspection) -> bool {
    &&& value_of(given, Flag::Host) == Some(i.options.host@)
    &&& value_of(given, Flag::User) == Some(i.options.user@)
    &&& value_of(given, Flag::Session) == Some(i.session@)
    &&& value_of(given, Flag::KnownHosts) == Some(i.options.known_hosts@)
    &&& i.options.authentication.agent == agent
    &&& texts(i.options.authentication.files@) == match value_of(given, Flag::Identity) {
        Some(path) => seq![path],
        None => seq![],
    }
    &&& number_of(given, Flag::Port, u16::MAX as nat, 22) == Some(i.options.port as nat)
    &&& number_of(given, Flag::History, usize::MAX as nat, 200) == Some(i.history as nat)
    &&& i.options.timeout == 1_000_000_000 * number_of(given, Flag::Timeout, u64::MAX as nat, 10)->0
    &&& opt_text(i.socket) == value_of(given, Flag::Socket)
    &&& match i.watch {
        Some(seconds) => value_of(given, Flag::Watch) is Some && number_of(
            given,
            Flag::Watch,
            u64::MAX as nat,
            0,
        ) == Some(seconds as nat),
        None => value_of(given, Flag::Watch) is None,
    }
    &&& i.options.jumps@.len() == 0
    &&& i.options.host_key_alias is None
}

proof fn value_of_prefix(given: Seq<(Flag, Seq<char>)>, flag: Flag, n: int)
    requires
        0 <= n <= given.len(),
        value_of(given.take(n), flag) is Some,
    ensures
        value_of(given, flag) == value_of(given.take(n), flag),
    decreases given.len() - n,
{
    if n == given.len() {
        assert(given.take(n) =~= given);
    } else {
        assert(given.take(n + 1).drop_last() =~= given.take(n));
        value_of_prefix(given, flag, n + 1);
    }
}

fn find(given: &Vec<Given>, flag: Flag) -> (r: Option<String>)
    ensures
        opt_text(r) == value_of(pairs(given@), flag),
{
    let ghost all = pairs(given@);
    let mut i: usize = 0;
    while i < given.len()
        invariant
            i <= given.len(),
            all == pairs(given@),
            value_of(all.take(i as int), flag) is None,
        decreases given.len() - i,
    {
        proof {
            assert(all.take(i + 1).drop_last() =~= all.take(i as int));
        }
        if given[i].flag == flag {
            proof {
                value_of_prefix(all, flag, i + 1);
            }
            return Some(given[i].value.clone());
        }
        i += 1;
    }
    proof {
        assert(all.take(i as int) =~= all);
    }
    None
}

fn find_number(given: &Vec<Given>, flag: Flag, max: u64, default: u64) -> (r: Option<u64>)
    requires
        default <= max,
    ensures
        match r {
            Some(n) => number_of(pairs(given@), flag, max as nat, default as nat) == Some(n as nat)
                && n <= max,
            None => number_of(pairs(given@), flag, max as nat, default as nat) is None,
        },
{
    match find(given, flag) {
        Some(text) => match parse_number(chars_of(text.as_str()).as_slice(), max) {
            Ok(n) => Some(n),
            Err(_) => None,
        },
        None => Some(default),
    }
}

fn find_required(given: &Vec<Given>, flag: Flag) -> (r: Result<String, InspectError>)
    ensures
        match r {
            Ok(value) => value_of(pairs(given@), flag) == Some(value@),
            Err(error) => value_of(pairs(given@), flag) is None && error
                == InspectError::Required(flag),
        },
{
    match find(given, flag) {
        Some(value) => Ok(value),
        None => Err(InspectError::Required(flag)),
    }
}

fn inspection(given: &Vec<Given>, agent: bool) -> (r: Result<Inspection, InspectError>)
    ensures
        match r {
            Ok(i) => values_error(pairs(given@), agent) is None && inspects(
                pairs(given@),
                agent,
                i,
            ),
            Err(error) => values_error(pairs(given@), agent) == Some(error),
        },
{
    let host = find_required(given, Flag::Host)?;
    let user = find_required(given, Flag::User)?;
    let name = find_required(given, Flag::Session)?;
    let session = match SessionName::new(name.as_str()) {
        Ok(session) => session,
        Err(_) => return Err(InspectError::SessionName),
    };
    let known_hosts = find_required(given, Flag::KnownHosts)?;
    let identity = find(given, Flag::Identity);
    if agent == identity.is_some() {
        return Err(InspectError::Authentication);
    }
    let authentication = match &identity {
        Some(path) => ssh::Authentication::identity(path.as_str()),
        None => ssh::Authentication::agent_only(),
    };
    proof {
        assert(texts(authentication.files@) =~= match value_of(pairs(given@), Flag::Identity) {
            Some(path) => seq![path],
            None => seq![],
        });
    }
    let port = match find_number(given, Flag::Port, u16::MAX as u64, 22) {
        Some(port) => port,
        None => return Err(InspectError::Number(Flag::Port)),
    };
    let history = match find_number(given, Flag::History, usize::MAX as u64, 200) {
        Some(history) => history,
        None => return Err(InspectError::Number(Flag::History)),
    };
    let seconds = match find_number(given, Flag::Timeout, u64::MAX, 10) {
        Some(seconds) => seconds,
        None => return Err(InspectError::Number(Flag::Timeout)),
    };
    let seconds_watched = match find_number(given, Flag::Watch, u64::MAX, 0) {
        Some(seconds) => seconds,
        None => return Err(InspectError::Number(Flag::Watch)),
    };
    let watch = match find(given, Flag::Watch) {
        Some(_) => Some(seconds_watched),
        None => None,
    };
    let socket = find(given, Flag::Socket);
    if history > MAX_HISTORY_LINES as u64 {
        return Err(InspectError::HistoryLimit);
    }
    Ok(
        Inspection {
            options: ssh::Options {
                host,
                port: port as u16,
                user,
                known_hosts,
                host_key_alias: None,
                authentication,
                timeout: seconds as u128 * 1_000_000_000,
                jumps: Vec::new(),
            },
            session,
            socket,
            history: history as usize,
            watch,
        },
    )
}

/// Read the arguments of the inspector. Nothing is asked of a host before they
/// are in order; `None` asks for help.
pub fn parse_inspect(args: &Vec<String>) -> (r: Result<Option<Inspection>, InspectError>)
    ensures
        match read_args(texts(args@), seq![], false) {
            Err(error) => r == Err::<Option<Inspection>, InspectError>(error),
            Ok(None) => r == Ok::<Option<Inspection>, InspectError>(None),
            Ok(Some((given, agent))) => match r {
                Ok(Some(i)) => values_error(given, agent) is None && inspects(given, agent, i),
                Ok(None) => false,
                Err(error) => values_error(given, agent) == Some(error),
            },
        },
{
    let ghost all = texts(args@);
    let mut given: Vec<Given> = Vec::new();
    let mut agent = false;
    let mut i: usize = 0;
    proof {
        assert(all.skip(0) =~= all);
        assert(pairs(given@) =~= Seq::<(Flag, Seq<char>)>::empty());
    }
    while i < args.len()
        invariant
            i <= args.len(),
            all == texts(args@),
            read_args(all, seq![], false) == read_args(all.skip(i as int), pairs(given@), agent),
        decreases args.len() - i,
    {
        let left = args.len() - i;
        proof {
            assert(all.skip(i as int)[0] == args@[i as int]@);
            assert(all.skip(i as int).skip(1) =~= all.skip(i + 1));
            if left >= 2 {
                assert(all.skip(i as int)[1] == args@[i + 1]@);
                assert(all.skip(i as int).skip(2) =~= all.skip(i + 2));
            }
        }
        let arg = args[i].as_str();
        if same_str(arg, "--help") || same_str(arg, "-h") {
            return Ok(None);
        }
        if same_str(arg, "--agent") {
            if agent {
                return Err(InspectError::AgentTwice);
            }
            agent = true;
            i += 1;
        } else {
            let flag = match read_flag(arg) {
                Some(flag) => flag,
                None => return Err(InspectError::Unknown(left)),
            };
            if left < 2 {
                return Err(InspectError::NeedsValue(flag));
            }
            if find(&given, flag).is_some() {
                return Err(InspectError::Duplicate(flag));
            }
            let ghost before = given@;
            let entry = Given { flag, value: args[i + 1].clone() };
            proof {
                assert(pairs(before.push(entry)) =~= pairs(before).push((flag, args@[i + 1]@)));
            }
            given.push(entry);
            i += 2;
        }
    }
    proof {
        assert(all.skip(i as int) =~= Seq::<Seq<char>>::empty());
        assert(pairs(given@).len() == given@.len());
    }
    if given.len() == 0 && !agent {
        return Ok(None);
    }
    match inspection(&given, agent) {
        Ok(i) => Ok(Some(i)),
        Err(error) => Err(error),
    }
}

} // verus!
