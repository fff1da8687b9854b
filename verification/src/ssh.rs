//! One SSH connection: what may be dialled, what the handshake answers, how the
//! bytes of a channel are queued.
//!
//! The protocol engine and the socket are driven from outside. Each round of
//! that work asks here what comes next, so that the order of host-key check and
//! authentication, the budget of a round and the bounds of the queues are
//! settled in one place.
use std::collections::VecDeque;

use vstd::prelude::*;
use vstd::string::*;

use crate::ssh_config::MAX_JUMPS;
use crate::text::{
    any_control, any_white, byte_len, chars_of, contains_char, has_control, has_white, printable,
    to_printable, utf8_len,
};

verus! {

pub const MAX_QUEUED_STDOUT: usize = 1_048_576;

pub const MAX_QUEUED_STDERR: usize = 65_536;

/// The rounds of one turn of work.
pub const DRIVE_BUDGET: u32 = 512;

/// The most bytes that are taken from a channel at once.
pub const MAX_DRAIN: usize = 8192;

pub const MAX_TIMEOUT_NANOS: u128 = 300_000_000_000;

pub const MIN_TIMEOUT_NANOS: u128 = 1_000_000;

#[derive(Clone, Copy, Debug, PartialEq, Eq, Structural)]
pub enum Kind {
    Configuration,
    Transport,
    UnknownHostKey,
    ChangedHostKey,
    Authentication,
    Timeout,
}

pub open spec fn kind_name(kind: Kind) -> Seq<char> {
    match kind {
        Kind::Configuration => "Configuration"@,
        Kind::Transport => "Transport"@,
        Kind::UnknownHostKey => "UnknownHostKey"@,
        Kind::ChangedHostKey => "ChangedHostKey"@,
        Kind::Authentication => "Authentication"@,
        Kind::Timeout => "Timeout"@,
    }
}

impl Kind {
    pub fn name(self) -> (r: &'static str)
        ensures
            r@ == kind_name(self),
    {
        match self {
            Kind::Configuration => "Configuration",
            Kind::Transport => "Transport",
            Kind::UnknownHostKey => "UnknownHostKey",
            Kind::ChangedHostKey => "ChangedHostKey",
            Kind::Authentication => "Authentication",
            Kind::Timeout => "Timeout",
        }
    }
}

/// A failure, classified by a type and never by remote text.
#[derive(Debug)]
pub struct Error {
    pub kind: Kind,
    pub detail: String,
}

/// What is shown of a failure.
pub open spec fn error_text(kind: Kind, detail: Seq<char>) -> Seq<char> {
    "SSH "@ + kind_name(kind) + ": "@ + printable(detail)
}

/// An error of this kind and with this detail.
pub open spec fn is_error(error: Error, kind: Kind, detail: Seq<char>) -> bool {
    error.kind == kind && error.detail@ == detail
}

impl Error {
    pub fn new(kind: Kind, detail: &str) -> (r: Self)
        ensures
            is_error(r, kind, detail@),
    {
        Error { kind, detail: detail.to_owned() }
    }

    /// A transport fault that was raised elsewhere, so that reconnection policy
    /// classifies it from a type rather than from remote text.
    pub fn transport(detail: &str) -> (r: Self)
        ensures
            is_error(r, Kind::Transport, detail@),
    {
        Error::new(Kind::Transport, detail)
    }

    /// A fault of the protocol engine. Running out of authentication methods is
    /// no transport fault.
    pub fn protocol(no_methods_left: bool, detail: &str) -> (r: Self)
        ensures
            is_error(
                r,
                if no_methods_left {
                    Kind::Authentication
                } else {
                    Kind::Transport
                },
                detail@,
            ),
    {
        if no_methods_left {
            Error::new(Kind::Authentication, detail)
        } else {
            Error::new(Kind::Transport, detail)
        }
    }

    /// Remote text cannot reach the terminal as anything but text.
    pub fn message(&self) -> (r: String)
        ensures
            r@ == error_text(self.kind, self.detail@),
            !has_control(r@),
    {
        let mut out = String::new();
        out.append("SSH ");
        out.append(self.kind.name());
        out.append(": ");
        let shown = to_printable(self.detail.as_str());
        out.append(shown.as_str());
        proof {
            reveal_strlit("SSH ");
            reveal_strlit(": ");
            reveal_strlit("Configuration");
            reveal_strlit("Transport");
            reveal_strlit("UnknownHostKey");
            reveal_strlit("ChangedHostKey");
            reveal_strlit("Authentication");
            reveal_strlit("Timeout");
        }
        out
    }
}

/// Which keys are offered: those of the files in their order, then those of the
/// agent where it may be asked.
#[derive(Debug)]
pub struct Authentication {
    pub files: Vec<String>,
    pub agent: bool,
}

impl Authentication {
    /// One identity file and nothing else.
    pub fn identity(path: &str) -> (r: Self)
        ensures
            r.files@.len() == 1,
            r.files@[0]@ == path@,
            !r.agent,
    {
        let mut files: Vec<String> = Vec::new();
        files.push(path.to_owned());
        Authentication { files, agent: false }
    }

    /// The agent and no file.
    pub fn agent_only() -> (r: Self)
        ensures
            r.files@.len() == 0,
            r.agent,
    {
        Authentication { files: Vec::new(), agent: true }
    }
}

#[derive(Debug)]
pub struct Options {
    pub host: String,
    pub port: u16,
    pub user: String,
    pub known_hosts: String,
    /// The name under which the host's key is looked up, where it is not the
    /// host itself.
    pub host_key_alias: Option<String>,
    pub authentication: Authentication,
    /// Per-operation timeout in nanoseconds. Name resolution by the system is
    /// not covered by it.
    pub timeout: u128,
    /// The hosts to go through, in order, before `host` is reached. Each one
    /// checks its own host key and authenticates for itself: a jump host never
    /// vouches for the next one.
    pub jumps: Vec<Options>,
}

/// Why options are refused before anything is dialled.
#[derive(Clone, Copy, Debug, PartialEq, Eq, Structural)]
pub enum Fault {
    Host,
    UserOrPort,
    Timeout,
    KnownHosts,
    TooManyJumps,
    NestedJumps,
}

pub open spec fn fault_text(fault: Fault) -> Seq<char> {
    match fault {
        Fault::Host =>
            "host must be a DNS name or an unbracketed IP address, not an SSH alias/config fragment"@,
        Fault::UserOrPort => "invalid SSH user or port"@,
        Fault::Timeout => "SSH timeout must be between 1 ms and 300 s"@,
        Fault::KnownHosts => "an explicit known-hosts file is required"@,
        Fault::TooManyJumps => "too many jump hosts to traverse"@,
        Fault::NestedJumps => "a jump host may not have jump hosts of its own"@,
    }
}

impl Fault {
    fn error(self) -> (r: Error)
        ensures
            is_error(r, Kind::Configuration, fault_text(self)),
    {
        Error::new(
            Kind::Configuration,
            match self {
                Fault::Host =>
                    "host must be a DNS name or an unbracketed IP address, not an SSH alias/config fragment",
                Fault::UserOrPort => "invalid SSH user or port",
                Fault::Timeout => "SSH timeout must be between 1 ms and 300 s",
                Fault::KnownHosts => "an explicit known-hosts file is required",
                Fault::TooManyJumps => "too many jump hosts to traverse",
                Fault::NestedJumps => "a jump host may not have jump hosts of its own",
            },
        )
    }
}

pub open spec fn host_char(c: char) -> bool {
    ('0' <= c && c <= '9') || ('a' <= c && c <= 'z') || ('A' <= c && c <= 'Z') || c == '.' || c
        == '-' || c == ':' || c == '_'
}

/// A DNS name or an address that can be dialled as it stands.
pub open spec fn dialable(host: Seq<char>) -> bool {
    0 < host.len() <= 255 && forall|i: int| 0 <= i < host.len() ==> host_char(#[trigger] host[i])
}

pub open spec fn user_name(user: Seq<char>) -> bool {
    user.len() > 0 && utf8_len(user) <= 256 && !has_control(user) && !has_white(user)
}

/// The first thing wrong with options, apart from their chain.
pub open spec fn own_fault(o: Options) -> Option<Fault> {
    if !dialable(o.host@) {
        Some(Fault::Host)
    } else if o.port == 0 || !user_name(o.user@) {
        Some(Fault::UserOrPort)
    } else if o.timeout < MIN_TIMEOUT_NANOS || o.timeout > MAX_TIMEOUT_NANOS {
        Some(Fault::Timeout)
    } else if o.known_hosts@.len() == 0 {
        Some(Fault::KnownHosts)
    } else if o.jumps@.len() > MAX_JUMPS {
        Some(Fault::TooManyJumps)
    } else {
        None
    }
}

/// The first thing wrong with options, their chain after themselves.
pub open spec fn fault(o: Options) -> Option<Fault>
    decreases o, 0nat,
{
    match own_fault(o) {
        Some(found) => Some(found),
        None => {
            proof {
                assert(decreases_to!(o => o.jumps));
                assert(decreases_to!(o.jumps => o.jumps@));
            }
            chain_fault(o.jumps@)
        },
    }
}

/// The first thing wrong with a chain: each hop is held to what a destination is
/// held to, and has no chain of its own.
pub open spec fn chain_fault(jumps: Seq<Options>) -> Option<Fault>
    decreases jumps, 0nat,
{
    if jumps.len() == 0 {
        None
    } else {
        match chain_fault(jumps.drop_last()) {
            Some(found) => Some(found),
            None => match fault(jumps.last()) {
                Some(found) => Some(found),
                None => if jumps.last().jumps@.len() > 0 {
                    Some(Fault::NestedJumps)
                } else {
                    None
                },
            },
        }
    }
}

proof fn chain_fault_prefix(jumps: Seq<Options>, n: int)
    requires
        0 <= n <= jumps.len(),
        chain_fault(jumps.take(n)) is Some,
    ensures
        chain_fault(jumps) == chain_fault(jumps.take(n)),
    decreases jumps.len() - n,
{
    if n == jumps.len() {
        assert(jumps.take(n) =~= jumps);
    } else {
        assert(jumps.take(n + 1).drop_last() =~= jumps.take(n));
        chain_fault_prefix(jumps, n + 1);
    }
}

fn is_dialable(host: &str) -> (r: bool)
    ensures
        r == dialable(host@),
{
    let chars = chars_of(host);
    if chars.len() == 0 || chars.len() > 255 {
        return false;
    }
    let mut i: usize = 0;
    while i < chars.len()
        invariant
            i <= chars.len(),
            chars@ == host@,
            0 < chars.len() <= 255,
            forall|k: int| 0 <= k < i ==> host_char(#[trigger] chars@[k]),
        decreases chars.len() - i,
    {
        let c = chars[i];
        if !(('0' <= c && c <= '9') || ('a' <= c && c <= 'z') || ('A' <= c && c <= 'Z') || c == '.'
            || c == '-' || c == ':' || c == '_') {
            assert(!host_char(chars@[i as int]));
            return false;
        }
        i += 1;
    }
    true
}

impl Options {
    /// The name under which the host's key is looked up.
    pub fn host_key_name(&self) -> (r: &str)
        ensures
            r@ == match self.host_key_alias {
                Some(alias) => alias@,
                None => self.host@,
            },
    {
        match &self.host_key_alias {
            Some(alias) => alias.as_str(),
            None => self.host.as_str(),
        }
    }

    pub fn validate(&self) -> (r: Result<(), Error>)
        ensures
            match r {
                Ok(()) => fault(*self) is None,
                Err(error) => fault(*self) is Some && is_error(
                    error,
                    Kind::Configuration,
                    fault_text(fault(*self)->0),
                ),
            },
        decreases self,
    {
        if !is_dialable(self.host.as_str()) {
            return Err(Fault::Host.error());
        }
        let user = chars_of(self.user.as_str());
        if self.port == 0 || user.len() == 0 || byte_len(self.user.as_str()) > 256 || any_control(
            user.as_slice(),
        ) || any_white(user.as_slice()) {
            return Err(Fault::UserOrPort.error());
        }
        if self.timeout < MIN_TIMEOUT_NANOS || self.timeout > MAX_TIMEOUT_NANOS {
            return Err(Fault::Timeout.error());
        }
        if chars_of(self.known_hosts.as_str()).len() == 0 {
            return Err(Fault::KnownHosts.error());
        }
        if self.jumps.len() > MAX_JUMPS {
            return Err(Fault::TooManyJumps.error());
        }
        let mut i: usize = 0;
        while i < self.jumps.len()
            invariant
                i <= self.jumps.len(),
                own_fault(*self) is None,
                chain_fault(self.jumps@.take(i as int)) is None,
            decreases self.jumps.len() - i,
        {
            proof {
                assert(decreases_to!(self => self.jumps));
                assert(decreases_to!(self.jumps => self.jumps@));
                assert(decreases_to!(self.jumps@ => self.jumps@[i as int]));
                assert(self.jumps@.take(i + 1).drop_last() =~= self.jumps@.take(i as int));
                assert(self.jumps@.take(i + 1).last() == self.jumps@[i as int]);
                if chain_fault(self.jumps@.take(i + 1)) is Some {
                    chain_fault_prefix(self.jumps@, i + 1);
                }
            }
            let jump = &self.jumps[i];
            jump.validate()?;
            if jump.jumps.len() > 0 {
                return Err(Fault::NestedJumps.error());
            }
            i += 1;
        }
        proof {
            assert(self.jumps@.take(self.jumps@.len() as int) =~= self.jumps@);
        }
        Ok(())
    }
}

/// A chain that passed is at most `MAX_JUMPS` hosts long, each of them is
/// dialled directly or through the one before it, and none has a chain of its
/// own: a route cannot be made to run in a circle or without end.
pub proof fn validated_chains_are_flat_and_bounded(o: Options, i: int)
    requires
        fault(o) is None,
        0 <= i < o.jumps@.len(),
    ensures
        o.jumps@.len() <= MAX_JUMPS,
        fault(o.jumps@[i]) is None,
        o.jumps@[i].jumps@.len() == 0,
{
    chain_hop_passed(o.jumps@, i);
}

proof fn chain_hop_passed(jumps: Seq<Options>, i: int)
    requires
        chain_fault(jumps) is None,
        0 <= i < jumps.len(),
    ensures
        fault(jumps[i]) is None,
        jumps[i].jumps@.len() == 0,
    decreases jumps.len(),
{
    if i < jumps.len() - 1 {
        chain_hop_passed(jumps.drop_last(), i);
        assert(jumps.drop_last()[i] == jumps[i]);
    }
}

/// The address of one leg of a route.
#[derive(Debug)]
pub struct Leg {
    pub host: String,
    pub port: u16,
}

/// The addresses of a route: its jump hosts in their order, then the host.
pub open spec fn route_of(o: Options) -> Seq<(Seq<char>, u16)> {
    hops_of(o.jumps@).push((o.host@, o.port))
}

pub open spec fn hops_of(jumps: Seq<Options>) -> Seq<(Seq<char>, u16)> {
    jumps.map_values(|jump: Options| (jump.host@, jump.port))
}

pub open spec fn legs_of(legs: Seq<Leg>) -> Seq<(Seq<char>, u16)> {
    legs.map_values(|leg: Leg| (leg.host@, leg.port))
}

/// The route of a connection. Its first leg is dialled, and each other leg is
/// opened as a forward from the one before it. Nothing is dialled for options
/// that do not pass.
pub fn route(options: &Options) -> (r: Result<Vec<Leg>, Error>)
    ensures
        match r {
            Ok(legs) => fault(*options) is None && legs_of(legs@) == route_of(*options),
            Err(error) => fault(*options) is Some && is_error(
                error,
                Kind::Configuration,
                fault_text(fault(*options)->0),
            ),
        },
{
    options.validate()?;
    let mut legs: Vec<Leg> = Vec::new();
    let mut i: usize = 0;
    while i < options.jumps.len()
        invariant
            i <= options.jumps.len(),
            legs_of(legs@) == hops_of(options.jumps@.take(i as int)),
        decreases options.jumps.len() - i,
    {
        let jump = &options.jumps[i];
        let leg = Leg { host: jump.host.clone(), port: jump.port };
        proof {
            assert(legs_of(legs@.push(leg)) =~= legs_of(legs@).push((jump.host@, jump.port)));
            assert(hops_of(options.jumps@.take(i + 1)) =~= hops_of(
                options.jumps@.take(i as int),
            ).push((jump.host@, jump.port)));
        }
        legs.push(leg);
        i += 1;
    }
    let leg = Leg { host: options.host.clone(), port: options.port };
    proof {
        assert(options.jumps@.take(options.jumps@.len() as int) =~= options.jumps@);
        assert(legs_of(legs@.push(leg)) =~= legs_of(legs@).push((options.host@, options.port)));
    }
    legs.push(leg);
    Ok(legs)
}

/// The time that an operation has left, both instants counted from one origin.
pub fn remaining(deadline: u128, now: u128) -> (r: Result<u128, Error>)
    ensures
        match r {
            Ok(left) => now < deadline && left == deadline - now,
            Err(error) => deadline <= now && is_error(
                error,
                Kind::Timeout,
                "operation deadline expired"@,
            ),
        },
{
    if now < deadline {
        Ok(deadline - now)
    } else {
        Err(Error::new(Kind::Timeout, "operation deadline expired"))
    }
}

/// A command that may be handed to a server to execute.
pub open spec fn executable(command: Seq<char>) -> bool {
    command.len() > 0 && utf8_len(command) <= 8192 && !command.contains('\0')
}

pub fn check_exec(command: &str) -> (r: Result<(), Error>)
    ensures
        match r {
            Ok(()) => executable(command@),
            Err(error) => !executable(command@) && is_error(
                error,
                Kind::Configuration,
                "invalid remote exec command"@,
            ),
        },
{
    let chars = chars_of(command);
    if chars.len() == 0 || byte_len(command) > 8192 || contains_char(chars.as_slice(), '\0') {
        Err(Error::new(Kind::Configuration, "invalid remote exec command"))
    } else {
        Ok(())
    }
}

/// A destination that a server may be asked to connect to.
pub open spec fn forwardable(address: Seq<char>, port: u16) -> bool {
    address.len() > 0 && utf8_len(address) <= 255 && port != 0
}

pub fn check_forward(address: &str, port: u16) -> (r: Result<(), Error>)
    ensures
        match r {
            Ok(()) => forwardable(address@, port),
            Err(error) => !forwardable(address@, port) && is_error(
                error,
                Kind::Configuration,
                "invalid forwarding destination"@,
            ),
        },
{
    if chars_of(address).len() == 0 || byte_len(address) > 255 || port == 0 {
        Err(Error::new(Kind::Configuration, "invalid forwarding destination"))
    } else {
        Ok(())
    }
}

/// What the protocol engine reports.
#[derive(Clone, Copy, Debug, PartialEq, Eq, Structural)]
pub enum Event {
    Idle,
    Progressed,
    HostKey,
    Username,
    PublicKey,
    Signature,
    Password,
    Authenticated,
    Opened(u32),
    Exited,
    Banner,
    Defunct,
    PollAgain,
    Server,
}

/// What the engine is answered.
#[derive(Debug)]
pub enum Answer {
    Nothing,
    /// Hold the key against the known hosts, and accept it only if it is there.
    CheckHostKey,
    GiveUser,
    /// Offer the next key, after the keys were loaded.
    OfferKey,
    Sign,
    /// Skip the request, then fail with this error.
    RefusePassword(Error),
    Execute(String),
}

/// How far a connection has come.
#[derive(Debug)]
pub struct Link {
    pub verified: bool,
    pub authenticated: bool,
    pub started: bool,
    pub closed: bool,
    /// Whether keys were loaded, which only an accepted host key leads to.
    pub loaded: bool,
    pub channel: Option<u32>,
    pub command: Option<String>,
}

/// The link that a connection begins with.
pub open spec fn fresh(link: Link) -> bool {
    !link.verified && !link.authenticated && !link.started && !link.closed && !link.loaded
        && link.channel is None && link.command is None
}

/// Why an event is a fault, if it is one.
pub open spec fn misplaced(link: Link, event: Event) -> Option<Seq<char>> {
    match event {
        Event::Username => if link.verified {
            None
        } else {
            Some("authentication requested before verified host key"@)
        },
        Event::PublicKey => if link.verified {
            None
        } else {
            Some("identity requested before verified host key"@)
        },
        Event::Signature => if link.loaded {
            None
        } else {
            Some("unexpected signing request"@)
        },
        Event::Authenticated => if link.verified {
            None
        } else {
            Some("unverified authentication"@)
        },
        Event::Opened(channel) => if link.channel != Some(channel) {
            Some("unexpected SSH channel"@)
        } else if link.command is None {
            Some("unexpected exec notification"@)
        } else {
            None
        },
        Event::Server => Some("unexpected server-side event"@),
        _ => None,
    }
}

pub open spec fn password_text() -> Seq<char> {
    "server requires another authentication method; no password fallback"@
}

/// The answer to an event that is in place.
pub open spec fn answers(link: Link, event: Event, answer: Answer) -> bool {
    match event {
        Event::HostKey => answer is CheckHostKey,
        Event::Username => answer is GiveUser,
        Event::PublicKey => answer is OfferKey,
        Event::Signature => answer is Sign,
        Event::Password => answer matches Answer::RefusePassword(error) && is_error(
            error,
            Kind::Authentication,
            password_text(),
        ),
        Event::Opened(_) => answer matches Answer::Execute(command) && Some(command)
            == link.command,
        _ => answer is Nothing,
    }
}

/// The link behind an event.
pub open spec fn advanced(link: Link, event: Event) -> Link {
    if misplaced(link, event) is Some {
        link
    } else {
        match event {
            Event::Authenticated => Link { authenticated: true, ..link },
            Event::Opened(_) => Link { command: None, started: true, ..link },
            Event::Defunct => Link { closed: true, ..link },
            _ => link,
        }
    }
}

/// The link behind a check of the server's key.
pub open spec fn host_checked(link: Link, accepted: bool) -> Link {
    if accepted {
        Link { verified: true, ..link }
    } else {
        link
    }
}

/// What opening a link is waiting for.
#[derive(Clone, Copy, Debug, PartialEq, Eq, Structural)]
pub enum Goal {
    Authentication,
    Exec,
    Forward,
}

pub open spec fn ended_text(goal: Goal) -> Seq<char> {
    match goal {
        Goal::Authentication => "connection ended before authentication"@,
        Goal::Exec => "connection ended opening exec channel"@,
        Goal::Forward => "connection ended opening the forward"@,
    }
}

pub open spec fn refused_text() -> Seq<char> {
    "the server refused to open the forward; it may not allow TCP forwarding, or the destination refused the connection"@
}

impl Link {
    pub fn new() -> (r: Self)
        ensures
            fresh(r),
    {
        Link {
            verified: false,
            authenticated: false,
            started: false,
            closed: false,
            loaded: false,
            channel: None,
            command: None,
        }
    }

    /// Answer one event of the protocol engine.
    pub fn answer(&mut self, event: Event) -> (r: Result<Answer, Error>)
        ensures
            *final(self) == advanced(*old(self), event),
            match r {
                Ok(answer) => misplaced(*old(self), event) is None && answers(
                    *old(self),
                    event,
                    answer,
                ),
                Err(error) => misplaced(*old(self), event) is Some && is_error(
                    error,
                    Kind::Transport,
                    misplaced(*old(self), event)->0,
                ),
            },
    {
        match event {
            Event::HostKey => Ok(Answer::CheckHostKey),
            Event::Username => if self.verified {
                Ok(Answer::GiveUser)
            } else {
                Err(Error::transport("authentication requested before verified host key"))
            },
            Event::PublicKey => if self.verified {
                Ok(Answer::OfferKey)
            } else {
                Err(Error::transport("identity requested before verified host key"))
            },
            Event::Signature => if self.loaded {
                Ok(Answer::Sign)
            } else {
                Err(Error::transport("unexpected signing request"))
            },
            Event::Password => Ok(
                Answer::RefusePassword(
                    Error::new(
                        Kind::Authentication,
                        "server requires another authentication method; no password fallback",
                    ),
                ),
            ),
            Event::Authenticated => if self.verified {
                self.authenticated = true;
                Ok(Answer::Nothing)
            } else {
                Err(Error::transport("unverified authentication"))
            },
            Event::Opened(channel) => {
                let own = match self.channel {
                    Some(number) => number == channel,
                    None => false,
                };
                if !own {
                    return Err(Error::transport("unexpected SSH channel"));
                }
                match self.command.take() {
                    Some(command) => {
                        self.started = true;
                        Ok(Answer::Execute(command))
                    },
                    None => Err(Error::transport("unexpected exec notification")),
                }
            },
            Event::Defunct => {
                self.closed = true;
                Ok(Answer::Nothing)
            },
            Event::Server => Err(Error::transport("unexpected server-side event")),
            Event::Idle
            | Event::Progressed
            | Event::Exited
            | Event::Banner
            | Event::PollAgain => Ok(Answer::Nothing),
        }
    }

    /// The server's key was held against the known hosts, for the first or a later
    /// key exchange. A key that is refused is never accepted: its error is handed
    /// back and ends the turn, and the link stays as it was.
    pub fn host_key_checked(&mut self, verdict: Result<String, Error>) -> (r: Result<String, Error>)
        ensures
            r == verdict,
            *final(self) == host_checked(*old(self), verdict is Ok),
    {
        if verdict.is_ok() {
            self.verified = true;
        }
        verdict
    }

    /// Give the connection up, as behind every failed turn.
    pub fn abort(&mut self)
        ensures
            *final(self) == (Link { closed: true, ..*old(self) }),
    {
        self.closed = true;
    }

    /// Keys are loaded once, and only behind an accepted host key.
    pub fn keys_loaded(&mut self)
        requires
            old(self).verified,
        ensures
            *final(self) == (Link { loaded: true, ..*old(self) }),
    {
        self.loaded = true;
    }

    /// A channel was opened to run this command.
    pub fn open_exec(&mut self, channel: u32, command: &str)
        requires
            executable(command@),
        ensures
            final(self).channel == Some(channel),
            final(self).command matches Some(given) && given@ == command@,
            final(self).verified == old(self).verified,
            final(self).authenticated == old(self).authenticated,
            final(self).started == old(self).started,
            final(self).closed == old(self).closed,
            final(self).loaded == old(self).loaded,
    {
        self.channel = Some(channel);
        self.command = Some(command.to_owned());
    }

    /// A channel was opened to carry a forward. Nothing is executed on it.
    pub fn open_forward(&mut self, channel: u32)
        ensures
            *final(self) == (Link { channel: Some(channel), ..*old(self) }),
    {
        self.channel = Some(channel);
    }

    /// Whether what is waited for has come, asked behind each turn of work. For
    /// a forward, `reached` says that the channel can be written to and
    /// `finished` that it never will be.
    pub fn settled(&self, goal: Goal, reached: bool, finished: bool) -> (r: Result<bool, Error>)
        ensures
            match r {
                Ok(done) => !self.closed && !(goal == Goal::Forward && finished) && done == (
                match goal {
                    Goal::Authentication => self.authenticated,
                    Goal::Exec => self.started,
                    Goal::Forward => reached,
                }),
                Err(error) => is_error(
                    error,
                    Kind::Transport,
                    if self.closed {
                        ended_text(goal)
                    } else {
                        refused_text()
                    },
                ) && (self.closed || (goal == Goal::Forward && finished)),
            },
    {
        if self.closed {
            return Err(
                Error::transport(
                    match goal {
                        Goal::Authentication => "connection ended before authentication",
                        Goal::Exec => "connection ended opening exec channel",
                        Goal::Forward => "connection ended opening the forward",
                    },
                ),
            );
        }
        match goal {
            Goal::Authentication => Ok(self.authenticated),
            Goal::Exec => Ok(self.started),
            Goal::Forward => if finished {
                Err(
                    Error::transport(
                        "the server refused to open the forward; it may not allow TCP forwarding, or the destination refused the connection",
                    ),
                )
            } else {
                Ok(reached)
            },
        }
    }

    /// Data may only arrive on the channel that was opened here.
    pub fn check_channel(&self, number: u32) -> (r: Result<(), Error>)
        ensures
            match r {
                Ok(()) => self.channel == Some(number),
                Err(error) => self.channel != Some(number) && is_error(
                    error,
                    Kind::Transport,
                    if self.channel is None {
                        "data before exec channel"@
                    } else {
                        "data for unknown channel"@
                    },
                ),
            },
    {
        match self.channel {
            None => Err(Error::transport("data before exec channel")),
            Some(own) => if own == number {
                Ok(())
            } else {
                Err(Error::transport("data for unknown channel"))
            },
        }
    }
}

/// What a link keeps through every event: no key is loaded and nobody is
/// authenticated before the host key was accepted.
pub open spec fn trusted(link: Link) -> bool {
    (link.authenticated ==> link.verified) && (link.loaded ==> link.verified)
}

/// A name, an identity or a signature is given only to a server whose host key
/// was accepted, whatever the server asks for and in whatever order.
pub proof fn nothing_is_given_before_the_host_key(link: Link, event: Event, answer: Answer)
    requires
        trusted(link),
        misplaced(link, event) is None,
        answers(link, event, answer),
        answer is GiveUser || answer is OfferKey || answer is Sign,
    ensures
        link.verified,
{
}

/// No event leads to trust that was not there: a link that begins fresh stays
/// trusted, and only an accepted host key makes it verified.
pub proof fn trust_is_kept(link: Link, event: Event)
    requires
        trusted(link),
    ensures
        trusted(advanced(link, event)),
        advanced(link, event).verified == link.verified,
{
}

/// What happens to a link: an event, a check of the server's key, the keys being
/// loaded, or the connection being given up.
pub enum Step {
    Event(Event),
    Checked(bool),
    Loaded,
    Aborted,
}

/// The link behind a step. Keys are loaded behind an accepted host key alone.
pub open spec fn stepped(link: Link, step: Step) -> Link {
    match step {
        Step::Event(event) => advanced(link, event),
        Step::Checked(accepted) => host_checked(link, accepted),
        Step::Loaded => if link.verified {
            Link { loaded: true, ..link }
        } else {
            link
        },
        Step::Aborted => Link { closed: true, ..link },
    }
}

/// The link behind several steps.
pub open spec fn followed(link: Link, steps: Seq<Step>) -> Link
    decreases steps.len(),
{
    if steps.len() == 0 {
        link
    } else {
        stepped(followed(link, steps.drop_last()), steps.last())
    }
}

/// A refused host key is never accepted, whatever was accepted before: it leaves
/// the link as it was.
pub proof fn a_refused_host_key_is_not_accepted(link: Link)
    ensures
        host_checked(link, false) == link,
        host_checked(link, false).verified == link.verified,
{
}

/// A connection that was given up, as behind a refused host key, stays so whatever
/// comes later, and has no work left.
pub proof fn an_aborted_link_stays_closed(link: Link, later: Seq<Step>)
    ensures
        followed(stepped(host_checked(link, false), Step::Aborted), later).closed,
    decreases later.len(),
{
    if later.len() > 0 {
        an_aborted_link_stays_closed(link, later.drop_last());
    }
}

/// Whatever a server does from the beginning, the user's name, a public key and a
/// signature are given only behind a host key that was accepted.
pub proof fn the_host_key_comes_first(link: Link, steps: Seq<Step>, event: Event, answer: Answer)
    requires
        fresh(link),
        misplaced(followed(link, steps), event) is None,
        answers(followed(link, steps), event, answer),
        answer is GiveUser || answer is OfferKey || answer is Sign,
    ensures
        steps.contains(Step::Checked(true)),
{
    trust_has_a_cause(link, steps);
    nothing_is_given_before_the_host_key(followed(link, steps), event, answer);
}

proof fn trust_has_a_cause(link: Link, steps: Seq<Step>)
    requires
        fresh(link),
    ensures
        trusted(followed(link, steps)),
        followed(link, steps).verified ==> steps.contains(Step::Checked(true)),
    decreases steps.len(),
{
    if steps.len() > 0 {
        trust_has_a_cause(link, steps.drop_last());
        assert forall|step: Step| steps.drop_last().contains(step) implies steps.contains(step) by {
            let i = choose|i: int| 0 <= i < steps.len() - 1 && steps.drop_last()[i] == step;
            assert(steps[i] == step);
        }
        assert(steps[steps.len() - 1] == steps.last());
    }
}

/// A password is never given: the request is refused as a failed authentication,
/// and the link stays as it was.
pub proof fn a_password_is_refused(link: Link, answer: Answer)
    requires
        answers(link, Event::Password, answer),
    ensures
        answer matches Answer::RefusePassword(error) && is_error(
            error,
            Kind::Authentication,
            password_text(),
        ),
        misplaced(link, Event::Password) is None,
        advanced(link, Event::Password) == link,
{
}

/// A command is executed once: the event that starts it leaves none behind.
pub proof fn a_command_runs_once(link: Link, channel: u32, again: Event)
    requires
        misplaced(link, Event::Opened(channel)) is None,
        again is Opened,
    ensures
        misplaced(advanced(link, Event::Opened(channel)), again) is Some,
{
}

/// The keys of one connection, offered one after the other.
#[derive(Debug)]
pub struct Offers {
    pub total: usize,
    pub offered: usize,
}

/// What a request for a key is answered.
#[derive(Debug)]
pub enum Offer {
    Key(usize),
    /// There are no more keys. One was offered before, and the engine goes on.
    Skip,
    /// There never was a key: skip the request, then fail with this error.
    SkipAndFail(Error),
}

impl Offers {
    pub open spec fn wf(self) -> bool {
        self.offered <= self.total
    }

    pub fn new(total: usize) -> (r: Self)
        ensures
            r.wf(),
            r.total == total,
            r.offered == 0,
    {
        Offers { total, offered: 0 }
    }

    /// Another request behind an offered key only asks whether there are more:
    /// running out of keys then fails nothing.
    pub fn next(&mut self) -> (r: Offer)
        requires
            old(self).wf(),
        ensures
            final(self).wf(),
            final(self).total == old(self).total,
            match r {
                Offer::Key(index) => old(self).offered < old(self).total && index
                    == old(self).offered && final(self).offered == old(self).offered + 1,
                Offer::Skip => old(self).offered == old(self).total && old(self).offered > 0
                    && final(self).offered == old(self).offered,
                Offer::SkipAndFail(error) => old(self).total == 0 && final(self).offered == 0
                    && is_error(
                    error,
                    Kind::Authentication,
                    "no supported identities were available to offer"@,
                ),
            },
    {
        if self.offered < self.total {
            let index = self.offered;
            self.offered = self.offered + 1;
            Offer::Key(index)
        } else if self.offered > 0 {
            Offer::Skip
        } else {
            Offer::SkipAndFail(
                Error::new(
                    Kind::Authentication,
                    "no supported identities were available to offer",
                ),
            )
        }
    }
}

/// Where a turn of work stands.
#[derive(Clone, Copy, Debug, PartialEq, Eq, Structural)]
pub enum Stage {
    DrainFirst,
    Advance,
    Flush,
    DrainLast,
    Receive,
}

/// What is to be done next. Each is reported with whether anything moved; a
/// drain also with whether channel data is still waiting.
#[derive(Clone, Copy, Debug, PartialEq, Eq, Structural)]
pub enum Work {
    Drain,
    Advance,
    Flush,
    Receive,
    /// The turn is over; whether anything moved in it.
    Done(bool),
}

/// One turn of bounded work on a connection.
#[derive(Clone, Copy, Debug, PartialEq, Eq, Structural)]
pub struct Turn {
    pub stage: Stage,
    pub rounds: u32,
    pub moved: bool,
    pub ever_moved: bool,
}

/// How a turn goes on. Waiting channel data ends it, so that a full queue stops
/// reading rather than dropping output; so do a closed link, a round in which
/// nothing moved and the last round of the budget.
pub open spec fn turned(t: Turn, closed: bool, moved: bool, waiting: bool) -> (Turn, Work) {
    let now = Turn { moved: t.moved || moved, ..t };
    match t.stage {
        Stage::DrainFirst => if waiting {
            (now, Work::Done(now.ever_moved || now.moved))
        } else {
            (Turn { stage: Stage::Advance, ..now }, Work::Advance)
        },
        Stage::Advance => if closed {
            (now, Work::Done(true))
        } else {
            (Turn { stage: Stage::Flush, ..now }, Work::Flush)
        },
        Stage::Flush => (Turn { stage: Stage::DrainLast, ..now }, Work::Drain),
        Stage::DrainLast => if waiting {
            (now, Work::Done(now.ever_moved || now.moved))
        } else {
            (Turn { stage: Stage::Receive, ..now }, Work::Receive)
        },
        Stage::Receive => if !now.moved || t.rounds + 1 >= DRIVE_BUDGET {
            (now, Work::Done(now.ever_moved || now.moved))
        } else {
            (
                Turn {
                    stage: Stage::DrainFirst,
                    rounds: (t.rounds + 1) as u32,
                    moved: false,
                    ever_moved: true,
                },
                Work::Drain,
            )
        },
    }
}

pub open spec fn stage_rank(stage: Stage) -> int {
    match stage {
        Stage::DrainFirst => 0,
        Stage::Advance => 1,
        Stage::Flush => 2,
        Stage::DrainLast => 3,
        Stage::Receive => 4,
    }
}

/// The pieces of work that a turn has behind it.
pub open spec fn work_done(t: Turn) -> int {
    t.rounds * 5 + stage_rank(t.stage)
}

impl Turn {
    pub open spec fn wf(self) -> bool {
        self.rounds < DRIVE_BUDGET
    }

    /// Begin a turn. A closed link has no work.
    pub fn begin(closed: bool) -> (r: (Self, Work))
        ensures
            r.0 == (Turn {
                stage: Stage::DrainFirst,
                rounds: 0,
                moved: false,
                ever_moved: false,
            }),
            r.0.wf(),
            r.1 == if closed {
                Work::Done(false)
            } else {
                Work::Drain
            },
    {
        let turn = Turn { stage: Stage::DrainFirst, rounds: 0, moved: false, ever_moved: false };
        (
            turn,
            if closed {
                Work::Done(false)
            } else {
                Work::Drain
            },
        )
    }

    /// Report the last piece of work and learn the next one.
    pub fn report(&mut self, closed: bool, moved: bool, waiting: bool) -> (r: Work)
        requires
            old(self).wf(),
        ensures
            final(self).wf(),
            (*final(self), r) == turned(*old(self), closed, moved, waiting),
    {
        self.moved = self.moved || moved;
        match self.stage {
            Stage::DrainFirst => if waiting {
                Work::Done(self.ever_moved || self.moved)
            } else {
                self.stage = Stage::Advance;
                Work::Advance
            },
            Stage::Advance => if closed {
                Work::Done(true)
            } else {
                self.stage = Stage::Flush;
                Work::Flush
            },
            Stage::Flush => {
                self.stage = Stage::DrainLast;
                Work::Drain
            },
            Stage::DrainLast => if waiting {
                Work::Done(self.ever_moved || self.moved)
            } else {
                self.stage = Stage::Receive;
                Work::Receive
            },
            Stage::Receive => if !self.moved || self.rounds + 1 >= DRIVE_BUDGET {
                Work::Done(self.ever_moved || self.moved)
            } else {
                self.stage = Stage::DrainFirst;
                self.rounds = self.rounds + 1;
                self.moved = false;
                self.ever_moved = true;
                Work::Drain
            },
        }
    }
}

/// Every turn ends: each piece of work brings it nearer to the end of its
/// budget, whatever a server sends.
pub proof fn turns_end(t: Turn, closed: bool, moved: bool, waiting: bool)
    requires
        t.wf(),
        turned(t, closed, moved, waiting).1 !is Done,
    ensures
        turned(t, closed, moved, waiting).0.wf(),
        work_done(t) < work_done(turned(t, closed, moved, waiting).0) < 5 * DRIVE_BUDGET,
{
}

/// A turn over an open link says truthfully whether anything moved in it.
pub proof fn turns_report_what_moved(t: Turn, moved: bool, waiting: bool)
    ensures
        turned(t, false, moved, waiting).1 matches Work::Done(said) ==> said == (t.ever_moved
            || t.moved || moved),
        turned(t, false, moved, waiting).1 !is Done ==> (turned(t, false, moved, waiting).0.moved
            || turned(t, false, moved, waiting).0.ever_moved) == (t.ever_moved || t.moved
            || moved),
{
}

/// What a read or a write came to.
#[derive(Debug)]
pub enum Io {
    Count(usize),
    WouldBlock,
    Interrupted,
    Failed(String),
}

/// Whether a write moved anything. A transport that takes nothing has closed,
/// and nobody knows what it delivered.
pub fn written(outcome: Io) -> (r: Result<bool, Error>)
    ensures
        match outcome {
            Io::Count(count) => if count == 0 {
                r matches Err(error) && is_error(
                    error,
                    Kind::Transport,
                    "SSH transport closed during write; delivery is uncertain"@,
                )
            } else {
                r == Ok::<bool, Error>(true)
            },
            Io::WouldBlock => r == Ok::<bool, Error>(false),
            Io::Interrupted => r == Ok::<bool, Error>(true),
            Io::Failed(detail) => r matches Err(error) && is_error(
                error,
                Kind::Transport,
                detail@,
            ),
        },
{
    match outcome {
        Io::Count(count) => if count == 0 {
            Err(Error::transport("SSH transport closed during write; delivery is uncertain"))
        } else {
            Ok(true)
        },
        Io::WouldBlock => Ok(false),
        Io::Interrupted => Ok(true),
        Io::Failed(detail) => Err(Error::transport(detail.as_str())),
    }
}

/// Whether a wait for the socket is over: something is ready, or somebody asked
/// for attention. A wait that came back for nothing is taken up again.
pub fn woken(outcome: Io, wanted: bool) -> (r: Result<bool, Error>)
    ensures
        match outcome {
            Io::Count(count) => r == Ok::<bool, Error>(count != 0 || wanted),
            Io::WouldBlock | Io::Interrupted => r == Ok::<bool, Error>(false),
            Io::Failed(detail) => r matches Err(error) && is_error(
                error,
                Kind::Transport,
                detail@,
            ),
        },
{
    match outcome {
        Io::Count(count) => Ok(count != 0 || wanted),
        Io::WouldBlock | Io::Interrupted => Ok(false),
        Io::Failed(detail) => Err(Error::transport(detail.as_str())),
    }
}

/// Bytes that were received and not yet handed to the protocol engine.
#[derive(Debug)]
pub struct Inbox {
    bytes: Vec<u8>,
    offset: usize,
}

/// What a read means for the protocol engine.
#[derive(Clone, Copy, Debug, PartialEq, Eq, Structural)]
pub enum Received {
    /// The other side sends no more: the engine's input is closed.
    End,
    Bytes,
    Nothing,
    /// Nothing came, and the read is worth another round.
    Again,
}

impl View for Inbox {
    type V = Seq<u8>;

    closed spec fn view(&self) -> Seq<u8> {
        self.bytes@.skip(self.offset as int)
    }
}

impl Inbox {
    #[verifier::type_invariant]
    pub closed spec fn wf(self) -> bool {
        self.offset <= self.bytes@.len()
    }

    pub fn new() -> (r: Self)
        ensures
            r@.len() == 0,
    {
        Inbox { bytes: Vec::new(), offset: 0 }
    }

    pub fn is_empty(&self) -> (r: bool)
        ensures
            r == (self@.len() == 0),
    {
        proof {
            use_type_invariant(self);
        }
        self.offset == self.bytes.len()
    }

    /// Take in what a read into `buffer` came to, once the inbox is empty.
    pub fn receive(&mut self, outcome: Io, buffer: &[u8]) -> (r: Result<Received, Error>)
        requires
            old(self)@.len() == 0,
            outcome matches Io::Count(count) ==> count <= buffer@.len(),
        ensures
            match outcome {
                Io::Count(count) => final(self)@ == buffer@.take(count as int) && r == Ok::<
                    Received,
                    Error,
                >(
                    if count == 0 {
                        Received::End
                    } else {
                        Received::Bytes
                    },
                ),
                Io::WouldBlock => final(self)@ == old(self)@ && r == Ok::<Received, Error>(
                    Received::Nothing,
                ),
                Io::Interrupted => final(self)@ == old(self)@ && r == Ok::<Received, Error>(
                    Received::Again,
                ),
                Io::Failed(detail) => final(self)@ == old(self)@ && (r matches Err(error)
                    && is_error(error, Kind::Transport, detail@)),
            },
    {
        match outcome {
            Io::Count(count) => {
                let mut bytes: Vec<u8> = Vec::new();
                let mut i: usize = 0;
                while i < count
                    invariant
                        i <= count <= buffer@.len(),
                        bytes@ == buffer@.take(i as int),
                    decreases count - i,
                {
                    bytes.push(buffer[i]);
                    proof {
                        assert(buffer@.take(i + 1) =~= buffer@.take(i as int).push(
                            buffer@[i as int],
                        ));
                    }
                    i += 1;
                }
                *self = Inbox { bytes, offset: 0 };
                proof {
                    assert(self@ =~= buffer@.take(count as int));
                }
                if count == 0 {
                    Ok(Received::End)
                } else {
                    Ok(Received::Bytes)
                }
            },
            Io::WouldBlock => Ok(Received::Nothing),
            Io::Interrupted => Ok(Received::Again),
            Io::Failed(detail) => Err(Error::transport(detail.as_str())),
        }
    }

    /// What is to be handed to the engine.
    pub fn rest(&self) -> (r: &[u8])
        ensures
            r@ == self@,
    {
        proof {
            use_type_invariant(self);
        }
        let rest = vstd::slice::slice_subrange(
            self.bytes.as_slice(),
            self.offset,
            self.bytes.len(),
        );
        proof {
            assert(rest@ =~= self@);
        }
        rest
    }

    /// The engine took the first `count` bytes; whether it took any.
    pub fn taken(&mut self, count: usize) -> (r: bool)
        requires
            count <= old(self)@.len(),
        ensures
            final(self)@ == old(self)@.skip(count as int),
            r == (count != 0),
    {
        proof {
            use_type_invariant(&*self);
        }
        let length = self.bytes.len();
        assert(self.offset + count <= length);
        self.offset = self.offset + count;
        proof {
            assert(self@ =~= old(self)@.skip(count as int));
        }
        count != 0
    }
}

/// The two streams of a channel, which are never mixed.
#[derive(Clone, Copy, Debug, PartialEq, Eq, Structural)]
pub enum Stream {
    Normal,
    Stderr,
}

pub open spec fn limit(stream: Stream) -> nat {
    match stream {
        Stream::Normal => MAX_QUEUED_STDOUT as nat,
        Stream::Stderr => MAX_QUEUED_STDERR as nat,
    }
}

/// The output of a channel that was received and not yet read.
#[derive(Debug)]
pub struct Queues {
    stdout: VecDeque<u8>,
    stderr: VecDeque<u8>,
}

/// What a read of a stream comes to.
#[derive(Debug)]
pub enum Read {
    /// The bytes; none of them where nothing was asked for or at the end.
    Bytes(Vec<u8>),
    WouldBlock,
}

fn take_front(queue: &mut VecDeque<u8>, count: usize) -> (r: Vec<u8>)
    requires
        count <= old(queue)@.len(),
    ensures
        r@ == old(queue)@.take(count as int),
        final(queue)@ == old(queue)@.skip(count as int),
{
    let mut out: Vec<u8> = Vec::new();
    let ghost all = queue@;
    proof {
        assert(queue@ =~= all.skip(0));
    }
    while out.len() < count
        invariant
            out.len() <= count <= all.len(),
            out@ == all.take(out.len() as int),
            queue@ == all.skip(out.len() as int),
        decreases count - out.len(),
    {
        let ghost before = out.len();
        match queue.pop_front() {
            Some(byte) => {
                out.push(byte);
                proof {
                    assert(out@ =~= all.take(before + 1));
                    assert(queue@ =~= all.skip(before + 1));
                }
            },
            None => {},
        }
    }
    out
}

fn put_back(queue: &mut VecDeque<u8>, bytes: &[u8])
    ensures
        final(queue)@ == old(queue)@ + bytes@,
{
    let ghost start = queue@;
    let mut i: usize = 0;
    proof {
        assert(queue@ =~= start + bytes@.take(0));
    }
    while i < bytes.len()
        invariant
            i <= bytes.len(),
            queue@ == start + bytes@.take(i as int),
        decreases bytes.len() - i,
    {
        queue.push_back(bytes[i]);
        proof {
            assert(queue@ =~= start + bytes@.take(i + 1));
        }
        i += 1;
    }
    proof {
        assert(bytes@.take(bytes@.len() as int) =~= bytes@);
    }
}

impl Queues {
    pub closed spec fn queued(self, stream: Stream) -> Seq<u8> {
        match stream {
            Stream::Normal => self.stdout@,
            Stream::Stderr => self.stderr@,
        }
    }

    /// Neither queue is longer than its limit.
    pub open spec fn bounded(self) -> bool {
        forall|stream: Stream| #[trigger] self.queued(stream).len() <= limit(stream)
    }

    pub fn new() -> (r: Self)
        ensures
            forall|stream: Stream| #[trigger] r.queued(stream) == Seq::<u8>::empty(),
            r.bounded(),
    {
        Queues { stdout: VecDeque::new(), stderr: VecDeque::new() }
    }

    /// How many of `pending` bytes may be taken from the channel now.
    pub fn room(&self, stream: Stream, pending: usize) -> (r: usize)
        requires
            self.bounded(),
        ensures
            r <= MAX_DRAIN,
            r <= pending,
            r + self.queued(stream).len() <= limit(stream),
            r == MAX_DRAIN || r == pending || r + self.queued(stream).len() == limit(stream),
    {
        assert(self.queued(stream).len() <= limit(stream));
        let left = match stream {
            Stream::Normal => MAX_QUEUED_STDOUT - self.stdout.len(),
            Stream::Stderr => MAX_QUEUED_STDERR - self.stderr.len(),
        };
        let mut room: usize = MAX_DRAIN;
        if left < room {
            room = left;
        }
        if pending < room {
            room = pending;
        }
        room
    }

    /// Queue bytes that were taken from the channel; whether there were any.
    pub fn put(&mut self, stream: Stream, bytes: &[u8]) -> (r: bool)
        requires
            old(self).bounded(),
            bytes@.len() + old(self).queued(stream).len() <= limit(stream),
        ensures
            final(self).bounded(),
            final(self).queued(stream) == old(self).queued(stream) + bytes@,
            forall|other: Stream|
                other != stream ==> #[trigger] final(self).queued(other) == old(self).queued(
                    other,
                ),
            r == (bytes@.len() != 0),
    {
        match stream {
            Stream::Normal => put_back(&mut self.stdout, bytes),
            Stream::Stderr => put_back(&mut self.stderr, bytes),
        }
        proof {
            assert forall|other: Stream| #[trigger] self.queued(other).len() <= limit(other) by {
                assert(old(self).queued(other).len() <= limit(other));
            }
        }
        bytes.len() != 0
    }

    /// Read at most `wanted` bytes of a stream, in the order in which they came.
    /// With nothing queued the reader waits, unless the channel has ended.
    pub fn read(&mut self, stream: Stream, wanted: usize, ended: bool) -> (r: Read)
        requires
            old(self).bounded(),
        ensures
            final(self).bounded(),
            forall|other: Stream|
                other != stream ==> #[trigger] final(self).queued(other) == old(self).queued(
                    other,
                ),
            match r {
                Read::Bytes(bytes) => {
                    &&& bytes@ + final(self).queued(stream) == old(self).queued(stream)
                    &&& bytes@.len() <= wanted
                    &&& bytes@.len() == wanted || final(self).queued(stream).len() == 0
                    &&& wanted == 0 || bytes@.len() > 0 || ended
                },
                Read::WouldBlock => wanted > 0 && !ended && old(self).queued(stream).len() == 0
                    && final(self).queued(stream) == old(self).queued(stream),
            },
    {
        if wanted == 0 {
            proof {
                assert(Seq::<u8>::empty() + self.queued(stream) =~= self.queued(stream));
            }
            return Read::Bytes(Vec::new());
        }
        let length = match stream {
            Stream::Normal => self.stdout.len(),
            Stream::Stderr => self.stderr.len(),
        };
        let count = if wanted < length {
            wanted
        } else {
            length
        };
        if count == 0 && !ended {
            return Read::WouldBlock;
        }
        let bytes = match stream {
            Stream::Normal => take_front(&mut self.stdout, count),
            Stream::Stderr => take_front(&mut self.stderr, count),
        };
        proof {
            assert(bytes@ + self.queued(stream) =~= old(self).queued(stream));
            assert forall|other: Stream| #[trigger] self.queued(other).len() <= limit(other) by {
                assert(old(self).queued(other).len() <= limit(other));
            }
        }
        Read::Bytes(bytes)
    }

    /// Whether nothing is left to read.
    pub fn is_empty(&self) -> (r: bool)
        ensures
            r == (self.queued(Stream::Normal).len() == 0 && self.queued(Stream::Stderr).len()
                == 0),
    {
        self.stdout.len() == 0 && self.stderr.len() == 0
    }
}

/// Whether a channel will never carry data again. A channel that was refused or
/// released is neither at its end nor closed to the engine, but it is finished.
pub fn channel_ended(closed: bool, at_end: bool, channel_closed: bool, finished: bool) -> (r: bool)
    ensures
        r == (closed || at_end || channel_closed || finished),
{
    closed || at_end || channel_closed || finished
}

/// A route passes the jump hosts in their order, each of them once, and ends at the host.
pub proof fn routes_pass_every_hop(o: Options, i: int)
    requires
        0 <= i < o.jumps@.len(),
    ensures
        route_of(o).len() == o.jumps@.len() + 1,
        route_of(o)[i] == (o.jumps@[i].host@, o.jumps@[i].port),
        route_of(o).last() == (o.host@, o.port),
{
}

} // verus!
