//! The connection form of a tab: what it holds, and the connection it asks for.
use vstd::prelude::*;
use vstd::slice::slice_subrange;
use vstd::string::*;

use crate::desktop::Connection;
use crate::session::Access;
use crate::snapshot::MAX_HISTORY_LINES;
use crate::ssh;
use crate::ssh_config::{join_path, joined_path, opt_text, Profile};
use crate::store::{Tab, TabFacts};
use crate::text::{
    chars_of, is_text, pieces, rows, same, split_on, string_of, texts, trim_both, trimmed,
};
use crate::values::{valid_session_name, InvalidValue, SessionName};

verus! {

/// The per-operation timeout of a connection that is asked for here.
pub const TIMEOUT_NANOS: u128 = 30_000_000_000;

pub const DEFAULT_HISTORY: usize = 200;

/// What the form takes from the machine.
#[derive(Debug)]
pub struct Local {
    pub user: String,
    pub home: Option<String>,
}

#[derive(Debug)]
pub struct Form {
    pub destination: String,
    pub host: String,
    pub user: String,
    pub session: String,
    pub port: u16,
    /// A key that is tried before those of the configuration.
    pub identity: String,
    pub identity_files: Vec<String>,
    pub identities_only: bool,
    pub host_key_alias: Option<String>,
    pub known_hosts: String,
    pub socket: String,
    pub history: usize,
    pub interactive: bool,
    pub reconnect: bool,
    /// What the host's configuration asks for and cannot be carried out.
    pub unsupported: Vec<String>,
    pub profile_error: Option<String>,
}

/// The contents of a form.
pub struct Fields {
    pub destination: Seq<char>,
    pub host: Seq<char>,
    pub user: Seq<char>,
    pub session: Seq<char>,
    pub port: nat,
    pub identity: Seq<char>,
    pub identity_files: Seq<Seq<char>>,
    pub identities_only: bool,
    pub host_key_alias: Option<Seq<char>>,
    pub known_hosts: Seq<char>,
    pub socket: Seq<char>,
    pub history: nat,
    pub interactive: bool,
    pub reconnect: bool,
    pub unsupported: Seq<Seq<char>>,
    pub profile_error: Option<Seq<char>>,
}

impl View for Form {
    type V = Fields;

    open spec fn view(&self) -> Fields {
        Fields {
            destination: self.destination@,
            host: self.host@,
            user: self.user@,
            session: self.session@,
            port: self.port as nat,
            identity: self.identity@,
            identity_files: texts(self.identity_files@),
            identities_only: self.identities_only,
            host_key_alias: opt_text(self.host_key_alias),
            known_hosts: self.known_hosts@,
            socket: self.socket@,
            history: self.history as nat,
            interactive: self.interactive,
            reconnect: self.reconnect,
            unsupported: texts(self.unsupported@),
            profile_error: opt_text(self.profile_error),
        }
    }
}

/// A form that nothing was entered into.
pub open spec fn blank(user: Seq<char>, known_hosts: Seq<char>) -> Fields {
    Fields {
        destination: seq![],
        host: seq![],
        user,
        session: seq![],
        port: 22,
        identity: seq![],
        identity_files: seq![],
        identities_only: false,
        host_key_alias: None,
        known_hosts,
        socket: seq![],
        history: DEFAULT_HISTORY as nat,
        interactive: true,
        reconnect: true,
        unsupported: seq![],
        profile_error: None,
    }
}

/// The known-hosts file of a home directory.
pub open spec fn known_hosts_in(home: Option<Seq<char>>) -> Seq<char> {
    match home {
        Some(path) => join_path(path, ".ssh/known_hosts"@),
        None => seq![],
    }
}

/// What is saved of a form: where to connect and how, never anything that would
/// let a reader connect.
pub open spec fn saved_tab(f: Fields) -> TabFacts {
    TabFacts {
        destination: f.destination,
        host: f.host,
        user: f.user,
        session: f.session,
        port: f.port,
        identity: f.identity,
        known_hosts: f.known_hosts,
        socket: f.socket,
        history: f.history,
        interactive: f.interactive,
        reconnect: f.reconnect,
    }
}

/// The form that a saved tab is restored to.
pub open spec fn restored(tab: TabFacts, local_user: Seq<char>) -> Fields {
    Fields {
        destination: tab.destination,
        host: tab.host,
        user: if trim_both(tab.user).len() == 0 {
            local_user
        } else {
            tab.user
        },
        session: tab.session,
        port: tab.port,
        identity: tab.identity,
        identity_files: seq![],
        identities_only: false,
        host_key_alias: None,
        known_hosts: tab.known_hosts,
        socket: tab.socket,
        history: if tab.history > MAX_HISTORY_LINES {
            MAX_HISTORY_LINES as nat
        } else {
            tab.history
        },
        interactive: tab.interactive,
        reconnect: tab.reconnect,
        unsupported: seq![],
        profile_error: None,
    }
}

/// What a form takes of a profile.
pub struct Routing {
    pub host: Seq<char>,
    pub user: Option<Seq<char>>,
    pub port: Option<u16>,
    pub identities: Seq<Seq<char>>,
    pub identities_only: bool,
    pub host_key_alias: Option<Seq<char>>,
    pub known_hosts: Option<Seq<char>>,
    pub unsupported: Seq<Seq<char>>,
    pub jumps: nat,
}

pub open spec fn routing_of(p: Profile) -> Routing {
    Routing {
        host: p.host@,
        user: opt_text(p.user),
        port: p.port,
        identities: texts(p.identities@),
        identities_only: p.identities_only,
        host_key_alias: opt_text(p.host_key_alias),
        known_hosts: opt_text(p.known_hosts),
        unsupported: texts(p.unsupported@),
        jumps: p.jumps@.len(),
    }
}

/// What stands in the way of a connection from a form. The form connects
/// directly, so a host behind others is not one that it can reach.
pub open spec fn blockers(r: Routing) -> Seq<Seq<char>> {
    if r.jumps > 0 {
        r.unsupported.push("proxyjump"@)
    } else {
        r.unsupported
    }
}

/// A form with the routing and identity policy of the configuration. A restored
/// tab must not skip what the configuration says now.
pub open spec fn routed(f: Fields, r: Routing, defaults: Seq<Seq<char>>) -> Fields {
    Fields {
        identity_files: if r.identities.len() == 0 {
            defaults
        } else {
            r.identities
        },
        identities_only: r.identities_only,
        host_key_alias: r.host_key_alias,
        known_hosts: match r.known_hosts {
            Some(path) => path,
            None => f.known_hosts,
        },
        unsupported: blockers(r),
        ..f
    }
}

/// A form with all that a profile says.
pub open spec fn profiled(
    f: Fields,
    r: Routing,
    defaults: Seq<Seq<char>>,
    local_user: Seq<char>,
) -> Fields {
    Fields {
        host: r.host,
        user: match r.user {
            Some(user) => if user.len() == 0 {
                local_user
            } else {
                user
            },
            None => local_user,
        },
        port: match r.port {
            Some(port) => port as nat,
            None => 22,
        },
        profile_error: None,
        ..routed(f, r, defaults)
    }
}

/// Why a form asks for no connection.
#[derive(Debug)]
pub enum Error {
    NoSession,
    Unsupported(String),
    Profile,
    NoHome,
    NoKey,
    Ssh(ssh::Error),
    Session(InvalidValue),
}

/// The contents of an error.
pub enum Refusal {
    NoSession,
    Unsupported(Seq<char>),
    Profile,
    NoHome,
    NoKey,
    Ssh(ssh::Kind, Seq<char>),
    Session(InvalidValue),
}

impl View for Error {
    type V = Refusal;

    open spec fn view(&self) -> Refusal {
        match *self {
            Error::NoSession => Refusal::NoSession,
            Error::Unsupported(list) => Refusal::Unsupported(list@),
            Error::Profile => Refusal::Profile,
            Error::NoHome => Refusal::NoHome,
            Error::NoKey => Refusal::NoKey,
            Error::Ssh(error) => Refusal::Ssh(error.kind, error.detail@),
            Error::Session(error) => Refusal::Session(error),
        }
    }
}

pub open spec fn refusal_text(refusal: Refusal) -> Seq<char> {
    match refusal {
        Refusal::NoSession => "choose a tmux session"@,
        Refusal::Unsupported(list) => "this SSH profile uses unsupported policy: "@ + list,
        Refusal::Profile => "fix the SSH profile first"@,
        Refusal::NoHome => "home directory is unavailable"@,
        Refusal::NoKey => "choose a private-key file or use an SSH agent"@,
        Refusal::Ssh(kind, detail) => ssh::error_text(kind, detail),
        Refusal::Session(error) => crate::values::invalid_text(error),
    }
}

impl Error {
    pub fn message(&self) -> (r: String)
        ensures
            r@ == refusal_text(self@),
    {
        match self {
            Error::NoSession => "choose a tmux session".to_owned(),
            Error::Unsupported(list) => {
                let mut out = "this SSH profile uses unsupported policy: ".to_owned();
                out.append(list.as_str());
                out
            },
            Error::Profile => "fix the SSH profile first".to_owned(),
            Error::NoHome => "home directory is unavailable".to_owned(),
            Error::NoKey => "choose a private-key file or use an SSH agent".to_owned(),
            Error::Ssh(error) => error.message(),
            Error::Session(error) => error.message().to_owned(),
        }
    }
}

/// A path as it is written in a form: a tilde stands for the home directory.
/// `None` where that is not known.
pub open spec fn local_path(text: Seq<char>, home: Option<Seq<char>>) -> Option<Seq<char>> {
    if text.len() >= 2 && text[0] == '~' && (text[1] == '/' || text[1] == '\\') {
        match home {
            Some(path) => Some(join_path(path, text.skip(2))),
            None => None,
        }
    } else {
        Some(text)
    }
}

pub fn expand_local(text: &str, home: &Option<String>) -> (r: Result<String, Error>)
    ensures
        match r {
            Ok(path) => local_path(text@, opt_text(*home)) == Some(path@),
            Err(error) => local_path(text@, opt_text(*home)) is None && error@ == Refusal::NoHome,
        },
{
    let chars = chars_of(text);
    if chars.len() >= 2 && chars[0] == '~' && (chars[1] == '/' || chars[1] == '\\') {
        match home {
            Some(path) => {
                let tail = slice_subrange(chars.as_slice(), 2, chars.len());
                proof {
                    assert(tail@ =~= text@.skip(2));
                }
                Ok(joined_path(path.as_str(), tail))
            },
            None => Err(Error::NoHome),
        }
    } else {
        Ok(text.to_owned())
    }
}

/// The names of a path that tell it apart from others: empty names say nothing,
/// and a single dot only at the beginning of a relative path.
pub open spec fn names(parts: Seq<Seq<char>>) -> Seq<Seq<char>>
    decreases parts.len(),
{
    if parts.len() == 0 {
        seq![]
    } else {
        let last = parts.last();
        if last.len() == 0 || (last == "."@ && parts.len() > 1) {
            names(parts.drop_last())
        } else {
            names(parts.drop_last()).push(last)
        }
    }
}

pub open spec fn absolute(path: Seq<char>) -> bool {
    path.len() > 0 && path[0] == '/'
}

/// Whether two texts name the same path.
pub open spec fn same_path(a: Seq<char>, b: Seq<char>) -> bool {
    absolute(a) == absolute(b) && names(pieces(a, '/')) == names(pieces(b, '/'))
}

fn names_of(path: &[char]) -> (r: Vec<Vec<char>>)
    ensures
        rows(r@) == names(pieces(path@, '/')),
{
    let parts = split_on(path, '/');
    let ghost all = pieces(path@, '/');
    let mut out: Vec<Vec<char>> = Vec::new();
    let mut i: usize = 0;
    proof {
        assert(rows(out@) =~= names(all.take(0)));
    }
    while i < parts.len()
        invariant
            i <= parts.len(),
            rows(parts@) == all,
            rows(out@) == names(all.take(i as int)),
        decreases parts.len() - i,
    {
        proof {
            assert(all.take(i + 1).drop_last() =~= all.take(i as int));
            assert(all.take(i + 1).last() == parts@[i as int]@);
        }
        if parts[i].len() == 0 || (i > 0 && is_text(parts[i].as_slice(), ".")) {
        } else {
            let ghost before = out@;
            let mut copy: Vec<char> = Vec::new();
            copy.extend_from_slice(parts[i].as_slice());
            proof {
                assert(copy@ =~= parts@[i as int]@);
            }
            out.push(copy);
            proof {
                assert(rows(out@) =~= rows(before).push(parts@[i as int]@));
            }
        }
        i += 1;
    }
    proof {
        assert(all.take(i as int) =~= all);
    }
    out
}

fn is_same_path(a: &str, b: &str) -> (r: bool)
    ensures
        r == same_path(a@, b@),
{
    let x = chars_of(a);
    let y = chars_of(b);
    let rooted = x.len() > 0 && x[0] == '/';
    let other = y.len() > 0 && y[0] == '/';
    if rooted != other {
        return false;
    }
    let p = names_of(x.as_slice());
    let q = names_of(y.as_slice());
    let ghost m = names(pieces(a@, '/'));
    let ghost n = names(pieces(b@, '/'));
    if p.len() != q.len() {
        proof {
            assert(rows(p@).len() == p@.len());
            assert(rows(q@).len() == q@.len());
        }
        return false;
    }
    let mut i: usize = 0;
    while i < p.len()
        invariant
            i <= p.len(),
            p.len() == q.len(),
            rows(p@) == m,
            rows(q@) == n,
            m == names(pieces(a@, '/')),
            n == names(pieces(b@, '/')),
            forall|k: int| 0 <= k < i ==> m[k] == n[k],
        decreases p.len() - i,
    {
        proof {
            assert(m[i as int] == p@[i as int]@);
            assert(n[i as int] == q@[i as int]@);
        }
        if !same(p[i].as_slice(), q[i].as_slice()) {
            return false;
        }
        i += 1;
    }
    proof {
        assert(rows(p@).len() == p@.len());
        assert(rows(q@).len() == q@.len());
        assert(m =~= n);
    }
    true
}

/// Some path of a list is this one.
pub open spec fn among(files: Seq<Seq<char>>, path: Seq<char>) -> bool {
    exists|i: int| 0 <= i < files.len() && same_path(#[trigger] files[i], path)
}

/// The key files that are tried behind those of `first`, each path once, in
/// their order; `None` where one of them needs a home directory that is not
/// known.
pub open spec fn key_files(
    first: Seq<Seq<char>>,
    files: Seq<Seq<char>>,
    home: Option<Seq<char>>,
) -> Option<Seq<Seq<char>>>
    decreases files.len(),
{
    if files.len() == 0 {
        Some(first)
    } else {
        match key_files(first, files.drop_last(), home) {
            None => None,
            Some(front) => match local_path(files.last(), home) {
                None => None,
                Some(path) => if among(front, path) {
                    Some(front)
                } else {
                    Some(front.push(path))
                },
            },
        }
    }
}

/// The key that was entered in the form, which is tried first.
pub open spec fn entered_key(f: Fields, home: Option<Seq<char>>) -> Option<Seq<Seq<char>>> {
    if trim_both(f.identity).len() == 0 {
        Some(seq![])
    } else {
        match local_path(f.identity, home) {
            Some(path) => Some(seq![path]),
            None => None,
        }
    }
}

/// All the key files of a form.
pub open spec fn all_keys(f: Fields, home: Option<Seq<char>>) -> Option<Seq<Seq<char>>> {
    match entered_key(f, home) {
        Some(first) => key_files(first, f.identity_files, home),
        None => None,
    }
}

/// Texts with a comma and a blank between each two.
pub open spec fn listed(items: Seq<Seq<char>>) -> Seq<char>
    decreases items.len(),
{
    if items.len() == 0 {
        seq![]
    } else if items.len() == 1 {
        items[0]
    } else {
        listed(items.drop_last()) + ", "@ + items.last()
    }
}

fn join_list(items: &Vec<String>) -> (r: String)
    ensures
        r@ == listed(texts(items@)),
{
    let ghost all = texts(items@);
    if items.len() == 0 {
        return String::new();
    }
    let mut out = items[0].clone();
    let mut i: usize = 1;
    proof {
        assert(all.take(1).len() == 1);
        assert(out@ == listed(all.take(1)));
    }
    while i < items.len()
        invariant
            1 <= i <= items.len(),
            all == texts(items@),
            out@ == listed(all.take(i as int)),
        decreases items.len() - i,
    {
        out.append(", ");
        out.append(items[i].as_str());
        proof {
            assert(all.take(i + 1).drop_last() =~= all.take(i as int));
        }
        i += 1;
    }
    proof {
        assert(all.take(i as int) =~= all);
    }
    out
}

proof fn key_files_prefix(
    first: Seq<Seq<char>>,
    files: Seq<Seq<char>>,
    home: Option<Seq<char>>,
    n: int,
)
    requires
        0 <= n <= files.len(),
        key_files(first, files.take(n), home) is None,
    ensures
        key_files(first, files, home) is None,
    decreases files.len() - n,
{
    if n == files.len() {
        assert(files.take(n) =~= files);
    } else {
        assert(files.take(n + 1).drop_last() =~= files.take(n));
        key_files_prefix(first, files, home, n + 1);
    }
}

fn is_among(files: &Vec<String>, path: &str) -> (r: bool)
    ensures
        r == among(texts(files@), path@),
{
    let ghost all = texts(files@);
    let mut i: usize = 0;
    while i < files.len()
        invariant
            i <= files.len(),
            all == texts(files@),
            forall|k: int| 0 <= k < i ==> !same_path(#[trigger] all[k], path@),
        decreases files.len() - i,
    {
        if is_same_path(files[i].as_str(), path) {
            assert(same_path(all[i as int], path@));
            return true;
        }
        i += 1;
    }
    false
}

fn push_path(files: &mut Vec<String>, path: String)
    ensures
        texts(final(files)@) == texts(old(files)@).push(path@),
{
    files.push(path);
    proof {
        assert(texts(files@) =~= texts(old(files)@).push(path@));
    }
}

/// The user that a form connects as.
pub open spec fn effective_user(user: Seq<char>, local_user: Seq<char>) -> Seq<char> {
    if trim_both(user).len() == 0 {
        local_user
    } else {
        trim_both(user)
    }
}

/// Why a form asks for no connection to a session.
pub open spec fn refusal(
    f: Fields,
    session: Seq<char>,
    user: Seq<char>,
    home: Option<Seq<char>>,
) -> Option<Refusal> {
    if f.unsupported.len() > 0 {
        Some(Refusal::Unsupported(listed(f.unsupported)))
    } else if f.profile_error is Some {
        Some(Refusal::Profile)
    } else if all_keys(f, home) is None || local_path(f.known_hosts, home) is None {
        Some(Refusal::NoHome)
    } else {
        match options_fault(f, user, home) {
            Some(fault) => Some(
                Refusal::Ssh(ssh::Kind::Configuration, ssh::fault_text(fault)),
            ),
            None => if valid_session_name(session) {
                None
            } else {
                Some(Refusal::Session(InvalidValue::SessionName))
            },
        }
    }
}

/// What is wrong with the options of a form.
pub open spec fn options_fault(f: Fields, user: Seq<char>, home: Option<Seq<char>>) -> Option<
    ssh::Fault,
> {
    if !ssh::dialable(trim_both(f.host)) {
        Some(ssh::Fault::Host)
    } else if f.port == 0 || !ssh::user_name(effective_user(f.user, user)) {
        Some(ssh::Fault::UserOrPort)
    } else if (local_path(f.known_hosts, home)->0).len() == 0 {
        Some(ssh::Fault::KnownHosts)
    } else {
        None
    }
}

/// The connection that a form asks for.
pub open spec fn asks_for(
    f: Fields,
    session: Seq<char>,
    user: Seq<char>,
    home: Option<Seq<char>>,
    c: Connection,
) -> bool {
    &&& c.options.host@ == trim_both(f.host)
    &&& c.options.user@ == effective_user(f.user, user)
    &&& c.options.port == f.port
    &&& all_keys(f, home) == Some(texts(c.options.authentication.files@))
    &&& c.options.authentication.agent == !f.identities_only
    &&& local_path(f.known_hosts, home) == Some(c.options.known_hosts@)
    &&& opt_text(c.options.host_key_alias) == f.host_key_alias
    &&& c.options.timeout == TIMEOUT_NANOS
    &&& c.options.jumps@.len() == 0
    &&& ssh::fault(c.options) is None
    &&& c.session@ == session
    &&& opt_text(c.socket) == if f.socket.len() == 0 {
        None
    } else {
        Some(f.socket)
    }
    &&& c.history == f.history
    &&& c.access == if f.interactive {
        Access::Interactive
    } else {
        Access::ReadOnly
    }
    &&& c.reconnect == f.reconnect
}

pub(crate) fn copy_option(text: &Option<String>) -> (r: Option<String>)
    ensures
        opt_text(r) == opt_text(*text),
{
    match text {
        Some(text) => Some(text.clone()),
        None => None,
    }
}

fn copy_list(items: &Vec<String>) -> (r: Vec<String>)
    ensures
        texts(r@) == texts(items@),
{
    let ghost all = texts(items@);
    let mut out: Vec<String> = Vec::new();
    let mut i: usize = 0;
    proof {
        assert(texts(out@) =~= all.take(0));
    }
    while i < items.len()
        invariant
            i <= items.len(),
            all == texts(items@),
            texts(out@) == all.take(i as int),
        decreases items.len() - i,
    {
        push_path(&mut out, items[i].clone());
        proof {
            assert(all.take(i + 1) =~= all.take(i as int).push(all[i as int]));
        }
        i += 1;
    }
    proof {
        assert(all.take(i as int) =~= all);
    }
    out
}

impl Form {
    /// An empty form on this machine.
    pub fn new(local: &Local) -> (r: Self)
        ensures
            r@ == blank(local.user@, known_hosts_in(opt_text(local.home))),
    {
        let known_hosts = match &local.home {
            Some(home) => joined_path(home.as_str(), chars_of(".ssh/known_hosts").as_slice()),
            None => String::new(),
        };
        let r = Form {
            destination: String::new(),
            host: String::new(),
            user: local.user.clone(),
            session: String::new(),
            port: 22,
            identity: String::new(),
            identity_files: Vec::new(),
            identities_only: false,
            host_key_alias: None,
            known_hosts,
            socket: String::new(),
            history: DEFAULT_HISTORY,
            interactive: true,
            reconnect: true,
            unsupported: Vec::new(),
            profile_error: None,
        };
        proof {
            assert(r@.identity_files =~= Seq::<Seq<char>>::empty());
            assert(r@.unsupported =~= Seq::<Seq<char>>::empty());
        }
        r
    }

    pub fn destination(&self) -> (r: String)
        ensures
            r@ == trim_both(self@.destination),
    {
        string_of(trimmed(chars_of(self.destination.as_str()).as_slice()))
    }

    pub fn saved(&self) -> (r: Tab)
        ensures
            r@ == saved_tab(self@),
    {
        Tab {
            destination: self.destination.clone(),
            host: self.host.clone(),
            user: self.user.clone(),
            session: self.session.clone(),
            port: self.port,
            identity: self.identity.clone(),
            known_hosts: self.known_hosts.clone(),
            socket: self.socket.clone(),
            history: self.history,
            interactive: self.interactive,
            reconnect: self.reconnect,
        }
    }

    /// Fill a form from a saved tab. Nothing is contacted.
    pub fn restore(saved: Tab, local_user: &str) -> (r: Self)
        ensures
            r@ == restored(saved@, local_user@),
    {
        let user_chars = chars_of(saved.user.as_str());
        let user = if trimmed(user_chars.as_slice()).len() == 0 {
            local_user.to_owned()
        } else {
            saved.user
        };
        let history = if saved.history > MAX_HISTORY_LINES {
            MAX_HISTORY_LINES
        } else {
            saved.history
        };
        let r = Form {
            destination: saved.destination,
            host: saved.host,
            user,
            session: saved.session,
            port: saved.port,
            identity: saved.identity,
            identity_files: Vec::new(),
            identities_only: false,
            host_key_alias: None,
            known_hosts: saved.known_hosts,
            socket: saved.socket,
            history,
            interactive: saved.interactive,
            reconnect: saved.reconnect,
            unsupported: Vec::new(),
            profile_error: None,
        };
        proof {
            assert(r@.identity_files =~= Seq::<Seq<char>>::empty());
            assert(r@.unsupported =~= Seq::<Seq<char>>::empty());
        }
        r
    }

    /// Take the routing and identity policy of a profile.
    pub fn apply_routing(&mut self, profile: &Profile, default_identities: Vec<String>)
        ensures
            final(self)@ == routed(old(self)@, routing_of(*profile), texts(default_identities@)),
    {
        proof {
            assert(texts(profile.identities@).len() == profile.identities@.len());
        }
        self.identity_files = if profile.identities.len() == 0 {
            default_identities
        } else {
            copy_list(&profile.identities)
        };
        self.identities_only = profile.identities_only;
        self.host_key_alias = copy_option(&profile.host_key_alias);
        if let Some(known_hosts) = &profile.known_hosts {
            self.known_hosts = known_hosts.clone();
        }
        let mut unsupported = copy_list(&profile.unsupported);
        if profile.jumps.len() > 0 {
            push_path(&mut unsupported, "proxyjump".to_owned());
        }
        self.unsupported = unsupported;
    }

    /// Take all that a profile says.
    pub fn apply_profile(
        &mut self,
        profile: &Profile,
        default_identities: Vec<String>,
        local_user: &str,
    )
        ensures
            final(self)@ == profiled(
                old(self)@,
                routing_of(*profile),
                texts(default_identities@),
                local_user@,
            ),
    {
        self.host = profile.host.clone();
        self.user = match &profile.user {
            Some(user) => if chars_of(user.as_str()).len() == 0 {
                local_user.to_owned()
            } else {
                user.clone()
            },
            None => local_user.to_owned(),
        };
        self.port = match profile.port {
            Some(port) => port,
            None => 22,
        };
        self.apply_routing(profile, default_identities);
        self.profile_error = None;
    }

    /// Whether the host can be asked for anything.
    pub fn host_ready(&self) -> (r: bool)
        ensures
            r == ready(self@),
    {
        proof {
            assert(texts(self.unsupported@).len() == self.unsupported@.len());
        }
        let host = chars_of(self.host.as_str());
        self.profile_error.is_none() && self.unsupported.len() == 0 && trimmed(
            host.as_slice(),
        ).len() > 0
    }

    fn keys(&self, home: &Option<String>) -> (r: Result<Vec<String>, Error>)
        ensures
            match r {
                Ok(files) => all_keys(self@, opt_text(*home)) == Some(texts(files@)),
                Err(error) => all_keys(self@, opt_text(*home)) is None && error@
                    == Refusal::NoHome,
            },
    {
        let mut files: Vec<String> = Vec::new();
        let identity = chars_of(self.identity.as_str());
        proof {
            assert(texts(files@) =~= Seq::<Seq<char>>::empty());
        }
        if trimmed(identity.as_slice()).len() > 0 {
            let path = expand_local(self.identity.as_str(), home)?;
            push_path(&mut files, path);
            proof {
                assert(texts(files@) =~= seq![path@]);
            }
        }
        let ghost first = texts(files@);
        let ghost all = self@.identity_files;
        let ghost place = opt_text(*home);
        let mut i: usize = 0;
        proof {
            assert(all.take(0) =~= Seq::<Seq<char>>::empty());
        }
        while i < self.identity_files.len()
            invariant
                i <= self.identity_files.len(),
                all == texts(self.identity_files@),
                place == opt_text(*home),
                entered_key(self@, place) == Some(first),
                all == self@.identity_files,
                key_files(first, all.take(i as int), place) == Some(texts(files@)),
            decreases self.identity_files.len() - i,
        {
            proof {
                assert(all.take(i + 1).drop_last() =~= all.take(i as int));
                if key_files(first, all.take(i + 1), place) is None {
                    key_files_prefix(first, all, place, i + 1);
                }
            }
            let path = expand_local(self.identity_files[i].as_str(), home)?;
            if !is_among(&files, path.as_str()) {
                push_path(&mut files, path);
            }
            i += 1;
        }
        proof {
            assert(all.take(i as int) =~= all);
        }
        Ok(files)
    }

    /// Listing attaches to nothing, so it needs no session name.
    pub fn listing(&self, local: &Local) -> (r: Result<Connection, Error>)
        ensures
            match r {
                Ok(c) => refusal(self@, "_"@, local.user@, opt_text(local.home)) is None
                    && asks_for(self@, "_"@, local.user@, opt_text(local.home), c),
                Err(error) => refusal(self@, "_"@, local.user@, opt_text(local.home)) == Some(
                    error@,
                ),
            },
    {
        self.connection_named("_", local)
    }

    pub fn connection(&self, local: &Local) -> (r: Result<Connection, Error>)
        ensures
            if trim_both(self@.session).len() == 0 {
                r matches Err(error) && error@ == Refusal::NoSession
            } else {
                let session = trim_both(self@.session);
                match r {
                    Ok(c) => refusal(self@, session, local.user@, opt_text(local.home)) is None
                        && asks_for(self@, session, local.user@, opt_text(local.home), c),
                    Err(error) => refusal(self@, session, local.user@, opt_text(local.home))
                        == Some(error@),
                }
            },
    {
        let chars = chars_of(self.session.as_str());
        let session = trimmed(chars.as_slice());
        if session.len() == 0 {
            return Err(Error::NoSession);
        }
        self.connection_named(string_of(session).as_str(), local)
    }

    /// The connection to a session that the form asks for.
    pub fn connection_named(&self, session: &str, local: &Local) -> (r: Result<Connection, Error>)
        ensures
            match r {
                Ok(c) => refusal(self@, session@, local.user@, opt_text(local.home)) is None
                    && asks_for(self@, session@, local.user@, opt_text(local.home), c),
                Err(error) => refusal(self@, session@, local.user@, opt_text(local.home)) == Some(
                    error@,
                ),
            },
    {
        proof {
            assert(texts(self.unsupported@).len() == self.unsupported@.len());
        }
        if self.unsupported.len() > 0 {
            return Err(Error::Unsupported(join_list(&self.unsupported)));
        }
        if self.profile_error.is_some() {
            return Err(Error::Profile);
        }
        let files = self.keys(&local.home)?;
        let user_chars = chars_of(self.user.as_str());
        let entered = trimmed(user_chars.as_slice());
        let user = if entered.len() == 0 {
            local.user.clone()
        } else {
            string_of(entered)
        };
        let host_chars = chars_of(self.host.as_str());
        let known_hosts = expand_local(self.known_hosts.as_str(), &local.home)?;
        let options = ssh::Options {
            host: string_of(trimmed(host_chars.as_slice())),
            port: self.port,
            user,
            known_hosts,
            host_key_alias: copy_option(&self.host_key_alias),
            authentication: ssh::Authentication { files, agent: !self.identities_only },
            timeout: TIMEOUT_NANOS,
            jumps: Vec::new(),
        };
        proof {
            assert(ssh::chain_fault(options.jumps@) is None);
            assert(ssh::fault(options) == options_fault(self@, local.user@, opt_text(local.home)));
        }
        match options.validate() {
            Ok(()) => {},
            Err(error) => return Err(Error::Ssh(error)),
        }
        let session = match SessionName::new(session) {
            Ok(session) => session,
            Err(error) => return Err(Error::Session(error)),
        };
        let socket = if chars_of(self.socket.as_str()).len() == 0 {
            None
        } else {
            Some(self.socket.clone())
        };
        Ok(
            Connection {
                options,
                session,
                socket,
                history: self.history,
                access: if self.interactive {
                    Access::Interactive
                } else {
                    Access::ReadOnly
                },
                reconnect: self.reconnect,
            },
        )
    }
}

/// A host that can be asked for anything.
pub open spec fn ready(f: Fields) -> bool {
    f.profile_error is None && f.unsupported.len() == 0 && trim_both(f.host).len() > 0
}

/// A tab that was saved and restored is the tab that it was: only a blank user
/// is filled in, and a history beyond the budget is cut down to it.
pub proof fn saved_tabs_are_restored(tab: TabFacts, local_user: Seq<char>)
    ensures
        saved_tab(restored(tab, local_user)) == (TabFacts {
            user: if trim_both(tab.user).len() == 0 {
                local_user
            } else {
                tab.user
            },
            history: if tab.history > MAX_HISTORY_LINES {
                MAX_HISTORY_LINES as nat
            } else {
                tab.history
            },
            ..tab
        }),
{
}

/// A policy that cannot be carried out is never bypassed: no connection is asked
/// for while one is reported, whatever else the form holds.
pub proof fn unsupported_policy_blocks(
    f: Fields,
    r: Routing,
    defaults: Seq<Seq<char>>,
    session: Seq<char>,
    user: Seq<char>,
    home: Option<Seq<char>>,
)
    requires
        r.unsupported.len() > 0 || r.jumps > 0,
    ensures
        !ready(routed(f, r, defaults)),
        refusal(routed(f, r, defaults), session, user, home) is Some,
{
}

proof fn first_keys_stay(
    first: Seq<Seq<char>>,
    files: Seq<Seq<char>>,
    home: Option<Seq<char>>,
)
    requires
        key_files(first, files, home) is Some,
    ensures
        first.len() <= (key_files(first, files, home)->0).len(),
        (key_files(first, files, home)->0).take(first.len() as int) == first,
    decreases files.len(),
{
    if files.len() == 0 {
        assert(first.take(first.len() as int) =~= first);
    } else {
        first_keys_stay(first, files.drop_last(), home);
        let front = key_files(first, files.drop_last(), home)->0;
        let now = key_files(first, files, home)->0;
        assert(now.take(first.len() as int) =~= front.take(first.len() as int));
    }
}

/// The key that was entered in the form is tried before those of the
/// configuration.
pub proof fn the_entered_key_comes_first(f: Fields, home: Option<Seq<char>>)
    requires
        trim_both(f.identity).len() > 0,
        all_keys(f, home) is Some,
    ensures
        (all_keys(f, home)->0).len() > 0,
        local_path(f.identity, home) == Some((all_keys(f, home)->0)[0]),
{
    let first = entered_key(f, home)->0;
    first_keys_stay(first, f.identity_files, home);
    let all = all_keys(f, home)->0;
    assert(all.take(1)[0] == all[0]);
}

} // verus!
