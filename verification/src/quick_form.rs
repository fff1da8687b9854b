//! A form of explicit settings alone: one host, and one key file or the agent.
use vstd::prelude::*;
use vstd::string::*;

use crate::desktop::Connection;
use crate::form::{expand_local, known_hosts_in, local_path, Error, Local, Refusal};
use crate::session::Access;
use crate::ssh;
use crate::ssh_config::{joined_path, opt_text};
use crate::text::{chars_of, string_of, texts, trim_both, trimmed};
use crate::values::{valid_session_name, InvalidValue, SessionName};

verus! {

pub const TIMEOUT_NANOS: u128 = 10_000_000_000;

pub const DEFAULT_HISTORY: usize = 200;

#[derive(Clone, Copy, Debug, PartialEq, Eq, Structural)]
pub enum Authentication {
    Agent,
    Key,
}

#[derive(Debug)]
pub struct Form {
    pub host: String,
    pub user: String,
    pub session: String,
    pub port: u16,
    pub authentication: Authentication,
    pub identity: String,
    pub known_hosts: String,
    pub socket: String,
    pub history: usize,
}

/// What a frame of the form asks for.
#[derive(Debug)]
pub enum Action {
    Idle,
    Connect(Connection),
    Disconnect,
    Demo,
}

/// What is wrong with the options of a form.
pub open spec fn options_fault(f: Form, known_hosts: Seq<char>) -> Option<ssh::Fault> {
    if !ssh::dialable(trim_both(f.host@)) {
        Some(ssh::Fault::Host)
    } else if f.port == 0 || !ssh::user_name(trim_both(f.user@)) {
        Some(ssh::Fault::UserOrPort)
    } else if known_hosts.len() == 0 {
        Some(ssh::Fault::KnownHosts)
    } else {
        None
    }
}

/// Why a form asks for no connection.
pub open spec fn refusal(f: Form, home: Option<Seq<char>>) -> Option<Refusal> {
    if f.authentication == Authentication::Key && f.identity@.len() == 0 {
        Some(Refusal::NoKey)
    } else if f.authentication == Authentication::Key && local_path(f.identity@, home) is None {
        Some(Refusal::NoHome)
    } else {
        match local_path(f.known_hosts@, home) {
            None => Some(Refusal::NoHome),
            Some(known_hosts) => match options_fault(f, known_hosts) {
                Some(fault) => Some(
                    Refusal::Ssh(ssh::Kind::Configuration, ssh::fault_text(fault)),
                ),
                None => if valid_session_name(f.session@) {
                    None
                } else {
                    Some(Refusal::Session(InvalidValue::SessionName))
                },
            },
        }
    }
}

/// The connection that a form asks for. It is read-only.
pub open spec fn asks_for(f: Form, home: Option<Seq<char>>, c: Connection) -> bool {
    &&& c.options.host@ == trim_both(f.host@)
    &&& c.options.user@ == trim_both(f.user@)
    &&& c.options.port == f.port
    &&& c.options.authentication.agent == (f.authentication == Authentication::Agent)
    &&& texts(c.options.authentication.files@) == if f.authentication == Authentication::Agent {
        seq![]
    } else {
        seq![local_path(f.identity@, home)->0]
    }
    &&& local_path(f.known_hosts@, home) == Some(c.options.known_hosts@)
    &&& c.options.host_key_alias is None
    &&& c.options.timeout == TIMEOUT_NANOS
    &&& c.options.jumps@.len() == 0
    &&& ssh::fault(c.options) is None
    &&& c.session@ == f.session@
    &&& opt_text(c.socket) == if f.socket@.len() == 0 {
        None
    } else {
        Some(f.socket@)
    }
    &&& c.history == f.history
    &&& c.access == Access::ReadOnly
    &&& !c.reconnect
}

impl Form {
    /// An empty form on this machine.
    pub fn new(local: &Local) -> (r: Self)
        ensures
            r.host@.len() == 0,
            r.user@ == local.user@,
            r.session@ == "work"@,
            r.port == 22,
            r.authentication == Authentication::Agent,
            r.identity@.len() == 0,
            r.known_hosts@ == known_hosts_in(opt_text(local.home)),
            r.socket@.len() == 0,
            r.history == DEFAULT_HISTORY,
    {
        let known_hosts = match &local.home {
            Some(home) => joined_path(home.as_str(), chars_of(".ssh/known_hosts").as_slice()),
            None => String::new(),
        };
        Form {
            host: String::new(),
            user: local.user.clone(),
            session: "work".to_owned(),
            port: 22,
            authentication: Authentication::Agent,
            identity: String::new(),
            known_hosts,
            socket: String::new(),
            history: DEFAULT_HISTORY,
        }
    }

    pub fn connection(&self, local: &Local) -> (r: Result<Connection, Error>)
        ensures
            match r {
                Ok(c) => refusal(*self, opt_text(local.home)) is None && asks_for(
                    *self,
                    opt_text(local.home),
                    c,
                ),
                Err(error) => refusal(*self, opt_text(local.home)) == Some(error@),
            },
    {
        let authentication = match self.authentication {
            Authentication::Agent => ssh::Authentication::agent_only(),
            Authentication::Key => {
                if chars_of(self.identity.as_str()).len() == 0 {
                    return Err(Error::NoKey);
                }
                let path = expand_local(self.identity.as_str(), &local.home)?;
                ssh::Authentication::identity(path.as_str())
            },
        };
        let known_hosts = expand_local(self.known_hosts.as_str(), &local.home)?;
        let host = chars_of(self.host.as_str());
        let user = chars_of(self.user.as_str());
        let options = ssh::Options {
            host: string_of(trimmed(host.as_slice())),
            port: self.port,
            user: string_of(trimmed(user.as_slice())),
            known_hosts,
            host_key_alias: None,
            authentication,
            timeout: TIMEOUT_NANOS,
            jumps: Vec::new(),
        };
        proof {
            assert(ssh::chain_fault(options.jumps@) is None);
            assert(ssh::fault(options) == options_fault(*self, known_hosts@));
            assert(texts(options.authentication.files@) =~= if self.authentication
                == Authentication::Agent {
                seq![]
            } else {
                seq![local_path(self.identity@, opt_text(local.home))->0]
            });
        }
        match options.validate() {
            Ok(()) => {},
            Err(error) => return Err(Error::Ssh(error)),
        }
        let session = match SessionName::new(self.session.as_str()) {
            Ok(session) => session,
            Err(error) => return Err(Error::Session(error)),
        };
        let socket = if chars_of(self.socket.as_str()).len() == 0 {
            None
        } else {
            Some(self.socket.clone())
        };
        Ok(
            Connection {
                options,
                session,
                socket,
                history: self.history,
                access: Access::ReadOnly,
                reconnect: false,
            },
        )
    }
}

/// A form without a host asks for nothing, so nothing is contacted.
pub proof fn empty_forms_ask_for_nothing(f: Form, home: Option<Seq<char>>)
    requires
        trim_both(f.host@).len() == 0,
    ensures
        refusal(f, home) is Some,
{
}

} // verus!
