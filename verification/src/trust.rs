//! Which host keys are trusted. A key is never accepted that is not in the known
//! hosts, and nothing is ever added to them.
use hmac::{KeyInit as _, Mac as _};
use vstd::prelude::*;
use vstd::string::*;
use vstd::utf8::*;

use crate::ssh::{is_error, Error, Kind};
use crate::text::{
    chars_of, contains_char, decimal, decimal_reads_back, first_index, first_index_unique,
    push_decimal, same_str, texts,
};

verus! {

pub const DEFAULT_PORT: u16 = 22;

/// One line of the known hosts.
#[derive(Debug)]
pub struct Entry {
    /// The line revokes a key, or trusts an authority.
    pub marked: bool,
    /// The names as they are written. A hashed name is none of them.
    pub names: Vec<String>,
    /// The salt and the hash of a name that is not written out.
    pub hashed: Option<(Vec<u8>, Vec<u8>)>,
    /// The key in its wire form.
    pub key: Vec<u8>,
}

/// The contents of a line.
pub struct Known {
    pub marked: bool,
    pub names: Seq<Seq<char>>,
    pub hashed: Option<(Seq<u8>, Seq<u8>)>,
    pub key: Seq<u8>,
}

impl View for Entry {
    type V = Known;

    open spec fn view(&self) -> Known {
        Known {
            marked: self.marked,
            names: texts(self.names@),
            hashed: match self.hashed {
                Some((salt, hash)) => Some((salt@, hash@)),
                None => None,
            },
            key: self.key@,
        }
    }
}

pub open spec fn all_known(entries: Seq<Entry>) -> Seq<Known> {
    entries.map_values(|entry: Entry| entry@)
}

pub open spec fn known_of(r: Result<Vec<Entry>, String>) -> Result<Seq<Known>, Seq<char>> {
    match r {
        Ok(entries) => Ok(all_known(entries@)),
        Err(text) => Err(text@),
    }
}

/// The lines of known hosts that a text holds, or the text of the error with which
/// the first malformed one is refused.
pub uninterp spec fn known_lines(text: Seq<char>) -> Result<Seq<Known>, Seq<char>>;

/// `ssh_key::KnownHosts`, line by line, with `marker`, `host_patterns` and
/// `public_key` of each `Entry` and `PublicKey::to_bytes` of the key. The result
/// depends on the text alone.
#[verifier::external_body]
fn read_lines(text: &str) -> (r: Result<Vec<Entry>, String>)
    ensures
        known_of(r) == known_lines(text@),
{
    ssh_key::KnownHosts::new(text).map(|line| line.and_then(|line| {
        let (names, hashed) = match line.host_patterns().clone() {
            ssh_key::known_hosts::HostPatterns::Patterns(names) => (names, None),
            ssh_key::known_hosts::HostPatterns::HashedName { salt, hash } => (
                Vec::new(),
                Some((salt, hash.to_vec())),
            ),
        };
        let key = line.public_key().to_bytes()?;
        Ok(Entry { marked: line.marker().is_some(), names, hashed, key })
    }).map_err(|error| error.to_string())).collect()
}

pub open spec fn digest_of(r: Option<Vec<u8>>) -> Option<Seq<u8>> {
    match r {
        Some(bytes) => Some(bytes@),
        None => None,
    }
}

/// The keyed hash of a message; `None` for a key of a length that it does not take.
pub uninterp spec fn keyed_hash(key: Seq<u8>, message: Seq<u8>) -> Option<Seq<u8>>;

/// `hmac::Hmac` with `sha1::Sha1`: `new_from_slice`, `update` and `finalize`. The
/// result depends on the key and the message alone.
#[verifier::external_body]
fn hash_with(key: &[u8], message: &[u8]) -> (r: Option<Vec<u8>>)
    ensures
        digest_of(r) == keyed_hash(key@, message@),
{
    let mut hash = hmac::Hmac::<sha1::Sha1>::new_from_slice(key).ok()?;
    hash.update(message);
    Some(hash.finalize().into_bytes().to_vec())
}

pub open spec fn text_of(r: Result<String, String>) -> Result<Seq<char>, Seq<char>> {
    match r {
        Ok(text) => Ok(text@),
        Err(text) => Err(text@),
    }
}

/// The fingerprint of a key in its wire form, or the text of the error with which
/// it is refused.
pub uninterp spec fn key_fingerprint(wire: Seq<u8>) -> Result<Seq<char>, Seq<char>>;

/// `ssh_key::PublicKey::fingerprint` with SHA-256 of the key that `from_bytes`
/// reads, as text. The result depends on the bytes alone.
#[verifier::external_body]
fn print_of(wire: &[u8]) -> (r: Result<String, String>)
    ensures
        text_of(r) == key_fingerprint(wire@),
{
    ssh_key::PublicKey::from_bytes(wire)
        .map(|key| key.fingerprint(ssh_key::HashAlg::Sha256).to_string())
        .map_err(|error| error.to_string())
}

/// The name under which the key of a host is kept.
pub open spec fn kept_name(host: Seq<char>, port: u16) -> Seq<char> {
    if port == DEFAULT_PORT {
        host
    } else {
        "["@ + host + "]:"@ + decimal(port as nat)
    }
}

/// A name that stands for other hosts than itself.
pub open spec fn is_pattern(name: Seq<char>) -> bool {
    name.contains('*') || name.contains('?') || name.contains('!')
}

/// A line with a meaning beyond naming a host and its key.
pub open spec fn unsupported(entry: Entry) -> bool {
    entry.marked || exists|i: int|
        0 <= i < entry.names@.len() && is_pattern((#[trigger] entry.names@[i])@)
}

/// Whether a line is about a host, given the keyed hash of the host's name under
/// the salt of the line.
pub open spec fn names_host(entry: Known, name: Seq<char>, digest: Option<Seq<u8>>) -> bool {
    entry.names.contains(name) || (entry.hashed matches Some((_, hash)) && digest == Some(hash))
}

/// Whether a line is about a host, be its name written out or hashed.
pub open spec fn names(entry: Entry, name: Seq<char>) -> bool {
    names_host(
        entry@,
        name,
        match entry@.hashed {
            Some((salt, _)) => keyed_hash(salt, encode_utf8(name)),
            None => None,
        },
    )
}

/// Some line cannot be followed exactly. It is refused even where it concerns
/// another host.
pub open spec fn any_unsupported(entries: Seq<Entry>) -> bool {
    exists|i: int| 0 <= i < entries.len() && unsupported(#[trigger] entries[i])
}

pub open spec fn any_named(entries: Seq<Entry>, name: Seq<char>) -> bool {
    exists|i: int| 0 <= i < entries.len() && names(#[trigger] entries[i], name)
}

pub open spec fn trusted(entries: Seq<Entry>, name: Seq<char>, key: Seq<u8>) -> bool {
    exists|i: int|
        0 <= i < entries.len() && names(#[trigger] entries[i], name) && entries[i].key@ == key
}

fn name_of(host: &str, port: u16) -> (r: String)
    ensures
        r@ == kept_name(host@, port),
{
    if port == DEFAULT_PORT {
        return host.to_owned();
    }
    let mut name = String::new();
    name.append("[");
    name.append(host);
    name.append("]:");
    push_decimal(&mut name, port as u64);
    assert(name@ =~= kept_name(host@, port));
    name
}

fn is_unsupported(entry: &Entry) -> (r: bool)
    ensures
        r == unsupported(*entry),
{
    if entry.marked {
        return true;
    }
    let mut i: usize = 0;
    while i < entry.names.len()
        invariant
            i <= entry.names@.len(),
            !entry.marked,
            forall|k: int| 0 <= k < i ==> !is_pattern((#[trigger] entry.names@[k])@),
        decreases entry.names@.len() - i,
    {
        let chars = chars_of(entry.names[i].as_str());
        if contains_char(chars.as_slice(), '*') || contains_char(chars.as_slice(), '?')
            || contains_char(chars.as_slice(), '!') {
            assert(is_pattern(entry.names@[i as int]@));
            return true;
        }
        i += 1;
    }
    false
}

/// Whether a line is about a host, given the keyed hash of the host's name.
pub fn is_about(entry: &Entry, name: &str, digest: &Option<Vec<u8>>) -> (r: bool)
    ensures
        r == names_host(entry@, name@, digest_of(*digest)),
{
    let ghost all = texts(entry.names@);
    let mut i: usize = 0;
    while i < entry.names.len()
        invariant
            i <= entry.names@.len(),
            all == texts(entry.names@),
            forall|k: int| 0 <= k < i ==> #[trigger] all[k] != name@,
        decreases entry.names@.len() - i,
    {
        assert(all[i as int] == entry.names@[i as int]@);
        if same_str(entry.names[i].as_str(), name) {
            return true;
        }
        i += 1;
    }
    match (&entry.hashed, digest) {
        (Some((_, hash)), Some(digest)) => same_bytes(hash.as_slice(), digest.as_slice()),
        _ => false,
    }
}

fn has_name(entry: &Entry, name: &str) -> (r: bool)
    ensures
        r == names(*entry, name@),
{
    let digest = match &entry.hashed {
        Some((salt, _)) => hash_with(salt.as_slice(), name.as_bytes()),
        None => None,
    };
    is_about(entry, name, &digest)
}

fn same_bytes(a: &[u8], b: &[u8]) -> (r: bool)
    ensures
        r == (a@ == b@),
{
    if a.len() != b.len() {
        return false;
    }
    let mut i: usize = 0;
    while i < a.len()
        invariant
            i <= a@.len(),
            a@.len() == b@.len(),
            forall|k: int| 0 <= k < i ==> #[trigger] a@[k] == b@[k],
        decreases a@.len() - i,
    {
        if a[i] != b[i] {
            return false;
        }
        i += 1;
    }
    assert(a@ =~= b@);
    true
}

/// Why the key of a host is refused.
pub open spec fn refusal(entries: Seq<Entry>, name: Seq<char>, key: Seq<u8>) -> Option<
    (Kind, Seq<char>),
> {
    if any_unsupported(entries) {
        Some(
            (
                Kind::Configuration,
                "known-host markers, wildcards and negations are not supported"@,
            ),
        )
    } else if trusted(entries, name, key) {
        None
    } else if any_named(entries, name) {
        Some((Kind::ChangedHostKey, "the host key differs from the trusted one"@))
    } else {
        Some((Kind::UnknownHostKey, "the host key is not in the known hosts"@))
    }
}

/// Hold the key of a host against the known hosts.
pub fn verify(entries: &Vec<Entry>, host: &str, port: u16, key: &[u8]) -> (r: Result<(), Error>)
    ensures
        match refusal(entries@, kept_name(host@, port), key@) {
            None => r is Ok,
            Some((kind, text)) => r matches Err(error) && is_error(error, kind, text),
        },
{
    let name = name_of(host, port);
    let mut found = false;
    let mut same = false;
    let mut i: usize = 0;
    while i < entries.len()
        invariant
            i <= entries@.len(),
            name@ == kept_name(host@, port),
            forall|k: int| 0 <= k < i ==> !unsupported(#[trigger] entries@[k]),
            found == exists|k: int| 0 <= k < i && names(#[trigger] entries@[k], name@),
            same == exists|k: int|
                0 <= k < i && names(#[trigger] entries@[k], name@) && entries@[k].key@ == key@,
        decreases entries@.len() - i,
    {
        let entry = &entries[i];
        if is_unsupported(entry) {
            assert(unsupported(entries@[i as int]));
            return Err(
                Error::new(
                    Kind::Configuration,
                    "known-host markers, wildcards and negations are not supported",
                ),
            );
        }
        let named = has_name(entry, name.as_str());
        let equal = named && same_bytes(entry.key.as_slice(), key);
        proof {
            assert(named == names(entries@[i as int], name@));
        }
        found = found || named;
        same = same || equal;
        i += 1;
    }
    if same {
        Ok(())
    } else if found {
        Err(Error::new(Kind::ChangedHostKey, "the host key differs from the trusted one"))
    } else {
        Err(Error::new(Kind::UnknownHostKey, "the host key is not in the known hosts"))
    }
}

/// The hosts that the user already trusts.
#[derive(Debug)]
pub struct Store {
    pub entries: Vec<Entry>,
}

/// The lines that were read, or the error of the first malformed one.
pub fn accept_lines(read: Result<Vec<Entry>, String>) -> (r: Result<Store, Error>)
    ensures
        match known_of(read) {
            Ok(known) => r matches Ok(store) && all_known(store.entries@) == known,
            Err(text) => r matches Err(error) && is_error(error, Kind::Configuration, text),
        },
{
    match read {
        Ok(entries) => Ok(Store { entries }),
        Err(text) => Err(Error::new(Kind::Configuration, text.as_str())),
    }
}

/// What comes of a key that was held against the known hosts, with its fingerprint.
pub fn accept_key(verdict: Result<(), Error>, print: Result<String, String>) -> (r: Result<
    String,
    Error,
>)
    ensures
        match (verdict, text_of(print)) {
            (Err(error), _) => r == Err::<String, Error>(error),
            (Ok(()), Ok(text)) => r matches Ok(shown) && shown@ == text,
            (Ok(()), Err(text)) => r matches Err(error) && is_error(
                error,
                Kind::Configuration,
                text,
            ),
        },
{
    match verdict {
        Err(error) => Err(error),
        Ok(()) => match print {
            Ok(text) => Ok(text),
            Err(text) => Err(Error::new(Kind::Configuration, text.as_str())),
        },
    }
}

impl Store {
    /// The known hosts of a file with this text.
    pub fn from_text(text: &str) -> (r: Result<Self, Error>)
        ensures
            match known_lines(text@) {
                Ok(known) => r matches Ok(store) && all_known(store.entries@) == known,
                Err(text) => r matches Err(error) && is_error(error, Kind::Configuration, text),
            },
    {
        accept_lines(read_lines(text))
    }

    /// Hold the key of a host against the known hosts, and give its fingerprint.
    pub fn verify(&self, host: &str, port: u16, key: &[u8]) -> (r: Result<String, Error>)
        ensures
            match r {
                Ok(shown) => {
                    &&& !any_unsupported(self.entries@)
                    &&& trusted(self.entries@, kept_name(host@, port), key@)
                    &&& key_fingerprint(key@) == Ok::<Seq<char>, Seq<char>>(shown@)
                },
                Err(error) => match refusal(self.entries@, kept_name(host@, port), key@) {
                    Some((kind, text)) => is_error(error, kind, text),
                    None => key_fingerprint(key@) matches Err(text) && is_error(
                        error,
                        Kind::Configuration,
                        text,
                    ),
                },
            },
    {
        accept_key(verify(&self.entries, host, port, key), print_of(key))
    }
}

/// The name of a host and a port is that of no other host and of no other port,
/// so that a key which is trusted on one port is not trusted on another.
pub proof fn names_are_kept_apart(a: Seq<char>, p: u16, b: Seq<char>, q: u16)
    requires
        !a.contains('[') && !a.contains(']'),
        !b.contains('[') && !b.contains(']'),
        kept_name(a, p) == kept_name(b, q),
    ensures
        a == b,
        p == q,
{
    reveal_strlit("[");
    reveal_strlit("]:");
    let (s, t) = (kept_name(a, p), kept_name(b, q));
    if p != DEFAULT_PORT {
        assert(s[0] == '[');
        if q == DEFAULT_PORT {
            assert(b.contains('['));
        }
    } else if q != DEFAULT_PORT {
        assert(t[0] == '[');
        assert(a.contains('['));
    }
    if p != DEFAULT_PORT {
        bracket_place(a, p);
        bracket_place(b, q);
        assert(a.len() == b.len());
        assert(a =~= s.subrange(1, 1 + a.len() as int));
        assert(b =~= t.subrange(1, 1 + b.len() as int));
        decimal_reads_back(p as nat);
        decimal_reads_back(q as nat);
        assert(decimal(p as nat) =~= s.skip(3 + a.len() as int));
        assert(decimal(q as nat) =~= t.skip(3 + b.len() as int));
    }
}

proof fn bracket_place(host: Seq<char>, port: u16)
    requires
        !host.contains(']'),
        port != DEFAULT_PORT,
    ensures
        first_index(kept_name(host, port), ']') == host.len() + 1,
{
    reveal_strlit("[");
    reveal_strlit("]:");
    let s = kept_name(host, port);
    assert(s[host.len() as int + 1] == ']');
    assert forall|j: int| 0 <= j < host.len() + 1 implies #[trigger] s[j] != ']' by {
        if j > 0 {
            assert(s[j] == host[j - 1]);
        }
    }
    first_index_unique(s, ']', host.len() as int + 1);
}

/// Some line gives this very key for the host.
pub open spec fn vouched(entries: Seq<Entry>, name: Seq<char>, key: Seq<u8>) -> bool {
    exists|i: int|
        0 <= i < entries.len() && names(#[trigger] entries[i], name) && entries[i].key@ == key
}

/// A key is accepted exactly where some line gives it for the host and no line asks for
/// more than a host and its key. Another key of a host that is known is a changed one, and
/// any key of a host that is not known is an unknown one.
pub proof fn keys_are_accepted_as_listed(entries: Seq<Entry>, name: Seq<char>, key: Seq<u8>)
    ensures
        refusal(entries, name, key) is None <==> vouched(entries, name, key) && forall|i: int|
            0 <= i < entries.len() ==> !unsupported(#[trigger] entries[i]),
        refusal(entries, name, key) matches Some((kind, _)) ==> {
            &&& kind is ChangedHostKey ==> !vouched(entries, name, key) && exists|i: int|
                0 <= i < entries.len() && names(#[trigger] entries[i], name)
            &&& kind is UnknownHostKey ==> forall|i: int|
                0 <= i < entries.len() ==> !names(#[trigger] entries[i], name)
            &&& kind is Configuration <==> exists|i: int|
                0 <= i < entries.len() && unsupported(#[trigger] entries[i])
            &&& kind is ChangedHostKey || kind is UnknownHostKey || kind is Configuration
        },
{
}

/// The lines of other hosts neither vouch for a key nor take it back, wherever they stand.
pub proof fn other_hosts_do_not_matter(
    front: Seq<Entry>,
    other: Entry,
    back: Seq<Entry>,
    name: Seq<char>,
    key: Seq<u8>,
)
    requires
        !names(other, name),
        !unsupported(other),
    ensures
        refusal(front.push(other) + back, name, key) == refusal(front + back, name, key),
{
    let all = front.push(other) + back;
    let rest = front + back;
    let n = front.len() as int;
    assert forall|i: int| 0 <= i < all.len() && i != n implies rest.contains(#[trigger] all[i]) by {
        if i < n {
            assert(rest[i] == all[i]);
        } else {
            assert(rest[i - 1] == all[i]);
        }
    }
    assert forall|i: int| 0 <= i < rest.len() implies all.contains(#[trigger] rest[i]) by {
        if i < n {
            assert(all[i] == rest[i]);
        } else {
            assert(all[i + 1] == rest[i]);
        }
    }
    assert(any_unsupported(all) == any_unsupported(rest)) by {
        if any_unsupported(all) {
            let i = choose|i: int| 0 <= i < all.len() && unsupported(#[trigger] all[i]);
            let k = choose|k: int| 0 <= k < rest.len() && rest[k] == all[i];
            assert(unsupported(rest[k]));
        }
        if any_unsupported(rest) {
            let i = choose|i: int| 0 <= i < rest.len() && unsupported(#[trigger] rest[i]);
            let k = choose|k: int| 0 <= k < all.len() && all[k] == rest[i];
            assert(unsupported(all[k]));
        }
    }
    assert(any_named(all, name) == any_named(rest, name)) by {
        if any_named(all, name) {
            let i = choose|i: int| 0 <= i < all.len() && names(#[trigger] all[i], name);
            let k = choose|k: int| 0 <= k < rest.len() && rest[k] == all[i];
            assert(names(rest[k], name));
        }
        if any_named(rest, name) {
            let i = choose|i: int| 0 <= i < rest.len() && names(#[trigger] rest[i], name);
            let k = choose|k: int| 0 <= k < all.len() && all[k] == rest[i];
            assert(names(all[k], name));
        }
    }
    assert(trusted(all, name, key) == trusted(rest, name, key)) by {
        if trusted(all, name, key) {
            let i = choose|i: int|
                0 <= i < all.len() && names(#[trigger] all[i], name) && all[i].key@ == key;
            let k = choose|k: int| 0 <= k < rest.len() && rest[k] == all[i];
            assert(names(rest[k], name));
        }
        if trusted(rest, name, key) {
            let i = choose|i: int|
                0 <= i < rest.len() && names(#[trigger] rest[i], name) && rest[i].key@ == key;
            let k = choose|k: int| 0 <= k < all.len() && all[k] == rest[i];
            assert(names(all[k], name));
        }
    }
}

/// A name that stands for other hosts refuses every key of every host, wherever it is
/// listed, and so does a marked line.
pub proof fn patterns_refuse_every_key(
    entries: Seq<Entry>,
    i: int,
    k: int,
    name: Seq<char>,
    key: Seq<u8>,
)
    requires
        0 <= i < entries.len(),
        entries[i].marked || (0 <= k < entries[i].names@.len() && (
        entries[i].names@[k]@.contains('*') || entries[i].names@[k]@.contains('?')
            || entries[i].names@[k]@.contains('!'))),
    ensures
        refusal(entries, name, key) is Some,
{
    if !entries[i].marked {
        assert(is_pattern(entries[i].names@[k]@));
    }
    assert(unsupported(entries[i]));
}

} // verus!
