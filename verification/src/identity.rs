//! Identity files: what is read of them and what they sign.
//!
//! A key is loaded only after the server's host key was accepted. Keys are
//! parsed and signatures made by the key library; what is accepted of either is
//! settled here.
use signature::Signer as _;
use vstd::prelude::*;
use vstd::string::*;

use crate::ssh::{is_error, Error, Kind};
use crate::text::same_str;

verus! {

pub const MAX_IDENTITY_BYTES: usize = 1_048_576;

pub const MAX_KEY_BYTES: usize = 16_384;

pub const MAX_MESSAGE_BYTES: usize = 32_768;

/// The public keys that the protocol engine tells apart.
#[derive(Clone, Copy, Debug, PartialEq, Eq, Structural)]
pub enum PublicKind {
    Ed25519,
    Rsa,
    Ecdsa256,
    Unknown,
}

/// The bytes of a result, or the text of its error.
pub open spec fn bytes_of(r: Result<Vec<u8>, String>) -> Result<Seq<u8>, Seq<char>> {
    match r {
        Ok(bytes) => Ok(bytes@),
        Err(text) => Err(text@),
    }
}

pub open spec fn form_of(r: Result<(PublicKind, usize), String>) -> Result<
    (PublicKind, nat),
    Seq<char>,
> {
    match r {
        Ok((kind, used)) => Ok((kind, used as nat)),
        Err(text) => Err(text@),
    }
}

pub open spec fn unit_of(r: Result<(), String>) -> Result<(), Seq<char>> {
    match r {
        Ok(()) => Ok(()),
        Err(text) => Err(text@),
    }
}

pub open spec fn signature_of(r: Result<(String, Vec<u8>), String>) -> Result<
    (Seq<char>, Seq<u8>),
    Seq<char>,
> {
    match r {
        Ok((algorithm, bytes)) => Ok((algorithm@, bytes@)),
        Err(text) => Err(text@),
    }
}

/// Whether an OpenSSH private key file is encrypted; `None` for what is no such
/// file.
pub uninterp spec fn key_encryption(file: Seq<u8>) -> Option<bool>;

/// `ssh_key::PrivateKey::is_encrypted` of what `from_openssh` reads. The result
/// depends on the file alone.
#[verifier::external_body]
fn is_encrypted(file: &[u8]) -> (r: Option<bool>)
    ensures
        r == key_encryption(file@),
{
    ssh_key::PrivateKey::from_openssh(file).ok().map(|key| key.is_encrypted())
}

/// The wire form of the public half of a private key file, or the text of the
/// error with which it cannot be had.
pub uninterp spec fn key_public(file: Seq<u8>) -> Result<Seq<u8>, Seq<char>>;

/// `ssh_key::PublicKey::to_bytes` of the public half of what `from_openssh`
/// reads. The result depends on the file alone.
#[verifier::external_body]
fn public_wire(file: &[u8]) -> (r: Result<Vec<u8>, String>)
    ensures
        bytes_of(r) == key_public(file@),
{
    ssh_key::PrivateKey::from_openssh(file)
        .and_then(|key| key.public_key().to_bytes())
        .map_err(|error| error.to_string())
}

/// What the protocol engine reads at the front of a public key's wire form: the
/// kind of the key and the number of bytes that it takes up.
pub uninterp spec fn public_form(wire: Seq<u8>) -> Result<(PublicKind, nat), Seq<char>>;

/// `sunset::sshwire::read_ssh` of a `PubKey`. The result depends on the bytes
/// alone.
#[verifier::external_body]
fn read_public(wire: &[u8]) -> (r: Result<(PublicKind, usize), String>)
    ensures
        form_of(r) == public_form(wire@),
{
    match sunset::sshwire::read_ssh::<sunset::PubKey<'_>>(wire, None) {
        Ok((sunset::PubKey::Ed25519(_), used)) => Ok((PublicKind::Ed25519, used)),
        Ok((sunset::PubKey::RSA(_), used)) => Ok((PublicKind::Rsa, used)),
        Ok((sunset::PubKey::ECDSA256(_), used)) => Ok((PublicKind::Ecdsa256, used)),
        Ok((sunset::PubKey::Unknown(_), used)) => Ok((PublicKind::Unknown, used)),
        Err(error) => Err(error.to_string()),
    }
}

/// Whether the protocol engine can offer a public key, or the text of the error
/// with which it cannot.
pub uninterp spec fn public_offer(wire: Seq<u8>) -> Result<(), Seq<char>>;

/// `sunset::SignKey::from_agent_pubkey` of the key that the bytes hold. The
/// result depends on the bytes alone.
#[verifier::external_body]
fn offer_public(wire: &[u8]) -> (r: Result<(), String>)
    ensures
        unit_of(r) == public_offer(wire@),
{
    sunset::sshwire::read_ssh::<sunset::PubKey<'_>>(wire, None)
        .and_then(|(public, _)| sunset::SignKey::from_agent_pubkey(&public))
        .map(|_| ())
        .map_err(|error| error.to_string())
}

/// The algorithm and the bytes of the signature that a private key file makes
/// of a message, or the text of the error with which it makes none.
pub uninterp spec fn key_signature(file: Seq<u8>, message: Seq<u8>) -> Result<
    (Seq<char>, Seq<u8>),
    Seq<char>,
>;

/// `signature::Signer::try_sign` of the key that `from_openssh` reads. Its
/// signatures are deterministic: the result depends on the file and the message
/// alone.
#[verifier::external_body]
fn make_signature(file: &[u8], message: &[u8]) -> (r: Result<(String, Vec<u8>), String>)
    ensures
        signature_of(r) == key_signature(file@, message@),
{
    let key = ssh_key::PrivateKey::from_openssh(file).map_err(|error| error.to_string())?;
    let made: ssh_key::Signature = key.try_sign(message).map_err(|error| error.to_string())?;
    Ok((made.algorithm().as_str().to_owned(), made.as_bytes().to_vec()))
}

/// The result of a signature that may not have been tried.
pub open spec fn tried_of(r: Option<Result<(String, Vec<u8>), String>>) -> Option<
    Result<(Seq<char>, Seq<u8>), Seq<char>>,
> {
    match r {
        Some(made) => Some(signature_of(made)),
        None => None,
    }
}

/// The algorithm and the bytes of the signature with SHA-256 that the RSA key of
/// a private key file makes of a message, or the text of the error with which it
/// makes none; `None` for a file that holds no RSA key.
pub uninterp spec fn rsa_signature(file: Seq<u8>, message: Seq<u8>) -> Option<
    Result<(Seq<char>, Seq<u8>), Seq<char>>,
>;

/// `signature::Signer::try_sign` of the pair of an RSA key and `HashAlg::Sha256`,
/// where `from_openssh` reads a file whose `key_data` has an RSA key. PKCS #1
/// signatures are deterministic: the result depends on the file and the message
/// alone.
#[verifier::external_body]
fn make_rsa_signature(file: &[u8], message: &[u8]) -> (r: Option<
    Result<(String, Vec<u8>), String>,
>)
    ensures
        tried_of(r) == rsa_signature(file@, message@),
{
    let key = ssh_key::PrivateKey::from_openssh(file).ok()?;
    let made: Result<ssh_key::Signature, _> = (key.key_data().rsa()?, Some(ssh_key::HashAlg::Sha256))
        .try_sign(message);
    Some(
        made
            .map(|made| (made.algorithm().as_str().to_owned(), made.as_bytes().to_vec()))
            .map_err(|error| error.to_string()),
    )
}

/// Why a file is refused before its public half is looked at.
pub open spec fn file_fault(length: nat, encryption: Option<bool>) -> Option<Seq<char>> {
    if length > MAX_IDENTITY_BYTES {
        Some("identity file exceeds 1 MiB"@)
    } else {
        match encryption {
            None => Some("unsupported OpenSSH private key"@),
            Some(true) => Some("load encrypted keys into your SSH agent first"@),
            Some(false) => None,
        }
    }
}

/// Whether a file of this length, parsed to this, can be used.
pub fn check_file(length: usize, encryption: Option<bool>) -> (r: Result<(), Error>)
    ensures
        match r {
            Ok(()) => file_fault(length as nat, encryption) is None,
            Err(error) => file_fault(length as nat, encryption) is Some && is_error(
                error,
                Kind::Authentication,
                file_fault(length as nat, encryption)->0,
            ),
        },
{
    if length > MAX_IDENTITY_BYTES {
        return Err(Error::new(Kind::Authentication, "identity file exceeds 1 MiB"));
    }
    match encryption {
        None => Err(Error::new(Kind::Authentication, "unsupported OpenSSH private key")),
        Some(encrypted) => if encrypted {
            Err(Error::new(Kind::Authentication, "load encrypted keys into your SSH agent first"))
        } else {
            Ok(())
        },
    }
}

/// Why a public key is refused: it cannot be read, bytes are left behind it, or
/// the engine cannot offer it.
pub open spec fn public_fault(
    length: nat,
    form: Result<(PublicKind, nat), Seq<char>>,
    offer: Result<(), Seq<char>>,
) -> Option<Seq<char>> {
    match form {
        Err(text) => Some(text),
        Ok((_, used)) => if used != length {
            Some("trailing public-key data"@)
        } else {
            match offer {
                Err(text) => Some(text),
                Ok(()) => None,
            }
        },
    }
}

/// Whether a public key of this length, read to this, can be offered.
pub fn check_public(
    length: usize,
    form: Result<(PublicKind, usize), String>,
    offer: Result<(), String>,
) -> (r: Result<(), Error>)
    ensures
        match r {
            Ok(()) => public_fault(length as nat, form_of(form), unit_of(offer)) is None,
            Err(error) => public_fault(length as nat, form_of(form), unit_of(offer)) is Some
                && is_error(
                error,
                Kind::Authentication,
                public_fault(length as nat, form_of(form), unit_of(offer))->0,
            ),
        },
{
    match form {
        Err(text) => Err(Error::new(Kind::Authentication, text.as_str())),
        Ok((_, used)) => {
            if used != length {
                return Err(Error::new(Kind::Authentication, "trailing public-key data"));
            }
            match offer {
                Err(text) => Err(Error::new(Kind::Authentication, text.as_str())),
                Ok(()) => Ok(()),
            }
        },
    }
}

/// What comes of a private key file: its public key in wire form, or the reason
/// for which it is refused.
pub open spec fn identity(file: Seq<u8>) -> Result<Seq<u8>, Seq<char>> {
    match file_fault(file.len(), key_encryption(file)) {
        Some(text) => Err(text),
        None => match key_public(file) {
            Err(text) => Err(text),
            Ok(wire) => match public_fault(wire.len(), public_form(wire), public_offer(wire)) {
                Some(text) => Err(text),
                None => Ok(wire),
            },
        },
    }
}

/// Load the public key of a private key file.
pub fn load_identity(file: &[u8]) -> (r: Result<Vec<u8>, Error>)
    ensures
        match r {
            Ok(wire) => identity(file@) == Ok::<Seq<u8>, Seq<char>>(wire@),
            Err(error) => identity(file@) matches Err(text) && is_error(
                error,
                Kind::Authentication,
                text,
            ),
        },
{
    if file.len() > MAX_IDENTITY_BYTES {
        return Err(Error::new(Kind::Authentication, "identity file exceeds 1 MiB"));
    }
    check_file(file.len(), is_encrypted(file))?;
    let wire = match public_wire(file) {
        Ok(wire) => wire,
        Err(text) => return Err(Error::new(Kind::Authentication, text.as_str())),
    };
    let form = read_public(wire.as_slice());
    let offer = offer_public(wire.as_slice());
    check_public(wire.len(), form, offer)?;
    Ok(wire)
}

/// The signature algorithm that a server expects of a key.
pub open spec fn algorithm(kind: PublicKind) -> Option<Seq<char>> {
    match kind {
        PublicKind::Ed25519 => Some("ssh-ed25519"@),
        PublicKind::Rsa => Some("rsa-sha2-256"@),
        PublicKind::Ecdsa256 => Some("ecdsa-sha2-nistp256"@),
        PublicKind::Unknown => None,
    }
}

/// Why a request for a signature is refused before anything is signed.
pub open spec fn request_fault(kind: PublicKind, key: nat, message: nat) -> Option<Seq<char>> {
    if algorithm(kind) is None {
        Some("unsupported signing key"@)
    } else if key > MAX_KEY_BYTES || message > MAX_MESSAGE_BYTES {
        Some("signing request exceeds budget"@)
    } else {
        None
    }
}

/// Check a request for a signature, and name the algorithm that it is owed.
pub fn check_request(kind: PublicKind, key: usize, message: usize) -> (r: Result<
    &'static str,
    Error,
>)
    ensures
        match r {
            Ok(name) => request_fault(kind, key as nat, message as nat) is None && algorithm(kind)
                == Some(name@),
            Err(error) => request_fault(kind, key as nat, message as nat) is Some && is_error(
                error,
                Kind::Authentication,
                request_fault(kind, key as nat, message as nat)->0,
            ),
        },
{
    let name = match kind {
        PublicKind::Ed25519 => "ssh-ed25519",
        PublicKind::Rsa => "rsa-sha2-256",
        PublicKind::Ecdsa256 => "ecdsa-sha2-nistp256",
        PublicKind::Unknown => return Err(
            Error::new(Kind::Authentication, "unsupported signing key"),
        ),
    };
    if key > MAX_KEY_BYTES || message > MAX_MESSAGE_BYTES {
        return Err(Error::new(Kind::Authentication, "signing request exceeds budget"));
    }
    Ok(name)
}

/// What comes of a signature that was made for this algorithm.
pub open spec fn signed(
    expected: Seq<char>,
    made: Result<(Seq<char>, Seq<u8>), Seq<char>>,
) -> Result<Seq<u8>, Seq<char>> {
    match made {
        Err(text) => Err(text),
        Ok((name, bytes)) => if name == expected {
            Ok(bytes)
        } else {
            Err("unexpected signature algorithm"@)
        },
    }
}

/// Accept a signature only of the algorithm that was asked for.
pub fn accept_signature(expected: &str, made: Result<(String, Vec<u8>), String>) -> (r: Result<
    Vec<u8>,
    Error,
>)
    ensures
        match r {
            Ok(bytes) => signed(expected@, signature_of(made)) == Ok::<Seq<u8>, Seq<char>>(
                bytes@,
            ),
            Err(error) => signed(expected@, signature_of(made)) matches Err(text) && is_error(
                error,
                Kind::Authentication,
                text,
            ),
        },
{
    match made {
        Err(text) => Err(Error::new(Kind::Authentication, text.as_str())),
        Ok((name, bytes)) => if same_str(name.as_str(), expected) {
            Ok(bytes)
        } else {
            Err(Error::new(Kind::Authentication, "unexpected signature algorithm"))
        },
    }
}

fn same_bytes(a: &[u8], b: &[u8]) -> (r: bool)
    ensures
        r == (a@ == b@),
{
    if a.len() != b.len() {
        return false;
    }
    let mut i: usize = 0;
    while i < a.len()
        invariant
            i <= a.len(),
            a.len() == b.len(),
            forall|k: int| 0 <= k < i ==> a@[k] == b@[k],
        decreases a.len() - i,
    {
        if a[i] != b[i] {
            return false;
        }
        i += 1;
    }
    assert(a@ =~= b@);
    true
}

/// The signature of a message by the key of a file: an RSA key signs with
/// SHA-256, every other one in the one way that it has.
pub open spec fn file_signature(file: Seq<u8>, message: Seq<u8>) -> Result<
    (Seq<char>, Seq<u8>),
    Seq<char>,
> {
    match rsa_signature(file, message) {
        Some(made) => made,
        None => key_signature(file, message),
    }
}

/// What comes of a request to sign a message with the key of a file.
pub open spec fn request_outcome(
    file: Seq<u8>,
    kind: PublicKind,
    key: Seq<u8>,
    message: Seq<u8>,
) -> Result<Seq<u8>, Seq<char>> {
    match request_fault(kind, key.len(), message.len()) {
        Some(text) => Err(text),
        None => match key_public(file) {
            Err(text) => Err(text),
            Ok(wire) => if wire != key {
                Err("identity mismatch"@)
            } else {
                signed(algorithm(kind)->0, file_signature(file, message))
            },
        },
    }
}

/// Sign a message with the key of a file, where that is the key that was asked
/// for.
pub fn sign(file: &[u8], kind: PublicKind, key: &[u8], message: &[u8]) -> (r: Result<
    Vec<u8>,
    Error,
>)
    ensures
        match r {
            Ok(bytes) => request_outcome(file@, kind, key@, message@) == Ok::<Seq<u8>, Seq<char>>(
                bytes@,
            ),
            Err(error) => request_outcome(file@, kind, key@, message@) matches Err(text)
                && is_error(error, Kind::Authentication, text),
        },
{
    let expected = check_request(kind, key.len(), message.len())?;
    match public_wire(file) {
        Err(text) => return Err(Error::new(Kind::Authentication, text.as_str())),
        Ok(wire) => {
            if !same_bytes(wire.as_slice(), key) {
                return Err(Error::new(Kind::Authentication, "identity mismatch"));
            }
        },
    }
    let made = match make_rsa_signature(file, message) {
        Some(made) => made,
        None => make_signature(file, message),
    };
    accept_signature(expected, made)
}

/// Nothing is signed for another key than the one in the file.
pub proof fn only_the_own_key_signs(
    file: Seq<u8>,
    kind: PublicKind,
    key: Seq<u8>,
    message: Seq<u8>,
)
    requires
        request_outcome(file, kind, key, message) is Ok,
    ensures
        key_public(file) == Ok::<Seq<u8>, Seq<char>>(key),
        message.len() <= MAX_MESSAGE_BYTES,
        kind != PublicKind::Unknown,
        file_signature(file, message) matches Ok((name, _)) && Some(name) == algorithm(kind),
{
}

} // verus!
