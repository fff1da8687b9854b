//! Files that are dropped onto a Wayland window.
//!
//! What the compositor offers, and the list of URIs that a drop hands over, are
//! judged here. Only files of this machine are taken, and only a few of them.
use vstd::prelude::*;
use vstd::slice::slice_subrange;
use vstd::string::*;
use vstd::utf8::*;

use crate::text::{
    chars_of, contains_char, find_char, first_index, first_index_facts, from_utf8, is_text, lines,
    lower_text, rows, split_lines, starts_with, string_of, texts, to_lower, trim_both, trimmed,
};

verus! {

pub const MAX_URI_LIST_BYTES: usize = 65_536;

pub const MAX_DROPPED_FILES: usize = 8;

#[derive(Clone, Copy, Debug, PartialEq, Eq, Structural)]
pub enum Error {
    TooLarge,
    NotUtf8,
    TooMany,
    NoFiles,
}

pub open spec fn error_text(error: Error) -> Seq<char> {
    match error {
        Error::TooLarge => "Wayland file drop exceeds 65536 bytes"@,
        Error::NotUtf8 => "Wayland file drop is not UTF-8"@,
        Error::TooMany => "drop at most 8 files at a time"@,
        Error::NoFiles => "file drop contains no local files"@,
    }
}

impl Error {
    pub fn message(self) -> (r: &'static str)
        ensures
            r@ == error_text(self),
    {
        match self {
            Error::TooLarge => "Wayland file drop exceeds 65536 bytes",
            Error::NotUtf8 => "Wayland file drop is not UTF-8",
            Error::TooMany => "drop at most 8 files at a time",
            Error::NoFiles => "file drop contains no local files",
        }
    }
}

/// The value of a hexadecimal digit.
pub open spec fn digit_value(b: u8) -> Option<u8> {
    if 48 <= b <= 57 {
        Some((b - 48) as u8)
    } else if 97 <= b <= 102 {
        Some((b - 87) as u8)
    } else if 65 <= b <= 70 {
        Some((b - 55) as u8)
    } else {
        None
    }
}

fn digit(b: u8) -> (r: Option<u8>)
    ensures
        r == digit_value(b),
        r matches Some(n) ==> n < 16,
{
    if 48 <= b && b <= 57 {
        Some(b - 48)
    } else if 97 <= b && b <= 102 {
        Some(b - 87)
    } else if 65 <= b && b <= 70 {
        Some(b - 55)
    } else {
        None
    }
}

/// The byte that two characters behind a percent sign stand for. A plus sign may
/// stand in place of the first digit.
pub open spec fn percent_byte(a: u8, b: u8) -> Option<u8> {
    match digit_value(b) {
        None => None,
        Some(low) => if a == 43 {
            Some(low)
        } else {
            match digit_value(a) {
                None => None,
                Some(high) => Some((16 * high + low) as u8),
            }
        },
    }
}

fn read_percent(a: u8, b: u8) -> (r: Option<u8>)
    ensures
        r == percent_byte(a, b),
{
    match digit(b) {
        None => None,
        Some(low) => if a == 43 {
            Some(low)
        } else {
            match digit(a) {
                None => None,
                Some(high) => Some(16 * high + low),
            }
        },
    }
}

/// Bytes in front of what else is read, if anything can be.
pub open spec fn behind(front: Seq<u8>, rest: Option<Seq<u8>>) -> Option<Seq<u8>> {
    match rest {
        None => None,
        Some(more) => Some(front + more),
    }
}

/// The bytes that a path of a URI stands for.
pub open spec fn unescaped(raw: Seq<u8>) -> Option<Seq<u8>>
    decreases raw.len(),
{
    if raw.len() == 0 {
        Some(seq![])
    } else if raw[0] == 37 {
        if raw.len() < 3 {
            None
        } else {
            match percent_byte(raw[1], raw[2]) {
                None => None,
                Some(byte) => behind(seq![byte], unescaped(raw.skip(3))),
            }
        }
    } else {
        behind(seq![raw[0]], unescaped(raw.skip(1)))
    }
}

fn unescape(raw: &[u8]) -> (r: Option<Vec<u8>>)
    ensures
        match r {
            Some(bytes) => unescaped(raw@) == Some(bytes@),
            None => unescaped(raw@) is None,
        },
{
    let mut out: Vec<u8> = Vec::new();
    let mut i: usize = 0;
    proof {
        assert(raw@.skip(0) =~= raw@);
        assert(behind(out@, unescaped(raw@)) == unescaped(raw@)) by {
            if unescaped(raw@) is Some {
                assert(Seq::<u8>::empty() + unescaped(raw@)->0 =~= unescaped(raw@)->0);
            }
        }
    }
    while i < raw.len()
        invariant
            i <= raw.len(),
            unescaped(raw@) == behind(out@, unescaped(raw@.skip(i as int))),
        decreases raw.len() - i,
    {
        let ghost rest = raw@.skip(i as int);
        let ghost before = out@;
        if raw[i] == 37 {
            if raw.len() - i < 3 {
                return None;
            }
            match read_percent(raw[i + 1], raw[i + 2]) {
                None => return None,
                Some(byte) => {
                    out.push(byte);
                    proof {
                        assert(rest.skip(3) =~= raw@.skip(i + 3));
                        if unescaped(raw@.skip(i + 3)) is Some {
                            let more = unescaped(raw@.skip(i + 3))->0;
                            assert(before + (seq![byte] + more) =~= out@ + more);
                        }
                    }
                },
            }
            i += 3;
        } else {
            let byte = raw[i];
            out.push(byte);
            proof {
                assert(rest.skip(1) =~= raw@.skip(i + 1));
                if unescaped(raw@.skip(i + 1)) is Some {
                    let more = unescaped(raw@.skip(i + 1))->0;
                    assert(before + (seq![byte] + more) =~= out@ + more);
                }
            }
            i += 1;
        }
    }
    proof {
        assert(raw@.skip(i as int) =~= Seq::<u8>::empty());
        assert(out@ + Seq::<u8>::empty() =~= out@);
    }
    Some(out)
}

/// The part of a URI that names a file of this machine: behind the scheme, and
/// behind an authority only where that is this machine.
pub open spec fn local_part(uri: Seq<char>) -> Option<Seq<char>> {
    if uri.len() < 7 || uri.take(7) != "file://"@ {
        None
    } else {
        let rest = uri.skip(7);
        let slash = first_index(rest, '/');
        if slash >= rest.len() {
            None
        } else if slash == 0 || lower_text(rest.take(slash)) == "localhost"@ {
            Some(rest.skip(slash))
        } else {
            None
        }
    }
}

/// A path that can be opened.
pub open spec fn usable(path: Seq<char>) -> bool {
    path.len() > 0 && path[0] == '/' && !path.contains('\0')
}

/// The local file that a URI names.
pub open spec fn file_of(uri: Seq<char>) -> Option<Seq<char>> {
    match local_part(uri) {
        None => None,
        Some(path) => match unescaped(encode_utf8(path)) {
            None => None,
            Some(bytes) => if valid_utf8(bytes) && usable(decode_utf8(bytes)) {
                Some(decode_utf8(bytes))
            } else {
                None
            },
        },
    }
}

pub fn decode_file_uri(uri: &str) -> (r: Option<String>)
    ensures
        match r {
            Some(path) => file_of(uri@) == Some(path@),
            None => file_of(uri@) is None,
        },
{
    let chars = chars_of(uri);
    proof {
        reveal_strlit("file://");
    }
    if !starts_with(chars.as_slice(), "file://") {
        return None;
    }
    let rest = slice_subrange(chars.as_slice(), 7, chars.len());
    proof {
        assert(rest@ =~= uri@.skip(7));
        assert(uri@.take(7) =~= "file://"@);
        first_index_facts(rest@, '/');
    }
    let slash = find_char(rest, '/');
    if slash >= rest.len() {
        return None;
    }
    if slash > 0 {
        let authority = slice_subrange(rest, 0, slash);
        proof {
            assert(authority@ =~= rest@.take(slash as int));
        }
        let lowered = to_lower(authority);
        if !is_text(lowered.as_slice(), "localhost") {
            return None;
        }
    }
    let path = slice_subrange(rest, slash, rest.len());
    proof {
        assert(path@ =~= rest@.skip(slash as int));
    }
    let text = string_of(path);
    let bytes = match unescape(text.as_str().as_bytes()) {
        Some(bytes) => bytes,
        None => return None,
    };
    match from_utf8(bytes) {
        None => None,
        Some(decoded) => {
            let shown = chars_of(decoded.as_str());
            if shown.len() > 0 && shown[0] == '/' && !contains_char(shown.as_slice(), '\0') {
                Some(decoded)
            } else {
                None
            }
        },
    }
}

/// Whether a line of a list names something: empty lines and comments do not.
pub open spec fn named(line: Seq<char>) -> Option<Seq<char>> {
    let text = trim_both(line);
    if text.len() == 0 || text[0] == '#' {
        None
    } else {
        file_of(text)
    }
}

/// The local files that lines name, in their order.
pub open spec fn files_of(given: Seq<Seq<char>>) -> Seq<Seq<char>>
    decreases given.len(),
{
    if given.len() == 0 {
        seq![]
    } else {
        match named(given.last()) {
            None => files_of(given.drop_last()),
            Some(path) => files_of(given.drop_last()).push(path),
        }
    }
}

proof fn files_grow(given: Seq<Seq<char>>, n: int)
    requires
        0 <= n <= given.len(),
    ensures
        files_of(given.take(n)).len() <= files_of(given).len(),
    decreases given.len() - n,
{
    if n == given.len() {
        assert(given.take(n) =~= given);
    } else {
        assert(given.take(n + 1).drop_last() =~= given.take(n));
        files_grow(given, n + 1);
    }
}

/// What a list of URIs comes to.
pub open spec fn listed(text: Seq<char>) -> Result<Seq<Seq<char>>, Error> {
    let files = files_of(lines(text));
    if files.len() > MAX_DROPPED_FILES {
        Err(Error::TooMany)
    } else if files.len() == 0 {
        Err(Error::NoFiles)
    } else {
        Ok(files)
    }
}

pub fn parse_uri_list(text: &str) -> (r: Result<Vec<String>, Error>)
    ensures
        match r {
            Ok(files) => listed(text@) == Ok::<Seq<Seq<char>>, Error>(texts(files@)),
            Err(error) => listed(text@) == Err::<Seq<Seq<char>>, Error>(error),
        },
{
    let given = split_lines(chars_of(text).as_slice());
    let ghost all = lines(text@);
    let mut files: Vec<String> = Vec::new();
    let mut i: usize = 0;
    proof {
        assert(texts(files@) =~= files_of(all.take(0)));
    }
    while i < given.len()
        invariant
            i <= given.len(),
            rows(given@) == all,
            all == lines(text@),
            texts(files@) == files_of(all.take(i as int)),
            files@.len() <= MAX_DROPPED_FILES,
        decreases given.len() - i,
    {
        proof {
            assert(all.take(i + 1).drop_last() =~= all.take(i as int));
            assert(all.take(i + 1).last() == given@[i as int]@);
        }
        let line = trimmed(given[i].as_slice());
        if line.len() > 0 && line[0] != '#' {
            let shown = string_of(line);
            match decode_file_uri(shown.as_str()) {
                Some(path) => {
                    let ghost before = files@;
                    if files.len() >= MAX_DROPPED_FILES {
                        proof {
                            files_grow(all, i + 1);
                        }
                        return Err(Error::TooMany);
                    }
                    files.push(path);
                    proof {
                        assert(texts(files@) =~= texts(before).push(path@));
                    }
                },
                None => {},
            }
        }
        i += 1;
    }
    proof {
        assert(all.take(i as int) =~= all);
    }
    if files.len() == 0 {
        return Err(Error::NoFiles);
    }
    Ok(files)
}

/// Add what was read of a list to what was read before.
pub fn collect(bytes: &mut Vec<u8>, chunk: &[u8]) -> (r: Result<(), Error>)
    requires
        old(bytes)@.len() <= MAX_URI_LIST_BYTES,
    ensures
        match r {
            Ok(()) => final(bytes)@ == old(bytes)@ + chunk@ && final(bytes)@.len()
                <= MAX_URI_LIST_BYTES,
            Err(error) => old(bytes)@.len() + chunk@.len() > MAX_URI_LIST_BYTES && error
                == Error::TooLarge && final(bytes)@ == old(bytes)@,
        },
{
    if chunk.len() > MAX_URI_LIST_BYTES - bytes.len() {
        return Err(Error::TooLarge);
    }
    bytes.extend_from_slice(chunk);
    proof {
        assert(bytes@ =~= old(bytes)@ + chunk@);
    }
    Ok(())
}

/// The files of a list that was read to its end.
pub fn read_uri_list(bytes: Vec<u8>) -> (r: Result<Vec<String>, Error>)
    ensures
        match r {
            Ok(files) => valid_utf8(bytes@) && listed(decode_utf8(bytes@)) == Ok::<
                Seq<Seq<char>>,
                Error,
            >(texts(files@)),
            Err(error) => if valid_utf8(bytes@) {
                listed(decode_utf8(bytes@)) == Err::<Seq<Seq<char>>, Error>(error)
            } else {
                error == Error::NotUtf8
            },
        },
{
    match from_utf8(bytes) {
        None => Err(Error::NotUtf8),
        Some(text) => parse_uri_list(text.as_str()),
    }
}

proof fn files_are_usable(given: Seq<Seq<char>>, i: int)
    requires
        0 <= i < files_of(given).len(),
    ensures
        usable(files_of(given)[i]),
    decreases given.len(),
{
    if given.len() > 0 {
        let front = given.drop_last();
        if i < files_of(front).len() {
            files_are_usable(front, i);
        }
    }
}

/// Whatever a list holds, the files taken from it are few and each of them is an
/// absolute path without a zero byte.
pub proof fn drops_are_bounded_and_local(text: Seq<char>, i: int)
    requires
        listed(text) is Ok,
        0 <= i < (listed(text)->Ok_0).len(),
    ensures
        1 <= (listed(text)->Ok_0).len() <= MAX_DROPPED_FILES,
        usable((listed(text)->Ok_0)[i]),
{
    files_are_usable(lines(text), i);
}

/// What a turn of the window's event loop takes from the drops.
#[derive(Debug)]
pub struct Pump {
    pub hovering: bool,
    pub dropped: Vec<String>,
    pub error: Option<String>,
}

/// What a drop has come to.
#[derive(Debug)]
pub enum Reading {
    Waiting,
    Files(Vec<String>),
    Failed(String),
    Lost,
}

/// What is known of the drag over the window.
#[derive(Debug)]
pub struct State {
    /// The window's surface, where it is known. Where it is not, every surface
    /// is taken for the window's.
    pub surface: Option<u32>,
    pub offered: bool,
    pub serial: u32,
    pub uri_list: bool,
    pub hovering: bool,
    pub pending: bool,
    pub dropped: Vec<String>,
    pub error: Option<String>,
}

/// What the offer that came with a drag is answered.
#[derive(Clone, Copy, Debug, PartialEq, Eq, Structural)]
pub enum Answer {
    Nothing,
    /// The list of URIs is wanted, to copy files.
    Accept,
    Reject,
}

/// What a drop asks for.
#[derive(Clone, Copy, Debug, PartialEq, Eq, Structural)]
pub enum Drop {
    /// Nothing was offered.
    Nothing,
    /// Receive the list on a pipe, and read it to its end elsewhere.
    Read,
    /// Receive the list, but do not read it: another one is being read.
    Busy,
}

impl State {
    pub fn new(surface: Option<u32>) -> (r: Self)
        ensures
            r.surface == surface,
            !r.offered && !r.uri_list && !r.hovering && !r.pending,
            r.serial == 0,
            r.dropped@.len() == 0,
            r.error is None,
    {
        State {
            surface,
            offered: false,
            serial: 0,
            uri_list: false,
            hovering: false,
            pending: false,
            dropped: Vec::new(),
            error: None,
        }
    }

    /// Whether a surface is the window's.
    pub open spec fn owns(self, surface: u32) -> bool {
        self.surface is None || self.surface == Some(surface)
    }

    /// A new offer, of which nothing is known yet.
    pub fn data_offer(&mut self)
        ensures
            *final(self) == (State { uri_list: false, offered: true, ..*old(self) }),
    {
        self.uri_list = false;
        self.offered = true;
    }

    /// The offer holds a list of URIs: whether it is accepted at once.
    pub fn uri_list_offered(&mut self) -> (r: Answer)
        ensures
            r == if old(self).hovering || old(self).offered {
                Answer::Accept
            } else {
                Answer::Nothing
            },
            *final(self) == (State {
                uri_list: true,
                hovering: old(self).hovering || old(self).offered,
                ..*old(self)
            }),
    {
        self.uri_list = true;
        if self.hovering || self.offered {
            self.hovering = true;
            Answer::Accept
        } else {
            Answer::Nothing
        }
    }

    /// A drag entered a surface, with an offer or without one.
    pub fn accept_if_ours(&mut self, surface: u32, serial: u32, offer: bool) -> (r: Answer)
        ensures
            r == if !offer {
                Answer::Nothing
            } else if old(self).owns(surface) && old(self).uri_list {
                Answer::Accept
            } else {
                Answer::Reject
            },
            *final(self) == (State {
                serial,
                hovering: old(self).owns(surface) && old(self).uri_list,
                offered: old(self).offered || offer,
                ..*old(self)
            }),
    {
        let ours = match self.surface {
            None => true,
            Some(own) => own == surface,
        };
        self.serial = serial;
        self.hovering = ours && self.uri_list;
        if !offer {
            return Answer::Nothing;
        }
        self.offered = true;
        if ours && self.uri_list {
            Answer::Accept
        } else {
            Answer::Reject
        }
    }

    pub fn leave(&mut self)
        ensures
            *final(self) == (State {
                hovering: false,
                offered: false,
                uri_list: false,
                ..*old(self)
            }),
    {
        self.hovering = false;
        self.offered = false;
        self.uri_list = false;
    }

    /// The drag ended in a drop. One list is read at a time.
    pub fn take_uri_list(&mut self) -> (r: Drop)
        ensures
            r == if !old(self).offered {
                Drop::Nothing
            } else if old(self).pending {
                Drop::Busy
            } else {
                Drop::Read
            },
            final(self).surface == old(self).surface,
            final(self).serial == old(self).serial,
            final(self).dropped == old(self).dropped,
            !final(self).offered,
            match r {
                Drop::Nothing => *final(self) == *old(self),
                Drop::Busy => !final(self).hovering && !final(self).uri_list
                    && final(self).pending && (final(self).error matches Some(text) && text@
                    == "another Wayland file drop is still being read"@),
                Drop::Read => !final(self).hovering && !final(self).uri_list
                    && final(self).pending && final(self).error == old(self).error,
            },
    {
        if !self.offered {
            return Drop::Nothing;
        }
        self.offered = false;
        self.hovering = false;
        self.uri_list = false;
        if self.pending {
            self.error = Some("another Wayland file drop is still being read".to_owned());
            return Drop::Busy;
        }
        self.pending = true;
        Drop::Read
    }

    /// The drag ended in a drop, and there is no pipe to receive its list on. A list
    /// that is being read stays so.
    pub fn no_pipe(&mut self)
        ensures
            if old(self).offered {
                &&& final(self).error matches Some(text)
                &&& text@ == "could not create the file-drop pipe"@
                &&& *final(self) == (State {
                    offered: false,
                    error: final(self).error,
                    ..*old(self)
                })
            } else {
                *final(self) == *old(self)
            },
    {
        if self.offered {
            self.offered = false;
            self.error = Some("could not create the file-drop pipe".to_owned());
        }
    }

    /// Reading the list could not even begin.
    pub fn not_read(&mut self, error: &str)
        ensures
            !final(self).pending,
            final(self).error matches Some(text) && text@ == error@,
            final(self).surface == old(self).surface,
            final(self).serial == old(self).serial,
            final(self).offered == old(self).offered,
            final(self).hovering == old(self).hovering,
            final(self).uri_list == old(self).uri_list,
            final(self).dropped == old(self).dropped,
    {
        self.pending = false;
        self.error = Some(error.to_owned());
    }

    /// Look at the list that is being read.
    pub fn finish_pending(&mut self, reading: Reading)
        ensures
            final(self).surface == old(self).surface,
            final(self).serial == old(self).serial,
            final(self).offered == old(self).offered,
            final(self).hovering == old(self).hovering,
            final(self).uri_list == old(self).uri_list,
            if !old(self).pending || reading is Waiting {
                *final(self) == *old(self)
            } else {
                !final(self).pending && match reading {
                    Reading::Files(files) => final(self).dropped == files && final(self).error
                        == old(self).error,
                    Reading::Failed(error) => final(self).dropped == old(self).dropped && (final(self).error matches Some(text) && text@ == first_of(error@, 512)),
                    _ => final(self).dropped == old(self).dropped && (final(self).error matches Some(text) && text@
                        == "Wayland file drop ended without a result"@),
                }
            },
    {
        if !self.pending {
            return;
        }
        match reading {
            Reading::Waiting => {},
            Reading::Files(files) => {
                self.dropped = files;
                self.pending = false;
            },
            Reading::Failed(error) => {
                self.error = Some(shortened(error.as_str(), 512));
                self.pending = false;
            },
            Reading::Lost => {
                self.error = Some("Wayland file drop ended without a result".to_owned());
                self.pending = false;
            },
        }
    }

    /// Hand over what was dropped. It is handed over once.
    pub fn pump(&mut self) -> (r: Pump)
        ensures
            r.hovering == old(self).hovering,
            r.dropped@ == old(self).dropped@,
            r.error == old(self).error,
            final(self).dropped@.len() == 0,
            final(self).error is None,
            final(self).surface == old(self).surface,
            final(self).serial == old(self).serial,
            final(self).offered == old(self).offered,
            final(self).hovering == old(self).hovering,
            final(self).uri_list == old(self).uri_list,
            final(self).pending == old(self).pending,
    {
        let mut dropped: Vec<String> = Vec::new();
        std::mem::swap(&mut dropped, &mut self.dropped);
        let error = self.error.take();
        Pump { hovering: self.hovering, dropped, error }
    }
}

/// The first characters of a text.
pub open spec fn first_of(s: Seq<char>, n: int) -> Seq<char> {
    if s.len() > n {
        s.take(n)
    } else {
        s
    }
}

fn shortened(text: &str, n: usize) -> (r: String)
    ensures
        r@ == first_of(text@, n as int),
{
    let chars = chars_of(text);
    if chars.len() > n {
        let front = slice_subrange(chars.as_slice(), 0, n);
        proof {
            assert(front@ =~= text@.take(n as int));
        }
        string_of(front)
    } else {
        text.to_owned()
    }
}

} // verus!
