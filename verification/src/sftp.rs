//! Uploads of dropped files on an SSH connection of their own.
//!
//! Names on the host are chosen here, and a drop cannot choose a directory
//! there. The steps of a transfer are taken one reply at a time: a reply that is
//! not the expected one ends the transfer.
use vstd::prelude::*;
use vstd::slice::slice_subrange;
use vstd::string::*;
use vstd::utf8::*;

use crate::ssh::Io;
use crate::text::{
    any_control, byte_len, chars_of, contains_char, debug_quoted, decimal, from_utf8, has_control,
    is_text, pieces, pieces_alone, pieces_behind, push_chars, push_decimal, quote_debug, rows,
    split_on, string_of, utf8_len, utf8_len_ascii, utf8_len_concat,
};

verus! {

pub const MAX_FILES: usize = 8;

pub const MAX_FILE_BYTES: u64 = 33_554_432;

pub const MAX_NAME: usize = 255;

pub const MAX_PATH: usize = 1024;

/// Bytes written so far of the file that is being uploaded.
#[derive(Debug)]
pub struct Progress<'a> {
    pub name: &'a str,
    pub done: u64,
    pub total: u64,
}

#[derive(Clone, Copy, Debug, PartialEq, Eq, Structural)]
pub enum Fault {
    NoFiles,
    TooManyFiles,
    NoName,
    Name,
    Directory,
    TooLarge,
    TempPath,
    RemotePath,
    Deadline,
    Closed,
    Ended,
    Stalled,
    ShortPayload,
    /// A request, its payload or a reply that could not be carried, with the reason.
    WriteRequest,
    WritePayload,
    Read,
    /// Another reply than the version.
    Handshake(Got),
    /// Another reply than the part of a path that was due.
    RealPath(Got),
    /// The server's status in place of a path.
    RealPathRefused(u32),
    RealPathText,
    /// The server's status in place of a handle.
    OpenRefused(u32),
    Open(Got),
    /// The server's status, which is not that of success.
    WriteRefused(u32),
    Write(Got),
    CloseRefused(u32),
    Close(Got),
}

/// What came in place of the expected reply.
#[derive(Clone, Copy, Debug, PartialEq, Eq, Structural)]
pub enum Got {
    Version,
    Handle,
    Status(u32),
    NameStart,
    Name,
    NameEnd,
}

pub open spec fn got_text(got: Got) -> Seq<char> {
    match got {
        Got::Version => "version"@,
        Got::Handle => "handle"@,
        Got::Status(code) => "status "@ + decimal(code as nat),
        Got::NameStart => "name-start"@,
        Got::Name => "name"@,
        Got::NameEnd => "name-end"@,
    }
}

/// What is said of a fault, with the file, the path on the host or the reason that it
/// is about.
pub open spec fn fault_text(fault: Fault, subject: Seq<char>) -> Seq<char> {
    match fault {
        Fault::NoFiles => "no files to upload"@,
        Fault::TooManyFiles => "drop at most 8 files at a time"@,
        Fault::NoName => "file name is missing or not UTF-8"@,
        Fault::Name => "file name "@ + debug_quoted(subject) + " cannot be uploaded"@,
        Fault::Directory => subject + " is a directory; drop files only"@,
        Fault::TooLarge => subject + " is larger than 32 MiB"@,
        Fault::TempPath => "SFTP temp path is unusable"@,
        Fault::RemotePath => subject + ": remote path exceeds SFTP path limit"@,
        Fault::Deadline => "SFTP transfer exceeded its deadline"@,
        Fault::Closed => "SFTP channel closed during write"@,
        Fault::Ended => "SFTP channel ended"@,
        Fault::Stalled => "SFTP parser stalled on leftover input"@,
        Fault::ShortPayload => "SFTP write payload is shorter than the request"@,
        Fault::WriteRequest => "write SFTP request: "@ + subject,
        Fault::WritePayload => "write SFTP payload: "@ + subject,
        Fault::Read => "read SFTP: "@ + subject,
        Fault::Handshake(got) => "SFTP handshake: unexpected "@ + got_text(got),
        Fault::RealPath(got) => "SFTP realpath: unexpected "@ + got_text(got),
        Fault::RealPathRefused(code) => "SFTP realpath failed: "@ + decimal(code as nat),
        Fault::RealPathText => "SFTP realpath is not UTF-8"@,
        Fault::OpenRefused(code) => "SFTP open "@ + subject + ": "@ + decimal(code as nat),
        Fault::Open(got) => "SFTP open "@ + subject + ": unexpected "@ + got_text(got),
        Fault::WriteRefused(code) => "SFTP write "@ + subject + ": "@ + decimal(code as nat),
        Fault::Write(got) => "SFTP write "@ + subject + ": unexpected "@ + got_text(got),
        Fault::CloseRefused(code) => "SFTP close "@ + subject + ": "@ + decimal(code as nat),
        Fault::Close(got) => "SFTP close "@ + subject + ": unexpected "@ + got_text(got),
    }
}

/// A text, a subject and one more text, one behind the other.
fn around(before: &str, subject: &str, behind: &str) -> (r: String)
    ensures
        r@ == before@ + subject@ + behind@,
{
    let mut out = before.to_owned();
    out.append(subject);
    out.append(behind);
    out
}

/// What the server said of a request for a path.
fn refused(before: &str, subject: &str, code: u32) -> (r: String)
    ensures
        r@ == before@ + subject@ + ": "@ + decimal(code as nat),
{
    let mut out = around(before, subject, ": ");
    push_decimal(&mut out, code as u64);
    out
}

fn unexpected(before: &str, subject: &str, got: Got) -> (r: String)
    ensures
        r@ == before@ + subject@ + ": unexpected "@ + got_text(got),
{
    let mut out = around(before, subject, ": unexpected ");
    got.append_to(&mut out);
    out
}

impl Fault {
    pub fn text(self, subject: &str) -> (r: String)
        ensures
            r@ == fault_text(self, subject@),
    {
        match self {
            Fault::NoFiles => "no files to upload".to_owned(),
            Fault::TooManyFiles => "drop at most 8 files at a time".to_owned(),
            Fault::NoName => "file name is missing or not UTF-8".to_owned(),
            Fault::Name => {
                let quoted = quote_debug(subject);
                around("file name ", quoted.as_str(), " cannot be uploaded")
            },
            Fault::Directory => {
                let mut out = subject.to_owned();
                out.append(" is a directory; drop files only");
                out
            },
            Fault::TooLarge => {
                let mut out = subject.to_owned();
                out.append(" is larger than 32 MiB");
                out
            },
            Fault::TempPath => "SFTP temp path is unusable".to_owned(),
            Fault::RemotePath => {
                let mut out = subject.to_owned();
                out.append(": remote path exceeds SFTP path limit");
                out
            },
            Fault::Deadline => "SFTP transfer exceeded its deadline".to_owned(),
            Fault::Closed => "SFTP channel closed during write".to_owned(),
            Fault::Ended => "SFTP channel ended".to_owned(),
            Fault::Stalled => "SFTP parser stalled on leftover input".to_owned(),
            Fault::ShortPayload => "SFTP write payload is shorter than the request".to_owned(),
            Fault::WriteRequest => {
                let mut out = "write SFTP request: ".to_owned();
                out.append(subject);
                out
            },
            Fault::WritePayload => {
                let mut out = "write SFTP payload: ".to_owned();
                out.append(subject);
                out
            },
            Fault::Read => {
                let mut out = "read SFTP: ".to_owned();
                out.append(subject);
                out
            },
            Fault::Handshake(got) => {
                let mut out = "SFTP handshake: unexpected ".to_owned();
                got.append_to(&mut out);
                out
            },
            Fault::RealPath(got) => {
                let mut out = "SFTP realpath: unexpected ".to_owned();
                got.append_to(&mut out);
                out
            },
            Fault::RealPathRefused(code) => {
                let mut out = "SFTP realpath failed: ".to_owned();
                push_decimal(&mut out, code as u64);
                out
            },
            Fault::RealPathText => "SFTP realpath is not UTF-8".to_owned(),
            Fault::OpenRefused(code) => refused("SFTP open ", subject, code),
            Fault::Open(got) => unexpected("SFTP open ", subject, got),
            Fault::WriteRefused(code) => refused("SFTP write ", subject, code),
            Fault::Write(got) => unexpected("SFTP write ", subject, got),
            Fault::CloseRefused(code) => refused("SFTP close ", subject, code),
            Fault::Close(got) => unexpected("SFTP close ", subject, got),
        }
    }
}

impl Got {
    fn append_to(self, out: &mut String)
        ensures
            final(out)@ == old(out)@ + got_text(self),
    {
        match self {
            Got::Version => out.append("version"),
            Got::Handle => out.append("handle"),
            Got::Status(code) => {
                out.append("status ");
                push_decimal(out, code as u64);
                assert(out@ =~= old(out)@ + got_text(self));
            },
            Got::NameStart => out.append("name-start"),
            Got::Name => out.append("name"),
            Got::NameEnd => out.append("name-end"),
        }
    }
}

/// A fault, what it is about, and the dropped path where that path gave no name.
#[derive(Debug)]
pub struct Error {
    pub fault: Fault,
    pub subject: String,
    pub path: String,
}

pub struct Refusal {
    pub fault: Fault,
    pub subject: Seq<char>,
    pub path: Seq<char>,
}

impl View for Error {
    type V = Refusal;

    open spec fn view(&self) -> Refusal {
        Refusal { fault: self.fault, subject: self.subject@, path: self.path@ }
    }
}

/// A fault that stands for itself.
pub open spec fn plain(fault: Fault, subject: Seq<char>) -> Refusal {
    Refusal { fault, subject, path: seq![] }
}

/// What is shown of a refusal: the path, where it is named, and the text.
pub open spec fn shown(refusal: Refusal) -> Seq<char> {
    if refusal.path.len() == 0 {
        fault_text(refusal.fault, refusal.subject)
    } else {
        refusal.path + ": "@ + fault_text(refusal.fault, refusal.subject)
    }
}

impl Error {
    pub fn new(fault: Fault, subject: &str) -> (r: Self)
        ensures
            r@ == plain(fault, subject@),
    {
        let path = String::new();
        assert(path@ =~= seq![]);
        Error { fault, subject: subject.to_owned(), path }
    }

    pub fn message(&self) -> (r: String)
        ensures
            r@ == shown(self@),
    {
        let text = self.fault.text(self.subject.as_str());
        if chars_of(self.path.as_str()).len() == 0 {
            text
        } else {
            around(self.path.as_str(), ": ", text.as_str())
        }
    }
}

/// The last name of a path: trailing separators and single dots name nothing
/// more, and the parent directory is no name.
pub open spec fn last_name(parts: Seq<Seq<char>>) -> Option<Seq<char>>
    decreases parts.len(),
{
    if parts.len() == 0 {
        None
    } else if parts.last().len() == 0 || parts.last() == "."@ {
        last_name(parts.drop_last())
    } else if parts.last() == ".."@ {
        None
    } else {
        Some(parts.last())
    }
}

/// A name that a file may have on the host.
pub open spec fn uploadable(name: Seq<char>) -> bool {
    name.len() > 0 && utf8_len(name) <= MAX_NAME && name != "."@ && name != ".."@ && !name.contains(
        '/',
    ) && !name.contains('\\') && !has_control(name)
}

/// The file name of a local path, as it may be used on the host.
pub open spec fn remote_name(path: Seq<char>) -> Result<Seq<char>, Refusal> {
    match last_name(pieces(path, '/')) {
        None => Err(plain(Fault::NoName, seq![])),
        Some(name) => if uploadable(name) {
            Ok(name)
        } else {
            Err(plain(Fault::Name, name))
        },
    }
}

pub fn remote_file_name(path: &str) -> (r: Result<String, Error>)
    ensures
        match r {
            Ok(name) => remote_name(path@) == Ok::<Seq<char>, Refusal>(name@),
            Err(error) => remote_name(path@) == Err::<Seq<char>, Refusal>(error@),
        },
{
    let parts = split_on(chars_of(path).as_slice(), '/');
    let ghost all = pieces(path@, '/');
    let mut n: usize = parts.len();
    proof {
        reveal_strlit("..");
        reveal_strlit("");
        assert(""@ =~= Seq::<char>::empty());
        assert(all.take(n as int) =~= all);
    }
    while n > 0 && (parts[n - 1].len() == 0 || is_text(parts[n - 1].as_slice(), "."))
        invariant
            n <= parts.len(),
            rows(parts@) == all,
            last_name(all.take(n as int)) == last_name(all),
        decreases n,
    {
        proof {
            assert(all.take(n as int).drop_last() =~= all.take(n - 1));
            assert(all.take(n as int).last() == parts@[n - 1]@);
        }
        n -= 1;
    }
    if n == 0 {
        return Err(Error::new(Fault::NoName, ""));
    }
    proof {
        assert(all.take(n as int).last() == parts@[n - 1]@);
    }
    let name = parts[n - 1].as_slice();
    if is_text(name, "..") {
        return Err(Error::new(Fault::NoName, ""));
    }
    let shown = string_of(name);
    if byte_len(shown.as_str()) > MAX_NAME || contains_char(name, '/') || contains_char(name, '\\')
        || any_control(name) {
        return Err(Error::new(Fault::Name, shown.as_str()));
    }
    Ok(shown)
}

/// Append the decimal digits of a wide number.
fn push_wide_decimal(out: &mut String, n: u128)
    ensures
        final(out)@ == old(out)@ + decimal(n as nat),
    decreases n,
{
    if n < 10 {
        push_decimal(out, n as u64);
    } else {
        push_wide_decimal(out, n / 10);
        let digit: u8 = 48 + (n % 10) as u8;
        out.push(digit as char);
        proof {
            assert(out@ =~= old(out)@ + decimal(n as nat));
        }
    }
}

/// What a name on the host begins with: the time of the drop and the place of the
/// file in it.
pub open spec fn unique_prefix(stamp: nat, index: nat) -> Seq<char> {
    "starcom-"@ + decimal(stamp) + "-"@ + decimal(index) + "-"@
}

/// As much of the beginning of a name as fits.
pub open spec fn fitting(name: Seq<char>, room: int) -> Seq<char>
    decreases name.len(),
{
    if name.len() == 0 || utf8_len(name) <= room {
        name
    } else {
        fitting(name.drop_last(), room)
    }
}

proof fn decimal_digits(n: nat, digits: nat)
    requires
        n < crate::store::power_of_ten(digits),
        digits > 0,
    ensures
        0 < decimal(n).len() <= digits,
        utf8_len(decimal(n)) == decimal(n).len(),
    decreases digits,
{
    crate::text::decimal_reads_back(n);
    let d = decimal(n);
    assert forall|i: int| 0 <= i < d.len() implies (#[trigger] d[i]) as u32 <= 0x7f by {
        assert(crate::text::digit_char(d[i]));
    }
    utf8_len_ascii(d);
    if n >= 10 {
        if digits == 1 {
            reveal_with_fuel(crate::store::power_of_ten, 2);
        } else {
            decimal_digits(n / 10, (digits - 1) as nat);
        }
    }
}

/// The prefix leaves room for most of a name.
proof fn prefix_is_short(stamp: nat, index: nat)
    requires
        stamp <= u128::MAX,
        index <= u64::MAX,
    ensures
        utf8_len(unique_prefix(stamp, index)) == unique_prefix(stamp, index).len(),
        unique_prefix(stamp, index).len() <= 69,
{
    reveal_strlit("starcom-");
    reveal_strlit("-");
    assert(crate::store::power_of_ten(39) == 1_000_000_000_000_000_000_000_000_000_000_000_000_000) by {
        reveal_with_fuel(crate::store::power_of_ten, 40);
    }
    assert(crate::store::power_of_ten(20) == 100_000_000_000_000_000_000) by {
        reveal_with_fuel(crate::store::power_of_ten, 21);
    }
    decimal_digits(stamp, 39);
    decimal_digits(index, 20);
    crate::text::decimal_reads_back(stamp);
    crate::text::decimal_reads_back(index);
    let p = unique_prefix(stamp, index);
    assert forall|i: int| 0 <= i < p.len() implies (#[trigger] p[i]) as u32 <= 0x7f by {
        let a = "starcom-"@.len() as int;
        let b = a + decimal(stamp).len();
        let c = b + 1 + decimal(index).len();
        if i < a {
        } else if i < b {
            assert(p[i] == decimal(stamp)[i - a]);
            assert(crate::text::digit_char(decimal(stamp)[i - a]));
        } else if i == b {
        } else if i < c {
            assert(p[i] == decimal(index)[i - b - 1]);
            assert(crate::text::digit_char(decimal(index)[i - b - 1]));
        }
    }
    utf8_len_ascii(p);
}

proof fn fitting_facts(name: Seq<char>, room: int)
    requires
        room >= 4,
    ensures
        utf8_len(fitting(name, room)) <= room,
        fitting(name, room).len() <= name.len(),
        fitting(name, room) == name.take(fitting(name, room).len() as int),
        name.len() > 0 ==> fitting(name, room).len() > 0,
        fitting(name, room).len() < name.len() ==> utf8_len(
            name.take(fitting(name, room).len() as int + 1),
        ) > room,
    decreases name.len(),
{
    if name.len() == 0 {
        assert(utf8_len(name) == 0);
        assert(name.take(0) =~= name);
    } else if utf8_len(name) <= room {
        assert(name.take(name.len() as int) =~= name);
    } else {
        let rest = name.drop_last();
        fitting_facts(rest, room);
        let n = fitting(rest, room).len() as int;
        assert(rest.take(n) =~= name.take(n));
        if n < rest.len() {
            assert(rest.take(n + 1) =~= name.take(n + 1));
        } else {
            assert(name.take(n + 1) =~= name);
        }
        if name.len() == 1 {
            assert(rest =~= Seq::<char>::empty());
            assert(name.drop_first() =~= Seq::<char>::empty());
            reveal_with_fuel(encode_utf8, 2);
            assert(utf8_len(name) <= 4);
        }
    }
}

/// A name on the host that no other drop has: the prefix, then as much of the
/// original name as fits. Only an empty name is refused.
pub fn unique_remote_name(name: &str, stamp: u128, index: usize) -> (r: Result<String, Error>)
    ensures
        match r {
            Ok(unique) => {
                let prefix = unique_prefix(stamp as nat, index as nat);
                &&& name@.len() > 0
                &&& unique@ == prefix + fitting(name@, MAX_NAME - prefix.len())
                &&& utf8_len(unique@) <= MAX_NAME
            },
            Err(error) => name@.len() == 0 && error@ == plain(Fault::Name, name@),
        },
{
    let mut prefix = String::new();
    prefix.append("starcom-");
    push_wide_decimal(&mut prefix, stamp);
    prefix.append("-");
    push_decimal(&mut prefix, index as u64);
    prefix.append("-");
    let ghost front = unique_prefix(stamp as nat, index as nat);
    proof {
        assert(prefix@ =~= front);
        prefix_is_short(stamp as nat, index as nat);
    }
    let used = byte_len(prefix.as_str());
    let room = MAX_NAME - used;
    let chars = chars_of(name);
    let mut n: usize = chars.len();
    proof {
        assert(chars@.take(n as int) =~= name@);
        fitting_facts(name@, room as int);
    }
    loop
        invariant_except_break
            n <= chars.len(),
            chars@ == name@,
            fitting(chars@.take(n as int), room as int) == fitting(name@, room as int),
        ensures
            n <= chars.len(),
            chars@ == name@,
            chars@.take(n as int) == fitting(name@, room as int),
        decreases n,
    {
        let kept = slice_subrange(chars.as_slice(), 0, n);
        proof {
            assert(kept@ =~= chars@.take(n as int));
        }
        let shown = string_of(kept);
        if n == 0 || byte_len(shown.as_str()) <= room {
            break;
        }
        proof {
            assert(chars@.take(n as int).drop_last() =~= chars@.take(n - 1));
        }
        n -= 1;
    }
    if n == 0 {
        return Err(Error::new(Fault::Name, name));
    }
    let kept = slice_subrange(chars.as_slice(), 0, n);
    proof {
        assert(kept@ =~= chars@.take(n as int));
        utf8_len_concat(front, kept@);
    }
    push_chars(&mut prefix, kept);
    Ok(prefix)
}

/// Names on the host keep the beginning of the original name, all of it where it
/// fits, and are never too long for a file system.
pub proof fn unique_names_keep_the_original(name: Seq<char>, stamp: nat, index: nat)
    requires
        name.len() > 0,
        stamp <= u128::MAX,
        index <= u64::MAX,
    ensures
        ({
            let prefix = unique_prefix(stamp, index);
            let kept = fitting(name, MAX_NAME - prefix.len());
            &&& 0 < kept.len() <= name.len()
            &&& kept == name.take(kept.len() as int)
            &&& utf8_len(prefix + kept) <= MAX_NAME
            &&& utf8_len(prefix) + utf8_len(name) <= MAX_NAME ==> kept == name
        }),
{
    prefix_is_short(stamp, index);
    let prefix = unique_prefix(stamp, index);
    fitting_facts(name, MAX_NAME - prefix.len());
    utf8_len_concat(prefix, fitting(name, MAX_NAME - prefix.len()));
}

/// A path below a remote directory.
pub open spec fn remote_path(dir: Seq<char>, name: Seq<char>) -> Seq<char> {
    if dir.len() > 0 && dir.last() == '/' {
        dir + name
    } else {
        dir.push('/') + name
    }
}

pub fn join_remote(dir: &str, name: &str) -> (r: String)
    ensures
        r@ == remote_path(dir@, name@),
{
    let chars = chars_of(dir);
    let mut out = dir.to_owned();
    if !(chars.len() > 0 && chars[chars.len() - 1] == '/') {
        out.push('/');
    }
    out.append(name);
    out
}

/// A local file that is to be uploaded, as the file system describes it.
#[derive(Debug)]
pub struct Local {
    pub path: String,
    pub directory: bool,
    pub length: u64,
}

/// A file that may be uploaded.
#[derive(Debug)]
pub struct Upload {
    pub name: String,
    pub remote_name: String,
    pub total: u64,
}

/// The contents of an upload.
pub struct UploadFacts {
    pub name: Seq<char>,
    pub remote_name: Seq<char>,
    pub total: nat,
}

impl View for Upload {
    type V = UploadFacts;

    open spec fn view(&self) -> UploadFacts {
        UploadFacts {
            name: self.name@,
            remote_name: self.remote_name@,
            total: self.total as nat,
        }
    }
}

pub open spec fn uploads(given: Seq<Upload>) -> Seq<UploadFacts> {
    given.map_values(|upload: Upload| upload@)
}

/// What comes of one file of a drop.
pub open spec fn prepared(file: Local, stamp: nat, index: nat) -> Result<
    UploadFacts,
    Refusal,
> {
    match remote_name(file.path@) {
        Err(refusal) => Err(Refusal { path: file.path@, ..refusal }),
        Ok(name) => {
            let prefix = unique_prefix(stamp, index);
            if file.directory {
                Err(plain(Fault::Directory, name))
            } else if file.length > MAX_FILE_BYTES {
                Err(plain(Fault::TooLarge, name))
            } else {
                Ok(
                    UploadFacts {
                        name,
                        remote_name: prefix + fitting(name, MAX_NAME - prefix.len()),
                        total: file.length as nat,
                    },
                )
            }
        },
    }
}

/// What comes of the files of a drop: the first one that cannot be uploaded
/// refuses them all.
pub open spec fn all_prepared(files: Seq<Local>, stamp: nat) -> Result<
    Seq<UploadFacts>,
    Refusal,
>
    decreases files.len(),
{
    if files.len() == 0 {
        Ok(seq![])
    } else {
        match all_prepared(files.drop_last(), stamp) {
            Err(found) => Err(found),
            Ok(front) => match prepared(files.last(), stamp, (files.len() - 1) as nat) {
                Err(found) => Err(found),
                Ok(upload) => Ok(front.push(upload)),
            },
        }
    }
}

/// What comes of a drop before anything is dialled.
pub open spec fn planned(files: Seq<Local>, stamp: nat) -> Result<
    Seq<UploadFacts>,
    Refusal,
> {
    if files.len() == 0 {
        Err(plain(Fault::NoFiles, seq![]))
    } else if files.len() > MAX_FILES {
        Err(plain(Fault::TooManyFiles, seq![]))
    } else {
        all_prepared(files, stamp)
    }
}

proof fn all_prepared_prefix(files: Seq<Local>, stamp: nat, n: int)
    requires
        0 <= n <= files.len(),
        all_prepared(files.take(n), stamp) is Err,
    ensures
        all_prepared(files, stamp) == all_prepared(files.take(n), stamp),
    decreases files.len() - n,
{
    if n == files.len() {
        assert(files.take(n) =~= files);
    } else {
        assert(files.take(n + 1).drop_last() =~= files.take(n));
        all_prepared_prefix(files, stamp, n + 1);
    }
}

fn prepare(file: &Local, stamp: u128, index: usize) -> (r: Result<Upload, Error>)
    ensures
        match r {
            Ok(upload) => prepared(*file, stamp as nat, index as nat) == Ok::<
                UploadFacts,
                Refusal,
            >(upload@),
            Err(error) => prepared(*file, stamp as nat, index as nat) == Err::<UploadFacts, Refusal>(
                error@,
            ),
        },
{
    let name = match remote_file_name(file.path.as_str()) {
        Ok(name) => name,
        Err(error) => {
            return Err(
                Error { fault: error.fault, subject: error.subject, path: file.path.clone() },
            )
        },
    };
    let remote_name = unique_remote_name(name.as_str(), stamp, index)?;
    if file.directory {
        return Err(Error::new(Fault::Directory, name.as_str()));
    }
    if file.length > MAX_FILE_BYTES {
        return Err(Error::new(Fault::TooLarge, name.as_str()));
    }
    Ok(Upload { name, remote_name, total: file.length })
}

/// Decide what is uploaded of a drop, and under which names.
pub fn plan(files: &Vec<Local>, stamp: u128) -> (r: Result<Vec<Upload>, Error>)
    ensures
        match r {
            Ok(list) => planned(files@, stamp as nat) == Ok::<
                Seq<UploadFacts>,
                Refusal,
            >(uploads(list@)),
            Err(error) => planned(files@, stamp as nat) == Err::<Seq<UploadFacts>, Refusal>(error@),
        },
{
    proof {
        reveal_strlit("");
        assert(""@ =~= Seq::<char>::empty());
    }
    if files.len() == 0 {
        return Err(Error::new(Fault::NoFiles, ""));
    }
    if files.len() > MAX_FILES {
        return Err(Error::new(Fault::TooManyFiles, ""));
    }
    let mut list: Vec<Upload> = Vec::new();
    let mut i: usize = 0;
    proof {
        assert(uploads(list@) =~= Seq::<UploadFacts>::empty());
    }
    while i < files.len()
        invariant
            i <= files.len(),
            0 < files.len() <= MAX_FILES,
            all_prepared(files@.take(i as int), stamp as nat) == Ok::<
                Seq<UploadFacts>,
                Refusal,
            >(uploads(list@)),
        decreases files.len() - i,
    {
        proof {
            assert(files@.take(i + 1).drop_last() =~= files@.take(i as int));
            if all_prepared(files@.take(i + 1), stamp as nat) is Err {
                all_prepared_prefix(files@, stamp as nat, i + 1);
            }
        }
        let upload = prepare(&files[i], stamp, i)?;
        let ghost before = list@;
        list.push(upload);
        proof {
            assert(uploads(list@) =~= uploads(before).push(upload@));
        }
        i += 1;
    }
    proof {
        assert(files@.take(i as int) =~= files@);
    }
    Ok(list)
}

/// A directory of the host that files can be put into.
pub open spec fn usable_directory(dir: Seq<char>) -> bool {
    dir.len() > 0 && utf8_len(dir) <= MAX_PATH && !dir.contains('\0')
}

pub fn check_directory(dir: &str) -> (r: Result<(), Error>)
    ensures
        match r {
            Ok(()) => usable_directory(dir@),
            Err(error) => !usable_directory(dir@) && error@ == plain(Fault::TempPath, seq![]),
        },
{
    let chars = chars_of(dir);
    if chars.len() == 0 || byte_len(dir) > MAX_PATH || contains_char(chars.as_slice(), '\0') {
        proof {
            reveal_strlit("");
            assert(""@ =~= Seq::<char>::empty());
        }
        Err(Error::new(Fault::TempPath, ""))
    } else {
        Ok(())
    }
}

/// Where a file goes.
pub fn destination(dir: &str, upload: &Upload) -> (r: Result<String, Error>)
    ensures
        match r {
            Ok(path) => path@ == remote_path(dir@, upload@.remote_name) && utf8_len(path@)
                <= MAX_PATH,
            Err(error) => utf8_len(remote_path(dir@, upload@.remote_name)) > MAX_PATH
                && error@ == plain(
                    Fault::RemotePath,
                    upload@.name,
                ),
        },
{
    let path = join_remote(dir, upload.remote_name.as_str());
    if byte_len(path.as_str()) > MAX_PATH {
        Err(Error::new(Fault::RemotePath, upload.name.as_str()))
    } else {
        Ok(path)
    }
}

/// What the server replied.
#[derive(Debug)]
pub enum Reply {
    Version,
    Handle(Vec<u8>),
    Status(u32),
    NameStart(u32),
    Name(Vec<u8>),
    NameEnd,
}

pub open spec fn got_of(reply: Reply) -> Got {
    match reply {
        Reply::Version => Got::Version,
        Reply::Handle(_) => Got::Handle,
        Reply::Status(code) => Got::Status(code),
        Reply::NameStart(_) => Got::NameStart,
        Reply::Name(_) => Got::Name,
        Reply::NameEnd => Got::NameEnd,
    }
}

impl Reply {
    pub fn got(&self) -> (r: Got)
        ensures
            r == got_of(*self),
    {
        match self {
            Reply::Version => Got::Version,
            Reply::Handle(_) => Got::Handle,
            Reply::Status(code) => Got::Status(*code),
            Reply::NameStart(_) => Got::NameStart,
            Reply::Name(_) => Got::Name,
            Reply::NameEnd => Got::NameEnd,
        }
    }
}

/// The status of success.
pub const STATUS_OK: u32 = 0;

/// What a transfer does next.
#[derive(Debug)]
pub enum Next {
    /// Ask for the real path of the temporary directory.
    AskPath,
    /// Wait for another reply.
    Wait,
    /// The directory is known.
    Directory(String),
    /// The file is open: read a piece of it and write it at this offset.
    Write {
        handle: Vec<u8>,
        offset: u64,
    },
    Close(Vec<u8>),
    Done,
}

/// Where the handshake and the question for a directory stand.
#[derive(Clone, Copy, Debug, PartialEq, Eq, Structural)]
pub enum Greeting {
    Version,
    NameStart,
    Name,
    NameEnd,
}

/// A transfer's session before the first file.
#[derive(Debug)]
pub struct Session {
    pub greeting: Greeting,
    pub path: Vec<u8>,
}

/// Why a reply ends the session.
pub open spec fn greeting_fault(greeting: Greeting, reply: Reply) -> Option<Fault> {
    match greeting {
        Greeting::Version => if reply is Version {
            None
        } else {
            Some(Fault::Handshake(got_of(reply)))
        },
        Greeting::NameStart => match reply {
            Reply::NameStart(count) => if count >= 1 {
                None
            } else {
                Some(Fault::RealPath(got_of(reply)))
            },
            Reply::Status(code) => Some(Fault::RealPathRefused(code)),
            _ => Some(Fault::RealPath(got_of(reply))),
        },
        Greeting::Name => match reply {
            Reply::Name(bytes) => if valid_utf8(bytes@) {
                None
            } else {
                Some(Fault::RealPathText)
            },
            _ => Some(Fault::RealPath(got_of(reply))),
        },
        Greeting::NameEnd => if reply is NameEnd {
            None
        } else {
            Some(Fault::RealPath(got_of(reply)))
        },
    }
}

impl Session {
    /// What holds between two replies: a name that was taken is text.
    pub open spec fn wf(self) -> bool {
        valid_utf8(self.path@)
    }

    pub fn new() -> (r: Self)
        ensures
            r.wf(),
            r.greeting == Greeting::Version,
    {
        let path: Vec<u8> = Vec::new();
        proof {
            assert(path@ =~= encode_utf8(Seq::<char>::empty()));
            encode_utf8_valid_utf8(Seq::<char>::empty());
        }
        Session { greeting: Greeting::Version, path }
    }

    /// Take a reply: the version, then one name, which is the directory.
    pub fn event(&mut self, reply: Reply) -> (r: Result<Next, Error>)
        requires
            old(self).wf(),
        ensures
            final(self).wf(),
            match r {
                Err(error) => greeting_fault(old(self).greeting, reply) is Some && error@ == plain(
                    greeting_fault(old(self).greeting, reply)->0,
                    seq![],
                ) && final(self).greeting == old(self).greeting,
                Ok(next) => greeting_fault(old(self).greeting, reply) is None && match old(self).greeting {
                    Greeting::Version => next is AskPath && final(self).greeting
                        == Greeting::NameStart && final(self).path == old(self).path,
                    Greeting::NameStart => next is Wait && final(self).greeting == Greeting::Name
                        && final(self).path == old(self).path,
                    Greeting::Name => next is Wait && final(self).greeting == Greeting::NameEnd
                        && (reply matches Reply::Name(bytes) && final(self).path@ == bytes@),
                    Greeting::NameEnd => final(self).greeting == Greeting::NameEnd
                        && (next matches Next::Directory(path) && path@ == decode_utf8(
                        old(self).path@,
                    )),
                },
            },
    {
        proof {
            reveal_strlit("");
            assert(""@ =~= Seq::<char>::empty());
        }
        let got = reply.got();
        match self.greeting {
            Greeting::Version => match reply {
                Reply::Version => {
                    self.greeting = Greeting::NameStart;
                    Ok(Next::AskPath)
                },
                _ => Err(Error::new(Fault::Handshake(got), "")),
            },
            Greeting::NameStart => match reply {
                Reply::NameStart(count) => if count >= 1 {
                    self.greeting = Greeting::Name;
                    Ok(Next::Wait)
                } else {
                    Err(Error::new(Fault::RealPath(got), ""))
                },
                Reply::Status(code) => Err(Error::new(Fault::RealPathRefused(code), "")),
                _ => Err(Error::new(Fault::RealPath(got), "")),
            },
            Greeting::Name => match reply {
                Reply::Name(bytes) => match from_utf8(bytes) {
                    None => Err(Error::new(Fault::RealPathText, "")),
                    Some(text) => {
                        proof {
                            decode_utf8_encode_utf8(bytes@);
                        }
                        self.path = text.as_str().as_bytes_vec();
                        self.greeting = Greeting::NameEnd;
                        Ok(Next::Wait)
                    },
                },
                _ => Err(Error::new(Fault::RealPath(got), "")),
            },
            Greeting::NameEnd => match reply {
                Reply::NameEnd => {
                    let mut path: Vec<u8> = Vec::new();
                    path.extend_from_slice(self.path.as_slice());
                    proof {
                        assert(path@ =~= self.path@);
                    }
                    match from_utf8(path) {
                        None => Err(Error::new(Fault::RealPathText, "")),
                        Some(text) => Ok(Next::Directory(text)),
                    }
                },
                _ => Err(Error::new(Fault::RealPath(got), "")),
            },
        }
    }
}

/// Where the upload of one file stands.
#[derive(Clone, Copy, Debug, PartialEq, Eq, Structural)]
pub enum Stage {
    Opening,
    Writing,
    Closing,
}

/// The upload of one file.
#[derive(Debug)]
pub struct Put {
    pub stage: Stage,
    pub handle: Vec<u8>,
    /// The bytes that the server has confirmed.
    pub offset: u64,
    /// The bytes of the piece that is being written.
    pub piece: u64,
    /// The remote path, for errors.
    pub remote: String,
}

pub open spec fn put_fault(stage: Stage, reply: Reply) -> Option<Fault> {
    match stage {
        Stage::Opening => match reply {
            Reply::Handle(_) => None,
            Reply::Status(code) => Some(Fault::OpenRefused(code)),
            _ => Some(Fault::Open(got_of(reply))),
        },
        Stage::Writing => match reply {
            Reply::Status(code) => if code == STATUS_OK {
                None
            } else {
                Some(Fault::WriteRefused(code))
            },
            _ => Some(Fault::Write(got_of(reply))),
        },
        Stage::Closing => match reply {
            Reply::Status(code) => if code == STATUS_OK {
                None
            } else {
                Some(Fault::CloseRefused(code))
            },
            _ => Some(Fault::Close(got_of(reply))),
        },
    }
}

fn copy_of(bytes: &Vec<u8>) -> (r: Vec<u8>)
    ensures
        r@ == bytes@,
{
    let mut out: Vec<u8> = Vec::new();
    out.extend_from_slice(bytes.as_slice());
    assert(out@ =~= bytes@);
    out
}

impl Put {
    pub fn new(remote: &str) -> (r: Self)
        ensures
            r.stage == Stage::Opening,
            r.offset == 0,
            r.piece == 0,
            r.remote@ == remote@,
    {
        Put {
            stage: Stage::Opening,
            handle: Vec::new(),
            offset: 0,
            piece: 0,
            remote: remote.to_owned(),
        }
    }

    /// A piece of the file was read, or its end was reached: write it, or close
    /// the file.
    pub fn piece(&mut self, count: usize) -> (r: Next)
        requires
            old(self).stage == Stage::Writing,
        ensures
            final(self).handle == old(self).handle,
            final(self).offset == old(self).offset,
            final(self).remote == old(self).remote,
            final(self).piece == count,
            if count == 0 {
                final(self).stage == Stage::Closing && (r matches Next::Close(handle) && handle@
                    == old(self).handle@)
            } else {
                final(self).stage == Stage::Writing && (r matches Next::Write { handle, offset }
                    && handle@ == old(self).handle@ && offset == old(self).offset)
            },
    {
        self.piece = count as u64;
        if count == 0 {
            self.stage = Stage::Closing;
            Next::Close(copy_of(&self.handle))
        } else {
            Next::Write { handle: copy_of(&self.handle), offset: self.offset }
        }
    }

    /// Take a reply. Each piece is confirmed before the next one is read.
    pub fn event(&mut self, reply: Reply) -> (r: Result<Next, Error>)
        requires
            old(self).offset + old(self).piece <= u64::MAX,
        ensures
            final(self).remote == old(self).remote,
            match r {
                Err(error) => put_fault(old(self).stage, reply) is Some && error@ == plain(
                    put_fault(old(self).stage, reply)->0,
                    old(self).remote@,
                ) && *final(self) == *old(self),
                Ok(next) => put_fault(old(self).stage, reply) is None && match old(self).stage {
                    Stage::Opening => final(self).stage == Stage::Writing && final(self).offset
                        == 0 && final(self).piece == 0 && next is Wait && (reply matches
                        Reply::Handle(handle) && final(self).handle == handle),
                    Stage::Writing => final(self).stage == Stage::Writing && final(self).offset
                        == old(self).offset + old(self).piece && final(self).piece == 0
                        && final(self).handle == old(self).handle && next is Wait,
                    Stage::Closing => *final(self) == *old(self) && next is Done,
                },
            },
    {
        let got = reply.got();
        match self.stage {
            Stage::Opening => match reply {
                Reply::Handle(handle) => {
                    self.handle = handle;
                    self.offset = 0;
                    self.piece = 0;
                    self.stage = Stage::Writing;
                    Ok(Next::Wait)
                },
                Reply::Status(code) => Err(Error::new(Fault::OpenRefused(code), self.remote.as_str())),
                _ => Err(Error::new(Fault::Open(got), self.remote.as_str())),
            },
            Stage::Writing => match reply {
                Reply::Status(code) => if code == STATUS_OK {
                    self.offset = self.offset + self.piece;
                    self.piece = 0;
                    Ok(Next::Wait)
                } else {
                    Err(Error::new(Fault::WriteRefused(code), self.remote.as_str()))
                },
                _ => Err(Error::new(Fault::Write(got), self.remote.as_str())),
            },
            Stage::Closing => match reply {
                Reply::Status(code) => if code == STATUS_OK {
                    Ok(Next::Done)
                } else {
                    Err(Error::new(Fault::CloseRefused(code), self.remote.as_str()))
                },
                _ => Err(Error::new(Fault::Close(got), self.remote.as_str())),
            },
        }
    }
}

/// How many bytes of a request, or of its payload, a write took, where it did not have
/// to wait.
pub fn wrote(outcome: Io, payload: bool) -> (r: Result<Option<usize>, Error>)
    ensures
        match outcome {
            Io::Count(count) => if count == 0 {
                r matches Err(error) && error@ == plain(Fault::Closed, seq![])
            } else {
                r == Ok::<Option<usize>, Error>(Some(count))
            },
            Io::WouldBlock | Io::Interrupted => r == Ok::<Option<usize>, Error>(None),
            Io::Failed(detail) => r matches Err(error) && error@ == plain(
                if payload {
                    Fault::WritePayload
                } else {
                    Fault::WriteRequest
                },
                detail@,
            ),
        },
{
    proof {
        reveal_strlit("");
        assert(""@ =~= Seq::<char>::empty());
    }
    match outcome {
        Io::Count(count) => if count == 0 {
            Err(Error::new(Fault::Closed, ""))
        } else {
            Ok(Some(count))
        },
        Io::WouldBlock | Io::Interrupted => Ok(None),
        Io::Failed(detail) => Err(
            Error::new(
                if payload {
                    Fault::WritePayload
                } else {
                    Fault::WriteRequest
                },
                detail.as_str(),
            ),
        ),
    }
}

/// How many bytes a read brought, where it did not have to wait.
pub fn received(outcome: Io) -> (r: Result<Option<usize>, Error>)
    ensures
        match outcome {
            Io::Count(count) => if count == 0 {
                r matches Err(error) && error@ == plain(Fault::Ended, seq![])
            } else {
                r == Ok::<Option<usize>, Error>(Some(count))
            },
            Io::WouldBlock | Io::Interrupted => r == Ok::<Option<usize>, Error>(None),
            Io::Failed(detail) => r matches Err(error) && error@ == plain(
                Fault::Read,
                detail@,
            ),
        },
{
    proof {
        reveal_strlit("");
        assert(""@ =~= Seq::<char>::empty());
    }
    match outcome {
        Io::Count(count) => if count == 0 {
            Err(Error::new(Fault::Ended, ""))
        } else {
            Ok(Some(count))
        },
        Io::WouldBlock | Io::Interrupted => Ok(None),
        Io::Failed(detail) => Err(Error::new(Fault::Read, detail.as_str())),
    }
}

/// The parser was fed bytes that were left over from before. If it takes none of
/// them it never will.
pub fn fed_leftover(used: usize) -> (r: Result<(), Error>)
    ensures
        match r {
            Ok(()) => used > 0,
            Err(error) => used == 0 && error@ == plain(Fault::Stalled, seq![]),
        },
{
    if used == 0 {
        proof {
            reveal_strlit("");
            assert(""@ =~= Seq::<char>::empty());
        }
        Err(Error::new(Fault::Stalled, ""))
    } else {
        Ok(())
    }
}

/// The payload of a write must be as long as the request says.
pub fn check_payload(wanted: usize, given: usize) -> (r: Result<(), Error>)
    ensures
        match r {
            Ok(()) => given >= wanted,
            Err(error) => given < wanted && error@ == plain(Fault::ShortPayload, seq![]),
        },
{
    if given < wanted {
        proof {
            reveal_strlit("");
            assert(""@ =~= Seq::<char>::empty());
        }
        Err(Error::new(Fault::ShortPayload, ""))
    } else {
        Ok(())
    }
}

/// The time that a transfer has left.
pub fn remaining(deadline: u128, now: u128) -> (r: Result<u128, Error>)
    ensures
        match r {
            Ok(left) => now < deadline && left == deadline - now,
            Err(error) => deadline <= now && error@ == plain(Fault::Deadline, seq![]),
        },
{
    if now < deadline {
        Ok(deadline - now)
    } else {
        proof {
            reveal_strlit("");
            assert(""@ =~= Seq::<char>::empty());
        }
        Err(Error::new(Fault::Deadline, ""))
    }
}

/// The file name of a path is what stands behind its last separator, and separators at
/// the end add nothing to it.
pub proof fn paths_are_named_by_their_end(dir: Seq<char>, name: Seq<char>)
    requires
        uploadable(name),
    ensures
        remote_name(dir.push('/') + name) == Ok::<Seq<char>, Refusal>(name),
        remote_name(name) == Ok::<Seq<char>, Refusal>(name),
        remote_name((dir.push('/') + name).push('/')) == Ok::<Seq<char>, Refusal>(name),
{
    let path = dir.push('/') + name;
    let before = pieces(dir, '/');
    pieces_behind(dir, '/', name);
    assert(pieces(path, '/') == before.push(name));
    assert(before.push(name).last() == name);
    pieces_alone(name, '/');
    assert(seq![name].last() == name);
    pieces_behind(path, '/', seq![]);
    assert(path.push('/') + Seq::<char>::empty() =~= path.push('/'));
    let parts = pieces(path.push('/'), '/');
    assert(parts == pieces(path, '/').push(seq![]));
    assert(parts.drop_last() =~= pieces(path, '/'));
}

/// Whether a name on the host is one of this drop and of this place in it.
pub open spec fn named_for(name: Seq<char>, stamp: nat, index: nat, own: Seq<char>) -> bool {
    let prefix = unique_prefix(stamp, index);
    exists|n: int|
        0 < n <= own.len() && name == #[trigger] (prefix + own.take(n)) && (n == own.len()
            || utf8_len(prefix) + utf8_len(own) > MAX_NAME)
}

/// A drop that may be uploaded has one upload for each of its files, in their order: with
/// the file's own name and size, and a name on the host that begins with the time of the
/// drop and the place of the file and goes on with as much of its name as there is room
/// for.
pub proof fn drops_are_planned_file_by_file(files: Seq<Local>, stamp: nat, i: int)
    requires
        planned(files, stamp) is Ok,
        stamp <= u128::MAX,
        0 <= i < files.len(),
    ensures
        0 < files.len() <= MAX_FILES,
        (planned(files, stamp)->Ok_0).len() == files.len(),
        ({
            let upload = (planned(files, stamp)->Ok_0)[i];
            &&& !files[i].directory
            &&& files[i].length <= MAX_FILE_BYTES
            &&& upload.total == files[i].length
            &&& remote_name(files[i].path@) == Ok::<Seq<char>, Refusal>(upload.name)
            &&& named_for(upload.remote_name, stamp, i as nat, upload.name)
        }),
{
    files_are_prepared(files, stamp, i);
    let upload = (planned(files, stamp)->Ok_0)[i];
    let prefix = unique_prefix(stamp, i as nat);
    let kept = fitting(upload.name, MAX_NAME - prefix.len());
    assert(uploadable(upload.name));
    unique_names_keep_the_original(upload.name, stamp, i as nat);
    assert(upload.remote_name == prefix + upload.name.take(kept.len() as int));
    assert(upload.name.take(upload.name.len() as int) =~= upload.name);
}

proof fn files_are_prepared(files: Seq<Local>, stamp: nat, i: int)
    requires
        all_prepared(files, stamp) is Ok,
        0 <= i < files.len(),
    ensures
        (all_prepared(files, stamp)->Ok_0).len() == files.len(),
        prepared(files[i], stamp, i as nat) == Ok::<UploadFacts, Refusal>(
            (all_prepared(files, stamp)->Ok_0)[i],
        ),
    decreases files.len(),
{
    let front = files.drop_last();
    if front.len() > 0 {
        let k = if i < front.len() {
            i
        } else {
            0
        };
        files_are_prepared(front, stamp, k);
        assert(front[k] == files[k]);
    } else {
        assert(all_prepared(front, stamp) == Ok::<Seq<UploadFacts>, Refusal>(seq![]));
    }
}

/// No two files of a drop, and no two drops, share a name on the host.
#[verifier::rlimit(40)]
pub proof fn names_on_the_host_are_unique(
    stamp: nat,
    index: nat,
    own: Seq<char>,
    other_stamp: nat,
    other_index: nat,
    other: Seq<char>,
    name: Seq<char>,
)
    requires
        named_for(name, stamp, index, own),
        named_for(name, other_stamp, other_index, other),
    ensures
        stamp == other_stamp,
        index == other_index,
{
    reveal_strlit("starcom-");
    reveal_strlit("-");
    let n = choose|n: int|
        0 < n <= own.len() && name == #[trigger] (unique_prefix(stamp, index) + own.take(n)) && (n
            == own.len() || utf8_len(unique_prefix(stamp, index)) + utf8_len(own) > MAX_NAME);
    let m = choose|m: int|
        0 < m <= other.len() && name == #[trigger] (unique_prefix(other_stamp, other_index)
            + other.take(m)) && (m == other.len() || utf8_len(
            unique_prefix(other_stamp, other_index),
        ) + utf8_len(other) > MAX_NAME);
    let rest = name.skip(8);
    let a = seq!['-'] + decimal(index) + seq!['-'] + own.take(n);
    let b = seq!['-'] + decimal(other_index) + seq!['-'] + other.take(m);
    assert("-"@ =~= seq!['-']);
    assert(rest =~= decimal(stamp) + a);
    assert(rest =~= decimal(other_stamp) + b);
    numbers_end_at_the_dash(stamp, a, other_stamp, b);
    assert(a =~= b) by {
        assert(a =~= rest.skip(decimal(stamp).len() as int));
        assert(b =~= rest.skip(decimal(other_stamp).len() as int));
    }
    let c = seq!['-'] + own.take(n);
    let d = seq!['-'] + other.take(m);
    assert(a.skip(1) =~= decimal(index) + c);
    assert(b.skip(1) =~= decimal(other_index) + d);
    numbers_end_at_the_dash(index, c, other_index, d);
}

/// A number is over at the first character that is no digit.
proof fn numbers_end_at_the_dash(n: nat, a: Seq<char>, m: nat, b: Seq<char>)
    requires
        a.len() > 0 && a[0] == '-',
        b.len() > 0 && b[0] == '-',
        decimal(n) + a == decimal(m) + b,
    ensures
        n == m,
{
    let s = decimal(n) + a;
    let x = decimal(n);
    let y = decimal(m);
    crate::text::decimal_reads_back(n);
    crate::text::decimal_reads_back(m);
    assert(s[x.len() as int] == '-');
    assert(s[y.len() as int] == '-') by {
        assert((y + b)[y.len() as int] == b[0]);
    }
    if x.len() < y.len() {
        assert(crate::text::digit_char(y[x.len() as int]));
        assert((y + b)[x.len() as int] == y[x.len() as int]);
    } else if y.len() < x.len() {
        assert(crate::text::digit_char(x[y.len() as int]));
        assert(s[y.len() as int] == x[y.len() as int]);
    }
    assert(x =~= s.take(x.len() as int));
    assert(y =~= (y + b).take(y.len() as int));
}

/// A path below a remote directory begins with the directory and ends with the name, with
/// one separator between them.
pub proof fn remote_paths_end_in_the_name(dir: Seq<char>, name: Seq<char>)
    requires
        dir.len() > 0,
        !name.contains('/'),
    ensures
        remote_path(dir, name).take(dir.len() as int) == dir,
        remote_path(dir, name).skip(remote_path(dir, name).len() - name.len()) == name,
        remote_path(dir, name)[remote_path(dir, name).len() - name.len() - 1] == '/',
        pieces(remote_path(dir, name), '/').last() == name,
        remote_path(dir, name).len() <= dir.len() + 1 + name.len(),
{
    let path = remote_path(dir, name);
    assert(path.take(dir.len() as int) =~= dir);
    assert(path.skip(path.len() - name.len()) =~= name);
    if dir.last() == '/' {
        let front = dir.drop_last();
        assert(dir =~= front.push('/'));
        pieces_behind(front, '/', name);
    } else {
        pieces_behind(dir, '/', name);
    }
}

} // verus!
