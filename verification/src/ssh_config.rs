//! OpenSSH configuration. Reading it never executes commands.
//!
//! Supported connection settings use OpenSSH's ordering, in which the first
//! value wins. Whatever changes routing, authentication or trust and cannot be
//! carried out exactly is reported as a blocker, never bypassed.
use vstd::prelude::*;
use vstd::slice::slice_subrange;
use vstd::string::*;
use vstd::utf8::*;

use crate::glob::{glob, glob_bytes};
use crate::text::{
    any_control, byte_len, chars_of, contains_char, decimal, find_char, first_index, has_control,
    insert_text, is_text, is_white, last_index, lines, lower_text, number, number_error_text,
    ordered_texts, parse_number, pieces, push_chars, push_decimal, read_number, rfind_char, rows,
    same_str, split_lines, split_on, string_of, texts, to_lower, trim_both, trimmed, utf8_len,
    white_char, NumberError,
};

verus! {

pub const MAX_BYTES: u64 = 1_048_576;

pub const MAX_FILES: usize = 128;

pub const MAX_DEPTH: usize = 12;

/// The most entries of a directory that are looked at for a pattern.
pub const MAX_ENTRIES: usize = 4096;

/// The most hosts that a connection is carried through.
pub const MAX_JUMPS: usize = 4;

#[derive(Clone, Copy, Debug, PartialEq, Eq, Structural)]
pub enum Error {
    Quote,
    Alias,
    HostToken,
    Port(NumberError),
    UserToken,
    PathToken,
    Environment,
    OtherHome,
    MissingValue,
    ExtraValues,
    TooManyFiles,
    Cycle,
    TooLarge,
    Glob,
    Directory,
    Matches,
}

pub open spec fn error_text(error: Error) -> Seq<char> {
    match error {
        Error::Quote => "unterminated quote in SSH config"@,
        Error::Alias => "invalid SSH host alias"@,
        Error::HostToken => "unsupported token in HostName"@,
        Error::Port(error) => number_error_text(error),
        Error::UserToken => "%r needs an explicit User"@,
        Error::PathToken => "unsupported SSH path token"@,
        Error::Environment => "environment expansion in SSH paths is not supported yet"@,
        Error::OtherHome => "other-user home expansion is not supported"@,
        Error::MissingValue => "missing SSH config value"@,
        Error::ExtraValues => "extra values"@,
        Error::TooManyFiles => "SSH Include limit exceeded"@,
        Error::Cycle => "cyclic SSH Include"@,
        Error::TooLarge => "SSH config exceeds 1 MiB total"@,
        Error::Glob => "unsupported Include glob"@,
        Error::Directory => "SSH Include directory exceeds discovery budget"@,
        Error::Matches => "too many SSH Include matches"@,
    }
}

impl Error {
    pub fn message(self) -> (r: &'static str)
        ensures
            r@ == error_text(self),
    {
        match self {
            Error::Quote => "unterminated quote in SSH config",
            Error::Alias => "invalid SSH host alias",
            Error::HostToken => "unsupported token in HostName",
            Error::Port(error) => error.message(),
            Error::UserToken => "%r needs an explicit User",
            Error::PathToken => "unsupported SSH path token",
            Error::Environment => "environment expansion in SSH paths is not supported yet",
            Error::OtherHome => "other-user home expansion is not supported",
            Error::MissingValue => "missing SSH config value",
            Error::ExtraValues => "extra values",
            Error::TooManyFiles => "SSH Include limit exceeded",
            Error::Cycle => "cyclic SSH Include",
            Error::TooLarge => "SSH config exceeds 1 MiB total",
            Error::Glob => "unsupported Include glob",
            Error::Directory => "SSH Include directory exceeds discovery budget",
            Error::Matches => "too many SSH Include matches",
        }
    }
}

/// Where the reader of a line stands.
pub struct Lexer {
    pub words: Seq<Seq<char>>,
    pub word: Seq<char>,
    pub quote: Option<char>,
    pub escape: bool,
    pub ended: bool,
}

/// A character that a backslash stands in front of to be taken literally. Before
/// any other character the backslash is kept, as in Windows paths.
pub open spec fn escapable(c: char) -> bool {
    c == ' ' || c == '\t' || c == '"' || c == '\'' || c == '\\' || c == '#'
}

/// White space separates words, and so does an equals sign behind the keyword.
pub open spec fn separator(s: Lexer, c: char) -> bool {
    white_char(c) || (c == '=' && (s.words.len() == 0 || (s.words.len() == 1 && s.word.len()
        == 0)))
}

pub open spec fn lex_char(s: Lexer, c: char) -> Lexer {
    if s.ended {
        s
    } else if s.escape {
        Lexer {
            word: (if escapable(c) {
                s.word
            } else {
                s.word.push('\\')
            }).push(c),
            escape: false,
            ..s
        }
    } else if c == '\\' {
        Lexer { escape: true, ..s }
    } else if s.quote == Some(c) {
        Lexer { quote: None, ..s }
    } else if s.quote is Some {
        Lexer { word: s.word.push(c), ..s }
    } else if c == '"' || c == '\'' {
        Lexer { quote: Some(c), ..s }
    } else if c == '#' {
        Lexer { ended: true, ..s }
    } else if separator(s, c) {
        if s.word.len() > 0 {
            Lexer { words: s.words.push(s.word), word: seq![], ..s }
        } else {
            s
        }
    } else {
        Lexer { word: s.word.push(c), ..s }
    }
}

pub open spec fn lexed(line: Seq<char>) -> Lexer
    decreases line.len(),
{
    if line.len() == 0 {
        Lexer { words: seq![], word: seq![], quote: None, escape: false, ended: false }
    } else {
        lex_char(lexed(line.drop_last()), line.last())
    }
}

/// The words of a line, or nothing where a quote is left open.
pub open spec fn config_words(line: Seq<char>) -> Option<Seq<Seq<char>>> {
    let s = lexed(line);
    let word = if s.escape {
        s.word.push('\\')
    } else {
        s.word
    };
    if s.quote is Some {
        None
    } else if word.len() > 0 {
        Some(s.words.push(word))
    } else {
        Some(s.words)
    }
}

fn push_text(out: &mut Vec<String>, text: String)
    ensures
        texts(final(out)@) == texts(old(out)@).push(text@),
{
    let ghost before = out@;
    let ghost shown = text@;
    out.push(text);
    assert(texts(out@) =~= texts(before).push(shown));
}

/// The words of one line. Quotes group, a backslash escapes, and `#` begins a
/// comment.
pub fn words(line: &str) -> (r: Result<Vec<String>, Error>)
    ensures
        match config_words(line@) {
            Some(found) => r matches Ok(v) && texts(v@) == found,
            None => r == Err::<Vec<String>, Error>(Error::Quote),
        },
{
    let chars = chars_of(line);
    let mut found: Vec<String> = Vec::new();
    let mut word = String::new();
    let mut filled = false;
    let mut quote: Option<char> = None;
    let mut escape = false;
    let mut ended = false;
    let mut i: usize = 0;
    assert(texts(found@) =~= Seq::<Seq<char>>::empty());
    assert(chars@.take(0) =~= Seq::<char>::empty());
    while i < chars.len()
        invariant
            i <= chars@.len(),
            filled == (word@.len() > 0),
            lexed(chars@.take(i as int)) == (Lexer {
                words: texts(found@),
                word: word@,
                quote,
                escape,
                ended,
            }),
        decreases chars@.len() - i,
    {
        let c = chars[i];
        proof {
            assert(chars@.take(i + 1).drop_last() =~= chars@.take(i as int));
            assert(chars@.take(i + 1).last() == c);
        }
        let ghost s = lexed(chars@.take(i as int));
        if ended {
        } else if escape {
            if !(c == ' ' || c == '\t' || c == '"' || c == '\'' || c == '\\' || c == '#') {
                word.push('\\');
            }
            word.push(c);
            filled = true;
            escape = false;
        } else if c == '\\' {
            escape = true;
        } else if quote.is_some() && quote.unwrap() == c {
            quote = None;
        } else if quote.is_some() {
            word.push(c);
            filled = true;
        } else if c == '"' || c == '\'' {
            quote = Some(c);
        } else if c == '#' {
            ended = true;
        } else if is_white(c) || (c == '=' && (found.len() == 0 || (found.len() == 1
            && !filled))) {
            if filled {
                let mut done = String::new();
                std::mem::swap(&mut done, &mut word);
                push_text(&mut found, done);
                filled = false;
                assert(word@ =~= Seq::<char>::empty());
            }
        } else {
            word.push(c);
            filled = true;
        }
        i += 1;
        assert(texts(found@).len() == found@.len());
    }
    assert(chars@.take(i as int) =~= chars@);
    if escape {
        word.push('\\');
        filled = true;
    }
    if quote.is_some() {
        return Err(Error::Quote);
    }
    if filled {
        push_text(&mut found, word);
    }
    Ok(found)
}

/// One line of a configuration, with the lines of the files it brings in.
#[derive(Debug)]
pub struct Line {
    pub keyword: String,
    pub values: Vec<String>,
    pub included: Vec<Line>,
}

/// A pattern matches a host, ignoring case.
pub open spec fn pattern_matches(pattern: Seq<char>, host: Seq<char>) -> bool {
    glob(encode_utf8(lower_text(pattern)), encode_utf8(lower_text(host)))
}

pub open spec fn negated(pattern: Seq<char>) -> bool {
    pattern.len() > 0 && pattern[0] == '!'
}

/// Some pattern matches, and no negated pattern does.
pub open spec fn host_matches(patterns: Seq<Seq<char>>, host: Seq<char>) -> bool {
    &&& exists|i: int|
        0 <= i < patterns.len() && !negated(#[trigger] patterns[i]) && pattern_matches(
            patterns[i],
            host,
        )
    &&& !exists|i: int|
        0 <= i < patterns.len() && negated(#[trigger] patterns[i]) && pattern_matches(
            patterns[i].drop_first(),
            host,
        )
}

fn lowered(s: &[char]) -> (r: String)
    ensures
        r@ == lower_text(s@),
{
    let low = to_lower(s);
    string_of(low.as_slice())
}

pub fn matches_host(patterns: &Vec<String>, host: &str) -> (r: bool)
    ensures
        r == host_matches(texts(patterns@), host@),
{
    let ghost all = texts(patterns@);
    let name = chars_of(host);
    let target = lowered(name.as_slice());
    let mut matched = false;
    let mut i: usize = 0;
    while i < patterns.len()
        invariant
            i <= patterns@.len(),
            all == texts(patterns@),
            target@ == lower_text(host@),
            matched == exists|k: int|
                0 <= k < i && !negated(#[trigger] all[k]) && pattern_matches(all[k], host@),
            forall|k: int|
                0 <= k < i && negated(#[trigger] all[k]) ==> !pattern_matches(
                    all[k].drop_first(),
                    host@,
                ),
        decreases patterns@.len() - i,
    {
        let chars = chars_of(patterns[i].as_str());
        assert(all[i as int] == chars@);
        let negative = chars.len() > 0 && chars[0] == '!';
        let from: usize = if negative {
            1
        } else {
            0
        };
        let body = slice_subrange(chars.as_slice(), from, chars.len());
        assert(body@ =~= if negative {
            chars@.drop_first()
        } else {
            chars@
        });
        let pattern = lowered(body);
        let ghost was = matched;
        if glob_bytes(pattern.as_str().as_bytes(), target.as_str().as_bytes()) {
            if negative {
                assert(negated(all[i as int]));
                return false;
            }
            matched = true;
        }
        i += 1;
    }
    matched
}

/// What a configuration sets for a host.
pub struct Eval {
    pub values: Map<Seq<char>, Seq<Seq<char>>>,
    pub match_seen: bool,
}

/// The effect of the lines on a host. The first value of a keyword wins, but
/// identity files add up. Nothing behind a `Match` applies, and the lines that
/// a file brings in cannot change which lines apply behind them.
pub open spec fn evaluated(v: Seq<Line>, active: bool, alias: Seq<char>, st: Eval) -> Eval
    decreases v,
{
    if v.len() == 0 {
        st
    } else {
        let line = v[0];
        let rest = v.drop_first();
        let key = line.keyword@;
        if key == "host"@ {
            evaluated(rest, host_matches(texts(line.values@), alias), alias, st)
        } else if key == "match"@ {
            evaluated(rest, false, alias, Eval { match_seen: true, ..st })
        } else if !active {
            evaluated(rest, active, alias, st)
        } else if key == "include"@ {
            evaluated(rest, active, alias, evaluated(line.included@, true, alias, st))
        } else if key == "identityfile"@ {
            let before = if st.values.contains_key(key) {
                st.values[key]
            } else {
                seq![]
            };
            evaluated(
                rest,
                active,
                alias,
                Eval { values: st.values.insert(key, before + texts(line.values@)), ..st },
            )
        } else if st.values.contains_key(key) {
            evaluated(rest, active, alias, st)
        } else {
            evaluated(
                rest,
                active,
                alias,
                Eval { values: st.values.insert(key, texts(line.values@)), ..st },
            )
        }
    }
}

pub open spec fn nothing_set() -> Eval {
    Eval { values: Map::empty(), match_seen: false }
}

/// A keyword with its values.
pub struct Setting {
    pub keyword: String,
    pub values: Vec<String>,
}

/// The list holds exactly the map, each keyword once.
spec fn holds(list: Seq<Setting>, values: Map<Seq<char>, Seq<Seq<char>>>) -> bool {
    &&& forall|i: int, j: int|
        0 <= i < j < list.len() ==> (#[trigger] list[i]).keyword@ != (#[trigger] list[j]).keyword@
    &&& forall|i: int|
        0 <= i < list.len() ==> values.contains_key((#[trigger] list[i]).keyword@)
            && values[list[i].keyword@] == texts(list[i].values@)
    &&& forall|key: Seq<char>|
        #[trigger] values.contains_key(key) ==> exists|i: int|
            0 <= i < list.len() && (#[trigger] list[i]).keyword@ == key
}

fn find_setting(list: &Vec<Setting>, keyword: &str) -> (r: Option<usize>)
    ensures
        match r {
            Some(i) => i < list@.len() && list@[i as int].keyword@ == keyword@,
            None => forall|i: int|
                0 <= i < list@.len() ==> (#[trigger] list@[i]).keyword@ != keyword@,
        },
{
    let mut i: usize = 0;
    while i < list.len()
        invariant
            i <= list@.len(),
            forall|k: int| 0 <= k < i ==> (#[trigger] list@[k]).keyword@ != keyword@,
        decreases list@.len() - i,
    {
        if same_str(list[i].keyword.as_str(), keyword) {
            return Some(i);
        }
        i += 1;
    }
    None
}

fn copy_texts(v: &Vec<String>) -> (r: Vec<String>)
    ensures
        texts(r@) == texts(v@),
{
    let mut out: Vec<String> = Vec::new();
    append_texts(&mut out, v);
    assert(texts(out@) =~= texts(v@));
    out
}

fn append_texts(out: &mut Vec<String>, v: &Vec<String>)
    ensures
        texts(final(out)@) == texts(old(out)@) + texts(v@),
{
    let ghost start = texts(out@);
    let mut i: usize = 0;
    assert(start + texts(v@.take(0)) =~= start);
    while i < v.len()
        invariant
            i <= v@.len(),
            texts(out@) == start + texts(v@.take(i as int)),
        decreases v@.len() - i,
    {
        push_text(out, v[i].clone());
        i += 1;
        assert(texts(out@) =~= start + texts(v@.take(i as int)));
    }
    assert(v@.take(i as int) =~= v@);
}

fn evaluate(v: &Vec<Line>, alias: &str, list: &mut Vec<Setting>, match_seen: &mut bool, st: Ghost<Eval>)
    requires
        holds(old(list)@, st@.values),
        *old(match_seen) == st@.match_seen,
    ensures
        holds(final(list)@, evaluated(v@, true, alias@, st@).values),
        *final(match_seen) == evaluated(v@, true, alias@, st@).match_seen,
    decreases v,
{
    let mut active = true;
    let mut i: usize = 0;
    let ghost mut now = st@;
    assert(v@.skip(0) =~= v@);
    while i < v.len()
        invariant
            i <= v@.len(),
            holds(list@, now.values),
            *match_seen == now.match_seen,
            evaluated(v@, true, alias@, st@) == evaluated(
                v@.skip(i as int),
                active,
                alias@,
                now,
            ),
        decreases v@.len() - i,
    {
        let line = &v[i];
        let ghost rest = v@.skip(i as int);
        proof {
            assert(rest[0] == *line);
            assert(rest.drop_first() =~= v@.skip(i + 1));
        }
        if same_str(line.keyword.as_str(), "host") {
            active = matches_host(&line.values, alias);
        } else if same_str(line.keyword.as_str(), "match") {
            *match_seen = true;
            active = false;
            proof {
                now = Eval { match_seen: true, ..now };
            }
        } else if !active {
        } else if same_str(line.keyword.as_str(), "include") {
            assert(decreases_to!(v => v@));
            assert(decreases_to!(v@ => v@[i as int]));
            evaluate(&line.included, alias, list, match_seen, Ghost(now));
            proof {
                now = evaluated(line.included@, true, alias@, now);
            }
        } else if same_str(line.keyword.as_str(), "identityfile") {
            add_identity(list, line, Ghost(now.values));
            proof {
                let key = line.keyword@;
                let before = if now.values.contains_key(key) {
                    now.values[key]
                } else {
                    seq![]
                };
                now = Eval { values: now.values.insert(key, before + texts(line.values@)), ..now };
            }
        } else {
            add_first(list, line, Ghost(now.values));
            proof {
                let key = line.keyword@;
                if !now.values.contains_key(key) {
                    now = Eval { values: now.values.insert(key, texts(line.values@)), ..now };
                }
            }
        }
        i += 1;
    }
    assert(v@.skip(i as int) =~= Seq::<Line>::empty());
}

fn add_first(list: &mut Vec<Setting>, line: &Line, values: Ghost<Map<Seq<char>, Seq<Seq<char>>>>)
    requires
        holds(old(list)@, values@),
    ensures
        holds(
            final(list)@,
            if values@.contains_key(line.keyword@) {
                values@
            } else {
                values@.insert(line.keyword@, texts(line.values@))
            },
        ),
{
    match find_setting(list, line.keyword.as_str()) {
        Some(_) => {},
        None => {
            let ghost before = list@;
            let setting = Setting { keyword: line.keyword.clone(), values: copy_texts(&line.values) };
            list.push(setting);
            proof {
                grown(before, values@, list@.last());
            }
        },
    }
}

fn add_identity(
    list: &mut Vec<Setting>,
    line: &Line,
    values: Ghost<Map<Seq<char>, Seq<Seq<char>>>>,
)
    requires
        holds(old(list)@, values@),
    ensures
        holds(
            final(list)@,
            values@.insert(
                line.keyword@,
                (if values@.contains_key(line.keyword@) {
                    values@[line.keyword@]
                } else {
                    seq![]
                }) + texts(line.values@),
            ),
        ),
{
    let ghost key = line.keyword@;
    let ghost before = list@;
    match find_setting(list, line.keyword.as_str()) {
        Some(i) => {
            let mut joined = copy_texts(&list[i].values);
            append_texts(&mut joined, &line.values);
            let keyword = line.keyword.clone();
            list.set(i, Setting { keyword, values: joined });
            proof {
                let now = list@;
                let m = values@.insert(key, values@[key] + texts(line.values@));
                assert forall|k: Seq<char>| #[trigger] m.contains_key(k) implies exists|j: int|
                    0 <= j < now.len() && (#[trigger] now[j]).keyword@ == k by {
                    if k == key {
                        assert(now[i as int].keyword@ == key);
                    } else {
                        let j = choose|j: int|
                            0 <= j < before.len() && (#[trigger] before[j]).keyword@ == k;
                        assert(now[j].keyword@ == k);
                    }
                }
                assert forall|a: int, b: int| 0 <= a < b < now.len() implies (
                #[trigger] now[a]).keyword@ != (#[trigger] now[b]).keyword@ by {
                    assert(now[a].keyword@ == before[a].keyword@);
                    assert(now[b].keyword@ == before[b].keyword@);
                }
                assert forall|j: int| 0 <= j < now.len() implies m.contains_key(
                    (#[trigger] now[j]).keyword@,
                ) && m[now[j].keyword@] == texts(now[j].values@) by {
                    if j != i {
                        assert(now[j] == before[j]);
                        assert(before[j].keyword@ != key);
                    }
                }
            }
        },
        None => {
            let setting = Setting { keyword: line.keyword.clone(), values: copy_texts(&line.values) };
            list.push(setting);
            proof {
                assert(seq![] + texts(line.values@) =~= texts(line.values@));
                grown(before, values@, list@.last());
            }
        },
    }
}

proof fn grown(list: Seq<Setting>, values: Map<Seq<char>, Seq<Seq<char>>>, setting: Setting)
    requires
        holds(list, values),
        forall|i: int| 0 <= i < list.len() ==> (#[trigger] list[i]).keyword@ != setting.keyword@,
    ensures
        holds(list.push(setting), values.insert(setting.keyword@, texts(setting.values@))),
        !values.contains_key(setting.keyword@),
{
    let now = list.push(setting);
    let m = values.insert(setting.keyword@, texts(setting.values@));
    assert forall|k: Seq<char>| #[trigger] m.contains_key(k) implies exists|j: int|
        0 <= j < now.len() && (#[trigger] now[j]).keyword@ == k by {
        if k == setting.keyword@ {
            assert(now[list.len() as int].keyword@ == k);
        } else {
            let j = choose|j: int| 0 <= j < list.len() && (#[trigger] list[j]).keyword@ == k;
            assert(now[j].keyword@ == k);
        }
    }
}

/// One hop as it is written, before any configuration is consulted.
#[derive(Debug, PartialEq, Eq)]
pub struct Hop {
    pub user: Option<String>,
    pub host: String,
    pub port: Option<u16>,
}

#[derive(Clone, Copy, Debug, PartialEq, Eq, Structural)]
pub enum HopError {
    Invalid,
    EmptyUser,
    Unterminated,
    ExpectedPort,
    Unbracketed,
    EmptyHost,
    Port,
}

pub open spec fn hop_error_text(error: HopError) -> Seq<char> {
    match error {
        HopError::Invalid => "invalid hop"@,
        HopError::EmptyUser => "empty hop user"@,
        HopError::Unterminated => "unterminated IPv6 literal"@,
        HopError::ExpectedPort => "expected a port"@,
        HopError::Unbracketed => "bracket an IPv6 hop address"@,
        HopError::EmptyHost => "empty hop host"@,
        HopError::Port => "invalid hop port"@,
    }
}

impl HopError {
    pub fn message(self) -> (r: &'static str)
        ensures
            r@ == hop_error_text(self),
    {
        match self {
            HopError::Invalid => "invalid hop",
            HopError::EmptyUser => "empty hop user",
            HopError::Unterminated => "unterminated IPv6 literal",
            HopError::ExpectedPort => "expected a port",
            HopError::Unbracketed => "bracket an IPv6 hop address",
            HopError::EmptyHost => "empty hop host",
            HopError::Port => "invalid hop port",
        }
    }
}

/// What a hop holds.
pub struct Written {
    pub user: Option<Seq<char>>,
    pub host: Seq<char>,
    pub port: Option<u16>,
}

pub open spec fn opt_text(s: Option<String>) -> Option<Seq<char>> {
    match s {
        Some(text) => Some(text@),
        None => None,
    }
}

impl View for Hop {
    type V = Written;

    open spec fn view(&self) -> Written {
        Written { user: opt_text(self.user), host: self.host@, port: self.port }
    }
}

/// Host and port of a hop: a bracketed address, or a host with at most one
/// colon. A bare IPv6 address cannot be told from a host with a port.
pub open spec fn host_and_port(rest: Seq<char>) -> Result<(Seq<char>, Option<Seq<char>>), HopError> {
    if rest.len() > 0 && rest[0] == '[' {
        let inner = rest.drop_first();
        let close = first_index(inner, ']');
        if close >= inner.len() {
            Err(HopError::Unterminated)
        } else {
            let tail = inner.skip(close + 1);
            if tail.len() == 0 {
                Ok((inner.take(close), None))
            } else if tail[0] != ':' {
                Err(HopError::ExpectedPort)
            } else {
                Ok((inner.take(close), Some(tail.drop_first())))
            }
        }
    } else {
        let colon = first_index(rest, ':');
        if colon >= rest.len() {
            Ok((rest, None))
        } else if rest.skip(colon + 1).contains(':') {
            Err(HopError::Unbracketed)
        } else {
            Ok((rest.take(colon), Some(rest.skip(colon + 1))))
        }
    }
}

/// `[user@]host[:port]`, with an IPv6 address in brackets. Anything else is
/// refused rather than guessed at.
pub open spec fn read_hop(given: Seq<char>) -> Result<Written, HopError> {
    let spec_text = trim_both(given);
    let at = last_index(spec_text, '@');
    if spec_text.len() == 0 || utf8_len(spec_text) > 320 || has_control(spec_text) {
        Err(HopError::Invalid)
    } else if at == 0 {
        Err(HopError::EmptyUser)
    } else {
        match host_and_port(spec_text.skip(at + 1)) {
            Err(error) => Err(error),
            Ok((host, port)) => if host.len() == 0 {
                Err(HopError::EmptyHost)
            } else {
                let user = if at > 0 {
                    Some(spec_text.take(at))
                } else {
                    None
                };
                match port {
                    None => Ok(Written { user, host, port: None }),
                    Some(text) => match number(text, u16::MAX as nat) {
                        None => Err(HopError::Port),
                        Some(n) => if n == 0 {
                            Err(HopError::Port)
                        } else {
                            Ok(Written { user, host, port: Some(n as u16) })
                        },
                    },
                }
            },
        }
    }
}

/// Parse one hop. Guessing wrong here would mean to connect somewhere that the
/// user did not name.
pub fn parse_hop(given: &str) -> (r: Result<Hop, HopError>)
    ensures
        match read_hop(given@) {
            Ok(written) => r matches Ok(hop) && hop@ == written,
            Err(error) => r == Err::<Hop, HopError>(error),
        },
{
    let all = chars_of(given);
    let body = trimmed(all.as_slice());
    let text = string_of(body);
    if body.len() == 0 || byte_len(text.as_str()) > 320 || any_control(body) {
        return Err(HopError::Invalid);
    }
    let (user, from): (Option<String>, usize) = match rfind_char(body, '@') {
        Some(at) => {
            if at == 0 {
                return Err(HopError::EmptyUser);
            }
            let name = slice_subrange(body, 0, at);
            assert(name@ =~= body@.take(at as int));
            (Some(string_of(name)), at + 1)
        },
        None => (None, 0),
    };
    let rest = slice_subrange(body, from, body.len());
    assert(rest@ =~= body@.skip(last_index(body@, '@') + 1));
    let (host, port): (&[char], Option<&[char]>) = if rest.len() > 0 && rest[0] == '[' {
        let inner = slice_subrange(rest, 1, rest.len());
        assert(inner@ =~= rest@.drop_first());
        let close = find_char(inner, ']');
        if close >= inner.len() {
            return Err(HopError::Unterminated);
        }
        let host = slice_subrange(inner, 0, close);
        let tail = slice_subrange(inner, close + 1, inner.len());
        assert(host@ =~= inner@.take(close as int));
        assert(tail@ =~= inner@.skip(close + 1));
        if tail.len() == 0 {
            (host, None)
        } else if tail[0] != ':' {
            return Err(HopError::ExpectedPort);
        } else {
            let port = slice_subrange(tail, 1, tail.len());
            assert(port@ =~= tail@.drop_first());
            (host, Some(port))
        }
    } else {
        let colon = find_char(rest, ':');
        if colon >= rest.len() {
            (rest, None)
        } else {
            let host = slice_subrange(rest, 0, colon);
            let tail = slice_subrange(rest, colon + 1, rest.len());
            assert(host@ =~= rest@.take(colon as int));
            assert(tail@ =~= rest@.skip(colon + 1));
            if contains_char(tail, ':') {
                return Err(HopError::Unbracketed);
            }
            (host, Some(tail))
        }
    };
    if host.len() == 0 {
        return Err(HopError::EmptyHost);
    }
    let port: Option<u16> = match port {
        None => None,
        Some(digits) => match parse_number(digits, u16::MAX as u64) {
            Ok(n) => if n == 0 {
                return Err(HopError::Port);
            } else {
                Some(n as u16)
            },
            Err(_) => return Err(HopError::Port),
        },
    };
    Ok(Hop { user, host: string_of(host), port })
}

/// A path below a directory, unless it is absolute itself.
pub open spec fn join_path(base: Seq<char>, tail: Seq<char>) -> Seq<char> {
    if tail.len() > 0 && tail[0] == '/' {
        tail
    } else if base.len() == 0 || base.last() == '/' {
        base + tail
    } else {
        base.push('/') + tail
    }
}

pub fn joined_path(base: &str, tail: &[char]) -> (r: String)
    ensures
        r@ == join_path(base@, tail@),
{
    if tail.len() > 0 && tail[0] == '/' {
        return string_of(tail);
    }
    let chars = chars_of(base);
    let mut out = base.to_owned();
    if chars.len() > 0 && chars[chars.len() - 1] != '/' {
        out.push('/');
    }
    push_chars(&mut out, tail);
    out
}

/// What the tokens of a path stand for.
pub struct Tokens {
    pub home: Seq<char>,
    pub host: Seq<char>,
    pub alias: Seq<char>,
    pub user: Option<Seq<char>>,
    pub port: Option<u16>,
}

pub open spec fn token_text(token: char, t: Tokens) -> Result<Seq<char>, Error> {
    if token == '%' {
        Ok(seq!['%'])
    } else if token == 'd' {
        Ok(t.home)
    } else if token == 'h' {
        Ok(t.host)
    } else if token == 'n' {
        Ok(t.alias)
    } else if token == 'r' {
        match t.user {
            Some(user) => Ok(user),
            None => Err(Error::UserToken),
        }
    } else if token == 'p' {
        Ok(
            decimal(
                match t.port {
                    Some(port) => port as nat,
                    None => 22,
                },
            ),
        )
    } else {
        Err(Error::PathToken)
    }
}

/// The text with its percent tokens replaced, left to right.
pub open spec fn expanded(value: Seq<char>, t: Tokens) -> Result<Seq<char>, Error>
    decreases value.len(),
{
    if value.len() == 0 {
        Ok(seq![])
    } else if value[0] != '%' {
        match expanded(value.skip(1), t) {
            Ok(rest) => Ok(seq![value[0]] + rest),
            Err(error) => Err(error),
        }
    } else if value.len() == 1 {
        Err(Error::PathToken)
    } else {
        match token_text(value[1], t) {
            Err(error) => Err(error),
            Ok(head) => match expanded(value.skip(2), t) {
                Ok(rest) => Ok(head + rest),
                Err(error) => Err(error),
            },
        }
    }
}

/// An environment variable is named somewhere in the text.
pub open spec fn names_variable(s: Seq<char>) -> bool {
    exists|i: int| 0 <= i < s.len() - 1 && #[trigger] s[i] == '$' && s[i + 1] == '{'
}

pub open spec fn below_home(s: Seq<char>) -> bool {
    s.len() >= 2 && s[0] == '~' && (s[1] == '/' || s[1] == '\\')
}

/// A path as OpenSSH reads it: tokens replaced, and a leading tilde for the
/// user's own home only.
pub open spec fn path_of(value: Seq<char>, t: Tokens) -> Result<Seq<char>, Error> {
    match expanded(value, t) {
        Err(error) => Err(error),
        Ok(out) => if names_variable(out) {
            Err(Error::Environment)
        } else if below_home(out) {
            Ok(join_path(t.home, out.skip(2)))
        } else if out.len() > 0 && out[0] == '~' {
            Err(Error::OtherHome)
        } else {
            Ok(out)
        },
    }
}

pub open spec fn prefixed(head: Seq<char>, rest: Result<Seq<char>, Error>) -> Result<
    Seq<char>,
    Error,
> {
    match rest {
        Ok(text) => Ok(head + text),
        Err(error) => Err(error),
    }
}

fn has_variable(s: &[char]) -> (r: bool)
    ensures
        r == names_variable(s@),
{
    let mut i: usize = 0;
    while s.len() - i > 1
        invariant
            i <= s@.len(),
            forall|k: int| 0 <= k < i && k < s@.len() - 1 ==> !(#[trigger] s@[k] == '$' && s@[k + 1]
                == '{'),
        decreases s@.len() - i,
    {
        if s[i] == '$' && s[i + 1] == '{' {
            return true;
        }
        i += 1;
    }
    false
}

pub fn expand_path(
    value: &str,
    home: &str,
    alias: &str,
    host: &str,
    user: &Option<String>,
    port: Option<u16>,
) -> (r: Result<String, Error>)
    ensures
        match path_of(
            value@,
            Tokens { home: home@, host: host@, alias: alias@, user: opt_text(*user), port },
        ) {
            Ok(path) => r matches Ok(text) && text@ == path,
            Err(error) => r == Err::<String, Error>(error),
        },
{
    let ghost t = Tokens { home: home@, host: host@, alias: alias@, user: opt_text(*user), port };
    let chars = chars_of(value);
    let mut out = String::new();
    let mut i: usize = 0;
    proof {
        assert(chars@.skip(0) =~= chars@);
        if let Ok(all) = expanded(chars@, t) {
            assert(Seq::<char>::empty() + all =~= all);
        }
    }
    while i < chars.len()
        invariant
            i <= chars@.len(),
            t == (Tokens { home: home@, host: host@, alias: alias@, user: opt_text(*user), port }),
            expanded(chars@, t) == prefixed(out@, expanded(chars@.skip(i as int), t)),
            chars@ == value@,
        decreases chars@.len() - i,
    {
        let ghost rest = chars@.skip(i as int);
        let ghost before = out@;
        let c = chars[i];
        let step: usize;
        let ghost mut head: Seq<char> = seq![];
        if c != '%' {
            out.push(c);
            step = 1;
            proof {
                head = seq![c];
            }
        } else {
            if chars.len() - i == 1 {
                return Err(Error::PathToken);
            }
            let token = chars[i + 1];
            if token == '%' {
                out.push('%');
            } else if token == 'd' {
                out.append(home);
            } else if token == 'h' {
                out.append(host);
            } else if token == 'n' {
                out.append(alias);
            } else if token == 'r' {
                match user {
                    Some(name) => out.append(name.as_str()),
                    None => return Err(Error::UserToken),
                }
            } else if token == 'p' {
                let n: u64 = match port {
                    Some(n) => n as u64,
                    None => 22,
                };
                push_decimal(&mut out, n);
            } else {
                return Err(Error::PathToken);
            }
            step = 2;
            proof {
                head = token_text(token, t)->Ok_0;
            }
        }
        i = i + step;
        proof {
            assert(out@ =~= before + head);
            assert(rest.skip(step as int) =~= chars@.skip(i as int));
            if let Ok(tail) = expanded(chars@.skip(i as int), t) {
                assert(before + (head + tail) =~= (before + head) + tail);
            }
        }
    }
    proof {
        assert(chars@.skip(i as int) =~= Seq::<char>::empty());
        assert(out@ + Seq::<char>::empty() =~= out@);
    }
    let whole = chars_of(out.as_str());
    if has_variable(whole.as_slice()) {
        return Err(Error::Environment);
    }
    if whole.len() >= 2 && whole[0] == '~' && (whole[1] == '/' || whole[1] == '\\') {
        let tail = slice_subrange(whole.as_slice(), 2, whole.len());
        assert(tail@ =~= whole@.skip(2));
        return Ok(joined_path(home, tail));
    }
    if whole.len() > 0 && whole[0] == '~' {
        return Err(Error::OtherHome);
    }
    Ok(out)
}

/// The text with every `%` before this letter replaced together with it.
pub open spec fn replace_token(s: Seq<char>, letter: char, by: Seq<char>) -> Seq<char>
    decreases s.len(),
{
    if s.len() == 0 {
        seq![]
    } else if s.len() >= 2 && s[0] == '%' && s[1] == letter {
        by + replace_token(s.skip(2), letter, by)
    } else {
        seq![s[0]] + replace_token(s.skip(1), letter, by)
    }
}

fn replaced_token(s: &str, letter: char, by: &str) -> (r: String)
    ensures
        r@ == replace_token(s@, letter, by@),
{
    let chars = chars_of(s);
    let mut out = String::new();
    let mut i: usize = 0;
    assert(chars@.skip(0) =~= chars@);
    assert(out@ + replace_token(chars@, letter, by@) =~= replace_token(chars@, letter, by@));
    while i < chars.len()
        invariant
            i <= chars@.len(),
            out@ + replace_token(chars@.skip(i as int), letter, by@) == replace_token(
                chars@,
                letter,
                by@,
            ),
        decreases chars@.len() - i,
    {
        let ghost rest = chars@.skip(i as int);
        let ghost before = out@;
        if chars.len() - i >= 2 && chars[i] == '%' && chars[i + 1] == letter {
            out.append(by);
            i += 2;
            assert(rest.skip(2) =~= chars@.skip(i as int));
            assert(out@ + replace_token(rest.skip(2), letter, by@) =~= before + (by@
                + replace_token(rest.skip(2), letter, by@)));
        } else {
            out.push(chars[i]);
            i += 1;
            assert(rest.skip(1) =~= chars@.skip(i as int));
            assert(out@ + replace_token(rest.skip(1), letter, by@) =~= before + (seq![rest[0]]
                + replace_token(rest.skip(1), letter, by@)));
        }
    }
    assert(chars@.skip(i as int) =~= Seq::<char>::empty());
    assert(out@ + Seq::<char>::empty() =~= out@);
    out
}

/// How to reach a host.
#[derive(Debug)]
pub struct Profile {
    pub host: String,
    pub user: Option<String>,
    pub port: Option<u16>,
    pub identity: Option<String>,
    /// The identity files that the configuration names, in order.
    pub identities: Vec<String>,
    pub known_hosts: Option<String>,
    pub host_key_alias: Option<String>,
    pub identities_only: bool,
    /// Hosts to traverse before this one, in order, each resolved already. Empty
    /// is a direct connection.
    pub jumps: Vec<Profile>,
    /// What cannot be carried out. Never bypass these.
    pub unsupported: Vec<String>,
}

impl Default for Profile {
    fn default() -> (r: Self)
        ensures
            r.host@ == Seq::<char>::empty(),
            r.user is None,
            r.port is None,
            r.identity is None,
            r.identities@.len() == 0,
            r.known_hosts is None,
            r.host_key_alias is None,
            !r.identities_only,
            r.jumps@.len() == 0,
            r.unsupported@.len() == 0,
    {
        Profile {
            host: String::new(),
            user: None,
            port: None,
            identity: None,
            identities: Vec::new(),
            known_hosts: None,
            host_key_alias: None,
            identities_only: false,
            jumps: Vec::new(),
            unsupported: Vec::new(),
        }
    }
}

/// What a profile holds.
pub struct Resolved {
    pub host: Seq<char>,
    pub user: Option<Seq<char>>,
    pub port: Option<u16>,
    pub identity: Option<Seq<char>>,
    pub identities: Seq<Seq<char>>,
    pub known_hosts: Option<Seq<char>>,
    pub host_key_alias: Option<Seq<char>>,
    pub identities_only: bool,
    pub jumps: Seq<Resolved>,
    pub unsupported: Seq<Seq<char>>,
}

pub open spec fn profile_view(p: Profile) -> Resolved
    decreases p,
{
    Resolved {
        host: p.host@,
        user: opt_text(p.user),
        port: p.port,
        identity: opt_text(p.identity),
        identities: texts(p.identities@),
        known_hosts: opt_text(p.known_hosts),
        host_key_alias: opt_text(p.host_key_alias),
        identities_only: p.identities_only,
        jumps: profile_views(p.jumps@),
        unsupported: texts(p.unsupported@),
    }
}

pub open spec fn profile_views(v: Seq<Profile>) -> Seq<Resolved>
    decreases v,
{
    if v.len() == 0 {
        seq![]
    } else {
        profile_views(v.drop_last()).push(profile_view(v.last()))
    }
}

/// A list of the one text, if there is one.
pub open spec fn listed(text: Option<Seq<char>>) -> Seq<Seq<char>> {
    match text {
        Some(s) => seq![s],
        None => seq![],
    }
}

pub open spec fn first_value(values: Map<Seq<char>, Seq<Seq<char>>>, key: Seq<char>) -> Option<
    Seq<char>,
> {
    if values.contains_key(key) && values[key].len() > 0 {
        Some(values[key][0])
    } else {
        None
    }
}

pub open spec fn value_count(values: Map<Seq<char>, Seq<Seq<char>>>, key: Seq<char>) -> nat {
    if values.contains_key(key) {
        values[key].len()
    } else {
        0
    }
}

/// A value that is this lower-case word, ignoring case.
pub open spec fn is_word(value: Option<Seq<char>>, word: Seq<char>) -> bool {
    value matches Some(text) && lower_text(text) == word
}

pub open spec fn valid_alias(alias: Seq<char>) -> bool {
    alias.len() > 0 && utf8_len(alias) <= 255 && !has_control(alias)
}

/// The host name to connect to.
pub open spec fn host_of(values: Map<Seq<char>, Seq<Seq<char>>>, alias: Seq<char>) -> Seq<char> {
    match first_value(values, "hostname"@) {
        Some(name) => replace_token(replace_token(name, 'h', alias), 'n', alias),
        None => alias,
    }
}

pub open spec fn port_of(values: Map<Seq<char>, Seq<Seq<char>>>) -> Result<Option<u16>, Error> {
    match first_value(values, "port"@) {
        None => Ok(None),
        Some(text) => match read_number(text, u16::MAX as nat) {
            Ok(n) => Ok(Some(n as u16)),
            Err(error) => Err(Error::Port(error)),
        },
    }
}

/// What does not depend on the configuration's lines.
pub struct Place {
    pub home: Seq<char>,
    pub has_default: bool,
}

pub open spec fn tokens_of(
    values: Map<Seq<char>, Seq<Seq<char>>>,
    place: Place,
    alias: Seq<char>,
    port: Option<u16>,
) -> Tokens {
    Tokens {
        home: place.home,
        host: host_of(values, alias),
        alias,
        user: first_value(values, "user"@),
        port,
    }
}

/// The identity file, and what blocks on its account.
pub open spec fn identity_part(values: Map<Seq<char>, Seq<Seq<char>>>, t: Tokens) -> Result<
    (Option<Seq<char>>, Seq<Seq<char>>),
    Error,
> {
    match first_value(values, "identityfile"@) {
        None => Ok((None, seq![])),
        Some(value) => if value_count(values, "identityfile"@) > 1 {
            Ok((None, seq!["multiple IdentityFile entries"@]))
        } else if value == "none"@ {
            Ok((None, seq!["IdentityFile none"@]))
        } else {
            match path_of(value, t) {
                Ok(path) => Ok((Some(path), seq![])),
                Err(error) => Err(error),
            }
        },
    }
}

/// The paths among values, apart from `none` and from what is no path here.
pub open spec fn paths_of(given: Seq<Seq<char>>, t: Tokens) -> Seq<Seq<char>>
    decreases given.len(),
{
    if given.len() == 0 {
        seq![]
    } else if given.last() == "none"@ {
        paths_of(given.drop_last(), t)
    } else {
        match path_of(given.last(), t) {
            Ok(path) => paths_of(given.drop_last(), t).push(path),
            Err(_) => paths_of(given.drop_last(), t),
        }
    }
}

/// Every identity file that the configuration names, in order. More than one is
/// a blocker, and still shown.
pub open spec fn named_files(values: Map<Seq<char>, Seq<Seq<char>>>, t: Tokens) -> Seq<Seq<char>> {
    if values.contains_key("identityfile"@) {
        paths_of(values["identityfile"@], t)
    } else {
        seq![]
    }
}

/// The known-hosts file, and what blocks on its account.
pub open spec fn known_hosts_part(values: Map<Seq<char>, Seq<Seq<char>>>, t: Tokens) -> Result<
    (Option<Seq<char>>, Seq<Seq<char>>),
    Error,
> {
    match first_value(values, "userknownhostsfile"@) {
        None => Ok((None, seq![])),
        Some(value) => if value_count(values, "userknownhostsfile"@) != 1 || value == "none"@ {
            Ok((None, seq!["multiple/disabled UserKnownHostsFile"@]))
        } else {
            match path_of(value, t) {
                Ok(path) => Ok((Some(path), seq![])),
                Err(error) => Err(error),
            }
        },
    }
}

/// Settings that change routing, authentication or trust, each with the value
/// that changes nothing.
pub open spec fn policies() -> Seq<(Seq<char>, Seq<char>)> {
    seq![
        ("proxycommand"@, "none"@),
        ("certificatefile"@, "none"@),
        ("identityagent"@, "SSH_AUTH_SOCK"@),
        ("hostkeyalias"@, ""@),
        ("globalknownhostsfile"@, "none"@),
        ("canonicalizehostname"@, "no"@),
        ("bindaddress"@, ""@),
        ("bindinterface"@, ""@),
        ("hostkeyalgorithms"@, ""@),
        ("pubkeyacceptedalgorithms"@, ""@),
        ("kexalgorithms"@, ""@),
        ("ciphers"@, ""@),
        ("macs"@, ""@),
        ("revokedhostkeys"@, "none"@),
        ("requiredrsasize"@, ""@),
    ]
}

pub open spec fn policy_set(
    values: Map<Seq<char>, Seq<Seq<char>>>,
    policy: (Seq<char>, Seq<char>),
) -> bool {
    first_value(values, policy.0) matches Some(value) && value != policy.1
}

/// The names of the first so many policies that are set.
pub open spec fn policy_blockers(values: Map<Seq<char>, Seq<Seq<char>>>, n: nat) -> Seq<Seq<char>>
    decreases n,
{
    if n == 0 {
        seq![]
    } else {
        let before = policy_blockers(values, (n - 1) as nat);
        if policy_set(values, policies()[n - 1]) {
            before.push(policies()[n - 1].0)
        } else {
            before
        }
    }
}

/// What blocks behind the routing.
pub open spec fn late_blockers(
    values: Map<Seq<char>, Seq<Seq<char>>>,
    match_seen: bool,
    place: Place,
    identity: Option<Seq<char>>,
) -> Seq<Seq<char>> {
    policy_blockers(values, policies().len()) + (if is_word(
        first_value(values, "identitiesonly"@),
        "yes"@,
    ) && identity is None && !place.has_default {
        seq!["IdentitiesOnly without an explicit IdentityFile"@]
    } else {
        seq![]
    }) + (if is_word(first_value(values, "pubkeyauthentication"@), "no"@) {
        seq!["PubkeyAuthentication no"@]
    } else {
        seq![]
    }) + (match first_value(values, "preferredauthentications"@) {
        Some(value) => if pieces(value, ',').contains("publickey"@) {
            seq![]
        } else {
            seq!["PreferredAuthentications excludes publickey"@]
        },
        None => seq![],
    }) + (if match_seen {
        seq!["Match conditions (not evaluated or executed)"@]
    } else {
        seq![]
    })
}

/// A profile apart from its routing, split at the place where routing reports.
pub struct Parts {
    pub profile: Resolved,
    pub late: Seq<Seq<char>>,
}

pub open spec fn read_parts(
    ev: Eval,
    place: Place,
    alias: Seq<char>,
) -> Result<Parts, Error> {
    if !valid_alias(alias) {
        Err(Error::Alias)
    } else if host_of(ev.values, alias).contains('%') {
        Err(Error::HostToken)
    } else {
        match port_of(ev.values) {
            Err(error) => Err(error),
            Ok(port) => match identity_part(
                ev.values,
                tokens_of(ev.values, place, alias, port),
            ) {
                Err(error) => Err(error),
                Ok((identity, early)) => match known_hosts_part(
                    ev.values,
                    tokens_of(ev.values, place, alias, port),
                ) {
                    Err(error) => Err(error),
                    Ok((known_hosts, more)) => Ok(
                        Parts {
                            profile: Resolved {
                                host: host_of(ev.values, alias),
                                user: first_value(ev.values, "user"@),
                                port,
                                identity,
                                identities: named_files(
                                    ev.values,
                                    tokens_of(ev.values, place, alias, port),
                                ),
                                known_hosts,
                                host_key_alias: first_value(ev.values, "hostkeyalias"@),
                                identities_only: is_word(
                                    first_value(ev.values, "identitiesonly"@),
                                    "yes"@,
                                ),
                                jumps: seq![],
                                unsupported: early + more,
                            },
                            late: late_blockers(ev.values, ev.match_seen, place, identity),
                        },
                    ),
                },
            },
        }
    }
}

/// The jump setting, unless there is none or it says `none`.
pub open spec fn jump_value(values: Map<Seq<char>, Seq<Seq<char>>>) -> Option<Seq<char>> {
    match first_value(values, "proxyjump"@) {
        Some(value) => if lower_text(value) == "none"@ {
            None
        } else {
            Some(value)
        },
        None => None,
    }
}

pub open spec fn with_routing(
    parts: Parts,
    jumps: Seq<Resolved>,
    blockers: Seq<Seq<char>>,
) -> Resolved {
    Resolved {
        jumps,
        unsupported: parts.profile.unsupported + blockers + parts.late,
        ..parts.profile
    }
}

/// A host that is reached through no further host. A hop that jumps again is
/// reported rather than followed.
pub open spec fn resolved_flat(v: Seq<Line>, place: Place, alias: Seq<char>) -> Result<
    Resolved,
    Error,
> {
    let ev = evaluated(v, true, alias, nothing_set());
    match read_parts(ev, place, alias) {
        Err(error) => Err(error),
        Ok(parts) => Ok(
            with_routing(
                parts,
                seq![],
                if jump_value(ev.values) is None {
                    seq![]
                } else if value_count(ev.values, "proxyjump"@) != 1 {
                    seq!["ProxyJump with extra arguments"@]
                } else {
                    seq!["nested ProxyJump"@]
                },
            ),
        ),
    }
}

/// Texts with a comma between them.
pub open spec fn comma_joined(v: Seq<Seq<char>>) -> Seq<char>
    decreases v.len(),
{
    if v.len() == 0 {
        seq![]
    } else if v.len() == 1 {
        v[0]
    } else {
        comma_joined(v.drop_last()) + ", "@ + v.last()
    }
}

/// A hop's own settings, under the user and port that were written for it.
pub open spec fn as_written(hop: Resolved, written: Written) -> Resolved {
    Resolved {
        user: if written.user is Some {
            written.user
        } else {
            hop.user
        },
        port: if written.port is Some {
            written.port
        } else {
            hop.port
        },
        ..hop
    }
}

/// One hop of a chain, or why the chain cannot be carried out.
pub open spec fn resolved_hop(v: Seq<Line>, place: Place, given: Seq<char>) -> Result<
    Resolved,
    Seq<char>,
> {
    match read_hop(given) {
        Err(error) => Err(hop_error_text(error)),
        Ok(written) => match resolved_flat(v, place, written.host) {
            Err(error) => Err(error_text(error)),
            Ok(hop) => if hop.unsupported.len() > 0 {
                Err(
                    "hop "@ + written.host + " uses unsupported policy: "@ + comma_joined(
                        hop.unsupported,
                    ),
                )
            } else {
                Ok(as_written(hop, written))
            },
        },
    }
}

pub open spec fn resolved_hops(v: Seq<Line>, place: Place, specs: Seq<Seq<char>>) -> Result<
    Seq<Resolved>,
    Seq<char>,
>
    decreases specs.len(),
{
    if specs.len() == 0 {
        Ok(seq![])
    } else {
        match resolved_hops(v, place, specs.drop_last()) {
            Err(text) => Err(text),
            Ok(done) => match resolved_hop(v, place, specs.last()) {
                Err(text) => Err(text),
                Ok(hop) => Ok(done.push(hop)),
            },
        }
    }
}

/// The hops that a jump setting names, in order.
pub open spec fn resolved_jumps(v: Seq<Line>, place: Place, value: Seq<char>) -> Result<
    Seq<Resolved>,
    Seq<char>,
> {
    if pieces(value, ',').len() > MAX_JUMPS {
        Err("more than 4 hops"@)
    } else {
        resolved_hops(v, place, pieces(value, ','))
    }
}

/// A host with its hops.
pub open spec fn resolved(v: Seq<Line>, place: Place, alias: Seq<char>) -> Result<Resolved, Error> {
    let ev = evaluated(v, true, alias, nothing_set());
    match read_parts(ev, place, alias) {
        Err(error) => Err(error),
        Ok(parts) => Ok(
            match jump_value(ev.values) {
                None => with_routing(parts, seq![], seq![]),
                Some(value) => if value_count(ev.values, "proxyjump"@) != 1 {
                    with_routing(parts, seq![], seq!["ProxyJump with extra arguments"@])
                } else {
                    match resolved_jumps(v, place, value) {
                        Ok(jumps) => with_routing(parts, jumps, seq![]),
                        Err(text) => with_routing(
                            parts,
                            seq![],
                            seq!["ProxyJump ("@ + text + ")"@],
                        ),
                    }
                },
            },
        ),
    }
}

fn get_first(list: &Vec<Setting>, key: &str, values: Ghost<Map<Seq<char>, Seq<Seq<char>>>>) -> (r:
    Option<String>)
    requires
        holds(list@, values@),
    ensures
        opt_text(r) == first_value(values@, key@),
{
    match find_setting(list, key) {
        Some(i) => {
            assert(texts(list@[i as int].values@).len() == list@[i as int].values@.len());
            if list[i].values.len() == 0 {
                None
            } else {
                Some(list[i].values[0].clone())
            }
        },
        None => None,
    }
}

fn get_count(list: &Vec<Setting>, key: &str, values: Ghost<Map<Seq<char>, Seq<Seq<char>>>>) -> (r:
    usize)
    requires
        holds(list@, values@),
    ensures
        r == value_count(values@, key@),
{
    match find_setting(list, key) {
        Some(i) => {
            assert(texts(list@[i as int].values@).len() == list@[i as int].values@.len());
            list[i].values.len()
        },
        None => 0,
    }
}

fn is_lower_word(value: &Option<String>, word: &str) -> (r: bool)
    ensures
        r == is_word(opt_text(*value), word@),
{
    match value {
        Some(text) => {
            let chars = chars_of(text.as_str());
            let low = to_lower(chars.as_slice());
            is_text(low.as_slice(), word)
        },
        None => false,
    }
}

fn read_identity(
    list: &Vec<Setting>,
    home: &str,
    alias: &str,
    host: &str,
    user: &Option<String>,
    port: Option<u16>,
    unsupported: &mut Vec<String>,
    values: Ghost<Map<Seq<char>, Seq<Seq<char>>>>,
) -> (r: Result<Option<String>, Error>)
    requires
        holds(list@, values@),
    ensures
        match identity_part(
            values@,
            Tokens { home: home@, host: host@, alias: alias@, user: opt_text(*user), port },
        ) {
            Err(error) => r == Err::<Option<String>, Error>(error),
            Ok((identity, blockers)) => r matches Ok(path) && opt_text(path) == identity && texts(
                final(unsupported)@,
            ) == texts(old(unsupported)@) + blockers,
        },
{
    let ghost start = texts(unsupported@);
    assert(start + Seq::<Seq<char>>::empty() =~= start);
    match get_first(list, "identityfile", values) {
        None => Ok(None),
        Some(value) => {
            if get_count(list, "identityfile", values) > 1 {
                push_text(unsupported, "multiple IdentityFile entries".to_owned());
                assert(texts(unsupported@) =~= start + seq!["multiple IdentityFile entries"@]);
                return Ok(None);
            }
            if same_str(value.as_str(), "none") {
                push_text(unsupported, "IdentityFile none".to_owned());
                assert(texts(unsupported@) =~= start + seq!["IdentityFile none"@]);
                return Ok(None);
            }
            match expand_path(value.as_str(), home, alias, host, user, port) {
                Ok(path) => Ok(Some(path)),
                Err(error) => Err(error),
            }
        },
    }
}

fn read_files(
    list: &Vec<Setting>,
    home: &str,
    alias: &str,
    host: &str,
    user: &Option<String>,
    port: Option<u16>,
    values: Ghost<Map<Seq<char>, Seq<Seq<char>>>>,
) -> (r: Vec<String>)
    requires
        holds(list@, values@),
    ensures
        texts(r@) == named_files(
            values@,
            Tokens { home: home@, host: host@, alias: alias@, user: opt_text(*user), port },
        ),
{
    let ghost t = Tokens { home: home@, host: host@, alias: alias@, user: opt_text(*user), port };
    let mut out: Vec<String> = Vec::new();
    assert(texts(out@) =~= Seq::<Seq<char>>::empty());
    match find_setting(list, "identityfile") {
        None => out,
        Some(k) => {
            let given = &list[k].values;
            let ghost all = texts(given@);
            let mut i: usize = 0;
            assert(all.take(0) =~= Seq::<Seq<char>>::empty());
            while i < given.len()
                invariant
                    i <= given@.len(),
                    all == texts(given@),
                    t == (Tokens {
                        home: home@,
                        host: host@,
                        alias: alias@,
                        user: opt_text(*user),
                        port,
                    }),
                    texts(out@) == paths_of(all.take(i as int), t),
                decreases given@.len() - i,
            {
                proof {
                    assert(all.take(i + 1).drop_last() =~= all.take(i as int));
                }
                let value = given[i].as_str();
                if !same_str(value, "none") {
                    if let Ok(path) = expand_path(value, home, alias, host, user, port) {
                        push_text(&mut out, path);
                    }
                }
                i += 1;
            }
            assert(all.take(i as int) =~= all);
            out
        },
    }
}

fn read_known_hosts(
    list: &Vec<Setting>,
    home: &str,
    alias: &str,
    host: &str,
    user: &Option<String>,
    port: Option<u16>,
    unsupported: &mut Vec<String>,
    values: Ghost<Map<Seq<char>, Seq<Seq<char>>>>,
) -> (r: Result<Option<String>, Error>)
    requires
        holds(list@, values@),
    ensures
        match known_hosts_part(
            values@,
            Tokens { home: home@, host: host@, alias: alias@, user: opt_text(*user), port },
        ) {
            Err(error) => r == Err::<Option<String>, Error>(error),
            Ok((known_hosts, blockers)) => r matches Ok(path) && opt_text(path) == known_hosts
                && texts(final(unsupported)@) == texts(old(unsupported)@) + blockers,
        },
{
    let ghost start = texts(unsupported@);
    assert(start + Seq::<Seq<char>>::empty() =~= start);
    match get_first(list, "userknownhostsfile", values) {
        None => Ok(None),
        Some(value) => {
            if get_count(list, "userknownhostsfile", values) != 1 || same_str(
                value.as_str(),
                "none",
            ) {
                push_text(unsupported, "multiple/disabled UserKnownHostsFile".to_owned());
                assert(texts(unsupported@) =~= start + seq![
                    "multiple/disabled UserKnownHostsFile"@,
                ]);
                return Ok(None);
            }
            match expand_path(value.as_str(), home, alias, host, user, port) {
                Ok(path) => Ok(Some(path)),
                Err(error) => Err(error),
            }
        },
    }
}

fn policy(n: usize) -> (r: (&'static str, &'static str))
    requires
        n < 15,
    ensures
        (r.0@, r.1@) == policies()[n as int],
        policies().len() == 15,
{
    if n == 0 {
        ("proxycommand", "none")
    } else if n == 1 {
        ("certificatefile", "none")
    } else if n == 2 {
        ("identityagent", "SSH_AUTH_SOCK")
    } else if n == 3 {
        ("hostkeyalias", "")
    } else if n == 4 {
        ("globalknownhostsfile", "none")
    } else if n == 5 {
        ("canonicalizehostname", "no")
    } else if n == 6 {
        ("bindaddress", "")
    } else if n == 7 {
        ("bindinterface", "")
    } else if n == 8 {
        ("hostkeyalgorithms", "")
    } else if n == 9 {
        ("pubkeyacceptedalgorithms", "")
    } else if n == 10 {
        ("kexalgorithms", "")
    } else if n == 11 {
        ("ciphers", "")
    } else if n == 12 {
        ("macs", "")
    } else if n == 13 {
        ("revokedhostkeys", "none")
    } else {
        ("requiredrsasize", "")
    }
}

fn read_late(
    list: &Vec<Setting>,
    match_seen: bool,
    has_default: bool,
    no_identity: bool,
    values: Ghost<Map<Seq<char>, Seq<Seq<char>>>>,
    place: Ghost<Place>,
    identity: Ghost<Option<Seq<char>>>,
) -> (r: Vec<String>)
    requires
        holds(list@, values@),
        has_default == place@.has_default,
        no_identity == (identity@ is None),
    ensures
        texts(r@) == late_blockers(values@, match_seen, place@, identity@),
{
    let mut out: Vec<String> = Vec::new();
    let mut n: usize = 0;
    assert(texts(out@) =~= policy_blockers(values@, 0));
    while n < 15
        invariant
            n <= 15,
            holds(list@, values@),
            texts(out@) == policy_blockers(values@, n as nat),
        decreases 15 - n,
    {
        let (name, neutral) = policy(n);
        if let Some(value) = get_first(list, name, values) {
            if !same_str(value.as_str(), neutral) {
                push_text(&mut out, name.to_owned());
            }
        }
        n += 1;
    }
    assert(policies().len() == 15);
    let ghost a = texts(out@);
    if is_lower_word(&get_first(list, "identitiesonly", values), "yes") && no_identity
        && !has_default {
        push_text(&mut out, "IdentitiesOnly without an explicit IdentityFile".to_owned());
    }
    let ghost b = texts(out@);
    if is_lower_word(&get_first(list, "pubkeyauthentication", values), "no") {
        push_text(&mut out, "PubkeyAuthentication no".to_owned());
    }
    if let Some(value) = get_first(list, "preferredauthentications", values) {
        let chars = chars_of(value.as_str());
        let methods = split_on(chars.as_slice(), ',');
        if !contains_row(&methods, "publickey") {
            push_text(&mut out, "PreferredAuthentications excludes publickey".to_owned());
        }
    }
    if match_seen {
        push_text(&mut out, "Match conditions (not evaluated or executed)".to_owned());
    }
    assert(texts(out@) =~= late_blockers(values@, match_seen, place@, identity@));
    out
}

fn contains_row(fields: &Vec<Vec<char>>, text: &str) -> (r: bool)
    ensures
        r == rows(fields@).contains(text@),
{
    let mut i: usize = 0;
    while i < fields.len()
        invariant
            i <= fields@.len(),
            forall|j: int| 0 <= j < i ==> (#[trigger] fields@[j])@ != text@,
        decreases fields@.len() - i,
    {
        if is_text(fields[i].as_slice(), text) {
            assert(rows(fields@)[i as int] == text@);
            return true;
        }
        i += 1;
    }
    proof {
        if rows(fields@).contains(text@) {
            let k = choose|k: int| 0 <= k < rows(fields@).len() && rows(fields@)[k] == text@;
            assert(fields@[k]@ == text@);
        }
    }
    false
}

struct Draft {
    profile: Profile,
    late: Vec<String>,
    jump: Option<String>,
    jump_count: usize,
}

/// The parts of a profile, with the jump setting that is still to be followed.
fn read_draft(v: &Vec<Line>, home: &str, has_default: bool, alias: &str) -> (r: Result<Draft, Error>)
    ensures
        ({
            let ev = evaluated(v@, true, alias@, nothing_set());
            match read_parts(ev, Place { home: home@, has_default }, alias@) {
                Err(error) => r == Err::<Draft, Error>(error),
                Ok(parts) => {
                    &&& r matches Ok(draft)
                    &&& profile_view(draft.profile) == parts.profile
                    &&& texts(draft.late@) == parts.late
                    &&& opt_text(draft.jump) == jump_value(ev.values)
                    &&& draft.jump_count == value_count(ev.values, "proxyjump"@)
                },
            }
        }),
{
    let ghost place = Place { home: home@, has_default };
    let name = chars_of(alias);
    if name.len() == 0 || byte_len(alias) > 255 || any_control(name.as_slice()) {
        return Err(Error::Alias);
    }
    let mut list: Vec<Setting> = Vec::new();
    let mut match_seen = false;
    evaluate(v, alias, &mut list, &mut match_seen, Ghost(nothing_set()));
    let ghost ev = evaluated(v@, true, alias@, nothing_set());
    let ghost values = ev.values;
    let host = match get_first(&list, "hostname", Ghost(values)) {
        Some(text) => {
            let once = replaced_token(text.as_str(), 'h', alias);
            replaced_token(once.as_str(), 'n', alias)
        },
        None => alias.to_owned(),
    };
    let host_chars = chars_of(host.as_str());
    if contains_char(host_chars.as_slice(), '%') {
        return Err(Error::HostToken);
    }
    let user = get_first(&list, "user", Ghost(values));
    let port: Option<u16> = match get_first(&list, "port", Ghost(values)) {
        Some(text) => {
            let digits = chars_of(text.as_str());
            match parse_number(digits.as_slice(), u16::MAX as u64) {
                Ok(n) => Some(n as u16),
                Err(error) => return Err(Error::Port(error)),
            }
        },
        None => None,
    };
    let identities_only = is_lower_word(
        &get_first(&list, "identitiesonly", Ghost(values)),
        "yes",
    );
    let host_key_alias = get_first(&list, "hostkeyalias", Ghost(values));
    let mut unsupported: Vec<String> = Vec::new();
    assert(texts(unsupported@) =~= Seq::<Seq<char>>::empty());
    assert(tokens_of(values, place, alias@, port) == (Tokens {
        home: home@,
        host: host@,
        alias: alias@,
        user: opt_text(user),
        port,
    }));
    let identity = read_identity(
        &list,
        home,
        alias,
        host.as_str(),
        &user,
        port,
        &mut unsupported,
        Ghost(values),
    )?;
    let known_hosts = read_known_hosts(
        &list,
        home,
        alias,
        host.as_str(),
        &user,
        port,
        &mut unsupported,
        Ghost(values),
    )?;
    let late = read_late(
        &list,
        match_seen,
        has_default,
        identity.is_none(),
        Ghost(values),
        Ghost(place),
        Ghost(opt_text(identity)),
    );
    let jump = get_first(&list, "proxyjump", Ghost(values));
    let jump = if is_lower_word(&jump, "none") {
        None
    } else {
        jump
    };
    let jump_count = get_count(&list, "proxyjump", Ghost(values));
    let identities = read_files(&list, home, alias, host.as_str(), &user, port, Ghost(values));
    let profile = Profile {
        host,
        user,
        port,
        identity,
        identities,
        known_hosts,
        host_key_alias,
        identities_only,
        jumps: Vec::new(),
        unsupported,
    };
    proof {
        let parts = read_parts(ev, place, alias@)->Ok_0;
        assert(profile_view(profile).unsupported =~= parts.profile.unsupported);
        assert(profile_views(profile.jumps@) =~= Seq::<Resolved>::empty());
    }
    Ok(Draft { profile, late, jump, jump_count })
}

fn finished(draft: Draft, jumps: Vec<Profile>, blocker: Option<String>) -> (r: Profile)
    ensures
        profile_view(r) == with_routing(
            Parts { profile: profile_view(draft.profile), late: texts(draft.late@) },
            profile_views(jumps@),
            listed(opt_text(blocker)),
        ),
{
    let mut profile = draft.profile;
    let ghost start = texts(profile.unsupported@);
    profile.jumps = jumps;
    let ghost middle = listed(opt_text(blocker));
    if let Some(text) = blocker {
        push_text(&mut profile.unsupported, text);
    }
    assert(texts(profile.unsupported@) =~= start + middle);
    append_texts(&mut profile.unsupported, &draft.late);
    profile
}

fn resolve_flat(v: &Vec<Line>, home: &str, has_default: bool, alias: &str) -> (r: Result<
    Profile,
    Error,
>)
    ensures
        match resolved_flat(v@, Place { home: home@, has_default }, alias@) {
            Err(error) => r == Err::<Profile, Error>(error),
            Ok(profile) => r matches Ok(p) && profile_view(p) == profile,
        },
{
    let draft = read_draft(v, home, has_default, alias)?;
    let blocker = if draft.jump.is_none() {
        None
    } else if draft.jump_count != 1 {
        Some("ProxyJump with extra arguments".to_owned())
    } else {
        Some("nested ProxyJump".to_owned())
    };
    let jumps: Vec<Profile> = Vec::new();
    assert(profile_views(jumps@) =~= Seq::<Resolved>::empty());
    Ok(finished(draft, jumps, blocker))
}

fn join_commas(v: &Vec<String>) -> (r: String)
    ensures
        r@ == comma_joined(texts(v@)),
{
    let ghost all = texts(v@);
    let mut out = String::new();
    let mut i: usize = 0;
    assert(all.take(0) =~= Seq::<Seq<char>>::empty());
    while i < v.len()
        invariant
            i <= v@.len(),
            all == texts(v@),
            out@ == comma_joined(all.take(i as int)),
        decreases v@.len() - i,
    {
        if i > 0 {
            out.append(", ");
        }
        out.append(v[i].as_str());
        i += 1;
        proof {
            assert(all.take(i as int).drop_last() =~= all.take(i - 1));
            assert(all.take(i as int).last() == v@[i - 1]@);
            assert(out@ =~= comma_joined(all.take(i as int)));
        }
    }
    assert(all.take(i as int) =~= all);
    out
}

fn resolve_hop(v: &Vec<Line>, home: &str, has_default: bool, given: &str) -> (r: Result<
    Profile,
    String,
>)
    ensures
        match resolved_hop(v@, Place { home: home@, has_default }, given@) {
            Err(text) => r matches Err(t) && t@ == text,
            Ok(profile) => r matches Ok(p) && profile_view(p) == profile,
        },
{
    let written = match parse_hop(given) {
        Ok(written) => written,
        Err(error) => return Err(error.message().to_owned()),
    };
    let mut hop = match resolve_flat(v, home, has_default, written.host.as_str()) {
        Ok(hop) => hop,
        Err(error) => return Err(error.message().to_owned()),
    };
    assert(texts(hop.unsupported@).len() == hop.unsupported@.len());
    if hop.unsupported.len() > 0 {
        let mut text = String::new();
        text.append("hop ");
        text.append(written.host.as_str());
        text.append(" uses unsupported policy: ");
        let list = join_commas(&hop.unsupported);
        text.append(list.as_str());
        return Err(text);
    }
    if written.user.is_some() {
        hop.user = written.user;
    }
    if written.port.is_some() {
        hop.port = written.port;
    }
    Ok(hop)
}

proof fn hops_prefix(v: Seq<Line>, place: Place, specs: Seq<Seq<char>>, n: int)
    requires
        0 <= n <= specs.len(),
    ensures
        resolved_hops(v, place, specs.take(n)) is Err ==> resolved_hops(v, place, specs)
            == resolved_hops(v, place, specs.take(n)),
    decreases specs.len() - n,
{
    if n == specs.len() {
        assert(specs.take(n) =~= specs);
    } else {
        hops_prefix(v, place, specs, n + 1);
        assert(specs.take(n + 1).drop_last() =~= specs.take(n));
    }
}

fn resolve_jumps(v: &Vec<Line>, home: &str, has_default: bool, value: &str) -> (r: Result<
    Vec<Profile>,
    String,
>)
    ensures
        match resolved_jumps(v@, Place { home: home@, has_default }, value@) {
            Err(text) => r matches Err(t) && t@ == text,
            Ok(jumps) => r matches Ok(p) && profile_views(p@) == jumps && p@.len() == jumps.len(),
        },
{
    let ghost place = Place { home: home@, has_default };
    let chars = chars_of(value);
    let specs = split_on(chars.as_slice(), ',');
    let ghost all = rows(specs@);
    if specs.len() > MAX_JUMPS {
        return Err("more than 4 hops".to_owned());
    }
    let mut jumps: Vec<Profile> = Vec::new();
    let mut i: usize = 0;
    assert(all.take(0) =~= Seq::<Seq<char>>::empty());
    assert(profile_views(jumps@) =~= Seq::<Resolved>::empty());
    while i < specs.len()
        invariant
            i <= specs@.len() <= MAX_JUMPS,
            all == rows(specs@),
            all == pieces(value@, ','),
            place == (Place { home: home@, has_default }),
            jumps@.len() == i,
            resolved_hops(v@, place, all.take(i as int)) == Ok::<Seq<Resolved>, Seq<char>>(
                profile_views(jumps@),
            ),
        decreases specs@.len() - i,
    {
        let ghost head = all.take(i + 1);
        proof {
            assert(head.drop_last() =~= all.take(i as int));
            assert(head.last() == specs@[i as int]@);
            hops_prefix(v@, place, all, i + 1);
        }
        let text = string_of(specs[i].as_slice());
        let hop = match resolve_hop(v, home, has_default, text.as_str()) {
            Ok(hop) => hop,
            Err(error) => return Err(error),
        };
        let ghost before = jumps@;
        jumps.push(hop);
        assert(jumps@.drop_last() =~= before);
        i += 1;
    }
    proof {
        assert(all.take(i as int) =~= all);
        views_len(jumps@);
    }
    Ok(jumps)
}

proof fn views_len(v: Seq<Profile>)
    ensures
        profile_views(v).len() == v.len(),
    decreases v.len(),
{
    if v.len() > 0 {
        views_len(v.drop_last());
    }
}

/// A name without wildcards.
pub open spec fn literal_name(name: Seq<char>) -> bool {
    name.len() > 0 && !name.contains('*') && !name.contains('?') && !name.contains('!')
}

/// Some `Host` line names this host literally.
pub open spec fn named_host(v: Seq<Line>, name: Seq<char>) -> bool
    decreases v,
{
    if v.len() == 0 {
        false
    } else {
        (v[0].keyword@ == "host"@ && texts(v[0].values@).contains(name) && literal_name(name))
            || named_host(v[0].included@, name) || named_host(v.drop_first(), name)
    }
}

fn collect_names(values: &Vec<String>, names: &mut Vec<String>)
    requires
        ordered_texts(texts(old(names)@)),
    ensures
        ordered_texts(texts(final(names)@)),
        forall|t: Seq<char>|
            #[trigger] texts(final(names)@).contains(t) <==> texts(old(names)@).contains(t) || (
            texts(values@).contains(t) && literal_name(t)),
{
    let ghost before = texts(names@);
    let ghost all = texts(values@);
    let mut i: usize = 0;
    while i < values.len()
        invariant
            i <= values@.len(),
            all == texts(values@),
            ordered_texts(texts(names@)),
            before == texts(old(names)@),
            forall|t: Seq<char>|
                #[trigger] texts(names@).contains(t) <==> before.contains(t) || (all.take(
                    i as int,
                ).contains(t) && literal_name(t)),
        decreases values@.len() - i,
    {
        let name = chars_of(values[i].as_str());
        assert(all[i as int] == name@);
        let ghost now = texts(names@);
        if name.len() > 0 && !contains_char(name.as_slice(), '*') && !contains_char(
            name.as_slice(),
            '?',
        ) && !contains_char(name.as_slice(), '!') {
            insert_text(names, values[i].as_str());
        }
        i += 1;
        proof {
            let head = all.take(i as int);
            let seen = all.take(i - 1);
            assert forall|t: Seq<char>| #[trigger] texts(names@).contains(t) <==> before.contains(t)
                || (head.contains(t) && literal_name(t)) by {
                assert(now.contains(t) <==> before.contains(t) || (seen.contains(t)
                    && literal_name(t)));
                if head.contains(t) {
                    let k = choose|k: int| 0 <= k < head.len() && head[k] == t;
                    if k < i - 1 {
                        assert(seen[k] == t);
                    }
                }
                if seen.contains(t) {
                    let k = choose|k: int| 0 <= k < seen.len() && seen[k] == t;
                    assert(head[k] == t);
                }
                assert(head[i - 1] == name@);
            }
        }
    }
    assert(all.take(i as int) =~= all);
}

fn collect_aliases(v: &Vec<Line>, names: &mut Vec<String>)
    requires
        ordered_texts(texts(old(names)@)),
    ensures
        ordered_texts(texts(final(names)@)),
        forall|t: Seq<char>|
            #[trigger] texts(final(names)@).contains(t) <==> texts(old(names)@).contains(t)
                || named_host(v@, t),
    decreases v,
{
    let ghost before = texts(names@);
    let mut i: usize = 0;
    assert(v@.skip(0) =~= v@);
    while i < v.len()
        invariant
            i <= v@.len(),
            before == texts(old(names)@),
            ordered_texts(texts(names@)),
            forall|t: Seq<char>|
                #[trigger] collected(texts(names@), v@.skip(i as int), before, v@, t),
        decreases v@.len() - i,
    {
        let line = &v[i];
        let ghost rest = v@.skip(i as int);
        let ghost now = texts(names@);
        if same_str(line.keyword.as_str(), "host") {
            collect_names(&line.values, names);
        }
        let ghost mid = texts(names@);
        assert(decreases_to!(v => v@));
        assert(decreases_to!(v@ => v@[i as int]));
        collect_aliases(&line.included, names);
        i += 1;
        proof {
            assert(rest[0] == *line);
            assert(rest.drop_first() =~= v@.skip(i as int));
            assert forall|t: Seq<char>| #[trigger] collected(
                texts(names@),
                v@.skip(i as int),
                before,
                v@,
                t,
            ) by {
                assert(named_host(rest, t) == ((line.keyword@ == "host"@ && texts(
                    line.values@,
                ).contains(t) && literal_name(t)) || named_host(line.included@, t) || named_host(
                    v@.skip(i as int),
                    t,
                )));
                assert(collected(now, rest, before, v@, t));
                assert(texts(names@).contains(t) <==> mid.contains(t) || named_host(
                    line.included@,
                    t,
                ));
                if line.keyword@ == "host"@ {
                    assert(mid.contains(t) <==> now.contains(t) || (texts(line.values@).contains(t)
                        && literal_name(t)));
                }
            }
        }
    }
    assert(v@.skip(i as int) =~= Seq::<Line>::empty());
    proof {
        assert forall|t: Seq<char>| #[trigger] texts(names@).contains(t) <==> before.contains(t)
            || named_host(v@, t) by {
            assert(collected(texts(names@), v@.skip(i as int), before, v@, t));
        }
    }
}

/// The names so far and those of the rest are those of before and of all lines.
spec fn collected(
    names: Seq<Seq<char>>,
    rest: Seq<Line>,
    before: Seq<Seq<char>>,
    all: Seq<Line>,
    t: Seq<char>,
) -> bool {
    (names.contains(t) || named_host(rest, t)) == (before.contains(t) || named_host(all, t))
}

/// A configuration and what it is read against.
#[derive(Debug)]
pub struct Config {
    lines: Vec<Line>,
    aliases: Vec<String>,
    home: String,
    default_identities: Vec<String>,
}

impl Config {
    pub closed spec fn spec_lines(self) -> Seq<Line> {
        self.lines@
    }

    pub closed spec fn spec_aliases(self) -> Seq<Seq<char>> {
        texts(self.aliases@)
    }

    pub closed spec fn spec_defaults(self) -> Seq<Seq<char>> {
        texts(self.default_identities@)
    }

    pub closed spec fn spec_home(self) -> Seq<char> {
        self.home@
    }

    pub open spec fn place(self) -> Place {
        Place { home: self.spec_home(), has_default: self.spec_defaults().len() > 0 }
    }

    /// The aliases are exactly the literally named hosts, in order.
    pub open spec fn wf(self) -> bool {
        &&& ordered_texts(self.spec_aliases())
        &&& forall|t: Seq<char>|
            #[trigger] self.spec_aliases().contains(t) <==> named_host(self.spec_lines(), t)
    }

    /// A configuration from its lines, the user's home, and the default identity
    /// files that exist.
    pub fn new(lines: Vec<Line>, home: String, default_identities: Vec<String>) -> (r: Self)
        ensures
            r.wf(),
            r.spec_lines() == lines@,
            r.spec_home() == home@,
            r.spec_defaults() == texts(default_identities@),
    {
        let mut aliases: Vec<String> = Vec::new();
        assert(texts(aliases@) =~= Seq::<Seq<char>>::empty());
        collect_aliases(&lines, &mut aliases);
        Config { lines, aliases, home, default_identities }
    }

    /// The literally named hosts, in order, each once.
    pub fn aliases(&self) -> (r: &[String])
        ensures
            texts(r@) == self.spec_aliases(),
    {
        self.aliases.as_slice()
    }

    /// The first default identity file that exists.
    pub fn default_identity(&self) -> (r: Option<String>)
        ensures
            opt_text(r) == if self.spec_defaults().len() > 0 {
                Some(self.spec_defaults()[0])
            } else {
                None
            },
    {
        assert(texts(self.default_identities@).len() == self.default_identities@.len());
        if self.default_identities.len() == 0 {
            None
        } else {
            Some(self.default_identities[0].clone())
        }
    }

    /// Every default identity file that exists, in order.
    pub fn default_identities(&self) -> (r: Vec<String>)
        ensures
            texts(r@) == self.spec_defaults(),
    {
        copy_texts(&self.default_identities)
    }

    /// How to reach a host. Hops are resolved as the host itself is, so that an
    /// alias hop gets its own settings; a chain that cannot be carried out
    /// exactly is reported as a blocker.
    pub fn resolve(&self, alias: &str) -> (r: Result<Profile, Error>)
        ensures
            match resolved(self.spec_lines(), self.place(), alias@) {
                Err(error) => r == Err::<Profile, Error>(error),
                Ok(profile) => r matches Ok(p) && profile_view(p) == profile,
            },
    {
        let has_default = self.default_identities.len() > 0;
        let home = self.home.as_str();
        assert(self.place() == Place { home: home@, has_default });
        let draft = read_draft(&self.lines, home, has_default, alias)?;
        let none: Vec<Profile> = Vec::new();
        assert(profile_views(none@) =~= Seq::<Resolved>::empty());
        match &draft.jump {
            None => Ok(finished(draft, none, None)),
            Some(value) => {
                if draft.jump_count != 1 {
                    return Ok(
                        finished(draft, none, Some("ProxyJump with extra arguments".to_owned())),
                    );
                }
                match resolve_jumps(&self.lines, home, has_default, value.as_str()) {
                    Ok(jumps) => Ok(finished(draft, jumps, None)),
                    Err(error) => {
                        let mut text = String::new();
                        text.append("ProxyJump (");
                        text.append(error.as_str());
                        text.append(")");
                        Ok(finished(draft, none, Some(text)))
                    },
                }
            },
        }
    }
}

/// A keyword and its values.
pub struct Entry {
    pub keyword: Seq<char>,
    pub values: Seq<Seq<char>>,
}

pub open spec fn entry_of(line: Line) -> Entry {
    Entry { keyword: line.keyword@, values: texts(line.values@) }
}

pub open spec fn entries_of(v: Seq<Line>) -> Seq<Entry> {
    v.map_values(|line: Line| entry_of(line))
}

/// The entry that the words of a line make.
pub open spec fn word_entry(found: Seq<Seq<char>>) -> Entry {
    Entry { keyword: lower_text(found[0]), values: found.drop_first() }
}

/// The entries of a text, or nothing where a quote is left open.
pub open spec fn text_entries(found: Seq<Seq<char>>) -> Option<Seq<Entry>>
    decreases found.len(),
{
    if found.len() == 0 {
        Some(seq![])
    } else {
        match (text_entries(found.drop_last()), config_words(found.last())) {
            (Some(entries), Some(parts)) => if parts.len() == 0 {
                Some(entries)
            } else {
                Some(entries.push(word_entry(parts)))
            },
            _ => None,
        }
    }
}

/// Nothing is brought in from other files.
pub open spec fn alone(v: Seq<Line>) -> bool {
    forall|i: int| 0 <= i < v.len() ==> (#[trigger] v[i]).included@.len() == 0
}

fn line_of(parts: Vec<String>) -> (r: Line)
    requires
        parts@.len() > 0,
    ensures
        entry_of(r) == word_entry(texts(parts@)),
        r.included@.len() == 0,
{
    let ghost all = texts(parts@);
    let mut values = parts;
    let word = values.remove(0);
    assert(texts(values@) =~= all.drop_first());
    let chars = chars_of(word.as_str());
    assert(all[0] == word@);
    Line { keyword: lowered(chars.as_slice()), values, included: Vec::new() }
}

proof fn entries_prefix(found: Seq<Seq<char>>, n: int)
    requires
        0 <= n <= found.len(),
    ensures
        text_entries(found.take(n)) is None ==> text_entries(found) is None,
    decreases found.len() - n,
{
    if n == found.len() {
        assert(found.take(n) =~= found);
    } else {
        entries_prefix(found, n + 1);
        assert(found.take(n + 1).drop_last() =~= found.take(n));
    }
}

impl Config {
    /// A configuration from one text that brings in no other files.
    pub fn from_text(text: &str, home: &str) -> (r: Result<Self, Error>)
        ensures
            match text_entries(lines(text@)) {
                Some(entries) => {
                    &&& r matches Ok(config)
                    &&& config.wf()
                    &&& entries_of(config.spec_lines()) == entries
                    &&& alone(config.spec_lines())
                    &&& config.spec_home() == home@
                    &&& config.spec_defaults().len() == 0
                },
                None => r matches Err(error) && error == Error::Quote,
            },
    {
        let chars = chars_of(text);
        let found = split_lines(chars.as_slice());
        let ghost all = rows(found@);
        let mut out: Vec<Line> = Vec::new();
        let mut i: usize = 0;
        assert(all.take(0) =~= Seq::<Seq<char>>::empty());
        assert(entries_of(out@) =~= Seq::<Entry>::empty());
        while i < found.len()
            invariant
                i <= found@.len(),
                all == rows(found@),
                all == lines(text@),
                alone(out@),
                text_entries(all.take(i as int)) == Some(entries_of(out@)),
            decreases found@.len() - i,
        {
            let ghost head = all.take(i + 1);
            proof {
                assert(head.drop_last() =~= all.take(i as int));
                assert(head.last() == found@[i as int]@);
                entries_prefix(all, i + 1);
            }
            let line = string_of(found[i].as_slice());
            let parts = match words(line.as_str()) {
                Ok(parts) => parts,
                Err(error) => return Err(error),
            };
            assert(texts(parts@).len() == parts@.len());
            if parts.len() > 0 {
                let ghost before = out@;
                let entry = line_of(parts);
                let ghost shown = entry_of(entry);
                out.push(entry);
                assert(entries_of(out@) =~= entries_of(before).push(shown));
            }
            i += 1;
        }
        assert(all.take(i as int) =~= all);
        let none: Vec<String> = Vec::new();
        Ok(Config::new(out, home.to_owned(), none))
    }
}

/// Keywords that take exactly one value.
pub open spec fn single_valued(keyword: Seq<char>) -> bool {
    ||| keyword == "hostname"@
    ||| keyword == "user"@
    ||| keyword == "port"@
    ||| keyword == "identityfile"@
    ||| keyword == "identitiesonly"@
    ||| keyword == "identityagent"@
    ||| keyword == "hostkeyalias"@
}

/// The entry of one line of a file, if it has one.
pub open spec fn read_entry(line: Seq<char>) -> Result<Option<Entry>, Error> {
    match config_words(line) {
        None => Err(Error::Quote),
        Some(parts) => if parts.len() == 0 {
            Ok(None)
        } else if parts.len() == 1 {
            Err(Error::MissingValue)
        } else if single_valued(lower_text(parts[0])) && parts.len() != 2 {
            Err(Error::ExtraValues)
        } else {
            Ok(Some(word_entry(parts)))
        },
    }
}

/// Read one line of a file.
pub fn read_line(line: &str) -> (r: Result<Option<Line>, Error>)
    ensures
        match read_entry(line@) {
            Err(error) => r == Err::<Option<Line>, Error>(error),
            Ok(None) => r matches Ok(None),
            Ok(Some(entry)) => r matches Ok(Some(found)) && entry_of(found) == entry
                && found.included@.len() == 0,
        },
{
    let parts = match words(line) {
        Ok(parts) => parts,
        Err(error) => return Err(error),
    };
    assert(texts(parts@).len() == parts@.len());
    let count = parts.len();
    if count == 0 {
        return Ok(None);
    }
    let found = line_of(parts);
    if count == 1 {
        return Err(Error::MissingValue);
    }
    let keyword = found.keyword.as_str();
    let single = same_str(keyword, "hostname") || same_str(keyword, "user") || same_str(
        keyword,
        "port",
    ) || same_str(keyword, "identityfile") || same_str(keyword, "identitiesonly") || same_str(
        keyword,
        "identityagent",
    ) || same_str(keyword, "hostkeyalias");
    if single && count != 2 {
        return Err(Error::ExtraValues);
    }
    Ok(Some(found))
}

/// The keyword of a line, if it has one.
pub open spec fn keyword_of(line: Seq<char>) -> Seq<char> {
    match config_words(line) {
        Some(parts) => if parts.len() > 0 {
            lower_text(parts[0])
        } else {
            seq![]
        },
        None => seq![],
    }
}

/// What is said of a line that could not be read, with its place.
pub open spec fn line_error_text(
    error: Error,
    line: Seq<char>,
    file: Seq<char>,
    number: nat,
) -> Seq<char> {
    let place = file + ":"@ + decimal(number);
    match error {
        Error::MissingValue => error_text(error) + " at "@ + place,
        Error::ExtraValues => error_text(error) + " for "@ + keyword_of(line) + " at "@ + place,
        _ => place + ": "@ + error_text(error),
    }
}

pub fn line_error(error: Error, line: &str, file: &str, number: usize) -> (r: String)
    ensures
        r@ == line_error_text(error, line@, file@, number as nat),
{
    let mut place = file.to_owned();
    place.append(":");
    push_decimal(&mut place, number as u64);
    match error {
        Error::MissingValue => {
            let mut out = error.message().to_owned();
            out.append(" at ");
            out.append(place.as_str());
            out
        },
        Error::ExtraValues => {
            let keyword = match words(line) {
                Ok(parts) => {
                    assert(texts(parts@).len() == parts@.len());
                    if parts.len() > 0 {
                        line_of(parts).keyword
                    } else {
                        String::new()
                    }
                },
                Err(_) => String::new(),
            };
            assert(keyword@ =~= keyword_of(line@));
            let mut out = error.message().to_owned();
            out.append(" for ");
            out.append(keyword.as_str());
            out.append(" at ");
            out.append(place.as_str());
            out
        },
        _ => {
            place.append(": ");
            place.append(error.message());
            place
        },
    }
}

/// What is said of a file that is not read, or of a pattern that names none.
pub open spec fn path_error_text(error: Error, path: Seq<char>) -> Seq<char> {
    match error {
        Error::Cycle => error_text(error) + " at "@ + path,
        Error::Glob => error_text(error) + ": "@ + path,
        _ => error_text(error),
    }
}

pub fn path_error(error: Error, path: &str) -> (r: String)
    ensures
        r@ == path_error_text(error, path@),
{
    let mut out = error.message().to_owned();
    match error {
        Error::Cycle => {
            out.append(" at ");
            out.append(path);
        },
        Error::Glob => {
            out.append(": ");
            out.append(path);
        },
        _ => {},
    }
    out
}

/// Whether a line brings in other files.
pub fn brings_in_files(line: &Line) -> (r: bool)
    ensures
        r == (line.keyword@ == "include"@),
{
    same_str(line.keyword.as_str(), "include")
}

/// The files of one brought-in pattern, as a line of their own: what applies is
/// restored behind each file.
pub fn file_line(included: Vec<Line>) -> (r: Line)
    ensures
        r.keyword@ == "include"@,
        r.values@.len() == 0,
        r.included@ == included@,
{
    Line { keyword: "include".to_owned(), values: Vec::new(), included }
}

/// The path that a pattern stands for.
pub open spec fn nested_path(pattern: Seq<char>, home: Seq<char>, base: Seq<char>) -> Seq<char> {
    if pattern.len() >= 2 && pattern[0] == '~' && pattern[1] == '/' {
        join_path(home, pattern.skip(2))
    } else {
        join_path(base, pattern)
    }
}

pub fn pattern_path(pattern: &str, home: &str, base: &str) -> (r: String)
    ensures
        r@ == nested_path(pattern@, home@, base@),
{
    let chars = chars_of(pattern);
    if chars.len() >= 2 && chars[0] == '~' && chars[1] == '/' {
        let tail = slice_subrange(chars.as_slice(), 2, chars.len());
        assert(tail@ =~= chars@.skip(2));
        joined_path(home, tail)
    } else {
        joined_path(base, chars.as_slice())
    }
}

/// Whether one component of a path is a pattern. Brackets and braces are not
/// supported.
pub fn is_pattern(component: &str) -> (r: Result<bool, Error>)
    ensures
        r == if component@.contains('[') || component@.contains(']') || component@.contains('{')
            || component@.contains('}') {
            Err::<bool, Error>(Error::Glob)
        } else {
            Ok(component@.contains('*') || component@.contains('?'))
        },
{
    let chars = chars_of(component);
    let s = chars.as_slice();
    if contains_char(s, '[') || contains_char(s, ']') || contains_char(s, '{') || contains_char(
        s,
        '}',
    ) {
        return Err(Error::Glob);
    }
    Ok(contains_char(s, '*') || contains_char(s, '?'))
}

/// Match a wildcard pattern against a text.
pub fn glob_matches(pattern: &str, text: &str) -> (r: bool)
    ensures
        r == glob(encode_utf8(pattern@), encode_utf8(text@)),
{
    glob_bytes(pattern.as_bytes(), text.as_bytes())
}

/// The budget of one pattern: what it matches, in however many directories.
#[derive(Debug)]
pub struct Search {
    pub found: usize,
}

impl Search {
    pub fn new() -> (r: Self)
        ensures
            r.found == 0,
    {
        Search { found: 0 }
    }

    /// Look at one entry of a directory, with as many entries before it; whether it
    /// matches.
    pub fn entry(&mut self, before: usize, pattern: &str, name: &str) -> (r: Result<bool, Error>)
        requires
            old(self).found <= MAX_FILES,
        ensures
            ({
                let matched = glob(encode_utf8(pattern@), encode_utf8(name@));
                if before >= MAX_ENTRIES {
                    r == Err::<bool, Error>(Error::Directory) && *final(self) == *old(self)
                } else if matched && old(self).found == MAX_FILES {
                    r == Err::<bool, Error>(Error::Matches) && *final(self) == *old(self)
                } else {
                    r == Ok::<bool, Error>(matched) && final(self).found == old(self).found + (
                    if matched {
                        1int
                    } else {
                        0
                    })
                }
            }),
    {
        if before >= MAX_ENTRIES {
            return Err(Error::Directory);
        }
        if !glob_matches(pattern, name) {
            return Ok(false);
        }
        if self.found >= MAX_FILES {
            return Err(Error::Matches);
        }
        self.found += 1;
        Ok(true)
    }
}

/// The identity files that OpenSSH tries without being told, among those of
/// supported kinds, in order of preference.
pub fn default_identity_paths(home: &str) -> (r: Vec<String>)
    ensures
        texts(r@) == seq![
            join_path(home@, ".ssh/id_ed25519"@),
            join_path(home@, ".ssh/id_ecdsa"@),
            join_path(home@, ".ssh/id_rsa"@),
        ],
{
    let mut out: Vec<String> = Vec::new();
    assert(texts(out@) =~= Seq::<Seq<char>>::empty());
    let a = chars_of(".ssh/id_ed25519");
    push_text(&mut out, joined_path(home, a.as_slice()));
    let b = chars_of(".ssh/id_ecdsa");
    push_text(&mut out, joined_path(home, b.as_slice()));
    let c = chars_of(".ssh/id_rsa");
    push_text(&mut out, joined_path(home, c.as_slice()));
    assert(texts(out@) =~= seq![
        join_path(home@, ".ssh/id_ed25519"@),
        join_path(home@, ".ssh/id_ecdsa"@),
        join_path(home@, ".ssh/id_rsa"@),
    ]);
    out
}

/// The budget of reading a configuration and the files it brings in.
#[derive(Debug)]
pub struct Loader {
    bytes: u64,
    files: usize,
    stack: Vec<String>,
}

/// What a loader is known by.
pub struct Loading {
    pub bytes: nat,
    pub files: nat,
    pub stack: Seq<Seq<char>>,
}

impl View for Loader {
    type V = Loading;

    closed spec fn view(&self) -> Loading {
        Loading { bytes: self.bytes as nat, files: self.files as nat, stack: texts(self.stack@) }
    }
}

impl Loader {
    pub fn new() -> (r: Self)
        ensures
            r@ == (Loading { bytes: 0, files: 0, stack: seq![] }),
    {
        let r = Loader { bytes: 0, files: 0, stack: Vec::new() };
        assert(r@.stack =~= Seq::<Seq<char>>::empty());
        r
    }

    /// Begin a file, given by its canonical path.
    pub fn enter(&mut self, canonical: &str, depth: usize) -> (r: Result<(), Error>)
        ensures
            ({
                let s = old(self)@;
                if depth >= MAX_DEPTH || s.files >= MAX_FILES {
                    r == Err::<(), Error>(Error::TooManyFiles) && final(self)@ == s
                } else if s.stack.contains(canonical@) {
                    r == Err::<(), Error>(Error::Cycle) && final(self)@ == s
                } else {
                    r is Ok && final(self)@ == (Loading {
                        files: s.files + 1,
                        stack: s.stack.push(canonical@),
                        ..s
                    })
                }
            }),
    {
        if depth >= MAX_DEPTH || self.files >= MAX_FILES {
            return Err(Error::TooManyFiles);
        }
        let mut i: usize = 0;
        while i < self.stack.len()
            invariant
                i <= self.stack@.len(),
                self@ == old(self)@,
                self.files < MAX_FILES,
                depth < MAX_DEPTH,
                forall|k: int| 0 <= k < i ==> (#[trigger] self.stack@[k])@ != canonical@,
            decreases self.stack@.len() - i,
        {
            if same_str(self.stack[i].as_str(), canonical) {
                assert(texts(self.stack@)[i as int] == canonical@);
                return Err(Error::Cycle);
            }
            i += 1;
        }
        proof {
            if texts(self.stack@).contains(canonical@) {
                let k = choose|k: int|
                    0 <= k < texts(self.stack@).len() && texts(self.stack@)[k] == canonical@;
                assert(self.stack@[k]@ == canonical@);
            }
        }
        push_text(&mut self.stack, canonical.to_owned());
        self.files = self.files + 1;
        Ok(())
    }

    /// How many bytes may be read of the next file, one more than the budget
    /// leaves.
    pub fn room(&self) -> (r: u64)
        ensures
            r == if self@.bytes < MAX_BYTES {
                MAX_BYTES - self@.bytes + 1
            } else {
                1
            },
    {
        if self.bytes < MAX_BYTES {
            MAX_BYTES - self.bytes + 1
        } else {
            1
        }
    }

    /// Count what was read.
    pub fn count(&mut self, length: u64) -> (r: Result<(), Error>)
        ensures
            ({
                let s = old(self)@;
                if s.bytes + length > MAX_BYTES {
                    r == Err::<(), Error>(Error::TooLarge) && final(self)@ == s
                } else {
                    r is Ok && final(self)@ == (Loading { bytes: s.bytes + length as nat, ..s })
                }
            }),
    {
        if self.bytes > MAX_BYTES || length > MAX_BYTES - self.bytes {
            return Err(Error::TooLarge);
        }
        self.bytes = self.bytes + length;
        Ok(())
    }

    /// End the file that was begun last.
    pub fn leave(&mut self)
        requires
            old(self)@.stack.len() > 0,
        ensures
            final(self)@ == (Loading { stack: old(self)@.stack.drop_last(), ..old(self)@ }),
    {
        let ghost before = self.stack@;
        assert(texts(before).len() == before.len());
        let _ = self.stack.pop();
        assert(texts(self.stack@) =~= texts(before).drop_last());
    }
}

proof fn hops_are_flat(v: Seq<Line>, place: Place, specs: Seq<Seq<char>>)
    ensures
        resolved_hops(v, place, specs) matches Ok(jumps) ==> jumps.len() == specs.len()
            && forall|i: int|
            0 <= i < jumps.len() ==> (#[trigger] jumps[i]).jumps.len() == 0
                && jumps[i].unsupported.len() == 0,
    decreases specs.len(),
{
    if specs.len() > 0 {
        hops_are_flat(v, place, specs.drop_last());
    }
}

/// A chain of hops is bounded and flat, and every hop in it can be carried out
/// exactly.
pub proof fn chains_are_flat_and_bounded(v: Seq<Line>, place: Place, alias: Seq<char>)
    ensures
        resolved(v, place, alias) matches Ok(profile) ==> profile.jumps.len() <= MAX_JUMPS
            && forall|i: int|
            0 <= i < profile.jumps.len() ==> (#[trigger] profile.jumps[i]).jumps.len() == 0
                && profile.jumps[i].unsupported.len() == 0,
{
    let ev = evaluated(v, true, alias, nothing_set());
    if let Some(value) = jump_value(ev.values) {
        hops_are_flat(v, place, pieces(value, ','));
    }
}

proof fn values_are_kept(v: Seq<Line>, active: bool, alias: Seq<char>, st: Eval, key: Seq<char>)
    requires
        st.values.contains_key(key),
        key != "identityfile"@,
    ensures
        evaluated(v, active, alias, st).values.contains_key(key),
        evaluated(v, active, alias, st).values[key] == st.values[key],
    decreases v,
{
    if v.len() > 0 {
        let line = v[0];
        let rest = v.drop_first();
        let k = line.keyword@;
        if k == "host"@ {
            values_are_kept(rest, host_matches(texts(line.values@), alias), alias, st, key);
        } else if k == "match"@ {
            values_are_kept(rest, false, alias, Eval { match_seen: true, ..st }, key);
        } else if !active {
            values_are_kept(rest, active, alias, st, key);
        } else if k == "include"@ {
            values_are_kept(line.included@, true, alias, st, key);
            values_are_kept(
                rest,
                active,
                alias,
                evaluated(line.included@, true, alias, st),
                key,
            );
        } else if k == "identityfile"@ {
            let before = if st.values.contains_key(k) {
                st.values[k]
            } else {
                seq![]
            };
            values_are_kept(
                rest,
                active,
                alias,
                Eval { values: st.values.insert(k, before + texts(line.values@)), ..st },
                key,
            );
        } else if st.values.contains_key(k) {
            values_are_kept(rest, active, alias, st, key);
        } else {
            values_are_kept(
                rest,
                active,
                alias,
                Eval { values: st.values.insert(k, texts(line.values@)), ..st },
                key,
            );
        }
    }
}

/// Whether lines still apply behind the given ones.
pub open spec fn active_behind(v: Seq<Line>, active: bool, alias: Seq<char>) -> bool
    decreases v.len(),
{
    if v.len() == 0 {
        active
    } else if v[0].keyword@ == "host"@ {
        active_behind(v.drop_first(), host_matches(texts(v[0].values@), alias), alias)
    } else if v[0].keyword@ == "match"@ {
        active_behind(v.drop_first(), false, alias)
    } else {
        active_behind(v.drop_first(), active, alias)
    }
}

/// Lines that stand behind others find what those set, and apply as those leave it.
pub proof fn evaluated_in_turn(
    v: Seq<Line>,
    more: Seq<Line>,
    active: bool,
    alias: Seq<char>,
    st: Eval,
)
    ensures
        evaluated(v + more, active, alias, st) == evaluated(
            more,
            active_behind(v, active, alias),
            alias,
            evaluated(v, active, alias, st),
        ),
    decreases v,
{
    if v.len() == 0 {
        assert(v + more =~= more);
    } else {
        let line = v[0];
        let rest = v.drop_first();
        let k = line.keyword@;
        assert((v + more)[0] == line);
        assert((v + more).drop_first() =~= rest + more);
        if k == "host"@ {
            evaluated_in_turn(rest, more, host_matches(texts(line.values@), alias), alias, st);
        } else if k == "match"@ {
            evaluated_in_turn(rest, more, false, alias, Eval { match_seen: true, ..st });
        } else if !active {
            evaluated_in_turn(rest, more, active, alias, st);
        } else if k == "include"@ {
            evaluated_in_turn(
                rest,
                more,
                active,
                alias,
                evaluated(line.included@, true, alias, st),
            );
        } else if k == "identityfile"@ {
            let before = if st.values.contains_key(k) {
                st.values[k]
            } else {
                seq![]
            };
            evaluated_in_turn(
                rest,
                more,
                active,
                alias,
                Eval { values: st.values.insert(k, before + texts(line.values@)), ..st },
            );
        } else if st.values.contains_key(k) {
            evaluated_in_turn(rest, more, active, alias, st);
        } else {
            evaluated_in_turn(
                rest,
                more,
                active,
                alias,
                Eval { values: st.values.insert(k, texts(line.values@)), ..st },
            );
        }
    }
}

/// The first value wins: whatever stands behind lines that set a keyword for a
/// host, the values of the keyword stay as they are. Identity files alone add
/// up.
pub proof fn first_value_wins(v: Seq<Line>, more: Seq<Line>, alias: Seq<char>, key: Seq<char>)
    requires
        key != "identityfile"@,
        evaluated(v, true, alias, nothing_set()).values.contains_key(key),
    ensures
        evaluated(v + more, true, alias, nothing_set()).values.contains_key(key),
        evaluated(v + more, true, alias, nothing_set()).values[key] == evaluated(
            v,
            true,
            alias,
            nothing_set(),
        ).values[key],
{
    evaluated_in_turn(v, more, true, alias, nothing_set());
    values_are_kept(
        more,
        active_behind(v, true, alias),
        alias,
        evaluated(v, true, alias, nothing_set()),
        key,
    );
}

proof fn match_stays_seen(v: Seq<Line>, active: bool, alias: Seq<char>, st: Eval)
    requires
        st.match_seen || exists|i: int| 0 <= i < v.len() && (#[trigger] v[i]).keyword@ == "match"@,
    ensures
        evaluated(v, active, alias, st).match_seen,
    decreases v,
{
    if v.len() > 0 {
        let line = v[0];
        let rest = v.drop_first();
        let k = line.keyword@;
        let seen = st.match_seen || k == "match"@;
        reveal_strlit("host");
        reveal_strlit("match");
        assert("host"@.len() != "match"@.len());
        if !seen {
            let i = choose|i: int| 0 <= i < v.len() && (#[trigger] v[i]).keyword@ == "match"@;
            assert(rest[i - 1].keyword@ == "match"@);
        }
        if k == "host"@ {
            match_stays_seen(rest, host_matches(texts(line.values@), alias), alias, st);
        } else if k == "match"@ {
            match_stays_seen(rest, false, alias, Eval { match_seen: true, ..st });
        } else if !active {
            match_stays_seen(rest, active, alias, st);
        } else if k == "include"@ {
            let inner = evaluated(line.included@, true, alias, st);
            if st.match_seen {
                match_stays_seen(line.included@, true, alias, st);
            }
            match_stays_seen(rest, active, alias, inner);
        } else if k == "identityfile"@ {
            let before = if st.values.contains_key(k) {
                st.values[k]
            } else {
                seq![]
            };
            match_stays_seen(
                rest,
                active,
                alias,
                Eval { values: st.values.insert(k, before + texts(line.values@)), ..st },
            );
        } else if st.values.contains_key(k) {
            match_stays_seen(rest, active, alias, st);
        } else {
            match_stays_seen(
                rest,
                active,
                alias,
                Eval { values: st.values.insert(k, texts(line.values@)), ..st },
            );
        }
    }
}

proof fn late_reports_match(
    values: Map<Seq<char>, Seq<Seq<char>>>,
    place: Place,
    identity: Option<Seq<char>>,
)
    ensures
        late_blockers(values, true, place, identity).contains(
            "Match conditions (not evaluated or executed)"@,
        ),
{
    let all = late_blockers(values, true, place, identity);
    assert(all[all.len() - 1] == "Match conditions (not evaluated or executed)"@);
}

/// What blocks behind the routing is reported whatever the routing is.
pub proof fn routing_keeps_late(
    parts: Parts,
    jumps: Seq<Resolved>,
    blockers: Seq<Seq<char>>,
    text: Seq<char>,
)
    requires
        parts.late.contains(text),
    ensures
        with_routing(parts, jumps, blockers).unsupported.contains(text),
{
    let all = with_routing(parts, jumps, blockers).unsupported;
    let i = choose|i: int| 0 <= i < parts.late.len() && parts.late[i] == text;
    assert(all[all.len() - parts.late.len() + i] == text);
}

/// A `Match` is never passed over: wherever one stands, every host resolves with
/// a blocker or not at all.
pub proof fn match_is_always_reported(v: Seq<Line>, place: Place, alias: Seq<char>)
    requires
        exists|i: int| 0 <= i < v.len() && (#[trigger] v[i]).keyword@ == "match"@,
    ensures
        resolved(v, place, alias) matches Ok(profile) ==> profile.unsupported.contains(
            "Match conditions (not evaluated or executed)"@,
        ),
{
    match_stays_seen(v, true, alias, nothing_set());
    let ev = evaluated(v, true, alias, nothing_set());
    let text = "Match conditions (not evaluated or executed)"@;
    if let Ok(parts) = read_parts(ev, place, alias) {
        assert(parts.late.contains(text)) by {
            late_reports_match(ev.values, place, parts.profile.identity);
        }
        match jump_value(ev.values) {
            None => routing_keeps_late(parts, seq![], seq![], text),
            Some(value) => {
                routing_keeps_late(parts, seq![], seq!["ProxyJump with extra arguments"@], text);
                match resolved_jumps(v, place, value) {
                    Ok(jumps) => routing_keeps_late(parts, jumps, seq![], text),
                    Err(why) => routing_keeps_late(
                        parts,
                        seq![],
                        seq!["ProxyJump ("@ + why + ")"@],
                        text,
                    ),
                }
            },
        }
    }
}

} // verus!
