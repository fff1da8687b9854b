//! The question that is asked when saved tabs cannot be read: clear the file, or
//! exit and leave it as it is.
//!
//! Leaving is the default. A dialog that is missing, dismissed or broken never
//! deletes anything.
use vstd::prelude::*;
use vstd::slice::slice_subrange;
use vstd::string::*;

use crate::text::{chars_of, same, texts};

verus! {

#[derive(Clone, Copy, Debug, PartialEq, Eq, Structural)]
pub enum BrokenStore {
    Clear,
    Exit,
}

/// The question, with the file and the error that it is about.
pub open spec fn question(file: Seq<char>, error: Seq<char>) -> Seq<char> {
    "Starcom could not read the saved tabs file:\n\n"@ + file + "\n\n"@ + error
        + "\n\nClear the file and start with a new tab, or exit and leave it unchanged?"@
}

pub fn prompt(file: &str, error: &str) -> (r: String)
    ensures
        r@ == question(file@, error@),
{
    let mut out = String::new();
    out.append("Starcom could not read the saved tabs file:\n\n");
    out.append(file);
    out.append("\n\n");
    out.append(error);
    out.append("\n\nClear the file and start with a new tab, or exit and leave it unchanged?");
    proof {
        assert(Seq::<char>::empty() + "Starcom could not read the saved tabs file:\n\n"@
            =~= "Starcom could not read the saved tabs file:\n\n"@);
    }
    out
}

/// The programs that can show a dialog, in the order in which they are tried.
#[derive(Clone, Copy, Debug, PartialEq, Eq, Structural)]
pub enum Tool {
    Zenity,
    Kdialog,
}

/// What running a program came to.
#[derive(Clone, Copy, Debug, PartialEq, Eq, Structural)]
pub enum Outcome {
    Exited(i32),
    Killed,
    NotFound,
    Failed,
}

/// What to do behind it.
#[derive(Clone, Copy, Debug, PartialEq, Eq, Structural)]
pub enum Step {
    /// The user's answer: whether to clear the file.
    Answer(bool),
    Try(Tool),
    /// There is no dialog. Nothing is cleared.
    NoDialog,
}

/// The accepting button of the second tool leaves, because that tool offers it by
/// default; with the first one it clears, and cancelling is the default.
pub open spec fn asked(tool: Tool, outcome: Outcome) -> Step {
    match (tool, outcome) {
        (Tool::Zenity, Outcome::Exited(0)) => Step::Answer(true),
        (Tool::Zenity, Outcome::Exited(1)) => Step::Answer(false),
        (Tool::Zenity, Outcome::NotFound) => Step::Try(Tool::Kdialog),
        (Tool::Kdialog, Outcome::Exited(0)) => Step::Answer(false),
        (Tool::Kdialog, Outcome::Exited(1)) => Step::Answer(true),
        _ => Step::NoDialog,
    }
}

pub fn ask(tool: Tool, outcome: Outcome) -> (r: Step)
    ensures
        r == asked(tool, outcome),
{
    match outcome {
        Outcome::Exited(code) => if code == 0 {
            Step::Answer(tool == Tool::Zenity)
        } else if code == 1 {
            Step::Answer(tool == Tool::Kdialog)
        } else {
            Step::NoDialog
        },
        Outcome::NotFound => if tool == Tool::Zenity {
            Step::Try(Tool::Kdialog)
        } else {
            Step::NoDialog
        },
        Outcome::Killed | Outcome::Failed => Step::NoDialog,
    }
}

pub fn ask_clear_or_exit(step: Step) -> (r: BrokenStore)
    ensures
        r == if step == Step::Answer(true) {
            BrokenStore::Clear
        } else {
            BrokenStore::Exit
        },
{
    match step {
        Step::Answer(clear) => if clear {
            BrokenStore::Clear
        } else {
            BrokenStore::Exit
        },
        Step::Try(_) | Step::NoDialog => BrokenStore::Exit,
    }
}

/// Nothing is cleared unless a dialog was shown and ended by a button.
pub proof fn only_an_answer_clears(tool: Tool, outcome: Outcome)
    requires
        asked(tool, outcome) == Step::Answer(true),
    ensures
        outcome == Outcome::Exited(0) || outcome == Outcome::Exited(1),
{
}

/// The arguments of a tool, with the question behind them.
pub open spec fn argument_texts(tool: Tool, text: Seq<char>) -> Seq<Seq<char>> {
    match tool {
        Tool::Zenity => seq![
            "--question"@,
            "--title=Starcom"@,
            "--ok-label=Clear"@,
            "--cancel-label=Exit"@,
            "--default-cancel"@,
            "--no-markup"@,
            "--no-wrap"@,
            "--text"@,
            text,
        ],
        Tool::Kdialog => seq![
            "--yes-label"@,
            "Exit"@,
            "--no-label"@,
            "Clear"@,
            "--yesno"@,
            text,
        ],
    }
}

pub fn arguments(tool: Tool, text: &str) -> (r: Vec<String>)
    ensures
        texts(r@) == argument_texts(tool, text@),
{
    let mut out: Vec<String> = Vec::new();
    match tool {
        Tool::Zenity => {
            out.push("--question".to_owned());
            out.push("--title=Starcom".to_owned());
            out.push("--ok-label=Clear".to_owned());
            out.push("--cancel-label=Exit".to_owned());
            out.push("--default-cancel".to_owned());
            out.push("--no-markup".to_owned());
            out.push("--no-wrap".to_owned());
            out.push("--text".to_owned());
        },
        Tool::Kdialog => {
            out.push("--yes-label".to_owned());
            out.push("Exit".to_owned());
            out.push("--no-label".to_owned());
            out.push("Clear".to_owned());
            out.push("--yesno".to_owned());
        },
    }
    out.push(text.to_owned());
    proof {
        assert(texts(out@) =~= argument_texts(tool, text@));
    }
    out
}

/// A character inside a quoted AppleScript string.
pub open spec fn quoted_char(c: char) -> Seq<char> {
    if c == '\\' {
        seq!['\\', '\\']
    } else if c == '"' {
        seq!['\\', '"']
    } else if c == '\n' {
        seq!['\\', 'n']
    } else if c == '\r' {
        seq!['\\', 'r']
    } else {
        seq![c]
    }
}

pub open spec fn quoted_chars(s: Seq<char>) -> Seq<char>
    decreases s.len(),
{
    if s.len() == 0 {
        seq![]
    } else {
        quoted_chars(s.drop_last()) + quoted_char(s.last())
    }
}

pub fn applescript_string(text: &str) -> (r: String)
    ensures
        r@ == (seq!['"'] + quoted_chars(text@)).push('"'),
{
    let chars = chars_of(text);
    let mut out = String::new();
    out.push('"');
    let mut i: usize = 0;
    proof {
        assert(out@ =~= seq!['"'] + quoted_chars(chars@.take(0)));
    }
    while i < chars.len()
        invariant
            i <= chars.len(),
            out@ == seq!['"'] + quoted_chars(chars@.take(i as int)),
        decreases chars.len() - i,
    {
        let ghost before = out@;
        let c = chars[i];
        if c == '\\' {
            out.push('\\');
            out.push('\\');
        } else if c == '"' {
            out.push('\\');
            out.push('"');
        } else if c == '\n' {
            out.push('\\');
            out.push('n');
        } else if c == '\r' {
            out.push('\\');
            out.push('r');
        } else {
            out.push(c);
        }
        proof {
            assert(chars@.take(i + 1).drop_last() =~= chars@.take(i as int));
            assert(out@ =~= before + quoted_char(c));
            assert(out@ =~= seq!['"'] + quoted_chars(chars@.take(i + 1)));
        }
        i += 1;
    }
    proof {
        assert(chars@.take(i as int) =~= chars@);
    }
    out.push('"');
    out
}

/// The AppleScript that shows the dialog. Exit is the default.
pub fn dialog_script(text: &str) -> (r: String)
    ensures
        r@ == "display dialog "@ + (seq!['"'] + quoted_chars(text@)).push('"')
            + " with title \"Starcom\" buttons {\"Exit\", \"Clear\"} default button \"Exit\" with icon caution"@,
{
    let mut out = "display dialog ".to_owned();
    out.append(applescript_string(text).as_str());
    out.append(
        " with title \"Starcom\" buttons {\"Exit\", \"Clear\"} default button \"Exit\" with icon caution",
    );
    out
}

/// A text that holds another one.
pub open spec fn holds_text(s: Seq<char>, part: Seq<char>) -> bool {
    exists|i: int| 0 <= i <= s.len() - part.len() && #[trigger] s.skip(i).take(part.len() as int) == part
}

fn has_text(s: &[char], part: &[char]) -> (r: bool)
    requires
        part@.len() > 0,
    ensures
        r == holds_text(s@, part@),
{
    let mut i: usize = 0;
    while i < s.len() && part.len() <= s.len() - i
        invariant
            i <= s.len(),
            part.len() > 0,
            forall|k: int| 0 <= k < i ==> #[trigger] s@.skip(k).take(part@.len() as int) != part@,
        decreases s.len() - i,
    {
        let piece = slice_subrange(s, i, i + part.len());
        assert(piece@ =~= s@.skip(i as int).take(part@.len() as int));
        if same(piece, part) {
            return true;
        }
        i += 1;
    }
    false
}

/// What the script's end means: only a press of Clear clears.
pub fn script_answer(success: bool, printed: &str) -> (r: Step)
    ensures
        r == Step::Answer(success && holds_text(printed@, "Clear"@)),
{
    let wanted = chars_of("Clear");
    proof {
        reveal_strlit("Clear");
    }
    Step::Answer(success && has_text(chars_of(printed).as_slice(), wanted.as_slice()))
}

/// The inside of a quoted string has no quote that a backslash does not guard:
/// read from the left, it is never ended before its own end.
pub open spec fn ends_early(s: Seq<char>) -> bool
    decreases s.len(),
{
    if s.len() == 0 {
        false
    } else if s[0] == '\\' {
        s.len() == 1 || ends_early(s.skip(2))
    } else {
        s[0] == '"' || ends_early(s.skip(1))
    }
}

proof fn ends_early_concat(a: Seq<char>, b: Seq<char>)
    requires
        !ends_early(a),
    ensures
        ends_early(a + b) == ends_early(b),
    decreases a.len(),
{
    if a.len() == 0 {
        assert(a + b =~= b);
    } else if a[0] == '\\' {
        ends_early_concat(a.skip(2), b);
        assert((a + b).skip(2) =~= a.skip(2) + b);
    } else {
        ends_early_concat(a.skip(1), b);
        assert((a + b).skip(1) =~= a.skip(1) + b);
    }
}

/// No text leaves the string that it is quoted into.
pub proof fn quoting_is_closed(s: Seq<char>)
    ensures
        !ends_early(quoted_chars(s)),
    decreases s.len(),
{
    if s.len() > 0 {
        quoting_is_closed(s.drop_last());
        ends_early_concat(quoted_chars(s.drop_last()), quoted_char(s.last()));
        reveal_with_fuel(ends_early, 3);
        let q = quoted_char(s.last());
        if q.len() == 2 {
            assert(q.skip(2) =~= Seq::<char>::empty());
        } else {
            assert(q.skip(1) =~= Seq::<char>::empty());
        }
    }
}

/// The UTF-16 units of a character.
pub open spec fn wide_char(c: char) -> Seq<u16> {
    let n = c as u32;
    if n < 0x10000 {
        seq![n as u16]
    } else {
        seq![
            (0xd800 + (n - 0x10000) / 0x400) as u16,
            (0xdc00 + (n - 0x10000) % 0x400) as u16,
        ]
    }
}

pub open spec fn wide_chars(s: Seq<char>) -> Seq<u16>
    decreases s.len(),
{
    if s.len() == 0 {
        seq![]
    } else {
        wide_chars(s.drop_last()) + wide_char(s.last())
    }
}

/// A text as UTF-16, with the zero that ends it.
pub fn wide(text: &str) -> (r: Vec<u16>)
    ensures
        r@ == wide_chars(text@).push(0),
{
    let chars = chars_of(text);
    let mut out: Vec<u16> = Vec::new();
    let mut i: usize = 0;
    proof {
        assert(out@ =~= wide_chars(chars@.take(0)));
    }
    while i < chars.len()
        invariant
            i <= chars.len(),
            out@ == wide_chars(chars@.take(i as int)),
        decreases chars.len() - i,
    {
        let ghost before = out@;
        let n = chars[i] as u32;
        if n < 0x10000 {
            out.push(n as u16);
        } else {
            let high: u32 = 0xd800 + (n - 0x10000) / 0x400;
            let low: u32 = 0xdc00 + (n - 0x10000) % 0x400;
            out.push(high as u16);
            out.push(low as u16);
        }
        proof {
            assert(chars@.take(i + 1).drop_last() =~= chars@.take(i as int));
            assert(out@ =~= before + wide_char(chars@[i as int]));
        }
        i += 1;
    }
    proof {
        assert(chars@.take(i as int) =~= chars@);
    }
    out.push(0);
    out
}

/// The text that UTF-16 units stand for.
pub open spec fn narrow(units: Seq<u16>) -> Seq<char>
    decreases units.len(),
{
    if units.len() == 0 {
        seq![]
    } else if units.len() >= 2 && 0xd800 <= units[0] <= 0xdbff && 0xdc00 <= units[1] <= 0xdfff {
        seq![(0x10000 + (units[0] - 0xd800) * 0x400 + (units[1] - 0xdc00)) as char] + narrow(
            units.skip(2),
        )
    } else {
        seq![units[0] as char] + narrow(units.skip(1))
    }
}

proof fn wide_chars_front(s: Seq<char>)
    requires
        s.len() > 0,
    ensures
        wide_chars(s) == wide_char(s[0]) + wide_chars(s.drop_first()),
    decreases s.len(),
{
    if s.len() == 1 {
        assert(s.drop_last() =~= Seq::<char>::empty());
        assert(s.drop_first() =~= Seq::<char>::empty());
        assert(wide_chars(s) =~= wide_char(s[0]) + wide_chars(s.drop_first()));
    } else {
        let front = s.drop_last();
        wide_chars_front(front);
        assert(s.drop_first().drop_last() =~= front.drop_first());
        assert(s.drop_first().last() == s.last());
        assert(wide_chars(s) =~= wide_char(s[0]) + wide_chars(s.drop_first()));
    }
}

proof fn one_char_is_read(c: char, rest: Seq<u16>)
    ensures
        narrow(wide_char(c) + rest) == seq![c] + narrow(rest),
{
    let units = wide_char(c) + rest;
    let n = c as u32;
    if n < 0x10000 {
        assert(units[0] == n);
        assert(!(0xd800 <= n <= 0xdfff));
        assert(units.skip(1) =~= rest);
        assert((n as char) == c);
    } else {
        let m = (n - 0x10000) as int;
        assert(0 <= m < 0x100000);
        assert(units[0] == 0xd800 + m / 0x400 && units[1] == 0xdc00 + m % 0x400);
        assert(m == (m / 0x400) * 0x400 + m % 0x400);
        assert(units.skip(2) =~= rest);
        assert((n as char) == c);
    }
}

/// A text as UTF-16 is read back as it was, whatever characters it holds.
pub proof fn wide_texts_read_back(s: Seq<char>)
    ensures
        narrow(wide_chars(s)) == s,
    decreases s.len(),
{
    if s.len() == 0 {
        assert(s =~= Seq::<char>::empty());
    } else {
        let rest = s.drop_first();
        wide_chars_front(s);
        wide_texts_read_back(rest);
        one_char_is_read(s[0], wide_chars(rest));
        assert(seq![s[0]] + rest =~= s);
    }
}

} // verus!
