//! What a control stream brings to those who asked.
//!
//! A stream is written down here as the server writes it: replies between their guards,
//! and notifications between the replies. What is read of its bytes is compared with
//! what was written.
use vstd::prelude::*;
use vstd::string::*;

use crate::control::{
    chunks_are_invisible, exit_line, guard_of, latin, layout_too_deep, lossy_text, on_byte,
    on_bytes, open_brackets, Block, Error, Guard, GuardKind, GuardLine, Limits, State,
};
use crate::text::{
    decimal, decimal_reads_back, digit_char, first_index, first_index_facts, number, pieces,
    pieces_alone, pieces_front,
};
use crate::tmux::{Answer, CommandId, Event};

verus! {

/// The bytes of a text in which every character is one byte.
pub open spec fn ascii(s: Seq<char>) -> Seq<u8> {
    s.map_values(|c: char| c as u8)
}

/// The word that a guard begins with.
pub open spec fn guard_word(kind: GuardKind) -> Seq<char> {
    match kind {
        GuardKind::Begin => "%begin"@,
        GuardKind::End => "%end"@,
        GuardKind::Error => "%error"@,
    }
}

pub open spec fn guard_text(kind: GuardKind, guard: Guard) -> Seq<char> {
    guard_word(kind).push(' ') + (decimal(guard.timestamp as nat).push(' ') + (decimal(
        guard.number as nat,
    ).push(' ') + decimal(guard.flags as nat)))
}

/// A guard as the server writes it.
pub open spec fn guard_bytes(kind: GuardKind, guard: Guard) -> Seq<u8> {
    ascii(guard_text(kind, guard))
}

/// A line that begins with a word: the word alone, or with a space behind it.
pub open spec fn begins_with(line: Seq<u8>, word: Seq<char>) -> bool {
    line == ascii(word) || ascii(word.push(' ')).is_prefix_of(line)
}

/// A line that is no guard.
pub open spec fn is_plain(line: Seq<u8>) -> bool {
    !begins_with(line, "%begin"@) && !begins_with(line, "%end"@) && !begins_with(line, "%error"@)
}

/// A line that fits, without its ending.
pub open spec fn fits(line: Seq<u8>, limits: Limits) -> bool {
    line.len() <= limits.line_bytes && forall|i: int|
        0 <= i < line.len() ==> #[trigger] line[i] != 0x0a
}

/// How many brackets are opened and closed.
pub open spec fn count_of(bytes: Seq<u8>, x: u8, y: u8) -> nat
    decreases bytes.len(),
{
    if bytes.len() == 0 {
        0
    } else {
        count_of(bytes.drop_last(), x, y) + (if bytes.last() == x || bytes.last() == y {
            1nat
        } else {
            0
        })
    }
}

pub open spec fn opened(bytes: Seq<u8>) -> nat {
    count_of(bytes, 0x7b, 0x5b)
}

pub open spec fn ended(bytes: Seq<u8>) -> nat {
    count_of(bytes, 0x7d, 0x5d)
}

/// One thing that a server says.
pub enum Said {
    /// The reply to a command. Without flags it answers no command of this client.
    Reply { guard: Guard, lines: Seq<Seq<u8>>, failed: bool },
    /// A line that stands outside of every reply.
    Note(Seq<u8>),
}

pub open spec fn bytes_in(lines: Seq<Seq<u8>>) -> nat
    decreases lines.len(),
{
    if lines.len() == 0 {
        0
    } else {
        lines[0].len() + 1 + bytes_in(lines.drop_first())
    }
}

pub open spec fn closing(failed: bool) -> GuardKind {
    if failed {
        GuardKind::Error
    } else {
        GuardKind::End
    }
}

/// What a stream within its limits may say: no notification that ends the stream, and
/// none whose brackets could nest too deep.
pub open spec fn sound(said: Said, limits: Limits) -> bool {
    match said {
        Said::Reply { guard, lines, failed } => {
            &&& guard_bytes(GuardKind::Begin, guard).len() <= limits.line_bytes
            &&& guard_bytes(closing(failed), guard).len() <= limits.line_bytes
            &&& forall|i: int|
                0 <= i < lines.len() ==> fits(#[trigger] lines[i], limits) && is_plain(lines[i])
            &&& bytes_in(lines) <= limits.reply_bytes
            &&& lines.len() <= limits.reply_lines
        },
        Said::Note(line) => {
            &&& fits(line, limits)
            &&& is_plain(line)
            &&& !begins_with(line, "%exit"@)
            &&& opened(line) <= 64
        },
    }
}

/// The lines, each with its ending.
pub open spec fn on_wire(lines: Seq<Seq<u8>>) -> Seq<u8>
    decreases lines.len(),
{
    if lines.len() == 0 {
        seq![]
    } else {
        lines[0].push(0x0a) + on_wire(lines.drop_first())
    }
}

pub open spec fn said_bytes(said: Said) -> Seq<u8> {
    match said {
        Said::Reply { guard, lines, failed } => guard_bytes(GuardKind::Begin, guard).push(0x0a) + (
        on_wire(lines) + guard_bytes(closing(failed), guard).push(0x0a)),
        Said::Note(line) => line.push(0x0a),
    }
}

/// The bytes of a stream.
pub open spec fn stream_bytes(stream: Seq<Said>) -> Seq<u8>
    decreases stream.len(),
{
    if stream.len() == 0 {
        seq![]
    } else {
        said_bytes(stream[0]) + stream_bytes(stream.drop_first())
    }
}

/// A reply to a command of this client.
pub open spec fn answers(said: Said) -> bool {
    said matches Said::Reply { guard, .. } && guard.flags != 0
}

/// The numbers of the replies to this client rise, with or without gaps.
pub open spec fn rising(stream: Seq<Said>, last: Option<u64>) -> bool {
    &&& forall|i: int|
        0 <= i < stream.len() && answers(#[trigger] stream[i]) && last is Some
            ==> stream[i]->guard.number > last->0
    &&& forall|i: int, j: int|
        0 <= i < j < stream.len() && answers(#[trigger] stream[i]) && answers(#[trigger] stream[j])
            ==> stream[i]->guard.number < stream[j]->guard.number
}

/// The lines of a reply, as text.
pub open spec fn reply_texts(lines: Seq<Seq<u8>>) -> Seq<Seq<char>> {
    Seq::new(lines.len(), |i: int| lossy_text(lines[i]))
}

/// What one thing that is said brings, while these commands wait.
pub open spec fn brings(said: Said, pending: Seq<CommandId>) -> Seq<Event> {
    match said {
        Said::Reply { guard, lines, failed } => if guard.flags != 0 && pending.len() > 0 {
            seq![
                Event::Reply {
                    id: pending[0],
                    answer: if failed {
                        Answer::Failed(reply_texts(lines))
                    } else {
                        Answer::Done(reply_texts(lines))
                    },
                },
            ]
        } else {
            seq![]
        },
        Said::Note(line) => if line.len() > 0 {
            seq![Event::Line(line)]
        } else {
            seq![]
        },
    }
}

pub open spec fn waiting(said: Said, pending: Seq<CommandId>) -> Seq<CommandId> {
    if answers(said) && pending.len() > 0 {
        pending.drop_first()
    } else {
        pending
    }
}

/// What a stream brings, in order.
pub open spec fn all_brought(stream: Seq<Said>, pending: Seq<CommandId>) -> Seq<Event>
    decreases stream.len(),
{
    if stream.len() == 0 {
        seq![]
    } else {
        brings(stream[0], pending) + all_brought(
            stream.drop_first(),
            waiting(stream[0], pending),
        )
    }
}

pub open spec fn all_waiting(stream: Seq<Said>, pending: Seq<CommandId>) -> Seq<CommandId>
    decreases stream.len(),
{
    if stream.len() == 0 {
        pending
    } else {
        all_waiting(stream.drop_first(), waiting(stream[0], pending))
    }
}

/// The number of the last reply to this client.
pub open spec fn last_number(stream: Seq<Said>, last: Option<u64>) -> Option<u64>
    decreases stream.len(),
{
    if stream.len() == 0 {
        last
    } else if answers(stream.last()) {
        Some(stream.last()->guard.number)
    } else {
        last_number(stream.drop_last(), last)
    }
}

proof fn bytes_are_characters(c: char)
    requires
        c <= '\x7f',
    ensures
        (c as u8) as char == c,
{
}

proof fn latin_of_ascii(s: Seq<char>)
    requires
        forall|i: int| 0 <= i < s.len() ==> #[trigger] s[i] <= '\x7f',
    ensures
        latin(ascii(s)) == s,
{
    assert forall|i: int| 0 <= i < s.len() implies latin(ascii(s))[i] == #[trigger] s[i] by {
        bytes_are_characters(s[i]);
    }
    assert(latin(ascii(s)) =~= s);
}

proof fn digits_are_ascii(n: nat)
    ensures
        forall|i: int| 0 <= i < decimal(n).len() ==> '0' <= #[trigger] decimal(n)[i] <= '9',
        !decimal(n).contains(' '),
{
    decimal_reads_back(n);
    let w = decimal(n);
    assert forall|i: int| 0 <= i < w.len() implies '0' <= #[trigger] w[i] <= '9' by {
        assert(digit_char(w[i]));
    }
    if w.contains(' ') {
        let i = choose|i: int| 0 <= i < w.len() && w[i] == ' ';
        assert('0' <= w[i]);
    }
}

proof fn words_are_ascii(kind: GuardKind)
    ensures
        forall|i: int|
            0 <= i < guard_word(kind).len() ==> '!' <= #[trigger] guard_word(kind)[i] <= '~',
        !guard_word(kind).contains(' '),
        "%begin"@ != "%end"@,
        "%begin"@ != "%error"@,
        "%end"@ != "%error"@,
{
    reveal_strlit("%begin");
    reveal_strlit("%end");
    reveal_strlit("%error");
    assert("%begin"@.len() == 6 && "%end"@.len() == 4 && "%error"@.len() == 6);
    assert("%begin"@[1] == 'b' && "%error"@[1] == 'e');
}

proof fn guards_are_read(kind: GuardKind, guard: Guard)
    ensures
        guard_of(guard_bytes(kind, guard)) == GuardLine::Guard(kind, guard),
        forall|i: int|
            0 <= i < guard_bytes(kind, guard).len() ==> #[trigger] guard_bytes(kind, guard)[i]
                != 0x0a,
{
    let word = guard_word(kind);
    let (a, b, c) = (
        decimal(guard.timestamp as nat),
        decimal(guard.number as nat),
        decimal(guard.flags as nat),
    );
    words_are_ascii(kind);
    digits_are_ascii(guard.timestamp as nat);
    digits_are_ascii(guard.number as nat);
    digits_are_ascii(guard.flags as nat);
    decimal_reads_back(guard.timestamp as nat);
    decimal_reads_back(guard.number as nat);
    decimal_reads_back(guard.flags as nat);
    let r2 = b.push(' ') + c;
    let r1 = a.push(' ') + r2;
    let text = word.push(' ') + r1;
    assert forall|i: int| 0 <= i < text.len() implies ' ' <= #[trigger] text[i] <= '~' by {
        if i < word.len() {
            assert(text[i] == word[i]);
        } else if i == word.len() {
        } else {
            let j = i - word.len() - 1;
            assert(text[i] == r1[j]);
            if j < a.len() {
                assert(r1[j] == a[j]);
            } else if j > a.len() {
                let k = j - a.len() - 1;
                assert(r1[j] == r2[k]);
                if k < b.len() {
                    assert(r2[k] == b[k]);
                } else if k > b.len() {
                    assert(r2[k] == c[k - b.len() - 1]);
                }
            }
        }
    }
    latin_of_ascii(text);
    pieces_front(word, ' ', r1);
    pieces_front(a, ' ', r2);
    pieces_front(b, ' ', c);
    pieces_alone(c, ' ');
    assert(pieces(text, ' ') =~= seq![word, a, b, c]);
    let bytes = guard_bytes(kind, guard);
    assert forall|i: int| 0 <= i < bytes.len() implies #[trigger] bytes[i] != 0x0a by {
        assert(' ' <= text[i] <= '~');
        assert(bytes[i] == text[i] as u8);
    }
}

proof fn first_words_begin_lines(line: Seq<u8>, word: Seq<char>)
    requires
        forall|i: int| 0 <= i < word.len() ==> #[trigger] word[i] <= '\x7f',
        !word.contains(' '),
    ensures
        (pieces(latin(line), ' ')[0] == word) == begins_with(line, word),
{
    let text = latin(line);
    first_index_facts(text, ' ');
    let i = first_index(text, ' ');
    let first = pieces(text, ' ')[0];
    if first == word {
        if i < text.len() {
            assert(first == text.take(i));
            let head = ascii(word.push(' '));
            assert(i == word.len());
            assert forall|k: int| 0 <= k < head.len() implies #[trigger] head[k] == line[k] by {
                if k < i {
                    assert(text.take(i)[k] == word[k]);
                    assert(text[k] == line[k] as char);
                    assert(head[k] == word[k] as u8);
                    assert((line[k] as char) as u8 == line[k]);
                } else {
                    assert(text[i] == ' ');
                    assert(text[i] == line[i] as char);
                    assert(line[i] == 0x20);
                }
            }
            assert(line.take(head.len() as int) =~= head);
            assert(head =~= line.subrange(0, head.len() as int));
        } else {
            assert(first == text);
            assert forall|k: int| 0 <= k < line.len() implies #[trigger] ascii(word)[k]
                == line[k] by {
                assert(text[k] == line[k] as char);
                assert((line[k] as char) as u8 == line[k]);
            }
            assert(line =~= ascii(word));
        }
    }
    if begins_with(line, word) {
        if line == ascii(word) {
            latin_of_ascii(word);
            pieces_alone(word, ' ');
        } else {
            let head = ascii(word.push(' '));
            let rest = text.skip(word.len() as int + 1);
            assert(text =~= word.push(' ') + rest) by {
                assert forall|k: int| 0 <= k < head.len() implies #[trigger] text[k] == word.push(
                    ' ',
                )[k] by {
                    assert(line[k] == head[k]);
                    assert(head[k] == word.push(' ')[k] as u8);
                    bytes_are_characters(word.push(' ')[k]);
                }
            }
            pieces_front(word, ' ', rest);
        }
    }
}

proof fn plain_lines_are_text(line: Seq<u8>)
    requires
        is_plain(line),
    ensures
        guard_of(line) is Text,
{
    words_are_ascii(GuardKind::Begin);
    words_are_ascii(GuardKind::End);
    words_are_ascii(GuardKind::Error);
    first_words_begin_lines(line, "%begin"@);
    first_words_begin_lines(line, "%end"@);
    first_words_begin_lines(line, "%error"@);
}

proof fn exits_are_told(line: Seq<u8>)
    ensures
        exit_line(line) == begins_with(line, "%exit"@),
{
    reveal_strlit("%exit");
    first_words_begin_lines(line, "%exit"@);
}

proof fn brackets_are_between(bytes: Seq<u8>)
    ensures
        open_brackets(bytes) <= opened(bytes),
        open_brackets(bytes) + ended(bytes) >= opened(bytes),
    decreases bytes.len(),
{
    if bytes.len() > 0 {
        brackets_are_between(bytes.drop_last());
    }
}

proof fn opened_in_front(bytes: Seq<u8>, n: int)
    requires
        0 <= n <= bytes.len(),
    ensures
        opened(bytes.take(n)) <= opened(bytes),
    decreases bytes.len() - n,
{
    if n < bytes.len() {
        opened_in_front(bytes, n + 1);
        assert(bytes.take(n + 1).drop_last() =~= bytes.take(n));
    } else {
        assert(bytes.take(n) =~= bytes);
    }
}

/// A layout is refused for its depth only where more than 64 brackets are opened in it,
/// and always where somewhere more than 64 are opened than closed.
pub proof fn deep_layouts_are_refused(line: Seq<u8>)
    ensures
        opened(line) <= 64 ==> !layout_too_deep(line),
        "%layout-change "@.is_prefix_of(latin(line)) ==> forall|n: int|
            0 <= n <= line.len() && opened(#[trigger] line.take(n)) > 64 + ended(line.take(n))
                ==> layout_too_deep(line),
        !("%layout-change "@.is_prefix_of(latin(line))) ==> !layout_too_deep(line),
{
    assert forall|n: int| 0 <= n <= line.len() implies open_brackets(#[trigger] line.take(n))
        <= opened(line) by {
        brackets_are_between(line.take(n));
        opened_in_front(line, n);
    }
    assert forall|n: int|
        0 <= n <= line.len() && opened(#[trigger] line.take(n)) > 64 + ended(
            line.take(n),
        ) implies open_brackets(line.take(n)) > 64 by {
        brackets_are_between(line.take(n));
    }
}

/// An open stream that stands at the start of a line.
pub open spec fn at_line(s: State) -> bool {
    !s.closed && s.line.len() == 0
}

proof fn bytes_are_collected(s: State, line: Seq<u8>)
    requires
        !s.closed,
        s.line.len() + line.len() <= s.limits.line_bytes,
        forall|i: int| 0 <= i < line.len() ==> #[trigger] line[i] != 0x0a,
    ensures
        on_bytes(s, line) == (
            State { line: s.line + line, ..s },
            Seq::<Event>::empty(),
            None::<Error>,
        ),
    decreases line.len(),
{
    if line.len() == 0 {
        assert(s.line + line =~= s.line);
    } else {
        assert(line[0] != 0x0a);
        let next = State { line: s.line.push(line[0]), ..s };
        let rest = line.drop_first();
        assert forall|i: int| 0 <= i < rest.len() implies #[trigger] rest[i] != 0x0a by {
            assert(rest[i] == line[i + 1]);
        }
        bytes_are_collected(next, rest);
        assert(s.line.push(line[0]) + rest =~= s.line + line);
        assert(Seq::<Event>::empty() + Seq::<Event>::empty() =~= Seq::<Event>::empty());
    }
}

/// A line and its ending, read at the start of a line.
proof fn a_line_is_read(s: State, line: Seq<u8>)
    requires
        at_line(s),
        fits(line, s.limits),
    ensures
        on_bytes(s, line.push(0x0a)) == on_byte(State { line, ..s }, 0x0a),
{
    let end = seq![0x0au8];
    bytes_are_collected(s, line);
    assert(s.line + line =~= line);
    assert(line.push(0x0a) =~= line + end);
    chunks_are_invisible(s, line, end);
    let middle = State { line, ..s };
    assert(end.drop_first() =~= Seq::<u8>::empty());
    reveal_with_fuel(on_bytes, 2);
    let (next, events, error) = on_byte(middle, 0x0a);
    assert(events + Seq::<Event>::empty() =~= events);
    assert(Seq::<Event>::empty() + events =~= events);
    assert(on_bytes(middle, end) == (next, events, error));
}

proof fn emptied(s: State)
    requires
        s.line.len() == 0,
    ensures
        s == (State { line: seq![], ..s }),
{
    assert(s.line =~= Seq::<u8>::empty());
}

proof fn a_reply_begins(s: State, guard: Guard)
    requires
        at_line(s),
        s.block is None,
        guard_bytes(GuardKind::Begin, guard).len() <= s.limits.line_bytes,
        guard.flags == 0 || s.last is None || guard.number > s.last->0,
    ensures
        on_bytes(s, guard_bytes(GuardKind::Begin, guard).push(0x0a)) == (
            State { block: Some(Block { guard, bytes: 0, lines: seq![] }), ..s },
            Seq::<Event>::empty(),
            None::<Error>,
        ),
{
    let line = guard_bytes(GuardKind::Begin, guard);
    guards_are_read(GuardKind::Begin, guard);
    a_line_is_read(s, line);
    emptied(s);
}

proof fn a_reply_ends(s: State, block: Block, failed: bool)
    requires
        at_line(s),
        s.block == Some(block),
        guard_bytes(closing(failed), block.guard).len() <= s.limits.line_bytes,
    ensures
        ({
            let said = Said::Reply { guard: block.guard, lines: block.lines, failed };
            on_bytes(s, guard_bytes(closing(failed), block.guard).push(0x0a)) == (
                State {
                    block: None,
                    last: if block.guard.flags != 0 {
                        Some(block.guard.number)
                    } else {
                        s.last
                    },
                    pending: waiting(said, s.pending),
                    ..s
                },
                brings(said, s.pending),
                None::<Error>,
            )
        }),
{
    let kind = closing(failed);
    let line = guard_bytes(kind, block.guard);
    guards_are_read(kind, block.guard);
    a_line_is_read(s, line);
    emptied(s);
    assert(crate::control::lossy_lines(block.lines) =~= reply_texts(block.lines));
}

proof fn lines_are_gathered(s: State, block: Block, lines: Seq<Seq<u8>>)
    requires
        at_line(s),
        s.block == Some(block),
        forall|i: int|
            0 <= i < lines.len() ==> fits(#[trigger] lines[i], s.limits) && is_plain(lines[i]),
        block.bytes + bytes_in(lines) <= s.limits.reply_bytes,
        block.lines.len() + lines.len() <= s.limits.reply_lines,
    ensures
        on_bytes(s, on_wire(lines)) == (
            State {
                block: Some(
                    Block {
                        guard: block.guard,
                        bytes: block.bytes + bytes_in(lines),
                        lines: block.lines + lines,
                    },
                ),
                ..s
            },
            Seq::<Event>::empty(),
            None::<Error>,
        ),
    decreases lines.len(),
{
    if lines.len() == 0 {
        assert(block.lines + lines =~= block.lines);
    } else {
        let line = lines[0];
        let rest = lines.drop_first();
        assert(fits(lines[0], s.limits) && is_plain(lines[0]));
        plain_lines_are_text(line);
        a_line_is_read(s, line);
        emptied(s);
        let grown = Block {
            guard: block.guard,
            bytes: block.bytes + line.len() + 1,
            lines: block.lines.push(line),
        };
        let next = State { block: Some(grown), ..s };
        assert(on_bytes(s, line.push(0x0a)) == (next, Seq::<Event>::empty(), None::<Error>));
        assert forall|i: int| 0 <= i < rest.len() implies fits(#[trigger] rest[i], s.limits)
            && is_plain(rest[i]) by {
            assert(rest[i] == lines[i + 1]);
        }
        lines_are_gathered(next, grown, rest);
        chunks_are_invisible(s, line.push(0x0a), on_wire(rest));
        assert(block.lines.push(line) + rest =~= block.lines + lines);
        assert(Seq::<Event>::empty() + Seq::<Event>::empty() =~= Seq::<Event>::empty());
    }
}

/// A state behind something that was said.
pub open spec fn behind(s: State, said: Said) -> State {
    State {
        pending: waiting(said, s.pending),
        last: if answers(said) {
            Some(said->guard.number)
        } else {
            s.last
        },
        ..s
    }
}

proof fn one_thing_is_read(s: State, said: Said)
    requires
        at_line(s),
        s.block is None,
        sound(said, s.limits),
        answers(said) && s.last is Some ==> said->guard.number > s.last->0,
    ensures
        on_bytes(s, said_bytes(said)) == (
            behind(s, said),
            brings(said, s.pending),
            None::<Error>,
        ),
{
    match said {
        Said::Reply { guard, lines, failed } => {
            let begin = guard_bytes(GuardKind::Begin, guard).push(0x0a);
            let end = guard_bytes(closing(failed), guard).push(0x0a);
            let started = Block { guard, bytes: 0, lines: seq![] };
            let s1 = State { block: Some(started), ..s };
            let gathered = Block { guard, bytes: bytes_in(lines), lines };
            let s2 = State { block: Some(gathered), ..s };
            a_reply_begins(s, guard);
            lines_are_gathered(s1, started, lines);
            assert(started.lines + lines =~= lines);
            a_reply_ends(s2, gathered, failed);
            chunks_are_invisible(s1, on_wire(lines), end);
            chunks_are_invisible(s, begin, on_wire(lines) + end);
            let events = brings(said, s.pending);
            assert(Seq::<Event>::empty() + events =~= events);
        },
        Said::Note(line) => {
            plain_lines_are_text(line);
            exits_are_told(line);
            deep_layouts_are_refused(line);
            a_line_is_read(s, line);
            emptied(s);
        },
    }
}

/// Every well-formed stream is accepted, and brings exactly what it says. Each reply to
/// this client answers the command that waits longest, with the lines between its
/// guards; a reply that is not to this client answers none; every notification is handed
/// on as it stands, in its place among the replies. The numbers of the replies rise, and
/// may leave gaps.
pub proof fn streams_are_understood(s: State, stream: Seq<Said>)
    requires
        at_line(s),
        s.block is None,
        forall|i: int| 0 <= i < stream.len() ==> sound(#[trigger] stream[i], s.limits),
        rising(stream, s.last),
    ensures
        on_bytes(s, stream_bytes(stream)) == (
            State {
                pending: all_waiting(stream, s.pending),
                last: last_number(stream, s.last),
                ..s
            },
            all_brought(stream, s.pending),
            None::<Error>,
        ),
    decreases stream.len(),
{
    if stream.len() > 0 {
        let said = stream[0];
        let rest = stream.drop_first();
        let next = behind(s, said);
        assert(sound(stream[0], s.limits));
        one_thing_is_read(s, said);
        assert forall|i: int| 0 <= i < rest.len() implies sound(#[trigger] rest[i], s.limits) by {
            assert(rest[i] == stream[i + 1]);
        }
        assert(rising(rest, next.last)) by {
            assert forall|i: int|
                0 <= i < rest.len() && answers(#[trigger] rest[i]) && next.last is Some implies
                rest[i]->guard.number > next.last->0 by {
                assert(rest[i] == stream[i + 1]);
                assert(answers(stream[i + 1]));
                if answers(said) {
                    assert(answers(stream[0]));
                }
            }
            assert forall|i: int, j: int|
                0 <= i < j < rest.len() && answers(#[trigger] rest[i]) && answers(
                    #[trigger] rest[j],
                ) implies rest[i]->guard.number < rest[j]->guard.number by {
                assert(answers(stream[i + 1]) && answers(stream[j + 1]));
            }
        }
        streams_are_understood(next, rest);
        last_number_in_turn(stream, s.last);
        chunks_are_invisible(s, said_bytes(said), stream_bytes(rest));
    }
}

proof fn last_number_in_turn(stream: Seq<Said>, last: Option<u64>)
    requires
        stream.len() > 0,
    ensures
        last_number(stream, last) == last_number(
            stream.drop_first(),
            if answers(stream[0]) {
                Some(stream[0]->guard.number)
            } else {
                last
            },
        ),
    decreases stream.len(),
{
    let rest = stream.drop_first();
    if stream.len() == 1 {
        assert(rest =~= Seq::<Said>::empty());
        assert(stream.drop_last() =~= Seq::<Said>::empty());
    } else {
        assert(rest.last() == stream.last());
        assert(rest.drop_last() =~= stream.drop_last().drop_first());
        last_number_in_turn(stream.drop_last(), last);
        assert(stream.drop_last()[0] == stream[0]);
    }
}

/// Replies answer the commands in the order of their registration: of replies with
/// rising numbers, the first answers the oldest command, the next one the command behind
/// it, and so on, each with exactly the lines between its guards. No other command is
/// answered, nothing else is brought, and the stream stays open.
pub proof fn replies_answer_in_order(s: State, stream: Seq<Said>)
    requires
        at_line(s),
        s.block is None,
        stream.len() <= s.pending.len(),
        forall|i: int|
            0 <= i < stream.len() ==> sound(#[trigger] stream[i], s.limits) && answers(stream[i]),
        rising(stream, s.last),
    ensures
        ({
            let (end, events, error) = on_bytes(s, stream_bytes(stream));
            &&& error is None
            &&& !end.closed
            &&& end.block is None
            &&& end.line.len() == 0
            &&& end.pending == s.pending.skip(stream.len() as int)
            &&& events.len() == stream.len()
            &&& forall|i: int|
                #![trigger events[i]]
                #![trigger stream[i]]
                0 <= i < stream.len() ==> {
                    &&& events[i] matches Event::Reply { id, answer }
                    &&& id == s.pending[i]
                    &&& !stream[i]->failed ==> answer == Answer::Done(
                        reply_texts(stream[i]->lines),
                    )
                    &&& stream[i]->failed ==> answer == Answer::Failed(
                        reply_texts(stream[i]->lines),
                    )
                }
        }),
{
    streams_are_understood(s, stream);
    answers_by_place(stream, s.pending);
}

proof fn answers_by_place(stream: Seq<Said>, pending: Seq<CommandId>)
    requires
        stream.len() <= pending.len(),
        forall|i: int| 0 <= i < stream.len() ==> answers(#[trigger] stream[i]),
    ensures
        all_waiting(stream, pending) == pending.skip(stream.len() as int),
        all_brought(stream, pending).len() == stream.len(),
        forall|i: int|
            0 <= i < stream.len() ==> #[trigger] all_brought(stream, pending)[i] == (
            Event::Reply {
                id: pending[i],
                answer: if stream[i]->failed {
                    Answer::Failed(reply_texts(stream[i]->lines))
                } else {
                    Answer::Done(reply_texts(stream[i]->lines))
                },
            }),
    decreases stream.len(),
{
    if stream.len() == 0 {
        assert(pending.skip(0) =~= pending);
    } else {
        let rest = stream.drop_first();
        let less = pending.drop_first();
        assert(answers(stream[0]));
        assert forall|i: int| 0 <= i < rest.len() implies answers(#[trigger] rest[i]) by {
            assert(rest[i] == stream[i + 1]);
        }
        answers_by_place(rest, less);
        assert(less.skip(rest.len() as int) =~= pending.skip(stream.len() as int));
        let all = all_brought(stream, pending);
        let more = all_brought(rest, less);
        assert(all == brings(stream[0], pending) + more);
        assert forall|i: int| 0 <= i < stream.len() implies #[trigger] all[i] == (Event::Reply {
            id: pending[i],
            answer: if stream[i]->failed {
                Answer::Failed(reply_texts(stream[i]->lines))
            } else {
                Answer::Done(reply_texts(stream[i]->lines))
            },
        }) by {
            if i > 0 {
                assert(all[i] == more[i - 1]);
                assert(rest[i - 1] == stream[i]);
                assert(less[i - 1] == pending[i]);
            }
        }
    }
}

/// The stream is closed with an error, and every command that waited is told that it is
/// disconnected, in order.
pub open spec fn broken_off(
    s: State,
    outcome: (State, Seq<Event>, Option<Error>),
    error: Error,
) -> bool {
    &&& outcome.2 == Some(error)
    &&& outcome.0.closed
    &&& outcome.0.pending.len() == 0
    &&& outcome.1.len() == s.pending.len()
    &&& forall|i: int|
        0 <= i < s.pending.len() ==> #[trigger] outcome.1[i] == (Event::Reply {
            id: s.pending[i],
            answer: Answer::Disconnected,
        })
}

/// A stream that breaks the rules is broken off, with the rule that it broke: a reply
/// inside another one, an end without a beginning or with another guard than the
/// beginning, a number that is not above the last one, a guard without its three
/// numbers.
pub proof fn broken_streams_are_refused(s: State, kind: GuardKind, guard: Guard)
    requires
        at_line(s),
        guard_bytes(kind, guard).len() <= s.limits.line_bytes,
    ensures
        ({
            let outcome = on_bytes(s, guard_bytes(kind, guard).push(0x0a));
            &&& s.block is Some && kind == GuardKind::Begin ==> broken_off(
                s,
                outcome,
                Error::NestedReply,
            )
            &&& s.block is Some && kind != GuardKind::Begin && guard != s.block->0.guard
                ==> broken_off(s, outcome, Error::MismatchedGuard)
            &&& s.block is None && kind != GuardKind::Begin ==> broken_off(
                s,
                outcome,
                Error::UnexpectedGuard,
            )
            &&& s.block is None && kind == GuardKind::Begin && guard.flags != 0 && (
            s.last matches Some(last) && guard.number <= last) ==> broken_off(
                s,
                outcome,
                Error::OutOfOrderReply,
            )
        }),
{
    guards_are_read(kind, guard);
    a_line_is_read(s, guard_bytes(kind, guard));
    emptied(s);
}

/// A line that begins like a guard and does not hold three fields behind its word breaks
/// the stream off, whether a reply has begun or not.
pub proof fn malformed_guards_are_refused(s: State, kind: GuardKind, line: Seq<u8>)
    requires
        at_line(s),
        fits(line, s.limits),
        begins_with(line, guard_word(kind)),
        pieces(latin(line), ' ').len() != 4 || number(
            pieces(latin(line), ' ')[1],
            u64::MAX as nat,
        ) is None || number(pieces(latin(line), ' ')[2], u64::MAX as nat) is None || number(
            pieces(latin(line), ' ')[3],
            u32::MAX as nat,
        ) is None,
    ensures
        broken_off(s, on_bytes(s, line.push(0x0a)), Error::MalformedGuard),
{
    words_are_ascii(kind);
    first_words_begin_lines(line, guard_word(kind));
    a_line_is_read(s, line);
    emptied(s);
}

/// What is longer than its limit breaks the stream off: a line, the lines of a reply
/// together, and their number.
pub proof fn long_streams_are_refused(s: State, line: Seq<u8>)
    requires
        at_line(s),
        forall|i: int| 0 <= i < line.len() ==> #[trigger] line[i] != 0x0a,
    ensures
        line.len() > s.limits.line_bytes ==> broken_off(
            s,
            on_bytes(s, line.take(s.limits.line_bytes as int + 1)),
            Error::LineTooLong,
        ),
        line.len() <= s.limits.line_bytes && is_plain(line) && s.block is Some
            && s.block->0.bytes + line.len() + 1 > s.limits.reply_bytes ==> broken_off(
            s,
            on_bytes(s, line.push(0x0a)),
            Error::ReplyTooLarge,
        ),
        line.len() <= s.limits.line_bytes && is_plain(line) && s.block is Some
            && s.block->0.bytes + line.len() + 1 <= s.limits.reply_bytes
            && s.block->0.lines.len() + 1 > s.limits.reply_lines ==> broken_off(
            s,
            on_bytes(s, line.push(0x0a)),
            Error::TooManyReplyLines,
        ),
        line.len() <= s.limits.line_bytes && is_plain(line) && s.block is None
            && layout_too_deep(line) ==> broken_off(
            s,
            on_bytes(s, line.push(0x0a)),
            Error::LayoutTooDeep,
        ),
{
    emptied(s);
    if line.len() > s.limits.line_bytes {
        let n = s.limits.line_bytes as int;
        let front = line.take(n);
        let more = seq![line[n]];
        assert forall|i: int| 0 <= i < front.len() implies #[trigger] front[i] != 0x0a by {
            assert(front[i] == line[i]);
        }
        bytes_are_collected(s, front);
        assert(s.line + front =~= front);
        assert(line.take(n + 1) =~= front + more);
        chunks_are_invisible(s, front, more);
        let full = State { line: front, ..s };
        assert(line[n] != 0x0a);
        reveal_with_fuel(on_bytes, 2);
        let (next, events, error) = on_byte(full, line[n]);
        assert(on_bytes(full, more) == (next, events, error));
        assert(Seq::<Event>::empty() + events =~= events);
    } else {
        a_line_is_read(s, line);
        if is_plain(line) {
            plain_lines_are_text(line);
        }
    }
}

/// An exit is handed on, and behind it the stream is closed: every command that waits is
/// told that it is disconnected.
pub proof fn exits_close_the_stream(s: State, line: Seq<u8>)
    requires
        at_line(s),
        s.block is None,
        fits(line, s.limits),
        begins_with(line, "%exit"@),
        opened(line) <= 64,
    ensures
        ({
            let (end, events, error) = on_bytes(s, line.push(0x0a));
            &&& error is None
            &&& end.closed
            &&& end.pending.len() == 0
            &&& events.len() == s.pending.len() + 1
            &&& events[0] == Event::Line(line)
            &&& forall|i: int|
                0 <= i < s.pending.len() ==> #[trigger] events[i + 1] == (Event::Reply {
                    id: s.pending[i],
                    answer: Answer::Disconnected,
                })
        }),
{
    reveal_strlit("%exit");
    reveal_strlit("%begin");
    reveal_strlit("%end");
    reveal_strlit("%error");
    assert("%exit"@.len() == 5 && "%begin"@.len() == 6 && "%end"@.len() == 4 && "%error"@.len()
        == 6);
    first_words_begin_lines(line, "%exit"@);
    assert("%exit"@[2] == 'x' && "%end"@[2] == 'n' && "%error"@[2] == 'r' && "%begin"@[1] == 'b');
    exits_are_told(line);
    deep_layouts_are_refused(line);
    a_line_is_read(s, line);
    emptied(s);
}

} // verus!
