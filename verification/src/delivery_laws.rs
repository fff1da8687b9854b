//! What a tmux server makes of the commands that carry out what the user did.
//!
//! The server here knows the few commands that are sent to it. It reads each from its
//! words, and what it then holds and what a pane then received is compared with what
//! was typed, pasted or resized.
use vstd::prelude::*;
use vstd::string::*;
use vstd::utf8::*;

use crate::command::{
    act_lines, all_act_lines, first_act_error, hex_bytes, hex_digit, octal_bytes, pane_text,
    paste_line, paste_lines, valid_buffer, PASTE_CHUNK,
};
use crate::input::{
    act_error, base_name, modifier_text, valid_key, Act, Axis, Key, Modifiers, Resize,
};
use crate::text::{
    decimal, decimal_reads_back, digit_char, number, pieces, pieces_alone, pieces_behind,
    pieces_front,
};
use crate::tmux::PaneId;
use crate::values::sizes_fit;

verus! {

/// One thing that a server was made to do.
pub enum Received {
    /// Bytes for a pane, as if they were typed.
    Bytes(nat, Seq<u8>),
    /// A key for a pane.
    Key(nat, Key, Modifiers),
    /// The contents of a buffer, pasted into a pane.
    Pasted(nat, Seq<u8>),
    /// A pane is so many columns wide.
    Columns(nat, nat),
    /// A pane is so many rows high.
    Rows(nat, nat),
    /// The client shows so many columns and rows.
    Client(nat, nat),
}

/// What a server holds, and what it did.
pub struct Server {
    pub buffers: Map<Seq<char>, Seq<u8>>,
    pub received: Seq<Received>,
}

/// What an action comes to in the end.
pub open spec fn meant(pane: PaneId, act: Act) -> Received {
    let id = pane.0 as nat;
    match act {
        Act::Bytes(bytes) => Received::Bytes(id, bytes),
        Act::Key(key, modifiers) => Received::Key(id, key, modifiers),
        Act::Paste(text) => Received::Pasted(id, encode_utf8(text)),
        Act::Resize(resize) => match resize.axis {
            Axis::Columns => Received::Columns(id, resize.cells as nat),
            Axis::Rows => Received::Rows(id, resize.cells as nat),
        },
        Act::ClientSize(size) => Received::Client(size.spec_columns(), size.spec_rows()),
    }
}

/// The value of a hexadecimal digit.
pub open spec fn nibble(c: char) -> Option<int> {
    if '0' <= c && c <= '9' {
        Some(c as int - '0' as int)
    } else if 'a' <= c && c <= 'f' {
        Some(c as int - 'a' as int + 10)
    } else {
        None
    }
}

/// The bytes that words of two hexadecimal digits stand for.
pub open spec fn bytes_of_words(words: Seq<Seq<char>>) -> Option<Seq<u8>>
    decreases words.len(),
{
    if words.len() == 0 {
        Some(seq![])
    } else {
        let w = words.last();
        match bytes_of_words(words.drop_last()) {
            Some(front) => if w.len() == 2 && nibble(w[0]) is Some && nibble(w[1]) is Some {
                Some(front.push((nibble(w[0])->0 * 16 + nibble(w[1])->0) as u8))
            } else {
                None
            },
            None => None,
        }
    }
}

pub open spec fn octal_value(c: char) -> int {
    c as int - '0' as int
}

pub open spec fn is_octal(c: char) -> bool {
    '0' <= c && c <= '7'
}

/// The bytes that a run of backslashes, each with three octal digits, stands for.
pub open spec fn bytes_of_octal(s: Seq<char>) -> Option<Seq<u8>>
    decreases s.len(),
{
    let n = s.len() - 4;
    if s.len() == 0 {
        Some(seq![])
    } else if n < 0 || s[n] != '\\' || !is_octal(s[n + 1]) || !is_octal(s[n + 2]) || !is_octal(
        s[n + 3],
    ) || s[n + 1] > '3' {
        None
    } else {
        match bytes_of_octal(s.take(n)) {
            Some(front) => Some(
                front.push(
                    (octal_value(s[n + 1]) * 64 + octal_value(s[n + 2]) * 8 + octal_value(
                        s[n + 3],
                    )) as u8,
                ),
            ),
            None => None,
        }
    }
}

/// The bytes of a word in double quotes.
pub open spec fn bytes_of_quoted(w: Seq<char>) -> Option<Seq<u8>> {
    if w.len() >= 2 && w[0] == '"' && w.last() == '"' {
        bytes_of_octal(w.subrange(1, w.len() - 1))
    } else {
        None
    }
}

/// The pane that a word names.
pub open spec fn pane_of(w: Seq<char>) -> Option<nat> {
    if w.len() > 1 && w[0] == '%' {
        number(w.drop_first(), u32::MAX as nat)
    } else {
        None
    }
}

/// The key that tmux knows under a name.
pub open spec fn plain_key(w: Seq<char>) -> Option<Key> {
    if w == "Enter"@ {
        Some(Key::Enter)
    } else if w == "Tab"@ {
        Some(Key::Tab)
    } else if w == "Escape"@ {
        Some(Key::Escape)
    } else if w == "BSpace"@ {
        Some(Key::Backspace)
    } else if w == "Up"@ {
        Some(Key::Up)
    } else if w == "Down"@ {
        Some(Key::Down)
    } else if w == "Left"@ {
        Some(Key::Left)
    } else if w == "Right"@ {
        Some(Key::Right)
    } else if w == "Home"@ {
        Some(Key::Home)
    } else if w == "End"@ {
        Some(Key::End)
    } else if w == "PageUp"@ {
        Some(Key::PageUp)
    } else if w == "PageDown"@ {
        Some(Key::PageDown)
    } else if w == "IC"@ {
        Some(Key::Insert)
    } else if w == "DC"@ {
        Some(Key::Delete)
    } else if w.len() > 1 && w[0] == 'F' && number(w.drop_first(), 20) is Some {
        Some(Key::Function(number(w.drop_first(), 20)->0 as u8))
    } else {
        None
    }
}

pub open spec fn has_modifier(w: Seq<char>, letter: char) -> bool {
    w.len() >= 2 && w[0] == letter && w[1] == '-'
}

pub open spec fn behind_modifier(w: Seq<char>, letter: char) -> Seq<char> {
    if has_modifier(w, letter) {
        w.skip(2)
    } else {
        w
    }
}

/// The key, and what is held down with it, that tmux knows under a name.
pub open spec fn key_of(w: Seq<char>) -> Option<(Key, Modifiers)> {
    let a = behind_modifier(w, 'C');
    let b = behind_modifier(a, 'M');
    let c = behind_modifier(b, 'S');
    match plain_key(c) {
        Some(key) => Some(
            (
                key,
                Modifiers {
                    control: has_modifier(w, 'C'),
                    alt: has_modifier(a, 'M'),
                    shift: has_modifier(b, 'S'),
                },
            ),
        ),
        None => None,
    }
}

pub open spec fn with_received(s: Server, what: Received) -> Option<Server> {
    Some(Server { received: s.received.push(what), ..s })
}

/// The words of a command line.
pub open spec fn words_of(line: Seq<char>) -> Seq<Seq<char>> {
    pieces(line.drop_last(), ' ')
}

/// What a server does with one line. A line that it does not understand has no effect
/// that could be named.
pub open spec fn obey(s: Server, line: Seq<char>) -> Option<Server> {
    let w = words_of(line);
    if line.len() == 0 || line.last() != '\n' {
        None
    } else if w[0] == "send-keys"@ && w.len() > 4 && w[1] == "-H"@ && w[2] == "-t"@ {
        match (pane_of(w[3]), bytes_of_words(w.skip(4))) {
            (Some(pane), Some(bytes)) => with_received(s, Received::Bytes(pane, bytes)),
            _ => None,
        }
    } else if w[0] == "send-keys"@ && w.len() == 4 && w[1] == "-t"@ {
        match (pane_of(w[2]), key_of(w[3])) {
            (Some(pane), Some((key, modifiers))) => with_received(
                s,
                Received::Key(pane, key, modifiers),
            ),
            _ => None,
        }
    } else if w[0] == "set-buffer"@ && w.len() == 4 && w[1] == "-b"@ {
        match bytes_of_quoted(w[3]) {
            Some(bytes) => Some(Server { buffers: s.buffers.insert(w[2], bytes), ..s }),
            None => None,
        }
    } else if w[0] == "set-buffer"@ && w.len() == 5 && w[1] == "-a"@ && w[2] == "-b"@ {
        match bytes_of_quoted(w[4]) {
            Some(bytes) => Some(
                Server {
                    buffers: s.buffers.insert(
                        w[3],
                        (if s.buffers.contains_key(w[3]) {
                            s.buffers[w[3]]
                        } else {
                            seq![]
                        }) + bytes,
                    ),
                    ..s
                },
            ),
            None => None,
        }
    } else if w[0] == "paste-buffer"@ && w.len() == 7 && w[1] == "-d"@ && w[2] == "-p"@ && w[3]
        == "-b"@ && w[5] == "-t"@ {
        if s.buffers.contains_key(w[4]) && pane_of(w[6]) is Some {
            with_received(
                Server { buffers: s.buffers.remove(w[4]), ..s },
                Received::Pasted(pane_of(w[6])->0, s.buffers[w[4]]),
            )
        } else {
            None
        }
    } else if w[0] == "resize-pane"@ && w.len() == 5 && w[1] == "-t"@ && (w[3] == "-x"@ || w[3]
        == "-y"@) {
        match (pane_of(w[2]), number(w[4], u16::MAX as nat)) {
            (Some(pane), Some(cells)) => with_received(
                s,
                if w[3] == "-x"@ {
                    Received::Columns(pane, cells)
                } else {
                    Received::Rows(pane, cells)
                },
            ),
            _ => None,
        }
    } else if w[0] == "refresh-client"@ && w.len() == 3 && w[1] == "-C"@ {
        let size = pieces(w[2], 'x');
        if size.len() == 2 && number(size[0], usize::MAX as nat) is Some && number(
            size[1],
            usize::MAX as nat,
        ) is Some {
            with_received(
                s,
                Received::Client(
                    number(size[0], usize::MAX as nat)->0,
                    number(size[1], usize::MAX as nat)->0,
                ),
            )
        } else {
            None
        }
    } else {
        None
    }
}

/// What a server does with lines, one after the other.
pub open spec fn obeyed(s: Server, lines: Seq<Seq<char>>) -> Option<Server>
    decreases lines.len(),
{
    if lines.len() == 0 {
        Some(s)
    } else {
        match obey(s, lines[0]) {
            Some(next) => obeyed(next, lines.drop_first()),
            None => None,
        }
    }
}

proof fn obeyed_in_turn(s: Server, a: Seq<Seq<char>>, b: Seq<Seq<char>>)
    ensures
        obeyed(s, a + b) == match obeyed(s, a) {
            Some(next) => obeyed(next, b),
            None => None,
        },
    decreases a.len(),
{
    if a.len() == 0 {
        assert(a + b =~= b);
    } else {
        assert((a + b).drop_first() =~= a.drop_first() + b);
        assert((a + b)[0] == a[0]);
        if let Some(next) = obey(s, a[0]) {
            obeyed_in_turn(next, a.drop_first(), b);
        }
    }
}

proof fn obeyed_one(s: Server, line: Seq<char>)
    ensures
        obeyed(s, seq![line]) == obey(s, line),
{
    let one = seq![line];
    assert(one.drop_first() =~= Seq::<Seq<char>>::empty());
    reveal_with_fuel(obeyed, 2);
}

/// No space in a word.
spec fn unspaced(w: Seq<char>) -> bool {
    !w.contains(' ')
}

proof fn digits_are_unspaced(n: nat)
    ensures
        unspaced(decimal(n)),
        !decimal(n).contains('x'),
{
    decimal_reads_back(n);
    let w = decimal(n);
    if w.contains(' ') {
        let i = choose|i: int| 0 <= i < w.len() && w[i] == ' ';
        assert(digit_char(w[i]));
    }
    if w.contains('x') {
        let i = choose|i: int| 0 <= i < w.len() && w[i] == 'x';
        assert(digit_char(w[i]));
    }
}

proof fn panes_are_read(pane: PaneId)
    ensures
        unspaced(pane_text(pane)),
        pane_of(pane_text(pane)) == Some(pane.0 as nat),
{
    let w = pane_text(pane);
    digits_are_unspaced(pane.0 as nat);
    decimal_reads_back(pane.0 as nat);
    assert(w.drop_first() =~= decimal(pane.0 as nat));
    if w.contains(' ') {
        let i = choose|i: int| 0 <= i < w.len() && w[i] == ' ';
        assert(decimal(pane.0 as nat)[i - 1] == ' ');
        assert(decimal(pane.0 as nat).contains(' '));
    }
}

proof fn buffers_are_unspaced(buffer: Seq<char>)
    requires
        valid_buffer(buffer),
    ensures
        unspaced(buffer),
{
    if buffer.contains(' ') {
        let i = choose|i: int| 0 <= i < buffer.len() && buffer[i] == ' ';
        assert(buffer[i] == '-' || buffer[i] >= '0');
    }
}

/// Two hexadecimal digits for each byte.
spec fn hex_words(bytes: Seq<u8>) -> Seq<Seq<char>> {
    bytes.map_values(|b: u8| seq![hex_digit(b as int / 16), hex_digit(b as int % 16)])
}

proof fn hex_is_cut(head: Seq<char>, bytes: Seq<u8>)
    ensures
        pieces(head + hex_bytes(bytes), ' ') == pieces(head, ' ') + hex_words(bytes),
    decreases bytes.len(),
{
    if bytes.len() == 0 {
        assert(head + hex_bytes(bytes) =~= head);
        assert(pieces(head, ' ') + hex_words(bytes) =~= pieces(head, ' '));
    } else {
        let front = bytes.drop_last();
        let b = bytes.last();
        let w = seq![hex_digit(b as int / 16), hex_digit(b as int % 16)];
        hex_is_cut(head, front);
        assert(!w.contains(' '));
        pieces_behind(head + hex_bytes(front), ' ', w);
        assert(head + hex_bytes(bytes) =~= (head + hex_bytes(front)).push(' ') + w);
        assert(hex_words(bytes) =~= hex_words(front).push(w));
        assert(pieces(head, ' ') + hex_words(bytes) =~= (pieces(head, ' ') + hex_words(
            front,
        )).push(w));
    }
}

proof fn hex_is_read(bytes: Seq<u8>)
    ensures
        bytes_of_words(hex_words(bytes)) == Some(bytes),
    decreases bytes.len(),
{
    if bytes.len() == 0 {
        assert(bytes =~= Seq::<u8>::empty());
    } else {
        let front = bytes.drop_last();
        let b = bytes.last();
        hex_is_read(front);
        assert(hex_words(bytes).drop_last() =~= hex_words(front));
        assert(b as int / 16 * 16 + b as int % 16 == b);
        assert(front.push(b) =~= bytes);
    }
}

proof fn octal_is_read(bytes: Seq<u8>)
    ensures
        bytes_of_octal(octal_bytes(bytes)) == Some(bytes),
        unspaced(octal_bytes(bytes)),
    decreases bytes.len(),
{
    let s = octal_bytes(bytes);
    if bytes.len() == 0 {
        assert(bytes =~= Seq::<u8>::empty());
    } else {
        let front = bytes.drop_last();
        let b = bytes.last();
        octal_is_read(front);
        let n = s.len() - 4;
        assert(s.take(n) =~= octal_bytes(front));
        assert(b as int / 64 * 64 + b as int / 8 % 8 * 8 + b as int % 8 == b);
        assert(front.push(b) =~= bytes);
        if s.contains(' ') {
            let i = choose|i: int| 0 <= i < s.len() && s[i] == ' ';
            if i < n {
                assert(octal_bytes(front)[i] == ' ');
                assert(octal_bytes(front).contains(' '));
            }
        }
    }
}

proof fn typed_bytes_arrive(s: Server, pane: PaneId, bytes: Seq<u8>)
    requires
        bytes.len() > 0,
    ensures
        obey(s, ("send-keys -H -t "@ + pane_text(pane) + hex_bytes(bytes)).push('\n'))
            == with_received(s, Received::Bytes(pane.0 as nat, bytes)),
{
    let body = "send-keys -H -t "@ + pane_text(pane) + hex_bytes(bytes);
    reveal_strlit("send-keys -H -t ");
    reveal_strlit("send-keys");
    reveal_strlit("-H");
    reveal_strlit("-t");
    panes_are_read(pane);
    let r3 = pane_text(pane) + hex_bytes(bytes);
    let r2 = "-t"@.push(' ') + r3;
    let r1 = "-H"@.push(' ') + r2;
    assert("send-keys -H -t "@ =~= "send-keys"@.push(' ') + "-H"@.push(' ') + "-t"@.push(' '));
    assert(body =~= "send-keys"@.push(' ') + r1);
    pieces_front("send-keys"@, ' ', r1);
    pieces_front("-H"@, ' ', r2);
    pieces_front("-t"@, ' ', r3);
    hex_is_cut(pane_text(pane), bytes);
    pieces_alone(pane_text(pane), ' ');
    let line = body.push('\n');
    assert(line.drop_last() =~= body);
    let w = words_of(line);
    assert(w.skip(4) =~= hex_words(bytes));
    hex_is_read(bytes);
}

proof fn key_names_are_unspaced(key: Key, modifiers: Modifiers)
    ensures
        unspaced(modifier_text(modifiers) + base_name(key)),
{
    reveal_strlit("Enter");
    reveal_strlit("Tab");
    reveal_strlit("Escape");
    reveal_strlit("BSpace");
    reveal_strlit("Up");
    reveal_strlit("Down");
    reveal_strlit("Left");
    reveal_strlit("Right");
    reveal_strlit("Home");
    reveal_strlit("End");
    reveal_strlit("PageUp");
    reveal_strlit("PageDown");
    reveal_strlit("IC");
    reveal_strlit("DC");
    if let Key::Function(n) = key {
        digits_are_unspaced(n as nat);
    }
    let a = modifier_text(modifiers);
    let b = base_name(key);
    let w = a + b;
    assert forall|i: int| 0 <= i < b.len() implies #[trigger] b[i] != ' ' by {
        if let Key::Function(n) = key {
            if i > 0 {
                assert(b[i] == decimal(n as nat)[i - 1]);
                assert(decimal(n as nat).contains(b[i]));
            }
        }
    }
    if w.contains(' ') {
        let i = choose|i: int| 0 <= i < w.len() && w[i] == ' ';
        if i >= a.len() {
            assert(w[i] == b[i - a.len()]);
        }
    }
}

proof fn plain_keys_are_read(key: Key)
    requires
        valid_key(key),
    ensures
        plain_key(base_name(key)) == Some(key),
        !has_modifier(base_name(key), 'C'),
        !has_modifier(base_name(key), 'M'),
        !has_modifier(base_name(key), 'S'),
        base_name(key).len() > 0,
{
    reveal_strlit("Enter");
    reveal_strlit("Tab");
    reveal_strlit("Escape");
    reveal_strlit("BSpace");
    reveal_strlit("Up");
    reveal_strlit("Down");
    reveal_strlit("Left");
    reveal_strlit("Right");
    reveal_strlit("Home");
    reveal_strlit("End");
    reveal_strlit("PageUp");
    reveal_strlit("PageDown");
    reveal_strlit("IC");
    reveal_strlit("DC");
    let w = base_name(key);
    assert("Enter"@.len() == 5 && "Tab"@.len() == 3 && "Escape"@.len() == 6 && "BSpace"@.len() == 6
        && "Up"@.len() == 2 && "Down"@.len() == 4 && "Left"@.len() == 4 && "Right"@.len() == 5
        && "Home"@.len() == 4 && "End"@.len() == 3 && "PageUp"@.len() == 6 && "PageDown"@.len()
        == 8 && "IC"@.len() == 2 && "DC"@.len() == 2);
    assert("Enter"@[0] == 'E' && "Tab"@[0] == 'T' && "Escape"@[0] == 'E' && "BSpace"@[0] == 'B'
        && "Up"@[0] == 'U' && "Down"@[0] == 'D' && "Left"@[0] == 'L' && "Right"@[0] == 'R'
        && "Home"@[0] == 'H' && "End"@[0] == 'E' && "PageUp"@[0] == 'P' && "PageDown"@[0] == 'P'
        && "IC"@[0] == 'I' && "DC"@[0] == 'D');
    if let Key::Function(n) = key {
        decimal_reads_back(n as nat);
        assert(w.drop_first() =~= decimal(n as nat));
        assert(w[0] == 'F');
        assert(decimal(n as nat).len() > 0);
    }
}

proof fn keys_are_read(key: Key, modifiers: Modifiers)
    requires
        valid_key(key),
    ensures
        key_of(modifier_text(modifiers) + base_name(key)) == Some((key, modifiers)),
{
    plain_keys_are_read(key);
    let name = base_name(key);
    let shift = (if modifiers.shift {
        seq!['S', '-']
    } else {
        seq![]
    }) + name;
    let alt = (if modifiers.alt {
        seq!['M', '-']
    } else {
        seq![]
    }) + shift;
    let whole = (if modifiers.control {
        seq!['C', '-']
    } else {
        seq![]
    }) + alt;
    assert(modifier_text(modifiers) + name =~= whole);
    if modifiers.shift {
        assert(shift.skip(2) =~= name);
        assert(shift[0] == 'S');
    } else {
        assert(shift =~= name);
    }
    assert(behind_modifier(shift, 'S') == name);
    assert(has_modifier(shift, 'S') == modifiers.shift);
    assert(!has_modifier(shift, 'C') && !has_modifier(shift, 'M'));
    if modifiers.alt {
        assert(alt.skip(2) =~= shift);
        assert(alt[0] == 'M');
    } else {
        assert(alt =~= shift);
    }
    assert(behind_modifier(alt, 'M') == shift);
    assert(has_modifier(alt, 'M') == modifiers.alt);
    assert(!has_modifier(alt, 'C'));
    if modifiers.control {
        assert(whole.skip(2) =~= alt);
        assert(whole[0] == 'C');
    } else {
        assert(whole =~= alt);
    }
    assert(behind_modifier(whole, 'C') == alt);
    assert(has_modifier(whole, 'C') == modifiers.control);
}

#[verifier::rlimit(40)]
proof fn typed_keys_arrive(s: Server, pane: PaneId, key: Key, modifiers: Modifiers)
    requires
        valid_key(key),
    ensures
        obey(
            s,
            ("send-keys -t "@ + pane_text(pane) + " "@ + modifier_text(modifiers)
                + base_name(key)).push('\n'),
        ) == with_received(s, Received::Key(pane.0 as nat, key, modifiers)),
{
    let name = modifier_text(modifiers) + base_name(key);
    let body = "send-keys -t "@ + pane_text(pane) + " "@ + modifier_text(modifiers) + base_name(
        key,
    );
    reveal_strlit("send-keys -t ");
    reveal_strlit("send-keys");
    reveal_strlit("-t");
    reveal_strlit("-H");
    reveal_strlit(" ");
    panes_are_read(pane);
    keys_are_read(key, modifiers);
    key_names_are_unspaced(key, modifiers);
    let r2 = pane_text(pane).push(' ') + name;
    let r1 = "-t"@.push(' ') + r2;
    assert("send-keys -t "@ =~= "send-keys"@.push(' ') + "-t"@.push(' '));
    assert(body =~= "send-keys"@.push(' ') + r1);
    pieces_front("send-keys"@, ' ', r1);
    pieces_front("-t"@, ' ', r2);
    pieces_front(pane_text(pane), ' ', name);
    pieces_alone(name, ' ');
    let line = body.push('\n');
    assert(line.drop_last() =~= body);
    let w = words_of(line);
    assert(w =~= seq!["send-keys"@, "-t"@, pane_text(pane), name]);
    assert("-t"@[1] != "-H"@[1]);
}

/// What stands in quotes for a chunk.
spec fn quoted_chunk(chunk: Seq<u8>) -> Seq<char> {
    seq!['"'] + octal_bytes(chunk) + seq!['"']
}

proof fn quoted_chunks_are_read(chunk: Seq<u8>)
    ensures
        bytes_of_quoted(quoted_chunk(chunk)) == Some(chunk),
        !quoted_chunk(chunk).contains(' '),
{
    octal_is_read(chunk);
    let octal = octal_bytes(chunk);
    let quoted = quoted_chunk(chunk);
    assert(quoted.subrange(1, quoted.len() - 1) =~= octal);
    if quoted.contains(' ') {
        let i = choose|i: int| 0 <= i < quoted.len() && quoted[i] == ' ';
        assert(octal[i - 1] == ' ');
        assert(octal.contains(' '));
    }
}

/// A chunk line, word by word.
spec fn spoken_chunk(first: bool, buffer: Seq<char>, chunk: Seq<u8>) -> Seq<char> {
    let r1 = "-b"@.push(' ') + (buffer.push(' ') + quoted_chunk(chunk));
    "set-buffer"@.push(' ') + (if first {
        r1
    } else {
        "-a"@.push(' ') + r1
    })
}

proof fn chunk_lines_are_spoken(first: bool, buffer: Seq<char>, chunk: Seq<u8>)
    ensures
        paste_line(first, buffer, chunk) == spoken_chunk(first, buffer, chunk).push('\n'),
{
    reveal_strlit("set-buffer ");
    reveal_strlit("set-buffer");
    reveal_strlit("");
    reveal_strlit("-a ");
    reveal_strlit("-a");
    reveal_strlit("-b ");
    reveal_strlit("-b");
    reveal_strlit(" \"");
    reveal_strlit("\"\n");
    let octal = octal_bytes(chunk);
    assert("set-buffer "@ =~= "set-buffer"@.push(' '));
    assert("-a "@ =~= "-a"@.push(' '));
    assert("-b "@ =~= "-b"@.push(' '));
    assert(" \""@ =~= seq![' ', '"']);
    assert("\"\n"@ =~= seq!['"', '\n']);
    assert(""@ =~= Seq::<char>::empty());
    let line = paste_line(first, buffer, chunk);
    let set = "set-buffer"@;
    let (b, q) = ("-b"@, seq![' ', '"']);
    let e = seq!['"', '\n'];
    if first {
        assert(line == set.push(' ') + Seq::<char>::empty() + b.push(' ') + buffer + q + octal + e);
        assert(set.push(' ') + Seq::<char>::empty() + b.push(' ') + buffer + q + octal + e =~= (
        set.push(' ') + (b.push(' ') + (buffer.push(' ') + (seq!['"'] + octal + seq!['"'])))).push(
            '\n',
        ));
    } else {
        let a = "-a"@;
        assert(line == set.push(' ') + a.push(' ') + b.push(' ') + buffer + q + octal + e);
        assert(set.push(' ') + a.push(' ') + b.push(' ') + buffer + q + octal + e =~= (set.push(' ')
            + (a.push(' ') + (b.push(' ') + (buffer.push(' ') + (seq!['"'] + octal
            + seq!['"']))))).push('\n'));
    }
}

proof fn chunk_lines_are_cut(first: bool, buffer: Seq<char>, chunk: Seq<u8>)
    requires
        valid_buffer(buffer),
    ensures
        pieces(spoken_chunk(first, buffer, chunk), ' ') == if first {
            seq!["set-buffer"@, "-b"@, buffer, quoted_chunk(chunk)]
        } else {
            seq!["set-buffer"@, "-a"@, "-b"@, buffer, quoted_chunk(chunk)]
        },
{
    let quoted = quoted_chunk(chunk);
    quoted_chunks_are_read(chunk);
    buffers_are_unspaced(buffer);
    let r2 = buffer.push(' ') + quoted;
    let r1 = "-b"@.push(' ') + r2;
    assert(!"set-buffer"@.contains(' ') && !"-a"@.contains(' ') && !"-b"@.contains(' ')) by {
        reveal_strlit("set-buffer");
        reveal_strlit("-a");
        reveal_strlit("-b");
    }
    pieces_front("set-buffer"@, ' ', if first {
        r1
    } else {
        "-a"@.push(' ') + r1
    });
    pieces_front("-a"@, ' ', r1);
    pieces_front("-b"@, ' ', r2);
    pieces_front(buffer, ' ', quoted);
    pieces_alone(quoted, ' ');
    let w = pieces(spoken_chunk(first, buffer, chunk), ' ');
    if first {
        assert(w =~= seq!["set-buffer"@, "-b"@, buffer, quoted]);
    } else {
        assert(w =~= seq!["set-buffer"@, "-a"@, "-b"@, buffer, quoted]);
    }
}

proof fn chunks_are_stored(s: Server, first: bool, buffer: Seq<char>, chunk: Seq<u8>)
    requires
        valid_buffer(buffer),
    ensures
        obey(s, paste_line(first, buffer, chunk)) == Some(
            Server {
                buffers: s.buffers.insert(
                    buffer,
                    if !first && s.buffers.contains_key(buffer) {
                        s.buffers[buffer] + chunk
                    } else {
                        chunk
                    },
                ),
                ..s
            },
        ),
{
    let line = paste_line(first, buffer, chunk);
    let body = spoken_chunk(first, buffer, chunk);
    chunk_lines_are_spoken(first, buffer, chunk);
    chunk_lines_are_cut(first, buffer, chunk);
    quoted_chunks_are_read(chunk);
    assert(line.drop_last() =~= body);
    assert(Seq::<u8>::empty() + chunk =~= chunk);
    assert("set-buffer"@ != "send-keys"@ && "-a"@ != "-b"@) by {
        reveal_strlit("set-buffer");
        reveal_strlit("send-keys");
        reveal_strlit("-a");
        reveal_strlit("-b");
        assert("set-buffer"@.len() != "send-keys"@.len());
        assert("-a"@[1] != "-b"@[1]);
    }
}

proof fn pastes_are_stored(s: Server, first: bool, buffer: Seq<char>, bytes: Seq<u8>)
    requires
        valid_buffer(buffer),
        bytes.len() > 0,
        !first ==> s.buffers.contains_key(buffer),
    ensures
        obeyed(s, paste_lines(first, buffer, bytes)) == Some(
            Server {
                buffers: s.buffers.insert(
                    buffer,
                    if first {
                        bytes
                    } else {
                        s.buffers[buffer] + bytes
                    },
                ),
                ..s
            },
        ),
    decreases bytes.len(),
{
    if bytes.len() <= PASTE_CHUNK {
        chunks_are_stored(s, first, buffer, bytes);
        obeyed_one(s, paste_line(first, buffer, bytes));
    } else {
        let head = bytes.take(PASTE_CHUNK as int);
        let rest = bytes.skip(PASTE_CHUNK as int);
        chunks_are_stored(s, first, buffer, head);
        let line = paste_line(first, buffer, head);
        let next = obey(s, line)->0;
        pastes_are_stored(next, false, buffer, rest);
        obeyed_in_turn(s, seq![line], paste_lines(false, buffer, rest));
        obeyed_one(s, line);
        let whole = if first {
            bytes
        } else {
            s.buffers[buffer] + bytes
        };
        assert(next.buffers[buffer] + rest =~= whole);
        assert(next.buffers.insert(buffer, whole) =~= s.buffers.insert(buffer, whole));
    }
}

#[verifier::rlimit(40)]
proof fn buffers_are_pasted(s: Server, buffer: Seq<char>, pane: PaneId)
    requires
        valid_buffer(buffer),
        s.buffers.contains_key(buffer),
    ensures
        obey(s, "paste-buffer -d -p -b "@ + buffer + " -t "@ + pane_text(pane) + "\n"@)
            == with_received(
            Server { buffers: s.buffers.remove(buffer), ..s },
            Received::Pasted(pane.0 as nat, s.buffers[buffer]),
        ),
{
    reveal_strlit("paste-buffer -d -p -b ");
    reveal_strlit("paste-buffer");
    reveal_strlit("send-keys");
    reveal_strlit("set-buffer");
    reveal_strlit("-d");
    reveal_strlit("-p");
    reveal_strlit("-b");
    reveal_strlit("-t");
    reveal_strlit(" -t ");
    reveal_strlit("\n");
    buffers_are_unspaced(buffer);
    panes_are_read(pane);
    let target = pane_text(pane);
    let r5 = "-t"@.push(' ') + target;
    let r4 = buffer.push(' ') + r5;
    let r3 = "-b"@.push(' ') + r4;
    let r2 = "-p"@.push(' ') + r3;
    let r1 = "-d"@.push(' ') + r2;
    let body = "paste-buffer"@.push(' ') + r1;
    let line = "paste-buffer -d -p -b "@ + buffer + " -t "@ + target + "\n"@;
    assert("paste-buffer -d -p -b "@ =~= "paste-buffer"@.push(' ') + "-d"@.push(' ') + "-p"@.push(
        ' ',
    ) + "-b"@.push(' '));
    assert(" -t "@ =~= seq![' '] + "-t"@.push(' '));
    assert("\n"@ =~= seq!['\n']);
    assert(line =~= body.push('\n'));
    assert(line.drop_last() =~= body);
    pieces_front("paste-buffer"@, ' ', r1);
    pieces_front("-d"@, ' ', r2);
    pieces_front("-p"@, ' ', r3);
    pieces_front("-b"@, ' ', r4);
    pieces_front(buffer, ' ', r5);
    pieces_front("-t"@, ' ', target);
    pieces_alone(target, ' ');
    let w = words_of(line);
    assert(w =~= seq!["paste-buffer"@, "-d"@, "-p"@, "-b"@, buffer, "-t"@, target]);
    assert("paste-buffer"@.len() == 12 && "send-keys"@.len() == 9 && "set-buffer"@.len() == 10);
}

proof fn resizes_arrive(s: Server, pane: PaneId, resize: Resize)
    ensures
        obey(
            s,
            ("resize-pane -t "@ + pane_text(pane) + (match resize.axis {
                Axis::Columns => " -x "@,
                Axis::Rows => " -y "@,
            }) + decimal(resize.cells as nat)).push('\n'),
        ) == with_received(s, meant(pane, Act::Resize(resize))),
{
    reveal_strlit("resize-pane -t ");
    reveal_strlit("resize-pane");
    reveal_strlit("send-keys");
    reveal_strlit("set-buffer");
    reveal_strlit("paste-buffer");
    reveal_strlit("-t");
    reveal_strlit("-x");
    reveal_strlit("-y");
    reveal_strlit(" -x ");
    reveal_strlit(" -y ");
    panes_are_read(pane);
    let cells = decimal(resize.cells as nat);
    digits_are_unspaced(resize.cells as nat);
    decimal_reads_back(resize.cells as nat);
    let axis = match resize.axis {
        Axis::Columns => "-x"@,
        Axis::Rows => "-y"@,
    };
    let given = match resize.axis {
        Axis::Columns => " -x "@,
        Axis::Rows => " -y "@,
    };
    let target = pane_text(pane);
    let r3 = axis.push(' ') + cells;
    let r2 = target.push(' ') + r3;
    let r1 = "-t"@.push(' ') + r2;
    let body = "resize-pane"@.push(' ') + r1;
    assert(given =~= seq![' '] + axis.push(' '));
    assert("resize-pane -t "@ =~= "resize-pane"@.push(' ') + "-t"@.push(' '));
    let line = ("resize-pane -t "@ + target + given + cells).push('\n');
    assert(line =~= body.push('\n'));
    assert(line.drop_last() =~= body);
    pieces_front("resize-pane"@, ' ', r1);
    pieces_front("-t"@, ' ', r2);
    pieces_front(target, ' ', r3);
    pieces_front(axis, ' ', cells);
    pieces_alone(cells, ' ');
    let w = words_of(line);
    assert(w =~= seq!["resize-pane"@, "-t"@, target, axis, cells]);
    assert("resize-pane"@.len() == 11 && "send-keys"@.len() == 9 && "set-buffer"@.len() == 10
        && "paste-buffer"@.len() == 12);
    assert("-x"@[1] != "-y"@[1]);
}

proof fn sizes_arrive(s: Server, columns: nat, rows: nat)
    requires
        columns <= usize::MAX,
        rows <= usize::MAX,
    ensures
        obey(s, ("refresh-client -C "@ + decimal(columns) + "x"@ + decimal(rows)).push('\n'))
            == with_received(s, Received::Client(columns, rows)),
{
    reveal_strlit("refresh-client -C ");
    reveal_strlit("refresh-client");
    reveal_strlit("send-keys");
    reveal_strlit("set-buffer");
    reveal_strlit("paste-buffer");
    reveal_strlit("resize-pane");
    reveal_strlit("-C");
    reveal_strlit("x");
    let (a, b) = (decimal(columns), decimal(rows));
    digits_are_unspaced(columns);
    digits_are_unspaced(rows);
    decimal_reads_back(columns);
    decimal_reads_back(rows);
    let size = a.push('x') + b;
    assert(!size.contains(' ')) by {
        if size.contains(' ') {
            let i = choose|i: int| 0 <= i < size.len() && size[i] == ' ';
            if i < a.len() {
                assert(a[i] == ' ');
                assert(a.contains(' '));
            } else {
                assert(b[i - a.len() - 1] == ' ');
                assert(b.contains(' '));
            }
        }
    }
    let r1 = "-C"@.push(' ') + size;
    let body = "refresh-client"@.push(' ') + r1;
    assert("refresh-client -C "@ =~= "refresh-client"@.push(' ') + "-C"@.push(' '));
    let line = ("refresh-client -C "@ + a + "x"@ + b).push('\n');
    assert("x"@ =~= seq!['x']);
    assert(line =~= body.push('\n'));
    assert(line.drop_last() =~= body);
    pieces_front("refresh-client"@, ' ', r1);
    pieces_front("-C"@, ' ', size);
    pieces_alone(size, ' ');
    let w = words_of(line);
    assert(w =~= seq!["refresh-client"@, "-C"@, size]);
    pieces_front(a, 'x', b);
    pieces_alone(b, 'x');
    assert(pieces(size, 'x') =~= seq![a, b]);
    assert("refresh-client"@.len() == 14 && "send-keys"@.len() == 9 && "set-buffer"@.len() == 10
        && "paste-buffer"@.len() == 12 && "resize-pane"@.len() == 11);
}

proof fn encodings_are_not_empty(text: Seq<char>)
    requires
        text.len() > 0,
    ensures
        encode_utf8(text).len() > 0,
{
}

/// What a paste leaves in the private buffer, at the time when the buffer is pasted, is
/// the whole text, and afterwards the buffer is gone.
pub proof fn pastes_arrive_whole(s: Server, pane: PaneId, text: Seq<char>, buffer: Seq<char>)
    requires
        valid_buffer(buffer),
        text.len() > 0,
        !s.buffers.contains_key(buffer),
    ensures
        ({
            let lines = act_lines(pane, Act::Paste(text), buffer);
            &&& lines.len() > 1
            &&& obeyed(s, lines.drop_last()) == Some(
                Server { buffers: s.buffers.insert(buffer, encode_utf8(text)), ..s },
            )
            &&& obeyed(s, lines) == with_received(
                s,
                Received::Pasted(pane.0 as nat, encode_utf8(text)),
            )
        }),
{
    let bytes = encode_utf8(text);
    encodings_are_not_empty(text);
    let lines = act_lines(pane, Act::Paste(text), buffer);
    let front = paste_lines(true, buffer, bytes);
    let last = "paste-buffer -d -p -b "@ + buffer + " -t "@ + pane_text(pane) + "\n"@;
    assert(lines.drop_last() =~= front);
    assert(front.len() > 0);
    pastes_are_stored(s, true, buffer, bytes);
    let stored = Server { buffers: s.buffers.insert(buffer, bytes), ..s };
    buffers_are_pasted(stored, buffer, pane);
    assert(lines =~= front + seq![last]);
    obeyed_in_turn(s, front, seq![last]);
    obeyed_one(stored, last);
    assert(stored.buffers.remove(buffer) =~= s.buffers);
}

proof fn an_action_arrives(s: Server, pane: PaneId, act: Act, buffer: Seq<char>)
    requires
        valid_buffer(buffer),
        act_error(act) is None,
        act matches Act::Paste(text) ==> text.len() > 0,
        !s.buffers.contains_key(buffer),
    ensures
        obeyed(s, act_lines(pane, act, buffer)) == with_received(s, meant(pane, act)),
{
    match act {
        Act::Bytes(bytes) => {
            typed_bytes_arrive(s, pane, bytes);
            obeyed_one(s, act_lines(pane, act, buffer)[0]);
        },
        Act::Key(key, modifiers) => {
            typed_keys_arrive(s, pane, key, modifiers);
            obeyed_one(s, act_lines(pane, act, buffer)[0]);
        },
        Act::Paste(text) => {
            pastes_arrive_whole(s, pane, text, buffer);
        },
        Act::Resize(resize) => {
            resizes_arrive(s, pane, resize);
            obeyed_one(s, act_lines(pane, act, buffer)[0]);
        },
        Act::ClientSize(size) => {
            sizes_fit(size);
            sizes_arrive(s, size.spec_columns(), size.spec_rows());
            obeyed_one(s, act_lines(pane, act, buffer)[0]);
        },
    }
}

/// Whatever the user types, pastes or resizes arrives: a server that obeys the commands
/// of some actions does, in order, what each of them is about, to the pane that they are
/// for, byte for byte and key for key, and does nothing else. Its buffers are as they
/// were.
pub proof fn actions_arrive(s: Server, pane: PaneId, acts: Seq<Act>, buffer: Seq<char>)
    requires
        valid_buffer(buffer),
        forall|i: int| 0 <= i < acts.len() ==> act_error(#[trigger] acts[i]) is None,
        forall|i: int|
            0 <= i < acts.len() ==> (#[trigger] acts[i] matches Act::Paste(text) ==> text.len()
                > 0),
        !s.buffers.contains_key(buffer),
    ensures
        obeyed(s, all_act_lines(pane, acts, buffer)) == Some(
            Server {
                received: s.received + acts.map_values(|act: Act| meant(pane, act)),
                ..s
            },
        ),
    decreases acts.len(),
{
    let done = acts.map_values(|act: Act| meant(pane, act));
    if acts.len() == 0 {
        assert(s.received + done =~= s.received);
    } else {
        let front = acts.drop_last();
        let last = acts.last();
        assert(act_error(acts[acts.len() - 1]) is None);
        assert forall|i: int| 0 <= i < front.len() implies act_error(#[trigger] front[i])
            is None && (front[i] matches Act::Paste(text) ==> text.len() > 0) by {
            assert(acts[i] == front[i]);
        }
        actions_arrive(s, pane, front, buffer);
        let before = front.map_values(|act: Act| meant(pane, act));
        let next = Server { received: s.received + before, ..s };
        an_action_arrives(next, pane, last, buffer);
        obeyed_in_turn(s, all_act_lines(pane, front, buffer), act_lines(pane, last, buffer));
        assert((s.received + before).push(meant(pane, last)) =~= s.received + done);
    }
}

/// An action is sent exactly where it is one of these: up to 1024 bytes and at least
/// one, any key but a function key above F20 or below F1, any paste, a resize to between
/// 1 and 4096 cells, and any size of the client. The first one that is not is named.
pub proof fn only_sound_actions_are_sent(acts: Seq<Act>)
    ensures
        forall|i: int|
            0 <= i < acts.len() ==> (act_error(#[trigger] acts[i]) is None <==> match acts[i] {
                Act::Bytes(bytes) => 1 <= bytes.len() <= 1024,
                Act::Key(Key::Function(n), _) => 1 <= n <= 20,
                Act::Resize(resize) => 1 <= resize.cells <= 4096,
                _ => true,
            }),
        first_act_error(acts) is None <==> forall|i: int|
            0 <= i < acts.len() ==> act_error(#[trigger] acts[i]) is None,
    decreases acts.len(),
{
    if acts.len() > 0 {
        let front = acts.drop_last();
        only_sound_actions_are_sent(front);
        if first_act_error(acts) is None {
            assert forall|i: int| 0 <= i < acts.len() implies act_error(#[trigger] acts[i])
                is None by {
                if i < front.len() {
                    assert(acts[i] == front[i]);
                    assert(act_error(front[i]) is None);
                }
            }
        } else if forall|i: int| 0 <= i < acts.len() ==> act_error(#[trigger] acts[i]) is None {
            assert forall|i: int| 0 <= i < front.len() implies act_error(#[trigger] front[i])
                is None by {
                assert(acts[i] == front[i]);
            }
            assert(act_error(acts[acts.len() - 1]) is None);
        }
    }
}

} // verus!
