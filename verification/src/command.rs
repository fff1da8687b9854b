//! The text of the commands that are written to a control channel, and the
//! quoting of values for the remote shell.
use vstd::prelude::*;
use vstd::slice::slice_subrange;
use vstd::string::*;
use vstd::utf8::*;

use crate::input;
use crate::text::{
    any_control, byte_len, chars_of, decimal, decimal_reads_back, digit_char, has_control,
    push_decimal, utf8_len,
};
use crate::tmux::PaneId;
use crate::values::Size;

verus! {

pub use crate::input::MAX_INPUT_BYTES;

/// One complete control-mode command with its terminating newline. There is
/// intentionally no constructor that takes arbitrary command text.
pub struct Command(String);

impl View for Command {
    type V = Seq<char>;

    closed spec fn view(&self) -> Seq<char> {
        self.0@
    }
}

impl Command {
    /// A command is one line.
    #[verifier::type_invariant]
    closed spec fn wf(self) -> bool {
        one_line(self.0@)
    }
}

/// No line feed in the text.
pub open spec fn unbroken(s: Seq<char>) -> bool {
    forall|i: int| 0 <= i < s.len() ==> #[trigger] s[i] != '\n'
}

/// Exactly one line feed, at the end.
pub open spec fn one_line(s: Seq<char>) -> bool {
    s.len() > 0 && s.last() == '\n' && unbroken(s.drop_last())
}

/// Exactly one line feed, at the end of the bytes.
pub open spec fn one_byte_line(bytes: Seq<u8>) -> bool {
    &&& bytes.len() > 0
    &&& bytes.last() == 0x0a
    &&& forall|i: int| 0 <= i < bytes.len() - 1 ==> #[trigger] bytes[i] != 0x0a
}

proof fn scalars_are_unbroken(c: u32)
    requires
        c != 0x0a,
    ensures
        forall|i: int| 0 <= i < encode_scalar(c).len() ==> #[trigger] encode_scalar(c)[i] != 0x0a,
{
    assert(c <= 0x7f && c != 0x0a ==> (c & 0x7f) as u8 != 0x0a) by (bit_vector);
    let (a, b, d) = (((c >> 6) & 0x1f) as u8, ((c >> 12) & 0x0f) as u8, ((c >> 18) & 0x7) as u8);
    let (x, y, z) = ((c & 0x3f) as u8, ((c >> 6) & 0x3f) as u8, ((c >> 12) & 0x3f) as u8);
    assert(0xc0 | a != 0x0a && 0xe0 | b != 0x0a && 0xf0 | d != 0x0a && 0x80 | x != 0x0a && 0x80 | y
        != 0x0a && 0x80 | z != 0x0a) by (bit_vector);
}

proof fn characters_are_unbroken(c: char)
    requires
        c != '\n',
    ensures
        forall|i: int|
            0 <= i < encode_scalar(c as u32).len() ==> #[trigger] encode_scalar(c as u32)[i]
                != 0x0a,
{
    scalars_are_unbroken(c as u32);
}

proof fn bytes_are_unbroken(s: Seq<char>)
    requires
        unbroken(s),
    ensures
        forall|i: int| 0 <= i < encode_utf8(s).len() ==> #[trigger] encode_utf8(s)[i] != 0x0a,
    decreases s.len(),
{
    if s.len() > 0 {
        let first = encode_scalar(s[0] as u32);
        let rest = encode_utf8(s.drop_first());
        characters_are_unbroken(s[0]);
        assert forall|i: int| 0 <= i < s.drop_first().len() implies #[trigger] s.drop_first()[i]
            != '\n' by {
            assert(s.drop_first()[i] == s[i + 1]);
        }
        bytes_are_unbroken(s.drop_first());
        assert forall|i: int| 0 <= i < encode_utf8(s).len() implies #[trigger] encode_utf8(s)[i]
            != 0x0a by {
            if i < first.len() {
                assert(encode_utf8(s)[i] == first[i]);
            } else {
                assert(encode_utf8(s)[i] == rest[i - first.len()]);
            }
        }
    }
}

proof fn encoded_concat(a: Seq<char>, b: Seq<char>)
    ensures
        encode_utf8(a + b) == encode_utf8(a) + encode_utf8(b),
    decreases a.len(),
{
    if a.len() == 0 {
        assert(a + b =~= b);
        assert(encode_utf8(a) + encode_utf8(b) =~= encode_utf8(b));
    } else {
        encoded_concat(a.drop_first(), b);
        assert((a + b).drop_first() =~= a.drop_first() + b);
        assert(encode_utf8(a + b) =~= encode_utf8(a) + encode_utf8(b));
    }
}

/// A line of text is a line of bytes, whatever characters are in it.
pub proof fn lines_are_lines_of_bytes(s: Seq<char>)
    requires
        one_line(s),
    ensures
        one_byte_line(encode_utf8(s)),
{
    let front = s.drop_last();
    let end = seq!['\n'];
    assert(s =~= front + end);
    bytes_are_unbroken(front);
    encoded_concat(front, end);
    assert(encode_utf8(end) =~= seq![0x0au8]) by {
        assert(end.drop_first() =~= Seq::<char>::empty());
        reveal_with_fuel(encode_utf8, 2);
        assert((0x0au32 & 0x7f) as u8 == 0x0a) by (bit_vector);
    }
    let bytes = encode_utf8(s);
    assert(bytes == encode_utf8(front) + seq![0x0au8]);
    assert forall|i: int| 0 <= i < bytes.len() - 1 implies #[trigger] bytes[i] != 0x0a by {
        assert(bytes[i] == encode_utf8(front)[i]);
    }
}

proof fn unbroken_concat(a: Seq<char>, b: Seq<char>)
    requires
        unbroken(a),
        unbroken(b),
    ensures
        unbroken(a + b),
{
}

proof fn one_line_of(s: Seq<char>)
    requires
        unbroken(s),
    ensures
        one_line(s.push('\n')),
{
    assert(s.push('\n').drop_last() =~= s);
}

proof fn decimal_unbroken(n: nat)
    ensures
        unbroken(decimal(n)),
{
    decimal_reads_back(n);
    assert forall|i: int| 0 <= i < decimal(n).len() implies #[trigger] decimal(n)[i] != '\n' by {
        assert(digit_char(decimal(n)[i]));
    }
}

/// The wire form of a pane.
pub open spec fn pane_text(pane: PaneId) -> Seq<char> {
    seq!['%'] + decimal(pane.0 as nat)
}

fn push_pane(out: &mut String, pane: PaneId)
    ensures
        final(out)@ == old(out)@ + pane_text(pane),
        unbroken(pane_text(pane)),
{
    out.push('%');
    push_decimal(out, pane.0 as u64);
    proof {
        decimal_unbroken(pane.0 as nat);
        assert(out@ =~= old(out)@ + pane_text(pane));
    }
}

/// The lower-case hexadecimal digit of a number below sixteen.
pub open spec fn hex_digit(n: int) -> char {
    if n < 10 {
        (48 + n) as char
    } else {
        (87 + n) as char
    }
}

fn hex(n: u8) -> (r: char)
    requires
        n < 16,
    ensures
        r == hex_digit(n as int),
{
    if n < 10 {
        (48 + n) as char
    } else {
        (87 + n) as char
    }
}

/// Each byte as a space and two hexadecimal digits.
pub open spec fn hex_bytes(bytes: Seq<u8>) -> Seq<char>
    decreases bytes.len(),
{
    if bytes.len() == 0 {
        seq![]
    } else {
        hex_bytes(bytes.drop_last()) + seq![
            ' ',
            hex_digit(bytes.last() as int / 16),
            hex_digit(bytes.last() as int % 16),
        ]
    }
}

/// The number that a hexadecimal digit stands for.
pub open spec fn hex_value(c: char) -> int {
    if '0' <= c && c <= '9' {
        c as int - 48
    } else {
        c as int - 87
    }
}

/// The hexadecimal text holds the byte at its place.
pub open spec fn hex_at(text: Seq<char>, i: int, byte: u8) -> bool {
    text[3 * i] == ' ' && hex_value(text[3 * i + 1]) * 16 + hex_value(text[3 * i + 2]) == byte
}

/// Every byte can be read back from its place in the hexadecimal text, which
/// holds nothing else.
pub proof fn hex_reads_back(bytes: Seq<u8>)
    ensures
        hex_bytes(bytes).len() == 3 * bytes.len(),
        forall|i: int|
            0 <= i < bytes.len() ==> #[trigger] hex_at(hex_bytes(bytes), i, bytes[i]),
        unbroken(hex_bytes(bytes)),
    decreases bytes.len(),
{
    if bytes.len() > 0 {
        let n = bytes.len() - 1;
        let head = bytes.drop_last();
        hex_reads_back(head);
        let text = hex_bytes(bytes);
        assert forall|i: int| 0 <= i < bytes.len() implies #[trigger] hex_at(text, i, bytes[i]) by {
            if i < n {
                assert(hex_at(hex_bytes(head), i, head[i]));
            }
        }
        assert forall|i: int| 0 <= i < text.len() implies #[trigger] text[i] != '\n' by {
            if i < 3 * n {
                assert(text[i] == hex_bytes(head)[i]);
            }
        }
    }
}

/// The octal digit at the given place.
pub open spec fn octal_digit(n: int) -> char {
    (48 + n) as char
}

/// Each byte as a backslash and three octal digits.
pub open spec fn octal_bytes(bytes: Seq<u8>) -> Seq<char>
    decreases bytes.len(),
{
    if bytes.len() == 0 {
        seq![]
    } else {
        octal_bytes(bytes.drop_last()) + seq![
            '\\',
            octal_digit(bytes.last() as int / 64),
            octal_digit(bytes.last() as int / 8 % 8),
            octal_digit(bytes.last() as int % 8),
        ]
    }
}

/// The octal text holds the byte at its place.
pub open spec fn octal_at(text: Seq<char>, i: int, byte: u8) -> bool {
    text[4 * i] == '\\' && (text[4 * i + 1] as int - 48) * 64 + (text[4 * i + 2] as int - 48) * 8 + (
    text[4 * i + 3] as int - 48) == byte
}

/// Every byte can be read back from its place in the octal text, which holds
/// nothing else.
pub proof fn octal_reads_back(bytes: Seq<u8>)
    ensures
        octal_bytes(bytes).len() == 4 * bytes.len(),
        forall|i: int|
            0 <= i < bytes.len() ==> #[trigger] octal_at(octal_bytes(bytes), i, bytes[i]),
        unbroken(octal_bytes(bytes)),
    decreases bytes.len(),
{
    if bytes.len() > 0 {
        let n = bytes.len() - 1;
        let head = bytes.drop_last();
        octal_reads_back(head);
        let text = octal_bytes(bytes);
        assert forall|i: int| 0 <= i < bytes.len() implies #[trigger] octal_at(
            text,
            i,
            bytes[i],
        ) by {
            if i < n {
                assert(octal_at(octal_bytes(head), i, head[i]));
            }
        }
        assert forall|i: int| 0 <= i < text.len() implies #[trigger] text[i] != '\n' by {
            if i < 4 * n {
                assert(text[i] == octal_bytes(head)[i]);
            }
        }
    }
}

/// A name for a private paste buffer.
pub open spec fn valid_buffer(name: Seq<char>) -> bool {
    &&& 1 <= name.len() <= 128
    &&& forall|i: int|
        0 <= i < name.len() ==> (('0' <= #[trigger] name[i] && name[i] <= '9') || ('a' <= name[i]
            && name[i] <= 'z') || ('A' <= name[i] && name[i] <= 'Z') || name[i] == '-')
}

/// The bytes of pasted text that one command carries.
pub const PASTE_CHUNK: usize = 768;

/// The command that stores one chunk in the buffer; all but the first append.
pub open spec fn paste_line(first: bool, buffer: Seq<char>, chunk: Seq<u8>) -> Seq<char> {
    "set-buffer "@ + (if first {
        ""@
    } else {
        "-a "@
    }) + "-b "@ + buffer + " \""@ + octal_bytes(chunk) + "\"\n"@
}

/// The commands that store the bytes in the buffer, in order.
pub open spec fn paste_lines(first: bool, buffer: Seq<char>, bytes: Seq<u8>) -> Seq<Seq<char>>
    decreases bytes.len(),
{
    if bytes.len() == 0 {
        seq![]
    } else if bytes.len() <= PASTE_CHUNK {
        seq![paste_line(first, buffer, bytes)]
    } else {
        seq![paste_line(first, buffer, bytes.take(PASTE_CHUNK as int))] + paste_lines(
            false,
            buffer,
            bytes.skip(PASTE_CHUNK as int),
        )
    }
}

/// The texts of a list of commands.
pub open spec fn command_texts(v: Seq<Command>) -> Seq<Seq<char>> {
    v.map_values(|c: Command| c@)
}

fn push_octal(out: &mut String, bytes: &[u8])
    ensures
        final(out)@ == old(out)@ + octal_bytes(bytes@),
{
    let mut i: usize = 0;
    assert(out@ =~= old(out)@ + octal_bytes(bytes@.take(0)));
    while i < bytes.len()
        invariant
            i <= bytes@.len(),
            out@ == old(out)@ + octal_bytes(bytes@.take(i as int)),
        decreases bytes@.len() - i,
    {
        let byte = bytes[i];
        out.push('\\');
        out.push((48 + byte / 64) as char);
        out.push((48 + byte / 8 % 8) as char);
        out.push((48 + byte % 8) as char);
        i += 1;
        proof {
            assert(bytes@.take(i as int).drop_last() =~= bytes@.take(i - 1));
            assert(out@ =~= old(out)@ + octal_bytes(bytes@.take(i as int)));
        }
    }
    assert(bytes@.take(i as int) =~= bytes@);
}

proof fn key_names_are_unbroken(key: input::Key, modifiers: input::Modifiers)
    ensures
        unbroken(input::modifier_text(modifiers)),
        unbroken(input::base_name(key)),
{
    reveal_strlit("Enter");
    reveal_strlit("Tab");
    reveal_strlit("Escape");
    reveal_strlit("BSpace");
    reveal_strlit("Up");
    reveal_strlit("Down");
    reveal_strlit("Left");
    reveal_strlit("Right");
    reveal_strlit("Home");
    reveal_strlit("End");
    reveal_strlit("PageUp");
    reveal_strlit("PageDown");
    reveal_strlit("IC");
    reveal_strlit("DC");
    if let input::Key::Function(n) = key {
        decimal_unbroken(n as nat);
    }
}

/// The commands that carry out an action on a pane. What is pasted goes through a
/// buffer with this name.
pub open spec fn act_lines(pane: PaneId, act: input::Act, buffer: Seq<char>) -> Seq<Seq<char>> {
    match act {
        input::Act::Bytes(bytes) => seq![
            ("send-keys -H -t "@ + pane_text(pane) + hex_bytes(bytes)).push('\n'),
        ],
        input::Act::Key(key, modifiers) => seq![
            ("send-keys -t "@ + pane_text(pane) + " "@ + input::modifier_text(modifiers)
                + input::base_name(key)).push('\n'),
        ],
        input::Act::Paste(text) => paste_lines(true, buffer, encode_utf8(text)).push(
            "paste-buffer -d -p -b "@ + buffer + " -t "@ + pane_text(pane) + "\n"@,
        ),
        input::Act::Resize(resize) => seq![
            ("resize-pane -t "@ + pane_text(pane) + (match resize.axis {
                input::Axis::Columns => " -x "@,
                input::Axis::Rows => " -y "@,
            }) + decimal(resize.cells as nat)).push('\n'),
        ],
        input::Act::ClientSize(size) => seq![
            ("refresh-client -C "@ + decimal(size.spec_columns()) + "x"@ + decimal(
                size.spec_rows(),
            )).push('\n'),
        ],
    }
}

/// The commands that carry out actions, in order.
pub open spec fn all_act_lines(pane: PaneId, acts: Seq<input::Act>, buffer: Seq<char>) -> Seq<
    Seq<char>,
>
    decreases acts.len(),
{
    if acts.len() == 0 {
        seq![]
    } else {
        all_act_lines(pane, acts.drop_last(), buffer) + act_lines(pane, acts.last(), buffer)
    }
}

/// The error of the first action that cannot be sent.
pub open spec fn first_act_error(acts: Seq<input::Act>) -> Option<input::Error>
    decreases acts.len(),
{
    if acts.len() == 0 {
        None
    } else {
        match first_act_error(acts.drop_last()) {
            Some(error) => Some(error),
            None => input::act_error(acts.last()),
        }
    }
}

proof fn first_act_error_stays(acts: Seq<input::Act>, n: int)
    requires
        0 <= n <= acts.len(),
        first_act_error(acts.take(n)) is Some,
    ensures
        first_act_error(acts) == first_act_error(acts.take(n)),
    decreases acts.len(),
{
    if n == acts.len() {
        assert(acts.take(n) =~= acts);
    } else {
        assert(acts.drop_last().take(n) =~= acts.take(n));
        first_act_error_stays(acts.drop_last(), n);
    }
}

fn push_command(out: &mut Vec<Command>, command: Command)
    ensures
        command_texts(final(out)@) == command_texts(old(out)@) + seq![command@],
{
    let ghost before = out@;
    let ghost shown = command@;
    out.push(command);
    assert(command_texts(out@) =~= command_texts(before) + seq![shown]);
}

impl Command {
    /// Encode raw terminal bytes, not tmux key names or command syntax.
    pub fn send_bytes(pane: PaneId, bytes: &[u8]) -> (r: Result<Self, InputSizeError>)
        ensures
            match r {
                Ok(command) => {
                    &&& 1 <= bytes@.len() <= MAX_INPUT_BYTES
                    &&& command@ == ("send-keys -H -t "@ + pane_text(pane) + hex_bytes(
                        bytes@,
                    )).push('\n')
                    &&& one_line(command@)
                },
                Err(_) => bytes@.len() == 0 || bytes@.len() > MAX_INPUT_BYTES,
            },
    {
        if bytes.len() == 0 || bytes.len() > MAX_INPUT_BYTES {
            return Err(InputSizeError);
        }
        let mut line = String::new();
        line.append("send-keys -H -t ");
        push_pane(&mut line, pane);
        let ghost start = line@;
        let mut i: usize = 0;
        assert(line@ =~= start + hex_bytes(bytes@.take(0)));
        while i < bytes.len()
            invariant
                i <= bytes@.len(),
                line@ == start + hex_bytes(bytes@.take(i as int)),
            decreases bytes@.len() - i,
        {
            let byte = bytes[i];
            line.push(' ');
            line.push(hex(byte / 16));
            line.push(hex(byte % 16));
            i += 1;
            proof {
                assert(bytes@.take(i as int).drop_last() =~= bytes@.take(i - 1));
                assert(line@ =~= start + hex_bytes(bytes@.take(i as int)));
            }
        }
        assert(bytes@.take(i as int) =~= bytes@);
        line.push('\n');
        proof {
            reveal_strlit("send-keys -H -t ");
            hex_reads_back(bytes@);
            assert(start =~= "send-keys -H -t "@ + pane_text(pane));
            unbroken_concat("send-keys -H -t "@, pane_text(pane));
            unbroken_concat(start, hex_bytes(bytes@));
            one_line_of(start + hex_bytes(bytes@));
        }
        Ok(Command(line))
    }

    /// Send one key through tmux's key handling.
    pub fn send_key(pane: PaneId, key: input::Key, modifiers: input::Modifiers) -> (r: Result<
        Self,
        input::Error,
    >)
        ensures
            match r {
                Ok(command) => {
                    &&& input::valid_key(key)
                    &&& command@ == ("send-keys -t "@ + pane_text(pane) + " "@
                        + input::modifier_text(modifiers) + input::base_name(key)).push('\n')
                    &&& one_line(command@)
                },
                Err(error) => !input::valid_key(key) && error == input::Error::Key,
            },
    {
        let name = match key.name(modifiers) {
            Ok(name) => name,
            Err(error) => return Err(error),
        };
        let mut line = String::new();
        line.append("send-keys -t ");
        push_pane(&mut line, pane);
        line.append(" ");
        line.append(name.as_str());
        proof {
            reveal_strlit("send-keys -t ");
            reveal_strlit(" ");
            decimal_unbroken(pane.0 as nat);
            key_names_are_unbroken(key, modifiers);
            assert(line@ =~= "send-keys -t "@ + pane_text(pane) + " "@ + input::modifier_text(
                modifiers,
            ) + input::base_name(key));
            one_line_of(line@);
        }
        line.push('\n');
        Ok(Command(line))
    }

    /// One axis only. tmux retains ownership of the window's total dimensions.
    pub fn resize_axis(pane: PaneId, resize: input::Resize) -> (r: Result<Self, input::Error>)
        ensures
            match r {
                Ok(command) => {
                    &&& input::valid_resize(resize)
                    &&& command@ == ("resize-pane -t "@ + pane_text(pane) + (match resize.axis {
                        input::Axis::Columns => " -x "@,
                        input::Axis::Rows => " -y "@,
                    }) + decimal(resize.cells as nat)).push('\n')
                    &&& one_line(command@)
                },
                Err(error) => !input::valid_resize(resize) && error == input::Error::Resize,
            },
    {
        if resize.cells < 1 || resize.cells > 4096 {
            return Err(input::Error::Resize);
        }
        let mut line = String::new();
        line.append("resize-pane -t ");
        push_pane(&mut line, pane);
        let axis = match resize.axis {
            input::Axis::Columns => " -x ",
            input::Axis::Rows => " -y ",
        };
        line.append(axis);
        push_decimal(&mut line, resize.cells as u64);
        proof {
            reveal_strlit("resize-pane -t ");
            reveal_strlit(" -x ");
            reveal_strlit(" -y ");
            decimal_unbroken(resize.cells as nat);
            one_line_of(line@);
        }
        line.push('\n');
        Ok(Command(line))
    }

    /// A single synchronous command list creates a private named buffer, appends
    /// bounded octal-quoted chunks, and pastes and deletes it. The remote
    /// clipboard and the user's own paste buffers are untouched.
    pub fn paste(pane: PaneId, paste: &input::Paste, buffer: &str) -> (r: Vec<Self>)
        requires
            valid_buffer(buffer@),
        ensures
            command_texts(r@) == paste_lines(true, buffer@, encode_utf8(paste@)).push(
                "paste-buffer -d -p -b "@ + buffer@ + " -t "@ + pane_text(pane) + "\n"@,
            ),
    {
        let text = paste.as_str();
        let bytes = text.as_bytes();
        let mut commands: Vec<Command> = Vec::new();
        let mut from: usize = 0;
        let ghost whole = paste_lines(true, buffer@, bytes@);
        assert(bytes@.skip(0) =~= bytes@);
        assert(command_texts(commands@) + whole =~= whole);
        while from < bytes.len()
            invariant
                from <= bytes@.len(),
                valid_buffer(buffer@),
                whole == paste_lines(true, buffer@, bytes@),
                command_texts(commands@) + paste_lines(
                    from == 0,
                    buffer@,
                    bytes@.skip(from as int),
                ) == whole,
            decreases bytes@.len() - from,
        {
            let left = bytes.len() - from;
            let step: usize = if left <= PASTE_CHUNK {
                left
            } else {
                PASTE_CHUNK
            };
            let chunk = slice_subrange(bytes, from, from + step);
            let mut line = String::new();
            line.append("set-buffer ");
            let append = if from == 0 {
                ""
            } else {
                "-a "
            };
            line.append(append);
            line.append("-b ");
            line.append(buffer);
            line.append(" \"");
            push_octal(&mut line, chunk);
            line.append("\"\n");
            let ghost before = commands@;
            let ghost rest = bytes@.skip(from as int);
            assert(line@ == paste_line(from == 0, buffer@, chunk@));
            proof {
                octal_is_whole(buffer@, from == 0, chunk@);
            }
            commands.push(Command(line));
            proof {
                let shown = paste_line(from == 0, buffer@, chunk@);
                assert(command_texts(commands@) =~= command_texts(before).push(shown));
                if left <= PASTE_CHUNK {
                    assert(chunk@ =~= rest);
                    assert(bytes@.skip(from + step) =~= Seq::<u8>::empty());
                    assert(command_texts(commands@) + Seq::<Seq<char>>::empty() =~= command_texts(
                        before,
                    ) + seq![shown]);
                } else {
                    assert(chunk@ =~= rest.take(PASTE_CHUNK as int));
                    assert(rest.skip(PASTE_CHUNK as int) =~= bytes@.skip(from + step));
                    let more = paste_lines(false, buffer@, bytes@.skip(from + step));
                    assert(command_texts(commands@) + more =~= command_texts(before) + (
                    seq![shown] + more));
                }
            }
            from = from + step;
        }
        assert(bytes@.skip(from as int) =~= Seq::<u8>::empty());
        assert(command_texts(commands@) =~= whole);
        let mut line = String::new();
        line.append("paste-buffer -d -p -b ");
        line.append(buffer);
        line.append(" -t ");
        push_pane(&mut line, pane);
        line.append("\n");
        let ghost before = commands@;
        let ghost shown = line@;
        proof {
            paste_end_is_whole(buffer@, pane);
        }
        commands.push(Command(line));
        assert(command_texts(commands@) =~= command_texts(before).push(shown));
        commands
    }

    /// Report the cells that the window has for the session.
    pub fn client_size(size: Size) -> (r: Self)
        ensures
            r@ == ("refresh-client -C "@ + decimal(size.spec_columns()) + "x"@ + decimal(
                size.spec_rows(),
            )).push('\n'),
            one_line(r@),
    {
        let mut line = String::new();
        line.append("refresh-client -C ");
        push_decimal(&mut line, size.columns() as u64);
        line.append("x");
        push_decimal(&mut line, size.rows() as u64);
        proof {
            reveal_strlit("refresh-client -C ");
            reveal_strlit("x");
            decimal_unbroken(size.spec_columns());
            decimal_unbroken(size.spec_rows());
            assert(line@ =~= "refresh-client -C "@ + decimal(size.spec_columns()) + "x"@ + decimal(
                size.spec_rows(),
            ));
            one_line_of(line@);
        }
        line.push('\n');
        Command(line)
    }

    /// The commands that carry out actions on a pane, in order, or the error of the
    /// first one that cannot be sent.
    pub fn of_actions(pane: PaneId, actions: &[input::Action], buffer: &str) -> (r: Result<
        Vec<Self>,
        input::Error,
    >)
        requires
            valid_buffer(buffer@),
        ensures
            match first_act_error(input::acts_of(actions@)) {
                Some(error) => r == Err::<Vec<Self>, input::Error>(error),
                None => r matches Ok(commands) && command_texts(commands@) == all_act_lines(
                    pane,
                    input::acts_of(actions@),
                    buffer@,
                ),
            },
    {
        let ghost acts = input::acts_of(actions@);
        let mut out: Vec<Command> = Vec::new();
        let mut i: usize = 0;
        assert(command_texts(out@) =~= all_act_lines(pane, acts.take(0), buffer@));
        while i < actions.len()
            invariant
                i <= actions@.len(),
                acts == input::acts_of(actions@),
                valid_buffer(buffer@),
                first_act_error(acts.take(i as int)) is None,
                command_texts(out@) == all_act_lines(pane, acts.take(i as int), buffer@),
            decreases actions@.len() - i,
        {
            let ghost next = acts.take(i + 1);
            proof {
                assert(next.drop_last() =~= acts.take(i as int));
                assert(next.last() == actions@[i as int]@);
            }
            match actions[i].validate() {
                Ok(()) => {},
                Err(error) => {
                    proof {
                        first_act_error_stays(acts, i + 1);
                    }
                    return Err(error);
                },
            }
            match &actions[i] {
                input::Action::Bytes(bytes) => match Command::send_bytes(pane, bytes.as_slice()) {
                    Ok(command) => push_command(&mut out, command),
                    Err(_) => return Err(input::Error::Bytes),
                },
                input::Action::Key(key, modifiers) => match Command::send_key(
                    pane,
                    *key,
                    *modifiers,
                ) {
                    Ok(command) => push_command(&mut out, command),
                    Err(error) => return Err(error),
                },
                input::Action::Paste(paste) => {
                    let mut more = Command::paste(pane, paste, buffer);
                    let ghost before = out@;
                    let ghost added = more@;
                    out.append(&mut more);
                    assert(command_texts(out@) =~= command_texts(before) + command_texts(added));
                },
                input::Action::Resize(resize) => match Command::resize_axis(pane, *resize) {
                    Ok(command) => push_command(&mut out, command),
                    Err(error) => return Err(error),
                },
                input::Action::ClientSize(size) => push_command(
                    &mut out,
                    Command::client_size(*size),
                ),
            }
            i += 1;
        }
        assert(acts.take(i as int) =~= acts);
        Ok(out)
    }

    pub fn as_bytes(&self) -> (r: &[u8])
        ensures
            r@ == encode_utf8(self@),
            one_byte_line(r@),
    {
        proof {
            use_type_invariant(self);
            lines_are_lines_of_bytes(self@);
        }
        self.0.as_str().as_bytes()
    }

    pub fn as_str(&self) -> (r: &str)
        ensures
            r@ == self@,
            one_line(r@),
    {
        proof {
            use_type_invariant(self);
        }
        self.0.as_str()
    }
}

proof fn octal_is_whole(buffer: Seq<char>, first: bool, chunk: Seq<u8>)
    requires
        valid_buffer(buffer),
    ensures
        one_line(paste_line(first, buffer, chunk)),
{
    reveal_strlit("set-buffer ");
    reveal_strlit("");
    reveal_strlit("-a ");
    reveal_strlit("-b ");
    reveal_strlit(" \"");
    reveal_strlit("\"\n");
    octal_reads_back(chunk);
    let body = "set-buffer "@ + (if first {
        ""@
    } else {
        "-a "@
    }) + "-b "@ + buffer + " \""@ + octal_bytes(chunk);
    assert(unbroken(body.push('"')));
    assert(paste_line(first, buffer, chunk) =~= body.push('"').push('\n'));
    one_line_of(body.push('"'));
}

proof fn paste_end_is_whole(buffer: Seq<char>, pane: PaneId)
    requires
        valid_buffer(buffer),
    ensures
        one_line("paste-buffer -d -p -b "@ + buffer + " -t "@ + pane_text(pane) + "\n"@),
{
    reveal_strlit("paste-buffer -d -p -b ");
    reveal_strlit(" -t ");
    reveal_strlit("\n");
    decimal_unbroken(pane.0 as nat);
    let body = "paste-buffer -d -p -b "@ + buffer + " -t "@ + pane_text(pane);
    assert(body + "\n"@ =~= body.push('\n'));
    assert(unbroken(body));
    one_line_of(body);
}

/// Every command of a paste is one line, whatever the pasted text holds.
pub proof fn paste_is_one_line_each(first: bool, buffer: Seq<char>, bytes: Seq<u8>)
    requires
        valid_buffer(buffer),
    ensures
        forall|i: int|
            0 <= i < paste_lines(first, buffer, bytes).len() ==> one_line(
                #[trigger] paste_lines(first, buffer, bytes)[i],
            ),
    decreases bytes.len(),
{
    octal_is_whole(buffer, first, bytes);
    if bytes.len() > PASTE_CHUNK {
        octal_is_whole(buffer, first, bytes.take(PASTE_CHUNK as int));
        let more = paste_lines(false, buffer, bytes.skip(PASTE_CHUNK as int));
        paste_is_one_line_each(false, buffer, bytes.skip(PASTE_CHUNK as int));
        let lines = paste_lines(first, buffer, bytes);
        assert forall|i: int| 0 <= i < lines.len() implies one_line(#[trigger] lines[i]) by {
            if i > 0 {
                assert(lines[i] == more[i - 1]);
            }
        }
    }
}

proof fn act_is_one_line_each(pane: PaneId, act: input::Act, buffer: Seq<char>)
    requires
        valid_buffer(buffer),
    ensures
        forall|i: int|
            0 <= i < act_lines(pane, act, buffer).len() ==> one_line(
                #[trigger] act_lines(pane, act, buffer)[i],
            ),
{
    decimal_unbroken(pane.0 as nat);
    let target = pane_text(pane);
    assert(unbroken(target));
    match act {
        input::Act::Bytes(bytes) => {
            reveal_strlit("send-keys -H -t ");
            hex_reads_back(bytes);
            one_line_of("send-keys -H -t "@ + target + hex_bytes(bytes));
        },
        input::Act::Key(key, modifiers) => {
            reveal_strlit("send-keys -t ");
            reveal_strlit(" ");
            key_names_are_unbroken(key, modifiers);
            one_line_of(
                "send-keys -t "@ + target + " "@ + input::modifier_text(modifiers)
                    + input::base_name(key),
            );
        },
        input::Act::Paste(text) => {
            paste_is_one_line_each(true, buffer, encode_utf8(text));
            paste_end_is_whole(buffer, pane);
        },
        input::Act::Resize(resize) => {
            reveal_strlit("resize-pane -t ");
            reveal_strlit(" -x ");
            reveal_strlit(" -y ");
            decimal_unbroken(resize.cells as nat);
            one_line_of(
                "resize-pane -t "@ + target + (match resize.axis {
                    input::Axis::Columns => " -x "@,
                    input::Axis::Rows => " -y "@,
                }) + decimal(resize.cells as nat),
            );
        },
        input::Act::ClientSize(size) => {
            reveal_strlit("refresh-client -C ");
            reveal_strlit("x");
            decimal_unbroken(size.spec_columns());
            decimal_unbroken(size.spec_rows());
            one_line_of(
                "refresh-client -C "@ + decimal(size.spec_columns()) + "x"@ + decimal(
                    size.spec_rows(),
                ),
            );
        },
    }
}

/// Whatever the user types, pastes or resizes, every command that carries it out is
/// one line: no input ends a command early or begins another one.
pub proof fn actions_are_one_line_each(pane: PaneId, acts: Seq<input::Act>, buffer: Seq<char>)
    requires
        valid_buffer(buffer),
    ensures
        forall|i: int|
            0 <= i < all_act_lines(pane, acts, buffer).len() ==> one_line(
                #[trigger] all_act_lines(pane, acts, buffer)[i],
            ),
    decreases acts.len(),
{
    if acts.len() > 0 {
        let front = all_act_lines(pane, acts.drop_last(), buffer);
        let last = act_lines(pane, acts.last(), buffer);
        actions_are_one_line_each(pane, acts.drop_last(), buffer);
        act_is_one_line_each(pane, acts.last(), buffer);
        let all = all_act_lines(pane, acts, buffer);
        assert forall|i: int| 0 <= i < all.len() implies one_line(#[trigger] all[i]) by {
            if i < front.len() {
                assert(all[i] == front[i]);
            } else {
                assert(all[i] == last[i - front.len()]);
            }
        }
    }
}

#[derive(Clone, Copy, Debug, PartialEq, Eq, Structural)]
pub struct InputSizeError;

impl InputSizeError {
    pub fn message(self) -> (r: &'static str)
        ensures
            r@ == "input must contain 1..=1024 bytes"@,
    {
        "input must contain 1..=1024 bytes"
    }
}

/// A value that cannot be placed in a remote command.
#[derive(Clone, Copy, Debug, PartialEq, Eq, Structural)]
pub struct QuoteError;

/// A value that can be placed in a remote command.
pub open spec fn quotable(value: Seq<char>) -> bool {
    value.len() > 0 && utf8_len(value) <= 4096 && !has_control(value)
}

/// Every single quote closed, put in double quotes and opened again.
pub open spec fn escape_quotes(value: Seq<char>) -> Seq<char>
    decreases value.len(),
{
    if value.len() == 0 {
        seq![]
    } else {
        escape_quotes(value.drop_last()) + (if value.last() == '\'' {
            seq!['\'', '"', '\'', '"', '\'']
        } else {
            seq![value.last()]
        })
    }
}

pub open spec fn quoted(value: Seq<char>) -> Seq<char> {
    seq!['\''] + escape_quotes(value) + seq!['\'']
}

/// Quote one value for the remote POSIX shell that runs the command. Rejects
/// control characters outright rather than trying to encode them.
pub fn shell_quote(value: &str) -> (r: Result<String, QuoteError>)
    ensures
        match r {
            Ok(text) => quotable(value@) && text@ == quoted(value@),
            Err(_) => !quotable(value@),
        },
{
    let chars = chars_of(value);
    if chars.len() == 0 || byte_len(value) > 4096 || any_control(chars.as_slice()) {
        return Err(QuoteError);
    }
    let mut out = String::new();
    out.push('\'');
    let mut i: usize = 0;
    assert(out@ =~= seq!['\''] + escape_quotes(chars@.take(0)));
    while i < chars.len()
        invariant
            i <= chars@.len(),
            out@ == seq!['\''] + escape_quotes(chars@.take(i as int)),
        decreases chars@.len() - i,
    {
        let c = chars[i];
        if c == '\'' {
            out.push('\'');
            out.push('"');
            out.push('\'');
            out.push('"');
            out.push('\'');
        } else {
            out.push(c);
        }
        i += 1;
        proof {
            assert(chars@.take(i as int).drop_last() =~= chars@.take(i - 1));
            assert(out@ =~= seq!['\''] + escape_quotes(chars@.take(i as int)));
        }
    }
    assert(chars@.take(i as int) =~= chars@);
    out.push('\'');
    assert(out@ =~= quoted(value@));
    Ok(out)
}

/// Where a POSIX shell stands in a word.
pub enum Quoting {
    Outside,
    Single,
    Double,
}

/// What a POSIX shell makes of a word that consists of quoted parts: nothing is
/// special between single quotes, and between double quotes only what expands.
/// Other words have no value here.
pub open spec fn shell_word(s: Seq<char>, at: Quoting) -> Option<Seq<char>>
    decreases s.len(),
{
    if s.len() == 0 {
        if at is Outside {
            Some(seq![])
        } else {
            None
        }
    } else {
        let c = s[0];
        let rest = s.drop_first();
        match at {
            Quoting::Outside => if c == '\'' {
                shell_word(rest, Quoting::Single)
            } else if c == '"' {
                shell_word(rest, Quoting::Double)
            } else {
                None
            },
            Quoting::Single => if c == '\'' {
                shell_word(rest, Quoting::Outside)
            } else {
                match shell_word(rest, Quoting::Single) {
                    Some(tail) => Some(seq![c] + tail),
                    None => None,
                }
            },
            Quoting::Double => if c == '"' {
                shell_word(rest, Quoting::Outside)
            } else if c == '$' || c == '`' || c == '\\' {
                None
            } else {
                match shell_word(rest, Quoting::Double) {
                    Some(tail) => Some(seq![c] + tail),
                    None => None,
                }
            },
        }
    }
}

proof fn escape_front(value: Seq<char>)
    requires
        value.len() > 0,
    ensures
        escape_quotes(value) == (if value[0] == '\'' {
            seq!['\'', '"', '\'', '"', '\'']
        } else {
            seq![value[0]]
        }) + escape_quotes(value.drop_first()),
    decreases value.len(),
{
    let head = if value[0] == '\'' {
        seq!['\'', '"', '\'', '"', '\'']
    } else {
        seq![value[0]]
    };
    if value.len() == 1 {
        assert(value.drop_last() =~= Seq::<char>::empty());
        assert(value.drop_first() =~= Seq::<char>::empty());
        assert(escape_quotes(value) =~= head + escape_quotes(value.drop_first()));
    } else {
        escape_front(value.drop_last());
        assert(value.drop_last().drop_first() =~= value.drop_first().drop_last());
        assert(value.drop_first().last() == value.last());
        assert(escape_quotes(value) =~= head + escape_quotes(value.drop_first()));
    }
}

proof fn word_step(s: Seq<char>, at: Quoting)
    requires
        s.len() > 0,
    ensures
        at is Outside && s[0] == '\'' ==> shell_word(s, at) == shell_word(
            s.drop_first(),
            Quoting::Single,
        ),
        at is Outside && s[0] == '"' ==> shell_word(s, at) == shell_word(
            s.drop_first(),
            Quoting::Double,
        ),
        at is Single && s[0] == '\'' ==> shell_word(s, at) == shell_word(
            s.drop_first(),
            Quoting::Outside,
        ),
        at is Double && s[0] == '"' ==> shell_word(s, at) == shell_word(
            s.drop_first(),
            Quoting::Outside,
        ),
        at is Single && s[0] != '\'' && shell_word(s.drop_first(), at) is Some ==> shell_word(s, at)
            == Some(seq![s[0]] + shell_word(s.drop_first(), at).unwrap()),
        at is Double && s[0] == '\'' && shell_word(s.drop_first(), at) is Some ==> shell_word(s, at)
            == Some(seq![s[0]] + shell_word(s.drop_first(), at).unwrap()),
{
}

#[verifier::rlimit(30)]
proof fn escaped_reads_back(value: Seq<char>)
    ensures
        shell_word(escape_quotes(value) + seq!['\''], Quoting::Single) == Some(value),
    decreases value.len(),
{
    let text = escape_quotes(value) + seq!['\''];
    if value.len() == 0 {
        assert(text =~= seq!['\'']);
        assert(text.drop_first() =~= Seq::<char>::empty());
        assert(value =~= Seq::<char>::empty());
        word_step(text, Quoting::Single);
    } else {
        escape_front(value);
        let tail = escape_quotes(value.drop_first()) + seq!['\''];
        escaped_reads_back(value.drop_first());
        assert(value =~= seq![value[0]] + value.drop_first());
        if value[0] == '\'' {
            let a = seq!['"', '\'', '"', '\''] + tail;
            let b = seq!['\'', '"', '\''] + tail;
            let c = seq!['"', '\''] + tail;
            let d = seq!['\''] + tail;
            assert(text =~= seq!['\''] + a);
            assert(text.drop_first() =~= a);
            assert(a.drop_first() =~= b);
            assert(b.drop_first() =~= c);
            assert(c.drop_first() =~= d);
            assert(d.drop_first() =~= tail);
            word_step(d, Quoting::Outside);
            word_step(c, Quoting::Double);
            word_step(b, Quoting::Double);
            word_step(a, Quoting::Outside);
            word_step(text, Quoting::Single);
        } else {
            assert(text =~= seq![value[0]] + tail);
            assert(text.drop_first() =~= tail);
            word_step(text, Quoting::Single);
        }
    }
}

/// The remote shell reads a quoted value back as the value itself, one word in
/// which nothing expands.
pub proof fn quoting_reads_back(value: Seq<char>)
    ensures
        shell_word(quoted(value), Quoting::Outside) == Some(value),
{
    escaped_reads_back(value);
    let text = quoted(value);
    assert(text.drop_first() =~= escape_quotes(value) + seq!['\'']);
}

} // verus!
