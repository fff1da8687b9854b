//! What the user can send to a pane.
use vstd::prelude::*;
use vstd::string::*;

use crate::text::{
    byte_len, chars_of, contains_char, control_char, decimal, is_control, push_decimal, utf8_len,
};
use crate::values::Size;

verus! {

/// The most bytes that one request carries.
pub const MAX_INPUT_BYTES: usize = 1024;

/// What a key, a resize or a size report counts in the queue.
pub const ACTION_BYTES: usize = 32;

#[derive(Clone, Copy, Debug, PartialEq, Eq, Structural)]
pub enum Error {
    /// A byte string that is empty or longer than one request carries.
    Bytes,
    /// A function key outside of F1 to F20.
    Key,
    /// Clipboard text that is empty or holds control characters.
    Paste,
    /// A resize to nothing or to more cells than a terminal has.
    Resize,
}

pub open spec fn error_text(error: Error) -> Seq<char> {
    match error {
        Error::Bytes => "input must contain 1..=1024 bytes"@,
        Error::Key => "only F1 to F20 are sent"@,
        Error::Paste => "clipboard text is empty or holds control characters"@,
        Error::Resize => "a pane is resized to 1..=4096 cells"@,
    }
}

impl Error {
    pub fn message(self) -> (r: &'static str)
        ensures
            r@ == error_text(self),
    {
        match self {
            Error::Bytes => "input must contain 1..=1024 bytes",
            Error::Key => "only F1 to F20 are sent",
            Error::Paste => "clipboard text is empty or holds control characters",
            Error::Resize => "a pane is resized to 1..=4096 cells",
        }
    }
}

#[derive(Clone, Copy, Debug, PartialEq, Eq, Structural)]
pub enum Key {
    Enter,
    Tab,
    Escape,
    Backspace,
    Up,
    Down,
    Left,
    Right,
    Home,
    End,
    PageUp,
    PageDown,
    Insert,
    Delete,
    Function(u8),
}

#[derive(Clone, Copy, Debug, PartialEq, Eq, Structural)]
pub struct Modifiers {
    pub control: bool,
    pub alt: bool,
    pub shift: bool,
}

impl Default for Modifiers {
    fn default() -> (r: Self)
        ensures
            !r.control && !r.alt && !r.shift,
    {
        Modifiers { control: false, alt: false, shift: false }
    }
}

/// tmux's name of the key.
pub open spec fn base_name(key: Key) -> Seq<char> {
    match key {
        Key::Enter => "Enter"@,
        Key::Tab => "Tab"@,
        Key::Escape => "Escape"@,
        Key::Backspace => "BSpace"@,
        Key::Up => "Up"@,
        Key::Down => "Down"@,
        Key::Left => "Left"@,
        Key::Right => "Right"@,
        Key::Home => "Home"@,
        Key::End => "End"@,
        Key::PageUp => "PageUp"@,
        Key::PageDown => "PageDown"@,
        Key::Insert => "IC"@,
        Key::Delete => "DC"@,
        Key::Function(n) => seq!['F'] + decimal(n as nat),
    }
}

pub open spec fn modifier_text(modifiers: Modifiers) -> Seq<char> {
    (if modifiers.control {
        seq!['C', '-']
    } else {
        seq![]
    }) + (if modifiers.alt {
        seq!['M', '-']
    } else {
        seq![]
    }) + (if modifiers.shift {
        seq!['S', '-']
    } else {
        seq![]
    })
}

pub open spec fn valid_key(key: Key) -> bool {
    key matches Key::Function(n) ==> 1 <= n <= 20
}

impl Key {
    /// The name under which tmux knows the key with these modifiers.
    pub fn name(self, modifiers: Modifiers) -> (r: Result<String, Error>)
        ensures
            match r {
                Ok(name) => valid_key(self) && name@ == modifier_text(modifiers) + base_name(self),
                Err(error) => !valid_key(self) && error == Error::Key,
            },
    {
        let mut out = String::new();
        if modifiers.control {
            out.push('C');
            out.push('-');
        }
        if modifiers.alt {
            out.push('M');
            out.push('-');
        }
        if modifiers.shift {
            out.push('S');
            out.push('-');
        }
        assert(out@ =~= modifier_text(modifiers));
        let plain = match self {
            Key::Enter => "Enter",
            Key::Tab => "Tab",
            Key::Escape => "Escape",
            Key::Backspace => "BSpace",
            Key::Up => "Up",
            Key::Down => "Down",
            Key::Left => "Left",
            Key::Right => "Right",
            Key::Home => "Home",
            Key::End => "End",
            Key::PageUp => "PageUp",
            Key::PageDown => "PageDown",
            Key::Insert => "IC",
            Key::Delete => "DC",
            Key::Function(n) => {
                if n < 1 || n > 20 {
                    return Err(Error::Key);
                }
                out.push('F');
                push_decimal(&mut out, n as u64);
                assert(out@ =~= modifier_text(modifiers) + base_name(self));
                return Ok(out);
            },
        };
        out.append(plain);
        Ok(out)
    }
}

#[derive(Clone, Copy, Debug, PartialEq, Eq, Structural)]
pub enum Axis {
    Columns,
    Rows,
}

/// A change of one axis of a pane.
#[derive(Clone, Copy, Debug, PartialEq, Eq, Structural)]
pub struct Resize {
    pub axis: Axis,
    pub cells: u16,
}

pub open spec fn valid_resize(resize: Resize) -> bool {
    1 <= resize.cells <= 4096
}

/// Clipboard text that is safe to hand to a terminal.
#[derive(Debug, PartialEq, Eq)]
pub struct Paste(String);

/// A character that may be pasted: no control code but a tab or a line ending.
pub open spec fn paste_char(c: char) -> bool {
    !control_char(c) || c == '\t' || c == '\n' || c == '\r'
}

pub open spec fn valid_paste(text: Seq<char>) -> bool {
    text.len() > 0 && forall|i: int| 0 <= i < text.len() ==> paste_char(#[trigger] text[i])
}

impl View for Paste {
    type V = Seq<char>;

    closed spec fn view(&self) -> Seq<char> {
        self.0@
    }
}

impl Paste {
    #[verifier::type_invariant]
    pub closed spec fn wf(self) -> bool {
        valid_paste(self.0@)
    }

    /// Deliberate control input must come from key handling, not from a
    /// clipboard.
    pub fn new(text: &str) -> (r: Result<Self, Error>)
        ensures
            match r {
                Ok(paste) => valid_paste(text@) && paste@ == text@,
                Err(error) => !valid_paste(text@) && error == Error::Paste,
            },
    {
        let chars = chars_of(text);
        if chars.len() == 0 {
            return Err(Error::Paste);
        }
        let mut i: usize = 0;
        while i < chars.len()
            invariant
                i <= chars@.len(),
                chars@ == text@,
                forall|j: int| 0 <= j < i ==> paste_char(#[trigger] chars@[j]),
            decreases chars@.len() - i,
        {
            let c = chars[i];
            if is_control(c) && c != '\t' && c != '\n' && c != '\r' {
                assert(!paste_char(text@[i as int]));
                return Err(Error::Paste);
            }
            i += 1;
        }
        Ok(Paste(text.to_owned()))
    }

    pub fn as_str(&self) -> (r: &str)
        ensures
            r@ == self@,
            valid_paste(r@),
    {
        proof {
            use_type_invariant(self);
        }
        self.0.as_str()
    }

    /// Whether the text has a line ending, and so needs a confirmation.
    pub fn is_multiline(&self) -> (r: bool)
        ensures
            r == (self@.contains('\n') || self@.contains('\r')),
    {
        let chars = chars_of(self.0.as_str());
        contains_char(chars.as_slice(), '\n') || contains_char(chars.as_slice(), '\r')
    }
}

#[derive(Debug, PartialEq, Eq)]
pub enum Action {
    Bytes(Vec<u8>),
    Key(Key, Modifiers),
    Paste(Paste),
    Resize(Resize),
    ClientSize(Size),
}

/// What an action holds.
pub enum Act {
    Bytes(Seq<u8>),
    Key(Key, Modifiers),
    Paste(Seq<char>),
    Resize(Resize),
    ClientSize(Size),
}

/// What a list of actions holds.
pub open spec fn acts_of(actions: Seq<Action>) -> Seq<Act> {
    actions.map_values(|action: Action| action@)
}

impl View for Action {
    type V = Act;

    open spec fn view(&self) -> Act {
        match *self {
            Action::Bytes(bytes) => Act::Bytes(bytes@),
            Action::Key(key, modifiers) => Act::Key(key, modifiers),
            Action::Paste(paste) => Act::Paste(paste@),
            Action::Resize(resize) => Act::Resize(resize),
            Action::ClientSize(size) => Act::ClientSize(size),
        }
    }
}

/// What the action counts in the queue.
pub open spec fn act_size(act: Act) -> nat {
    match act {
        Act::Bytes(bytes) => bytes.len(),
        Act::Paste(text) => utf8_len(text),
        _ => ACTION_BYTES as nat,
    }
}

/// The reason why the action is refused, if it is.
pub open spec fn act_error(act: Act) -> Option<Error> {
    match act {
        Act::Bytes(bytes) => if 1 <= bytes.len() <= MAX_INPUT_BYTES {
            None
        } else {
            Some(Error::Bytes)
        },
        Act::Key(key, _) => if valid_key(key) {
            None
        } else {
            Some(Error::Key)
        },
        Act::Resize(resize) => if valid_resize(resize) {
            None
        } else {
            Some(Error::Resize)
        },
        _ => None,
    }
}

/// Text and keys, which may share one transaction.
pub open spec fn ordinary(act: Act) -> bool {
    act is Bytes || act is Key
}

impl Action {
    pub fn size(&self) -> (r: usize)
        ensures
            r == act_size(self@),
    {
        match self {
            Action::Bytes(bytes) => bytes.len(),
            Action::Paste(paste) => byte_len(paste.as_str()),
            _ => ACTION_BYTES,
        }
    }

    pub fn validate(&self) -> (r: Result<(), Error>)
        ensures
            r == match act_error(self@) {
                Some(error) => Err::<(), Error>(error),
                None => Ok(()),
            },
    {
        match self {
            Action::Bytes(bytes) => if bytes.len() == 0 || bytes.len() > MAX_INPUT_BYTES {
                return Err(Error::Bytes);
            },
            Action::Key(key, _) => if let Key::Function(n) = *key {
                if n < 1 || n > 20 {
                    return Err(Error::Key);
                }
            },
            Action::Resize(resize) => if resize.cells < 1 || resize.cells > 4096 {
                return Err(Error::Resize);
            },
            _ => {},
        }
        Ok(())
    }

    pub fn is_resize(&self) -> (r: bool)
        ensures
            r == (self@ is Resize),
    {
        match self {
            Action::Resize(_) => true,
            _ => false,
        }
    }

    pub fn is_ordinary(&self) -> (r: bool)
        ensures
            r == ordinary(self@),
    {
        match self {
            Action::Bytes(_) => true,
            Action::Key(_, _) => true,
            _ => false,
        }
    }
}

} // verus!
