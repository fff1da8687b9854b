//! What the keyboard means to a terminal.
use vstd::prelude::*;
use vstd::string::*;
use vstd::utf8::*;

use crate::input::{
    acts_of, valid_key, valid_paste, Act, Action, Key, Modifiers, Paste, MAX_INPUT_BYTES,
};
use crate::ui::Event;

verus! {

/// Something that the user did with the keyboard.
#[derive(Debug)]
pub enum Press {
    /// Text that was typed or composed.
    Text(String),
    Named(Key, Modifiers),
    /// A letter from A to Z, as a key.
    Letter(char, Modifiers),
    Copy,
    /// The window hands over what the clipboard holds.
    Paste(String),
}

pub open spec fn letter(c: char) -> bool {
    'A' <= c <= 'Z'
}

/// The bytes in as few pieces as may be sent.
pub open spec fn portions(bytes: Seq<u8>) -> Seq<Act>
    decreases bytes.len(),
{
    if bytes.len() == 0 {
        seq![]
    } else if bytes.len() <= MAX_INPUT_BYTES {
        seq![Act::Bytes(bytes)]
    } else {
        seq![Act::Bytes(bytes.take(MAX_INPUT_BYTES as int))] + portions(
            bytes.skip(MAX_INPUT_BYTES as int),
        )
    }
}

pub open spec fn refused_text() -> Seq<char> {
    "Clipboard text is empty or contains control characters; nothing was sent."@
}

pub open spec fn unknown_text() -> Seq<char> {
    "This key cannot be sent."@
}

/// What a press comes to. A letter on its own is nothing: its text follows. The
/// clipboard is reached with Control and Shift, so that Control and a letter
/// stays input of the application.
pub open spec fn means(press: Press, event: Option<Event>) -> bool {
    match press {
        Press::Text(text) => event matches Some(Event::Input(actions)) && acts_of(actions@)
            == portions(encode_utf8(text@)),
        Press::Named(key, modifiers) => if valid_key(key) {
            event matches Some(Event::Input(actions)) && acts_of(actions@) == seq![
                Act::Key(key, modifiers),
            ]
        } else {
            event matches Some(Event::Refused(why)) && why@ == unknown_text()
        },
        Press::Letter(c, modifiers) => if !letter(c) || !modifiers.control {
            event is None
        } else if modifiers.shift {
            event == if c == 'C' {
                Some(Event::Copy)
            } else if c == 'V' {
                Some(Event::RequestPaste)
            } else {
                None
            }
        } else {
            event matches Some(Event::Input(actions)) && acts_of(actions@) == seq![
                Act::Bytes(seq![(c as int - 64) as u8]),
            ]
        },
        Press::Copy => event == Some(Event::Copy),
        Press::Paste(text) => if valid_paste(text@) {
            event matches Some(Event::Paste(paste)) && paste@ == text@
        } else {
            event matches Some(Event::Refused(why)) && why@ == refused_text()
        },
    }
}

fn piece(bytes: &[u8], from: usize, to: usize) -> (r: Action)
    requires
        from <= to <= bytes@.len(),
    ensures
        r@ == Act::Bytes(bytes@.subrange(from as int, to as int)),
{
    let mut part: Vec<u8> = Vec::new();
    let mut i: usize = from;
    while i < to
        invariant
            from <= i <= to <= bytes@.len(),
            part@ == bytes@.subrange(from as int, i as int),
        decreases to - i,
    {
        part.push(bytes[i]);
        i += 1;
        assert(part@ =~= bytes@.subrange(from as int, i as int));
    }
    Action::Bytes(part)
}

fn in_portions(bytes: &[u8]) -> (r: Vec<Action>)
    ensures
        acts_of(r@) == portions(bytes@),
{
    let mut actions: Vec<Action> = Vec::new();
    let mut from: usize = 0;
    assert(bytes@.skip(0) =~= bytes@);
    assert(acts_of(actions@) + portions(bytes@) =~= portions(bytes@));
    while from < bytes.len()
        invariant
            from <= bytes@.len(),
            acts_of(actions@) + portions(bytes@.skip(from as int)) == portions(bytes@),
        decreases bytes@.len() - from,
    {
        let rest = bytes.len() - from;
        let to = if rest <= MAX_INPUT_BYTES {
            bytes.len()
        } else {
            from + MAX_INPUT_BYTES
        };
        let ghost before = acts_of(actions@);
        let ghost left = bytes@.skip(from as int);
        let action = piece(bytes, from, to);
        let ghost act = action@;
        actions.push(action);
        proof {
            assert(bytes@.subrange(from as int, to as int) =~= left.take(to - from));
            assert(left.take(to - from).len() == to - from);
            if rest <= MAX_INPUT_BYTES {
                assert(left.take(to - from) =~= left);
            }
            assert(left.skip(to - from) =~= bytes@.skip(to as int));
            assert(acts_of(actions@) =~= before.push(act));
            assert(acts_of(actions@) + portions(bytes@.skip(to as int)) =~= before + portions(left));
        }
        from = to;
    }
    assert(acts_of(actions@) =~= acts_of(actions@) + portions(bytes@.skip(from as int)));
    actions
}

fn single(action: Action) -> (r: Option<Event>)
    ensures
        r matches Some(Event::Input(actions)) && acts_of(actions@) == seq![action@],
{
    let ghost act = action@;
    let mut actions: Vec<Action> = Vec::new();
    actions.push(action);
    assert(acts_of(actions@) =~= seq![act]);
    Some(Event::Input(actions))
}

pub fn translate(press: Press) -> (r: Option<Event>)
    ensures
        means(press, r),
{
    match press {
        Press::Text(text) => Some(Event::Input(in_portions(text.as_str().as_bytes()))),
        Press::Named(key, modifiers) => {
            match key.name(modifiers) {
                Ok(_) => single(Action::Key(key, modifiers)),
                Err(_) => Some(Event::Refused("This key cannot be sent.".to_owned())),
            }
        },
        Press::Letter(c, modifiers) => {
            if c < 'A' || c > 'Z' || !modifiers.control {
                return None;
            }
            if modifiers.shift {
                if c == 'C' {
                    return Some(Event::Copy);
                }
                if c == 'V' {
                    return Some(Event::RequestPaste);
                }
                return None;
            }
            let mut bytes: Vec<u8> = Vec::new();
            bytes.push(c as u8 - 64);
            assert(bytes@ =~= seq![(c as int - 64) as u8]);
            single(Action::Bytes(bytes))
        },
        Press::Copy => Some(Event::Copy),
        Press::Paste(text) => {
            match Paste::new(text.as_str()) {
                Ok(paste) => Some(Event::Paste(paste)),
                Err(_) => Some(
                    Event::Refused(
                        "Clipboard text is empty or contains control characters; nothing was sent.".to_owned(),
                    ),
                ),
            }
        },
    }
}

/// The bytes of all pieces, one behind the other.
pub open spec fn sent_bytes(acts: Seq<Act>) -> Seq<u8>
    decreases acts.len(),
{
    if acts.len() == 0 {
        seq![]
    } else {
        (match acts[0] {
            Act::Bytes(bytes) => bytes,
            _ => seq![],
        }) + sent_bytes(acts.drop_first())
    }
}

/// Typed text reaches the terminal whole and in its order, in pieces that each
/// may be sent.
pub proof fn text_arrives_whole(bytes: Seq<u8>, i: int)
    requires
        0 <= i < portions(bytes).len(),
    ensures
        sent_bytes(portions(bytes)) == bytes,
        crate::input::act_error(portions(bytes)[i]) is None,
    decreases bytes.len(),
{
    portions_join(bytes);
    if bytes.len() > MAX_INPUT_BYTES {
        let rest = bytes.skip(MAX_INPUT_BYTES as int);
        if i > 0 {
            assert(portions(bytes)[i] == portions(rest)[i - 1]);
            text_arrives_whole(rest, i - 1);
        }
    }
}

proof fn portions_join(bytes: Seq<u8>)
    ensures
        sent_bytes(portions(bytes)) == bytes,
    decreases bytes.len(),
{
    let all = portions(bytes);
    if bytes.len() > MAX_INPUT_BYTES {
        let rest = bytes.skip(MAX_INPUT_BYTES as int);
        portions_join(rest);
        assert(all.drop_first() =~= portions(rest));
        assert(bytes.take(MAX_INPUT_BYTES as int) + rest =~= bytes);
    } else if bytes.len() > 0 {
        assert(all.drop_first() =~= Seq::<Act>::empty());
        assert(sent_bytes(all.drop_first()) =~= Seq::<u8>::empty());
        assert(sent_bytes(all) =~= bytes);
    }
}

} // verus!
