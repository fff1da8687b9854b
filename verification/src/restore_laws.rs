//! What a restored pane owes to the state and the captures that it is restored from.
//!
//! A pane is rebuilt by feeding a terminal. Each part of what is fed is traced back to
//! the field of the state line, or to the line of the capture, that it comes from.
use vstd::prelude::*;
use vstd::string::*;
use vstd::utf8::*;

use crate::snapshot::{
    applied, coherent, escape, flag, flags, grid_inputs, grid_lines, mode_inputs, mode_switch,
    ordered_tabs, pane_index, pane_index_facts, read_cursors, read_head, read_modes, read_place,
    read_region, read_state, read_tabs, restore_inputs, tab_fields, tab_inputs, total_bytes, typed,
    unescape, captures_decode_once, Error, Facts, Models, Status, MAX_CAPTURE_BYTES,
};
use crate::terminal::Input;
use crate::text::{
    decimal, decimal_reads_back, digit_char, number, numbers_have_no_fault, pieces, read_number,
    separated, separated_reads_back,
};
use crate::tmux::{Notification, PaneId};

verus! {

/// What sets a mode of a terminal, or resets it.
pub open spec fn switching(mode: Seq<char>, on: bool) -> Seq<char> {
    seq!['\x1b', '['] + mode + seq![
        if on {
            'h'
        } else {
            'l'
        },
    ]
}

/// What a mode was switched to last.
pub open spec fn switched(inputs: Seq<Input>, mode: Seq<char>) -> Option<bool>
    decreases inputs.len(),
{
    if inputs.len() == 0 {
        None
    } else if inputs.last() == Input::Bytes(encode_utf8(switching(mode, true))) {
        Some(true)
    } else if inputs.last() == Input::Bytes(encode_utf8(switching(mode, false))) {
        Some(false)
    } else {
        switched(inputs.drop_last(), mode)
    }
}

/// Whether the keypad was last made to send codes of its own.
pub open spec fn keypad(inputs: Seq<Input>) -> Option<bool>
    decreases inputs.len(),
{
    if inputs.len() == 0 {
        None
    } else if inputs.last() == Input::Bytes(encode_utf8(seq!['\x1b', '='])) {
        Some(true)
    } else if inputs.last() == Input::Bytes(encode_utf8(seq!['\x1b', '>'])) {
        Some(false)
    } else {
        keypad(inputs.drop_last())
    }
}

proof fn encodings_differ(a: Seq<char>, b: Seq<char>)
    ensures
        encode_utf8(a) == encode_utf8(b) ==> a == b,
{
    encode_utf8_decode_utf8(a);
    encode_utf8_decode_utf8(b);
}

proof fn switches_differ(a: Seq<char>, b: Seq<char>, x: bool, y: bool)
    ensures
        switching(a, x) == switching(b, y) ==> a == b && x == y,
{
    let s = switching(a, x);
    let t = switching(b, y);
    assert(s.subrange(2, s.len() - 1) =~= a);
    assert(t.subrange(2, t.len() - 1) =~= b);
    assert(s.last() == if x {
        'h'
    } else {
        'l'
    });
    assert(t.last() == if y {
        'h'
    } else {
        'l'
    });
}

proof fn switches_are_typed(mode: Seq<char>, on: bool)
    ensures
        mode_switch(mode, on) == Input::Bytes(encode_utf8(switching(mode, on))),
{
    reveal_strlit("\x1b[");
    reveal_strlit("h");
    reveal_strlit("l");
    assert("\x1b["@ + mode + (if on {
        "h"@
    } else {
        "l"@
    }) =~= switching(mode, on));
}

/// One more switch: of the same mode it decides, of another one it changes nothing.
proof fn one_more_switch(inputs: Seq<Input>, mode: Seq<char>, other: Seq<char>, on: bool)
    ensures
        switched(inputs.push(mode_switch(other, on)), mode) == if mode == other {
            Some(on)
        } else {
            switched(inputs, mode)
        },
        keypad(inputs.push(mode_switch(other, on))) == keypad(inputs),
{
    let all = inputs.push(mode_switch(other, on));
    assert(all.drop_last() =~= inputs);
    switches_are_typed(other, on);
    let text = switching(other, on);
    encodings_differ(text, switching(mode, true));
    encodings_differ(text, switching(mode, false));
    switches_differ(other, mode, on, true);
    switches_differ(other, mode, on, false);
    encodings_differ(text, seq!['\x1b', '=']);
    encodings_differ(text, seq!['\x1b', '>']);
    assert(text[1] == '[');
}

/// What is neither a switch nor about the keypad changes neither.
proof fn one_more_keypad(inputs: Seq<Input>, mode: Seq<char>, on: bool)
    ensures
        ({
            let all = inputs.push(
                typed(
                    if on {
                        "\x1b="@
                    } else {
                        "\x1b>"@
                    },
                ),
            );
            switched(all, mode) == switched(inputs, mode) && keypad(all) == Some(on)
        }),
{
    reveal_strlit("\x1b=");
    reveal_strlit("\x1b>");
    let text = if on {
        "\x1b="@
    } else {
        "\x1b>"@
    };
    let all = inputs.push(typed(text));
    assert(all.drop_last() =~= inputs);
    assert("\x1b="@ =~= seq!['\x1b', '=']);
    assert("\x1b>"@ =~= seq!['\x1b', '>']);
    encodings_differ(text, switching(mode, true));
    encodings_differ(text, switching(mode, false));
    encodings_differ(text, seq!['\x1b', '=']);
    encodings_differ(text, seq!['\x1b', '>']);
    assert(switching(mode, true)[1] == '[' && switching(mode, false)[1] == '[');
    assert(text[1] != '[');
    assert(seq!['\x1b', '='][1] != seq!['\x1b', '>'][1]);
}

proof fn one_more_cursor(inputs: Seq<Input>, mode: Seq<char>, column: nat, row: nat)
    ensures
        switched(inputs.push(Input::Cursor(column, row)), mode) == switched(inputs, mode),
        keypad(inputs.push(Input::Cursor(column, row))) == keypad(inputs),
{
    assert(inputs.push(Input::Cursor(column, row)).drop_last() =~= inputs);
}

/// The nine modes that every state names, each with what it is on a terminal, and the
/// one that some do not.
spec fn mode_names() -> Seq<Seq<char>> {
    seq![
        "?25"@,
        "4"@,
        "?1"@,
        "?7"@,
        "?1000"@,
        "?1002"@,
        "?1003"@,
        "?1005"@,
        "?1006"@,
        "?2004"@,
    ]
}

proof fn mode_names_differ()
    ensures
        forall|i: int, j: int|
            0 <= i < 10 && 0 <= j < 10 && i != j ==> #[trigger] mode_names()[i]
                != #[trigger] mode_names()[j],
{
    reveal_strlit("?25");
    reveal_strlit("4");
    reveal_strlit("?1");
    reveal_strlit("?7");
    reveal_strlit("?1000");
    reveal_strlit("?1002");
    reveal_strlit("?1003");
    reveal_strlit("?1005");
    reveal_strlit("?1006");
    reveal_strlit("?2004");
    let m = mode_names();
    assert(m[0].len() == 3 && m[1].len() == 1 && m[2].len() == 2 && m[3].len() == 2);
    assert(m[4].len() == 5 && m[5].len() == 5 && m[6].len() == 5 && m[7].len() == 5 && m[8].len()
        == 5 && m[9].len() == 5);
    assert(m[2][1] == '1' && m[3][1] == '7');
    assert(m[4][4] == '0' && m[5][4] == '2' && m[6][4] == '3' && m[7][4] == '5' && m[8][4] == '6');
    assert(m[4][1] == '1' && m[5][1] == '1' && m[6][1] == '1' && m[7][1] == '1' && m[8][1] == '1'
        && m[9][1] == '2');
}

/// What was fed before the modes are switched.
spec fn before_modes(f: Facts) -> Seq<Input> {
    (seq![typed("\x1b[0m\x0f\x1b[3g"@)] + tab_inputs(f.tabs)).push(
        typed(
            "\x1b["@ + decimal(f.scroll_region.0 + 1) + ";"@ + decimal(f.scroll_region.1 + 1)
                + "r"@,
        ),
    )
}

spec fn nine_switches(base: Seq<Input>, f: Facts) -> Seq<Input> {
    base.push(mode_switch("?25"@, f.modes[0])).push(mode_switch("4"@, f.modes[1])).push(
        mode_switch("?1"@, f.modes[2]),
    ).push(mode_switch("?7"@, f.modes[4])).push(mode_switch("?1000"@, f.modes[5])).push(
        mode_switch("?1002"@, f.modes[6]),
    ).push(mode_switch("?1003"@, f.modes[7])).push(mode_switch("?1005"@, f.modes[8])).push(
        mode_switch("?1006"@, f.modes[9]),
    )
}

spec fn all_switches(base: Seq<Input>, f: Facts) -> Seq<Input> {
    let nine = nine_switches(base, f);
    (match f.bracketed_paste {
        Some(on) => nine.push(mode_switch("?2004"@, on)),
        None => nine,
    }).push(
        typed(
            if f.modes[3] {
                "\x1b="@
            } else {
                "\x1b>"@
            },
        ),
    ).push(Input::Cursor(f.cursor.0, f.cursor.1))
}

proof fn modes_are_switched_last(head: Seq<Input>, f: Facts)
    ensures
        head + mode_inputs(f) == all_switches(head + before_modes(f), f),
{
    let base = before_modes(f);
    assert(mode_inputs(f) == all_switches(base, f));
    assert(head + nine_switches(base, f) =~= nine_switches(head + base, f));
    assert(head + all_switches(base, f) =~= all_switches(head + base, f));
}

spec fn nth_mode(f: Facts, k: int) -> bool {
    if k < 3 {
        f.modes[k]
    } else {
        f.modes[k + 1]
    }
}

proof fn nine_switches_decide(base: Seq<Input>, f: Facts, k: int)
    requires
        0 <= k < 9,
    ensures
        switched(nine_switches(base, f), mode_names()[k]) == Some(nth_mode(f, k)),
{
    let m = mode_names();
    let mode = m[k];
    mode_names_differ();
    let s0 = base.push(mode_switch(m[0], f.modes[0]));
    let s1 = s0.push(mode_switch(m[1], f.modes[1]));
    let s2 = s1.push(mode_switch(m[2], f.modes[2]));
    let s3 = s2.push(mode_switch(m[3], f.modes[4]));
    let s4 = s3.push(mode_switch(m[4], f.modes[5]));
    let s5 = s4.push(mode_switch(m[5], f.modes[6]));
    let s6 = s5.push(mode_switch(m[6], f.modes[7]));
    let s7 = s6.push(mode_switch(m[7], f.modes[8]));
    let s8 = s7.push(mode_switch(m[8], f.modes[9]));
    assert(nine_switches(base, f) == s8);
    one_more_switch(base, mode, m[0], f.modes[0]);
    one_more_switch(s0, mode, m[1], f.modes[1]);
    one_more_switch(s1, mode, m[2], f.modes[2]);
    one_more_switch(s2, mode, m[3], f.modes[4]);
    one_more_switch(s3, mode, m[4], f.modes[5]);
    one_more_switch(s4, mode, m[5], f.modes[6]);
    one_more_switch(s5, mode, m[6], f.modes[7]);
    one_more_switch(s6, mode, m[7], f.modes[8]);
    one_more_switch(s7, mode, m[8], f.modes[9]);
}

proof fn all_switches_decide(base: Seq<Input>, f: Facts)
    ensures
        forall|k: int|
            0 <= k < 9 ==> switched(all_switches(base, f), #[trigger] mode_names()[k]) == Some(
                nth_mode(f, k),
            ),
        f.bracketed_paste is Some ==> switched(all_switches(base, f), "?2004"@)
            == f.bracketed_paste,
        keypad(all_switches(base, f)) == Some(f.modes[3]),
{
    let m = mode_names();
    let nine = nine_switches(base, f);
    let ten = match f.bracketed_paste {
        Some(on) => nine.push(mode_switch("?2004"@, on)),
        None => nine,
    };
    let text = if f.modes[3] {
        "\x1b="@
    } else {
        "\x1b>"@
    };
    let eleven = ten.push(typed(text));
    assert(all_switches(base, f) == eleven.push(Input::Cursor(f.cursor.0, f.cursor.1)));
    assert forall|k: int| 0 <= k < 9 implies switched(
        all_switches(base, f),
        #[trigger] mode_names()[k],
    ) == Some(nth_mode(f, k)) by {
        mode_names_differ();
        nine_switches_decide(base, f, k);
        assert(m[k] != m[9]);
        if let Some(on) = f.bracketed_paste {
            one_more_switch(nine, m[k], "?2004"@, on);
        }
        one_more_keypad(ten, m[k], f.modes[3]);
        one_more_cursor(eleven, m[k], f.cursor.0, f.cursor.1);
    }
    if let Some(on) = f.bracketed_paste {
        one_more_switch(nine, "?2004"@, "?2004"@, on);
    }
    one_more_keypad(ten, "?2004"@, f.modes[3]);
    one_more_cursor(eleven, "?2004"@, f.cursor.0, f.cursor.1);
}

/// The field says that the mode is on.
pub open spec fn field_on(line: Seq<char>, i: int) -> bool {
    pieces(line, '|')[i] == seq!['1']
}

proof fn flags_are_fields(line: Seq<char>, f: Facts)
    requires
        read_state(line) == Ok::<Facts, Error>(f),
    ensures
        pieces(line, '|').len() == 27,
        forall|k: int| 0 <= k < 10 ==> #[trigger] f.modes[k] == field_on(line, 15 + k),
        forall|k: int|
            0 <= k < 10 ==> (#[trigger] pieces(line, '|')[15 + k] == seq!['0'] || field_on(
                line,
                15 + k,
            )),
        f.bracketed_paste == if pieces(line, '|')[25].len() == 0 {
            None
        } else {
            Some(field_on(line, 25))
        },
        f.alternate == field_on(line, 8),
{
    reveal(read_state);
    reveal_strlit("0");
    reveal_strlit("1");
    assert("0"@ =~= seq!['0']);
    assert("1"@ =~= seq!['1']);
    assert(seq!['0'][0] != seq!['1'][0]);
    let fields = pieces(line, '|');
    no_bad_flags(fields, 15, 25);
    assert forall|k: int| 0 <= k < 10 implies #[trigger] f.modes[k] == field_on(line, 15 + k) by {
        assert(flag(fields, 15 + k) is Some);
    }
    assert forall|k: int| 0 <= k < 10 implies (#[trigger] fields[15 + k] == seq!['0'] || field_on(
        line,
        15 + k,
    )) by {
        assert(flag(fields, 15 + k) is Some);
    }
}

proof fn no_bad_flags(f: Seq<Seq<char>>, from: int, to: int)
    ensures
        crate::snapshot::bad_flag(f, from, to) is None <==> forall|i: int|
            from <= i < to ==> #[trigger] flag(f, i) is Some,
    decreases to - from,
{
    if from < to {
        no_bad_flags(f, from + 1, to);
        if crate::snapshot::bad_flag(f, from, to) is None {
            assert forall|i: int| from <= i < to implies #[trigger] flag(f, i) is Some by {
                if i > from {
                    assert(flag(f, i) is Some);
                }
            }
        } else if forall|i: int| from <= i < to ==> #[trigger] flag(f, i) is Some {
            assert(flag(f, from) is Some);
        }
    }
}

proof fn modes_come_last(f: Facts, active: Seq<Seq<char>>, saved: Seq<Seq<char>>) -> (head: Seq<
    Input,
>)
    requires
        restore_inputs(f, active, saved, seq![]) is Ok,
    ensures
        restore_inputs(f, active, saved, seq![]) == Ok::<Seq<Input>, Error>(
            head + mode_inputs(f),
        ),
{
    reveal(restore_inputs);
    if f.alternate {
        let primary = grid_inputs(saved)->Ok_0.push(
            Input::Cursor(f.saved_cursor.0, f.saved_cursor.1),
        ).push(typed("\x1b[?1049h"@));
        primary + grid_inputs(active)->Ok_0
    } else {
        Seq::<Input>::empty() + grid_inputs(active)->Ok_0
    }
}

/// A restored pane has the modes that tmux names. Whatever a capture switched, each mode
/// of the terminal is last set exactly where the field of the state line that is about it
/// says so: the cursor is shown, characters are inserted, cursor keys send codes of their
/// own, so do the keys of the keypad, lines wrap, and the mouse is reported in each of
/// five ways. Brackets around pastes are set alike, where the server names them.
pub proof fn restored_modes_are_the_named_ones(
    line: Seq<char>,
    f: Facts,
    active: Seq<Seq<char>>,
    saved: Seq<Seq<char>>,
    inputs: Seq<Input>,
)
    requires
        read_state(line) == Ok::<Facts, Error>(f),
        restore_inputs(f, active, saved, seq![]) == Ok::<Seq<Input>, Error>(inputs),
    ensures
        switched(inputs, "?25"@) == Some(field_on(line, 15)),
        switched(inputs, "4"@) == Some(field_on(line, 16)),
        switched(inputs, "?1"@) == Some(field_on(line, 17)),
        keypad(inputs) == Some(field_on(line, 18)),
        switched(inputs, "?7"@) == Some(field_on(line, 19)),
        switched(inputs, "?1000"@) == Some(field_on(line, 20)),
        switched(inputs, "?1002"@) == Some(field_on(line, 21)),
        switched(inputs, "?1003"@) == Some(field_on(line, 22)),
        switched(inputs, "?1005"@) == Some(field_on(line, 23)),
        switched(inputs, "?1006"@) == Some(field_on(line, 24)),
        pieces(line, '|')[25].len() > 0 ==> switched(inputs, "?2004"@) == Some(
            field_on(line, 25),
        ),
{
    flags_are_fields(line, f);
    let head = modes_come_last(f, active, saved);
    modes_are_switched_last(head, f);
    all_switches_decide(head + before_modes(f), f);
    let m = mode_names();
    assert(m[0] == "?25"@ && m[1] == "4"@ && m[2] == "?1"@ && m[3] == "?7"@ && m[4] == "?1000"@
        && m[5] == "?1002"@ && m[6] == "?1003"@ && m[7] == "?1005"@ && m[8] == "?1006"@);
}

/// The text of a number of cells in the wire form of a control sequence.
pub open spec fn told(n: nat) -> Seq<char> {
    decimal(n + 1)
}

proof fn tabs_by_place(tabs: Seq<nat>)
    ensures
        tab_inputs(tabs).len() == tabs.len(),
        forall|k: int|
            0 <= k < tabs.len() ==> #[trigger] tab_inputs(tabs)[k] == Input::Bytes(
                encode_utf8(seq!['\x1b', '[', '1', ';'] + told(tabs[k]) + seq!['H', '\x1b', 'H']),
            ),
    decreases tabs.len(),
{
    if tabs.len() > 0 {
        tabs_by_place(tabs.drop_last());
        reveal_strlit("\x1b[1;");
        reveal_strlit("H\x1bH");
        assert("\x1b[1;"@ =~= seq!['\x1b', '[', '1', ';']);
        assert("H\x1bH"@ =~= seq!['H', '\x1b', 'H']);
        let all = tab_inputs(tabs);
        let front = tab_inputs(tabs.drop_last());
        assert forall|k: int| 0 <= k < tabs.len() implies #[trigger] all[k] == Input::Bytes(
            encode_utf8(seq!['\x1b', '[', '1', ';'] + told(tabs[k]) + seq!['H', '\x1b', 'H']),
        ) by {
            if k < front.len() {
                assert(all[k] == front[k]);
            }
        }
    }
}

/// A restored pane has the tab stops, the scroll region and the cursor of its state.
/// Behind the captures all tab stops are cleared; then each one of the state is set, in
/// order, and the scroll region; and the last thing of all puts the cursor.
pub proof fn restored_panes_have_their_places(
    f: Facts,
    active: Seq<Seq<char>>,
    saved: Seq<Seq<char>>,
    inputs: Seq<Input>,
)
    requires
        restore_inputs(f, active, saved, seq![]) == Ok::<Seq<Input>, Error>(inputs),
    ensures
        ({
            let extra: int = if f.bracketed_paste is Some {
                1
            } else {
                0
            };
            let n = inputs.len() as int;
            let base = n - 13 - extra - f.tabs.len();
            &&& base > 0
            &&& inputs[base] == Input::Bytes(
                encode_utf8(seq!['\x1b', '[', '0', 'm', '\x0f', '\x1b', '[', '3', 'g']),
            )
            &&& forall|k: int|
                0 <= k < f.tabs.len() ==> inputs[base + 1 + k] == Input::Bytes(
                    encode_utf8(
                        seq!['\x1b', '[', '1', ';'] + told(#[trigger] f.tabs[k]) + seq![
                            'H',
                            '\x1b',
                            'H',
                        ],
                    ),
                )
            &&& inputs[base + 1 + f.tabs.len()] == Input::Bytes(
                encode_utf8(
                    seq!['\x1b', '['] + told(f.scroll_region.0) + seq![';'] + told(
                        f.scroll_region.1,
                    ) + seq!['r'],
                ),
            )
            &&& inputs[n - 1] == Input::Cursor(f.cursor.0, f.cursor.1)
        }),
{
    let head = modes_come_last(f, active, saved);
    reveal(restore_inputs);
    tabs_by_place(f.tabs);
    let modes = mode_inputs(f);
    let front = before_modes(f);
    assert(modes == all_switches(front, f));
    let extra: int = if f.bracketed_paste is Some {
        1
    } else {
        0
    };
    assert(front.len() == f.tabs.len() + 2);
    assert(modes.len() == f.tabs.len() + 13 + extra);
    let base = head.len() as int;
    assert(inputs =~= head + modes);
    assert(head.len() > 0) by {
        captures_are_not_empty(active);
        let grid = grid_inputs(active)->Ok_0;
        assert(inputs.len() >= grid.len() + modes.len());
    }
    assert forall|k: int| 0 <= k < front.len() implies #[trigger] inputs[base + k]
        == front[k] by {
        assert(inputs[base + k] == modes[k]);
        assert(modes[k] == front[k]);
    }
    reveal_strlit("\x1b[0m\x0f\x1b[3g");
    reveal_strlit("\x1b[");
    reveal_strlit(";");
    reveal_strlit("r");
    assert("\x1b[0m\x0f\x1b[3g"@ =~= seq!['\x1b', '[', '0', 'm', '\x0f', '\x1b', '[', '3', 'g']);
    assert("\x1b["@ =~= seq!['\x1b', '[']);
    assert(";"@ =~= seq![';']);
    assert("r"@ =~= seq!['r']);
    assert(inputs[base + 0] == front[0]);
    assert forall|k: int| 0 <= k < f.tabs.len() implies inputs[base + 1 + k] == Input::Bytes(
        encode_utf8(
            seq!['\x1b', '[', '1', ';'] + told(#[trigger] f.tabs[k]) + seq!['H', '\x1b', 'H'],
        ),
    ) by {
        assert(inputs[base + (1 + k)] == front[1 + k]);
        assert(front[1 + k] == tab_inputs(f.tabs)[k]);
    }
    let last = 1 + f.tabs.len() as int;
    assert(inputs[base + last] == front[last]);
    assert(inputs[inputs.len() - 1] == modes[modes.len() - 1]);
}

proof fn captures_are_not_empty(lines: Seq<Seq<char>>)
    ensures
        grid_lines(lines) matches Ok(inputs) ==> inputs.len() > 0,
    decreases lines.len(),
{
    if lines.len() > 0 {
        captures_are_not_empty(lines.drop_last());
    }
}

/// What redraws captured lines: a reset and a step to the first cell, then the bytes of
/// each line, in order, with one line break between two of them.
pub open spec fn redrawn(inputs: Seq<Input>, raw: Seq<Seq<u8>>) -> bool {
    &&& inputs.len() == 2 * raw.len()
    &&& inputs[0] == Input::Bytes(
        encode_utf8(seq!['\x1b', '[', '0', 'm', '\x0f', '\x1b', ')', '0', '\x1b', '[', 'H']),
    )
    &&& forall|i: int|
        0 <= i < raw.len() ==> inputs[2 * i + 1] == Input::Bytes(#[trigger] raw[i]) && (i > 0
            ==> inputs[2 * i] == Input::Bytes(encode_utf8(seq!['\r', '\n'])))
}

/// A capture is redrawn line by line: behind a reset and a step to the first cell, each
/// line gives the bytes that were captured in it, in order, with one line break between
/// two of them.
pub proof fn captures_are_redrawn(lines: Seq<Seq<char>>, raw: Seq<Seq<u8>>)
    requires
        lines.len() > 0,
        raw.len() == lines.len(),
        total_bytes(lines) <= MAX_CAPTURE_BYTES,
        forall|i: int|
            0 <= i < lines.len() ==> encode_utf8(#[trigger] lines[i]) == escape(raw[i]),
    ensures
        grid_inputs(lines) matches Ok(inputs) && redrawn(inputs, raw),
    decreases lines.len(),
{
    let n = lines.len() - 1;
    let front = lines.drop_last();
    let less = raw.drop_last();
    assert(lines[n] == lines.last());
    assert(raw[n] == raw.last());
    captures_decode_once(raw[n]);
    if n == 0 {
        assert(raw =~= seq![raw[0]]);
        first_lines_are_redrawn(lines, raw[0]);
    } else {
        assert forall|i: int| 0 <= i < front.len() implies encode_utf8(#[trigger] front[i])
            == escape(less[i]) by {
            assert(front[i] == lines[i]);
        }
        assert(total_bytes(front) <= total_bytes(lines));
        captures_are_redrawn(front, less);
        let before = grid_inputs(front)->Ok_0;
        let inputs = before.push(typed("\r\n"@)).push(Input::Bytes(raw[n]));
        assert(grid_inputs(lines) == Ok::<Seq<Input>, Error>(inputs));
        assert(less.push(raw[n]) =~= raw);
        more_lines_are_redrawn(before, less, raw[n]);
    }
}

proof fn first_lines_are_redrawn(lines: Seq<Seq<char>>, line: Seq<u8>)
    requires
        lines.len() == 1,
        total_bytes(lines) <= MAX_CAPTURE_BYTES,
        unescape(encode_utf8(lines[0])) == Ok::<Seq<u8>, Error>(line),
    ensures
        grid_inputs(lines) matches Ok(inputs) && redrawn(inputs, seq![line]),
{
    reveal_strlit("\x1b[0m\x0f\x1b)0\x1b[H");
    let clear = seq!['\x1b', '[', '0', 'm', '\x0f', '\x1b', ')', '0', '\x1b', '[', 'H'];
    assert("\x1b[0m\x0f\x1b)0\x1b[H"@ =~= clear);
    let front = lines.drop_last();
    assert(front =~= Seq::<Seq<char>>::empty());
    let reset = typed("\x1b[0m\x0f\x1b)0\x1b[H"@);
    assert(grid_lines(front) == Ok::<Seq<Input>, Error>(seq![reset]));
    let inputs = seq![reset].push(Input::Bytes(line));
    assert(lines.last() == lines[0]);
    assert(grid_lines(lines) == Ok::<Seq<Input>, Error>(inputs));
    assert(redrawn(inputs, seq![line]));
}

proof fn more_lines_are_redrawn(before: Seq<Input>, raw: Seq<Seq<u8>>, line: Seq<u8>)
    requires
        raw.len() > 0,
        redrawn(before, raw),
    ensures
        redrawn(before.push(typed("\r\n"@)).push(Input::Bytes(line)), raw.push(line)),
{
    reveal_strlit("\r\n");
    assert("\r\n"@ =~= seq!['\r', '\n']);
    let inputs = before.push(typed("\r\n"@)).push(Input::Bytes(line));
    let all = raw.push(line);
    let n = raw.len() as int;
    assert(inputs[0] == before[0]);
    assert forall|i: int| 0 <= i < all.len() implies inputs[2 * i + 1] == Input::Bytes(
        #[trigger] all[i],
    ) && (i > 0 ==> inputs[2 * i] == Input::Bytes(encode_utf8(seq!['\r', '\n']))) by {
        if i < n {
            assert(all[i] == raw[i]);
            assert(inputs[2 * i + 1] == before[2 * i + 1]);
            assert(inputs[2 * i] == before[2 * i]);
        }
    }
}

/// What a pane on its alternate screen is restored from: the saved screen with its
/// cursor comes first, then the switch to the alternate screen, and then all that
/// restores the same pane without one. An unfinished escape sequence comes behind
/// everything, as the bytes that were captured.
pub proof fn screens_are_restored_in_turn(
    f: Facts,
    active: Seq<Seq<char>>,
    saved: Seq<Seq<char>>,
    pending: Seq<char>,
    raw: Seq<u8>,
)
    requires
        encode_utf8(pending) == escape(raw),
        encode_utf8(pending).len() <= MAX_CAPTURE_BYTES,
    ensures
        f.alternate && grid_inputs(saved) is Ok && grid_inputs(active) is Ok ==> restore_inputs(
            f,
            active,
            saved,
            seq![],
        ) == Ok::<Seq<Input>, Error>(
            grid_inputs(saved)->Ok_0 + seq![
                Input::Cursor(f.saved_cursor.0, f.saved_cursor.1),
                Input::Bytes(
                    encode_utf8(seq!['\x1b', '[', '?', '1', '0', '4', '9', 'h']),
                ),
            ] + restore_inputs(
                Facts { alternate: false, ..f },
                active,
                seq![],
                seq![],
            )->Ok_0,
        ),
        !f.alternate && grid_inputs(active) is Ok ==> (restore_inputs(f, active, seq![], seq![])
            matches Ok(inputs) && grid_inputs(active)->Ok_0.is_prefix_of(inputs)),
        restore_inputs(f, active, saved, seq![]) matches Ok(inputs) ==> restore_inputs(
            f,
            active,
            saved,
            seq![pending],
        ) == Ok::<Seq<Input>, Error>(inputs.push(Input::Bytes(raw))),
        active.len() == 0 && !f.alternate ==> restore_inputs(f, active, seq![], seq![]) is Err,
        f.alternate && saved.len() == 0 ==> restore_inputs(f, active, saved, seq![]) is Err,
        !f.alternate && (exists|i: int| 0 <= i < saved.len() && (#[trigger] saved[i]).len() > 0)
            ==> restore_inputs(f, active, saved, seq![]) == Err::<Seq<Input>, Error>(
            Error::SavedGrid,
        ),
{
    reveal(restore_inputs);
    reveal_strlit("\x1b[?1049h");
    assert("\x1b[?1049h"@ =~= seq!['\x1b', '[', '?', '1', '0', '4', '9', 'h']);
    captures_decode_once(raw);
    let plain = Facts { alternate: false, ..f };
    assert(mode_inputs(plain) == mode_inputs(f));
    if grid_inputs(active) is Ok {
        let grid = grid_inputs(active)->Ok_0;
        let modes = mode_inputs(f);
        let rest = Seq::<Input>::empty() + grid + modes;
        assert(restore_inputs(plain, active, seq![], seq![]) == Ok::<Seq<Input>, Error>(rest));
        assert(rest =~= grid + modes);
        if grid_inputs(saved) is Ok {
            let first = grid_inputs(saved)->Ok_0;
            let cursor = Input::Cursor(f.saved_cursor.0, f.saved_cursor.1);
            let enter = typed("\x1b[?1049h"@);
            assert(first.push(cursor).push(enter) + grid + modes =~= first + seq![cursor, enter]
                + rest);
        }
    }
}

/// The fields of a state, as the server writes them.
pub open spec fn state_fields(f: Facts) -> Seq<Seq<char>> {
    seq![
        seq!['%'] + decimal(f.pane),
        seq!['@'] + decimal(f.window),
        decimal(f.columns),
        decimal(f.rows),
        decimal(f.left),
        decimal(f.top),
        decimal(f.cursor.0),
        decimal(f.cursor.1),
        bit(f.alternate),
        decimal(f.history_size),
        decimal(f.history_limit),
        only_if(f.alternate, decimal(f.saved_cursor.0)),
        only_if(f.alternate, decimal(f.saved_cursor.1)),
        decimal(f.scroll_region.0),
        decimal(f.scroll_region.1),
        bit(f.modes[0]),
        bit(f.modes[1]),
        bit(f.modes[2]),
        bit(f.modes[3]),
        bit(f.modes[4]),
        bit(f.modes[5]),
        bit(f.modes[6]),
        bit(f.modes[7]),
        bit(f.modes[8]),
        bit(f.modes[9]),
        match f.bracketed_paste {
            Some(on) => bit(on),
            None => seq![],
        },
        separated(f.tabs.map_values(|n: nat| decimal(n)), ','),
    ]
}

pub open spec fn bit(on: bool) -> Seq<char> {
    if on {
        seq!['1']
    } else {
        seq!['0']
    }
}

pub open spec fn only_if(condition: bool, text: Seq<char>) -> Seq<char> {
    if condition {
        text
    } else {
        seq![]
    }
}

/// Numbers that fit into the fields of a state.
pub open spec fn representable(f: Facts) -> bool {
    &&& f.pane <= u32::MAX && f.window <= u32::MAX
    &&& f.history_size <= usize::MAX && f.history_limit <= usize::MAX
    &&& !f.alternate ==> f.saved_cursor == (0nat, 0nat)
}

/// A number that fits is read as it was written.
pub proof fn numbers_are_read(n: nat, max: nat)
    requires
        n <= max,
    ensures
        number(decimal(n), max) == Some(n),
        read_number(decimal(n), max) == Ok::<nat, crate::text::NumberError>(n),
        !decimal(n).contains('|'),
        !decimal(n).contains(','),
        decimal(n).len() > 0,
{
    decimal_reads_back(n);
    numbers_have_no_fault(decimal(n), max);
    let w = decimal(n);
    if w.contains('|') {
        let i = choose|i: int| 0 <= i < w.len() && w[i] == '|';
        assert(digit_char(w[i]));
    }
    if w.contains(',') {
        let i = choose|i: int| 0 <= i < w.len() && w[i] == ',';
        assert(digit_char(w[i]));
    }
}

proof fn tab_texts_are_read(tabs: Seq<nat>, columns: nat)
    requires
        ordered_tabs(tabs, columns),
        columns <= usize::MAX,
    ensures
        read_tabs(tabs.map_values(|n: nat| decimal(n)), columns) == Ok::<Seq<nat>, Error>(tabs),
    decreases tabs.len(),
{
    let given = tabs.map_values(|n: nat| decimal(n));
    if tabs.len() == 0 {
        assert(tabs =~= Seq::<nat>::empty());
    } else {
        let front = tabs.drop_last();
        assert(ordered_tabs(front, columns)) by {
            assert forall|i: int| 0 <= i < front.len() implies #[trigger] front[i] < columns by {
                assert(front[i] == tabs[i]);
            }
            assert forall|i: int, j: int| 0 <= i < j < front.len() implies #[trigger] front[i]
                < #[trigger] front[j] by {
                assert(front[i] == tabs[i] && front[j] == tabs[j]);
            }
        }
        tab_texts_are_read(front, columns);
        assert(given.drop_last() =~= front.map_values(|n: nat| decimal(n)));
        assert(tabs[tabs.len() - 1] < columns);
        numbers_are_read(tabs.last(), usize::MAX as nat);
        if front.len() > 0 {
            assert(tabs[front.len() - 1] < tabs[tabs.len() - 1]);
        }
        assert(front.push(tabs.last()) =~= tabs);
    }
}

proof fn tab_fields_are_read(tabs: Seq<nat>, columns: nat)
    requires
        ordered_tabs(tabs, columns),
        columns <= usize::MAX,
    ensures
        read_tabs(tab_fields(separated(tabs.map_values(|n: nat| decimal(n)), ',')), columns)
            == Ok::<Seq<nat>, Error>(tabs),
        !separated(tabs.map_values(|n: nat| decimal(n)), ',').contains('|'),
{
    let given = tabs.map_values(|n: nat| decimal(n));
    let text = separated(given, ',');
    tab_texts_are_read(tabs, columns);
    assert forall|i: int| 0 <= i < given.len() implies !(#[trigger] given[i]).contains(',')
        && !given[i].contains('|') && given[i].len() > 0 by {
        assert(tabs[i] < columns);
        numbers_are_read(tabs[i], usize::MAX as nat);
    }
    nothing_is_added(given, ',', '|');
    if tabs.len() == 0 {
        assert(given =~= Seq::<Seq<char>>::empty());
    } else {
        separated_reads_back(given, ',');
        assert(given[0].len() > 0);
        assert(text.len() > 0);
    }
}

proof fn nothing_is_added(parts: Seq<Seq<char>>, c: char, other: char)
    requires
        c != other,
        forall|i: int| 0 <= i < parts.len() ==> !(#[trigger] parts[i]).contains(other),
    ensures
        !separated(parts, c).contains(other),
    decreases parts.len(),
{
    let all = separated(parts, c);
    if parts.len() > 0 {
        assert(!parts[0].contains(other));
    }
    if parts.len() > 1 {
        let rest = parts.drop_first();
        assert forall|i: int| 0 <= i < rest.len() implies !(#[trigger] rest[i]).contains(
            other,
        ) by {
            assert(rest[i] == parts[i + 1]);
        }
        nothing_is_added(rest, c, other);
        if all.contains(other) {
            let i = choose|i: int| 0 <= i < all.len() && all[i] == other;
            let n = parts[0].len();
            if i < n {
                assert(parts[0][i] == other);
            } else if i > n {
                assert(separated(rest, c)[i - n - 1] == other);
            }
        }
    }
}

/// A place, or the last one where it is beyond that.
pub open spec fn at_most(n: nat, last: nat) -> nat {
    if n <= last {
        n
    } else {
        last
    }
}

/// A state whose saved cursor was drawn into the pane. A pane that shrinks leaves it where
/// it was, and a pane without a saved screen has none.
pub open spec fn drawn_in(f: Facts) -> Facts {
    Facts {
        saved_cursor: if f.alternate {
            (at_most(f.saved_cursor.0, f.columns), at_most(f.saved_cursor.1, (f.rows - 1) as nat))
        } else {
            (0, 0)
        },
        ..f
    }
}

/// What a server says of a pane is what is read: the fields of a coherent state, with
/// bars between them, are read as that state.
pub proof fn states_are_read_as_written(f: Facts)
    requires
        coherent(f),
        representable(f),
    ensures
        read_state(separated(state_fields(f), '|')) == Ok::<Facts, Error>(f),
{
    assert(f.columns <= 4096 && f.rows <= 4096);
    assert(drawn_in(f) == f);
    saved_cursors_are_drawn_in(f);
}

/// A saved cursor that the pane has shrunk away from is read as the nearest place inside
/// the pane; all else is read as it is written.
pub proof fn saved_cursors_are_drawn_in(f: Facts)
    requires
        coherent(drawn_in(f)),
        representable(f),
        f.saved_cursor.0 <= usize::MAX,
        f.saved_cursor.1 <= usize::MAX,
    ensures
        read_state(separated(state_fields(f), '|')) == Ok::<Facts, Error>(drawn_in(f)),
{
    let fields = state_fields(f);
    assert forall|i: int| 0 <= i < fields.len() implies !(#[trigger] fields[i]).contains('|') by {
        fields_hold_no_bar(f, i);
    }
    separated_reads_back(fields, '|');
    states_are_read_by_field(f);
}

proof fn fields_hold_no_bar(f: Facts, i: int)
    requires
        coherent(drawn_in(f)),
        representable(f),
        f.saved_cursor.0 <= usize::MAX,
        f.saved_cursor.1 <= usize::MAX,
        0 <= i < 27,
    ensures
        !state_fields(f)[i].contains('|'),
{
    let w = state_fields(f)[i];
    let max = usize::MAX as nat;
    numbers_are_read(f.pane, u32::MAX as nat);
    numbers_are_read(f.window, u32::MAX as nat);
    tab_fields_are_read(f.tabs, f.columns);
    if w.contains('|') {
        let k = choose|k: int| 0 <= k < w.len() && w[k] == '|';
        if i == 0 {
            assert(decimal(f.pane)[k - 1] == '|');
            assert(decimal(f.pane).contains('|'));
        } else if i == 1 {
            assert(decimal(f.window)[k - 1] == '|');
            assert(decimal(f.window).contains('|'));
        } else if i == 2 {
            numbers_are_read(f.columns, max);
        } else if i == 3 {
            numbers_are_read(f.rows, max);
        } else if i == 4 {
            numbers_are_read(f.left, max);
        } else if i == 5 {
            numbers_are_read(f.top, max);
        } else if i == 6 {
            numbers_are_read(f.cursor.0, max);
        } else if i == 7 {
            numbers_are_read(f.cursor.1, max);
        } else if i == 9 {
            numbers_are_read(f.history_size, max);
        } else if i == 10 {
            numbers_are_read(f.history_limit, max);
        } else if i == 11 {
            numbers_are_read(f.saved_cursor.0, max);
        } else if i == 12 {
            numbers_are_read(f.saved_cursor.1, max);
        } else if i == 13 {
            numbers_are_read(f.scroll_region.0, max);
        } else if i == 14 {
            numbers_are_read(f.scroll_region.1, max);
        }
    }
}

proof fn bits_are_flags(fields: Seq<Seq<char>>, i: int, on: bool)
    requires
        fields[i] == bit(on),
    ensures
        flag(fields, i) == Some(on),
{
    reveal_strlit("0");
    reveal_strlit("1");
    assert("0"@ =~= seq!['0']);
    assert("1"@ =~= seq!['1']);
    assert(seq!['0'][0] != seq!['1'][0]);
}

#[verifier::rlimit(40)]
proof fn states_are_read_by_field(f: Facts)
    requires
        coherent(drawn_in(f)),
        representable(f),
        f.saved_cursor.0 <= usize::MAX,
        f.saved_cursor.1 <= usize::MAX,
        pieces(separated(state_fields(f), '|'), '|') == state_fields(f),
    ensures
        read_state(separated(state_fields(f), '|')) == Ok::<Facts, Error>(drawn_in(f)),
{
    let fields = state_fields(f);
    let max = usize::MAX as nat;
    assert(read_head(fields) == Ok::<(nat, nat, nat, nat), Error>(
        (f.pane, f.window, f.columns, f.rows),
    )) by {
        numbers_are_read(f.pane, u32::MAX as nat);
        numbers_are_read(f.window, u32::MAX as nat);
        numbers_are_read(f.columns, max);
        numbers_are_read(f.rows, max);
        assert(fields[0].drop_first() =~= decimal(f.pane));
        assert(fields[1].drop_first() =~= decimal(f.window));
    }
    assert(read_cursors(fields, f.columns, f.rows) == Ok::<((nat, nat), bool, (nat, nat)), Error>(
        (f.cursor, f.alternate, drawn_in(f).saved_cursor),
    )) by {
        numbers_are_read(f.cursor.0, max);
        numbers_are_read(f.cursor.1, max);
        numbers_are_read(f.saved_cursor.0, max);
        numbers_are_read(f.saved_cursor.1, max);
        bits_are_flags(fields, 8, f.alternate);
    }
    assert(read_region(fields, f.rows) == Ok::<(nat, nat), Error>(f.scroll_region)) by {
        numbers_are_read(f.scroll_region.0, max);
        numbers_are_read(f.scroll_region.1, max);
    }
    assert(read_modes(fields) == Ok::<(Seq<bool>, Option<bool>), Error>(
        (f.modes, f.bracketed_paste),
    )) by {
        assert forall|i: int| 15 <= i < 25 implies #[trigger] flag(fields, i) == Some(
            f.modes[i - 15],
        ) by {
            bits_are_flags(fields, i, f.modes[i - 15]);
        }
        no_bad_flags(fields, 15, 25);
        assert(flags(fields, 15, 10) =~= f.modes);
        if let Some(on) = f.bracketed_paste {
            bits_are_flags(fields, 25, on);
        }
    }
    assert(read_tabs(tab_fields(fields[26]), f.columns) == Ok::<Seq<nat>, Error>(f.tabs)) by {
        tab_fields_are_read(f.tabs, f.columns);
    }
    assert(read_place(fields) == Ok::<(nat, nat, nat, nat), Error>(
        (f.left, f.top, f.history_size, f.history_limit),
    )) by {
        numbers_are_read(f.left, max);
        numbers_are_read(f.top, max);
        numbers_are_read(f.history_size, max);
        numbers_are_read(f.history_limit, max);
    }
    reveal(read_state);
}

/// What one notification does to a view, kind by kind. Output goes to the pane that it
/// is for, behind all that the pane was fed before, and to no other; output for a pane
/// that is not there, and whatever may change the panes, stop the view until the next
/// snapshot; an exit ends it.
pub proof fn notifications_are_taken_by_kind(m: Models, n: Notification, i: int)
    requires
        m.status == Status::Watching,
    ensures
        n is LayoutChange || n is WindowAdd || n is WindowClose || n is SessionChanged || n is Pause
            || n is Continue || n is Unknown ==> applied(m, n) == (Models {
            status: Status::NeedsResync,
            ..m
        }),
        n is Exit ==> applied(m, n) == (Models { status: Status::Disconnected, ..m }),
        n is Other ==> applied(m, n) == m,
        n matches Notification::Output { pane, bytes } ==> output_is_taken(m, n, pane, bytes@, i),
        n matches Notification::ExtendedOutput { pane, bytes } ==> output_is_taken(
            m,
            n,
            pane,
            bytes@,
            i,
        ),
{
    if let Notification::Output { pane, bytes } = n {
        pane_index_facts(m.panes, pane);
        own_pane_is_found(m, pane, i);
    }
    if let Notification::ExtendedOutput { pane, bytes } = n {
        pane_index_facts(m.panes, pane);
        own_pane_is_found(m, pane, i);
    }
}

/// Output that is taken by the pane at a place, which alone has the number of the pane
/// that it is for, or by none.
pub open spec fn output_is_taken(
    m: Models,
    n: Notification,
    pane: PaneId,
    bytes: Seq<u8>,
    i: int,
) -> bool {
    &&& only_pane(m, pane, i) ==> {
        let next = applied(m, n);
        &&& next.status == Status::Watching
        &&& next.panes.len() == m.panes.len()
        &&& next.panes[i].inputs == m.panes[i].inputs.push(Input::Bytes(bytes))
        &&& next.panes[i].facts == m.panes[i].facts
        &&& next.panes[i].shape == m.panes[i].shape
        &&& next.panes[i].truncated == m.panes[i].truncated
        &&& forall|j: int|
            0 <= j < m.panes.len() && j != i ==> #[trigger] next.panes[j] == m.panes[j]
    }
    &&& (forall|j: int| 0 <= j < m.panes.len() ==> (#[trigger] m.panes[j]).facts.pane != pane.0)
        ==> applied(m, n) == (Models { status: Status::NeedsResync, ..m })
}

pub open spec fn only_pane(m: Models, pane: PaneId, i: int) -> bool {
    &&& 0 <= i < m.panes.len()
    &&& m.panes[i].facts.pane == pane.0
    &&& forall|j: int|
        0 <= j < m.panes.len() && j != i ==> (#[trigger] m.panes[j]).facts.pane != pane.0
}

proof fn own_pane_is_found(m: Models, pane: PaneId, i: int)
    ensures
        only_pane(m, pane, i) ==> pane_index(m.panes, pane) == i,
{
    pane_index_facts(m.panes, pane);
    let k = pane_index(m.panes, pane);
    if only_pane(m, pane, i) {
        if k < 0 {
            assert(m.panes[i].facts.pane != pane.0);
        } else if k != i {
            assert(m.panes[k].facts.pane != pane.0);
        }
    }
}

} // verus!
