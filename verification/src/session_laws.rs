//! What an attachment shows of the session that it is attached to.
//!
//! A server is written down here as it answers the commands of a snapshot, each from
//! its own words. What is restored of the answers is compared with what the server
//! holds.
use vstd::prelude::*;
use vstd::string::*;

use crate::command::pane_text;
use crate::restore_laws::{representable, state_fields, states_are_read_as_written};
use crate::session::{
    all_pane_commands, identified, pane_commands, pane_commands_count, read_batch, read_checked,
    read_final, read_models, read_states, restored_inputs, restored_model, session_text,
    snapshot_texts, Error,
};
use crate::snapshot::{
    coherent, facts_panes, restore_inputs, session_error, Facts, PaneModel, STATE_FORMAT,
};
use crate::terminal::Input;
use crate::text::{
    decimal, decimal_reads_back, digit_char, pieces, pieces_alone, pieces_front, separated,
};
use crate::tmux::{PaneId, SessionId};

verus! {

/// What a server holds of a pane: its state, and the lines of its screen, of the screen
/// behind it, and of an escape sequence that is not finished.
pub struct Kept {
    pub facts: Facts,
    pub screen: Seq<Seq<char>>,
    pub behind: Seq<Seq<char>>,
    pub unfinished: Seq<Seq<char>>,
}

pub open spec fn id_of(kept: Kept) -> PaneId {
    PaneId(kept.facts.pane as u32)
}

/// The line that describes a pane.
pub open spec fn described(kept: Kept) -> Seq<char> {
    separated(state_fields(kept.facts), '|')
}

/// The pane that the word behind `-t` names.
pub open spec fn asked_pane(panes: Seq<Kept>, w: Seq<Seq<char>>) -> Option<Kept> {
    if exists|i: int, k: int| #[trigger] names(panes, w, i, k) {
        let (i, k) = choose|i: int, k: int| #[trigger] names(panes, w, i, k);
        Some(panes[k])
    } else {
        None
    }
}

pub open spec fn names(panes: Seq<Kept>, w: Seq<Seq<char>>, i: int, k: int) -> bool {
    &&& 0 <= i < w.len() - 1
    &&& w[i] == "-t"@
    &&& 0 <= k < panes.len()
    &&& w[i + 1] == pane_text(id_of(panes[k]))
}

/// What a server answers to one command of a snapshot.
pub open spec fn answer_to(
    panes: Seq<Kept>,
    session: SessionId,
    command: Seq<char>,
) -> Seq<Seq<char>> {
    let w = pieces(command, ' ');
    let pane = asked_pane(panes, w);
    if w[0] == "display-message"@ && pane is Some && w.contains(
        seq!['\''] + STATE_FORMAT@ + seq!['\''],
    ) {
        seq![described(pane->0)]
    } else if w[0] == "display-message"@ {
        seq![session_text(session)]
    } else if w[0] == "list-panes"@ {
        panes.map_values(|kept: Kept| described(kept))
    } else if w[0] == "capture-pane"@ && pane is Some {
        if w.contains("-P"@) {
            pane->0.unfinished
        } else if w.contains("-a"@) {
            pane->0.behind
        } else {
            pane->0.screen
        }
    } else {
        seq![]
    }
}

/// The answers to the commands of a snapshot, in order.
pub open spec fn answers_to(
    panes: Seq<Kept>,
    session: SessionId,
    commands: Seq<Seq<char>>,
) -> Seq<Seq<Seq<char>>> {
    commands.map_values(|command: Seq<char>| answer_to(panes, session, command))
}

/// Panes that a server may hold, each with a number of its own.
pub open spec fn held(panes: Seq<Kept>) -> bool {
    &&& forall|i: int|
        0 <= i < panes.len() ==> coherent((#[trigger] panes[i]).facts) && representable(
            panes[i].facts,
        )
    &&& forall|i: int, j: int|
        0 <= i < j < panes.len() ==> (#[trigger] panes[i]).facts.pane != (
        #[trigger] panes[j]).facts.pane
}

pub open spec fn ids_of(panes: Seq<Kept>) -> Seq<PaneId> {
    panes.map_values(|kept: Kept| id_of(kept))
}

pub open spec fn all_facts(panes: Seq<Kept>) -> Seq<Facts> {
    panes.map_values(|kept: Kept| kept.facts)
}

proof fn pane_words(pane: PaneId)
    ensures
        !pane_text(pane).contains(' '),
        pane_text(pane).len() > 1,
        pane_text(pane)[0] == '%',
{
    let w = pane_text(pane);
    decimal_reads_back(pane.0 as nat);
    if w.contains(' ') {
        let i = choose|i: int| 0 <= i < w.len() && w[i] == ' ';
        assert(digit_char(decimal(pane.0 as nat)[i - 1]));
    }
}

proof fn pane_words_differ(a: PaneId, b: PaneId)
    ensures
        pane_text(a) == pane_text(b) ==> a == b,
{
    decimal_reads_back(a.0 as nat);
    decimal_reads_back(b.0 as nat);
    if pane_text(a) == pane_text(b) {
        assert(pane_text(a).drop_first() =~= decimal(a.0 as nat));
        assert(pane_text(b).drop_first() =~= decimal(b.0 as nat));
    }
}

proof fn formats_are_one_word()
    ensures
        !(seq!['\''] + STATE_FORMAT@ + seq!['\'']).contains(' '),
{
    reveal_strlit(
        "#{pane_id}|#{window_id}|#{pane_width}|#{pane_height}|#{pane_left}|#{pane_top}|#{cursor_x}|#{cursor_y}|#{alternate_on}|#{history_size}|#{history_limit}|#{alternate_saved_x}|#{alternate_saved_y}|#{scroll_region_upper}|#{scroll_region_lower}|#{cursor_flag}|#{insert_flag}|#{keypad_cursor_flag}|#{keypad_flag}|#{wrap_flag}|#{mouse_standard_flag}|#{mouse_button_flag}|#{mouse_any_flag}|#{mouse_utf8_flag}|#{mouse_sgr_flag}|#{bracket_paste_flag}|#{pane_tabs}",
    );
    let s = seq!['\''] + STATE_FORMAT@ + seq!['\''];
    if s.contains(' ') {
        let i = choose|i: int| 0 <= i < s.len() && s[i] == ' ';
        assert(STATE_FORMAT@[i - 1] == ' ');
    }
}

/// The pane is found where the words name it once.
proof fn the_named_pane_is_asked(panes: Seq<Kept>, w: Seq<Seq<char>>, at: int, k: int)
    requires
        held(panes),
        0 <= k < panes.len(),
        0 <= at < w.len() - 1,
        w[at] == "-t"@,
        w[at + 1] == pane_text(id_of(panes[k])),
        forall|i: int| 0 <= i < w.len() && i != at ==> #[trigger] w[i] != "-t"@,
    ensures
        asked_pane(panes, w) == Some(panes[k]),
{
    assert(names(panes, w, at, k));
    let (i, j) = choose|i: int, k: int| #[trigger] names(panes, w, i, k);
    assert(names(panes, w, i, j));
    assert(i == at);
    pane_words_differ(id_of(panes[j]), id_of(panes[k]));
    assert(coherent(panes[j].facts) && representable(panes[j].facts));
    assert(coherent(panes[k].facts) && representable(panes[k].facts));
    assert(panes[j].facts.pane == panes[k].facts.pane);
}

proof fn states_are_answered(panes: Seq<Kept>, session: SessionId, k: int, history: nat)
    requires
        held(panes),
        0 <= k < panes.len(),
    ensures
        answer_to(panes, session, pane_commands(id_of(panes[k]), history)[0]) == seq![
            described(panes[k]),
        ],
{
    let pane = pane_text(id_of(panes[k]));
    let format = seq!['\''] + STATE_FORMAT@ + seq!['\''];
    let command = pane_commands(id_of(panes[k]), history)[0];
    pane_words(id_of(panes[k]));
    formats_are_one_word();
    reveal_strlit("display-message -p -t ");
    reveal_strlit("display-message");
    reveal_strlit("-p");
    reveal_strlit("-t");
    reveal_strlit(" '");
    reveal_strlit("'");
    let r3 = pane.push(' ') + format;
    let r2 = "-t"@.push(' ') + r3;
    let r1 = "-p"@.push(' ') + r2;
    assert("display-message -p -t "@ =~= "display-message"@.push(' ') + "-p"@.push(' ')
        + "-t"@.push(' '));
    assert(" '"@ =~= seq![' ', '\'']);
    assert("'"@ =~= seq!['\'']);
    assert(command =~= "display-message"@.push(' ') + r1);
    pieces_front("display-message"@, ' ', r1);
    pieces_front("-p"@, ' ', r2);
    pieces_front("-t"@, ' ', r3);
    pieces_front(pane, ' ', format);
    pieces_alone(format, ' ');
    let w = pieces(command, ' ');
    assert(w =~= seq!["display-message"@, "-p"@, "-t"@, pane, format]);
    assert("display-message"@.len() == 15 && "-t"@.len() == 2 && "-p"@[1] == 'p' && "-t"@[1] == 't'
        && "-t"@[0] == '-');
    assert(format[0] == '\'');
    the_named_pane_is_asked(panes, w, 2, k);
    assert(w[4] == format);
}

/// The words that a text leaves behind the flags.
proof fn captures_are_cut(flags: Seq<Seq<char>>, pane: Seq<char>, tail: Seq<char>)
    requires
        forall|i: int| 0 <= i < flags.len() ==> !(#[trigger] flags[i]).contains(' '),
        !pane.contains(' '),
    ensures
        pieces(spoken(flags) + ("-t"@.push(' ') + (pane + tail)), ' ') == flags + (seq!["-t"@]
            + pieces(pane + tail, ' ')),
    decreases flags.len(),
{
    let rest = "-t"@.push(' ') + (pane + tail);
    reveal_strlit("-t");
    pieces_front("-t"@, ' ', pane + tail);
    if flags.len() == 0 {
        assert(spoken(flags) + rest =~= rest);
        assert(flags + (seq!["-t"@] + pieces(pane + tail, ' ')) =~= seq!["-t"@] + pieces(
            pane + tail,
            ' ',
        ));
    } else {
        let more = flags.drop_first();
        assert forall|i: int| 0 <= i < more.len() implies !(#[trigger] more[i]).contains(' ') by {
            assert(more[i] == flags[i + 1]);
        }
        captures_are_cut(more, pane, tail);
        assert(!flags[0].contains(' '));
        pieces_front(flags[0], ' ', spoken(more) + rest);
        assert(spoken(flags) + rest =~= flags[0].push(' ') + (spoken(more) + rest));
        assert(seq![flags[0]] + (more + (seq!["-t"@] + pieces(pane + tail, ' '))) =~= flags + (
        seq!["-t"@] + pieces(pane + tail, ' ')));
    }
}

/// Words with a space behind each.
spec fn spoken(words: Seq<Seq<char>>) -> Seq<char>
    decreases words.len(),
{
    if words.len() == 0 {
        seq![]
    } else {
        words[0].push(' ') + spoken(words.drop_first())
    }
}

proof fn history_words(history: nat)
    ensures
        !(seq!['-'] + decimal(history)).contains(' '),
        seq!['-'] + decimal(history) != "-t"@,
        seq!['-'] + decimal(history) != "-a"@,
        seq!['-'] + decimal(history) != "-P"@,
{
    let w = seq!['-'] + decimal(history);
    decimal_reads_back(history);
    reveal_strlit("-t");
    reveal_strlit("-a");
    reveal_strlit("-P");
    assert(digit_char(decimal(history)[0]));
    assert(w[1] == decimal(history)[0]);
    assert("-t"@[1] == 't' && "-a"@[1] == 'a' && "-P"@[1] == 'P');
    if w.contains(' ') {
        let i = choose|i: int| 0 <= i < w.len() && w[i] == ' ';
        assert(digit_char(decimal(history)[i - 1]));
    }
}

proof fn tails_are_cut(pane: Seq<char>, history: nat)
    requires
        !pane.contains(' '),
    ensures
        pieces(pane + (" -S -"@ + decimal(history) + " -E -"@), ' ') == seq![
            pane,
            "-S"@,
            seq!['-'] + decimal(history),
            "-E"@,
            "-"@,
        ],
{
    reveal_strlit(" -S -");
    reveal_strlit(" -E -");
    reveal_strlit("-S");
    reveal_strlit("-E");
    reveal_strlit("-");
    history_words(history);
    let h = seq!['-'] + decimal(history);
    let r3 = "-E"@.push(' ') + "-"@;
    let r2 = h.push(' ') + r3;
    let r1 = "-S"@.push(' ') + r2;
    assert(" -S -"@ =~= seq![' '] + "-S"@.push(' ') + seq!['-']);
    assert(" -E -"@ =~= seq![' '] + "-E"@.push(' ') + "-"@);
    assert(pane + (" -S -"@ + decimal(history) + " -E -"@) =~= pane.push(' ') + r1);
    pieces_front(pane, ' ', r1);
    pieces_front("-S"@, ' ', r2);
    pieces_front(h, ' ', r3);
    pieces_front("-E"@, ' ', "-"@);
    pieces_alone("-"@, ' ');
    assert(pieces(pane.push(' ') + r1, ' ') =~= seq![pane, "-S"@, h, "-E"@, "-"@]);
}

/// The short words of the commands are different ones.
proof fn flags_differ()
    ensures
        forall|c: char, d: char| c != d ==> #[trigger] seq!['-', c] != #[trigger] seq!['-', d],
        "-t"@ == seq!['-', 't'],
        "-p"@ == seq!['-', 'p'],
        "-e"@ == seq!['-', 'e'],
        "-C"@ == seq!['-', 'C'],
        "-J"@ == seq!['-', 'J'],
        "-N"@ == seq!['-', 'N'],
        "-a"@ == seq!['-', 'a'],
        "-q"@ == seq!['-', 'q'],
        "-P"@ == seq!['-', 'P'],
        "-S"@ == seq!['-', 'S'],
        "-E"@ == seq!['-', 'E'],
        "-"@.len() == 1,
        "capture-pane"@.len() == 12,
        "display-message"@.len() == 15,
        "list-panes"@.len() == 10,
        "refresh-client"@.len() == 14,
{
    reveal_strlit("-t");
    reveal_strlit("-p");
    reveal_strlit("-e");
    reveal_strlit("-C");
    reveal_strlit("-J");
    reveal_strlit("-N");
    reveal_strlit("-a");
    reveal_strlit("-q");
    reveal_strlit("-P");
    reveal_strlit("-S");
    reveal_strlit("-E");
    reveal_strlit("-");
    reveal_strlit("capture-pane");
    reveal_strlit("display-message");
    reveal_strlit("list-panes");
    reveal_strlit("refresh-client");
    assert("-t"@ =~= seq!['-', 't']);
    assert("-p"@ =~= seq!['-', 'p']);
    assert("-e"@ =~= seq!['-', 'e']);
    assert("-C"@ =~= seq!['-', 'C']);
    assert("-J"@ =~= seq!['-', 'J']);
    assert("-N"@ =~= seq!['-', 'N']);
    assert("-a"@ =~= seq!['-', 'a']);
    assert("-q"@ =~= seq!['-', 'q']);
    assert("-P"@ =~= seq!['-', 'P']);
    assert("-S"@ =~= seq!['-', 'S']);
    assert("-E"@ =~= seq!['-', 'E']);
    assert forall|c: char, d: char| c != d implies #[trigger] seq!['-', c] != #[trigger] seq![
        '-',
        d,
    ] by {
        assert(seq!['-', c][1] != seq!['-', d][1]);
    }
}

proof fn screens_are_answered(panes: Seq<Kept>, session: SessionId, k: int, history: nat)
    requires
        held(panes),
        0 <= k < panes.len(),
    ensures
        answer_to(panes, session, pane_commands(id_of(panes[k]), history)[1]) == panes[k].screen,
{
    let pane = pane_text(id_of(panes[k]));
    let tail = " -S -"@ + decimal(history) + " -E -"@;
    let command = pane_commands(id_of(panes[k]), history)[1];
    let flags = seq!["capture-pane"@, "-p"@, "-e"@, "-C"@, "-J"@, "-N"@];
    pane_words(id_of(panes[k]));
    flags_differ();
    history_words(history);
    assert(command == spoken(flags) + ("-t"@.push(' ') + (pane + tail))) by {
        reveal_strlit("capture-pane -p -e -C -J -N -t ");
        reveal_strlit("capture-pane");
        reveal_with_fuel(spoken, 7);
        assert("capture-pane -p -e -C -J -N -t "@ =~= "capture-pane"@.push(' ') + "-p"@.push(' ')
            + "-e"@.push(' ') + "-C"@.push(' ') + "-J"@.push(' ') + "-N"@.push(' ') + "-t"@.push(
            ' ',
        ));
        assert(spoken(flags) =~= "capture-pane"@.push(' ') + "-p"@.push(' ') + "-e"@.push(' ')
            + "-C"@.push(' ') + "-J"@.push(' ') + "-N"@.push(' '));
        assert(command =~= spoken(flags) + ("-t"@.push(' ') + (pane + tail)));
    }
    assert forall|i: int| 0 <= i < flags.len() implies !(#[trigger] flags[i]).contains(' ') by {
        reveal_strlit("capture-pane");
    }
    captures_are_cut(flags, pane, tail);
    tails_are_cut(pane, history);
    let w = pieces(command, ' ');
    let h = seq!['-'] + decimal(history);
    assert(w =~= seq![
        "capture-pane"@,
        "-p"@,
        "-e"@,
        "-C"@,
        "-J"@,
        "-N"@,
        "-t"@,
        pane,
        "-S"@,
        h,
        "-E"@,
        "-"@,
    ]);
    assert forall|i: int| 0 <= i < w.len() && i != 6 implies #[trigger] w[i] != "-t"@ by {
        assert(pane[0] == '%' && "-t"@[0] == '-');
    }
    the_named_pane_is_asked(panes, w, 6, k);
    assert(!w.contains("-P"@) && !w.contains("-a"@)) by {
        assert(pane[0] == '%' && "-P"@[0] == '-' && "-a"@[0] == '-');
    }
}

proof fn saved_screens_are_answered(panes: Seq<Kept>, session: SessionId, k: int, history: nat)
    requires
        held(panes),
        0 <= k < panes.len(),
    ensures
        answer_to(panes, session, pane_commands(id_of(panes[k]), history)[2]) == panes[k].behind,
{
    let pane = pane_text(id_of(panes[k]));
    let tail = " -S -"@ + decimal(history) + " -E -"@;
    let command = pane_commands(id_of(panes[k]), history)[2];
    let flags = seq!["capture-pane"@, "-p"@, "-a"@, "-q"@, "-e"@, "-C"@, "-J"@, "-N"@];
    pane_words(id_of(panes[k]));
    flags_differ();
    history_words(history);
    assert(command == spoken(flags) + ("-t"@.push(' ') + (pane + tail))) by {
        reveal_strlit("capture-pane -p -a -q -e -C -J -N -t ");
        reveal_strlit("capture-pane");
        reveal_with_fuel(spoken, 9);
        assert("capture-pane -p -a -q -e -C -J -N -t "@ =~= "capture-pane"@.push(' ') + "-p"@.push(
            ' ',
        ) + "-a"@.push(' ') + "-q"@.push(' ') + "-e"@.push(' ') + "-C"@.push(' ') + "-J"@.push(' ')
            + "-N"@.push(' ') + "-t"@.push(' '));
        assert(spoken(flags) =~= "capture-pane"@.push(' ') + "-p"@.push(' ') + "-a"@.push(' ')
            + "-q"@.push(' ') + "-e"@.push(' ') + "-C"@.push(' ') + "-J"@.push(' ') + "-N"@.push(
            ' ',
        ));
        assert(command =~= spoken(flags) + ("-t"@.push(' ') + (pane + tail)));
    }
    assert forall|i: int| 0 <= i < flags.len() implies !(#[trigger] flags[i]).contains(' ') by {
        reveal_strlit("capture-pane");
    }
    captures_are_cut(flags, pane, tail);
    tails_are_cut(pane, history);
    let w = pieces(command, ' ');
    let h = seq!['-'] + decimal(history);
    assert(w =~= seq![
        "capture-pane"@,
        "-p"@,
        "-a"@,
        "-q"@,
        "-e"@,
        "-C"@,
        "-J"@,
        "-N"@,
        "-t"@,
        pane,
        "-S"@,
        h,
        "-E"@,
        "-"@,
    ]);
    assert forall|i: int| 0 <= i < w.len() && i != 8 implies #[trigger] w[i] != "-t"@ by {
        assert(pane[0] == '%' && "-t"@[0] == '-');
    }
    the_named_pane_is_asked(panes, w, 8, k);
    assert(!w.contains("-P"@)) by {
        assert(pane[0] == '%' && "-P"@[0] == '-');
    }
    assert(w[2] == "-a"@);
}

proof fn unfinished_bytes_are_answered(panes: Seq<Kept>, session: SessionId, k: int, history: nat)
    requires
        held(panes),
        0 <= k < panes.len(),
    ensures
        answer_to(panes, session, pane_commands(id_of(panes[k]), history)[3])
            == panes[k].unfinished,
{
    let pane = pane_text(id_of(panes[k]));
    let command = pane_commands(id_of(panes[k]), history)[3];
    let flags = seq!["capture-pane"@, "-p"@, "-P"@, "-C"@];
    let tail = Seq::<char>::empty();
    pane_words(id_of(panes[k]));
    flags_differ();
    assert(command == spoken(flags) + ("-t"@.push(' ') + (pane + tail))) by {
        reveal_strlit("capture-pane -p -P -C -t ");
        reveal_strlit("capture-pane");
        reveal_with_fuel(spoken, 5);
        assert("capture-pane -p -P -C -t "@ =~= "capture-pane"@.push(' ') + "-p"@.push(' ')
            + "-P"@.push(' ') + "-C"@.push(' ') + "-t"@.push(' '));
        assert(spoken(flags) =~= "capture-pane"@.push(' ') + "-p"@.push(' ') + "-P"@.push(' ')
            + "-C"@.push(' '));
        assert(command =~= spoken(flags) + ("-t"@.push(' ') + (pane + tail)));
    }
    assert forall|i: int| 0 <= i < flags.len() implies !(#[trigger] flags[i]).contains(' ') by {
        reveal_strlit("capture-pane");
    }
    captures_are_cut(flags, pane, tail);
    assert(pane + tail =~= pane);
    pieces_alone(pane, ' ');
    let w = pieces(command, ' ');
    assert(w =~= seq!["capture-pane"@, "-p"@, "-P"@, "-C"@, "-t"@, pane]);
    assert forall|i: int| 0 <= i < w.len() && i != 4 implies #[trigger] w[i] != "-t"@ by {
        assert(pane[0] == '%' && "-t"@[0] == '-');
    }
    the_named_pane_is_asked(panes, w, 4, k);
    assert(w[2] == "-P"@);
}

proof fn commands_by_place(ids: Seq<PaneId>, history: nat, k: int, j: int)
    requires
        0 <= k < ids.len(),
        0 <= j < 4,
    ensures
        all_pane_commands(ids, history)[4 * k + j] == pane_commands(ids[k], history)[j],
        all_pane_commands(ids, history).len() == 4 * ids.len(),
    decreases ids.len(),
{
    pane_commands_count(ids, history);
    let front = ids.drop_last();
    pane_commands_count(front, history);
    if k < front.len() {
        commands_by_place(front, history, k, j);
        assert(front[k] == ids[k]);
    }
}

proof fn listings_are_answered(panes: Seq<Kept>, session: SessionId)
    ensures
        answer_to(panes, session, "list-panes -s -F '"@ + STATE_FORMAT@ + "'"@)
            == panes.map_values(|kept: Kept| described(kept)),
        answer_to(panes, session, "display-message -p '#{session_id}'"@) == seq![
            session_text(session),
        ],
{
    let format = seq!['\''] + STATE_FORMAT@ + seq!['\''];
    flags_differ();
    formats_are_one_word();
    reveal_strlit("list-panes -s -F '");
    reveal_strlit("list-panes");
    reveal_strlit("-s");
    reveal_strlit("-F");
    reveal_strlit("'");
    let list = "list-panes -s -F '"@ + STATE_FORMAT@ + "'"@;
    let r2 = "-F"@.push(' ') + format;
    let r1 = "-s"@.push(' ') + r2;
    assert("list-panes -s -F '"@ =~= "list-panes"@.push(' ') + "-s"@.push(' ') + "-F"@.push(' ')
        + seq!['\'']);
    assert("'"@ =~= seq!['\'']);
    assert(list =~= "list-panes"@.push(' ') + r1);
    pieces_front("list-panes"@, ' ', r1);
    reveal_strlit("display-message -p '#{session_id}'");
    reveal_strlit("display-message");
    reveal_strlit("-p");
    reveal_strlit("'#{session_id}'");
    let ask = "display-message -p '#{session_id}'"@;
    let last = "'#{session_id}'"@;
    let s1 = "-p"@.push(' ') + last;
    assert(ask =~= "display-message"@.push(' ') + s1);
    pieces_front("display-message"@, ' ', s1);
    pieces_front("-p"@, ' ', last);
    pieces_alone(last, ' ');
    let w = pieces(ask, ' ');
    assert(w =~= seq!["display-message"@, "-p"@, last]);
    assert(last[0] == '\'' && last.len() == 15);
    assert forall|i: int, k: int| !(#[trigger] names(panes, w, i, k)) by {
        if names(panes, w, i, k) {
            assert(w[i] == "-t"@);
        }
    }
}

/// What a server answers in a snapshot, place by place.
proof fn answers_by_place(panes: Seq<Kept>, session: SessionId, history: nat)
    requires
        held(panes),
    ensures
        ({
            let replies = answers_to(panes, session, snapshot_texts(ids_of(panes), history));
            let n = panes.len() as int;
            &&& replies.len() == 4 * n + 3
            &&& forall|k: int|
                0 <= k < n ==> {
                    &&& replies[4 * k] == seq![described(#[trigger] panes[k])]
                    &&& replies[4 * k + 1] == panes[k].screen
                    &&& replies[4 * k + 2] == panes[k].behind
                    &&& replies[4 * k + 3] == panes[k].unfinished
                }
            &&& replies[4 * n] == panes.map_values(|kept: Kept| described(kept))
            &&& replies[4 * n + 1] == seq![session_text(session)]
        }),
{
    let ids = ids_of(panes);
    let commands = snapshot_texts(ids, history);
    let replies = answers_to(panes, session, commands);
    let n = panes.len() as int;
    pane_commands_count(ids, history);
    assert forall|k: int| 0 <= k < n implies {
        &&& replies[4 * k] == seq![described(#[trigger] panes[k])]
        &&& replies[4 * k + 1] == panes[k].screen
        &&& replies[4 * k + 2] == panes[k].behind
        &&& replies[4 * k + 3] == panes[k].unfinished
    } by {
        commands_by_place(ids, history, k, 0);
        commands_by_place(ids, history, k, 1);
        commands_by_place(ids, history, k, 2);
        commands_by_place(ids, history, k, 3);
        assert(ids[k] == id_of(panes[k]));
        states_are_answered(panes, session, k, history);
        screens_are_answered(panes, session, k, history);
        saved_screens_are_answered(panes, session, k, history);
        unfinished_bytes_are_answered(panes, session, k, history);
        assert(commands[4 * k] == all_pane_commands(ids, history)[4 * k + 0]);
        assert(commands[4 * k + 1] == all_pane_commands(ids, history)[4 * k + 1]);
        assert(commands[4 * k + 2] == all_pane_commands(ids, history)[4 * k + 2]);
        assert(commands[4 * k + 3] == all_pane_commands(ids, history)[4 * k + 3]);
    }
    listings_are_answered(panes, session);
}

proof fn answered_states_are_read(panes: Seq<Kept>, replies: Seq<Seq<Seq<char>>>, n: nat)
    requires
        held(panes),
        n <= panes.len(),
        forall|k: int|
            0 <= k < panes.len() ==> replies[4 * k] == seq![described(#[trigger] panes[k])],
    ensures
        read_states(replies, n) == Ok::<Seq<Facts>, Error>(all_facts(panes).take(n as int)),
    decreases n,
{
    let facts = all_facts(panes);
    if n == 0 {
        assert(facts.take(0) =~= Seq::<Facts>::empty());
    } else {
        answered_states_are_read(panes, replies, (n - 1) as nat);
        let kept = panes[n - 1];
        assert(replies[4 * (n - 1)] == seq![described(kept)]);
        states_are_read_as_written(kept.facts);
        assert(facts.take(n - 1).push(kept.facts) =~= facts.take(n as int));
    }
}

proof fn answered_lists_are_read(panes: Seq<Kept>, n: int)
    requires
        held(panes),
        0 <= n <= panes.len(),
    ensures
        read_final(panes.map_values(|kept: Kept| described(kept)).take(n)) == Ok::<
            Seq<Facts>,
            Error,
        >(all_facts(panes).take(n)),
    decreases n,
{
    let lines = panes.map_values(|kept: Kept| described(kept));
    let facts = all_facts(panes);
    if n == 0 {
        assert(lines.take(0) =~= Seq::<Seq<char>>::empty());
        assert(facts.take(0) =~= Seq::<Facts>::empty());
    } else {
        answered_lists_are_read(panes, n - 1);
        assert(lines.take(n).drop_last() =~= lines.take(n - 1));
        let kept = panes[n - 1];
        states_are_read_as_written(kept.facts);
        let seen = facts_panes(facts.take(n - 1));
        assert(!seen.contains(kept.facts.pane)) by {
            if seen.contains(kept.facts.pane) {
                let i = choose|i: int| 0 <= i < seen.len() && seen[i] == kept.facts.pane;
                assert(seen[i] == panes[i].facts.pane);
                assert(panes[i].facts.pane != panes[n - 1].facts.pane);
            }
        }
        assert(facts.take(n - 1).push(kept.facts) =~= facts.take(n));
    }
}

proof fn answered_captures_are_restored(
    panes: Seq<Kept>,
    replies: Seq<Seq<Seq<char>>>,
    history: nat,
    n: nat,
)
    requires
        n <= panes.len(),
        forall|k: int|
            0 <= k < panes.len() ==> {
                &&& replies[4 * k + 1] == (#[trigger] panes[k]).screen
                &&& replies[4 * k + 2] == panes[k].behind
                &&& replies[4 * k + 3] == panes[k].unfinished
                &&& restore_inputs(
                    panes[k].facts,
                    panes[k].screen,
                    panes[k].behind,
                    panes[k].unfinished,
                ) is Ok
            },
    ensures
        ({
            &&& read_models(all_facts(panes), replies, history, n) matches Ok(models)
            &&& models.len() == n
            &&& forall|k: int|
                0 <= k < n ==> (#[trigger] models[k]) == restored_model(
                    panes[k].facts,
                    history,
                    restore_inputs(
                        panes[k].facts,
                        panes[k].screen,
                        panes[k].behind,
                        panes[k].unfinished,
                    )->Ok_0,
                )
        }),
    decreases n,
{
    if n > 0 {
        answered_captures_are_restored(panes, replies, history, (n - 1) as nat);
        let kept = panes[n - 1];
        assert(all_facts(panes)[n - 1] == kept.facts);
        assert(replies[4 * (n - 1) + 1] == kept.screen);
        assert(restored_inputs(all_facts(panes), replies, n - 1) == restore_inputs(
            kept.facts,
            kept.screen,
            kept.behind,
            kept.unfinished,
        ));
    }
}

/// A model has the size of its pane, and says where it holds less than the pane does.
proof fn models_are_shaped(facts: Facts, history: nat, inputs: Seq<Input>)
    requires
        coherent(facts),
    ensures
        ({
            let model = restored_model(facts, history, inputs);
            &&& model.facts == facts
            &&& model.inputs == inputs
            &&& model.shape.columns == facts.columns
            &&& model.shape.rows == facts.rows
            &&& model.shape.history <= history
            &&& !model.truncated ==> !facts.alternate && facts.history_size <= model.shape.history
        }),
{
    reveal(restored_model);
}

proof fn answers_are_checked(panes: Seq<Kept>, session: SessionId, history: nat)
    requires
        held(panes),
        session_error(all_facts(panes), history as int) is None,
    ensures
        read_checked(
            session,
            ids_of(panes),
            history,
            answers_to(panes, session, snapshot_texts(ids_of(panes), history)),
        ) == Ok::<Seq<Facts>, Error>(all_facts(panes)),
{
    let ids = ids_of(panes);
    let replies = answers_to(panes, session, snapshot_texts(ids, history));
    let facts = all_facts(panes);
    let n = panes.len() as int;
    answers_by_place(panes, session, history);
    answered_states_are_read(panes, replies, panes.len());
    answered_lists_are_read(panes, n);
    assert(facts.take(n) =~= facts);
    let lines = panes.map_values(|kept: Kept| described(kept));
    assert(lines.take(n) =~= lines);
    assert(identified(facts, ids)) by {
        assert forall|i: int| 0 <= i < ids.len() implies (#[trigger] facts[i]).pane == ids[i].0 by {
            assert(representable(panes[i].facts));
        }
    }
    assert forall|i: int| 0 <= i < facts.len() implies facts.contains(#[trigger] facts[i]) by {}
}

/// Whether a model shows a pane as the server holds it.
pub open spec fn models_pane(model: PaneModel, kept: Kept, history: nat) -> bool {
    &&& model.facts == kept.facts
    &&& restore_inputs(kept.facts, kept.screen, kept.behind, kept.unfinished) == Ok::<
        Seq<Input>,
        crate::snapshot::Error,
    >(model.inputs)
    &&& model.shape.columns == kept.facts.columns
    &&& model.shape.rows == kept.facts.rows
    &&& model.shape.history <= history
    &&& !model.truncated ==> !kept.facts.alternate && kept.facts.history_size
        <= model.shape.history
}

/// An attachment shows the session as the server holds it. The commands of a snapshot,
/// answered by a server, give one model for each of its panes, in order: the state is the
/// pane's own, and what the terminal was fed restores the pane's own screen, the screen
/// behind it and the unfinished bytes, and none of another pane.
pub proof fn snapshots_show_the_session(panes: Seq<Kept>, session: SessionId, history: nat)
    requires
        held(panes),
        session_error(all_facts(panes), history as int) is None,
        forall|k: int|
            0 <= k < panes.len() ==> restore_inputs(
                (#[trigger] panes[k]).facts,
                panes[k].screen,
                panes[k].behind,
                panes[k].unfinished,
            ) is Ok,
    ensures
        ({
            let replies = answers_to(panes, session, snapshot_texts(ids_of(panes), history));
            &&& read_batch(session, ids_of(panes), history, replies) matches Ok(models)
            &&& models.len() == panes.len()
            &&& forall|k: int|
                0 <= k < panes.len() ==> models_pane(#[trigger] models[k], panes[k], history)
        }),
{
    let ids = ids_of(panes);
    let replies = answers_to(panes, session, snapshot_texts(ids, history));
    let facts = all_facts(panes);
    answers_by_place(panes, session, history);
    answered_captures_are_restored(panes, replies, history, panes.len());
    answers_are_checked(panes, session, history);
    let models = read_models(facts, replies, history, panes.len())->Ok_0;
    assert(read_batch(session, ids, history, replies) == Ok::<Seq<PaneModel>, Error>(models));
    assert forall|k: int| 0 <= k < panes.len() implies models_pane(
        #[trigger] models[k],
        panes[k],
        history,
    ) by {
        let kept = panes[k];
        assert(coherent(kept.facts));
        let inputs = restore_inputs(kept.facts, kept.screen, kept.behind, kept.unfinished)->Ok_0;
        models_are_shaped(kept.facts, history, inputs);
        assert(models[k] == restored_model(kept.facts, history, inputs));
    }
}

} // verus!
