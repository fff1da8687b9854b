//! What has to hold of a session before it is captured, and of a pane before anything is
//! sent to it.
use vstd::prelude::*;
use vstd::string::*;

use crate::format_laws::variable;
use crate::inspect_laws::dense;
use crate::restore_laws::bit;
use crate::session::{
    all_pane_commands, blocking_alias, blocking_hook, command_named, early_output, first_alias,
    first_hook, hook_name, hook_named, live_notes, pane_commands, pane_commands_count, session_text,
    snapshot_texts, unguarded, window_text, GUARD_FORMAT,
};
use crate::snapshot::output_of;
use crate::text::{
    decimal, decimal_reads_back, digit_char, first_index_unique, pieces, pieces_alone, pieces_front,
    separated, separated_reads_back, white_char, word_len_unique, words,
};
use crate::tmux::{Notification, PaneId, SessionId, WindowId};

verus! {

/// The word that a command begins with.
pub open spec fn command_word(command: Seq<char>) -> Seq<char> {
    pieces(command, ' ')[0]
}

proof fn snapshot_words(command: Seq<char>, word: Seq<char>, rest: Seq<char>)
    requires
        command == word.push(' ') + rest,
        !word.contains(' '),
    ensures
        command_word(command) == word,
{
    pieces_front(word, ' ', rest);
}

proof fn pane_command_words(pane: PaneId, history: nat, j: int)
    requires
        0 <= j < 4,
    ensures
        command_word(pane_commands(pane, history)[j]) == if j == 0 {
            "display-message"@
        } else {
            "capture-pane"@
        },
{
    let c = pane_commands(pane, history)[j];
    reveal_strlit("display-message");
    reveal_strlit("capture-pane");
    reveal_strlit("display-message -p -t ");
    reveal_strlit("capture-pane -p -e -C -J -N -t ");
    reveal_strlit("capture-pane -p -a -q -e -C -J -N -t ");
    reveal_strlit("capture-pane -p -P -C -t ");
    if j == 0 {
        assert(c =~= "display-message"@.push(' ') + c.skip(16));
        snapshot_words(c, "display-message"@, c.skip(16));
    } else {
        assert(c =~= "capture-pane"@.push(' ') + c.skip(13));
        snapshot_words(c, "capture-pane"@, c.skip(13));
    }
}

/// Every command of a snapshot is one of four.
proof fn snapshot_command_words(panes: Seq<PaneId>, history: nat, i: int)
    requires
        0 <= i < snapshot_texts(panes, history).len(),
    ensures
        ({
            let word = command_word(snapshot_texts(panes, history)[i]);
            ||| word == "display-message"@
            ||| word == "capture-pane"@
            ||| word == "list-panes"@
            ||| word == "refresh-client"@
        }),
{
    pane_commands_count(panes, history);
    let c = snapshot_texts(panes, history)[i];
    let n = 4 * panes.len();
    if i < n {
        pane_commands_by_word(panes, history, i);
    } else if i == n {
        reveal_strlit("list-panes -s -F '");
        reveal_strlit("list-panes");
        assert(c =~= "list-panes"@.push(' ') + c.skip(11));
        snapshot_words(c, "list-panes"@, c.skip(11));
    } else if i == n + 1 {
        reveal_strlit("display-message -p '#{session_id}'");
        reveal_strlit("display-message");
        assert(c =~= "display-message"@.push(' ') + c.skip(16));
        snapshot_words(c, "display-message"@, c.skip(16));
    } else {
        reveal_strlit("refresh-client -f '!no-output'");
        reveal_strlit("refresh-client");
        assert(c =~= "refresh-client"@.push(' ') + c.skip(15));
        snapshot_words(c, "refresh-client"@, c.skip(15));
    }
}

proof fn pane_commands_by_word(panes: Seq<PaneId>, history: nat, i: int)
    requires
        0 <= i < all_pane_commands(panes, history).len(),
    ensures
        ({
            let word = command_word(all_pane_commands(panes, history)[i]);
            word == "display-message"@ || word == "capture-pane"@
        }),
    decreases panes.len(),
{
    pane_commands_count(panes, history);
    let front = panes.drop_last();
    pane_commands_count(front, history);
    if i < 4 * front.len() {
        pane_commands_by_word(front, history, i);
    } else {
        pane_command_words(panes.last(), history, i - 4 * front.len());
    }
}

proof fn hook_words()
    ensures
        hook_named("after-"@ + "capture-pane"@) is Some,
        hook_named("after-"@ + "display-message"@) is Some,
        hook_named("after-"@ + "list-panes"@) is Some,
        hook_named("after-"@ + "refresh-client"@) is Some,
        command_named("capture-pane"@) is Some,
        command_named("display-message"@) is Some,
        command_named("list-panes"@) is Some,
        command_named("refresh-client"@) is Some,
{
    reveal_strlit("after-");
    reveal_strlit("capture-pane");
    reveal_strlit("display-message");
    reveal_strlit("list-panes");
    reveal_strlit("refresh-client");
    reveal_strlit("after-capture-pane");
    reveal_strlit("after-display-message");
    reveal_strlit("after-list-panes");
    reveal_strlit("after-refresh-client");
    assert("after-"@ + "capture-pane"@ =~= "after-capture-pane"@);
    assert("after-"@ + "display-message"@ =~= "after-display-message"@);
    assert("after-"@ + "list-panes"@ =~= "after-list-panes"@);
    assert("after-"@ + "refresh-client"@ =~= "after-refresh-client"@);
}

/// A hook as it is shown: its name, its place in brackets, and what it runs.
pub open spec fn hook_line(name: Seq<char>, place: nat, command: Seq<char>) -> Seq<char> {
    name + seq!['['] + decimal(place) + seq![']', ' '] + command
}

proof fn hook_lines_are_read(name: Seq<char>, place: nat, command: Seq<char>)
    requires
        dense(name),
        !name.contains('['),
    ensures
        blocking_hook(hook_line(name, place, command)) == hook_named(name),
{
    let line = hook_line(name, place, command);
    let word = name + seq!['['] + decimal(place) + seq![']'];
    decimal_reads_back(place);
    assert forall|j: int| 0 <= j < word.len() implies !white_char(#[trigger] line[j]) && line[j]
        == word[j] by {
        if j < name.len() {
            assert(line[j] == name[j]);
        } else if j > name.len() && j < word.len() - 1 {
            let d = decimal(place)[j - name.len() - 1];
            assert(line[j] == d);
            assert(digit_char(d));
        }
    }
    assert(line[word.len() as int] == ' ');
    word_len_unique(line, word.len() as int);
    assert(line.take(word.len() as int) =~= word);
    assert(words(line)[0] == word);
    pieces_front(name, '[', decimal(place) + seq![']']);
    assert(word =~= name.push('[') + (decimal(place) + seq![']']));
    assert(hook_name(line) == name);
    assert(line.len() > name.len());
}

/// Whatever a snapshot asks a server, a hook that would run behind it is seen, wherever it
/// is listed, and so is an alias that would put another command in its place.
pub proof fn snapshots_run_undisturbed(
    panes: Seq<PaneId>,
    history: nat,
    i: int,
    place: nat,
    command: Seq<char>,
)
    requires
        0 <= i < snapshot_texts(panes, history).len(),
    ensures
        ({
            let word = command_word(snapshot_texts(panes, history)[i]);
            &&& blocking_hook(hook_line("after-"@ + word, place, command)) is Some
            &&& blocking_alias(word.push('=') + command) is Some
        }),
{
    snapshot_command_words(panes, history, i);
    hook_words();
    let word = command_word(snapshot_texts(panes, history)[i]);
    let name = "after-"@ + word;
    reveal_strlit("after-");
    reveal_strlit("capture-pane");
    reveal_strlit("display-message");
    reveal_strlit("list-panes");
    reveal_strlit("refresh-client");
    assert(dense(name) && !name.contains('['));
    hook_lines_are_read(name, place, command);
    let alias = word.push('=') + command;
    assert forall|j: int| 0 <= j < word.len() implies #[trigger] alias[j] != '=' by {
        assert(alias[j] == word[j]);
    }
    assert(alias[word.len() as int] == '=');
    first_index_unique(alias, '=', word.len() as int);
    assert(alias.take(word.len() as int) =~= word);
}

/// A snapshot is refused exactly where one of the lines shows such a hook, or one of the
/// aliases is such an alias; a hook that runs nothing is shown by its bare name and is none.
pub proof fn hooks_are_refused_wherever_they_stand(
    lines: Seq<Seq<char>>,
    aliases: Seq<Seq<char>>,
    name: Seq<char>,
)
    requires
        dense(name),
        !name.contains('['),
    ensures
        first_hook(lines) is Some <==> exists|i: int|
            0 <= i < lines.len() && blocking_hook(#[trigger] lines[i]) is Some,
        first_alias(aliases) is Some <==> exists|i: int|
            0 <= i < aliases.len() && blocking_alias(#[trigger] aliases[i]) is Some,
        blocking_hook(name) is None,
{
    some_hook_is_found(lines);
    some_alias_is_found(aliases);
    word_len_unique(name, name.len() as int);
    assert(name.take(name.len() as int) =~= name);
    assert(words(name)[0] == name);
    pieces_alone(name, '[');
}

proof fn some_hook_is_found(lines: Seq<Seq<char>>)
    ensures
        first_hook(lines) is Some <==> exists|i: int|
            0 <= i < lines.len() && blocking_hook(#[trigger] lines[i]) is Some,
    decreases lines.len(),
{
    if lines.len() > 0 {
        let front = lines.drop_last();
        let n = lines.len() - 1;
        some_hook_is_found(front);
        if first_hook(front) is Some {
            let i = choose|i: int|
                0 <= i < front.len() && blocking_hook(#[trigger] front[i]) is Some;
            assert(blocking_hook(lines[i]) is Some);
        } else if blocking_hook(lines[n]) is None && (exists|i: int|
            0 <= i < lines.len() && blocking_hook(#[trigger] lines[i]) is Some) {
            let i = choose|i: int|
                0 <= i < lines.len() && blocking_hook(#[trigger] lines[i]) is Some;
            assert(blocking_hook(front[i]) is Some);
        }
    }
}

proof fn some_alias_is_found(aliases: Seq<Seq<char>>)
    ensures
        first_alias(aliases) is Some <==> exists|i: int|
            0 <= i < aliases.len() && blocking_alias(#[trigger] aliases[i]) is Some,
    decreases aliases.len(),
{
    if aliases.len() > 0 {
        let front = aliases.drop_last();
        let n = aliases.len() - 1;
        some_alias_is_found(front);
        if first_alias(front) is Some {
            let i = choose|i: int|
                0 <= i < front.len() && blocking_alias(#[trigger] front[i]) is Some;
            assert(blocking_alias(aliases[i]) is Some);
        } else if blocking_alias(aliases[n]) is None && (exists|i: int|
            0 <= i < aliases.len() && blocking_alias(#[trigger] aliases[i]) is Some) {
            let i = choose|i: int|
                0 <= i < aliases.len() && blocking_alias(#[trigger] aliases[i]) is Some;
            assert(blocking_alias(front[i]) is Some);
        }
    }
}

/// What is asked of a pane before anything is sent to it.
pub open spec fn guard_variables() -> Seq<Seq<char>> {
    seq![
        variable("session_id"@),
        variable("window_id"@),
        variable("pane_dead"@),
        variable("pane_input_off"@),
        variable("pane_in_mode"@),
        variable("pane_synchronized"@),
        variable("window_zoomed_flag"@),
    ]
}

/// The state of a pane is asked for in the order in which it is read.
pub proof fn guards_are_asked_for_in_order()
    ensures
        pieces(GUARD_FORMAT@, '|') == guard_variables(),
{
    reveal_strlit(
        "#{session_id}|#{window_id}|#{pane_dead}|#{pane_input_off}|#{pane_in_mode}|#{pane_synchronized}|#{window_zoomed_flag}",
    );
    let w6 = variable("window_zoomed_flag"@);
    assert(GUARD_FORMAT@.skip(95) == w6 && !w6.contains('|')) by {
        reveal_strlit("window_zoomed_flag");
        assert(GUARD_FORMAT@.skip(95) =~= w6);
    }
    pieces_alone(w6, '|');
    let w5 = variable("pane_synchronized"@);
    assert(GUARD_FORMAT@.skip(74) == w5.push('|') + GUARD_FORMAT@.skip(95)
        && !w5.contains('|')) by {
        reveal_strlit("pane_synchronized");
        assert(GUARD_FORMAT@.skip(74) =~= w5.push('|') + GUARD_FORMAT@.skip(95));
    }
    pieces_front(w5, '|', GUARD_FORMAT@.skip(95));
    let w4 = variable("pane_in_mode"@);
    assert(GUARD_FORMAT@.skip(58) == w4.push('|') + GUARD_FORMAT@.skip(74)
        && !w4.contains('|')) by {
        reveal_strlit("pane_in_mode");
        assert(GUARD_FORMAT@.skip(58) =~= w4.push('|') + GUARD_FORMAT@.skip(74));
    }
    pieces_front(w4, '|', GUARD_FORMAT@.skip(74));
    let w3 = variable("pane_input_off"@);
    assert(GUARD_FORMAT@.skip(40) == w3.push('|') + GUARD_FORMAT@.skip(58)
        && !w3.contains('|')) by {
        reveal_strlit("pane_input_off");
        assert(GUARD_FORMAT@.skip(40) =~= w3.push('|') + GUARD_FORMAT@.skip(58));
    }
    pieces_front(w3, '|', GUARD_FORMAT@.skip(58));
    let w2 = variable("pane_dead"@);
    assert(GUARD_FORMAT@.skip(27) == w2.push('|') + GUARD_FORMAT@.skip(40)
        && !w2.contains('|')) by {
        reveal_strlit("pane_dead");
        assert(GUARD_FORMAT@.skip(27) =~= w2.push('|') + GUARD_FORMAT@.skip(40));
    }
    pieces_front(w2, '|', GUARD_FORMAT@.skip(40));
    let w1 = variable("window_id"@);
    assert(GUARD_FORMAT@.skip(14) == w1.push('|') + GUARD_FORMAT@.skip(27)
        && !w1.contains('|')) by {
        reveal_strlit("window_id");
        assert(GUARD_FORMAT@.skip(14) =~= w1.push('|') + GUARD_FORMAT@.skip(27));
    }
    pieces_front(w1, '|', GUARD_FORMAT@.skip(27));
    let w0 = variable("session_id"@);
    assert(GUARD_FORMAT@.skip(0) == w0.push('|') + GUARD_FORMAT@.skip(14)
        && !w0.contains('|')) by {
        reveal_strlit("session_id");
        assert(GUARD_FORMAT@.skip(0) =~= w0.push('|') + GUARD_FORMAT@.skip(14));
    }
    pieces_front(w0, '|', GUARD_FORMAT@.skip(14));
    assert(GUARD_FORMAT@.skip(0) =~= GUARD_FORMAT@);
    assert(pieces(GUARD_FORMAT@, '|') =~= guard_variables());
}

/// Where a pane is and what keeps it from input.
pub struct Stand {
    pub session: SessionId,
    pub window: WindowId,
    pub dead: bool,
    pub input_off: bool,
    pub in_mode: bool,
    pub synchronized: bool,
    pub zoomed: bool,
}

/// The answer of a server about a pane.
pub open spec fn stand_line(p: Stand) -> Seq<char> {
    separated(
        seq![
            session_text(p.session),
            window_text(p.window),
            bit(p.dead),
            bit(p.input_off),
            bit(p.in_mode),
            bit(p.synchronized),
            bit(p.zoomed),
        ],
        '|',
    )
}

proof fn numbers_hold_no_bar(sigil: char, n: nat)
    requires
        sigil != '|',
    ensures
        !(seq![sigil] + decimal(n)).contains('|'),
{
    let w = seq![sigil] + decimal(n);
    decimal_reads_back(n);
    if w.contains('|') {
        let i = choose|i: int| 0 <= i < w.len() && w[i] == '|';
        assert(digit_char(decimal(n)[i - 1]));
    }
}

proof fn numbers_differ(sigil: char, n: nat, m: nat)
    ensures
        seq![sigil] + decimal(n) == seq![sigil] + decimal(m) ==> n == m,
{
    decimal_reads_back(n);
    decimal_reads_back(m);
    assert((seq![sigil] + decimal(n)).drop_first() =~= decimal(n));
    assert((seq![sigil] + decimal(m)).drop_first() =~= decimal(m));
}

/// Something is sent to a pane exactly where it is still in the session and the window in
/// which it was seen, lives, takes input, is in no mode and shares its input with no other
/// pane. Its size is changed only where it does not cover its window, too.
pub proof fn panes_are_written_to_when_free(
    p: Stand,
    session: SessionId,
    window: WindowId,
    resizing: bool,
)
    ensures
        unguarded(seq![stand_line(p)], session, window, resizing) <==> {
            &&& p.session == session
            &&& p.window == window
            &&& !p.dead
            &&& !p.input_off
            &&& !p.in_mode
            &&& !p.synchronized
            &&& !(resizing && p.zoomed)
        },
{
    let f = seq![
        session_text(p.session),
        window_text(p.window),
        bit(p.dead),
        bit(p.input_off),
        bit(p.in_mode),
        bit(p.synchronized),
        bit(p.zoomed),
    ];
    numbers_hold_no_bar('$', p.session.0 as nat);
    numbers_hold_no_bar('@', p.window.0 as nat);
    numbers_differ('$', p.session.0 as nat, session.0 as nat);
    numbers_differ('@', p.window.0 as nat, window.0 as nat);
    separated_reads_back(f, '|');
    reveal_strlit("0");
    assert(seq!['0'] =~= "0"@);
    assert(seq!['1'][0] != "0"@[0]);
}

/// The notifications that come behind the boundary of a snapshot are taken, all of them
/// and in order, and those before it are not.
pub proof fn notes_behind_the_boundary_are_taken(
    front: Seq<(usize, Notification)>,
    back: Seq<(usize, Notification)>,
    boundary: nat,
)
    requires
        forall|i: int| 0 <= i < front.len() ==> (#[trigger] front[i]).0 < boundary,
        forall|i: int| 0 <= i < back.len() ==> (#[trigger] back[i]).0 >= boundary,
    ensures
        live_notes(front + back, boundary).len() == back.len(),
        forall|i: int|
            0 <= i < back.len() ==> (#[trigger] live_notes(front + back, boundary)[i])
                == back[i].1,
        early_output(front + back, boundary) <==> exists|i: int|
            0 <= i < front.len() && output_of((#[trigger] front[i]).1) is Some,
    decreases front.len() + back.len(),
{
    let all = front + back;
    if early_output(all, boundary) {
        let i = choose|i: int|
            0 <= i < all.len() && (#[trigger] all[i]).0 < boundary && output_of(all[i].1) is Some;
        if i >= front.len() {
            assert(back[i - front.len()].0 >= boundary);
        }
        assert(output_of(front[i].1) is Some);
    }
    if exists|i: int| 0 <= i < front.len() && output_of((#[trigger] front[i]).1) is Some {
        let i = choose|i: int| 0 <= i < front.len() && output_of((#[trigger] front[i]).1) is Some;
        assert(all[i] == front[i]);
    }
    if back.len() > 0 {
        let less = back.drop_last();
        let n = back.len() - 1;
        assert forall|i: int| 0 <= i < less.len() implies (#[trigger] less[i]).0 >= boundary by {
            assert(less[i] == back[i]);
        }
        notes_behind_the_boundary_are_taken(front, less, boundary);
        assert(all.drop_last() =~= front + less);
        assert(all.last() == back[n]);
        assert(back[n].0 >= boundary);
        assert forall|i: int| 0 <= i < back.len() implies (#[trigger] live_notes(all, boundary)[i])
            == back[i].1 by {
            if i < n {
                assert(live_notes(front + less, boundary)[i] == less[i].1);
            }
        }
    } else if front.len() > 0 {
        let less = front.drop_last();
        assert forall|i: int| 0 <= i < less.len() implies (#[trigger] less[i]).0 < boundary by {
            assert(less[i] == front[i]);
        }
        notes_behind_the_boundary_are_taken(less, back, boundary);
        assert(all.drop_last() =~= less + back);
        assert(all.last() == front[front.len() - 1]);
    }
}

} // verus!
