//! What an inspection reads of a session, and what it writes.
use vstd::prelude::*;
use vstd::string::*;
use vstd::utf8::*;

use crate::command::{quoted, quoting_reads_back, shell_word, Quoting};
use crate::format_laws::variable;
use crate::inspect::{
    attach_text, exchanged, joined, no_number, pane_seen, read_id, read_info, read_listing,
    read_pane, read_panes, stripped, Decoded, Error, Listed, Progress, MAX_PANES, PANES_COMMAND,
};
use crate::restore_laws::{bit, numbers_are_read};
use crate::text::{
    decimal, decimal_reads_back, digit_char, pieces, pieces_alone, pieces_front, separated,
    separated_reads_back, texts, utf8_len, white_char, word_len_unique, words,
};
use crate::tmux::{CommandId, Notification, PaneId};
use crate::values::valid_size;

verus! {

/// Words with one space between them are the words that are found.
pub proof fn words_read_back(parts: Seq<Seq<char>>)
    requires
        parts.len() > 0,
        forall|i: int| 0 <= i < parts.len() ==> dense(#[trigger] parts[i]),
    ensures
        words(separated(parts, ' ')) == parts,
    decreases parts.len(),
{
    assert(dense(parts[0]));
    if parts.len() == 1 {
        word_len_unique(parts[0], parts[0].len() as int);
        assert(parts[0].take(parts[0].len() as int) =~= parts[0]);
        assert(parts[0].skip(parts[0].len() as int) =~= Seq::<char>::empty());
        assert(words(Seq::<char>::empty()) =~= Seq::<Seq<char>>::empty());
        assert(seq![parts[0]] + Seq::<Seq<char>>::empty() =~= parts);
    } else {
        let rest = parts.drop_first();
        assert forall|i: int| 0 <= i < rest.len() implies dense(#[trigger] rest[i]) by {
            assert(dense(parts[i + 1]));
        }
        words_read_back(rest);
        let all = separated(parts, ' ');
        let n = parts[0].len() as int;
        assert forall|j: int| 0 <= j < n implies !white_char(#[trigger] all[j]) by {
            assert(all[j] == parts[0][j]);
        }
        assert(all[n] == ' ');
        word_len_unique(all, n);
        assert(all.take(n) =~= parts[0]);
        let gap = all.skip(n);
        assert(gap[0] == ' ');
        word_len_unique(gap, 0);
        assert(gap.drop_first() =~= separated(rest, ' '));
        assert(words(gap) == words(separated(rest, ' ')));
        assert(seq![parts[0]] + rest =~= parts);
    }
}

/// A text without white space, which is not empty.
pub open spec fn dense(word: Seq<char>) -> bool {
    word.len() > 0 && forall|j: int| 0 <= j < word.len() ==> !white_char(#[trigger] word[j])
}

/// The words of the request for the panes, in the order in which their fields are read.
pub open spec fn asked_fields() -> Seq<Seq<char>> {
    seq![
        "list-panes"@,
        "-s"@,
        "-F"@,
        seq!['\''] + variable("pane_id"@),
        variable("window_id"@),
        variable("pane_width"@),
        variable("pane_height"@),
        variable("pane_left"@),
        variable("pane_top"@),
        variable("cursor_x"@),
        variable("cursor_y"@),
        variable("alternate_on"@),
        variable("history_size"@),
        variable("history_limit"@) + seq!['\'', '\n'],
    ]
}

proof fn one_asked_field(from: int, to: int, k: int)
    requires
        0 <= k < 13,
        PANES_COMMAND@.skip(from) == asked_fields()[k].push(' ') + PANES_COMMAND@.skip(to),
        !asked_fields()[k].contains(' '),
        pieces(PANES_COMMAND@.skip(to), ' ') == asked_fields().skip(k + 1),
    ensures
        pieces(PANES_COMMAND@.skip(from), ' ') == asked_fields().skip(k),
{
    pieces_front(asked_fields()[k], ' ', PANES_COMMAND@.skip(to));
    assert(seq![asked_fields()[k]] + asked_fields().skip(k + 1) =~= asked_fields().skip(k));
}

proof fn late_fields_are_asked()
    ensures
        pieces(PANES_COMMAND@.skip(96), ' ') == asked_fields().skip(9),
{
    reveal_strlit(
        "list-panes -s -F '#{pane_id} #{window_id} #{pane_width} #{pane_height} #{pane_left} #{pane_top} #{cursor_x} #{cursor_y} #{alternate_on} #{history_size} #{history_limit}'\n",
    );
    let last = variable("history_limit"@) + seq!['\'', '\n'];
    assert(PANES_COMMAND@.skip(152) == last && !last.contains(' ')) by {
        reveal_strlit("history_limit");
        assert(PANES_COMMAND@.skip(152) =~= last);
    }
    pieces_alone(last, ' ');
    assert(seq![last] =~= asked_fields().skip(13));
    assert(PANES_COMMAND@.skip(136) == asked_fields()[12].push(' ') + PANES_COMMAND@.skip(152)
        && !asked_fields()[12].contains(' ')) by {
        reveal_strlit("history_size");
        let word = variable("history_size"@);
        assert(PANES_COMMAND@.skip(136) =~= word.push(' ') + PANES_COMMAND@.skip(152));
    }
    one_asked_field(136, 152, 12);
    assert(PANES_COMMAND@.skip(120) == asked_fields()[11].push(' ') + PANES_COMMAND@.skip(136)
        && !asked_fields()[11].contains(' ')) by {
        reveal_strlit("alternate_on");
        let word = variable("alternate_on"@);
        assert(PANES_COMMAND@.skip(120) =~= word.push(' ') + PANES_COMMAND@.skip(136));
    }
    one_asked_field(120, 136, 11);
    assert(PANES_COMMAND@.skip(108) == asked_fields()[10].push(' ') + PANES_COMMAND@.skip(120)
        && !asked_fields()[10].contains(' ')) by {
        reveal_strlit("cursor_y");
        let word = variable("cursor_y"@);
        assert(PANES_COMMAND@.skip(108) =~= word.push(' ') + PANES_COMMAND@.skip(120));
    }
    one_asked_field(108, 120, 10);
    assert(PANES_COMMAND@.skip(96) == asked_fields()[9].push(' ') + PANES_COMMAND@.skip(108)
        && !asked_fields()[9].contains(' ')) by {
        reveal_strlit("cursor_x");
        let word = variable("cursor_x"@);
        assert(PANES_COMMAND@.skip(96) =~= word.push(' ') + PANES_COMMAND@.skip(108));
    }
    one_asked_field(96, 108, 9);
}

proof fn middle_fields_are_asked()
    ensures
        pieces(PANES_COMMAND@.skip(29), ' ') == asked_fields().skip(4),
{
    reveal_strlit(
        "list-panes -s -F '#{pane_id} #{window_id} #{pane_width} #{pane_height} #{pane_left} #{pane_top} #{cursor_x} #{cursor_y} #{alternate_on} #{history_size} #{history_limit}'\n",
    );
    late_fields_are_asked();
    assert(PANES_COMMAND@.skip(84) == asked_fields()[8].push(' ') + PANES_COMMAND@.skip(96)
        && !asked_fields()[8].contains(' ')) by {
        reveal_strlit("pane_top");
        let word = variable("pane_top"@);
        assert(PANES_COMMAND@.skip(84) =~= word.push(' ') + PANES_COMMAND@.skip(96));
    }
    one_asked_field(84, 96, 8);
    assert(PANES_COMMAND@.skip(71) == asked_fields()[7].push(' ') + PANES_COMMAND@.skip(84)
        && !asked_fields()[7].contains(' ')) by {
        reveal_strlit("pane_left");
        let word = variable("pane_left"@);
        assert(PANES_COMMAND@.skip(71) =~= word.push(' ') + PANES_COMMAND@.skip(84));
    }
    one_asked_field(71, 84, 7);
    assert(PANES_COMMAND@.skip(56) == asked_fields()[6].push(' ') + PANES_COMMAND@.skip(71)
        && !asked_fields()[6].contains(' ')) by {
        reveal_strlit("pane_height");
        let word = variable("pane_height"@);
        assert(PANES_COMMAND@.skip(56) =~= word.push(' ') + PANES_COMMAND@.skip(71));
    }
    one_asked_field(56, 71, 6);
    assert(PANES_COMMAND@.skip(42) == asked_fields()[5].push(' ') + PANES_COMMAND@.skip(56)
        && !asked_fields()[5].contains(' ')) by {
        reveal_strlit("pane_width");
        let word = variable("pane_width"@);
        assert(PANES_COMMAND@.skip(42) =~= word.push(' ') + PANES_COMMAND@.skip(56));
    }
    one_asked_field(42, 56, 5);
    assert(PANES_COMMAND@.skip(29) == asked_fields()[4].push(' ') + PANES_COMMAND@.skip(42)
        && !asked_fields()[4].contains(' ')) by {
        reveal_strlit("window_id");
        let word = variable("window_id"@);
        assert(PANES_COMMAND@.skip(29) =~= word.push(' ') + PANES_COMMAND@.skip(42));
    }
    one_asked_field(29, 42, 4);
}

/// The fields of a pane are asked for in the order in which they are read.
pub proof fn panes_are_asked_for_in_order()
    ensures
        pieces(PANES_COMMAND@, ' ') == asked_fields(),
{
    reveal_strlit(
        "list-panes -s -F '#{pane_id} #{window_id} #{pane_width} #{pane_height} #{pane_left} #{pane_top} #{cursor_x} #{cursor_y} #{alternate_on} #{history_size} #{history_limit}'\n",
    );
    middle_fields_are_asked();
    assert(PANES_COMMAND@.skip(17) == asked_fields()[3].push(' ') + PANES_COMMAND@.skip(29)
        && !asked_fields()[3].contains(' ')) by {
        reveal_strlit("pane_id");
        let word = seq!['\''] + variable("pane_id"@);
        assert(PANES_COMMAND@.skip(17) =~= word.push(' ') + PANES_COMMAND@.skip(29));
    }
    one_asked_field(17, 29, 3);
    assert(PANES_COMMAND@.skip(14) == asked_fields()[2].push(' ') + PANES_COMMAND@.skip(17)
        && !asked_fields()[2].contains(' ')) by {
        reveal_strlit("-F");
        let word = "-F"@;
        assert(PANES_COMMAND@.skip(14) =~= word.push(' ') + PANES_COMMAND@.skip(17));
    }
    one_asked_field(14, 17, 2);
    assert(PANES_COMMAND@.skip(11) == asked_fields()[1].push(' ') + PANES_COMMAND@.skip(14)
        && !asked_fields()[1].contains(' ')) by {
        reveal_strlit("-s");
        let word = "-s"@;
        assert(PANES_COMMAND@.skip(11) =~= word.push(' ') + PANES_COMMAND@.skip(14));
    }
    one_asked_field(11, 14, 1);
    assert(PANES_COMMAND@.skip(0) == asked_fields()[0].push(' ') + PANES_COMMAND@.skip(11)
        && !asked_fields()[0].contains(' ')) by {
        reveal_strlit("list-panes");
        let word = "list-panes"@;
        assert(PANES_COMMAND@.skip(0) =~= word.push(' ') + PANES_COMMAND@.skip(11));
    }
    one_asked_field(0, 11, 0);
    assert(PANES_COMMAND@.skip(0) =~= PANES_COMMAND@);
    assert(asked_fields().skip(0) =~= asked_fields());
}

/// The line that lists a pane: the value of each field that is asked for.
pub open spec fn pane_fields(p: Listed) -> Seq<Seq<char>> {
    seq![
        seq!['%'] + decimal(p.id),
        seq!['@'] + decimal(p.window),
        decimal(p.columns),
        decimal(p.rows),
        decimal(p.left),
        decimal(p.top),
        decimal(p.cursor_x),
        decimal(p.cursor_y),
        bit(p.alternate_screen),
        decimal(p.history_size),
        decimal(p.history_limit),
    ]
}

/// A pane that a server can have. While a wrap is pending the cursor stands behind the
/// last column.
pub open spec fn plausible(p: Listed) -> bool {
    &&& valid_size(p.columns as int, p.rows as int)
    &&& p.cursor_x <= p.columns
    &&& p.cursor_y < p.rows
    &&& p.left <= 65535
    &&& p.top <= 65535
}

pub open spec fn fits(p: Listed) -> bool {
    &&& p.id <= u32::MAX
    &&& p.window <= u32::MAX
    &&& p.columns <= usize::MAX
    &&& p.rows <= usize::MAX
    &&& p.left <= usize::MAX
    &&& p.top <= usize::MAX
    &&& p.cursor_x <= usize::MAX
    &&& p.cursor_y <= usize::MAX
    &&& p.history_size <= usize::MAX
    &&& p.history_limit <= usize::MAX
}

pub open spec fn pane_line(p: Listed) -> Seq<char> {
    separated(pane_fields(p), ' ')
}

pub open spec fn pane_lines(panes: Seq<Listed>) -> Seq<Seq<char>> {
    panes.map_values(|p: Listed| pane_line(p))
}

proof fn digits_are_dense(n: nat)
    ensures
        dense(decimal(n)),
{
    decimal_reads_back(n);
    assert forall|j: int| 0 <= j < decimal(n).len() implies !white_char(
        #[trigger] decimal(n)[j],
    ) by {
        assert(digit_char(decimal(n)[j]));
        digits_are_not_white(decimal(n)[j]);
    }
}

proof fn digits_are_not_white(c: char)
    requires
        digit_char(c),
    ensures
        !white_char(c),
{
}

proof fn marks_are_dense(mark: char, n: nat)
    requires
        !white_char(mark),
    ensures
        dense(seq![mark] + decimal(n)),
{
    digits_are_dense(n);
    let w = seq![mark] + decimal(n);
    assert forall|j: int| 0 <= j < w.len() implies !white_char(#[trigger] w[j]) by {
        if j > 0 {
            assert(w[j] == decimal(n)[j - 1]);
        }
    }
}

proof fn marked_numbers_are_read(mark: char, n: nat, missing: Error)
    requires
        n <= u32::MAX,
    ensures
        read_id(seq![mark] + decimal(n), mark, missing) == Ok::<nat, Error>(n),
{
    numbers_are_read(n, u32::MAX as nat);
    assert((seq![mark] + decimal(n)).drop_first() =~= decimal(n));
}

proof fn pane_words(p: Listed)
    ensures
        words(pane_line(p)) == pane_fields(p),
{
    let f = pane_fields(p);
    marks_are_dense('%', p.id);
    marks_are_dense('@', p.window);
    digits_are_dense(p.columns);
    digits_are_dense(p.rows);
    digits_are_dense(p.left);
    digits_are_dense(p.top);
    digits_are_dense(p.cursor_x);
    digits_are_dense(p.cursor_y);
    digits_are_dense(p.history_size);
    digits_are_dense(p.history_limit);
    assert(dense(bit(p.alternate_screen)));
    words_read_back(f);
}

proof fn one_pane_is_read(p: Listed, seen: Seq<Listed>)
    requires
        fits(p),
        !pane_seen(seen, p.id),
    ensures
        plausible(p) ==> read_pane(pane_line(p), seen) == Ok::<Listed, Error>(p),
        !plausible(p) ==> read_pane(pane_line(p), seen) is Err,
{
    let f = pane_fields(p);
    let max = usize::MAX as nat;
    pane_words(p);
    marked_numbers_are_read('%', p.id, Error::PaneId);
    marked_numbers_are_read('@', p.window, Error::WindowId);
    numbers_are_read(p.columns, max);
    numbers_are_read(p.rows, max);
    numbers_are_read(p.left, max);
    numbers_are_read(p.top, max);
    numbers_are_read(p.cursor_x, max);
    numbers_are_read(p.cursor_y, max);
    numbers_are_read(p.history_size, max);
    numbers_are_read(p.history_limit, max);
    reveal_with_fuel(no_number, 5);
    reveal_strlit("0");
    reveal_strlit("1");
    assert(seq!['0'] =~= "0"@);
    assert(seq!['1'] =~= "1"@);
    assert(seq!['1'][0] != seq!['0'][0]);
}

/// What a server lists is what is read: a listing of panes, each with a number of its
/// own, is read pane by pane, and it is refused where a pane is not plausible.
pub proof fn listings_are_read_as_written(panes: Seq<Listed>)
    requires
        0 < panes.len() <= MAX_PANES,
        forall|i: int| 0 <= i < panes.len() ==> fits(#[trigger] panes[i]),
        forall|i: int, j: int|
            0 <= i < j < panes.len() ==> (#[trigger] panes[i]).id != (#[trigger] panes[j]).id,
    ensures
        (forall|i: int| 0 <= i < panes.len() ==> plausible(#[trigger] panes[i])) ==> read_listing(
            pane_lines(panes),
        ) == Ok::<Seq<Listed>, Error>(panes),
        (exists|i: int| 0 <= i < panes.len() && !plausible(#[trigger] panes[i])) ==> read_listing(
            pane_lines(panes),
        ) is Err,
{
    panes_are_read(panes);
}

proof fn panes_are_read(panes: Seq<Listed>)
    requires
        forall|i: int| 0 <= i < panes.len() ==> fits(#[trigger] panes[i]),
        forall|i: int, j: int|
            0 <= i < j < panes.len() ==> (#[trigger] panes[i]).id != (#[trigger] panes[j]).id,
    ensures
        (forall|i: int| 0 <= i < panes.len() ==> plausible(#[trigger] panes[i])) ==> read_panes(
            pane_lines(panes),
        ) == Ok::<Seq<Listed>, Error>(panes),
        (exists|i: int| 0 <= i < panes.len() && !plausible(#[trigger] panes[i])) ==> read_panes(
            pane_lines(panes),
        ) is Err,
    decreases panes.len(),
{
    if panes.len() == 0 {
        assert(panes =~= Seq::<Listed>::empty());
    } else {
        let rest = panes.drop_last();
        let n = panes.len() - 1;
        assert forall|i: int| 0 <= i < rest.len() implies fits(#[trigger] rest[i]) by {
            assert(rest[i] == panes[i]);
        }
        assert forall|i: int, j: int| 0 <= i < j < rest.len() implies (#[trigger] rest[i]).id != (
        #[trigger] rest[j]).id by {
            assert(rest[i] == panes[i] && rest[j] == panes[j]);
        }
        panes_are_read(rest);
        assert(pane_lines(panes).drop_last() =~= pane_lines(rest));
        assert(fits(panes[n]));
        assert(!pane_seen(rest, panes[n].id)) by {
            if pane_seen(rest, panes[n].id) {
                let i = choose|i: int|
                    0 <= i < rest.len() && (#[trigger] rest[i]).id == panes[n].id;
                assert(panes[i].id == panes[n].id);
            }
        }
        one_pane_is_read(panes[n], rest);
        assert(rest.push(panes[n]) =~= panes);
        if forall|i: int| 0 <= i < panes.len() ==> plausible(#[trigger] panes[i]) {
            assert forall|i: int| 0 <= i < rest.len() implies plausible(#[trigger] rest[i]) by {
                assert(rest[i] == panes[i]);
            }
        }
        if exists|i: int| 0 <= i < panes.len() && !plausible(#[trigger] panes[i]) {
            let i = choose|i: int| 0 <= i < panes.len() && !plausible(#[trigger] panes[i]);
            if i < n {
                assert(!plausible(rest[i]));
            } else if forall|i: int| 0 <= i < rest.len() ==> plausible(#[trigger] rest[i]) {
            } else {
                let k = choose|k: int| 0 <= k < rest.len() && !plausible(#[trigger] rest[k]);
                assert(!plausible(rest[k]));
            }
        }
    }
}

/// What a client says of itself: its version and session, whether it is in control mode
/// and read-only, its flags and its terminal.
pub open spec fn info_line(
    version: Seq<char>,
    session: nat,
    control: bool,
    readonly: bool,
    flags: Seq<Seq<char>>,
    tty: Seq<char>,
) -> Seq<char> {
    separated(
        seq![
            version,
            seq!['$'] + decimal(session),
            bit(control),
            bit(readonly),
            separated(flags, ','),
            tty,
        ],
        '|',
    )
}

/// A client is taken exactly where it is read-only, in control mode, without a terminal,
/// and neither sizes the session nor receives its output; its version and session are
/// those that it gave.
pub proof fn clients_are_taken_when_harmless(
    version: Seq<char>,
    session: nat,
    control: bool,
    readonly: bool,
    flags: Seq<Seq<char>>,
    tty: Seq<char>,
)
    requires
        session <= u32::MAX,
        flags.len() > 0,
        version.len() > 0,
        utf8_len(version) <= 64,
        !version.contains('|'),
        !tty.contains('|'),
        !separated(flags, ',').contains('|'),
        forall|i: int| 0 <= i < flags.len() ==> !(#[trigger] flags[i]).contains(','),
    ensures
        ({
            let read = read_info(
                seq![info_line(version, session, control, readonly, flags, tty)],
            );
            if control && readonly && tty.len() == 0 && flags.contains("ignore-size"@)
                && flags.contains("no-output"@) {
                read == Ok::<(Seq<char>, nat), Error>((version, session))
            } else {
                read is Err
            }
        }),
{
    let f = seq![
        version,
        seq!['$'] + decimal(session),
        bit(control),
        bit(readonly),
        separated(flags, ','),
        tty,
    ];
    numbers_are_read(session, u32::MAX as nat);
    marked_numbers_are_read('$', session, Error::SessionId);
    assert(!f[1].contains('|')) by {
        if f[1].contains('|') {
            let i = choose|i: int| 0 <= i < f[1].len() && f[1][i] == '|';
            assert(decimal(session)[i - 1] == '|');
            assert(decimal(session).contains('|'));
        }
    }
    separated_reads_back(f, '|');
    separated_reads_back(flags, ',');
    reveal_strlit("1");
    assert(seq!['1'] =~= "1"@);
    assert(seq!['0'][0] != "1"@[0]);
}

/// What one command of a list stands between: a space on each side where another
/// command is.
pub open spec fn spaced(commands: Seq<Seq<char>>, i: int) -> Seq<char> {
    (if i > 0 {
        seq![' ']
    } else {
        seq![]
    }) + stripped(commands[i]) + (if i < commands.len() - 1 {
        seq![' ']
    } else {
        seq![]
    })
}

/// A list of commands carries each of them, whole and in order, with a semicolon between
/// two of them.
pub proof fn batches_carry_each_command(commands: Seq<Seq<char>>)
    requires
        commands.len() > 0,
        forall|i: int|
            0 <= i < commands.len() ==> !stripped(#[trigger] commands[i]).contains(';'),
    ensures
        pieces(joined(commands), ';') == Seq::new(commands.len(), |i: int| spaced(commands, i)),
{
    let parts = Seq::new(commands.len(), |i: int| spaced(commands, i));
    assert forall|i: int| 0 <= i < parts.len() implies !(#[trigger] parts[i]).contains(';') by {
        assert(!stripped(commands[i]).contains(';'));
        let w = parts[i];
        if w.contains(';') {
            let k = choose|k: int| 0 <= k < w.len() && w[k] == ';';
            let at = if i > 0 {
                k - 1
            } else {
                k
            };
            assert(stripped(commands[i])[at] == ';');
        }
    }
    joined_is_separated(commands);
    separated_reads_back(parts, ';');
}

proof fn joined_is_separated(commands: Seq<Seq<char>>)
    requires
        commands.len() > 0,
    ensures
        joined(commands) == separated(
            Seq::new(commands.len(), |i: int| spaced(commands, i)),
            ';',
        ),
    decreases commands.len(),
{
    let parts = Seq::new(commands.len(), |i: int| spaced(commands, i));
    if commands.len() == 1 {
        assert(parts[0] =~= stripped(commands[0]));
    } else {
        let head = commands.drop_last();
        let n = commands.len() - 1;
        let front = Seq::new(head.len(), |i: int| spaced(head, i));
        joined_is_separated(head);
        reveal_strlit(" ; ");
        // The last of the front gets a space behind it, and one command more follows.
        let longer = front.update(n - 1, front[n - 1].push(' '));
        assert(longer =~= parts.drop_last()) by {
            assert forall|i: int| 0 <= i < n implies #[trigger] longer[i] == parts[i] by {
                assert(head[i] == commands[i]);
                assert(longer[i] =~= parts[i]);
            }
        }
        separated_longer(front, ';', ' ');
        assert(parts =~= longer.push(parts[n]));
        separated_more(longer, parts[n], ';');
        assert(parts[n] =~= seq![' '] + stripped(commands.last()));
        assert(joined(commands) =~= separated(parts, ';'));
    }
}

proof fn separated_longer(parts: Seq<Seq<char>>, c: char, more: char)
    requires
        parts.len() > 0,
    ensures
        separated(parts.update(parts.len() - 1, parts.last().push(more)), c) == separated(
            parts,
            c,
        ).push(more),
    decreases parts.len(),
{
    let longer = parts.update(parts.len() - 1, parts.last().push(more));
    if parts.len() > 1 {
        separated_longer(parts.drop_first(), c, more);
        assert(longer.drop_first() =~= parts.drop_first().update(
            parts.len() - 2,
            parts.drop_first().last().push(more),
        ));
        assert(separated(longer, c) =~= separated(parts, c).push(more));
    }
}

proof fn separated_more(parts: Seq<Seq<char>>, last: Seq<char>, c: char)
    requires
        parts.len() > 0,
    ensures
        separated(parts.push(last), c) == separated(parts, c).push(c) + last,
    decreases parts.len(),
{
    let all = parts.push(last);
    if parts.len() == 1 {
        assert(all.drop_first() =~= seq![last]);
        assert(separated(seq![last], c) == last);
        assert(separated(all, c) =~= separated(parts, c).push(c) + last);
    } else {
        separated_more(parts.drop_first(), last, c);
        assert(all.drop_first() =~= parts.drop_first().push(last));
        assert(separated(all, c) =~= separated(parts, c).push(c) + last);
    }
}

/// What comes of a request whose events arrive one behind the other.
pub open spec fn exchanged_all(p: Progress, events: Seq<Decoded>) -> Result<Progress, Error>
    decreases events.len(),
{
    if events.len() == 0 {
        Ok(p)
    } else {
        match exchanged_all(p, events.drop_last()) {
            Err(error) => Err(error),
            Ok(next) => exchanged(next, events.last()),
        }
    }
}

/// The replies among events, and how many of them came before an event.
pub open spec fn answered(events: Seq<Decoded>) -> Seq<(CommandId, Seq<Seq<char>>)>
    decreases events.len(),
{
    if events.len() == 0 {
        seq![]
    } else {
        match events.last() {
            Decoded::Reply { id, result: Ok(lines) } => answered(events.drop_last()).push(
                (id, texts(lines@)),
            ),
            _ => answered(events.drop_last()),
        }
    }
}

pub open spec fn harmless(event: Decoded) -> bool {
    match event {
        Decoded::Reply { result, .. } => result is Ok,
        Decoded::Notification(notification) => !(notification is Exit),
    }
}

/// Each command of a request gets its own reply. Events without a failure are taken
/// exactly where the replies among them answer the commands in their order; then the
/// reply kept for each command is the one that came for it.
pub proof fn replies_belong_to_their_commands(ids: Seq<CommandId>, events: Seq<Decoded>)
    requires
        forall|i: int| 0 <= i < events.len() ==> harmless(#[trigger] events[i]),
    ensures
        ({
            let start = Progress { ids, replies: seq![], notifications: seq![], total: 0 };
            let came = answered(events);
            let fitting = came.len() <= ids.len() && forall|i: int|
                0 <= i < came.len() ==> (#[trigger] came[i]).0 == ids[i];
            match exchanged_all(start, events) {
                Ok(p) => {
                    &&& fitting
                    &&& p.ids == ids
                    &&& p.replies.len() == came.len()
                    &&& forall|i: int|
                        0 <= i < came.len() ==> p.replies[i] == (#[trigger] came[i]).1
                },
                Err(error) => !fitting && error == Error::UnexpectedReply,
            }
        }),
    decreases events.len(),
{
    if events.len() > 0 {
        let front = events.drop_last();
        assert forall|i: int| 0 <= i < front.len() implies harmless(#[trigger] front[i]) by {
            assert(front[i] == events[i]);
        }
        replies_belong_to_their_commands(ids, front);
        let event = events[events.len() - 1];
        assert(harmless(event));
        let start = Progress { ids, replies: seq![], notifications: seq![], total: 0 };
        let came = answered(events);
        let before = answered(front);
        match exchanged_all(start, front) {
            Err(_) => {
                if before.len() > ids.len() {
                } else {
                    let k = choose|k: int|
                        0 <= k < before.len() && (#[trigger] before[k]).0 != ids[k];
                    assert(came[k] == before[k]);
                }
            },
            Ok(p) => {
                match event {
                    Decoded::Reply { id, result } => {
                        let n = before.len() as int;
                        assert(came[n].0 == id);
                        assert forall|i: int| 0 <= i < n implies (#[trigger] came[i]).0
                            == ids[i] by {
                            assert(came[i] == before[i]);
                        }
                        if let Ok(next) = exchanged_all(start, events) {
                            assert forall|i: int| 0 <= i < came.len() implies next.replies[i] == (
                            #[trigger] came[i]).1 by {
                                if i < n {
                                    assert(came[i] == before[i]);
                                }
                            }
                        }
                    },
                    Decoded::Notification(_) => {},
                }
            },
        }
    }
}

/// The words of a command line up to a value in quotes.
pub open spec fn attach_words(socket: Option<Seq<char>>) -> Seq<Seq<char>> {
    seq!["exec"@, "tmux"@, "-N"@, "-C"@] + (match socket {
        Some(path) => seq!["-S"@, quoted(path)],
        None => seq![],
    }) + seq![
        "attach-session"@,
        "-E"@,
        "-f"@,
        "read-only,ignore-size,no-output"@,
        "-t"@,
    ]
}

/// The remote shell runs a client that starts no server, attaches to the session of this
/// very name, on the socket that was asked for, and neither writes to it, sizes it nor
/// changes its environment.
pub proof fn attaching_names_the_session(session: Seq<char>, socket: Option<Seq<char>>)
    ensures
        attach_text(session, socket) == separated(
            attach_words(socket).push(quoted(seq!['='] + session)),
            ' ',
        ),
        shell_word(quoted(seq!['='] + session), Quoting::Outside) == Some(seq!['='] + session),
        socket matches Some(path) ==> shell_word(quoted(path), Quoting::Outside) == Some(path),
{
    quoting_reads_back(seq!['='] + session);
    let target = quoted(seq!['='] + session);
    reveal_strlit("exec tmux -N -C");
    reveal_strlit(" -S ");
    reveal_strlit("");
    reveal_strlit(" attach-session -E -f read-only,ignore-size,no-output -t ");
    reveal_strlit("exec");
    reveal_strlit("tmux");
    reveal_strlit("-N");
    reveal_strlit("-C");
    reveal_strlit("-S");
    reveal_strlit("attach-session");
    reveal_strlit("-E");
    reveal_strlit("-f");
    reveal_strlit("read-only,ignore-size,no-output");
    reveal_strlit("-t");
    let tail = seq![
        "attach-session"@,
        "-E"@,
        "-f"@,
        "read-only,ignore-size,no-output"@,
        "-t"@,
        target,
    ];
    assert(separated(tail, ' ') == "attach-session -E -f read-only,ignore-size,no-output -t "@
        + target) by {
        reveal_strlit("attach-session -E -f read-only,ignore-size,no-output -t ");
        let t1 = seq!["-E"@, "-f"@, "read-only,ignore-size,no-output"@, "-t"@, target];
        let t2 = seq!["-f"@, "read-only,ignore-size,no-output"@, "-t"@, target];
        let t3 = seq!["read-only,ignore-size,no-output"@, "-t"@, target];
        let t4 = seq!["-t"@, target];
        assert(t4.drop_first() =~= seq![target]);
        assert(t3.drop_first() =~= t4);
        assert(t2.drop_first() =~= t3);
        assert(t1.drop_first() =~= t2);
        assert(tail.drop_first() =~= t1);
        assert(separated(seq![target], ' ') == target);
        assert(separated(t4, ' ') == "-t"@.push(' ') + target);
        assert(separated(t3, ' ') == "read-only,ignore-size,no-output"@.push(' ') + separated(
            t4,
            ' ',
        ));
        assert(separated(t2, ' ') == "-f"@.push(' ') + separated(t3, ' '));
        assert(separated(t1, ' ') == "-E"@.push(' ') + separated(t2, ' '));
        assert(separated(tail, ' ') =~= "attach-session -E -f read-only,ignore-size,no-output -t "@
            + target);
    }
    reveal_strlit("attach-session -E -f read-only,ignore-size,no-output -t ");
    assert(" attach-session -E -f read-only,ignore-size,no-output -t "@ =~= seq![' ']
        + "attach-session -E -f read-only,ignore-size,no-output -t "@);
    match socket {
        Some(path) => {
            quoting_reads_back(path);
            let all = attach_words(socket).push(target);
            let a5 = seq![quoted(path)] + tail;
            let a4 = seq!["-S"@] + a5;
            let a3 = seq!["-C"@] + a4;
            let a2 = seq!["-N"@] + a3;
            let a1 = seq!["tmux"@] + a2;
            assert(all =~= seq!["exec"@] + a1);
            assert(a5.drop_first() =~= tail);
            assert(a4.drop_first() =~= a5);
            assert(a3.drop_first() =~= a4);
            assert(a2.drop_first() =~= a3);
            assert(a1.drop_first() =~= a2);
            assert(all.drop_first() =~= a1);
            assert(separated(a5, ' ') == quoted(path).push(' ') + separated(tail, ' '));
            assert(separated(a4, ' ') == "-S"@.push(' ') + separated(a5, ' '));
            assert(separated(a3, ' ') == "-C"@.push(' ') + separated(a4, ' '));
            assert(separated(a2, ' ') == "-N"@.push(' ') + separated(a3, ' '));
            assert(separated(a1, ' ') == "tmux"@.push(' ') + separated(a2, ' '));
            assert(separated(all, ' ') =~= attach_text(session, socket));
        },
        None => {
            let all = attach_words(socket).push(target);
            let a3 = seq!["-C"@] + tail;
            let a2 = seq!["-N"@] + a3;
            let a1 = seq!["tmux"@] + a2;
            assert(all =~= seq!["exec"@] + a1);
            assert(a3.drop_first() =~= tail);
            assert(a2.drop_first() =~= a3);
            assert(a1.drop_first() =~= a2);
            assert(all.drop_first() =~= a1);
            assert(separated(a3, ' ') == "-C"@.push(' ') + separated(tail, ' '));
            assert(separated(a2, ' ') == "-N"@.push(' ') + separated(a3, ' '));
            assert(separated(a1, ' ') == "tmux"@.push(' ') + separated(a2, ' '));
            assert(separated(all, ' ') =~= attach_text(session, socket));
        },
    }
}

} // verus!
