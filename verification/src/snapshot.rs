//! Rebuild pane models from tmux captures and observable terminal state.
//!
//! This is not a serialization of tmux's complete input parser. The active
//! pen, saved cursor and charset state and some modes are not exported by tmux.
use vstd::prelude::*;
use vstd::slice::slice_subrange;
use vstd::string::*;
use vstd::utf8::*;
use vstd::view::View as _;

use crate::terminal::{cell_ceiling, feedable, is_feedable, Input, Shape, Terminal};
use crate::text::{
    chars_of, decimal, is_text, number, number_error_text, number_fault, parse_number, pieces,
    push_decimal, read_number, rows, split_on, texts, NumberError,
};
use crate::tmux::{Notification, PaneId, SessionId, WindowId};
use crate::values::{valid_size, Size};

verus! {

pub const MAX_PANES: usize = 32;

pub const MAX_HISTORY_LINES: usize = 1000;

pub const MAX_SESSION_CELLS: usize = 1_048_576;

pub const MAX_CAPTURE_BYTES: usize = 1_048_576;

#[derive(Clone, Copy, Debug, PartialEq, Eq, Structural)]
pub enum Error {
    IncompleteState,
    PaneId,
    WindowId,
    /// The number of a pane or of a window.
    Id(NumberError),
    /// A field with its place.
    Number(usize, NumberError),
    Mode(usize),
    Size,
    Cursor,
    ScrollRegion,
    TabStop(NumberError),
    TabRange,
    TabOrder,
    Position,
    History,
    PaneCount,
    DuplicatePane,
    CellBudget,
    SavedGrid,
    PendingLines,
    MissingCapture,
    CaptureTooLarge,
    TruncatedEscape,
    InvalidEscape,
}

/// What an error is shown as.
pub open spec fn error_text(error: Error) -> Seq<char> {
    match error {
        Error::IncompleteState => "incomplete tmux pane state"@,
        Error::PaneId => "invalid pane id"@,
        Error::WindowId => "invalid window id"@,
        Error::Id(error) => number_error_text(error),
        Error::Number(index, error) => "invalid pane state field "@ + decimal(index as nat) + ": "@
            + number_error_text(error),
        Error::Mode(index) => "missing or invalid pane mode "@ + decimal(index as nat),
        Error::Size => "terminal dimensions are zero or exceed the cell budget"@,
        Error::Cursor => "cursor outside pane"@,
        Error::ScrollRegion => "invalid scroll region"@,
        Error::TabStop(error) => "invalid tab stop: "@ + number_error_text(error),
        Error::TabRange => "tab stop outside pane"@,
        Error::TabOrder => "unordered tab stops"@,
        Error::Position => "pane position exceeds budget"@,
        Error::History => "history exceeds budget"@,
        Error::PaneCount => "invalid pane count"@,
        Error::DuplicatePane => "duplicate pane"@,
        Error::CellBudget => "session exceeds terminal cell budget"@,
        Error::SavedGrid => "unexpected saved primary grid"@,
        Error::PendingLines => "multiline pending capture"@,
        Error::MissingCapture => "missing screen capture"@,
        Error::CaptureTooLarge => "screen capture exceeds 1 MiB"@,
        Error::TruncatedEscape => "truncated capture escape"@,
        Error::InvalidEscape => "invalid capture escape"@,
    }
}

impl Error {
    pub fn message(&self) -> (r: String)
        ensures
            r@ == error_text(*self),
    {
        match self {
            Error::IncompleteState => "incomplete tmux pane state".to_owned(),
            Error::PaneId => "invalid pane id".to_owned(),
            Error::WindowId => "invalid window id".to_owned(),
            Error::Id(error) => error.message().to_owned(),
            Error::Number(index, error) => {
                let mut out = "invalid pane state field ".to_owned();
                push_decimal(&mut out, *index as u64);
                out.append(": ");
                out.append(error.message());
                out
            },
            Error::Mode(index) => {
                let mut out = "missing or invalid pane mode ".to_owned();
                push_decimal(&mut out, *index as u64);
                out
            },
            Error::Size => "terminal dimensions are zero or exceed the cell budget".to_owned(),
            Error::Cursor => "cursor outside pane".to_owned(),
            Error::ScrollRegion => "invalid scroll region".to_owned(),
            Error::TabStop(error) => {
                let mut out = "invalid tab stop: ".to_owned();
                out.append(error.message());
                out
            },
            Error::TabRange => "tab stop outside pane".to_owned(),
            Error::TabOrder => "unordered tab stops".to_owned(),
            Error::Position => "pane position exceeds budget".to_owned(),
            Error::History => "history exceeds budget".to_owned(),
            Error::PaneCount => "invalid pane count".to_owned(),
            Error::DuplicatePane => "duplicate pane".to_owned(),
            Error::CellBudget => "session exceeds terminal cell budget".to_owned(),
            Error::SavedGrid => "unexpected saved primary grid".to_owned(),
            Error::PendingLines => "multiline pending capture".to_owned(),
            Error::MissingCapture => "missing screen capture".to_owned(),
            Error::CaptureTooLarge => "screen capture exceeds 1 MiB".to_owned(),
            Error::TruncatedEscape => "truncated capture escape".to_owned(),
            Error::InvalidEscape => "invalid capture escape".to_owned(),
        }
    }
}

/// The fields of one pane, in the order in which `State::parse` reads them. No
/// names or free-form text: every separator has an unambiguous meaning.
pub const STATE_FORMAT: &'static str =
    "#{pane_id}|#{window_id}|#{pane_width}|#{pane_height}|#{pane_left}|#{pane_top}|#{cursor_x}|#{cursor_y}|#{alternate_on}|#{history_size}|#{history_limit}|#{alternate_saved_x}|#{alternate_saved_y}|#{scroll_region_upper}|#{scroll_region_lower}|#{cursor_flag}|#{insert_flag}|#{keypad_cursor_flag}|#{keypad_flag}|#{wrap_flag}|#{mouse_standard_flag}|#{mouse_button_flag}|#{mouse_any_flag}|#{mouse_utf8_flag}|#{mouse_sgr_flag}|#{bracket_paste_flag}|#{pane_tabs}";

/// A pane as tmux describes it at the time of a capture.
#[derive(Debug, PartialEq, Eq)]
pub struct State {
    pub pane: PaneId,
    pub window: WindowId,
    pub size: Size,
    pub left: usize,
    pub top: usize,
    pub cursor: (usize, usize),
    pub alternate: bool,
    pub history_size: usize,
    pub history_limit: usize,
    pub saved_cursor: (usize, usize),
    pub scroll_region: (usize, usize),
    /// Cursor, insert, application cursor, application keypad, wrap, mouse
    /// standard, button, any, UTF-8 and SGR, in that order.
    pub modes: Vec<bool>,
    /// Older tmux versions do not export this input-side mode.
    pub bracketed_paste: Option<bool>,
    pub tabs: Vec<usize>,
}

/// What a pane state holds.
pub struct Facts {
    pub pane: nat,
    pub window: nat,
    pub columns: nat,
    pub rows: nat,
    pub left: nat,
    pub top: nat,
    pub cursor: (nat, nat),
    pub alternate: bool,
    pub history_size: nat,
    pub history_limit: nat,
    pub saved_cursor: (nat, nat),
    pub scroll_region: (nat, nat),
    pub modes: Seq<bool>,
    pub bracketed_paste: Option<bool>,
    pub tabs: Seq<nat>,
}

pub open spec fn naturals(v: Seq<usize>) -> Seq<nat> {
    v.map_values(|n: usize| n as nat)
}

impl vstd::view::View for State {
    type V = Facts;

    open spec fn view(&self) -> Facts {
        Facts {
            pane: self.pane.0 as nat,
            window: self.window.0 as nat,
            columns: self.size.spec_columns(),
            rows: self.size.spec_rows(),
            left: self.left as nat,
            top: self.top as nat,
            cursor: (self.cursor.0 as nat, self.cursor.1 as nat),
            alternate: self.alternate,
            history_size: self.history_size as nat,
            history_limit: self.history_limit as nat,
            saved_cursor: (self.saved_cursor.0 as nat, self.saved_cursor.1 as nat),
            scroll_region: (self.scroll_region.0 as nat, self.scroll_region.1 as nat),
            modes: self.modes@,
            bracketed_paste: self.bracketed_paste,
            tabs: naturals(self.tabs@),
        }
    }
}

pub open spec fn inside(position: (nat, nat), columns: nat, rows: nat) -> bool {
    position.0 <= columns && position.1 < rows
}

/// Tab stops inside of the pane, each to the right of the one before.
pub open spec fn ordered_tabs(tabs: Seq<nat>, columns: nat) -> bool {
    &&& forall|i: int| 0 <= i < tabs.len() ==> #[trigger] tabs[i] < columns
    &&& forall|i: int, j: int| 0 <= i < j < tabs.len() ==> #[trigger] tabs[i] < #[trigger] tabs[j]
}

/// What every parsed state satisfies.
pub open spec fn coherent(f: Facts) -> bool {
    &&& valid_size(f.columns as int, f.rows as int)
    &&& inside(f.cursor, f.columns, f.rows)
    &&& inside(f.saved_cursor, f.columns, f.rows)
    &&& f.scroll_region.0 <= f.scroll_region.1 < f.rows
    &&& f.modes.len() == 10
    &&& ordered_tabs(f.tabs, f.columns)
    &&& f.left <= 65535 && f.top <= 65535
}

/// A field that holds a number.
pub open spec fn num(f: Seq<Seq<char>>, i: int) -> Option<nat> {
    number(f[i], usize::MAX as nat)
}

/// The error of a field that holds no number.
pub open spec fn no_number(f: Seq<Seq<char>>, i: int) -> Error {
    Error::Number(i as usize, number_fault(f[i], usize::MAX as nat)->0)
}

/// A field that holds a flag.
pub open spec fn flag(f: Seq<Seq<char>>, i: int) -> Option<bool> {
    if f[i] == "0"@ {
        Some(false)
    } else if f[i] == "1"@ {
        Some(true)
    } else {
        None
    }
}

/// An identifier behind its sigil.
pub open spec fn sigil_number(s: Seq<char>, sigil: char) -> Option<nat> {
    if s.len() > 0 && s[0] == sigil {
        number(s.drop_first(), u32::MAX as nat)
    } else {
        None
    }
}

/// Why what stands behind a sigil is no number; nothing where the sigil is missing.
pub open spec fn sigil_fault(s: Seq<char>, sigil: char) -> Option<NumberError> {
    if s.len() > 0 && s[0] == sigil {
        number_fault(s.drop_first(), u32::MAX as nat)
    } else {
        None
    }
}

/// The first of the flags in this range that is none.
pub open spec fn bad_flag(f: Seq<Seq<char>>, from: int, to: int) -> Option<int>
    decreases to - from,
{
    if from >= to {
        None
    } else if flag(f, from) is None {
        Some(from)
    } else {
        bad_flag(f, from + 1, to)
    }
}

pub open spec fn flags(f: Seq<Seq<char>>, from: int, count: nat) -> Seq<bool> {
    Seq::new(count, |i: int| flag(f, from + i).unwrap())
}

/// Tab stops from their comma-separated fields, left to right.
pub open spec fn read_tabs(values: Seq<Seq<char>>, columns: nat) -> Result<Seq<nat>, Error>
    decreases values.len(),
{
    if values.len() == 0 {
        Ok(seq![])
    } else {
        match read_tabs(values.drop_last(), columns) {
            Err(error) => Err(error),
            Ok(tabs) => match read_number(values.last(), usize::MAX as nat) {
                Err(error) => Err(Error::TabStop(error)),
                Ok(column) => if column >= columns {
                    Err(Error::TabRange)
                } else if tabs.len() > 0 && tabs.last() >= column {
                    Err(Error::TabOrder)
                } else {
                    Ok(tabs.push(column))
                },
            },
        }
    }
}

pub open spec fn tab_fields(s: Seq<char>) -> Seq<Seq<char>> {
    if s.len() == 0 {
        seq![]
    } else {
        pieces(s, ',')
    }
}

/// The size of the pane, or what is wrong with the fields up to it.
pub open spec fn read_head(f: Seq<Seq<char>>) -> Result<(nat, nat, nat, nat), Error> {
    if f.len() != 27 {
        Err(Error::IncompleteState)
    } else if sigil_number(f[0], '%') is None {
        Err(
            match sigil_fault(f[0], '%') {
                Some(error) => Error::Id(error),
                None => Error::PaneId,
            },
        )
    } else if sigil_number(f[1], '@') is None {
        Err(
            match sigil_fault(f[1], '@') {
                Some(error) => Error::Id(error),
                None => Error::WindowId,
            },
        )
    } else if num(f, 2) is None {
        Err(no_number(f, 2))
    } else if num(f, 3) is None {
        Err(no_number(f, 3))
    } else if !valid_size(num(f, 2).unwrap() as int, num(f, 3).unwrap() as int) {
        Err(Error::Size)
    } else {
        Ok(
            (
                sigil_number(f[0], '%').unwrap(),
                sigil_number(f[1], '@').unwrap(),
                num(f, 2).unwrap(),
                num(f, 3).unwrap(),
            ),
        )
    }
}

/// The place inside of a pane that is nearest to a position.
pub open spec fn clamped(position: (nat, nat), columns: nat, rows: nat) -> (nat, nat) {
    (
        if position.0 <= columns {
            position.0
        } else {
            columns
        },
        if position.1 < rows {
            position.1
        } else {
            (rows - 1) as nat
        },
    )
}

/// The cursor, whether the alternate screen is shown, and the cursor saved
/// behind it. tmux leaves the saved fields empty when there is no saved grid, and
/// does not move the saved cursor when the pane shrinks.
pub open spec fn read_cursors(f: Seq<Seq<char>>, columns: nat, rows: nat) -> Result<
    ((nat, nat), bool, (nat, nat)),
    Error,
> {
    if num(f, 6) is None {
        Err(no_number(f, 6))
    } else if num(f, 7) is None {
        Err(no_number(f, 7))
    } else if flag(f, 8) is None {
        Err(Error::Mode(8))
    } else if flag(f, 8).unwrap() && num(f, 11) is None {
        Err(no_number(f, 11))
    } else if flag(f, 8).unwrap() && num(f, 12) is None {
        Err(no_number(f, 12))
    } else {
        let cursor = (num(f, 6).unwrap(), num(f, 7).unwrap());
        let saved = if flag(f, 8).unwrap() {
            clamped((num(f, 11).unwrap(), num(f, 12).unwrap()), columns, rows)
        } else {
            (0, 0)
        };
        if !inside(cursor, columns, rows) {
            Err(Error::Cursor)
        } else {
            Ok((cursor, flag(f, 8).unwrap(), saved))
        }
    }
}

pub open spec fn read_region(f: Seq<Seq<char>>, rows: nat) -> Result<(nat, nat), Error> {
    if num(f, 13) is None {
        Err(no_number(f, 13))
    } else if num(f, 14) is None {
        Err(no_number(f, 14))
    } else if num(f, 13).unwrap() > num(f, 14).unwrap() || num(f, 14).unwrap() >= rows {
        Err(Error::ScrollRegion)
    } else {
        Ok((num(f, 13).unwrap(), num(f, 14).unwrap()))
    }
}

pub open spec fn read_modes(f: Seq<Seq<char>>) -> Result<(Seq<bool>, Option<bool>), Error> {
    match bad_flag(f, 15, 25) {
        Some(i) => Err(Error::Mode(i as usize)),
        None => if f[25].len() == 0 {
            Ok((flags(f, 15, 10), None))
        } else if flag(f, 25) is None {
            Err(Error::Mode(25))
        } else {
            Ok((flags(f, 15, 10), flag(f, 25)))
        },
    }
}

pub open spec fn read_place(f: Seq<Seq<char>>) -> Result<(nat, nat, nat, nat), Error> {
    if num(f, 4) is None {
        Err(no_number(f, 4))
    } else if num(f, 5) is None {
        Err(no_number(f, 5))
    } else if num(f, 4).unwrap() > 65535 || num(f, 5).unwrap() > 65535 {
        Err(Error::Position)
    } else if num(f, 9) is None {
        Err(no_number(f, 9))
    } else if num(f, 10) is None {
        Err(no_number(f, 10))
    } else {
        Ok(
            (
                num(f, 4).unwrap(),
                num(f, 5).unwrap(),
                num(f, 9).unwrap(),
                num(f, 10).unwrap(),
            ),
        )
    }
}

/// The state that a line of `STATE_FORMAT` describes, or the first thing that is
/// wrong with it.
#[verifier::opaque]
pub open spec fn read_state(line: Seq<char>) -> Result<Facts, Error> {
    let f = pieces(line, '|');
    match read_head(f) {
        Err(error) => Err(error),
        Ok((pane, window, columns, rows)) => match read_cursors(f, columns, rows) {
            Err(error) => Err(error),
            Ok((cursor, alternate, saved_cursor)) => match read_region(f, rows) {
                Err(error) => Err(error),
                Ok(scroll_region) => match read_modes(f) {
                    Err(error) => Err(error),
                    Ok((modes, bracketed_paste)) => match read_tabs(tab_fields(f[26]), columns) {
                        Err(error) => Err(error),
                        Ok(tabs) => match read_place(f) {
                            Err(error) => Err(error),
                            Ok((left, top, history_size, history_limit)) => Ok(
                                Facts {
                                    pane,
                                    window,
                                    columns,
                                    rows,
                                    left,
                                    top,
                                    cursor,
                                    alternate,
                                    history_size,
                                    history_limit,
                                    saved_cursor,
                                    scroll_region,
                                    modes,
                                    bracketed_paste,
                                    tabs,
                                },
                            ),
                        },
                    },
                },
            },
        },
    }
}

fn read_num(fields: &Vec<Vec<char>>, i: usize) -> (r: Result<usize, Error>)
    requires
        i < fields@.len(),
    ensures
        match num(rows(fields@), i as int) {
            Some(n) => r == Ok::<usize, Error>(n as usize) && n <= usize::MAX,
            None => r == Err::<usize, Error>(no_number(rows(fields@), i as int)),
        },
{
    assert(rows(fields@)[i as int] == fields@[i as int]@);
    match parse_number(fields[i].as_slice(), usize::MAX as u64) {
        Ok(n) => Ok(n as usize),
        Err(error) => Err(Error::Number(i, error)),
    }
}

fn read_flag(fields: &Vec<Vec<char>>, i: usize) -> (r: Result<bool, Error>)
    requires
        i < fields@.len(),
    ensures
        r == match flag(rows(fields@), i as int) {
            Some(b) => Ok::<bool, Error>(b),
            None => Err::<bool, Error>(Error::Mode(i)),
        },
{
    assert(rows(fields@)[i as int] == fields@[i as int]@);
    if is_text(fields[i].as_slice(), "0") {
        Ok(false)
    } else if is_text(fields[i].as_slice(), "1") {
        Ok(true)
    } else {
        Err(Error::Mode(i))
    }
}

/// The number behind a sigil, or why there is none: nothing where the sigil itself
/// is missing.
pub(crate) fn read_sigil(field: &[char], sigil: char) -> (r: Result<u32, Option<NumberError>>)
    ensures
        match sigil_number(field@, sigil) {
            Some(n) => r == Ok::<u32, Option<NumberError>>(n as u32) && n <= u32::MAX,
            None => r == Err::<u32, Option<NumberError>>(sigil_fault(field@, sigil)),
        },
{
    if field.len() == 0 || field[0] != sigil {
        return Err(None);
    }
    let rest = slice_subrange(field, 1, field.len());
    assert(rest@ =~= field@.drop_first());
    match parse_number(rest, u32::MAX as u64) {
        Ok(n) => Ok(n as u32),
        Err(error) => Err(Some(error)),
    }
}

fn read_tab_stops(field: &[char], columns: usize) -> (r: Result<Vec<usize>, Error>)
    ensures
        match read_tabs(tab_fields(field@), columns as nat) {
            Ok(tabs) => r matches Ok(v) && naturals(v@) == tabs,
            Err(error) => r == Err::<Vec<usize>, Error>(error),
        },
{
    let mut tabs: Vec<usize> = Vec::new();
    if field.len() == 0 {
        assert(naturals(tabs@) =~= Seq::<nat>::empty());
        return Ok(tabs);
    }
    let values = split_on(field, ',');
    let ghost all = rows(values@);
    let mut i: usize = 0;
    assert(naturals(tabs@) =~= Seq::<nat>::empty());
    while i < values.len()
        invariant
            i <= values@.len(),
            all == rows(values@),
            all == tab_fields(field@),
            read_tabs(all.take(i as int), columns as nat) == Ok::<Seq<nat>, Error>(
                naturals(tabs@),
            ),
        decreases values@.len() - i,
    {
        let ghost head = all.take(i + 1);
        proof {
            assert(head.drop_last() =~= all.take(i as int));
            assert(head.last() == values@[i as int]@);
            tabs_prefix(all, columns as nat, i + 1);
        }
        let column = match parse_number(values[i].as_slice(), usize::MAX as u64) {
            Ok(n) => n as usize,
            Err(error) => return Err(Error::TabStop(error)),
        };
        if column >= columns {
            return Err(Error::TabRange);
        }
        if tabs.len() > 0 {
            assert(naturals(tabs@).last() == tabs@.last() as nat);
            if tabs[tabs.len() - 1] >= column {
                return Err(Error::TabOrder);
            }
        }
        let ghost before = tabs@;
        tabs.push(column);
        assert(naturals(tabs@) =~= naturals(before).push(column as nat));
        i += 1;
    }
    assert(all.take(i as int) =~= all);
    Ok(tabs)
}

/// An error in a prefix of the tab stops is the error of all of them.
proof fn tabs_prefix(values: Seq<Seq<char>>, columns: nat, n: int)
    requires
        0 <= n <= values.len(),
    ensures
        read_tabs(values.take(n), columns) is Err ==> read_tabs(values, columns) == read_tabs(
            values.take(n),
            columns,
        ),
    decreases values.len() - n,
{
    if n == values.len() {
        assert(values.take(n) =~= values);
    } else {
        tabs_prefix(values, columns, n + 1);
        assert(values.take(n + 1).drop_last() =~= values.take(n));
    }
}

proof fn tabs_are_ordered(values: Seq<Seq<char>>, columns: nat)
    ensures
        read_tabs(values, columns) matches Ok(tabs) ==> ordered_tabs(tabs, columns),
    decreases values.len(),
{
    if values.len() > 0 {
        tabs_are_ordered(values.drop_last(), columns);
        if let Ok(tabs) = read_tabs(values, columns) {
            let before = read_tabs(values.drop_last(), columns)->Ok_0;
            assert(tabs =~= before.push(tabs.last()));
            assert forall|i: int, j: int| 0 <= i < j < tabs.len() implies #[trigger] tabs[i]
                < #[trigger] tabs[j] by {
                if j == tabs.len() - 1 {
                    assert(tabs[i] == before[i]);
                    assert(i < before.len() - 1 ==> before[i] < before[before.len() - 1]);
                } else {
                    assert(tabs[i] == before[i] && tabs[j] == before[j]);
                }
            }
        }
    }
}

/// Whatever a line describes is coherent: every cursor is inside of the pane,
/// the scroll region is one, and the tab stops are in order.
pub proof fn parsed_states_are_coherent(line: Seq<char>)
    ensures
        read_state(line) matches Ok(facts) ==> coherent(facts),
{
    reveal(read_state);
    if let Ok(facts) = read_state(line) {
        tabs_are_ordered(tab_fields(pieces(line, '|')[26]), facts.columns);
    }
}

fn read_mode_flags(fields: &Vec<Vec<char>>) -> (r: Result<(Vec<bool>, Option<bool>), Error>)
    requires
        fields@.len() == 27,
    ensures
        match read_modes(rows(fields@)) {
            Ok((modes, bracketed)) => r matches Ok(v) && v.0@ == modes && v.1 == bracketed,
            Err(error) => r == Err::<(Vec<bool>, Option<bool>), Error>(error),
        },
{
    let ghost f = rows(fields@);
    let mut modes: Vec<bool> = Vec::new();
    let mut i: usize = 15;
    while i < 25
        invariant
            15 <= i <= 25,
            f == rows(fields@),
            fields@.len() == 27,
            modes@ == flags(f, 15, (i - 15) as nat),
            bad_flag(f, 15, 25) == bad_flag(f, i as int, 25),
        decreases 25 - i,
    {
        let mode = match read_flag(fields, i) {
            Ok(mode) => mode,
            Err(error) => return Err(error),
        };
        let ghost before = modes@;
        modes.push(mode);
        i += 1;
        assert(modes@ =~= flags(f, 15, (i - 15) as nat));
    }
    assert(f[25] == fields@[25]@);
    let bracketed = if fields[25].len() == 0 {
        None
    } else {
        match read_flag(fields, 25) {
            Ok(mode) => Some(mode),
            Err(error) => return Err(error),
        }
    };
    Ok((modes, bracketed))
}

impl State {
    pub fn parse(line: &str) -> (r: Result<Self, Error>)
        ensures
            match read_state(line@) {
                Ok(facts) => r matches Ok(state) && state@ == facts && coherent(facts),
                Err(error) => r == Err::<State, Error>(error),
            },
    {
        let chars = chars_of(line);
        let fields = split_on(chars.as_slice(), '|');
        let ghost f = rows(fields@);
        reveal(read_state);
        if fields.len() != 27 {
            return Err(Error::IncompleteState);
        }
        proof {
            parsed_states_are_coherent(line@);
            assert(f[0] == fields@[0]@);
            assert(f[1] == fields@[1]@);
            assert(f[26] == fields@[26]@);
        }
        let pane = match read_sigil(fields[0].as_slice(), '%') {
            Ok(n) => PaneId(n),
            Err(Some(error)) => return Err(Error::Id(error)),
            Err(None) => return Err(Error::PaneId),
        };
        let window = match read_sigil(fields[1].as_slice(), '@') {
            Ok(n) => WindowId(n),
            Err(Some(error)) => return Err(Error::Id(error)),
            Err(None) => return Err(Error::WindowId),
        };
        let columns = read_num(&fields, 2)?;
        let rows = read_num(&fields, 3)?;
        let size = match Size::new(columns, rows) {
            Ok(size) => size,
            Err(_) => return Err(Error::Size),
        };
        let cursor = (read_num(&fields, 6)?, read_num(&fields, 7)?);
        let alternate = read_flag(&fields, 8)?;
        let saved_cursor: (usize, usize) = if alternate {
            let (column, row) = (read_num(&fields, 11)?, read_num(&fields, 12)?);
            (
                if column <= columns {
                    column
                } else {
                    columns
                },
                if row < rows {
                    row
                } else {
                    rows - 1
                },
            )
        } else {
            (0, 0)
        };
        if cursor.0 > columns || cursor.1 >= rows {
            return Err(Error::Cursor);
        }
        let scroll_region = (read_num(&fields, 13)?, read_num(&fields, 14)?);
        if scroll_region.0 > scroll_region.1 || scroll_region.1 >= rows {
            return Err(Error::ScrollRegion);
        }
        let (modes, bracketed_paste) = read_mode_flags(&fields)?;
        let tabs = read_tab_stops(fields[26].as_slice(), columns)?;
        let left = read_num(&fields, 4)?;
        let top = read_num(&fields, 5)?;
        if left > 65535 || top > 65535 {
            return Err(Error::Position);
        }
        let history_size = read_num(&fields, 9)?;
        let history_limit = read_num(&fields, 10)?;
        Ok(
            State {
                pane,
                window,
                size,
                left,
                top,
                cursor,
                alternate,
                history_size,
                history_limit,
                saved_cursor,
                scroll_region,
                modes,
                bracketed_paste,
                tabs,
            },
        )
    }

    /// Whether both states describe a pane alike.
    pub fn same(&self, other: &State) -> (r: bool)
        ensures
            r == (self@ == other@),
    {
        let ghost a = self@;
        let ghost b = other@;
        if self.pane != other.pane || self.window != other.window || self.size.columns()
            != other.size.columns() || self.size.rows() != other.size.rows() || self.left
            != other.left || self.top != other.top || self.cursor.0 != other.cursor.0
            || self.cursor.1 != other.cursor.1 || self.alternate != other.alternate
            || self.history_size != other.history_size || self.history_limit
            != other.history_limit || self.saved_cursor.0 != other.saved_cursor.0
            || self.saved_cursor.1 != other.saved_cursor.1 || self.scroll_region.0
            != other.scroll_region.0 || self.scroll_region.1 != other.scroll_region.1 {
            return false;
        }
        let pasting = match (self.bracketed_paste, other.bracketed_paste) {
            (None, None) => true,
            (Some(x), Some(y)) => x == y,
            _ => false,
        };
        if !pasting || self.modes.len() != other.modes.len() || self.tabs.len()
            != other.tabs.len() {
            assert(a.tabs.len() == self.tabs@.len() && b.tabs.len() == other.tabs@.len());
            return false;
        }
        let mut i: usize = 0;
        while i < self.modes.len()
            invariant
                i <= self.modes@.len(),
                self.modes@.len() == other.modes@.len(),
                a == self@,
                b == other@,
                forall|k: int| 0 <= k < i ==> #[trigger] self.modes@[k] == other.modes@[k],
            decreases self.modes@.len() - i,
        {
            if self.modes[i] != other.modes[i] {
                assert(a.modes[i as int] != b.modes[i as int]);
                return false;
            }
            i += 1;
        }
        let mut j: usize = 0;
        while j < self.tabs.len()
            invariant
                j <= self.tabs@.len(),
                self.tabs@.len() == other.tabs@.len(),
                a == self@,
                b == other@,
                forall|k: int| 0 <= k < j ==> #[trigger] self.tabs@[k] == other.tabs@[k],
            decreases self.tabs@.len() - j,
        {
            if self.tabs[j] != other.tabs[j] {
                assert(a.tabs[j as int] != b.tabs[j as int]);
                return false;
            }
            j += 1;
        }
        assert(a.modes =~= b.modes);
        assert(a.tabs =~= b.tabs);
        true
    }

    /// None means the tmux server did not export this input-side mode.
    pub fn bracketed_paste(&self) -> (r: Option<bool>)
        ensures
            r == self@.bracketed_paste,
    {
        self.bracketed_paste
    }
}


/// Behind these bytes, what the rest gives.
pub open spec fn behind(head: Seq<u8>, rest: Result<Seq<u8>, Error>) -> Result<Seq<u8>, Error> {
    match rest {
        Ok(bytes) => Ok(head + bytes),
        Err(error) => Err(error),
    }
}

pub open spec fn octal_byte(b: u8) -> bool {
    0x30 <= b <= 0x37
}

/// The bytes that a capture stands for: a doubled backslash is one backslash,
/// and a backslash with three octal digits is one byte.
pub open spec fn unescape(bytes: Seq<u8>) -> Result<Seq<u8>, Error>
    decreases bytes.len(),
{
    if bytes.len() == 0 {
        Ok(seq![])
    } else if bytes[0] != 0x5c {
        behind(seq![bytes[0]], unescape(bytes.skip(1)))
    } else if bytes.len() > 1 && bytes[1] == 0x5c {
        behind(seq![0x5cu8], unescape(bytes.skip(2)))
    } else if bytes.len() < 4 {
        Err(Error::TruncatedEscape)
    } else if bytes[1] > 0x33 || !octal_byte(bytes[1]) || !octal_byte(bytes[2]) || !octal_byte(
        bytes[3],
    ) {
        Err(Error::InvalidEscape)
    } else {
        behind(
            seq![((bytes[1] - 0x30) * 64 + (bytes[2] - 0x30) * 8 + (bytes[3] - 0x30)) as u8],
            unescape(bytes.skip(4)),
        )
    }
}

/// `capture-pane -C` is not the same escaping as `%output`: screen text uses
/// doubled backslashes, while pending bytes and synthesized controls use octal
/// escapes. Never decode a second time.
pub fn decode_escaped(bytes: &[u8]) -> (r: Result<Vec<u8>, Error>)
    ensures
        if bytes@.len() > MAX_CAPTURE_BYTES {
            r == Err::<Vec<u8>, Error>(Error::CaptureTooLarge)
        } else {
            match unescape(bytes@) {
                Ok(decoded) => r matches Ok(v) && v@ == decoded,
                Err(error) => r == Err::<Vec<u8>, Error>(error),
            }
        },
{
    if bytes.len() > MAX_CAPTURE_BYTES {
        return Err(Error::CaptureTooLarge);
    }
    let mut decoded: Vec<u8> = Vec::new();
    let mut index: usize = 0;
    assert(bytes@.skip(0) =~= bytes@);
    assert(unescape(bytes@) == behind(decoded@, unescape(bytes@))) by {
        if let Ok(all) = unescape(bytes@) {
            assert(Seq::<u8>::empty() + all =~= all);
        }
    }
    while index < bytes.len()
        invariant
            index <= bytes@.len() <= MAX_CAPTURE_BYTES,
            unescape(bytes@) == behind(decoded@, unescape(bytes@.skip(index as int))),
        decreases bytes@.len() - index,
    {
        let ghost rest = bytes@.skip(index as int);
        let ghost before = decoded@;
        let step: usize;
        if bytes[index] != 0x5c {
            decoded.push(bytes[index]);
            step = 1;
        } else if index + 1 < bytes.len() && bytes[index + 1] == 0x5c {
            decoded.push(0x5c);
            step = 2;
        } else {
            if bytes.len() - index < 4 {
                return Err(Error::TruncatedEscape);
            }
            let a = bytes[index + 1];
            let b = bytes[index + 2];
            let c = bytes[index + 3];
            if a > 0x33 || a < 0x30 || b > 0x37 || b < 0x30 || c > 0x37 || c < 0x30 {
                return Err(Error::InvalidEscape);
            }
            decoded.push((a - 0x30) * 64 + (b - 0x30) * 8 + (c - 0x30));
            step = 4;
        }
        index = index + step;
        proof {
            assert(rest.skip(step as int) =~= bytes@.skip(index as int));
            let one = seq![decoded@.last()];
            assert(decoded@ =~= before + one);
            assert(unescape(rest) == behind(one, unescape(rest.skip(step as int))));
            if let Ok(tail) = unescape(rest.skip(step as int)) {
                assert(before + (one + tail) =~= (before + one) + tail);
            }
        }
    }
    proof {
        assert(bytes@.skip(index as int) =~= Seq::<u8>::empty());
        assert(decoded@ + Seq::<u8>::empty() =~= decoded@);
    }
    Ok(decoded)
}

/// One byte as a capture shows it: backslashes doubled, controls in octal.
pub open spec fn escape_byte(b: u8) -> Seq<u8> {
    if b == 0x5c {
        seq![0x5cu8, 0x5cu8]
    } else if b < 0x20 || b == 0x7f {
        seq![
            0x5cu8,
            (0x30 + b as int / 64) as u8,
            (0x30 + b as int / 8 % 8) as u8,
            (0x30 + b as int % 8) as u8,
        ]
    } else {
        seq![b]
    }
}

pub open spec fn escape(bytes: Seq<u8>) -> Seq<u8>
    decreases bytes.len(),
{
    if bytes.len() == 0 {
        seq![]
    } else {
        escape_byte(bytes[0]) + escape(bytes.skip(1))
    }
}

/// Decoding a capture gives back the bytes that were captured, and a backslash
/// among them is never taken for the start of an escape.
pub proof fn captures_decode_once(bytes: Seq<u8>)
    ensures
        unescape(escape(bytes)) == Ok::<Seq<u8>, Error>(bytes),
    decreases bytes.len(),
{
    if bytes.len() == 0 {
        assert(bytes =~= Seq::<u8>::empty());
    } else {
        captures_decode_once(bytes.skip(1));
        let head = escape_byte(bytes[0]);
        let all = escape(bytes);
        assert(all.skip(head.len() as int) =~= escape(bytes.skip(1)));
        assert(seq![bytes[0]] + bytes.skip(1) =~= bytes);
        let b = bytes[0];
        if b != 0x5c && (b < 0x20 || b == 0x7f) {
            assert(b as int / 64 * 64 + b as int / 8 % 8 * 8 + b as int % 8 == b);
        }
    }
}

/// Text fed to a terminal in one run.
pub open spec fn typed(text: Seq<char>) -> Input {
    Input::Bytes(encode_utf8(text))
}

/// The bytes of all lines together, without line endings.
pub open spec fn total_bytes(lines: Seq<Seq<char>>) -> nat
    decreases lines.len(),
{
    if lines.len() == 0 {
        0
    } else {
        total_bytes(lines.drop_last()) + encode_utf8(lines.last()).len()
    }
}

/// What redraws a captured grid: reset the pen, home the cursor, then each line
/// behind a hard line break. Soft wraps are already joined in the capture.
pub open spec fn grid_lines(lines: Seq<Seq<char>>) -> Result<Seq<Input>, Error>
    decreases lines.len(),
{
    if lines.len() == 0 {
        Ok(seq![typed("\x1b[0m\x0f\x1b)0\x1b[H"@)])
    } else {
        match grid_lines(lines.drop_last()) {
            Err(error) => Err(error),
            Ok(inputs) => if total_bytes(lines) > MAX_CAPTURE_BYTES {
                Err(Error::CaptureTooLarge)
            } else {
                match unescape(encode_utf8(lines.last())) {
                    Err(error) => Err(error),
                    Ok(bytes) => Ok(
                        (if lines.len() > 1 {
                            inputs.push(typed("\r\n"@))
                        } else {
                            inputs
                        }).push(Input::Bytes(bytes)),
                    ),
                }
            },
        }
    }
}

pub open spec fn grid_inputs(lines: Seq<Seq<char>>) -> Result<Seq<Input>, Error> {
    if lines.len() == 0 {
        Err(Error::MissingCapture)
    } else {
        grid_lines(lines)
    }
}

/// What sets the tab stops.
pub open spec fn tab_inputs(tabs: Seq<nat>) -> Seq<Input>
    decreases tabs.len(),
{
    if tabs.len() == 0 {
        seq![]
    } else {
        tab_inputs(tabs.drop_last()).push(
            typed("\x1b[1;"@ + decimal(tabs.last() + 1) + "H\x1bH"@),
        )
    }
}

/// What sets or resets one mode.
pub open spec fn mode_switch(prefix: Seq<char>, on: bool) -> Input {
    typed("\x1b["@ + prefix + (if on {
        "h"@
    } else {
        "l"@
    }))
}

/// What restores tab stops, scroll region, modes and cursor.
pub open spec fn mode_inputs(f: Facts) -> Seq<Input> {
    let region = typed(
        "\x1b["@ + decimal(f.scroll_region.0 + 1) + ";"@ + decimal(f.scroll_region.1 + 1) + "r"@,
    );
    let switched = (seq![typed("\x1b[0m\x0f\x1b[3g"@)] + tab_inputs(f.tabs)).push(region).push(
        mode_switch("?25"@, f.modes[0]),
    ).push(mode_switch("4"@, f.modes[1])).push(mode_switch("?1"@, f.modes[2])).push(
        mode_switch("?7"@, f.modes[4]),
    ).push(mode_switch("?1000"@, f.modes[5])).push(mode_switch("?1002"@, f.modes[6])).push(
        mode_switch("?1003"@, f.modes[7]),
    ).push(mode_switch("?1005"@, f.modes[8])).push(mode_switch("?1006"@, f.modes[9]));
    let pasting = match f.bracketed_paste {
        Some(on) => switched.push(mode_switch("?2004"@, on)),
        None => switched,
    };
    pasting.push(
        typed(
            if f.modes[3] {
                "\x1b="@
            } else {
                "\x1b>"@
            },
        ),
    ).push(Input::Cursor(f.cursor.0, f.cursor.1))
}

/// Everything that rebuilds a pane, in order: with the alternate screen the
/// saved grid first, then the active grid, the modes, and the bytes of an
/// unfinished escape sequence.
#[verifier::opaque]
pub open spec fn restore_inputs(
    f: Facts,
    active: Seq<Seq<char>>,
    saved: Seq<Seq<char>>,
    pending: Seq<Seq<char>>,
) -> Result<Seq<Input>, Error> {
    let first: Result<Seq<Input>, Error> = if f.alternate {
        match grid_inputs(saved) {
            Err(error) => Err(error),
            Ok(inputs) => Ok(
                inputs.push(Input::Cursor(f.saved_cursor.0, f.saved_cursor.1)).push(
                    typed("\x1b[?1049h"@),
                ),
            ),
        }
    } else if exists|i: int| 0 <= i < saved.len() && (#[trigger] saved[i]).len() > 0 {
        Err(Error::SavedGrid)
    } else {
        Ok(seq![])
    };
    match first {
        Err(error) => Err(error),
        Ok(primary) => match grid_inputs(active) {
            Err(error) => Err(error),
            Ok(grid) => if pending.len() > 1 {
                Err(Error::PendingLines)
            } else if pending.len() == 0 {
                Ok(primary + grid + mode_inputs(f))
            } else if encode_utf8(pending[0]).len() > MAX_CAPTURE_BYTES {
                Err(Error::CaptureTooLarge)
            } else {
                match unescape(encode_utf8(pending[0])) {
                    Err(error) => Err(error),
                    Ok(bytes) => Ok((primary + grid + mode_inputs(f)).push(Input::Bytes(bytes))),
                }
            },
        },
    }
}

/// One step of a restoration.
pub enum Op {
    Bytes(Vec<u8>),
    Cursor(usize, usize),
}

impl vstd::view::View for Op {
    type V = Input;

    open spec fn view(&self) -> Input {
        match *self {
            Op::Bytes(bytes) => Input::Bytes(bytes@),
            Op::Cursor(column, row) => Input::Cursor(column as nat, row as nat),
        }
    }
}

pub open spec fn inputs_of(ops: Seq<Op>) -> Seq<Input> {
    ops.map_values(|op: Op| op@)
}

fn push_op(ops: &mut Vec<Op>, op: Op)
    ensures
        inputs_of(final(ops)@) == inputs_of(old(ops)@).push(op@),
{
    let ghost before = ops@;
    let ghost shown = op@;
    ops.push(op);
    assert(inputs_of(ops@) =~= inputs_of(before).push(shown));
}

fn push_text(ops: &mut Vec<Op>, text: &str)
    ensures
        inputs_of(final(ops)@) == inputs_of(old(ops)@).push(typed(text@)),
{
    push_op(ops, Op::Bytes(text.as_bytes_vec()));
}

fn push_grid(ops: &mut Vec<Op>, lines: &[String]) -> (r: Result<(), Error>)
    ensures
        match grid_inputs(texts(lines@)) {
            Ok(inputs) => r is Ok && inputs_of(final(ops)@) == inputs_of(old(ops)@) + inputs,
            Err(error) => r == Err::<(), Error>(error),
        },
{
    if lines.len() == 0 {
        return Err(Error::MissingCapture);
    }
    let ghost all = texts(lines@);
    let ghost start = inputs_of(ops@);
    let mut total: usize = 0;
    push_text(ops, "\x1b[0m\x0f\x1b)0\x1b[H");
    proof {
        assert(all.take(0) =~= Seq::<Seq<char>>::empty());
        assert(inputs_of(ops@) =~= start + seq![typed("\x1b[0m\x0f\x1b)0\x1b[H"@)]);
    }
    let mut i: usize = 0;
    while i < lines.len()
        invariant
            i <= lines@.len(),
            lines@.len() > 0,
            all == texts(lines@),
            total == total_bytes(all.take(i as int)),
            total <= MAX_CAPTURE_BYTES,
            grid_lines(all.take(i as int)) matches Ok(inputs) && inputs_of(ops@) == start + inputs,
        decreases lines@.len() - i,
    {
        let ghost head = all.take(i + 1);
        let ghost done = grid_lines(all.take(i as int))->Ok_0;
        proof {
            assert(head.drop_last() =~= all.take(i as int));
            assert(head.last() == lines@[i as int]@);
            grid_prefix(all, i + 1);
        }
        let bytes = lines[i].as_str().as_bytes();
        if bytes.len() > MAX_CAPTURE_BYTES - total {
            return Err(Error::CaptureTooLarge);
        }
        total = total + bytes.len();
        if i != 0 {
            push_text(ops, "\r\n");
            assert(inputs_of(ops@) =~= start + done.push(typed("\r\n"@)));
        }
        let ghost broken = if i != 0 {
            done.push(typed("\r\n"@))
        } else {
            done
        };
        match decode_escaped(bytes) {
            Ok(decoded) => {
                let ghost shown = decoded@;
                push_op(ops, Op::Bytes(decoded));
                assert(inputs_of(ops@) =~= start + broken.push(Input::Bytes(shown)));
            },
            Err(error) => return Err(error),
        }
        i += 1;
    }
    assert(all.take(i as int) =~= all);
    Ok(())
}

/// An error in the first lines of a grid is the error of the grid.
proof fn grid_prefix(lines: Seq<Seq<char>>, n: int)
    requires
        0 <= n <= lines.len(),
    ensures
        grid_lines(lines.take(n)) is Err ==> grid_lines(lines) == grid_lines(lines.take(n)),
    decreases lines.len() - n,
{
    if n == lines.len() {
        assert(lines.take(n) =~= lines);
    } else {
        grid_prefix(lines, n + 1);
        assert(lines.take(n + 1).drop_last() =~= lines.take(n));
    }
}

fn push_switch(ops: &mut Vec<Op>, prefix: &str, on: bool)
    ensures
        inputs_of(final(ops)@) == inputs_of(old(ops)@).push(mode_switch(prefix@, on)),
{
    let mut text = String::new();
    text.append("\x1b[");
    text.append(prefix);
    let suffix = if on {
        "h"
    } else {
        "l"
    };
    text.append(suffix);
    assert(text@ =~= "\x1b["@ + prefix@ + (if on {
        "h"@
    } else {
        "l"@
    }));
    push_text(ops, text.as_str());
}

fn push_tabs(ops: &mut Vec<Op>, tabs: &Vec<usize>)
    requires
        forall|i: int| 0 <= i < tabs@.len() ==> #[trigger] tabs@[i] < usize::MAX,
    ensures
        inputs_of(final(ops)@) == inputs_of(old(ops)@) + tab_inputs(naturals(tabs@)),
{
    let ghost all = naturals(tabs@);
    let ghost start = inputs_of(ops@);
    let mut i: usize = 0;
    assert(all.take(0) =~= Seq::<nat>::empty());
    assert(inputs_of(ops@) =~= start + tab_inputs(all.take(0)));
    while i < tabs.len()
        invariant
            i <= tabs@.len(),
            all == naturals(tabs@),
            forall|j: int| 0 <= j < tabs@.len() ==> #[trigger] tabs@[j] < usize::MAX,
            inputs_of(ops@) == start + tab_inputs(all.take(i as int)),
        decreases tabs@.len() - i,
    {
        let mut text = String::new();
        text.append("\x1b[1;");
        push_decimal(&mut text, (tabs[i] + 1) as u64);
        text.append("H\x1bH");
        push_text(ops, text.as_str());
        i += 1;
        proof {
            assert(all.take(i as int).drop_last() =~= all.take(i - 1));
            assert(all.take(i as int).last() == tabs@[i - 1] as nat);
            assert(inputs_of(ops@) =~= start + tab_inputs(all.take(i as int)));
        }
    }
    assert(all.take(i as int) =~= all);
}

proof fn push_behind(start: Seq<Input>, run: Seq<Input>, input: Input)
    ensures
        (start + run).push(input) == start + run.push(input),
{
    assert((start + run).push(input) =~= start + run.push(input));
}

/// Push one switch behind what was pushed since `start`.
fn push_next_switch(ops: &mut Vec<Op>, prefix: &str, on: bool, start: Ghost<Seq<Input>>, run: Ghost<Seq<Input>>)
    requires
        inputs_of(old(ops)@) == start@ + run@,
    ensures
        inputs_of(final(ops)@) == start@ + run@.push(mode_switch(prefix@, on)),
{
    push_switch(ops, prefix, on);
    proof {
        push_behind(start@, run@, mode_switch(prefix@, on));
    }
}

fn push_modes(ops: &mut Vec<Op>, state: &State)
    requires
        coherent(state@),
    ensures
        inputs_of(final(ops)@) == inputs_of(old(ops)@) + mode_inputs(state@),
{
    let ghost start = inputs_of(ops@);
    let ghost f = state@;
    push_text(ops, "\x1b[0m\x0f\x1b[3g");
    proof {
        assert forall|i: int| 0 <= i < state.tabs@.len() implies #[trigger] state.tabs@[i]
            < usize::MAX by {
            assert(f.tabs[i] < f.columns);
        }
    }
    push_tabs(ops, &state.tabs);
    let ghost tabbed = seq![typed("\x1b[0m\x0f\x1b[3g"@)] + tab_inputs(f.tabs);
    assert(inputs_of(ops@) =~= start + tabbed);
    let mut region = String::new();
    region.append("\x1b[");
    push_decimal(&mut region, (state.scroll_region.0 + 1) as u64);
    region.append(";");
    push_decimal(&mut region, (state.scroll_region.1 + 1) as u64);
    region.append("r");
    push_text(ops, region.as_str());
    let ghost r0 = tabbed.push(typed(region@));
    proof {
        push_behind(start, tabbed, typed(region@));
    }
    push_next_switch(ops, "?25", state.modes[0], Ghost(start), Ghost(r0));
    let ghost r1 = r0.push(mode_switch("?25"@, f.modes[0]));
    push_next_switch(ops, "4", state.modes[1], Ghost(start), Ghost(r1));
    let ghost r2 = r1.push(mode_switch("4"@, f.modes[1]));
    push_next_switch(ops, "?1", state.modes[2], Ghost(start), Ghost(r2));
    let ghost r3 = r2.push(mode_switch("?1"@, f.modes[2]));
    push_next_switch(ops, "?7", state.modes[4], Ghost(start), Ghost(r3));
    let ghost r4 = r3.push(mode_switch("?7"@, f.modes[4]));
    push_next_switch(ops, "?1000", state.modes[5], Ghost(start), Ghost(r4));
    let ghost r5 = r4.push(mode_switch("?1000"@, f.modes[5]));
    push_next_switch(ops, "?1002", state.modes[6], Ghost(start), Ghost(r5));
    let ghost r6 = r5.push(mode_switch("?1002"@, f.modes[6]));
    push_next_switch(ops, "?1003", state.modes[7], Ghost(start), Ghost(r6));
    let ghost r7 = r6.push(mode_switch("?1003"@, f.modes[7]));
    push_next_switch(ops, "?1005", state.modes[8], Ghost(start), Ghost(r7));
    let ghost r8 = r7.push(mode_switch("?1005"@, f.modes[8]));
    push_next_switch(ops, "?1006", state.modes[9], Ghost(start), Ghost(r8));
    let ghost mut run = r8.push(mode_switch("?1006"@, f.modes[9]));
    if let Some(enabled) = state.bracketed_paste {
        push_next_switch(ops, "?2004", enabled, Ghost(start), Ghost(run));
        proof {
            run = run.push(mode_switch("?2004"@, enabled));
        }
    }
    let keypad = if state.modes[3] {
        "\x1b="
    } else {
        "\x1b>"
    };
    push_text(ops, keypad);
    push_op(ops, Op::Cursor(state.cursor.0, state.cursor.1));
    proof {
        push_behind(start, run, typed(keypad@));
        push_behind(
            start,
            run.push(typed(keypad@)),
            Input::Cursor(f.cursor.0, f.cursor.1),
        );
    }
}

pub(crate) fn restore_ops(
    state: &State,
    active: &[String],
    saved: &[String],
    pending: &[String],
) -> (r: Result<Vec<Op>, Error>)
    requires
        coherent(state@),
    ensures
        match restore_inputs(state@, texts(active@), texts(saved@), texts(pending@)) {
            Ok(inputs) => r matches Ok(ops) && inputs_of(ops@) == inputs,
            Err(error) => r == Err::<Vec<Op>, Error>(error),
        },
{
    let mut ops: Vec<Op> = Vec::new();
    reveal(restore_inputs);
    assert(inputs_of(ops@) =~= Seq::<Input>::empty());
    if state.alternate {
        push_grid(&mut ops, saved)?;
        proof {
            let inputs = grid_inputs(texts(saved@))->Ok_0;
            assert(inputs_of(ops@) =~= inputs);
        }
        push_op(&mut ops, Op::Cursor(state.saved_cursor.0, state.saved_cursor.1));
        push_text(&mut ops, "\x1b[?1049h");
    } else {
        let mut i: usize = 0;
        while i < saved.len()
            invariant
                i <= saved@.len(),
                !state.alternate,
                forall|j: int| 0 <= j < i ==> (#[trigger] texts(saved@)[j]).len() == 0,
            decreases saved@.len() - i,
        {
            if !saved[i].as_str().is_empty() {
                assert(texts(saved@)[i as int].len() > 0);
                reveal(restore_inputs);
                return Err(Error::SavedGrid);
            }
            i += 1;
        }
    }
    let ghost primary = inputs_of(ops@);
    push_grid(&mut ops, active)?;
    push_modes(&mut ops, state);
    if pending.len() > 1 {
        return Err(Error::PendingLines);
    }
    if pending.len() == 1 {
        assert(texts(pending@)[0] == pending@[0]@);
        let bytes = decode_escaped(pending[0].as_str().as_bytes())?;
        push_op(&mut ops, Op::Bytes(bytes));
    }
    Ok(ops)
}

/// Every run of bytes suits a terminal of so many columns.
pub open spec fn all_feedable(columns: int, inputs: Seq<Input>) -> bool {
    forall|i: int|
        0 <= i < inputs.len() ==> (#[trigger] inputs[i] matches Input::Bytes(bytes) ==> feedable(
            columns,
            bytes,
        ))
}

/// Every cursor is put inside of the terminal.
spec fn all_placed(columns: nat, rows: nat, inputs: Seq<Input>) -> bool {
    forall|i: int|
        0 <= i < inputs.len() ==> (#[trigger] inputs[i] matches Input::Cursor(column, row)
            ==> column <= columns && row < rows)
}

proof fn grid_has_no_cursor(lines: Seq<Seq<char>>)
    ensures
        grid_lines(lines) matches Ok(inputs) ==> forall|i: int|
            0 <= i < inputs.len() ==> #[trigger] inputs[i] is Bytes,
    decreases lines.len(),
{
    if lines.len() > 0 {
        grid_has_no_cursor(lines.drop_last());
    }
}

proof fn tabs_have_no_cursor(tabs: Seq<nat>)
    ensures
        forall|i: int|
            0 <= i < tab_inputs(tabs).len() ==> #[trigger] tab_inputs(tabs)[i] is Bytes,
    decreases tabs.len(),
{
    if tabs.len() > 0 {
        tabs_have_no_cursor(tabs.drop_last());
    }
}

proof fn restored_cursors_are_placed(
    f: Facts,
    active: Seq<Seq<char>>,
    saved: Seq<Seq<char>>,
    pending: Seq<Seq<char>>,
)
    requires
        coherent(f),
    ensures
        restore_inputs(f, active, saved, pending) matches Ok(inputs) ==> all_placed(
            f.columns,
            f.rows,
            inputs,
        ),
{
    reveal(restore_inputs);
    grid_has_no_cursor(active);
    grid_has_no_cursor(saved);
    tabs_have_no_cursor(f.tabs);
    let modes = mode_inputs(f);
    assert(all_placed(f.columns, f.rows, modes)) by {
        let head = seq![typed("\x1b[0m\x0f\x1b[3g"@)] + tab_inputs(f.tabs);
        assert forall|i: int| 0 <= i < modes.len() implies (#[trigger] modes[i] matches
            Input::Cursor(column, row) ==> column <= f.columns && row < f.rows) by {
            assert(modes.len() > head.len());
            if i < head.len() {
                assert(modes[i] == head[i]);
                if i > 0 {
                    assert(head[i] == tab_inputs(f.tabs)[i - 1]);
                }
            }
        }
    }
}

/// A reconstructed, read-only pane. `state` describes the capture boundary;
/// obtain the current cursor and active screen from `terminal`.
pub struct Pane {
    pub state: State,
    pub terminal: Terminal,
    pub history_may_be_truncated: bool,
}

impl Pane {
    pub open spec fn wf(self) -> bool {
        self.terminal.wf() && self.terminal.spec_size() == self.state.size
    }

    pub fn restore(
        state: State,
        active: &[String],
        saved: &[String],
        pending: &[String],
        history_lines: usize,
    ) -> (r: Result<Self, Error>)
        requires
            coherent(state@),
            restore_inputs(state@, texts(active@), texts(saved@), texts(pending@)) matches Ok(
                inputs,
            ) ==> all_feedable(state@.columns as int, inputs),
        ensures
            if history_lines > MAX_HISTORY_LINES {
                r == Err::<Pane, Error>(Error::History)
            } else {
                match restore_inputs(state@, texts(active@), texts(saved@), texts(pending@)) {
                    Err(error) => r == Err::<Pane, Error>(error),
                    Ok(inputs) => {
                        &&& r matches Ok(pane)
                        &&& pane.wf()
                        &&& pane.state == state
                        &&& pane.terminal.inputs() == inputs
                        &&& pane.terminal.shape().history == crate::terminal::kept_history(
                            state@.columns as int,
                            state@.rows as int,
                            history_lines as int,
                        )
                        &&& pane.history_may_be_truncated == (state@.alternate
                            || state@.history_size > pane.terminal.shape().history)
                    },
                }
            },
    {
        if history_lines > MAX_HISTORY_LINES {
            return Err(Error::History);
        }
        let ops = restore_ops(&state, active, saved, pending)?;
        let mut terminal = Terminal::new(state.size, history_lines);
        let ghost inputs = inputs_of(ops@);
        proof {
            restored_cursors_are_placed(
                state@,
                texts(active@),
                texts(saved@),
                texts(pending@),
            );
        }
        let mut i: usize = 0;
        let ghost shape = terminal.shape();
        assert(inputs.take(0) =~= Seq::<Input>::empty());
        while i < ops.len()
            invariant
                i <= ops@.len(),
                inputs == inputs_of(ops@),
                terminal.wf(),
                terminal.shape() == shape,
                terminal.spec_size() == state.size,
                all_feedable(state@.columns as int, inputs),
                all_placed(state@.columns, state@.rows, inputs),
                coherent(state@),
                terminal.inputs() == inputs.take(i as int),
            decreases ops@.len() - i,
        {
            assert(inputs[i as int] == ops@[i as int]@);
            match &ops[i] {
                Op::Bytes(bytes) => terminal.feed(bytes.as_slice()),
                Op::Cursor(column, row) => terminal.restore_cursor(*column, *row),
            }
            i += 1;
            assert(inputs.take(i as int) =~= inputs.take(i - 1).push(inputs[i - 1]));
        }
        assert(inputs.take(i as int) =~= inputs);
        let history_may_be_truncated = state.alternate || state.history_size
            > terminal.history_capacity();
        Ok(Pane { state, terminal, history_may_be_truncated })
    }
}

/// The cells that terminals for these panes may allocate.
pub open spec fn session_cells(states: Seq<Facts>, history: int) -> int
    decreases states.len(),
{
    if states.len() == 0 {
        0
    } else {
        session_cells(states.drop_last(), history) + cell_ceiling(
            states.last().columns as int,
            states.last().rows as int,
            history,
        )
    }
}

/// The last number also stands further up.
pub open spec fn last_repeats(panes: Seq<nat>) -> bool {
    exists|j: int| 0 <= j < panes.len() - 1 && #[trigger] panes[j] == panes.last()
}

pub open spec fn facts_panes(states: Seq<Facts>) -> Seq<nat> {
    states.map_values(|f: Facts| f.pane)
}

pub open spec fn facts_of(states: Seq<State>) -> Seq<Facts> {
    states.map_values(|s: State| s@)
}

/// The first pane that does not fit, from the left: one that came before, or one
/// with which the cells are too many.
pub open spec fn budget_error(states: Seq<Facts>, history: int) -> Option<Error>
    decreases states.len(),
{
    if states.len() == 0 {
        None
    } else if budget_error(states.drop_last(), history) is Some {
        budget_error(states.drop_last(), history)
    } else if last_repeats(facts_panes(states)) {
        Some(Error::DuplicatePane)
    } else if session_cells(states, history) > MAX_SESSION_CELLS {
        Some(Error::CellBudget)
    } else {
        None
    }
}

proof fn budget_prefix(states: Seq<Facts>, history: int, n: int)
    requires
        0 <= n <= states.len(),
    ensures
        budget_error(states.take(n), history) is Some ==> budget_error(states, history)
            == budget_error(states.take(n), history),
    decreases states.len() - n,
{
    if n == states.len() {
        assert(states.take(n) =~= states);
    } else {
        budget_prefix(states, history, n + 1);
        assert(states.take(n + 1).drop_last() =~= states.take(n));
    }
}

/// What a session has to fit into before anything is allocated for it.
pub open spec fn session_error(states: Seq<Facts>, history: int) -> Option<Error> {
    if history > MAX_HISTORY_LINES {
        Some(Error::History)
    } else if states.len() == 0 || states.len() > MAX_PANES {
        Some(Error::PaneCount)
    } else {
        budget_error(states, history)
    }
}

/// Check the complete session budget before allocating any replacement grids.
pub fn validate_budget(states: &[State], history: usize) -> (r: Result<(), Error>)
    ensures
        r == match session_error(facts_of(states@), history as int) {
            Some(error) => Err::<(), Error>(error),
            None => Ok(()),
        },
{
    if history > MAX_HISTORY_LINES {
        return Err(Error::History);
    }
    if states.len() == 0 || states.len() > MAX_PANES {
        return Err(Error::PaneCount);
    }
    let ghost facts = facts_of(states@);
    let mut cells: usize = 0;
    let mut i: usize = 0;
    while i < states.len()
        invariant
            i <= states@.len(),
            0 < states@.len() <= MAX_PANES,
            facts == facts_of(states@),
            history <= MAX_HISTORY_LINES,
            cells == session_cells(facts.take(i as int), history as int),
            cells <= MAX_SESSION_CELLS,
            budget_error(facts.take(i as int), history as int) is None,
        decreases states@.len() - i,
    {
        let ghost head = facts.take(i + 1);
        proof {
            assert(head.drop_last() =~= facts.take(i as int));
            assert(head.last() == states@[i as int]@);
            budget_prefix(facts, history as int, i + 1);
        }
        let mut j: usize = 0;
        while j < i
            invariant
                j <= i < states@.len(),
                facts == facts_of(states@),
                head == facts.take(i + 1),
                budget_error(head, history as int) is Some ==> budget_error(facts, history as int)
                    == budget_error(head, history as int),
                budget_error(head.drop_last(), history as int) is None,
                0 < states@.len() <= MAX_PANES,
                history <= MAX_HISTORY_LINES,
                forall|k: int| 0 <= k < j ==> #[trigger] states@[k].pane != states@[i as int].pane,
            decreases i - j,
        {
            if states[j].pane == states[i].pane {
                assert(facts_panes(head)[j as int] == facts_panes(head).last());
                return Err(Error::DuplicatePane);
            }
            j += 1;
        }
        proof {
            if last_repeats(facts_panes(head)) {
                let k = choose|k: int|
                    0 <= k < head.len() - 1 && #[trigger] facts_panes(head)[k] == facts_panes(
                        head,
                    ).last();
                assert(states@[k].pane == states@[i as int].pane);
            }
        }
        let more = Terminal::estimated_cells(states[i].size, history);
        if more > MAX_SESSION_CELLS - cells {
            return Err(Error::CellBudget);
        }
        cells = cells + more;
        i += 1;
    }
    assert(facts.take(i as int) =~= facts);
    Ok(())
}

#[derive(Clone, Copy, Debug, PartialEq, Eq, Structural)]
pub enum Status {
    Watching,
    NeedsResync,
    Disconnected,
}

/// Published models. Invalidated views remain readable.
pub struct View {
    pub session: SessionId,
    panes: Vec<Pane>,
    status: Status,
}

/// The cells that the terminals of these panes may allocate.
pub open spec fn pane_cells(panes: Seq<Pane>) -> int
    decreases panes.len(),
{
    if panes.len() == 0 {
        0
    } else {
        pane_cells(panes.drop_last()) + panes.last().terminal.columns() * (2
            * panes.last().terminal.rows() + panes.last().terminal.shape().history)
    }
}

pub open spec fn pane_ids(panes: Seq<Pane>) -> Seq<nat> {
    panes.map_values(|p: Pane| p.state.pane.0 as nat)
}

/// The first pane that does not fit, from the left: one with which the cells are
/// too many, or one that came before.
pub open spec fn view_error(panes: Seq<Pane>) -> Option<Error>
    decreases panes.len(),
{
    if panes.len() == 0 {
        None
    } else if view_error(panes.drop_last()) is Some {
        view_error(panes.drop_last())
    } else if pane_cells(panes) > MAX_SESSION_CELLS {
        Some(Error::CellBudget)
    } else if last_repeats(pane_ids(panes)) {
        Some(Error::DuplicatePane)
    } else {
        None
    }
}

proof fn view_prefix(panes: Seq<Pane>, n: int)
    requires
        0 <= n <= panes.len(),
    ensures
        view_error(panes.take(n)) is Some ==> view_error(panes) == view_error(panes.take(n)),
    decreases panes.len() - n,
{
    if n == panes.len() {
        assert(panes.take(n) =~= panes);
    } else {
        view_prefix(panes, n + 1);
        assert(panes.take(n + 1).drop_last() =~= panes.take(n));
    }
}

pub proof fn accepted_panes_differ(panes: Seq<Pane>, i: int, j: int)
    requires
        view_error(panes) is None,
        0 <= i < j < panes.len(),
    ensures
        panes[i].state.pane != panes[j].state.pane,
    decreases panes.len(),
{
    if j == panes.len() - 1 {
        assert(pane_ids(panes)[i] == panes[i].state.pane.0 as nat);
        assert(pane_ids(panes).last() == panes[j].state.pane.0 as nat);
    } else {
        accepted_panes_differ(panes.drop_last(), i, j);
        assert(panes.drop_last()[i] == panes[i]);
        assert(panes.drop_last()[j] == panes[j]);
    }
}

/// Panes in the order of their numbers, each only once.
pub open spec fn sorted_panes(panes: Seq<Pane>) -> bool {
    forall|i: int, j: int|
        0 <= i < j < panes.len() ==> (#[trigger] panes[i]).state.pane.0 < (
        #[trigger] panes[j]).state.pane.0
}

/// A notification behind which the models can no longer be trusted: topology or
/// geometry changed, or output was withheld.
pub open spec fn needs_resync(n: Notification) -> bool {
    ||| n is LayoutChange
    ||| n is WindowAdd
    ||| n is WindowClose
    ||| n is Pause
    ||| n is Continue
    ||| n is SessionChanged
    ||| n is Unknown
}

/// The output that a notification carries.
pub open spec fn output_of(n: Notification) -> Option<(PaneId, Seq<u8>)> {
    match n {
        Notification::Output { pane, bytes } => Some((pane, bytes@)),
        Notification::ExtendedOutput { pane, bytes } => Some((pane, bytes@)),
        _ => None,
    }
}

/// What a pane is known by.
pub struct PaneModel {
    pub facts: Facts,
    pub shape: Shape,
    pub inputs: Seq<Input>,
    pub truncated: bool,
}

/// What a view is known by.
pub struct Models {
    pub status: Status,
    pub panes: Seq<PaneModel>,
}

pub open spec fn model_of(pane: Pane) -> PaneModel {
    PaneModel {
        facts: pane.state@,
        shape: pane.terminal.shape(),
        inputs: pane.terminal.inputs(),
        truncated: pane.history_may_be_truncated,
    }
}

pub open spec fn models_of(panes: Seq<Pane>) -> Seq<PaneModel> {
    panes.map_values(|p: Pane| model_of(p))
}

/// The place of a pane, or -1.
pub open spec fn pane_index(panes: Seq<PaneModel>, pane: PaneId) -> int
    decreases panes.len(),
{
    if panes.len() == 0 {
        -1
    } else if panes.last().facts.pane == pane.0 {
        panes.len() - 1
    } else {
        pane_index(panes.drop_last(), pane)
    }
}

pub proof fn pane_index_facts(panes: Seq<PaneModel>, pane: PaneId)
    ensures
        -1 <= pane_index(panes, pane) < panes.len(),
        pane_index(panes, pane) >= 0 ==> panes[pane_index(panes, pane)].facts.pane == pane.0,
        pane_index(panes, pane) == -1 ==> forall|i: int|
            0 <= i < panes.len() ==> (#[trigger] panes[i]).facts.pane != pane.0,
    decreases panes.len(),
{
    if panes.len() > 0 && panes.last().facts.pane != pane.0 {
        pane_index_facts(panes.drop_last(), pane);
        assert forall|i: int|
            pane_index(panes, pane) == -1 && 0 <= i < panes.len() implies (
        #[trigger] panes[i]).facts.pane != pane.0 by {
            if i < panes.len() - 1 {
                assert(panes.drop_last()[i] == panes[i]);
            }
        }
    }
}

/// One more run of bytes for a pane.
pub open spec fn with_bytes(pane: PaneModel, bytes: Seq<u8>) -> PaneModel {
    PaneModel { inputs: pane.inputs.push(Input::Bytes(bytes)), ..pane }
}

/// The effect of one notification. A detach stays observable even if the models
/// were invalidated before it. Output goes to its pane while the models are
/// current and is ignored from then on; dimensions are never guessed.
pub open spec fn applied(m: Models, n: Notification) -> Models {
    if n is Exit {
        Models { status: Status::Disconnected, ..m }
    } else if m.status != Status::Watching {
        m
    } else if needs_resync(n) {
        Models { status: Status::NeedsResync, ..m }
    } else {
        match output_of(n) {
            None => m,
            Some((pane, bytes)) => {
                let i = pane_index(m.panes, pane);
                if i < 0 {
                    Models { status: Status::NeedsResync, ..m }
                } else {
                    Models { panes: m.panes.update(i, with_bytes(m.panes[i], bytes)), ..m }
                }
            },
        }
    }
}

/// The effect of many notifications, in order.
pub open spec fn applied_all(m: Models, notes: Seq<Notification>) -> Models
    decreases notes.len(),
{
    if notes.len() == 0 {
        m
    } else {
        applied(applied_all(m, notes.drop_last()), notes.last())
    }
}

/// A notification whose output, if any, suits the pane it is for.
pub open spec fn takes_output(m: Models, n: Notification) -> bool {
    m.status == Status::Watching ==> (output_of(n) matches Some((pane, bytes)) ==> pane_index(
        m.panes,
        pane,
    ) >= 0 ==> feedable(m.panes[pane_index(m.panes, pane)].shape.columns as int, bytes))
}

/// A notification takes a view from one state to the next as follows. A detach
/// disconnects it, from any state, and changes no pane. Nothing else moves a view
/// that is no longer current. From a current view, what may change the panes, and
/// output for a pane that it does not hold, asks for a fresh snapshot and changes
/// no pane; output for a pane that it holds is added to that pane alone; what is left
/// has no effect. The panes stay the same ones in every case, and a view that is
/// current was current before.
pub proof fn notifications_drive_the_status(m: Models, n: Notification)
    ensures
        n is Exit ==> applied(m, n) == (Models { status: Status::Disconnected, ..m }),
        !(n is Exit) && m.status != Status::Watching ==> applied(m, n) == m,
        m.status == Status::Watching && needs_resync(n) ==> applied(m, n) == (Models {
            status: Status::NeedsResync,
            ..m
        }),
        m.status == Status::Watching ==> (output_of(n) matches Some((pane, bytes)) ==> (forall|i: int|
            0 <= i < m.panes.len() ==> (#[trigger] m.panes[i]).facts.pane != pane.0) ==> applied(
            m,
            n,
        ) == (Models { status: Status::NeedsResync, ..m })),
        m.status == Status::Watching ==> (output_of(n) matches Some((pane, bytes)) ==> (exists|i: int|
            0 <= i < m.panes.len() && (#[trigger] m.panes[i]).facts.pane == pane.0) ==> ({
            let i = pane_index(m.panes, pane);
            &&& 0 <= i < m.panes.len()
            &&& m.panes[i].facts.pane == pane.0
            &&& applied(m, n) == Models {
                panes: m.panes.update(i, with_bytes(m.panes[i], bytes)),
                ..m
            }
        })),
        m.status == Status::Watching && !(n is Exit) && !needs_resync(n) && output_of(n) is None
            ==> applied(m, n) == m,
        applied(m, n).status == Status::Watching ==> m.status == Status::Watching && !(n is Exit),
        m.status == Status::Disconnected ==> applied(m, n).status == Status::Disconnected,
        applied(m, n).panes.len() == m.panes.len(),
        forall|i: int|
            0 <= i < m.panes.len() ==> (#[trigger] applied(m, n).panes[i]).facts
                == m.panes[i].facts,
{
    if let Some((pane, bytes)) = output_of(n) {
        pane_index_facts(m.panes, pane);
    }
}

/// Models that are no longer current stay as they are, whatever comes.
pub proof fn invalidated_models_are_frozen(m: Models, notes: Seq<Notification>)
    requires
        m.status != Status::Watching,
    ensures
        applied_all(m, notes).panes == m.panes,
        applied_all(m, notes).status != Status::Watching,
    decreases notes.len(),
{
    if notes.len() > 0 {
        invalidated_models_are_frozen(m, notes.drop_last());
    }
}

/// A detach is observed wherever it stands among the notifications.
pub proof fn exit_is_observed(m: Models, notes: Seq<Notification>, i: int)
    requires
        0 <= i < notes.len(),
        notes[i] is Exit,
    ensures
        applied_all(m, notes).status == Status::Disconnected,
    decreases notes.len(),
{
    if i < notes.len() - 1 {
        assert(notes.drop_last()[i] == notes[i]);
        exit_is_observed(m, notes.drop_last(), i);
    }
}

/// Notifications never add, drop or reorder panes, and never change their shape.
pub proof fn topology_is_never_guessed(m: Models, notes: Seq<Notification>)
    ensures
        applied_all(m, notes).panes.len() == m.panes.len(),
        forall|i: int|
            0 <= i < m.panes.len() ==> (#[trigger] applied_all(m, notes).panes[i]).facts
                == m.panes[i].facts && applied_all(m, notes).panes[i].shape == m.panes[i].shape,
    decreases notes.len(),
{
    if notes.len() > 0 {
        topology_is_never_guessed(m, notes.drop_last());
        let before = applied_all(m, notes.drop_last());
        if let Some((pane, bytes)) = output_of(notes.last()) {
            pane_index_facts(before.panes, pane);
        }
        assert forall|i: int| 0 <= i < m.panes.len() implies (#[trigger] applied_all(
            m,
            notes,
        ).panes[i]).facts == m.panes[i].facts && applied_all(m, notes).panes[i].shape
            == m.panes[i].shape by {
            assert(before.panes[i].facts == m.panes[i].facts);
        }
    }
}

/// A notification whose output, if any, suits the pane it is for, whether or not
/// that pane is current.
pub open spec fn suits(panes: Seq<PaneModel>, n: Notification) -> bool {
    output_of(n) matches Some((pane, bytes)) ==> pane_index(panes, pane) >= 0 ==> feedable(
        panes[pane_index(panes, pane)].shape.columns as int,
        bytes,
    )
}

proof fn places_are_kept(a: Seq<PaneModel>, b: Seq<PaneModel>, pane: PaneId)
    requires
        a.len() == b.len(),
        forall|i: int| 0 <= i < a.len() ==> (#[trigger] a[i]).facts == b[i].facts,
    ensures
        pane_index(a, pane) == pane_index(b, pane),
    decreases a.len(),
{
    if a.len() > 0 {
        let x = a.drop_last();
        let y = b.drop_last();
        assert forall|i: int| 0 <= i < x.len() implies (#[trigger] x[i]).facts == y[i].facts by {
            assert(a[i].facts == b[i].facts);
        }
        places_are_kept(x, y, pane);
        assert(a[a.len() - 1].facts == b[b.len() - 1].facts);
    }
}

/// What suits the panes of a view suits them after any other notification.
pub proof fn suits_is_kept(m: Models, notes: Seq<Notification>, n: Notification)
    requires
        suits(m.panes, n),
    ensures
        suits(applied_all(m, notes).panes, n),
        takes_output(applied_all(m, notes), n),
{
    topology_is_never_guessed(m, notes);
    let later = applied_all(m, notes);
    if let Some((pane, bytes)) = output_of(n) {
        assert forall|i: int| 0 <= i < later.panes.len() implies (#[trigger] later.panes[i]).facts
            == m.panes[i].facts by {}
        places_are_kept(later.panes, m.panes, pane);
        pane_index_facts(m.panes, pane);
    }
}

impl View {
    pub closed spec fn spec_panes(self) -> Seq<Pane> {
        self.panes@
    }

    pub closed spec fn spec_session(self) -> SessionId {
        self.session
    }

    pub closed spec fn spec_status(self) -> Status {
        self.status
    }

    pub open spec fn models(self) -> Models {
        Models { status: self.spec_status(), panes: models_of(self.spec_panes()) }
    }

    pub open spec fn wf(self) -> bool {
        &&& sorted_panes(self.spec_panes())
        &&& forall|i: int| 0 <= i < self.spec_panes().len() ==> (#[trigger] self.spec_panes()[i]).wf()
    }

    pub fn new(session: SessionId, panes: Vec<Pane>) -> (r: Result<Self, Error>)
        requires
            forall|i: int| 0 <= i < panes@.len() ==> (#[trigger] panes@[i]).wf(),
        ensures
            if panes@.len() == 0 || panes@.len() > MAX_PANES {
                r == Err::<View, Error>(Error::PaneCount)
            } else {
                match view_error(panes@) {
                    Some(error) => r == Err::<View, Error>(error),
                    None => {
                        &&& r matches Ok(view)
                        &&& view.wf()
                        &&& view.spec_session() == session
                        &&& view.spec_status() == Status::Watching
                        &&& view.spec_panes().len() == panes@.len()
                        &&& forall|i: int|
                            0 <= i < panes@.len() ==> view.spec_panes().contains(
                                #[trigger] panes@[i],
                            )
                    },
                }
            },
    {
        if panes.len() == 0 || panes.len() > MAX_PANES {
            return Err(Error::PaneCount);
        }
        let mut cells: usize = 0;
        let mut i: usize = 0;
        while i < panes.len()
            invariant
                i <= panes@.len(),
                0 < panes@.len() <= MAX_PANES,
                cells == pane_cells(panes@.take(i as int)),
                cells <= MAX_SESSION_CELLS,
                view_error(panes@.take(i as int)) is None,
                forall|k: int| 0 <= k < panes@.len() ==> (#[trigger] panes@[k]).wf(),
            decreases panes@.len() - i,
        {
            let ghost head = panes@.take(i + 1);
            proof {
                assert(head.drop_last() =~= panes@.take(i as int));
                view_prefix(panes@, i + 1);
            }
            let more = panes[i].terminal.cell_budget();
            if more > MAX_SESSION_CELLS - cells {
                return Err(Error::CellBudget);
            }
            cells = cells + more;
            let mut j: usize = 0;
            while j < i
                invariant
                    j <= i < panes@.len(),
                    head == panes@.take(i + 1),
                    0 < panes@.len() <= MAX_PANES,
                    view_error(head) is Some ==> view_error(panes@) == view_error(head),
                    view_error(head.drop_last()) is None,
                    pane_cells(head) <= MAX_SESSION_CELLS,
                    forall|k: int|
                        0 <= k < j ==> (#[trigger] panes@[k]).state.pane
                            != panes@[i as int].state.pane,
                decreases i - j,
            {
                if panes[j].state.pane == panes[i].state.pane {
                    assert(pane_ids(head)[j as int] == pane_ids(head).last());
                    return Err(Error::DuplicatePane);
                }
                j += 1;
            }
            proof {
                if last_repeats(pane_ids(head)) {
                    let k = choose|k: int|
                        0 <= k < head.len() - 1 && #[trigger] pane_ids(head)[k] == pane_ids(
                            head,
                        ).last();
                    assert(panes@[k].state.pane == panes@[i as int].state.pane);
                }
            }
            i += 1;
        }
        let ghost given = panes@;
        assert(given.take(i as int) =~= given);
        let mut left = panes;
        let mut placed: Vec<Pane> = Vec::new();
        while left.len() > 0
            invariant
                left@.len() <= given.len(),
                left@ == given.take(left@.len() as int),
                placed@.len() == given.len() - left@.len(),
                view_error(given) is None,
                sorted_panes(placed@),
                forall|k: int| 0 <= k < given.len() ==> (#[trigger] given[k]).wf(),
                forall|k: int| 0 <= k < placed@.len() ==> (#[trigger] placed@[k]).wf(),
                forall|k: int|
                    left@.len() <= k < given.len() ==> placed@.contains(#[trigger] given[k]),
                forall|k: int|
                    0 <= k < placed@.len() ==> exists|m: int|
                        left@.len() <= m < given.len() && given[m] == #[trigger] placed@[k],
            decreases left@.len(),
        {
            let ghost n = left@.len() - 1;
            let ghost before = placed@;
            let pane = left.pop().unwrap();
            let ghost shown = pane;
            assert(pane == given[n]);
            assert(given.take(n) =~= left@);
            let mut at: usize = 0;
            while at < placed.len() && placed[at].state.pane.0 < pane.state.pane.0
                invariant
                    at <= placed@.len(),
                    placed@ == before,
                    forall|k: int|
                        0 <= k < at ==> (#[trigger] placed@[k]).state.pane.0 < pane.state.pane.0,
                decreases placed@.len() - at,
            {
                at += 1;
            }
            proof {
                if at < before.len() {
                    let m = choose|m: int|
                        n + 1 <= m < given.len() && given[m] == #[trigger] before[at as int];
                    accepted_panes_differ(given, n, m);
                }
            }
            placed.insert(at, pane);
            proof {
                let after = placed@;
                assert(after =~= before.insert(at as int, shown));
                assert forall|a: int, b: int| 0 <= a < b < after.len() implies (
                #[trigger] after[a]).state.pane.0 < (#[trigger] after[b]).state.pane.0 by {
                    let x = if a < at {
                        a
                    } else {
                        a - 1
                    };
                    let y = if b < at {
                        b
                    } else {
                        b - 1
                    };
                    if a != at && b != at {
                        assert(after[a] == before[x] && after[b] == before[y]);
                    } else if a == at {
                        assert(after[b] == before[y]);
                        if y > at {
                            assert(before[at as int].state.pane.0 < before[y].state.pane.0);
                        }
                    } else {
                        assert(after[a] == before[x]);
                    }
                }
                assert forall|k: int| n <= k < given.len() implies after.contains(
                    #[trigger] given[k],
                ) by {
                    if k == n {
                        assert(after[at as int] == given[n]);
                    } else {
                        let z = choose|z: int| 0 <= z < before.len() && before[z] == given[k];
                        assert(after[if z < at {
                            z
                        } else {
                            z + 1
                        }] == given[k]);
                    }
                }
                assert forall|k: int| 0 <= k < after.len() implies exists|m: int|
                    n <= m < given.len() && given[m] == #[trigger] after[k] by {
                    if k == at {
                        assert(given[n] == after[k]);
                    } else {
                        let z = if k < at {
                            k
                        } else {
                            k - 1
                        };
                        assert(after[k] == before[z]);
                        let m = choose|m: int|
                            n + 1 <= m < given.len() && given[m] == #[trigger] before[z];
                        assert(given[m] == after[k]);
                    }
                }
                assert forall|k: int| 0 <= k < after.len() implies (#[trigger] after[k]).wf() by {
                    if k != at {
                        assert(after[k] == before[if k < at {
                            k
                        } else {
                            k - 1
                        }]);
                    }
                }
            }
        }
        Ok(View { session, panes: placed, status: Status::Watching })
    }

    /// The panes, in the order of their numbers.
    pub fn panes(&self) -> (r: &Vec<Pane>)
        ensures
            r@ == self.spec_panes(),
    {
        &self.panes
    }

    fn find(&self, pane: PaneId) -> (r: Option<usize>)
        ensures
            match r {
                Some(i) => i == pane_index(self.models().panes, pane) && i
                    < self.spec_panes().len(),
                None => pane_index(self.models().panes, pane) == -1,
            },
    {
        let ghost all = models_of(self.panes@);
        let mut i: usize = self.panes.len();
        assert(all.take(i as int) =~= all);
        while i > 0
            invariant
                i <= self.panes@.len(),
                all == models_of(self.panes@),
                pane_index(all.take(i as int), pane) == pane_index(all, pane),
            decreases i,
        {
            assert(all.take(i as int).drop_last() =~= all.take(i - 1));
            assert(all.take(i as int).last() == model_of(self.panes@[i - 1]));
            if self.panes[i - 1].state.pane == pane {
                return Some(i - 1);
            }
            i -= 1;
        }
        None
    }

    pub fn pane(&self, pane: PaneId) -> (r: Option<&Pane>)
        ensures
            match r {
                Some(found) => {
                    let i = pane_index(self.models().panes, pane);
                    0 <= i < self.spec_panes().len() && *found == self.spec_panes()[i]
                },
                None => pane_index(self.models().panes, pane) == -1,
            },
    {
        match self.find(pane) {
            Some(i) => Some(&self.panes[i]),
            None => None,
        }
    }

    pub fn session_id(&self) -> (r: SessionId)
        ensures
            r == self.spec_session(),
    {
        self.session
    }

    pub fn status(&self) -> (r: Status)
        ensures
            r == self.spec_status(),
    {
        self.status
    }

    pub fn disconnect(&mut self)
        ensures
            final(self).spec_status() == Status::Disconnected,
            final(self).spec_panes() == old(self).spec_panes(),
            final(self).spec_session() == old(self).spec_session(),
    {
        self.status = Status::Disconnected;
    }

    /// Stop trusting the models until the next snapshot.
    pub fn invalidate(&mut self)
        ensures
            final(self).spec_status() == if old(self).spec_status() == Status::Watching {
                Status::NeedsResync
            } else {
                old(self).spec_status()
            },
            final(self).spec_panes() == old(self).spec_panes(),
            final(self).spec_session() == old(self).spec_session(),
    {
        if self.status == Status::Watching {
            self.status = Status::NeedsResync;
        }
    }

    /// Take one notification.
    pub fn apply(&mut self, notification: Notification)
        requires
            old(self).wf(),
            takes_output(old(self).models(), notification),
        ensures
            final(self).wf(),
            final(self).spec_session() == old(self).spec_session(),
            final(self).models() == applied(old(self).models(), notification),
    {
        if let Notification::Exit(_) = &notification {
            self.status = Status::Disconnected;
            return ;
        }
        if self.status != Status::Watching {
            return ;
        }
        match notification {
            Notification::Output { pane, bytes } => self.write(pane, bytes.as_slice()),
            Notification::ExtendedOutput { pane, bytes } => self.write(pane, bytes.as_slice()),
            Notification::LayoutChange(_) => self.status = Status::NeedsResync,
            Notification::WindowAdd(_) => self.status = Status::NeedsResync,
            Notification::WindowClose(_) => self.status = Status::NeedsResync,
            Notification::Pause(_) => self.status = Status::NeedsResync,
            Notification::Continue(_) => self.status = Status::NeedsResync,
            Notification::SessionChanged(_) => self.status = Status::NeedsResync,
            Notification::Unknown(_) => self.status = Status::NeedsResync,
            _ => {},
        }
    }

    /// Whether a notification can be taken.
    pub fn suits(&self, notification: &Notification) -> (r: bool)
        requires
            self.wf(),
        ensures
            r == suits(self.models().panes, *notification),
    {
        let (pane, bytes) = match notification {
            Notification::Output { pane, bytes } => (*pane, bytes),
            Notification::ExtendedOutput { pane, bytes } => (*pane, bytes),
            _ => return true,
        };
        match self.find(pane) {
            None => true,
            Some(i) => {
                proof {
                    assert(models_of(self.panes@)[i as int] == model_of(self.panes@[i as int]));
                    assert(self.panes@[i as int].wf());
                    self.panes@[i as int].terminal.shape_is_size();
                }
                is_feedable(self.panes[i].terminal.size().columns(), bytes.as_slice())
            },
        }
    }

    /// Take notifications in their order.
    pub fn apply_all(&mut self, notifications: Vec<Notification>)
        requires
            old(self).wf(),
            forall|i: int|
                0 <= i < notifications@.len() ==> suits(
                    old(self).models().panes,
                    #[trigger] notifications@[i],
                ),
        ensures
            final(self).wf(),
            final(self).spec_session() == old(self).spec_session(),
            final(self).models() == applied_all(old(self).models(), notifications@),
    {
        let ghost notes = notifications@;
        let ghost start = self.models();
        let mut left = notifications;
        let ghost mut done: int = 0;
        proof {
            assert(notes.skip(0) =~= notes);
            assert(notes.take(0) =~= Seq::<Notification>::empty());
        }
        while left.len() > 0
            invariant
                0 <= done <= notes.len(),
                left@ == notes.skip(done),
                self.wf(),
                self.spec_session() == old(self).spec_session(),
                start == old(self).models(),
                self.models() == applied_all(start, notes.take(done)),
                forall|i: int| 0 <= i < notes.len() ==> suits(start.panes, #[trigger] notes[i]),
            decreases left@.len(),
        {
            let notification = left.remove(0);
            proof {
                assert(notification == notes[done]);
                assert(left@ =~= notes.skip(done + 1));
                assert(notes.take(done + 1).drop_last() =~= notes.take(done));
                suits_is_kept(start, notes.take(done), notes[done]);
            }
            self.apply(notification);
            proof {
                done = done + 1;
            }
        }
        proof {
            assert(notes.take(done) =~= notes);
        }
    }

    fn write(&mut self, pane: PaneId, bytes: &[u8])
        requires
            old(self).wf(),
            old(self).spec_status() == Status::Watching,
            ({
                let panes = old(self).models().panes;
                let i = pane_index(panes, pane);
                i >= 0 ==> feedable(panes[i].shape.columns as int, bytes@)
            }),
        ensures
            final(self).wf(),
            final(self).spec_session() == old(self).spec_session(),
            ({
                let m = old(self).models();
                let i = pane_index(m.panes, pane);
                final(self).models() == if i < 0 {
                    Models { status: Status::NeedsResync, ..m }
                } else {
                    Models { panes: m.panes.update(i, with_bytes(m.panes[i], bytes@)), ..m }
                }
            }),
    {
        let ghost before = self.panes@;
        match self.find(pane) {
            Some(i) => {
                assert(models_of(before)[i as int] == model_of(before[i as int]));
                assert(before[i as int].wf());
                proof {
                    before[i as int].terminal.shape_is_size();
                }
                self.panes[i].terminal.feed(bytes);
                proof {
                    let now = self.panes@;
                    assert(now =~= before.update(i as int, now[i as int]));
                    assert(models_of(now) =~= models_of(before).update(
                        i as int,
                        with_bytes(models_of(before)[i as int], bytes@),
                    ));
                    assert forall|k: int| 0 <= k < now.len() implies (#[trigger] now[k]).wf() by {
                        if k != i {
                            assert(now[k] == before[k]);
                        }
                    }
                    assert(sorted_panes(now)) by {
                        assert forall|a: int, b: int| 0 <= a < b < now.len() implies (
                        #[trigger] now[a]).state.pane.0 < (#[trigger] now[b]).state.pane.0 by {
                            assert(now[a].state.pane == before[a].state.pane);
                            assert(now[b].state.pane == before[b].state.pane);
                        }
                    }
                }
            },
            None => {
                self.status = Status::NeedsResync;
            },
        }
    }
}

} // verus!
