//! A pane model with no local PTY and no renderer.
//!
//! The cells themselves are kept by `alacritty_terminal`. Its parser has a
//! generic bound that cannot be declared here, so terminal and parser stand
//! together in one opaque struct. What that struct is known by is the shape it
//! was made with and the inputs it was given since, in order.
use alacritty_terminal::event::VoidListener;
use alacritty_terminal::grid::Dimensions;
use alacritty_terminal::index::{Column, Line, Point};
use alacritty_terminal::term::cell::Flags;
use alacritty_terminal::term::test::TermSize;
use alacritty_terminal::term::{Config, Osc52, Term, TermMode};
use alacritty_terminal::vte::ansi::Processor;
use vstd::prelude::*;
use vstd::slice::slice_subrange;
use vstd::string::*;

use crate::text::{chars_of, string_of, texts};
use crate::values::{valid_size, Size};

verus! {

pub const MAX_BUFFER_CELLS: usize = 131_072;

pub const MAX_HISTORY_LINES: usize = 10_000;

/// `alacritty_terminal`'s terminal, carried through to a renderer.
#[verifier::external_type_specification]
#[verifier::external_body]
#[verifier::reject_recursive_types(T)]
pub struct ExTerm<T>(Term<T>);

/// The listener that suppresses every device reply and side effect.
#[verifier::external_type_specification]
#[verifier::external_body]
pub struct ExVoidListener(VoidListener);

/// The grids of one terminal and the parser that feeds them.
#[verifier::external_body]
pub struct Model {
    term: Term<VoidListener>,
    parser: Processor,
}

/// One thing that was done to a terminal: a run of bytes, or the cursor put at a
/// column and a row.
pub enum Input {
    Bytes(Seq<u8>),
    Cursor(nat, nat),
}

/// Columns, rows and history lines that a terminal was made with.
pub struct Shape {
    pub columns: nat,
    pub rows: nat,
    pub history: nat,
}

/// The shape that the terminal was made with.
pub uninterp spec fn model_shape(model: Model) -> Shape;

/// What was done to the terminal since, in order.
pub uninterp spec fn model_inputs(model: Model) -> Seq<Input>;

/// `Term::bounds_to_string` of one whole row, of a terminal of this shape behind
/// these inputs.
pub uninterp spec fn row_string(shape: Shape, inputs: Seq<Input>, row: nat) -> Seq<char>;

/// `Term::mode` holds `ALT_SCREEN`, of a terminal of this shape behind these
/// inputs.
pub uninterp spec fn alternate_mode(shape: Shape, inputs: Seq<Input>) -> bool;

/// The last cell of the top row is a placeholder for a wide character that went
/// to the next row, of a terminal of this shape behind these inputs.
pub uninterp spec fn top_row_spacer(shape: Shape, inputs: Seq<Input>) -> bool;

/// Whether the first cell of a row is the second half of a wide character:
/// without its first half, which was deleted or written over.
pub uninterp spec fn row_starts_in_spacer(shape: Shape, inputs: Seq<Input>, row: nat) -> bool;

/// The rows above the active screen. The alternate screen has none.
pub uninterp spec fn history_rows(shape: Shape, inputs: Seq<Input>) -> nat;

/// A row that can be read. One that begins in the middle of a character cannot,
/// and a top row whose last character was moved to the next row takes the row
/// above it.
pub open spec fn readable(shape: Shape, inputs: Seq<Input>, row: nat) -> bool {
    &&& !row_starts_in_spacer(shape, inputs, row)
    &&& row == 0 && top_row_spacer(shape, inputs) ==> history_rows(shape, inputs) > 0
}

/// Every row can be read.
pub open spec fn all_readable(shape: Shape, inputs: Seq<Input>) -> bool {
    forall|row: nat| row < shape.rows ==> #[trigger] readable(shape, inputs, row)
}

/// The first two bytes of a character, where it or one of the characters that
/// begin with the same two takes up more than one cell. Below U+1100 there is none.
pub open spec fn may_be_wide(first: u8, second: u8) -> bool {
    ||| first == 0xe1 && (second == 0x84 || second == 0x85 || second == 0x9e || second == 0x9f)
    ||| first == 0xe2 && (second == 0x8c || second == 0x8f || 0x97 <= second <= 0x9e || second
        == 0xac || second == 0xad || second >= 0xba)
    ||| 0xe3 <= first <= 0xe9
    ||| first == 0xea && (second <= 0x93 || second == 0xa5 || second >= 0xb0)
    ||| first == 0xeb || first == 0xec
    ||| first == 0xed && second <= 0x9e
    ||| first == 0xef && (0xa4 <= second <= 0xab || second == 0xb8 || second == 0xb9 || second
        == 0xbc || second == 0xbd || second >= 0xbf)
    ||| first >= 0xf0
}

/// Bytes of which no character takes up more than one cell, whatever bytes come
/// before and behind them.
pub open spec fn narrow(bytes: Seq<u8>) -> bool {
    forall|i: int|
        0 <= i < bytes.len() && #[trigger] bytes[i] >= 0xe1 ==> i + 1 < bytes.len()
            && !may_be_wide(bytes[i], bytes[i + 1])
}

/// Bytes that a terminal of so many columns can take: a wide character does not
/// fit into a single column.
pub open spec fn feedable(columns: int, bytes: Seq<u8>) -> bool {
    columns >= 2 || narrow(bytes)
}

fn is_wide_pair(first: u8, second: u8) -> (r: bool)
    ensures
        r == may_be_wide(first, second),
{
    first == 0xe1 && (second == 0x84 || second == 0x85 || second == 0x9e || second == 0x9f)
        || first == 0xe2 && (second == 0x8c || second == 0x8f || (0x97 <= second && second <= 0x9e)
        || second == 0xac || second == 0xad || second >= 0xba) || (0xe3 <= first && first <= 0xe9)
        || first == 0xea && (second <= 0x93 || second == 0xa5 || second >= 0xb0) || first == 0xeb
        || first == 0xec || first == 0xed && second <= 0x9e || first == 0xef && ((0xa4 <= second
        && second <= 0xab) || second == 0xb8 || second == 0xb9 || second == 0xbc || second == 0xbd
        || second >= 0xbf) || first >= 0xf0
}

pub fn is_feedable(columns: usize, bytes: &[u8]) -> (r: bool)
    ensures
        r == feedable(columns as int, bytes@),
{
    if columns >= 2 {
        return true;
    }
    let mut i: usize = 0;
    while i < bytes.len()
        invariant
            i <= bytes.len(),
            columns < 2,
            forall|k: int|
                0 <= k < i && #[trigger] bytes@[k] >= 0xe1 ==> k + 1 < bytes@.len()
                    && !may_be_wide(bytes@[k], bytes@[k + 1]),
        decreases bytes.len() - i,
    {
        if bytes[i] >= 0xe1 && (i + 1 >= bytes.len() || is_wide_pair(bytes[i], bytes[i + 1])) {
            assert(bytes@[i as int] >= 0xe1);
            return false;
        }
        i += 1;
    }
    true
}

/// `Term::new` with clipboard access disabled, and `Processor::new`: a blank
/// terminal with this shape that nothing was done to.
#[verifier::external_body]
fn new_model(columns: usize, rows: usize, history: usize) -> (r: Model)
    requires
        valid_size(columns as int, rows as int),
        history <= MAX_HISTORY_LINES,
    ensures
        model_shape(r) == (Shape {
            columns: columns as nat,
            rows: rows as nat,
            history: history as nat,
        }),
        model_inputs(r) == Seq::<Input>::empty(),
{
    let config = Config {
        scrolling_history: history,
        osc52: Osc52::Disabled,
        ..Config::default()
    };
    let size = TermSize::new(columns, rows);
    Model { term: Term::new(config, &size, VoidListener), parser: Processor::new() }
}

/// `Processor::advance`: the bytes are the next thing done to the terminal.
#[verifier::external_body]
fn advance(model: &mut Model, bytes: &[u8])
    requires
        feedable(model_shape(*old(model)).columns as int, bytes@),
    ensures
        model_shape(*final(model)) == model_shape(*old(model)),
        model_inputs(*final(model)) == model_inputs(*old(model)).push(Input::Bytes(bytes@)),
{
    model.parser.advance(&mut model.term, bytes);
}

/// The public cursor of `Term::grid_mut`: it is put at the cell, and with
/// `wrap` the next character goes to the next row. The column is the last one
/// where `wrap` is set.
#[verifier::external_body]
fn put_cursor(model: &mut Model, column: usize, row: usize, wrap: bool)
    requires
        column < model_shape(*old(model)).columns,
        row < model_shape(*old(model)).rows,
        wrap ==> column + 1 == model_shape(*old(model)).columns,
    ensures
        model_shape(*final(model)) == model_shape(*old(model)),
        model_inputs(*final(model)) == model_inputs(*old(model)).push(
            Input::Cursor(
                if wrap {
                    column as nat + 1
                } else {
                    column as nat
                },
                row as nat,
            ),
        ),
{
    let cursor = &mut model.term.grid_mut().cursor;
    cursor.point = Point::new(Line(row as i32), Column(column));
    cursor.input_needs_wrap = wrap;
}

/// `Term::bounds_to_string` over one row. It steps back by a cell where the first
/// one is the second half of a wide character, and it reads the row above where a
/// wide character was moved to the next row: both must be there.
#[verifier::external_body]
fn read_row(model: &Model, row: usize, last_column: usize) -> (r: String)
    requires
        row < model_shape(*model).rows,
        last_column + 1 == model_shape(*model).columns,
        readable(model_shape(*model), model_inputs(*model), row as nat),
    ensures
        r@ == row_string(model_shape(*model), model_inputs(*model), row as nat),
{
    let line = Line(row as i32);
    model.term.bounds_to_string(Point::new(line, Column(0)), Point::new(line, Column(last_column)))
}

/// `Term::mode` and its `ALT_SCREEN` flag.
#[verifier::external_body]
fn in_alternate_screen(model: &Model) -> (r: bool)
    ensures
        r == alternate_mode(model_shape(*model), model_inputs(*model)),
{
    model.term.mode().contains(TermMode::ALT_SCREEN)
}

/// The flags of a cell of `Term::grid`: the one at the end of the top row.
#[verifier::external_body]
fn top_row_has_spacer(model: &Model, last_column: usize) -> (r: bool)
    requires
        last_column + 1 == model_shape(*model).columns,
    ensures
        r == top_row_spacer(model_shape(*model), model_inputs(*model)),
{
    let cell = &model.term.grid()[Line(0)][Column(last_column)];
    cell.flags.contains(Flags::LEADING_WIDE_CHAR_SPACER)
}

/// The flags of a cell of `Term::grid`: the one at the start of a row.
#[verifier::external_body]
fn begins_in_spacer(model: &Model, row: usize) -> (r: bool)
    requires
        row < model_shape(*model).rows,
    ensures
        r == row_starts_in_spacer(model_shape(*model), model_inputs(*model), row as nat),
{
    let cell = &model.term.grid()[Line(row as i32)][Column(0)];
    cell.flags.contains(Flags::WIDE_CHAR_SPACER)
}

/// `Dimensions::history_size` of `Term::grid`.
#[verifier::external_body]
fn rows_above(model: &Model) -> (r: usize)
    ensures
        r == history_rows(model_shape(*model), model_inputs(*model)),
{
    model.term.grid().history_size()
}

/// The history lines that a terminal of this size keeps of the requested ones.
pub open spec fn kept_history(columns: int, rows: int, requested: int) -> int {
    let room = if MAX_BUFFER_CELLS as int / columns > rows {
        MAX_BUFFER_CELLS as int / columns - rows
    } else {
        0
    };
    let capped = if requested < MAX_HISTORY_LINES {
        requested
    } else {
        MAX_HISTORY_LINES as int
    };
    if capped < room {
        capped
    } else {
        room
    }
}

/// The cells that a terminal may allocate: both screens and the history.
pub open spec fn cell_ceiling(columns: int, rows: int, requested: int) -> int {
    columns * (2 * rows + kept_history(columns, rows, requested))
}

/// A character that is cut off the end of a shown row.
pub open spec fn row_tail(c: char) -> bool {
    c == ' ' || c == '\r' || c == '\n'
}

/// The text without the blanks and line endings at its end.
pub open spec fn trim_row(s: Seq<char>) -> Seq<char>
    decreases s.len(),
{
    if s.len() > 0 && row_tail(s.last()) {
        trim_row(s.drop_last())
    } else {
        s
    }
}

/// How much of a row is shown: up to its last character that is no blank and no line
/// ending.
pub open spec fn shown_length(s: Seq<char>) -> int {
    if exists|i: int|
        0 <= i < s.len() && #[trigger] s[i] != ' ' && s[i] != '\r' && s[i] != '\n' {
        1 + choose|i: int|
            {
                &&& 0 <= i < s.len() && #[trigger] s[i] != ' ' && s[i] != '\r' && s[i] != '\n'
                &&& forall|j: int|
                    i < j < s.len() ==> #[trigger] s[j] == ' ' || s[j] == '\r' || s[j] == '\n'
            }
    } else {
        0
    }
}

pub open spec fn shown_row(s: Seq<char>) -> Seq<char> {
    s.take(shown_length(s))
}

/// A row is shown up to its last character that is no blank and no line ending.
pub proof fn shown_rows_end_in_text(s: Seq<char>)
    ensures
        trim_row(s) == shown_row(s),
        0 <= shown_length(s) <= s.len(),
    decreases s.len(),
{
    if s.len() == 0 {
        assert(s.take(0) =~= s);
    } else if s.last() == ' ' || s.last() == '\r' || s.last() == '\n' {
        let t = s.drop_last();
        shown_rows_end_in_text(t);
        if exists|i: int|
            0 <= i < s.len() && #[trigger] s[i] != ' ' && s[i] != '\r' && s[i] != '\n' {
            let i = choose|i: int|
                0 <= i < s.len() && #[trigger] s[i] != ' ' && s[i] != '\r' && s[i] != '\n';
            assert(t[i] != ' ' && t[i] != '\r' && t[i] != '\n');
            last_shown_is_found(t, i);
            last_shown_is_found(s, i);
            let a = shown_length(s) - 1;
            let b = shown_length(t) - 1;
            assert(t[b] == s[b]);
            if a < b {
                assert(s[b] == ' ' || s[b] == '\r' || s[b] == '\n');
            } else if b < a {
                assert(a < t.len());
                assert(t[a] == s[a]);
            }
            assert(s.take(a + 1) =~= t.take(b + 1));
        } else {
            assert forall|i: int| 0 <= i < t.len() implies !(#[trigger] t[i] != ' ' && t[i] != '\r'
                && t[i] != '\n') by {
                assert(s[i] == t[i]);
            }
            assert(s.take(0) =~= t.take(0));
        }
    } else {
        let n = s.len() - 1;
        assert(s[n] != ' ' && s[n] != '\r' && s[n] != '\n');
        last_shown_is_found(s, n);
        if shown_length(s) - 1 < n {
            assert(s[n] == ' ' || s[n] == '\r' || s[n] == '\n');
        }
        assert(s.take(s.len() as int) =~= s);
    }
}

proof fn last_shown_is_found(s: Seq<char>, i: int)
    requires
        0 <= i < s.len(),
        s[i] != ' ' && s[i] != '\r' && s[i] != '\n',
    ensures
        ({
            let k = shown_length(s) - 1;
            &&& i <= k < s.len()
            &&& s[k] != ' ' && s[k] != '\r' && s[k] != '\n'
            &&& forall|j: int|
                k < j < s.len() ==> #[trigger] s[j] == ' ' || s[j] == '\r' || s[j] == '\n'
        }),
    decreases s.len() - i,
{
    if exists|j: int|
        i < j < s.len() && #[trigger] s[j] != ' ' && s[j] != '\r' && s[j] != '\n' {
        let j = choose|j: int|
            i < j < s.len() && #[trigger] s[j] != ' ' && s[j] != '\r' && s[j] != '\n';
        last_shown_is_found(s, j);
    } else {
        assert forall|j: int| i < j < s.len() implies #[trigger] s[j] == ' ' || s[j] == '\r'
            || s[j] == '\n' by {}
        let k = shown_length(s) - 1;
        if k < i {
            assert(s[i] == ' ' || s[i] == '\r' || s[i] == '\n');
        }
    }
}

fn trimmed_row(s: &[char]) -> (r: &[char])
    ensures
        r@ == trim_row(s@),
{
    let mut n: usize = s.len();
    assert(s@.take(n as int) =~= s@);
    while n > 0 && (s[n - 1] == ' ' || s[n - 1] == '\r' || s[n - 1] == '\n')
        invariant
            n <= s@.len(),
            trim_row(s@.take(n as int)) == trim_row(s@),
        decreases n,
    {
        assert(s@.take(n as int).drop_last() =~= s@.take(n - 1));
        n -= 1;
    }
    let r = slice_subrange(s, 0, n);
    assert(r@ =~= s@.take(n as int));
    r
}

/// A pane model. Device replies and side effects are suppressed: tmux owns the
/// terminal responses of the application.
pub struct Terminal {
    model: Model,
    size: Size,
    history: usize,
}

impl Terminal {
    pub closed spec fn wf(self) -> bool {
        &&& valid_size(self.size.spec_columns() as int, self.size.spec_rows() as int)
        &&& model_shape(self.model) == self.shape()
        &&& self.history <= MAX_HISTORY_LINES
    }

    pub closed spec fn shape(self) -> Shape {
        Shape {
            columns: self.size.spec_columns(),
            rows: self.size.spec_rows(),
            history: self.history as nat,
        }
    }

    pub closed spec fn spec_size(self) -> Size {
        self.size
    }

    /// Everything that was done to this terminal, in order.
    pub closed spec fn inputs(self) -> Seq<Input> {
        model_inputs(self.model)
    }

    pub open spec fn columns(self) -> int {
        self.spec_size().spec_columns() as int
    }

    pub open spec fn rows(self) -> int {
        self.spec_size().spec_rows() as int
    }

    /// The rows of the active screen.
    pub open spec fn screen(self) -> Seq<Seq<char>> {
        Seq::new(
            self.shape().rows,
            |row: int| trim_row(row_string(self.shape(), self.inputs(), row as nat)),
        )
    }

    /// The shape of a terminal is its size.
    pub proof fn shape_is_size(self)
        requires
            self.wf(),
        ensures
            self.shape().columns == self.columns(),
            self.shape().rows == self.rows(),
    {
    }

    pub fn new(size: Size, history_lines: usize) -> (r: Self)
        ensures
            r.wf(),
            r.spec_size() == size,
            r.inputs() == Seq::<Input>::empty(),
            r.shape() == (Shape {
                columns: size.spec_columns(),
                rows: size.spec_rows(),
                history: kept_history(
                    size.spec_columns() as int,
                    size.spec_rows() as int,
                    history_lines as int,
                ) as nat,
            }),
    {
        let columns = size.columns();
        let rows = size.rows();
        let history = Self::capped_history(size, history_lines);
        Terminal { model: new_model(columns, rows, history), size, history }
    }

    fn capped_history(size: Size, requested: usize) -> (r: usize)
        ensures
            r == kept_history(
                size.spec_columns() as int,
                size.spec_rows() as int,
                requested as int,
            ),
            r <= MAX_HISTORY_LINES,
    {
        let columns = size.columns();
        let rows = size.rows();
        let lines = MAX_BUFFER_CELLS / columns;
        let room: usize = if lines > rows {
            lines - rows
        } else {
            0
        };
        let capped: usize = if requested < MAX_HISTORY_LINES {
            requested
        } else {
            MAX_HISTORY_LINES
        };
        if capped < room {
            capped
        } else {
            room
        }
    }

    /// The cells that a terminal of this size may allocate.
    pub fn estimated_cells(size: Size, history_lines: usize) -> (r: usize)
        ensures
            r == cell_ceiling(
                size.spec_columns() as int,
                size.spec_rows() as int,
                history_lines as int,
            ),
    {
        let history = Self::capped_history(size, history_lines);
        let columns = size.columns();
        let rows = size.rows();
        assert(columns * (2 * rows + history) <= 4096 * 18192) by (nonlinear_arith)
            requires
                columns <= 4096,
                rows <= 4096,
                history <= 10_000,
        ;
        columns * (2 * rows + history)
    }

    /// The cells that this terminal may allocate.
    pub fn cell_budget(&self) -> (r: usize)
        requires
            self.wf(),
        ensures
            r == self.columns() * (2 * self.rows() + self.shape().history),
    {
        let columns = self.size.columns();
        let rows = self.size.rows();
        let history = self.history;
        assert(columns * (2 * rows + history) <= 4096 * 18192) by (nonlinear_arith)
            requires
                columns <= 4096,
                rows <= 4096,
                history <= 10_000,
        ;
        columns * (2 * rows + history)
    }

    pub fn history_capacity(&self) -> (r: usize)
        ensures
            r == self.shape().history,
    {
        self.history
    }

    pub fn feed(&mut self, bytes: &[u8])
        requires
            old(self).wf(),
            feedable(old(self).columns(), bytes@),
        ensures
            final(self).wf(),
            final(self).spec_size() == old(self).spec_size(),
            final(self).shape() == old(self).shape(),
            final(self).inputs() == old(self).inputs().push(Input::Bytes(bytes@)),
    {
        advance(&mut self.model, bytes);
    }

    /// Put the cursor at a cell. A column just past the last one is the last
    /// column with a pending wrap.
    pub fn restore_cursor(&mut self, column: usize, row: usize)
        requires
            old(self).wf(),
            column <= old(self).columns(),
            row < old(self).rows(),
        ensures
            final(self).wf(),
            final(self).spec_size() == old(self).spec_size(),
            final(self).shape() == old(self).shape(),
            final(self).inputs() == old(self).inputs().push(
                Input::Cursor(column as nat, row as nat),
            ),
    {
        let columns = self.size.columns();
        if column == columns {
            put_cursor(&mut self.model, columns - 1, row, true);
        } else {
            put_cursor(&mut self.model, column, row, false);
        }
    }

    pub fn size(&self) -> (r: Size)
        ensures
            r == self.spec_size(),
    {
        self.size
    }

    /// The terminal itself, for a renderer.
    #[verifier::external_body]
    pub fn model(&self) -> &Term<VoidListener> {
        &self.model.term
    }

    /// Whether a row of the active screen can be read.
    pub fn can_read(&self, row: usize) -> (r: bool)
        requires
            self.wf(),
            row < self.rows(),
        ensures
            r == readable(self.shape(), self.inputs(), row as nat),
    {
        let columns = self.size.columns();
        !begins_in_spacer(&self.model, row) && (row > 0 || !top_row_has_spacer(
            &self.model,
            columns - 1,
        ) || rows_above(&self.model) > 0)
    }

    /// The active screen, not a reconstructed application transcript.
    pub fn screen_lines(&self) -> (r: Vec<String>)
        requires
            self.wf(),
            all_readable(self.shape(), self.inputs()),
        ensures
            texts(r@) == self.screen(),
    {
        let columns = self.size.columns();
        let rows = self.size.rows();
        let mut out: Vec<String> = Vec::new();
        let mut row: usize = 0;
        while row < rows
            invariant
                row <= rows,
                rows == self.rows(),
                columns == self.columns(),
                columns >= 1,
                self.wf(),
                all_readable(self.shape(), self.inputs()),
                out@.len() == row,
                forall|i: int|
                    0 <= i < row ==> #[trigger] out@[i]@ == trim_row(
                        row_string(self.shape(), self.inputs(), i as nat),
                    ),
            decreases rows - row,
        {
            let text = read_row(&self.model, row, columns - 1);
            let chars = chars_of(text.as_str());
            let shown = string_of(trimmed_row(chars.as_slice()));
            out.push(shown);
            row += 1;
        }
        assert(texts(out@) =~= self.screen());
        out
    }

    /// The active screen, or nothing where a row of it cannot be read.
    pub fn try_screen_lines(&self) -> (r: Option<Vec<String>>)
        requires
            self.wf(),
        ensures
            match r {
                Some(lines) => all_readable(self.shape(), self.inputs()) && texts(lines@)
                    == self.screen(),
                None => !all_readable(self.shape(), self.inputs()),
            },
    {
        let rows = self.size.rows();
        let mut row: usize = 0;
        while row < rows
            invariant
                row <= rows,
                rows == self.rows(),
                self.wf(),
                forall|i: nat| i < row ==> #[trigger] readable(self.shape(), self.inputs(), i),
            decreases rows - row,
        {
            if !self.can_read(row) {
                return None;
            }
            row += 1;
        }
        Some(self.screen_lines())
    }

    pub fn is_alternate_screen(&self) -> (r: bool)
        requires
            self.wf(),
        ensures
            r == alternate_mode(self.shape(), self.inputs()),
    {
        in_alternate_screen(&self.model)
    }
}

} // verus!
