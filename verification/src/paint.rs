//! What is painted of a terminal: the colours of a cell and the runs of a row.
use vstd::prelude::*;
use vstd::string::*;

use crate::text::{byte_len, chars_of, is_control, control_char, push_chars, trim_both, trimmed, utf8_len};

verus! {

#[derive(Clone, Copy, Debug, PartialEq, Eq, Structural)]
pub struct Rgb {
    pub r: u8,
    pub g: u8,
    pub b: u8,
}

/// The number of colours that a terminal names.
pub const COLORS: usize = 269;

/// The most bytes that are put on the clipboard.
pub const MAX_COPY_BYTES: usize = 1_048_576;

pub open spec fn rgb(r: u8, g: u8, b: u8) -> Rgb {
    Rgb { r, g, b }
}

pub open spec fn background() -> Rgb {
    rgb(18, 21, 26)
}

pub open spec fn foreground() -> Rgb {
    rgb(214, 220, 229)
}

/// A colour, and how many times it is dimmed.
#[derive(Clone, Copy, Debug, PartialEq, Eq, Structural)]
pub struct Tint {
    pub rgb: Rgb,
    pub dims: u8,
}

pub open spec fn plain(color: Rgb) -> Tint {
    Tint { rgb: color, dims: 0 }
}

/// A colour of a cell: one of its own, or one by number.
#[derive(Clone, Copy, Debug, PartialEq, Eq, Structural)]
pub enum Color {
    Spec(Rgb),
    Indexed(usize),
}

/// The sixteen colours that have names of their own.
pub open spec fn ansi(index: int) -> Rgb {
    if index == 0 {
        rgb(30, 34, 42)
    } else if index == 1 {
        rgb(224, 108, 117)
    } else if index == 2 {
        rgb(152, 195, 121)
    } else if index == 3 {
        rgb(229, 192, 123)
    } else if index == 4 {
        rgb(97, 175, 239)
    } else if index == 5 {
        rgb(198, 120, 221)
    } else if index == 6 {
        rgb(86, 182, 194)
    } else if index == 7 {
        rgb(214, 220, 229)
    } else if index == 8 {
        rgb(110, 121, 138)
    } else if index == 9 {
        rgb(239, 134, 143)
    } else if index == 10 {
        rgb(174, 217, 143)
    } else if index == 11 {
        rgb(245, 215, 151)
    } else if index == 12 {
        rgb(129, 194, 249)
    } else if index == 13 {
        rgb(215, 151, 235)
    } else if index == 14 {
        rgb(121, 205, 213)
    } else {
        rgb(244, 246, 250)
    }
}

fn ansi_color(index: usize) -> (r: Rgb)
    requires
        index < 16,
    ensures
        r == ansi(index as int),
{
    if index == 0 {
        Rgb { r: 30, g: 34, b: 42 }
    } else if index == 1 {
        Rgb { r: 224, g: 108, b: 117 }
    } else if index == 2 {
        Rgb { r: 152, g: 195, b: 121 }
    } else if index == 3 {
        Rgb { r: 229, g: 192, b: 123 }
    } else if index == 4 {
        Rgb { r: 97, g: 175, b: 239 }
    } else if index == 5 {
        Rgb { r: 198, g: 120, b: 221 }
    } else if index == 6 {
        Rgb { r: 86, g: 182, b: 194 }
    } else if index == 7 {
        Rgb { r: 214, g: 220, b: 229 }
    } else if index == 8 {
        Rgb { r: 110, g: 121, b: 138 }
    } else if index == 9 {
        Rgb { r: 239, g: 134, b: 143 }
    } else if index == 10 {
        Rgb { r: 174, g: 217, b: 143 }
    } else if index == 11 {
        Rgb { r: 245, g: 215, b: 151 }
    } else if index == 12 {
        Rgb { r: 129, g: 194, b: 249 }
    } else if index == 13 {
        Rgb { r: 215, g: 151, b: 235 }
    } else if index == 14 {
        Rgb { r: 121, g: 205, b: 213 }
    } else {
        Rgb { r: 244, g: 246, b: 250 }
    }
}

/// One step of the colour cube.
pub open spec fn level(n: int) -> u8 {
    if n == 0 {
        0
    } else {
        (55 + n * 40) as u8
    }
}

fn level_of(n: usize) -> (r: u8)
    requires
        n < 6,
    ensures
        r == level(n as int),
{
    if n == 0 {
        0
    } else {
        55 + n as u8 * 40
    }
}

/// The built-in colour of a number: the named ones, a cube of 216, 24 greys, and
/// those that stand for the terminal's own foreground and background. The dim
/// forms are the others, dimmed.
pub open spec fn builtin(index: int) -> Tint {
    if index < 16 {
        plain(ansi(index))
    } else if index < 232 {
        let n = index - 16;
        plain(rgb(level(n / 36), level(n / 6 % 6), level(n % 6)))
    } else if index < 256 {
        let grey = (8 + (index - 232) * 10) as u8;
        plain(rgb(grey, grey, grey))
    } else if index == 257 {
        plain(background())
    } else if index == 268 {
        Tint { rgb: foreground(), dims: 1 }
    } else {
        plain(foreground())
    }
}

/// The colour of a number, where the application may have set it.
pub open spec fn colored(index: int, set: Seq<Option<Rgb>>) -> Tint {
    match set[index] {
        Some(color) => plain(color),
        None => if 259 <= index <= 266 {
            let base = match set[index - 259] {
                Some(color) => color,
                None => ansi(index - 259),
            };
            Tint { rgb: base, dims: 1 }
        } else {
            builtin(index)
        },
    }
}

pub fn indexed(index: usize, set: &[Option<Rgb>]) -> (r: Tint)
    requires
        set@.len() == COLORS,
        index < COLORS,
    ensures
        r == colored(index as int, set@),
{
    if let Some(color) = set[index] {
        return Tint { rgb: color, dims: 0 };
    }
    if index < 16 {
        Tint { rgb: ansi_color(index), dims: 0 }
    } else if index < 232 {
        let n = index - 16;
        Tint {
            rgb: Rgb { r: level_of(n / 36), g: level_of(n / 6 % 6), b: level_of(n % 6) },
            dims: 0,
        }
    } else if index < 256 {
        let grey = 8 + (index - 232) as u8 * 10;
        Tint { rgb: Rgb { r: grey, g: grey, b: grey }, dims: 0 }
    } else if index == 257 {
        Tint { rgb: Rgb { r: 18, g: 21, b: 26 }, dims: 0 }
    } else if index == 268 {
        Tint { rgb: Rgb { r: 214, g: 220, b: 229 }, dims: 1 }
    } else if 259 <= index && index <= 266 {
        let base = match set[index - 259] {
            Some(color) => color,
            None => ansi_color(index - 259),
        };
        Tint { rgb: base, dims: 1 }
    } else {
        Tint { rgb: Rgb { r: 214, g: 220, b: 229 }, dims: 0 }
    }
}

pub open spec fn shown(color: Color, set: Seq<Option<Rgb>>) -> Tint {
    match color {
        Color::Spec(own) => plain(own),
        Color::Indexed(index) => colored(index as int, set),
    }
}

pub fn color(given: Color, set: &[Option<Rgb>]) -> (r: Tint)
    requires
        set@.len() == COLORS,
        given matches Color::Indexed(index) ==> index < COLORS,
    ensures
        r == shown(given, set@),
{
    match given {
        Color::Spec(own) => Tint { rgb: own, dims: 0 },
        Color::Indexed(index) => indexed(index, set),
    }
}

/// How a cell is set off.
#[derive(Clone, Copy, Debug, PartialEq, Eq, Structural)]
pub struct Emphasis {
    pub bold: bool,
    pub dim: bool,
    pub inverse: bool,
}

/// The foreground of a cell: bold brightens one of the first eight colours, and
/// dim dims any.
pub open spec fn cell_foreground(fg: Color, e: Emphasis, set: Seq<Option<Rgb>>) -> Tint {
    let base = if e.bold && (fg matches Color::Indexed(index) && index < 8) {
        colored(fg->Indexed_0 + 8, set)
    } else {
        shown(fg, set)
    };
    if e.dim {
        Tint { dims: (base.dims + 1) as u8, ..base }
    } else {
        base
    }
}

/// The foreground and the background of a cell.
pub fn cell_colors(fg: Color, bg: Color, e: Emphasis, set: &[Option<Rgb>]) -> (r: (Tint, Tint))
    requires
        set@.len() == COLORS,
        fg matches Color::Indexed(index) ==> index < COLORS,
        bg matches Color::Indexed(index) ==> index < COLORS,
    ensures
        r == if e.inverse {
            (shown(bg, set@), cell_foreground(fg, e, set@))
        } else {
            (cell_foreground(fg, e, set@), shown(bg, set@))
        },
{
    let mut front = color(fg, set);
    let back = color(bg, set);
    if e.bold {
        if let Color::Indexed(index) = fg {
            if index < 8 {
                front = indexed(index + 8, set);
            }
        }
    }
    if e.dim {
        front = Tint { rgb: front.rgb, dims: front.dims + 1 };
    }
    if e.inverse {
        (back, front)
    } else {
        (front, back)
    }
}

/// One cell of a row.
#[derive(Debug)]
pub struct Cell {
    pub c: char,
    /// Combining characters behind it.
    pub marks: Vec<char>,
    /// Stands for the attributes and the colours: equal for cells that look the
    /// same.
    pub style: u64,
    /// The cell shows nothing of its own.
    pub blank: bool,
    pub wide: bool,
    /// Underlined or struck out, so that even blanks are seen.
    pub ruled: bool,
}

/// Text that is painted at once, from a column on and over a number of columns.
#[derive(Debug)]
pub struct Run {
    pub start: usize,
    pub columns: usize,
    pub text: String,
}

/// The contents of a run.
pub struct Span {
    pub start: nat,
    pub columns: nat,
    pub text: Seq<char>,
}

impl View for Run {
    type V = Span;

    open spec fn view(&self) -> Span {
        Span { start: self.start as nat, columns: self.columns as nat, text: self.text@ }
    }
}

pub open spec fn spans(runs: Seq<Run>) -> Seq<Span> {
    runs.map_values(|run: Run| run@)
}

/// A cell that can share a run: one ASCII character and nothing on it.
pub open spec fn simple(cell: Cell) -> bool {
    cell.c as u32 <= 0x7f && cell.marks@.len() == 0
}

/// How far a run of like cells reaches from a column.
pub open spec fn reach(cells: Seq<Cell>, from: int, style: u64) -> int
    decreases cells.len() - from,
{
    if from < 0 || from >= cells.len() || !simple(cells[from]) || cells[from].style != style {
        from
    } else {
        reach(cells, from + 1, style)
    }
}

proof fn reach_bounds(cells: Seq<Cell>, from: int, style: u64)
    requires
        0 <= from <= cells.len(),
    ensures
        from <= reach(cells, from, style) <= cells.len(),
    decreases cells.len() - from,
{
    if from < cells.len() && simple(cells[from]) && cells[from].style == style {
        reach_bounds(cells, from + 1, style);
    }
}

/// A character as it is painted: control codes are blanks.
pub open spec fn painted(c: char) -> char {
    if control_char(c) {
        ' '
    } else {
        c
    }
}

pub open spec fn run_text(cells: Seq<Cell>, from: int, to: int) -> Seq<char>
    decreases to - from,
{
    if to <= from {
        seq![]
    } else {
        run_text(cells, from, to - 1).push(painted(cells[to - 1].c))
    }
}

/// Where the run that begins at a column ends.
pub open spec fn run_end(cells: Seq<Cell>, from: int) -> int {
    if cells[from].blank || !simple(cells[from]) {
        from + 1
    } else {
        reach(cells, from, cells[from].style)
    }
}

/// The text of the run that begins at a column.
pub open spec fn text_at(cells: Seq<Cell>, from: int) -> Seq<char> {
    if simple(cells[from]) {
        run_text(cells, from, run_end(cells, from))
    } else {
        seq![cells[from].c] + cells[from].marks@
    }
}

/// Whether the run that begins at a column is seen.
pub open spec fn seen(cells: Seq<Cell>, from: int) -> bool {
    !cells[from].blank && (trim_both(text_at(cells, from)).len() > 0 || cells[from].ruled)
}

pub open spec fn span_at(cells: Seq<Cell>, from: int) -> Span {
    Span {
        start: from as nat,
        columns: if cells[from].wide {
            2
        } else {
            (run_end(cells, from) - from) as nat
        },
        text: text_at(cells, from),
    }
}

pub proof fn run_end_bounds(cells: Seq<Cell>, from: int)
    requires
        0 <= from < cells.len(),
    ensures
        from < run_end(cells, from) <= cells.len(),
{
    if !cells[from].blank && simple(cells[from]) {
        reach_bounds(cells, from + 1, cells[from].style);
    }
}

/// The runs of a row from a column on. A wide or combining glyph is a run of its
/// own, so that no font moves the next column.
pub open spec fn row_spans(cells: Seq<Cell>, from: int) -> Seq<Span>
    decreases cells.len() - from,
{
    if from < 0 || from >= cells.len() {
        seq![]
    } else {
        proof {
            run_end_bounds(cells, from);
        }
        let rest = row_spans(cells, run_end(cells, from));
        if seen(cells, from) {
            seq![span_at(cells, from)] + rest
        } else {
            rest
        }
    }
}

fn is_simple(cell: &Cell) -> (r: bool)
    ensures
        r == simple(*cell),
{
    cell.c as u32 <= 0x7f && cell.marks.len() == 0
}

/// The runs of a row.
pub fn runs(cells: &[Cell]) -> (r: Vec<Run>)
    ensures
        spans(r@) == row_spans(cells@, 0),
{
    let mut out: Vec<Run> = Vec::new();
    let mut column: usize = 0;
    let ghost all = cells@;
    proof {
        assert(spans(out@) + row_spans(all, 0) =~= row_spans(all, 0));
    }
    while column < cells.len()
        invariant
            column <= cells.len(),
            all == cells@,
            spans(out@) + row_spans(all, column as int) == row_spans(all, 0),
        decreases cells.len() - column,
    {
        let start = column;
        let ghost before = out@;
        proof {
            run_end_bounds(all, start as int);
        }
        if cells[start].blank {
            column += 1;
            continue;
        }
        let mut text = String::new();
        if is_simple(&cells[start]) {
            let style = cells[start].style;
            proof {
                reach_bounds(all, start as int, style);
            }
            while column < cells.len() && is_simple(&cells[column]) && cells[column].style == style
                invariant
                    start <= column <= cells.len(),
                    all == cells@,
                    reach(all, column as int, style) == reach(all, start as int, style),
                    text@ == run_text(all, start as int, column as int),
                decreases cells.len() - column,
            {
                let c = cells[column].c;
                if is_control(c) {
                    text.push(' ');
                } else {
                    text.push(c);
                }
                column += 1;
            }
        } else {
            text.push(cells[start].c);
            push_chars(&mut text, cells[start].marks.as_slice());
            column += 1;
            proof {
                assert(text@ =~= seq![all[start as int].c] + all[start as int].marks@);
            }
        }
        let shown_chars = chars_of(text.as_str());
        let visible = trimmed(shown_chars.as_slice()).len() > 0 || cells[start].ruled;
        if visible {
            let columns = if cells[start].wide {
                2
            } else {
                column - start
            };
            let run = Run { start, columns, text };
            let ghost span = run@;
            out.push(run);
            proof {
                assert(span == span_at(all, start as int));
                let rest = row_spans(all, column as int);
                assert(spans(out@) =~= spans(before).push(span));
                assert(spans(out@) + rest =~= spans(before) + (seq![span] + rest));
            }
        }
    }
    proof {
        assert(spans(out@) + Seq::<Span>::empty() =~= spans(out@));
    }
    out
}

/// Runs stand in the order of their columns, and none begins inside another one
/// that is not wide.
pub proof fn runs_do_not_overlap(cells: Seq<Cell>, from: int, i: int)
    requires
        0 <= from <= cells.len(),
        0 <= i < row_spans(cells, from).len(),
    ensures
        from <= row_spans(cells, from)[i].start < cells.len(),
        i + 1 < row_spans(cells, from).len() ==> run_end(
            cells,
            row_spans(cells, from)[i].start as int,
        ) <= row_spans(cells, from)[i + 1].start,
    decreases cells.len() - from,
{
    if from < cells.len() {
        run_end_bounds(cells, from);
        let next = run_end(cells, from);
        let rest = row_spans(cells, next);
        if seen(cells, from) {
            let all = row_spans(cells, from);
            if i == 0 {
                if all.len() > 1 {
                    assert(all[1] == rest[0]);
                    runs_do_not_overlap(cells, next, 0);
                }
            } else {
                assert(all[i] == rest[i - 1]);
                runs_do_not_overlap(cells, next, i - 1);
                if i + 1 < all.len() {
                    assert(all[i + 1] == rest[i]);
                }
            }
        } else {
            runs_do_not_overlap(cells, next, i);
        }
    }
}

/// Whether a text goes to the clipboard, and what the user is told.
pub fn copy(text: &str) -> (r: (bool, &'static str))
    ensures
        r.0 == (utf8_len(text@) <= MAX_COPY_BYTES),
        r.1@ == if utf8_len(text@) <= MAX_COPY_BYTES {
            "Copied."@
        } else {
            "Selection exceeds the 1 MiB clipboard limit."@
        },
{
    if byte_len(text) > MAX_COPY_BYTES {
        (false, "Selection exceeds the 1 MiB clipboard limit.")
    } else {
        (true, "Copied.")
    }
}

/// What the pointer did over a pane in a frame.
#[derive(Clone, Copy, Debug, PartialEq, Eq, Structural)]
pub struct Pointer {
    pub clicked: bool,
    pub double_clicked: bool,
    pub triple_clicked: bool,
    pub secondary_clicked: bool,
    pub drag_started: bool,
    pub dragged: bool,
    pub present: bool,
}

/// What becomes of the selection.
#[derive(Clone, Copy, Debug, PartialEq, Eq, Structural)]
pub enum Selecting {
    Keep,
    Lines,
    Words,
    Clear,
    /// From where the button was pressed.
    Cells,
}

/// What a frame's pointer events do to a pane: whether it takes the focus, what
/// becomes of the selection, and whether the selection is drawn on to the
/// pointer.
pub fn pointed(p: Pointer) -> (r: (bool, Selecting, bool))
    ensures
        r.0 == (p.clicked || p.drag_started || p.secondary_clicked),
        r.1 == if !p.present {
            Selecting::Keep
        } else if p.triple_clicked {
            Selecting::Lines
        } else if p.double_clicked {
            Selecting::Words
        } else if p.clicked {
            Selecting::Clear
        } else if p.drag_started {
            Selecting::Cells
        } else {
            Selecting::Keep
        },
        r.2 == (p.present && p.dragged),
{
    let focus = p.clicked || p.drag_started || p.secondary_clicked;
    let selecting = if !p.present {
        Selecting::Keep
    } else if p.triple_clicked {
        Selecting::Lines
    } else if p.double_clicked {
        Selecting::Words
    } else if p.clicked {
        Selecting::Clear
    } else if p.drag_started {
        Selecting::Cells
    } else {
        Selecting::Keep
    };
    (focus, selecting, p.present && p.dragged)
}

} // verus!
