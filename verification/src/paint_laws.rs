//! What is seen of a row: every glyph in its own column.
use vstd::prelude::*;

use crate::paint::{
    colored, reach, row_spans, run_end, run_end_bounds, run_text, seen, simple, span_at, text_at,
    Cell, Rgb, Span, COLORS,
};
use crate::text::{trim_both, trim_end, trim_start, white_char};

verus! {

/// A cell with one character of ASCII and nothing on it.
pub open spec fn single(cell: Cell) -> bool {
    (cell.c as u32) < 128 && cell.marks@.len() == 0
}

/// What is painted for such a cell: a blank for a control code.
pub open spec fn glyph(cell: Cell) -> char {
    if (cell.c as u32) < 32 || cell.c as u32 == 127 {
        ' '
    } else {
        cell.c
    }
}

/// What a span paints is what stands in the cells from its column on.
pub open spec fn shows(cells: Seq<Cell>, span: Span) -> bool {
    let from = span.start as int;
    let n = span.text.len() as int;
    &&& from < cells.len()
    &&& !cells[from].blank
    &&& if single(cells[from]) {
        // All cells of one look, as far as they go.
        &&& 0 < n <= cells.len() - from
        &&& forall|i: int|
            0 <= i < n ==> single(#[trigger] cells[from + i]) && cells[from + i].style
                == cells[from].style && span.text[i] == glyph(cells[from + i])
        &&& from + n < cells.len() ==> !(single(cells[from + n]) && cells[from + n].style
            == cells[from].style)
        &&& cells[from].wide || span.columns == n
    } else {
        // A glyph of its own.
        &&& span.text == seq![cells[from].c] + cells[from].marks@
        &&& span.columns == if cells[from].wide {
            2int
        } else {
            1
        }
    }
}

/// Whether a span paints the glyph of a column.
pub open spec fn covers(cells: Seq<Cell>, span: Span, k: int) -> bool {
    if single(cells[span.start as int]) {
        span.start <= k < span.start + span.text.len()
    } else {
        span.start == k
    }
}

proof fn reach_facts(cells: Seq<Cell>, from: int, style: u64)
    requires
        0 <= from <= cells.len(),
    ensures
        ({
            let to = reach(cells, from, style);
            &&& from <= to <= cells.len()
            &&& forall|i: int|
                from <= i < to ==> single(#[trigger] cells[i]) && cells[i].style == style
            &&& to < cells.len() ==> !(single(cells[to]) && cells[to].style == style)
        }),
    decreases cells.len() - from,
{
    if from < cells.len() && simple(cells[from]) && cells[from].style == style {
        reach_facts(cells, from + 1, style);
    }
}

proof fn text_by_place(cells: Seq<Cell>, from: int, to: int)
    requires
        0 <= from <= to <= cells.len(),
        forall|i: int| from <= i < to ==> single(#[trigger] cells[i]),
    ensures
        run_text(cells, from, to).len() == to - from,
        forall|i: int|
            0 <= i < to - from ==> (#[trigger] run_text(cells, from, to)[i]) == glyph(
                cells[from + i],
            ),
    decreases to - from,
{
    if from < to {
        text_by_place(cells, from, to - 1);
        assert(single(cells[to - 1]));
    }
}

proof fn one_span_shows(cells: Seq<Cell>, from: int)
    requires
        0 <= from < cells.len(),
        !cells[from].blank,
    ensures
        shows(cells, span_at(cells, from)),
        single(cells[from]) ==> span_at(cells, from).text.len() == run_end(cells, from) - from,
{
    let span = span_at(cells, from);
    if single(cells[from]) {
        let style = cells[from].style;
        let to = reach(cells, from, style);
        reach_facts(cells, from, style);
        reach_facts(cells, from + 1, style);
        assert(to > from);
        text_by_place(cells, from, to);
        assert forall|i: int| 0 <= i < span.text.len() implies single(#[trigger] cells[from + i])
            && cells[from + i].style == cells[from].style && span.text[i] == glyph(
            cells[from + i],
        ) by {
            assert(run_text(cells, from, to)[i] == glyph(cells[from + i]));
        }
    }
}

/// What is painted is what stands in the cells. Each span shows the glyphs of like cells
/// from its column on, each in its place and as far as they are alike; a wide or a
/// combining glyph stands alone.
pub proof fn spans_show_their_cells(cells: Seq<Cell>, from: int, j: int)
    requires
        0 <= from <= cells.len(),
        0 <= j < row_spans(cells, from).len(),
    ensures
        shows(cells, row_spans(cells, from)[j]),
    decreases cells.len() - from,
{
    if from < cells.len() {
        run_end_bounds(cells, from);
        let next = run_end(cells, from);
        if seen(cells, from) {
            one_span_shows(cells, from);
            if j > 0 {
                assert(row_spans(cells, from)[j] == row_spans(cells, next)[j - 1]);
                spans_show_their_cells(cells, next, j - 1);
            }
        } else {
            spans_show_their_cells(cells, next, j);
        }
    }
}

proof fn starts_keep(s: Seq<char>, i: int)
    requires
        0 <= i < s.len(),
        !white_char(s[i]),
    ensures
        trim_start(s).len() > 0,
        !white_char(trim_start(s)[0]),
    decreases s.len(),
{
    if white_char(s[0]) {
        assert(s.drop_first()[i - 1] == s[i]);
        starts_keep(s.drop_first(), i - 1);
    }
}

proof fn ends_keep(s: Seq<char>)
    requires
        s.len() > 0,
        !white_char(s[0]),
    ensures
        trim_end(s).len() > 0,
    decreases s.len(),
{
    if white_char(s.last()) {
        assert(s.drop_last()[0] == s[0]);
        ends_keep(s.drop_last());
    }
}

/// No glyph is left out: a cell with a visible one, which is not blank, is painted.
pub proof fn visible_glyphs_are_painted(cells: Seq<Cell>, from: int, k: int)
    requires
        0 <= from <= k < cells.len(),
        !cells[k].blank,
        !white_char(cells[k].c),
        (cells[k].c as u32) >= 32 && cells[k].c as u32 != 127,
    ensures
        exists|j: int|
            0 <= j < row_spans(cells, from).len() && covers(
                cells,
                #[trigger] row_spans(cells, from)[j],
                k,
            ),
    decreases cells.len() - from,
{
    run_end_bounds(cells, from);
    let next = run_end(cells, from);
    let all = row_spans(cells, from);
    let rest = row_spans(cells, next);
    if k >= next {
        visible_glyphs_are_painted(cells, next, k);
        let j = choose|j: int| 0 <= j < rest.len() && covers(cells, #[trigger] rest[j], k);
        if seen(cells, from) {
            assert(all[j + 1] == rest[j]);
        } else {
            assert(all[j] == rest[j]);
        }
    } else {
        if cells[from].blank {
            assert(k == from);
        }
        one_span_shows(cells, from);
        let text = text_at(cells, from);
        assert(text[k - from] == cells[k].c) by {
            if single(cells[from]) {
                assert(single(cells[from + (k - from)]));
                assert(span_at(cells, from).text[k - from] == glyph(cells[from + (k - from)]));
            }
        }
        starts_keep(text, k - from);
        ends_keep(trim_start(text));
        assert(trim_both(text).len() > 0);
        assert(all[0] == span_at(cells, from));
        assert(covers(cells, all[0], k));
    }
}

/// A step of a colour of the cube.
pub open spec fn step(n: int) -> int {
    if n == 0 {
        0
    } else {
        55 + 40 * n
    }
}

/// The numbers from 16 on name a cube of six steps of red, green and blue, blue changing
/// fastest, and behind it twenty-four greys, unless the application has set a colour
/// itself, which is then shown as it is.
pub proof fn colors_are_mixed_by_number(r: int, g: int, b: int, grey: int, set: Seq<Option<Rgb>>)
    requires
        set.len() == COLORS,
        0 <= r < 6,
        0 <= g < 6,
        0 <= b < 6,
        0 <= grey < 24,
    ensures
        set[16 + 36 * r + 6 * g + b] is None ==> ({
            let shown = colored(16 + 36 * r + 6 * g + b, set);
            shown.rgb.r == step(r) && shown.rgb.g == step(g) && shown.rgb.b == step(b)
                && shown.dims == 0
        }),
        set[232 + grey] is None ==> ({
            let shown = colored(232 + grey, set);
            shown.rgb.r == 8 + 10 * grey && shown.rgb.g == shown.rgb.r && shown.rgb.b
                == shown.rgb.r && shown.dims == 0
        }),
        forall|i: int|
            0 <= i < set.len() && (#[trigger] set[i]) is Some ==> colored(i, set).rgb == set[i]->0
                && colored(i, set).dims == 0,
{
    let n = 36 * r + 6 * g + b;
    assert(n / 36 == r && n / 6 % 6 == g && n % 6 == b) by {
        assert(n / 36 == r) by (nonlinear_arith)
            requires
                n == 36 * r + 6 * g + b,
                0 <= g < 6,
                0 <= b < 6,
        ;
        assert(n / 6 == 6 * r + g) by (nonlinear_arith)
            requires
                n == 36 * r + 6 * g + b,
                0 <= b < 6,
        ;
    }
}

} // verus!
