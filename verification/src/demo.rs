//! Built-in models that show the desktop without a session.
use vstd::prelude::*;
use vstd::string::*;
use vstd::utf8::*;

use crate::snapshot::{
    model_of, models_of, pane_cells, view_error, Error, Facts, Models, Pane, PaneModel, State,
    Status,
};
use crate::terminal::{kept_history, Input, Shape, Terminal};
use crate::text::decimal;
use crate::tmux::{PaneId, SessionId, WindowId};
use crate::values::Size;

verus! {

/// The rows of the log in the panes behind the first one.
pub const LOG_LINES: u64 = 80;

/// A number with zeros in front, up to a width.
pub open spec fn padded(n: nat, width: nat) -> Seq<char> {
    let digits = decimal(n);
    if digits.len() >= width {
        digits
    } else {
        Seq::new((width - digits.len()) as nat, |i: int| '0') + digits
    }
}

fn push_padded(out: &mut String, n: u64, width: usize)
    ensures
        final(out)@ == old(out)@ + padded(n as nat, width as nat),
{
    let digits = crate::text::to_decimal(n);
    let ghost start = out@;
    let mut i: usize = digits.len();
    let ghost missing = if digits.len() >= width {
        0int
    } else {
        width - digits.len()
    };
    while i < width
        invariant
            digits.len() <= i,
            missing == if digits.len() >= width {
                0int
            } else {
                width - digits.len()
            },
            i <= width || i == digits.len(),
            out@ == start + Seq::new((i - digits.len()) as nat, |k: int| '0'),
        decreases width - i,
    {
        out.push('0');
        i += 1;
        proof {
            assert(out@ =~= start + Seq::new((i - digits.len()) as nat, |k: int| '0'));
        }
    }
    crate::text::push_chars(out, digits.as_slice());
    proof {
        assert(out@ =~= start + padded(n as nat, width as nat));
    }
}

/// One line of the log.
pub open spec fn log_line(line: nat) -> Seq<char> {
    "\u{1b}[90m[12:"@ + padded(line / 60, 2) + ":"@ + padded(line % 60, 2)
        + "]\u{1b}[0m  worker  \u{1b}[32mready\u{1b}[0m  batch "@ + padded(line, 3) + "\r\n"@
}

fn log_text(line: u64) -> (r: String)
    ensures
        r@ == log_line(line as nat),
{
    let mut out = String::new();
    out.append("\u{1b}[90m[12:");
    push_padded(&mut out, line / 60, 2);
    out.append(":");
    push_padded(&mut out, line % 60, 2);
    out.append("]\u{1b}[0m  worker  \u{1b}[32mready\u{1b}[0m  batch ");
    push_padded(&mut out, line, 3);
    out.append("\r\n");
    proof {
        assert(Seq::<char>::empty() + "\u{1b}[90m[12:"@ =~= "\u{1b}[90m[12:"@);
    }
    out
}

/// What the first pane shows.
pub open spec fn prompt_texts() -> Seq<Seq<char>> {
    seq![
        "\u{1b}[36mStarcom\u{1b}[0m  /  terminal workspace\r\n\r\n"@,
        "\u{1b}[90mThis is built-in demo data, not an SSH session.\u{1b}[0m\r\n\r\n"@,
        "\u{1b}[32mdemo@workstation\u{1b}[0m:~/starcom$ cargo test\r\n\r\n"@,
        "  \u{1b}[32mCompiling\u{1b}[0m starcom v0.1.0\r\n  \u{1b}[32mFinished\u{1b}[0m test profile\r\n\r\n"@,
        "test control framing              ... \u{1b}[32mok\u{1b}[0m\r\n"@,
        "test snapshot -> live             ... \u{1b}[32mok\u{1b}[0m\r\n"@,
        "test Unicode selection            ... \u{1b}[32mok\u{1b}[0m\r\n"@,
        "test independent panes            ... \u{1b}[32mok\u{1b}[0m\r\n"@,
        "\r\n\u{1b}[36mDrag to select. Right-click to copy.\u{1b}[0m\r\n\r\n"@,
        "The window is a client; tmux owns your jobs.\r\n\r\n"@,
        "\u{1b}[32mdemo@workstation\u{1b}[0m:~/starcom$ "@,
    ]
}

/// The first lines of the log.
pub open spec fn log_texts(lines: nat) -> Seq<Seq<char>>
    decreases lines,
{
    if lines == 0 {
        seq![]
    } else {
        log_texts((lines - 1) as nat).push(log_line(lines))
    }
}

pub open spec fn log_end() -> Seq<char> {
    "\r\n\u{1b}[33mScroll upward to inspect retained output.\u{1b}[0m\r\n\r\n"@
}

/// What a pane shows.
pub open spec fn shown(id: nat) -> Seq<Seq<char>> {
    if id == 0 {
        prompt_texts()
    } else {
        log_texts(LOG_LINES as nat).push(log_end())
    }
}

pub open spec fn inputs_of(given: Seq<Seq<char>>) -> Seq<Input> {
    given.map_values(|text: Seq<char>| Input::Bytes(encode_utf8(text)))
}

pub open spec fn columns_of(id: nat) -> nat {
    if id == 2 {
        90
    } else {
        54
    }
}

/// The state of a pane: two of them side by side in one window, and one alone in
/// another.
pub open spec fn facts(id: nat) -> Facts {
    Facts {
        pane: id,
        window: if id == 2 {
            1
        } else {
            0
        },
        columns: columns_of(id),
        rows: 27,
        left: if id == 1 {
            55
        } else {
            0
        },
        top: 0,
        cursor: (0, 0),
        alternate: false,
        history_size: 0,
        history_limit: 2000,
        saved_cursor: (0, 0),
        scroll_region: (0, 26),
        modes: seq![true, false, false, false, true, false, false, false, false, false],
        bracketed_paste: Some(true),
        tabs: seq![],
    }
}

pub open spec fn model(id: nat) -> PaneModel {
    PaneModel {
        facts: facts(id),
        shape: Shape { columns: columns_of(id), rows: 27, history: 300 },
        inputs: inputs_of(shown(id)),
        truncated: false,
    }
}

/// Feed a text to a terminal behind what it was fed before.
fn feed_text(terminal: &mut Terminal, Ghost(given): Ghost<Seq<Seq<char>>>, text: &str)
    requires
        old(terminal).wf(),
        old(terminal).columns() >= 2,
        old(terminal).inputs() == inputs_of(given),
    ensures
        final(terminal).wf(),
        final(terminal).shape() == old(terminal).shape(),
        final(terminal).columns() == old(terminal).columns(),
        final(terminal).spec_size() == old(terminal).spec_size(),
        final(terminal).inputs() == inputs_of(given.push(text@)),
{
    terminal.feed(text.as_bytes());
    proof {
        old(terminal).shape_is_size();
        terminal.shape_is_size();
        assert(terminal.inputs() =~= inputs_of(given.push(text@)));
    }
}

fn feed_prompt(terminal: &mut Terminal)
    requires
        old(terminal).wf(),
        old(terminal).columns() >= 2,
        old(terminal).inputs().len() == 0,
    ensures
        final(terminal).wf(),
        final(terminal).shape() == old(terminal).shape(),
        final(terminal).spec_size() == old(terminal).spec_size(),
        final(terminal).inputs() == inputs_of(prompt_texts()),
{
    let ghost t = prompt_texts();
    proof {
        assert(terminal.inputs() =~= inputs_of(t.take(0)));
    }
    feed_text(terminal, Ghost(t.take(0)), "\u{1b}[36mStarcom\u{1b}[0m  /  terminal workspace\r\n\r\n");
    assert(t.take(0).push(t[0]) =~= t.take(1));
    feed_text(
        terminal,
        Ghost(t.take(1)),
        "\u{1b}[90mThis is built-in demo data, not an SSH session.\u{1b}[0m\r\n\r\n",
    );
    assert(t.take(1).push(t[1]) =~= t.take(2));
    feed_text(
        terminal,
        Ghost(t.take(2)),
        "\u{1b}[32mdemo@workstation\u{1b}[0m:~/starcom$ cargo test\r\n\r\n",
    );
    assert(t.take(2).push(t[2]) =~= t.take(3));
    feed_text(
        terminal,
        Ghost(t.take(3)),
        "  \u{1b}[32mCompiling\u{1b}[0m starcom v0.1.0\r\n  \u{1b}[32mFinished\u{1b}[0m test profile\r\n\r\n",
    );
    assert(t.take(3).push(t[3]) =~= t.take(4));
    feed_text(
        terminal,
        Ghost(t.take(4)),
        "test control framing              ... \u{1b}[32mok\u{1b}[0m\r\n",
    );
    assert(t.take(4).push(t[4]) =~= t.take(5));
    feed_text(
        terminal,
        Ghost(t.take(5)),
        "test snapshot -> live             ... \u{1b}[32mok\u{1b}[0m\r\n",
    );
    assert(t.take(5).push(t[5]) =~= t.take(6));
    feed_text(
        terminal,
        Ghost(t.take(6)),
        "test Unicode selection            ... \u{1b}[32mok\u{1b}[0m\r\n",
    );
    assert(t.take(6).push(t[6]) =~= t.take(7));
    feed_text(
        terminal,
        Ghost(t.take(7)),
        "test independent panes            ... \u{1b}[32mok\u{1b}[0m\r\n",
    );
    assert(t.take(7).push(t[7]) =~= t.take(8));
    feed_text(
        terminal,
        Ghost(t.take(8)),
        "\r\n\u{1b}[36mDrag to select. Right-click to copy.\u{1b}[0m\r\n\r\n",
    );
    assert(t.take(8).push(t[8]) =~= t.take(9));
    feed_text(
        terminal,
        Ghost(t.take(9)),
        "The window is a client; tmux owns your jobs.\r\n\r\n",
    );
    assert(t.take(9).push(t[9]) =~= t.take(10));
    feed_text(terminal, Ghost(t.take(10)), "\u{1b}[32mdemo@workstation\u{1b}[0m:~/starcom$ ");
    assert(t.take(10).push(t[10]) =~= t);
}

fn feed_log(terminal: &mut Terminal)
    requires
        old(terminal).wf(),
        old(terminal).columns() >= 2,
        old(terminal).inputs().len() == 0,
    ensures
        final(terminal).wf(),
        final(terminal).shape() == old(terminal).shape(),
        final(terminal).spec_size() == old(terminal).spec_size(),
        final(terminal).inputs() == inputs_of(log_texts(LOG_LINES as nat).push(log_end())),
{
    let mut line: u64 = 0;
    proof {
        assert(terminal.inputs() =~= inputs_of(log_texts(0)));
    }
    while line < LOG_LINES
        invariant
            line <= LOG_LINES,
            terminal.wf(),
            terminal.columns() >= 2,
            terminal.shape() == old(terminal).shape(),
            terminal.spec_size() == old(terminal).spec_size(),
            terminal.inputs() == inputs_of(log_texts(line as nat)),
        decreases LOG_LINES - line,
    {
        let text = log_text(line + 1);
        feed_text(terminal, Ghost(log_texts(line as nat)), text.as_str());
        line += 1;
    }
    feed_text(
        terminal,
        Ghost(log_texts(LOG_LINES as nat)),
        "\r\n\u{1b}[33mScroll upward to inspect retained output.\u{1b}[0m\r\n\r\n",
    );
}

fn demo_modes() -> (r: Vec<bool>)
    ensures
        r@ == seq![true, false, false, false, true, false, false, false, false, false],
{
    let mut modes: Vec<bool> = Vec::new();
    modes.push(true);
    modes.push(false);
    modes.push(false);
    modes.push(false);
    modes.push(true);
    modes.push(false);
    modes.push(false);
    modes.push(false);
    modes.push(false);
    modes.push(false);
    assert(modes@ =~= seq![true, false, false, false, true, false, false, false, false, false]);
    modes
}

fn demo_pane(id: u32, size: Size) -> (r: Pane)
    requires
        id <= 2,
        size.spec_columns() == columns_of(id as nat),
        size.spec_rows() == 27,
    ensures
        r.wf(),
        model_of(r) == model(id as nat),
{
    let mut terminal = Terminal::new(size, 300);
    proof {
        terminal.shape_is_size();
        assert(kept_history(54, 27, 300) == 300);
        assert(kept_history(90, 27, 300) == 300);
    }
    if id == 0 {
        feed_prompt(&mut terminal);
    } else {
        feed_log(&mut terminal);
    }
    let tabs: Vec<usize> = Vec::new();
    let state = State {
        pane: PaneId(id),
        window: WindowId(
            if id == 2 {
                1
            } else {
                0
            },
        ),
        size,
        left: if id == 1 {
            55
        } else {
            0
        },
        top: 0,
        cursor: (0, 0),
        alternate: false,
        history_size: 0,
        history_limit: 2000,
        saved_cursor: (0, 0),
        scroll_region: (0, 26),
        modes: demo_modes(),
        bracketed_paste: Some(true),
        tabs,
    };
    proof {
        assert(crate::snapshot::naturals(state.tabs@) =~= Seq::<nat>::empty());
        assert(state@ == facts(id as nat));
    }
    Pane { state, terminal, history_may_be_truncated: false }
}

proof fn demo_fits(panes: Seq<Pane>)
    requires
        panes.len() == 3,
        forall|i: int|
            0 <= i < 3 ==> (#[trigger] panes[i]).wf() && model_of(panes[i]) == model(i as nat),
    ensures
        view_error(panes) is None,
{
    let one = panes.take(1);
    let two = panes.take(2);
    let none = panes.take(0);
    assert(panes.drop_last() =~= two);
    assert(two.drop_last() =~= one);
    assert(one.drop_last() =~= none);
    panes[0].terminal.shape_is_size();
    panes[1].terminal.shape_is_size();
    panes[2].terminal.shape_is_size();
    assert(model_of(panes[0]) == model(0));
    assert(model_of(panes[1]) == model(1));
    assert(model_of(panes[2]) == model(2));
    assert(panes[0].state@.pane == 0);
    assert(panes[1].state@.pane == 1);
    assert(panes[2].state@.pane == 2);
    assert(pane_cells(none) == 0);
    assert(one.last() == panes[0]);
    assert(two.last() == panes[1]);
    assert(panes.last() == panes[2]);
    assert(panes[1].terminal.columns() == 54 && panes[1].terminal.rows() == 27
        && panes[1].terminal.shape().history == 300);
    assert(panes[2].terminal.columns() == 90 && panes[2].terminal.rows() == 27
        && panes[2].terminal.shape().history == 300);
    assert(54 * (2 * 27 + 300) == 19_116 && 90 * (2 * 27 + 300) == 31_860) by (nonlinear_arith);
    assert(panes[0].terminal.columns() == 54 && panes[0].terminal.rows() == 27
        && panes[0].terminal.shape().history == 300);
    assert(pane_cells(one) == 19_116);
    assert(pane_cells(two) == pane_cells(one) + 19_116);
    assert(pane_cells(panes) == pane_cells(two) + 31_860);
    assert(view_error(none) is None);
    assert(view_error(one) is None);
    assert(view_error(two) is None);
}

/// The built-in models.
pub fn demo_view() -> (r: Result<crate::snapshot::View, Error>)
    ensures
        r matches Ok(view) && view.wf() && view.spec_session() == SessionId(0) && view.models() == (
        Models { status: Status::Watching, panes: seq![model(0), model(1), model(2)] }),
{
    let narrow = match Size::new(54, 27) {
        Ok(size) => size,
        Err(_) => return Err(Error::CellBudget),
    };
    let wide = match Size::new(90, 27) {
        Ok(size) => size,
        Err(_) => return Err(Error::CellBudget),
    };
    let mut panes: Vec<Pane> = Vec::new();
    panes.push(demo_pane(0, narrow));
    panes.push(demo_pane(1, narrow));
    panes.push(demo_pane(2, wide));
    let ghost given = panes@;
    proof {
        demo_fits(given);
    }
    let view = crate::snapshot::View::new(SessionId(0), panes)?;
    proof {
        let now = view.spec_panes();
        assert(now.contains(given[0]));
        assert(now.contains(given[1]));
        assert(now.contains(given[2]));
        let a = choose|i: int| 0 <= i < now.len() && now[i] == given[0];
        let b = choose|i: int| 0 <= i < now.len() && now[i] == given[1];
        let c = choose|i: int| 0 <= i < now.len() && now[i] == given[2];
        assert(given[0].state@.pane == 0);
        assert(given[1].state@.pane == 1);
        assert(given[2].state@.pane == 2);
        if b < a {
            assert(now[b].state.pane.0 < now[a].state.pane.0);
        }
        if c < b {
            assert(now[c].state.pane.0 < now[b].state.pane.0);
        }
        assert(a == 0 && b == 1 && c == 2);
        assert(models_of(now) =~= seq![model(0), model(1), model(2)]);
    }
    Ok(view)
}

} // verus!
