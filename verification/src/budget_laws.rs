//! What a session may allocate.
use vstd::prelude::*;

use crate::snapshot::{
    budget_error, facts_panes, session_cells, session_error, Facts, MAX_PANES, MAX_SESSION_CELLS,
};
use crate::terminal::{cell_ceiling, kept_history, MAX_BUFFER_CELLS, MAX_HISTORY_LINES};
use crate::values::valid_size;

verus! {

/// A terminal keeps the lines of history that it was asked for, as far as it may and as
/// far as there is room for them and its screen, and not one line less.
pub proof fn history_fills_the_room(columns: int, rows: int, requested: int)
    requires
        columns >= 1,
        rows >= 1,
        requested >= 0,
    ensures
        ({
            let kept = kept_history(columns, rows, requested);
            &&& 0 <= kept <= requested
            &&& kept <= MAX_HISTORY_LINES
            &&& kept > 0 ==> columns * (rows + kept) <= MAX_BUFFER_CELLS
            &&& kept < requested && kept < MAX_HISTORY_LINES ==> columns * (rows + kept + 1)
                > MAX_BUFFER_CELLS
        }),
{
    let kept = kept_history(columns, rows, requested);
    let most = MAX_BUFFER_CELLS as int / columns;
    assert(columns * most <= MAX_BUFFER_CELLS && columns * (most + 1) > MAX_BUFFER_CELLS)
        by (nonlinear_arith)
        requires
            most == MAX_BUFFER_CELLS as int / columns,
            columns >= 1,
    ;
    if kept > 0 {
        assert(columns * (rows + kept) <= columns * most) by (nonlinear_arith)
            requires
                rows + kept <= most,
                columns >= 1,
        ;
    }
    if kept < requested && kept < MAX_HISTORY_LINES {
        assert(columns * (rows + kept + 1) >= columns * (most + 1)) by (nonlinear_arith)
            requires
                rows + kept >= most,
                columns >= 1,
        ;
    }
}

/// Panes of a size that a terminal can have.
pub open spec fn sized(states: Seq<Facts>) -> bool {
    forall|i: int|
        0 <= i < states.len() ==> valid_size(
            (#[trigger] states[i]).columns as int,
            states[i].rows as int,
        )
}

proof fn cells_only_grow(states: Seq<Facts>, history: int)
    requires
        sized(states),
        states.len() > 0,
        history >= 0,
    ensures
        session_cells(states.drop_last(), history) <= session_cells(states, history),
{
    let f = states.last();
    assert(states[states.len() - 1] == f);
    history_fills_the_room(f.columns as int, f.rows as int, history);
    assert(cell_ceiling(f.columns as int, f.rows as int, history) >= 0) by (nonlinear_arith)
        requires
            cell_ceiling(f.columns as int, f.rows as int, history) == f.columns * (2 * f.rows
                + kept_history(f.columns as int, f.rows as int, history)),
            kept_history(f.columns as int, f.rows as int, history) >= 0,
            f.columns >= 0,
            f.rows >= 0,
    ;
}

/// No two panes have the same number.
pub open spec fn numbered_apart(states: Seq<Facts>) -> bool {
    forall|i: int, j: int|
        0 <= i < j < states.len() ==> (#[trigger] states[i]).pane != (#[trigger] states[j]).pane
}

/// A session is taken exactly where it has panes, not too many of them, each with a number
/// of its own, and where the terminals of all of them together, both screens and the
/// history of each, stay within the cells of a session.
pub proof fn sessions_are_taken_within_their_budget(states: Seq<Facts>, history: int)
    requires
        sized(states),
        history >= 0,
    ensures
        session_error(states, history) is None <==> {
            &&& history <= crate::snapshot::MAX_HISTORY_LINES
            &&& 1 <= states.len() <= MAX_PANES
            &&& numbered_apart(states)
            &&& session_cells(states, history) <= MAX_SESSION_CELLS
        },
{
    budgets_are_kept(states, history);
}

proof fn budgets_are_kept(states: Seq<Facts>, history: int)
    requires
        sized(states),
        history >= 0,
    ensures
        budget_error(states, history) is None <==> numbered_apart(states) && session_cells(
            states,
            history,
        ) <= MAX_SESSION_CELLS,
    decreases states.len(),
{
    if states.len() > 0 {
        let front = states.drop_last();
        let n = states.len() - 1;
        assert(sized(front)) by {
            assert forall|i: int| 0 <= i < front.len() implies valid_size(
                (#[trigger] front[i]).columns as int,
                front[i].rows as int,
            ) by {
                assert(front[i] == states[i]);
            }
        }
        budgets_are_kept(front, history);
        cells_only_grow(states, history);
        let ids = facts_panes(states);
        if numbered_apart(states) {
            assert forall|i: int, j: int| 0 <= i < j < front.len() implies (
            #[trigger] front[i]).pane != (#[trigger] front[j]).pane by {
                assert(front[i] == states[i] && front[j] == states[j]);
            }
            assert forall|j: int|
                0 <= j < ids.len() - 1 implies #[trigger] ids[j] != ids.last() by {
                assert(states[j].pane != states[n].pane);
            }
        }
        if numbered_apart(front) && !crate::snapshot::last_repeats(ids) {
            assert forall|i: int, j: int| 0 <= i < j < states.len() implies (
            #[trigger] states[i]).pane != (#[trigger] states[j]).pane by {
                if j < n {
                    assert(front[i] == states[i] && front[j] == states[j]);
                } else {
                    assert(ids[i] != ids.last());
                }
            }
        }
    }
}

/// The cells of a session are those of its panes, one behind the other, whatever their
/// order.
pub proof fn cells_add_up(a: Seq<Facts>, b: Seq<Facts>, history: int)
    ensures
        session_cells(a + b, history) == session_cells(a, history) + session_cells(b, history),
    decreases b.len(),
{
    if b.len() == 0 {
        assert(a + b =~= a);
    } else {
        cells_add_up(a, b.drop_last(), history);
        assert((a + b).drop_last() =~= a + b.drop_last());
    }
}

/// A pane counts both of its screens and the history that its terminal keeps.
pub proof fn panes_count_both_screens(f: Facts, history: int)
    ensures
        session_cells(seq![f], history) == f.columns * f.rows + f.columns * f.rows + f.columns
            * kept_history(f.columns as int, f.rows as int, history),
{
    let one = seq![f];
    let kept = kept_history(f.columns as int, f.rows as int, history);
    assert(one.drop_last() =~= Seq::<Facts>::empty());
    assert(session_cells(one.drop_last(), history) == 0);
    assert(one.last() == f);
    assert(f.columns * (2 * f.rows + kept) == f.columns * f.rows + f.columns * f.rows + f.columns
        * kept) by (nonlinear_arith);
}

} // verus!
