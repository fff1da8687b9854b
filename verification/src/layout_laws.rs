//! What the hierarchy of a window says of the cells of its panes.
//!
//! The laws speak of the cells alone: of where a pane begins and ends, and of the lines
//! between panes.
use vstd::prelude::*;

use crate::layout::{
    before, behind, best_cut, best_cut_facts, bordering, boundary_of, chosen, chosen_parts, clean,
    distance, end, extent, find, high, high_facts, largest, layout, layout_or_zoom, low, low_facts,
    near_has, neighbors, nearer, parts, ratio_of, resized, sides_facts, spanning, start, touches,
    widest, widest_facts, Axis, Boundary, Neighbors, Node, PaneRect, Side,
};
use crate::tmux::PaneId;

verus! {

/// The first cell of a pane, from left to right or from top to bottom.
pub open spec fn first_cell(axis: Axis, r: PaneRect) -> int {
    if axis is Horizontal {
        r.left as int
    } else {
        r.top as int
    }
}

/// The cell behind the last one of a pane.
pub open spec fn past_cell(axis: Axis, r: PaneRect) -> int {
    if axis is Horizontal {
        r.left + r.columns
    } else {
        r.top + r.rows
    }
}

/// Whether panes reach from one cell to another, and no further.
pub open spec fn reach_over(axis: Axis, s: Seq<PaneRect>, from: int, to: int) -> bool {
    &&& exists|i: int| 0 <= i < s.len() && first_cell(axis, #[trigger] s[i]) == from
    &&& exists|i: int| 0 <= i < s.len() && past_cell(axis, #[trigger] s[i]) == to
    &&& forall|i: int|
        0 <= i < s.len() ==> from <= first_cell(axis, #[trigger] s[i]) && past_cell(axis, s[i])
            <= to
}

/// A line before some panes and behind the others.
pub open spec fn between(axis: Axis, s: Seq<PaneRect>, line: int) -> bool {
    &&& exists|i: int| 0 <= i < s.len() && first_cell(axis, #[trigger] s[i]) < line
    &&& exists|i: int| 0 <= i < s.len() && first_cell(axis, #[trigger] s[i]) == line
    &&& forall|i: int|
        0 <= i < s.len() ==> past_cell(axis, #[trigger] s[i]) <= line || first_cell(axis, s[i])
            >= line
}

/// How far twice a cell is from the sum of two others.
pub open spec fn off_middle(line: int, from: int, to: int) -> int {
    if 2 * line < from + to {
        from + to - 2 * line
    } else {
        2 * line - from - to
    }
}

pub open spec fn solid(s: Seq<PaneRect>) -> bool {
    forall|i: int| 0 <= i < s.len() ==> (#[trigger] s[i]).columns >= 1 && s[i].rows >= 1
}

/// Every pane is in one of two parts, and nothing else is.
pub open spec fn shared_out(s: Seq<PaneRect>, near: Seq<PaneRect>, far: Seq<PaneRect>) -> bool {
    &&& near.len() + far.len() == s.len()
    &&& forall|i: int|
        0 <= i < s.len() ==> near.contains(#[trigger] s[i]) || far.contains(s[i])
    &&& forall|i: int| 0 <= i < near.len() ==> s.contains(#[trigger] near[i])
    &&& forall|i: int| 0 <= i < far.len() ==> s.contains(#[trigger] far[i])
}

/// A divider that can be moved: one cell lies between the two sides, and a pane spans the
/// near one from its first cell to its last.
pub open spec fn movable(
    axis: Axis,
    near: Seq<PaneRect>,
    from: int,
    to: int,
    line: int,
    b: Boundary,
) -> bool {
    &&& line == to + 1
    &&& exists|i: int|
        0 <= i < near.len() && (#[trigger] near[i]).pane == b.pane && first_cell(axis, near[i])
            == from && past_cell(axis, near[i]) == to
    &&& b.pane_cells == to - from
}

/// What a split says of the panes of its two sides.
pub open spec fn splits(
    node: Node,
    s: Seq<PaneRect>,
    near: Seq<PaneRect>,
    far: Seq<PaneRect>,
    from: int,
    to: int,
    line: int,
    past: int,
) -> bool {
    &&& node matches Node::Split { axis, ratio, boundary, first, second }
    &&& layout(near) == Some(*first)
    &&& layout(far) == Some(*second)
    &&& shared_out(s, near, far)
    &&& reach_over(axis, near, from, to)
    &&& reach_over(axis, far, line, past)
    &&& to <= line
    &&& ratio.part == to - from
    &&& ratio.whole == (to - from) + (past - line)
    &&& boundary matches Some(b) ==> movable(axis, near, from, to, line, b)
    &&& boundary is None ==> line != to + 1 || forall|i: int|
        0 <= i < near.len() ==> first_cell(axis, #[trigger] near[i]) != from || past_cell(
            axis,
            near[i],
        ) != to
    // No line is passed over: one across the width is taken before any across the
    // height, and the one nearest to the middle before the others.
    &&& axis is Vertical ==> forall|other: int| !(#[trigger] between(Axis::Horizontal, s, other))
    &&& forall|other: int| #[trigger]
        between(axis, s, other) ==> off_middle(line, from, past) < off_middle(other, from, past)
            || (off_middle(line, from, past) == off_middle(other, from, past) && line <= other)
}

proof fn lines_are_cuts(axis: Axis, s: Seq<PaneRect>, line: int)
    requires
        s.len() > 0,
    ensures
        between(axis, s, line) ==> parts(axis, s, line) && exists|i: int|
            0 <= i < s.len() && start(axis, #[trigger] s[i]) == line,
{
    low_facts(axis, s);
    if between(axis, s, line) {
        let i = choose|i: int| 0 <= i < s.len() && first_cell(axis, #[trigger] s[i]) < line;
        assert(low(axis, s) <= start(axis, s[i]));
        let j = choose|i: int| 0 <= i < s.len() && first_cell(axis, #[trigger] s[i]) == line;
        assert(start(axis, s[j]) == line);
        assert forall|i: int| 0 <= i < s.len() implies !(start(axis, #[trigger] s[i]) < line && end(
            axis,
            s[i],
        ) > line) by {
            assert(past_cell(axis, s[i]) <= line || first_cell(axis, s[i]) >= line);
        }
    }
}

proof fn far_has(axis: Axis, s: Seq<PaneRect>, cut: int, m: int)
    requires
        0 <= m < s.len(),
        start(axis, s[m]) >= cut,
    ensures
        behind(axis, s, cut).contains(s[m]),
    decreases s.len(),
{
    let rest = s.drop_last();
    let far = behind(axis, s, cut);
    if m < rest.len() {
        far_has(axis, rest, cut, m);
        let inner = behind(axis, rest, cut);
        let n = choose|n: int| 0 <= n < inner.len() && inner[n] == rest[m];
        assert(far[n] == inner[n]);
    } else {
        assert(far[far.len() - 1] == s[m]);
    }
}

proof fn spans_are_found(axis: Axis, s: Seq<PaneRect>, from: int, to: int)
    ensures
        match spanning(axis, s, from, to) {
            Some(b) => exists|i: int|
                0 <= i < s.len() && (#[trigger] s[i]).pane == b.pane && start(axis, s[i]) == from
                    && end(axis, s[i]) == to && b.pane_cells == extent(axis, s[i]),
            None => forall|i: int|
                0 <= i < s.len() ==> start(axis, #[trigger] s[i]) != from || end(axis, s[i]) != to,
        },
    decreases s.len(),
{
    if s.len() > 0 {
        let rest = s.drop_last();
        spans_are_found(axis, rest, from, to);
        match spanning(axis, rest, from, to) {
            Some(b) => {
                let i = choose|i: int|
                    0 <= i < rest.len() && (#[trigger] rest[i]).pane == b.pane && start(
                        axis,
                        rest[i],
                    ) == from && end(axis, rest[i]) == to && b.pane_cells == extent(
                        axis,
                        rest[i],
                    );
                assert(s[i] == rest[i]);
            },
            None => {
                assert(s[s.len() - 1] == s.last());
                assert forall|i: int| 0 <= i < s.len() - 1 implies start(axis, #[trigger] s[i])
                    != from || end(axis, s[i]) != to by {
                    assert(s[i] == rest[i]);
                }
            },
        }
    }
}

proof fn sides_reach_over(axis: Axis, s: Seq<PaneRect>)
    requires
        s.len() > 0,
    ensures
        reach_over(axis, s, low(axis, s), high(axis, s)),
{
    low_facts(axis, s);
    high_facts(axis, s);
    let i = choose|i: int| 0 <= i < s.len() && low(axis, s) == start(axis, #[trigger] s[i]);
    assert(first_cell(axis, s[i]) == low(axis, s));
    let j = choose|i: int| 0 <= i < s.len() && high(axis, s) == end(axis, #[trigger] s[i]);
    assert(past_cell(axis, s[j]) == high(axis, s));
    assert forall|i: int| 0 <= i < s.len() implies low(axis, s) <= first_cell(axis, #[trigger] s[i])
        && past_cell(axis, s[i]) <= high(axis, s) by {
        assert(low(axis, s) <= start(axis, s[i]));
        assert(end(axis, s[i]) <= high(axis, s));
    }
}

/// The two sides of a cut lie apart and together make up the whole.
proof fn sides_lie_apart(axis: Axis, s: Seq<PaneRect>, cut: int)
    requires
        s.len() > 0,
        solid(s),
        parts(axis, s, cut),
        exists|i: int| 0 <= i < s.len() && start(axis, #[trigger] s[i]) == cut,
        before(axis, s, cut).len() > 0,
        behind(axis, s, cut).len() > 0,
    ensures
        ({
            let near = before(axis, s, cut);
            let far = behind(axis, s, cut);
            &&& shared_out(s, near, far)
            &&& solid(near)
            &&& solid(far)
            &&& low(axis, near) == low(axis, s)
            &&& high(axis, near) <= cut
            &&& low(axis, far) == cut
            &&& high(axis, far) == high(axis, s)
        }),
{
    let near = before(axis, s, cut);
    let far = behind(axis, s, cut);
    sides_facts(axis, s, cut);
    assert forall|i: int| 0 <= i < s.len() implies near.contains(#[trigger] s[i]) || far.contains(
        s[i],
    ) by {
        if start(axis, s[i]) < cut {
            near_has(axis, s, cut, i);
        } else {
            far_has(axis, s, cut, i);
        }
    }
    low_facts(axis, s);
    high_facts(axis, s);
    low_facts(axis, near);
    high_facts(axis, near);
    low_facts(axis, far);
    high_facts(axis, far);
    assert forall|i: int| 0 <= i < near.len() implies end(axis, #[trigger] near[i]) <= cut
        && near[i].columns >= 1 && near[i].rows >= 1 && low(axis, s) <= start(axis, near[i]) by {
        assert(s.contains(near[i]));
        let k = choose|k: int| 0 <= k < s.len() && s[k] == near[i];
        assert(!(start(axis, s[k]) < cut && end(axis, s[k]) > cut));
        assert(low(axis, s) <= start(axis, s[k]));
    }
    assert forall|i: int| 0 <= i < far.len() implies far[i].columns >= 1 && (
    #[trigger] far[i]).rows >= 1 && end(axis, far[i]) <= high(axis, s) by {
        assert(s.contains(far[i]));
        let k = choose|k: int| 0 <= k < s.len() && s[k] == far[i];
        assert(s[k].columns >= 1);
        assert(end(axis, s[k]) <= high(axis, s));
    }
    let m = choose|i: int| 0 <= i < s.len() && low(axis, s) == start(axis, #[trigger] s[i]);
    near_has(axis, s, cut, m);
    let n = choose|n: int| 0 <= n < near.len() && #[trigger] near[n] == s[m];
    assert(low(axis, near) <= start(axis, near[n]));
    let l = choose|i: int|
        0 <= i < near.len() && low(axis, near) == start(axis, #[trigger] near[i]);
    assert(low(axis, s) <= start(axis, near[l]));
    let c = choose|i: int| 0 <= i < s.len() && start(axis, #[trigger] s[i]) == cut;
    far_has(axis, s, cut, c);
    let f = choose|n: int| 0 <= n < far.len() && far[n] == s[c];
    assert(low(axis, far) <= start(axis, far[f]));
    let g = choose|i: int| 0 <= i < far.len() && low(axis, far) == start(axis, #[trigger] far[i]);
    assert(start(axis, far[g]) >= cut);
    let h = choose|i: int| 0 <= i < s.len() && high(axis, s) == end(axis, #[trigger] s[i]);
    if start(axis, s[h]) < cut {
        near_has(axis, s, cut, h);
        let q = choose|n: int| 0 <= n < near.len() && #[trigger] near[n] == s[h];
        assert(end(axis, near[q]) <= cut);
        assert(end(axis, s[c]) <= high(axis, s));
        assert(s[c].columns >= 1 && s[c].rows >= 1);
    } else {
        far_has(axis, s, cut, h);
        let q = choose|n: int| 0 <= n < far.len() && far[n] == s[h];
        assert(end(axis, far[q]) <= high(axis, far));
    }
    let e = choose|i: int| 0 <= i < near.len() && high(axis, near) == end(axis, #[trigger] near[i]);
    assert(end(axis, near[e]) <= cut);
    let w = choose|i: int| 0 <= i < far.len() && high(axis, far) == end(axis, #[trigger] far[i]);
    assert(end(axis, far[w]) <= high(axis, s));
}

/// A split is a line between panes. All panes of its first side end before the line and
/// all panes of its second side begin behind it. Its ratio is that of the cells of the
/// two sides, its divider is the one cell between them, and of all lines between panes
/// none across the width is passed over, nor one nearer to the middle.
pub proof fn splits_follow_the_lines(s: Seq<PaneRect>)
    requires
        layout(s) is Some,
        solid(s),
        s.len() > 1,
    ensures
        exists|
            near: Seq<PaneRect>,
            far: Seq<PaneRect>,
            from: int,
            to: int,
            line: int,
            past: int,
        | #[trigger]
            splits(layout(s)->0, s, near, far, from, to, line, past),
{
    let (axis, cut) = chosen(s)->0;
    chosen_parts(s);
    best_cut_facts(axis, s, s.len());
    let near = before(axis, s, cut);
    let far = behind(axis, s, cut);
    sides_lie_apart(axis, s, cut);
    sides_reach_over(axis, near);
    sides_reach_over(axis, far);
    let from = low(axis, near);
    let to = high(axis, near);
    let past = high(axis, far);
    spans_are_found(axis, near, from, to);
    assert(0 <= from && past <= 2 * usize::MAX) by {
        low_facts(axis, s);
        high_facts(axis, s);
        let h = choose|i: int| 0 <= i < s.len() && high(axis, s) == end(axis, #[trigger] s[i]);
        assert(end(axis, s[h]) <= 2 * usize::MAX);
        let l = choose|i: int| 0 <= i < s.len() && low(axis, s) == start(axis, #[trigger] s[i]);
        assert(start(axis, s[l]) >= 0);
    }
    assert(from <= to && cut <= past) by {
        let i = choose|i: int| 0 <= i < near.len() && first_cell(axis, #[trigger] near[i]) == from;
        assert(past_cell(axis, near[i]) <= to);
        let j = choose|i: int| 0 <= i < far.len() && first_cell(axis, #[trigger] far[i]) == cut;
        assert(past_cell(axis, far[j]) <= past);
    }
    assert(ratio_of(axis, s, cut).part == to - from);
    assert(ratio_of(axis, s, cut).whole == (to - from) + (past - cut));
    assert(boundary_of(axis, s, cut) matches Some(b) ==> movable(axis, near, from, to, cut, b)) by {
        if let Some(b) = boundary_of(axis, s, cut) {
            let i = choose|i: int|
                0 <= i < near.len() && (#[trigger] near[i]).pane == b.pane && start(axis, near[i])
                    == from && end(axis, near[i]) == to && b.pane_cells == extent(axis, near[i]);
            assert(first_cell(axis, near[i]) == from && past_cell(axis, near[i]) == to);
        }
    }
    assert(boundary_of(axis, s, cut) is None ==> cut != to + 1 || forall|i: int|
        0 <= i < near.len() ==> first_cell(axis, #[trigger] near[i]) != from || past_cell(
            axis,
            near[i],
        ) != to) by {
        if boundary_of(axis, s, cut) is None && cut == to + 1 {
            assert forall|i: int| 0 <= i < near.len() implies first_cell(axis, #[trigger] near[i])
                != from || past_cell(axis, near[i]) != to by {
                assert(start(axis, near[i]) != from || end(axis, near[i]) != to);
            }
        }
    }
    assert(axis is Vertical ==> forall|other: int|
        !(#[trigger] between(Axis::Horizontal, s, other))) by {
        if axis is Vertical {
            best_cut_facts(Axis::Horizontal, s, s.len());
            assert forall|other: int| !(#[trigger] between(Axis::Horizontal, s, other)) by {
                lines_are_cuts(Axis::Horizontal, s, other);
                if between(Axis::Horizontal, s, other) {
                    let i = choose|i: int|
                        0 <= i < s.len() && start(Axis::Horizontal, #[trigger] s[i]) == other;
                    assert(!parts(Axis::Horizontal, s, start(Axis::Horizontal, s[i])));
                }
            }
        }
    }
    assert forall|other: int| #[trigger] between(axis, s, other) implies off_middle(cut, from, past)
        < off_middle(other, from, past) || (off_middle(cut, from, past) == off_middle(
        other,
        from,
        past,
    ) && cut <= other) by {
        lines_are_cuts(axis, s, other);
        let i = choose|i: int| 0 <= i < s.len() && start(axis, #[trigger] s[i]) == other;
        assert(!nearer(axis, s, start(axis, s[i]), cut));
        assert(off_middle(cut, from, past) == distance(axis, s, cut));
        assert(off_middle(other, from, past) == distance(axis, s, other));
    }
    assert(splits(layout(s)->0, s, near, far, from, to, cut, past));
}

/// Panes that lines can part, again and again, until each is alone.
pub open spec fn sliced(s: Seq<PaneRect>, depth: nat) -> bool
    decreases depth,
{
    ||| s.len() == 1
    ||| depth > 0 && exists|axis: Axis, line: int, near: Seq<PaneRect>, far: Seq<PaneRect>|
        #![trigger apart(axis, line, s, near, far)]
        apart(axis, line, s, near, far) && sliced(near, (depth - 1) as nat) && sliced(
            far,
            (depth - 1) as nat,
        )
}

/// Two parts of some panes, one before a line and one behind it.
pub open spec fn apart(
    axis: Axis,
    line: int,
    s: Seq<PaneRect>,
    near: Seq<PaneRect>,
    far: Seq<PaneRect>,
) -> bool {
    &&& near.len() > 0
    &&& far.len() > 0
    &&& shared_out(s, near, far)
    &&& forall|i: int| 0 <= i < near.len() ==> past_cell(axis, #[trigger] near[i]) <= line
    &&& forall|i: int| 0 <= i < far.len() ==> first_cell(axis, #[trigger] far[i]) >= line
}

proof fn slices_stay(s: Seq<PaneRect>, a: nat, b: nat)
    requires
        sliced(s, a),
        a <= b,
    ensures
        sliced(s, b),
    decreases a,
{
    if s.len() != 1 {
        let (axis, line, near, far) = choose|
            axis: Axis,
            line: int,
            near: Seq<PaneRect>,
            far: Seq<PaneRect>,
        | #[trigger]
            apart(axis, line, s, near, far) && sliced(near, (a - 1) as nat) && sliced(
                far,
                (a - 1) as nat,
            );
        slices_stay(near, (a - 1) as nat, (b - 1) as nat);
        slices_stay(far, (a - 1) as nat, (b - 1) as nat);
        assert(apart(axis, line, s, near, far));
    }
}

proof fn sides_are_once(axis: Axis, s: Seq<PaneRect>, cut: int)
    requires
        s.no_duplicates(),
    ensures
        before(axis, s, cut).no_duplicates(),
        behind(axis, s, cut).no_duplicates(),
    decreases s.len(),
{
    if s.len() > 0 {
        let rest = s.drop_last();
        sides_are_once(axis, rest, cut);
        sides_facts(axis, rest, cut);
        let near = before(axis, rest, cut);
        let far = behind(axis, rest, cut);
        assert(!rest.contains(s.last())) by {
            if rest.contains(s.last()) {
                let k = choose|k: int| 0 <= k < rest.len() && rest[k] == s.last();
                assert(s[k] == s[s.len() - 1]);
            }
        }
        assert forall|i: int| 0 <= i < near.len() implies #[trigger] near[i] != s.last() by {
            assert(rest.contains(near[i]));
        }
        assert forall|i: int| 0 <= i < far.len() implies #[trigger] far[i] != s.last() by {
            assert(rest.contains(far[i]));
        }
    }
}

/// What is left of sliced panes is sliced.
proof fn fewer_are_sliced(s: Seq<PaneRect>, t: Seq<PaneRect>, depth: nat)
    requires
        sliced(s, depth),
        solid(s),
        t.len() > 0,
        t.no_duplicates(),
        forall|i: int| 0 <= i < t.len() ==> s.contains(#[trigger] t[i]),
    ensures
        sliced(t, depth),
    decreases depth,
{
    if s.len() == 1 {
        assert forall|i: int| 0 <= i < t.len() implies #[trigger] t[i] == s[0] by {
            assert(s.contains(t[i]));
        }
        if t.len() > 1 {
            assert(t[0] == t[1]);
        }
    } else {
        let d = (depth - 1) as nat;
        let (axis, line, near, far) = choose|
            axis: Axis,
            line: int,
            near: Seq<PaneRect>,
            far: Seq<PaneRect>,
        | #[trigger]
            apart(axis, line, s, near, far) && sliced(near, d) && sliced(far, d);
        let a = before(axis, t, line);
        let b = behind(axis, t, line);
        sides_facts(axis, t, line);
        sides_are_once(axis, t, line);
        assert(solid(near)) by {
            assert forall|i: int| 0 <= i < near.len() implies (#[trigger] near[i]).columns >= 1
                && near[i].rows >= 1 by {
                assert(s.contains(near[i]));
                let k = choose|k: int| 0 <= k < s.len() && s[k] == near[i];
                assert(s[k].columns >= 1);
            }
        }
        assert(solid(far)) by {
            assert forall|i: int| 0 <= i < far.len() implies (#[trigger] far[i]).columns >= 1
                && far[i].rows >= 1 by {
                assert(s.contains(far[i]));
                let k = choose|k: int| 0 <= k < s.len() && s[k] == far[i];
                assert(s[k].columns >= 1);
            }
        }
        assert forall|i: int| 0 <= i < a.len() implies near.contains(#[trigger] a[i]) && past_cell(
            axis,
            a[i],
        ) <= line by {
            assert(t.contains(a[i]));
            let k = choose|k: int| 0 <= k < t.len() && t[k] == a[i];
            assert(s.contains(t[k]));
            let j = choose|j: int| 0 <= j < s.len() && s[j] == t[k];
            assert(near.contains(s[j]) || far.contains(s[j]));
            if far.contains(s[j]) {
                let f = choose|f: int| 0 <= f < far.len() && far[f] == s[j];
                assert(first_cell(axis, far[f]) >= line);
            }
            let n = choose|n: int| 0 <= n < near.len() && near[n] == s[j];
            assert(past_cell(axis, near[n]) <= line);
        }
        assert forall|i: int| 0 <= i < b.len() implies far.contains(#[trigger] b[i]) && first_cell(
            axis,
            b[i],
        ) >= line by {
            assert(t.contains(b[i]));
            let k = choose|k: int| 0 <= k < t.len() && t[k] == b[i];
            assert(s.contains(t[k]));
            let j = choose|j: int| 0 <= j < s.len() && s[j] == t[k];
            assert(near.contains(s[j]) || far.contains(s[j]));
            if near.contains(s[j]) {
                let n = choose|n: int| 0 <= n < near.len() && near[n] == s[j];
                assert(past_cell(axis, near[n]) <= line);
                assert(near[n].columns >= 1 && near[n].rows >= 1);
            }
        }
        assert(shared_out(t, a, b)) by {
            assert forall|i: int| 0 <= i < t.len() implies a.contains(#[trigger] t[i])
                || b.contains(t[i]) by {
                if start(axis, t[i]) < line {
                    near_has(axis, t, line, i);
                } else {
                    far_has(axis, t, line, i);
                }
            }
        }
        if a.len() == 0 {
            assert forall|i: int| 0 <= i < t.len() implies far.contains(#[trigger] t[i]) by {
                assert(a.contains(t[i]) || b.contains(t[i]));
                let k = choose|k: int| 0 <= k < b.len() && b[k] == t[i];
                assert(far.contains(b[k]));
            }
            fewer_are_sliced(far, t, d);
            slices_stay(t, d, depth);
        } else if b.len() == 0 {
            assert forall|i: int| 0 <= i < t.len() implies near.contains(#[trigger] t[i]) by {
                assert(a.contains(t[i]) || b.contains(t[i]));
                let k = choose|k: int| 0 <= k < a.len() && a[k] == t[i];
                assert(near.contains(a[k]));
            }
            fewer_are_sliced(near, t, d);
            slices_stay(t, d, depth);
        } else {
            fewer_are_sliced(near, a, d);
            fewer_are_sliced(far, b, d);
            assert(apart(axis, line, t, a, b));
        }
    }
}

/// Where a line parts panes, one is chosen.
proof fn lines_are_seen(
    s: Seq<PaneRect>,
    axis: Axis,
    line: int,
    near: Seq<PaneRect>,
    far: Seq<PaneRect>,
)
    requires
        solid(s),
        apart(axis, line, s, near, far),
    ensures
        chosen(s) is Some,
{
    low_facts(axis, far);
    let g = choose|i: int| 0 <= i < far.len() && low(axis, far) == start(axis, #[trigger] far[i]);
    let cut = low(axis, far);
    assert(first_cell(axis, far[g]) >= line);
    assert(s.contains(far[g]));
    let c = choose|k: int| 0 <= k < s.len() && s[k] == far[g];
    assert(s.contains(near[0]));
    let m = choose|k: int| 0 <= k < s.len() && s[k] == near[0];
    low_facts(axis, s);
    assert(low(axis, s) <= start(axis, s[m]));
    assert(s[m].columns >= 1 && s[m].rows >= 1);
    assert(past_cell(axis, near[0]) <= line);
    assert(clean(axis, s, cut)) by {
        assert forall|i: int| 0 <= i < s.len() implies !(start(axis, #[trigger] s[i]) < cut && end(
            axis,
            s[i],
        ) > cut) by {
            assert(near.contains(s[i]) || far.contains(s[i]));
            if near.contains(s[i]) {
                let n = choose|n: int| 0 <= n < near.len() && near[n] == s[i];
                assert(past_cell(axis, near[n]) <= line);
            } else {
                let f = choose|f: int| 0 <= f < far.len() && far[f] == s[i];
                assert(low(axis, far) <= start(axis, far[f]));
            }
        }
    }
    assert(parts(axis, s, start(axis, s[c])));
    best_cut_facts(axis, s, s.len());
    if best_cut(axis, s, s.len()) is None {
        assert(!parts(axis, s, start(axis, s[c])));
    }
}

/// Every window that lines can part into its panes has a hierarchy.
pub proof fn sliced_windows_have_a_layout(s: Seq<PaneRect>, depth: nat)
    requires
        sliced(s, depth),
        solid(s),
        s.len() > 0,
        s.no_duplicates(),
    ensures
        layout(s) is Some,
    decreases s.len(),
{
    if s.len() > 1 {
        let (axis, line, near, far) = choose|
            axis: Axis,
            line: int,
            near: Seq<PaneRect>,
            far: Seq<PaneRect>,
        | #[trigger]
            apart(axis, line, s, near, far) && sliced(near, (depth - 1) as nat) && sliced(
                far,
                (depth - 1) as nat,
            );
        lines_are_seen(s, axis, line, near, far);
        let (along, cut) = chosen(s)->0;
        chosen_parts(s);
        best_cut_facts(along, s, s.len());
        sides_lie_apart(along, s, cut);
        sides_are_once(along, s, cut);
        sides_facts(along, s, cut);
        fewer_are_sliced(s, before(along, s, cut), depth);
        fewer_are_sliced(s, behind(along, s, cut), depth);
        sliced_windows_have_a_layout(before(along, s, cut), depth);
        sliced_windows_have_a_layout(behind(along, s, cut), depth);
    }
}

/// A window that no line parts shows one of its panes: none has more cells, and none that
/// is listed later has as many.
pub proof fn zoomed_windows_show_the_largest(s: Seq<PaneRect>)
    requires
        layout(s) is None,
        s.len() > 0,
        forall|i: int| 0 <= i < s.len() ==> (#[trigger] s[i]).columns * s[i].rows <= usize::MAX,
    ensures
        exists|k: int|
            {
                &&& 0 <= k < s.len()
                &&& layout_or_zoom(s) == Some(Node::Pane((#[trigger] s[k]).pane))
                &&& forall|i: int|
                    0 <= i < s.len() ==> (#[trigger] s[i]).columns * s[i].rows <= s[k].columns
                        * s[k].rows
                &&& forall|i: int|
                    k < i < s.len() ==> (#[trigger] s[i]).columns * s[i].rows < s[k].columns
                        * s[k].rows
            },
{
    let k = largest_place(s);
    assert(largest(s) == Some(s[k]));
}

proof fn largest_place(s: Seq<PaneRect>) -> (k: int)
    requires
        s.len() > 0,
        forall|i: int| 0 <= i < s.len() ==> (#[trigger] s[i]).columns * s[i].rows <= usize::MAX,
    ensures
        0 <= k < s.len(),
        largest(s) == Some(s[k]),
        forall|i: int|
            0 <= i < s.len() ==> (#[trigger] s[i]).columns * s[i].rows <= s[k].columns * s[k].rows,
        forall|i: int|
            k < i < s.len() ==> (#[trigger] s[i]).columns * s[i].rows < s[k].columns * s[k].rows,
    decreases s.len(),
{
    let rest = s.drop_last();
    let n = s.len() - 1;
    assert(s[n].columns * s[n].rows <= usize::MAX);
    if rest.len() == 0 {
        assert(largest(rest) is None);
        n
    } else {
        assert forall|i: int| 0 <= i < rest.len() implies (#[trigger] rest[i]).columns
            * rest[i].rows <= usize::MAX by {
            assert(rest[i] == s[i]);
        }
        let j = largest_place(rest);
        assert(rest[j] == s[j]);
        assert forall|i: int| 0 <= i < n implies (#[trigger] s[i]).columns * s[i].rows
            <= s[j].columns * s[j].rows by {
            assert(rest[i] == s[i]);
        }
        assert forall|i: int| j < i < n implies (#[trigger] s[i]).columns * s[i].rows
            < s[j].columns * s[j].rows by {
            assert(rest[i] == s[i]);
        }
        if s[n].columns * s[n].rows >= s[j].columns * s[j].rows {
            n
        } else {
            j
        }
    }
}

/// A divider that is moved asks its own pane for the size nearest to the wanted one that
/// a pane can have, along its own axis, and asks for nothing where that is the size.
pub proof fn dividers_ask_for_the_nearest_size(b: Boundary, axis: Axis, cells: int, other: int)
    requires
        1 <= other <= 4096,
    ensures
        match resized(b, axis, cells) {
            Some((pane, resize)) => {
                &&& pane == b.pane
                &&& axis is Horizontal <==> resize.axis is Columns
                &&& 1 <= resize.cells <= 4096
                &&& resize.cells != b.pane_cells
                &&& off_middle(resize.cells as int, cells, cells) <= off_middle(other, cells, cells)
            },
            None => {
                &&& 1 <= b.pane_cells <= 4096
                &&& off_middle(b.pane_cells as int, cells, cells) <= off_middle(
                    other,
                    cells,
                    cells,
                )
            },
        },
{
}

/// The neighbour on a side.
pub open spec fn on_side(n: Neighbors, side: Side) -> Option<PaneId> {
    if side is Left {
        n.left
    } else if side is Right {
        n.right
    } else if side is Up {
        n.up
    } else {
        n.down
    }
}

/// Another pane of the same window that meets the edge of a pane, with no cell between.
pub open spec fn meets(side: Side, me: PaneRect, other: PaneRect) -> bool {
    &&& other.pane != me.pane
    &&& other.window == me.window
    &&& if side is Left {
        other.left + other.columns == me.left
    } else if side is Right {
        me.left + me.columns == other.left
    } else if side is Up {
        other.top + other.rows == me.top
    } else {
        me.top + me.rows == other.top
    }
}

/// A run of cells along the edge that both panes have.
pub open spec fn along(side: Side, me: PaneRect, other: PaneRect, from: int, cells: int) -> bool {
    let axis = if side is Left || side is Right {
        Axis::Vertical
    } else {
        Axis::Horizontal
    };
    &&& first_cell(axis, me) <= from
    &&& first_cell(axis, other) <= from
    &&& from + cells <= past_cell(axis, me)
    &&& from + cells <= past_cell(axis, other)
}

/// A neighbour that no pane surpasses and no earlier one equals.
pub open spec fn foremost(
    side: Side,
    s: Seq<PaneRect>,
    me: PaneRect,
    k: int,
    from: int,
    cells: int,
) -> bool {
    &&& 0 <= k < s.len()
    &&& meets(side, me, s[k])
    &&& cells >= 1
    &&& along(side, me, s[k], from, cells)
    &&& forall|j: int, f: int, c: int|
        0 <= j < s.len() && meets(side, me, s[j]) && #[trigger] along(side, me, s[j], f, c) ==> c
            <= cells && (c == cells ==> j >= k)
}

proof fn widest_is_foremost(side: Side, me: PaneRect, s: Seq<PaneRect>)
    ensures
        match widest(side, me, s).0 {
            Some(id) => exists|k: int, from: int|
                #![trigger along(side, me, s[k], from, widest(side, me, s).1)]
                foremost(side, s, me, k, from, widest(side, me, s).1) && s[k].pane == id,
            None => widest(side, me, s).1 == 0 && forall|j: int, f: int, c: int|
                0 <= j < s.len() && meets(side, me, s[j]) && #[trigger] along(
                    side,
                    me,
                    s[j],
                    f,
                    c,
                ) ==> c <= 0,
        },
    decreases s.len(),
{
    if s.len() > 0 {
        let rest = s.drop_last();
        let n = s.len() - 1;
        widest_is_foremost(side, me, rest);
        widest_facts(side, me, rest);
        let best = widest(side, me, rest).1;
        let here = bordering(side, me, s.last());
        assert forall|j: int, f: int, c: int|
            0 <= j < s.len() && meets(side, me, s[j]) && #[trigger] along(
                side,
                me,
                s[j],
                f,
                c,
            ) implies c <= bordering(side, me, s[j]) by {
            edges_are_measured(side, me, s[j], f, c);
        }
        assert forall|j: int| 0 <= j < n implies bordering(side, me, #[trigger] s[j]) <= best by {
            assert(s[j] == rest[j]);
        }
        if here > best {
            let from = edge_start(side, me, s.last());
            assert(s[n] == s.last());
            assert(foremost(side, s, me, n, from, here));
            assert(along(side, me, s[n], from, widest(side, me, s).1));
        } else if widest(side, me, rest).0 is Some {
            let id = widest(side, me, rest).0->0;
            let (k, from) = choose|k: int, from: int|
                #![trigger along(side, me, rest[k], from, best)]
                foremost(side, rest, me, k, from, best) && rest[k].pane == id;
            assert(s[k] == rest[k]);
            assert forall|j: int, f: int, c: int|
                0 <= j < s.len() && meets(side, me, s[j]) && #[trigger] along(
                    side,
                    me,
                    s[j],
                    f,
                    c,
                ) implies c <= best && (c == best ==> j >= k) by {
                if j < n {
                    assert(s[j] == rest[j]);
                    assert(along(side, me, rest[j], f, c));
                }
            }
            assert(foremost(side, s, me, k, from, best));
            assert(along(side, me, s[k], from, widest(side, me, s).1));
        } else {
            assert forall|j: int, f: int, c: int|
                0 <= j < s.len() && meets(side, me, s[j]) && #[trigger] along(
                    side,
                    me,
                    s[j],
                    f,
                    c,
                ) implies c <= 0 by {
                if j < n {
                    assert(s[j] == rest[j]);
                    assert(along(side, me, rest[j], f, c));
                }
            }
        }
    }
}

proof fn edges_are_measured(side: Side, me: PaneRect, other: PaneRect, from: int, cells: int)
    requires
        meets(side, me, other),
        along(side, me, other, from, cells),
    ensures
        cells <= bordering(side, me, other),
{
    assert(touches(side, me, other));
}

proof fn edge_start(side: Side, me: PaneRect, other: PaneRect) -> (from: int)
    requires
        bordering(side, me, other) > 0,
    ensures
        meets(side, me, other),
        along(side, me, other, from, bordering(side, me, other)),
{
    assert(touches(side, me, other));
    let axis = if side is Left || side is Right {
        Axis::Vertical
    } else {
        Axis::Horizontal
    };
    if first_cell(axis, me) > first_cell(axis, other) {
        first_cell(axis, me)
    } else {
        first_cell(axis, other)
    }
}

/// The neighbour of a pane on a side is a pane of its window that meets its edge there,
/// the first of those that share most cells of it; where there is none, no pane of the
/// window shares a cell of that edge.
pub proof fn neighbors_share_most_of_the_edge(s: Seq<PaneRect>, m: int, side: Side)
    requires
        0 <= m < s.len(),
        forall|i: int| 0 <= i < m ==> (#[trigger] s[i]).pane != s[m].pane,
    ensures
        match on_side(neighbors(s, s[m].pane), side) {
            Some(id) => exists|k: int, from: int, cells: int| #[trigger]
                foremost(side, s, s[m], k, from, cells) && s[k].pane == id,
            None => forall|j: int, f: int, c: int|
                0 <= j < s.len() && meets(side, s[m], s[j]) && #[trigger] along(
                    side,
                    s[m],
                    s[j],
                    f,
                    c,
                ) ==> c <= 0,
        },
{
    found_first(s, m);
    widest_is_foremost(side, s[m], s);
    if let Some(id) = widest(side, s[m], s).0 {
        let best = widest(side, s[m], s).1;
        let (k, from) = choose|k: int, from: int|
            #![trigger along(side, s[m], s[k], from, best)]
            foremost(side, s, s[m], k, from, best) && s[k].pane == id;
        assert(foremost(side, s, s[m], k, from, best));
    }
}

proof fn found_first(s: Seq<PaneRect>, m: int)
    requires
        0 <= m < s.len(),
        forall|i: int| 0 <= i < m ==> (#[trigger] s[i]).pane != s[m].pane,
    ensures
        find(s, s[m].pane) == Some(s[m]),
    decreases s.len(),
{
    let rest = s.drop_last();
    if m < rest.len() {
        assert(rest[m] == s[m]);
        assert forall|i: int| 0 <= i < m implies (#[trigger] rest[i]).pane != rest[m].pane by {
            assert(rest[i] == s[i]);
        }
        found_first(rest, m);
    } else {
        not_found(rest, s[m].pane);
    }
}

proof fn not_found(s: Seq<PaneRect>, id: PaneId)
    requires
        forall|i: int| 0 <= i < s.len() ==> (#[trigger] s[i]).pane != id,
    ensures
        find(s, id) is None,
    decreases s.len(),
{
    if s.len() > 0 {
        let rest = s.drop_last();
        assert forall|i: int| 0 <= i < rest.len() implies (#[trigger] rest[i]).pane != id by {
            assert(rest[i] == s[i]);
        }
        not_found(rest, id);
        assert(s[s.len() - 1].pane != id);
    }
}

} // verus!
