//! The split hierarchy of a window, recovered from the rectangles of its panes.
//!
//! A divider that is moved here asks tmux for a resize, in the cells that are
//! painted. The server owns the geometry.
use vstd::prelude::*;

use crate::input;
use crate::snapshot;
use crate::tmux::{PaneId, WindowId};

verus! {

#[derive(Clone, Copy, Debug, PartialEq, Eq, Structural)]
pub enum Axis {
    Horizontal,
    Vertical,
}

/// The cells of one pane.
#[derive(Clone, Copy, Debug, PartialEq, Eq, Structural)]
pub struct PaneRect {
    pub pane: PaneId,
    pub window: WindowId,
    pub left: usize,
    pub top: usize,
    pub columns: usize,
    pub rows: usize,
}

/// The rectangle that a state describes.
pub open spec fn rect_of(state: snapshot::State) -> PaneRect {
    PaneRect {
        pane: state.pane,
        window: state.window,
        left: state.left,
        top: state.top,
        columns: state.size.spec_columns() as usize,
        rows: state.size.spec_rows() as usize,
    }
}

impl PaneRect {
    pub fn from_state(state: &snapshot::State) -> (r: Self)
        ensures
            r == rect_of(*state),
            r.columns >= 1,
            r.rows >= 1,
    {
        PaneRect {
            pane: state.pane,
            window: state.window,
            left: state.left,
            top: state.top,
            columns: state.size.columns(),
            rows: state.size.rows(),
        }
    }
}

/// Where a pane begins along an axis, and where it ends.
pub open spec fn start(axis: Axis, r: PaneRect) -> int {
    match axis {
        Axis::Horizontal => r.left as int,
        Axis::Vertical => r.top as int,
    }
}

pub open spec fn extent(axis: Axis, r: PaneRect) -> int {
    match axis {
        Axis::Horizontal => r.columns as int,
        Axis::Vertical => r.rows as int,
    }
}

pub open spec fn end(axis: Axis, r: PaneRect) -> int {
    start(axis, r) + extent(axis, r)
}

fn start_of(axis: Axis, r: &PaneRect) -> (n: u128)
    ensures
        n == start(axis, *r),
        n <= usize::MAX,
{
    match axis {
        Axis::Horizontal => r.left as u128,
        Axis::Vertical => r.top as u128,
    }
}

fn end_of(axis: Axis, r: &PaneRect) -> (n: u128)
    ensures
        n == end(axis, *r),
        n <= 2 * usize::MAX,
{
    match axis {
        Axis::Horizontal => r.left as u128 + r.columns as u128,
        Axis::Vertical => r.top as u128 + r.rows as u128,
    }
}

/// Where the first of some panes begins.
pub open spec fn low(axis: Axis, s: Seq<PaneRect>) -> int
    decreases s.len(),
{
    if s.len() <= 1 {
        start(axis, s[0])
    } else {
        let rest = low(axis, s.drop_last());
        if start(axis, s.last()) < rest {
            start(axis, s.last())
        } else {
            rest
        }
    }
}

/// Where the last of some panes ends.
pub open spec fn high(axis: Axis, s: Seq<PaneRect>) -> int
    decreases s.len(),
{
    if s.len() <= 1 {
        end(axis, s[0])
    } else {
        let rest = high(axis, s.drop_last());
        if end(axis, s.last()) > rest {
            end(axis, s.last())
        } else {
            rest
        }
    }
}

/// No pane begins before the first one, which is one of them.
pub proof fn low_facts(axis: Axis, s: Seq<PaneRect>)
    requires
        s.len() > 0,
    ensures
        forall|i: int| 0 <= i < s.len() ==> low(axis, s) <= start(axis, #[trigger] s[i]),
        exists|i: int| 0 <= i < s.len() && low(axis, s) == start(axis, #[trigger] s[i]),
    decreases s.len(),
{
    if s.len() == 1 {
        assert(low(axis, s) == start(axis, s[0]));
    } else {
        let rest = s.drop_last();
        low_facts(axis, rest);
        let k = choose|i: int| 0 <= i < rest.len() && low(axis, rest) == start(axis, #[trigger] rest[i]);
        assert(s[k] == rest[k]);
        assert forall|i: int| 0 <= i < s.len() implies low(axis, s) <= start(
            axis,
            #[trigger] s[i],
        ) by {
            if i < rest.len() {
                assert(s[i] == rest[i]);
            }
        }
        assert(low(axis, s) == start(axis, s[k]) || low(axis, s) == start(
            axis,
            s[s.len() - 1],
        ));
    }
}

/// No pane ends behind the last one, which is one of them.
pub proof fn high_facts(axis: Axis, s: Seq<PaneRect>)
    requires
        s.len() > 0,
    ensures
        forall|i: int| 0 <= i < s.len() ==> end(axis, #[trigger] s[i]) <= high(axis, s),
        exists|i: int| 0 <= i < s.len() && high(axis, s) == end(axis, #[trigger] s[i]),
    decreases s.len(),
{
    if s.len() == 1 {
        assert(high(axis, s) == end(axis, s[0]));
    } else {
        let rest = s.drop_last();
        high_facts(axis, rest);
        let k = choose|i: int| 0 <= i < rest.len() && high(axis, rest) == end(axis, #[trigger] rest[i]);
        assert(s[k] == rest[k]);
        assert forall|i: int| 0 <= i < s.len() implies end(axis, #[trigger] s[i]) <= high(
            axis,
            s,
        ) by {
            if i < rest.len() {
                assert(s[i] == rest[i]);
            }
        }
        assert(high(axis, s) == end(axis, s[k]) || high(axis, s) == end(axis, s[s.len() - 1]));
    }
}

fn low_of(axis: Axis, s: &[PaneRect]) -> (n: u128)
    requires
        s@.len() > 0,
    ensures
        n == low(axis, s@),
        n <= usize::MAX,
{
    let mut best = start_of(axis, &s[0]);
    let mut i: usize = 1;
    proof {
        assert(s@.take(1)[0] == s@[0]);
    }
    while i < s.len()
        invariant
            1 <= i <= s.len(),
            best == low(axis, s@.take(i as int)),
            best <= usize::MAX,
        decreases s.len() - i,
    {
        let here = start_of(axis, &s[i]);
        proof {
            assert(s@.take(i + 1).drop_last() =~= s@.take(i as int));
        }
        if here < best {
            best = here;
        }
        i += 1;
    }
    proof {
        assert(s@.take(i as int) =~= s@);
    }
    best
}

fn high_of(axis: Axis, s: &[PaneRect]) -> (n: u128)
    requires
        s@.len() > 0,
    ensures
        n == high(axis, s@),
        n <= 2 * usize::MAX,
{
    let mut best = end_of(axis, &s[0]);
    let mut i: usize = 1;
    proof {
        assert(s@.take(1)[0] == s@[0]);
    }
    while i < s.len()
        invariant
            1 <= i <= s.len(),
            best == high(axis, s@.take(i as int)),
            best <= 2 * usize::MAX,
        decreases s.len() - i,
    {
        let here = end_of(axis, &s[i]);
        proof {
            assert(s@.take(i + 1).drop_last() =~= s@.take(i as int));
        }
        if here > best {
            best = here;
        }
        i += 1;
    }
    proof {
        assert(s@.take(i as int) =~= s@);
    }
    best
}

/// A line across the window that no pane lies over.
pub open spec fn clean(axis: Axis, s: Seq<PaneRect>, cut: int) -> bool {
    forall|i: int|
        0 <= i < s.len() ==> !(start(axis, #[trigger] s[i]) < cut && end(axis, s[i]) > cut)
}

/// How far a cut is from the middle, doubled.
pub open spec fn distance(axis: Axis, s: Seq<PaneRect>, cut: int) -> int {
    let d = 2 * cut - (low(axis, s) + high(axis, s));
    if d < 0 {
        -d
    } else {
        d
    }
}

/// Whether one cut is taken before another: the one nearer to the middle, and of
/// two equally near ones the first.
pub open spec fn nearer(axis: Axis, s: Seq<PaneRect>, a: int, b: int) -> bool {
    distance(axis, s, a) < distance(axis, s, b) || (distance(axis, s, a) == distance(axis, s, b)
        && a < b)
}

/// A cut that parts the panes: a pane begins there, another before it, and none
/// lies over it.
pub open spec fn parts(axis: Axis, s: Seq<PaneRect>, cut: int) -> bool {
    cut > low(axis, s) && clean(axis, s, cut)
}

/// The best cut at which one of the first `n` panes begins.
pub open spec fn best_cut(axis: Axis, s: Seq<PaneRect>, n: nat) -> Option<int>
    decreases n,
{
    if n == 0 {
        None
    } else {
        let cut = start(axis, s[n - 1]);
        match best_cut(axis, s, (n - 1) as nat) {
            None => if parts(axis, s, cut) {
                Some(cut)
            } else {
                None
            },
            Some(other) => if parts(axis, s, cut) && nearer(axis, s, cut, other) {
                Some(cut)
            } else {
                Some(other)
            },
        }
    }
}

/// The cut that a window is split at: one across its width, if there is any.
pub open spec fn chosen(s: Seq<PaneRect>) -> Option<(Axis, int)> {
    match best_cut(Axis::Horizontal, s, s.len()) {
        Some(cut) => Some((Axis::Horizontal, cut)),
        None => match best_cut(Axis::Vertical, s, s.len()) {
            Some(cut) => Some((Axis::Vertical, cut)),
            None => None,
        },
    }
}

/// The best cut parts the panes, and no other cut is nearer to the middle.
pub proof fn best_cut_facts(axis: Axis, s: Seq<PaneRect>, n: nat)
    requires
        n <= s.len(),
    ensures
        match best_cut(axis, s, n) {
            Some(cut) => {
                &&& parts(axis, s, cut)
                &&& exists|i: int| 0 <= i < n && start(axis, #[trigger] s[i]) == cut
                &&& forall|i: int|
                    0 <= i < n && parts(axis, s, start(axis, #[trigger] s[i])) ==> !nearer(
                        axis,
                        s,
                        start(axis, s[i]),
                        cut,
                    )
            },
            None => forall|i: int|
                0 <= i < n ==> !parts(axis, s, start(axis, #[trigger] s[i])),
        },
    decreases n,
{
    if n > 0 {
        best_cut_facts(axis, s, (n - 1) as nat);
        let cut = start(axis, s[n - 1]);
        match best_cut(axis, s, (n - 1) as nat) {
            None => {
                assert(best_cut(axis, s, n) is Some ==> start(axis, s[n - 1]) == cut);
            },
            Some(other) => {
                let k = choose|i: int|
                    0 <= i < n - 1 && start(axis, #[trigger] s[i]) == other;
                assert(start(axis, s[k]) == other);
            },
        }
    }
}

/// The panes on the near side of a cut, in their order, and those on the far
/// side.
pub open spec fn before(axis: Axis, s: Seq<PaneRect>, cut: int) -> Seq<PaneRect>
    decreases s.len(),
{
    if s.len() == 0 {
        s
    } else if start(axis, s.last()) < cut {
        before(axis, s.drop_last(), cut).push(s.last())
    } else {
        before(axis, s.drop_last(), cut)
    }
}

pub open spec fn behind(axis: Axis, s: Seq<PaneRect>, cut: int) -> Seq<PaneRect>
    decreases s.len(),
{
    if s.len() == 0 {
        s
    } else if start(axis, s.last()) < cut {
        behind(axis, s.drop_last(), cut)
    } else {
        behind(axis, s.drop_last(), cut).push(s.last())
    }
}

/// Each pane is on one side of a cut, and what is on a side is a pane.
pub proof fn sides_facts(axis: Axis, s: Seq<PaneRect>, cut: int)
    ensures
        before(axis, s, cut).len() + behind(axis, s, cut).len() == s.len(),
        forall|i: int|
            0 <= i < before(axis, s, cut).len() ==> start(
                axis,
                #[trigger] before(axis, s, cut)[i],
            ) < cut && s.contains(before(axis, s, cut)[i]),
        forall|i: int|
            0 <= i < behind(axis, s, cut).len() ==> start(
                axis,
                #[trigger] behind(axis, s, cut)[i],
            ) >= cut && s.contains(behind(axis, s, cut)[i]),
        (exists|i: int| 0 <= i < s.len() && start(axis, #[trigger] s[i]) < cut) ==> before(
            axis,
            s,
            cut,
        ).len() > 0,
        (exists|i: int| 0 <= i < s.len() && start(axis, #[trigger] s[i]) >= cut) ==> behind(
            axis,
            s,
            cut,
        ).len() > 0,
    decreases s.len(),
{
    if s.len() > 0 {
        let rest = s.drop_last();
        sides_facts(axis, rest, cut);
        let near = before(axis, s, cut);
        let far = behind(axis, s, cut);
        assert forall|i: int| 0 <= i < near.len() implies start(axis, #[trigger] near[i]) < cut
            && s.contains(near[i]) by {
            if i < before(axis, rest, cut).len() {
                assert(near[i] == before(axis, rest, cut)[i]);
                let k = choose|k: int| 0 <= k < rest.len() && rest[k] == near[i];
                assert(s[k] == near[i]);
            } else {
                assert(s[s.len() - 1] == near[i]);
            }
        }
        assert forall|i: int| 0 <= i < far.len() implies start(axis, #[trigger] far[i]) >= cut
            && s.contains(far[i]) by {
            if i < behind(axis, rest, cut).len() {
                assert(far[i] == behind(axis, rest, cut)[i]);
                let k = choose|k: int| 0 <= k < rest.len() && rest[k] == far[i];
                assert(s[k] == far[i]);
            } else {
                assert(s[s.len() - 1] == far[i]);
            }
        }
        if exists|i: int| 0 <= i < s.len() && start(axis, #[trigger] s[i]) < cut {
            let k = choose|i: int| 0 <= i < s.len() && start(axis, #[trigger] s[i]) < cut;
            if k < rest.len() {
                assert(start(axis, rest[k]) < cut);
            }
        }
        if exists|i: int| 0 <= i < s.len() && start(axis, #[trigger] s[i]) >= cut {
            let k = choose|i: int| 0 <= i < s.len() && start(axis, #[trigger] s[i]) >= cut;
            if k < rest.len() {
                assert(start(axis, rest[k]) >= cut);
            }
        }
    }
}

/// A chosen cut leaves panes on both of its sides.
pub proof fn chosen_parts(s: Seq<PaneRect>)
    requires
        s.len() > 0,
        chosen(s) is Some,
    ensures
        ({
            let (axis, cut) = chosen(s)->0;
            &&& parts(axis, s, cut)
            &&& 0 < before(axis, s, cut).len() < s.len()
            &&& 0 < behind(axis, s, cut).len() < s.len()
        }),
{
    let (axis, cut) = chosen(s)->0;
    best_cut_facts(axis, s, s.len());
    low_facts(axis, s);
    sides_facts(axis, s, cut);
    let k = choose|i: int| 0 <= i < s.len() && start(axis, #[trigger] s[i]) == cut;
    assert(start(axis, s[k]) >= cut);
    let m = choose|i: int| 0 <= i < s.len() && low(axis, s) == start(axis, #[trigger] s[i]);
    assert(start(axis, s[m]) < cut);
}

/// The pane whose size a divider changes, and its size along the divider's axis.
#[derive(Clone, Copy, Debug, PartialEq, Eq, Structural)]
pub struct Boundary {
    pub pane: PaneId,
    pub pane_cells: usize,
}

/// The share of a split that its first side has, as a fraction.
#[derive(Clone, Copy, Debug, PartialEq, Eq, Structural)]
pub struct Ratio {
    pub part: u128,
    pub whole: u128,
}

#[derive(Debug)]
pub enum Node {
    Pane(PaneId),
    Split {
        axis: Axis,
        ratio: Ratio,
        boundary: Option<Boundary>,
        first: Box<Node>,
        second: Box<Node>,
    },
}

/// The first pane that spans the whole of the near side along an axis.
pub open spec fn spanning(axis: Axis, s: Seq<PaneRect>, from: int, to: int) -> Option<Boundary>
    decreases s.len(),
{
    if s.len() == 0 {
        None
    } else {
        match spanning(axis, s.drop_last(), from, to) {
            Some(found) => Some(found),
            None => if start(axis, s.last()) == from && end(axis, s.last()) == to {
                Some(Boundary { pane: s.last().pane, pane_cells: extent(axis, s.last()) as usize })
            } else {
                None
            },
        }
    }
}

/// The boundary of a split. A split has one separator cell; a layout with any
/// other border stays visible but cannot be resized, and nor can a near side that
/// no single pane spans: tmux would move a nearer, nested boundary.
pub open spec fn boundary_of(axis: Axis, s: Seq<PaneRect>, cut: int) -> Option<Boundary> {
    let near = before(axis, s, cut);
    if high(axis, near) + 1 == cut {
        spanning(axis, near, low(axis, s), high(axis, near))
    } else {
        None
    }
}

pub open spec fn ratio_of(axis: Axis, s: Seq<PaneRect>, cut: int) -> Ratio {
    let end = high(axis, before(axis, s, cut));
    Ratio {
        part: (end - low(axis, s)) as u128,
        whole: (high(axis, s) - low(axis, s) - (cut - end)) as u128,
    }
}

/// The hierarchy of some panes, or `None` where their rectangles are not one.
pub open spec fn layout(s: Seq<PaneRect>) -> Option<Node>
    decreases s.len(),
{
    if s.len() == 0 {
        None
    } else if s.len() == 1 {
        Some(Node::Pane(s[0].pane))
    } else {
        match chosen(s) {
            None => None,
            Some((axis, cut)) => {
                proof {
                    chosen_parts(s);
                }
                match layout(before(axis, s, cut)) {
                    None => None,
                    Some(first) => match layout(behind(axis, s, cut)) {
                        None => None,
                        Some(second) => Some(
                            Node::Split {
                                axis,
                                ratio: ratio_of(axis, s, cut),
                                boundary: boundary_of(axis, s, cut),
                                first: Box::new(first),
                                second: Box::new(second),
                            },
                        ),
                    },
                }
            },
        }
    }
}

fn is_clean(axis: Axis, s: &[PaneRect], cut: u128) -> (r: bool)
    ensures
        r == clean(axis, s@, cut as int),
{
    let mut i: usize = 0;
    while i < s.len()
        invariant
            i <= s.len(),
            forall|k: int|
                0 <= k < i ==> !(start(axis, #[trigger] s@[k]) < cut && end(axis, s@[k]) > cut),
        decreases s.len() - i,
    {
        if start_of(axis, &s[i]) < cut && end_of(axis, &s[i]) > cut {
            assert(start(axis, s@[i as int]) < cut && end(axis, s@[i as int]) > cut);
            return false;
        }
        i += 1;
    }
    true
}

fn distance_of(cut: u128, low: u128, high: u128) -> (r: u128)
    requires
        cut <= usize::MAX,
        low <= usize::MAX,
        high <= 2 * usize::MAX,
    ensures
        r == if 2 * cut >= low + high {
            2 * cut - (low + high)
        } else {
            (low + high) - 2 * cut
        },
{
    if 2 * cut >= low + high {
        2 * cut - (low + high)
    } else {
        (low + high) - 2 * cut
    }
}

fn find_cut(axis: Axis, s: &[PaneRect]) -> (r: Option<u128>)
    requires
        s@.len() > 0,
    ensures
        match r {
            Some(cut) => best_cut(axis, s@, s@.len()) == Some(cut as int) && cut <= usize::MAX,
            None => best_cut(axis, s@, s@.len()) is None,
        },
{
    let low = low_of(axis, s);
    let high = high_of(axis, s);
    let mut best: Option<u128> = None;
    let mut i: usize = 0;
    while i < s.len()
        invariant
            i <= s.len(),
            low == self::low(axis, s@),
            high == self::high(axis, s@),
            low <= usize::MAX,
            high <= 2 * usize::MAX,
            match best {
                Some(cut) => best_cut(axis, s@, i as nat) == Some(cut as int) && cut
                    <= usize::MAX,
                None => best_cut(axis, s@, i as nat) is None,
            },
        decreases s.len() - i,
    {
        let cut = start_of(axis, &s[i]);
        if cut > low && is_clean(axis, s, cut) {
            match best {
                None => {
                    best = Some(cut);
                },
                Some(other) => {
                    let here = distance_of(cut, low, high);
                    let there = distance_of(other, low, high);
                    if here < there || (here == there && cut < other) {
                        best = Some(cut);
                    }
                },
            }
        }
        i += 1;
    }
    best
}

fn part_panes(axis: Axis, s: &[PaneRect], cut: u128) -> (r: (Vec<PaneRect>, Vec<PaneRect>))
    ensures
        r.0@ == before(axis, s@, cut as int),
        r.1@ == behind(axis, s@, cut as int),
{
    let mut near: Vec<PaneRect> = Vec::new();
    let mut far: Vec<PaneRect> = Vec::new();
    let mut i: usize = 0;
    proof {
        assert(s@.take(0) =~= Seq::<PaneRect>::empty());
        assert(near@ =~= before(axis, s@.take(0), cut as int));
        assert(far@ =~= behind(axis, s@.take(0), cut as int));
    }
    while i < s.len()
        invariant
            i <= s.len(),
            near@ == before(axis, s@.take(i as int), cut as int),
            far@ == behind(axis, s@.take(i as int), cut as int),
        decreases s.len() - i,
    {
        proof {
            assert(s@.take(i + 1).drop_last() =~= s@.take(i as int));
        }
        if start_of(axis, &s[i]) < cut {
            near.push(s[i]);
        } else {
            far.push(s[i]);
        }
        i += 1;
    }
    proof {
        assert(s@.take(i as int) =~= s@);
    }
    (near, far)
}

proof fn spanning_prefix(axis: Axis, s: Seq<PaneRect>, from: int, to: int, n: int)
    requires
        0 <= n <= s.len(),
        spanning(axis, s.take(n), from, to) is Some,
    ensures
        spanning(axis, s, from, to) == spanning(axis, s.take(n), from, to),
    decreases s.len() - n,
{
    if n == s.len() {
        assert(s.take(n) =~= s);
    } else {
        assert(s.take(n + 1).drop_last() =~= s.take(n));
        spanning_prefix(axis, s, from, to, n + 1);
    }
}

fn find_spanning(axis: Axis, s: &[PaneRect], from: u128, to: u128) -> (r: Option<Boundary>)
    ensures
        r == spanning(axis, s@, from as int, to as int),
{
    let mut i: usize = 0;
    while i < s.len()
        invariant
            i <= s.len(),
            spanning(axis, s@.take(i as int), from as int, to as int) is None,
        decreases s.len() - i,
    {
        proof {
            assert(s@.take(i + 1).drop_last() =~= s@.take(i as int));
        }
        if start_of(axis, &s[i]) == from && end_of(axis, &s[i]) == to {
            proof {
                spanning_prefix(axis, s@, from as int, to as int, i + 1);
            }
            return Some(
                Boundary {
                    pane: s[i].pane,
                    pane_cells: match axis {
                        Axis::Horizontal => s[i].columns,
                        Axis::Vertical => s[i].rows,
                    },
                },
            );
        }
        i += 1;
    }
    proof {
        assert(s@.take(i as int) =~= s@);
    }
    None
}

/// Along a chosen cut the near side ends no later than the cut, and the far side
/// reaches beyond it wherever panes have cells.
proof fn sides_reach(axis: Axis, s: Seq<PaneRect>, cut: int)
    requires
        s.len() > 0,
        parts(axis, s, cut),
        before(axis, s, cut).len() > 0,
        behind(axis, s, cut).len() > 0,
    ensures
        low(axis, s) <= high(axis, before(axis, s, cut)) <= cut,
        cut <= high(axis, s),
{
    let near = before(axis, s, cut);
    let far = behind(axis, s, cut);
    low_facts(axis, s);
    high_facts(axis, s);
    high_facts(axis, near);
    sides_facts(axis, s, cut);
    let k = choose|i: int| 0 <= i < near.len() && high(axis, near) == end(axis, #[trigger] near[i]);
    assert(s.contains(near[k]));
    let m = choose|m: int| 0 <= m < s.len() && s[m] == near[k];
    assert(start(axis, s[m]) < cut);
    assert(!(start(axis, s[m]) < cut && end(axis, s[m]) > cut));
    assert(low(axis, s) <= start(axis, s[m]));
    assert(s.contains(far[0]));
    let j = choose|j: int| 0 <= j < s.len() && s[j] == far[0];
    assert(start(axis, far[0]) >= cut);
    assert(end(axis, s[j]) <= high(axis, s));
}

fn from_rects(s: &[PaneRect]) -> (r: Option<Node>)
    ensures
        r == layout(s@),
    decreases s@.len(),
{
    if s.len() == 0 {
        return None;
    }
    if s.len() == 1 {
        return Some(Node::Pane(s[0].pane));
    }
    let (axis, cut) = match find_cut(Axis::Horizontal, s) {
        Some(cut) => (Axis::Horizontal, cut),
        None => match find_cut(Axis::Vertical, s) {
            Some(cut) => (Axis::Vertical, cut),
            None => return None,
        },
    };
    proof {
        assert(chosen(s@) == Some((axis, cut as int)));
        chosen_parts(s@);
        sides_reach(axis, s@, cut as int);
    }
    let (near, far) = part_panes(axis, s, cut);
    let low = low_of(axis, s);
    let high = high_of(axis, s);
    let reached = high_of(axis, near.as_slice());
    let boundary = if reached + 1 == cut {
        find_spanning(axis, near.as_slice(), low, reached)
    } else {
        None
    };
    let ratio = Ratio { part: reached - low, whole: high - low - (cut - reached) };
    let first = match from_rects(near.as_slice()) {
        Some(first) => first,
        None => return None,
    };
    let second = match from_rects(far.as_slice()) {
        Some(second) => second,
        None => return None,
    };
    Some(
        Node::Split { axis, ratio, boundary, first: Box::new(first), second: Box::new(second) },
    )
}

/// The rectangles of panes.
pub open spec fn rects(panes: Seq<&snapshot::Pane>) -> Seq<PaneRect> {
    panes.map_values(|pane: &snapshot::Pane| rect_of(pane.state))
}

fn rects_of(panes: &[&snapshot::Pane]) -> (r: Vec<PaneRect>)
    ensures
        r@ == rects(panes@),
{
    let mut out: Vec<PaneRect> = Vec::new();
    let mut i: usize = 0;
    proof {
        assert(out@ =~= rects(panes@.take(0)));
    }
    while i < panes.len()
        invariant
            i <= panes.len(),
            out@ == rects(panes@.take(i as int)),
        decreases panes.len() - i,
    {
        let rect = PaneRect::from_state(&panes[i].state);
        out.push(rect);
        proof {
            assert(out@ =~= rects(panes@.take(i + 1)));
        }
        i += 1;
    }
    proof {
        assert(panes@.take(i as int) =~= panes@);
    }
    out
}

/// The size of a pane by which the zoomed one is told.
pub open spec fn area(r: PaneRect) -> int {
    if r.columns * r.rows > usize::MAX {
        usize::MAX as int
    } else {
        r.columns * r.rows
    }
}

/// The largest pane; of several, the last.
pub open spec fn largest(s: Seq<PaneRect>) -> Option<PaneRect>
    decreases s.len(),
{
    if s.len() == 0 {
        None
    } else {
        match largest(s.drop_last()) {
            None => Some(s.last()),
            Some(other) => if area(s.last()) >= area(other) {
                Some(s.last())
            } else {
                Some(other)
            },
        }
    }
}

/// A zoomed window lists every pane, one over the other. The largest one is
/// shown until it is unzoomed.
pub open spec fn layout_or_zoom(s: Seq<PaneRect>) -> Option<Node> {
    match layout(s) {
        Some(node) => Some(node),
        None => match largest(s) {
            Some(r) => Some(Node::Pane(r.pane)),
            None => None,
        },
    }
}

fn area_of(r: &PaneRect) -> (n: u128)
    ensures
        n == area(*r),
{
    assert(r.columns * r.rows <= u128::MAX) by (nonlinear_arith)
        requires
            r.columns <= u64::MAX,
            r.rows <= u64::MAX,
    ;
    let product = r.columns as u128 * r.rows as u128;
    if product > usize::MAX as u128 {
        usize::MAX as u128
    } else {
        product
    }
}

fn find_largest(s: &[PaneRect]) -> (r: Option<PaneRect>)
    ensures
        r == largest(s@),
{
    let mut best: Option<PaneRect> = None;
    let mut i: usize = 0;
    while i < s.len()
        invariant
            i <= s.len(),
            best == largest(s@.take(i as int)),
        decreases s.len() - i,
    {
        proof {
            assert(s@.take(i + 1).drop_last() =~= s@.take(i as int));
        }
        let take = match best {
            None => true,
            Some(other) => area_of(&s[i]) >= area_of(&other),
        };
        if take {
            best = Some(s[i]);
        }
        i += 1;
    }
    proof {
        assert(s@.take(i as int) =~= s@);
    }
    best
}

/// The panes of a hierarchy, from its first side to its last.
pub open spec fn leaves(node: Node) -> Seq<PaneId>
    decreases node,
{
    match node {
        Node::Pane(id) => seq![id],
        Node::Split { first, second, .. } => leaves(*first) + leaves(*second),
    }
}

impl Node {
    pub fn from_panes(panes: &[&snapshot::Pane]) -> (r: Option<Self>)
        ensures
            r == layout(rects(panes@)),
    {
        from_rects(rects_of(panes).as_slice())
    }

    pub fn from_panes_or_zoom(panes: &[&snapshot::Pane]) -> (r: Option<Self>)
        ensures
            r == layout_or_zoom(rects(panes@)),
    {
        let given = rects_of(panes);
        match from_rects(given.as_slice()) {
            Some(node) => Some(node),
            None => match find_largest(given.as_slice()) {
                Some(largest) => Some(Node::Pane(largest.pane)),
                None => None,
            },
        }
    }

    pub fn pane_ids(&self) -> (r: Vec<PaneId>)
        ensures
            r@ == leaves(*self),
        decreases self,
    {
        match self {
            Node::Pane(id) => {
                let mut out: Vec<PaneId> = Vec::new();
                out.push(*id);
                assert(out@ =~= leaves(*self));
                out
            },
            Node::Split { first, second, .. } => {
                let mut ids = first.pane_ids();
                let more = second.pane_ids();
                let mut i: usize = 0;
                let ghost front = ids@;
                proof {
                    assert(ids@ =~= front + more@.take(0));
                }
                while i < more.len()
                    invariant
                        i <= more.len(),
                        ids@ == front + more@.take(i as int),
                    decreases more.len() - i,
                {
                    ids.push(more[i]);
                    proof {
                        assert(ids@ =~= front + more@.take(i + 1));
                    }
                    i += 1;
                }
                proof {
                    assert(more@.take(i as int) =~= more@);
                }
                ids
            },
        }
    }
}

pub open spec fn ids(s: Seq<PaneRect>) -> Seq<PaneId> {
    s.map_values(|r: PaneRect| r.pane)
}

proof fn sides_share_panes(axis: Axis, s: Seq<PaneRect>, cut: int)
    ensures
        ids(before(axis, s, cut)).to_multiset().add(ids(behind(axis, s, cut)).to_multiset())
            =~= ids(s).to_multiset(),
    decreases s.len(),
{
    broadcast use vstd::seq_lib::group_to_multiset_ensures;

    if s.len() == 0 {
        assert(ids(s) =~= Seq::<PaneId>::empty());
        assert(ids(before(axis, s, cut)) =~= Seq::<PaneId>::empty());
        assert(ids(behind(axis, s, cut)) =~= Seq::<PaneId>::empty());
    } else {
        let rest = s.drop_last();
        sides_share_panes(axis, rest, cut);
        assert(ids(s) =~= ids(rest).push(s.last().pane));
        if start(axis, s.last()) < cut {
            assert(ids(before(axis, s, cut)) =~= ids(before(axis, rest, cut)).push(
                s.last().pane,
            ));
        } else {
            assert(ids(behind(axis, s, cut)) =~= ids(behind(axis, rest, cut)).push(
                s.last().pane,
            ));
        }
    }
}

/// A hierarchy shows every pane of its window exactly once: none is lost, none
/// is added and none is shown twice.
pub proof fn every_pane_is_shown_once(s: Seq<PaneRect>)
    requires
        layout(s) is Some,
    ensures
        leaves(layout(s)->0).to_multiset() =~= ids(s).to_multiset(),
        leaves(layout(s)->0).len() == s.len(),
    decreases s.len(),
{
    broadcast use vstd::seq_lib::group_to_multiset_ensures;

    if s.len() == 1 {
        assert(ids(s) =~= seq![s[0].pane]);
    } else {
        let (axis, cut) = chosen(s)->0;
        chosen_parts(s);
        sides_facts(axis, s, cut);
        let near = before(axis, s, cut);
        let far = behind(axis, s, cut);
        every_pane_is_shown_once(near);
        every_pane_is_shown_once(far);
        sides_share_panes(axis, s, cut);
        vstd::seq_lib::lemma_multiset_commutative(
            leaves(layout(near)->0),
            leaves(layout(far)->0),
        );
    }
}

/// Each side of every split has a share of it: neither all of it nor none.
pub open spec fn shared(node: Node) -> bool
    decreases node,
{
    match node {
        Node::Pane(_) => true,
        Node::Split { ratio, first, second, .. } => 0 < ratio.part < ratio.whole && shared(*first)
            && shared(*second),
    }
}

pub proof fn splits_are_shared(s: Seq<PaneRect>)
    requires
        layout(s) is Some,
        forall|i: int| 0 <= i < s.len() ==> (#[trigger] s[i]).columns >= 1 && s[i].rows >= 1,
    ensures
        shared(layout(s)->0),
    decreases s.len(),
{
    if s.len() > 1 {
        let (axis, cut) = chosen(s)->0;
        chosen_parts(s);
        sides_facts(axis, s, cut);
        sides_reach(axis, s, cut);
        let near = before(axis, s, cut);
        let far = behind(axis, s, cut);
        assert forall|i: int| 0 <= i < near.len() implies (#[trigger] near[i]).columns >= 1
            && near[i].rows >= 1 by {
            assert(s.contains(near[i]));
            let k = choose|k: int| 0 <= k < s.len() && s[k] == near[i];
            assert(s[k].columns >= 1);
        }
        assert forall|i: int| 0 <= i < far.len() implies (#[trigger] far[i]).columns >= 1
            && far[i].rows >= 1 by {
            assert(s.contains(far[i]));
            let k = choose|k: int| 0 <= k < s.len() && s[k] == far[i];
            assert(s[k].columns >= 1);
        }
        splits_are_shared(near);
        splits_are_shared(far);
        low_facts(axis, s);
        high_facts(axis, s);
        high_facts(axis, near);
        // The near side ends behind where the first pane begins.
        let m = choose|i: int| 0 <= i < s.len() && low(axis, s) == start(axis, #[trigger] s[i]);
        near_has(axis, s, cut, m);
        let n = choose|n: int| 0 <= n < near.len() && near[n] == s[m];
        assert(end(axis, near[n]) <= high(axis, near));
        assert(near[n].columns >= 1);
        // The far side reaches beyond the cut.
        assert(s.contains(far[0]));
        let j = choose|j: int| 0 <= j < s.len() && s[j] == far[0];
        assert(end(axis, s[j]) <= high(axis, s));
        assert(far[0].columns >= 1);
        let f = high(axis, near);
        assert(high(axis, s) <= 2 * usize::MAX) by {
            let h = choose|i: int| 0 <= i < s.len() && high(axis, s) == end(axis, #[trigger] s[i]);
            assert(end(axis, s[h]) <= 2 * usize::MAX);
        }
        assert(low(axis, s) >= 0);
        assert(0 < f - low(axis, s));
        assert(0 < high(axis, s) - cut);
    }
}

/// A pane that begins before a cut is on its near side.
pub proof fn near_has(axis: Axis, s: Seq<PaneRect>, cut: int, m: int)
    requires
        0 <= m < s.len(),
        start(axis, s[m]) < cut,
    ensures
        exists|n: int|
            0 <= n < before(axis, s, cut).len() && #[trigger] before(axis, s, cut)[n] == s[m],
    decreases s.len(),
{
    let rest = s.drop_last();
    let near = before(axis, s, cut);
    if m < rest.len() {
        near_has(axis, rest, cut, m);
        let inner = before(axis, rest, cut);
        let n = choose|n: int| 0 <= n < inner.len() && #[trigger] inner[n] == rest[m];
        assert(near[n] == inner[n]);
    } else {
        assert(near[near.len() - 1] == s[m]);
    }
}

/// A resize that a moved divider asks for, where it changes anything.
pub open spec fn resized(boundary: Boundary, axis: Axis, cells: int) -> Option<
    (PaneId, input::Resize),
> {
    let within = if cells < 1 {
        1
    } else if cells > 4096 {
        4096
    } else {
        cells
    };
    if within == boundary.pane_cells {
        None
    } else {
        Some(
            (
                boundary.pane,
                input::Resize {
                    axis: match axis {
                        Axis::Horizontal => input::Axis::Columns,
                        Axis::Vertical => input::Axis::Rows,
                    },
                    cells: within as u16,
                },
            ),
        )
    }
}

impl Boundary {
    /// Ask for a size of this many cells, which a divider was moved to.
    pub fn resize(self, axis: Axis, cells: usize) -> (r: Option<(PaneId, input::Resize)>)
        ensures
            r == resized(self, axis, cells as int),
            r matches Some((_, resize)) ==> input::valid_resize(resize),
    {
        let within: usize = if cells < 1 {
            1
        } else if cells > 4096 {
            4096
        } else {
            cells
        };
        if within == self.pane_cells {
            return None;
        }
        Some(
            (
                self.pane,
                input::Resize {
                    axis: match axis {
                        Axis::Horizontal => input::Axis::Columns,
                        Axis::Vertical => input::Axis::Rows,
                    },
                    cells: within as u16,
                },
            ),
        )
    }
}

#[derive(Clone, Copy, Debug, PartialEq, Eq, Structural)]
pub enum Side {
    Left,
    Right,
    Up,
    Down,
}

/// The length that two runs of cells share.
pub open spec fn overlap(a0: int, a1: int, b0: int, b1: int) -> int {
    let from = if a0 > b0 {
        a0
    } else {
        b0
    };
    let to = if a1 < b1 {
        a1
    } else {
        b1
    };
    if to > from {
        to - from
    } else {
        0
    }
}

fn overlap_of(a0: u128, a1: u128, b0: u128, b1: u128) -> (r: u128)
    ensures
        r == overlap(a0 as int, a1 as int, b0 as int, b1 as int),
{
    let from = if a0 > b0 {
        a0
    } else {
        b0
    };
    let to = if a1 < b1 {
        a1
    } else {
        b1
    };
    if to > from {
        to - from
    } else {
        0
    }
}

/// Whether a pane ends or begins where another one's edge on this side is.
pub open spec fn touches(side: Side, me: PaneRect, other: PaneRect) -> bool {
    match side {
        Side::Left => end(Axis::Horizontal, other) == start(Axis::Horizontal, me),
        Side::Right => start(Axis::Horizontal, other) == end(Axis::Horizontal, me),
        Side::Up => end(Axis::Vertical, other) == start(Axis::Vertical, me),
        Side::Down => start(Axis::Vertical, other) == end(Axis::Vertical, me),
    }
}

/// How much of the edge two panes share.
pub open spec fn shared_edge(side: Side, me: PaneRect, other: PaneRect) -> int {
    let axis = match side {
        Side::Left | Side::Right => Axis::Vertical,
        Side::Up | Side::Down => Axis::Horizontal,
    };
    overlap(start(axis, me), end(axis, me), start(axis, other), end(axis, other))
}

/// The cells of an edge that a pane of the same window borders on.
pub open spec fn bordering(side: Side, me: PaneRect, other: PaneRect) -> int {
    if other.pane != me.pane && other.window == me.window && touches(side, me, other) {
        shared_edge(side, me, other)
    } else {
        0
    }
}

/// The pane that shares most of an edge, the first of several, and how much.
pub open spec fn widest(side: Side, me: PaneRect, s: Seq<PaneRect>) -> (Option<PaneId>, int)
    decreases s.len(),
{
    if s.len() == 0 {
        (None, 0)
    } else {
        let (found, best) = widest(side, me, s.drop_last());
        let here = bordering(side, me, s.last());
        if here > best {
            (Some(s.last().pane), here)
        } else {
            (found, best)
        }
    }
}

/// The rectangle of a pane.
pub open spec fn find(s: Seq<PaneRect>, id: PaneId) -> Option<PaneRect>
    decreases s.len(),
{
    if s.len() == 0 {
        None
    } else {
        match find(s.drop_last(), id) {
            Some(r) => Some(r),
            None => if s.last().pane == id {
                Some(s.last())
            } else {
                None
            },
        }
    }
}

/// The adjacent pane in each direction, where one of the same window shares an
/// edge.
#[derive(Clone, Copy, Debug, PartialEq, Eq, Structural)]
pub struct Neighbors {
    pub left: Option<PaneId>,
    pub right: Option<PaneId>,
    pub up: Option<PaneId>,
    pub down: Option<PaneId>,
}

impl Default for Neighbors {
    fn default() -> (r: Self)
        ensures
            r == no_neighbors(),
    {
        Neighbors { left: None, right: None, up: None, down: None }
    }
}

pub open spec fn no_neighbors() -> Neighbors {
    Neighbors { left: None, right: None, up: None, down: None }
}

pub open spec fn neighbors(s: Seq<PaneRect>, id: PaneId) -> Neighbors {
    match find(s, id) {
        None => no_neighbors(),
        Some(me) => Neighbors {
            left: widest(Side::Left, me, s).0,
            right: widest(Side::Right, me, s).0,
            up: widest(Side::Up, me, s).0,
            down: widest(Side::Down, me, s).0,
        },
    }
}

proof fn find_prefix(s: Seq<PaneRect>, id: PaneId, n: int)
    requires
        0 <= n <= s.len(),
        find(s.take(n), id) is Some,
    ensures
        find(s, id) == find(s.take(n), id),
    decreases s.len() - n,
{
    if n == s.len() {
        assert(s.take(n) =~= s);
    } else {
        assert(s.take(n + 1).drop_last() =~= s.take(n));
        find_prefix(s, id, n + 1);
    }
}

fn find_rect(s: &[PaneRect], id: PaneId) -> (r: Option<PaneRect>)
    ensures
        r == find(s@, id),
        r matches Some(found) ==> found.pane == id,
{
    let mut i: usize = 0;
    while i < s.len()
        invariant
            i <= s.len(),
            find(s@.take(i as int), id) is None,
        decreases s.len() - i,
    {
        proof {
            assert(s@.take(i + 1).drop_last() =~= s@.take(i as int));
        }
        if s[i].pane == id {
            proof {
                find_prefix(s@, id, i + 1);
            }
            return Some(s[i]);
        }
        i += 1;
    }
    proof {
        assert(s@.take(i as int) =~= s@);
    }
    None
}

fn bordering_of(side: Side, me: &PaneRect, other: &PaneRect) -> (r: u128)
    ensures
        r == bordering(side, *me, *other),
{
    if other.pane == me.pane || other.window != me.window {
        return 0;
    }
    let (along, across) = match side {
        Side::Left | Side::Right => (Axis::Horizontal, Axis::Vertical),
        Side::Up | Side::Down => (Axis::Vertical, Axis::Horizontal),
    };
    let near = match side {
        Side::Left | Side::Up => end_of(along, other) == start_of(along, me),
        Side::Right | Side::Down => start_of(along, other) == end_of(along, me),
    };
    if !near {
        return 0;
    }
    overlap_of(
        start_of(across, me),
        end_of(across, me),
        start_of(across, other),
        end_of(across, other),
    )
}

fn find_widest(side: Side, me: &PaneRect, s: &[PaneRect]) -> (r: Option<PaneId>)
    ensures
        r == widest(side, *me, s@).0,
{
    let mut found: Option<PaneId> = None;
    let mut best: u128 = 0;
    let mut i: usize = 0;
    while i < s.len()
        invariant
            i <= s.len(),
            (found, best as int) == widest(side, *me, s@.take(i as int)),
        decreases s.len() - i,
    {
        proof {
            assert(s@.take(i + 1).drop_last() =~= s@.take(i as int));
        }
        let here = bordering_of(side, me, &s[i]);
        if here > best {
            best = here;
            found = Some(s[i].pane);
        }
        i += 1;
    }
    proof {
        assert(s@.take(i as int) =~= s@);
    }
    found
}

impl Neighbors {
    pub fn of(panes: &[PaneRect], id: PaneId) -> (r: Self)
        ensures
            r == neighbors(panes@, id),
    {
        match find_rect(panes, id) {
            None => Neighbors::default(),
            Some(me) => Neighbors {
                left: find_widest(Side::Left, &me, panes),
                right: find_widest(Side::Right, &me, panes),
                up: find_widest(Side::Up, &me, panes),
                down: find_widest(Side::Down, &me, panes),
            },
        }
    }

    pub fn count(self) -> (r: usize)
        ensures
            r == (if self.left is Some {
                1int
            } else {
                0
            }) + (if self.right is Some {
                1int
            } else {
                0
            }) + (if self.up is Some {
                1int
            } else {
                0
            }) + (if self.down is Some {
                1int
            } else {
                0
            }),
    {
        let mut n: usize = 0;
        if self.left.is_some() {
            n += 1;
        }
        if self.right.is_some() {
            n += 1;
        }
        if self.up.is_some() {
            n += 1;
        }
        if self.down.is_some() {
            n += 1;
        }
        n
    }
}

pub open spec fn opposite(side: Side) -> Side {
    match side {
        Side::Left => Side::Right,
        Side::Right => Side::Left,
        Side::Up => Side::Down,
        Side::Down => Side::Up,
    }
}

/// The neighbour on a side borders on a pane, and no pane does so over more cells.
pub proof fn widest_facts(side: Side, me: PaneRect, s: Seq<PaneRect>)
    ensures
        widest(side, me, s).1 >= 0,
        forall|i: int| 0 <= i < s.len() ==> bordering(side, me, #[trigger] s[i]) <= widest(side, me, s).1,
        widest(side, me, s).0 is Some <==> widest(side, me, s).1 > 0,
        widest(side, me, s).0 matches Some(id) ==> exists|i: int|
            0 <= i < s.len() && (#[trigger] s[i]).pane == id && bordering(side, me, s[i])
                == widest(side, me, s).1,
    decreases s.len(),
{
    if s.len() > 0 {
        let rest = s.drop_last();
        widest_facts(side, me, rest);
        assert forall|i: int| 0 <= i < s.len() implies bordering(side, me, #[trigger] s[i])
            <= widest(side, me, s).1 by {
            if i < rest.len() {
                assert(s[i] == rest[i]);
            }
        }
        if bordering(side, me, s.last()) > widest(side, me, rest).1 {
            assert(s[s.len() - 1].pane == s.last().pane);
        } else if widest(side, me, rest).0 is Some {
            let id = widest(side, me, rest).0->0;
            let k = choose|i: int|
                0 <= i < rest.len() && (#[trigger] rest[i]).pane == id && bordering(
                    side,
                    me,
                    rest[i],
                ) == widest(side, me, rest).1;
            assert(s[k] == rest[k]);
        }
    }
}

/// A neighbour has a neighbour in the other direction: a pane that another one
/// borders on borders on that one too.
pub proof fn neighbors_are_mutual(s: Seq<PaneRect>, i: int, j: int, side: Side)
    requires
        0 <= i < s.len(),
        0 <= j < s.len(),
        bordering(side, s[i], s[j]) > 0,
    ensures
        bordering(opposite(side), s[j], s[i]) == bordering(side, s[i], s[j]),
        widest(side, s[i], s).0 is Some,
        widest(opposite(side), s[j], s).0 is Some,
{
    widest_facts(side, s[i], s);
    widest_facts(opposite(side), s[j], s);
    assert(bordering(opposite(side), s[j], s[i]) > 0);
}

/// A pane is never its own neighbour, and never that of another window's pane.
pub proof fn neighbors_share_a_window(s: Seq<PaneRect>, me: PaneRect, side: Side)
    requires
        widest(side, me, s).0 is Some,
    ensures
        widest(side, me, s).0 != Some(me.pane),
        exists|k: int|
            0 <= k < s.len() && Some((#[trigger] s[k]).pane) == widest(side, me, s).0
                && s[k].window == me.window && touches(side, me, s[k]) && shared_edge(
                side,
                me,
                s[k],
            ) > 0,
{
    widest_facts(side, me, s);
}

} // verus!
