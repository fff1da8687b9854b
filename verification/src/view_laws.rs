//! Which window a tab shows, where its focus is, what is pasted into it, and which keys its
//! form offers.
use vstd::prelude::*;
use vstd::string::*;

use crate::desktop::{current, Desk, Target};
use crate::form::{among, key_files, local_path, names, same_path};
use crate::input::{paste_char, valid_paste, Act};
use crate::layout::rect_of;
use crate::snapshot::Pane;
use crate::text::{pieces, pieces_behind, pieces_read_back};
use crate::tmux::{PaneId, WindowId};
use crate::ui::{
    clipped, first_window, focus_in, has_window, rects_in, typed_at, window_of, Event, Front, Wish,
};

verus! {

proof fn first_windows_are_lowest(panes: Seq<Pane>)
    ensures
        match first_window(panes) {
            Some(id) => {
                &&& exists|i: int| 0 <= i < panes.len() && (#[trigger] panes[i]).state.window == id
                &&& forall|i: int|
                    0 <= i < panes.len() ==> id.0 <= (#[trigger] panes[i]).state.window.0
            },
            None => panes.len() == 0,
        },
    decreases panes.len(),
{
    if panes.len() > 0 {
        let front = panes.drop_last();
        let n = panes.len() - 1;
        first_windows_are_lowest(front);
        let id = first_window(panes)->0;
        if front.len() > 0 {
            let low = first_window(front)->0;
            let k = choose|i: int|
                0 <= i < front.len() && (#[trigger] front[i]).state.window == low;
            assert(panes[k] == front[k]);
        }
        assert(panes[n].state.window == id || exists|i: int|
            0 <= i < panes.len() && (#[trigger] panes[i]).state.window == id);
        assert forall|i: int| 0 <= i < panes.len() implies id.0 <= (
        #[trigger] panes[i]).state.window.0 by {
            if i < n {
                assert(panes[i] == front[i]);
            }
        }
    }
}

/// A tab shows the window that it showed, as long as one of the panes is in it. It shows
/// the window with the lowest number otherwise, and none only where there is no pane.
pub proof fn the_shown_window_stays(panes: Seq<Pane>, window: Option<WindowId>)
    ensures
        window_of(panes, window) is None <==> panes.len() == 0,
        window_of(panes, window) matches Some(id) ==> {
            &&& exists|i: int| 0 <= i < panes.len() && (#[trigger] panes[i]).state.window == id
            &&& window == Some(id) || forall|i: int|
                0 <= i < panes.len() ==> id.0 <= (#[trigger] panes[i]).state.window.0
        },
        forall|i: int|
            0 <= i < panes.len() && window == Some((#[trigger] panes[i]).state.window)
                ==> window_of(panes, window) == window,
{
    first_windows_are_lowest(panes);
    if let Some(id) = window {
        if has_window(panes, id) {
            let k = choose|i: int| 0 <= i < panes.len() && (#[trigger] panes[i]).state.window == id;
            assert(panes[k].state.window == id);
        }
    }
}

/// The layout of a window is made of the rectangles of its own panes, of each of them and
/// of no other.
pub proof fn windows_hold_their_own_panes(panes: Seq<Pane>, id: WindowId)
    ensures
        forall|i: int|
            0 <= i < panes.len() && (#[trigger] panes[i]).state.window == id ==> rects_in(
                panes,
                id,
            ).contains(rect_of(panes[i].state)),
        forall|j: int|
            0 <= j < rects_in(panes, id).len() ==> exists|i: int|
                0 <= i < panes.len() && (#[trigger] panes[i]).state.window == id && rect_of(
                    panes[i].state,
                ) == #[trigger] rects_in(panes, id)[j],
    decreases panes.len(),
{
    if panes.len() > 0 {
        let front = panes.drop_last();
        let n = panes.len() - 1;
        windows_hold_their_own_panes(front, id);
        let all = rects_in(panes, id);
        let less = rects_in(front, id);
        assert forall|i: int|
            0 <= i < panes.len() && (#[trigger] panes[i]).state.window == id implies all.contains(
            rect_of(panes[i].state),
        ) by {
            if i < n {
                assert(front[i] == panes[i]);
                let k = choose|k: int| 0 <= k < less.len() && less[k] == rect_of(front[i].state);
                assert(all[k] == less[k]);
            } else {
                assert(all[all.len() - 1] == rect_of(panes[n].state));
            }
        }
        assert forall|j: int| 0 <= j < all.len() implies exists|i: int|
            0 <= i < panes.len() && (#[trigger] panes[i]).state.window == id && rect_of(
                panes[i].state,
            ) == #[trigger] all[j] by {
            if j < less.len() {
                assert(all[j] == less[j]);
                let i = choose|i: int|
                    0 <= i < front.len() && (#[trigger] front[i]).state.window == id && rect_of(
                        front[i].state,
                    ) == less[j];
                assert(panes[i] == front[i]);
            } else {
                assert(rect_of(panes[n].state) == all[j]);
            }
        }
    }
}

/// The focus never goes to a pane that is not shown, stays where it is while its pane is
/// shown, and needs no choice where there is one pane alone.
pub proof fn the_focus_is_shown(visible: Seq<PaneId>, focused: Option<PaneId>)
    ensures
        focus_in(visible, focused) matches Some(pane) ==> visible.contains(pane),
        focused matches Some(pane) ==> visible.contains(pane) ==> focus_in(visible, focused)
            == focused,
        visible.len() == 1 ==> focus_in(visible, focused) == Some(visible[0]),
        visible.len() > 1 && (focused matches Some(pane) ==> !visible.contains(pane)) ==> focus_in(
            visible,
            focused,
        ) is None,
{
    if visible.len() == 1 {
        assert(visible.contains(visible[0]));
        if let Some(pane) = focused {
            if visible.contains(pane) {
                assert(pane == visible[0]);
            }
        }
    }
}

proof fn paths_are_their_own(path: Seq<char>)
    ensures
        same_path(path, path),
{
}

/// The keys of a form are tried one behind the other: the one that was entered first, then
/// those that the configuration names, each of them, in its order, and none twice.
pub proof fn every_key_is_tried_once(
    first: Seq<Seq<char>>,
    files: Seq<Seq<char>>,
    home: Option<Seq<char>>,
)
    requires
        key_files(first, files, home) is Some,
    ensures
        ({
            let all = key_files(first, files, home)->0;
            &&& first.len() <= all.len() <= first.len() + files.len()
            &&& all.take(first.len() as int) == first
            &&& forall|i: int|
                0 <= i < files.len() ==> local_path(#[trigger] files[i], home) is Some && among(
                    all,
                    local_path(files[i], home)->0,
                )
            &&& forall|j: int, k: int|
                0 <= j < k < all.len() && first.len() <= k ==> !same_path(
                    #[trigger] all[j],
                    #[trigger] all[k],
                )
            &&& forall|k: int|
                first.len() <= k < all.len() ==> exists|i: int|
                    0 <= i < files.len() && local_path(#[trigger] files[i], home) == Some(
                        #[trigger] all[k],
                    )
        }),
    decreases files.len(),
{
    let all = key_files(first, files, home)->0;
    if files.len() == 0 {
        assert(all.take(first.len() as int) =~= first);
    } else {
        let less = files.drop_last();
        let n = files.len() - 1;
        every_key_is_tried_once(first, less, home);
        let front = key_files(first, less, home)->0;
        let path = local_path(files[n], home)->0;
        assert forall|k: int| 0 <= k < front.len() implies #[trigger] all[k] == front[k] by {}
        assert(all.take(first.len() as int) =~= front.take(first.len() as int));
        if among(front, path) {
            let k = choose|k: int| 0 <= k < front.len() && same_path(#[trigger] front[k], path);
            assert(same_path(all[k], path));
        } else {
            paths_are_their_own(path);
            assert(same_path(all[front.len() as int], path));
        }
        assert forall|i: int| 0 <= i < files.len() implies local_path(#[trigger] files[i], home)
            is Some && among(all, local_path(files[i], home)->0) by {
            if i < n {
                assert(less[i] == files[i]);
                let own = local_path(less[i], home)->0;
                assert(among(front, own));
                let k = choose|k: int| 0 <= k < front.len() && same_path(#[trigger] front[k], own);
                assert(same_path(all[k], own));
            }
        }
        assert forall|j: int, k: int|
            0 <= j < k < all.len() && first.len() <= k implies !same_path(
            #[trigger] all[j],
            #[trigger] all[k],
        ) by {
            if k < front.len() {
                assert(!same_path(front[j], front[k]));
            } else {
                assert(all[k] == path);
                assert(all[j] == front[j]);
            }
        }
        assert forall|k: int| first.len() <= k < all.len() implies exists|i: int|
            0 <= i < files.len() && local_path(#[trigger] files[i], home) == Some(
                #[trigger] all[k],
            ) by {
            if k < front.len() {
                let i = choose|i: int|
                    0 <= i < less.len() && local_path(#[trigger] less[i], home) == Some(front[k]);
                assert(files[i] == less[i]);
            } else {
                assert(local_path(files[n], home) == Some(all[k]));
            }
        }
    }
}

/// Two texts that name the same path as a third name the same path.
pub proof fn same_paths_are_alike(a: Seq<char>, b: Seq<char>, c: Seq<char>)
    ensures
        same_path(a, a),
        same_path(a, b) ==> same_path(b, a),
        same_path(a, b) && same_path(b, c) ==> same_path(a, c),
{
}

/// A path that begins with a tilde is one below the home directory, and is refused where
/// none is known; any other path is left as it is.
pub proof fn home_paths_are_expanded(rest: Seq<char>, home: Seq<char>, path: Seq<char>)
    requires
        rest.len() > 0 ==> rest[0] != '/',
        home.len() > 0,
        home.last() != '/',
        path.len() > 0 ==> path[0] != '~',
    ensures
        local_path(seq!['~', '/'] + rest, Some(home)) == Some(home + seq!['/'] + rest),
        local_path(seq!['~', '/'] + rest, None) is None,
        local_path(path, None) == Some(path),
        local_path(path, Some(home)) == Some(path),
{
    let text = seq!['~', '/'] + rest;
    assert(text.skip(2) =~= rest);
    assert(home.push('/') + rest =~= home + seq!['/'] + rest);
}

/// Names of a path that tell it apart from others.
pub open spec fn telling(name: Seq<char>) -> bool {
    name.len() > 0 && name != "."@ && !name.contains('/')
}

/// A separator at the end and a single dot inside of a path add nothing to it, and two
/// paths below the same directory are the same where their names are.
pub proof fn dots_and_separators_add_nothing(dir: Seq<char>, name: Seq<char>, other: Seq<char>)
    requires
        dir.len() > 0,
        telling(name),
        telling(other),
    ensures
        same_path((dir.push('/') + name).push('/'), dir.push('/') + name),
        same_path(dir.push('/') + seq!['.', '/'] + name, dir.push('/') + name),
        same_path(dir.push('/') + name, dir.push('/') + other) <==> name == other,
{
    reveal_strlit(".");
    let path = dir.push('/') + name;
    let parts = pieces(dir, '/');
    assert(parts.len() > 0) by {
        pieces_read_back(dir, '/');
    }
    pieces_behind(dir, '/', name);
    pieces_behind(dir, '/', other);
    pieces_behind(path, '/', seq![]);
    assert(path.push('/') + Seq::<char>::empty() =~= path.push('/'));
    let ended = pieces(path.push('/'), '/');
    assert(ended.drop_last() =~= pieces(path, '/'));
    assert(names(ended) == names(pieces(path, '/')));
    let dotted = dir.push('/') + seq!['.'];
    assert("."@ =~= seq!['.']);
    assert(!seq!['.'].contains('/'));
    pieces_behind(dir, '/', seq!['.']);
    pieces_behind(dotted, '/', name);
    assert(dotted.push('/') + name =~= dir.push('/') + seq!['.', '/'] + name);
    let inner = pieces(dotted, '/');
    assert(inner.drop_last() =~= parts);
    assert(names(inner) == names(parts));
    assert(inner.push(name).drop_last() =~= inner);
    assert(parts.push(name).drop_last() =~= parts);
    assert(parts.push(other).drop_last() =~= parts);
    assert(names(inner.push(name)) == names(inner).push(name));
    assert(names(parts.push(name)) == names(parts).push(name));
    assert(names(parts.push(other)) == names(parts).push(other));
    if name != other {
        assert(names(parts).push(name).last() != names(parts).push(other).last());
    }
}

/// A text can be pasted exactly where it is not empty and holds no control code but tabs
/// and line endings.
pub proof fn pastes_hold_no_control_codes(text: Seq<char>)
    ensures
        valid_paste(text) <==> text.len() > 0 && forall|i: int|
            0 <= i < text.len() ==> {
                let n = (#[trigger] text[i]) as u32;
                (n >= 32 && !(127 <= n <= 159)) || n == 9 || n == 10 || n == 13
            },
{
    if valid_paste(text) {
        assert forall|i: int| 0 <= i < text.len() implies {
            let n = (#[trigger] text[i]) as u32;
            (n >= 32 && !(127 <= n <= 159)) || n == 9 || n == 10 || n == 13
        } by {
            assert(paste_char(text[i]));
        }
    }
    if text.len() > 0 && forall|i: int|
        0 <= i < text.len() ==> {
            let n = (#[trigger] text[i]) as u32;
            (n >= 32 && !(127 <= n <= 159)) || n == 9 || n == 10 || n == 13
        } {
        assert forall|i: int| 0 <= i < text.len() implies paste_char(#[trigger] text[i]) by {
            code_points_are_chars(text[i]);
        }
    }
}

proof fn code_points_are_chars(c: char)
    ensures
        c as u32 == 9 ==> c == '\t',
        c as u32 == 10 ==> c == '\n',
        c as u32 == 13 ==> c == '\r',
{
}

/// What comes of the clipboard is sent at once where it is one line, and waits for an
/// answer where it is more; either way it is for the pane that it was asked for. Nothing
/// is sent to a pane that is no longer the one that was meant, nor what cannot be pasted.
pub proof fn one_line_is_pasted_at_once(f: Front, d: Desk, target: Target, text: Seq<char>)
    ensures
        ({
            let (g, act) = clipped(f, d, target, text);
            let sound = current(d, target) && valid_paste(text);
            let broken = text.contains('\n') || text.contains('\r');
            &&& act == if sound && !broken {
                Some(Act::Paste(text))
            } else {
                None
            }
            &&& sound && broken ==> g.pending == Some((target, text))
            &&& !sound ==> g.pending == f.pending && g.notice is Some
            &&& sound && !broken ==> g == f
        }),
{
}

/// What is typed goes to the pane that has the focus, action by action, and a paste of
/// several lines waits there for an answer.
pub proof fn typing_goes_to_the_focus(f: Front, target: Target, event: Event, i: int)
    ensures
        ({
            let (g, steps, copies) = typed_at(f, target, event);
            &&& event matches Event::Input(actions) ==> {
                &&& g == f
                &&& !copies
                &&& steps.len() == actions@.len()
                &&& 0 <= i < steps.len() ==> steps[i] == Wish::Send(target, actions@[i]@)
            }
            &&& event matches Event::Paste(paste) ==> if paste@.contains('\n') || paste@.contains(
                '\r',
            ) {
                steps.len() == 0 && g.pending == Some((target, paste@))
            } else {
                g == f && steps == seq![Wish::Send(target, Act::Paste(paste@))]
            }
            &&& event is Copy ==> copies && steps.len() == 0
            &&& event is RequestPaste ==> steps == seq![Wish::RequestPaste(target)] && !copies
            &&& event is Refused ==> steps.len() == 0 && g.notice is Some && !copies
        }),
{
}

} // verus!
