use std::sync::Arc;

use starcom::demo::demo_view;
use starcom::desktop::{
    Connection, Error, Phase, State, Step as WorkerStep, MAX_PENDING_ACTIONS,
};
use starcom::form::Local;
use starcom::input::{self, Action as Input, Key, Modifiers, Paste};
use starcom::keys::{translate, Press};
use starcom::layout::{Axis, Boundary, Neighbors, Node, PaneRect};
use starcom::paint::{
    cell_colors, color, copy, indexed, pointed, runs, Cell, Color, Emphasis, Pointer, Rgb, Selecting,
    Tint, COLORS,
};
use starcom::session::Access;
use starcom::snapshot;
use starcom::ssh::{Authentication, Options};
use starcom::ssh_config::Config;
use starcom::store::Tab;
use starcom::terminal::Terminal;
use starcom::tmux::{Notification, PaneId, WindowId};
use starcom::ui::{
    paste_preview, paste_question, Action, Choice, DesktopUi, Discovery, Event, Failure, Screen,
    Shown, Step, Summary,
};
use starcom::values::SessionName;
use starcom::workspace;

fn view() -> snapshot::View {
    demo_view().unwrap_or_else(|error| panic!("{error:?}"))
}

fn editable() -> State {
    State {
        phase: Phase::Watching,
        view: Some(view()),
        access: Access::Interactive,
        ..State::default()
    }
}

fn enter() -> Input {
    Input::Key(Key::Enter, Modifiers::default())
}

fn connection() -> Connection {
    Connection {
        options: Options {
            host: "example.invalid".to_owned(),
            port: 22,
            user: "someone".to_owned(),
            known_hosts: "known_hosts".to_owned(),
            host_key_alias: None,
            authentication: Authentication::agent_only(),
            timeout: 5_000_000_000,
            jumps: Vec::new(),
        },
        session: SessionName::new("work").unwrap(),
        socket: None,
        history: 200,
        access: Access::Interactive,
        reconnect: true,
    }
}

#[test]
fn cancelled_or_replaced_epochs_cannot_publish() {
    let mut state = State::default();
    assert!(state.accepts(0));
    state.cancel();
    assert!(!state.accepts(0));
    assert!(state.accepts(1));
    state.stopping = true;
    assert!(!state.accepts(1));
}

#[test]
fn demo_and_disconnect_need_no_network() {
    let mut state = State::default();
    state.demo(view());
    assert_eq!(state.phase, Phase::Demo);
    assert_eq!(state.view.as_ref().unwrap().panes().len(), 3);
    state.disconnect();
    assert_eq!(state.phase, Phase::Disconnected);
    assert_eq!(
        state.view.as_ref().unwrap().status(),
        snapshot::Status::Disconnected
    );
}

#[test]
fn queue_is_bounded_and_cancellation_invalidates_all_actions() {
    let mut state = editable();
    let target = state.target(PaneId(0)).unwrap();
    for _ in 0..MAX_PENDING_ACTIONS {
        state.enqueue(target, enter()).unwrap();
    }
    assert!(state
        .enqueue(target, Input::Bytes(b"overflow".to_vec()))
        .is_err());
    assert_eq!(state.actions.len(), MAX_PENDING_ACTIONS);
    state.cancel();
    assert!(state.actions.is_empty());
    assert_eq!(state.action_bytes, 0);
    assert!(state
        .enqueue(target, Input::Bytes(b"stale".to_vec()))
        .is_err());
}

#[test]
fn queue_coalesces_bytes_without_crossing_a_key_or_pane_boundary() {
    let mut state = editable();
    let a = state.target(PaneId(0)).unwrap();
    let b = state.target(PaneId(1)).unwrap();
    for bytes in [b"one".to_vec(), b"two".to_vec()] {
        state.enqueue(a, Input::Bytes(bytes)).unwrap();
    }
    state.enqueue(a, enter()).unwrap();
    state.enqueue(b, Input::Bytes(b"three".to_vec())).unwrap();
    assert_eq!(state.actions.len(), 3);
    assert!(matches!(&state.actions[0].action, Input::Bytes(bytes) if bytes == b"onetwo"));
    assert_eq!(state.actions[2].target, b);
    assert_eq!(state.action_bytes, 6 + 32 + 5);
}

#[test]
fn a_gui_batch_is_rejected_as_a_whole_when_it_would_overflow() {
    let mut state = editable();
    let target = state.target(PaneId(0)).unwrap();
    let actions = (0..=MAX_PENDING_ACTIONS)
        .map(|_| (target, enter()))
        .collect();
    assert_eq!(state.submit_batch(actions), Err(Error::BatchFull));
    assert!(state.actions.is_empty());
    assert_eq!(state.action_bytes, 0);
}

#[test]
fn refused_actions_say_why() {
    let mut state = editable();
    let target = state.target(PaneId(0)).unwrap();
    assert!(state.target(PaneId(99)).is_none());
    let resize = || {
        Input::Resize(input::Resize {
            axis: input::Axis::Rows,
            cells: 5,
        })
    };
    assert_eq!(state.enqueue(target, resize()), Err(Error::ResizeDisabled));
    state.allow_remote_resize(true);
    assert!(state.enqueue(target, resize()).is_ok());
    assert_eq!(
        state.enqueue(target, Input::Bytes(Vec::new())),
        Err(Error::Action(input::Error::Bytes))
    );
    state.disconnect();
    let refused = state.enqueue(target, enter());
    assert_eq!(refused, Err(Error::Stale));
    assert!(!refused.unwrap_err().message().is_empty());
    assert_eq!(state.submit_batch(vec![(target, enter())]), Err(Error::BatchStale));
}

#[test]
fn a_worker_serves_one_connection_to_its_end() {
    let mut state = State::default();
    state.connect(connection()).unwrap();
    assert_eq!(state.phase, Phase::Connecting);
    let (epoch, request) = state.take_request().unwrap();
    assert!(state.take_request().is_none());
    assert!(state.attached(epoch, view(), &request));
    assert_eq!(state.view_label, "someone@example.invalid / work");
    let target = state.target(PaneId(0)).unwrap();
    state.enqueue(target, Input::Bytes(b"ls".to_vec())).unwrap();
    state.enqueue(target, enter()).unwrap();
    match state.step(epoch) {
        WorkerStep::Send { pane, actions } => {
            assert_eq!(pane, PaneId(0));
            assert_eq!(actions, [Input::Bytes(b"ls".to_vec()), enter()]);
        }
        other => panic!("{other:?}"),
    }
    assert!(matches!(state.step(epoch), WorkerStep::Poll));
    assert!(state.polled(epoch, vec![Notification::LayoutChange(WindowId(0))]));
    assert!(matches!(state.step(epoch), WorkerStep::Resync));
    assert!(state.resynced(epoch, view()));
    assert!(!state.is_current(target), "a token is not revived");
    assert!(state.interacted(epoch, Vec::new(), false));
    assert!(state.error.is_some());
    assert!(state.failed(epoch, "gone"));
    assert_eq!(state.phase, Phase::Failed);
    state.connect(connection()).unwrap();
    assert!(matches!(state.step(epoch), WorkerStep::Stop));
    assert!(!state.attached(epoch, view(), &connection()));
    let mut long = connection();
    long.history = 5000;
    assert!(state.connect(long).is_err());
}

#[test]
fn a_replaced_worker_changes_nothing_and_puts_nothing_back() {
    let mut state = State::default();
    state.connect(connection()).unwrap();
    let (old, request) = state.take_request().unwrap();
    state.attached(old, view(), &request);
    let target = state.target(PaneId(0)).unwrap();
    state.enqueue(target, Input::Bytes(b"once".to_vec())).unwrap();
    assert!(matches!(state.step(old), WorkerStep::Send { .. }));
    assert!(state.interacted(old, Vec::new(), false));
    assert!(matches!(state.step(old), WorkerStep::Resync));
    assert!(state.resynced(old, view()));
    assert!(matches!(state.step(old), WorkerStep::Poll), "nothing is sent again");

    state.connect(connection()).unwrap();
    let (epoch, request) = state.take_request().unwrap();
    state.attached(epoch, view(), &request);
    let target = state.target(PaneId(0)).unwrap();
    state.enqueue(target, Input::Bytes(b"kept".to_vec())).unwrap();
    let generation = state.generation;
    assert!(matches!(state.step(old), WorkerStep::Stop));
    assert!(!state.attached(old, view(), &request));
    assert!(!state.resynced(old, view()));
    assert!(!state.interacted(old, Vec::new(), false));
    assert!(!state.polled(old, vec![Notification::LayoutChange(WindowId(0))]));
    assert!(!state.failed(old, "gone"));
    assert_eq!((state.phase, state.generation), (Phase::Watching, generation));
    assert!(state.error.is_none());
    match state.step(epoch) {
        WorkerStep::Send { actions, .. } => {
            assert_eq!(actions, [Input::Bytes(b"kept".to_vec())]);
        }
        other => panic!("{other:?}"),
    }
}

#[test]
fn divider_changes_one_axis_relative_to_observed_cells() {
    let boundary = Boundary {
        pane: PaneId(2),
        pane_cells: 40,
    };
    let (pane, resize) = boundary.resize(Axis::Horizontal, 50).unwrap();
    assert_eq!(pane, PaneId(2));
    assert_eq!(
        resize,
        input::Resize {
            axis: input::Axis::Columns,
            cells: 50
        }
    );
    assert!(boundary.resize(Axis::Horizontal, 40).is_none());
}

#[test]
fn layout_demo_recovers_independent_window_splits() {
    let view = view();
    let panes: Vec<_> = view
        .panes()
        .iter()
        .filter(|pane| pane.state.window == WindowId(0))
        .collect();
    let node = Node::from_panes(&panes).unwrap();
    match node {
        Node::Split {
            axis: Axis::Horizontal,
            ratio,
            ..
        } => assert!((0.49..0.52).contains(&(ratio.part as f64 / ratio.whole as f64))),
        _ => panic!("expected side-by-side split"),
    }
}

fn pane(id: u32, left: usize, top: usize, columns: usize, rows: usize) -> snapshot::Pane {
    let state = snapshot::State::parse(&format!(
        "%{id}|@0|{columns}|{rows}|{left}|{top}|0|0|0|0|2000|||0|{}|1|0|0|0|1|0|0|0|0|0|1|",
        rows - 1
    ))
    .unwrap();
    let size = state.size;
    snapshot::Pane {
        state,
        terminal: Terminal::new(size, 0),
        history_may_be_truncated: false,
    }
}

#[test]
fn overlapping_panes_are_treated_as_a_zoomed_window() {
    let zoomed = pane(0, 0, 0, 80, 24);
    let hidden = pane(1, 0, 0, 40, 24);
    let panes = [&zoomed, &hidden];
    assert!(
        Node::from_panes(&panes).is_none(),
        "overlapping geometry is not a split"
    );
    match Node::from_panes_or_zoom(&panes) {
        Some(Node::Pane(id)) => assert_eq!(id, PaneId(0)),
        other => panic!("expected the larger pane, got {other:?}"),
    }
    let rects: Vec<PaneRect> = panes
        .iter()
        .map(|pane| PaneRect::from_state(&pane.state))
        .collect();
    assert_eq!(
        Neighbors::of(&rects, PaneId(0)),
        Neighbors::default(),
        "overlapping panes do not share an edge"
    );
}

#[test]
fn a_side_by_side_split_has_left_and_right_neighbors() {
    let left = pane(1, 0, 0, 40, 24);
    let right = pane(2, 40, 0, 40, 24);
    let rects = [
        PaneRect::from_state(&left.state),
        PaneRect::from_state(&right.state),
    ];
    assert_eq!(
        Neighbors::of(&rects, PaneId(1)),
        Neighbors {
            right: Some(PaneId(2)),
            ..Neighbors::default()
        }
    );
    assert_eq!(
        Neighbors::of(&rects, PaneId(2)),
        Neighbors {
            left: Some(PaneId(1)),
            ..Neighbors::default()
        }
    );
}

#[test]
fn a_stacked_split_has_up_and_down_neighbors() {
    let top = pane(1, 0, 0, 80, 10);
    let bottom = pane(2, 0, 10, 80, 14);
    let rects = [
        PaneRect::from_state(&top.state),
        PaneRect::from_state(&bottom.state),
    ];
    assert_eq!(Neighbors::of(&rects, PaneId(1)).down, Some(PaneId(2)));
    assert_eq!(Neighbors::of(&rects, PaneId(2)).up, Some(PaneId(1)));
    assert_eq!(Neighbors::of(&rects, PaneId(2)).count(), 1);
}

#[test]
fn every_pane_of_a_window_is_shown_once() {
    let a = pane(1, 0, 0, 40, 24);
    let b = pane(2, 41, 0, 39, 12);
    let c = pane(3, 41, 13, 39, 11);
    let node = Node::from_panes(&[&a, &b, &c]).unwrap();
    assert_eq!(node.pane_ids(), [PaneId(1), PaneId(2), PaneId(3)]);
}

const BACKGROUND: Rgb = Rgb {
    r: 18,
    g: 21,
    b: 26,
};

#[test]
fn indexed_rgb_and_inverse_colors_are_preserved() {
    let colors = vec![None; COLORS];
    let plain = |r: u8, g: u8, b: u8| Tint {
        rgb: Rgb { r, g, b },
        dims: 0,
    };
    assert_eq!(indexed(196, &colors), plain(255, 0, 0));
    // The dim foreground is the foreground, dimmed once.
    assert_eq!(
        color(Color::Indexed(268), &colors),
        Tint {
            rgb: Rgb {
                r: 214,
                g: 220,
                b: 229
            },
            dims: 1
        }
    );
    let own = Rgb {
        r: 12,
        g: 34,
        b: 56,
    };
    let inverse = Emphasis {
        bold: false,
        dim: false,
        inverse: true,
    };
    assert_eq!(
        cell_colors(Color::Spec(own), Color::Indexed(257), inverse, &colors),
        (
            Tint {
                rgb: BACKGROUND,
                dims: 0
            },
            plain(12, 34, 56)
        )
    );
}

fn cell(c: char) -> Cell {
    Cell {
        c,
        marks: Vec::new(),
        style: 0,
        blank: false,
        wide: false,
        ruled: false,
    }
}

#[test]
fn equal_cells_share_a_run() {
    let mut cells: Vec<Cell> = "abcd".chars().map(cell).collect();
    cells[2].style = 1;
    let runs = runs(&cells);
    let texts: Vec<&str> = runs.iter().map(|run| run.text.as_str()).collect();
    assert_eq!(texts, ["ab", "c", "d"]);
    assert_eq!((runs[1].start, runs[1].columns), (2, 1));
    assert_eq!(copy("text"), (true, "Copied."));
    assert!(!copy(&"a".repeat(1_048_577)).0);
    let click = Pointer {
        clicked: true,
        double_clicked: true,
        triple_clicked: false,
        secondary_clicked: false,
        drag_started: false,
        dragged: false,
        present: true,
    };
    assert_eq!(pointed(click), (true, Selecting::Words, false));
}

fn tab(text: &str) -> DesktopUi {
    let local = Local {
        user: "local".to_owned(),
        home: Some("/home/test".to_owned()),
    };
    let config = Config::from_text(text, "/home/test").unwrap();
    DesktopUi::with_config(Arc::new(config), None, local, true, 0)
}

/// One frame without any event.
fn paint(ui: &mut DesktopUi, state: &State, discovery: &Option<Discovery>) -> Action {
    paint_after(ui, state, discovery, None)
}

fn paint_after(
    ui: &mut DesktopUi,
    state: &State,
    discovery: &Option<Discovery>,
    failure: Option<Failure>,
) -> Action {
    match ui.show(state, failure) {
        Shown::Gone => Action::Disconnect,
        Shown::Panes => {
            ui.begin_terminal(state, 0);
            ui.finish_terminal(Action::Idle, Vec::new())
        }
        Shown::Form => {
            let gates = ui.gates(state, discovery);
            let chosen = ui.preselect(gates, discovery);
            ui.finish_form(state, discovery, chosen, Action::Idle)
        }
    }
}

#[test]
fn new_ui_starts_on_connection_form() {
    assert_eq!(tab("").screen, Screen::Connection);
    assert!(tab("").showing_form());
}

#[test]
fn choosing_a_host_lists_its_sessions() {
    let mut ui = tab("Host zork\nHostName 10.0.0.2\nUser alice\n");
    assert_eq!(ui.aliases(), ["zork"]);
    ui.pick_alias("zork");
    let state = State::default();
    assert!(matches!(
        paint(&mut ui, &state, &None),
        Action::ListSessions(_)
    ));
    assert_eq!(ui.listed_destination, "zork");
    assert!(matches!(paint(&mut ui, &state, &None), Action::Idle));
    let gates = ui.gates(&state, &None);
    ui.ask_again(gates);
    assert!(matches!(
        paint(&mut ui, &state, &Some(Discovery::Running)),
        Action::Idle
    ));
}

fn summary(name: &str) -> Summary {
    Summary {
        name: name.to_owned(),
        windows: 1,
        attached: 0,
    }
}

#[test]
fn a_session_list_selects_the_first_name() {
    let mut ui = tab("");
    ui.form.destination = "zork".to_owned();
    ui.listed_destination = "zork".to_owned();
    let found = Some(Discovery::Sessions(vec![summary("0"), summary("work")]));
    paint(&mut ui, &State::default(), &found);
    assert_eq!(ui.form.session, "0");
    ui.form.session = "work".to_owned();
    paint(&mut ui, &State::default(), &found);
    assert_eq!(ui.form.session, "work");
    let created = Some(Discovery::Created("new".to_owned()));
    paint(&mut ui, &State::default(), &created);
    assert_eq!(ui.form.session, "new");
}

#[test]
fn a_typed_new_session_name_is_not_replaced_by_the_listing() {
    let mut ui = tab("");
    ui.form.destination = "zork".to_owned();
    ui.form.host = "10.0.0.2".to_owned();
    ui.listed_destination = "zork".to_owned();
    ui.create_name = "fresh".to_owned();
    let found = Some(Discovery::Sessions(vec![summary("0")]));
    paint(&mut ui, &State::default(), &found);
    assert_eq!(ui.create_name, "fresh");
    assert_eq!(ui.form.session, "0");
}

#[test]
fn restored_tabs_do_not_list_on_first_paint() {
    let mut ui = tab("");
    ui.restore(Tab {
        destination: "zork".into(),
        host: "zork.example".into(),
        user: "alice".into(),
        session: "work".into(),
        port: 22,
        ..Tab::default()
    });
    assert!(!ui.auto_list);
    assert_eq!(ui.listed_destination, "zork");
    assert!(matches!(
        paint(&mut ui, &State::default(), &None),
        Action::Idle
    ));
}

#[test]
fn a_failed_first_attach_returns_to_the_form() {
    let mut ui = tab("");
    ui.open_terminal();
    let mut state = State::default();
    state.phase = Phase::Failed;
    state.error = Some(
        "Authentication failed. Starcom will not retry it. SSH Authentication: no SSH agent is available"
            .into(),
    );
    paint(&mut ui, &state, &None);
    assert_eq!(ui.screen, Screen::Connection);
}

fn shown_state() -> State {
    let mut state = editable();
    state.generation = 1;
    state
}

#[test]
fn a_destroyed_session_disconnects_like_exit() {
    let mut ui = tab("");
    let mut state = shown_state();
    paint(&mut ui, &state, &None);
    assert_eq!(ui.screen, Screen::Terminal);
    state.phase = Phase::Failed;
    assert!(matches!(
        paint_after(&mut ui, &state, &None, Some(Failure::MissingSession)),
        Action::Disconnect
    ));
    assert_eq!(ui.screen, Screen::Connection);
}

#[test]
fn a_published_view_replaces_the_form_once() {
    let mut ui = tab("");
    let state = shown_state();
    paint(&mut ui, &state, &None);
    assert_eq!(ui.screen, Screen::Terminal);
    ui.screen = Screen::Connection;
    paint(&mut ui, &state, &None);
    assert_eq!(
        ui.screen,
        Screen::Connection,
        "Connection settings must not be yanked back to the workspace"
    );
}

fn focused() -> (DesktopUi, State) {
    let mut ui = tab("");
    let state = shown_state();
    ui.open_terminal();
    ui.begin_terminal(&state, 0);
    ui.focused = Some(PaneId(0));
    (ui, state)
}

/// A frame that produces a paste request AND keystrokes must deliver both,
/// in order. Returning one action per frame used to discard the keystrokes.
#[test]
fn a_paste_request_does_not_displace_the_same_frame_keystrokes() {
    let (mut ui, state) = focused();
    let target = state.target(PaneId(0)).unwrap();
    let mut steps = Vec::new();
    ui.typed(&state, Event::RequestPaste, &mut steps);
    ui.typed(
        &state,
        Event::Input(vec![Input::Bytes(b"ls".to_vec())]),
        &mut steps,
    );
    let Action::Frame(steps) = ui.finish_terminal(Action::Idle, steps) else {
        panic!("expected an ordered terminal frame")
    };
    assert!(
        matches!(steps.as_slice(), [Step::RequestPaste(a), Step::Send(b, _)]
            if *a == target && *b == target),
        "the paste request and the keystrokes must both survive, in order"
    );
    assert!(ui.notice.is_none(), "nothing should have been dropped");
}

#[test]
fn arrow_up_stays_with_the_focused_pane() {
    let (mut ui, state) = focused();
    let target = state.target(PaneId(0)).unwrap();
    let mut steps = Vec::new();
    ui.typed(
        &state,
        Event::Input(vec![Input::Key(Key::Up, Modifiers::default())]),
        &mut steps,
    );
    let Action::Frame(steps) = ui.finish_terminal(Action::Idle, steps) else {
        panic!("expected the arrow to reach the pane");
    };
    assert!(
        matches!(
            steps.as_slice(),
            [Step::Send(sent, Input::Key(Key::Up, modifiers))]
                if *sent == target && !modifiers.control && !modifiers.alt && !modifiers.shift
        ),
        "ArrowUp must go to the remote application, not another widget"
    );
    assert_eq!(ui.focused, Some(PaneId(0)));
}

#[test]
fn a_frame_that_navigates_says_what_it_did_not_send() {
    let (mut ui, state) = focused();
    let mut steps = Vec::new();
    ui.request_paste(&state, &mut steps);
    ui.send(&state, PaneId(1), enter(), &mut steps);
    ui.send(&state, PaneId(99), enter(), &mut steps);
    assert_eq!(steps.len(), 2);
    let left = ui.exit();
    assert!(matches!(
        ui.finish_terminal(left, steps),
        Action::Disconnect
    ));
    assert!(ui.notice.as_ref().unwrap().contains("was not sent"));
    assert!(ui.showing_form());
}

#[test]
fn several_lines_are_pasted_only_when_confirmed() {
    let (mut ui, state) = focused();
    let target = state.target(PaneId(0)).unwrap();
    let single = ui.clipboard_paste(&state, target, "one line");
    assert!(matches!(single, Some(Input::Paste(paste)) if paste.as_str() == "one line"));
    assert!(ui.clipboard_paste(&state, target, "a\nb").is_none());
    let paste = Paste::new("a\nb").unwrap();
    assert_eq!(paste_question(&paste), "Send 3 bytes across 2 lines?");
    assert_eq!(paste_preview(&paste), "a\nb");
    let mut steps = Vec::new();
    ui.confirm(Choice::Wait, &mut steps);
    assert!(steps.is_empty());
    ui.confirm(Choice::Send, &mut steps);
    assert!(matches!(steps.as_slice(), [Step::Send(to, Input::Paste(_))] if *to == target));
    assert!(ui.pending_paste.is_none());
    assert!(ui.clipboard_paste(&state, target, "\u{1b}").is_none());
    assert!(ui.notice.is_some());
    let mut gone = shown_state();
    gone.disconnect();
    assert!(ui.clipboard_paste(&gone, target, "x").is_none());
    assert_eq!(
        ui.notice.as_deref(),
        Some("Paste target changed; nothing was sent.")
    );
}

#[test]
fn the_size_is_told_once_it_has_settled() {
    let (mut ui, state) = focused();
    let mut steps = Vec::new();
    assert!(ui.report_size(&state, 100, 40, 1000, &mut steps));
    assert!(ui.report_size(&state, 100, 40, 1100, &mut steps));
    assert!(steps.is_empty());
    assert!(!ui.report_size(&state, 100, 40, 1200, &mut steps));
    assert!(matches!(
        steps.as_slice(),
        [Step::Send(_, Input::ClientSize(size))] if size.columns() == 100 && size.rows() == 40
    ));
    assert!(!ui.report_size(&state, 100, 40, 1300, &mut steps));
    assert_eq!(steps.len(), 1);
    ui.larger_text();
    assert_eq!(ui.font_points, 15);
    assert!(ui.report_size(&state, 100, 40, 1400, &mut steps));
    for _ in 0..20 {
        ui.smaller_text();
    }
    assert_eq!(ui.font_points, 10);
}

#[test]
fn panes_are_copied_and_described() {
    let (mut ui, state) = focused();
    assert!(ui.can_kill(&state));
    assert!(ui.status(&state).contains("Click a pane to type"));
    let copied = ui.copy_pane(&state, Some("chosen".to_owned()));
    assert_eq!(copied.as_deref(), Some("chosen"));
    assert_eq!(ui.status(&state), "Copied.");
    let whole = ui.copy_pane(&state, None).unwrap();
    assert!(whole.starts_with("Starcom"));
    ui.focused = None;
    assert!(ui.copy_pane(&state, None).is_none());
    assert_eq!(ui.notice.as_deref(), Some("Click a pane first."));
    assert!(ui.probe_due(1000));
    ui.probed(false, 1000);
    assert!(!ui.probe_due(1500));
    assert!(ui.lacks_keys());
}

#[test]
fn the_form_connects_creates_and_returns() {
    let mut ui = tab("Host zork\nHostName 10.0.0.2\nUser alice\n");
    let state = State::default();
    ui.pick_alias("zork");
    let gates = ui.gates(&state, &None);
    assert!(!ui.can_connect(gates));
    assert!(ui.connect(gates).is_none());
    ui.form.session = "work".to_owned();
    assert!(ui.can_connect(gates));
    assert_eq!(ui.connect(gates).unwrap().session.as_str(), "work");
    assert!(ui.create(gates).is_none());
    ui.create_name = " fresh ".to_owned();
    assert_eq!(ui.create(gates).unwrap().session.as_str(), "fresh");
    assert_eq!(
        ui.open_session(gates, "other").unwrap().session.as_str(),
        "other"
    );
    let mut busy = State::default();
    busy.phase = Phase::Connecting;
    let blocked = ui.gates(&busy, &None);
    assert!(ui.open_session(blocked, "other").is_none());
    ui.back_to_terminal(&state);
    assert!(ui.showing_form());
    ui.back_to_terminal(&busy);
    assert!(!ui.showing_form());
    ui.form.destination = "zork:bad host".to_owned();
    ui.destination_changed();
    ui.destination_left(true);
    assert!(ui.auto_list);
}

#[test]
fn a_frame_reaches_the_queue_with_the_clipboard_in_place() {
    let local = Local {
        user: "local".to_owned(),
        home: None,
    };
    let config = Config::new(Vec::new(), "/home/test".to_owned(), Vec::new());
    let probe = workspace::Probe {
        agent: true,
        now: 0,
    };
    let mut room = workspace::Workspace::empty(
        starcom::desktop::Startup::ConnectionForm,
        Arc::new(config),
        None,
        local,
    );
    room.new_tab(probe).unwrap();
    room.tabs[0].state = shown_state();
    let id = room.tabs[0].id;
    let target = room.tabs[0].state.target(PaneId(0)).unwrap();
    let frame = workspace::Action::Tab(
        id,
        Action::Frame(vec![
            Step::Send(target, enter()),
            Step::RequestPaste(target),
            Step::Send(target, enter()),
        ]),
    );
    assert_eq!(workspace::clipboard_requests(&frame), 1);
    room.apply(frame, &vec![Some("clip".to_owned())], probe);
    let queue = &room.tabs[0].state.actions;
    assert_eq!(queue.len(), 3);
    assert!(matches!(&queue[1].action, Input::Paste(paste) if paste.as_str() == "clip"));
    let connect = workspace::Action::Tab(id, Action::Connect(connection()));
    assert!(room.apply(connect, &Vec::new(), probe).persist);
    assert_eq!(room.tabs[0].state.phase, Phase::Connecting);
    assert!(room.tabs[0].label.ends_with(" / work"));
    let list = workspace::Action::Tab(id, Action::ListSessions(connection()));
    assert!(matches!(
        room.apply(list, &Vec::new(), probe).effect,
        workspace::Effect::ListSessions(_, _)
    ));
    assert!(matches!(
        room.navigate(workspace::Action::Select(7), Action::Disconnect),
        workspace::Action::Select(7)
    ));
}

#[test]
fn control_letters_are_input_and_shifted_ones_reach_the_clipboard() {
    let control = Modifiers {
        control: true,
        ..Modifiers::default()
    };
    let shifted = Modifiers {
        control: true,
        shift: true,
        ..Modifiers::default()
    };
    assert!(matches!(
        translate(Press::Letter('C', control)),
        Some(Event::Input(actions)) if actions == [Input::Bytes(vec![3])]
    ));
    assert!(matches!(
        translate(Press::Letter('V', control)),
        Some(Event::Input(actions)) if actions == [Input::Bytes(vec![22])]
    ));
    assert!(matches!(
        translate(Press::Letter('C', shifted)),
        Some(Event::Copy)
    ));
    assert!(matches!(
        translate(Press::Letter('V', shifted)),
        Some(Event::RequestPaste)
    ));
    assert!(translate(Press::Letter('V', Modifiers::default())).is_none());
    assert!(translate(Press::Letter('X', shifted)).is_none());
    assert!(matches!(translate(Press::Copy), Some(Event::Copy)));
}

#[test]
fn typed_text_is_sent_as_bytes_in_pieces_that_fit() {
    let text = "界".repeat(700);
    let pieces = match translate(Press::Text(text.clone())) {
        Some(Event::Input(actions)) => actions,
        other => panic!("{other:?}"),
    };
    assert_eq!(pieces.len(), 3);
    let mut bytes = Vec::new();
    for piece in pieces {
        assert!(piece.validate().is_ok());
        match piece {
            Input::Bytes(part) => bytes.extend(part),
            other => panic!("{other:?}"),
        }
    }
    assert_eq!(bytes, text.into_bytes());
}

#[test]
fn named_keys_and_pastes_are_checked() {
    let plain = Modifiers::default();
    assert!(matches!(
        translate(Press::Named(input::Key::Function(20), plain)),
        Some(Event::Input(actions)) if actions.len() == 1
    ));
    assert!(matches!(
        translate(Press::Named(input::Key::Function(21), plain)),
        Some(Event::Refused(_))
    ));
    assert!(matches!(
        translate(Press::Paste("one line".to_owned())),
        Some(Event::Paste(paste)) if paste.as_str() == "one line"
    ));
    assert!(matches!(
        translate(Press::Paste("\u{1b}[2J".to_owned())),
        Some(Event::Refused(_))
    ));
}
