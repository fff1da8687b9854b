use starcom::inspect::{
    brought, sent, Batch, Error as InspectError, Look, Observer, INFO_COMMAND, PANES_COMMAND,
};
use starcom::session::{
    guard_command, is_restorable, may_act, Error, Next, Restoring, Session, SnapshotCommand,
    SnapshotHook, Stage,
};
use starcom::control::Error as ControlError;
use starcom::replay::Error as ReplayError;
use starcom::snapshot::{Error as SnapshotError, Status, MAX_HISTORY_LINES};
use starcom::ssh::Io;
use starcom::text::NumberError;
use starcom::tmux::{Notification, PaneId, SessionId, WindowId};

const INFO: &str = "3.3a|$5|1|1|control-mode,read-only,ignore-size,no-output|";
const FACTS: &str = "%1|@2|12|3|0|0|3|0|0|0|2000|||0|2|1|0|0|0|1|0|0|0|0|0|1|";
const LISTED: &str = "%1 @2 12 3 0 0 3 0 0 0 2000";

fn lines(text: &[&str]) -> Vec<String> {
    text.iter().map(|line| (*line).to_owned()).collect()
}

fn batch(replies: Vec<Vec<String>>) -> Batch {
    Batch {
        replies,
        notifications: Vec::new(),
    }
}

fn captures(facts: &str, screen: &[&str]) -> Batch {
    batch(vec![
        lines(&[facts]),
        lines(screen),
        Vec::new(),
        Vec::new(),
        lines(&[facts]),
        lines(&["$5"]),
        Vec::new(),
    ])
}

fn asked(next: Result<Next, Error>) -> (Restoring, Vec<String>) {
    match next {
        Ok(Next::Ask(restoring, commands)) => (restoring, commands),
        Ok(Next::Done(_)) => panic!("done too early"),
        Err(error) => panic!("{error:?}"),
    }
}

fn failed(next: Result<Next, Error>) -> Error {
    match next {
        Err(error) => error,
        Ok(_) => panic!("went on"),
    }
}

/// A restore that waits for the reply to the request of a stage.
fn waiting(stage: Stage) -> Restoring {
    let (mut restoring, _) = Restoring::begin(SessionId(5), 100).unwrap();
    while restoring.stage != stage {
        let reply = match restoring.stage {
            Stage::Panes => batch(vec![lines(&[LISTED])]),
            _ => batch(vec![Vec::new()]),
        };
        restoring = asked(restoring.answer(reply)).0;
    }
    restoring
}

#[test]
fn panes_are_captured_behind_silence_and_a_clean_environment() {
    let (restoring, commands) = Session::attach(&lines(&[INFO]), 100).unwrap();
    assert_eq!(commands, ["refresh-client -f no-output\n"]);
    assert_eq!(restoring.session, SessionId(5));
    let (restoring, commands) = asked(restoring.answer(batch(vec![Vec::new()])));
    assert_eq!(commands, [PANES_COMMAND]);
    let (restoring, commands) = asked(restoring.answer(batch(vec![lines(&[LISTED])])));
    assert_eq!(commands, ["show-options -s -v command-alias\n"]);
    let (restoring, commands) = asked(restoring.answer(batch(vec![lines(&["split=split-window"])])));
    assert_eq!(
        commands,
        [
            "show-hooks -g",
            "show-hooks -gw",
            "show-hooks -t '$5'",
            "show-hooks -w -t @2",
            "show-hooks -p -t %1",
        ]
    );
    let (restoring, commands) = asked(restoring.answer(batch(vec![Vec::new(); 5])));
    assert_eq!(restoring.stage, Stage::Captures);
    assert_eq!(commands.len(), 7);
    assert_eq!(commands.last().unwrap(), "refresh-client -f '!no-output'");
    match restoring.answer(captures(FACTS, &["old", "", ""])) {
        Ok(Next::Done(view)) => {
            assert_eq!(view.session_id(), SessionId(5));
            assert_eq!(view.pane(PaneId(1)).unwrap().terminal.screen_lines()[0], "old");
        }
        _ => panic!("not restored"),
    }
}

#[test]
fn a_restore_stops_at_the_first_hazard() {
    assert!(matches!(
        Session::attach(&lines(&["3.3a|$5|1|0|ignore-size,no-output|"]), 100),
        Err(Error::Inspect(InspectError::InfoClient))
    ));
    assert!(matches!(
        Session::attach(&lines(&[INFO]), MAX_HISTORY_LINES + 1),
        Err(Error::History)
    ));
    assert_eq!(
        failed(waiting(Stage::Panes).answer(batch(vec![Vec::new()]))),
        Error::Inspect(InspectError::PaneCount)
    );
    let many: Vec<String> = (0..33).map(|id| format!("%{id} @2 12 3 0 0 3 0 0 0 2000")).collect();
    assert_eq!(
        failed(waiting(Stage::Panes).answer(batch(vec![many]))),
        Error::TooManyPanes
    );
    assert_eq!(
        failed(waiting(Stage::Aliases).answer(batch(vec![lines(&["capture-pane=kill-server"])]))),
        Error::Alias(SnapshotCommand::CapturePane)
    );
    let hooks = batch(vec![
        Vec::new(),
        lines(&["after-capture-pane[0] run-shell 'sleep 1'"]),
    ]);
    assert_eq!(failed(waiting(Stage::Hooks).answer(hooks)), Error::Hook(SnapshotHook::CapturePane));
    let mut other = captures(FACTS, &["old", "", ""]);
    other.replies[5] = lines(&["$6"]);
    assert_eq!(
        failed(waiting(Stage::Captures).answer(other)),
        Error::SessionChanged
    );
}

#[test]
fn panes_of_one_column_are_restored_without_wide_characters() {
    let narrow = FACTS.replace("|12|3|0|0|3|", "|1|3|0|0|0|");
    assert!(is_restorable(1, &captures(FACTS, &["界", "", ""])));
    assert!(is_restorable(1, &captures(&narrow, &["x", "", ""])));
    assert!(is_restorable(1, &captures(&narrow, &["é", "│", ""])));
    assert!(!is_restorable(1, &captures(&narrow, &["界", "", ""])));
    let with_output = |pane: usize, text: &str| {
        let mut live = captures(&narrow, &["x", "", ""]);
        live.notifications.push((
            7,
            Notification::Output {
                pane: PaneId(pane as u32),
                bytes: text.as_bytes().to_vec(),
            },
        ));
        live
    };
    assert!(is_restorable(1, &with_output(1, "é│")));
    assert!(!is_restorable(1, &with_output(1, "界")));
    assert!(is_restorable(1, &with_output(2, "界")));
    match waiting(Stage::Captures).answer(with_output(1, "é")) {
        Ok(Next::Done(view)) => {
            assert_eq!(view.pane(PaneId(1)).unwrap().terminal.screen_lines(), ["é", "", ""]);
        }
        _ => panic!("not restored"),
    }
}

fn session() -> Session {
    match waiting(Stage::Captures).answer(captures(FACTS, &["old", "", ""])) {
        Ok(Next::Done(view)) => Session::new(view, 100),
        _ => panic!("not restored"),
    }
}

#[test]
fn a_session_follows_output_until_its_channel_fails() {
    let mut session = session();
    let output = Notification::Output {
        pane: PaneId(1),
        bytes: b"!".to_vec(),
    };
    assert!(session.suits(&output));
    assert!(session.poll(Ok(vec![output])).is_ok());
    let row = |session: &Session| session.view().pane(PaneId(1)).unwrap().terminal.screen_lines();
    assert_eq!(row(&session)[0], "old!");
    assert_eq!(session.poll(Err(InspectError::Ended)), Err(InspectError::Ended));
    assert_eq!(session.view().status(), Status::Disconnected);
    assert_eq!(row(&session)[0], "old!");
}

#[test]
fn a_failed_synchronization_keeps_the_old_models_for_reading() {
    let mut session = session();
    let (restoring, commands) = session.resume().unwrap();
    assert_eq!(restoring.stage, Stage::Silence);
    assert_eq!(commands, ["refresh-client -f no-output\n"]);
    let view = match waiting(Stage::Captures).answer(captures(FACTS, &["new", "", ""])) {
        Ok(Next::Done(view)) => view,
        _ => panic!("not restored"),
    };
    assert!(session.synchronize(Ok(view)).is_ok());
    assert_eq!(session.view().status(), Status::Watching);
    let hook = Error::Hook(SnapshotHook::ListPanes);
    assert_eq!(session.synchronize(Err(hook)), Err(hook));
    assert_eq!(session.view().status(), Status::Disconnected);
    let pane = session.view().pane(PaneId(1)).unwrap();
    assert_eq!(pane.terminal.screen_lines()[0], "new");
}

#[test]
fn an_observation_captures_every_listed_pane_once() {
    let (observer, command) = Observer::begin(200).unwrap();
    assert_eq!(command, INFO_COMMAND);
    let ask = |look: Result<Look, InspectError>| match look {
        Ok(Look::Ask(observer, command)) => (observer, command),
        _ => panic!("not asked"),
    };
    let (observer, command) = ask(observer.answer(lines(&[INFO]), ""));
    assert_eq!(command, PANES_COMMAND);
    let listing = lines(&["%7 @2 12 3 0 0 3 0 0 0 2000", "%4 @2 12 3 0 0 3 0 0 0 2000"]);
    let (observer, command) = ask(observer.answer(listing.clone(), ""));
    assert_eq!(command, "capture-pane -p -C -t %4 -S -200 -E -\n");
    let (observer, command) = ask(observer.answer(lines(&["four"]), ""));
    assert_eq!(command, "capture-pane -p -C -t %7 -S -200 -E -\n");
    let (observer, command) = ask(observer.answer(lines(&["seven"]), ""));
    assert_eq!(command, PANES_COMMAND);
    match observer.answer(listing, "SHA256:abc") {
        Ok(Look::Done(seen)) => {
            assert_eq!(seen.tmux_version, "3.3a");
            assert_eq!(seen.session, SessionId(5));
            assert_eq!(seen.fingerprint, "SHA256:abc");
            assert!(!seen.metadata_changed_during_capture);
            assert_eq!(seen.captures.len(), 2);
            assert_eq!(seen.captures[0].pane.id, PaneId(4));
            assert_eq!(seen.captures[1].escaped_rows, ["seven"]);
        }
        _ => panic!("not done"),
    }
}

#[test]
fn an_observation_says_when_panes_changed_under_it() {
    let (observer, _) = Observer::begin(0).unwrap();
    let mut look = observer.answer(lines(&[INFO]), "");
    for reply in [LISTED, "row", "%1 @2 12 3 0 0 4 0 0 0 2000"] {
        look = match look {
            Ok(Look::Ask(observer, _)) => observer.answer(lines(&[reply]), ""),
            _ => panic!("not asked"),
        };
    }
    assert!(matches!(look, Ok(Look::Done(seen)) if seen.metadata_changed_during_capture));
    assert!(matches!(Observer::begin(1001), Err(InspectError::History)));
    let (observer, _) = Observer::begin(0).unwrap();
    assert!(matches!(
        observer.answer(Vec::new(), ""),
        Err(InspectError::InfoLines)
    ));
}

#[test]
fn an_observation_is_bounded() {
    let (observer, _) = Observer::begin(0).unwrap();
    let mut look = observer.answer(lines(&[INFO]), "");
    let row = "x".repeat(8 * 1024 * 1024 + 1);
    for reply in [LISTED, row.as_str()] {
        look = match look {
            Ok(Look::Ask(observer, _)) => observer.answer(lines(&[reply]), ""),
            _ => panic!("not asked"),
        };
    }
    assert!(matches!(look, Err(InspectError::TransferTooLarge)));
}

#[test]
fn a_request_is_written_once_and_a_closed_channel_is_an_error() {
    assert_eq!(sent(Io::Count(5)), Ok(Some(5)));
    assert_eq!(sent(Io::Count(0)), Err(InspectError::Closed));
    assert_eq!(
        InspectError::Closed.message(),
        "tmux channel closed during write; delivery is uncertain"
    );
    assert_eq!(sent(Io::WouldBlock), Ok(None));
    assert_eq!(sent(Io::Interrupted), Ok(Some(0)));
    assert_eq!(sent(Io::Failed("reset".to_owned())), Err(InspectError::Write));
    assert_eq!(brought(1, true), Ok(true));
    assert_eq!(brought(0, false), Ok(false));
    assert_eq!(brought(0, true), Err(InspectError::Ended));
}

#[test]
fn actions_are_sent_only_where_they_reach_one_pane() {
    assert_eq!(
        guard_command(PaneId(3)),
        "display-message -p -t %3 '#{session_id}|#{window_id}|#{pane_dead}|#{pane_input_off}|#{pane_in_mode}|#{pane_synchronized}|#{window_zoomed_flag}'"
    );
    let act = |line: &str, resizing| may_act(&lines(&[line]), SessionId(5), WindowId(2), resizing);
    assert!(act("$5|@2|0|0|0|0|0", false));
    assert!(act("$5|@2|0|0|0|0|0", true));
    assert!(act("$5|@2|0|0|0|0|1", false));
    assert!(!act("$5|@2|0|0|0|0|1", true), "a zoomed window is not resized");
    assert!(!act("$5|@2|0|0|0|1|0", false), "input would be shared");
    assert!(!act("$5|@2|0|0|1|0|0", false), "the pane is in a mode");
    assert!(!act("$5|@2|0|1|0|0|0", false));
    assert!(!act("$5|@2|1|0|0|0|0", false));
    assert!(!act("$6|@2|0|0|0|0|0", false));
    assert!(!act("$5|@3|0|0|0|0|0", false));
    assert!(!act("", false));
    assert!(!may_act(&[], SessionId(5), WindowId(2), false));
}

#[test]
fn errors_say_what_stands_in_the_way() {
    assert_eq!(
        Error::Hook(SnapshotHook::RefreshClient).message(),
        "configured after-refresh-client hook prevents a synchronous snapshot"
    );
    assert_eq!(
        Error::Alias(SnapshotCommand::ShowOptions).message(),
        "a command alias overrides snapshot command show-options"
    );
    assert_eq!(
        Error::Inspect(InspectError::InfoClient).message(),
        "expected a read-only, non-PTY control client"
    );
    assert_eq!(
        Error::Snapshot(SnapshotError::Number(7, NumberError::Digit)).message(),
        "invalid pane state field 7: invalid digit found in string"
    );
    assert_eq!(
        InspectError::Control(ControlError::LineTooLong).message(),
        "tmux control stream: LineTooLong"
    );
    assert_eq!(
        ReplayError::TooManyPanes.message(),
        "replay exceeds the 16-pane safety budget"
    );
}
