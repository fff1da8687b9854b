use starcom::inspect::{
    attach_command, batch_wire, capture_command, check_stdout, count_capture, idle_event,
    panes_changed, parse_info, parse_panes, Batch, Decoded, Error as InspectError, Inspector,
};
use starcom::replay::{Error as ReplayError, Replay};
use starcom::session::{
    environment_commands, reject_aliases, reject_snapshot_hooks, restore, snapshot_commands,
    Error as SessionError, SnapshotCommand, SnapshotHook,
};
use starcom::snapshot::{
    decode_escaped, validate_budget, Error, Pane, State, Status, View, MAX_CAPTURE_BYTES,
    MAX_HISTORY_LINES, MAX_PANES,
};
use starcom::text::NumberError;
use starcom::terminal::{is_feedable, Terminal};
use starcom::tmux::{CommandError, CommandId, Incoming, Notification, PaneId, SessionId, WindowId};
use starcom::values::{SessionName, Size};

fn state(columns: usize, rows: usize) -> State {
    State::parse(&format!(
        "%1|@2|{columns}|{rows}|0|0|0|0|0|0|2000|||0|{}|1|0|0|0|1|0|0|0|0|0|1|",
        rows - 1
    ))
    .unwrap()
}

fn lines(text: &[&str]) -> Vec<String> {
    text.iter().map(|line| (*line).to_owned()).collect()
}

/// The notification of an `%output` line.
fn decoded(line: &[u8]) -> Notification {
    let text = line.strip_prefix(b"%output %").unwrap();
    let space = text.iter().position(|&b| b == b' ').unwrap();
    let pane = std::str::from_utf8(&text[..space]).unwrap().parse().unwrap();
    Notification::Output {
        pane: PaneId(pane),
        bytes: decode_escaped(&text[space + 1..]).unwrap(),
    }
}

fn run(replay: &mut Replay, bytes: &[u8]) -> Result<(), ReplayError> {
    for line in replay.feed(bytes)? {
        if line.starts_with(b"%output ") {
            replay.apply(decoded(&line))?;
        }
    }
    Ok(())
}

#[test]
fn carriage_return_and_ansi_are_emulated_not_stripped() {
    let mut terminal = Terminal::new(Size::new(20, 4).unwrap(), 0);
    terminal.feed(b"working\r\x1b[2K\x1b[32mdone\x1b[0m");
    assert_eq!(terminal.screen_lines()[0], "done");
}

#[test]
fn alternate_screen_restores_primary_content() {
    let mut terminal = Terminal::new(Size::new(20, 4).unwrap(), 0);
    terminal.feed(b"primary\x1b[?1049h\x1b[Halternate");
    assert!(terminal.is_alternate_screen());
    assert_eq!(terminal.screen_lines()[0], "alternate");
    terminal.feed(b"\x1b[?1049l");
    assert!(!terminal.is_alternate_screen());
    assert_eq!(terminal.screen_lines()[0], "primary");
}

#[test]
fn unicode_survives_bytewise_input() {
    let mut terminal = Terminal::new(Size::new(20, 4).unwrap(), 0);
    for byte in "café 界 e\u{301}".as_bytes() {
        terminal.feed(std::slice::from_ref(byte));
    }
    assert_eq!(terminal.screen_lines()[0], "café 界 e\u{301}");
}

#[test]
fn terminals_are_measured_before_they_are_made() {
    let size = Size::new(80, 24).unwrap();
    let terminal = Terminal::new(size, 100);
    assert_eq!(terminal.size(), size);
    assert_eq!(terminal.history_capacity(), 100);
    assert_eq!(terminal.cell_budget(), 80 * (2 * 24 + 100));
    assert_eq!(Terminal::estimated_cells(size, 100), 80 * (2 * 24 + 100));
    assert_eq!(terminal.screen_lines(), vec![String::new(); 24]);
    assert!(terminal.can_read(0) && terminal.can_read(23));
    assert_eq!(terminal.try_screen_lines(), Some(vec![String::new(); 24]));
}

#[test]
fn a_row_of_half_a_character_is_not_read() {
    let mut terminal = Terminal::new(Size::new(10, 2).unwrap(), 0);
    terminal.feed("界x".as_bytes());
    assert_eq!(terminal.screen_lines()[0], "界x");
    terminal.feed(b"\x1b[1G\x1b[P");
    assert!(!terminal.can_read(0));
    assert!(terminal.can_read(1));
    assert_eq!(terminal.try_screen_lines(), None);
    terminal.feed(b"\r\x1b[2Kgone");
    assert_eq!(terminal.try_screen_lines().unwrap(), ["gone", ""]);
    terminal.feed("\x1b[2;1H界\x1b[1G\x1b[P".as_bytes());
    assert!(terminal.can_read(0));
    assert!(!terminal.can_read(1));
    assert_eq!(terminal.try_screen_lines(), None);
}

#[test]
fn a_top_row_that_spills_is_read_with_a_row_above_it() {
    let mut bare = Terminal::new(Size::new(3, 2).unwrap(), 0);
    bare.feed("ab界".as_bytes());
    assert!(!bare.can_read(0));
    assert_eq!(bare.try_screen_lines(), None);
    let mut deep = Terminal::new(Size::new(3, 2).unwrap(), 10);
    deep.feed("x\r\nab界".as_bytes());
    assert!(deep.can_read(0));
    assert_eq!(deep.try_screen_lines().unwrap()[1], "界");
    deep.feed("\x1b[?1049h\x1b[Hab界".as_bytes());
    assert!(!deep.can_read(0));
}

#[test]
fn one_column_takes_every_character_that_cannot_be_wide() {
    assert!(is_feedable(2, "界".as_bytes()));
    assert!(!is_feedable(1, "界".as_bytes()));
    assert!(!is_feedable(1, &"界".as_bytes()[..1]));
    assert!(!is_feedable(1, "\u{1f980}".as_bytes()));
    assert!(is_feedable(1, "café │ └─ € e\u{301}".as_bytes()));
    let mut terminal = Terminal::new(Size::new(1, 2).unwrap(), 0);
    let mut taken = 0;
    for c in '\u{80}'..='\u{10ffff}' {
        let mut bytes = [0; 4];
        let bytes = c.encode_utf8(&mut bytes).as_bytes();
        if is_feedable(1, bytes) {
            terminal.feed(bytes);
            taken += 1;
        }
    }
    assert!(taken > 14_000);
    terminal.feed("\x1b[2J\x1b[Hé\r\n│".as_bytes());
    assert_eq!(terminal.screen_lines(), ["é", "│"]);
}

#[test]
fn the_cursor_is_restored_with_a_pending_wrap() {
    let mut terminal = Terminal::new(Size::new(4, 2).unwrap(), 0);
    terminal.feed(b"abcd");
    terminal.restore_cursor(2, 0);
    terminal.feed(b"X");
    assert_eq!(terminal.screen_lines(), ["abXd", ""]);
    terminal.restore_cursor(4, 0);
    terminal.feed(b"Y");
    assert_eq!(terminal.screen_lines(), ["abXd", "Y"]);
}

#[test]
fn older_tmux_missing_bracketed_paste_is_explicitly_unknown() {
    let original = "%1|@2|12|3|0|0|0|0|0|0|2000|||0|2|1|0|0|0|1|0|0|0|0|0||";
    assert_eq!(State::parse(original).unwrap().bracketed_paste(), None);
    assert_eq!(state(12, 3).bracketed_paste(), Some(true));
}

#[test]
fn captures_decode_once_and_preserve_literal_backslashes() {
    assert_eq!(
        decode_escaped(br"a\\033b\033[31m\134\012").unwrap(),
        b"a\\033b\x1b[31m\\\n"
    );
    assert_eq!(decode_escaped(br"\177\377").unwrap(), [127, 255]);
    assert_eq!(
        decode_escaped("café 界".as_bytes()).unwrap(),
        "café 界".as_bytes()
    );
    for bytes in [br"\".as_slice(), br"\0", br"\400", br"\999", br"\x1b"] {
        assert!(decode_escaped(bytes).is_err());
    }
}

#[test]
fn reconstructs_primary_screen_and_continues_pending_escape() {
    let mut state = state(12, 3);
    state.cursor = (3, 0);
    let mut pane = Pane::restore(
        state,
        &lines(&["old", "", ""]),
        &[],
        &lines(&[r"\033[2"]),
        10,
    )
    .unwrap();
    pane.terminal.feed(b"K\rnew");
    assert_eq!(pane.terminal.screen_lines()[0], "new");
}

#[test]
fn alternate_exit_restores_primary_and_saved_cursor() {
    let mut state = state(12, 3);
    state.alternate = true;
    state.saved_cursor = (4, 0);
    let mut pane = Pane::restore(
        state,
        &lines(&["alternate", "", ""]),
        &lines(&["home", "", ""]),
        &[],
        10,
    )
    .unwrap();
    assert!(pane.terminal.is_alternate_screen());
    assert_eq!(pane.terminal.screen_lines()[0], "alternate");
    pane.terminal.feed(b"\x1b[?1049l!");
    assert!(!pane.terminal.is_alternate_screen());
    assert_eq!(pane.terminal.screen_lines()[0], "home!");
}

#[test]
fn a_saved_cursor_outside_of_a_shrunken_pane_is_clamped() {
    let facts = "%1|@2|12|3|0|0|0|0|1|0|2000|90|40|0|2|1|0|0|0|1|0|0|0|0|0|1|";
    let state = State::parse(facts).unwrap();
    assert_eq!(state.saved_cursor, (12, 2));
    let outside = facts.replace("|0|0|1|0|2000|", "|0|3|1|0|2000|");
    assert!(matches!(State::parse(&outside), Err(Error::Cursor)));
}

#[test]
fn wrap_pending_is_not_lost_at_snapshot_boundary() {
    let mut state = state(4, 2);
    state.cursor = (4, 0);
    let mut pane = Pane::restore(state, &lines(&["abcd", ""]), &[], &[], 0).unwrap();
    pane.terminal.feed(b"E");
    assert_eq!(pane.terminal.screen_lines(), ["abcd", "E"]);
}

#[test]
fn joined_soft_wraps_do_not_add_a_hard_line() {
    let mut state = state(4, 3);
    state.cursor = (2, 1);
    let pane = Pane::restore(state, &lines(&["abcdef", ""]), &[], &[], 0).unwrap();
    assert_eq!(pane.terminal.screen_lines(), ["abcd", "ef", ""]);
}

#[test]
fn layout_change_stops_output_until_resync() {
    let pane = Pane::restore(state(12, 3), &lines(&["before", "", ""]), &[], &[], 0).unwrap();
    let mut view = View::new(SessionId(0), vec![pane]).unwrap();
    view.apply(Notification::WindowAdd(WindowId(9)));
    view.apply(Notification::Output {
        pane: PaneId(1),
        bytes: b"bad".to_vec(),
    });
    assert_eq!(view.status(), Status::NeedsResync);
    assert_eq!(
        view.pane(PaneId(1)).unwrap().terminal.screen_lines()[0],
        "before"
    );
    view.apply(Notification::Exit(None));
    assert_eq!(view.status(), Status::Disconnected);
}

#[test]
fn custom_tabs_and_scroll_region_survive_restore() {
    let mut state = state(12, 4);
    state.tabs = vec![3];
    state.scroll_region = (1, 2);
    state.cursor = (0, 2);
    let mut pane = Pane::restore(
        state,
        &lines(&["top", "first", "second", "bottom"]),
        &[],
        &[],
        0,
    )
    .unwrap();
    pane.terminal.feed(b"\r\n\tZ");
    assert_eq!(
        pane.terminal.screen_lines(),
        ["top", "second", "\tZ", "bottom"]
    );
    // Text extraction preserves tabs; the cursor checks their actual width.
    assert_eq!(pane.terminal.model().grid().cursor.point.column.0, 4);
}

#[test]
fn allocation_budget_is_checked_before_model_construction() {
    let mut states = Vec::new();
    for id in 0..16 {
        let mut state = state(120, 60);
        state.pane = PaneId(id);
        states.push(state);
    }
    assert!(validate_budget(&states, 1000).is_err());
    assert!(validate_budget(&states[..1], 1000).is_ok());
}

#[test]
fn state_and_capture_limits_fail_before_unbounded_work() {
    assert!(State::parse("%1|@2").is_err());
    assert!(Pane::restore(state(12, 3), &[], &[], &[], 0).is_err());
    assert!(Pane::restore(
        state(12, 3),
        &lines(&["x"]),
        &[],
        &[],
        MAX_HISTORY_LINES + 1
    )
    .is_err());
    assert!(decode_escaped(&vec![b'x'; MAX_CAPTURE_BYTES + 1]).is_err());
}

#[test]
fn malformed_states_say_which_field_is_wrong() {
    assert_eq!(State::parse("%1|@2"), Err(Error::IncompleteState));
    let with = |pane: &str, width: &str, mode: &str| {
        State::parse(&format!(
            "{pane}|@2|{width}|3|0|0|0|0|0|0|2000|||0|2|{mode}|0|0|0|1|0|0|0|0|0|1|"
        ))
    };
    assert!(with("%1", "12", "1").is_ok());
    assert_eq!(with("1", "12", "1"), Err(Error::PaneId));
    assert_eq!(with("%1", "0", "1"), Err(Error::Size));
    assert_eq!(with("%1", "x", "1"), Err(Error::Number(2, NumberError::Digit)));
    assert_eq!(with("%1", "", "1"), Err(Error::Number(2, NumberError::Empty)));
    assert_eq!(with("%x", "12", "1"), Err(Error::Id(NumberError::Digit)));
    assert_eq!(
        with("%4294967296", "12", "1"),
        Err(Error::Id(NumberError::TooLarge))
    );
    assert_eq!(
        Error::Id(NumberError::TooLarge).message(),
        "number too large to fit in target type"
    );
    assert_eq!(
        Error::TabStop(NumberError::Empty).message(),
        "invalid tab stop: cannot parse integer from empty string"
    );
    assert_eq!(
        State::parse("%1|@2|12|3|0|0|0|0|0|0|2000|||0|2|1|0|0|0|1|0|0|0|0|0|1|1,x"),
        Err(Error::TabStop(NumberError::Digit))
    );
    assert!(matches!(with("%1", "12", "2"), Err(Error::Mode(_))));
    assert_eq!(decode_escaped(br"\"), Err(Error::TruncatedEscape));
    assert_eq!(decode_escaped(br"\400"), Err(Error::InvalidEscape));
}

#[test]
fn views_hold_each_pane_once_and_in_order() {
    let pane = |id: u32| {
        let mut state = state(12, 3);
        state.pane = PaneId(id);
        Pane::restore(state, &lines(&["x", "", ""]), &[], &[], 0).unwrap()
    };
    assert!(matches!(
        View::new(SessionId(0), Vec::new()),
        Err(Error::PaneCount)
    ));
    assert!(matches!(
        View::new(SessionId(0), vec![pane(4), pane(4)]),
        Err(Error::DuplicatePane)
    ));
    let mut view = View::new(SessionId(7), vec![pane(4), pane(2)]).unwrap();
    assert_eq!(view.panes()[0].state.pane, PaneId(2));
    assert_eq!(view.panes()[1].state.pane, PaneId(4));
    assert!(view.pane(PaneId(3)).is_none());
    let output = |pane: u32| Notification::Output {
        pane: PaneId(pane),
        bytes: b"yz".to_vec(),
    };
    assert!(view.suits(&output(2)));
    view.apply_all(vec![output(2), Notification::Other, output(4)]);
    assert_eq!(view.status(), Status::Watching);
    view.apply(output(9));
    assert_eq!(view.status(), Status::NeedsResync);
    view.disconnect();
    assert_eq!(view.status(), Status::Disconnected);
}

#[test]
fn attachment_does_not_create_resize_or_change_environment() {
    let session = SessionName::new("work's; $(false)").unwrap();
    assert_eq!(
        attach_command(&session, Some("/tmp/a'b")).unwrap(),
        "exec tmux -N -C -S '/tmp/a'\"'\"'b' attach-session -E -f read-only,ignore-size,no-output -t '=work'\"'\"'s; $(false)'"
    );
    assert!(attach_command(&session, Some("x\nkill-server")).is_err());
}

#[test]
fn client_capabilities_are_checked_not_assumed() {
    assert!(
        parse_info(&["3.3a|$0|1|1|control-mode,read-only,ignore-size,no-output|".to_owned()])
            .is_ok()
    );
    assert!(parse_info(&["3.3a|$0|1|0|ignore-size,no-output|".to_owned()]).is_err());
    let session = |id: &str| parse_info(&[format!("3.3a|{id}|1|1|ignore-size,no-output|")]);
    assert_eq!(session("0"), Err(InspectError::SessionId));
    assert_eq!(session("$"), Err(InspectError::Number(NumberError::Empty)));
    assert_eq!(session("$x"), Err(InspectError::Number(NumberError::Digit)));
    assert!(parse_info(&["3.3a|$0|1|1|ignore-size|".to_owned()]).is_err());
    assert!(parse_info(&["3.3a|$0|1|1|ignore-size,no-output|/dev/pts/0".to_owned()]).is_err());
}

#[test]
fn metadata_is_validated_before_allocation() {
    let valid = "%0 @1 80 24 0 0 80 23 1 0 2000".to_owned();
    let panes = parse_panes(std::slice::from_ref(&valid)).unwrap();
    assert!(panes[0].alternate_screen);
    assert_eq!(panes[0].size, Size::default());
    assert!(!panes_changed(&panes, &panes));
    assert!(parse_panes(&[valid.clone(), valid]).is_err());
    let listed = |line: &str| parse_panes(&[line.to_owned()]).unwrap_err();
    assert_eq!(listed("0 @1 80 24 0 0 0 0 0 0 2000"), InspectError::PaneId);
    assert_eq!(
        listed("%0 @x 80 24 0 0 0 0 0 0 2000"),
        InspectError::Number(NumberError::Digit)
    );
    assert_eq!(
        listed("%0 @1 80 99999999999999999999999 0 0 0 0 0 0 2000").message(),
        "number too large to fit in target type"
    );
    assert_eq!(
        listed("%0 @1 0 24 0 0 0 0 0 0 2000").message(),
        "terminal dimensions are zero or exceed the cell budget"
    );
    assert_eq!(
        listed("%0 @1 80 24 0 0 0 0 2 x 2000"),
        InspectError::Alternate
    );
    for line in [
        "%0 @0 999999 999999 0 0 0 0 0 0 0",
        "%0 @0 80 24 0 0 81 0 0 0 0",
        "%0 @0 80 24 0 0 0 0 2 0 0",
        "pane @0 80 24 0 0 0 0 0 0 0",
    ] {
        assert!(parse_panes(&[line.to_owned()]).is_err());
    }
}

#[test]
fn snapshot_hooks_are_rejected_without_rejecting_empty_defaults() {
    assert!(reject_snapshot_hooks(&["after-capture-pane".to_owned()]).is_ok());
    assert!(
        reject_snapshot_hooks(&["after-capture-pane[0] run-shell 'sleep 1'".to_owned()]).is_err()
    );
}

#[test]
fn snapshot_commands_form_one_synchronous_bounded_list() {
    let commands = snapshot_commands(&[PaneId(1), PaneId(2)], 200);
    assert_eq!(commands.len(), 11);
    assert!(commands[0].contains("display-message -p -t %1"));
    assert!(commands[4].contains("display-message -p -t %2"));
    assert!(commands[3].contains("-P"));
    assert_eq!(commands.last().unwrap(), "refresh-client -f '!no-output'");
    assert!(commands.iter().all(|line| !line.contains('\n')));
    let maximum: Vec<_> = (0..MAX_PANES)
        .map(|id| PaneId(id.try_into().unwrap()))
        .collect();
    let commands = snapshot_commands(&maximum, MAX_HISTORY_LINES);
    assert!(commands.len() <= 256);
    assert!(commands.join(" ; ").len() < 64 * 1024);
}

#[test]
fn aliases_of_the_commands_in_use_are_rejected() {
    assert!(reject_aliases(&lines(&["split-pane=split-window", "capture-pane"])).is_ok());
    assert_eq!(
        reject_aliases(&lines(&["capture-pane=display-message"])),
        Err(SessionError::Alias(SnapshotCommand::CapturePane))
    );
    assert_eq!(
        reject_aliases(&lines(&["x=y", "show-hooks=kill-server", "list-panes=z"])),
        Err(SessionError::Alias(SnapshotCommand::ShowHooks))
    );
    assert_eq!(
        reject_snapshot_hooks(&lines(&[
            "after-list-panes",
            "after-refresh-client[1] run-shell true",
            "after-capture-pane[0] run-shell true",
        ])),
        Err(SessionError::Hook(SnapshotHook::RefreshClient))
    );
    let panes = parse_panes(&lines(&["%0 @1 80 24 0 0 0 0 0 0 2000"])).unwrap();
    let commands = environment_commands(SessionId(3), &panes);
    assert!(!commands.is_empty());
    assert!(commands.iter().all(|line| !line.contains('\n')));
}

#[test]
fn one_batch_of_captures_becomes_a_view() {
    let facts = "%1|@2|12|3|0|0|3|0|0|0|2000|||0|2|1|0|0|0|1|0|0|0|0|0|1|";
    let replies = || {
        vec![
            lines(&[facts]),
            lines(&["old", "", ""]),
            Vec::new(),
            Vec::new(),
            lines(&[facts]),
            lines(&["$5"]),
            Vec::new(),
        ]
    };
    let output = || Notification::Output {
        pane: PaneId(1),
        bytes: b"!".to_vec(),
    };
    let view = restore(
        SessionId(5),
        &[PaneId(1)],
        100,
        Batch {
            replies: replies(),
            notifications: vec![(7, output())],
        },
    );
    let view = view.unwrap_or_else(|error| panic!("{error:?}"));
    assert_eq!(view.status(), Status::Watching);
    assert_eq!(
        view.pane(PaneId(1)).unwrap().terminal.screen_lines()[0],
        "old!"
    );
    let early = restore(
        SessionId(5),
        &[PaneId(1)],
        100,
        Batch {
            replies: replies(),
            notifications: vec![(3, output())],
        },
    );
    assert!(matches!(early, Err(SessionError::EarlyOutput)));
    let long = restore(
        SessionId(5),
        &[PaneId(1)],
        MAX_HISTORY_LINES + 1,
        Batch {
            replies: replies(),
            notifications: Vec::new(),
        },
    );
    assert!(matches!(long, Err(SessionError::History)));
}

#[test]
fn requests_are_one_line_and_answered_in_order() {
    let wire = batch_wire(&lines(&["list-panes\n", "display-message -p x"])).unwrap();
    assert_eq!(wire, "list-panes ; display-message -p x\n");
    assert!(batch_wire(&lines(&["a\nb"])).is_err());
    assert!(batch_wire(&[]).is_err());
    let session = SessionName::new("work").unwrap();
    let (mut inspector, command) = Inspector::attach(&session, None).unwrap();
    assert!(command.ends_with("'=work'"));
    let (_, mut exchange) = inspector
        .request_batch(&lines(&["list-panes", "display-message"]))
        .unwrap();
    let mut events = Vec::new();
    inspector
        .read_stdout(b"%begin 1 1 1\na\n%end 1 1 1\n", &mut events)
        .unwrap();
    let first = match events.remove(0) {
        Incoming::Reply { id, result } => Decoded::Reply { id, result },
        other => panic!("{other:?}"),
    };
    assert!(exchange.accept(first).is_ok());
    assert!(!exchange.complete());
    let wrong = Decoded::Reply {
        id: CommandId(99),
        result: Ok(Vec::new()),
    };
    assert_eq!(exchange.accept(wrong), Err(InspectError::UnexpectedReply));
    assert_eq!(
        exchange.accept(Decoded::Notification(Notification::Exit(None))),
        Err(InspectError::Exited)
    );
    assert!(exchange
        .accept(Decoded::Notification(Notification::Other))
        .is_ok());
    inspector.read_stderr(b"warning").unwrap();
    assert_eq!(inspector.stderr(), b"warning");
    inspector.abort();
    assert!(inspector.request_batch(&lines(&["list-panes"])).is_err());
}

#[test]
fn stray_lines_and_replies_are_refused() {
    assert!(check_stdout(&Notification::Unknown("%new-thing".to_owned())).is_ok());
    assert_eq!(
        check_stdout(&Notification::Unknown("motd".to_owned())),
        Err(InspectError::Stdout)
    );
    assert_eq!(
        idle_event(Decoded::Reply {
            id: CommandId(1),
            result: Err(CommandError::Disconnected),
        }),
        Err(InspectError::UnsolicitedReply)
    );
    assert_eq!(count_capture(10, &lines(&["ab", "界"])), Some(15));
    assert_eq!(
        capture_command(PaneId(6), 200).unwrap(),
        "capture-pane -p -C -t %6 -S -200 -E -\n"
    );
    assert_eq!(capture_command(PaneId(6), 1001), Err(InspectError::History));
}

const TRANSCRIPT: &[u8] = b"%begin 1 1 0\n%end 1 1 0\n%output %1 Starcom shell\\015\\012$ cargo test\\015\\012\n%output %2 ready\\015\\012caf\xc3\xa9 \n%output %1 working\\015\\033[2Kdone\n%output %2 \xe7\x95\x8c\n%exit\n";

#[test]
fn independent_panes_survive_every_chunk_boundary() {
    for split in 0..=TRANSCRIPT.len() {
        let mut replay = Replay::new(Size::default());
        run(&mut replay, &TRANSCRIPT[..split]).unwrap();
        if split < TRANSCRIPT.len() {
            run(&mut replay, &TRANSCRIPT[split..]).unwrap();
        }
        replay.finish().unwrap();
        assert_eq!(replay.panes().len(), 2);
        assert_eq!(replay.panes()[0].pane, PaneId(1));
        assert_eq!(replay.panes()[1].pane, PaneId(2));
        let left = replay.panes()[0].terminal.screen_lines();
        let right = replay.panes()[1].terminal.screen_lines();
        assert_eq!(&left[..3], ["Starcom shell", "$ cargo test", "done"]);
        assert_eq!(&right[..2], ["ready", "café 界"]);
    }
}

#[test]
fn too_many_panes_is_an_explicit_error() {
    let mut replay = Replay::new(Size::default());
    for pane in 0..16 {
        run(&mut replay, format!("%output %{pane} x\n").as_bytes()).unwrap();
    }
    assert_eq!(
        run(&mut replay, b"%output %16 x\n"),
        Err(ReplayError::TooManyPanes)
    );
}
