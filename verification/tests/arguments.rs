use starcom::cli::{
    count_replay, parse, parse_inspect, parse_size, Command, Error, Flag, InspectError, HELP,
    INSPECT_HELP, MAX_REPLAY_BYTES,
};
use starcom::desktop::Startup;
use starcom::text::NumberError;
use starcom::values::Size;

fn args(given: &[&str]) -> Vec<String> {
    given.iter().map(|arg| (*arg).to_owned()).collect()
}

#[test]
fn desktop_and_replay_options_cannot_be_mixed() {
    for arguments in [
        vec!["--demo", "--replay", "not-read"],
        vec!["--size", "80x24"],
        vec!["--demo", "--demo"],
    ] {
        let error = parse(&args(&arguments)).unwrap_err();
        assert!(!error.message().contains('\u{1b}'));
    }
    assert_eq!(
        parse(&args(&["--demo", "--replay", "x"])).unwrap_err(),
        Error::Mixed
    );
    assert_eq!(
        parse(&args(&["--size", "80x24"])).unwrap_err(),
        Error::SizeAlone
    );
    assert_eq!(
        parse(&args(&["--demo", "--demo"])).unwrap_err(),
        Error::RepeatedDemo
    );
}

#[test]
fn snapshot_export_requires_explicit_demo_data() {
    let error = parse(&args(&["--snapshot", "must-not-be-written.png"])).unwrap_err();
    assert!(error.message().contains("requires --demo"));
    match parse(&args(&["--demo", "--snapshot", "shown.png"])) {
        Ok(Command::Snapshot(path)) => assert_eq!(path, "shown.png"),
        other => panic!("{other:?}"),
    }
}

#[test]
fn every_command_is_read() {
    assert!(matches!(
        parse(&args(&[])),
        Ok(Command::Desktop(Startup::ConnectionForm))
    ));
    assert!(matches!(
        parse(&args(&["--demo"])),
        Ok(Command::Desktop(Startup::Demo))
    ));
    assert!(matches!(parse(&args(&["-h", "--nonsense"])), Ok(Command::Help)));
    assert!(matches!(parse(&args(&["--version"])), Ok(Command::Version)));
    match parse(&args(&["--size", "100x40", "--replay", "-"])) {
        Ok(Command::Replay { input, size }) => {
            assert_eq!(input, "-");
            assert_eq!(size, Size::new(100, 40).unwrap());
        }
        other => panic!("{other:?}"),
    }
    match parse(&args(&["--replay", "file"])) {
        Ok(Command::Replay { size, .. }) => assert_eq!(size, Size::default()),
        other => panic!("{other:?}"),
    }
    for (given, error) in [
        (vec!["--nonsense"], Error::Unrecognized(1)),
        (vec!["--replay"], Error::ReplayFile),
        (vec!["--replay", "a", "--replay", "b"], Error::RepeatedReplay),
        (vec!["--snapshot"], Error::SnapshotFile),
        (vec!["--snapshot", "a", "--snapshot", "b"], Error::RepeatedSnapshot),
        (vec!["--size"], Error::SizeValue),
    ] {
        assert_eq!(parse(&args(&given)).unwrap_err(), error);
    }
    assert_eq!(parse_size("80").unwrap_err(), Error::SizeFormat);
    for (given, reason, text) in [
        ("80xy", NumberError::Digit, "invalid digit found in string"),
        ("80x", NumberError::Empty, "cannot parse integer from empty string"),
        ("+x24", NumberError::Digit, "invalid digit found in string"),
        (
            "99999999999999999999999x24",
            NumberError::TooLarge,
            "number too large to fit in target type",
        ),
    ] {
        let error = parse_size(given).unwrap_err();
        assert_eq!(error, Error::SizeNumber(reason));
        assert_eq!(error.message(), text);
    }
    assert_eq!(parse_size("0x24").unwrap_err(), Error::SizeRange);
    assert_eq!(
        Error::SizeRange.message(),
        "terminal dimensions are zero or exceed the cell budget"
    );
    let given = args(&["--demo", "--non\"sense", "x"]);
    assert_eq!(
        parse(&given).unwrap_err().report(&given),
        "unrecognized argument \"--non\\\"sense\"; use --help"
    );
    assert_eq!(Error::Mixed.report(&given), Error::Mixed.message());
    assert!(HELP.contains("--replay"));
}

#[test]
fn replays_are_bounded() {
    assert_eq!(count_replay(0, 10), Ok(10));
    assert_eq!(count_replay(MAX_REPLAY_BYTES, 0), Ok(MAX_REPLAY_BYTES));
    assert_eq!(count_replay(MAX_REPLAY_BYTES, 1), Err(Error::ReplayBudget));
}

#[test]
fn inspection_help_is_honest_about_scope() {
    assert!(parse_inspect(&args(&["--help"])).unwrap().is_none());
    assert!(parse_inspect(&args(&[])).unwrap().is_none());
    assert!(INSPECT_HELP.contains("read-only"));
    assert!(INSPECT_HELP.contains("does not read ~/.ssh/config"));
    assert!(INSPECT_HELP.contains("NOT an atomic/interactive session"));
}

#[test]
fn invalid_options_fail_before_networking() {
    for given in [
        vec!["--nonsense"],
        vec!["--host"],
        vec!["--host", "x", "--host", "y"],
        vec![
            "--host", "x", "--user", "u", "--session", "work", "--known-hosts", "missing",
            "--agent", "--identity", "missing",
        ],
    ] {
        let error = parse_inspect(&args(&given)).unwrap_err();
        assert!(!error.message().contains('\u{1b}'));
    }
    let error = |given: &[&str]| parse_inspect(&args(given)).unwrap_err();
    assert_eq!(error(&["--host"]), InspectError::NeedsValue(Flag::Host));
    assert_eq!(
        error(&["--host", "x", "--host", "y"]).message(),
        "duplicate option --host"
    );
    assert_eq!(error(&["--agent", "--agent"]), InspectError::AgentTwice);
    assert_eq!(error(&["--agent", "--nonsense", "x"]), InspectError::Unknown(2));
    assert_eq!(error(&["--agent"]).message(), "--host is required");
    let given = args(&["--agent", "--non\tsense", "x"]);
    assert_eq!(
        parse_inspect(&given).unwrap_err().report(&given),
        "unknown option \"--non\\tsense\"; use --help"
    );
    let base = ["--host", "x", "--user", "u", "--session", "work", "--known-hosts", "k"];
    assert_eq!(error(&base), InspectError::Authentication);
    let with = |more: &[&str]| {
        let mut all = base.to_vec();
        all.push("--agent");
        all.extend_from_slice(more);
        error(&all)
    };
    assert_eq!(with(&["--port", "70000"]), InspectError::Number(Flag::Port));
    assert_eq!(with(&["--history", "1001"]), InspectError::HistoryLimit);
    assert_eq!(
        error(&["--host", "x", "--user", "u", "--session", "a\nb"]),
        InspectError::SessionName
    );
}

#[test]
fn an_inspection_has_its_defaults() {
    let given = args(&[
        "--host", "x", "--user", "u", "--session", "work", "--known-hosts", "k", "--identity",
        "key", "--timeout", "3",
    ]);
    let inspection = parse_inspect(&given).unwrap().unwrap();
    assert_eq!(inspection.options.host, "x");
    assert_eq!(inspection.options.port, 22);
    assert_eq!(inspection.history, 200);
    assert_eq!(inspection.options.timeout, 3_000_000_000);
    assert_eq!(inspection.options.authentication.files, ["key"]);
    assert!(!inspection.options.authentication.agent);
    assert_eq!(inspection.session.as_str(), "work");
    assert!(inspection.socket.is_none());
}

#[test]
fn live_models_are_followed_only_when_asked_for() {
    let base = [
        "--host", "h", "--user", "u", "--session", "s", "--known-hosts", "k", "--agent",
    ];
    let watched = |more: &[&str]| parse_inspect(&args(&[&base[..], more].concat()));
    assert_eq!(watched(&[]).unwrap().unwrap().watch, None);
    assert_eq!(watched(&["--watch", "7"]).unwrap().unwrap().watch, Some(7));
    assert!(matches!(
        watched(&["--watch", "soon"]),
        Err(InspectError::Number(Flag::Watch))
    ));
    assert!(INSPECT_HELP.contains("[--watch SECONDS]"));
}
