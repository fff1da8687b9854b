use starcom::control::{parse_guard, Control, Error, Guard, GuardKind, Limits};
use starcom::snapshot::decode_escaped;
use starcom::tmux::{CommandError, Incoming};

/// The pane and the bytes of an `%output` line.
fn output(line: &[u8]) -> (u32, Vec<u8>) {
    let text = line.strip_prefix(b"%output %").unwrap();
    let space = text.iter().position(|&b| b == b' ').unwrap();
    let pane = std::str::from_utf8(&text[..space]).unwrap().parse().unwrap();
    (pane, decode_escaped(&text[space + 1..]).unwrap())
}

#[test]
fn arbitrary_chunks_preserve_non_utf8_pane_output() {
    let wire = b"%output %3 a\\033[31m\xff\\012\n";
    for split in 0..=wire.len() {
        let mut control = Control::default();
        let mut events = Vec::new();
        control.feed(&wire[..split], &mut events).unwrap();
        control.feed(&wire[split..], &mut events).unwrap();
        assert_eq!(events.len(), 1);
        match &events[0] {
            Incoming::Line(line) => {
                assert_eq!(output(line), (3, b"a\x1b[31m\xff\n".to_vec()));
            }
            other => panic!("unexpected event: {other:?}"),
        }
    }
}

#[test]
fn startup_reply_does_not_consume_a_registered_command() {
    let mut control = Control::default();
    let id = control.register_command().unwrap();
    let mut events = Vec::new();
    control
        .feed(
            b"%begin 1 1 0\n%end 1 1 0\n%begin 1 2 1\na\n\nb\n%end 1 2 1\n",
            &mut events,
        )
        .unwrap();
    assert_eq!(events.len(), 1);
    match &events[0] {
        Incoming::Reply {
            id: got,
            result: Ok(lines),
        } => {
            assert_eq!(*got, id);
            assert_eq!(*lines, ["a", "", "b"]);
        }
        other => panic!("unexpected event: {other:?}"),
    }
    assert_eq!(control.pending_commands(), 0);
}

#[test]
fn malformed_reply_closes_and_fails_pending_commands() {
    let mut control = Control::default();
    let id = control.register_command().unwrap();
    let mut events = Vec::new();
    let error = control.feed(b"%begin 1 2 1\n%end 1 99 1\n", &mut events);
    assert_eq!(error, Err(Error::MismatchedGuard));
    assert_eq!(
        events,
        vec![Incoming::Reply {
            id,
            result: Err(CommandError::Disconnected),
        }]
    );
    assert_eq!(control.register_command(), Err(Error::Closed));
}

#[test]
fn truncated_eof_resolves_commands() {
    let mut control = Control::default();
    control.register_command().unwrap();
    control
        .feed(b"%begin 1 2 1\npartial", &mut Vec::new())
        .unwrap();
    let mut events = Vec::new();
    assert_eq!(control.finish(&mut events), Err(Error::TruncatedStream));
    assert_eq!(events.len(), 1);
    let mut more = Vec::new();
    assert!(control.finish(&mut more).is_ok());
    assert!(more.is_empty(), "duplicate completion");
}

#[test]
fn limits_apply_before_upstream_buffering() {
    let limits = Limits {
        line_bytes: 16,
        reply_bytes: 4,
        pending_commands: 1,
        ..Limits::default()
    };
    let mut control = Control::new(limits).unwrap();
    control.register_command().unwrap();
    assert_eq!(
        control.register_command(),
        Err(Error::TooManyPendingCommands)
    );
    assert_eq!(
        control.feed(&[b'x'; 17], &mut Vec::new()),
        Err(Error::LineTooLong)
    );
    let mut control = Control::new(limits).unwrap();
    assert_eq!(
        control.feed(b"%begin 1 1 0\n12345\n", &mut Vec::new()),
        Err(Error::ReplyTooLarge)
    );
}

#[test]
fn explicit_exit_drains_pending_without_replay() {
    let mut control = Control::default();
    control.register_command().unwrap();
    let mut events = Vec::new();
    control.feed(b"%exit detached\n", &mut events).unwrap();
    assert_eq!(events.len(), 2);
    assert_eq!(control.pending_commands(), 0);
    assert_eq!(
        control.feed(b"%sessions-changed\n", &mut Vec::new()),
        Err(Error::Closed)
    );
}

#[test]
fn nested_and_reordered_replies_are_errors_not_panics() {
    let mut control = Control::default();
    assert_eq!(
        control.feed(b"%begin 1 1 0\n%begin 1 2 0\n", &mut Vec::new()),
        Err(Error::NestedReply)
    );
    let mut control = Control::default();
    control
        .feed(b"%begin 1 2 1\n%end 1 2 1\n", &mut Vec::new())
        .unwrap();
    assert_eq!(
        control.feed(b"%begin 1 2 1\n", &mut Vec::new()),
        Err(Error::OutOfOrderReply)
    );
}

#[test]
fn output_after_last_reply_is_retained_at_every_network_split() {
    let wire = b"%begin 1 1 0\n%end 1 1 0\n%begin 1 2 1\nsnapshot\n%end 1 2 1\n%begin 1 3 1\n%end 1 3 1\n%output %1 \\033[2KZ\n";
    for split in 0..=wire.len() {
        let mut control = Control::default();
        let ids = [
            control.register_command().unwrap(),
            control.register_command().unwrap(),
        ];
        let mut completed = 0;
        let mut after_barrier = Vec::new();
        for chunk in [&wire[..split], &wire[split..]] {
            let mut events = Vec::new();
            control.feed(chunk, &mut events).unwrap();
            for event in events {
                match event {
                    Incoming::Reply { id, result } => {
                        assert_eq!(ids[completed], id);
                        assert!(result.is_ok());
                        completed += 1;
                    }
                    Incoming::Line(line) => {
                        assert_eq!(completed, 2);
                        after_barrier.extend(output(&line).1);
                    }
                }
            }
        }
        assert_eq!(after_barrier, b"\x1b[2KZ");
        assert_eq!(control.pending_commands(), 0);
    }
}

#[test]
fn failed_commands_keep_their_place() {
    let mut control = Control::default();
    let first = control.register_command().unwrap();
    let second = control.register_command().unwrap();
    let mut events = Vec::new();
    control
        .feed(
            b"%begin 1 5 1\nno such pane\n%error 1 5 1\n%begin 1 6 1\nok\n%end 1 6 1\n",
            &mut events,
        )
        .unwrap();
    assert_eq!(
        events,
        vec![
            Incoming::Reply {
                id: first,
                result: Err(CommandError::Failed {
                    lines: vec!["no such pane".to_owned()]
                }),
            },
            Incoming::Reply {
                id: second,
                result: Ok(vec!["ok".to_owned()]),
            },
        ]
    );
}

#[test]
fn guards_are_read_strictly() {
    let guard = Guard {
        timestamp: 12,
        number: 34,
        flags: 1,
    };
    assert_eq!(
        parse_guard(b"%begin 12 34 1"),
        Ok(Some((GuardKind::Begin, guard)))
    );
    assert_eq!(parse_guard(b"%output %1 x"), Ok(None));
    assert_eq!(parse_guard(b"%begin 12 x 1"), Err(Error::MalformedGuard));
    let mut control = Control::default();
    assert_eq!(
        control.feed(b"%end 1 1 1\n", &mut Vec::new()),
        Err(Error::UnexpectedGuard)
    );
    assert_eq!(
        Control::new(Limits {
            line_bytes: 0,
            ..Limits::default()
        })
        .err(),
        Some(Error::InvalidLimits)
    );
}
