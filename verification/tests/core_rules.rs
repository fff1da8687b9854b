use starcom::command::{shell_quote, Command};
use starcom::connection::{Connection, Failure, State};
use starcom::glob::glob_bytes;
use starcom::input::{Action, Axis, Error, Key, Modifiers, Paste, Resize, MAX_INPUT_BYTES};
use starcom::text::{
    byte_len, chars_of, is_control, is_white, lower, parse_number, split_lines, split_words,
    string_of, to_decimal, to_printable, trimmed, NumberError,
};
use starcom::tmux::PaneId;
use starcom::values::{InvalidValue, SessionName, Size};

#[test]
fn dimensions_are_bounded_before_allocation() {
    assert!(Size::new(0, 24).is_err());
    assert!(Size::new(80, 0).is_err());
    assert!(Size::new(usize::MAX, 2).is_err());
    assert!(Size::new(4096, 4096).is_err());
    assert_eq!(Size::new(80, 24).unwrap(), Size::default());
}

#[test]
fn session_names_reject_control_characters() {
    for name in ["", "work\nkill-server", "work\r", "work\0", "work\u{1b}"] {
        assert!(SessionName::new(name).is_err());
    }
    assert!(SessionName::new(&"a".repeat(1025)).is_err());
    assert!(SessionName::new("work with spaces; $(not-a-command)").is_ok());
}

#[test]
fn refused_values_say_why() {
    assert_eq!(Size::new(0, 24), Err(InvalidValue::Size));
    assert!(!InvalidValue::Size.message().is_empty());
    assert!(matches!(SessionName::new(""), Err(InvalidValue::SessionName)));
    assert_eq!(SessionName::new("work").unwrap().as_str(), "work");
    let size = Size::new(132, 43).unwrap();
    assert_eq!((size.columns(), size.rows()), (132, 43));
}

#[test]
fn handshake_does_not_enable_input() {
    let mut connection = Connection::default();
    let epoch = connection.begin_connect();
    assert!(!connection.accepts_input(epoch));
    assert!(!connection.restored(epoch));
    assert!(connection.transport_ready(epoch));
    assert!(connection.accepts_output(epoch));
    assert!(!connection.accepts_input(epoch));
    assert!(connection.restored(epoch));
    assert!(connection.accepts_input(epoch));
}

#[test]
fn old_callbacks_cannot_modify_a_new_connection() {
    let mut connection = Connection::default();
    let old = connection.begin_connect();
    let current = connection.begin_connect();
    assert!(!connection.transport_ready(old));
    assert!(!connection.fail(old, Failure::HostKey));
    assert!(!connection.accepts_output(old));
    assert!(connection.transport_ready(current));
    assert!(connection.restored(current));
    assert!(!connection.accepts_input(old));
    assert!(connection.accepts_input(current));
}

#[test]
fn disconnect_disables_input_and_rejects_late_success() {
    let mut connection = Connection::default();
    let epoch = connection.begin_connect();
    connection.transport_ready(epoch);
    connection.disconnect();
    assert!(!connection.restored(epoch));
    assert!(!connection.accepts_input(epoch));
    assert!(!connection.accepts_output(epoch));
}

#[test]
fn security_failures_do_not_enter_automatic_backoff() {
    for failure in [
        Failure::Authentication,
        Failure::HostKey,
        Failure::MissingSession,
    ] {
        let mut connection = Connection::default();
        let epoch = connection.begin_connect();
        assert!(connection.fail(epoch, failure));
        assert_eq!(connection.state(), State::NeedsAttention(failure));
        assert!(!connection.fail(epoch, Failure::Transport));
    }
}

#[test]
fn transient_failure_requires_another_restoration() {
    let mut connection = Connection::default();
    let old = connection.begin_connect();
    connection.transport_ready(old);
    connection.restored(old);
    assert!(connection.fail(old, Failure::Transport));
    assert_eq!(connection.state(), State::Backoff);
    assert!(!connection.accepts_input(old));
    let current = connection.begin_connect();
    connection.transport_ready(current);
    assert!(!connection.accepts_input(current));
}

#[test]
fn input_is_hex_not_command_syntax() {
    let command = Command::send_bytes(PaneId(7), b"a;\n\x00\xff").unwrap();
    assert_eq!(command.as_str(), "send-keys -H -t %7 61 3b 0a 00 ff\n");
    assert_eq!(
        command.as_bytes().iter().filter(|&&b| b == b'\n').count(),
        1
    );
}

#[test]
fn shell_quoting_neutralizes_metacharacters_and_rejects_controls() {
    assert_eq!(
        shell_quote("work's; $(id)").unwrap(),
        "'work'\"'\"'s; $(id)'"
    );
    assert_eq!(shell_quote("/tmp/a b").unwrap(), "'/tmp/a b'");
    for bad in ["", "a\nb", "a\0b", "a\u{1b}b"] {
        assert!(shell_quote(bad).is_err(), "accepted {bad:?}");
    }
}

#[test]
fn input_is_never_silently_truncated() {
    assert!(Command::send_bytes(PaneId(0), &[]).is_err());
    assert!(Command::send_bytes(PaneId(0), &[0; MAX_INPUT_BYTES + 1]).is_err());
    assert!(Command::send_bytes(PaneId(0), &[0; MAX_INPUT_BYTES]).is_ok());
}

#[test]
fn keys_and_resizes_become_commands() {
    let control = Modifiers {
        control: true,
        ..Modifiers::default()
    };
    let key = Command::send_key(PaneId(3), Key::Left, control).unwrap();
    assert_eq!(key.as_str(), "send-keys -t %3 C-Left\n");
    assert_eq!(
        Key::Function(12).name(Modifiers {
            control: true,
            alt: true,
            shift: true
        }),
        Ok("C-M-S-F12".to_owned())
    );
    assert_eq!(Key::Function(21).name(Modifiers::default()), Err(Error::Key));
    assert_eq!(Key::Function(0).name(Modifiers::default()), Err(Error::Key));
    let resize = Resize {
        axis: Axis::Columns,
        cells: 50,
    };
    let command = Command::resize_axis(PaneId(3), resize).unwrap();
    assert_eq!(command.as_str(), "resize-pane -t %3 -x 50\n");
    let nothing = Resize {
        axis: Axis::Rows,
        cells: 0,
    };
    assert!(Command::resize_axis(PaneId(3), nothing).is_err());
}

#[test]
fn actions_become_commands_in_order() {
    let resize = Resize {
        axis: Axis::Rows,
        cells: 9,
    };
    let actions = [
        Action::Bytes(b"ls".to_vec()),
        Action::Key(Key::Enter, Modifiers::default()),
        Action::Paste(Paste::new("a\n").unwrap()),
        Action::Resize(resize),
        Action::ClientSize(Size::new(120, 40).unwrap()),
    ];
    let commands = Command::of_actions(PaneId(4), &actions, "starcom").unwrap();
    let texts: Vec<&str> = commands.iter().map(Command::as_str).collect();
    assert_eq!(
        texts,
        [
            "send-keys -H -t %4 6c 73\n",
            "send-keys -t %4 Enter\n",
            "set-buffer -b starcom \"\\141\\012\"\n",
            "paste-buffer -d -p -b starcom -t %4\n",
            "resize-pane -t %4 -y 9\n",
            "refresh-client -C 120x40\n",
        ]
    );
    assert_eq!(Command::client_size(Size::new(1, 2).unwrap()).as_str(), "refresh-client -C 1x2\n");
    let bad = [
        Action::Bytes(b"ls".to_vec()),
        Action::Key(Key::Function(0), Modifiers::default()),
        Action::Bytes(Vec::new()),
    ];
    assert_eq!(Command::of_actions(PaneId(4), &bad, "starcom").err(), Some(Error::Key));
    assert_eq!(Error::Bytes.message(), "input must contain 1..=1024 bytes");
}

#[test]
fn a_paste_is_one_line_for_each_command() {
    let paste = Paste::new("first\nsecond\n").unwrap();
    let commands = Command::paste(PaneId(4), &paste, "starcom-1");
    assert!(!commands.is_empty());
    for command in &commands {
        let bytes = command.as_bytes();
        assert_eq!(bytes.iter().filter(|&&b| b == b'\n').count(), 1);
        assert_eq!(bytes.last(), Some(&b'\n'));
    }
    assert!(commands[0].as_str().contains("starcom-1"));
}

#[test]
fn clipboard_text_is_checked() {
    assert!(Paste::new("").is_err());
    assert!(Paste::new("a\u{1b}[31m").is_err());
    let plain = Paste::new("tab\tand text").unwrap();
    assert!(!plain.is_multiline());
    assert_eq!(plain.as_str(), "tab\tand text");
    assert!(Paste::new("a\rb").unwrap().is_multiline());
    assert_eq!(Action::Paste(plain).size(), 12);
    assert_eq!(
        Action::Key(Key::Enter, Modifiers::default()).size(),
        starcom::input::ACTION_BYTES
    );
    assert!(Action::Bytes(Vec::new()).validate().is_err());
}

#[test]
fn character_classes_agree_with_the_standard_ones() {
    let mut n: u32 = 0;
    while n <= 0x10ffff {
        if let Some(c) = char::from_u32(n) {
            assert_eq!(is_control(c), c.is_control(), "{n:x}");
            assert_eq!(is_white(c), c.is_whitespace(), "{n:x}");
            assert_eq!(lower(c), c.to_ascii_lowercase(), "{n:x}");
        }
        n += 1;
    }
}

#[test]
fn text_is_split_and_read_as_documented() {
    let chars = chars_of("  one \t two\n");
    let words: Vec<String> = split_words(&chars)
        .iter()
        .map(|word| string_of(word))
        .collect();
    assert_eq!(words, ["one", "two"]);
    let lines: Vec<String> = split_lines(&chars_of("a\r\nb\n\nc"))
        .iter()
        .map(|line| string_of(line))
        .collect();
    assert_eq!(lines, ["a", "b", "", "c"]);
    assert_eq!(string_of(trimmed(&chars)), "one \t two");
    let number = |text: &str| parse_number(&chars_of(text), 100);
    assert_eq!(number("0042"), Ok(42));
    assert_eq!(number("+42"), Ok(42));
    assert_eq!(number("101"), Err(NumberError::TooLarge));
    assert_eq!(number("4x"), Err(NumberError::Digit));
    assert_eq!(number("x999"), Err(NumberError::Digit));
    assert_eq!(number("999x"), Err(NumberError::TooLarge));
    assert_eq!(number("99x"), Err(NumberError::Digit));
    assert_eq!(number("+"), Err(NumberError::Digit));
    assert_eq!(number("-"), Err(NumberError::Digit));
    assert_eq!(number("++1"), Err(NumberError::Digit));
    assert_eq!(number(""), Err(NumberError::Empty));
    for text in ["", "+", "-1", "4x", "999x", "255", "256", "+7", "0x1", "99999x", " 1"] {
        let expected = text.parse::<u8>().map(u64::from).map_err(|error| error.to_string());
        let found = parse_number(&chars_of(text), 255).map_err(|error| error.message().to_owned());
        assert_eq!(found, expected, "{text:?}");
    }
    assert_eq!(string_of(&to_decimal(1000)), "1000");
    assert_eq!(byte_len("café 界"), 9);
}

#[test]
fn diagnostics_are_escaped() {
    assert_eq!(to_printable("a\u{1b}[31m\n"), "a\\u{1b}[31m\\n");
    assert_eq!(to_printable("plain"), "plain");
}

#[test]
fn wildcards_match_as_a_shell_matches_them() {
    assert!(glob_bytes(b"*.example", b"a.example"));
    assert!(glob_bytes(b"b?", b"b1"));
    assert!(!glob_bytes(b"b?", b"b"));
    assert!(glob_bytes(b"*", b""));
    assert!(glob_bytes(b"a*b*c", b"a-b-b-c"));
    assert!(!glob_bytes(b"a*b*c", b"a-c-b"));
    assert!(glob_bytes(b"literal", b"literal"));
    assert!(!glob_bytes(b"literal", b"literals"));
}
