use std::sync::Arc;

use starcom::demo::demo_view;
use starcom::desktop::{Phase, Startup};
use starcom::dialog::{
    applescript_string, arguments, ask, ask_clear_or_exit, dialog_script, prompt, script_answer,
    wide, BrokenStore, Outcome, Step,
    Tool,
};
use starcom::form::Local;
use starcom::ssh_config::Config;
use starcom::store::{
    clamp_fps, load, parse, path, render, Fault, Tab, Workspace as Saved, DEFAULT_FPS,
    DEFAULT_IDLE, MAX_IDLE, MAX_OPEN_SECS, MAX_TABS, MAX_VALUE,
};
use starcom::ui;
use starcom::wayland_drop::{
    collect, decode_file_uri, parse_uri_list, read_uri_list, Answer, Drop, Reading, State,
    MAX_DROPPED_FILES, MAX_URI_LIST_BYTES,
};
use starcom::workspace::{label, Action, Effect, Probe, Workspace};

fn sample() -> Saved {
    Saved {
        tabs: vec![
            Tab {
                destination: "dev".into(),
                host: "10.0.0.2".into(),
                user: "alice".into(),
                session: String::new(),
                port: 2222,
                identity: "/home/alice/.ssh/id_ed25519".into(),
                known_hosts: "/home/alice/.ssh/known_hosts".into(),
                socket: String::new(),
                history: 300,
                interactive: true,
                reconnect: true,
            },
            Tab {
                host: "build.example.test".into(),
                user: "bob".into(),
                port: 22,
                history: 200,
                interactive: false,
                reconnect: false,
                ..Tab::default()
            },
        ],
        active: 1,
        restore_tabs: true,
        fps: DEFAULT_FPS,
        idle: DEFAULT_IDLE,
        open_secs: 0,
    }
}

#[test]
fn fps_is_a_file_level_setting() {
    let mut workspace = sample();
    workspace.fps = 12;
    assert_eq!(parse(&render(&workspace)).unwrap().fps, 12);
    assert_eq!(parse("fps 0\n").unwrap().fps, DEFAULT_FPS);
    assert!(parse("fps 99\n").is_err());
}

#[test]
fn tab_restore_is_enabled_by_default_and_round_trips() {
    assert!(parse("").unwrap().restore_tabs);
    let mut workspace = sample();
    workspace.restore_tabs = false;
    let text = render(&workspace);
    assert!(text.contains("restore-tabs no"));
    assert!(!parse(&text).unwrap().restore_tabs);
    assert!(parse("restore-tabs maybe\n").is_err());
}

#[test]
fn idle_is_a_file_level_setting() {
    let mut workspace = sample();
    workspace.idle = 12;
    assert_eq!(parse(&render(&workspace)).unwrap().idle, 12);
    assert_eq!(parse("idle 0\n").unwrap().idle, 0);
    assert!(parse(&format!("idle {}\n", MAX_IDLE + 1)).is_err());
}

#[test]
fn open_time_is_a_file_level_setting() {
    let mut workspace = sample();
    workspace.open_secs = 90;
    assert_eq!(parse(&render(&workspace)).unwrap().open_secs, 90);
    assert_eq!(parse("open 0\n").unwrap().open_secs, 0);
    assert!(parse(&format!("open {}\n", MAX_OPEN_SECS + 1)).is_err());
}

#[test]
fn tabs_survive_a_round_trip() {
    let workspace = sample();
    let text = render(&workspace);
    assert_eq!(parse(&text).unwrap(), workspace);
}

#[test]
fn last_used_session_is_written() {
    let parsed = parse("version 1\n[tab]\ndestination dev\nsession work\n").unwrap();
    assert_eq!(parsed.tabs[0].session, "work");
    assert!(render(&parsed).contains("session work"));
}

#[test]
fn nothing_secret_is_ever_written() {
    let mut workspace = sample();
    // Even if a field somehow held key-shaped text, only known keys are
    // written, and none of them carries key material.
    workspace.tabs[0].session = "work".into();
    // Scan the data, not the explanatory header, which says these words.
    let text: String = render(&workspace)
        .lines()
        .filter(|line| !line.trim_start().starts_with('#'))
        .collect::<Vec<_>>()
        .join("\n")
        .to_ascii_lowercase();
    for forbidden in [
        "begin openssh private key",
        "passphrase",
        "password",
        "ssh-rsa aaaa",
        "ssh-ed25519 aaaa",
        "authorized_keys",
        "agent_sock",
    ] {
        assert!(!text.contains(forbidden), "{forbidden} reached the file");
    }
    // The identity is a path to choose again, not the key itself.
    assert!(text.contains("identity /home/alice/.ssh/id_ed25519"));
}

#[test]
fn a_missing_file_is_not_an_error_but_a_malformed_one_is() {
    assert!(load(None).unwrap().is_none());
    let text = render(&sample());
    assert_eq!(load(Some(&text)).unwrap().unwrap(), sample());
    assert!(load(Some("[tab]\nport not-a-number\n")).is_err());
    assert!(
        load(Some("[tab]\nnovel-setting yes\n")).is_err(),
        "unknown keys must not be ignored"
    );
    assert!(
        load(Some("version 1\n[tab]\nhost a\nauth agent\n")).is_err(),
        "the old agent/key radio must not be guessed at"
    );
    assert!(
        load(Some("version 2\n")).is_err(),
        "a newer format must not be guessed at"
    );
}

#[test]
fn the_file_is_bounded_in_every_direction() {
    assert!(parse(&format!("[tab]\nhost {}\n", "x".repeat(MAX_VALUE + 1))).is_err());
    assert!(parse(&format!("[tab]\nhost {}\n", "x".repeat(MAX_VALUE))).is_ok());
    assert!(parse("[tab]\nhost a\u{1b}b\n").is_err(), "control byte");
    assert!(parse("[tab]\nhost a\n[tab]\nhost b\n").is_ok());
    assert!(parse(&format!(
        "[tab]\nhistory {}\n",
        starcom::snapshot::MAX_HISTORY_LINES + 1
    ))
    .is_err());
    assert!(parse("[tab]\naccess maybe\n").is_err());
    assert!(parse("[tab]\nreconnect maybe\n").is_err());
    let many = "[tab]\nhost a\n".repeat(MAX_TABS + 1);
    assert!(parse(&many).is_err(), "tab count must be bounded");
    assert!(parse("[tab]\nhost a\nhost b\n").is_err(), "duplicate key");
    // An out-of-range active index selects a real tab instead of panicking.
    assert_eq!(parse("active 99\n[tab]\nhost a\n").unwrap().active, 0);
    assert_eq!(parse("").unwrap(), Saved::default());
}

#[test]
fn malformed_files_name_the_line() {
    let error = parse("version 1\n[tab]\nhost a\nhost b\n").unwrap_err();
    assert_eq!(error.fault, Fault::Duplicate);
    assert_eq!(error.line, 4);
    assert!(error.message().contains("line 4"));
    assert_eq!(parse("version 2\n").unwrap_err().fault, Fault::Version);
    for (given, text) in [
        ("fps x\n", "line 1: invalid digit found in string"),
        ("restore-tabs may\"be\n", "line 1: invalid restore-tabs value \"may\\\"be\""),
        ("host a\n", "line 1: unexpected key host before any [tab]"),
        ("[tab]\nport 70000\n", "invalid port: number too large to fit in target type"),
        ("[tab]\nhistory 1x\n", "invalid history: invalid digit found in string"),
        ("[tab]\naccess maybe\n", "invalid access value \"maybe\""),
    ] {
        assert_eq!(parse(given).unwrap_err().message(), text);
    }
    assert_eq!(clamp_fps(0), DEFAULT_FPS);
    assert_eq!(clamp_fps(12), 12);
}

#[test]
fn the_file_stands_below_the_configuration_directory() {
    assert_eq!(
        path(Some("/etc/xdg"), "/home/alice"),
        "/etc/xdg/starcom/workspace.conf"
    );
    assert_eq!(
        path(Some("relative"), "/home/alice"),
        "/home/alice/.config/starcom/workspace.conf"
    );
    assert_eq!(
        path(None, "/home/alice"),
        "/home/alice/.config/starcom/workspace.conf"
    );
}

#[test]
fn the_prompt_names_the_file_and_the_parse_error() {
    let text = prompt(
        "/home/alice/.config/starcom/workspace.conf",
        "line 21: unknown key auth",
    );
    assert!(text.contains("/home/alice/.config/starcom/workspace.conf"));
    assert!(text.contains("unknown key auth"));
    assert!(text.contains("Clear"));
    assert!(text.contains("exit"));
}

#[test]
fn only_an_explicit_answer_clears() {
    assert_eq!(
        ask_clear_or_exit(ask(Tool::Zenity, Outcome::Exited(0))),
        BrokenStore::Clear
    );
    assert_eq!(
        ask_clear_or_exit(ask(Tool::Kdialog, Outcome::Exited(0))),
        BrokenStore::Exit
    );
    assert_eq!(
        ask(Tool::Zenity, Outcome::NotFound),
        Step::Try(Tool::Kdialog)
    );
    for outcome in [Outcome::Killed, Outcome::Failed, Outcome::Exited(5)] {
        assert_eq!(
            ask_clear_or_exit(ask(Tool::Zenity, outcome)),
            BrokenStore::Exit
        );
    }
    assert!(arguments(Tool::Zenity, "text").iter().any(|arg| arg.contains("text")));
    assert_eq!(applescript_string("a\"b\\c"), "\"a\\\"b\\\\c\"");
    assert_eq!(wide("a界"), [0x61, 0x754c, 0]);
    assert_eq!(
        dialog_script("a\"b"),
        "display dialog \"a\\\"b\" with title \"Starcom\" buttons {\"Exit\", \"Clear\"} \
         default button \"Exit\" with icon caution"
    );
    assert_eq!(script_answer(true, "button returned:Clear\n"), Step::Answer(true));
    assert_eq!(script_answer(true, "button returned:Exit\n"), Step::Answer(false));
    assert_eq!(script_answer(false, "Clear"), Step::Answer(false));
    assert_eq!(script_answer(true, ""), Step::Answer(false));
}

#[test]
fn file_uris_decode_paths() {
    assert_eq!(
        decode_file_uri("file:///tmp/notes.txt").unwrap(),
        "/tmp/notes.txt"
    );
    assert_eq!(
        decode_file_uri("file://localhost/tmp/a%20b.png").unwrap(),
        "/tmp/a b.png"
    );
    assert!(decode_file_uri("file://other-host/tmp/private").is_none());
    assert!(decode_file_uri("file:///tmp/bad%").is_none());
    assert!(decode_file_uri("https://example.test/x").is_none());
    assert!(parse_uri_list("https://example.test/x\n").is_err());
    assert_eq!(
        parse_uri_list("# comment\nfile:///tmp/a\n\nfile:///tmp/b\n")
            .unwrap()
            .len(),
        2
    );
    let too_many = "file:///tmp/a\n".repeat(MAX_DROPPED_FILES + 1);
    assert!(parse_uri_list(&too_many).is_err());
}

#[test]
fn uri_list_pipe_is_read_to_eof() {
    let mut bytes = Vec::new();
    collect(&mut bytes, b"file:///tmp/").unwrap();
    collect(&mut bytes, b"a%20b\n").unwrap();
    assert_eq!(read_uri_list(bytes).unwrap(), ["/tmp/a b"]);
    assert!(collect(&mut Vec::new(), &vec![b'x'; MAX_URI_LIST_BYTES + 1]).is_err());
    assert!(read_uri_list(vec![0xff]).is_err());
}

#[test]
fn a_drop_is_taken_from_the_own_surface_only() {
    let mut state = State::new(Some(7));
    state.data_offer();
    assert_eq!(state.uri_list_offered(), Answer::Accept);
    assert_eq!(state.accept_if_ours(8, 1, true), Answer::Reject);
    assert_eq!(state.accept_if_ours(7, 1, false), Answer::Nothing);
    assert_eq!(state.accept_if_ours(7, 1, true), Answer::Accept);
    assert_eq!(state.take_uri_list(), Drop::Read);
    state.finish_pending(Reading::Files(vec!["/tmp/a".to_owned()]));
    let pump = state.pump();
    assert_eq!(pump.dropped, ["/tmp/a"]);
    assert!(state.pump().dropped.is_empty());
    assert_eq!(state.take_uri_list(), Drop::Nothing);
    state.no_pipe();
    assert!(state.error.is_none(), "nothing was offered");
    state.data_offer();
    assert_eq!(state.take_uri_list(), Drop::Read);
    state.data_offer();
    state.no_pipe();
    assert!(state.pending && !state.offered);
    assert_eq!(state.error.as_deref(), Some("could not create the file-drop pipe"));
}

fn probe() -> Probe {
    Probe {
        agent: false,
        now: 0,
    }
}

fn empty(startup: Startup, store: Option<&str>) -> Workspace {
    let local = Local {
        user: "local".to_owned(),
        home: Some("/home/test".to_owned()),
    };
    let config = Config::new(Vec::new(), "/home/test".to_owned(), Vec::new());
    Workspace::empty(startup, Arc::new(config), store.map(str::to_owned), local)
}

fn demo() -> Workspace {
    let mut workspace = empty(Startup::Demo, Some("/must/not/be/used"));
    workspace.new_tab(probe()).unwrap();
    workspace.demo(demo_view().unwrap_or_else(|error| panic!("{error:?}")));
    workspace
}

#[test]
fn new_tab_preserves_existing_session_and_close_only_detaches_its_client() {
    let mut workspace = demo();
    assert!(workspace.store.is_none());
    let original = workspace.tabs[0].id;
    workspace.new_tab(probe()).unwrap();
    assert_eq!(workspace.tabs.len(), 2);
    assert_eq!(workspace.tabs[0].state.phase, Phase::Demo);
    assert_eq!(workspace.tabs[1].state.phase, Phase::Idle);
    let second = workspace.tabs[1].id;
    let outcome = workspace.apply(Action::Close(second), &Vec::new(), probe());
    assert!(matches!(outcome.effect, Effect::Closed(id) if id == second));
    assert_eq!(workspace.tabs.len(), 1);
    assert_eq!(workspace.tabs[0].id, original);
    assert_eq!(workspace.tabs[0].state.phase, Phase::Demo);
    workspace.clear();
    workspace.clear();
    assert!(workspace.tabs.is_empty());
}

#[test]
fn stale_tab_actions_do_not_modify_the_current_tab() {
    let mut workspace = demo();
    let original = workspace.tabs[0].id;
    workspace.new_tab(probe()).unwrap();
    workspace.apply(
        Action::Tab(original, ui::Action::Disconnect),
        &Vec::new(),
        probe(),
    );
    assert_eq!(workspace.tabs[0].state.phase, Phase::Demo);
    assert_eq!(workspace.tabs[1].state.phase, Phase::Idle);
}

#[test]
fn saved_tabs_reopen_on_their_form_without_connecting() {
    let text = render(&Saved {
        tabs: vec![
            Tab {
                destination: "dev".into(),
                host: "10.0.0.2".into(),
                user: "alice".into(),
                session: "work".into(),
                port: 2222,
                history: 300,
                interactive: true,
                reconnect: true,
                ..Tab::default()
            },
            Tab {
                host: "build.example.test".into(),
                user: "bob".into(),
                session: "ci".into(),
                port: 22,
                history: 200,
                ..Tab::default()
            },
        ],
        active: 1,
        ..Saved::default()
    });
    let mut workspace = empty(Startup::ConnectionForm, Some("/home/test/workspace.conf"));
    let saved = load(Some(&text)).unwrap().unwrap();
    workspace.restore(saved, probe());
    assert_eq!(workspace.tabs.len(), 2);
    assert_eq!(workspace.active, 1);
    // The whole point: no tab may be connecting or connected at startup.
    for tab in &workspace.tabs {
        assert_eq!(
            tab.state.phase,
            Phase::Idle,
            "restoring a workspace must not authenticate"
        );
        assert!(tab.ui.showing_form());
    }
    assert_eq!(workspace.tabs[0].label, "dev / work");
    assert_eq!(workspace.tabs[1].label, "build.example.test / ci");
    // Round-tripping through the live tabs must not lose or alter anything.
    let reloaded = load(Some(&render(&workspace.saved()))).unwrap().unwrap();
    assert_eq!(reloaded.tabs.len(), 2);
    assert_eq!(reloaded.tabs[0].host, "10.0.0.2");
    assert_eq!(reloaded.tabs[0].port, 2222);
    assert_eq!(reloaded.tabs[1].session, "ci");
    assert_eq!(reloaded.active, 1);
}

#[test]
fn an_unreadable_saved_workspace_is_left_alone_when_the_user_exits() {
    let mut workspace = empty(Startup::ConnectionForm, Some("/home/test/workspace.conf"));
    assert!(load(Some("[tab]\nport not-a-number\n")).is_err());
    assert!(!workspace.unreadable(BrokenStore::Exit));
    assert!(workspace.tabs.is_empty());
    workspace.new_tab(probe()).unwrap();
    assert!(workspace.store.is_none(), "nothing may be written over it");
}

#[test]
fn clearing_an_unreadable_saved_workspace_deletes_the_file() {
    let mut workspace = empty(Startup::ConnectionForm, Some("/home/test/workspace.conf"));
    assert!(workspace.unreadable(BrokenStore::Clear));
    assert!(workspace.tabs.is_empty());
    workspace.new_tab(probe()).unwrap();
    assert_eq!(
        workspace.store.as_deref(),
        Some("/home/test/workspace.conf")
    );
    assert!(load(Some(&render(&workspace.saved()))).unwrap().is_some());
}

#[test]
fn connections_and_tabs_are_bounded() {
    let mut workspace = demo();
    for _ in 1..starcom::workspace::MAX_TABS {
        workspace.new_tab(probe()).unwrap();
    }
    assert!(workspace.new_tab(probe()).is_err());
    let outcome = workspace.apply(Action::New, &Vec::new(), probe());
    assert!(!outcome.persist);
    assert_eq!(
        workspace.notice.as_deref(),
        Some("at most 16 connection tabs may be open")
    );
}

#[test]
fn idle_frames_do_not_request_another_repaint() {
    let mut workspace = demo();
    let id = workspace.tabs[0].id;
    let outcome = workspace.apply(Action::Tab(id, ui::Action::Idle), &Vec::new(), probe());
    assert!(!outcome.wake);
    assert!(!workspace.apply(Action::Idle, &Vec::new(), probe()).wake);
    assert!(workspace.apply(Action::New, &Vec::new(), probe()).wake);
}

#[test]
fn numbers_are_not_given_again_and_epochs_grow() {
    let mut workspace = demo();
    workspace.new_tab(probe()).unwrap();
    let ids: Vec<u64> = workspace.tabs.iter().map(|tab| tab.id).collect();
    workspace.apply(Action::Close(ids[1]), &Vec::new(), probe());
    workspace.apply(Action::New, &Vec::new(), probe());
    assert!(workspace.tabs[1].id > ids[1]);
    let shown = workspace.tabs[1].id;
    let before = workspace.tabs[1].state.epoch;
    workspace.apply(Action::Tab(shown, ui::Action::Disconnect), &Vec::new(), probe());
    assert!(workspace.tabs[1].state.epoch > before);
    let (count, active) = (workspace.tabs.len(), workspace.active);
    for action in [Action::Select(ids[1]), Action::Close(ids[1])] {
        let outcome = workspace.apply(action, &Vec::new(), probe());
        assert!(!outcome.persist);
        assert!(matches!(outcome.effect, Effect::Idle));
        assert_eq!((workspace.tabs.len(), workspace.active), (count, active));
    }
    for action in [Action::Idle, Action::Tab(shown, ui::Action::Idle)] {
        assert!(!workspace.apply(action, &Vec::new(), probe()).wake);
    }
}

#[test]
fn tabs_are_selected_closed_and_labelled() {
    let mut workspace = demo();
    workspace.new_tab(probe()).unwrap();
    workspace.new_tab(probe()).unwrap();
    let ids: Vec<u64> = workspace.tabs.iter().map(|tab| tab.id).collect();
    assert!(workspace.apply(Action::Select(ids[1]), &Vec::new(), probe()).persist);
    assert_eq!(workspace.active, 1);
    assert!(!workspace.apply(Action::Select(99), &Vec::new(), probe()).persist);
    workspace.apply(Action::Close(ids[0]), &Vec::new(), probe());
    assert_eq!(workspace.active, 0);
    assert_eq!(workspace.tabs[0].id, ids[1]);
    workspace.apply(Action::Close(ids[1]), &Vec::new(), probe());
    workspace.apply(Action::Close(ids[2]), &Vec::new(), probe());
    assert_eq!(workspace.tabs.len(), 1, "the last one leaves a new one");
    assert!(workspace.tabs[0].id > ids[2]);
    assert_eq!(label(&Tab::default()), "New connection");
    workspace.save_failed("disk full");
    assert_eq!(
        workspace.notice.as_deref(),
        Some("Could not save tabs: disk full")
    );
    workspace.set_fps(0);
    assert_eq!(workspace.repaint_interval(), 200_000_000);
    workspace.set_fps(6);
    assert_eq!(workspace.repaint_interval(), 166_666_667);
    workspace.set_fps(0);
    assert_eq!(workspace.fps, DEFAULT_FPS);
    workspace.reload_config(Err("no such file".to_owned()));
    assert_eq!(
        workspace.tabs[0].ui.config_load_error.as_deref(),
        Some("Could not load SSH config: no such file")
    );
    let fresh = Config::from_text("Host dev\nHostName 10.0.0.2", "/home/test").unwrap();
    workspace.tabs[0].ui.form.destination = "dev".to_owned();
    workspace.reload_config(Ok(fresh));
    assert_eq!(workspace.tabs[0].ui.form.host, "10.0.0.2");
    assert!(workspace.tabs[0].ui.config_load_error.is_none());
}
