use std::sync::Arc;

use starcom::form::{Form, Local};
use starcom::quick_form;
use starcom::ssh_config::{
    default_identity_paths, expand_path, glob_matches, is_pattern, line_error, matches_host,
    parse_hop, path_error, pattern_path, read_line, words, Config, Error, Hop, Line, Loader, Profile, Search, MAX_DEPTH,
    MAX_ENTRIES, MAX_FILES,
};
use starcom::store::Tab;
use starcom::text::NumberError;
use starcom::ui::DesktopUi;

fn config(text: &str) -> Config {
    Config::from_text(text, "/home/test").unwrap()
}

fn machine() -> Local {
    Local {
        user: "local".to_owned(),
        home: Some("/home/test".to_owned()),
    }
}

#[test]
fn first_value_wins_and_host_patterns_exclude_negations() {
    let config = config(
        "Host dev backup\n HostName 10.2.3.4\n User specific\n Port=2222\nHost * !backup\n User fallback\nHost *\n Port 22",
    );
    let dev = config.resolve("dev").unwrap();
    assert_eq!(dev.host, "10.2.3.4");
    assert_eq!(dev.user.as_deref(), Some("specific"));
    assert_eq!(dev.port, Some(2222));
    assert_eq!(
        config.resolve("other").unwrap().user.as_deref(),
        Some("fallback")
    );
    assert!(!matches_host(
        &vec!["*".to_owned(), "!backup".to_owned()],
        "backup"
    ));
}

#[test]
fn quoted_paths_and_percent_tokens_are_resolved() {
    let config = config(
        "Host dev\nHostName dev.test\nUser alice\nIdentityFile \"~/.ssh/my # key\" # comment\nUserKnownHostsFile %d/.ssh/known_%h",
    );
    let profile = config.resolve("dev").unwrap();
    assert_eq!(profile.identity.unwrap(), "/home/test/.ssh/my # key");
    assert_eq!(
        profile.known_hosts.unwrap(),
        "/home/test/.ssh/known_dev.test"
    );
    assert!(words("Host \"missing").is_err());
}

#[test]
fn unsupported_routing_and_match_are_never_silently_bypassed() {
    let config = config("Host remote\nProxyCommand nc %h %p\nHost local\nHostName 127.0.0.1");
    assert_eq!(
        config.resolve("remote").unwrap().unsupported,
        ["proxycommand"]
    );
    assert!(config.resolve("local").unwrap().unsupported.is_empty());
    let config = self::config(
        "Match exec \"touch /must-not-run\"\nUser altered\nHost safe\nHostName localhost",
    );
    assert!(!config.resolve("safe").unwrap().unsupported.is_empty());
}

/// A hop is a destination, so it is resolved through the config exactly as
/// the destination is. Getting this wrong means connecting to a bastion
/// under the wrong name, user, or trust store.
#[test]
fn proxy_jump_hops_are_resolved_through_the_config() {
    let config = config(
        "Host remote\nHostName 10.0.0.9\nProxyJump gateway\n\
         Host gateway\nHostName bastion.example\nUser jump\nPort 2222",
    );
    let profile = config.resolve("remote").unwrap();
    assert!(profile.unsupported.is_empty(), "{:?}", profile.unsupported);
    assert_eq!(profile.host, "10.0.0.9");
    assert_eq!(profile.jumps.len(), 1);
    assert_eq!(profile.jumps[0].host, "bastion.example");
    assert_eq!(profile.jumps[0].user.as_deref(), Some("jump"));
    assert_eq!(profile.jumps[0].port, Some(2222));
    assert!(profile.jumps[0].jumps.is_empty());
}

/// `ssh` lets the ProxyJump value override the hop's own block. Silently
/// preferring the block would connect as the wrong user.
#[test]
fn an_explicit_hop_user_and_port_win_over_the_hops_own_block() {
    let config = config(
        "Host remote\nProxyJump admin@gateway:2022\n\
         Host gateway\nHostName bastion.example\nUser jump\nPort 2222",
    );
    let profile = config.resolve("remote").unwrap();
    assert_eq!(profile.jumps[0].host, "bastion.example");
    assert_eq!(profile.jumps[0].user.as_deref(), Some("admin"));
    assert_eq!(profile.jumps[0].port, Some(2022));
}

/// Every way a chain could stop being a flat, fully understood list has to
/// end in `unsupported` rather than in a connection.
#[test]
fn a_chain_that_cannot_be_carried_out_exactly_is_refused() {
    // A hop that jumps again is reported, not flattened: that is what keeps
    // the chain from being built out of a cycle.
    let config = config("Host a\nProxyJump b\nHost b\nProxyJump a");
    let profile = config.resolve("a").unwrap();
    assert!(profile.jumps.is_empty());
    assert_eq!(profile.unsupported.len(), 1);
    assert!(profile.unsupported[0].contains("nested ProxyJump"));

    // A hop carrying policy this reader will not honour fails the chain
    // rather than connecting to the bastion on different terms.
    let config = self::config("Host a\nProxyJump b\nHost b\nProxyCommand nc %h %p");
    let profile = config.resolve("a").unwrap();
    assert!(profile.jumps.is_empty());
    assert!(profile.unsupported[0].contains("proxycommand"));

    // More hops than the traversal bound.
    let config = self::config("Host a\nProxyJump b,c,d,e,f");
    assert!(config.resolve("a").unwrap().unsupported[0].contains("hops"));

    // `none` is how ssh spells "no jump", and must not become a host.
    let config = self::config("Host a\nProxyJump none");
    let profile = config.resolve("a").unwrap();
    assert!(profile.jumps.is_empty() && profile.unsupported.is_empty());
}

#[test]
fn hop_specifications_are_parsed_or_refused_never_guessed() {
    assert_eq!(
        parse_hop("host").unwrap(),
        Hop {
            user: None,
            host: "host".into(),
            port: None
        }
    );
    assert_eq!(
        parse_hop(" user@host:22 ").unwrap(),
        Hop {
            user: Some("user".into()),
            host: "host".into(),
            port: Some(22)
        }
    );
    assert_eq!(
        parse_hop("[fe80::1]:2222").unwrap(),
        Hop {
            user: None,
            host: "fe80::1".into(),
            port: Some(2222)
        }
    );
    assert_eq!(parse_hop("[fe80::1]").unwrap().host, "fe80::1");
    for refused in [
        "",
        " ",
        "@host",
        "host:",
        "host:0",
        "host:99999",
        "host:notaport",
        // Unbracketed IPv6: there is no way to tell a port from a group.
        "fe80::1",
        "[fe80::1",
        "[fe80::1]2222",
    ] {
        assert!(parse_hop(refused).is_err(), "accepted {refused:?}");
    }
}

#[test]
fn aliases_are_literal_unique_and_sorted() {
    let config = config("Host *.example !bad z a\nHost a\nHost b?");
    assert_eq!(config.aliases(), ["a", "z"]);
}

fn line(text: &str) -> Line {
    read_line(text).unwrap().unwrap()
}

#[test]
fn included_files_are_sorted_bounded_and_cycles_fail() {
    let included = |a: &[&str], b: &[&str]| {
        let file = |lines: &[&str]| {
            starcom::ssh_config::file_line(lines.iter().map(|text| line(text)).collect())
        };
        let mut first = line("Include conf.d/*");
        first.included = vec![file(a), file(b)];
        Config::new(
            vec![first, line("Host *"), line("User fallback")],
            "/home/test".to_owned(),
            Vec::new(),
        )
    };
    let config = included(
        &["Host alpha", "HostName 10.0.0.1", "User first"],
        &["Host alpha beta", "User second"],
    );
    assert_eq!(config.aliases(), ["alpha", "beta"]);
    assert_eq!(
        config.resolve("alpha").unwrap().user.as_deref(),
        Some("first")
    );
    assert_eq!(
        config.resolve("beta").unwrap().user.as_deref(),
        Some("second")
    );
    // An included file ending in a non-matching Host must not disable
    // defaults at the beginning of the next file in the glob.
    let config = included(
        &["Host alpha", "HostName 10.0.0.1", "User first"],
        &["Port 2222", "Host beta", "User second"],
    );
    assert_eq!(config.resolve("other").unwrap().port, Some(2222));
    let mut loader = Loader::new();
    loader.enter("/home/test/.ssh/config", 0).unwrap();
    loader.enter("/home/test/.ssh/conf.d/a", 1).unwrap();
    assert_eq!(
        loader.enter("/home/test/.ssh/config", 2),
        Err(Error::Cycle)
    );
    assert_eq!(loader.enter("/other", MAX_DEPTH), Err(Error::TooManyFiles));
    assert_eq!(loader.count(u64::MAX), Err(Error::TooLarge));
    loader.leave();
    assert!(loader.enter("/home/test/.ssh/conf.d/a", 1).is_ok());
}

#[test]
fn omitted_identityfile_selects_ed25519_over_a_leftover_rsa_file() {
    let existing = |names: &[&str]| -> Vec<String> {
        default_identity_paths("/home/test")
            .into_iter()
            .filter(|path| names.iter().any(|name| path.ends_with(name)))
            .collect()
    };
    let lines = |text: &[&str]| text.iter().map(|text| line(text)).collect::<Vec<_>>();
    let config = Config::new(
        lines(&["Host zork", "HostName zork.example"]),
        "/home/test".to_owned(),
        existing(&["id_rsa", "id_ed25519"]),
    );
    assert_eq!(
        config.default_identity().as_deref(),
        Some("/home/test/.ssh/id_ed25519")
    );
    let profile = config.resolve("zork").unwrap();
    assert!(profile.identity.is_none());
    assert!(profile.unsupported.is_empty());
    let only = ["Host zork", "IdentitiesOnly yes"];
    let config = Config::new(
        lines(&only),
        "/home/test".to_owned(),
        existing(&["id_rsa", "id_ed25519"]),
    );
    assert!(config.resolve("zork").unwrap().unsupported.is_empty());
    let config = Config::new(lines(&only), "/home/test".to_owned(), existing(&[]));
    assert!(config.default_identity().is_none());
    assert_eq!(
        config.resolve("zork").unwrap().unsupported,
        ["IdentitiesOnly without an explicit IdentityFile"]
    );
}

#[test]
fn several_identity_files_block_and_are_all_shown() {
    let config = config("Host dev\nIdentityFile ~/.ssh/a\nIdentityFile ~/.ssh/b\n");
    let profile = config.resolve("dev").unwrap();
    assert!(profile.identity.is_none());
    assert_eq!(profile.identities, ["/home/test/.ssh/a", "/home/test/.ssh/b"]);
    assert_eq!(profile.unsupported, ["multiple IdentityFile entries"]);
}

#[test]
fn configuration_errors_are_told_apart() {
    assert_eq!(words("Host \"missing"), Err(Error::Quote));
    assert_eq!(words("Host a\\ b # c").unwrap(), ["Host", "a b"]);
    assert!(matches!(config("Host a").resolve(""), Err(Error::Alias)));
    assert!(matches!(
        config("Host a\nHostName %p").resolve("a"),
        Err(Error::HostToken)
    ));
    assert!(matches!(
        config("Host a\nPort 70000").resolve("a"),
        Err(Error::Port(NumberError::TooLarge))
    ));
    assert_eq!(
        Error::Port(NumberError::TooLarge).message(),
        "number too large to fit in target type"
    );
    assert!(matches!(
        config("Host a\nPort x").resolve("a"),
        Err(Error::Port(NumberError::Digit))
    ));
    let expand = |path: &str| expand_path(path, "/home/test", "a", "host", &None, Some(2222));
    assert_eq!(expand("%d/%h-%p").unwrap(), "/home/test/host-2222");
    assert_eq!(expand("~/x").unwrap(), "/home/test/x");
    assert_eq!(expand("%r"), Err(Error::UserToken));
    assert_eq!(expand("%q"), Err(Error::PathToken));
    assert_eq!(expand("${HOME}/x"), Err(Error::Environment));
    assert_eq!(expand("~other/x"), Err(Error::OtherHome));
    assert_eq!(is_pattern("conf[0-9]"), Err(Error::Glob));
    assert_eq!(is_pattern("*.conf"), Ok(true));
    assert_eq!(is_pattern("plain"), Ok(false));
    assert!(glob_matches("*.conf", "a.conf"));
    assert_eq!(
        pattern_path("conf.d/*", "/home/test", "/home/test/.ssh"),
        "/home/test/.ssh/conf.d/*"
    );
    assert_eq!(
        pattern_path("~/x", "/home/test", "/home/test/.ssh"),
        "/home/test/x"
    );
    assert!(read_line("# comment").unwrap().is_none());
    assert!(matches!(read_line("Port"), Err(Error::MissingValue)));
    assert!(matches!(read_line("Port 22 23"), Err(Error::ExtraValues)));
    assert_eq!(
        line_error(Error::MissingValue, "Port", "/c", 3),
        "missing SSH config value at /c:3"
    );
    assert_eq!(
        line_error(Error::ExtraValues, "Port 22 23", "/c", 4),
        "extra values for port at /c:4"
    );
    assert_eq!(
        line_error(Error::Quote, "Port \"", "/c", 5),
        "/c:5: unterminated quote in SSH config"
    );
    assert_eq!(path_error(Error::Cycle, "/c"), "cyclic SSH Include at /c");
    assert_eq!(
        path_error(Error::Glob, "/c/[a]"),
        "unsupported Include glob: /c/[a]"
    );
    assert_eq!(
        path_error(Error::TooManyFiles, "/c"),
        "SSH Include limit exceeded"
    );
}

#[test]
fn hostkeyalias_is_carried_onto_the_connection() {
    let mut form = Form {
        user: "alice".into(),
        known_hosts: "/tmp/known_hosts".into(),
        ..Form::new(&machine())
    };
    form.apply_profile(
        &Profile {
            host: "10.2.3.4".into(),
            host_key_alias: Some("trusted.example".into()),
            ..Profile::default()
        },
        Vec::new(),
        "local",
    );
    let connection = form.connection_named("work", &machine()).unwrap();
    assert_eq!(connection.options.host, "10.2.3.4");
    assert_eq!(
        connection.options.host_key_alias.as_deref(),
        Some("trusted.example")
    );
}

#[test]
fn a_host_without_user_uses_the_local_account() {
    let mut form = Form {
        user: "previous".into(),
        ..Form::new(&machine())
    };
    form.apply_profile(
        &Profile {
            host: "zork.example".into(),
            ..Profile::default()
        },
        Vec::new(),
        "local",
    );
    assert_eq!(form.user, "local");
}

#[test]
fn a_host_without_identityfile_uses_every_default_key() {
    let mut form = Form::new(&machine());
    form.apply_profile(
        &Profile {
            host: "zork.example".into(),
            ..Profile::default()
        },
        vec![
            "/home/test/.ssh/id_ed25519".to_owned(),
            "/home/test/.ssh/id_rsa".to_owned(),
        ],
        "local",
    );
    assert_eq!(form.host, "zork.example");
    assert_eq!(
        form.identity_files,
        ["/home/test/.ssh/id_ed25519", "/home/test/.ssh/id_rsa"]
    );
    assert!(!form.identities_only);
}

#[test]
fn identities_only_still_uses_default_keys_and_closes_the_agent() {
    let mut form = Form::new(&machine());
    form.apply_profile(
        &Profile {
            host: "zork.example".into(),
            identities_only: true,
            ..Profile::default()
        },
        vec!["/home/test/.ssh/id_ed25519".to_owned()],
        "local",
    );
    assert_eq!(form.identity_files, ["/home/test/.ssh/id_ed25519"]);
    assert!(form.identities_only);
    form.user = "alice".into();
    form.known_hosts = "/tmp/known_hosts".into();
    let connection = form.connection_named("work", &machine()).unwrap();
    assert!(!connection.options.authentication.agent);
    assert_eq!(
        connection.options.authentication.files,
        ["/home/test/.ssh/id_ed25519"]
    );
}

#[test]
fn extra_identity_is_tried_before_config_files_then_the_agent() {
    let form = Form {
        host: "zork.example".into(),
        user: "alice".into(),
        known_hosts: "/tmp/known_hosts".into(),
        identity: "/home/alice/.ssh/extra".into(),
        identity_files: vec![
            "/home/alice/.ssh/work".into(),
            "/home/alice/.ssh/extra".into(),
        ],
        ..Form::new(&machine())
    };
    let connection = form.connection_named("work", &machine()).unwrap();
    assert_eq!(
        connection.options.authentication.files,
        ["/home/alice/.ssh/extra", "/home/alice/.ssh/work"]
    );
    assert!(connection.options.authentication.agent);
}

#[test]
fn forms_say_why_they_do_not_connect() {
    let mut form = Form::new(&machine());
    form.host = "zork.example".into();
    let error = form.connection(&machine()).unwrap_err();
    assert_eq!(error.message(), "choose a tmux session");
    form.session = "work".into();
    assert!(form.connection(&machine()).is_ok());
    assert!(form.listing(&machine()).is_ok());
    form.profile_error = Some("bad".into());
    assert_eq!(
        form.connection(&machine()).unwrap_err().message(),
        "fix the SSH profile first"
    );
    form.unsupported = vec!["proxycommand".into(), "match".into()];
    assert_eq!(
        form.connection(&machine()).unwrap_err().message(),
        "this SSH profile uses unsupported policy: proxycommand, match"
    );
    form.unsupported.clear();
    form.profile_error = None;
    form.known_hosts = "~/.ssh/known_hosts".into();
    let nowhere = Local {
        user: "local".to_owned(),
        home: None,
    };
    assert_eq!(
        form.connection(&nowhere).unwrap_err().message(),
        "home directory is unavailable"
    );
    form.host = "bad host".into();
    assert!(form.connection(&machine()).is_err());
}

#[test]
fn saved_forms_are_restored() {
    let mut form = Form::new(&machine());
    form.destination = "dev".into();
    form.host = "10.0.0.2".into();
    form.session = "work".into();
    form.port = 2222;
    let again = Form::restore(form.saved(), "local");
    assert_eq!(again.saved(), form.saved());
    let blank = Form::restore(Tab::default(), "local");
    assert_eq!(blank.user, "local");
}

#[test]
fn empty_connection_form_does_not_start_networking() {
    let form = quick_form::Form::new(&machine());
    assert!(form.connection(&machine()).is_err());
}

#[test]
fn form_requires_key_path_when_selected() {
    let form = quick_form::Form {
        host: "localhost".to_owned(),
        user: "demo".to_owned(),
        authentication: quick_form::Authentication::Key,
        known_hosts: "known_hosts".to_owned(),
        ..quick_form::Form::new(&machine())
    };
    assert!(form.connection(&machine()).is_err());
}

#[test]
fn a_filled_quick_form_is_read_only() {
    let form = quick_form::Form {
        host: " localhost ".to_owned(),
        user: "demo".to_owned(),
        session: "work".to_owned(),
        authentication: quick_form::Authentication::Key,
        identity: "~/key".to_owned(),
        known_hosts: "known_hosts".to_owned(),
        ..quick_form::Form::new(&machine())
    };
    let connection = form.connection(&machine()).unwrap();
    assert_eq!(connection.options.host, "localhost");
    assert_eq!(
        connection.options.authentication.files,
        ["/home/test/key"]
    );
    assert!(!connection.options.authentication.agent);
    assert_eq!(connection.access, starcom::session::Access::ReadOnly);
}

fn desktop(text: &str) -> DesktopUi {
    DesktopUi::with_config(Arc::new(config(text)), None, machine(), true, 0)
}

#[test]
fn a_literal_alias_populates_the_connection_form() {
    let mut ui = desktop(
        "Host dev\nHostName 10.0.0.2\nUser alice\nPort 2222\nIdentityFile ~/.ssh/dev",
    );
    ui.form.destination = "dev".to_owned();
    ui.refresh_profile();
    assert_eq!(ui.form.host, "10.0.0.2");
    assert_eq!(ui.form.user, "alice");
    assert_eq!(ui.form.port, 2222);
    assert_eq!(ui.form.identity_files, ["/home/test/.ssh/dev"]);
    assert!(!ui.form.identities_only);
    assert!(ui.form.host_key_alias.is_none());
    assert_eq!(ui.endpoint().as_deref(), Some("alice@10.0.0.2:2222"));
    ui.form.identity = " ~/.ssh/extra ".to_owned();
    assert_eq!(ui.shown_keys(), ["~/.ssh/extra", "/home/test/.ssh/dev"]);
}

#[test]
fn restored_tabs_re_read_identity_policy_from_config() {
    let mut ui = desktop(
        "Host zork\nHostName zork.example\nIdentityFile ~/.ssh/work\nIdentityFile ~/.ssh/id_ed25519\nIdentitiesOnly yes\nProxyJump bastion\n",
    );
    ui.restore(Tab {
        destination: "zork".into(),
        host: "saved.example".into(),
        user: "alice".into(),
        session: "work".into(),
        port: 22,
        identity: "/home/alice/.ssh/extra".into(),
        known_hosts: "/tmp/known_hosts".into(),
        ..Tab::default()
    });
    assert_eq!(ui.form.host, "saved.example");
    assert_eq!(ui.form.identity, "/home/alice/.ssh/extra");
    assert_eq!(
        ui.form.identity_files,
        ["/home/test/.ssh/work", "/home/test/.ssh/id_ed25519"]
    );
    assert!(ui.form.identities_only);
    assert!(ui.form.unsupported.iter().any(|item| item == "proxyjump"));
    assert!(ui.form.connection_named("work", &machine()).is_err());
}

#[test]
fn the_first_of_two_texts_wins() {
    let first = "Host dev\n HostName 10.0.0.1\n User alice\n Port 2200";
    let second = "Host *\n HostName 10.0.0.9\n User bob\n Port 22";
    let both = config(&format!("{first}\n{second}"));
    let dev = both.resolve("dev").unwrap();
    assert_eq!(dev.host, "10.0.0.1");
    assert_eq!(dev.user.as_deref(), Some("alice"));
    assert_eq!(dev.port, Some(2200));
    let other = both.resolve("other").unwrap();
    assert_eq!((other.host.as_str(), other.port), ("10.0.0.9", Some(22)));
    // The line end takes the carriage return away from the backslash.
    let split = "Host *\nUser x\\\r";
    assert_eq!(config(split).resolve("a").unwrap().user.as_deref(), Some("x\\\r"));
    let joined = format!("{split}\n");
    assert_eq!(config(&joined).resolve("a").unwrap().user.as_deref(), Some("x\\"));
}

#[test]
fn match_blocks_are_as_good_as_absent_and_reported() {
    let whole = config(
        "User first\nMatch all\n User never\n Port 9\nHost dev\n Port 2200\nMatch user x\n HostName nowhere\nHost *\n HostName 10.0.0.1",
    );
    let rest = config("User first\nHost dev\n Port 2200\nHost *\n HostName 10.0.0.1");
    for alias in ["dev", "other"] {
        let with = whole.resolve(alias).unwrap();
        let without = rest.resolve(alias).unwrap();
        assert!(without.unsupported.is_empty());
        assert_eq!(with.unsupported, ["Match conditions (not evaluated or executed)"]);
        assert_eq!(with.host, without.host);
        assert_eq!(with.user, without.user);
        assert_eq!(with.port, without.port);
        assert_eq!(with.identities, without.identities);
    }
}

#[test]
fn written_hops_read_back() {
    for user in [None, Some("alice"), Some("a.b_c-1")] {
        for (host, written) in [("bastion", "bastion"), ("fe80::1", "[fe80::1]"), ("7", "7")] {
            for port in [None, Some(1), Some(22), Some(65535)] {
                let mut text = user.map(|user| format!("{user}@")).unwrap_or_default();
                text.push_str(written);
                if let Some(port) = port {
                    text.push_str(&format!(":{port}"));
                }
                let hop = Hop {
                    user: user.map(str::to_owned),
                    host: host.to_owned(),
                    port,
                };
                assert_eq!(parse_hop(&text).as_ref(), Ok(&hop));
                assert_eq!(parse_hop(&format!("  {text}\t ")).as_ref(), Ok(&hop));
            }
        }
    }
}

#[test]
fn searches_are_bounded() {
    let mut search = Search::new();
    assert_eq!(search.entry(0, "*.conf", "a.conf"), Ok(true));
    assert_eq!(search.entry(MAX_ENTRIES - 1, "*.conf", "a.txt"), Ok(false));
    assert_eq!(search.entry(MAX_ENTRIES, "*.conf", "a.txt"), Err(Error::Directory));
    while search.found < MAX_FILES {
        assert_eq!(search.entry(1, "*", "x"), Ok(true));
    }
    assert_eq!(search.entry(1, "*.conf", "a.txt"), Ok(false));
    assert_eq!(search.entry(1, "*.conf", "a.conf"), Err(Error::Matches));
    assert_eq!(Error::Matches.message(), "too many SSH Include matches");
}
