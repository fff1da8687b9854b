use starcom::trust::{accept_key, accept_lines, is_about, verify, Entry, Store as KnownHosts};
use starcom::identity::{
    accept_signature, check_file, check_public, check_request, load_identity, sign, PublicKind,
    MAX_IDENTITY_BYTES, MAX_KEY_BYTES, MAX_MESSAGE_BYTES,
};
use starcom::sftp::{
    check_directory, check_payload, destination, fed_leftover, join_remote, plan, received,
    remote_file_name, unique_remote_name, wrote, Fault as CopyFault, Got, Local, Next, Put, Reply,
    Session, MAX_FILES, MAX_FILE_BYTES, MAX_NAME,
};
use starcom::ssh::{
    channel_ended, check_exec, check_forward, remaining, route, woken, written, Answer,
    Authentication, Error, Event, Goal, Inbox, Io, Kind, Link, Offer, Offers, Options, Queues,
    Read, Received, Stream, Turn, Work, DRIVE_BUDGET,
};
use starcom::ssh_config::MAX_JUMPS;

fn options() -> Options {
    Options {
        host: "example.invalid".to_owned(),
        port: 22,
        user: "someone".to_owned(),
        known_hosts: "known_hosts".to_owned(),
        host_key_alias: None,
        authentication: Authentication::agent_only(),
        timeout: 5_000_000_000,
        jumps: Vec::new(),
    }
}

/// A chain is checked before anything is dialled, because the failure it
/// prevents, an unbounded or self-referential route, is one that would
/// otherwise look like a hang rather than an error.
#[test]
fn a_jump_chain_is_bounded_and_flat() {
    let mut direct = options();
    assert!(direct.validate().is_ok());

    direct.jumps = (0..MAX_JUMPS).map(|_| options()).collect();
    assert!(direct.validate().is_ok());

    direct.jumps = (0..MAX_JUMPS + 1).map(|_| options()).collect();
    assert_eq!(direct.validate().unwrap_err().kind, Kind::Configuration);

    // A hop with hops of its own could describe a cycle. Config resolution
    // refuses to build one; this refuses to traverse one.
    let mut nested = options();
    nested.jumps = vec![options()];
    direct.jumps = vec![nested];
    assert_eq!(direct.validate().unwrap_err().kind, Kind::Configuration);

    // A hop is validated as strictly as a destination.
    let mut invalid = options();
    invalid.port = 0;
    direct.jumps = vec![invalid];
    assert_eq!(direct.validate().unwrap_err().kind, Kind::Configuration);
}

#[test]
fn diagnostics_cannot_emit_terminal_controls() {
    let error = Error::new(Kind::Transport, "remote\x1b]52;c;payload\x07\n");
    assert!(!error.message().contains('\x1b'));
    assert!(!error.message().contains('\n'));
}

#[test]
fn errors_name_their_kind() {
    let error = Error::new(Kind::Timeout, "operation deadline expired");
    assert_eq!(error.message(), "SSH Timeout: operation deadline expired");
    assert_eq!(Error::protocol(true, "x").kind, Kind::Authentication);
    assert_eq!(Error::protocol(false, "x").kind, Kind::Transport);
    assert_eq!(Error::transport("x").kind, Kind::Transport);
}

#[test]
fn every_hop_is_dialled_through_the_one_before_it() {
    let mut options = options();
    options.jumps = vec![self::options()];
    options.jumps[0].host = "bastion".to_owned();
    let legs = route(&options).unwrap();
    assert_eq!(legs.len(), 2);
    options.port = 0;
    assert!(route(&options).is_err());
    assert!(remaining(10, 10).is_err());
    assert_eq!(remaining(15, 10).unwrap(), 5);
    assert!(check_exec("tmux -C").is_ok());
    assert!(check_exec("").is_err());
    assert!(check_exec("a\0b").is_err());
    assert!(check_exec(&"a".repeat(8193)).is_err());
    assert!(check_forward("bastion", 22).is_ok());
    assert!(check_forward("bastion", 0).is_err());
    assert!(check_forward("", 22).is_err());
}

#[test]
fn keys_are_looked_up_under_the_alias() {
    let mut options = options();
    assert_eq!(options.host_key_name(), "example.invalid");
    options.host_key_alias = Some("other".to_owned());
    assert_eq!(options.host_key_name(), "other");
}

#[test]
fn nothing_is_given_to_an_unverified_server() {
    for event in [Event::Username, Event::PublicKey, Event::Signature, Event::Authenticated] {
        let mut link = Link::new();
        assert_eq!(link.answer(event).unwrap_err().kind, Kind::Transport);
        assert!(!link.authenticated);
    }
    let mut link = Link::new();
    assert!(matches!(link.answer(Event::HostKey), Ok(Answer::CheckHostKey)));
    link.host_key_checked(Ok("SHA256:key".to_owned())).unwrap();
    assert!(matches!(link.answer(Event::Username), Ok(Answer::GiveUser)));
    assert!(matches!(link.answer(Event::PublicKey), Ok(Answer::OfferKey)));
    assert!(link.answer(Event::Signature).is_err());
    link.keys_loaded();
    assert!(matches!(link.answer(Event::Signature), Ok(Answer::Sign)));
    match link.answer(Event::Password) {
        Ok(Answer::RefusePassword(error)) => assert_eq!(error.kind, Kind::Authentication),
        other => panic!("{other:?}"),
    }
    assert!(!link.settled(Goal::Authentication, false, false).unwrap());
    assert!(matches!(link.answer(Event::Authenticated), Ok(Answer::Nothing)));
    assert!(link.authenticated);
}

#[test]
fn a_refused_host_key_is_handed_back_and_not_accepted() {
    let refuse = || Err(Error::new(Kind::ChangedHostKey, "changed"));
    let mut link = Link::new();
    let error = link.host_key_checked(refuse()).unwrap_err();
    assert_eq!((error.kind, error.detail.as_str()), (Kind::ChangedHostKey, "changed"));
    assert!(!link.closed && !link.verified);
    assert!(link.answer(Event::Username).is_err());
    let mut link = Link::new();
    assert_eq!(link.host_key_checked(Ok("SHA256:key".to_owned())).unwrap(), "SHA256:key");
    assert!(link.verified && !link.closed);
    assert!(link.host_key_checked(refuse()).is_err());
    assert!(link.verified && !link.closed);
    link.abort();
    assert!(link.closed);
    assert!(link.settled(Goal::Authentication, false, false).is_err());
    assert!(matches!(Turn::begin(link.closed).1, Work::Done(false)));
}

#[test]
fn a_command_is_executed_once_and_on_its_channel() {
    let mut link = Link::new();
    link.host_key_checked(Ok("SHA256:key".to_owned())).unwrap();
    link.open_exec(3, "tmux -C");
    assert!(link.answer(Event::Opened(4)).is_err());
    match link.answer(Event::Opened(3)) {
        Ok(Answer::Execute(command)) => assert_eq!(command, "tmux -C"),
        other => panic!("{other:?}"),
    }
    assert!(link.started);
    assert!(link.answer(Event::Opened(3)).is_err());
    assert!(link.check_channel(3).is_ok());
    assert!(link.check_channel(4).is_err());
    assert!(link.answer(Event::Server).is_err());
    link.answer(Event::Defunct).unwrap();
    assert!(link.closed);
    assert!(link.settled(Goal::Forward, false, false).is_err());
    let mut refused = Link::new();
    refused.open_forward(1);
    assert!(refused.settled(Goal::Forward, false, true).is_err());
}

#[test]
fn running_out_of_keys_fails_only_without_an_offer() {
    let mut offers = Offers::new(2);
    assert!(matches!(offers.next(), Offer::Key(0)));
    assert!(matches!(offers.next(), Offer::Key(1)));
    assert!(matches!(offers.next(), Offer::Skip));
    assert!(matches!(Offers::new(0).next(), Offer::SkipAndFail(_)));
}

#[test]
fn turns_are_bounded() {
    assert_eq!(Turn::begin(true).1, Work::Done(false));
    let (mut turn, mut work) = Turn::begin(false);
    let mut pieces = 0;
    while !matches!(work, Work::Done(_)) {
        work = turn.report(false, true, false);
        pieces += 1;
    }
    assert_eq!(work, Work::Done(true));
    assert_eq!(pieces, 5 * DRIVE_BUDGET);
    let (mut idle, _) = Turn::begin(false);
    let mut last = Work::Drain;
    for _ in 0..5 {
        last = idle.report(false, false, false);
    }
    assert_eq!(last, Work::Done(false));
    let (mut waiting, _) = Turn::begin(false);
    assert_eq!(waiting.report(false, true, true), Work::Done(true));
}

#[test]
fn reads_and_writes_are_judged() {
    assert_eq!(written(Io::Count(0)).unwrap_err().kind, Kind::Transport);
    assert!(written(Io::Count(3)).unwrap());
    assert!(!written(Io::WouldBlock).unwrap());
    assert!(written(Io::Failed("gone".to_owned())).is_err());
    assert!(woken(Io::Count(0), true).unwrap());
    assert!(!woken(Io::Count(0), false).unwrap());
    let mut inbox = Inbox::new();
    assert_eq!(inbox.receive(Io::Count(0), &[]).unwrap(), Received::End);
    assert_eq!(
        inbox.receive(Io::Count(3), b"abcd").unwrap(),
        Received::Bytes
    );
    assert_eq!(inbox.rest(), b"abc");
    assert!(inbox.taken(2));
    assert_eq!(inbox.rest(), b"c");
    assert!(!inbox.is_empty());
    assert!(inbox.taken(1));
    assert!(inbox.is_empty());
    assert!(channel_ended(false, false, false, true));
    assert!(!channel_ended(false, false, false, false));
}

#[test]
fn the_streams_of_a_channel_stay_apart() {
    let mut queues = Queues::new();
    assert!(queues.put(Stream::Normal, b"out"));
    assert!(queues.put(Stream::Stderr, b"err"));
    assert!(!queues.is_empty());
    match queues.read(Stream::Stderr, 2, false) {
        Read::Bytes(bytes) => assert_eq!(bytes, b"er"),
        Read::WouldBlock => panic!("bytes were there"),
    }
    match queues.read(Stream::Normal, 10, false) {
        Read::Bytes(bytes) => assert_eq!(bytes, b"out"),
        Read::WouldBlock => panic!("bytes were there"),
    }
    assert!(matches!(
        queues.read(Stream::Normal, 10, false),
        Read::WouldBlock
    ));
    match queues.read(Stream::Normal, 10, true) {
        Read::Bytes(bytes) => assert!(bytes.is_empty()),
        Read::WouldBlock => panic!("the channel has ended"),
    }
    assert_eq!(queues.room(Stream::Normal, 100), 100);
}

fn private_key(seed: u8) -> ssh_key::PrivateKey {
    ssh_key::PrivateKey::from(ssh_key::private::Ed25519Keypair::from_seed(&[seed; 32]))
}

fn key_file(key: &ssh_key::PrivateKey) -> Vec<u8> {
    key.to_openssh(ssh_key::LineEnding::LF)
        .unwrap()
        .as_bytes()
        .to_vec()
}

#[test]
fn a_key_file_gives_its_public_key_and_signs_with_it() {
    let key = private_key(7);
    let file = key_file(&key);
    let wire = load_identity(&file).unwrap();
    assert_eq!(wire, key.public_key().to_bytes().unwrap());
    let made = sign(&file, PublicKind::Ed25519, &wire, b"message").unwrap();
    assert_eq!(made.len(), 64);
    let signature =
        ssh_key::Signature::new(ssh_key::Algorithm::Ed25519, made.clone()).unwrap();
    let verified = signature::Verifier::verify(key.public_key(), b"message", &signature);
    assert!(verified.is_ok());
    let other = signature::Verifier::verify(key.public_key(), b"massage", &signature);
    assert!(other.is_err());
}

const RSA_N: &str = "\
    c232cd6e25636838a76cc30becf54373ac4deab1a63ddf8eb27c82a4a228b63cb94880c95718232a\
    c9d8610ea9b793e316c1b7c16baea565e5cdf80dabc457cfeddbc8e3c4b174f8689ded83f6a63fe9\
    194fe7ce8b0e3df89f75e02df0621b7784a016e2d08c32537a637bfb8c3ff3cbc83b358bbb597528\
    d319574575e7a75cca37b653fc4888ac460f673ed472a6c6dd3ac13d87dbefae2ca55da95c8ccd42\
    1c6fb910df79dda447e919ab64ddcedd4af139088d94a65cb3abb32d06a0d58594eb28082820aebd\
    e79715ec93953d700d68aea45115278ac7071159eb875cf393a5feb77310d1293531f1bee356332c\
    dc237af2168178177d9d0f69722bae93";
const RSA_D: &str = "\
    2536f51529870e3ee51ebb95fa77d9d03df1c48afcaf98bad0cb7981b12d9a16b2ef08f70c80aca4\
    937faac1d3964179e02f8956409b7c48b5ac2ddff8cdac824533bc20a1dddbeb8aa8d10e5be2ea16\
    726a54a2c915169d2179c657275cb5a4c6bea3041e30efa7fda938e630af44ba058a0b2dd6de42cc\
    6affcd309b72a428973c55647b559d334082f248ba282547b1804b94c0667985e55d7a77576b5f01\
    22ae2e3180a80375a0bcf773bf00cafd3203796fb5fc2864240bc38e335fffcb7938932ce1020c03\
    0f13117d07461ac6065c97b805a4a35fcad22ec6e18507d81f58900b8522d97a9031a9432dfcebbe\
    d380d2ab0a6b3839977d0774308da811";
const RSA_IQMP: &str = "\
    a2f873d65e2fcb5af9fad262504d014b8055c7cfdde15ccf5e57fdfd08c50f467af371931fcdd78c\
    7946d90c8b38970f6f604df2fad81aa8818ae8d5ee9c3e703121fd6becbb368c1bd81b597edadcfc\
    8078e1f08b9fc1bb3063ccd43a038abd8e8274a3d9a3751ce23924b9b777262b008f3bf2431ea100\
    e44f4b5e6517dd94";
const RSA_P: &str = "\
    cd4d446a86afde85a01ccca7a608c53ec71dc98d5e03cd4ed3ca4b092ae974fa389b0d7778d05161\
    1fe2437cf41cd29d5eacef32b2e947d499cd1b5742fceef50c0f4b067473bb29e123f23826ac1dcf\
    9e37aed776651f3019782a7412cc6402aa4ec23314d6375b7f8f45a3f405565175c368e8089d0280\
    a86c7035c601c919";
const RSA_Q: &str = "\
    f2279a9a0cb844dddd14ef309f1907ac45a5fc55ae2165299e21f35c56ae679426f2b7f550890dc4\
    91a9ec67d4f84e9eee8404f46bd86e1e810ddf094bbd1ca74d8fb8c680ebe56e01f675f38f12375f\
    051f3910edc0de89cd2219fa72d5671cc0cdc7d174b466db262b7565fb9af15e4775d1048c82de77\
    b66b0b01dab92e8b";
const ECDSA_X: &str =
    "1e18532fd4754c02f3041d9c75ceb33b83ffd81ac7ce4fe882ccb1c98bc5896e";
const ECDSA_Y: &str =
    "a46c311c4e2ff40dd96a3653e6e45445d32dfe486eced75c7a90c6a18881c0a3";

fn bytes_of_hex(text: &str) -> Vec<u8> {
    (0..text.len() / 2)
        .map(|i| u8::from_str_radix(&text[2 * i..2 * i + 2], 16).unwrap())
        .collect()
}

fn rsa_key() -> ssh_key::PrivateKey {
    let number = |text: &str| ssh_key::Mpint::from_positive_bytes(&bytes_of_hex(text));
    let public = ssh_key::public::RsaPublicKey::new(number("010001"), number(RSA_N)).unwrap();
    let private = ssh_key::private::RsaPrivateKey::new(
        number(RSA_D),
        number(RSA_IQMP),
        number(RSA_P),
        number(RSA_Q),
    )
    .unwrap();
    ssh_key::PrivateKey::from(ssh_key::private::RsaKeypair::new(public, private).unwrap())
}

fn ecdsa_key() -> ssh_key::PrivateKey {
    let mut point = vec![4];
    point.extend(bytes_of_hex(ECDSA_X));
    point.extend(bytes_of_hex(ECDSA_Y));
    match ssh_key::public::EcdsaPublicKey::from_sec1_bytes(&point).unwrap() {
        ssh_key::public::EcdsaPublicKey::NistP256(public) => {
            ssh_key::PrivateKey::from(ssh_key::private::EcdsaKeypair::NistP256 {
                public,
                private: [7; 32].into(),
            })
        }
        _ => unreachable!(),
    }
}

#[test]
fn an_rsa_key_file_signs_with_sha_256() {
    let key = rsa_key();
    let file = key_file(&key);
    let wire = load_identity(&file).unwrap();
    assert_eq!(wire, key.public_key().to_bytes().unwrap());
    let made = sign(&file, PublicKind::Rsa, &wire, b"message").unwrap();
    assert_eq!(made.len(), 256);
    assert_eq!(sign(&file, PublicKind::Rsa, &wire, b"message").unwrap(), made);
    let algorithm = ssh_key::Algorithm::Rsa {
        hash: Some(ssh_key::HashAlg::Sha256),
    };
    let signature = ssh_key::Signature::new(algorithm, made).unwrap();
    assert!(signature::Verifier::verify(key.public_key(), b"message", &signature).is_ok());
    assert!(signature::Verifier::verify(key.public_key(), b"massage", &signature).is_err());
    assert_eq!(
        sign(&file, PublicKind::Ed25519, &wire, b"message").unwrap_err().detail,
        "unexpected signature algorithm"
    );
}

#[test]
fn an_ecdsa_key_file_signs() {
    let key = ecdsa_key();
    let file = key_file(&key);
    let wire = load_identity(&file).unwrap();
    assert_eq!(wire, key.public_key().to_bytes().unwrap());
    let made = sign(&file, PublicKind::Ecdsa256, &wire, b"message").unwrap();
    assert_eq!(sign(&file, PublicKind::Ecdsa256, &wire, b"message").unwrap(), made);
    let algorithm = ssh_key::Algorithm::Ecdsa {
        curve: ssh_key::EcdsaCurve::NistP256,
    };
    let signature = ssh_key::Signature::new(algorithm, made).unwrap();
    assert!(signature::Verifier::verify(key.public_key(), b"message", &signature).is_ok());
    assert!(signature::Verifier::verify(key.public_key(), b"massage", &signature).is_err());
    assert_eq!(
        sign(&file, PublicKind::Rsa, &wire, b"message").unwrap_err().detail,
        "unexpected signature algorithm"
    );
}

#[test]
fn a_key_file_signs_for_no_other_key() {
    let file = key_file(&private_key(7));
    let other = private_key(8).public_key().to_bytes().unwrap();
    let error = sign(&file, PublicKind::Ed25519, &other, b"message").unwrap_err();
    assert_eq!(error.kind, Kind::Authentication);
    assert_eq!(error.detail, "identity mismatch");
    let own = private_key(7).public_key().to_bytes().unwrap();
    let wrong = sign(&file, PublicKind::Ecdsa256, &own, b"message").unwrap_err();
    assert_eq!(wrong.detail, "unexpected signature algorithm");
}

#[test]
fn unusable_key_files_are_refused() {
    assert_eq!(
        load_identity(b"not a key").unwrap_err().detail,
        "unsupported OpenSSH private key"
    );
    let locked = private_key(7)
        .encrypt_with(
            ssh_key::Cipher::Aes256Ctr,
            ssh_key::Kdf::Bcrypt {
                salt: vec![1; 16],
                rounds: 1,
            },
            5,
            "words",
        )
        .unwrap();
    assert_eq!(
        load_identity(&key_file(&locked)).unwrap_err().detail,
        "load encrypted keys into your SSH agent first"
    );
    assert_eq!(
        load_identity(&vec![b'x'; MAX_IDENTITY_BYTES + 1])
            .unwrap_err()
            .detail,
        "identity file exceeds 1 MiB"
    );
}

#[test]
fn what_the_key_library_says_is_checked() {
    assert!(check_file(10, Some(false)).is_ok());
    assert!(check_file(10, Some(true)).is_err());
    assert!(check_file(10, None).is_err());
    assert!(check_file(MAX_IDENTITY_BYTES + 1, Some(false)).is_err());
    let form = || Ok((PublicKind::Ed25519, 51));
    assert!(check_public(51, form(), Ok(())).is_ok());
    assert_eq!(
        check_public(52, form(), Ok(())).unwrap_err().detail,
        "trailing public-key data"
    );
    assert_eq!(
        check_public(51, form(), Err("no".to_owned()))
            .unwrap_err()
            .detail,
        "no"
    );
    assert!(check_public(51, Err("bad".to_owned()), Ok(())).is_err());
    assert_eq!(
        check_request(PublicKind::Rsa, 10, 10).unwrap(),
        "rsa-sha2-256"
    );
    assert_eq!(
        check_request(PublicKind::Ecdsa256, 10, 10).unwrap(),
        "ecdsa-sha2-nistp256"
    );
    assert!(check_request(PublicKind::Unknown, 10, 10).is_err());
    assert!(check_request(PublicKind::Rsa, MAX_KEY_BYTES + 1, 10).is_err());
    assert!(check_request(PublicKind::Rsa, 10, MAX_MESSAGE_BYTES + 1).is_err());
    let made = || Ok(("ssh-ed25519".to_owned(), vec![1, 2]));
    assert_eq!(accept_signature("ssh-ed25519", made()).unwrap(), [1, 2]);
    assert!(accept_signature("rsa-sha2-256", made()).is_err());
    assert!(accept_signature("ssh-ed25519", Err("failed".to_owned())).is_err());
}

#[test]
fn remote_names_reject_path_separators_and_controls() {
    assert_eq!(remote_file_name("/tmp/notes.txt").unwrap(), "notes.txt");
    assert_eq!(remote_file_name("notes.txt").unwrap(), "notes.txt");
    assert!(remote_file_name(".").is_err());
    assert!(remote_file_name("..").is_err());
    assert!(remote_file_name("").is_err());
}

#[test]
fn remote_join_does_not_double_a_trailing_slash() {
    assert_eq!(join_remote("/home/alice", "f"), "/home/alice/f");
    assert_eq!(join_remote("/home/alice/", "f"), "/home/alice/f");
    assert_eq!(join_remote("/tmp", "f"), "/tmp/f");
}

#[test]
fn unique_names_keep_the_original_and_stay_short() {
    let name = unique_remote_name("notes.txt", 1_700_000_000_000_000, 0).unwrap();
    assert_eq!(name, "starcom-1700000000000000-0-notes.txt");
    let long = unique_remote_name(&"a".repeat(MAX_NAME), 0, 0).unwrap();
    assert!(long.len() <= MAX_NAME);
    assert!(long.starts_with("starcom-0-0-"));
    assert!(long.ends_with('a'));
}

fn local(path: &str, length: u64) -> Local {
    Local {
        path: path.to_owned(),
        directory: false,
        length,
    }
}

#[test]
fn uploads_are_planned_within_bounds() {
    assert_eq!(plan(&Vec::new(), 1).unwrap_err().fault, CopyFault::NoFiles);
    let many = (0..MAX_FILES + 1).map(|_| local("/tmp/a", 1)).collect();
    assert_eq!(plan(&many, 1).unwrap_err().fault, CopyFault::TooManyFiles);
    let large = vec![local("/tmp/a", MAX_FILE_BYTES + 1)];
    assert_eq!(plan(&large, 1).unwrap_err().fault, CopyFault::TooLarge);
    let directory = vec![Local {
        path: "/tmp/a".to_owned(),
        directory: true,
        length: 0,
    }];
    assert_eq!(plan(&directory, 1).unwrap_err().fault, CopyFault::Directory);
    for (error, text) in [
        (plan(&large, 1), "a is larger than 32 MiB"),
        (plan(&directory, 1), "a is a directory; drop files only"),
        (
            plan(&vec![local("/tmp/a\tb", 1)], 1),
            "/tmp/a\tb: file name \"a\\tb\" cannot be uploaded",
        ),
        (
            plan(&vec![local("/tmp/..", 1)], 1),
            "/tmp/..: file name is missing or not UTF-8",
        ),
    ] {
        assert_eq!(error.unwrap_err().message(), text);
    }
    let uploads = plan(&vec![local("/tmp/a", 1), local("/tmp/a", 2)], 9).unwrap();
    assert_eq!(uploads[0].remote_name, "starcom-9-0-a");
    assert_eq!(uploads[1].remote_name, "starcom-9-1-a");
    assert_eq!(destination("/tmp", &uploads[0]).unwrap(), "/tmp/starcom-9-0-a");
    assert!(check_directory("/tmp").is_ok());
    assert!(check_directory("").is_err());
}

#[test]
fn an_upload_confirms_each_piece() {
    let mut session = Session::new();
    assert!(matches!(session.event(Reply::Version), Ok(Next::AskPath)));
    assert!(matches!(session.event(Reply::NameStart(1)), Ok(Next::Wait)));
    assert!(matches!(
        session.event(Reply::Name(b"/tmp".to_vec())),
        Ok(Next::Wait)
    ));
    match session.event(Reply::NameEnd) {
        Ok(Next::Directory(path)) => assert_eq!(path, "/tmp"),
        other => panic!("{other:?}"),
    }
    assert_eq!(
        Session::new().event(Reply::Status(0)).unwrap_err().fault,
        CopyFault::Handshake(Got::Status(0))
    );

    let mut put = Put::new("/tmp/f");
    assert!(put.event(Reply::Handle(vec![9])).is_ok());
    match put.piece(100) {
        Next::Write { handle, offset } => assert_eq!((handle, offset), (vec![9], 0)),
        other => panic!("{other:?}"),
    }
    put.event(Reply::Status(0)).unwrap();
    assert_eq!(put.offset, 100);
    put.piece(50);
    assert_eq!(
        put.event(Reply::Status(4)).unwrap_err().fault,
        CopyFault::WriteRefused(4)
    );
    put.event(Reply::Status(0)).unwrap();
    assert!(matches!(put.piece(0), Next::Close(_)));
    assert!(matches!(put.event(Reply::Status(0)), Ok(Next::Done)));
    assert_eq!(
        Put::new("x").event(Reply::Status(3)).unwrap_err().fault,
        CopyFault::OpenRefused(3)
    );
    assert_eq!(
        Put::new("/tmp/x").event(Reply::Status(3)).unwrap_err().message(),
        "SFTP open /tmp/x: 3"
    );
    assert_eq!(
        Put::new("/tmp/x").event(Reply::NameEnd).unwrap_err().message(),
        "SFTP open /tmp/x: unexpected name-end"
    );
}

#[test]
fn transfers_notice_an_ended_stream() {
    assert_eq!(wrote(Io::Count(5), false).unwrap(), Some(5));
    assert_eq!(wrote(Io::WouldBlock, true).unwrap(), None);
    assert_eq!(wrote(Io::Count(0), false).unwrap_err().fault, CopyFault::Closed);
    assert_eq!(received(Io::Count(0)).unwrap_err().fault, CopyFault::Ended);
    let failed = || Io::Failed("broken pipe".to_owned());
    for (error, text) in [
        (wrote(failed(), false), "write SFTP request: broken pipe"),
        (wrote(failed(), true), "write SFTP payload: broken pipe"),
        (received(failed()), "read SFTP: broken pipe"),
    ] {
        assert_eq!(error.unwrap_err().message(), text);
    }
    assert!(fed_leftover(0).is_err());
    assert!(fed_leftover(1).is_ok());
    assert!(check_payload(4, 4).is_ok());
    assert!(check_payload(4, 3).is_err());
}

fn known(names: &[&str], key: &[u8]) -> Entry {
    Entry {
        marked: false,
        names: names.iter().map(|name| (*name).to_owned()).collect(),
        hashed: None,
        key: key.to_vec(),
    }
}

#[test]
fn only_known_keys_are_trusted_and_ports_are_kept_apart() {
    let entries = vec![
        known(&["example.test", "10.0.0.2"], b"first"),
        known(&["[example.test]:2222"], b"second"),
    ];
    assert!(verify(&entries, "example.test", 22, b"first").is_ok());
    assert!(verify(&entries, "10.0.0.2", 22, b"first").is_ok());
    assert!(verify(&entries, "example.test", 2222, b"second").is_ok());
    let changed = verify(&entries, "example.test", 22, b"second").unwrap_err();
    assert_eq!(changed.kind, Kind::ChangedHostKey);
    let unknown = verify(&entries, "example.test", 2200, b"first").unwrap_err();
    assert_eq!(unknown.kind, Kind::UnknownHostKey);
    assert_eq!(
        unknown.message(),
        "SSH UnknownHostKey: the host key is not in the known hosts"
    );
}

#[test]
fn known_hosts_that_cannot_be_followed_are_refused_as_a_whole() {
    for name in ["*.example.test", "host?", "!other"] {
        let entries = vec![known(&["example.test"], b"key"), known(&[name], b"other")];
        let error = verify(&entries, "example.test", 22, b"key").unwrap_err();
        assert_eq!(error.kind, Kind::Configuration);
    }
    let mut revoked = known(&["other.test"], b"key");
    revoked.marked = true;
    let entries = vec![known(&["example.test"], b"key"), revoked];
    assert!(verify(&entries, "example.test", 22, b"key").is_err());
}

#[test]
fn known_hosts_are_read_from_their_text() {
    let (own, other) = (private_key(7), private_key(8));
    let wire = |key: &ssh_key::PrivateKey| key.public_key().to_bytes().unwrap();
    let line = |key: &ssh_key::PrivateKey| key.public_key().to_openssh().unwrap();
    let text = format!(
        "# comment\nexample.test,10.0.0.2 {0}\n\n|1|MDEyMzQ1Njc4OWFiY2RlZmdoaWo=|EJxKUNHa+T8oIDAuv4fMKhmK27c= {0}\n|1|MDEyMzQ1Njc4OWFiY2RlZmdoaWo=|A+eEx7ey3xBSMZ6gSRO5DrH3C4w= {1}\n",
        line(&own),
        line(&other)
    );
    let store = KnownHosts::from_text(&text).unwrap();
    assert_eq!(store.entries.len(), 3);
    let print = store.verify("example.test", 22, &wire(&own)).unwrap();
    assert_eq!(
        print,
        own.public_key().fingerprint(ssh_key::HashAlg::Sha256).to_string()
    );
    assert!(print.starts_with("SHA256:"));
    assert_eq!(store.verify("10.0.0.2", 22, &wire(&own)).unwrap(), print);
    // Hashed names, of which one is that of another port.
    assert_eq!(store.verify("hidden.test", 22, &wire(&own)).unwrap(), print);
    assert!(store.verify("hidden.test", 2222, &wire(&other)).is_ok());
    let changed = store.verify("hidden.test", 22, &wire(&other)).unwrap_err();
    assert_eq!(changed.kind, Kind::ChangedHostKey);
    let unknown = store.verify("hidden.test", 2200, &wire(&own)).unwrap_err();
    assert_eq!(unknown.kind, Kind::UnknownHostKey);
    let marked = KnownHosts::from_text(&format!("@revoked example.test {}", line(&own))).unwrap();
    assert!(marked.entries[0].marked);
    assert_eq!(
        marked.verify("example.test", 22, &wire(&own)).unwrap_err().kind,
        Kind::Configuration
    );
    assert_eq!(
        KnownHosts::from_text("example.test nonsense").unwrap_err().kind,
        Kind::Configuration
    );
}

#[test]
fn what_is_made_of_known_hosts_and_fingerprints() {
    let mut entry = known(&["a"], b"key");
    assert!(is_about(&entry, "a", &None));
    assert!(!is_about(&entry, "b", &Some(vec![1])));
    entry.hashed = Some((vec![9], vec![1]));
    assert!(is_about(&entry, "b", &Some(vec![1])));
    assert!(!is_about(&entry, "b", &Some(vec![2])));
    assert!(!is_about(&entry, "b", &None));
    assert_eq!(accept_lines(Ok(vec![entry])).unwrap().entries.len(), 1);
    let error = accept_lines(Err("bad".to_owned())).unwrap_err();
    assert_eq!((error.kind, error.detail.as_str()), (Kind::Configuration, "bad"));
    assert_eq!(accept_key(Ok(()), Ok("SHA256:x".to_owned())).unwrap(), "SHA256:x");
    assert_eq!(accept_key(Ok(()), Err("bad".to_owned())).unwrap_err().detail, "bad");
    let refused = Error::new(Kind::UnknownHostKey, "unknown");
    assert_eq!(
        accept_key(Err(refused), Ok("SHA256:x".to_owned())).unwrap_err().kind,
        Kind::UnknownHostKey
    );
}
