use sm::cli::{after_attach, after_start, c_args, decide, decide_rename, parse_args};
use sm::cli::{parse_detach_key, plan, resolve_command, session_row, set_action};
use sm::cli::{Action, Decision, Options, Parsed, Plan, Refusal, Started};
use sm::client::Outcome;
use sm::sockdir::SessionInfo;
use sm::sys::{collect_signals, read_step, Outgoing, ReadStep, WriteStep};
use sm::text::decimal;

#[test]
fn detach_key_ctrl_backslash() {
    assert_eq!(parse_detach_key("^\\").unwrap(), 0x1c);
}

#[test]
fn detach_key_ctrl_o() {
    assert_eq!(parse_detach_key("^o").unwrap(), 0x0f);
    assert_eq!(parse_detach_key("^O").unwrap(), 0x0f);
}

#[test]
fn detach_key_single_char() {
    assert_eq!(parse_detach_key("q").unwrap(), b'q');
}

#[test]
fn detach_key_decimal() {
    assert_eq!(parse_detach_key("28").unwrap(), 28);
}

#[test]
fn detach_key_invalid() {
    assert!(parse_detach_key("abc").is_err());
}

#[test]
fn detach_key_edges() {
    assert_eq!(parse_detach_key("^a"), Ok(1));
    assert_eq!(parse_detach_key("^?"), Ok(0x1f));
    assert_eq!(parse_detach_key("^é"), Ok(0x09));
    assert_eq!(parse_detach_key("^"), Ok(b'^'));
    assert_eq!(parse_detach_key("5"), Ok(b'5'));
    assert_eq!(parse_detach_key("+"), Ok(b'+'));
    assert_eq!(parse_detach_key("05"), Ok(5));
    assert_eq!(parse_detach_key("+5"), Ok(5));
    assert_eq!(parse_detach_key("255"), Ok(255));
    assert_eq!(parse_detach_key("00000028"), Ok(28));
    for bad in ["256", "", "é", "-1", "++1", "1 ", "^ab", "99999999999"] {
        assert_eq!(
            parse_detach_key(bad),
            Err(format!("invalid detach key: {}", bad))
        );
    }
}

#[test]
fn every_byte_from_ten_on_has_a_decimal_name() {
    for n in 10..=255u8 {
        assert_eq!(parse_detach_key(&decimal(n as u64)), Ok(n));
    }
}

fn args(words: &[&str]) -> Vec<String> {
    words.iter().map(|w| w.to_string()).collect()
}

fn options(words: &[&str]) -> Options {
    match parse_args(&args(words)) {
        Ok(Parsed::Run(options)) => options,
        other => panic!("unexpected {:?}", other),
    }
}

fn refused(words: &[&str]) -> String {
    parse_args(&args(words)).unwrap_err()
}

#[test]
fn no_arguments_list() {
    let o = options(&[]);
    assert_eq!(o.action, None);
    assert_eq!(o.detach_key, 0x01);
    assert_eq!(o.name, None);
    assert!(o.command.is_empty());
    assert!(!(o.list || o.force || o.readonly || o.lowpriority || o.passthrough || o.quiet));
    assert!(matches!(plan(&o), Plan::List));
}

#[test]
fn flags_are_read() {
    let o = options(&["-cfq", "-r", "-Lp", "work", "vim", "-l", "--", "x"]);
    assert_eq!(o.action, Some(Action::Create));
    assert!(o.force && o.quiet && o.readonly && o.lowpriority && o.passthrough);
    assert!(!o.list);
    assert_eq!(o.name.as_deref(), Some("work"));
    assert_eq!(o.command, args(&["vim", "-l", "--", "x"]));
}

#[test]
fn prefix_key_values() {
    assert_eq!(options(&["-e", "^b", "w"]).detach_key, 2);
    assert_eq!(options(&["-e^o", "w"]).detach_key, 0x0f);
    let o = options(&["-ce", "28", "w"]);
    assert_eq!((o.detach_key, o.action), (28, Some(Action::Create)));
    assert_eq!(refused(&["-e"]), "-e requires a key argument");
    assert_eq!(refused(&["-e", "abc", "w"]), "invalid detach key: abc");
    assert_eq!(refused(&["-eabc"]), "invalid detach key: abc");
}

#[test]
fn flags_may_follow_the_name() {
    let o = options(&["-c", "k", "-e", "^q", "bash"]);
    assert_eq!(o.action, Some(Action::Create));
    assert_eq!(o.detach_key, 0x11);
    assert_eq!(o.name.as_deref(), Some("k"));
    assert_eq!(o.command, args(&["bash"]));
    let o = options(&["work", "-q"]);
    assert!(o.quiet);
    assert!(o.command.is_empty());
}

#[test]
fn dashes_and_single_dash() {
    let o = options(&["-a", "--", "x", "-y"]);
    assert_eq!(o.name, None);
    assert_eq!(o.command, args(&["x", "-y"]));
    let o = options(&["-", "--", "-y"]);
    assert_eq!(o.name.as_deref(), Some("-"));
    assert_eq!(o.command, args(&["--", "-y"]));
}

#[test]
fn wrong_flags_are_refused() {
    assert_eq!(refused(&["-x"]), "unknown option -x");
    assert_eq!(refused(&["-qé"]), "unknown option -é");
    assert_eq!(refused(&["-ac"]), "only one of -a/-A/-c/-n may be given");
    assert_eq!(refused(&["-R", "-n"]), "only one of -a/-A/-c/-n may be given");
}

#[test]
fn version_comes_first() {
    assert!(matches!(parse_args(&args(&["-qv", "-x"])), Ok(Parsed::Version)));
    assert_eq!(refused(&["-x", "-v"]), "unknown option -x");
}

#[test]
fn one_action_is_noted() {
    let mut o = options(&[]);
    assert_eq!(set_action(&mut o, Action::Rename), Ok(()));
    assert_eq!(o.action, Some(Action::Rename));
    assert!(set_action(&mut o, Action::Attach).is_err());
    assert_eq!(o.action, Some(Action::Rename));
}

#[test]
fn plans() {
    assert!(matches!(plan(&options(&["-l", "work"])), Plan::List));
    assert!(matches!(plan(&options(&["-a"])), Plan::NeedName));
    match plan(&options(&["work"])) {
        Plan::Session { action, name } => {
            assert_eq!(action, Action::AttachOrCreate);
            assert_eq!(name, "work");
        }
        other => panic!("unexpected {:?}", other),
    }
    match plan(&options(&["-n", "build", "make"])) {
        Plan::Session { action, name } => {
            assert_eq!(action, Action::CreateNoAttach);
            assert_eq!(name, "build");
        }
        other => panic!("unexpected {:?}", other),
    }
    match plan(&options(&["-R", "work", "project"])) {
        Plan::Rename { from, to } => {
            assert_eq!(from, "work");
            assert_eq!(to, "project");
        }
        other => panic!("unexpected {:?}", other),
    }
    assert!(matches!(plan(&options(&["-R", "work"])), Plan::NeedNewName));
    assert!(matches!(plan(&options(&["-R", "a", "b", "c"])), Plan::NeedNewName));
    assert!(matches!(plan(&options(&["-R"])), Plan::NeedName));
}

#[test]
fn decisions() {
    let refuse = Decision::Refuse;
    for exists in [false, true] {
        for force in [false, true] {
            assert_eq!(decide(Action::Attach, true, exists, force), Decision::Attach);
            assert_eq!(
                decide(Action::Attach, false, exists, force),
                refuse(Refusal::NoSuchSession)
            );
            assert_eq!(decide(Action::AttachOrCreate, true, exists, force), Decision::Attach);
            assert_eq!(
                decide(Action::AttachOrCreate, false, exists, force),
                Decision::Create { clear: true, attach: true }
            );
            assert_eq!(
                decide(Action::Create, true, exists, force),
                refuse(Refusal::AlreadyExists)
            );
        }
    }
    assert_eq!(
        decide(Action::Create, false, false, false),
        Decision::Create { clear: false, attach: true }
    );
    assert_eq!(decide(Action::CreateNoAttach, false, true, false), refuse(Refusal::Stale));
    assert_eq!(
        decide(Action::CreateNoAttach, false, true, true),
        Decision::Create { clear: true, attach: false }
    );
}

#[test]
fn rename_decisions() {
    assert_eq!(decide_rename(true, false), Ok(()));
    assert_eq!(decide_rename(true, true), Err(Refusal::AlreadyExists));
    assert_eq!(decide_rename(false, true), Err(Refusal::NoSuchSession));
    assert_eq!(decide_rename(false, false), Err(Refusal::NoSuchSession));
}

#[test]
fn refusals_have_their_messages() {
    assert_eq!(Refusal::NoSuchSession.message("w"), "no such session: w");
    assert_eq!(Refusal::AlreadyExists.message("w"), "session already exists: w");
    assert_eq!(
        Refusal::Stale.message("w"),
        "stale session 'w' exists; use -f to replace it"
    );
}

#[test]
fn the_command_is_resolved() {
    let some = |s: &str| Some(s.to_string());
    assert_eq!(
        resolve_command(&args(&["make", "-j"]), some("x"), some("y")),
        args(&["make", "-j"])
    );
    assert_eq!(resolve_command(&args(&[]), some("x"), some("y")), args(&["x"]));
    assert_eq!(resolve_command(&args(&[]), some(""), some("y")), args(&["y"]));
    assert_eq!(resolve_command(&args(&[]), None, some("")), args(&["/bin/sh"]));
    assert_eq!(resolve_command(&args(&[]), None, None), args(&["/bin/sh"]));
}

#[test]
fn command_words_become_c_strings() {
    assert_eq!(
        c_args(&args(&["sh", "é"])),
        Some(vec![b"sh\0".to_vec(), b"\xc3\xa9\0".to_vec()])
    );
    assert_eq!(c_args(&args(&[])), None);
    assert_eq!(c_args(&args(&["sh", "a\0b"])), None);
}

#[test]
fn after_a_start() {
    match after_start("cannot bind".to_string(), true, true, "w") {
        Started::Failed(message) => assert_eq!(message, "cannot bind"),
        other => panic!("unexpected {:?}", other),
    }
    assert!(matches!(after_start(String::new(), true, false, "w"), Started::Attach));
    match after_start(String::new(), false, false, "w") {
        Started::Done(message) => assert_eq!(message.as_deref(), Some("session 'w' started")),
        other => panic!("unexpected {:?}", other),
    }
    assert!(matches!(after_start(String::new(), false, true, "w"), Started::Done(None)));
}

#[test]
fn after_an_attach() {
    assert_eq!(after_attach(Outcome::Detached, false), (0, Some("detached")));
    assert_eq!(after_attach(Outcome::Detached, true), (0, None));
    assert_eq!(after_attach(Outcome::Exited(3), false), (3, None));
    assert_eq!(
        after_attach(Outcome::ServerGone, true),
        (1, Some("session ended unexpectedly"))
    );
}

#[test]
fn rows_are_aligned() {
    let info = |name: &str, pid: Option<u32>| SessionInfo {
        name: name.to_string(),
        status: '*',
        mtime: None,
        pid,
    };
    let long = "a-session-name-of-more-than-twenty";
    for (name, pid) in [("work", Some(1234)), ("é", None), (long, Some(4294967295))] {
        let shown = pid.map(|p: u32| p.to_string()).unwrap_or("-".to_string());
        assert_eq!(
            session_row(&info(name, pid), "2024-01-02 03:04:05"),
            format!("{}  {:<20} {:>8}  {}", '*', name, shown, "2024-01-02 03:04:05")
        );
    }
    assert_eq!(
        session_row(&info("work", Some(1234)), ""),
        "*  work                     1234  "
    );
}

#[test]
fn reads_are_retried_after_a_signal() {
    assert_eq!(read_step(12, false), ReadStep::Got(12));
    assert_eq!(read_step(0, true), ReadStep::Got(0));
    assert_eq!(read_step(-1, true), ReadStep::Retry);
    assert_eq!(read_step(-1, false), ReadStep::Fail);
}

#[test]
fn writes_go_on_until_all_is_out() {
    let mut out = Outgoing::new(b"hello".to_vec());
    assert_eq!(out.rest(), b"hello");
    assert_eq!(out.on_write(2, false), WriteStep::Again);
    assert_eq!(out.on_write(-1, true), WriteStep::Again);
    assert_eq!(out.rest(), b"llo");
    assert_eq!(out.on_write(3, false), WriteStep::Done);
    assert_eq!(out.rest(), b"");
    assert_eq!(Outgoing::new(b"x".to_vec()).on_write(0, false), WriteStep::TookNothing);
    assert_eq!(Outgoing::new(b"x".to_vec()).on_write(-1, false), WriteStep::Fail);
}

#[test]
fn pending_signals_are_collected() {
    let mut sigs = vec![1];
    assert!(!collect_signals(&mut sigs, &[17, 255]));
    assert_eq!(sigs, vec![1, 17, 255]);
    assert!(collect_signals(&mut sigs, &[2; 64]));
    assert_eq!(sigs.len(), 67);
    assert!(!collect_signals(&mut sigs, &[]));
}

#[test]
fn numbers_are_written_in_decimal() {
    for n in [0, 7, 10, 99, 100, 4088, u64::MAX] {
        assert_eq!(decimal(n), n.to_string());
    }
}
