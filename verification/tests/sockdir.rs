use sm::path::{join, parent};
use sm::protocol::Packet;
use sm::sockdir::{cpath, is_valid_name, list_sessions, probe, resolve_socket_dir};
use sm::sockdir::{session_alive, socket_mode, socket_path, verify_owned_private};
use sm::sockdir::{DirAction, DirEnv, DirError, DirEvent, DirSearch, Entry, SocketPathError};
use std::time::{Duration, SystemTime};

fn env(socket_dir: &str, home: &str, tmpdir: &str, user: &str) -> DirEnv {
    let set = |s: &str| if s == "unset" { None } else { Some(s.to_string()) };
    DirEnv {
        socket_dir: set(socket_dir),
        home: set(home),
        tmpdir: set(tmpdir),
        user: set(user),
        uid: 1000,
    }
}

fn mkdir(search: &DirSearch) -> (String, u32) {
    match search.action() {
        DirAction::Mkdir { path, mode } => (String::from_utf8(path).unwrap(), mode),
        other => panic!("unexpected {:?}", other),
    }
}

fn stat(search: &DirSearch) -> String {
    match search.action() {
        DirAction::Stat { path } => String::from_utf8(path).unwrap(),
        other => panic!("unexpected {:?}", other),
    }
}

fn found(search: &DirSearch) -> String {
    match search.action() {
        DirAction::Found(path) => String::from_utf8(path).unwrap(),
        other => panic!("unexpected {:?}", other),
    }
}

const GOOD: DirEvent = DirEvent::Status { owner: 1000, mode: 0o040700 };

#[test]
fn the_preferred_directory_is_tried_first() {
    let mut s = resolve_socket_dir(&env("/s", "/home/u", "/t", "u"));
    assert_eq!(mkdir(&s), ("/s".to_string(), 0o700));
    s.on_event(DirEvent::Made);
    assert_eq!(stat(&s), "/s");
    s.on_event(GOOD);
    assert_eq!(found(&s), "/s");
    s.on_event(DirEvent::Failed(5));
    assert_eq!(found(&s), "/s");
}

#[test]
fn candidates_follow_one_another() {
    let mut s = resolve_socket_dir(&env("/s", "/home/u/", "/t", "u"));
    s.on_event(DirEvent::Failed(13));
    assert_eq!(mkdir(&s), ("/home/u/.session_manager".to_string(), 0o700));
    s.on_event(DirEvent::Exists);
    s.on_event(DirEvent::Status { owner: 0, mode: 0o700 });
    assert_eq!(mkdir(&s), ("/t/sm".to_string(), 0o1777));
    s.on_event(DirEvent::Made);
    assert_eq!(mkdir(&s), ("/t/sm/u".to_string(), 0o700));
    s.on_event(DirEvent::Made);
    assert_eq!(stat(&s), "/t/sm/u");
    s.on_event(DirEvent::Status { owner: 1000, mode: 0o750 });
    assert_eq!(mkdir(&s), ("/tmp/sm".to_string(), 0o1777));
    s.on_event(DirEvent::Exists);
    assert_eq!(mkdir(&s), ("/tmp/sm/u".to_string(), 0o700));
    s.on_event(DirEvent::Exists);
    s.on_event(GOOD);
    assert_eq!(found(&s), "/tmp/sm/u");
}

#[test]
fn empty_variables_count_as_unset() {
    let s = resolve_socket_dir(&env("", "unset", "", ""));
    assert_eq!(mkdir(&s), ("/tmp/sm".to_string(), 0o1777));
    let mut s = resolve_socket_dir(&env("unset", "", "unset", "unset"));
    s.on_event(DirEvent::Made);
    // Without a user name the uid stands in.
    assert_eq!(mkdir(&s), ("/tmp/sm/1000".to_string(), 0o700));
}

#[test]
fn absolute_user_replaces_the_base() {
    let mut s = resolve_socket_dir(&env("unset", "unset", "unset", "/abs"));
    s.on_event(DirEvent::Made);
    assert_eq!(mkdir(&s), ("/abs".to_string(), 0o700));
}

#[test]
fn the_last_error_is_reported() {
    let mut s = resolve_socket_dir(&env("/s", "unset", "unset", "u"));
    s.on_event(DirEvent::BadPath);
    s.on_event(DirEvent::Made);
    s.on_event(DirEvent::Failed(30));
    assert!(matches!(s.action(), DirAction::Failed(DirError::Os(30))));

    let mut s = resolve_socket_dir(&env("unset", "unset", "unset", "u"));
    s.on_event(DirEvent::BadPath);
    assert!(matches!(s.action(), DirAction::Failed(DirError::NulInPath)));
}

#[test]
fn events_that_answer_nothing_change_nothing() {
    let mut s = resolve_socket_dir(&env("/s", "unset", "unset", "u"));
    s.on_event(GOOD);
    assert_eq!(mkdir(&s), ("/s".to_string(), 0o700));
    s.on_event(DirEvent::Made);
    s.on_event(DirEvent::Made);
    assert_eq!(stat(&s), "/s");
}

#[test]
fn only_private_directories_of_ours_are_trusted() {
    assert!(verify_owned_private(b"/d", 5, 0o040700, 5).is_ok());
    match verify_owned_private(b"/d", 6, 0o040777, 5) {
        Err(DirError::NotOwned(dir)) => assert_eq!(dir, b"/d".to_vec()),
        other => panic!("unexpected {:?}", other),
    }
    for mode in [0o701, 0o710, 0o740, 0o704, 0o777] {
        match verify_owned_private(b"/d", 5, mode, 5) {
            Err(DirError::Accessible(dir)) => assert_eq!(dir, b"/d".to_vec()),
            other => panic!("unexpected {:?}", other),
        }
    }
}

#[test]
fn only_directories_are_trusted() {
    for mode in [0o100600, 0o100700, 0o140700, 0o120700, 0o060700, 0o700] {
        match verify_owned_private(b"/d", 5, mode, 5) {
            Err(DirError::NotDirectory(dir)) => assert_eq!(dir, b"/d".to_vec()),
            other => panic!("unexpected {:?}", other),
        }
    }
    // A file in the way of the first candidate: the next one is found.
    let mut s = resolve_socket_dir(&env("/s", "/h", "unset", "u"));
    s.on_event(DirEvent::Exists);
    s.on_event(DirEvent::Status { owner: 1000, mode: 0o100600 });
    assert_eq!(mkdir(&s), ("/h/.session_manager".to_string(), 0o700));
    s.on_event(DirEvent::Made);
    s.on_event(GOOD);
    assert_eq!(found(&s), "/h/.session_manager");
}

#[test]
fn the_error_of_the_last_candidate_counts() {
    let mut s = resolve_socket_dir(&env("/s", "unset", "unset", "u"));
    s.on_event(DirEvent::Failed(13));
    s.on_event(DirEvent::Exists);
    s.on_event(DirEvent::Exists);
    s.on_event(DirEvent::Status { owner: 1000, mode: 0o100600 });
    match s.action() {
        DirAction::Failed(DirError::NotDirectory(dir)) => assert_eq!(dir, b"/tmp/sm/u".to_vec()),
        other => panic!("unexpected {:?}", other),
    }
}

#[test]
fn directory_errors_have_their_messages() {
    assert_eq!(
        DirError::NotDirectory(b"/d".to_vec()).message("/d"),
        "/d is not a directory"
    );
    assert_eq!(DirError::Os(13).message("Permission denied"), "Permission denied");
    assert_eq!(
        DirError::NotOwned(b"/d".to_vec()).message("/d"),
        "/d is not owned by the current user"
    );
    assert_eq!(
        DirError::Accessible(b"/d".to_vec()).message("/d"),
        "/d is accessible by group/other"
    );
    assert_eq!(DirError::NulInPath.message("x"), "path contains NUL");
    assert_eq!(DirError::NoneUsable.message("x"), "no usable socket directory");
}

#[test]
fn c_paths_end_with_nul() {
    assert_eq!(cpath(b"/a").unwrap(), b"/a\0".to_vec());
    assert!(matches!(cpath(b"/a\0b"), Err(DirError::NulInPath)));
}

#[test]
fn socket_paths() {
    assert_eq!(socket_path(b"/run/sm", "work"), Ok(b"/run/sm/work".to_vec()));
    assert_eq!(socket_path(b"/run/sm/", "wörk"), Ok("/run/sm/wörk".as_bytes().to_vec()));
    assert_eq!(socket_path(b"/run/sm", ""), Err(SocketPathError::InvalidName));
    assert_eq!(socket_path(b"/run/sm", "a/b"), Err(SocketPathError::InvalidName));
    assert_eq!(socket_path(b"/run/sm", "a\0"), Err(SocketPathError::InvalidName));
    assert!(is_valid_name("."));
    assert_eq!(SocketPathError::InvalidName.message(), "invalid session name");
}

#[test]
fn socket_paths_are_bounded() {
    let name = "n".repeat(95);
    let fits = socket_path(b"/run/sm", &name).unwrap();
    assert_eq!(fits.len(), 103);
    let longer = "n".repeat(96);
    let err = socket_path(b"/run/sm", &longer).unwrap_err();
    assert_eq!(err, SocketPathError::TooLong(104));
    assert_eq!(
        err.message(),
        "socket path too long (104 > 103); set SM_SOCKET_DIR to a shorter path"
    );
}

#[test]
fn modes_mark_the_state() {
    assert_eq!(socket_mode(true), 0o700);
    assert_eq!(socket_mode(false), 0o600);
}

fn entry(name: &str, is_socket: bool, mode: u32, pid: Option<u32>) -> Entry {
    let mtime = Some(SystemTime::UNIX_EPOCH + Duration::from_secs(mode as u64));
    Entry { name: name.to_string(), is_socket, mode, mtime, pid }
}

#[test]
fn sessions_are_listed_by_name() {
    let list = list_sessions(vec![
        entry("work", true, 0o140700, Some(10)),
        entry("notes.txt", false, 0o100644, Some(11)),
        entry("build", true, 0o140600, Some(12)),
        entry("Zoo", true, 0o140700, None),
        entry("é", true, 0o140600, Some(13)),
        entry("work", true, 0o140600, None),
        entry("worker", true, 0o140600, None),
    ]);
    let seen: Vec<(&str, char, Option<u32>)> =
        list.iter().map(|s| (s.name.as_str(), s.status, s.pid)).collect();
    assert_eq!(
        seen,
        vec![
            ("Zoo", '?', None),
            ("build", '-', Some(12)),
            ("work", '*', Some(10)),
            ("work", '?', None),
            ("worker", '?', None),
            ("é", '-', Some(13)),
        ]
    );
    assert_eq!(
        list[1].mtime,
        Some(SystemTime::UNIX_EPOCH + Duration::from_secs(0o140600))
    );
    assert!(list_sessions(Vec::new()).is_empty());
}

#[test]
fn a_live_server_announces_its_pid() {
    let mut bytes = Packet::Pid(99).encode();
    assert_eq!(probe(bytes.clone()), Some(99));
    Packet::Content(b"x".to_vec()).write_to(&mut bytes);
    assert_eq!(probe(bytes.clone()), Some(99));
    assert!(session_alive(bytes));
    assert_eq!(probe(Vec::new()), None);
    assert!(!session_alive(Packet::Exit(0).encode()));
    assert!(!session_alive(vec![5, 0, 0, 0, 4, 0, 0, 0, 1]));
}

#[test]
fn joining_agrees_with_the_standard_library() {
    for dir in ["", "/", "a", "a/", "/a/b", "/a//"] {
        for name in ["", "x", "/x", "x/y", ".", "é"] {
            let expected = std::path::Path::new(dir).join(name);
            assert_eq!(
                join(dir.as_bytes(), name.as_bytes()),
                expected.to_str().unwrap().as_bytes().to_vec()
            );
        }
    }
}

#[test]
fn parents_agree_with_the_standard_library() {
    let paths = [
        "", "/", "//", ".", "..", "a", "a/", "/a", "/a/", "a/b", "/a/b", "/a//b", "a/.", "a/./", "./a",
        "/.", "/./a", "a/b/.", "a/..", "//a", "a/./b", "/a/b//./", "./.", "a//./.",
    ];
    for p in paths {
        let expected = std::path::Path::new(p)
            .parent()
            .map(|d| d.to_str().unwrap().as_bytes().to_vec());
        assert_eq!(parent(p.as_bytes()), expected, "parent of {:?}", p);
    }
}
