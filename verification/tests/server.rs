use sm::client::{attach_flags, ClientConfig};
use sm::protocol::{ByteReader, Packet};
use sm::pty::winsize_from;
use sm::server::{controlling_client, exit_status, on_signals, rename_socket};
use sm::server::{ChildEnd, Client, PtyRead, ReadResult, Server, Step, StopSignals, WriteResult};
use sm::server::{OUT_CAP, REPLAY_CAP};

fn server() -> Server {
    Server::new(b"/run/sm/work".to_vec())
}

/// Accepts a client and writes its first packet out.
fn join(s: &mut Server, id: i32) -> usize {
    let idx = s.client_count();
    assert!(s.accept(id, 77));
    let n = s.pending(idx).len();
    assert!(!s.on_write(idx, WriteResult::Wrote(n)));
    idx
}

fn receive(s: &mut Server, idx: usize, packet: &Packet) {
    assert!(s.on_read(idx, ReadResult::Data(packet.encode())));
}

fn act(s: &mut Server, idx: usize, packet: &Packet) -> Step {
    receive(s, idx, packet);
    let step = s.step(idx);
    assert!(matches!(s.step(idx), Step::Wait));
    step
}

fn packets_of(bytes: &[u8]) -> Vec<Packet> {
    let mut buf = bytes.to_vec();
    let mut packets = Vec::new();
    loop {
        match Packet::try_decode(&mut buf).unwrap() {
            Some(packet) => packets.push(packet),
            None => break,
        }
    }
    assert!(buf.is_empty());
    packets
}

#[test]
fn new_connection_is_told_the_pid() {
    let mut s = server();
    assert!(s.accept(9, 4321));
    assert_eq!(s.client_count(), 1);
    assert_eq!(s.pending(0), Packet::Pid(4321).encode().as_slice());
    assert_eq!(s.poll_set(), vec![(9, true)]);
    assert_eq!(sm::sockdir::probe(s.pending(0).to_vec()), Some(4321));
}

#[test]
fn output_reaches_clients_and_replay() {
    let mut s = server();
    let idx = join(&mut s, 3);
    let packet = s.on_pty(PtyRead::Data(b"hello".to_vec())).unwrap();
    assert_eq!(packet, Packet::Content(b"hello".to_vec()));
    assert!(s.send(idx, &packet));
    assert_eq!(s.pending(idx), packet.encode().as_slice());
    match act(&mut s, idx, &Packet::Attach { flags: 0 }) {
        Step::Replay(packets) => assert_eq!(packets, vec![packet]),
        other => panic!("unexpected {:?}", other),
    }
}

#[test]
fn pty_end_ends_the_session() {
    let mut s = server();
    assert_eq!(s.on_pty(PtyRead::Data(Vec::new())), None);
    assert_eq!(s.on_pty(PtyRead::Failed), None);
}

#[test]
fn replay_keeps_the_last_output_in_chunks() {
    let mut s = server();
    let idx = join(&mut s, 3);
    let mut all: Vec<u8> = Vec::new();
    for i in 0..20u32 {
        let part: Vec<u8> = (0..4088u32).map(|k| ((k * 7 + i * 13) % 251) as u8).collect();
        all.extend_from_slice(&part);
        assert!(s.on_pty(PtyRead::Data(part)).is_some());
    }
    match act(&mut s, idx, &Packet::Attach { flags: 0 }) {
        Step::Replay(packets) => {
            assert_eq!(packets.len(), 17);
            let mut bytes: Vec<u8> = Vec::new();
            for p in &packets {
                match p {
                    Packet::Content(chunk) => {
                        assert!(!chunk.is_empty() && chunk.len() <= 4088);
                        bytes.extend_from_slice(chunk);
                    }
                    other => panic!("unexpected {:?}", other),
                }
            }
            assert_eq!(bytes.len(), REPLAY_CAP);
            assert_eq!(bytes, all[all.len() - REPLAY_CAP..].to_vec());
        }
        other => panic!("unexpected {:?}", other),
    }
}

#[test]
fn nothing_to_replay_is_no_packet() {
    let mut s = server();
    let idx = join(&mut s, 3);
    match act(&mut s, idx, &Packet::Attach { flags: 0 }) {
        Step::Replay(packets) => assert!(packets.is_empty()),
        other => panic!("unexpected {:?}", other),
    }
}

#[test]
fn input_goes_to_the_pty_unless_readonly() {
    let mut s = server();
    let idx = join(&mut s, 3);
    match act(&mut s, idx, &Packet::Content(b"ls".to_vec())) {
        Step::WritePty(bytes) => assert_eq!(bytes, b"ls".to_vec()),
        other => panic!("unexpected {:?}", other),
    }
    act(&mut s, idx, &Packet::Attach { flags: 1 });
    let step = act(&mut s, idx, &Packet::Content(b"ls".to_vec()));
    assert!(matches!(step, Step::Ignore));
    let step = act(&mut s, idx, &Packet::Resize { rows: 1, cols: 1 });
    assert!(matches!(step, Step::Ignore));
}

#[test]
fn only_the_controlling_client_sets_the_size() {
    let mut s = server();
    let low = join(&mut s, 3);
    let first = join(&mut s, 4);
    let second = join(&mut s, 5);
    act(&mut s, low, &Packet::Attach { flags: 2 });
    let size = Packet::Resize { rows: 30, cols: 90 };
    assert!(matches!(act(&mut s, low, &size), Step::Ignore));
    assert!(matches!(act(&mut s, second, &size), Step::Ignore));
    match act(&mut s, first, &size) {
        Step::SetWinsize(ws) => assert_eq!(ws, winsize_from(30, 90)),
        other => panic!("unexpected {:?}", other),
    }
}

#[test]
fn the_first_controls_if_all_are_of_low_priority() {
    let mut s = server();
    let first = join(&mut s, 3);
    let second = join(&mut s, 4);
    act(&mut s, first, &Packet::Attach { flags: 2 });
    act(&mut s, second, &Packet::Attach { flags: 2 });
    let size = Packet::Resize { rows: 30, cols: 90 };
    assert!(matches!(act(&mut s, second, &size), Step::Ignore));
    assert!(matches!(act(&mut s, first, &size), Step::SetWinsize(_)));
    assert_eq!(controlling_client(&Vec::new()), 0);
    assert_eq!(controlling_client(&vec![Client::new(1), Client::new(2)]), 0);
}

#[test]
fn packets_are_taken_in_order_across_reads() {
    let mut s = server();
    let idx = join(&mut s, 3);
    let mut bytes = Packet::Content(b"a".to_vec()).encode();
    Packet::Pid(1).write_to(&mut bytes);
    Packet::Content(b"b".to_vec()).write_to(&mut bytes);
    assert!(s.on_read(idx, ReadResult::Data(bytes[..12].to_vec())));
    assert!(matches!(s.step(idx), Step::WritePty(_)));
    assert!(matches!(s.step(idx), Step::Wait));
    assert!(s.on_read(idx, ReadResult::Data(bytes[12..].to_vec())));
    let step = s.step(idx);
    assert!(matches!(step, Step::Ignore));
    assert!(step.goes_on());
    match s.step(idx) {
        Step::WritePty(b) => assert_eq!(b, b"b".to_vec()),
        other => panic!("unexpected {:?}", other),
    }
    let wait = s.step(idx);
    assert!(!wait.goes_on());
}

#[test]
fn detach_and_violations_drop_the_client() {
    let mut s = server();
    let leaver = join(&mut s, 3);
    let stayer = join(&mut s, 4);
    let broken = join(&mut s, 5);
    receive(&mut s, leaver, &Packet::Detach);
    let step = s.step(leaver);
    assert!(matches!(step, Step::Gone));
    assert!(!step.goes_on());
    assert!(s.on_read(broken, ReadResult::Data(vec![9, 0, 0, 0, 0, 0, 0, 0])));
    assert!(matches!(s.step(broken), Step::Gone));
    assert_eq!(stayer, 1);
    s.drop_dead();
    assert_eq!(s.poll_set(), vec![(4, false)]);
}

#[test]
fn reading_ends_at_hangup_block_or_error() {
    let mut s = server();
    join(&mut s, 3);
    join(&mut s, 4);
    join(&mut s, 5);
    assert!(s.on_read(0, ReadResult::Interrupted));
    assert!(!s.on_read(0, ReadResult::WouldBlock));
    assert!(!s.on_read(1, ReadResult::Data(Vec::new())));
    assert!(!s.on_read(2, ReadResult::Failed));
    s.drop_dead();
    assert_eq!(s.poll_set(), vec![(3, false)]);
}

#[test]
fn writing_goes_on_until_done_or_blocked() {
    let mut s = server();
    assert!(s.accept(3, 1));
    let whole = s.pending(0).to_vec();
    assert!(s.on_write(0, WriteResult::Interrupted));
    assert!(s.on_write(0, WriteResult::Wrote(5)));
    assert_eq!(s.pending(0), &whole[5..]);
    assert!(!s.on_write(0, WriteResult::WouldBlock));
    assert_eq!(s.pending(0), &whole[5..]);
    assert_eq!(s.poll_set(), vec![(3, true)]);
    assert!(!s.on_write(0, WriteResult::Wrote(7)));
    assert_eq!(s.poll_set(), vec![(3, false)]);
    s.drop_dead();
    assert_eq!(s.client_count(), 1);
}

#[test]
fn failed_writes_drop_the_client() {
    let mut s = server();
    s.accept(3, 1);
    s.accept(4, 1);
    assert!(!s.on_write(0, WriteResult::Wrote(0)));
    assert!(!s.on_write(1, WriteResult::Failed));
    assert!(!s.send(0, &Packet::Detach));
    s.drop_dead();
    assert_eq!(s.client_count(), 0);
}

#[test]
fn a_client_too_far_behind_is_dropped() {
    let mut s = server();
    let slow = join(&mut s, 3);
    let other = join(&mut s, 4);
    let packet = Packet::Content(vec![b'x'; 4088]);
    let mut sent = 0;
    while s.send(slow, &packet) {
        sent += 1;
    }
    assert_eq!(sent, OUT_CAP / 4096);
    assert!(s.send(other, &packet));
    s.drop_dead();
    assert_eq!(s.poll_set(), vec![(4, true)]);
}

#[test]
fn rename_moves_the_socket_within_its_directory() {
    assert_eq!(
        rename_socket(b"/run/sm/work", "project"),
        Some(b"/run/sm/project".to_vec())
    );
    assert_eq!(rename_socket(b"work", "project"), Some(b"project".to_vec()));
    assert_eq!(rename_socket(b"/run/sm/work", ""), None);
    assert_eq!(rename_socket(b"/run/sm/work", "a/b"), None);
    assert_eq!(rename_socket(b"/run/sm/work", "a\0b"), None);
    assert_eq!(rename_socket(b"/", "x"), None);
}

#[test]
fn rename_request_is_carried_out_and_dropped() {
    let mut s = server();
    let idx = join(&mut s, 3);
    receive(&mut s, idx, &Packet::Rename("project".to_string()));
    match s.step(idx) {
        Step::Rename(Some(to)) => {
            assert_eq!(to, b"/run/sm/project".to_vec());
            assert_eq!(s.socket_path(), b"/run/sm/work");
            s.renamed(to);
        }
        other => panic!("unexpected {:?}", other),
    }
    assert_eq!(s.socket_path(), b"/run/sm/project");
    s.drop_dead();
    assert_eq!(s.client_count(), 0);

    let idx = join(&mut s, 4);
    receive(&mut s, idx, &Packet::Rename("../x".to_string()));
    let step = s.step(idx);
    assert!(matches!(step, Step::Rename(None)));
    assert!(!step.goes_on());
}

#[test]
fn stop_signals_end_the_session() {
    let stop = StopSignals { child: 17, term: 15, int: 2 };
    assert!(!on_signals(&[], &stop));
    assert!(!on_signals(&[1, 28], &stop));
    assert!(on_signals(&[28, 17], &stop));
    assert!(on_signals(&[15], &stop));
    assert!(on_signals(&[2, 1], &stop));
}

#[test]
fn exit_status_of_the_command() {
    assert_eq!(exit_status(ChildEnd::Exited(3)), 3);
    assert_eq!(exit_status(ChildEnd::Signaled(9)), 137);
    assert_eq!(exit_status(ChildEnd::Unknown), 0);
}

#[test]
fn farewell_is_what_is_pending_and_the_status() {
    let mut s = server();
    s.accept(3, 55);
    let packet = s.on_pty(PtyRead::Data(b"bye".to_vec())).unwrap();
    s.send(0, &packet);
    let bytes = s.farewell(0, ChildEnd::Signaled(15));
    assert_eq!(
        packets_of(&bytes),
        vec![Packet::Pid(55), packet, Packet::Exit(143)]
    );
    let mut reader = ByteReader::new(bytes);
    assert_eq!(Packet::read_from(&mut reader), Ok(Packet::Pid(55)));
}

#[test]
fn socket_mode_tells_whether_anyone_is_attached() {
    let mut s = server();
    assert_eq!(s.socket_mode(), 0o600);
    let idx = join(&mut s, 3);
    assert_eq!(s.socket_mode(), 0o700);
    receive(&mut s, idx, &Packet::Detach);
    s.step(idx);
    s.drop_dead();
    assert_eq!(s.socket_mode(), 0o600);
}

#[test]
fn a_client_is_taken_for_what_it_announces() {
    for (readonly, lowpriority, passthrough) in
        [(true, false, false), (false, true, false), (false, false, true), (false, false, false)]
    {
        let mut s = server();
        let first = join(&mut s, 3);
        join(&mut s, 4);
        let flags = attach_flags(&ClientConfig {
            socket_path: b"/run/sm/work",
            readonly,
            lowpriority,
            prefix_key: 1,
            passthrough,
        });
        act(&mut s, first, &Packet::Attach { flags });
        let typed = act(&mut s, first, &Packet::Content(b"x".to_vec()));
        assert_eq!(matches!(typed, Step::WritePty(_)), !readonly);
        let sized = act(&mut s, first, &Packet::Resize { rows: 2, cols: 2 });
        assert_eq!(
            matches!(sized, Step::SetWinsize(_)),
            !(readonly || lowpriority || passthrough)
        );
    }
}

#[test]
fn frames_survive_short_writes() {
    let mut s = server();
    s.accept(3, 55);
    let mut read: Vec<u8> = Vec::new();
    for text in ["one", "two", "three"] {
        s.send(0, &Packet::Content(text.as_bytes().to_vec()));
        read.extend_from_slice(&s.pending(0)[..5]);
        s.on_write(0, WriteResult::Wrote(5));
    }
    read.extend_from_slice(&s.farewell(0, ChildEnd::Exited(1)));
    assert_eq!(
        packets_of(&read),
        vec![
            Packet::Pid(55),
            Packet::Content(b"one".to_vec()),
            Packet::Content(b"two".to_vec()),
            Packet::Content(b"three".to_vec()),
            Packet::Exit(1),
        ]
    );
}

#[test]
fn output_is_broadcast_to_every_live_client() {
    let mut s = server();
    join(&mut s, 3);
    join(&mut s, 4);
    join(&mut s, 5);
    receive(&mut s, 1, &Packet::Detach);
    s.step(1);
    let packet = s.on_pty(PtyRead::Data(b"out".to_vec())).unwrap();
    assert_eq!(s.broadcast(&packet), vec![true, false, true]);
    assert_eq!(s.pending(0), packet.encode().as_slice());
    assert!(s.pending(1).is_empty());
    assert_eq!(s.pending(2), packet.encode().as_slice());
    assert!(server().broadcast(&packet).is_empty());
}

#[test]
fn a_whole_buffer_is_processed_up_to_the_leaving() {
    let mut s = server();
    let idx = join(&mut s, 3);
    let mut bytes = Packet::Content(b"a".to_vec()).encode();
    Packet::Attach { flags: 1 }.write_to(&mut bytes);
    Packet::Content(b"b".to_vec()).write_to(&mut bytes);
    Packet::Attach { flags: 0 }.write_to(&mut bytes);
    Packet::Content(b"c".to_vec()).write_to(&mut bytes);
    Packet::Detach.write_to(&mut bytes);
    Packet::Content(b"d".to_vec()).write_to(&mut bytes);
    assert!(s.on_read(idx, ReadResult::Data(bytes)));
    let mut typed = Vec::new();
    loop {
        let step = s.step(idx);
        let goes_on = step.goes_on();
        if let Step::WritePty(b) = step {
            typed.extend(b);
        }
        if !goes_on {
            break;
        }
    }
    assert_eq!(typed, b"ac".to_vec());
    s.drop_dead();
    assert_eq!(s.client_count(), 0);
}
