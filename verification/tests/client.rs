use sm::client::{attach_flags, process_input, rename_step};
use sm::client::{ClientAction, ClientConfig, Outcome, Proxy, RenameStep, StdinRead};
use sm::protocol::{Packet, ProtocolError};
use sm::pty::{get_winsize, winsize_from, Winsize};

const PREFIX: u8 = 0x01; // Ctrl-a

const WINCH: i32 = 28;

fn run(bytes: &[u8]) -> (Vec<u8>, bool, bool) {
    let mut armed = false;
    let (out, detach) = process_input(bytes, &mut armed, PREFIX);
    (out, detach, armed)
}

#[test]
fn plain_bytes_pass_through() {
    assert_eq!(run(b"hello"), (b"hello".to_vec(), false, false));
}

#[test]
fn prefix_then_d_detaches() {
    let (out, detach, _) = run(&[PREFIX, b'd']);
    assert!(detach);
    assert!(out.is_empty());
    // Uppercase D too.
    assert!(run(&[PREFIX, b'D']).1);
}

#[test]
fn double_prefix_sends_one_literal() {
    assert_eq!(run(&[PREFIX, PREFIX]), (vec![PREFIX], false, false));
}

#[test]
fn prefix_then_other_forwards_both() {
    assert_eq!(run(&[PREFIX, b'x']), (vec![PREFIX, b'x'], false, false));
}

#[test]
fn preceding_bytes_flushed_before_detach() {
    let (out, detach, _) = run(&[b'a', b'b', PREFIX, b'd']);
    assert_eq!(out, b"ab".to_vec());
    assert!(detach);
}

#[test]
fn lone_trailing_prefix_stays_armed() {
    let mut armed = false;
    let (out, detach) = process_input(&[b'z', PREFIX], &mut armed, PREFIX);
    assert_eq!(out, b"z".to_vec());
    assert!(!detach);
    assert!(armed); // waiting for the next key
    // Next read resolves it.
    let (out2, detach2) = process_input(b"d", &mut armed, PREFIX);
    assert!(detach2);
    assert!(out2.is_empty());
}

#[test]
fn a_prefix_that_is_d_still_detaches() {
    let mut armed = false;
    assert_eq!(process_input(b"xdd", &mut armed, b'd'), (b"x".to_vec(), true));
    assert!(!armed);
}

#[test]
fn keys_after_a_detach_are_dropped() {
    assert_eq!(run(&[b'a', PREFIX, b'd', b'b', PREFIX]), (b"a".to_vec(), true, false));
}

#[test]
fn cut_key_presses_come_to_the_same() {
    let input = [b'a', PREFIX, PREFIX, b'b', PREFIX, b'x', PREFIX, PREFIX, PREFIX];
    let whole = run(&input);
    assert_eq!(whole, (vec![b'a', PREFIX, b'b', PREFIX, b'x', PREFIX], false, true));
    for i in 0..=input.len() {
        let mut armed = false;
        let (mut out, first) = process_input(&input[..i], &mut armed, PREFIX);
        let (more, second) = process_input(&input[i..], &mut armed, PREFIX);
        out.extend(more);
        assert_eq!((out, first || second, armed), whole);
    }
}

fn config(readonly: bool, lowpriority: bool, passthrough: bool) -> ClientConfig<'static> {
    ClientConfig {
        socket_path: b"/tmp/s",
        readonly,
        lowpriority,
        prefix_key: PREFIX,
        passthrough,
    }
}

fn interactive() -> Proxy {
    Proxy::new(&config(false, false, false), true)
}

/// The one packet that is to be sent, and whether it must get through.
fn sent(actions: &[ClientAction]) -> (Packet, bool) {
    assert_eq!(actions.len(), 1);
    match &actions[0] {
        ClientAction::Send { packet, required } => (packet.clone(), *required),
        other => panic!("unexpected {:?}", other),
    }
}

fn shown(actions: &[ClientAction]) -> Vec<u8> {
    assert_eq!(actions.len(), 1);
    match &actions[0] {
        ClientAction::Show(bytes) => bytes.clone(),
        other => panic!("unexpected {:?}", other),
    }
}

fn stopped(actions: &[ClientAction]) -> Outcome {
    match actions.last() {
        Some(ClientAction::Stop(outcome)) => *outcome,
        other => panic!("unexpected {:?}", other),
    }
}

#[test]
fn attach_flags_by_configuration() {
    assert_eq!(attach_flags(&config(false, false, false)), 0);
    assert_eq!(attach_flags(&config(true, false, false)), 1);
    assert_eq!(attach_flags(&config(false, true, false)), 2);
    assert_eq!(attach_flags(&config(false, false, true)), 2);
    assert_eq!(attach_flags(&config(true, true, true)), 3);
}

#[test]
fn interactive_needs_a_terminal_and_no_passthrough() {
    assert!(interactive().is_interactive());
    assert!(!Proxy::new(&config(false, false, false), false).is_interactive());
    assert!(!Proxy::new(&config(false, false, true), true).is_interactive());
}

#[test]
fn interactive_keys_are_forwarded() {
    let mut p = interactive();
    let actions = p.on_stdin(StdinRead::Data(b"ls\r".to_vec()));
    assert_eq!(sent(&actions), (Packet::Content(b"ls\r".to_vec()), true));
    assert!(p.on_stdin(StdinRead::WouldBlock).is_empty());
}

#[test]
fn detach_sends_what_came_before() {
    let mut p = interactive();
    let actions = p.on_stdin(StdinRead::Data(vec![b'a', PREFIX, b'd', b'z']));
    assert_eq!(actions.len(), 3);
    assert_eq!(sent(&actions[..1]), (Packet::Content(b"a".to_vec()), true));
    assert_eq!(sent(&actions[1..2]), (Packet::Detach, false));
    assert_eq!(stopped(&actions), Outcome::Detached);
}

#[test]
fn closed_stdin_detaches_when_interactive() {
    let actions = interactive().on_stdin(StdinRead::Data(Vec::new()));
    assert_eq!(sent(&actions[..1]), (Packet::Detach, false));
    assert_eq!(stopped(&actions), Outcome::Detached);
}

#[test]
fn closed_stdin_is_left_alone_in_passthrough() {
    let mut p = Proxy::new(&config(false, false, true), true);
    assert!(p.watches_stdin());
    assert!(p.on_stdin(StdinRead::Data(Vec::new())).is_empty());
    assert!(!p.watches_stdin());
    let actions = p.on_server(Ok(Packet::Content(b"\x1b[>1u".to_vec())));
    assert_eq!(shown(&actions), b"\x1b[>1u".to_vec());
}

#[test]
fn passthrough_forwards_verbatim() {
    let mut p = Proxy::new(&config(false, false, true), true);
    let actions = p.on_stdin(StdinRead::Data(vec![PREFIX, b'd']));
    assert_eq!(sent(&actions), (Packet::Content(vec![PREFIX, b'd']), true));
    assert_eq!(p.poll_timeout(), -1);
}

#[test]
fn failing_stdin_fails_the_attach() {
    let actions = interactive().on_stdin(StdinRead::Failed);
    assert_eq!(actions.len(), 1);
    assert!(matches!(actions[0], ClientAction::Fail));
}

#[test]
fn lone_prefix_is_forwarded_after_the_timeout() {
    let mut p = interactive();
    assert_eq!(p.poll_timeout(), -1);
    assert!(p.on_stdin(StdinRead::Data(vec![PREFIX])).is_empty());
    assert_eq!(p.poll_timeout(), 500);
    assert_eq!(sent(&p.on_timeout()), (Packet::Content(vec![PREFIX]), false));
    assert_eq!(p.poll_timeout(), -1);
    assert!(p.on_timeout().is_empty());
}

#[test]
fn readonly_client_sends_no_input() {
    let mut p = Proxy::new(&config(true, false, false), true);
    assert!(p.on_stdin(StdinRead::Data(b"rm".to_vec())).is_empty());
    assert!(p.on_stdin(StdinRead::Data(vec![PREFIX])).is_empty());
    assert!(p.on_timeout().is_empty());
    assert_eq!(p.poll_timeout(), -1);
    let actions = p.on_stdin(StdinRead::Data(vec![PREFIX, b'D']));
    assert_eq!(sent(&actions[..1]), (Packet::Detach, false));
    assert_eq!(stopped(&actions), Outcome::Detached);
}

#[test]
fn a_full_read_after_the_prefix_is_sent_in_two_packets() {
    let mut p = interactive();
    p.on_stdin(StdinRead::Data(vec![PREFIX]));
    let actions = p.on_stdin(StdinRead::Data(vec![b'x'; 4088]));
    assert_eq!(actions.len(), 2);
    let mut first = vec![b'x'; 4088];
    first[0] = PREFIX;
    assert_eq!(sent(&actions[..1]), (Packet::Content(first), true));
    assert_eq!(sent(&actions[1..]), (Packet::Content(vec![b'x']), true));
}

#[test]
fn long_input_is_cut_into_packets_that_fit() {
    let mut p = Proxy::new(&config(false, false, true), true);
    let input: Vec<u8> = (0..9000u32).map(|k| (k % 251) as u8).collect();
    let actions = p.on_stdin(StdinRead::Data(input.clone()));
    assert_eq!(actions.len(), 3);
    let mut bytes = Vec::new();
    for i in 0..3 {
        match sent(&actions[i..i + 1]) {
            (Packet::Content(part), true) => {
                assert!(part.len() <= 4088);
                bytes.extend(part);
            }
            other => panic!("unexpected {:?}", other),
        }
    }
    assert_eq!(bytes, input);
}

#[test]
fn server_output_is_filtered_and_shown() {
    let mut p = interactive();
    let actions = p.on_server(Ok(Packet::Content(b"a\x1b[>1ub\x1b[".to_vec())));
    assert_eq!(shown(&actions), b"ab".to_vec());
    assert!(p.on_server(Ok(Packet::Content(b"=1u".to_vec()))).is_empty());
    assert!(p.on_server(Ok(Packet::Pid(4))).is_empty());
}

#[test]
fn exit_and_loss_end_the_attach() {
    assert_eq!(
        stopped(&interactive().on_server(Ok(Packet::Exit(42)))),
        Outcome::Exited(42)
    );
    assert_eq!(
        stopped(&interactive().on_server(Err(ProtocolError::UnexpectedEof))),
        Outcome::ServerGone
    );
}

#[test]
fn window_changes_are_passed_on_once() {
    let ws = winsize_from(50, 132);
    let mut p = interactive();
    assert_eq!(p.first_resize(ws), Some(Packet::Resize { rows: 50, cols: 132 }));
    assert_eq!(p.take_resize(ws), None);
    p.on_signals(&[1, 2], WINCH);
    assert_eq!(p.take_resize(ws), None);
    p.on_signals(&[1, WINCH, 2], WINCH);
    p.on_signals(&[], WINCH);
    assert_eq!(p.take_resize(ws), Some(Packet::Resize { rows: 50, cols: 132 }));
    assert_eq!(p.take_resize(ws), None);
    let quiet = Proxy::new(&config(false, false, true), true);
    assert_eq!(quiet.first_resize(ws), None);
}

#[test]
fn rename_is_awaited_for_a_while() {
    assert_eq!(rename_step(0, true), RenameStep::Done);
    assert_eq!(rename_step(0, false), RenameStep::Wait);
    assert_eq!(rename_step(98, false), RenameStep::Wait);
    assert_eq!(rename_step(99, false), RenameStep::GiveUp);
    assert_eq!(rename_step(99, true), RenameStep::Done);
}

#[test]
fn unusable_window_sizes_fall_back() {
    assert_eq!(get_winsize(None), winsize_from(24, 80));
    let odd = Winsize { ws_row: 0, ws_col: 100, ws_xpixel: 3, ws_ypixel: 4 };
    assert_eq!(
        get_winsize(Some(odd)),
        Winsize { ws_row: 24, ws_col: 80, ws_xpixel: 3, ws_ypixel: 4 }
    );
    assert_eq!(get_winsize(Some(winsize_from(5, 6))), winsize_from(5, 6));
}
