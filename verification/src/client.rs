//! The client: what it sends, shows and does while it is attached to a session.
//!
//! Whoever drives a `Proxy` polls the server's socket, the real terminal and the
//! window-size signal, hands each event to the proxy and performs the actions it
//! answers with, in order.

use vstd::prelude::*;

use crate::filter;
use crate::filter::OutputFilter;
use crate::protocol;
use crate::protocol::{Packet, PacketView, ProtocolError};
use crate::protocol::{FLAG_LOWPRIORITY, FLAG_READONLY, MAX_PAYLOAD};
use crate::pty::Winsize;

verus! {

/// After the prefix key, this byte (`d`) detaches.
pub const DETACH_CMD: u8 = 0x64;

/// `D`, which detaches too.
pub const DETACH_CMD_UPPER: u8 = 0x44;

/// How long (ms) to wait for the key after the prefix before deciding it was a
/// bare prefix press and forwarding it to the application.
pub const PREFIX_TIMEOUT_MS: i32 = 500;

/// How often to look whether a renamed socket has appeared.
pub const RENAME_TRIES: u32 = 100;

/// How the attach ended.
#[derive(Debug, Clone, Copy, PartialEq, Eq, Structural)]
pub enum Outcome {
    /// User pressed the detach key (or stdin closed in interactive mode).
    Detached,
    /// The supervised command exited with this status.
    Exited(i32),
    /// The server went away unexpectedly.
    ServerGone,
}

pub struct ClientConfig<'a> {
    /// The bytes of the socket's path.
    pub socket_path: &'a [u8],
    pub readonly: bool,
    pub lowpriority: bool,
    /// Prefix byte; press it then `d` to detach (default Ctrl-a = 0x01).  Press
    /// it twice to send one literal prefix byte to the application.
    pub prefix_key: u8,
    /// Passthrough mode (`-p`): forward stdin verbatim, no raw mode, no detach key.
    pub passthrough: bool,
}

// ---- the prefix key ---------------------------------------------------------

/// What a run of key presses comes to.
pub struct Keys {
    /// The bytes for the application.
    pub out: Seq<u8>,
    /// Whether the user asked to detach.
    pub detach: bool,
    /// Whether the prefix key was pressed last and waits for the next key.
    pub armed: bool,
}

pub open spec fn is_detach_cmd(b: u8) -> bool {
    b == DETACH_CMD || b == DETACH_CMD_UPPER
}

/// What the key presses `input` come to, with `prefix` as the prefix key:
/// - prefix then `d` or `D`: detach, and what follows is dropped;
/// - prefix twice: one literal prefix byte;
/// - prefix then anything else: the prefix byte followed by that byte;
/// - any other byte: forwarded unchanged.
///
/// `armed` tells whether the prefix was pressed just before `input`.
pub open spec fn keys(input: Seq<u8>, armed: bool, prefix: u8) -> Keys
    decreases input.len(),
{
    if input.len() == 0 {
        Keys { out: Seq::empty(), detach: false, armed }
    } else if armed && is_detach_cmd(input[0]) {
        Keys { out: Seq::empty(), detach: true, armed: false }
    } else {
        let b = input[0];
        let now: Seq<u8> = if armed {
            if b == prefix {
                seq![prefix]
            } else {
                seq![prefix, b]
            }
        } else if b == prefix {
            Seq::empty()
        } else {
            seq![b]
        };
        let later = keys(input.drop_first(), !armed && b == prefix, prefix);
        Keys { out: now + later.out, detach: later.detach, armed: later.armed }
    }
}

/// Runs raw input bytes through the two-key prefix state machine.
///
/// `armed` carries the "prefix seen, awaiting next key" state across calls, so a
/// prefix at the end of one read resolves against the first byte of the next.
pub fn process_input(input: &[u8], armed: &mut bool, prefix: u8) -> (r: (Vec<u8>, bool))
    ensures
        (Keys { out: r.0@, detach: r.1, armed: *final(armed) }) == keys(
            input@,
            *old(armed),
            prefix,
        ),
{
    let ghost armed0 = *armed;
    let mut out: Vec<u8> = Vec::new();
    let mut i: usize = 0;
    assert(input@.skip(0) == input@);
    while i < input.len()
        invariant
            i <= input@.len(),
            armed0 == *old(armed),
            ({
                let later = keys(input@.skip(i as int), *armed, prefix);
                keys(input@, armed0, prefix) == (Keys {
                    out: out@ + later.out,
                    detach: later.detach,
                    armed: later.armed,
                })
            }),
        decreases input@.len() - i,
    {
        let b: u8 = input[i];
        let ghost out0 = out@;
        let ghost tail = input@.skip(i as int);
        let ghost was = *armed;
        proof {
            assert(tail[0] == b);
            assert(tail.drop_first() == input@.skip(i + 1));
        }
        if *armed {
            *armed = false;
            if b == DETACH_CMD || b == DETACH_CMD_UPPER {
                proof {
                    let end = keys(tail, was, prefix);
                    assert(end == (Keys { out: Seq::empty(), detach: true, armed: false }));
                    assert(out@ + end.out == out@);
                }
                return (out, true);
            } else if b == prefix {
                out.push(prefix);
            } else {
                out.push(prefix);
                out.push(b);
            }
        } else if b == prefix {
            *armed = true;
        } else {
            out.push(b);
        }
        proof {
            let later = keys(tail.drop_first(), *armed, prefix);
            let whole = keys(tail, was, prefix);
            assert(out0 + whole.out == out@ + later.out);
        }
        i += 1;
    }
    assert(out@ + Seq::<u8>::empty() == out@);
    (out, false)
}

// ---- attaching --------------------------------------------------------------

/// The flags of the `Attach` packet.  Passthrough implies low priority.
pub open spec fn spec_attach_flags(readonly: bool, lowpriority: bool, passthrough: bool) -> u32 {
    if readonly && (lowpriority || passthrough) {
        3
    } else if readonly {
        FLAG_READONLY
    } else if lowpriority || passthrough {
        FLAG_LOWPRIORITY
    } else {
        0
    }
}

pub fn attach_flags(cfg: &ClientConfig) -> (flags: u32)
    ensures
        flags == spec_attach_flags(cfg.readonly, cfg.lowpriority, cfg.passthrough),
{
    let mut flags: u32 = 0;
    if cfg.readonly {
        flags |= FLAG_READONLY;
    }
    if cfg.lowpriority || cfg.passthrough {
        flags |= FLAG_LOWPRIORITY;
    }
    assert(0u32 | 1 == 1 && 0u32 | 2 == 2 && 1u32 | 2 == 3) by (bit_vector);
    flags
}

/// The flags tell the server what the client is: read-only, and of low priority.
pub proof fn law_flags_tell_the_client(readonly: bool, lowpriority: bool, passthrough: bool)
    ensures
        ({
            let flags = spec_attach_flags(readonly, lowpriority, passthrough);
            &&& (flags & FLAG_READONLY != 0) == readonly
            &&& (flags & FLAG_LOWPRIORITY != 0) == (lowpriority || passthrough)
            &&& flags == (if readonly {
                1int
            } else {
                0
            }) + (if lowpriority || passthrough {
                2int
            } else {
                0
            })
        }),
{
    assert(0u32 & 1 == 0 && 0u32 & 2 == 0 && 1u32 & 1 != 0 && 1u32 & 2 == 0 && 2u32 & 1 == 0 && 2u32
        & 2 != 0 && 3u32 & 1 != 0 && 3u32 & 2 != 0) by (bit_vector);
}

/// What reading from the server gave: a packet, or none.
pub open spec fn message_view(message: Result<Packet, ProtocolError>) -> Option<PacketView> {
    match message {
        Ok(packet) => Some(packet@),
        Err(_) => None,
    }
}

/// What the driver of a proxy is asked to do.
#[derive(Debug)]
pub enum ClientAction {
    /// Write the packet to the server.  If it cannot be written and `required`
    /// holds, the attach fails; otherwise the failure is ignored.
    Send { packet: Packet, required: bool },
    /// Write the bytes to the real terminal; if that fails, the attach fails.
    Show(Vec<u8>),
    /// The attach is over.
    Stop(Outcome),
    /// The attach fails with the error that was just met.
    Fail,
}

pub enum ActionView {
    Send { packet: PacketView, required: bool },
    Show(Seq<u8>),
    Stop(Outcome),
    Fail,
}

impl View for ClientAction {
    type V = ActionView;

    open spec fn view(&self) -> ActionView {
        match self {
            ClientAction::Send { packet, required } => ActionView::Send {
                packet: packet@,
                required: *required,
            },
            ClientAction::Show(bytes) => ActionView::Show(bytes@),
            ClientAction::Stop(outcome) => ActionView::Stop(*outcome),
            ClientAction::Fail => ActionView::Fail,
        }
    }
}

/// What a list of actions asks for.
pub open spec fn actions_view(actions: Seq<ClientAction>) -> Seq<ActionView> {
    Seq::new(actions.len(), |i: int| actions[i]@)
}

/// What one read of stdin gave.
#[derive(Debug)]
pub enum StdinRead {
    /// So many bytes; none means that stdin was closed.
    Data(Vec<u8>),
    /// Nothing to read just now.
    WouldBlock,
    /// An error.
    Failed,
}

/// The attached client between events.
#[derive(Debug)]
pub struct Proxy {
    readonly: bool,
    prefix_key: u8,
    interactive: bool,
    stdin_open: bool,
    need_resize: bool,
    prefix_armed: bool,
    out_filter: OutputFilter,
}

pub struct ProxyView {
    /// Input is never sent.
    pub readonly: bool,
    pub prefix_key: u8,
    /// A real terminal in raw mode is on stdin, with the prefix key in force.
    pub interactive: bool,
    pub stdin_open: bool,
    /// The window size has changed and the server was not told yet.
    pub need_resize: bool,
    /// The prefix key was pressed and the next key is awaited.
    pub prefix_armed: bool,
    /// The unfinished control sequence that the output filter holds back.
    pub held: Seq<u8>,
}

impl View for Proxy {
    type V = ProxyView;

    closed spec fn view(&self) -> ProxyView {
        ProxyView {
            readonly: self.readonly,
            prefix_key: self.prefix_key,
            interactive: self.interactive,
            stdin_open: self.stdin_open,
            need_resize: self.need_resize,
            prefix_armed: self.prefix_armed,
            held: self.out_filter@,
        }
    }
}

/// These packets are sent, and must get through.
pub open spec fn send_all(packets: Seq<PacketView>) -> Seq<ActionView> {
    Seq::new(packets.len(), |i: int| ActionView::Send { packet: packets[i], required: true })
}

impl ProxyView {
    /// The wait for the key after the prefix is over: it was a bare prefix press,
    /// which is forwarded to the application.
    pub open spec fn on_timeout(self) -> (ProxyView, Seq<ActionView>) {
        if self.prefix_armed && !self.readonly {
            (
                ProxyView { prefix_armed: false, ..self },
                seq![
                    ActionView::Send {
                        packet: PacketView::Content(seq![self.prefix_key]),
                        required: false,
                    },
                ],
            )
        } else {
            (ProxyView { prefix_armed: false, ..self }, Seq::empty())
        }
    }

    /// A packet came from the server, or (`None`) none will come any more.
    pub open spec fn on_server(self, message: Option<PacketView>) -> (ProxyView, Seq<ActionView>) {
        match message {
            Some(PacketView::Content(bytes)) => if self.interactive {
                let (shown, held) = filter::strip(self.held + bytes);
                (
                    ProxyView { held, ..self },
                    if shown.len() > 0 {
                        seq![ActionView::Show(shown)]
                    } else {
                        Seq::empty()
                    },
                )
            } else {
                (self, seq![ActionView::Show(bytes)])
            },
            Some(PacketView::Exit(status)) => (
                self,
                seq![ActionView::Stop(Outcome::Exited(status))],
            ),
            Some(_) => (self, Seq::empty()),
            None => (self, seq![ActionView::Stop(Outcome::ServerGone)]),
        }
    }

    /// The farewell: the server is told, and the attach is over.
    pub open spec fn farewell() -> Seq<ActionView> {
        seq![
            ActionView::Send { packet: PacketView::Detach, required: false },
            ActionView::Stop(Outcome::Detached),
        ]
    }

    /// The bytes for the application, in packets that fit, unless there are none or
    /// the client only watches.
    pub open spec fn forward(self, bytes: Seq<u8>) -> Seq<ActionView> {
        if self.readonly || bytes.len() == 0 {
            Seq::empty()
        } else {
            send_all(protocol::content_packets(bytes))
        }
    }

    /// Stdin gave `bytes` (none: it was closed).
    pub open spec fn on_input(self, bytes: Seq<u8>) -> (ProxyView, Seq<ActionView>) {
        if !self.interactive {
            (ProxyView { stdin_open: self.stdin_open && bytes.len() > 0, ..self }, self.forward(bytes))
        } else if bytes.len() == 0 {
            (self, ProxyView::farewell())
        } else {
            let pressed = keys(bytes, self.prefix_armed, self.prefix_key);
            (
                ProxyView { prefix_armed: pressed.armed, ..self },
                self.forward(pressed.out) + if pressed.detach {
                    ProxyView::farewell()
                } else {
                    Seq::empty()
                },
            )
        }
    }

    /// What one read of stdin leads to.
    pub open spec fn on_stdin(self, read: StdinRead) -> (ProxyView, Seq<ActionView>) {
        match read {
            StdinRead::Data(bytes) => self.on_input(bytes@),
            StdinRead::WouldBlock => (self, Seq::empty()),
            StdinRead::Failed => (self, seq![ActionView::Fail]),
        }
    }
}

/// Pushes the farewell's actions.
fn push_farewell(actions: &mut Vec<ClientAction>)
    ensures
        actions_view(final(actions)@) == actions_view(old(actions)@) + ProxyView::farewell(),
{
    actions.push(ClientAction::Send { packet: Packet::Detach, required: false });
    actions.push(ClientAction::Stop(Outcome::Detached));
    assert(actions_view(actions@) == actions_view(old(actions)@) + ProxyView::farewell());
}

/// Pushes the sending of bytes, in packets that fit.
fn push_content(actions: &mut Vec<ClientAction>, bytes: &[u8])
    ensures
        actions_view(final(actions)@) == actions_view(old(actions)@) + send_all(
            protocol::content_packets(bytes@),
        ),
{
    let ghost before = actions_view(actions@);
    let mut left = protocol::split_content(bytes);
    let ghost all = protocol::packets_view(left@);
    let mut sends: Vec<ClientAction> = Vec::new();
    assert(actions_view(sends@) == send_all(all).skip(all.len() as int));
    while left.len() > 0
        invariant
            left@.len() <= all.len(),
            protocol::packets_view(left@) == all.take(left@.len() as int),
            actions_view(sends@) == send_all(all).skip(left@.len() as int),
        decreases left@.len(),
    {
        let ghost shown = protocol::packets_view(left@);
        let packet = left.pop().unwrap();
        let ghost n = left@.len() as int;
        let ghost later = actions_view(sends@);
        proof {
            assert(packet@ == shown[n]);
            assert(shown[n] == all[n]);
            assert(protocol::packets_view(left@) == all.take(n));
        }
        sends.insert(0, ClientAction::Send { packet, required: true });
        proof {
            assert(actions_view(sends@) == seq![send_all(all)[n]] + later);
            assert(send_all(all).skip(n) == seq![send_all(all)[n]] + send_all(all).skip(n + 1));
        }
    }
    actions.append(&mut sends);
    assert(send_all(all).skip(0) == send_all(all));
    assert(actions_view(actions@) == before + send_all(all));
}

impl Proxy {
    /// A client that has just connected; `tty` tells whether stdin is a terminal.
    pub fn new(cfg: &ClientConfig, tty: bool) -> (proxy: Proxy)
        ensures
            proxy@ == (ProxyView {
                readonly: cfg.readonly,
                prefix_key: cfg.prefix_key,
                interactive: !cfg.passthrough && tty,
                stdin_open: true,
                need_resize: false,
                prefix_armed: false,
                held: Seq::empty(),
            }),
    {
        Proxy {
            readonly: cfg.readonly,
            prefix_key: cfg.prefix_key,
            interactive: !cfg.passthrough && tty,
            stdin_open: true,
            need_resize: false,
            prefix_armed: false,
            out_filter: OutputFilter::new(),
        }
    }

    /// Whether the real terminal is to be put into raw mode.
    pub fn is_interactive(&self) -> (interactive: bool)
        ensures
            interactive == self@.interactive,
    {
        self.interactive
    }

    /// Whether stdin is still to be watched.
    pub fn watches_stdin(&self) -> (watches: bool)
        ensures
            watches == self@.stdin_open,
    {
        self.stdin_open
    }

    /// How long (ms) to wait for events: a deadline only while a prefix press is
    /// pending, otherwise (-1) indefinitely.
    pub fn poll_timeout(&self) -> (ms: i32)
        ensures
            self@.prefix_armed ==> ms == PREFIX_TIMEOUT_MS,
            !self@.prefix_armed ==> ms == -1,
    {
        if self.prefix_armed {
            PREFIX_TIMEOUT_MS
        } else {
            -1
        }
    }

    /// The size to announce right after attaching, so that the child matches this
    /// terminal.
    pub fn first_resize(&self, ws: Winsize) -> (packet: Option<Packet>)
        ensures
            match packet {
                Some(p) => self@.interactive && p@ == (PacketView::Resize {
                    rows: ws.ws_row,
                    cols: ws.ws_col,
                }),
                None => !self@.interactive,
            },
    {
        if self.interactive {
            Some(Packet::Resize { rows: ws.ws_row, cols: ws.ws_col })
        } else {
            None
        }
    }

    /// The wait for events ended with none.
    pub fn on_timeout(&mut self) -> (actions: Vec<ClientAction>)
        ensures
            (final(self)@, actions_view(actions@)) == old(self)@.on_timeout(),
    {
        let mut actions: Vec<ClientAction> = Vec::new();
        if self.prefix_armed {
            self.prefix_armed = false;
            if !self.readonly {
                let mut bytes: Vec<u8> = Vec::new();
                bytes.push(self.prefix_key);
                assert(bytes@ == seq![self.prefix_key]);
                actions.push(ClientAction::Send { packet: Packet::Content(bytes), required: false });
            }
        }
        assert(actions_view(actions@) == old(self)@.on_timeout().1);
        actions
    }

    /// These signals arrived; `winch` is the number of the window-size signal.
    pub fn on_signals(&mut self, sigs: &[i32], winch: i32)
        ensures
            final(self)@ == (ProxyView {
                need_resize: old(self)@.need_resize || sigs@.contains(winch),
                ..old(self)@
            }),
    {
        let mut i: usize = 0;
        let ghost before = self@;
        while i < sigs.len()
            invariant
                i <= sigs@.len(),
                before == old(self)@,
                self@ == (ProxyView {
                    need_resize: before.need_resize || sigs@.take(i as int).contains(winch),
                    ..before
                }),
            decreases sigs@.len() - i,
        {
            proof {
                let upto = sigs@.take(i as int);
                let next = sigs@.take(i + 1);
                assert(next == upto.push(sigs@[i as int]));
                assert(next[i as int] == sigs@[i as int]);
                if upto.contains(winch) {
                    let k = choose|k: int| 0 <= k < upto.len() && upto[k] == winch;
                    assert(next[k] == winch);
                }
                if next.contains(winch) && sigs@[i as int] != winch {
                    let k = choose|k: int| 0 <= k < next.len() && next[k] == winch;
                    assert(upto[k] == winch);
                }
            }
            if sigs[i] == winch {
                self.need_resize = true;
            }
            i += 1;
        }
        assert(sigs@.take(sigs@.len() as int) == sigs@);
    }

    /// The server sent this packet, or reading from it failed.
    pub fn on_server(&mut self, message: Result<Packet, ProtocolError>) -> (actions: Vec<
        ClientAction,
    >)
        ensures
            (final(self)@, actions_view(actions@)) == old(self)@.on_server(
                message_view(message),
            ),
    {
        let ghost before = self@;
        let mut actions: Vec<ClientAction> = Vec::new();
        let ghost expected = before.on_server(message_view(message));
        match message {
            Ok(Packet::Content(bytes)) => {
                if self.interactive {
                    let shown = self.out_filter.filter(bytes.as_slice());
                    if !shown.is_empty() {
                        actions.push(ClientAction::Show(shown));
                    }
                } else {
                    actions.push(ClientAction::Show(bytes));
                }
            },
            Ok(Packet::Exit(status)) => {
                actions.push(ClientAction::Stop(Outcome::Exited(status)));
            },
            Ok(_) => {},
            Err(_) => {
                actions.push(ClientAction::Stop(Outcome::ServerGone));
            },
        }
        assert(actions_view(actions@) == expected.1);
        actions
    }

    /// Stdin was read.
    pub fn on_stdin(&mut self, read: StdinRead) -> (actions: Vec<ClientAction>)
        ensures
            (final(self)@, actions_view(actions@)) == old(self)@.on_stdin(read),
    {
        let ghost before = self@;
        let mut actions: Vec<ClientAction> = Vec::new();
        assert(actions_view(actions@) == Seq::<ActionView>::empty());
        match read {
            StdinRead::Data(bytes) => {
                if self.interactive {
                    if bytes.len() == 0 {
                        push_farewell(&mut actions);
                    } else {
                        let (out, detach) = process_input(
                            bytes.as_slice(),
                            &mut self.prefix_armed,
                            self.prefix_key,
                        );
                        if !self.readonly && !out.is_empty() {
                            push_content(&mut actions, out.as_slice());
                        }
                        assert(actions_view(actions@) == before.forward(out@));
                        if detach {
                            push_farewell(&mut actions);
                        }
                    }
                } else if bytes.len() == 0 {
                    self.stdin_open = false;
                } else if !self.readonly {
                    push_content(&mut actions, bytes.as_slice());
                }
            },
            StdinRead::WouldBlock => {},
            StdinRead::Failed => {
                actions.push(ClientAction::Fail);
            },
        }
        assert(actions_view(actions@) == before.on_stdin(read).1);
        actions
    }

    /// The packet that tells the server the new window size, if it changed.
    pub fn take_resize(&mut self, ws: Winsize) -> (packet: Option<Packet>)
        ensures
            final(self)@ == (ProxyView { need_resize: false, ..old(self)@ }),
            match packet {
                Some(p) => old(self)@.need_resize && p@ == (PacketView::Resize {
                    rows: ws.ws_row,
                    cols: ws.ws_col,
                }),
                None => !old(self)@.need_resize,
            },
    {
        if self.need_resize {
            self.need_resize = false;
            Some(Packet::Resize { rows: ws.ws_row, cols: ws.ws_col })
        } else {
            None
        }
    }
}

// ---- renaming ---------------------------------------------------------------

/// What to do after a look for the renamed socket.
#[derive(Debug, Clone, Copy, PartialEq, Eq, Structural)]
pub enum RenameStep {
    /// The server has done it.
    Done,
    /// Wait a moment, then look again.
    Wait,
    /// Wait a moment, then give up.
    GiveUp,
}

/// The server renames the socket and then drops the connection.  The new path is
/// waited for as confirmation; `look` counts the looks made before this one.
pub fn rename_step(look: u32, exists: bool) -> (step: RenameStep)
    requires
        look < RENAME_TRIES,
    ensures
        step == RenameStep::Done <==> exists,
        step == RenameStep::Wait <==> !exists && look + 1 < RENAME_TRIES,
        step == RenameStep::GiveUp <==> !exists && look + 1 == RENAME_TRIES,
{
    if exists {
        RenameStep::Done
    } else if look + 1 < RENAME_TRIES {
        RenameStep::Wait
    } else {
        RenameStep::GiveUp
    }
}

// ---- laws -------------------------------------------------------------------

/// It does not matter how key presses are cut into reads: what the first part
/// leaves armed resolves against the next part, and a detach ends it all.
pub proof fn law_key_cuts_do_not_matter(first: Seq<u8>, second: Seq<u8>, armed: bool, prefix: u8)
    ensures
        ({
            let early = keys(first, armed, prefix);
            let late = keys(second, early.armed, prefix);
            keys(first + second, armed, prefix) == if early.detach {
                early
            } else {
                Keys { out: early.out + late.out, detach: late.detach, armed: late.armed }
            }
        }),
    decreases first.len(),
{
    let early = keys(first, armed, prefix);
    let late = keys(second, early.armed, prefix);
    let all = first + second;
    if first.len() == 0 {
        assert(all == second);
        assert(Seq::<u8>::empty() + late.out == late.out);
    } else {
        assert(all[0] == first[0]);
        assert(all.drop_first() == first.drop_first() + second);
        if !(armed && is_detach_cmd(first[0])) {
            let next = !armed && first[0] == prefix;
            law_key_cuts_do_not_matter(first.drop_first(), second, next, prefix);
            let mid = keys(first.drop_first(), next, prefix);
            let now = if armed {
                if first[0] == prefix {
                    seq![prefix]
                } else {
                    seq![prefix, first[0]]
                }
            } else if first[0] == prefix {
                Seq::empty()
            } else {
                seq![first[0]]
            };
            assert(early.out == now + mid.out);
            assert(now + (mid.out + late.out) == (now + mid.out) + late.out);
        }
    }
}

/// Keys other than the prefix reach the application unchanged, and none of them
/// detaches.
pub proof fn law_other_keys_pass(input: Seq<u8>, prefix: u8)
    requires
        forall|i: int| 0 <= i < input.len() ==> #[trigger] input[i] != prefix,
    ensures
        keys(input, false, prefix) == (Keys { out: input, detach: false, armed: false }),
    decreases input.len(),
{
    if input.len() > 0 {
        let tail = input.drop_first();
        assert forall|i: int| 0 <= i < tail.len() implies #[trigger] tail[i] != prefix by {
            assert(tail[i] == input[i + 1]);
        }
        law_other_keys_pass(tail, prefix);
        assert(seq![input[0]] + tail == input);
    } else {
        assert(input == Seq::<u8>::empty());
    }
}

/// Prefix then `d` or `D` detaches; what was pressed before is not lost, and what
/// comes behind is not sent.
pub proof fn law_prefix_then_d_detaches(
    before: Seq<u8>,
    armed: bool,
    prefix: u8,
    cmd: u8,
    after: Seq<u8>,
)
    requires
        is_detach_cmd(cmd),
        ({
            let early = keys(before, armed, prefix);
            !early.detach && !early.armed
        }),
    ensures
        keys(before + seq![prefix, cmd] + after, armed, prefix) == (Keys {
            out: keys(before, armed, prefix).out,
            detach: true,
            armed: false,
        }),
{
    let rest = seq![prefix, cmd] + after;
    assert(before + seq![prefix, cmd] + after == before + rest);
    law_key_cuts_do_not_matter(before, rest, armed, prefix);
    assert(rest.drop_first()[0] == cmd);
    let tail = keys(rest.drop_first(), true, prefix);
    assert(tail.out == Seq::<u8>::empty());
    let early = keys(before, armed, prefix);
    assert(keys(rest, false, prefix).out == Seq::<u8>::empty());
    assert(early.out + Seq::<u8>::empty() == early.out);
}

/// What two key presses come to where no prefix press is pending, with whatever is
/// pressed before and behind them.
proof fn lemma_two_keys(before: Seq<u8>, armed: bool, prefix: u8, key: u8, after: Seq<u8>)
    requires
        !is_detach_cmd(key),
        ({
            let early = keys(before, armed, prefix);
            !early.detach && !early.armed
        }),
    ensures
        ({
            let early = keys(before, armed, prefix);
            let late = keys(after, false, prefix);
            let now = if key == prefix {
                seq![prefix]
            } else {
                seq![prefix, key]
            };
            keys(before + seq![prefix, key] + after, armed, prefix) == (Keys {
                out: early.out + now + late.out,
                detach: late.detach,
                armed: late.armed,
            })
        }),
{
    let rest = seq![prefix, key] + after;
    assert(before + seq![prefix, key] + after == before + rest);
    law_key_cuts_do_not_matter(before, rest, armed, prefix);
    let second = rest.drop_first();
    assert(second[0] == key);
    assert(second.drop_first() == after);
    let early = keys(before, armed, prefix);
    let late = keys(after, false, prefix);
    let now = if key == prefix {
        seq![prefix]
    } else {
        seq![prefix, key]
    };
    assert(keys(second, true, prefix).out == now + late.out);
    assert(keys(rest, false, prefix).out == now + late.out);
    assert(early.out + (now + late.out) == early.out + now + late.out);
}

/// The prefix pressed twice sends one literal prefix byte (unless the prefix key
/// is itself a detach command), and changes nothing else of what is sent.
pub proof fn law_double_prefix_is_one_literal(
    before: Seq<u8>,
    armed: bool,
    prefix: u8,
    after: Seq<u8>,
)
    requires
        !is_detach_cmd(prefix),
        ({
            let early = keys(before, armed, prefix);
            !early.detach && !early.armed
        }),
    ensures
        ({
            let late = keys(after, false, prefix);
            keys(before + seq![prefix, prefix] + after, armed, prefix) == (Keys {
                out: keys(before, armed, prefix).out + seq![prefix] + late.out,
                detach: late.detach,
                armed: late.armed,
            })
        }),
{
    lemma_two_keys(before, armed, prefix, prefix, after);
}

/// The prefix and then a key that is no command reach the application both.
pub proof fn law_prefix_then_other_sends_both(
    before: Seq<u8>,
    armed: bool,
    prefix: u8,
    key: u8,
    after: Seq<u8>,
)
    requires
        !is_detach_cmd(key),
        key != prefix,
        ({
            let early = keys(before, armed, prefix);
            !early.detach && !early.armed
        }),
    ensures
        ({
            let late = keys(after, false, prefix);
            keys(before + seq![prefix, key] + after, armed, prefix) == (Keys {
                out: keys(before, armed, prefix).out + seq![prefix, key] + late.out,
                detach: late.detach,
                armed: late.armed,
            })
        }),
{
    lemma_two_keys(before, armed, prefix, key, after);
}

/// Nothing but a detach command directly behind the prefix key detaches.
pub proof fn law_only_the_command_detaches(input: Seq<u8>, armed: bool, prefix: u8)
    requires
        keys(input, armed, prefix).detach,
    ensures
        exists|i: int|
            0 <= i < input.len() && is_detach_cmd(#[trigger] input[i]) && if i == 0 {
                armed
            } else {
                input[i - 1] == prefix
            },
    decreases input.len(),
{
    if armed && is_detach_cmd(input[0]) {
    } else {
        let tail = input.drop_first();
        let next = !armed && input[0] == prefix;
        law_only_the_command_detaches(tail, next, prefix);
        let i = choose|i: int|
            0 <= i < tail.len() && is_detach_cmd(#[trigger] tail[i]) && if i == 0 {
                next
            } else {
                tail[i - 1] == prefix
            };
        assert(is_detach_cmd(input[i + 1]));
        if i > 0 {
            assert(tail[i - 1] == input[i]);
        }
    }
}

/// The prefix handling sends no more bytes than were pressed, a prefix press that
/// was still pending included.
pub proof fn law_no_more_sent_than_pressed(input: Seq<u8>, armed: bool, prefix: u8)
    ensures
        ({
            let pressed = keys(input, armed, prefix);
            pressed.out.len() + (if pressed.armed {
                1nat
            } else {
                0nat
            }) <= input.len() + if armed {
                1nat
            } else {
                0nat
            }
        }),
    decreases input.len(),
{
    if input.len() > 0 && !(armed && is_detach_cmd(input[0])) {
        law_no_more_sent_than_pressed(input.drop_first(), !armed && input[0] == prefix, prefix);
    }
}

/// Whether an action sends terminal content to the server.
pub open spec fn sends_content(a: ActionView) -> bool {
    a matches ActionView::Send { packet, .. } && packet is Content
}

/// A read-only client never sends input, whatever happens.
pub proof fn law_readonly_sends_no_content(
    p: ProxyView,
    read: StdinRead,
    message: Option<PacketView>,
    i: int,
)
    requires
        p.readonly,
    ensures
        0 <= i < p.on_timeout().1.len() ==> !sends_content(p.on_timeout().1[i]),
        0 <= i < p.on_stdin(read).1.len() ==> !sends_content(p.on_stdin(read).1[i]),
        0 <= i < p.on_server(message).1.len() ==> !sends_content(p.on_server(message).1[i]),
{
}

/// Whatever a client sends of its input fits into a frame.
pub proof fn law_sent_content_fits(p: ProxyView, bytes: Seq<u8>, i: int)
    requires
        0 <= i < p.on_input(bytes).1.len(),
    ensures
        p.on_input(bytes).1[i] matches ActionView::Send { packet, .. } ==> packet.fits(),
{
    let out = if p.interactive {
        keys(bytes, p.prefix_armed, p.prefix_key).out
    } else {
        bytes
    };
    protocol::law_content_is_carried(out);
    let packets = protocol::content_packets(out);
    if i < packets.len() && p.forward(out).len() > 0 && !(p.interactive && bytes.len() == 0) {
        assert(packets[i].fits());
    }
}

/// The bytes that actions send to the application.
pub open spec fn sent_bytes(actions: Seq<ActionView>) -> Seq<u8>
    decreases actions.len(),
{
    if actions.len() == 0 {
        Seq::empty()
    } else {
        let now = match actions[0] {
            ActionView::Send { packet: PacketView::Content(bytes), .. } => bytes,
            _ => Seq::empty(),
        };
        now + sent_bytes(actions.drop_first())
    }
}

proof fn lemma_sent_bytes(packets: Seq<PacketView>, end: Seq<ActionView>)
    requires
        forall|i: int| 0 <= i < packets.len() ==> (#[trigger] packets[i]) is Content,
        sent_bytes(end) == Seq::<u8>::empty(),
    ensures
        sent_bytes(send_all(packets) + end) == protocol::carried(packets),
    decreases packets.len(),
{
    let all = send_all(packets) + end;
    if packets.len() == 0 {
        assert(all == end);
    } else {
        assert(packets[0] is Content);
        let tail = packets.drop_first();
        assert forall|i: int| 0 <= i < tail.len() implies (#[trigger] tail[i]) is Content by {
            assert(tail[i] == packets[i + 1]);
        }
        lemma_sent_bytes(tail, end);
        assert(all.drop_first() == send_all(tail) + end);
    }
}

/// What is sent of the input is, all packets together, exactly what the key presses
/// come to, or the input itself where the client is not interactive.
pub proof fn law_input_is_sent_whole(p: ProxyView, bytes: Seq<u8>)
    requires
        !p.readonly,
    ensures
        sent_bytes(p.on_input(bytes).1) == if p.interactive {
            keys(bytes, p.prefix_armed, p.prefix_key).out
        } else {
            bytes
        },
{
    reveal_with_fuel(sent_bytes, 3);
    let out = if p.interactive {
        keys(bytes, p.prefix_armed, p.prefix_key).out
    } else {
        bytes
    };
    let end = if p.interactive && (bytes.len() == 0 || keys(
        bytes,
        p.prefix_armed,
        p.prefix_key,
    ).detach) {
        ProxyView::farewell()
    } else {
        Seq::<ActionView>::empty()
    };
    let packets = protocol::content_packets(out);
    protocol::law_content_is_carried(out);
    assert(sent_bytes(end) == Seq::<u8>::empty());
    lemma_sent_bytes(packets, end);
    assert(p.on_input(bytes).1 == send_all(packets) + end);
}

/// A lone prefix press is forwarded once the wait for the next key is over, and
/// is then no longer pending.
pub proof fn law_lone_prefix_is_forwarded(p: ProxyView)
    requires
        p.prefix_armed,
        !p.readonly,
    ensures
        p.on_timeout().1 == seq![
            ActionView::Send {
                packet: PacketView::Content(seq![p.prefix_key]),
                required: false,
            },
        ],
        !p.on_timeout().0.prefix_armed,
{
}

/// A client that is not interactive sends its input verbatim, in one packet if it
/// fits into one, and never detaches on it.
pub proof fn law_passthrough_is_verbatim(p: ProxyView, bytes: Seq<u8>)
    requires
        !p.interactive,
        !p.readonly,
        bytes.len() > 0,
    ensures
        p.on_input(bytes) == (p, send_all(protocol::content_packets(bytes))),
        sent_bytes(p.on_input(bytes).1) == bytes,
        bytes.len() <= MAX_PAYLOAD ==> p.on_input(bytes).1 == seq![
            ActionView::Send { packet: PacketView::Content(bytes), required: true },
        ],
{
    law_input_is_sent_whole(p, bytes);
}

/// The attach ends with the status of the command exactly when the server says
/// that the command exited with it.
pub proof fn law_exit_status_is_passed_on(p: ProxyView, message: Option<PacketView>, status: i32)
    ensures
        p.on_server(message).1.contains(ActionView::Stop(Outcome::Exited(status))) <==> message
            == Some(PacketView::Exit(status)),
{
    let acts = p.on_server(message).1;
    if message == Some(PacketView::Exit(status)) {
        assert(acts[0] == ActionView::Stop(Outcome::Exited(status)));
    }
}

/// The keys that detach behind the prefix are `d` and `D`, and no others.
pub proof fn law_detach_keys(input: Seq<u8>, prefix: u8, key: u8)
    requires
        input == seq![prefix, key],
    ensures
        keys(input, false, prefix).detach <==> key == 0x64 || key == 0x44,
        is_detach_cmd(key) <==> key == 0x64 || key == 0x44,
{
    reveal_with_fuel(keys, 3);
    assert(input.drop_first()[0] == key);
    assert(input.drop_first().drop_first().len() == 0);
}

/// The bytes that actions show on the terminal, in order.
pub open spec fn shown_bytes(actions: Seq<ActionView>) -> Seq<u8>
    decreases actions.len(),
{
    if actions.len() == 0 {
        Seq::empty()
    } else {
        let now = match actions[0] {
            ActionView::Show(bytes) => bytes,
            _ => Seq::empty(),
        };
        now + shown_bytes(actions.drop_first())
    }
}

proof fn lemma_shown_bytes_join(first: Seq<ActionView>, second: Seq<ActionView>)
    ensures
        shown_bytes(first + second) == shown_bytes(first) + shown_bytes(second),
    decreases first.len(),
{
    let all = first + second;
    if first.len() == 0 {
        assert(all == second);
        assert(Seq::<u8>::empty() + shown_bytes(second) == shown_bytes(second));
    } else {
        assert(all.drop_first() == first.drop_first() + second);
        lemma_shown_bytes_join(first.drop_first(), second);
        let now = match first[0] {
            ActionView::Show(bytes) => bytes,
            _ => Seq::empty(),
        };
        let rest = shown_bytes(first.drop_first());
        assert(now + (rest + shown_bytes(second)) == (now + rest) + shown_bytes(second));
    }
}

/// What a run of contents from the server makes of a client, and all the actions that
/// it leads to.
pub open spec fn after_contents(p: ProxyView, contents: Seq<Seq<u8>>) -> (
    ProxyView,
    Seq<ActionView>,
)
    decreases contents.len(),
{
    if contents.len() == 0 {
        (p, Seq::empty())
    } else {
        let (q, early) = after_contents(p, contents.drop_last());
        let (r, late) = q.on_server(Some(PacketView::Content(contents.last())));
        (r, early + late)
    }
}

/// The contents, one behind the other.
pub open spec fn joined_contents(contents: Seq<Seq<u8>>) -> Seq<u8>
    decreases contents.len(),
{
    if contents.len() == 0 {
        Seq::empty()
    } else {
        joined_contents(contents.drop_last()) + contents.last()
    }
}

/// All output is shown: over any run of contents, what an interactive client shows and
/// then holds back is exactly the output without its negotiation sequences, and what
/// any other client shows is exactly the output.  Nothing but showing comes of it.
pub proof fn law_output_is_shown_whole(p: ProxyView, contents: Seq<Seq<u8>>)
    requires
        filter::strip(p.held) == (Seq::<u8>::empty(), p.held),
    ensures
        ({
            let (q, actions) = after_contents(p, contents);
            let all = p.held + joined_contents(contents);
            &&& p.interactive ==> (shown_bytes(actions), q.held) == filter::strip(all)
            &&& p.interactive && !filter::has_negotiation(all) ==> shown_bytes(actions) + q.held
                == all
            &&& !p.interactive ==> shown_bytes(actions) == joined_contents(contents) && q == p
            &&& q == (ProxyView { held: q.held, ..p })
            &&& forall|i: int| 0 <= i < actions.len() ==> (#[trigger] actions[i]) is Show
        }),
    decreases contents.len(),
{
    let (q, actions) = after_contents(p, contents);
    let all = p.held + joined_contents(contents);
    if contents.len() == 0 {
        assert(all == p.held);
    } else {
        let init = contents.drop_last();
        let last = contents.last();
        let (r, early) = after_contents(p, init);
        let late = r.on_server(Some(PacketView::Content(last))).1;
        law_output_is_shown_whole(p, init);
        lemma_shown_bytes_join(early, late);
        reveal_with_fuel(shown_bytes, 2);
        let before = p.held + joined_contents(init);
        assert(before + last == all);
        filter::law_cuts_do_not_matter(before, last);
        if p.interactive {
            let (shown, held) = filter::strip(r.held + last);
            if late.len() > 0 {
                assert(late.drop_first() == Seq::<ActionView>::empty());
                assert(shown + Seq::<u8>::empty() == shown);
            } else {
                assert(shown == Seq::<u8>::empty());
            }
            assert(shown_bytes(late) == shown);
        } else {
            assert(late.drop_first() == Seq::<ActionView>::empty());
            assert(last + Seq::<u8>::empty() == last);
            assert(shown_bytes(late) == last);
        }
        assert forall|i: int| 0 <= i < actions.len() implies (#[trigger] actions[i]) is Show by {
            if i < early.len() {
                assert(actions[i] == early[i]);
            } else {
                assert(actions[i] == late[i - early.len()]);
            }
        }
    }
    if p.interactive && !filter::has_negotiation(all) {
        filter::law_nothing_else_is_removed(all);
    }
}

/// A client that has just connected holds nothing back, as the law on output asks.
pub proof fn law_nothing_is_held_at_first()
    ensures
        filter::strip(Seq::empty()) == (Seq::<u8>::empty(), Seq::<u8>::empty()),
{
    filter::law_plain_output_passes(Seq::empty());
}

/// What comes from the server besides content: the exit status and the loss of the
/// server end the attach, at once and with that outcome; all else is ignored.  The
/// client's state stays as it is.
pub proof fn law_only_exit_and_loss_end_the_attach(p: ProxyView, message: Option<PacketView>)
    requires
        !(message matches Some(PacketView::Content(_))),
    ensures
        p.on_server(message).0 == p,
        match message {
            Some(PacketView::Exit(status)) => p.on_server(message).1 == seq![
                ActionView::Stop(Outcome::Exited(status)),
            ],
            None => p.on_server(message).1 == seq![ActionView::Stop(Outcome::ServerGone)],
            Some(_) => p.on_server(message).1.len() == 0,
        },
{
}

/// Reading from the server gives the packet, or nothing for any error.
pub proof fn law_messages_are_taken_as_read(message: Result<Packet, ProtocolError>)
    ensures
        message matches Ok(packet) ==> message_view(message) == Some(packet@),
        message is Err ==> message_view(message) is None,
{
}

/// Whether the actions end the attach by detaching.
pub open spec fn detaches(actions: Seq<ActionView>) -> bool {
    actions.contains(ActionView::Stop(Outcome::Detached))
}

/// Input ends the attach exactly when stdin was closed or the key presses, a prefix
/// press that was pending included, come to a detach.  Then the server is told last of
/// all, directly before the end; otherwise neither is it told nor does anything end.
pub proof fn law_detach_ends_the_attach(p: ProxyView, bytes: Seq<u8>)
    requires
        p.interactive,
    ensures
        ({
            let actions = p.on_input(bytes).1;
            let n = actions.len() as int;
            let ends = bytes.len() == 0 || keys(bytes, p.prefix_armed, p.prefix_key).detach;
            &&& detaches(actions) <==> ends
            &&& ends ==> n >= 2 && actions[n - 1] == ActionView::Stop(Outcome::Detached)
                && actions[n - 2] == (ActionView::Send {
                packet: PacketView::Detach,
                required: false,
            })
            &&& forall|i: int|
                0 <= i < (if ends {
                    n - 2
                } else {
                    n
                }) ==> ((#[trigger] actions[i]) matches ActionView::Send { packet, required }
                    && packet is Content && required)
        }),
{
    let actions = p.on_input(bytes).1;
    let n = actions.len() as int;
    let pressed = keys(bytes, p.prefix_armed, p.prefix_key);
    let ends = bytes.len() == 0 || pressed.detach;
    let packets = protocol::content_packets(pressed.out);
    protocol::law_content_is_carried(pressed.out);
    let sends = if bytes.len() == 0 {
        Seq::<ActionView>::empty()
    } else {
        p.forward(pressed.out)
    };
    assert forall|i: int| 0 <= i < sends.len() implies ((
    #[trigger] sends[i]) matches ActionView::Send { packet, required } && packet is Content
        && required) by {
        assert(packets[i] is Content);
    }
    if ends {
        assert(actions == sends + ProxyView::farewell());
        assert(actions[n - 1] == ProxyView::farewell()[1]);
        assert(actions[n - 2] == ProxyView::farewell()[0]);
    } else {
        assert(actions == sends);
    }
    assert forall|i: int|
        0 <= i < (if ends {
            n - 2
        } else {
            n
        }) implies ((#[trigger] actions[i]) matches ActionView::Send { packet, required }
        && packet is Content && required) by {
        assert(actions[i] == sends[i]);
    }
}

/// It does not matter how key presses are cut into reads: two reads lead to the same
/// end of the attach, the same bytes sent and the same state as one read of both.
pub proof fn law_reads_of_keys_may_be_cut(p: ProxyView, first: Seq<u8>, second: Seq<u8>)
    requires
        p.interactive,
        first.len() > 0,
        second.len() > 0,
    ensures
        ({
            let (q, a) = p.on_input(first);
            let (r, b) = q.on_input(second);
            let (w, c) = p.on_input(first + second);
            &&& detaches(a) ==> w == q && c == a
            &&& !detaches(a) ==> w == r && (detaches(c) <==> detaches(b)) && sent_bytes(c)
                == sent_bytes(a) + sent_bytes(b)
        }),
{
    let (q, a) = p.on_input(first);
    let (r, b) = q.on_input(second);
    let (w, c) = p.on_input(first + second);
    law_key_cuts_do_not_matter(first, second, p.prefix_armed, p.prefix_key);
    law_detach_ends_the_attach(p, first);
    law_detach_ends_the_attach(q, second);
    law_detach_ends_the_attach(p, first + second);
    if !p.readonly {
        law_input_is_sent_whole(p, first);
        law_input_is_sent_whole(q, second);
        law_input_is_sent_whole(p, first + second);
    } else {
        reveal_with_fuel(sent_bytes, 3);
        assert(Seq::<u8>::empty() + Seq::<u8>::empty() == Seq::<u8>::empty());
        assert(sent_bytes(a) == Seq::<u8>::empty());
        assert(sent_bytes(b) == Seq::<u8>::empty());
        assert(sent_bytes(c) == Seq::<u8>::empty());
    }
}

/// Prefix and then `d`, pressed in two reads, detaches; any other key does not, and
/// reaches the application with the prefix before it (alone, if it is the prefix key).
pub proof fn law_keys_pressed_one_by_one(p: ProxyView, key: u8)
    requires
        p.interactive,
        !p.prefix_armed,
        !p.readonly,
    ensures
        ({
            let (q, a) = p.on_input(seq![p.prefix_key]);
            let (r, b) = q.on_input(seq![key]);
            &&& a.len() == 0
            &&& q == (ProxyView { prefix_armed: true, ..p })
            &&& r == p
            &&& detaches(b) <==> key == 0x64 || key == 0x44
            &&& sent_bytes(b) == if key == 0x64 || key == 0x44 {
                Seq::empty()
            } else if key == p.prefix_key {
                seq![key]
            } else {
                seq![p.prefix_key, key]
            }
        }),
{
    reveal_with_fuel(keys, 3);
    let one = seq![p.prefix_key];
    let two = seq![key];
    assert(one.drop_first() == Seq::<u8>::empty());
    assert(two.drop_first() == Seq::<u8>::empty());
    let (q, a) = p.on_input(one);
    assert(keys(one, false, p.prefix_key).out == Seq::<u8>::empty());
    assert(a == Seq::<ActionView>::empty());
    law_detach_ends_the_attach(q, two);
    law_input_is_sent_whole(q, two);
    assert(keys(two, true, p.prefix_key).out == if key == 0x64 || key == 0x44 {
        Seq::empty()
    } else if key == p.prefix_key {
        seq![key]
    } else {
        seq![p.prefix_key, key]
    });
}

/// A key that is not the prefix key is sent at once, in one packet, and nothing else
/// comes of it.
pub proof fn law_a_plain_key_is_sent_at_once(p: ProxyView, key: u8)
    requires
        p.interactive,
        !p.prefix_armed,
        !p.readonly,
        key != p.prefix_key,
    ensures
        p.on_input(seq![key]).0 == p,
        p.on_input(seq![key]).1 == seq![
            ActionView::Send { packet: PacketView::Content(seq![key]), required: true },
        ],
{
    reveal_with_fuel(keys, 2);
    let one = seq![key];
    assert(one.drop_first() == Seq::<u8>::empty());
    assert(keys(one, false, p.prefix_key).out == one);
    assert(protocol::content_packets(one) == seq![PacketView::Content(one)]);
    assert(p.on_input(one).1 == seq![
        ActionView::Send { packet: PacketView::Content(one), required: true },
    ]);
}

/// A client that is not interactive never ends on its input: when stdin is closed it
/// stops reading, sends nothing and goes on showing output.
pub proof fn law_closed_stdin_only_stops_reading(p: ProxyView, bytes: Seq<u8>)
    requires
        !p.interactive,
    ensures
        forall|i: int|
            0 <= i < p.on_input(bytes).1.len() ==> !((
            #[trigger] p.on_input(bytes).1[i]) is Stop),
        bytes.len() == 0 ==> p.on_input(bytes) == (
            ProxyView { stdin_open: false, ..p },
            Seq::<ActionView>::empty(),
        ),
        bytes.len() > 0 ==> p.on_input(bytes).0 == p,
{
}

/// Input changes nothing of a client but whether a prefix press is pending and
/// whether stdin is open, and the latter not where it is interactive.
pub proof fn law_input_leaves_the_rest_alone(p: ProxyView, bytes: Seq<u8>)
    ensures
        ({
            let q = p.on_input(bytes).0;
            &&& q == (ProxyView {
                prefix_armed: q.prefix_armed,
                stdin_open: q.stdin_open,
                ..p
            })
            &&& p.interactive ==> q.stdin_open == p.stdin_open
            &&& !p.interactive ==> q.prefix_armed == p.prefix_armed
            &&& p.interactive && bytes.len() > 0 ==> q.prefix_armed == keys(
                bytes,
                p.prefix_armed,
                p.prefix_key,
            ).armed
        }),
{
}

/// What a read of stdin leads to is what its bytes lead to; nothing to read leads to
/// nothing, and an error fails the attach.
pub proof fn law_reads_of_stdin(p: ProxyView, read: StdinRead)
    ensures
        match read {
            StdinRead::Data(bytes) => p.on_stdin(read) == p.on_input(bytes@),
            StdinRead::WouldBlock => p.on_stdin(read) == (p, Seq::<ActionView>::empty()),
            StdinRead::Failed => p.on_stdin(read) == (p, seq![ActionView::Fail]),
        },
{
}

/// A wait that ends without events changes nothing unless a prefix press is pending;
/// that is over then, and a client that only watches sends nothing.
pub proof fn law_timeout_concerns_only_the_prefix(p: ProxyView)
    ensures
        p.on_timeout().0 == (ProxyView { prefix_armed: false, ..p }),
        !p.prefix_armed || p.readonly ==> p.on_timeout().1 == Seq::<ActionView>::empty(),
{
}

/// Actions are seen as what they are.
pub proof fn law_actions_are_seen_as_they_are(actions: Seq<ClientAction>, i: int)
    requires
        0 <= i < actions.len(),
    ensures
        actions_view(actions).len() == actions.len(),
        match actions[i] {
            ClientAction::Send { packet, required } => actions_view(actions)[i]
                == (ActionView::Send { packet: packet@, required }),
            ClientAction::Show(bytes) => actions_view(actions)[i] == ActionView::Show(bytes@),
            ClientAction::Stop(outcome) => actions_view(actions)[i] == ActionView::Stop(outcome),
            ClientAction::Fail => actions_view(actions)[i] is Fail,
        },
{
}

} // verus!
