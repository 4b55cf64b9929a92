//! The session server's decisions: what becomes of the bytes that clients and the
//! pty send.
//!
//! Whoever drives a `Server` owns the pty and the sockets.  It polls them, hands
//! what it read to the server and performs what the server answers.  All socket
//! I/O is non-blocking and buffered here, so a slow or stuck client can never
//! block the server or stall the other clients.

use std::collections::VecDeque;
use vstd::prelude::*;

use crate::client;
use crate::path;
use crate::protocol;
use crate::protocol::{Packet, PacketView, Parsed};
use crate::protocol::{FLAG_LOWPRIORITY, FLAG_READONLY};
use crate::pty;
use crate::pty::Winsize;
use crate::sockdir;

verus! {

/// How many bytes of recent pty output to retain and replay to a client when it
/// attaches, so the screen isn't blank on reattach.
pub const REPLAY_CAP: usize = 64 * 1024;

/// Hard cap on a client's pending output.  A client that can't keep up is dropped
/// rather than allowed to grow the server's memory without bound.
pub const OUT_CAP: usize = 8 * 1024 * 1024;

// ---- one client -------------------------------------------------------------

/// A connected client.
#[derive(Debug)]
pub struct Client {
    id: i32,
    inbuf: Vec<u8>,
    outbuf: Vec<u8>,
    readonly: bool,
    lowpriority: bool,
    dead: bool,
}

pub struct ClientView {
    /// Tells the client's connection from the others.
    pub id: i32,
    /// What the client sent and was not acted on yet.
    pub inbuf: Seq<u8>,
    /// What is to be written to the client.
    pub outbuf: Seq<u8>,
    pub readonly: bool,
    pub lowpriority: bool,
    /// The client is to be dropped.
    pub dead: bool,
}

impl View for Client {
    type V = ClientView;

    closed spec fn view(&self) -> ClientView {
        ClientView {
            id: self.id,
            inbuf: self.inbuf@,
            outbuf: self.outbuf@,
            readonly: self.readonly,
            lowpriority: self.lowpriority,
            dead: self.dead,
        }
    }
}

/// What came of writing to a client's socket.
#[derive(Debug, Clone, Copy)]
pub enum WriteResult {
    /// So many bytes were taken.
    Wrote(usize),
    Interrupted,
    WouldBlock,
    Failed,
}

/// What came of reading a client's socket.
#[derive(Debug)]
pub enum ReadResult {
    /// These bytes came; none means that the client hung up.
    Data(Vec<u8>),
    Interrupted,
    WouldBlock,
    Failed,
}

impl ClientView {
    pub open spec fn fresh(id: i32) -> ClientView {
        ClientView {
            id,
            inbuf: Seq::empty(),
            outbuf: Seq::empty(),
            readonly: false,
            lowpriority: false,
            dead: false,
        }
    }

    /// Appends a packet to the pending output.  A dead client gets nothing more,
    /// and one that falls too far behind is dropped.
    pub open spec fn send(self, packet: PacketView) -> ClientView {
        if self.dead {
            self
        } else {
            let outbuf = self.outbuf + packet.encode();
            ClientView { outbuf, dead: outbuf.len() > OUT_CAP, ..self }
        }
    }

    /// What a write of pending output makes of the client.
    pub open spec fn on_write(self, result: WriteResult) -> ClientView {
        match result {
            WriteResult::Wrote(n) => ClientView {
                outbuf: self.outbuf.skip(n as int),
                dead: self.dead || n == 0,
                ..self
            },
            WriteResult::Failed => ClientView { dead: true, ..self },
            _ => self,
        }
    }

    /// Whether to go on writing after that: until all is written, or the socket
    /// takes no more, or the client is lost.
    pub open spec fn writes_on(self, result: WriteResult) -> bool {
        match result {
            WriteResult::Wrote(n) => 0 < n < self.outbuf.len(),
            WriteResult::Interrupted => self.outbuf.len() > 0,
            _ => false,
        }
    }

    /// What a read makes of the client.
    pub open spec fn on_read(self, result: ReadResult) -> ClientView {
        match result {
            ReadResult::Data(bytes) => ClientView {
                inbuf: self.inbuf + bytes@,
                dead: self.dead || bytes@.len() == 0,
                ..self
            },
            ReadResult::Failed => ClientView { dead: true, ..self },
            _ => self,
        }
    }

    /// Whether to go on reading after that: until nothing more is there, or the
    /// client is lost.
    pub open spec fn reads_on(result: ReadResult) -> bool {
        match result {
            ReadResult::Data(bytes) => bytes@.len() > 0,
            ReadResult::Interrupted => true,
            _ => false,
        }
    }

    /// The pending output of a client that is not being dropped is bounded.
    pub open spec fn bounded(self) -> bool {
        !self.dead ==> self.outbuf.len() <= OUT_CAP
    }
}

impl Client {
    pub fn new(id: i32) -> (c: Client)
        ensures
            c@ == ClientView::fresh(id),
    {
        Client {
            id,
            inbuf: Vec::new(),
            outbuf: Vec::new(),
            readonly: false,
            lowpriority: false,
            dead: false,
        }
    }

    /// Appends a packet to the pending output; tells whether to try to push it out
    /// at once.
    pub fn send(&mut self, packet: &Packet) -> (flush: bool)
        ensures
            final(self)@ == old(self)@.send(packet@),
            flush == !final(self)@.dead,
    {
        if self.dead {
            return false;
        }
        let mut frame = packet.encode();
        self.outbuf.append(&mut frame);
        if self.outbuf.len() > OUT_CAP {
            self.dead = true;
            return false;
        }
        true
    }

    /// The output to be written.
    pub fn pending(&self) -> (bytes: &[u8])
        ensures
            bytes@ == self@.outbuf,
    {
        self.outbuf.as_slice()
    }

    pub fn wants_write(&self) -> (wants: bool)
        ensures
            wants == (self@.outbuf.len() > 0),
    {
        !self.outbuf.is_empty()
    }

    /// Takes note of a write of the pending output; tells whether to write on.
    pub fn on_write(&mut self, result: WriteResult) -> (go_on: bool)
        requires
            result matches WriteResult::Wrote(n) ==> n <= old(self)@.outbuf.len(),
        ensures
            final(self)@ == old(self)@.on_write(result),
            go_on == old(self)@.writes_on(result),
    {
        match result {
            WriteResult::Wrote(n) => {
                if n == 0 {
                    self.dead = true;
                    assert(self.outbuf@.skip(0) == self.outbuf@);
                    return false;
                }
                let rest = self.outbuf.split_off(n);
                self.outbuf = rest;
                !self.outbuf.is_empty()
            },
            WriteResult::Interrupted => !self.outbuf.is_empty(),
            WriteResult::WouldBlock => false,
            WriteResult::Failed => {
                self.dead = true;
                false
            },
        }
    }

    /// Takes note of a read; tells whether to read on.
    pub fn on_read(&mut self, result: ReadResult) -> (go_on: bool)
        ensures
            final(self)@ == old(self)@.on_read(result),
            go_on == ClientView::reads_on(result),
    {
        match result {
            ReadResult::Data(bytes) => {
                let mut bytes = bytes;
                if bytes.len() == 0 {
                    self.dead = true;
                    assert(self.inbuf@ + bytes@ == self.inbuf@);
                    return false;
                }
                self.inbuf.append(&mut bytes);
                true
            },
            ReadResult::Interrupted => true,
            ReadResult::WouldBlock => false,
            ReadResult::Failed => {
                self.dead = true;
                false
            },
        }
    }
}

// ---- the replay buffer ------------------------------------------------------

/// The last `n` elements of `s`, or all if there are fewer.
pub open spec fn last_of<T>(s: Seq<T>, n: nat) -> Seq<T> {
    if s.len() <= n {
        s
    } else {
        s.skip(s.len() - n)
    }
}

/// Appends output to the replay buffer and forgets what is too old.
fn retain_output(replay: &mut VecDeque<u8>, bytes: &[u8])
    ensures
        final(replay)@ == last_of(old(replay)@ + bytes@, REPLAY_CAP as nat),
{
    let ghost all = replay@ + bytes@;
    let mut i: usize = 0;
    assert(replay@ + bytes@.take(0) == replay@);
    while i < bytes.len()
        invariant
            i <= bytes@.len(),
            replay@ == old(replay)@ + bytes@.take(i as int),
        decreases bytes@.len() - i,
    {
        replay.push_back(bytes[i]);
        assert(bytes@.take(i + 1) == bytes@.take(i as int).push(bytes@[i as int]));
        i += 1;
    }
    assert(bytes@.take(bytes@.len() as int) == bytes@);
    assert(all.skip(0) == all);
    while replay.len() > REPLAY_CAP
        invariant
            replay@.len() <= all.len(),
            replay@ == all.skip(all.len() - replay@.len()),
            all.len() <= REPLAY_CAP ==> replay@ == all,
            all.len() > REPLAY_CAP ==> replay@.len() >= REPLAY_CAP,
        decreases replay@.len(),
    {
        let ghost n = replay@.len();
        let _ = replay.pop_front();
        assert(replay@ == all.skip(all.len() - (n - 1)));
    }
}

/// The packets that replay what was retained.
fn replay_packets(replay: &VecDeque<u8>) -> (packets: Vec<Packet>)
    ensures
        protocol::packets_view(packets@) == protocol::content_packets(replay@),
{
    let mut snapshot: Vec<u8> = Vec::new();
    let mut i: usize = 0;
    while i < replay.len()
        invariant
            i <= replay@.len(),
            snapshot@ == replay@.take(i as int),
        decreases replay@.len() - i,
    {
        snapshot.push(replay[i]);
        i += 1;
        assert(snapshot@ == replay@.take(i as int));
    }
    assert(replay@.take(replay@.len() as int) == replay@);
    protocol::split_content(snapshot.as_slice())
}

// ---- the server -------------------------------------------------------------

/// The state of a session between events.
#[derive(Debug)]
pub struct Server {
    clients: Vec<Client>,
    replay: VecDeque<u8>,
    socket_path: Vec<u8>,
}

pub struct ServerView {
    pub clients: Seq<ClientView>,
    /// Recent pty output, replayed to clients on attach.
    pub replay: Seq<u8>,
    /// Where the session's socket is; follows a rename.
    pub socket_path: Seq<u8>,
}

pub open spec fn clients_view(clients: Seq<Client>) -> Seq<ClientView> {
    Seq::new(clients.len(), |i: int| clients[i]@)
}

impl View for Server {
    type V = ServerView;

    closed spec fn view(&self) -> ServerView {
        ServerView {
            clients: clients_view(self.clients@),
            replay: self.replay@,
            socket_path: self.socket_path@,
        }
    }
}

/// What came of reading the pty.
#[derive(Debug)]
pub enum PtyRead {
    /// This output came; none means that the command is gone.
    Data(Vec<u8>),
    Failed,
}

/// What one packet of a client leads to.
#[derive(Debug)]
pub enum Step {
    /// No whole packet is there: wait for more bytes.
    Wait,
    /// The client left or broke the protocol; it is marked dead.
    Gone,
    /// Nothing is to be done; go on with the next packet.
    Ignore,
    /// Write these bytes to the pty (a failure is ignored), then go on.
    WritePty(Vec<u8>),
    /// Give the pty this window size (a failure is ignored), then go on.
    SetWinsize(Winsize),
    /// Send these packets to the client, one after the other, then go on.
    Replay(Vec<Packet>),
    /// Rename the socket to this path, if there is one.  The client that asked was
    /// there for that only; it is marked dead.
    Rename(Option<Vec<u8>>),
}

pub enum StepView {
    Wait,
    Gone,
    Ignore,
    WritePty(Seq<u8>),
    SetWinsize(Winsize),
    Replay(Seq<PacketView>),
    Rename(Option<Seq<u8>>),
}

impl View for Step {
    type V = StepView;

    open spec fn view(&self) -> StepView {
        match self {
            Step::Wait => StepView::Wait,
            Step::Gone => StepView::Gone,
            Step::Ignore => StepView::Ignore,
            Step::WritePty(bytes) => StepView::WritePty(bytes@),
            Step::SetWinsize(ws) => StepView::SetWinsize(*ws),
            Step::Replay(packets) => StepView::Replay(protocol::packets_view(packets@)),
            Step::Rename(to) => StepView::Rename(
                match to {
                    Some(p) => Some(p@),
                    None => None,
                },
            ),
        }
    }
}

impl StepView {
    /// Whether the client's next packet is due after this step.
    pub open spec fn goes_on(self) -> bool {
        !(self is Wait || self is Gone || self is Rename)
    }
}

impl Step {
    pub fn goes_on(&self) -> (on: bool)
        ensures
            on == self@.goes_on(),
    {
        match self {
            Step::Wait | Step::Gone | Step::Rename(_) => false,
            _ => true,
        }
    }
}

/// How many clients stand before the first that is not of low priority.
pub open spec fn low_before(clients: Seq<ClientView>) -> nat
    decreases clients.len(),
{
    if clients.len() == 0 || !clients[0].lowpriority {
        0
    } else {
        1 + low_before(clients.drop_first())
    }
}

/// Index of the client that controls the window size: the first that is not of low
/// priority, or 0 if all are of low priority.
pub open spec fn controlling(clients: Seq<ClientView>) -> nat {
    if low_before(clients) < clients.len() {
        low_before(clients)
    } else {
        0
    }
}

/// Where a socket at `from` goes when the session is renamed to `name`: it stays in
/// its directory.  `None` for an invalid name.
pub open spec fn rename_target(from: Seq<u8>, name: Seq<char>) -> Option<Seq<u8>> {
    if !sockdir::valid_name(name) {
        None
    } else {
        match path::parent_of(from) {
            Some(dir) => Some(path::joined(dir, sockdir::path_bytes(name))),
            None => None,
        }
    }
}

impl ServerView {
    pub open spec fn with_client(self, idx: int, c: ClientView) -> ServerView {
        ServerView { clients: self.clients.update(idx, c), ..self }
    }

    /// The same packet is sent to every client.
    pub open spec fn broadcast(self, packet: PacketView) -> ServerView {
        ServerView {
            clients: Seq::new(self.clients.len(), |i: int| self.clients[i].send(packet)),
            ..self
        }
    }

    /// Output of the pty came: it is retained for replay, and sent to every client.
    pub open spec fn on_output(self, bytes: Seq<u8>) -> ServerView {
        ServerView {
            replay: last_of(self.replay + bytes, REPLAY_CAP as nat),
            ..self
        }.broadcast(PacketView::Content(bytes))
    }

    /// What a packet leads to that client `idx` sent.
    pub open spec fn on_packet(self, idx: int, packet: PacketView) -> (ServerView, StepView) {
        let c = self.clients[idx];
        match packet {
            PacketView::Content(bytes) => (
                self,
                if c.readonly {
                    StepView::Ignore
                } else {
                    StepView::WritePty(bytes)
                },
            ),
            // Only the controlling client dictates the window size, so a passive
            // viewer can't shrink it.
            PacketView::Resize { rows, cols } => (
                self,
                if !c.readonly && idx == controlling(self.clients) {
                    StepView::SetWinsize(
                        Winsize { ws_row: rows, ws_col: cols, ws_xpixel: 0, ws_ypixel: 0 },
                    )
                } else {
                    StepView::Ignore
                },
            ),
            PacketView::Attach { flags } => (
                self.with_client(
                    idx,
                    ClientView {
                        readonly: flags & FLAG_READONLY != 0,
                        lowpriority: flags & FLAG_LOWPRIORITY != 0,
                        ..c
                    },
                ),
                StepView::Replay(protocol::content_packets(self.replay)),
            ),
            PacketView::Detach => (
                self.with_client(idx, ClientView { dead: true, ..c }),
                StepView::Gone,
            ),
            PacketView::Rename(name) => (
                self.with_client(idx, ClientView { dead: true, ..c }),
                StepView::Rename(rename_target(self.socket_path, name)),
            ),
            // Clients never legitimately send these.
            PacketView::Exit(_) => (self, StepView::Ignore),
            PacketView::Pid(_) => (self, StepView::Ignore),
        }
    }

    /// Takes one packet out of what client `idx` sent and acts on it.
    pub open spec fn step(self, idx: int) -> (ServerView, StepView) {
        let c = self.clients[idx];
        match protocol::parse(c.inbuf) {
            Parsed::NeedMore => (self, StepView::Wait),
            Parsed::Invalid { .. } => (
                self.with_client(idx, ClientView { dead: true, ..c }),
                StepView::Gone,
            ),
            Parsed::Complete { packet, used } => self.with_client(
                idx,
                ClientView { inbuf: c.inbuf.skip(used as int), ..c },
            ).on_packet(idx, packet),
        }
    }
}

/// Where the socket goes when the session is renamed.
pub fn rename_socket(socket_path: &[u8], new_name: &str) -> (to: Option<Vec<u8>>)
    ensures
        match to {
            Some(p) => rename_target(socket_path@, new_name@) == Some(p@),
            None => rename_target(socket_path@, new_name@) is None,
        },
{
    if !sockdir::is_valid_name(new_name) {
        return None;
    }
    match path::parent(socket_path) {
        Some(dir) => Some(path::join(dir.as_slice(), new_name.as_bytes())),
        None => None,
    }
}

/// Index of the client that controls the window size.
pub fn controlling_client(clients: &Vec<Client>) -> (idx: usize)
    ensures
        idx == controlling(clients_view(clients@)),
{
    let ghost all = clients_view(clients@);
    let mut i: usize = 0;
    assert(all.skip(0) == all);
    while i < clients.len()
        invariant
            i <= clients@.len(),
            all == clients_view(clients@),
            low_before(all) == i + low_before(all.skip(i as int)),
        decreases clients@.len() - i,
    {
        assert(all.skip(i as int)[0] == clients@[i as int]@);
        if !clients[i].lowpriority {
            return i;
        }
        assert(all.skip(i as int).drop_first() == all.skip(i + 1));
        i += 1;
    }
    0
}

/// The numbers of the signals that end a session.
#[derive(Debug, Clone, Copy)]
pub struct StopSignals {
    pub child: i32,
    pub term: i32,
    pub int: i32,
}

pub open spec fn stops(sig: i32, stop: StopSignals) -> bool {
    sig == stop.child || sig == stop.term || sig == stop.int
}

/// Whether one of the signals that arrived ends the session.
pub fn on_signals(sigs: &[i32], stop: &StopSignals) -> (shut_down: bool)
    ensures
        shut_down == exists|i: int| 0 <= i < sigs@.len() && stops(#[trigger] sigs@[i], *stop),
{
    let mut i: usize = 0;
    while i < sigs.len()
        invariant
            i <= sigs@.len(),
            forall|k: int| 0 <= k < i ==> !stops(#[trigger] sigs@[k], *stop),
        decreases sigs@.len() - i,
    {
        let sig: i32 = sigs[i];
        if sig == stop.child || sig == stop.term || sig == stop.int {
            assert(stops(sigs@[i as int], *stop));
            return true;
        }
        i += 1;
    }
    false
}

/// How the supervised command ended.
#[derive(Debug, Clone, Copy, PartialEq, Eq, Structural)]
pub enum ChildEnd {
    Exited(i32),
    /// Killed by the signal of this number.
    Signaled(u8),
    /// Nothing is known.
    Unknown,
}

/// The exit status that clients are told: the command's own, or 128 and the number
/// of the signal that killed it.
pub open spec fn spec_exit_status(end: ChildEnd) -> i32 {
    match end {
        ChildEnd::Exited(code) => code,
        ChildEnd::Signaled(sig) => (128 + sig) as i32,
        ChildEnd::Unknown => 0,
    }
}

pub fn exit_status(end: ChildEnd) -> (status: i32)
    ensures
        status == spec_exit_status(end),
{
    match end {
        ChildEnd::Exited(code) => code,
        ChildEnd::Signaled(sig) => 128 + sig as i32,
        ChildEnd::Unknown => 0,
    }
}

impl Server {
    /// A session without clients, with its socket at `socket_path`.
    pub fn new(socket_path: Vec<u8>) -> (s: Server)
        ensures
            s@ == (ServerView {
                clients: Seq::empty(),
                replay: Seq::empty(),
                socket_path: socket_path@,
            }),
    {
        let s = Server { clients: Vec::new(), replay: VecDeque::new(), socket_path };
        assert(s@.clients == Seq::<ClientView>::empty());
        s
    }

    pub fn client_count(&self) -> (n: usize)
        ensures
            n == self@.clients.len(),
    {
        self.clients.len()
    }

    pub fn socket_path(&self) -> (p: &[u8])
        ensures
            p@ == self@.socket_path,
    {
        self.socket_path.as_slice()
    }

    /// The connections to poll, each always for input and, where told so, for
    /// writability because output is pending.
    pub fn poll_set(&self) -> (set: Vec<(i32, bool)>)
        ensures
            set@ == Seq::new(
                self@.clients.len(),
                |i: int| (self@.clients[i].id, self@.clients[i].outbuf.len() > 0),
            ),
    {
        let mut set: Vec<(i32, bool)> = Vec::new();
        let mut i: usize = 0;
        while i < self.clients.len()
            invariant
                i <= self.clients@.len(),
                set@.len() == i,
                forall|k: int|
                    0 <= k < i ==> #[trigger] set@[k] == (
                        self@.clients[k].id,
                        self@.clients[k].outbuf.len() > 0,
                    ),
            decreases self.clients@.len() - i,
        {
            set.push((self.clients[i].id, self.clients[i].wants_write()));
            i += 1;
        }
        set
    }

    /// Output of the pty, to be retained for replay: the packet to broadcast, or
    /// `None` if the session is over.  The pty is read in chunks that fit into a frame.
    pub fn on_pty(&mut self, read: PtyRead) -> (packet: Option<Packet>)
        ensures
            match read {
                PtyRead::Data(bytes) if bytes@.len() > 0 => {
                    &&& packet is Some
                    &&& packet->Some_0@ == PacketView::Content(bytes@)
                    &&& final(self)@ == (ServerView {
                        replay: last_of(old(self)@.replay + bytes@, REPLAY_CAP as nat),
                        ..old(self)@
                    })
                },
                _ => packet is None && final(self)@ == old(self)@,
            },
    {
        match read {
            PtyRead::Data(bytes) => {
                if bytes.len() == 0 {
                    return None;
                }
                retain_output(&mut self.replay, bytes.as_slice());
                Some(Packet::Content(bytes))
            },
            PtyRead::Failed => None,
        }
    }

    /// Appends a packet to a client's pending output; tells whether to try to push
    /// it out at once.
    pub fn send(&mut self, idx: usize, packet: &Packet) -> (flush: bool)
        requires
            idx < old(self)@.clients.len(),
        ensures
            final(self)@ == old(self)@.with_client(
                idx as int,
                old(self)@.clients[idx as int].send(packet@),
            ),
            flush == !final(self)@.clients[idx as int].dead,
    {
        let ghost before = self@;
        let flush = self.clients[idx].send(packet);
        assert(self@.clients == before.clients.update(
            idx as int,
            before.clients[idx as int].send(packet@),
        ));
        flush
    }

    /// Appends a packet to every client's pending output; tells for each client
    /// whether to try to push it out at once.
    pub fn broadcast(&mut self, packet: &Packet) -> (flush: Vec<bool>)
        ensures
            final(self)@ == old(self)@.broadcast(packet@),
            final(self)@.clients.len() == old(self)@.clients.len(),
            forall|i: int|
                0 <= i < old(self)@.clients.len() ==> #[trigger] final(self)@.clients[i] == old(
                    self,
                )@.clients[i].send(packet@),
            flush@ == Seq::new(
                final(self)@.clients.len(),
                |i: int| !final(self)@.clients[i].dead,
            ),
    {
        let ghost before = self@;
        let mut flush: Vec<bool> = Vec::new();
        let n: usize = self.client_count();
        let mut i: usize = 0;
        while i < n
            invariant
                i <= n == before.clients.len(),
                before == old(self)@,
                self@.clients.len() == before.clients.len(),
                self@.replay == before.replay,
                self@.socket_path == before.socket_path,
                forall|k: int|
                    0 <= k < i ==> #[trigger] self@.clients[k] == before.clients[k].send(packet@),
                forall|k: int|
                    i <= k < before.clients.len() ==> #[trigger] self@.clients[k]
                        == before.clients[k],
                flush@.len() == i,
                forall|k: int| 0 <= k < i ==> #[trigger] flush@[k] == !self@.clients[k].dead,
            decreases n - i,
        {
            let goes = self.send(i, packet);
            flush.push(goes);
            i += 1;
        }
        assert(self@.clients == before.broadcast(packet@).clients);
        flush
    }

    /// The output pending for a client.
    pub fn pending(&self, idx: usize) -> (bytes: &[u8])
        requires
            idx < self@.clients.len(),
        ensures
            bytes@ == self@.clients[idx as int].outbuf,
    {
        self.clients[idx].pending()
    }

    /// Takes note of a write of a client's pending output; tells whether to write
    /// on.
    pub fn on_write(&mut self, idx: usize, result: WriteResult) -> (go_on: bool)
        requires
            idx < old(self)@.clients.len(),
            result matches WriteResult::Wrote(n) ==> n <= old(
                self,
            )@.clients[idx as int].outbuf.len(),
        ensures
            final(self)@ == old(self)@.with_client(
                idx as int,
                old(self)@.clients[idx as int].on_write(result),
            ),
            go_on == old(self)@.clients[idx as int].writes_on(result),
    {
        let ghost before = self@;
        let go_on = self.clients[idx].on_write(result);
        assert(self@.clients == before.clients.update(
            idx as int,
            before.clients[idx as int].on_write(result),
        ));
        go_on
    }

    /// Takes note of a read of a client's socket; tells whether to read on.
    pub fn on_read(&mut self, idx: usize, result: ReadResult) -> (go_on: bool)
        requires
            idx < old(self)@.clients.len(),
        ensures
            final(self)@ == old(self)@.with_client(
                idx as int,
                old(self)@.clients[idx as int].on_read(result),
            ),
            go_on == ClientView::reads_on(result),
    {
        let ghost before = self@;
        let go_on = self.clients[idx].on_read(result);
        assert(self@.clients == before.clients.update(
            idx as int,
            before.clients[idx as int].on_read(result),
        ));
        go_on
    }

    /// Takes the next packet out of what client `idx` sent and acts on it.
    pub fn step(&mut self, idx: usize) -> (step: Step)
        requires
            idx < old(self)@.clients.len(),
        ensures
            (final(self)@, step@) == old(self)@.step(idx as int),
    {
        let ghost before = self@;
        let ghost c = before.clients[idx as int];
        let packet = match Packet::try_decode(&mut self.clients[idx].inbuf) {
            Ok(Some(packet)) => packet,
            Ok(None) => {
                assert(self@.clients == before.clients);
                return Step::Wait;
            },
            Err(_) => {
                self.clients[idx].dead = true;
                assert(self@.clients == before.clients.update(
                    idx as int,
                    ClientView { dead: true, ..c },
                ));
                return Step::Gone;
            },
        };
        let ghost mid = self@;
        let ghost d = mid.clients[idx as int];
        assert(mid.clients == before.clients.update(idx as int, d));
        assert(before.step(idx as int) == mid.on_packet(idx as int, packet@));
        match packet {
            Packet::Content(bytes) => {
                if self.clients[idx].readonly {
                    Step::Ignore
                } else {
                    Step::WritePty(bytes)
                }
            },
            Packet::Resize { rows, cols } => {
                if !self.clients[idx].readonly && idx == controlling_client(&self.clients) {
                    Step::SetWinsize(pty::winsize_from(rows, cols))
                } else {
                    Step::Ignore
                }
            },
            Packet::Attach { flags } => {
                self.clients[idx].readonly = flags & FLAG_READONLY != 0;
                self.clients[idx].lowpriority = flags & FLAG_LOWPRIORITY != 0;
                assert(self@.clients == mid.clients.update(
                    idx as int,
                    ClientView {
                        readonly: flags & FLAG_READONLY != 0,
                        lowpriority: flags & FLAG_LOWPRIORITY != 0,
                        ..d
                    },
                ));
                Step::Replay(replay_packets(&self.replay))
            },
            Packet::Detach => {
                self.clients[idx].dead = true;
                assert(self@.clients == mid.clients.update(
                    idx as int,
                    ClientView { dead: true, ..d },
                ));
                Step::Gone
            },
            Packet::Rename(new_name) => {
                self.clients[idx].dead = true;
                assert(self@.clients == mid.clients.update(
                    idx as int,
                    ClientView { dead: true, ..d },
                ));
                Step::Rename(rename_socket(self.socket_path.as_slice(), new_name.as_str()))
            },
            Packet::Exit(_) | Packet::Pid(_) => Step::Ignore,
        }
    }

    /// The socket has been renamed to `to`: status updates and cleanup follow it.
    pub fn renamed(&mut self, to: Vec<u8>)
        ensures
            final(self)@ == (ServerView { socket_path: to@, ..old(self)@ }),
    {
        self.socket_path = to;
    }

    /// Takes a new connection in and announces the server's pid, so that probes can confirm
    /// that the session is alive; tells whether to try to push that out at once.
    pub fn accept(&mut self, id: i32, pid: u32) -> (flush: bool)
        ensures
            final(self)@ == (ServerView {
                clients: old(self)@.clients.push(
                    ClientView::fresh(id).send(PacketView::Pid(pid)),
                ),
                ..old(self)@
            }),
            flush == !ClientView::fresh(id).send(PacketView::Pid(pid)).dead,
    {
        let ghost before = self@;
        let mut c = Client::new(id);
        let flush = c.send(&Packet::Pid(pid));
        self.clients.push(c);
        assert(self@.clients == before.clients.push(
            ClientView::fresh(id).send(PacketView::Pid(pid)),
        ));
        flush
    }

    /// Drops the clients that hung up or fell too far behind.
    pub fn drop_dead(&mut self)
        ensures
            final(self)@ == (ServerView {
                clients: old(self)@.clients.filter(|c: ClientView| !c.dead),
                ..old(self)@
            }),
    {
        let ghost before = self@.clients;
        let ghost alive = |c: ClientView| !c.dead;
        let mut left: Vec<Client> = Vec::new();
        let mut kept: Vec<Client> = Vec::new();
        core::mem::swap(&mut left, &mut self.clients);
        assert(clients_view(left@) == before);
        assert(clients_view(kept@) + before.filter(alive) == before.filter(alive));
        while left.len() > 0
            invariant
                clients_view(kept@) + clients_view(left@).filter(alive) == before.filter(alive),
                alive == |c: ClientView| !c.dead,
                self@.replay == old(self)@.replay,
                self@.socket_path == old(self)@.socket_path,
            decreases left@.len(),
        {
            let ghost list = clients_view(left@);
            let ghost shown = clients_view(kept@);
            let c = left.remove(0);
            proof {
                let tail = clients_view(left@);
                assert(list == seq![c@] + tail);
                Seq::filter_distributes_over_add(seq![c@], tail, alive);
                lemma_filter_one(c@, alive);
            }
            if !c.dead {
                let ghost v = c@;
                kept.push(c);
                proof {
                    let tail = clients_view(left@).filter(alive);
                    assert(clients_view(kept@) == shown.push(v));
                    assert(shown.push(v) + tail == shown + (seq![v] + tail));
                }
            } else {
                proof {
                    let tail = clients_view(left@).filter(alive);
                    assert(Seq::<ClientView>::empty() + tail == tail);
                }
            }
        }
        proof {
            reveal(Seq::filter);
            assert(clients_view(left@).filter(alive) == Seq::<ClientView>::empty());
            assert(clients_view(kept@) + Seq::<ClientView>::empty() == clients_view(kept@));
        }
        self.clients = kept;
    }

    /// The mode that reflects the attach state in the socket's permission bits.
    pub fn socket_mode(&self) -> (mode: u32)
        ensures
            mode == if self@.clients.len() > 0 {
                sockdir::ATTACHED_MODE
            } else {
                sockdir::BASE_MODE
            },
    {
        sockdir::socket_mode(!self.clients.is_empty())
    }

    /// What a client is still to be written when the session ends: what is pending,
    /// then the exit status.
    pub fn farewell(&self, idx: usize, end: ChildEnd) -> (bytes: Vec<u8>)
        requires
            idx < self@.clients.len(),
        ensures
            bytes@ == self@.clients[idx as int].outbuf + PacketView::Exit(
                spec_exit_status(end),
            ).encode(),
    {
        let mut bytes = vstd::slice::slice_to_vec(self.clients[idx].pending());
        Packet::Exit(exit_status(end)).write_to(&mut bytes);
        bytes
    }
}

proof fn lemma_filter_one(c: ClientView, p: spec_fn(ClientView) -> bool)
    ensures
        seq![c].filter(p) == if p(c) {
            seq![c]
        } else {
            Seq::empty()
        },
{
    reveal(Seq::filter);
    reveal_with_fuel(Seq::filter, 2);
    let one = seq![c];
    assert(one.drop_last() == Seq::<ClientView>::empty());
    assert(one.last() == c);
    assert(Seq::<ClientView>::empty().push(c) == one);
}

// ---- laws -------------------------------------------------------------------

/// A read-only client's input is ignored: it neither reaches the pty nor changes
/// the window size.
pub proof fn law_readonly_input_is_ignored(s: ServerView, idx: int)
    requires
        0 <= idx < s.clients.len(),
        s.clients[idx].readonly,
    ensures
        !(s.step(idx).1 is WritePty),
        !(s.step(idx).1 is SetWinsize),
{
}

/// Only the controlling client changes the window size.
pub proof fn law_only_the_controlling_client_resizes(s: ServerView, idx: int)
    requires
        0 <= idx < s.clients.len(),
        s.step(idx).1 is SetWinsize,
    ensures
        idx == controlling(s.clients),
{
    let c = s.clients[idx];
    match protocol::parse(c.inbuf) {
        Parsed::Complete { packet, used } => {
            let d = ClientView { inbuf: c.inbuf.skip(used as int), ..c };
            lemma_low_before_same(s.clients, s.clients.update(idx, d));
        },
        _ => {},
    }
}

proof fn lemma_low_before(clients: Seq<ClientView>)
    ensures
        low_before(clients) <= clients.len(),
        forall|i: int| 0 <= i < low_before(clients) ==> (#[trigger] clients[i]).lowpriority,
        low_before(clients) < clients.len() ==> !clients[low_before(clients) as int].lowpriority,
    decreases clients.len(),
{
    if clients.len() > 0 && clients[0].lowpriority {
        let tail = clients.drop_first();
        lemma_low_before(tail);
        assert forall|i: int| 0 <= i < low_before(clients) implies (
        #[trigger] clients[i]).lowpriority by {
            if i > 0 {
                assert(clients[i] == tail[i - 1]);
            }
        }
    }
}

proof fn lemma_low_before_same(a: Seq<ClientView>, b: Seq<ClientView>)
    requires
        a.len() == b.len(),
        forall|i: int| 0 <= i < a.len() ==> (#[trigger] a[i]).lowpriority == b[i].lowpriority,
    ensures
        low_before(a) == low_before(b),
    decreases a.len(),
{
    if a.len() > 0 {
        let x = a.drop_first();
        let y = b.drop_first();
        assert forall|i: int| 0 <= i < x.len() implies (#[trigger] x[i]).lowpriority
            == y[i].lowpriority by {
            assert(x[i] == a[i + 1] && y[i] == b[i + 1]);
        }
        lemma_low_before_same(x, y);
    }
}

/// A low-priority client never becomes the one that controls the window size, as
/// long as any client is not of low priority; the first such client does.
pub proof fn law_low_priority_gives_way(clients: Seq<ClientView>)
    requires
        exists|i: int| 0 <= i < clients.len() && !(#[trigger] clients[i]).lowpriority,
    ensures
        controlling(clients) < clients.len(),
        !clients[controlling(clients) as int].lowpriority,
        forall|i: int| 0 <= i < controlling(clients) ==> (#[trigger] clients[i]).lowpriority,
{
    lemma_low_before(clients);
}

/// What one client sends changes nothing for the others, and nothing of what was
/// retained for replay.
pub proof fn law_clients_are_independent(s: ServerView, idx: int, other: int)
    requires
        0 <= idx < s.clients.len(),
        0 <= other < s.clients.len(),
        other != idx,
    ensures
        ({
            let t = s.step(idx).0;
            &&& t.clients.len() == s.clients.len()
            &&& t.clients[other] == s.clients[other]
            &&& t.replay == s.replay
            &&& t.socket_path == s.socket_path
        }),
{
}

/// The steps for a client act on the packets of what it sent, in order: each takes
/// the first one, and when there is none left the server waits for more bytes, or
/// drops the client if what follows cannot be a packet.
pub proof fn law_steps_take_packets_in_order(s: ServerView, idx: int)
    requires
        0 <= idx < s.clients.len(),
    ensures
        ({
            let c = s.clients[idx];
            let (todo, rest) = protocol::packets(c.inbuf);
            if todo.len() > 0 {
                exists|left: Seq<u8>|
                    {
                        &&& #[trigger] protocol::packets(left) == (todo.drop_first(), rest)
                        &&& s.step(idx) == s.with_client(
                            idx,
                            ClientView { inbuf: left, ..c },
                        ).on_packet(idx, todo[0])
                    }
            } else {
                if protocol::parse(rest) is NeedMore {
                    s.step(idx) == (s, StepView::Wait)
                } else {
                    s.step(idx) == (
                        s.with_client(idx, ClientView { dead: true, ..c }),
                        StepView::Gone,
                    )
                }
            }
        }),
{
    let c = s.clients[idx];
    let (todo, rest) = protocol::packets(c.inbuf);
    protocol::law_reading_progresses(c.inbuf);
    match protocol::parse(c.inbuf) {
        Parsed::Complete { packet, used } => {
            let left = c.inbuf.skip(used as int);
            let (later, end) = protocol::packets(left);
            assert(todo == seq![packet] + later);
            assert(todo.drop_first() == later);
            assert(todo[0] == packet);
            assert(protocol::packets(left) == (todo.drop_first(), rest));
        },
        _ => {},
    }
}

/// What is pending for a client, and whether it is being dropped, has no part in what
/// its packets lead to: sending to it between two steps changes no later step.
pub proof fn law_pending_output_has_no_part_in_steps(
    s: ServerView,
    idx: int,
    outbuf: Seq<u8>,
    dead: bool,
)
    requires
        0 <= idx < s.clients.len(),
    ensures
        ({
            let other = s.with_client(idx, ClientView { outbuf, dead, ..s.clients[idx] });
            let (t, step) = s.step(idx);
            let (u, same) = other.step(idx);
            &&& same == step
            &&& u.clients[idx] == (ClientView {
                outbuf,
                dead: u.clients[idx].dead,
                ..t.clients[idx]
            })
            &&& u.clients[idx].dead == (dead || step is Gone || step is Rename)
        }),
{
    let c = s.clients[idx];
    let other = s.with_client(idx, ClientView { outbuf, dead, ..c });
    match protocol::parse(c.inbuf) {
        Parsed::Complete { packet, used } => {
            let inbuf = c.inbuf.skip(used as int);
            lemma_low_before_same(
                s.with_client(idx, ClientView { inbuf, ..c }).clients,
                other.with_client(idx, ClientView { inbuf, outbuf, dead, ..c }).clients,
            );
        },
        _ => {},
    }
}

/// All that is done about what client `idx` sent: step after step, until one ends it.
pub open spec fn processed(s: ServerView, idx: int) -> (ServerView, Seq<StepView>)
    decreases s.clients[idx].inbuf.len(),
{
    let (t, step) = s.step(idx);
    if step.goes_on() && t.clients[idx].inbuf.len() < s.clients[idx].inbuf.len() {
        let (u, later) = processed(t, idx);
        (u, seq![step] + later)
    } else {
        (t, seq![step])
    }
}

/// The bytes that the steps write to the pty.
pub open spec fn pty_bytes(steps: Seq<StepView>) -> Seq<u8>
    decreases steps.len(),
{
    if steps.len() == 0 {
        Seq::empty()
    } else {
        let now = match steps[0] {
            StepView::WritePty(bytes) => bytes,
            _ => Seq::empty(),
        };
        now + pty_bytes(steps.drop_first())
    }
}

/// Whether a client leaves with this packet.
pub open spec fn leaves(packet: PacketView) -> bool {
    packet is Detach || packet is Rename
}

/// How many packets come before the first with which the client leaves.
pub open spec fn before_leaving(packets: Seq<PacketView>) -> nat
    decreases packets.len(),
{
    if packets.len() == 0 || leaves(packets[0]) {
        0
    } else {
        1 + before_leaving(packets.drop_first())
    }
}

/// What packets type into the pty: the content of all before the client leaves,
/// but for what it sends while it is read-only, which each announcement settles anew.
pub open spec fn typed(packets: Seq<PacketView>, readonly: bool) -> Seq<u8>
    decreases packets.len(),
{
    if packets.len() == 0 || leaves(packets[0]) {
        Seq::empty()
    } else {
        let later = packets.drop_first();
        match packets[0] {
            PacketView::Content(bytes) => if readonly {
                typed(later, readonly)
            } else {
                bytes + typed(later, readonly)
            },
            PacketView::Attach { flags } => typed(later, flags & FLAG_READONLY != 0),
            _ => typed(later, readonly),
        }
    }
}

/// What comes of all that a client sent: its packets are typed into the pty in order,
/// up to the one with which it leaves.  The client is dropped if it left, or if what
/// follows its packets cannot be one; otherwise the unfinished packet at the end stays
/// for later.  Nothing changes for the other clients.
pub proof fn law_client_input_is_processed(s: ServerView, idx: int, other: int)
    requires
        0 <= idx < s.clients.len(),
        0 <= other < s.clients.len(),
    ensures
        ({
            let c = s.clients[idx];
            let (todo, rest) = protocol::packets(c.inbuf);
            let left = before_leaving(todo) < todo.len();
            let (t, steps) = processed(s, idx);
            let d = t.clients[idx];
            &&& pty_bytes(steps) == typed(todo, c.readonly)
            &&& d.dead == (c.dead || left || !(protocol::parse(rest) is NeedMore))
            &&& left ==> protocol::packets(d.inbuf) == (
                todo.skip(before_leaving(todo) as int + 1),
                rest,
            )
            &&& !left ==> d.inbuf == rest
            &&& t.clients.len() == s.clients.len()
            &&& other != idx ==> t.clients[other] == s.clients[other]
            &&& t.replay == s.replay
            &&& t.socket_path == s.socket_path
            &&& steps.len() > 0 && !steps.last().goes_on()
        }),
    decreases s.clients[idx].inbuf.len(),
{
    let c = s.clients[idx];
    let (todo, rest) = protocol::packets(c.inbuf);
    let (t, step) = s.step(idx);
    let (end, steps) = processed(s, idx);
    protocol::law_reading_progresses(c.inbuf);
    assert(seq![step].drop_first() == Seq::<StepView>::empty());
    assert(pty_bytes(seq![step].drop_first()) == Seq::<u8>::empty());
    match protocol::parse(c.inbuf) {
        Parsed::Complete { packet, used } => {
            let inbuf = c.inbuf.skip(used as int);
            let (later, _) = protocol::packets(inbuf);
            assert(todo == seq![packet] + later);
            assert(todo.drop_first() == later);
            assert(t.clients[idx].inbuf == inbuf);
            if leaves(packet) {
                assert(todo.skip(1) == later);
                assert(pty_bytes(steps) == Seq::<u8>::empty());
            } else {
                law_client_input_is_processed(t, idx, other);
                let more = processed(t, idx).1;
                assert(steps == seq![step] + more);
                assert(steps.drop_first() == more);
                if before_leaving(later) < later.len() {
                    assert(todo.skip(before_leaving(todo) as int + 1) == later.skip(
                        before_leaving(later) as int + 1,
                    ));
                }
                assert(Seq::<u8>::empty() + pty_bytes(more) == pty_bytes(more));
            }
        },
        _ => {
            assert(pty_bytes(steps) == Seq::<u8>::empty());
        },
    }
}

/// The replay buffer holds the last bytes of all output, however the output was cut
/// into reads.
pub proof fn law_replay_is_the_last_output(earlier: Seq<u8>, bytes: Seq<u8>)
    ensures
        last_of(last_of(earlier, REPLAY_CAP as nat) + bytes, REPLAY_CAP as nat) == last_of(
            earlier + bytes,
            REPLAY_CAP as nat,
        ),
        last_of(earlier, REPLAY_CAP as nat).len() <= REPLAY_CAP,
{
    let n = REPLAY_CAP as nat;
    let kept = last_of(earlier, n);
    assert(last_of(kept + bytes, n) =~= last_of(earlier + bytes, n));
}

/// A client that attaches is replayed exactly what was retained: the packets all fit
/// into frames, and together they carry the replay buffer.
pub proof fn law_replay_carries_the_buffer(s: ServerView, idx: int)
    requires
        0 <= idx < s.clients.len(),
        s.step(idx).1 is Replay,
    ensures
        protocol::carried(s.step(idx).1->Replay_0) == s.replay,
        forall|i: int|
            0 <= i < s.step(idx).1->Replay_0.len() ==> (#[trigger] s.step(
                idx,
            ).1->Replay_0[i]).fits(),
{
    protocol::law_content_is_carried(s.replay);
}

/// The server's memory is bounded: whatever happens to a client, its pending output
/// stays within the cap or the client is dropped.
pub proof fn law_pending_output_stays_bounded(
    c: ClientView,
    packet: PacketView,
    written: WriteResult,
    read: ReadResult,
)
    requires
        c.bounded(),
        written matches WriteResult::Wrote(n) ==> n <= c.outbuf.len(),
    ensures
        c.send(packet).bounded(),
        c.on_write(written).bounded(),
        c.on_read(read).bounded(),
{
}

/// Whether a client was written, or is still to be written, the frames of these
/// packets and nothing else.
pub open spec fn streams(written: Seq<u8>, c: ClientView, sent: Seq<PacketView>) -> bool {
    written + c.outbuf == protocol::encode_all(sent)
}

/// Nothing of the output is lost, doubled or torn apart on the way to a client:
/// what was written to it and what is still pending are together the frames of the
/// packets that it was sent, whatever parts of them the writes take.
pub proof fn law_output_is_a_stream_of_frames(
    written: Seq<u8>,
    c: ClientView,
    sent: Seq<PacketView>,
    packet: PacketView,
    n: usize,
)
    requires
        streams(written, c, sent),
        n <= c.outbuf.len(),
    ensures
        !c.dead ==> streams(written, c.send(packet), sent.push(packet)),
        streams(
            written + c.outbuf.take(n as int),
            c.on_write(WriteResult::Wrote(n)),
            sent,
        ),
{
    protocol::lemma_encode_all_push(sent, packet);
    assert(written + (c.outbuf + packet.encode()) == (written + c.outbuf) + packet.encode());
    assert(written + c.outbuf.take(n as int) + c.outbuf.skip(n as int) == written + c.outbuf);
}

/// What a run of pty output makes of a session, one chunk after the other.
pub open spec fn after_output(s: ServerView, chunks: Seq<Seq<u8>>) -> ServerView
    decreases chunks.len(),
{
    if chunks.len() == 0 {
        s
    } else {
        after_output(s, chunks.drop_last()).on_output(chunks.last())
    }
}

/// The bytes of the chunks, in order.
pub open spec fn joined_output(chunks: Seq<Seq<u8>>) -> Seq<u8>
    decreases chunks.len(),
{
    if chunks.len() == 0 {
        Seq::empty()
    } else {
        joined_output(chunks.drop_last()) + chunks.last()
    }
}

/// Each chunk as one packet.
pub open spec fn output_packets(chunks: Seq<Seq<u8>>) -> Seq<PacketView> {
    Seq::new(chunks.len(), |i: int| PacketView::Content(chunks[i]))
}

/// Output goes everywhere: after any run of it the replay buffer holds the last bytes
/// of all output so far, and every client that is not being dropped was sent each
/// chunk unchanged, as one packet, in order, behind what it was sent before.
pub proof fn law_output_goes_everywhere(
    s: ServerView,
    earlier: Seq<u8>,
    chunks: Seq<Seq<u8>>,
    i: int,
    written: Seq<u8>,
    sent: Seq<PacketView>,
)
    requires
        s.replay == last_of(earlier, REPLAY_CAP as nat),
        0 <= i < s.clients.len(),
        streams(written, s.clients[i], sent),
    ensures
        ({
            let t = after_output(s, chunks);
            &&& t.replay == last_of(earlier + joined_output(chunks), REPLAY_CAP as nat)
            &&& t.clients.len() == s.clients.len()
            &&& t.socket_path == s.socket_path
            &&& s.clients[i].dead ==> t.clients[i] == s.clients[i]
            &&& !t.clients[i].dead ==> streams(
                written,
                t.clients[i],
                sent + output_packets(chunks),
            )
        }),
    decreases chunks.len(),
{
    if chunks.len() == 0 {
        assert(earlier + joined_output(chunks) == earlier);
        assert(sent + output_packets(chunks) == sent);
    } else {
        let init = chunks.drop_last();
        let last = chunks.last();
        law_output_goes_everywhere(s, earlier, init, i, written, sent);
        law_replay_is_the_last_output(earlier + joined_output(init), last);
        assert(earlier + joined_output(init) + last == earlier + joined_output(chunks));
        let c = after_output(s, init).clients[i];
        let p = PacketView::Content(last);
        let before = sent + output_packets(init);
        if !c.dead {
            law_output_is_a_stream_of_frames(written, c, before, p, 0);
            assert(before.push(p) == sent + output_packets(chunks));
        }
    }
}

/// A client that was just accepted is told the pid first, and whoever probes the
/// session learns it from that: the session is alive.
pub proof fn law_accepted_connection_proves_life(id: i32, pid: u32, later: Seq<u8>)
    ensures
        ({
            let c = ClientView::fresh(id).send(PacketView::Pid(pid));
            !c.dead && sockdir::announced_pid(c.outbuf + later) == Some(pid)
        }),
{
    let p = PacketView::Pid(pid);
    let c = ClientView::fresh(id).send(p);
    protocol::law_read_gives_back_write(p, later);
    assert(Seq::<u8>::empty() + p.encode() == p.encode());
}

/// When the session ends, a client reads all the packets that it was sent and then
/// the exit status, even if the writes had stopped in the middle of a frame.
pub proof fn law_farewell_ends_with_the_status(
    written: Seq<u8>,
    c: ClientView,
    sent: Seq<PacketView>,
    status: i32,
)
    requires
        streams(written, c, sent),
        forall|i: int| 0 <= i < sent.len() ==> (#[trigger] sent[i]).fits(),
    ensures
        protocol::packets(written + (c.outbuf + PacketView::Exit(status).encode())) == (
            sent.push(PacketView::Exit(status)),
            Seq::<u8>::empty(),
        ),
{
    let exit = PacketView::Exit(status);
    protocol::lemma_encode_all_push(sent, exit);
    protocol::law_stream_gives_back_packets(sent.push(exit));
    assert(written + (c.outbuf + exit.encode()) == (written + c.outbuf) + exit.encode());
}

/// What a client sends as content reaches the pty byte for byte, unless the client
/// is read-only.
pub proof fn law_input_reaches_the_pty(s: ServerView, idx: int, bytes: Seq<u8>, rest: Seq<u8>)
    requires
        0 <= idx < s.clients.len(),
        !s.clients[idx].readonly,
        PacketView::Content(bytes).fits(),
        s.clients[idx].inbuf == PacketView::Content(bytes).encode() + rest,
    ensures
        s.step(idx) == (
            s.with_client(idx, ClientView { inbuf: rest, ..s.clients[idx] }),
            StepView::WritePty(bytes),
        ),
{
    let p = PacketView::Content(bytes);
    protocol::law_read_gives_back_write(p, rest);
    assert((p.encode() + rest).skip(p.encode().len() as int) == rest);
}

/// The server understands a client's announcement: it takes the client for what it
/// is, and replays the recent output to it.
pub proof fn law_attach_is_understood(
    s: ServerView,
    idx: int,
    readonly: bool,
    lowpriority: bool,
    passthrough: bool,
    rest: Seq<u8>,
)
    requires
        0 <= idx < s.clients.len(),
        s.clients[idx].inbuf == (PacketView::Attach {
            flags: client::spec_attach_flags(readonly, lowpriority, passthrough),
        }).encode() + rest,
    ensures
        s.step(idx) == (
            s.with_client(
                idx,
                ClientView {
                    inbuf: rest,
                    readonly,
                    lowpriority: lowpriority || passthrough,
                    ..s.clients[idx]
                },
            ),
            StepView::Replay(protocol::content_packets(s.replay)),
        ),
{
    let p = PacketView::Attach {
        flags: client::spec_attach_flags(readonly, lowpriority, passthrough),
    };
    client::law_flags_tell_the_client(readonly, lowpriority, passthrough);
    protocol::law_read_gives_back_write(p, rest);
    assert((p.encode() + rest).skip(p.encode().len() as int) == rest);
    let mid = s.with_client(idx, ClientView { inbuf: rest, ..s.clients[idx] });
    assert(s.step(idx) == mid.on_packet(idx, p));
    assert(s.step(idx).0.clients == s.with_client(
        idx,
        ClientView {
            inbuf: rest,
            readonly,
            lowpriority: lowpriority || passthrough,
            ..s.clients[idx]
        },
    ).clients);
}

/// A rename keeps the socket in its directory, and is refused exactly for an
/// invalid name or where there is no directory.
pub proof fn law_rename_stays_in_the_directory(from: Seq<u8>, name: Seq<char>)
    requires
        name != seq!['.'],
    ensures
        rename_target(from, name) is Some <==> sockdir::valid_name(name) && path::parent_of(
            from,
        ) is Some,
        rename_target(from, name) matches Some(to) ==> path::parent_of(to) == path::parent_of(from),
{
    if sockdir::valid_name(name) && path::parent_of(from) is Some {
        let bytes = sockdir::path_bytes(name);
        sockdir::law_socket_lies_in_its_directory(from, name);
        vstd::utf8::encode_utf8_decode_utf8(name);
        assert(bytes.len() > 0) by {
            if bytes.len() == 0 {
                assert(bytes == vstd::utf8::encode_utf8(Seq::<char>::empty()));
                vstd::utf8::encode_utf8_decode_utf8(Seq::<char>::empty());
            }
        }
        assert(bytes != seq![path::DOT]) by {
            if bytes == seq![path::DOT] {
                let dot = seq!['.'];
                vstd::utf8::is_ascii_chars_encode_utf8(dot);
                assert(vstd::utf8::encode_utf8(dot) == seq![path::DOT]);
                vstd::utf8::encode_utf8_decode_utf8(dot);
            }
        }
        path::law_parent_of_joined(path::parent_of(from)->Some_0, bytes);
        let whole = path::trimmed(from);
        path::lemma_trimmed_twice(whole.take(path::dir_len(whole) as int));
    }
}

/// Whether client `idx` controls the window size: the first that is not of low
/// priority does, or the first of all if all are of low priority.
pub open spec fn has_control(clients: Seq<ClientView>, idx: int) -> bool {
    ||| !clients[idx].lowpriority && forall|j: int|
        0 <= j < idx ==> (#[trigger] clients[j]).lowpriority
    ||| idx == 0 && forall|j: int|
        0 <= j < clients.len() ==> (#[trigger] clients[j]).lowpriority
}

/// Exactly one client has control, and it is the one that is taken to have it.
pub proof fn law_one_client_has_control(clients: Seq<ClientView>, idx: int)
    requires
        0 <= idx < clients.len(),
    ensures
        has_control(clients, idx) <==> idx == controlling(clients),
{
    lemma_low_before(clients);
    let n = low_before(clients) as int;
    if !clients[idx].lowpriority && n < idx {
        assert(!clients[n].lowpriority);
    }
    if n < clients.len() {
        assert(!clients[n].lowpriority);
    }
}

proof fn lemma_packet_comes_first(s: ServerView, idx: int, packet: PacketView, rest: Seq<u8>)
    requires
        0 <= idx < s.clients.len(),
        packet.fits(),
        s.clients[idx].inbuf == packet.encode() + rest,
    ensures
        s.step(idx) == s.with_client(
            idx,
            ClientView { inbuf: rest, ..s.clients[idx] },
        ).on_packet(idx, packet),
{
    protocol::law_read_gives_back_write(packet, rest);
    assert((packet.encode() + rest).skip(packet.encode().len() as int) == rest);
}

/// The window follows the terminal of the client that has control: a size that it
/// sends, and does not send as a mere watcher, is given to the pty, rows and columns as
/// they are, however many clients there are.  A size that any other client sends is
/// ignored.
pub proof fn law_the_window_follows_the_client_in_control(
    s: ServerView,
    idx: int,
    rows: u16,
    cols: u16,
    rest: Seq<u8>,
)
    requires
        0 <= idx < s.clients.len(),
        s.clients[idx].inbuf == (PacketView::Resize { rows, cols }).encode() + rest,
    ensures
        s.step(idx).1 == if has_control(s.clients, idx) && !s.clients[idx].readonly {
            StepView::SetWinsize(
                Winsize { ws_row: rows, ws_col: cols, ws_xpixel: 0, ws_ypixel: 0 },
            )
        } else {
            StepView::Ignore
        },
        s.step(idx).0.clients == s.clients.update(
            idx,
            ClientView { inbuf: rest, ..s.clients[idx] },
        ),
{
    let p = PacketView::Resize { rows, cols };
    protocol::law_payloads_byte_by_byte(p);
    lemma_packet_comes_first(s, idx, p, rest);
    let mid = s.with_client(idx, ClientView { inbuf: rest, ..s.clients[idx] });
    lemma_low_before_same(s.clients, mid.clients);
    law_one_client_has_control(s.clients, idx);
}

/// What each of the other packets leads to.  Content is typed unless the client is
/// read-only; an announcement settles anew what the client is, and is answered with a
/// replay of all that was retained; a client that leaves or asks for a rename is
/// dropped and heard no further; what only a server sends is ignored.  Each time the
/// packet is used up, and nothing else of the session changes.
pub proof fn law_each_packet_has_its_answer(
    s: ServerView,
    idx: int,
    packet: PacketView,
    rest: Seq<u8>,
)
    requires
        0 <= idx < s.clients.len(),
        packet.fits(),
        !(packet is Resize),
        s.clients[idx].inbuf == packet.encode() + rest,
    ensures
        ({
            let c = s.clients[idx];
            let (t, step) = s.step(idx);
            let d = t.clients[idx];
            &&& d.inbuf == rest && d.outbuf == c.outbuf && d.id == c.id
            &&& t.clients == s.clients.update(idx, d)
            &&& t.replay == s.replay && t.socket_path == s.socket_path
            &&& d.dead == (c.dead || packet is Detach || packet is Rename)
            &&& !(packet is Attach) ==> d.readonly == c.readonly && d.lowpriority == c.lowpriority
            &&& step.goes_on() <==> !(packet is Detach || packet is Rename)
            &&& match packet {
                PacketView::Content(bytes) => step == if c.readonly {
                    StepView::Ignore
                } else {
                    StepView::WritePty(bytes)
                },
                PacketView::Attach { flags } => {
                    &&& d.readonly == (flags & 1 != 0)
                    &&& d.lowpriority == (flags & 2 != 0)
                    &&& step matches StepView::Replay(packets)
                    &&& protocol::carried(packets) == s.replay
                },
                PacketView::Detach => step == StepView::Gone,
                PacketView::Rename(name) => step == StepView::Rename(
                    rename_target(s.socket_path, name),
                ),
                PacketView::Exit(_) | PacketView::Pid(_) => step == StepView::Ignore,
                PacketView::Resize { .. } => true,
            }
        }),
{
    lemma_packet_comes_first(s, idx, packet, rest);
    protocol::law_content_is_carried(s.replay);
    let t = s.step(idx).0;
    assert(t.clients =~= s.clients.update(idx, t.clients[idx]));
}

/// Without a whole packet the server waits and nothing changes; bytes that cannot be a
/// packet drop the client, and nothing else changes.
pub proof fn law_a_client_is_waited_for_or_dropped(s: ServerView, idx: int)
    requires
        0 <= idx < s.clients.len(),
    ensures
        protocol::parse(s.clients[idx].inbuf) is NeedMore ==> s.step(idx) == (s, StepView::Wait),
        protocol::parse(s.clients[idx].inbuf) is Invalid ==> s.step(idx).1 == StepView::Gone
            && s.step(idx).0.clients == s.clients.update(
            idx,
            ClientView { dead: true, ..s.clients[idx] },
        ) && s.step(idx).0.replay == s.replay && s.step(idx).0.socket_path == s.socket_path,
{
}

/// After which steps a client is heard further.
pub proof fn law_steps_that_end_a_run(step: StepView)
    ensures
        step.goes_on() <==> (step is Ignore || step is WritePty || step is SetWinsize
            || step is Replay),
{
}

/// Where a session's socket goes: to its new name, in the same directory.
pub proof fn law_a_renamed_socket_has_the_new_name(dir: Seq<u8>, base: Seq<u8>, name: Seq<char>)
    requires
        dir.len() > 0,
        dir.last() != 0x2f,
        dir.len() >= 2 ==> !(dir.last() == 0x2e && dir[dir.len() - 2] == 0x2f),
        base.len() > 0,
        !base.contains(0x2fu8),
        base != seq![0x2eu8],
    ensures
        name.len() > 0 && !name.contains('/') && !name.contains('\0') ==> rename_target(
            dir + seq![0x2fu8] + base,
            name,
        ) == Some(dir + seq![0x2fu8] + vstd::utf8::encode_utf8(name)),
        name.len() == 0 || name.contains('/') || name.contains('\0') ==> rename_target(
            dir + seq![0x2fu8] + base,
            name,
        ) is None,
{
    if base[0] == 0x2f {
        assert(base.contains(0x2fu8));
    }
    path::law_parent_of_joined(dir, base);
    assert(path::joined(dir, base) == dir + seq![0x2fu8] + base);
    if sockdir::valid_name(name) {
        sockdir::law_socket_lies_in_its_directory(dir, name);
    }
}

/// A new client: nothing came from it, nothing is to be written to it, and it is an
/// ordinary one.
pub proof fn law_a_new_client_is_ordinary(id: i32)
    ensures
        ({
            let c = ClientView::fresh(id);
            &&& c.id == id
            &&& c.inbuf.len() == 0 && c.outbuf.len() == 0
            &&& !c.readonly && !c.lowpriority && !c.dead
        }),
{
}

/// Sending appends the packet's frame, and nothing else changes; a client is dropped
/// by it exactly if more than 8 MiB are then pending, and one that is being dropped
/// gets nothing.
pub proof fn law_sending_appends_a_frame(c: ClientView, packet: PacketView)
    ensures
        c.dead ==> c.send(packet) == c,
        !c.dead ==> c.send(packet) == (ClientView {
            outbuf: c.outbuf + packet.encode(),
            dead: c.outbuf.len() + packet.encode().len() > 8388608,
            ..c
        }),
{
}

/// A write takes the first bytes of what is pending, and one that takes none or fails
/// drops the client; nothing else changes.  Writing goes on while something is pending
/// and the socket takes more.
pub proof fn law_writes_take_from_the_front(c: ClientView, result: WriteResult)
    requires
        result matches WriteResult::Wrote(n) ==> n <= c.outbuf.len(),
    ensures
        ({
            let d = c.on_write(result);
            &&& d == (ClientView { outbuf: d.outbuf, dead: d.dead, ..c })
            &&& match result {
                WriteResult::Wrote(n) => {
                    &&& d.outbuf == c.outbuf.skip(n as int)
                    &&& d.dead == (c.dead || n == 0)
                    &&& c.writes_on(result) <==> n > 0 && d.outbuf.len() > 0
                },
                WriteResult::Interrupted => d == c && (c.writes_on(result) <==> c.outbuf.len() > 0),
                WriteResult::WouldBlock => d == c && !c.writes_on(result),
                WriteResult::Failed => d.outbuf == c.outbuf && d.dead && !c.writes_on(result),
            }
        }),
{
}

/// A read appends what came to what was not acted on yet, and an end or an error drops
/// the client; nothing else changes.  Reading goes on while bytes come.
pub proof fn law_reads_append(c: ClientView, result: ReadResult)
    ensures
        ({
            let d = c.on_read(result);
            &&& d == (ClientView { inbuf: d.inbuf, dead: d.dead, ..c })
            &&& match result {
                ReadResult::Data(bytes) => {
                    &&& d.inbuf == c.inbuf + bytes@
                    &&& d.dead == (c.dead || bytes@.len() == 0)
                    &&& ClientView::reads_on(result) <==> bytes@.len() > 0
                },
                ReadResult::Interrupted => d == c && ClientView::reads_on(result),
                ReadResult::WouldBlock => d == c && !ClientView::reads_on(result),
                ReadResult::Failed => d.inbuf == c.inbuf && d.dead && !ClientView::reads_on(result),
            }
        }),
{
}

/// The last elements of a sequence are as many as there are, up to `n`, and stand in
/// their order.
pub proof fn law_the_last_elements(s: Seq<u8>, n: nat, i: int)
    ensures
        last_of(s, n).len() == if s.len() < n {
            s.len()
        } else {
            n
        },
        0 <= i < last_of(s, n).len() ==> last_of(s, n)[i] == s[s.len() - last_of(s, n).len() + i],
{
}

/// A change of one client leaves the others and the rest of the session alone.
pub proof fn law_one_client_is_changed(s: ServerView, idx: int, c: ClientView)
    requires
        0 <= idx < s.clients.len(),
    ensures
        s.with_client(idx, c).clients == s.clients.update(idx, c),
        s.with_client(idx, c).replay == s.replay,
        s.with_client(idx, c).socket_path == s.socket_path,
{
}

/// A broadcast is a sending to each client, and changes nothing else.
pub proof fn law_a_broadcast_is_sent_to_each(s: ServerView, packet: PacketView, i: int)
    ensures
        s.broadcast(packet).clients.len() == s.clients.len(),
        0 <= i < s.clients.len() ==> s.broadcast(packet).clients[i] == s.clients[i].send(packet),
        s.broadcast(packet).replay == s.replay,
        s.broadcast(packet).socket_path == s.socket_path,
{
}

/// A session ends on the death of its command, on SIGTERM and on SIGINT, and on no
/// other signal.
pub proof fn law_three_signals_end_a_session(sig: i32, stop: StopSignals)
    ensures
        stops(stop.child, stop) && stops(stop.term, stop) && stops(stop.int, stop),
        sig != stop.child && sig != stop.term && sig != stop.int ==> !stops(sig, stop),
{
}

/// Clients are told the command's own exit code; one that a signal killed has 128 more
/// than the signal's number, so no two signals are told alike.
pub proof fn law_exit_statuses(code: i32, sig: u8)
    ensures
        spec_exit_status(ChildEnd::Exited(code)) == code,
        spec_exit_status(ChildEnd::Signaled(sig)) - 128 == sig,
        spec_exit_status(ChildEnd::Unknown) == 0,
{
}

/// Steps are seen as what they are.
pub proof fn law_steps_are_seen_as_they_are(step: Step)
    ensures
        match step {
            Step::Wait => step@ is Wait,
            Step::Gone => step@ is Gone,
            Step::Ignore => step@ is Ignore,
            Step::WritePty(bytes) => step@ == StepView::WritePty(bytes@),
            Step::SetWinsize(ws) => step@ == StepView::SetWinsize(ws),
            Step::Replay(packets) => step@ == StepView::Replay(protocol::packets_view(packets@)),
            Step::Rename(Some(to)) => step@ == StepView::Rename(Some(to@)),
            Step::Rename(None) => step@ == StepView::Rename(None),
        },
{
}

} // verus!
