//! The wire protocol spoken between client and server over the session's
//! Unix-domain socket.
//!
//! A frame is a fixed 8-byte little-endian header (`type: u32`, `len: u32`)
//! followed by `len` bytes of payload whose meaning depends on the type.
//! Terminal content (`Content`) and a new name (`Rename`) are the only
//! payloads of variable length; everything else is a small fixed record.

use vstd::prelude::*;

use crate::text;

verus! {

/// Most payload bytes that one frame may carry.  Keeps individual reads and
/// writes bounded.
pub const MAX_PAYLOAD: usize = 4096 - 2 * 4;

/// Bytes of a frame's header.
pub const HEADER_LEN: usize = 8;

/// Flag of an `Attach` packet: the client only watches.
pub const FLAG_READONLY: u32 = 1;

/// Flag of an `Attach` packet: the client gives way on the window size.
pub const FLAG_LOWPRIORITY: u32 = 2;

pub const T_CONTENT: u32 = 0;

pub const T_ATTACH: u32 = 1;

pub const T_DETACH: u32 = 2;

pub const T_RESIZE: u32 = 3;

pub const T_EXIT: u32 = 4;

pub const T_PID: u32 = 5;

pub const T_RENAME: u32 = 6;

/// One framed message.
#[derive(Debug, Clone, PartialEq, Eq)]
pub enum Packet {
    /// Raw terminal bytes.  From a client: keystrokes; from the server: output.
    Content(Vec<u8>),
    /// Client announcing itself and its flags (readonly / lowpriority).
    Attach { flags: u32 },
    /// Client is leaving; the server marks it disconnected.
    Detach,
    /// Window size change, applied to the pty.
    Resize { rows: u16, cols: u16 },
    /// Server to clients: the supervised command exited with this status.
    Exit(i32),
    /// Server to a new client right after accept: the server's pid.
    Pid(u32),
    /// Client to server: rename the session (and its socket) to this name.
    Rename(String),
}

/// What a packet says, over mathematical sequences.
pub enum PacketView {
    Content(Seq<u8>),
    Attach { flags: u32 },
    Detach,
    Resize { rows: u16, cols: u16 },
    Exit(i32),
    Pid(u32),
    Rename(Seq<char>),
}

impl View for Packet {
    type V = PacketView;

    open spec fn view(&self) -> PacketView {
        match self {
            Packet::Content(bytes) => PacketView::Content(bytes@),
            Packet::Attach { flags } => PacketView::Attach { flags: *flags },
            Packet::Detach => PacketView::Detach,
            Packet::Resize { rows, cols } => PacketView::Resize { rows: *rows, cols: *cols },
            Packet::Exit(status) => PacketView::Exit(*status),
            Packet::Pid(pid) => PacketView::Pid(*pid),
            Packet::Rename(name) => PacketView::Rename(name@),
        }
    }
}

/// Why bytes are not a packet.
#[derive(Debug, Clone, Copy, PartialEq, Eq, Structural)]
pub enum ProtocolError {
    /// The peer closed the connection before a whole frame had come.
    UnexpectedEof,
    /// The header announces this many payload bytes, more than a frame may have.
    TooLarge(u32),
    /// The payload is shorter than the packet's fixed record.
    TooShort,
    /// The new name of a `Rename` is not UTF-8.
    NameNotUtf8,
    /// No packet has this type.
    UnknownType(u32),
}

/// The two ways in which reading a packet fails.
#[derive(Debug, Clone, Copy, PartialEq, Eq, Structural)]
pub enum ErrorKind {
    UnexpectedEof,
    InvalidData,
}

impl ProtocolError {
    /// `UnexpectedEof` is a disconnect; everything else is a violation of the
    /// protocol.
    pub open spec fn spec_kind(self) -> ErrorKind {
        if self is UnexpectedEof {
            ErrorKind::UnexpectedEof
        } else {
            ErrorKind::InvalidData
        }
    }

    pub fn kind(&self) -> (kind: ErrorKind)
        ensures
            kind == self.spec_kind(),
    {
        match self {
            ProtocolError::UnexpectedEof => ErrorKind::UnexpectedEof,
            _ => ErrorKind::InvalidData,
        }
    }

    /// The text of the error.
    pub open spec fn spec_message(self) -> Seq<char> {
        match self {
            ProtocolError::UnexpectedEof => "failed to fill whole buffer"@,
            ProtocolError::TooLarge(len) => "packet payload too large: "@ + text::decimal_digits(
                len as nat,
            ),
            ProtocolError::TooShort => "packet payload too short"@,
            ProtocolError::NameNotUtf8 => "rename name not UTF-8"@,
            ProtocolError::UnknownType(tag) => "unknown packet type "@ + text::decimal_digits(
                tag as nat,
            ),
        }
    }

    pub fn message(&self) -> (text: String)
        ensures
            text@ == self.spec_message(),
    {
        match self {
            ProtocolError::UnexpectedEof => "failed to fill whole buffer".to_owned(),
            ProtocolError::TooLarge(len) => {
                "packet payload too large: ".to_owned().concat(text::decimal(*len as u64).as_str())
            },
            ProtocolError::TooShort => "packet payload too short".to_owned(),
            ProtocolError::NameNotUtf8 => "rename name not UTF-8".to_owned(),
            ProtocolError::UnknownType(tag) => {
                "unknown packet type ".to_owned().concat(text::decimal(*tag as u64).as_str())
            },
        }
    }
}

// ---- integers as little-endian bytes ----------------------------------------

/// The two bytes of `x`, least significant first.
pub open spec fn le16(x: u16) -> Seq<u8> {
    seq![(x % 256) as u8, (x / 256) as u8]
}

/// The integer whose two bytes, least significant first, start `s`.
pub open spec fn from_le16(s: Seq<u8>) -> u16 {
    (s[0] + 256 * s[1]) as u16
}

/// The four bytes of `x`, least significant first.
pub open spec fn le32(x: u32) -> Seq<u8> {
    seq![
        (x % 256) as u8,
        ((x / 256) % 256) as u8,
        ((x / 65536) % 256) as u8,
        (x / 16777216) as u8,
    ]
}

/// The integer whose four bytes, least significant first, start `s`.
pub open spec fn from_le32(s: Seq<u8>) -> u32 {
    (s[0] + 256 * s[1] + 65536 * s[2] + 16777216 * s[3]) as u32
}

/// The unsigned integer with the bits of `x` (two's complement).
pub open spec fn unsigned(x: i32) -> u32 {
    if x < 0 {
        (x + 4294967296) as u32
    } else {
        x as u32
    }
}

/// The signed integer with the bits of `x` (two's complement).
pub open spec fn signed(x: u32) -> i32 {
    if x > 2147483647 {
        (x - 4294967296) as i32
    } else {
        x as i32
    }
}

fn push_le16(out: &mut Vec<u8>, x: u16)
    ensures
        final(out)@ == old(out)@ + le16(x),
{
    out.push((x % 256) as u8);
    out.push((x / 256) as u8);
    assert(out@ == old(out)@ + le16(x));
}

fn push_le32(out: &mut Vec<u8>, x: u32)
    ensures
        final(out)@ == old(out)@ + le32(x),
{
    out.push((x % 256) as u8);
    out.push(((x / 256) % 256) as u8);
    out.push(((x / 65536) % 256) as u8);
    out.push((x / 16777216) as u8);
    assert(out@ == old(out)@ + le32(x));
}

fn read_le16(s: &[u8], at: usize) -> (x: u16)
    requires
        at + 2 <= s@.len(),
    ensures
        x == from_le16(s@.skip(at as int)),
{
    (s[at] as u16) + 256 * (s[at + 1] as u16)
}

fn read_le32(s: &[u8], at: usize) -> (x: u32)
    requires
        at + 4 <= s@.len(),
    ensures
        x == from_le32(s@.skip(at as int)),
{
    (s[at] as u32) + 256 * (s[at + 1] as u32) + 65536 * (s[at + 2] as u32) + 16777216 * (s[at
        + 3] as u32)
}

fn to_unsigned(x: i32) -> (u: u32)
    ensures
        u == unsigned(x),
{
    if x < 0 {
        (x as i64 + 4294967296) as u32
    } else {
        x as u32
    }
}

fn to_signed(x: u32) -> (i: i32)
    ensures
        i == signed(x),
{
    if x > 2147483647 {
        (x as i64 - 4294967296) as i32
    } else {
        x as i32
    }
}

/// `String::from_utf8` gives the string that the bytes encode, and an error
/// exactly when the bytes are not valid UTF-8.
#[verifier::external_body]
fn string_from_utf8(bytes: Vec<u8>) -> (s: Option<String>)
    ensures
        s is Some <==> vstd::utf8::valid_utf8(bytes@),
        s matches Some(text) ==> text@ == vstd::utf8::decode_utf8(bytes@),
{
    String::from_utf8(bytes).ok()
}

// ---- frames -----------------------------------------------------------------

impl PacketView {
    /// The packet's wire type.
    pub open spec fn tag(self) -> u32 {
        match self {
            PacketView::Content(_) => T_CONTENT,
            PacketView::Attach { .. } => T_ATTACH,
            PacketView::Detach => T_DETACH,
            PacketView::Resize { .. } => T_RESIZE,
            PacketView::Exit(_) => T_EXIT,
            PacketView::Pid(_) => T_PID,
            PacketView::Rename(_) => T_RENAME,
        }
    }

    /// The packet's payload bytes (excludes the header).
    pub open spec fn payload(self) -> Seq<u8> {
        match self {
            PacketView::Content(bytes) => bytes,
            PacketView::Attach { flags } => le32(flags),
            PacketView::Detach => Seq::empty(),
            PacketView::Resize { rows, cols } => le16(rows) + le16(cols),
            PacketView::Exit(status) => le32(unsigned(status)),
            PacketView::Pid(pid) => le32(pid),
            PacketView::Rename(name) => vstd::utf8::encode_utf8(name),
        }
    }

    /// The whole frame: type, payload length (its low 32 bits), payload.
    pub open spec fn encode(self) -> Seq<u8> {
        le32(self.tag()) + le32((self.payload().len() % 0x1_0000_0000) as u32) + self.payload()
    }

    /// Whether the payload fits into one frame.
    pub open spec fn fits(self) -> bool {
        self.payload().len() <= MAX_PAYLOAD
    }
}

/// What a payload of the given type says.  Bytes behind a fixed record are
/// ignored.
pub open spec fn decode_payload(tag: u32, payload: Seq<u8>) -> Result<PacketView, ProtocolError> {
    if tag == T_CONTENT {
        Ok(PacketView::Content(payload))
    } else if tag == T_DETACH {
        Ok(PacketView::Detach)
    } else if tag == T_RENAME {
        if vstd::utf8::valid_utf8(payload) {
            Ok(PacketView::Rename(vstd::utf8::decode_utf8(payload)))
        } else {
            Err(ProtocolError::NameNotUtf8)
        }
    } else if tag > T_RENAME {
        Err(ProtocolError::UnknownType(tag))
    } else if payload.len() < 4 {
        Err(ProtocolError::TooShort)
    } else if tag == T_ATTACH {
        Ok(PacketView::Attach { flags: from_le32(payload) })
    } else if tag == T_RESIZE {
        Ok(PacketView::Resize { rows: from_le16(payload), cols: from_le16(payload.skip(2)) })
    } else if tag == T_EXIT {
        Ok(PacketView::Exit(signed(from_le32(payload))))
    } else {
        Ok(PacketView::Pid(from_le32(payload)))
    }
}

/// What the start of a byte stream holds.
pub enum Parsed {
    /// The first frame is not complete yet.
    NeedMore,
    /// The first `used` bytes cannot be a packet.
    Invalid { error: ProtocolError, used: nat },
    /// The first `used` bytes are one frame, with this packet in it.
    Complete { packet: PacketView, used: nat },
}

/// The payload length that a frame's header announces.
pub open spec fn announced_len(bytes: Seq<u8>) -> u32 {
    from_le32(bytes.skip(4))
}

/// Reads the first frame of `bytes`.
pub open spec fn parse(bytes: Seq<u8>) -> Parsed {
    let len = announced_len(bytes);
    if bytes.len() < HEADER_LEN {
        Parsed::NeedMore
    } else if len > MAX_PAYLOAD {
        Parsed::Invalid { error: ProtocolError::TooLarge(len), used: HEADER_LEN as nat }
    } else if bytes.len() < HEADER_LEN + len {
        Parsed::NeedMore
    } else {
        let used = (HEADER_LEN + len) as nat;
        match decode_payload(from_le32(bytes), bytes.subrange(HEADER_LEN as int, used as int)) {
            Ok(packet) => Parsed::Complete { packet, used },
            Err(error) => Parsed::Invalid { error, used },
        }
    }
}

/// Bytes that are still to be read, in order.
#[derive(Debug)]
pub struct ByteReader {
    data: Vec<u8>,
    pos: usize,
}

impl View for ByteReader {
    type V = Seq<u8>;

    /// What is left to read.
    closed spec fn view(&self) -> Seq<u8> {
        self.data@.skip(self.pos as int)
    }
}

impl ByteReader {
    #[verifier::type_invariant]
    closed spec fn inv(self) -> bool {
        self.pos <= self.data@.len()
    }

    /// A reader at the start of `data`.
    pub fn new(data: Vec<u8>) -> (r: ByteReader)
        ensures
            r@ == data@,
    {
        let r = ByteReader { data, pos: 0 };
        assert(r@ == data@);
        r
    }

    /// The next `n` bytes.  When there are fewer, reads what there is and
    /// reports the end.
    pub fn read_exact(&mut self, n: usize) -> (out: Result<Vec<u8>, ProtocolError>)
        ensures
            match out {
                Ok(bytes) => n <= old(self)@.len() && bytes@ == old(self)@.take(n as int)
                    && final(self)@ == old(self)@.skip(n as int),
                Err(e) => n > old(self)@.len() && e == ProtocolError::UnexpectedEof && final(self)@ == Seq::<u8>::empty(),
            },
    {
        proof {
            use_type_invariant(&*self);
        }
        let left: usize = self.data.len() - self.pos;
        if n > left {
            self.pos = self.data.len();
            assert(self@ == Seq::<u8>::empty());
            return Err(ProtocolError::UnexpectedEof);
        }
        let from: usize = self.pos;
        let bytes = vstd::slice::slice_to_vec(
            vstd::slice::slice_subrange(self.data.as_slice(), from, from + n),
        );
        self.pos = from + n;
        assert(bytes@ == old(self)@.take(n as int));
        assert(self@ == old(self)@.skip(n as int));
        Ok(bytes)
    }
}

impl Packet {
    pub fn tag(&self) -> (tag: u32)
        ensures
            tag == self@.tag(),
    {
        match self {
            Packet::Content(_) => T_CONTENT,
            Packet::Attach { .. } => T_ATTACH,
            Packet::Detach => T_DETACH,
            Packet::Resize { .. } => T_RESIZE,
            Packet::Exit(_) => T_EXIT,
            Packet::Pid(_) => T_PID,
            Packet::Rename(_) => T_RENAME,
        }
    }

    /// The payload bytes for this packet (excludes the header).
    pub fn payload(&self) -> (bytes: Vec<u8>)
        ensures
            bytes@ == self@.payload(),
    {
        match self {
            Packet::Content(bytes) => vstd::slice::slice_to_vec(bytes.as_slice()),
            Packet::Attach { flags } => {
                let mut v: Vec<u8> = Vec::with_capacity(4);
                push_le32(&mut v, *flags);
                v
            },
            Packet::Detach => Vec::new(),
            Packet::Resize { rows, cols } => {
                let mut v: Vec<u8> = Vec::with_capacity(4);
                push_le16(&mut v, *rows);
                push_le16(&mut v, *cols);
                v
            },
            Packet::Exit(status) => {
                let mut v: Vec<u8> = Vec::with_capacity(4);
                push_le32(&mut v, to_unsigned(*status));
                v
            },
            Packet::Pid(pid) => {
                let mut v: Vec<u8> = Vec::with_capacity(4);
                push_le32(&mut v, *pid);
                v
            },
            Packet::Rename(name) => name.as_str().as_bytes_vec(),
        }
    }

    /// The packet as one frame.
    pub fn encode(&self) -> (bytes: Vec<u8>)
        ensures
            bytes@ == self@.encode(),
    {
        let mut payload = self.payload();
        let len: u32 = (payload.len() as u64 % 0x1_0000_0000) as u32;
        let mut frame: Vec<u8> = Vec::new();
        push_le32(&mut frame, self.tag());
        push_le32(&mut frame, len);
        frame.append(&mut payload);
        assert(frame@ == self@.encode());
        frame
    }

    /// Appends this packet's frame to `w`.
    pub fn write_to(&self, w: &mut Vec<u8>)
        ensures
            final(w)@ == old(w)@ + self@.encode(),
    {
        let mut frame = self.encode();
        w.append(&mut frame);
    }

    /// The packet that a payload of the given type holds.
    fn from_payload(tag: u32, payload: Vec<u8>) -> (out: Result<Packet, ProtocolError>)
        ensures
            match out {
                Ok(packet) => decode_payload(tag, payload@) == Ok::<PacketView, ProtocolError>(
                    packet@,
                ),
                Err(e) => decode_payload(tag, payload@) == Err::<PacketView, ProtocolError>(e),
            },
    {
        if tag == T_CONTENT {
            return Ok(Packet::Content(payload));
        }
        if tag == T_DETACH {
            return Ok(Packet::Detach);
        }
        if tag == T_RENAME {
            return match string_from_utf8(payload) {
                Some(name) => Ok(Packet::Rename(name)),
                None => Err(ProtocolError::NameNotUtf8),
            };
        }
        if tag > T_RENAME {
            return Err(ProtocolError::UnknownType(tag));
        }
        if payload.len() < 4 {
            return Err(ProtocolError::TooShort);
        }
        assert(payload@.skip(0) == payload@);
        if tag == T_RESIZE {
            return Ok(
                Packet::Resize {
                    rows: read_le16(payload.as_slice(), 0),
                    cols: read_le16(payload.as_slice(), 2),
                },
            );
        }
        let word: u32 = read_le32(payload.as_slice(), 0);
        if tag == T_ATTACH {
            Ok(Packet::Attach { flags: word })
        } else if tag == T_EXIT {
            Ok(Packet::Exit(to_signed(word)))
        } else {
            Ok(Packet::Pid(word))
        }
    }

    /// Reads exactly one packet.  Returns `UnexpectedEof` when the bytes end
    /// before the frame does (which callers treat as a disconnect).
    pub fn read_from(r: &mut ByteReader) -> (out: Result<Packet, ProtocolError>)
        ensures
            match parse(old(r)@) {
                Parsed::NeedMore => out == Err::<Packet, ProtocolError>(
                    ProtocolError::UnexpectedEof,
                ) && final(r)@ == Seq::<u8>::empty(),
                Parsed::Invalid { error, used } => out == Err::<Packet, ProtocolError>(error)
                    && final(r)@ == old(r)@.skip(used as int),
                Parsed::Complete { packet, used } => out is Ok && out->Ok_0@ == packet && final(r)@ == old(r)@.skip(used as int),
            },
    {
        let ghost bytes = r@;
        let header = match r.read_exact(HEADER_LEN) {
            Ok(header) => header,
            Err(e) => {
                return Err(e);
            },
        };
        let tag: u32 = read_le32(header.as_slice(), 0);
        let len: u32 = read_le32(header.as_slice(), 4);
        assert(tag == from_le32(bytes));
        assert(len == announced_len(bytes));
        if len > MAX_PAYLOAD as u32 {
            return Err(ProtocolError::TooLarge(len));
        }
        let payload = match r.read_exact(len as usize) {
            Ok(payload) => payload,
            Err(e) => {
                return Err(e);
            },
        };
        assert(payload@ == bytes.subrange(HEADER_LEN as int, HEADER_LEN + len));
        assert(r@ == bytes.skip(HEADER_LEN + len));
        Packet::from_payload(tag, payload)
    }

    /// Takes the first packet out of `buf`, once all of its frame is there.
    /// `Ok(None)` means that more bytes are needed.  Only a whole frame is
    /// removed; otherwise `buf` stays as it is.
    pub fn try_decode(buf: &mut Vec<u8>) -> (out: Result<Option<Packet>, ProtocolError>)
        ensures
            match parse(old(buf)@) {
                Parsed::NeedMore => out == Ok::<Option<Packet>, ProtocolError>(None) && final(buf)@ == old(buf)@,
                Parsed::Invalid { error, .. } => out == Err::<Option<Packet>, ProtocolError>(error)
                    && final(buf)@ == old(buf)@,
                Parsed::Complete { packet, used } => out matches Ok(Some(p)) && p@ == packet
                    && final(buf)@ == old(buf)@.skip(used as int),
            },
    {
        if buf.len() < HEADER_LEN {
            return Ok(None);
        }
        let ghost bytes = buf@;
        assert(bytes.skip(0) == bytes);
        let tag: u32 = read_le32(buf.as_slice(), 0);
        let len: u32 = read_le32(buf.as_slice(), 4);
        if len > MAX_PAYLOAD as u32 {
            return Err(ProtocolError::TooLarge(len));
        }
        let used: usize = HEADER_LEN + len as usize;
        if buf.len() < used {
            return Ok(None);
        }
        let payload = vstd::slice::slice_to_vec(
            vstd::slice::slice_subrange(buf.as_slice(), HEADER_LEN, used),
        );
        match Packet::from_payload(tag, payload) {
            Ok(packet) => {
                let rest = buf.split_off(used);
                *buf = rest;
                Ok(Some(packet))
            },
            Err(e) => Err(e),
        }
    }
}

/// The bytes cut into pieces that each fit into a frame.
pub open spec fn content_packets(bytes: Seq<u8>) -> Seq<PacketView>
    decreases bytes.len(),
{
    if bytes.len() == 0 {
        Seq::empty()
    } else if bytes.len() <= MAX_PAYLOAD {
        seq![PacketView::Content(bytes)]
    } else {
        seq![PacketView::Content(bytes.take(MAX_PAYLOAD as int))] + content_packets(
            bytes.skip(MAX_PAYLOAD as int),
        )
    }
}

pub open spec fn packets_view(packets: Seq<Packet>) -> Seq<PacketView> {
    Seq::new(packets.len(), |i: int| packets[i]@)
}

/// Cuts bytes into content packets that each fit into a frame.
pub fn split_content(bytes: &[u8]) -> (packets: Vec<Packet>)
    ensures
        packets_view(packets@) == content_packets(bytes@),
{
    let mut packets: Vec<Packet> = Vec::new();
    let mut i: usize = 0;
    assert(bytes@.skip(0) == bytes@);
    assert(packets_view(packets@) + content_packets(bytes@) == content_packets(bytes@));
    while i < bytes.len()
        invariant
            i <= bytes@.len(),
            packets_view(packets@) + content_packets(bytes@.skip(i as int)) == content_packets(
                bytes@,
            ),
        decreases bytes@.len() - i,
    {
        let start: usize = i;
        let mut chunk: Vec<u8> = Vec::new();
        while i < bytes.len() && chunk.len() < MAX_PAYLOAD
            invariant
                start <= i <= bytes@.len(),
                chunk@.len() == i - start,
                chunk@.len() <= MAX_PAYLOAD,
                chunk@ == bytes@.subrange(start as int, i as int),
            decreases bytes@.len() - i,
        {
            chunk.push(bytes[i]);
            i += 1;
            assert(chunk@ == bytes@.subrange(start as int, i as int));
        }
        let ghost tail = bytes@.skip(start as int);
        let ghost earlier = packets_view(packets@);
        let ghost piece = PacketView::Content(chunk@);
        packets.push(Packet::Content(chunk));
        proof {
            assert(packets_view(packets@) == earlier.push(piece));
            let later = content_packets(bytes@.skip(i as int));
            if tail.len() <= MAX_PAYLOAD {
                assert(bytes@.subrange(start as int, i as int) == tail);
                assert(bytes@.skip(i as int).len() == 0);
                assert(earlier.push(piece) + later == earlier + seq![piece]);
            } else {
                assert(bytes@.subrange(start as int, i as int) == tail.take(MAX_PAYLOAD as int));
                assert(tail.skip(MAX_PAYLOAD as int) == bytes@.skip(i as int));
                assert(earlier.push(piece) + later == earlier + (seq![piece] + later));
            }
        }
    }
    assert(bytes@.skip(bytes@.len() as int).len() == 0);
    assert(packets_view(packets@) + Seq::empty() == packets_view(packets@));
    packets
}

/// How many bytes are to be read next so that the first frame of `buf` comes
/// to its end: first the rest of the header, then the rest of the payload, then
/// none.  A header that announces too much is refused before any payload byte
/// is read.
pub fn missing(buf: &[u8]) -> (out: Result<usize, ProtocolError>)
    ensures
        match out {
            Ok(n) => n == missing_bytes(buf@) && !oversized(buf@),
            Err(e) => oversized(buf@) && e == ProtocolError::TooLarge(announced_len(buf@)),
        },
{
    if buf.len() < HEADER_LEN {
        return Ok(HEADER_LEN - buf.len());
    }
    let len: u32 = read_le32(buf, 4);
    if len > MAX_PAYLOAD as u32 {
        return Err(ProtocolError::TooLarge(len));
    }
    let whole: usize = HEADER_LEN + len as usize;
    if buf.len() < whole {
        Ok(whole - buf.len())
    } else {
        Ok(0)
    }
}

/// Whether `bytes` starts with a header that announces too large a payload.
pub open spec fn oversized(bytes: Seq<u8>) -> bool {
    bytes.len() >= HEADER_LEN && announced_len(bytes) > MAX_PAYLOAD
}

/// The bytes that `bytes` lacks of its first header, or else of its first frame.
pub open spec fn missing_bytes(bytes: Seq<u8>) -> int {
    if bytes.len() < HEADER_LEN {
        HEADER_LEN - bytes.len()
    } else if bytes.len() < HEADER_LEN + announced_len(bytes) {
        HEADER_LEN + announced_len(bytes) - bytes.len()
    } else {
        0
    }
}

// ---- laws -------------------------------------------------------------------

proof fn lemma_le16(x: u16, rest: Seq<u8>)
    ensures
        from_le16(le16(x) + rest) == x,
        le16(x).len() == 2,
{
}

proof fn lemma_le32(x: u32, rest: Seq<u8>)
    ensures
        from_le32(le32(x) + rest) == x,
        le32(x).len() == 4,
{
}

/// What a payload of at most a frame's size says is the packet it was made for.
proof fn lemma_decode_payload(p: PacketView)
    ensures
        decode_payload(p.tag(), p.payload()) == Ok::<PacketView, ProtocolError>(p),
{
    match p {
        PacketView::Attach { flags } => {
            lemma_le32(flags, Seq::empty());
            assert(le32(flags) + Seq::empty() == le32(flags));
        },
        PacketView::Resize { rows, cols } => {
            lemma_le16(rows, le16(cols));
            lemma_le16(cols, Seq::empty());
            assert((le16(rows) + le16(cols)).skip(2) == le16(cols) + Seq::empty());
        },
        PacketView::Exit(status) => {
            lemma_le32(unsigned(status), Seq::empty());
            assert(le32(unsigned(status)) + Seq::empty() == le32(unsigned(status)));
        },
        PacketView::Pid(pid) => {
            lemma_le32(pid, Seq::empty());
            assert(le32(pid) + Seq::empty() == le32(pid));
        },
        PacketView::Rename(name) => {
            vstd::utf8::encode_utf8_valid_utf8(name);
            vstd::utf8::encode_utf8_decode_utf8(name);
        },
        _ => {},
    }
}

proof fn lemma_header(p: PacketView, rest: Seq<u8>)
    requires
        p.fits(),
    ensures
        p.encode().len() == HEADER_LEN + p.payload().len(),
        from_le32(p.encode() + rest) == p.tag(),
        announced_len(p.encode() + rest) == p.payload().len(),
{
    let len = (p.payload().len() % 0x1_0000_0000) as u32;
    lemma_le32(p.tag(), le32(len) + p.payload() + rest);
    lemma_le32(len, p.payload() + rest);
    assert(p.encode() + rest == le32(p.tag()) + (le32(len) + p.payload() + rest));
    assert((p.encode() + rest).skip(4) == le32(len) + (p.payload() + rest));
}

/// Reading gives back what writing wrote: at the start of any byte stream, the
/// frame of a packet that fits is read as that packet, and exactly its bytes
/// are used.
pub proof fn law_read_gives_back_write(p: PacketView, rest: Seq<u8>)
    requires
        p.fits(),
    ensures
        parse(p.encode() + rest) == (Parsed::Complete { packet: p, used: p.encode().len() }),
{
    lemma_header(p, rest);
    lemma_decode_payload(p);
    let used = p.encode().len();
    assert((p.encode() + rest).subrange(HEADER_LEN as int, used as int) == p.payload());
}

/// Two packets that fit and have the same frame are the same packet.
pub proof fn law_frames_are_distinct(p: PacketView, q: PacketView)
    requires
        p.fits(),
        q.fits(),
        p.encode() == q.encode(),
    ensures
        p == q,
{
    law_read_gives_back_write(p, Seq::empty());
    law_read_gives_back_write(q, Seq::empty());
}

/// A frame that is cut short is never taken for a packet nor for a violation.
pub proof fn law_cut_frame_needs_more(p: PacketView, n: int)
    requires
        p.fits(),
        0 <= n < p.encode().len(),
    ensures
        parse(p.encode().take(n)) is NeedMore,
{
    lemma_header(p, Seq::empty());
    let cut = p.encode().take(n);
    if n >= HEADER_LEN {
        assert(p.encode() + Seq::empty() == p.encode());
        let a = cut.skip(4);
        let b = p.encode().skip(4);
        assert(a[0] == b[0] && a[1] == b[1] && a[2] == b[2] && a[3] == b[3]);
    }
}

/// A packet whose payload is too large for a frame is refused by every reader
/// (its length must fit the header's field).
pub proof fn law_oversized_is_refused(p: PacketView, rest: Seq<u8>)
    requires
        !p.fits(),
        p.payload().len() <= u32::MAX,
    ensures
        parse(p.encode() + rest) == (Parsed::Invalid {
            error: ProtocolError::TooLarge(p.payload().len() as u32),
            used: HEADER_LEN as nat,
        }),
{
    let len = (p.payload().len() % 0x1_0000_0000) as u32;
    lemma_le32(len, p.payload() + rest);
    assert((p.encode() + rest).skip(4) == le32(len) + (p.payload() + rest));
}

/// What has been read does not change when more bytes come.
pub proof fn law_more_bytes_change_nothing(bytes: Seq<u8>, more: Seq<u8>)
    requires
        !(parse(bytes) is NeedMore),
    ensures
        parse(bytes + more) == parse(bytes),
{
    let all = bytes + more;
    let a = all.skip(4);
    let b = bytes.skip(4);
    assert(a[0] == b[0] && a[1] == b[1] && a[2] == b[2] && a[3] == b[3]);
    assert(announced_len(all) == announced_len(bytes));
    assert(from_le32(all) == from_le32(bytes));
    let used = HEADER_LEN + announced_len(bytes);
    if announced_len(bytes) <= MAX_PAYLOAD {
        assert(all.subrange(HEADER_LEN as int, used) == bytes.subrange(HEADER_LEN as int, used));
    }
}

/// What is read uses at least a header and no more than there is.
pub proof fn law_reading_progresses(bytes: Seq<u8>)
    ensures
        parse(bytes) matches Parsed::Complete { used, .. } ==> HEADER_LEN <= used <= bytes.len(),
        parse(bytes) matches Parsed::Invalid { used, .. } ==> HEADER_LEN <= used <= bytes.len(),
{
}

/// The packets of a byte stream, up to the first frame that is incomplete or
/// invalid, and the bytes that remain.
pub open spec fn packets(bytes: Seq<u8>) -> (Seq<PacketView>, Seq<u8>)
    decreases bytes.len(),
{
    match parse(bytes) {
        Parsed::Complete { packet, used } => {
            if 0 < used <= bytes.len() {
                let (later, rest) = packets(bytes.skip(used as int));
                (seq![packet] + later, rest)
            } else {
                (Seq::empty(), bytes)
            }
        },
        _ => (Seq::empty(), bytes),
    }
}

/// The frames of the packets, one after the other.
pub open spec fn encode_all(ps: Seq<PacketView>) -> Seq<u8>
    decreases ps.len(),
{
    if ps.len() == 0 {
        Seq::empty()
    } else {
        ps[0].encode() + encode_all(ps.drop_first())
    }
}

/// One more packet is one more frame at the end.
pub proof fn lemma_encode_all_push(ps: Seq<PacketView>, p: PacketView)
    ensures
        encode_all(ps.push(p)) == encode_all(ps) + p.encode(),
    decreases ps.len(),
{
    let all = ps.push(p);
    if ps.len() == 0 {
        assert(all.drop_first() == Seq::<PacketView>::empty());
        assert(encode_all(all.drop_first()) == Seq::<u8>::empty());
        assert(encode_all(all) == p.encode());
    } else {
        assert(all.drop_first() == ps.drop_first().push(p));
        lemma_encode_all_push(ps.drop_first(), p);
        assert(encode_all(all) == encode_all(ps) + p.encode());
    }
}

/// A stream of frames is read as the packets that were written, in order, and
/// nothing is left over.
pub proof fn law_stream_gives_back_packets(ps: Seq<PacketView>)
    requires
        forall|i: int| 0 <= i < ps.len() ==> (#[trigger] ps[i]).fits(),
    ensures
        packets(encode_all(ps)) == (ps, Seq::<u8>::empty()),
    decreases ps.len(),
{
    if ps.len() == 0 {
    } else {
        let rest = encode_all(ps.drop_first());
        law_read_gives_back_write(ps[0], rest);
        lemma_header(ps[0], rest);
        assert((ps[0].encode() + rest).skip(ps[0].encode().len() as int) == rest);
        law_stream_gives_back_packets(ps.drop_first());
        assert(seq![ps[0]] + ps.drop_first() == ps);
    }
}

/// The bytes that content packets carry.
pub open spec fn carried(packets: Seq<PacketView>) -> Seq<u8>
    decreases packets.len(),
{
    if packets.len() == 0 {
        Seq::empty()
    } else {
        packets[0].payload() + carried(packets.drop_first())
    }
}

/// However many bytes are cut into content packets, the packets all fit into frames,
/// and together they carry exactly these bytes.
pub proof fn law_content_is_carried(bytes: Seq<u8>)
    ensures
        carried(content_packets(bytes)) == bytes,
        forall|i: int|
            0 <= i < content_packets(bytes).len() ==> (#[trigger] content_packets(
                bytes,
            )[i]).fits() && content_packets(bytes)[i] is Content,
    decreases bytes.len(),
{
    let all = content_packets(bytes);
    if bytes.len() == 0 {
    } else if bytes.len() <= MAX_PAYLOAD {
        assert(all.drop_first() == Seq::<PacketView>::empty());
        assert(carried(all.drop_first()) == Seq::<u8>::empty());
        assert(bytes + Seq::<u8>::empty() == bytes);
    } else {
        let rest = bytes.skip(MAX_PAYLOAD as int);
        law_content_is_carried(rest);
        let later = content_packets(rest);
        assert(all.drop_first() == later);
        assert(bytes.take(MAX_PAYLOAD as int) + rest == bytes);
        assert forall|i: int| 0 <= i < all.len() implies (#[trigger] all[i]).fits()
            && all[i] is Content by {
            if i > 0 {
                assert(all[i] == later[i - 1]);
            }
        }
    }
}

/// It does not matter how a stream is cut into reads: taking the packets out of
/// what came first and then out of what remained with the rest behind it gives
/// the packets of the whole.
pub proof fn law_cuts_do_not_matter(first: Seq<u8>, second: Seq<u8>)
    ensures
        ({
            let (early, left) = packets(first);
            let (late, rest) = packets(left + second);
            packets(first + second) == (early + late, rest)
        }),
    decreases first.len(),
{
    law_reading_progresses(first);
    match parse(first) {
        Parsed::Complete { packet, used } => {
            law_more_bytes_change_nothing(first, second);
            let tail = first.skip(used as int);
            assert((first + second).skip(used as int) == tail + second);
            law_cuts_do_not_matter(tail, second);
            let (early, left) = packets(tail);
            let (late, rest) = packets(left + second);
            assert(seq![packet] + (early + late) == (seq![packet] + early) + late);
        },
        _ => {
            let (late, rest) = packets(first + second);
            assert(Seq::<PacketView>::empty() + late == late);
        },
    }
}

/// A reader that always asks for the missing bytes stops exactly when the first
/// frame is decided, and has then not read past its end.
pub proof fn law_missing_bytes_end_the_frame(bytes: Seq<u8>, more: Seq<u8>)
    requires
        !oversized(bytes),
    ensures
        missing_bytes(bytes) == 0 <==> !(parse(bytes) is NeedMore),
        more.len() <= missing_bytes(bytes) && missing_bytes(bytes) > 0 ==> (parse(
            bytes + more,
        ) matches Parsed::Complete { used, .. } ==> used == bytes.len() + more.len()),
{
    let all = bytes + more;
    if bytes.len() >= HEADER_LEN {
        let a = all.skip(4);
        let b = bytes.skip(4);
        assert(a[0] == b[0] && a[1] == b[1] && a[2] == b[2] && a[3] == b[3]);
    }
}

/// The number that four bytes write, least significant first.
pub open spec fn number_at(bytes: Seq<u8>, at: int) -> int {
    bytes[at] + 256 * bytes[at + 1] + 65536 * bytes[at + 2] + 16777216 * bytes[at + 3]
}

/// What a frame looks like, byte by byte: the type and the payload's length in four
/// bytes each, least significant first, and then the payload.
pub proof fn law_frames_byte_by_byte(p: PacketView)
    requires
        p.payload().len() <= u32::MAX,
    ensures
        p.encode().len() == 8 + p.payload().len(),
        number_at(p.encode(), 0) == match p {
            PacketView::Content(_) => 0int,
            PacketView::Attach { .. } => 1,
            PacketView::Detach => 2,
            PacketView::Resize { .. } => 3,
            PacketView::Exit(_) => 4,
            PacketView::Pid(_) => 5,
            PacketView::Rename(_) => 6,
        },
        number_at(p.encode(), 4) == p.payload().len(),
        p.encode().skip(8) == p.payload(),
        p.fits() <==> p.payload().len() <= 4088,
{
    let len = p.payload().len() as u32;
    lemma_le32(p.tag(), Seq::empty());
    lemma_le32(len, Seq::empty());
    let e = p.encode();
    assert(e[0] == le32(p.tag())[0] && e[1] == le32(p.tag())[1] && e[2] == le32(p.tag())[2] && e[3]
        == le32(p.tag())[3]);
    assert(e[4] == le32(len)[0] && e[5] == le32(len)[1] && e[6] == le32(len)[2] && e[7] == le32(
        len,
    )[3]);
}

/// What a payload looks like, byte by byte.  A status is written in two's complement.
pub proof fn law_payloads_byte_by_byte(p: PacketView)
    ensures
        match p {
            PacketView::Content(bytes) => p.payload() == bytes,
            PacketView::Attach { flags } => p.payload().len() == 4 && number_at(p.payload(), 0)
                == flags,
            PacketView::Detach => p.payload().len() == 0,
            PacketView::Resize { rows, cols } => p.payload().len() == 4 && p.payload()[0] + 256
                * p.payload()[1] == rows && p.payload()[2] + 256 * p.payload()[3] == cols,
            PacketView::Exit(status) => p.payload().len() == 4 && number_at(p.payload(), 0) == (
            if status < 0 {
                status + 4294967296
            } else {
                status as int
            }),
            PacketView::Pid(pid) => p.payload().len() == 4 && number_at(p.payload(), 0) == pid,
            PacketView::Rename(name) => p.payload() == vstd::utf8::encode_utf8(name),
        },
{
    match p {
        PacketView::Attach { flags } => {
            lemma_number(flags);
        },
        PacketView::Resize { rows, cols } => {
            let body = le16(rows) + le16(cols);
            assert(body[0] == le16(rows)[0] && body[1] == le16(rows)[1]);
            assert(body[2] == le16(cols)[0] && body[3] == le16(cols)[1]);
            lemma_half_number(rows);
            lemma_half_number(cols);
        },
        PacketView::Exit(status) => {
            lemma_number(unsigned(status));
        },
        PacketView::Pid(pid) => {
            lemma_number(pid);
        },
        _ => {},
    }
}

proof fn lemma_number(x: u32)
    ensures
        le32(x).len() == 4,
        number_at(le32(x), 0) == x,
{
}

proof fn lemma_half_number(x: u16)
    ensures
        le16(x).len() == 2,
        le16(x)[0] + 256 * le16(x)[1] == x,
{
}

/// What bytes are read as, byte by byte: they are waited for until the header and the
/// payload that it announces are there; too long a payload is refused at once.
pub proof fn law_frames_are_waited_for(bytes: Seq<u8>)
    ensures
        bytes.len() < 8 ==> parse(bytes) is NeedMore,
        bytes.len() >= 8 && number_at(bytes, 4) > 4088 ==> parse(bytes) == (Parsed::Invalid {
            error: ProtocolError::TooLarge(number_at(bytes, 4) as u32),
            used: 8,
        }),
        bytes.len() >= 8 && number_at(bytes, 4) <= 4088 ==> (parse(bytes) is NeedMore <==> bytes.len()
            < 8 + number_at(bytes, 4)),
{
}

/// What a whole frame is read as, byte by byte.  A fixed record that is too short, a
/// name that is not UTF-8 and an unknown type are each refused with their own error;
/// bytes behind a fixed record are ignored.
pub proof fn law_frames_are_read(bytes: Seq<u8>)
    requires
        bytes.len() >= 8,
        number_at(bytes, 4) <= 4088,
        bytes.len() >= 8 + number_at(bytes, 4),
    ensures
        ({
            let n = number_at(bytes, 4);
            let used = (8 + n) as nat;
            let body = bytes.subrange(8, 8 + n);
            let tag = number_at(bytes, 0);
            let word = number_at(bytes, 8);
            let refused = |error: ProtocolError| Parsed::Invalid { error, used };
            let read = |packet: PacketView| Parsed::Complete { packet, used };
            if tag == 0 {
                parse(bytes) == read(PacketView::Content(body))
            } else if tag == 2 {
                parse(bytes) == read(PacketView::Detach)
            } else if tag == 6 {
                parse(bytes) == if vstd::utf8::valid_utf8(body) {
                    read(PacketView::Rename(vstd::utf8::decode_utf8(body)))
                } else {
                    refused(ProtocolError::NameNotUtf8)
                }
            } else if tag > 6 {
                parse(bytes) == refused(ProtocolError::UnknownType(tag as u32))
            } else if n < 4 {
                parse(bytes) == refused(ProtocolError::TooShort)
            } else if tag == 1 {
                parse(bytes) == read(PacketView::Attach { flags: word as u32 })
            } else if tag == 3 {
                parse(bytes) == read(
                    PacketView::Resize {
                        rows: (bytes[8] + 256 * bytes[9]) as u16,
                        cols: (bytes[10] + 256 * bytes[11]) as u16,
                    },
                )
            } else if tag == 4 {
                parse(bytes) == read(
                    PacketView::Exit(
                        (if word >= 2147483648 {
                            word - 4294967296
                        } else {
                            word
                        }) as i32,
                    ),
                )
            } else {
                parse(bytes) == read(PacketView::Pid(word as u32))
            }
        }),
{
    let n = number_at(bytes, 4);
    let body = bytes.subrange(8, 8 + n);
    assert(announced_len(bytes) == n);
    assert(from_le32(bytes) == number_at(bytes, 0));
    if n >= 4 {
        assert(body[0] == bytes[8] && body[1] == bytes[9] && body[2] == bytes[10] && body[3]
            == bytes[11]);
        assert(body.skip(2)[0] == bytes[10] && body.skip(2)[1] == bytes[11]);
    }
}

/// What is asked for next, in numbers: the rest of the eight bytes of the header, then
/// the rest of the payload that it announces.
pub proof fn law_missing_bytes_in_numbers(bytes: Seq<u8>)
    ensures
        oversized(bytes) <==> bytes.len() >= 8 && number_at(bytes, 4) > 4088,
        bytes.len() < 8 ==> missing_bytes(bytes) == 8 - bytes.len(),
        bytes.len() >= 8 && bytes.len() < 8 + number_at(bytes, 4) ==> missing_bytes(bytes) == 8
            + number_at(bytes, 4) - bytes.len(),
        bytes.len() >= 8 && bytes.len() >= 8 + number_at(bytes, 4) ==> missing_bytes(bytes) == 0,
{
}

/// No more packets are used than content needs: all but the last are full, and the
/// last is not empty.
pub proof fn law_content_packets_are_full(bytes: Seq<u8>, i: int)
    requires
        0 <= i < content_packets(bytes).len(),
    ensures
        i < content_packets(bytes).len() - 1 ==> content_packets(bytes)[i].payload().len() == 4088,
        0 < content_packets(bytes)[i].payload().len() <= 4088,
    decreases bytes.len(),
{
    if bytes.len() > MAX_PAYLOAD {
        let rest = bytes.skip(MAX_PAYLOAD as int);
        if i > 0 {
            law_content_packets_are_full(rest, i - 1);
            assert(content_packets(bytes)[i] == content_packets(rest)[i - 1]);
        }
    }
}

/// The end of the stream is one kind of error, every violation of the protocol the
/// other; and each error says what it is about.
pub proof fn law_errors_say_what_they_are(n: u32)
    ensures
        ProtocolError::UnexpectedEof.spec_kind() == ErrorKind::UnexpectedEof,
        ProtocolError::TooLarge(n).spec_kind() == ErrorKind::InvalidData,
        ProtocolError::TooShort.spec_kind() == ErrorKind::InvalidData,
        ProtocolError::NameNotUtf8.spec_kind() == ErrorKind::InvalidData,
        ProtocolError::UnknownType(n).spec_kind() == ErrorKind::InvalidData,
        ProtocolError::TooLarge(n).spec_message() == "packet payload too large: "@
            + text::decimal_digits(n as nat),
        ProtocolError::UnknownType(n).spec_message() == "unknown packet type "@
            + text::decimal_digits(n as nat),
{
}

/// Packets are seen as what they are.
pub proof fn law_packets_are_seen_as_they_are(packets: Seq<Packet>, i: int)
    requires
        0 <= i < packets.len(),
    ensures
        packets_view(packets).len() == packets.len(),
        packets_view(packets)[i] == packets[i]@,
        match packets[i] {
            Packet::Content(bytes) => packets[i]@ == PacketView::Content(bytes@),
            Packet::Attach { flags } => packets[i]@ == (PacketView::Attach { flags }),
            Packet::Detach => packets[i]@ == PacketView::Detach,
            Packet::Resize { rows, cols } => packets[i]@ == (PacketView::Resize { rows, cols }),
            Packet::Exit(status) => packets[i]@ == PacketView::Exit(status),
            Packet::Pid(pid) => packets[i]@ == PacketView::Pid(pid),
            Packet::Rename(name) => packets[i]@ == PacketView::Rename(name@),
        },
{
}

} // verus!
