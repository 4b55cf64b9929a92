use sm::protocol::{missing, split_content, ByteReader, ErrorKind, Packet, ProtocolError};
use sm::protocol::{FLAG_LOWPRIORITY, FLAG_READONLY, MAX_PAYLOAD, T_CONTENT};

fn roundtrip(p: Packet) {
    let mut buf = Vec::new();
    p.write_to(&mut buf);
    let mut cursor = ByteReader::new(buf);
    let decoded = Packet::read_from(&mut cursor).unwrap();
    assert_eq!(p, decoded);
}

fn frame(tag: u32, payload: &[u8]) -> Vec<u8> {
    let mut bytes = tag.to_le_bytes().to_vec();
    bytes.extend_from_slice(&(payload.len() as u32).to_le_bytes());
    bytes.extend_from_slice(payload);
    bytes
}

fn read(bytes: &[u8]) -> Result<Packet, ProtocolError> {
    Packet::read_from(&mut ByteReader::new(bytes.to_vec()))
}

#[test]
fn roundtrip_all_variants() {
    roundtrip(Packet::Content(b"hello world".to_vec()));
    roundtrip(Packet::Content(Vec::new()));
    roundtrip(Packet::Attach {
        flags: FLAG_READONLY | FLAG_LOWPRIORITY,
    });
    roundtrip(Packet::Detach);
    roundtrip(Packet::Resize { rows: 24, cols: 80 });
    roundtrip(Packet::Exit(7));
    roundtrip(Packet::Exit(-1));
    roundtrip(Packet::Pid(12345));
    roundtrip(Packet::Rename("new-name".to_string()));
}

#[test]
fn max_payload_roundtrips() {
    roundtrip(Packet::Content(vec![0xAB; MAX_PAYLOAD]));
}

#[test]
fn eof_is_reported() {
    let mut empty = ByteReader::new(Vec::new());
    let err = Packet::read_from(&mut empty).unwrap_err();
    assert_eq!(err.kind(), ErrorKind::UnexpectedEof);
}

#[test]
fn oversized_len_rejected() {
    let mut header = Vec::new();
    header.extend_from_slice(&T_CONTENT.to_le_bytes());
    header.extend_from_slice(&((MAX_PAYLOAD as u32) + 1).to_le_bytes());
    let mut cursor = ByteReader::new(header);
    let err = Packet::read_from(&mut cursor).unwrap_err();
    assert_eq!(err.kind(), ErrorKind::InvalidData);
}

#[test]
fn frames_have_their_exact_bytes() {
    assert_eq!(MAX_PAYLOAD, 4088);
    assert_eq!(
        Packet::Content(b"hi".to_vec()).encode(),
        vec![0, 0, 0, 0, 2, 0, 0, 0, b'h', b'i']
    );
    assert_eq!(
        Packet::Attach { flags: 0x01020304 }.encode(),
        vec![1, 0, 0, 0, 4, 0, 0, 0, 4, 3, 2, 1]
    );
    assert_eq!(Packet::Detach.encode(), vec![2, 0, 0, 0, 0, 0, 0, 0]);
    assert_eq!(
        Packet::Resize { rows: 24, cols: 0x0150 }.encode(),
        vec![3, 0, 0, 0, 4, 0, 0, 0, 24, 0, 0x50, 1]
    );
    assert_eq!(
        Packet::Exit(-2).encode(),
        vec![4, 0, 0, 0, 4, 0, 0, 0, 0xfe, 0xff, 0xff, 0xff]
    );
    assert_eq!(
        Packet::Pid(258).encode(),
        vec![5, 0, 0, 0, 4, 0, 0, 0, 2, 1, 0, 0]
    );
    assert_eq!(
        Packet::Rename("é".to_string()).encode(),
        vec![6, 0, 0, 0, 2, 0, 0, 0, 0xc3, 0xa9]
    );
}

#[test]
fn tags_and_payloads() {
    assert_eq!(Packet::Pid(1).tag(), 5);
    assert_eq!(Packet::Rename("x".to_string()).tag(), 6);
    assert_eq!(Packet::Detach.payload(), Vec::<u8>::new());
    assert_eq!(Packet::Exit(i32::MIN).payload(), vec![0, 0, 0, 0x80]);
}

#[test]
fn short_payload_is_refused() {
    for tag in [1, 3, 4, 5] {
        assert_eq!(read(&frame(tag, &[1, 2, 3])), Err(ProtocolError::TooShort));
    }
    assert_eq!(ProtocolError::TooShort.kind(), ErrorKind::InvalidData);
    assert_eq!(ProtocolError::TooShort.message(), "packet payload too short");
}

#[test]
fn longer_payload_is_cut() {
    assert_eq!(read(&frame(5, &[1, 0, 0, 0, 9, 9])), Ok(Packet::Pid(1)));
    assert_eq!(read(&frame(2, &[9])), Ok(Packet::Detach));
}

#[test]
fn rename_reads_utf8_only() {
    assert_eq!(
        read(&frame(6, "naïve-名".as_bytes())),
        Ok(Packet::Rename("naïve-名".to_string()))
    );
    assert_eq!(read(&frame(6, &[0x66, 0xff])), Err(ProtocolError::NameNotUtf8));
    assert_eq!(read(&frame(6, &[0xed, 0xa0, 0x80])), Err(ProtocolError::NameNotUtf8));
    assert_eq!(ProtocolError::NameNotUtf8.message(), "rename name not UTF-8");
    assert_eq!(ProtocolError::NameNotUtf8.kind(), ErrorKind::InvalidData);
}

#[test]
fn unknown_type_is_refused() {
    assert_eq!(read(&frame(7, b"")), Err(ProtocolError::UnknownType(7)));
    assert_eq!(
        ProtocolError::UnknownType(4000000000).message(),
        "unknown packet type 4000000000"
    );
    assert_eq!(
        ProtocolError::TooLarge(4089).message(),
        "packet payload too large: 4089"
    );
}

#[test]
fn cut_frames_end_too_early() {
    let whole = Packet::Content(b"abc".to_vec()).encode();
    for n in 0..whole.len() {
        assert_eq!(read(&whole[..n]), Err(ProtocolError::UnexpectedEof));
        let mut buf = whole[..n].to_vec();
        assert_eq!(Packet::try_decode(&mut buf), Ok(None));
        assert_eq!(buf, whole[..n].to_vec());
    }
}

#[test]
fn decoding_takes_one_frame_at_a_time() {
    let mut buf = Packet::Pid(9).encode();
    Packet::Content(b"xyz".to_vec()).write_to(&mut buf);
    buf.push(4);
    assert_eq!(Packet::try_decode(&mut buf), Ok(Some(Packet::Pid(9))));
    assert_eq!(
        Packet::try_decode(&mut buf),
        Ok(Some(Packet::Content(b"xyz".to_vec())))
    );
    assert_eq!(Packet::try_decode(&mut buf), Ok(None));
    assert_eq!(buf, vec![4]);
}

#[test]
fn decoding_refuses_what_reading_refuses() {
    let mut buf = frame(9, b"q");
    assert_eq!(Packet::try_decode(&mut buf), Err(ProtocolError::UnknownType(9)));
    assert_eq!(buf, frame(9, b"q"));
    let mut big = 0u32.to_le_bytes().to_vec();
    big.extend_from_slice(&5000u32.to_le_bytes());
    assert_eq!(Packet::try_decode(&mut big), Err(ProtocolError::TooLarge(5000)));
}

#[test]
fn reading_goes_on_behind_a_frame() {
    let mut bytes = Packet::Detach.encode();
    Packet::Exit(3).write_to(&mut bytes);
    let mut reader = ByteReader::new(bytes);
    assert_eq!(Packet::read_from(&mut reader), Ok(Packet::Detach));
    assert_eq!(Packet::read_from(&mut reader), Ok(Packet::Exit(3)));
    assert_eq!(Packet::read_from(&mut reader), Err(ProtocolError::UnexpectedEof));
}

#[test]
fn missing_bytes_are_counted() {
    let whole = Packet::Content(vec![7; 10]).encode();
    assert_eq!(missing(&[]), Ok(8));
    assert_eq!(missing(&whole[..5]), Ok(3));
    assert_eq!(missing(&whole[..8]), Ok(10));
    assert_eq!(missing(&whole[..17]), Ok(1));
    assert_eq!(missing(&whole), Ok(0));
    assert_eq!(
        missing(&[0, 0, 0, 0, 0xff, 0xff, 0, 0]),
        Err(ProtocolError::TooLarge(0xffff))
    );
}

#[test]
fn content_is_cut_into_packets_that_fit() {
    assert!(split_content(&[]).is_empty());
    assert_eq!(split_content(b"xy"), vec![Packet::Content(b"xy".to_vec())]);
    assert_eq!(split_content(&[1; 4088]), vec![Packet::Content(vec![1; 4088])]);
    assert_eq!(
        split_content(&[1; 4089]),
        vec![Packet::Content(vec![1; 4088]), Packet::Content(vec![1])]
    );
}
