use tox_precompute::packet::{ENVELOPE_SIZE, MAX_NICKNAME_LENGTH, STATUS_SIZE};
use tox_precompute::{CodecError, NicknameV2, Packet, PeerStatusV2, Status};

fn sender_pk() -> [u8; 32] {
    tox_crypto::gen_keypair().0 .0
}

fn nonce() -> [u8; 24] {
    tox_crypto::gen_nonce().0
}

fn encode(p: &Packet) -> Vec<u8> {
    let mut buf = vec![0u8; 512];
    let end = p.to_bytes(&mut buf, 0).unwrap();
    buf.truncate(end);
    buf
}

fn nickname_packet(nickname: &str) -> Packet {
    Packet::NicknameV2(NicknameV2::new(1, [7; 32], [9; 24], 2, 3, 4, nickname.to_owned()))
}

#[test]
fn packet_status_encode_decode() {
    let p = Packet::Status(Status::new(1, sender_pk(), nonce(), 2, 3, 4, PeerStatusV2::GsAway));
    let bytes = encode(&p);
    assert_eq!(bytes.len(), STATUS_SIZE);
    assert_eq!(Packet::from_bytes(&bytes), Ok(p));
}

#[test]
fn packet_nickname_v2_encode_decode() {
    let p = Packet::NicknameV2(NicknameV2::new(1, sender_pk(), nonce(), 2, 3, 4, "1234".to_owned()));
    let bytes = encode(&p);
    assert_eq!(bytes.len(), ENVELOPE_SIZE + 4);
    let decoded = Packet::from_bytes(&bytes).unwrap();
    match &decoded {
        Packet::NicknameV2(n) => assert_eq!(n.nickname, "1234"),
        other => panic!("decoded as {:?}", other),
    }
    assert_eq!(decoded, p);
}

#[test]
fn status_bytes_layout() {
    let p = Packet::Status(Status::new(0x0102, [0xaa; 32], [0xbb; 24], 2, 0x0304, 0xfffe, PeerStatusV2::GsBusy));
    let bytes = encode(&p);
    let mut expected = vec![0x00];
    expected.extend_from_slice(&[0xaa; 32]);
    expected.extend_from_slice(&[0xbb; 24]);
    expected.extend_from_slice(&[0x01, 0x02, 0x00, 0x02, 0x03, 0x04, 0xff, 0xfe, 0x02]);
    assert_eq!(bytes, expected);
}

#[test]
fn nickname_bytes_layout() {
    let bytes = encode(&nickname_packet("héllo"));
    assert_eq!(bytes[0], 0x01);
    assert_eq!(&bytes[57..65], &[0, 1, 0, 2, 0, 3, 0, 4]);
    assert_eq!(&bytes[ENVELOPE_SIZE..], "héllo".as_bytes());
}

#[test]
fn status_values_round_trip() {
    for status in [PeerStatusV2::GsNone, PeerStatusV2::GsAway, PeerStatusV2::GsBusy] {
        let p = Packet::Status(Status::new(5, [1; 32], [2; 24], 6, 7, 8, status));
        assert_eq!(Packet::from_bytes(&encode(&p)), Ok(p));
    }
}

#[test]
fn empty_and_longest_nicknames_round_trip() {
    let longest = "x".repeat(MAX_NICKNAME_LENGTH);
    for name in ["", longest.as_str(), "日本語"] {
        let p = nickname_packet(name);
        assert_eq!(Packet::from_bytes(&encode(&p)), Ok(p));
    }
}

#[test]
fn encode_decode_bytes_round_trip() {
    let bytes = encode(&nickname_packet("abc"));
    let p = Packet::from_bytes(&bytes).unwrap();
    assert_eq!(encode(&p), bytes);
}

#[test]
fn short_buffer_is_malformed() {
    let bytes = encode(&nickname_packet(""));
    for len in 0..ENVELOPE_SIZE {
        assert_eq!(Packet::from_bytes(&bytes[..len]), Err(CodecError::MalformedPacket));
    }
    let status = encode(&Packet::Status(Status::new(1, [1; 32], [2; 24], 2, 3, 4, PeerStatusV2::GsNone)));
    assert_eq!(Packet::from_bytes(&status[..ENVELOPE_SIZE]), Err(CodecError::MalformedPacket));
}

#[test]
fn unknown_kind_is_malformed() {
    let mut bytes = encode(&nickname_packet("abc"));
    bytes[0] = 0x07;
    assert_eq!(Packet::from_bytes(&bytes), Err(CodecError::MalformedPacket));
}

#[test]
fn unknown_status_is_malformed() {
    let mut bytes = encode(&Packet::Status(Status::new(1, [1; 32], [2; 24], 2, 3, 4, PeerStatusV2::GsNone)));
    bytes[ENVELOPE_SIZE] = 3;
    assert_eq!(Packet::from_bytes(&bytes), Err(CodecError::MalformedPacket));
}

#[test]
fn status_with_trailing_byte_is_malformed() {
    let mut bytes = encode(&Packet::Status(Status::new(1, [1; 32], [2; 24], 2, 3, 4, PeerStatusV2::GsNone)));
    bytes.push(0);
    assert_eq!(Packet::from_bytes(&bytes), Err(CodecError::MalformedPacket));
}

#[test]
fn overlong_nickname_is_malformed() {
    let mut bytes = encode(&nickname_packet(&"x".repeat(MAX_NICKNAME_LENGTH)));
    bytes.push(b'x');
    assert_eq!(Packet::from_bytes(&bytes), Err(CodecError::MalformedPacket));
    let mut buf = vec![0u8; 512];
    let p = nickname_packet(&"x".repeat(MAX_NICKNAME_LENGTH + 1));
    assert_eq!(p.to_bytes(&mut buf, 0), Err(CodecError::MalformedPacket));
    assert!(buf.iter().all(|b| *b == 0));
}

#[test]
fn invalid_utf8_nickname_is_malformed() {
    let mut bytes = encode(&nickname_packet("ab"));
    bytes.push(0xff);
    assert_eq!(Packet::from_bytes(&bytes), Err(CodecError::MalformedPacket));
}

#[test]
fn kinds_do_not_overlap() {
    let status = encode(&Packet::Status(Status::new(1, [1; 32], [2; 24], 2, 3, 4, PeerStatusV2::GsAway)));
    assert!(Status::from_bytes(&status).is_some());
    assert!(NicknameV2::from_bytes(&status).is_none());
    let nick = encode(&nickname_packet("a"));
    assert!(NicknameV2::from_bytes(&nick).is_some());
    assert!(Status::from_bytes(&nick).is_none());
}

#[test]
fn buffer_too_small() {
    let p = Packet::Status(Status::new(1, [1; 32], [2; 24], 2, 3, 4, PeerStatusV2::GsAway));
    let mut buf = vec![0u8; STATUS_SIZE - 1];
    assert_eq!(p.to_bytes(&mut buf, 0), Err(CodecError::BufferTooSmall));
    let mut buf = vec![0u8; STATUS_SIZE];
    assert_eq!(p.to_bytes(&mut buf, 1), Err(CodecError::BufferTooSmall));
    assert_eq!(p.to_bytes(&mut buf, STATUS_SIZE + 5), Err(CodecError::BufferTooSmall));
}

#[test]
fn writes_at_position() {
    let p = nickname_packet("ok");
    let mut buf = vec![0xeeu8; 100];
    let end = p.to_bytes(&mut buf, 10).unwrap();
    assert_eq!(end, 10 + ENVELOPE_SIZE + 2);
    assert!(buf[..10].iter().all(|b| *b == 0xee));
    assert!(buf[end..].iter().all(|b| *b == 0xee));
    assert_eq!(Packet::from_bytes(&buf[10..end]), Ok(p));
}
