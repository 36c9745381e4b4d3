use paggo::Command;
use paggo::codec::DecodedFrame;
use paggo::codec::decode_frame;
use paggo::codec::key_start;
use paggo::decode_key;

#[test]
fn command_table_is_canonical() {
    assert!(matches!(Command::from_u8(0), Command::PING));
    assert!(matches!(Command::from_u8(1), Command::QUIT));
    assert!(matches!(Command::from_u8(2), Command::GET));
    assert!(matches!(Command::from_u8(3), Command::SET));
    assert!(matches!(Command::from_u8(4), Command::EXISTS));
    assert!(matches!(Command::from_u8(5), Command::DELETE));
    assert!(matches!(Command::from_u8(6), Command::UNKNOWN));
    assert!(matches!(Command::from_u8(42), Command::UNKNOWN));
    assert!(matches!(Command::from_u8(255), Command::UNKNOWN));
}

#[test]
fn decode_key_strips_trailing_nuls() {
    assert_eq!(decode_key(b"foo\0\0\0\0\0"), "foo".to_string());
}

#[test]
fn decode_key_of_all_nuls_is_empty() {
    assert_eq!(decode_key(b"\0\0\0\0"), String::new());
    assert_eq!(decode_key(b""), String::new());
}

#[test]
fn decode_key_keeps_interior_nuls() {
    assert_eq!(decode_key(b"f\0o\0\0"), "f\0o".to_string());
}

#[test]
fn key_start_has_the_degenerate_case() {
    assert_eq!(key_start(32), 33);
    assert_eq!(key_start(2), 3);
    assert_eq!(key_start(1), 1);
    assert_eq!(key_start(0), 1);
}

#[test]
fn zero_read_with_zero_opcode_is_end_of_stream() {
    let buf = vec![0u8; 1 + 32 + 1024];
    assert!(matches!(decode_frame(&buf, 0, 32), DecodedFrame::EndOfStream));
}

#[test]
fn short_frame_is_a_protocol_error() {
    let mut buf = vec![0u8; 1 + 32 + 1024];
    buf[0] = 3;
    assert!(matches!(decode_frame(&buf, 5, 32), DecodedFrame::ProtocolError));
    // a zero-length read whose opcode byte is non-zero is not end of
    // stream either
    assert!(matches!(decode_frame(&buf, 0, 32), DecodedFrame::ProtocolError));
}

#[test]
fn full_frame_decodes_command_key_and_payload() {
    let mut buf = vec![0u8; 1 + 32 + 1024];
    buf[0] = 3;
    buf[1..4].copy_from_slice(b"foo");
    buf[33..36].copy_from_slice(b"bar");
    match decode_frame(&buf, 36, 32) {
        DecodedFrame::Request(req) => {
            assert!(matches!(req.command, Command::SET));
            assert_eq!(req.key, "foo".to_string());
            assert_eq!(req.payload, b"bar".to_vec());
        },
        _ => panic!("expected a request"),
    }
}

#[test]
fn payload_free_frame_has_empty_payload() {
    let mut buf = vec![0u8; 1 + 32 + 1024];
    buf[0] = 2;
    buf[1..4].copy_from_slice(b"foo");
    match decode_frame(&buf, 33, 32) {
        DecodedFrame::Request(req) => {
            assert!(matches!(req.command, Command::GET));
            assert_eq!(req.key, "foo".to_string());
            assert!(req.payload.is_empty());
        },
        _ => panic!("expected a request"),
    }
}

#[test]
fn max_key_size_one_overlaps_key_and_payload() {
    // the documented quirk: with max_key_size == 1 the payload starts
    // at offset 1, so the key byte is also the payload's first byte
    let mut buf = vec![0u8; 1 + 1 + 8];
    buf[0] = 3;
    buf[1] = b'k';
    buf[2] = b'v';
    match decode_frame(&buf, 3, 1) {
        DecodedFrame::Request(req) => {
            assert_eq!(req.key, "k".to_string());
            assert_eq!(req.payload, b"kv".to_vec());
        },
        _ => panic!("expected a request"),
    }
}
