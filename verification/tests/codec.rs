use respkv::codec::DecodeOutcome;
use respkv::frame::RespFrame;

fn bulk(s: &[u8]) -> RespFrame {
    RespFrame::Bulk(s.to_vec())
}

fn decode_all(bytes: &[u8]) -> (RespFrame, usize) {
    match RespFrame::decode(bytes) {
        DecodeOutcome::Complete(f, used) => (f, used),
        DecodeOutcome::Incomplete => panic!("unexpected incomplete"),
        DecodeOutcome::Malformed => panic!("unexpected malformed"),
    }
}

#[test]
fn encode_simple_status() {
    let f = RespFrame::Simple(b"OK".to_vec());
    assert_eq!(f.encode(), b"+OK\r\n".to_vec());
}

#[test]
fn encode_error() {
    let f = RespFrame::Error(b"ERR oops".to_vec());
    assert_eq!(f.encode(), b"-ERR oops\r\n".to_vec());
}

#[test]
fn encode_integers_exactly() {
    assert_eq!(RespFrame::Integer(0).encode(), b":0\r\n".to_vec());
    assert_eq!(RespFrame::Integer(-123).encode(), b":-123\r\n".to_vec());
    assert_eq!(
        RespFrame::Integer(i64::MAX).encode(),
        b":9223372036854775807\r\n".to_vec()
    );
    assert_eq!(
        RespFrame::Integer(i64::MIN).encode(),
        b":-9223372036854775808\r\n".to_vec()
    );
}

#[test]
fn encode_bulk_and_nulls() {
    assert_eq!(bulk(b"hello").encode(), b"$5\r\nhello\r\n".to_vec());
    assert_eq!(bulk(b"").encode(), b"$0\r\n\r\n".to_vec());
    assert_eq!(RespFrame::NullBulk.encode(), b"$-1\r\n".to_vec());
    assert_eq!(RespFrame::NullArray.encode(), b"*-1\r\n".to_vec());
}

#[test]
fn encode_array() {
    let f = RespFrame::Array(vec![bulk(b"foo"), RespFrame::Integer(42)]);
    assert_eq!(f.encode(), b"*2\r\n$3\r\nfoo\r\n:42\r\n".to_vec());
}

#[test]
fn round_trip_every_variant() {
    let frames = vec![
        RespFrame::Simple(b"OK".to_vec()),
        RespFrame::Error(b"ERR x".to_vec()),
        RespFrame::Integer(-7),
        bulk(b"some\r\nbinary\x00data"),
        RespFrame::NullBulk,
        RespFrame::NullArray,
        RespFrame::Array(vec![
            bulk(b"SET"),
            bulk(b"k"),
            RespFrame::Array(vec![RespFrame::Integer(1), RespFrame::NullBulk]),
        ]),
        RespFrame::Array(vec![]),
    ];
    for f in frames {
        let bytes = f.encode();
        let (back, used) = decode_all(&bytes);
        assert_eq!(back, f);
        assert_eq!(used, bytes.len());
    }
}

#[test]
fn round_trip_leaves_trailing_bytes() {
    let f = RespFrame::Array(vec![bulk(b"PING")]);
    let mut bytes = f.encode();
    let frame_len = bytes.len();
    bytes.extend_from_slice(b"+extra\r\n");
    let (back, used) = decode_all(&bytes);
    assert_eq!(back, f);
    assert_eq!(used, frame_len);
}

#[test]
fn byte_at_a_time_is_incomplete_until_the_end() {
    let f = RespFrame::Array(vec![
        bulk(b"GET"),
        bulk(b"key"),
        RespFrame::Integer(-12),
        RespFrame::Simple(b"st".to_vec()),
    ]);
    let bytes = f.encode();
    for i in 0..bytes.len() {
        assert!(
            matches!(RespFrame::decode(&bytes[..i]), DecodeOutcome::Incomplete),
            "prefix of length {} was not incomplete",
            i
        );
    }
    let (back, used) = decode_all(&bytes);
    assert_eq!(back, f);
    assert_eq!(used, bytes.len());
}

#[test]
fn unknown_tag_is_malformed() {
    assert!(matches!(
        RespFrame::decode(b"!x\r\n"),
        DecodeOutcome::Malformed
    ));
}

#[test]
fn bad_integer_is_malformed() {
    assert!(matches!(
        RespFrame::decode(b":12a\r\n"),
        DecodeOutcome::Malformed
    ));
    assert!(matches!(
        RespFrame::decode(b":\r\n"),
        DecodeOutcome::Malformed
    ));
    assert!(matches!(
        RespFrame::decode(b":9223372036854775808\r\n"),
        DecodeOutcome::Malformed
    ));
}

#[test]
fn oversize_bulk_length_is_malformed_not_a_hang() {
    assert!(matches!(
        RespFrame::decode(b"$536870913\r\n"),
        DecodeOutcome::Malformed
    ));
    assert!(matches!(
        RespFrame::decode(b"$99999999999999999999\r\n"),
        DecodeOutcome::Malformed
    ));
}

#[test]
fn oversize_array_count_is_malformed() {
    assert!(matches!(
        RespFrame::decode(b"*1048577\r\n"),
        DecodeOutcome::Malformed
    ));
}

#[test]
fn negative_bulk_length_other_than_null_is_malformed() {
    assert!(matches!(
        RespFrame::decode(b"$-2\r\n"),
        DecodeOutcome::Malformed
    ));
}

#[test]
fn partial_bulk_body_is_incomplete() {
    assert!(matches!(
        RespFrame::decode(b"$5\r\nhel"),
        DecodeOutcome::Incomplete
    ));
}

#[test]
fn empty_buffer_is_incomplete() {
    assert!(matches!(RespFrame::decode(b""), DecodeOutcome::Incomplete));
}

#[test]
fn bulk_body_missing_terminator_is_malformed() {
    assert!(matches!(
        RespFrame::decode(b"$3\r\nfooXY"),
        DecodeOutcome::Malformed
    ));
}

#[test]
fn wire_safety_check() {
    assert!(RespFrame::Simple(b"OK".to_vec()).is_wire_safe());
    assert!(!RespFrame::Simple(b"bad\r\nline".to_vec()).is_wire_safe());
    assert!(RespFrame::Array(vec![bulk(b"x"), RespFrame::NullArray]).is_wire_safe());
    assert!(!RespFrame::Array(vec![RespFrame::Error(b"a\nb".to_vec())]).is_wire_safe());
}
