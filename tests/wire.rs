use node_tunnel::wire::push_bytes;
use node_tunnel::wire::push_i32;
use node_tunnel::wire::push_string;
use node_tunnel::wire::push_u32;
use node_tunnel::wire::read_bytes;
use node_tunnel::wire::read_i32;
use node_tunnel::wire::read_string;
use node_tunnel::wire::FieldKind;
use node_tunnel::wire::ProtocolError;

#[test]
fn read_i32_big_endian_with_rest() {
    let bytes = [0x00u8, 0x00, 0x01, 0x02, 0xAA];
    let (v, rest) = read_i32(&bytes).unwrap();
    assert_eq!(v, 258);
    assert_eq!(rest, &[0xAAu8][..]);
}

#[test]
fn read_i32_negative() {
    let bytes = [0xFFu8, 0xFF, 0xFF, 0xFE];
    let (v, rest) = read_i32(&bytes).unwrap();
    assert_eq!(v, -2);
    assert!(rest.is_empty());
}

#[test]
fn read_i32_too_short() {
    let bytes = [1u8, 2, 3];
    assert_eq!(
        read_i32(&bytes),
        Err(ProtocolError::NotEnoughBytes { field: FieldKind::Int, need: 4, have: 3 })
    );
}

#[test]
fn push_i32_writes_big_endian() {
    let mut buf = vec![9u8];
    push_i32(&mut buf, 0x01020304);
    assert_eq!(buf, vec![9, 1, 2, 3, 4]);
    let mut neg = Vec::new();
    push_i32(&mut neg, -1);
    assert_eq!(neg, vec![0xFF, 0xFF, 0xFF, 0xFF]);
}

#[test]
fn push_u32_writes_big_endian() {
    let mut buf = Vec::new();
    push_u32(&mut buf, 0xFFFF_FFFE);
    assert_eq!(buf, vec![0xFF, 0xFF, 0xFF, 0xFE]);
}

#[test]
fn push_string_prefixes_utf8_length() {
    let mut buf = Vec::new();
    push_string(&mut buf, "hé");
    assert_eq!(buf, vec![0, 0, 0, 3, b'h', 0xC3, 0xA9]);
}

#[test]
fn read_string_round_trip_with_rest() {
    let mut buf = Vec::new();
    push_string(&mut buf, "game-1");
    buf.push(7);
    let (s, rest) = read_string(&buf).unwrap();
    assert_eq!(s, "game-1");
    assert_eq!(rest, &[7u8][..]);
}

#[test]
fn read_string_empty() {
    let bytes = [0u8, 0, 0, 0];
    let (s, rest) = read_string(&bytes).unwrap();
    assert_eq!(s, "");
    assert!(rest.is_empty());
}

#[test]
fn read_string_length_exceeds_remaining() {
    let bytes = [0u8, 0, 0, 5, b'a', b'b'];
    assert_eq!(
        read_string(&bytes),
        Err(ProtocolError::NotEnoughBytes { field: FieldKind::Str, need: 5, have: 2 })
    );
}

#[test]
fn read_string_truncated_prefix() {
    let bytes = [0u8, 0];
    assert_eq!(
        read_string(&bytes),
        Err(ProtocolError::NotEnoughBytes { field: FieldKind::Str, need: 4, have: 2 })
    );
}

#[test]
fn read_string_negative_length() {
    let bytes = [0xFFu8, 0xFF, 0xFF, 0xFF, b'a'];
    assert_eq!(
        read_string(&bytes),
        Err(ProtocolError::NegativeLength { field: FieldKind::Str, len: -1 })
    );
}

#[test]
fn read_string_invalid_utf8() {
    let bytes = [0u8, 0, 0, 2, 0xC3, 0x28];
    assert_eq!(read_string(&bytes), Err(ProtocolError::InvalidUtf8));
}

#[test]
fn read_bytes_round_trip() {
    let mut buf = Vec::new();
    push_bytes(&mut buf, &[0u8, 255, 3]);
    assert_eq!(buf, vec![0, 0, 0, 3, 0, 255, 3]);
    let (b, rest) = read_bytes(&buf).unwrap();
    assert_eq!(b, vec![0u8, 255, 3]);
    assert!(rest.is_empty());
}

#[test]
fn read_bytes_reports_byte_field() {
    let bytes = [0u8, 0, 0, 3, 1];
    assert_eq!(
        read_bytes(&bytes),
        Err(ProtocolError::NotEnoughBytes { field: FieldKind::Bytes, need: 3, have: 1 })
    );
}
