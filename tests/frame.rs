use node_tunnel::frame::decode_frame;
use node_tunnel::frame::encode_frame;
use node_tunnel::frame::Frame;
use node_tunnel::frame::FrameError;

#[test]
fn reliable_frame_layout() {
    let f = Frame::Reliable { seq: 0x0102_0304, payload: vec![9, 8] };
    let bytes = encode_frame(&f);
    assert_eq!(bytes, vec![0x00, 1, 2, 3, 4, 9, 8]);
    assert_eq!(decode_frame(&bytes), Ok(f));
}

#[test]
fn unreliable_frame_layout() {
    let f = Frame::Unreliable { payload: vec![5, 6, 7] };
    let bytes = encode_frame(&f);
    assert_eq!(bytes, vec![0x01, 5, 6, 7]);
    assert_eq!(decode_frame(&bytes), Ok(f));
}

#[test]
fn ack_frame_layout() {
    let f = Frame::Ack { seq: u32::MAX };
    let bytes = encode_frame(&f);
    assert_eq!(bytes, vec![0x02, 0xFF, 0xFF, 0xFF, 0xFF]);
    assert_eq!(decode_frame(&bytes), Ok(f));
}

#[test]
fn reliable_frame_with_empty_payload() {
    let bytes = [0x00u8, 0, 0, 0, 7];
    assert_eq!(decode_frame(&bytes), Ok(Frame::Reliable { seq: 7, payload: vec![] }));
}

#[test]
fn frame_errors() {
    assert_eq!(decode_frame(&[]), Err(FrameError::Empty));
    assert_eq!(decode_frame(&[0x07, 1]), Err(FrameError::UnknownTag { tag: 7 }));
    assert_eq!(decode_frame(&[0x00, 1, 2]), Err(FrameError::BadLength { tag: 0, len: 3 }));
    assert_eq!(decode_frame(&[0x02, 0, 0, 0, 1, 9]), Err(FrameError::BadLength { tag: 2, len: 6 }));
}
