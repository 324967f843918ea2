use cuely::frame::{encode_frame, frame_payload_len, HEADER_LEN};

#[test]
fn frame_header_is_little_endian_length() {
    let payload = vec![7u8; 300];
    let frame = encode_frame(&payload);
    assert_eq!(frame.len(), HEADER_LEN + 300);
    assert_eq!(&frame[..8], &[44, 1, 0, 0, 0, 0, 0, 0]);
    assert_eq!(&frame[8..], payload.as_slice());
    assert_eq!(frame_payload_len(&frame), Some(300));
}

#[test]
fn empty_payload_and_short_header() {
    let frame = encode_frame(&Vec::new());
    assert_eq!(frame, vec![0u8; 8]);
    assert_eq!(frame_payload_len(&frame), Some(0));
    assert_eq!(frame_payload_len(&[1, 2, 3]), None);
    assert_eq!(frame_payload_len(&[0xff; 8]), Some(u64::MAX));
}
