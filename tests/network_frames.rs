use btclib::network::{frame, frame_length, FrameError, MAX_MESSAGE_SIZE};

#[test]
fn test_message_size_limit() {
    let too_large = (MAX_MESSAGE_SIZE + 1).to_be_bytes().to_vec();
    assert_eq!(frame_length(&too_large), Err(FrameError::InvalidData));
}

#[test]
fn frame_length_accepts_limit_exactly() {
    let at_limit = (10u64 * 1024 * 1024).to_be_bytes().to_vec();
    assert_eq!(frame_length(&at_limit), Ok(10 * 1024 * 1024));
}

#[test]
fn frame_length_rejects_short_prefix() {
    assert_eq!(frame_length(&vec![0u8; 7]), Err(FrameError::BadPrefix));
}

#[test]
fn frame_prefixes_big_endian_length() {
    let payload = vec![1u8, 2, 3];
    let framed = frame(&payload);
    assert_eq!(framed, vec![0, 0, 0, 0, 0, 0, 0, 3, 1, 2, 3]);
    assert_eq!(frame_length(&framed[0..8].to_vec()), Ok(3));
}
