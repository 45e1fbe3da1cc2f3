use blockyard::raft::rpc::{frame_len, read_frame, write_frame, FrameError, MAX_FRAME_LEN};


#[test]
fn test_write_read_frame_roundtrip() {
    let payload = b"{\"Vote\":{\"vote\":1}}";
    let buf = write_frame(payload);
    assert_eq!(read_frame(&buf).unwrap(), payload.to_vec());
}

#[test]
fn test_read_frame_too_large() {
    let len: u32 = 128 * 1024 * 1024;
    let mut data = len.to_be_bytes().to_vec();
    data.extend_from_slice(&[0u8; 10]);
    let result = read_frame(&data);
    assert!(result.is_err());
    let err = result.unwrap_err();
    assert_eq!(
        err,
        FrameError::InvalidData("frame too large: 134217728 bytes".to_string())
    );
}

#[test]
fn test_read_frame_truncated_length() {
    let result = read_frame(&[0u8; 2]);
    assert!(result.is_err());
}

#[test]
fn test_read_frame_truncated_payload() {
    let mut data = 100u32.to_be_bytes().to_vec();
    data.extend_from_slice(&[0u8; 10]);
    let result = read_frame(&data);
    assert!(result.is_err());
}

#[test]
fn test_write_frame_multiple() {
    let mut buf = write_frame(b"first vote");
    let taken = buf.len();
    buf.extend(write_frame(b"second vote"));

    let d1 = read_frame(&buf).unwrap();
    let d2 = read_frame(&buf[taken..]).unwrap();
    assert_eq!(d1, b"first vote".to_vec());
    assert_eq!(d2, b"second vote".to_vec());
}
#[test]
fn the_length_is_big_endian() {
    assert_eq!(write_frame(&[7, 8, 9]), vec![0, 0, 0, 3, 7, 8, 9]);
    let long = vec![1u8; 0x01_02_03];
    assert_eq!(write_frame(&long)[..4], [0, 1, 2, 3]);
    assert_eq!(frame_len(&[0, 1, 2, 3]), Ok(0x01_02_03));
}

#[test]
fn the_largest_frame_is_accepted() {
    let limit = (MAX_FRAME_LEN as u32).to_be_bytes();
    assert_eq!(frame_len(&limit), Ok(MAX_FRAME_LEN));
    let over = (MAX_FRAME_LEN as u32 + 1).to_be_bytes();
    assert!(frame_len(&over).is_err());
    assert_eq!(read_frame(&limit), Err(FrameError::UnexpectedEof));
    assert_eq!(read_frame(&[]), Err(FrameError::UnexpectedEof));
}
