use molasses::storage::{hex_encode, read_local, take_pending, LocalReadError, PendingImage};

#[test]
fn bytes_are_stored_as_lower_case_hex() {
    assert_eq!(hex_encode(&[0x00, 0x0f, 0xa5, 0xff]), b"000fa5ff".to_vec());
    assert_eq!(hex_encode(&[]), Vec::<u8>::new());
}

#[test]
fn stored_bytes_read_back() {
    let data: Vec<u8> = (0..=255u8).collect();
    let text = hex_encode(&data);
    assert_eq!(read_local(Some(&text)), Ok(data));
}

#[test]
fn stored_text_is_decoded_in_either_case() {
    assert_eq!(read_local(Some(b"DEADbeef")), Ok(vec![0xde, 0xad, 0xbe, 0xef]));
    assert_eq!(read_local(Some(b"")), Ok(vec![]));
}

#[test]
fn missing_key_is_not_found() {
    assert_eq!(read_local(None), Err(LocalReadError::NotFound));
}

#[test]
fn malformed_text_is_invalid_data() {
    assert_eq!(read_local(Some(b"abc")), Err(LocalReadError::InvalidData));
    assert_eq!(read_local(Some(b"zz")), Err(LocalReadError::InvalidData));
    assert_eq!(read_local(Some(b"0g")), Err(LocalReadError::InvalidData));
}

#[test]
fn pending_image_is_taken_once() {
    let mut pending = PendingImage::new();
    assert_eq!(take_pending(&mut pending), None);
    pending.store(vec![1, 2, 3]);
    pending.store(vec![4, 5]);
    assert_eq!(take_pending(&mut pending), Some(vec![4, 5]));
    assert_eq!(take_pending(&mut pending), None);
}
