use wize_demod::crc::check_crc;

#[test]
fn check_value_of_en13757() {
    let mut data = b"123456789".to_vec();
    data.extend_from_slice(&[0xC2, 0xB7]);
    assert!(check_crc(&data));
    data[0] = b'0';
    assert!(!check_crc(&data));
}

#[test]
fn empty_body_has_crc_ffff() {
    assert!(check_crc(&[0xFF, 0xFF]));
    assert!(!check_crc(&[0x00, 0x00]));
}

#[test]
fn swapped_crc_bytes_fail() {
    let mut data = b"123456789".to_vec();
    data.extend_from_slice(&[0xB7, 0xC2]);
    assert!(!check_crc(&data));
}
