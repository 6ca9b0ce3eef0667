use wize_demod::hex::hex_string;

#[test]
fn hex_rendering() {
    assert_eq!(hex_string(&[]), "");
    assert_eq!(hex_string(&[0x00, 0x0f, 0xa5, 0xff]), "000fa5ff");
    let data: Vec<u8> = (0..=255).collect();
    let expected: String = data.iter().map(|b| format!("{:02x}", b)).collect();
    assert_eq!(hex_string(&data), expected);
}
