use wize_demod::bits::{msb_bits, pack_bits, read_be_u32, write_be_u32};

#[test]
fn msb_bits_of_a_preamble() {
    assert_eq!(msb_bits(0b1011, 4), vec![1, 0, 1, 1]);
    assert_eq!(msb_bits(0xF672, 16), vec![1, 1, 1, 1, 0, 1, 1, 0, 0, 1, 1, 1, 0, 0, 1, 0]);
    assert_eq!(msb_bits(0xFF, 0), Vec::<u8>::new());
    assert_eq!(msb_bits(u64::MAX, 64), vec![1u8; 64]);
    assert_eq!(msb_bits(1 << 63, 64)[0], 1);
}

#[test]
fn byte_bits_roundtrip() {
    for b in 0..=255u8 {
        assert_eq!(pack_bits(&msb_bits(b as u64, 8)), b);
    }
}

#[test]
fn pack_partial_bits() {
    assert_eq!(pack_bits(&[]), 0);
    assert_eq!(pack_bits(&[1, 0, 1]), 5);
    assert_eq!(pack_bits(&[1, 0, 0, 0, 0, 0, 0, 1]), 0x81);
}

#[test]
fn big_endian_roundtrip() {
    for v in [0u32, 1, 0x0102_0304, 0xDEAD_BEEF, u32::MAX] {
        let b = write_be_u32(v);
        assert_eq!(b, v.to_be_bytes());
        assert_eq!(read_be_u32(b[0], b[1], b[2], b[3]), v);
    }
}
