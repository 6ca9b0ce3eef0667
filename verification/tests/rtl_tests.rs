use wize_demod::bits::read_be_u32;
use wize_demod::rtl::{
    configuration_commands, encode_command, parse_header, RtlCommand, CMD_SET_AGC_MODE,
    CMD_SET_DIRECT_SAMPLING, CMD_SET_FREQUENCY, CMD_SET_FREQUENCY_CORRECTION, CMD_SET_GAIN_MODE,
    CMD_SET_OFFSET_TUNING, CMD_SET_SAMPLE_RATE, CMD_SET_TUNER_GAIN_BY_INDEX,
};

#[test]
fn command_encoding() {
    assert_eq!(encode_command(CMD_SET_FREQUENCY, 169_400_000), [0x01, 0x0A, 0x18, 0xD6, 0xC0]);
    assert_eq!(encode_command(CMD_SET_SAMPLE_RATE, 1_536_000), [0x02, 0x00, 0x17, 0x70, 0x00]);
    let b = encode_command(0x56, 0xDEAD_BEEF);
    assert_eq!(b[0], 0x56);
    assert_eq!(read_be_u32(b[1], b[2], b[3], b[4]), 0xDEAD_BEEF);
}

#[test]
fn header_parsing() {
    let header = [b'R', b'T', b'L', b'0', 0, 0, 0, 5, 0, 0, 0, 29];
    let h = parse_header(&header);
    assert_eq!(&h.magic, b"RTL0");
    assert_eq!(h.tuner, 5);
    assert_eq!(h.gain_count, 29);
}

#[test]
fn configuration_sequence() {
    let cmds = configuration_commands(23, 169_400_000, 1_536_000, -4);
    assert_eq!(
        cmds,
        vec![
            RtlCommand { cmd: CMD_SET_OFFSET_TUNING, value: 0 },
            RtlCommand { cmd: CMD_SET_GAIN_MODE, value: 1 },
            RtlCommand { cmd: CMD_SET_TUNER_GAIN_BY_INDEX, value: 23 },
            RtlCommand { cmd: CMD_SET_FREQUENCY, value: 169_400_000 },
            RtlCommand { cmd: CMD_SET_SAMPLE_RATE, value: 1_536_000 },
            RtlCommand { cmd: CMD_SET_FREQUENCY_CORRECTION, value: 0xFFFF_FFFC },
            RtlCommand { cmd: CMD_SET_AGC_MODE, value: 0 },
            RtlCommand { cmd: CMD_SET_DIRECT_SAMPLING, value: 0 },
        ]
    );
    let neg_gain = configuration_commands(-1, 0, 0, 0);
    assert_eq!(neg_gain[2].value, u32::MAX);
}
