//! The rtl_tcp wire protocol: the 12-byte greeting a server sends, and the
//! 5-byte commands that tune it.

use vstd::prelude::*;
use crate::bits::{be_bytes, be_u32, read_be_u32, write_be_u32};

verus! {

pub const CMD_SET_FREQUENCY: u8 = 0x01;
pub const CMD_SET_SAMPLE_RATE: u8 = 0x02;
pub const CMD_SET_GAIN_MODE: u8 = 0x03;
pub const CMD_SET_GAIN: u8 = 0x04;
pub const CMD_SET_FREQUENCY_CORRECTION: u8 = 0x05;
pub const CMD_SET_IF_STAGE: u8 = 0x06;
pub const CMD_SET_TEST_MODE: u8 = 0x07;
pub const CMD_SET_AGC_MODE: u8 = 0x08;
pub const CMD_SET_DIRECT_SAMPLING: u8 = 0x09;
pub const CMD_SET_OFFSET_TUNING: u8 = 0x0A;
pub const CMD_SET_RTL_CRYSTAL: u8 = 0x0B;
pub const CMD_SET_TUNER_CRYSTAL: u8 = 0x0C;
pub const CMD_SET_TUNER_GAIN_BY_INDEX: u8 = 0x0D;
pub const CMD_SET_FREQ_HI32: u8 = 0x56;

/// One command to an rtl_tcp server.
#[derive(Clone, Copy, Debug, PartialEq, Eq, Structural)]
pub struct RtlCommand {
    pub cmd: u8,
    pub value: u32,
}

/// The greeting of an rtl_tcp server: four magic bytes, the tuner type and
/// the number of gain steps, both big-endian.
#[derive(Clone, Copy, Debug)]
pub struct RtlHeader {
    pub magic: [u8; 4],
    pub tuner: u32,
    pub gain_count: u32,
}

/// The bytes of a command on the wire: its code, then its value big-endian.
pub open spec fn command_bytes(cmd: u8, value: u32) -> Seq<u8> {
    seq![cmd] + be_bytes(value)
}

/// Encodes a command for the wire.
pub fn encode_command(cmd: u8, value: u32) -> (buf: [u8; 5])
    ensures
        buf@ == command_bytes(cmd, value),
{
    let v = write_be_u32(value);
    let buf = [cmd, v[0], v[1], v[2], v[3]];
    assert(buf@ =~= command_bytes(cmd, value));
    buf
}

/// Reads the server's greeting.
pub fn parse_header(header: &[u8; 12]) -> (h: RtlHeader)
    ensures
        h.magic@ == header@.subrange(0, 4),
        h.tuner == be_u32(header@[4], header@[5], header@[6], header@[7]),
        h.gain_count == be_u32(header@[8], header@[9], header@[10], header@[11]),
{
    let magic = [header[0], header[1], header[2], header[3]];
    assert(magic@ =~= header@.subrange(0, 4));
    RtlHeader {
        magic,
        tuner: read_be_u32(header[4], header[5], header[6], header[7]),
        gain_count: read_be_u32(header[8], header[9], header[10], header[11]),
    }
}

/// The commands sent after connecting, in order: offset tuning off, manual
/// gain mode, the gain index, the frequency, the sample rate, the frequency
/// correction in ppm, AGC off and direct sampling off. Signed values go on
/// the wire as their two's-complement bits.
pub open spec fn spec_configuration(gain: i32, frequency: u32, sample_rate: u32, ppm: i32) -> Seq<
    RtlCommand,
> {
    seq![
        RtlCommand { cmd: CMD_SET_OFFSET_TUNING, value: 0 },
        RtlCommand { cmd: CMD_SET_GAIN_MODE, value: 1 },
        RtlCommand { cmd: CMD_SET_TUNER_GAIN_BY_INDEX, value: gain as u32 },
        RtlCommand { cmd: CMD_SET_FREQUENCY, value: frequency },
        RtlCommand { cmd: CMD_SET_SAMPLE_RATE, value: sample_rate },
        RtlCommand { cmd: CMD_SET_FREQUENCY_CORRECTION, value: ppm as u32 },
        RtlCommand { cmd: CMD_SET_AGC_MODE, value: 0 },
        RtlCommand { cmd: CMD_SET_DIRECT_SAMPLING, value: 0 },
    ]
}

/// Builds the configuration sent to a freshly connected server.
pub fn configuration_commands(gain: i32, frequency: u32, sample_rate: u32, ppm: i32) -> (cmds: Vec<
    RtlCommand,
>)
    ensures
        cmds@ == spec_configuration(gain, frequency, sample_rate, ppm),
{
    let mut cmds: Vec<RtlCommand> = Vec::new();
    cmds.push(RtlCommand { cmd: CMD_SET_OFFSET_TUNING, value: 0 });
    cmds.push(RtlCommand { cmd: CMD_SET_GAIN_MODE, value: 1 });
    cmds.push(RtlCommand { cmd: CMD_SET_TUNER_GAIN_BY_INDEX, value: gain as u32 });
    cmds.push(RtlCommand { cmd: CMD_SET_FREQUENCY, value: frequency });
    cmds.push(RtlCommand { cmd: CMD_SET_SAMPLE_RATE, value: sample_rate });
    cmds.push(RtlCommand { cmd: CMD_SET_FREQUENCY_CORRECTION, value: ppm as u32 });
    cmds.push(RtlCommand { cmd: CMD_SET_AGC_MODE, value: 0 });
    cmds.push(RtlCommand { cmd: CMD_SET_DIRECT_SAMPLING, value: 0 });
    assert(cmds@ =~= spec_configuration(gain, frequency, sample_rate, ppm));
    cmds
}

/// Law: a command's value is recovered by reading its last four bytes
/// big-endian, the way the greeting's fields are read.
pub proof fn lemma_command_value_roundtrip(cmd: u8, value: u32)
    ensures
        ({
            let b = command_bytes(cmd, value);
            &&& b.len() == 5
            &&& b[0] == cmd
            &&& be_u32(b[1], b[2], b[3], b[4]) == value
        }),
{
    crate::bits::lemma_be_roundtrip(value);
}

/// The value that a signed setting puts on the wire: its two's-complement
/// bits read as an unsigned number.
pub open spec fn wire_value(x: i32) -> int {
    if x >= 0 {
        x as int
    } else {
        x + 0x1_0000_0000
    }
}

/// Law: the configuration is always eight commands, with distinct codes,
/// and carries each argument exactly where its command is: the gain index
/// third, the frequency fourth, the sample rate fifth and the frequency
/// correction sixth, signed values as their two's-complement bits.
pub proof fn lemma_configuration_values(gain: i32, frequency: u32, sample_rate: u32, ppm: i32)
    ensures
        ({
            let c = spec_configuration(gain, frequency, sample_rate, ppm);
            &&& c.len() == 8
            &&& forall|i: int, j: int| 0 <= i < j < 8 ==> c[i].cmd != c[j].cmd
            &&& c[2].cmd == 0x0D && c[2].value as int == wire_value(gain)
            &&& c[3].cmd == 0x01 && c[3].value == frequency
            &&& c[4].cmd == 0x02 && c[4].value == sample_rate
            &&& c[5].cmd == 0x05 && c[5].value as int == wire_value(ppm)
            &&& c[0].cmd == 0x0A && c[0].value == 0
            &&& c[1].cmd == 0x03 && c[1].value == 1
            &&& c[6].cmd == 0x08 && c[6].value == 0
            &&& c[7].cmd == 0x09 && c[7].value == 0
        }),
{
    assert(gain >= 0 ==> (gain as u32) as i64 == gain as i64) by (bit_vector);
    assert(gain < 0 ==> (gain as u32) as i64 == gain as i64 + 0x1_0000_0000i64) by (bit_vector);
    assert(ppm >= 0 ==> (ppm as u32) as i64 == ppm as i64) by (bit_vector);
    assert(ppm < 0 ==> (ppm as u32) as i64 == ppm as i64 + 0x1_0000_0000i64) by (bit_vector);
}

/// Law: two configurations that differ only in the frequency correction
/// differ only in its command; every other command is sent the same way.
pub proof fn lemma_configuration_ppm_only(gain: i32, frequency: u32, sample_rate: u32, p1: i32, p2: i32)
    ensures
        ({
            let a = spec_configuration(gain, frequency, sample_rate, p1);
            let b = spec_configuration(gain, frequency, sample_rate, p2);
            &&& a.len() == b.len()
            &&& forall|i: int| 0 <= i < a.len() && i != 5 ==> a[i] == b[i]
        }),
{
    lemma_configuration_values(gain, frequency, sample_rate, p1);
    lemma_configuration_values(gain, frequency, sample_rate, p2);
}

/// Law: a command goes on the wire as its code followed by its value's four
/// bytes, most significant first.
pub proof fn lemma_command_layout(cmd: u8, value: u32)
    ensures
        ({
            let b = command_bytes(cmd, value);
            &&& b.len() == 5
            &&& b[0] == cmd
            &&& 16777216 * b[1] + 65536 * b[2] + 256 * b[3] + b[4] == value
        }),
{
    crate::bits::lemma_be_roundtrip(value);
}

/// Law: the greeting's tuner type and gain count are its bytes 4 to 7 and 8
/// to 11, each most significant first.
pub proof fn lemma_header_layout(h: Seq<u8>, tuner: u32, gain_count: u32)
    requires
        h.len() == 12,
        tuner == be_u32(h[4], h[5], h[6], h[7]),
        gain_count == be_u32(h[8], h[9], h[10], h[11]),
    ensures
        tuner == 16777216 * h[4] + 65536 * h[5] + 256 * h[6] + h[7],
        gain_count == 16777216 * h[8] + 65536 * h[9] + 256 * h[10] + h[11],
{
}

} // verus!
