//! The CRC-16/EN-13757 frame check used by Wize and wM-Bus mode N.

use vstd::prelude::*;

verus! {

/// The generator polynomial of CRC-16/EN-13757.
pub const EN_13757_POLY: u16 = 0x3D65;

/// One bit of a most-significant-bit-first CRC register update.
pub open spec fn crc_shift(crc: u16) -> u16 {
    if crc & 0x8000u16 != 0 {
        ((crc << 1u16) ^ EN_13757_POLY) as u16
    } else {
        (crc << 1u16) as u16
    }
}

/// Applies `k` register shifts.
pub open spec fn crc_shifts(crc: u16, k: nat) -> u16
    decreases k,
{
    if k == 0 {
        crc
    } else {
        crc_shifts(crc_shift(crc), (k - 1) as nat)
    }
}

/// The register after feeding one byte, most significant bit first.
pub open spec fn crc_byte(crc: u16, b: u8) -> u16 {
    crc_shifts(crc ^ ((b as u16) << 8u16), 8)
}

/// The register after feeding all of `data`, starting from zero.
pub open spec fn crc_register(data: Seq<u8>) -> u16
    decreases data.len(),
{
    if data.len() == 0 {
        0
    } else {
        crc_byte(crc_register(data.drop_last()), data.last())
    }
}

/// CRC-16/EN-13757 of `data`: polynomial 0x3D65, initial value 0, no bit
/// reflection, final XOR 0xFFFF.
pub open spec fn crc_en13757(data: Seq<u8>) -> u16 {
    crc_register(data) ^ 0xFFFFu16
}

/// A frame's check: the CRC of all bytes but the last two equals the last
/// two bytes read big-endian.
pub open spec fn frame_crc_ok(data: Seq<u8>) -> bool {
    &&& data.len() >= 2
    &&& crc_en13757(data.subrange(0, data.len() - 2)) == ((data[data.len() - 2] as u16) << 8u16)
        | (data[data.len() - 1] as u16)
}

/// Calls `crc16::State::<crc16::EN_13757>::calculate`, which the crc16 crate
/// documents as CRC-16/EN-13757 (poly 0x3d65, init 0, refin/refout false,
/// xorout 0xffff, check 0xc2b7). Claimed: its result is the bitwise
/// definition `crc_en13757` of the same parameters.
#[verifier::external_body]
fn crc16_en13757(data: &[u8]) -> (crc: u16)
    ensures
        crc == crc_en13757(data@),
{
    crc16::State::<crc16::EN_13757>::calculate(data)
}

/// Checks a received frame: the CRC over everything but the last two bytes
/// must equal those two bytes, high byte first.
pub fn check_crc(data: &[u8]) -> (ok: bool)
    requires
        data@.len() >= 2,
    ensures
        ok == frame_crc_ok(data@),
{
    let n = data.len();
    let crc = crc16_en13757(&data[0..n - 2]);
    let crc_check: u16 = ((data[n - 2] as u16) << 8u16) | (data[n - 1] as u16);
    crc == crc_check
}

/// Law: a frame passes the check exactly when the CRC-16/EN-13757 of all
/// its bytes but the last two equals the number that those two bytes form,
/// high byte first (`256 * high + low`).
pub proof fn lemma_crc_check_value(data: Seq<u8>)
    requires
        data.len() >= 2,
    ensures
        frame_crc_ok(data) <==> crc_en13757(data.subrange(0, data.len() - 2)) as int == data[data.len()
            - 2] as int * 256 + data[data.len() - 1] as int,
{
    let hi = data[data.len() - 2];
    let lo = data[data.len() - 1];
    assert(((hi as u16) << 8u16) | (lo as u16) == (hi as u16) * 256 + (lo as u16)) by (bit_vector);
}

/// Law: changing either of the two check bytes of a frame that passes the
/// check makes it fail.
pub proof fn lemma_crc_trailer_sensitive(data: Seq<u8>, i: int, b: u8)
    requires
        frame_crc_ok(data),
        i == data.len() - 1 || i == data.len() - 2,
        b != data[i],
    ensures
        !frame_crc_ok(data.update(i, b)),
{
    let d2 = data.update(i, b);
    lemma_crc_check_value(data);
    lemma_crc_check_value(d2);
    assert(d2.subrange(0, d2.len() - 2) =~= data.subrange(0, data.len() - 2));
}

} // verus!
