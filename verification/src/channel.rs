//! Per-channel parameters of the demodulator: the Wize channel frequency,
//! its offset from the receiver's centre, the post-decimation sample rate
//! and the number of samples per symbol, with the checks that the pipeline
//! needs before it can be built.

use vstd::prelude::*;
use vstd::arithmetic::power2::pow2;

verus! {

/// Centre frequency, in Hz, below the first Wize channel.
pub const CHANNEL_BASE_HZ: u64 = 169_393_750;

/// Spacing of Wize channels, in Hz.
pub const CHANNEL_SPACING_HZ: u64 = 12_500;

/// Why a channel's pipeline cannot be built.
#[derive(Clone, Copy, Debug, PartialEq, Eq, Structural)]
pub enum PlanError {
    /// The decimation factor is zero.
    DecimationZero,
    /// The symbol rate is zero.
    SymbolRateZero,
    /// The channel's frequency does not fit in 32 bits.
    ChannelOutOfRange,
    /// The offset from the centre frequency does not fit in an `i32`.
    OffsetOutOfRange,
    /// The receiver's sample rate is not a multiple of the decimation factor.
    SampleRateNotDivisible,
    /// The decimated sample rate is not a multiple of the symbol rate.
    PostRateNotDivisible,
    /// Fewer than one sample per symbol.
    NoSamplesPerSymbol,
    /// The filter has no taps.
    NoTaps,
    /// The preamble has no bits.
    NoPreamble,
    /// The preamble is 64 bits or longer.
    PreambleLengthTooLarge,
    /// The preamble value has bits above its length.
    PreambleTooWide,
}

/// The parameters derived for one channel.
#[derive(Clone, Copy, Debug, PartialEq, Eq, Structural)]
pub struct ChannelPlan {
    pub channel: u32,
    pub channel_freq: u32,
    pub offset_freq: i32,
    pub post_sample_rate: u32,
    pub samples_per_symbol: u32,
}

/// Centre frequency, in Hz, of Wize channel `channel` (channels count from 0).
pub open spec fn channel_frequency(channel: u32) -> int {
    CHANNEL_BASE_HZ + CHANNEL_SPACING_HZ * (channel + 1)
}

/// The value of a `u32` read as a two's-complement `i32`.
pub open spec fn wrap_i32(x: u32) -> int {
    if x <= i32::MAX {
        x as int
    } else {
        x - 0x1_0000_0000
    }
}

/// The plan for a channel, or the first check that fails.
pub open spec fn spec_plan_channel(
    channel: u32,
    decimation_factor: u32,
    sdr_sample_rate: u32,
    sdr_center_freq: u32,
    symbol_rate: u32,
    ntaps: usize,
    preamble: u64,
    preamble_len: usize,
) -> Result<ChannelPlan, PlanError> {
    if decimation_factor == 0 {
        Err(PlanError::DecimationZero)
    } else if symbol_rate == 0 {
        Err(PlanError::SymbolRateZero)
    } else if channel_frequency(channel) > u32::MAX {
        Err(PlanError::ChannelOutOfRange)
    } else {
        let post = (sdr_sample_rate / decimation_factor) as u32;
        let sps = (post / symbol_rate) as u32;
        let freq = channel_frequency(channel) as u32;
        let offset = wrap_i32(freq) - wrap_i32(sdr_center_freq);
        if offset < i32::MIN || offset > i32::MAX {
            Err(PlanError::OffsetOutOfRange)
        } else if sdr_sample_rate % decimation_factor != 0 {
            Err(PlanError::SampleRateNotDivisible)
        } else if post % symbol_rate != 0 {
            Err(PlanError::PostRateNotDivisible)
        } else if sps == 0 {
            Err(PlanError::NoSamplesPerSymbol)
        } else if ntaps == 0 {
            Err(PlanError::NoTaps)
        } else if preamble_len == 0 {
            Err(PlanError::NoPreamble)
        } else if preamble_len >= 64 {
            Err(PlanError::PreambleLengthTooLarge)
        } else if preamble >= pow2(preamble_len as nat) {
            Err(PlanError::PreambleTooWide)
        } else {
            Ok(
                ChannelPlan {
                    channel,
                    channel_freq: freq,
                    offset_freq: offset as i32,
                    post_sample_rate: post,
                    samples_per_symbol: sps,
                },
            )
        }
    }
}

fn as_i32(x: u32) -> (r: i32)
    ensures
        r as int == wrap_i32(x),
{
    let r = x as i32;
    assert(x <= 0x7fff_ffff ==> (x as i32) as i64 == x as i64) by (bit_vector);
    assert(x > 0x7fff_ffff ==> (x as i32) as i64 == x as i64 - 0x1_0000_0000i64) by (bit_vector);
    r
}

/// Derives a channel's frequencies and rates, and checks that the
/// demodulator can be built: the receiver's rate must split into whole
/// decimated samples and those into whole symbols, the filter needs taps,
/// and the preamble needs bits and must fit in its length.
pub fn plan_channel(
    channel: u32,
    decimation_factor: u32,
    sdr_sample_rate: u32,
    sdr_center_freq: u32,
    symbol_rate: u32,
    ntaps: usize,
    preamble: u64,
    preamble_len: usize,
) -> (r: Result<ChannelPlan, PlanError>)
    ensures
        r == spec_plan_channel(
            channel,
            decimation_factor,
            sdr_sample_rate,
            sdr_center_freq,
            symbol_rate,
            ntaps,
            preamble,
            preamble_len,
        ),
{
    if decimation_factor == 0 {
        return Err(PlanError::DecimationZero);
    }
    if symbol_rate == 0 {
        return Err(PlanError::SymbolRateZero);
    }
    let post_sample_rate = sdr_sample_rate / decimation_factor;
    let samples_per_symbol = post_sample_rate / symbol_rate;
    let freq64: u64 = CHANNEL_BASE_HZ + CHANNEL_SPACING_HZ * (channel as u64 + 1);
    if freq64 > u32::MAX as u64 {
        return Err(PlanError::ChannelOutOfRange);
    }
    let channel_freq = freq64 as u32;
    let offset64: i64 = as_i32(channel_freq) as i64 - as_i32(sdr_center_freq) as i64;
    if offset64 < i32::MIN as i64 || offset64 > i32::MAX as i64 {
        return Err(PlanError::OffsetOutOfRange);
    }
    let offset_freq = offset64 as i32;
    if sdr_sample_rate % decimation_factor != 0 {
        return Err(PlanError::SampleRateNotDivisible);
    }
    if post_sample_rate % symbol_rate != 0 {
        return Err(PlanError::PostRateNotDivisible);
    }
    if samples_per_symbol == 0 {
        return Err(PlanError::NoSamplesPerSymbol);
    }
    if ntaps == 0 {
        return Err(PlanError::NoTaps);
    }
    if preamble_len == 0 {
        return Err(PlanError::NoPreamble);
    }
    if preamble_len >= 64 {
        return Err(PlanError::PreambleLengthTooLarge);
    }
    let limit: u64 = 1u64 << (preamble_len as u64);
    proof {
        vstd::bits::lemma_u64_pow2_no_overflow(preamble_len as nat);
        vstd::bits::lemma_u64_shl_is_mul(1, preamble_len as u64);
    }
    if preamble >= limit {
        return Err(PlanError::PreambleTooWide);
    }
    Ok(
        ChannelPlan {
            channel,
            channel_freq,
            offset_freq,
            post_sample_rate,
            samples_per_symbol,
        },
    )
}

/// Law: an accepted plan splits the receiver's rate into whole decimated
/// samples and those into whole symbols, by the factors given: the decimated
/// rate times the decimation factor is the receiver's rate, the samples per
/// symbol times the symbol rate is the decimated rate, and there is at least
/// one sample per symbol. The channel sits `12_500 * (channel + 1)` Hz above
/// 169.39375 MHz, its offset is its distance from the centre frequency when
/// both fit in an `i32`, and the preamble fits in its length.
pub proof fn lemma_plan_rates(
    channel: u32,
    decimation_factor: u32,
    sdr_sample_rate: u32,
    sdr_center_freq: u32,
    symbol_rate: u32,
    ntaps: usize,
    preamble: u64,
    preamble_len: usize,
)
    ensures
        spec_plan_channel(
            channel,
            decimation_factor,
            sdr_sample_rate,
            sdr_center_freq,
            symbol_rate,
            ntaps,
            preamble,
            preamble_len,
        ) matches Ok(p) ==> {
            &&& p.post_sample_rate * decimation_factor == sdr_sample_rate
            &&& p.samples_per_symbol * symbol_rate == p.post_sample_rate
            &&& p.samples_per_symbol >= 1
            &&& p.channel == channel
            &&& p.channel_freq == 169_393_750 + 12_500 * (channel + 1)
            &&& (p.channel_freq <= i32::MAX && sdr_center_freq <= i32::MAX ==> p.offset_freq
                == p.channel_freq - sdr_center_freq)
            &&& ntaps >= 1
            &&& 1 <= preamble_len < 64
            &&& preamble < pow2(preamble_len as nat)
        },
{
    if decimation_factor > 0 && symbol_rate > 0 {
        let post = sdr_sample_rate / decimation_factor;
        let sps = post / symbol_rate;
        vstd::arithmetic::div_mod::lemma_fundamental_div_mod(
            sdr_sample_rate as int,
            decimation_factor as int,
        );
        vstd::arithmetic::div_mod::lemma_fundamental_div_mod(post as int, symbol_rate as int);
        assert(decimation_factor * post == post * decimation_factor) by (nonlinear_arith);
        assert(symbol_rate * sps == sps * symbol_rate) by (nonlinear_arith);
    }
}

} // verus!
