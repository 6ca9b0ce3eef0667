use wize_demod::channel::{plan_channel, ChannelPlan, PlanError};

fn default_plan(channel: u32) -> Result<ChannelPlan, PlanError> {
    plan_channel(channel, 32, 1_536_000, 169_400_000, 2_400, 1025, 0x5555F672, 32)
}

#[test]
fn default_channels() {
    let p = default_plan(0).unwrap();
    assert_eq!(p, ChannelPlan { channel: 0, channel_freq: 169_406_250, offset_freq: 6_250, post_sample_rate: 48_000, samples_per_symbol: 20 });
    let expected = [(2u32, 169_431_250u32, 31_250i32), (3, 169_443_750, 43_750), (4, 169_456_250, 56_250), (5, 169_468_750, 68_750)];
    for (ch, freq, off) in expected {
        let p = default_plan(ch).unwrap();
        assert_eq!(p.channel_freq, freq);
        assert_eq!(p.offset_freq, off);
        assert_eq!(p.samples_per_symbol, 20);
    }
}

#[test]
fn negative_offset() {
    let p = plan_channel(0, 32, 1_536_000, 169_500_000, 2_400, 1025, 0x5555F672, 32).unwrap();
    assert_eq!(p.offset_freq, -93_750);
}

#[test]
fn each_error() {
    assert_eq!(plan_channel(0, 0, 1_536_000, 169_400_000, 2_400, 1, 1, 1), Err(PlanError::DecimationZero));
    assert_eq!(plan_channel(0, 32, 1_536_000, 169_400_000, 0, 1, 1, 1), Err(PlanError::SymbolRateZero));
    assert_eq!(plan_channel(u32::MAX, 32, 1_536_000, 169_400_000, 2_400, 1, 1, 1), Err(PlanError::ChannelOutOfRange));
    assert_eq!(plan_channel(400_000, 32, 1_536_000, 169_400_000, 2_400, 1, 1, 1), Err(PlanError::ChannelOutOfRange));
    // channel 0 sits at 169406250 Hz; a centre read as a large negative i32 overflows the offset
    assert_eq!(plan_channel(0, 32, 1_536_000, 0x8000_0000, 2_400, 1, 1, 1), Err(PlanError::OffsetOutOfRange));
    assert_eq!(plan_channel(0, 7, 1_536_000, 169_400_000, 2_400, 1, 1, 1), Err(PlanError::SampleRateNotDivisible));
    assert_eq!(plan_channel(0, 32, 1_536_000, 169_400_000, 7_000, 1, 1, 1), Err(PlanError::PostRateNotDivisible));
    assert_eq!(plan_channel(0, 32, 1_536_000, 169_400_000, 96_000, 1, 1, 1), Err(PlanError::PostRateNotDivisible));
    assert_eq!(plan_channel(0, 1_536_000, 1_536_000, 169_400_000, 2, 1, 1, 1), Err(PlanError::PostRateNotDivisible));
    assert_eq!(plan_channel(0, 32, 1_536_000, 169_400_000, 2_400, 0, 1, 1), Err(PlanError::NoTaps));
    assert_eq!(plan_channel(0, 32, 1_536_000, 169_400_000, 2_400, 1, 0, 0), Err(PlanError::NoPreamble));
    assert_eq!(plan_channel(0, 32, 1_536_000, 169_400_000, 2_400, 1, 1, 64), Err(PlanError::PreambleLengthTooLarge));
    assert_eq!(plan_channel(0, 32, 1_536_000, 169_400_000, 2_400, 1, 0x1_0000_0000, 32), Err(PlanError::PreambleTooWide));
    assert!(plan_channel(0, 32, 1_536_000, 169_400_000, 2_400, 1, 0xFFFF_FFFF, 32).is_ok());
}

#[test]
fn zero_samples_per_symbol() {
    // 48 kHz after decimation divides a 0 rate only if the rate is zero
    assert_eq!(plan_channel(0, 32, 0, 169_400_000, 2_400, 1, 1, 1), Err(PlanError::NoSamplesPerSymbol));
}

#[test]
fn checks_come_in_order() {
    // both the decimation and the taps are wrong: the first check wins
    assert_eq!(plan_channel(0, 7, 1_536_000, 169_400_000, 2_400, 0, 1, 0), Err(PlanError::SampleRateNotDivisible));
}
