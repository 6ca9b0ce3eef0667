//! Verified core of a Wize (EN 13757 / wM-Bus mode N) demodulator: the
//! integer logic that turns a stream of sliced FSK samples into frames.

pub mod bits;
pub mod crc;
pub mod sync;
pub mod channel;
pub mod rtl;
pub mod hex;
pub mod sync_laws;
