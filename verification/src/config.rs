//! Waveform configuration and its validity rule.
//!
//! A tone is playable only when its frequency is positive and below the
//! Nyquist limit, half the sample rate; outside that range construction
//! fails and no generator exists.

use vstd::prelude::*;

verus! {

/// Why a generator could not be constructed.
#[derive(Clone, Copy, Debug, PartialEq, Eq, Structural)]
pub enum ConfigError {
    /// The requested frequency was zero: no period exists.
    FrequencyZero,
    /// The requested frequency was at or above half the sample rate, so
    /// the tone cannot be represented at that rate.
    FrequencyAboveNyquist,
}

/// A frequency/sample-rate pair a generator can be built for.
pub open spec fn valid_config(freq: int, rate: int) -> bool {
    0 < freq && 2 * freq < rate
}

} // verus!
