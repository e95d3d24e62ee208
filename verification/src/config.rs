//! Detector configuration: trailing-window length and alert threshold.

use vstd::prelude::*;

verus! {

/// Default trailing-window length, in milliseconds.
pub const DEFAULT_WINDOW_DURATION_MS: u64 = 5000;

/// Numerator of the default alert threshold (a relative change of 2%).
pub const DEFAULT_THRESHOLD_NUM: u64 = 2;

/// Denominator of the default alert threshold.
pub const DEFAULT_THRESHOLD_DEN: u64 = 100;

/// Configuration of the spike detector.
///
/// The alert threshold is an exact rational `threshold_num / threshold_den`,
/// so that the trigger condition can be evaluated in integer arithmetic:
/// a window spikes when `1 - min/max > threshold_num / threshold_den`.
#[derive(Clone, Copy, Debug, PartialEq, Eq, Structural)]
pub struct SpikeConfig {
    /// Points older than `window_duration_ms` before the newest observation
    /// are trimmed from the window.
    pub window_duration_ms: u64,
    /// Numerator of the relative-change threshold fraction.
    pub threshold_num: u64,
    /// Denominator of the relative-change threshold fraction.
    pub threshold_den: u64,
}

impl SpikeConfig {
    /// A configuration is usable when its threshold fraction has a non-zero
    /// denominator.
    pub open spec fn wf(&self) -> bool {
        self.threshold_den > 0
    }

    /// Builds a configuration from a window length and a threshold fraction.
    pub fn new(window_duration_ms: u64, threshold_num: u64, threshold_den: u64) -> (cfg: SpikeConfig)
        requires
            threshold_den > 0,
        ensures
            cfg.wf(),
            cfg.window_duration_ms == window_duration_ms,
            cfg.threshold_num == threshold_num,
            cfg.threshold_den == threshold_den,
    {
        SpikeConfig { window_duration_ms, threshold_num, threshold_den }
    }
}

} // verus!
