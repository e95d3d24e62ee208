//! Price observations and alert events.

use vstd::prelude::*;

verus! {

/// One observed price for a symbol.
///
/// `price` is the traded price in a caller-chosen fixed-point encoding (the
/// surrounding application scales the decimal price by a constant factor
/// before handing it to the detector). The detector only relies on the
/// encoding preserving order and ratios. A point is acceptable when its
/// price is positive; non-positive prices are rejected at ingestion.
#[derive(Clone, Copy, Debug, PartialEq, Eq, Structural)]
pub struct PricePoint {
    /// Milliseconds since the epoch at which the price was observed.
    pub time: u64,
    /// Observed price in fixed-point units.
    pub price: i64,
}

/// A confirmed spike, emitted by the detector and never stored.
///
/// The relative change `1 - min/max` of the triggering window is carried as
/// the exact fraction `change_num / change_den` (that is,
/// `(max - min) / max`), so no precision is lost; the sink decides how to
/// render it. Since the window's minimum price is positive, the fraction
/// always lies in `[0, 1)`.
#[derive(Clone, Debug)]
pub struct AlertEvent {
    /// Symbol whose window spiked.
    pub symbol: String,
    /// Price of the tick that triggered the alert.
    pub last_price: i64,
    /// Numerator of the relative change: `max - min` over the window.
    pub change_num: i64,
    /// Denominator of the relative change: `max` over the window.
    pub change_den: i64,
    /// Time between the oldest retained point and the triggering tick.
    pub window_span_ms: u64,
}

} // verus!
