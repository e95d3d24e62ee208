use spike_detector::config::SpikeConfig;
use spike_detector::point::PricePoint;
use spike_detector::window::SymbolWindow;

// Prices are written in fixed-point units of one tenth: 1000 stands for a
// price of 100.0.
fn cfg() -> SpikeConfig {
    SpikeConfig::new(5000, 2, 100)
}

fn pt(time: u64, price: i64) -> PricePoint {
    PricePoint { time, price }
}

#[test]
fn scenario_a_spike_fires_and_resets() {
    let mut w = SymbolWindow::new("BTCUSDT".to_owned(), cfg());
    assert!(w.ingest(pt(0, 1000)).is_none());
    assert!(w.ingest(pt(1000, 1005)).is_none());
    let alert = w.ingest(pt(2000, 980)).expect("relative change 0.0249 exceeds 0.02");
    assert_eq!(alert.symbol, "BTCUSDT".to_owned());
    assert_eq!(alert.last_price, 980);
    // relative change = 1 - 980/1005 = 25/1005
    assert_eq!(alert.change_num, 25);
    assert_eq!(alert.change_den, 1005);
    assert_eq!(alert.window_span_ms, 2000);
    // reset-on-trigger: the window forgets the move once reported
    assert_eq!(w.points.len(), 0);
    // and no alert fires again until a fresh spike accumulates
    assert!(w.ingest(pt(3000, 980)).is_none());
    assert_eq!(w.points.len(), 1);
}

#[test]
fn scenario_b_stale_point_trimmed_before_evaluation() {
    let mut w = SymbolWindow::new("BTCUSDT".to_owned(), cfg());
    assert!(w.ingest(pt(0, 1000)).is_none());
    // age 6000 > 5000: the first point is trimmed before evaluation
    assert!(w.ingest(pt(6000, 1010)).is_none());
    assert_eq!(w.points.len(), 1);
    assert_eq!(w.points[0], pt(6000, 1010));
}

#[test]
fn scenario_c_malformed_tick_rejected() {
    let mut w = SymbolWindow::new("BTCUSDT".to_owned(), cfg());
    assert!(w.ingest(pt(0, 1000)).is_none());
    // non-positive price: rejected, window state unchanged
    assert!(w.ingest(pt(1000, -5)).is_none());
    assert_eq!(w.points.len(), 1);
    assert_eq!(w.points[0], pt(0, 1000));
    assert!(w.ingest(pt(1500, 0)).is_none());
    assert_eq!(w.points.len(), 1);
    // the next valid tick is processed normally
    assert!(w.ingest(pt(2000, 1005)).is_none());
    assert_eq!(w.points.len(), 2);
    assert_eq!(w.points[1], pt(2000, 1005));
}

#[test]
fn duplicate_tick_does_not_change_outcome() {
    let mut w = SymbolWindow::new("BTCUSDT".to_owned(), cfg());
    assert!(w.ingest(pt(0, 1000)).is_none());
    assert!(w.ingest(pt(1000, 1005)).is_none());
    // a point equal in price and time to the most recent one fires no alert
    // and only re-appends the same observation
    assert!(w.ingest(pt(1000, 1005)).is_none());
    assert_eq!(w.points.len(), 3);
    assert_eq!(w.points[2], pt(1000, 1005));
}

#[test]
fn trimming_recomputes_extremes_from_scratch() {
    let mut w = SymbolWindow::new("BTCUSDT".to_owned(), cfg());
    assert!(w.ingest(pt(0, 980)).is_none());
    assert!(w.ingest(pt(1000, 1000)).is_none());
    // the old minimum 980 ages out; carrying it forward would wrongly give
    // 1 - 980/1005 = 0.0249 > 0.02 and fire
    assert!(w.ingest(pt(6000, 1005)).is_none());
    assert_eq!(w.points.len(), 2);
    assert_eq!(w.points[0], pt(1000, 1000));
    assert_eq!(w.points[1], pt(6000, 1005));
}

#[test]
fn spread_exactly_at_threshold_does_not_fire() {
    // threshold is strict: 1 - 98/100 = 0.02 is not greater than 0.02
    let mut w = SymbolWindow::new("BTCUSDT".to_owned(), cfg());
    assert!(w.ingest(pt(0, 100)).is_none());
    assert!(w.ingest(pt(1000, 98)).is_none());
    assert_eq!(w.points.len(), 2);
}

#[test]
fn spread_just_over_threshold_fires() {
    let mut w = SymbolWindow::new("BTCUSDT".to_owned(), cfg());
    assert!(w.ingest(pt(0, 10000)).is_none());
    // 1 - 9799/10000 = 0.0201 > 0.02
    let alert = w.ingest(pt(1000, 9799)).expect("spread above threshold");
    assert_eq!(alert.change_num, 201);
    assert_eq!(alert.change_den, 10000);
    assert_eq!(alert.last_price, 9799);
    assert_eq!(alert.window_span_ms, 1000);
}

#[test]
fn relative_change_is_a_proper_fraction() {
    let mut w = SymbolWindow::new("BTCUSDT".to_owned(), cfg());
    assert!(w.ingest(pt(0, 1_000_000)).is_none());
    let alert = w.ingest(pt(1, 1)).expect("huge collapse spikes");
    // relative change lies in [0, 1): the numerator stays below the denominator
    assert!(alert.change_num >= 0);
    assert!(alert.change_num < alert.change_den);
}

#[test]
fn single_point_window_never_fires() {
    // even with a zero threshold, one point means min == max and change 0
    let mut w = SymbolWindow::new("BTCUSDT".to_owned(), SpikeConfig::new(5000, 0, 100));
    assert!(w.ingest(pt(0, 12345)).is_none());
    assert_eq!(w.points.len(), 1);
    // with a zero threshold, any non-zero spread fires
    let alert = w.ingest(pt(1, 12344)).expect("any spread beats a zero threshold");
    assert_eq!(alert.change_num, 1);
    assert_eq!(alert.change_den, 12345);
}

#[test]
fn extra_point_at_the_extreme_still_fires() {
    // widening the window with a point at the existing extreme never loses
    // a spike: the spread is unchanged
    let mut w = SymbolWindow::new("BTCUSDT".to_owned(), cfg());
    assert!(w.ingest(pt(0, 1000)).is_none());
    assert!(w.ingest(pt(500, 1000)).is_none());
    let alert = w.ingest(pt(1000, 950)).expect("5% exceeds 2%");
    assert_eq!(alert.change_num, 50);
    assert_eq!(alert.change_den, 1000);
}

#[test]
fn pause_then_jump_trims_all_stale_points() {
    let mut w = SymbolWindow::new("BTCUSDT".to_owned(), cfg());
    assert!(w.ingest(pt(0, 1000)).is_none());
    assert!(w.ingest(pt(500, 1001)).is_none());
    assert!(w.ingest(pt(900, 999)).is_none());
    // a large time jump ages out the whole accumulated history at once
    assert!(w.ingest(pt(60000, 2000)).is_none());
    assert_eq!(w.points.len(), 1);
    assert_eq!(w.points[0], pt(60000, 2000));
}
