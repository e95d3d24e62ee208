use spike_detector::config::SpikeConfig;
use spike_detector::point::PricePoint;
use spike_detector::store::WindowStore;

fn cfg() -> SpikeConfig {
    SpikeConfig::new(5000, 2, 100)
}

fn pt(time: u64, price: i64) -> PricePoint {
    PricePoint { time, price }
}

#[test]
fn scenario_d_symbols_are_independent() {
    let mut store = WindowStore::new(cfg());
    let btc = "BTCUSDT".to_owned();
    let eth = "ETHUSDT".to_owned();
    assert!(store.process(&btc, pt(0, 1000)).is_none());
    assert!(store.process(&eth, pt(0, 50000)).is_none());
    assert!(store.process(&btc, pt(1000, 1005)).is_none());
    // ETH spikes: 1 - 48000/50000 = 0.04 > 0.02
    let alert = store.process(&eth, pt(1000, 48000)).expect("ETH spread exceeds threshold");
    assert_eq!(alert.symbol, eth);
    assert_eq!(alert.last_price, 48000);
    assert_eq!(alert.change_num, 2000);
    assert_eq!(alert.change_den, 50000);
    // the ETH alert had zero effect on BTC's window
    let btc_points = store.points_for(&btc).expect("BTC window exists");
    assert_eq!(btc_points.len(), 2);
    // the ETH window was reset
    let eth_points = store.points_for(&eth).expect("ETH window exists");
    assert_eq!(eth_points.len(), 0);
    // BTC keeps accumulating unaffected
    assert!(store.process(&btc, pt(2000, 1004)).is_none());
    assert_eq!(store.points_for(&btc).unwrap().len(), 3);
}

#[test]
fn unknown_symbol_creates_a_window_on_demand() {
    let mut store = WindowStore::new(cfg());
    let sym = "SOLUSDT".to_owned();
    assert!(store.points_for(&sym).is_none());
    assert!(store.process(&sym, pt(0, 777)).is_none());
    let points = store.points_for(&sym).expect("window created on first tick");
    assert_eq!(points.len(), 1);
    assert_eq!(points[0], pt(0, 777));
}

#[test]
fn malformed_tick_leaves_the_store_unchanged() {
    let mut store = WindowStore::new(cfg());
    let known = "BTCUSDT".to_owned();
    let unknown = "ETHUSDT".to_owned();
    assert!(store.process(&known, pt(0, 1000)).is_none());
    // a rejected tick neither updates a window nor creates one
    assert!(store.process(&known, pt(1000, -1)).is_none());
    assert!(store.process(&unknown, pt(1000, 0)).is_none());
    assert_eq!(store.points_for(&known).unwrap().len(), 1);
    assert!(store.points_for(&unknown).is_none());
}

#[test]
fn interleaved_spikes_fire_per_symbol() {
    let mut store = WindowStore::new(cfg());
    let a = "AAAUSDT".to_owned();
    let b = "BBBUSDT".to_owned();
    assert!(store.process(&a, pt(0, 1000)).is_none());
    assert!(store.process(&b, pt(0, 1000)).is_none());
    // both symbols collapse by 10%, each fires its own alert
    let alert_a = store.process(&a, pt(100, 900)).expect("A spikes");
    assert_eq!(alert_a.symbol, a);
    let alert_b = store.process(&b, pt(200, 900)).expect("B spikes");
    assert_eq!(alert_b.symbol, b);
    assert_eq!(store.points_for(&a).unwrap().len(), 0);
    assert_eq!(store.points_for(&b).unwrap().len(), 0);
}
