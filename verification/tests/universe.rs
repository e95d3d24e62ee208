use spike_detector::universe::filter_markets;

fn owned(v: &[&str]) -> Vec<String> {
    v.iter().map(|s| (*s).to_owned()).collect()
}

#[test]
fn keeps_usdt_quoted_symbols_not_excluded() {
    let symbols = owned(&[
        "BTCUSDT", "ETHBTC", "FISUSDT", "ETHUSDT", "COSUSDT", "USDT", "SOLUSD",
    ]);
    let exclude = owned(&["FISUSDT", "COSUSDT"]);
    let out = filter_markets(&symbols, &exclude);
    assert_eq!(out, owned(&["BTCUSDT", "ETHUSDT", "USDT"]));
}

#[test]
fn empty_universe_yields_no_markets() {
    let out = filter_markets(&owned(&[]), &owned(&["FISUSDT"]));
    assert!(out.is_empty());
}

#[test]
fn suffix_match_is_exact_and_case_sensitive() {
    let symbols = owned(&["btcusdt", "XUSDTY", "USD", "AAAUSDT"]);
    let out = filter_markets(&symbols, &owned(&[]));
    assert_eq!(out, owned(&["AAAUSDT"]));
}

#[test]
fn exclusion_only_removes_exact_names() {
    let symbols = owned(&["AAAUSDT", "BAAAUSDT"]);
    let exclude = owned(&["AAAUSDT"]);
    let out = filter_markets(&symbols, &exclude);
    assert_eq!(out, owned(&["BAAAUSDT"]));
}
