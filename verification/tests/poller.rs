use fintek::calculate_sleep_duration;
use fintek::market_wait_from_body;
use fintek::num::countdown_seconds;
use fintek::price_field_from_body;
use fintek::CryptoMarket;
use fintek::ForexMarket;
use fintek::Markets;
use fintek::PollAction;
use fintek::PollEvent;
use fintek::PollLoop;
use fintek::StockMarket;
use fintek::TickerStore;
use fintek::Tickers;

#[test]
fn delay_reference_case() {
    // tierA = 60 - 8/5 = 59, tierB = 23400 - (800 - 5) = 22605, min = 59
    assert_eq!(calculate_sleep_duration(5, 8, 60, 800, 23400), Some(59));
}

#[test]
fn delay_zero_tickers() {
    assert_eq!(calculate_sleep_duration(0, 8, 60, 800, 23400), None);
}

#[test]
fn delay_table() {
    // tierA = 60 - 8 = 52, tierB = 23400 - 799 = 22601
    assert_eq!(calculate_sleep_duration(1, 8, 60, 800, 23400), Some(52));
    // more tickers than the tier-A quota: 8/9 floors to 0, delay = 60
    assert_eq!(calculate_sleep_duration(9, 8, 60, 800, 23400), Some(60));
    // more tickers than both quotas: tierA = 3, tierB = 10
    assert_eq!(calculate_sleep_duration(10, 8, 3, 4, 10), Some(3));
    // tier-A share exceeds the period: clamps to 0
    assert_eq!(calculate_sleep_duration(5, 100, 10, 4, 7), Some(0));
}

#[test]
fn market_closed_countdown() {
    let body = "[{\"is_market_open\": false, \"time_to_open\": \"1:30:15\"}]";
    assert_eq!(market_wait_from_body(body), 5415);
}

#[test]
fn market_open() {
    assert_eq!(market_wait_from_body("[{\"is_market_open\": true}]"), 0);
}

#[test]
fn market_malformed_fails_open() {
    assert_eq!(market_wait_from_body("not json"), 0);
    assert_eq!(market_wait_from_body(""), 0);
    assert_eq!(market_wait_from_body("{\"is_market_open\": false}"), 0);
    assert_eq!(market_wait_from_body("[{\"is_market_open\": false}] trailing"), 0);
}

#[test]
fn market_bad_number_fails_open() {
    // tokens JSON rejects make the whole body malformed, so the poller
    // proceeds instead of sleeping on garbage
    let body = "[{\"is_market_open\": false, \"time_to_open\": \"0:0:9\", \"x\": -}]";
    assert_eq!(market_wait_from_body(body), 0);
    let body = "[{\"n\": 08, \"is_market_open\": false, \"time_to_open\": \"0:0:9\"}]";
    assert_eq!(market_wait_from_body(body), 0);
    let body = "[{\"n\": 1.2.3, \"is_market_open\": false, \"time_to_open\": \"0:0:9\"}]";
    assert_eq!(market_wait_from_body(body), 0);
    let body = "[{\"n\": 5e, \"is_market_open\": false, \"time_to_open\": \"0:0:9\"}]";
    assert_eq!(market_wait_from_body(body), 0);
}

#[test]
fn market_accepts_json_numbers() {
    let body = "[{\"n\": -12.5e+3, \"is_market_open\": false, \"time_to_open\": \"0:0:7\"}]";
    assert_eq!(market_wait_from_body(body), 7);
    let body = "[{\"n\": 0, \"is_market_open\": false, \"time_to_open\": \"0:0:8\"}]";
    assert_eq!(market_wait_from_body(body), 8);
}

#[test]
fn market_accepts_nested_members() {
    let body =
        "[{\"meta\": {\"a\": [1, 2], \"b\": {}}, \"is_market_open\": false, \"time_to_open\": \"0:1:0\"}]";
    assert_eq!(market_wait_from_body(body), 60);
}

#[test]
fn market_accepts_escaped_strings() {
    let body = "[{\"note\": \"a\\\"b\\\\c\\n\", \"is_market_open\": false, \"time_to_open\": \"0:0:4\"}]";
    assert_eq!(market_wait_from_body(body), 4);
}

#[test]
fn duplicate_keys_keep_the_last() {
    let body = "[{\"is_market_open\": true, \"is_market_open\": false, \"time_to_open\": \"0:0:5\"}]";
    assert_eq!(market_wait_from_body(body), 5);
    let p = price_field_from_body("{\"price\":\"1.0\",\"price\":\"2.0\"}");
    assert_eq!(p.as_deref(), Some("2.0"));
}

#[test]
fn market_skips_unflagged_records() {
    let body = "[{\"name\": \"x\"}, {\"is_market_open\": false, \"time_to_open\": \"0:2:5\"}]";
    assert_eq!(market_wait_from_body(body), 125);
}

#[test]
fn market_closed_without_countdown() {
    assert_eq!(market_wait_from_body("[{\"is_market_open\": false}]"), 0);
}

#[test]
fn market_state_classifies() {
    let st = fintek::market_state_from_body("[{\"is_market_open\": false, \"time_to_open\": \"0:1:0\"}]");
    assert!(matches!(st, fintek::MarketState::ClosedFor(60)));
    assert_eq!(st.wait(), 60);
    let st = fintek::market_state_from_body("[{\"is_market_open\": true}]");
    assert!(matches!(st, fintek::MarketState::Open));
    assert_eq!(st.wait(), 0);
}

#[test]
fn countdown_components() {
    assert_eq!(countdown_seconds("1:30:15"), 5415);
    assert_eq!(countdown_seconds("0:0:0"), 0);
    // missing components count as zero
    assert_eq!(countdown_seconds("2"), 7200);
    assert_eq!(countdown_seconds("2:30"), 9000);
    // an unparsable component counts as zero
    assert_eq!(countdown_seconds("x:10:2"), 602);
    assert_eq!(countdown_seconds(""), 0);
    // parts beyond the third are ignored
    assert_eq!(countdown_seconds("1:2:3:4"), 3723);
    // a leading plus sign parses, as str::parse accepts it
    assert_eq!(countdown_seconds("+1:+2:+3"), 3723);
}

#[test]
fn price_field_present() {
    let p = price_field_from_body("{\"price\":\"179.64000\"}");
    assert_eq!(p.as_deref(), Some("179.64000"));
    let parsed: f64 = p.unwrap().parse().unwrap();
    assert!((parsed - 179.64).abs() < 1e-9);
}

#[test]
fn price_field_missing() {
    assert!(price_field_from_body("{\"symbol\":\"AAPL\"}").is_none());
    assert!(price_field_from_body("").is_none());
    assert!(price_field_from_body("not json").is_none());
    // a numeric price is not the string-encoded field the poller reads
    assert!(price_field_from_body("{\"price\": 179.64}").is_none());
}

#[test]
fn record_round_trip() {
    let set = Tickers::new(vec!["AAPL".to_string(), "MSFT".to_string()]);
    let body = set.to_record();
    assert_eq!(body, "{\"tickers\":[\"AAPL\",\"MSFT\"]}");
    let loaded = Tickers::from_record(&body);
    assert_eq!(loaded.get_tickers(), set.get_tickers());
}

#[test]
fn record_malformed_loads_empty() {
    assert!(Tickers::from_record("{\"tickers\":[\"AAPL\"").get_tickers().is_empty());
    assert!(Tickers::from_record("").get_tickers().is_empty());
    assert!(Tickers::from_record("garbage").get_tickers().is_empty());
}

#[test]
fn record_empty_set() {
    let set = Tickers::default();
    assert_eq!(set.to_record(), "{\"tickers\":[]}");
    assert!(Tickers::from_record("{\"tickers\":[]}").get_tickers().is_empty());
}

#[test]
fn record_load_sanitizes() {
    let loaded = Tickers::from_record("{\"tickers\":[\"AAPL\",\"\",\"AAPL\",\"MSFT\"]}");
    assert_eq!(loaded.get_tickers(), &vec!["AAPL".to_string(), "MSFT".to_string()]);
}

#[test]
fn record_decodes_escaped_symbols() {
    let loaded = Tickers::from_record("{\"tickers\":[\"A\\\"B\"]}");
    assert_eq!(loaded.get_tickers(), &vec!["A\"B".to_string()]);
}

#[test]
fn record_round_trip_escapes() {
    let set = Tickers::new(vec!["A\"B".to_string(), "C\\D".to_string(), "E\tF".to_string()]);
    let body = set.to_record();
    assert_eq!(body, "{\"tickers\":[\"A\\\"B\",\"C\\\\D\",\"E\\tF\"]}");
    let loaded = Tickers::from_record(&body);
    assert_eq!(loaded.get_tickers(), set.get_tickers());
}

#[test]
fn record_accepts_whitespace() {
    let loaded = Tickers::from_record(" { \"tickers\" : [ \"AAPL\" , \"MSFT\" ] } ");
    assert_eq!(loaded.get_tickers(), &vec!["AAPL".to_string(), "MSFT".to_string()]);
}

#[test]
fn store_detects_change_once() {
    let mut store = TickerStore::new();
    assert!(store.check_fingerprint(42));
    // no modification in between: the second check reports unchanged
    assert!(!store.check_fingerprint(42));
    assert!(store.check_fingerprint(43));
    assert!(!store.check_fingerprint(43));
}

#[test]
fn market_labels() {
    assert_eq!(Markets::Stock(StockMarket::NYSE).label(), "NYSE");
    assert_eq!(Markets::Stock(StockMarket::NASDAQ).label(), "NASDAQ");
    assert_eq!(Markets::Forex(ForexMarket::EURUSD).label(), "EURUSD");
    assert_eq!(Markets::Forex(ForexMarket::GBPUSD).label(), "GBPUSD");
    assert_eq!(Markets::Forex(ForexMarket::USDJPY).label(), "USDJPY");
    assert_eq!(Markets::Crypto(CryptoMarket::BTCUSD).label(), "BTCUSD");
    assert_eq!(Markets::Crypto(CryptoMarket::ETHUSD).label(), "ETHUSD");
    assert_eq!(Markets::Crypto(CryptoMarket::LTCUSD).label(), "LTCUSD");
}

#[test]
fn poll_cycle_sequence() {
    let set = Tickers::new(vec!["AAPL".to_string(), "MSFT".to_string()]);
    let mut lp = PollLoop::new(set, 8, 60, 800, 23400);
    assert!(matches!(lp.start_action(), PollAction::QueryMarket));
    let a = lp.step(PollEvent::MarketState(120));
    assert!(matches!(a, PollAction::Sleep(120)));
    let a = lp.step(PollEvent::Woke);
    assert!(matches!(a, PollAction::CheckStore));
    let a = lp.step(PollEvent::StoreCheck(None));
    match a {
        PollAction::FetchAndWait(sym, d) => {
            assert_eq!(sym, "AAPL");
            assert_eq!(d, 56);
        }
        _ => panic!("expected a fetch"),
    }
    let a = lp.step(PollEvent::SymbolDone);
    match a {
        PollAction::FetchAndWait(sym, d) => {
            assert_eq!(sym, "MSFT");
            assert_eq!(d, 56);
        }
        _ => panic!("expected a fetch"),
    }
    // the trailing wait done, the cycle starts over at the market query
    let a = lp.step(PollEvent::SymbolDone);
    assert!(matches!(a, PollAction::QueryMarket));
}

#[test]
fn poll_swaps_updated_set() {
    let mut lp = PollLoop::new(Tickers::default(), 8, 60, 800, 23400);
    let a = lp.step(PollEvent::MarketState(0));
    assert!(matches!(a, PollAction::Sleep(0)));
    lp.step(PollEvent::Woke);
    let fresh = Tickers::new(vec!["IBM".to_string()]);
    let a = lp.step(PollEvent::StoreCheck(Some(fresh)));
    match a {
        PollAction::FetchAndWait(sym, _) => assert_eq!(sym, "IBM"),
        _ => panic!("expected a fetch"),
    }
    let a = lp.step(PollEvent::SymbolDone);
    assert!(matches!(a, PollAction::QueryMarket));
}

#[test]
fn poll_empty_set_skips_fetching() {
    let mut lp = PollLoop::new(Tickers::default(), 8, 60, 800, 23400);
    lp.step(PollEvent::MarketState(0));
    lp.step(PollEvent::Woke);
    let a = lp.step(PollEvent::StoreCheck(None));
    assert!(matches!(a, PollAction::QueryMarket));
}
