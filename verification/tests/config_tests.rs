use std::str::FromStr;

use orderbook::config::{
    binance_snapshot_query, binance_stream_path, bitstamp_subscribe_payload, u32_text,
};
use orderbook::types::Exchange;

#[test]
fn snapshot_query_for_symbol() {
    let q = binance_snapshot_query(&"ETHBTC".to_string(), 10);
    assert_eq!("symbol=ETHBTC&limit=10".to_string(), q);
    let q = binance_snapshot_query(&"BNBBTC".to_string(), 1000);
    assert_eq!("symbol=BNBBTC&limit=1000".to_string(), q);
}

#[test]
fn stream_path_for_symbol() {
    let p = binance_stream_path(&"ETHBTC".to_string(), 100);
    assert_eq!(Some("/ws/ethbtc@depth@100ms".to_string()), p);
}

#[test]
fn subscribe_payload_for_symbol() {
    let p = bitstamp_subscribe_payload(&"ETHBTC".to_string());
    assert_eq!(
        "{\"event\": \"bts:subscribe\", \"data\": { \"channel\": \"order_book_ETHBTC\" } }"
            .to_string(),
        p
    );
}

#[test]
fn number_text_is_decimal() {
    assert_eq!("0".to_string(), u32_text(0));
    assert_eq!("100".to_string(), u32_text(100));
    assert_eq!("4294967295".to_string(), u32_text(u32::MAX));
}

#[test]
fn exchange_names_parse_both_cases() {
    assert_eq!(Ok(Exchange::Binance), Exchange::from_str("Binance"));
    assert_eq!(Ok(Exchange::Binance), Exchange::from_str("binance"));
    assert_eq!(Ok(Exchange::Bitstamp), Exchange::from_str("Bitstamp"));
    assert_eq!(Ok(Exchange::Bitstamp), Exchange::from_str("bitstamp"));
    assert_eq!(Err(()), Exchange::from_str("kraken"));
    assert_eq!("Binance", Exchange::Binance.name());
    assert_eq!("Bitstamp", Exchange::Bitstamp.name());
}
