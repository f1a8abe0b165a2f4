use orderbook::dec::Dec;
use orderbook::side::BookSide;
use orderbook::types::{DecodeError, DepthData, Exchange, FieldTag, SnapshotData};

fn d(s: &str) -> Dec {
    Dec::from_text(s).unwrap()
}

fn side(levels: &[(&str, &str)]) -> BookSide {
    let mut b = BookSide::new();
    for (p, v) in levels {
        b.set(d(p), d(v));
    }
    b
}

#[test]
fn deserialize_stream_binance_test() {
    let data = r#"
    {
        "e": "depthUpdate",
        "E": 123456789,
        "s": "BNBBTC",
        "U": 157,
        "u": 160,
        "b": [["0.0024", "10"]],
        "a": [["0.0026","100"]]
    }"#;
    let symbol = "BNBBTC".to_string();
    let expected = DepthData {
        exchange: Exchange::Binance,
        symbol: symbol.clone(),
        first_update_id_timestamp: 157,
        last_update_id_timestamp: 160,
        bid_to_update: side(&[("0.0024", "10")]),
        ask_to_update: side(&[("0.0026", "100")]),
    };

    let result = orderbook::binance::deserialize_stream(data.to_string()).unwrap();
    assert_eq!(expected, result);
}

#[test]
fn deserialize_snapshot_binance_test() {
    let data = r#"{
        "lastUpdateId":1833980193,
        "bids":[
            ["0.01074200","0.60000000"],
            ["0.01074100","4.12000000"]
        ],
        "asks":[
            ["0.01074300","5.74000000"],
            ["0.01074400","39.45000000"]
        ]
    }"#;
    let symbol = "BNBBTC".to_string();
    let expected = SnapshotData {
        exchange: Exchange::Binance,
        symbol: symbol.clone(),
        timestamp: 1833980193,
        bid_to_update: side(&[("0.01074200", "0.60000000"), ("0.01074100", "4.12000000")]),
        ask_to_update: side(&[("0.01074300", "5.74000000"), ("0.01074400", "39.45000000")]),
    };

    let result = orderbook::binance::deserialize_snapshot(symbol.clone(), data.to_string())
        .unwrap();
    assert_eq!(expected, result);
}

#[test]
fn deserialize_stream_bitstamp_test() {
    let data = r#"
    {
        "event": "data",
        "channel": "order_book_ethbtc",
        "data":{
            "timestamp": "1833980193",
            "microtimestamp": "1833980193555559",
            "bids":[
                ["0.01074200","0.60000000"],
                ["0.01074100","4.12000000"]
            ],
            "asks":[
                ["0.01074300","5.74000000"],
                ["0.01074400","39.45000000"]
            ]
        }
    }"#;
    let symbol = "ETHBTC".to_string();
    let expected = DepthData {
        exchange: Exchange::Bitstamp,
        symbol: symbol.clone(),
        first_update_id_timestamp: 1833980193,
        last_update_id_timestamp: 1833980193555559,
        bid_to_update: side(&[("0.01074200", "0.60000000"), ("0.01074100", "4.12000000")]),
        ask_to_update: side(&[("0.01074300", "5.74000000"), ("0.01074400", "39.45000000")]),
    };

    let result = orderbook::bitstamp::deserialize_stream(data.to_string()).unwrap();
    assert_eq!(expected, result);
}

#[test]
fn deserialize_snapshot_bitstamp_test() {
    let data = r#"{
        "microtimestamp":"1833980193054545",
        "timestamp":"1833980193",
        "bids":[
            ["0.01074200","0.60000000"],
            ["0.01074100","4.12000000"]
        ],
        "asks":[
            ["0.01074300","5.74000000"],
            ["0.01074400","39.45000000"]
        ]
    }"#;
    let symbol = "BNBBTC".to_string();
    let expected = SnapshotData {
        exchange: Exchange::Bitstamp,
        symbol: "BNBBTC".to_string(),
        timestamp: 1833980193054545,
        bid_to_update: side(&[("0.01074200", "0.60000000"), ("0.01074100", "4.12000000")]),
        ask_to_update: side(&[("0.01074300", "5.74000000"), ("0.01074400", "39.45000000")]),
    };

    let result = orderbook::bitstamp::deserialize_snapshot(symbol.clone(), data.to_string())
        .unwrap();
    assert_eq!(expected, result);
}

#[test]
fn decode_rejects_malformed_document() {
    let r = orderbook::binance::deserialize_stream("{not json".to_string());
    assert_eq!(Err(DecodeError::Syntax), r);
    let r = orderbook::binance::deserialize_stream("[1, 2]".to_string());
    assert_eq!(Err(DecodeError::WrongShape(FieldTag::Document)), r);
}

#[test]
fn decode_reports_missing_fields() {
    let r = orderbook::binance::deserialize_stream(r#"{"U": 1, "u": 2}"#.to_string());
    assert_eq!(Err(DecodeError::MissingField(FieldTag::Symbol)), r);
    let r = orderbook::binance::deserialize_stream(r#"{"s": "BNBBTC", "u": 2}"#.to_string());
    assert_eq!(Err(DecodeError::MissingField(FieldTag::FirstSeq)), r);
    let r = orderbook::binance::deserialize_stream(
        r#"{"s": "BNBBTC", "U": 1, "u": 2, "a": []}"#.to_string(),
    );
    assert_eq!(Err(DecodeError::MissingField(FieldTag::Bids)), r);
}

#[test]
fn decode_reports_wrong_shapes() {
    // a sequence field holding a string, a row of three entries
    let r = orderbook::binance::deserialize_stream(
        r#"{"s": "BNBBTC", "U": "1", "u": 2, "b": [], "a": []}"#.to_string(),
    );
    assert_eq!(Err(DecodeError::WrongShape(FieldTag::FirstSeq)), r);
    let r = orderbook::binance::deserialize_stream(
        r#"{"s": "BNBBTC", "U": 1, "u": 2, "b": [["1", "2", "3"]], "a": []}"#.to_string(),
    );
    assert_eq!(Err(DecodeError::WrongShape(FieldTag::Bids)), r);
}

#[test]
fn decode_reports_malformed_numbers() {
    let r = orderbook::binance::deserialize_stream(
        r#"{"s": "BNBBTC", "U": 1, "u": 2, "b": [["zero", "2"]], "a": []}"#.to_string(),
    );
    assert_eq!(Err(DecodeError::MalformedNumber(FieldTag::Bids)), r);
    // a sequence number too large for u64
    let r = orderbook::binance::deserialize_stream(
        r#"{"s": "BNBBTC", "U": 99999999999999999999, "u": 2, "b": [], "a": []}"#.to_string(),
    );
    assert_eq!(Err(DecodeError::MalformedNumber(FieldTag::FirstSeq)), r);
    // bitstamp timestamps are quoted digit runs
    let r = orderbook::bitstamp::deserialize_snapshot(
        "BNBBTC".to_string(),
        r#"{"microtimestamp":"12x", "bids": [], "asks": []}"#.to_string(),
    );
    assert_eq!(Err(DecodeError::MalformedNumber(FieldTag::Microtimestamp)), r);
}

#[test]
fn subscription_ack_is_recognized() {
    let ack =
        "{\"event\":\"bts:subscription_succeeded\",\"channel\":\"order_book_ethbtc\",\"data\":{}}"
            .to_string();
    assert!(orderbook::bitstamp::is_subscription_ack(&ack));
    let not_ack = "{\"event\":\"data\",\"channel\":\"order_book_ethbtc\",\"data\":{}}".to_string();
    assert!(!orderbook::bitstamp::is_subscription_ack(&not_ack));
    assert!(!orderbook::bitstamp::is_subscription_ack(&"nonsense".to_string()));
}

#[test]
fn decoders_agree_on_canonical_delta() {
    // two wire shapes, one canonical form: both feeds produce the same
    // sides for the same levels
    let binance = orderbook::binance::deserialize_stream(
        r#"{"s": "ETHBTC", "U": 7, "u": 9, "b": [["0.5", "1"]], "a": [["0.6", "2"]]}"#.to_string(),
    )
    .unwrap();
    let bitstamp = orderbook::bitstamp::deserialize_stream(
        r#"{"event": "data", "channel": "order_book_ethbtc", "data": {
            "timestamp": "7", "microtimestamp": "9",
            "bids": [["0.5", "1"]], "asks": [["0.6", "2"]]}}"#
            .to_string(),
    )
    .unwrap();
    assert_eq!(binance.symbol, bitstamp.symbol);
    assert_eq!(binance.bid_to_update, bitstamp.bid_to_update);
    assert_eq!(binance.ask_to_update, bitstamp.ask_to_update);
}

#[test]
fn duplicate_prices_in_one_message_keep_the_last() {
    let r = orderbook::binance::deserialize_stream(
        r#"{"s": "BNBBTC", "U": 1, "u": 2, "b": [], "a": [["0.5", "1"], ["0.5", "2"]]}"#
            .to_string(),
    )
    .unwrap();
    assert_eq!(Some(d("2")), r.ask_to_update.get(&d("0.5")));
    assert_eq!(1, r.ask_to_update.len());
}

#[test]
fn unknown_fields_of_any_shape_are_ignored() {
    let r = orderbook::binance::deserialize_stream(
        r#"{"extra": {"nested": [1, true, null, {"deep": "x"}]},
            "s": "BNBBTC", "U": 1, "u": 2, "b": [], "a": [["0.5", "1"]]}"#
            .to_string(),
    )
    .unwrap();
    assert_eq!(Some(d("1")), r.ask_to_update.get(&d("0.5")));
}

#[test]
fn simple_escapes_are_honoured_in_strings() {
    // a quoted backslash-escape inside an ignored field does not derail
    // the frame
    let r = orderbook::binance::deserialize_stream(
        r#"{"note": "a\"b\\c\n", "s": "BNBBTC", "U": 1, "u": 2, "b": [], "a": []}"#.to_string(),
    );
    assert!(r.is_ok());
}

#[test]
fn unicode_escapes_are_refused() {
    // the wire formats never carry \u escapes; a document using one is
    // not accepted
    let r = orderbook::binance::deserialize_stream(
        r#"{"s": "A\u0042C", "U": 1, "u": 2, "b": [], "a": []}"#.to_string(),
    );
    assert_eq!(Err(orderbook::types::DecodeError::Syntax), r);
}

#[test]
fn trailing_garbage_is_refused() {
    let r = orderbook::binance::deserialize_stream(
        r#"{"s": "BNBBTC", "U": 1, "u": 2, "b": [], "a": []} tail"#.to_string(),
    );
    assert_eq!(Err(orderbook::types::DecodeError::Syntax), r);
}
