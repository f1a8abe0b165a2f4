use orderbook::aggregate::{AggregatedBook, Level};
use orderbook::dec::Dec;
use orderbook::side::BookSide;
use orderbook::types::{Exchange, SnapshotData};

fn d(s: &str) -> Dec {
    Dec::from_text(s).unwrap()
}

fn side(levels: &[(&str, &str)]) -> BookSide {
    let mut b = BookSide::new();
    for (p, v) in levels {
        b.set(d(p), d(v));
    }
    b
}

fn snap(exchange: Exchange, bids: &[(&str, &str)], asks: &[(&str, &str)]) -> SnapshotData {
    SnapshotData {
        exchange,
        symbol: "BNBBTC".to_string(),
        timestamp: 1833980193,
        bid_to_update: side(bids),
        ask_to_update: side(asks),
    }
}

#[test]
fn get_top_asks_aggregate_book_test() {
    let update1 = snap(Exchange::Binance, &[], &[("10.0", "3"), ("9.0", "2"), ("8.0", "5")]);
    let update2 = snap(Exchange::Bitstamp, &[], &[("11.0", "3"), ("8.0", "4"), ("7.0", "6")]);

    let mut agrregate_book_result = AggregatedBook::new();
    agrregate_book_result.update_book(update1);
    agrregate_book_result.update_book(update2);

    let asks_expected = vec![
        Level::new(Exchange::Bitstamp, d("7.0"), d("6")),
        Level::new(Exchange::Binance, d("8.0"), d("5")),
        Level::new(Exchange::Bitstamp, d("8.0"), d("4")),
        Level::new(Exchange::Binance, d("9.0"), d("2")),
    ];

    let agrregate_book_top_asks_result = agrregate_book_result.get_top_asks(4);
    assert_eq!(asks_expected, agrregate_book_top_asks_result);
}

#[test]
fn get_top_bids_aggregate_book_test() {
    let update1 = snap(Exchange::Binance, &[("7.0", "5"), ("6.0", "5"), ("5.0", "5")], &[]);
    let update2 = snap(Exchange::Bitstamp, &[("6.0", "5"), ("4.0", "5"), ("3.0", "5")], &[]);

    let mut agrregate_book_result = AggregatedBook::new();
    agrregate_book_result.update_book(update1);
    agrregate_book_result.update_book(update2);

    let bids_expected = vec![
        Level::new(Exchange::Binance, d("7.0"), d("5")),
        Level::new(Exchange::Binance, d("6.0"), d("5")),
        Level::new(Exchange::Bitstamp, d("6.0"), d("5")),
        Level::new(Exchange::Binance, d("5.0"), d("5")),
    ];

    let agrregate_book_top_bids_result = agrregate_book_result.get_top_bids(4);
    assert_eq!(bids_expected, agrregate_book_top_bids_result);
}

#[test]
fn aggregate_book_get_top_asks_bids_test() {
    // levels at one price from two venues stay separate, tagged entries
    let update1 = snap(Exchange::Binance, &[("7", "5"), ("6", "5"), ("5", "5")], &[("10", "5"), (
        "9",
        "5",
    ), ("8", "5")]);
    let update2 = snap(Exchange::Bitstamp, &[("6", "5"), ("4", "5"), ("3", "5")], &[("11", "5"), (
        "8",
        "5",
    ), ("7", "5")]);

    let mut agrregate_book_result = AggregatedBook::new();
    agrregate_book_result.update_book(update1);
    agrregate_book_result.update_book(update2);

    let asks_expected = vec![
        Level::new(Exchange::Bitstamp, d("7"), d("5")),
        Level::new(Exchange::Binance, d("8"), d("5")),
        Level::new(Exchange::Bitstamp, d("8"), d("5")),
    ];
    let bids_expected = vec![
        Level::new(Exchange::Binance, d("7"), d("5")),
        Level::new(Exchange::Binance, d("6"), d("5")),
        Level::new(Exchange::Bitstamp, d("6"), d("5")),
    ];

    assert_eq!(asks_expected, agrregate_book_result.get_top_asks(3));
    assert_eq!(bids_expected, agrregate_book_result.get_top_bids(3));
}

#[test]
fn get_spread_aggregate_book_test() {
    let update1 = snap(
        Exchange::Binance,
        &[("0.670", "0.60000000"), ("0.510", "4.17900000"), ("0.400", "8.15600000")],
        &[("1.000", "9.74000000"), ("1.500", "7.45000000"), ("0.700", "5.74000000")],
    );
    let update2 = snap(
        Exchange::Bitstamp,
        &[("0.900", "0.60000000"), ("0.520", "2.17900000"), ("0.400", "0.15600000")],
        &[("2.000", "15.66000000"), ("1.500", "12.45000000"), ("1.000", "8.45000000")],
    );

    let mut agrregate_book = AggregatedBook::new();
    agrregate_book.update_book(update1);
    agrregate_book.update_book(update2);
    let spread = agrregate_book.get_spread();

    assert_eq!(Some(d("-0.200")), spread);
}

#[test]
fn top_ask_across_two_exchanges() {
    // X asks {1.00: 9.74, 0.98: 7.45}, Y asks {2.00: 15.66, 1.50: 12.45}:
    // the single best ask is X's 0.98
    let x = snap(Exchange::Binance, &[], &[("1.00", "9.74"), ("0.98", "7.45")]);
    let y = snap(Exchange::Bitstamp, &[], &[("2.00", "15.66"), ("1.50", "12.45")]);
    let mut agg = AggregatedBook::new();
    agg.update_book(x);
    agg.update_book(y);
    let top = agg.get_top_asks(1);
    assert_eq!(vec![Level::new(Exchange::Binance, d("0.98"), d("7.45"))], top);
}

#[test]
fn aggregate_spread_no_bids_is_unavailable() {
    let x = snap(Exchange::Binance, &[], &[("0.98", "7.45")]);
    let mut agg = AggregatedBook::new();
    agg.update_book(x);
    assert_eq!(None, agg.get_spread());
    let empty = AggregatedBook::new();
    assert_eq!(None, empty.get_spread());
}

#[test]
fn aggregate_spread_of_known_top_levels() {
    let x = snap(Exchange::Binance, &[("0.67", "1.0")], &[("0.98", "7.45")]);
    let mut agg = AggregatedBook::new();
    agg.update_book(x);
    assert_eq!(Some(d("0.31")), agg.get_spread());
}

#[test]
fn update_replaces_slot_wholesale() {
    let first = snap(Exchange::Binance, &[], &[("10", "1"), ("11", "1")]);
    let second = snap(Exchange::Binance, &[], &[("12", "1")]);
    let mut agg = AggregatedBook::new();
    agg.update_book(first);
    agg.update_book(second);
    // nothing of the first book survives the replacement
    let top = agg.get_top_asks(10);
    assert_eq!(vec![Level::new(Exchange::Binance, d("12"), d("1"))], top);
}

#[test]
fn remove_book_drops_the_slot() {
    let b = snap(Exchange::Binance, &[], &[("10", "1")]);
    let t = snap(Exchange::Bitstamp, &[], &[("11", "1")]);
    let mut agg = AggregatedBook::new();
    agg.update_book(b.clone());
    agg.update_book(t);
    agg.remove_book(b);
    let top = agg.get_top_asks(10);
    assert_eq!(vec![Level::new(Exchange::Bitstamp, d("11"), d("1"))], top);
}

#[test]
fn round_trip_reproduces_decoded_book() {
    // decoding a full book and asking for views as large as the input
    // reproduces the level set exactly: asks in order, bids reversed
    let data = r#"{
        "lastUpdateId":1833980193,
        "bids":[
            ["0.01074200","0.60000000"],
            ["0.01074100","4.12000000"]
        ],
        "asks":[
            ["0.01074300","5.74000000"],
            ["0.01074400","39.45000000"]
        ]
    }"#;
    let snap = orderbook::binance::deserialize_snapshot("BNBBTC".to_string(), data.to_string())
        .unwrap();
    let mut agg = AggregatedBook::new();
    agg.update_book(snap);
    let asks = agg.get_top_asks(2);
    let bids = agg.get_top_bids(2);
    assert_eq!(
        vec![
            Level::new(Exchange::Binance, d("0.01074300"), d("5.74000000")),
            Level::new(Exchange::Binance, d("0.01074400"), d("39.45000000")),
        ],
        asks
    );
    assert_eq!(
        vec![
            Level::new(Exchange::Binance, d("0.01074200"), d("0.60000000")),
            Level::new(Exchange::Binance, d("0.01074100"), d("4.12000000")),
        ],
        bids
    );
}
