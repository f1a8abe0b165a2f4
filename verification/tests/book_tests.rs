use orderbook::book::Book;
use orderbook::dec::Dec;
use orderbook::side::BookSide;

fn d(s: &str) -> Dec {
    Dec::from_text(s).unwrap()
}

fn side(levels: &[(&str, &str)]) -> BookSide {
    let mut b = BookSide::new();
    for (p, v) in levels {
        b.set(d(p), d(v));
    }
    b
}

#[test]
fn book_update_test() {
    let asks_from_exchange = side(&[("1.000", "9.74000000"), ("0.980", "7.45000000"), (
        "0.880",
        "0",
    )]);
    let bids_from_exchange = side(&[("0.670", "0.60000000"), ("0.510", "4.17900000"), (
        "0.400",
        "8.15600000",
    )]);

    let asks_from_exchange_update = side(&[("1.000", "10.0000000"), ("0.980", "7.45000000"), (
        "0.950",
        "10.0000000",
    )]);
    let bids_from_exchange_update = side(&[("0.670", "0"), ("0.510", "4.17900000"), (
        "0.400",
        "8.15600000",
    )]);

    let mut book_exchange_1 = Book::new();
    book_exchange_1.update_book(&asks_from_exchange, &bids_from_exchange);
    book_exchange_1.update_book(&asks_from_exchange_update, &bids_from_exchange_update);

    let top_ask_expected = (d("0.950"), d("10.0000000"));
    let top_bid_expected = (d("0.510"), d("4.17900000"));
    assert_eq!(Some(top_ask_expected), book_exchange_1.asks.lowest());
    assert_eq!(Some(top_bid_expected), book_exchange_1.bids.highest());
}

#[test]
fn get_spread_book_test() {
    let asks_from_exchange_1 = side(&[("1.000", "9.74000000"), ("0.980", "7.45000000"), (
        "0.880",
        "5.74000000",
    )]);
    let bids_from_exchange_1 = side(&[("0.670", "0.60000000"), ("0.510", "4.17900000"), (
        "0.400",
        "8.15600000",
    )]);

    let mut book_exchange_1 = Book::new();
    book_exchange_1.update_book(&asks_from_exchange_1, &bids_from_exchange_1);
    let spread = book_exchange_1.get_spread();
    assert_eq!(Some(d("0.210")), spread);
}

#[test]
fn delta_application_overwrites_volume() {
    // a delta's volume is the absolute quantity: an existing level is
    // overwritten, never frozen at its first-seen volume
    let mut book = Book::new();
    book.update_book(&side(&[("1.000", "9.74")]), &side(&[]));
    book.update_book(&side(&[("1.000", "10.0")]), &side(&[]));
    assert_eq!(Some(d("10.0")), book.asks.get(&d("1.000")));
}

#[test]
fn noop_removals_leave_book_unchanged() {
    // removing prices that are not in the book changes nothing
    let asks = side(&[("1.000", "9.74"), ("0.980", "7.45")]);
    let bids = side(&[("0.670", "0.60")]);
    let mut book = Book::new();
    book.update_book(&asks, &bids);
    let before = book.clone();

    let ask_removals = side(&[("2.000", "0"), ("3.000", "0")]);
    let bid_removals = side(&[("0.100", "0")]);
    book.update_book(&ask_removals, &bid_removals);
    assert_eq!(before, book);
}

#[test]
fn spread_without_bids_is_unavailable() {
    let mut book = Book::new();
    book.update_book(&side(&[("0.98", "7.45")]), &side(&[]));
    assert_eq!(None, book.get_spread());
}

#[test]
fn spread_of_known_top_levels() {
    let mut book = Book::new();
    book.update_book(&side(&[("0.98", "7.45"), ("1.10", "2.0")]), &side(&[("0.67", "1.0"), (
        "0.50",
        "3.0",
    )]));
    assert_eq!(Some(d("0.31")), book.get_spread());
}

#[test]
fn side_set_get_remove() {
    let mut s = BookSide::new();
    s.set(d("2.5"), d("1"));
    s.set(d("1.5"), d("2"));
    s.set(d("3.5"), d("3"));
    assert_eq!(3, s.len());
    assert_eq!(Some(d("2")), s.get(&d("1.5")));
    assert_eq!(Some((d("1.5"), d("2"))), s.lowest());
    assert_eq!(Some((d("3.5"), d("3"))), s.highest());
    s.remove(d("1.5"));
    assert_eq!(None, s.get(&d("1.5")));
    assert_eq!(2, s.len());
    s.remove(d("9.9"));
    assert_eq!(2, s.len());
}
