use orderbook::dec::Dec;
use orderbook::side::BookSide;
use orderbook::sync::{DeltaAction, SyncPhase, Synchronizer};
use orderbook::types::{DepthData, Exchange, SnapshotData};

fn d(s: &str) -> Dec {
    Dec::from_text(s).unwrap()
}

fn side(levels: &[(&str, &str)]) -> BookSide {
    let mut b = BookSide::new();
    for (p, v) in levels {
        b.set(d(p), d(v));
    }
    b
}

fn snapshot(marker: u64, bids: &[(&str, &str)], asks: &[(&str, &str)]) -> SnapshotData {
    SnapshotData {
        exchange: Exchange::Binance,
        symbol: "BNBBTC".to_string(),
        timestamp: marker,
        bid_to_update: side(bids),
        ask_to_update: side(asks),
    }
}

fn delta(first: u64, last: u64, bids: &[(&str, &str)], asks: &[(&str, &str)]) -> DepthData {
    DepthData {
        exchange: Exchange::Binance,
        symbol: "BNBBTC".to_string(),
        first_update_id_timestamp: first,
        last_update_id_timestamp: last,
        bid_to_update: side(bids),
        ask_to_update: side(asks),
    }
}

#[test]
fn bracketing_delta_is_accepted_and_marker_advances() {
    // snapshot at M; a delta running M+1 through M+5 is applied
    let m: u64 = 100;
    let mut sync = Synchronizer::new(Exchange::Binance, "BNBBTC".to_string());
    sync.on_snapshot(snapshot(m, &[("0.5", "1")], &[("0.6", "1")]));
    assert_eq!(SyncPhase::Bracketing, sync.phase);

    let act = sync.on_delta(&delta(m + 1, m + 5, &[], &[("0.6", "2")]));
    assert_eq!(DeltaAction::Applied, act);
    assert_eq!(m + 5, sync.marker);
    assert_eq!(SyncPhase::Tracking, sync.phase);
    assert_eq!(Some(d("2")), sync.book.asks.get(&d("0.6")));
}

#[test]
fn stale_delta_is_discarded_before_bracketing() {
    // a delta wholly at or before the snapshot marker changes nothing
    let m: u64 = 100;
    let mut sync = Synchronizer::new(Exchange::Binance, "BNBBTC".to_string());
    sync.on_snapshot(snapshot(m, &[("0.5", "1")], &[("0.6", "1")]));
    let before = sync.clone();

    let act = sync.on_delta(&delta(90, 100, &[("0.5", "7")], &[("0.6", "7")]));
    assert_eq!(DeltaAction::Discarded, act);
    assert_eq!(before, sync);
}

#[test]
fn out_of_bracket_delta_is_discarded_while_waiting() {
    // a delta past the bracket is a benign race: discarded, still waiting
    let m: u64 = 100;
    let mut sync = Synchronizer::new(Exchange::Binance, "BNBBTC".to_string());
    sync.on_snapshot(snapshot(m, &[], &[("0.6", "1")]));
    let before = sync.clone();

    let act = sync.on_delta(&delta(m + 2, m + 9, &[], &[("0.6", "7")]));
    assert_eq!(DeltaAction::Discarded, act);
    assert_eq!(before, sync);
}

#[test]
fn continuity_gap_forces_resync_and_discards_book() {
    let m: u64 = 100;
    let mut sync = Synchronizer::new(Exchange::Binance, "BNBBTC".to_string());
    sync.on_snapshot(snapshot(m, &[("0.5", "1")], &[("0.6", "1")]));
    let act = sync.on_delta(&delta(m + 1, m + 5, &[], &[]));
    assert_eq!(DeltaAction::Applied, act);

    // the next delta must start exactly at marker + 1; a gap drops the book
    let act = sync.on_delta(&delta(m + 8, m + 9, &[], &[("0.7", "3")]));
    assert_eq!(DeltaAction::ResyncRequired, act);
    assert_eq!(SyncPhase::AwaitingSnapshot, sync.phase);
    assert_eq!(0, sync.book.asks.len());
    assert_eq!(0, sync.book.bids.len());
}

#[test]
fn continuous_deltas_apply_in_sequence() {
    let m: u64 = 100;
    let mut sync = Synchronizer::new(Exchange::Binance, "BNBBTC".to_string());
    sync.on_snapshot(snapshot(m, &[], &[("0.6", "1")]));
    assert_eq!(DeltaAction::Applied, sync.on_delta(&delta(101, 103, &[], &[("0.7", "2")])));
    assert_eq!(DeltaAction::Applied, sync.on_delta(&delta(104, 110, &[], &[("0.6", "0")])));
    assert_eq!(110, sync.marker);
    assert_eq!(None, sync.book.asks.get(&d("0.6")));
    assert_eq!(Some(d("2")), sync.book.asks.get(&d("0.7")));
}

#[test]
fn deltas_are_discarded_while_awaiting_snapshot() {
    let mut sync = Synchronizer::new(Exchange::Binance, "BNBBTC".to_string());
    let act = sync.on_delta(&delta(1, 2, &[], &[("0.6", "1")]));
    assert_eq!(DeltaAction::Discarded, act);
    assert_eq!(SyncPhase::AwaitingSnapshot, sync.phase);
    assert_eq!(0, sync.book.asks.len());
}

#[test]
fn full_replace_policy_swaps_book_wholesale() {
    // policy B: every message replaces the whole book and the marker
    let mut sync = Synchronizer::new(Exchange::Bitstamp, "ETHBTC".to_string());
    sync.on_full_book(snapshot(50, &[("0.5", "1")], &[("0.6", "1")]));
    sync.on_full_book(snapshot(60, &[("0.4", "2")], &[("0.7", "2")]));
    assert_eq!(SyncPhase::Tracking, sync.phase);
    assert_eq!(60, sync.marker);
    assert_eq!(None, sync.book.bids.get(&d("0.5")));
    assert_eq!(Some(d("2")), sync.book.bids.get(&d("0.4")));
}

#[test]
fn snapshot_handoff_carries_the_book() {
    let mut sync = Synchronizer::new(Exchange::Binance, "BNBBTC".to_string());
    sync.on_snapshot(snapshot(7, &[("0.5", "1")], &[("0.6", "2")]));
    let out = sync.snapshot();
    assert_eq!(Exchange::Binance, out.exchange);
    assert_eq!("BNBBTC".to_string(), out.symbol);
    assert_eq!(7, out.timestamp);
    assert_eq!(Some(d("1")), out.bid_to_update.get(&d("0.5")));
    assert_eq!(Some(d("2")), out.ask_to_update.get(&d("0.6")));
}

#[test]
fn reported_loss_is_treated_as_a_gap() {
    // channel overflow is handled exactly like a continuity failure
    let mut sync = Synchronizer::new(Exchange::Binance, "BNBBTC".to_string());
    sync.on_snapshot(snapshot(7, &[("0.5", "1")], &[("0.6", "2")]));
    sync.on_lag();
    assert_eq!(SyncPhase::AwaitingSnapshot, sync.phase);
    assert_eq!(0, sync.book.asks.len());
    assert_eq!(0, sync.book.bids.len());
}

#[test]
fn full_book_view_of_a_frame() {
    let d = delta(3, 9, &[("0.5", "1")], &[("0.6", "2")]);
    let s = d.clone().into_full_book();
    assert_eq!(d.exchange, s.exchange);
    assert_eq!(d.symbol, s.symbol);
    assert_eq!(9, s.timestamp);
    assert_eq!(d.bid_to_update, s.bid_to_update);
    assert_eq!(d.ask_to_update, s.ask_to_update);
}
