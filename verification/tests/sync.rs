use orderbook::connection::Error;
use orderbook::connection::Order;
use orderbook::connection::OrderDetails;
use orderbook::ledger::Side;
use orderbook::order_book::OrderBook;
use orderbook::sync::Delta;
use orderbook::sync::Snapshot;
use orderbook::sync::SyncPhase;
use orderbook::sync::Synchronizer;

fn bid(price: u64, quantity: u64) -> Order {
    Order::Bid(OrderDetails { price, quantity })
}

fn ask(price: u64, quantity: u64) -> Order {
    Order::Ask(OrderDetails { price, quantity })
}

fn delta(first: u64, last: u64, levels: Vec<Order>) -> Delta {
    Delta { first_update_id: first, last_update_id: last, levels }
}

#[test]
fn session_walks_through_its_phases() {
    let mut book = OrderBook::create();
    let mut sync = Synchronizer::new();
    assert_eq!(sync.phase(), SyncPhase::Connecting);
    sync.on_stream_opened();
    assert_eq!(sync.phase(), SyncPhase::Buffering);
    let snap = Snapshot { last_update_id: 100, levels: vec![bid(1000, 5)] };
    assert_eq!(sync.on_snapshot(&mut book, &snap), Ok(()));
    assert_eq!(sync.phase(), SyncPhase::Streaming);
    assert!(!sync.needs_restart());
    sync.on_failure(&mut book);
    assert_eq!(sync.phase(), SyncPhase::Failed);
    assert!(sync.needs_restart());
}

#[test]
fn deltas_buffered_while_waiting_do_not_touch_the_book() {
    let mut book = OrderBook::create();
    let mut sync = Synchronizer::new();
    sync.on_stream_opened();
    sync.on_delta(&mut book, delta(101, 102, vec![bid(1000, 5), ask(1100, 3)]));
    assert_eq!(book.quantity_at(Side::Bid, 1000), None);
    assert_eq!(book.quantity_at(Side::Ask, 1100), None);
}

#[test]
fn deltas_before_the_stream_opens_are_dropped() {
    let mut book = OrderBook::create();
    let mut sync = Synchronizer::new();
    sync.on_delta(&mut book, delta(101, 102, vec![bid(1000, 5)]));
    sync.on_stream_opened();
    let snap = Snapshot { last_update_id: 100, levels: vec![] };
    assert_eq!(sync.on_snapshot(&mut book, &snap), Ok(()));
    // Nothing was buffered, so nothing was replayed.
    assert_eq!(book.quantity_at(Side::Bid, 1000), None);
}

#[test]
fn gap_between_snapshot_and_buffer_fails_reconciliation() {
    let mut book = OrderBook::create();
    let mut sync = Synchronizer::new();
    sync.on_stream_opened();
    // Snapshot ends at 100; the buffered delta starts at 105: a gap.
    sync.on_delta(&mut book, delta(105, 106, vec![bid(1000, 5)]));
    let snap = Snapshot { last_update_id: 100, levels: vec![bid(990, 1)] };
    let r = sync.on_snapshot(&mut book, &snap);
    assert_eq!(r, Err(Error::UnexpectedItem));
    assert_eq!(sync.phase(), SyncPhase::Failed);
    assert!(sync.needs_restart());
    // The book must not mark itself synchronized, and serves no values.
    assert_eq!(book.top_bid_ask(), (None, None));
    assert_eq!(book.quantity_at(Side::Bid, 990), None);
}

#[test]
fn one_missing_update_is_already_a_gap() {
    let mut book = OrderBook::create();
    let mut sync = Synchronizer::new();
    sync.on_stream_opened();
    // The snapshot ends at 100, the oldest retained delta starts at 102:
    // update 101 was lost.
    sync.on_delta(&mut book, delta(102, 103, vec![bid(1000, 5)]));
    let snap = Snapshot { last_update_id: 100, levels: vec![] };
    let r = sync.on_snapshot(&mut book, &snap);
    assert_eq!(r, Err(Error::UnexpectedItem));
    assert_eq!(book.top_bid_ask(), (None, None));
}

#[test]
fn stale_deltas_do_not_affect_the_book() {
    // One run with a stale buffered delta, one without: same final book.
    let mut book_with = OrderBook::create();
    let mut sync_with = Synchronizer::new();
    sync_with.on_stream_opened();
    sync_with.on_delta(&mut book_with, delta(95, 100, vec![bid(500, 9), ask(2000, 9)]));
    sync_with.on_delta(&mut book_with, delta(101, 101, vec![bid(1000, 5)]));
    let snap = Snapshot { last_update_id: 100, levels: vec![bid(990, 1), ask(1010, 2)] };
    assert_eq!(sync_with.on_snapshot(&mut book_with, &snap), Ok(()));

    let mut book_without = OrderBook::create();
    let mut sync_without = Synchronizer::new();
    sync_without.on_stream_opened();
    sync_without.on_delta(&mut book_without, delta(101, 101, vec![bid(1000, 5)]));
    let snap2 = Snapshot { last_update_id: 100, levels: vec![bid(990, 1), ask(1010, 2)] };
    assert_eq!(sync_without.on_snapshot(&mut book_without, &snap2), Ok(()));

    assert_eq!(book_with.top_bid_ask(), book_without.top_bid_ask());
    for price in [500u64, 990, 1000, 1010, 2000] {
        assert_eq!(
            book_with.quantity_at(Side::Bid, price),
            book_without.quantity_at(Side::Bid, price),
        );
        assert_eq!(
            book_with.quantity_at(Side::Ask, price),
            book_without.quantity_at(Side::Ask, price),
        );
    }
    // The stale delta's levels never reached the book.
    assert_eq!(book_with.quantity_at(Side::Bid, 500), None);
    assert_eq!(book_with.quantity_at(Side::Ask, 2000), None);
}

#[test]
fn failure_mid_streaming_clears_the_book_until_a_fresh_snapshot() {
    let mut book = OrderBook::create();
    let mut sync = Synchronizer::new();
    sync.on_stream_opened();
    let snap = Snapshot { last_update_id: 100, levels: vec![bid(1000, 5), ask(1100, 3)] };
    assert_eq!(sync.on_snapshot(&mut book, &snap), Ok(()));
    assert_eq!(book.top_bid_ask(), (Some(1000), Some(1100)));
    sync.on_delta(&mut book, delta(101, 101, vec![bid(1005, 1)]));
    assert_eq!(book.top_bid_ask(), (Some(1005), Some(1100)));
    // Forced stream failure mid-streaming.
    sync.on_failure(&mut book);
    assert_eq!(book.top_bid_ask(), (None, None));
    // A later delta finds no listener and changes nothing.
    sync.on_delta(&mut book, delta(102, 102, vec![bid(1010, 1)]));
    assert_eq!(book.top_bid_ask(), (None, None));
    // A fresh session restores service.
    let mut sync2 = Synchronizer::new();
    sync2.on_stream_opened();
    let snap2 = Snapshot { last_update_id: 200, levels: vec![bid(980, 4)] };
    assert_eq!(sync2.on_snapshot(&mut book, &snap2), Ok(()));
    assert_eq!(book.top_bid_ask(), (Some(980), None));
}

#[test]
fn end_to_end_reconciliation_scenario() {
    // Prices in tenths of the quoted unit: 10.0 -> 100, 11.0 -> 110,
    // 9.5 -> 95.
    let mut book = OrderBook::create();
    let mut sync = Synchronizer::new();
    sync.on_stream_opened();
    sync.on_delta(&mut book, delta(98, 101, vec![bid(100, 0)]));
    let snap = Snapshot { last_update_id: 100, levels: vec![bid(100, 5), ask(110, 3)] };
    assert_eq!(sync.on_snapshot(&mut book, &snap), Ok(()));
    assert_eq!(sync.phase(), SyncPhase::Streaming);
    // The replayed delta removed the bid; the ask is unchanged.
    assert_eq!(book.quantity_at(Side::Bid, 100), None);
    assert_eq!(book.quantity_at(Side::Ask, 110), Some(3));
    assert_eq!(book.top_bid_ask(), (None, Some(110)));
    // A following live delta: bid 9.5 appears, ask 11.0 is removed.
    sync.on_delta(&mut book, delta(102, 102, vec![bid(95, 2), ask(110, 0)]));
    assert_eq!(book.top_bid_ask(), (Some(95), None));
}

#[test]
fn streaming_deltas_replace_quantities_in_arrival_order() {
    let mut book = OrderBook::create();
    let mut sync = Synchronizer::new();
    sync.on_stream_opened();
    let snap = Snapshot { last_update_id: 10, levels: vec![bid(1000, 5)] };
    assert_eq!(sync.on_snapshot(&mut book, &snap), Ok(()));
    sync.on_delta(&mut book, delta(11, 11, vec![bid(1000, 7)]));
    sync.on_delta(&mut book, delta(12, 12, vec![bid(1000, 2)]));
    assert_eq!(book.quantity_at(Side::Bid, 1000), Some(2));
    assert_eq!(book.top_bid_ask(), (Some(1000), None));
}
