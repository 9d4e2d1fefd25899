//! Tests for the state engine: block reconciliation, snapshots, the L2
//! projection and the error kinds.

use l4_book::book::CoinBook;
use l4_book::errors::BookError;
use l4_book::multi_book::Snapshots;
use l4_book::node_data::{
    Batch, EventSource, NodeDataOrderDiff, NodeDataOrderStatus, OrderDiff, RawL4Order,
};
use l4_book::order::UserAddr;
use l4_book::state::OrderBookState;
use l4_book::types::{Coin, Side, Sz};

fn raw_order(oid: u64, coin: &str, side: Side, px: &str, sz: &str, tif: &str) -> RawL4Order {
    RawL4Order {
        user: UserAddr::new([0x11; 20]),
        coin: Coin::new(coin),
        side,
        limit_px: px.to_string(),
        sz: sz.to_string(),
        oid,
        timestamp: 5,
        trigger_condition: "N/A".to_string(),
        is_trigger: false,
        trigger_px: "0.0".to_string(),
        is_position_tpsl: false,
        reduce_only: false,
        order_type: "Limit".to_string(),
        tif: Some(tif.to_string()),
        cloid: None,
    }
}

fn open_status(oid: u64, coin: &str, side: Side, px: &str, sz: &str, tif: &str) -> NodeDataOrderStatus {
    NodeDataOrderStatus {
        time: 999,
        user: UserAddr::new([0x11; 20]),
        status: "open".to_string(),
        order: raw_order(oid, coin, side, px, sz, tif),
    }
}

fn diff(user: [u8; 20], oid: u64, coin: &str, side: Side, px: &str, d: OrderDiff) -> NodeDataOrderDiff {
    NodeDataOrderDiff { user: UserAddr::new(user), oid, side, px: px.to_string(), coin: Coin::new(coin), raw_book_diff: d }
}

fn batch<E>(h: u64, t: u64, events: Vec<E>) -> Batch<E> {
    Batch { local_time: 0, block_time: t, block_number: h, events }
}

fn empty_engine(h: u64, t: u64, ignore_spot: bool) -> OrderBookState {
    OrderBookState::from_snapshot(Snapshots { books: Vec::new() }, h, t, false, ignore_spot)
}

fn find_book<'a>(books: &'a [CoinBook], coin: &str) -> Option<&'a CoinBook> {
    books.iter().find(|b| b.coin.value() == coin)
}

#[test]
fn empty_to_single_new() {
    let mut e = empty_engine(10, 1000, true);
    let statuses = batch(11, 1000, vec![open_status(1, "BTC", Side::Bid, "10", "1", "Gtc")]);
    let diffs = batch(11, 1000, vec![diff([0x11; 20], 1, "BTC", Side::Bid, "10", OrderDiff::New { sz: Sz::new(100_000_000) })]);
    assert_eq!(e.apply_updates(statuses, diffs), Ok(()));
    assert_eq!(e.height(), 11);
    let snap = e.compute_snapshot();
    assert_eq!(snap.height, 11);
    assert_eq!(snap.time, 1000);
    let b = find_book(&snap.snapshot.books, "BTC").unwrap();
    assert_eq!(b.bids.len(), 1);
    assert_eq!(b.asks.len(), 0);
    let o = &b.bids[0];
    assert_eq!(o.oid, 1);
    assert_eq!(o.limit_px.value(), 1_000_000_000);
    assert_eq!(o.sz.value(), 100_000_000);
    assert_eq!(o.timestamp, 1000);
}

#[test]
fn ioc_rejection() {
    let mut e = empty_engine(10, 1000, true);
    let statuses = batch(11, 1000, vec![open_status(1, "BTC", Side::Bid, "10", "1", "Ioc")]);
    let diffs = batch(11, 1000, vec![diff([0x11; 20], 1, "BTC", Side::Bid, "10", OrderDiff::New { sz: Sz::new(100_000_000) })]);
    assert_eq!(e.apply_updates(statuses, diffs), Err(BookError::OrphanNew));
    // the failed apply leaves the engine in its pre-apply state
    assert_eq!(e.height(), 10);
    assert_eq!(e.compute_snapshot().snapshot.books.len(), 0);
}

#[test]
fn special_address_synthesis() {
    let mut e = empty_engine(10, 1000, true);
    let statuses = batch(11, 2000, Vec::new());
    let diffs = batch(11, 2000, vec![diff([0xFE; 20], 7, "ETH", Side::Bid, "3000", OrderDiff::New { sz: Sz::new(100_000_000) })]);
    assert_eq!(e.apply_updates(statuses, diffs), Ok(()));
    let snap = e.compute_snapshot();
    let b = find_book(&snap.snapshot.books, "ETH").unwrap();
    assert_eq!(b.bids.len(), 1);
    let o = &b.bids[0];
    assert_eq!(o.oid, 7);
    assert_eq!(o.limit_px.value(), 300_000_000_000);
    assert_eq!(o.order_type, "Limit");
    assert_eq!(o.tif.as_deref(), Some("Alo"));
    assert!(!o.is_trigger);
    assert_eq!(o.timestamp, 2000);
}

#[test]
fn hip2_address_also_synthesizes() {
    let mut e = empty_engine(0, 0, true);
    let diffs = batch(1, 50, vec![diff([0xFF; 20], 9, "ETH", Side::Ask, "1.5", OrderDiff::New { sz: Sz::new(5) })]);
    assert_eq!(e.apply_updates(batch(1, 50, Vec::new()), diffs), Ok(()));
    let snap = e.compute_snapshot();
    let b = find_book(&snap.snapshot.books, "ETH").unwrap();
    assert_eq!(b.asks[0].limit_px.value(), 150_000_000);
}

#[test]
fn spot_ignored() {
    for coin in ["@123", "PURR/USDC"] {
        let mut e = empty_engine(10, 1000, true);
        let statuses = batch(11, 1000, Vec::new());
        // no status and not a special address: would be OrphanNew if not skipped
        let diffs = batch(11, 1000, vec![diff([0x22; 20], 3, coin, Side::Bid, "1", OrderDiff::New { sz: Sz::new(5) })]);
        assert_eq!(e.apply_updates(statuses, diffs), Ok(()));
        assert_eq!(e.height(), 11);
        assert_eq!(e.compute_snapshot().snapshot.books.len(), 0);
    }
}

#[test]
fn spot_kept_when_not_ignored() {
    let mut e = empty_engine(10, 1000, false);
    let diffs = batch(11, 1000, vec![diff([0xFE; 20], 3, "@123", Side::Bid, "1", OrderDiff::New { sz: Sz::new(5) })]);
    assert_eq!(e.apply_updates(batch(11, 1000, Vec::new()), diffs), Ok(()));
    assert!(find_book(&e.compute_snapshot().snapshot.books, "@123").is_some());
}

#[test]
fn update_then_remove() {
    let mut e = empty_engine(10, 1000, true);
    let statuses = batch(11, 1000, vec![open_status(1, "BTC", Side::Bid, "10", "1", "Gtc")]);
    let diffs = batch(11, 1000, vec![diff([0x11; 20], 1, "BTC", Side::Bid, "10", OrderDiff::New { sz: Sz::new(100_000_000) })]);
    assert_eq!(e.apply_updates(statuses, diffs), Ok(()));
    let diffs = batch(12, 1100, vec![diff([0x11; 20], 1, "BTC", Side::Bid, "10", OrderDiff::Update { new_sz: Sz::new(50_000_000) })]);
    assert_eq!(e.apply_updates(batch(12, 1100, Vec::new()), diffs), Ok(()));
    {
        let snap = e.compute_snapshot();
        let b = find_book(&snap.snapshot.books, "BTC").unwrap();
        assert_eq!(b.bids[0].sz.value(), 50_000_000);
    }
    let diffs = batch(13, 1200, vec![diff([0x11; 20], 1, "BTC", Side::Bid, "10", OrderDiff::Remove)]);
    assert_eq!(e.apply_updates(batch(13, 1200, Vec::new()), diffs), Ok(()));
    let snap = e.compute_snapshot();
    let b = find_book(&snap.snapshot.books, "BTC").unwrap();
    assert!(b.bids.is_empty());
    assert_eq!(e.height(), 13);
}

#[test]
fn zero_size_update_keeps_order() {
    let mut e = empty_engine(10, 1000, true);
    let diffs = batch(11, 1000, vec![diff([0xFE; 20], 1, "BTC", Side::Bid, "10", OrderDiff::New { sz: Sz::new(7) })]);
    assert_eq!(e.apply_updates(batch(11, 1000, Vec::new()), diffs), Ok(()));
    let diffs = batch(12, 1100, vec![diff([0xFE; 20], 1, "BTC", Side::Bid, "10", OrderDiff::Update { new_sz: Sz::new(0) })]);
    assert_eq!(e.apply_updates(batch(12, 1100, Vec::new()), diffs), Ok(()));
    let snap = e.compute_snapshot();
    let b = find_book(&snap.snapshot.books, "BTC").unwrap();
    assert_eq!(b.bids.len(), 1);
    assert_eq!(b.bids[0].sz.value(), 0);
}

#[test]
fn block_gap() {
    let mut e = empty_engine(10, 1000, true);
    let statuses = batch(12, 1000, Vec::new());
    let diffs = batch(12, 1000, Vec::new());
    assert_eq!(e.apply_updates(statuses, diffs), Err(BookError::BlockGap));
    assert_eq!(e.height(), 10);
}

#[test]
fn replay_tolerance() {
    let mut e = empty_engine(10, 1000, true);
    // a replayed block succeeds and mutates nothing, even with a diff that
    // would otherwise fail
    let diffs = batch(9, 900, vec![diff([0x22; 20], 5, "BTC", Side::Bid, "1", OrderDiff::Remove)]);
    assert_eq!(e.apply_updates(batch(9, 900, Vec::new()), diffs), Ok(()));
    assert_eq!(e.height(), 10);
    assert_eq!(e.compute_snapshot().time, 1000);
}

#[test]
fn block_mismatch() {
    let mut e = empty_engine(10, 1000, true);
    let statuses = batch(11, 1000, Vec::new());
    let diffs = batch(12, 1000, Vec::new());
    assert_eq!(e.apply_updates(statuses, diffs), Err(BookError::BlockMismatch));
    assert_eq!(e.height(), 10);
}

#[test]
fn duplicate_oid() {
    let mut e = empty_engine(10, 1000, true);
    let diffs = batch(
        11,
        1000,
        vec![
            diff([0xFE; 20], 7, "ETH", Side::Bid, "1", OrderDiff::New { sz: Sz::new(5) }),
            diff([0xFE; 20], 7, "ETH", Side::Ask, "2", OrderDiff::New { sz: Sz::new(5) }),
        ],
    );
    assert_eq!(e.apply_updates(batch(11, 1000, Vec::new()), diffs), Err(BookError::DuplicateOid));
    // atomic: the first diff's insertion was rolled back with the block
    assert_eq!(e.compute_snapshot().snapshot.books.len(), 0);
}

#[test]
fn orphan_update_and_remove() {
    let mut e = empty_engine(10, 1000, true);
    let diffs = batch(11, 1000, vec![diff([0x22; 20], 5, "BTC", Side::Bid, "1", OrderDiff::Update { new_sz: Sz::new(5) })]);
    assert_eq!(e.apply_updates(batch(11, 1000, Vec::new()), diffs), Err(BookError::OrphanUpdate));
    let diffs = batch(11, 1000, vec![diff([0x22; 20], 5, "BTC", Side::Bid, "1", OrderDiff::Remove)]);
    assert_eq!(e.apply_updates(batch(11, 1000, Vec::new()), diffs), Err(BookError::OrphanRemove));
    assert_eq!(e.height(), 10);
}

#[test]
fn parse_error_from_bad_status_price() {
    let mut e = empty_engine(10, 1000, true);
    let statuses = batch(11, 1000, vec![open_status(1, "BTC", Side::Bid, "oops", "1", "Gtc")]);
    let diffs = batch(11, 1000, vec![diff([0x11; 20], 1, "BTC", Side::Bid, "10", OrderDiff::New { sz: Sz::new(5) })]);
    assert_eq!(e.apply_updates(statuses, diffs), Err(BookError::ParseError));
}

#[test]
fn l2_snapshot_aggregates_levels() {
    let mut e = empty_engine(0, 0, true);
    // three bids on two price levels, one ask
    let diffs = batch(
        1,
        10,
        vec![
            diff([0xFE; 20], 1, "BTC", Side::Bid, "10", OrderDiff::New { sz: Sz::new(100) }),
            diff([0xFE; 20], 2, "BTC", Side::Bid, "10", OrderDiff::New { sz: Sz::new(50) }),
            diff([0xFE; 20], 3, "BTC", Side::Bid, "9", OrderDiff::New { sz: Sz::new(25) }),
            diff([0xFE; 20], 4, "BTC", Side::Ask, "11", OrderDiff::New { sz: Sz::new(75) }),
        ],
    );
    assert_eq!(e.apply_updates(batch(1, 10, Vec::new()), diffs), Ok(()));
    let (t, snaps) = e.l2_snapshots(false, 10).unwrap();
    assert_eq!(t, 10);
    assert_eq!(snaps.len(), 1);
    let s = &snaps[0];
    assert_eq!(s.coin.value(), "BTC");
    assert_eq!(s.bids.len(), 2);
    // bids descending: level 10 first (summed), then level 9
    assert_eq!(s.bids[0].px.value(), 1_000_000_000);
    assert_eq!(s.bids[0].total_sz, 150);
    assert_eq!(s.bids[0].num_orders, 2);
    assert_eq!(s.bids[1].px.value(), 900_000_000);
    assert_eq!(s.bids[1].num_orders, 1);
    assert_eq!(s.asks.len(), 1);
    assert_eq!(s.asks[0].total_sz, 75);
}

#[test]
fn l2_snapshot_depth_truncation() {
    let mut e = empty_engine(0, 0, true);
    let diffs = batch(
        1,
        10,
        vec![
            diff([0xFE; 20], 1, "BTC", Side::Bid, "10", OrderDiff::New { sz: Sz::new(1) }),
            diff([0xFE; 20], 2, "BTC", Side::Bid, "9", OrderDiff::New { sz: Sz::new(1) }),
            diff([0xFE; 20], 3, "BTC", Side::Bid, "8", OrderDiff::New { sz: Sz::new(1) }),
        ],
    );
    assert_eq!(e.apply_updates(batch(1, 10, Vec::new()), diffs), Ok(()));
    let (_, snaps) = e.l2_snapshots(false, 2).unwrap();
    assert_eq!(snaps[0].bids.len(), 2);
    assert_eq!(snaps[0].bids[0].px.value(), 1_000_000_000);
    assert_eq!(snaps[0].bids[1].px.value(), 900_000_000);
}

#[test]
fn l2_snapshots_deduplicate_per_block() {
    let mut e = empty_engine(10, 1000, true);
    // prevent_future_snaps = true: at most one frame per (height, time)
    assert!(e.l2_snapshots(true, 10).is_some());
    assert!(e.l2_snapshots(true, 10).is_none());
    assert!(e.l2_snapshots(false, 10).is_none());
    // a successful apply clears `snapped`
    assert_eq!(e.apply_updates(batch(11, 1100, Vec::new()), batch(11, 1100, Vec::new())), Ok(()));
    assert!(e.l2_snapshots(true, 10).is_some());
}

#[test]
fn l2_snapshots_every_block_mode() {
    let mut e = empty_engine(10, 1000, true);
    // prevent_future_snaps = false: unlimited emissions
    assert!(e.l2_snapshots(false, 10).is_some());
    assert!(e.l2_snapshots(false, 10).is_some());
}

#[test]
fn snapshot_round_trip() {
    let mut e = empty_engine(0, 0, true);
    let diffs = batch(
        1,
        10,
        vec![
            diff([0xFE; 20], 1, "BTC", Side::Bid, "10", OrderDiff::New { sz: Sz::new(100) }),
            diff([0xFE; 20], 2, "BTC", Side::Bid, "10", OrderDiff::New { sz: Sz::new(50) }),
            diff([0xFE; 20], 3, "ETH", Side::Ask, "3000", OrderDiff::New { sz: Sz::new(25) }),
        ],
    );
    assert_eq!(e.apply_updates(batch(1, 10, Vec::new()), diffs), Ok(()));
    let snap = e.compute_snapshot();
    let e2 = OrderBookState::from_snapshot(snap.snapshot, snap.height, snap.time, false, true);
    assert_eq!(e2.height(), e.height());
    let s1 = e.compute_snapshot().snapshot.books;
    let s2 = e2.compute_snapshot().snapshot.books;
    assert_eq!(s1.len(), s2.len());
    for (b1, b2) in s1.iter().zip(s2.iter()) {
        assert_eq!(b1.coin.value(), b2.coin.value());
        assert_eq!(b1.bids.len(), b2.bids.len());
        assert_eq!(b1.asks.len(), b2.asks.len());
        for (o1, o2) in b1.bids.iter().zip(b2.bids.iter()).chain(b1.asks.iter().zip(b2.asks.iter())) {
            assert_eq!(o1.oid, o2.oid);
            assert_eq!(o1.limit_px, o2.limit_px);
            assert_eq!(o1.sz, o2.sz);
            assert_eq!(o1.timestamp, o2.timestamp);
        }
    }
}

#[test]
fn fifo_order_within_price_level() {
    let mut e = empty_engine(0, 0, true);
    let diffs = batch(
        1,
        10,
        vec![
            diff([0xFE; 20], 1, "BTC", Side::Bid, "10", OrderDiff::New { sz: Sz::new(1) }),
            diff([0xFE; 20], 2, "BTC", Side::Bid, "11", OrderDiff::New { sz: Sz::new(2) }),
            diff([0xFE; 20], 3, "BTC", Side::Bid, "10", OrderDiff::New { sz: Sz::new(3) }),
        ],
    );
    assert_eq!(e.apply_updates(batch(1, 10, Vec::new()), diffs), Ok(()));
    let snap = e.compute_snapshot();
    let b = find_book(&snap.snapshot.books, "BTC").unwrap();
    // descending prices, FIFO within the level at 10
    let oids: Vec<u64> = b.bids.iter().map(|o| o.oid).collect();
    assert_eq!(oids, vec![2, 1, 3]);
}

#[test]
fn compute_universe_lists_coins() {
    let mut e = empty_engine(0, 0, true);
    let diffs = batch(
        1,
        10,
        vec![
            diff([0xFE; 20], 1, "BTC", Side::Bid, "10", OrderDiff::New { sz: Sz::new(1) }),
            diff([0xFE; 20], 2, "ETH", Side::Bid, "10", OrderDiff::New { sz: Sz::new(1) }),
        ],
    );
    assert_eq!(e.apply_updates(batch(1, 10, Vec::new()), diffs), Ok(()));
    let coins: Vec<String> = e.compute_universe().iter().map(|c| c.value()).collect();
    assert_eq!(coins, vec!["BTC".to_string(), "ETH".to_string()]);
}

#[test]
fn event_source_dirs() {
    assert_eq!(EventSource::Fills.event_source_dir("/root"), "/root/hl/data/node_fills_by_block");
    assert_eq!(
        EventSource::OrderStatuses.event_source_dir("/root"),
        "/root/hl/data/node_order_statuses_by_block"
    );
    assert_eq!(
        EventSource::OrderDiffs.event_source_dir("/root"),
        "/root/hl/data/node_raw_book_diffs_by_block"
    );
}

#[test]
fn triggered_status_inserts_trigger_order() {
    let mut e = empty_engine(10, 1000, true);
    let mut st = open_status(1, "BTC", Side::Bid, "10", "1", "Gtc");
    st.status = "triggered".to_string();
    st.order.is_trigger = true;
    let statuses = batch(11, 1000, vec![st]);
    let diffs = batch(11, 1000, vec![diff([0x11; 20], 1, "BTC", Side::Bid, "10", OrderDiff::New { sz: Sz::new(4) })]);
    assert_eq!(e.apply_updates(statuses, diffs), Ok(()));
    let snap = e.compute_snapshot();
    let b = find_book(&snap.snapshot.books, "BTC").unwrap();
    assert!(b.bids[0].is_trigger);
    assert_eq!(b.bids[0].timestamp, 1000);
}

#[test]
fn import_filters_triggers() {
    let mut e = empty_engine(10, 1000, true);
    let mut st = open_status(1, "BTC", Side::Bid, "10", "1", "Gtc");
    st.status = "triggered".to_string();
    st.order.is_trigger = true;
    let statuses = batch(11, 1000, vec![st, open_status(2, "BTC", Side::Bid, "9", "1", "Gtc")]);
    let diffs = batch(
        11,
        1000,
        vec![
            diff([0x11; 20], 1, "BTC", Side::Bid, "10", OrderDiff::New { sz: Sz::new(4) }),
            diff([0x11; 20], 2, "BTC", Side::Bid, "9", OrderDiff::New { sz: Sz::new(4) }),
        ],
    );
    assert_eq!(e.apply_updates(statuses, diffs), Ok(()));
    let snap = e.compute_snapshot();
    let e2 = OrderBookState::from_snapshot(snap.snapshot, snap.height, snap.time, true, true);
    let b2 = e2.compute_snapshot();
    let b = find_book(&b2.snapshot.books, "BTC").unwrap();
    assert_eq!(b.bids.len(), 1);
    assert_eq!(b.bids[0].oid, 2);
}
