//! The OBI signal's book and depths, and the registry's entry checks.
use hft_research::market::{Event, EventKind, Level, MdEvent, MdPayload, Side, SysEvent, Venue};
use hft_research::obi::{ObiBook, ObiMode, ObiParams};
use hft_research::signals::{check_entry, SignalError, SignalModule};
use hft_research::sim::book::OrderBook;

const E8: i64 = 100_000_000;

fn snap(seq: u64, symbol: &str, bids: &[(i64, i64)], asks: &[(i64, i64)]) -> Event {
    let lv = |v: &[(i64, i64)]| v.iter().map(|&(price, size)| Level { price, size }).collect::<Vec<_>>();
    Event {
        seq,
        ts_mono_ns: seq * 1_000,
        ts_wall_ms: seq as i64,
        kind: EventKind::Md(MdEvent {
            venue: Venue::Binance,
            symbol: symbol.into(),
            payload: MdPayload::L2Snapshot { bids: lv(bids), asks: lv(asks), ts_exch_ms: seq as i64 },
        }),
    }
}

fn params(mode: ObiMode) -> ObiParams {
    ObiParams { mode, theta_e8: 10_000_000, horizon_ms: 1_000, venue: Venue::Binance, symbol: "BTCUSDT".into() }
}

#[test]
fn top_n_depth_sums_the_best_levels() {
    let mut b = OrderBook::new();
    b.apply_snapshot(
        &[Level { price: 99, size: 3 }, Level { price: 100, size: 5 }, Level { price: 98, size: 7 }],
        &[Level { price: 101, size: 2 }],
    );
    assert_eq!(b.top_n_depth(Side::Buy, 0), 0);
    assert_eq!(b.top_n_depth(Side::Buy, 1), 5);
    assert_eq!(b.top_n_depth(Side::Buy, 2), 8);
    assert_eq!(b.top_n_depth(Side::Buy, 10), 15);
    assert_eq!(b.top_n_depth(Side::Sell, 10), 2);
    let mut big = OrderBook::new();
    big.apply_snapshot(&[Level { price: 1, size: i64::MAX }, Level { price: 2, size: i64::MAX }], &[]);
    assert_eq!(big.top_n_depth(Side::Buy, 2), i64::MAX);
}

#[test]
fn obi_book_reads_only_its_instruments_snapshots() {
    let mut ob = ObiBook::new(&params(ObiMode::TopN { n_levels: 2 }));
    assert_eq!(ob.observe(&snap(1, "ETHUSDT", &[(10, 1)], &[(11, 1)])), None);
    let sys = Event { seq: 2, ts_mono_ns: 2, ts_wall_ms: 2, kind: EventKind::Sys(SysEvent::ConnDown(Venue::Binance)) };
    assert_eq!(ob.observe(&sys), None);
    let r = ob.observe(&snap(3, "BTCUSDT", &[(100, 5 * E8), (99, 3 * E8), (98, 9 * E8)], &[(101, E8)]));
    assert_eq!(r, Some((8 * E8, E8)));
    assert_eq!(ob.book.levels(Side::Buy), vec![(100, 5 * E8), (99, 3 * E8), (98, 9 * E8)]);
    assert_eq!(ob.observe(&snap(4, "BTCUSDT", &[], &[])), None, "both sides empty: no opinion");
    assert!(ob.book.levels(Side::Buy).is_empty(), "the empty snapshot still replaces the book");
}

#[test]
fn obi_book_bands_measure_depth_around_the_mid() {
    let mid = 100_000 * E8;
    let mut ob = ObiBook::new(&params(ObiMode::Bands { d_bid_e8: 300_000, d_ask_e8: 100_000 }));
    let bids = [(mid - mid / 1000, 2 * E8), (mid - mid / 100, 7 * E8)];
    let asks = [(mid + mid / 1000, 4 * E8), (mid + 2 * mid / 1000, 6 * E8)];
    assert_eq!(ob.observe(&snap(1, "BTCUSDT", &bids, &asks)), Some((2 * E8, 4 * E8)));
}

#[test]
fn registry_entry_checks_in_order() {
    let ok = check_entry("S-001-obi-asym", "obi", "abc", "abc").unwrap();
    assert_eq!(ok.0.as_str(), "S-001-obi-asym");
    assert_eq!(ok.1, SignalModule::Obi);
    match check_entry("bad", "nope", "abc", "abd") {
        Err(SignalError::CodeHashMismatch { signal_id, expected, actual }) => {
            assert_eq!((signal_id.as_str(), expected.as_str(), actual.as_str()), ("bad", "abc", "abd"));
        }
        other => panic!("expected a code hash mismatch, got {other:?}"),
    }
    assert!(matches!(check_entry("bad", "nope", "h", "h"), Err(SignalError::InvalidParams(_))));
    match check_entry("S-002-mom", "momentum", "h", "h") {
        Err(SignalError::UnknownModule(m)) => assert_eq!(m, "momentum"),
        other => panic!("expected an unknown module, got {other:?}"),
    }
}
