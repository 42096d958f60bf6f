//! Depth time series per side and band: bid and ask apart, deeper bands holding the shallower
//! ones, one point per timeframe bucket with the last snapshot's depth.
use hft_research::depth_series::compute;
use hft_research::market::{Level, Side};
use hft_research::sim::book::OrderBook;

const UNIT: i64 = 100_000_000;
const MID: i64 = 65_000 * UNIT;
const B1: i64 = 100_000;
const B3: i64 = 300_000;
const B5: i64 = 500_000;

fn book(bids: &[(f64, i64)], asks: &[(f64, i64)]) -> OrderBook {
    let mut b = OrderBook::new();
    let bl: Vec<Level> = bids
        .iter()
        .map(|&(p, s)| Level {
            price: (MID as f64 * (1.0 - p)) as i64,
            size: s * UNIT,
        })
        .collect();
    let al: Vec<Level> = asks
        .iter()
        .map(|&(p, s)| Level {
            price: (MID as f64 * (1.0 + p)) as i64,
            size: s * UNIT,
        })
        .collect();
    b.apply_snapshot(&bl, &al);
    b
}

fn asym_book() -> OrderBook {
    book(
        &[(0.0005, 5), (0.002, 3), (0.004, 2)],
        &[(0.0005, 4), (0.002, 1), (0.004, 6)],
    )
}

#[test]
fn depth_series_is_deterministic() {
    let snaps = vec![(500, asym_book()), (1500, asym_book())];
    let a = compute(&snaps, Side::Buy, B3, 1000);
    let b = compute(&snaps, Side::Buy, B3, 1000);
    assert_eq!(a, b, "the same snapshots must give the same series");
}

#[test]
fn bid_and_ask_are_separate_not_summed() {
    let snaps = vec![(0, asym_book())];
    let bid = compute(&snaps, Side::Buy, B3, 1000);
    let ask = compute(&snaps, Side::Sell, B3, 1000);
    assert_eq!(bid.len(), 1);
    assert_eq!(ask.len(), 1);
    assert_ne!(bid[0].1, ask[0].1, "bid and ask depth agree on an asymmetric book");
    let bk = asym_book();
    assert_eq!(bid[0].1, bk.depth_within_e8(Side::Buy, B3));
    assert_eq!(ask[0].1, bk.depth_within_e8(Side::Sell, B3));
}

#[test]
fn deeper_band_includes_shallower() {
    let snaps = vec![(0, asym_book())];
    for side in [Side::Buy, Side::Sell] {
        let d1 = compute(&snaps, side, B1, 1000)[0].1;
        let d3 = compute(&snaps, side, B3, 1000)[0].1;
        let d5 = compute(&snaps, side, B5, 1000)[0].1;
        assert!(d5 >= d3 && d3 >= d1, "{side:?}: {d5} >= {d3} >= {d1} fails");
        assert!(d5 > d1, "{side:?}: the bands do not tell depth apart");
    }
}

#[test]
fn timeframe_bucketing_takes_last_per_bucket() {
    let heavy = book(&[(0.0005, 9), (0.002, 9)], &[(0.0005, 9)]);
    let light = book(&[(0.0005, 1), (0.002, 1)], &[(0.0005, 1)]);
    let snaps = vec![(100, heavy), (900, light.clone()), (1200, light.clone())];
    let series = compute(&snaps, Side::Buy, B3, 1000);
    assert_eq!(series.len(), 2, "three snapshots in two buckets");
    assert_eq!(series[0].0, 0);
    assert_eq!(series[1].0, 1);
    let light_bid = light.depth_within_e8(Side::Buy, B3);
    assert_eq!(series[0].1, light_bid, "a bucket takes its last snapshot's depth");
}

#[test]
fn empty_input_yields_empty_series() {
    let snaps: Vec<(i64, OrderBook)> = Vec::new();
    assert!(compute(&snaps, Side::Buy, B3, 1000).is_empty());
}

#[test]
fn exact_depths_of_the_asymmetric_book() {
    let snaps = vec![(0, asym_book())];
    assert_eq!(compute(&snaps, Side::Buy, B3, 1000), vec![(0, 8 * UNIT)]);
    assert_eq!(compute(&snaps, Side::Sell, B3, 1000), vec![(0, 5 * UNIT)]);
    assert_eq!(compute(&snaps, Side::Buy, B5, 1000), vec![(0, 10 * UNIT)]);
    assert_eq!(compute(&snaps, Side::Buy, B1, 1000), vec![(0, 5 * UNIT)]);
}

#[test]
fn non_positive_timeframe_gives_no_points() {
    let snaps = vec![(0, asym_book())];
    assert!(compute(&snaps, Side::Buy, B3, 0).is_empty());
    assert!(compute(&snaps, Side::Buy, B3, -5).is_empty());
}

#[test]
fn book_without_mid_has_no_depth() {
    let one_sided = book(&[(0.0005, 5)], &[]);
    assert_eq!(one_sided.depth_within_e8(Side::Buy, B5), 0);
    let snaps = vec![(2500, one_sided)];
    assert_eq!(compute(&snaps, Side::Buy, B5, 1000), vec![(2, 0)]);
}
