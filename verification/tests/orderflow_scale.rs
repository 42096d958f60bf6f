//! Long trade streams: the consistency analysis makes one forward pass with bounded work
//! per event, so streams of this size finish well inside the time budget of a test.
use hft_research::market::{Level, Side};
use hft_research::orderflow::{consistency, FaithEvent};

const UNIT: i64 = 100_000_000;
const BASE: i64 = 64_000 * UNIT;
const TICK: i64 = 100_000;

/// Per step: set a bid level, a sell trade at it, then the level's decrement; the price
/// cycles over 500 levels. `n` steps give `3 * n` events.
fn synth(n: usize) -> Vec<FaithEvent> {
    let mut ev = Vec::with_capacity(3 * n);
    for i in 0..n {
        let ts = i as i64;
        let price = BASE + ((i % 500) as i64) * TICK;
        ev.push(FaithEvent::Delta {
            ts_ms: ts,
            bids: vec![Level { price, size: 100 * UNIT }],
            asks: vec![],
        });
        ev.push(FaithEvent::Trade {
            ts_ms: ts,
            price,
            side: Side::Sell,
            size: (1 + (i % 5) as i64) * UNIT,
        });
        ev.push(FaithEvent::Delta {
            ts_ms: ts + 1,
            bids: vec![Level { price, size: 50 * UNIT }],
            asks: vec![],
        });
    }
    ev
}

#[test]
fn dv_i_7_prodscale_consistency_is_bounded() {
    let events = synth(150_000);
    let r = consistency(&events, 1_000);
    assert_eq!(r.checked, 150_000, "проверены все сделки (single-pass прошёл)");
}

#[test]
fn dv_i_8_prodscale_consistency_bounded() {
    let mid: i64 = 64_000 * UNIT;
    let n = 400_000usize;
    let mut ev = Vec::with_capacity(3 * n);
    for i in 0..n {
        let price = mid - (i as i64) * 100;
        ev.push(FaithEvent::Delta {
            ts_ms: i as i64,
            bids: vec![Level { price, size: 100 * UNIT }],
            asks: vec![],
        });
        ev.push(FaithEvent::Trade { ts_ms: i as i64, price, side: Side::Sell, size: UNIT });
        ev.push(FaithEvent::Delta {
            ts_ms: i as i64 + 1,
            bids: vec![Level { price, size: 50 * UNIT }],
            asks: vec![],
        });
    }
    let r = consistency(&ev, 1_000);
    assert_eq!(r.checked, 400_000);
}
