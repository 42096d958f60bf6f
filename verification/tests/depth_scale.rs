//! Large inputs: the lifetime analysis does bounded work per level, so a stream whose book
//! keeps growing finishes well inside the test's time budget.
use hft_research::depth_lifetime::{analyze, DeltaTick};
use hft_research::market::Level;

const UNIT: i64 = 100_000_000;
const MID: i64 = 64_000 * UNIT;

#[test]
fn dv_i_7_prodscale_analyze_bounded() {
    let n = 120_000usize;
    let near_bid = (MID as f64 * 0.9995) as i64;
    let near_ask = (MID as f64 * 1.0005) as i64;
    let mut ticks = Vec::with_capacity(n);
    for i in 0..n {
        let far = (MID as f64 * 0.95) as i64 - (i as i64) * 100;
        ticks.push(DeltaTick {
            bids: vec![Level { price: near_bid, size: 20 * UNIT }, Level { price: far, size: 10 * UNIT }],
            asks: vec![Level { price: near_ask, size: 20 * UNIT }],
            first_update_id: i as u64 + 1,
            final_update_id: i as u64 + 1,
            prev_final_update_id: None,
            ts_exch_ms: i as i64,
        });
    }
    let r = analyze(&ticks);
    assert_eq!(r.bands.len(), 14);
    let born: u64 = r.bands.iter().map(|b| b.lives_born).sum();
    assert_eq!(born, n as u64 + 2);
}
