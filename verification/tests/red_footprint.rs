//! Footprint delta and cumulative delta of aggressor volume.
use hft_research::market::Side;
use hft_research::orderflow::{cumulative_delta, footprint_delta};

fn tr(ts: i64, side: Side, size: i64) -> (i64, Side, i64) {
    (ts, side, size)
}

#[test]
fn footprint_delta_is_deterministic() {
    let trades = vec![tr(100, Side::Buy, 5), tr(200, Side::Sell, 2)];
    assert_eq!(
        footprint_delta(&trades, 1000),
        footprint_delta(&trades, 1000),
        "footprint_delta недетерминирована"
    );
}

#[test]
fn footprint_delta_is_signed_buy_minus_sell() {
    let trades = vec![
        tr(100, Side::Buy, 5),
        tr(300, Side::Sell, 2),
        tr(700, Side::Buy, 3),
    ];
    let fp = footprint_delta(&trades, 1000);
    assert_eq!(fp.len(), 1, "3 сделки в одном бакете 1000мс → 1 точка");
    assert_eq!(fp[0].0, 0, "bucket_start в секундах = 0");
    assert_eq!(
        fp[0].1, 6,
        "дельта = buy(8) − sell(2) = +6, получено {}. Либо сторона перепутана (buy↔sell), \
         либо |buy|+|sell|=10 вместо знаковой",
        fp[0].1
    );
}

#[test]
fn sell_heavy_bucket_is_negative() {
    let trades = vec![tr(100, Side::Buy, 1), tr(200, Side::Sell, 9)];
    let fp = footprint_delta(&trades, 1000);
    assert_eq!(
        fp[0].1, -8,
        "buy(1)−sell(9) = −8, получено {} — знак стороны неверен",
        fp[0].1
    );
}

#[test]
fn cumulative_delta_accumulates_across_buckets() {
    let trades = vec![
        tr(100, Side::Buy, 8),
        tr(200, Side::Sell, 2),
        tr(1500, Side::Sell, 4),
    ];
    let cd = cumulative_delta(&trades, 1000);
    assert_eq!(cd.len(), 2, "2 бакета → 2 точки");
    assert_eq!(cd[0], (0, 6), "бакет0 cum = +6");
    assert_eq!(
        cd[1],
        (1, 2),
        "бакет1 cum = +6 + (−4) = +2 (RUNNING), получено {:?}",
        cd[1]
    );
}

#[test]
fn cumulative_sign_follows_aggressor() {
    let buys = vec![tr(100, Side::Buy, 3), tr(1100, Side::Buy, 2)];
    let cd = cumulative_delta(&buys, 1000);
    assert_eq!(cd[0].1, 3);
    assert_eq!(
        cd[1].1, 5,
        "только покупки → cum растёт 3→5; получено {}",
        cd[1].1
    );
    let sells = vec![tr(100, Side::Sell, 3), tr(1100, Side::Sell, 2)];
    let cd2 = cumulative_delta(&sells, 1000);
    assert_eq!(
        cd2[1].1, -5,
        "только продажи → cum падает до −5; получено {}",
        cd2[1].1
    );
}

#[test]
fn empty_trades_yield_empty() {
    let empty: Vec<(i64, Side, i64)> = Vec::new();
    assert!(footprint_delta(&empty, 1000).is_empty());
    assert!(cumulative_delta(&empty, 1000).is_empty());
}

#[test]
fn one_sided_flow_moves_strictly() {
    let buys = vec![tr(100, Side::Buy, 2), tr(1_500, Side::Buy, 1), tr(1_700, Side::Buy, 4), tr(3_000, Side::Buy, 1)];
    let cum = cumulative_delta(&buys, 1_000);
    assert_eq!(cum, vec![(0, 2), (1, 7), (3, 8)]);
    let sells = vec![tr(100, Side::Sell, 3), tr(2_100, Side::Sell, 5)];
    let cum = cumulative_delta(&sells, 1_000);
    assert_eq!(cum, vec![(0, -3), (2, -8)]);
}

#[test]
fn cumulative_is_the_running_sum_of_the_footprint() {
    let trades = vec![tr(100, Side::Buy, 8), tr(200, Side::Sell, 2), tr(1500, Side::Sell, 4), tr(2100, Side::Buy, 7)];
    let fp = footprint_delta(&trades, 1000);
    let cum = cumulative_delta(&trades, 1000);
    assert_eq!(fp, vec![(0, 6), (1, -4), (2, 7)]);
    assert_eq!(cum.len(), fp.len());
    let mut total = 0;
    for (c, f) in cum.iter().zip(fp.iter()) {
        total += f.1;
        assert_eq!(c.0, f.0);
        assert_eq!(c.1, total);
    }
    assert_eq!(cumulative_delta(&vec![tr(100, Side::Buy, 8), tr(200, Side::Sell, 2), tr(1500, Side::Sell, 4)], 1000), vec![(0, 6), (1, 2)]);
}
