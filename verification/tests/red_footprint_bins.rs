//! Per-price footprint bins.
use hft_research::market::Side;
use hft_research::orderflow::{footprint_bins, FootprintBar, PriceBin};

fn tr(ts: i64, price: i64, side: Side, size: i64) -> (i64, i64, Side, i64) {
    (ts, price, side, size)
}

fn bin(bar: &FootprintBar, price: i64) -> Option<&PriceBin> {
    bar.bins.iter().find(|b| b.price == price)
}

#[test]
fn footprint_bins_is_deterministic() {
    let trades = vec![tr(100, 65000, Side::Buy, 5), tr(200, 65010, Side::Sell, 3)];
    assert_eq!(
        footprint_bins(&trades, 1000),
        footprint_bins(&trades, 1000),
        "footprint_bins недетерминирована"
    );
}

#[test]
fn distinct_prices_produce_distinct_bins() {
    let trades = vec![tr(100, 65000, Side::Buy, 5), tr(200, 65010, Side::Sell, 3)];
    let bars = footprint_bins(&trades, 1000);
    assert_eq!(bars.len(), 1, "один бакет таймфрейма → один FootprintBar");
    assert_eq!(
        bars[0].bins.len(),
        2,
        "две РАЗНЫЕ цены (65000, 65010) дали {} bins — цены слиты (footprint без per-price = не footprint)",
        bars[0].bins.len()
    );
    let b0 = bin(&bars[0], 65000).expect("bin 65000 отсутствует");
    let b1 = bin(&bars[0], 65010).expect("bin 65010 отсутствует");
    assert_eq!(
        (b0.buy_vol, b0.sell_vol, b0.delta),
        (5, 0, 5),
        "bin 65000: buy=5 sell=0 delta=5"
    );
    assert_eq!(
        (b1.buy_vol, b1.sell_vol, b1.delta),
        (0, 3, -3),
        "bin 65010: buy=0 sell=3 delta=-3"
    );
}

#[test]
fn same_price_separates_buy_and_sell() {
    let trades = vec![tr(100, 65000, Side::Buy, 5), tr(500, 65000, Side::Sell, 2)];
    let bars = footprint_bins(&trades, 1000);
    assert_eq!(bars[0].bins.len(), 1, "одна цена → один bin");
    let b = bin(&bars[0], 65000).unwrap();
    assert_eq!(
        (b.buy_vol, b.sell_vol, b.delta),
        (5, 2, 3),
        "bin 65000: buy=5, sell=2, delta=+3. Получено (buy={}, sell={}, delta={}) — стороны \
         перепутаны/не разделены или delta≠buy−sell",
        b.buy_vol,
        b.sell_vol,
        b.delta
    );
}

#[test]
fn bins_are_bucketed_by_timeframe() {
    let trades = vec![tr(100, 65000, Side::Buy, 5), tr(1500, 65000, Side::Sell, 4)];
    let bars = footprint_bins(&trades, 1000);
    assert_eq!(bars.len(), 2, "2 бакета → 2 FootprintBar");
    assert_eq!(bars[0].time_s, 0);
    assert_eq!(bars[1].time_s, 1);
    assert_eq!(
        bin(&bars[0], 65000).unwrap().delta,
        5,
        "бар0: только buy 5 → delta +5"
    );
    assert_eq!(
        bin(&bars[1], 65000).unwrap().delta,
        -4,
        "бар1: только sell 4 → delta −4"
    );
}

#[test]
fn red_footprint_bins_empty_trades_yield_no_bars() {
    let empty: Vec<(i64, i64, Side, i64)> = Vec::new();
    assert!(footprint_bins(&empty, 1000).is_empty());
}
