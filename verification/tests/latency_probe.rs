//! Market-data delay samples and their thinning.
use hft_research::market::{Event, EventKind, Level, MdEvent, MdPayload, Side, SysEvent, Venue};
use hft_research::probe::{
    group_readings, probe_reading, sample_fits, sort_samples, subsample_uniform, venue_str, ProbeReading, MAX_MD_SAMPLES,
};

fn md(wall: i64, payload: MdPayload) -> Event {
    Event {
        seq: 1,
        ts_mono_ns: 1,
        ts_wall_ms: wall,
        kind: EventKind::Md(MdEvent { venue: Venue::Binance, symbol: "BTCUSDT".into(), payload }),
    }
}

#[test]
fn delay_is_wall_minus_exchange_clamped_in_ns() {
    let t = md(1_000, MdPayload::Trade { price: 1, size: 1, side: Side::Buy, ts_exch_ms: 990 });
    assert!(sample_fits(&t));
    assert_eq!(probe_reading(&t), ProbeReading::Delay(10_000_000));
    let skew = md(1_000, MdPayload::L2Snapshot { bids: vec![Level { price: 1, size: 1 }], asks: vec![], ts_exch_ms: 1_500 });
    assert_eq!(probe_reading(&skew), ProbeReading::Delay(0));
    let funding = md(2_000, MdPayload::Funding { rate_e8: 1, mark_price_e8: 1, ts_exch_ms: 1_999 });
    assert_eq!(probe_reading(&funding), ProbeReading::Delay(1_000_000));
}

#[test]
fn missing_stamps_and_other_events_are_not_samples() {
    let t = md(1_000, MdPayload::Trade { price: 1, size: 1, side: Side::Sell, ts_exch_ms: 0 });
    assert_eq!(probe_reading(&t), ProbeReading::MissingStamp(0));
    let s = md(1_000, MdPayload::L2Snapshot { bids: vec![], asks: vec![], ts_exch_ms: -5 });
    assert_eq!(probe_reading(&s), ProbeReading::MissingStamp(1));
    let oi = md(1_000, MdPayload::OpenInterest { oi_e8: 1, ts_exch_ms: 10 });
    assert_eq!(probe_reading(&oi), ProbeReading::NotSampled);
    let sys = Event { seq: 2, ts_mono_ns: 2, ts_wall_ms: 5, kind: EventKind::Sys(SysEvent::ConnUp(Venue::Binance)) };
    assert_eq!(probe_reading(&sys), ProbeReading::NotSampled);
}

#[test]
fn overflowing_delay_does_not_fit() {
    let t = md(i64::MAX, MdPayload::Trade { price: 1, size: 1, side: Side::Buy, ts_exch_ms: 1 });
    assert!(!sample_fits(&t));
}

#[test]
fn thinning_keeps_few_samples_and_spreads_many() {
    let few: Vec<u64> = (0..10).collect();
    assert_eq!(subsample_uniform(few.clone()), few);
    let exactly: Vec<u64> = (0..MAX_MD_SAMPLES as u64).collect();
    assert_eq!(subsample_uniform(exactly.clone()), exactly);
    let many: Vec<u64> = (0..10_000u64).collect();
    let thin = subsample_uniform(many);
    assert_eq!(thin.len(), MAX_MD_SAMPLES);
    assert_eq!(thin[0], 0);
    assert_eq!(thin[1], 2);
    assert_eq!(thin[4_999], 9_998);
    let odd: Vec<u64> = (0..7_501u64).map(|x| x * 3).collect();
    let thin = subsample_uniform(odd);
    assert_eq!(thin[3], 3 * (3 * 7_501 / 5_000));
}

#[test]
fn venue_names_of_the_artifacts() {
    assert_eq!(venue_str(Venue::Binance), "Binance");
    assert_eq!(venue_str(Venue::Hyperliquid), "Hyperliquid");
    assert_eq!(venue_str(Venue::BinanceFutures), "BinanceFutures");
}

fn md_on(venue: Venue, symbol: &str, wall: i64, payload: MdPayload) -> Event {
    Event {
        seq: 1,
        ts_mono_ns: 1,
        ts_wall_ms: wall,
        kind: EventKind::Md(MdEvent { venue, symbol: symbol.into(), payload }),
    }
}

#[test]
fn readings_group_by_instrument_in_name_order() {
    let trade = |ts: i64| MdPayload::Trade { price: 1, size: 1, side: Side::Buy, ts_exch_ms: ts };
    let events = vec![
        md_on(Venue::Hyperliquid, "BTC", 1_000, trade(998)),
        md_on(Venue::Binance, "ETHUSDT", 1_000, trade(999)),
        md_on(Venue::Binance, "BTCUSDT", 2_000, trade(1_995)),
        md_on(Venue::Binance, "ETHUSDT", 1_000, trade(0)),
        md_on(Venue::BinanceFutures, "BTCUSDT", 1_000, MdPayload::L2Snapshot { bids: vec![], asks: vec![], ts_exch_ms: 0 }),
        md_on(Venue::Binance, "BTCUSDT", 3_000, trade(2_999)),
        md_on(Venue::Binance, "BTCUSDT", 3_000, MdPayload::OpenInterest { oi_e8: 1, ts_exch_ms: 10 }),
        Event { seq: 2, ts_mono_ns: 2, ts_wall_ms: 5, kind: EventKind::Sys(SysEvent::ConnUp(Venue::Binance)) },
    ];
    let g = group_readings(&events);
    let keys: Vec<(Venue, String)> = g.iter().map(|r| (r.venue, r.symbol.clone())).collect();
    assert_eq!(
        keys,
        vec![
            (Venue::Binance, "BTCUSDT".to_string()),
            (Venue::Binance, "ETHUSDT".to_string()),
            (Venue::BinanceFutures, "BTCUSDT".to_string()),
            (Venue::Hyperliquid, "BTC".to_string()),
        ]
    );
    assert_eq!(g[0].delays, vec![5_000_000, 1_000_000]);
    assert_eq!(g[1].delays, vec![1_000_000]);
    assert_eq!(g[1].missing_trade, 1);
    assert!(g[2].delays.is_empty());
    assert_eq!(g[2].missing_snapshot, 1);
    assert_eq!(g[3].delays, vec![2_000_000]);
    assert_eq!(g[0].missing_trade + g[0].missing_snapshot + g[0].missing_funding, 0);
}

#[test]
fn samples_sort_ascending_keeping_duplicates() {
    assert_eq!(sort_samples(vec![5, 1, 4, 1, 9, 0]), vec![0, 1, 1, 4, 5, 9]);
    assert_eq!(sort_samples(vec![]), Vec::<u64>::new());
    let many: Vec<u64> = (0..2_000u64).rev().collect();
    let sorted = sort_samples(many);
    assert_eq!(sorted, (0..2_000u64).collect::<Vec<u64>>());
}
