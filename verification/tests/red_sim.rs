//! Execution simulator: pessimistic queue, visible-book takers, deterministic replay,
//! latency from measured samples, fees from the schedule.
use hft_research::market::{Event, EventKind, Level, MdEvent, MdPayload, Side, Venue};
use hft_research::sim::book::OrderBook;
use hft_research::sim::exchange::BacktestExchange;
use hft_research::sim::fees::{FeeRates, FeeSchedule};
use hft_research::sim::fill_model;
use hft_research::sim::funding::funding_pnl_e8;
use hft_research::sim::latency::LatencyTable;
use hft_research::sim::rng::{SplitMix64, SPLITMIX_GAMMA};
use hft_research::sim::types::{
    FillDecision, OrderIntent, OrderKind, QueueState, SimError, SimFill, SimOrder, TradedTick,
};

fn to_fixed(x: f64) -> i64 {
    (x * 1e8).round() as i64
}

fn mk_order(price: f64, qty: f64, ahead: f64, submitted_seq: u64) -> SimOrder {
    SimOrder {
        id: 1,
        intent: OrderIntent {
            venue: Venue::Binance,
            symbol: "BTCUSDT".into(),
            side: Side::Buy,
            price: to_fixed(price),
            qty: to_fixed(qty),
            kind: OrderKind::Maker,
        },
        submitted_seq,
        effective_ts_mono_ns: 0,
        queue: QueueState {
            ahead: to_fixed(ahead),
            cum_traded: 0,
            filled: 0,
        },
    }
}

fn tick(price: f64, qty: f64, seq: u64) -> TradedTick {
    TradedTick {
        price: to_fixed(price),
        qty: to_fixed(qty),
        side: Side::Sell,
        seq,
    }
}

fn lvl(price: f64, size: f64) -> Level {
    Level {
        price: to_fixed(price),
        size: to_fixed(size),
    }
}

fn md(venue: Venue, symbol: &str, payload: MdPayload) -> EventKind {
    EventKind::Md(MdEvent {
        venue,
        symbol: symbol.to_string(),
        payload,
    })
}

fn snap(seq: u64, ts_ms: u64, bids: &[(f64, f64)], asks: &[(f64, f64)]) -> Event {
    Event {
        seq,
        ts_mono_ns: ts_ms * 1_000_000,
        ts_wall_ms: ts_ms as i64,
        kind: md(
            Venue::Binance,
            "BTCUSDT",
            MdPayload::L2Snapshot {
                bids: bids.iter().map(|&(p, s)| lvl(p, s)).collect(),
                asks: asks.iter().map(|&(p, s)| lvl(p, s)).collect(),
                ts_exch_ms: ts_ms as i64,
            },
        ),
    }
}

fn trade(seq: u64, ts_ms: u64, price: f64, qty: f64) -> Event {
    Event {
        seq,
        ts_mono_ns: ts_ms * 1_000_000,
        ts_wall_ms: ts_ms as i64,
        kind: md(
            Venue::Binance,
            "BTCUSDT",
            MdPayload::Trade {
                price: to_fixed(price),
                size: to_fixed(qty),
                side: Side::Sell,
                ts_exch_ms: ts_ms as i64,
            },
        ),
    }
}

fn table() -> LatencyTable {
    let mut t = LatencyTable::new();
    t.insert_samples(
        Venue::Binance,
        "BTCUSDT",
        vec![1_000_000],
        vec![1_000_000],
        vec![500_000],
        "synthetic-test-fixture",
    );
    t
}

fn fee_sched() -> FeeSchedule {
    let mut f = FeeSchedule::new();
    f.insert_rates(
        Venue::Binance,
        FeeRates {
            maker_rate_e8: 10_000,
            taker_rate_e8: 45_000,
        },
    );
    f
}

#[test]
fn test_maker_fill_requires_traded_volume_exceeds_depth_ahead() {
    let o = mk_order(100.0, 5.0, 10.0, 0);
    let (q1, d1) = fill_model::on_traded_tick(&o, &tick(100.0, 10.0, 1));
    assert_eq!(d1, FillDecision::NoFill, "traded == ahead gives no fill");
    assert_eq!(q1.cum_traded, to_fixed(10.0));

    let mut o2 = o.clone();
    o2.queue = q1;
    let (q2, d2) = fill_model::on_traded_tick(&o2, &tick(100.0, 0.5, 2));
    assert_eq!(d2, FillDecision::Partial { qty: to_fixed(0.5) });
    assert_eq!(q2.filled, to_fixed(0.5));
}

#[test]
fn test_fill_never_exceeds_pessimistic_bound() {
    let mut o = mk_order(100.0, 5.0, 10.0, 0);
    let ticks = [3.0, 4.0, 4.0, 2.0, 8.0];
    let mut cum = 0i64;
    let mut filled_total = 0i64;
    for (i, t) in ticks.iter().enumerate() {
        let tk = tick(100.0, *t, (i + 1) as u64);
        cum += to_fixed(*t);
        let (q, d) = fill_model::on_traded_tick(&o, &tk);
        match d {
            FillDecision::Partial { qty } | FillDecision::Full { qty } => filled_total += qty,
            FillDecision::NoFill => {}
        }
        o.queue = q;
        let bound = (cum - to_fixed(10.0)).max(0).min(to_fixed(5.0));
        assert!(filled_total <= bound, "fill {filled_total} above the bound {bound} at tick {i}");
        assert_eq!(q.filled, filled_total);
    }
    assert_eq!(filled_total, to_fixed(5.0));
}

#[test]
fn test_tick_at_other_price_does_not_advance_queue() {
    let o = mk_order(100.0, 5.0, 1.0, 0);
    let (q, d) = fill_model::on_traded_tick(&o, &tick(101.0, 50.0, 1));
    assert_eq!(d, FillDecision::NoFill);
    assert_eq!(q, o.queue);
}

#[test]
fn test_zero_traded_volume_no_fill() {
    let o = mk_order(100.0, 5.0, 0.0, 0);
    let (_, d) = fill_model::on_traded_tick(&o, &tick(100.0, 0.0, 1));
    assert_eq!(d, FillDecision::NoFill);
}

#[test]
fn test_tick_before_or_at_submission_ignored() {
    let o = mk_order(100.0, 5.0, 0.0, 10);
    let (q, d) = fill_model::on_traded_tick(&o, &tick(100.0, 50.0, 10));
    assert_eq!(d, FillDecision::NoFill);
    assert_eq!(q, o.queue);
}

#[test]
fn test_cancel_ahead_does_not_improve_fill_probability() {
    let q = QueueState {
        ahead: to_fixed(10.0),
        cum_traded: to_fixed(3.0),
        filled: 0,
    };
    let q2 = fill_model::on_cancel_ahead(q, to_fixed(9.0));
    assert_eq!(q2, q);
}

#[test]
fn test_taker_eats_visible_book_only() {
    let mut b = OrderBook::new();
    b.apply_snapshot(
        &[lvl(99.0, 1.0)],
        &[lvl(101.0, 1.0), lvl(102.0, 2.0), lvl(105.0, 50.0)],
    );
    let fills = fill_model::taker_fills(&b, Side::Buy, to_fixed(5.0), to_fixed(102.0));
    let total: i64 = fills.iter().map(|&(_, q)| q).sum();
    assert_eq!(total, to_fixed(3.0));
    assert_eq!(fills[0].0, to_fixed(101.0));
    assert!(fills.windows(2).all(|w| w[0].0 <= w[1].0));
}

fn scenario_events() -> Vec<Event> {
    vec![
        snap(1, 1_000, &[(100.0, 2.0), (99.0, 5.0)], &[(101.0, 2.0)]),
        snap(2, 1_010, &[(100.0, 2.0), (99.0, 5.0)], &[(101.0, 2.0)]),
        trade(3, 1_050, 100.0, 2.0),
        trade(4, 1_060, 100.0, 1.5),
        snap(5, 1_070, &[(100.0, 1.0)], &[(101.0, 2.0)]),
    ]
}

fn maker_buy(price: f64, qty: f64) -> OrderIntent {
    OrderIntent {
        venue: Venue::Binance,
        symbol: "BTCUSDT".into(),
        side: Side::Buy,
        price: to_fixed(price),
        qty: to_fixed(qty),
        kind: OrderKind::Maker,
    }
}

fn run_scenario(seed: u64) -> Vec<SimFill> {
    let mut ex = BacktestExchange::new(table(), fee_sched(), seed);
    let mut fills = Vec::new();
    for ev in scenario_events() {
        fills.extend(ex.on_event(&ev));
        if ev.seq == 2 {
            ex.submit(maker_buy(100.0, 1.0))
                .expect("submit after the first event must pass");
        }
    }
    fills
}

#[test]
fn test_replay_deterministic_given_seed() {
    let a = run_scenario(42);
    let b = run_scenario(42);
    assert_eq!(a, b);
    assert!(!a.is_empty());
    let filled: i64 = a.iter().map(|f| f.qty).sum();
    assert_eq!(filled, to_fixed(1.0));
    assert!(a.iter().all(|f| f.maker));
    assert!(a.iter().all(|f| f.fee_e8 != 0));
}

#[test]
fn test_fill_model_no_lookahead() {
    let prefix = scenario_events();
    let mut stream_a = prefix.clone();
    stream_a.push(trade(6, 2_000, 100.0, 50.0));
    let mut stream_b = prefix;
    stream_b.push(snap(6, 2_000, &[(90.0, 1.0)], &[(120.0, 1.0)]));

    let run = |evs: &[Event]| -> Vec<SimFill> {
        let mut ex = BacktestExchange::new(table(), fee_sched(), 7);
        let mut fills = Vec::new();
        for ev in evs {
            fills.extend(ex.on_event(ev));
            if ev.seq == 2 {
                ex.submit(maker_buy(100.0, 1.0)).unwrap();
            }
        }
        fills
    };
    let cut = |v: Vec<SimFill>| -> Vec<SimFill> { v.into_iter().filter(|f| f.seq <= 4).collect() };
    let a = cut(run(&stream_a));
    let b = cut(run(&stream_b));
    assert_eq!(a, b);
    assert!(!a.is_empty());
}

#[test]
fn test_latency_draw_deterministic_and_from_samples() {
    let mut t = LatencyTable::new();
    let samples = vec![1_000_000u64, 2_000_000, 3_000_000];
    t.insert_samples(
        Venue::Binance,
        "BTCUSDT",
        samples.clone(),
        samples.clone(),
        samples.clone(),
        "synthetic",
    );
    let mut r1 = SplitMix64::new(9);
    let mut r2 = SplitMix64::new(9);
    let d1 = t.draw(Venue::Binance, "BTCUSDT", &mut r1).unwrap();
    let d2 = t.draw(Venue::Binance, "BTCUSDT", &mut r2).unwrap();
    assert_eq!(d1, d2);
    assert!(samples.contains(&d1.delta_submit_ns));
}

#[test]
fn test_missing_latency_distribution_halts_startup() {
    let t = table();
    let mut rng = SplitMix64::new(1);
    assert!(matches!(
        t.draw(Venue::Hyperliquid, "ETH", &mut rng),
        Err(SimError::MissingLatency { .. })
    ));

    let mut ex = BacktestExchange::new(table(), fee_sched(), 5);
    ex.on_event(&snap(1, 1_000, &[(100.0, 1.0)], &[(101.0, 1.0)]));
    let res = ex.submit(OrderIntent {
        venue: Venue::Hyperliquid,
        symbol: "ETH".into(),
        side: Side::Buy,
        price: to_fixed(100.0),
        qty: to_fixed(1.0),
        kind: OrderKind::Maker,
    });
    assert!(matches!(
        res,
        Err(SimError::MissingLatency { .. }) | Err(SimError::MissingFees { .. })
    ));
}

#[test]
fn test_missing_fee_schedule_halts() {
    let f = fee_sched();
    assert!(matches!(
        f.fee_e8(Venue::Hyperliquid, "BTC", true, to_fixed(1000.0)),
        Err(SimError::MissingFees { .. })
    ));
}

#[test]
fn test_maker_ahead_uses_our_price_level_not_top() {
    let evs = vec![
        snap(1, 1_000, &[(100.0, 2.0), (99.0, 5.0)], &[(101.0, 2.0)]),
        snap(2, 1_010, &[(100.0, 2.0), (99.0, 5.0)], &[(101.0, 2.0)]),
        trade(3, 1_050, 99.0, 5.0),
        trade(4, 1_060, 99.0, 0.5),
        trade(5, 1_070, 99.0, 10.0),
    ];
    let mut ex = BacktestExchange::new(table(), fee_sched(), 3);
    let mut fills = Vec::new();
    for ev in &evs {
        fills.extend(ex.on_event(ev));
        if ev.seq == 2 {
            ex.submit(maker_buy(99.0, 1.0)).unwrap();
        }
    }
    assert!(fills.iter().all(|f| f.seq != 3));
    let first = fills.first().expect("a fill at seq 4");
    assert_eq!(first.seq, 4);
    assert_eq!(first.qty, to_fixed(0.5));
    let total: i64 = fills.iter().map(|f| f.qty).sum();
    assert_eq!(total, to_fixed(1.0));
}

#[test]
fn sim_ignores_new_md_variants_no_fills_no_panic() {
    let mut ex = BacktestExchange::new(LatencyTable::new(), FeeSchedule::new(), 42);
    let cases = [
        MdPayload::OpenInterest {
            oi_e8: to_fixed(12345.0),
            ts_exch_ms: 1,
        },
        MdPayload::Liquidation {
            price: to_fixed(64000.0),
            size: to_fixed(1.0),
            side: Side::Sell,
            ts_exch_ms: 2,
        },
        MdPayload::MarginRate {
            rate_e8: to_fixed(0.0001),
            ts_exch_ms: 3,
        },
    ];
    for (i, p) in cases.into_iter().enumerate() {
        let ev = Event {
            seq: i as u64,
            ts_mono_ns: i as u64,
            ts_wall_ms: i as i64,
            kind: md(Venue::BinanceFutures, "BTCUSDT", p),
        };
        let fills = ex.on_event(&ev);
        assert!(fills.is_empty());
    }
    assert_eq!(ex.open_orders(), 0);
}

#[test]
fn taker_order_fills_against_book_on_activation() {
    let mut ex = BacktestExchange::new(table(), fee_sched(), 11);
    ex.on_event(&snap(1, 1_000, &[(99.0, 1.0)], &[(101.0, 1.0), (102.0, 2.0)]));
    let id = ex
        .submit(OrderIntent {
            venue: Venue::Binance,
            symbol: "BTCUSDT".into(),
            side: Side::Buy,
            price: to_fixed(102.0),
            qty: to_fixed(2.5),
            kind: OrderKind::Taker,
        })
        .unwrap();
    assert_eq!(id, 1);
    let fills = ex.on_event(&snap(2, 1_002, &[(99.0, 1.0)], &[(101.0, 1.0), (102.0, 2.0)]));
    assert_eq!(fills.len(), 2);
    assert_eq!((fills[0].price, fills[0].qty), (to_fixed(101.0), to_fixed(1.0)));
    assert_eq!((fills[1].price, fills[1].qty), (to_fixed(102.0), to_fixed(1.5)));
    assert!(fills.iter().all(|f| !f.maker));
    assert_eq!(fills[0].fee_e8, 101 * 45_000);
    assert_eq!(ex.open_orders(), 0);
}

#[test]
fn cancel_takes_effect_after_its_latency() {
    let mut ex = BacktestExchange::new(table(), fee_sched(), 5);
    ex.on_event(&snap(1, 1_000, &[(100.0, 2.0)], &[(101.0, 2.0)]));
    let id = ex.submit(maker_buy(100.0, 1.0)).unwrap();
    ex.on_event(&snap(2, 1_002, &[(100.0, 2.0)], &[(101.0, 2.0)]));
    assert_eq!(ex.open_orders(), 1);
    ex.cancel(id).unwrap();
    assert_eq!(ex.open_orders(), 1, "the cancel is not effective before its latency");
    let fills = ex.on_event(&trade(3, 1_002, 100.0, 5.0));
    assert_eq!(fills.len(), 1, "until the cancel matures the order may still fill");
    ex.cancel(id).unwrap();
    assert_eq!(ex.open_orders(), 0, "a filled order is no longer open");
    ex.cancel(99).expect("an unknown id is a no-op");
}

#[test]
fn submit_before_first_event_is_no_market_data() {
    let mut ex = BacktestExchange::new(table(), fee_sched(), 5);
    assert!(matches!(
        ex.submit(maker_buy(100.0, 1.0)),
        Err(SimError::NoMarketData)
    ));
}

#[test]
fn splitmix_matches_reference_values() {
    let mut r = SplitMix64::new(0);
    assert_eq!(r.next_u64(), 0xE220A8397B1DCDAF);
    assert_eq!(r.next_u64(), 0x6E789E6AA1B965F4);
}

#[test]
fn funding_long_pays_positive_rate() {
    let pnl = funding_pnl_e8(to_fixed(2.0), to_fixed(50_000.0), to_fixed(0.0001));
    assert_eq!(pnl, -to_fixed(10.0));
    assert_eq!(funding_pnl_e8(-to_fixed(2.0), to_fixed(50_000.0), to_fixed(0.0001)), to_fixed(10.0));
    assert_eq!(funding_pnl_e8(0, to_fixed(50_000.0), to_fixed(0.0001)), 0);
}

#[test]
fn book_mid_is_mean_of_best_prices() {
    let mut b = OrderBook::new();
    assert_eq!(b.mid(), None);
    b.apply_snapshot(&[lvl(99.0, 1.0), lvl(100.0, 1.0)], &[lvl(101.0, 1.0)]);
    assert_eq!(b.mid(), Some(to_fixed(100.5)));
    assert_eq!(b.size_at(Side::Buy, to_fixed(99.0)), to_fixed(1.0));
    assert_eq!(b.size_at(Side::Buy, to_fixed(98.0)), 0);
    b.apply_snapshot(&[lvl(100.0, 1.0), lvl(100.0, 0.0)], &[]);
    assert_eq!(b.levels(Side::Buy), vec![]);
    assert_eq!(b.mid(), None);
}

#[test]
fn splitmix_jumps_ahead_by_the_gamma() {
    for (seed, k) in [(7u64, 0u64), (7, 1), (9, 5), (u64::MAX - 3, 1_000)] {
        let mut r = SplitMix64::new(seed);
        for _ in 0..k {
            r.next_u64();
        }
        let mut jumped = SplitMix64::new(seed.wrapping_add(k.wrapping_mul(SPLITMIX_GAMMA)));
        assert_eq!(r.next_u64(), jumped.next_u64());
    }
    let mut a = SplitMix64::new(42);
    let mut b = SplitMix64::new(42);
    for _ in 0..100 {
        assert_eq!(a.next_u64(), b.next_u64());
    }
}

#[test]
fn funding_accrual_with_a_notional_beyond_i64() {
    assert_eq!(funding_pnl_e8(1_000_000_000_000_000_000, 1_000_000_000_000, 1_000), -100_000_000_000_000_000);
    assert_eq!(funding_pnl_e8(-to_fixed(2.0), to_fixed(50_000.0), -to_fixed(0.0001)), -to_fixed(10.0));
    assert_eq!(funding_pnl_e8(to_fixed(2.0), to_fixed(50_000.0), 0), 0);
}
