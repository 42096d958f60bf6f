//! Fills produced on one tick come out by ascending order id, whatever the memory layout.
use hft_research::market::{Event, EventKind, Level, MdEvent, MdPayload, Side, Venue};
use hft_research::sim::exchange::BacktestExchange;
use hft_research::sim::fees::{FeeRates, FeeSchedule};
use hft_research::sim::latency::LatencyTable;
use hft_research::sim::types::{OrderIntent, OrderKind, SimFill};

fn to_fixed(x: f64) -> i64 {
    (x * 1e8).round() as i64
}

fn table() -> LatencyTable {
    let mut t = LatencyTable::new();
    for sym in ["BTCUSDT", "ETHUSDT"] {
        t.insert_samples(
            Venue::Binance,
            sym,
            vec![1_000_000],
            vec![1_000_000],
            vec![500_000],
            "synthetic-test-fixture",
        );
    }
    t
}

fn fee_sched() -> FeeSchedule {
    let mut f = FeeSchedule::new();
    f.insert_rates(
        Venue::Binance,
        FeeRates {
            maker_rate_e8: 10_000,
            taker_rate_e8: 45_000,
        },
    );
    f
}

fn lvl(price: f64, size: f64) -> Level {
    Level {
        price: to_fixed(price),
        size: to_fixed(size),
    }
}

fn snap(seq: u64, ts_ms: u64, symbol: &str) -> Event {
    Event {
        seq,
        ts_mono_ns: ts_ms * 1_000_000,
        ts_wall_ms: ts_ms as i64,
        kind: EventKind::Md(MdEvent {
            venue: Venue::Binance,
            symbol: symbol.to_string(),
            payload: MdPayload::L2Snapshot {
                bids: vec![lvl(100.0, 2.0), lvl(99.0, 5.0)],
                asks: vec![lvl(101.0, 2.0)],
                ts_exch_ms: ts_ms as i64,
            },
        }),
    }
}

fn trade(seq: u64, ts_ms: u64, symbol: &str, price: f64, qty: f64) -> Event {
    Event {
        seq,
        ts_mono_ns: ts_ms * 1_000_000,
        ts_wall_ms: ts_ms as i64,
        kind: EventKind::Md(MdEvent {
            venue: Venue::Binance,
            symbol: symbol.to_string(),
            payload: MdPayload::Trade {
                price: to_fixed(price),
                size: to_fixed(qty),
                side: Side::Sell,
                ts_exch_ms: ts_ms as i64,
            },
        }),
    }
}

fn maker(symbol: &str, price: f64, qty: f64) -> OrderIntent {
    OrderIntent {
        venue: Venue::Binance,
        symbol: symbol.into(),
        side: Side::Buy,
        price: to_fixed(price),
        qty: to_fixed(qty),
        kind: OrderKind::Maker,
    }
}

fn fills_on_single_tick(n: u64, extra: &[OrderIntent]) -> Vec<SimFill> {
    let mut ex = BacktestExchange::new(table(), fee_sched(), 42);
    ex.on_event(&snap(1, 1_000, "BTCUSDT"));
    ex.on_event(&snap(2, 1_001, "ETHUSDT"));
    for _ in 0..n {
        ex.submit(maker("BTCUSDT", 100.0, 1.0)).expect("submit maker");
    }
    for intent in extra {
        ex.submit(intent.clone()).expect("submit extra");
    }
    ex.on_event(&trade(3, 1_050, "BTCUSDT", 100.0, 50.0))
}

fn ids(fills: &[SimFill]) -> Vec<u64> {
    fills.iter().map(|f| f.order_id).collect()
}

#[test]
fn det_14_fills_on_one_tick_are_ordered_by_order_id() {
    const N: u64 = 12;
    let fills = fills_on_single_tick(N, &[]);
    assert_eq!(fills.len(), N as usize);
    assert_eq!(ids(&fills), (1..=N).collect::<Vec<u64>>());
}

#[test]
fn det_15_independent_exchanges_agree_on_fill_order() {
    const N: u64 = 16;
    const K: usize = 24;
    let first = fills_on_single_tick(N, &[]);
    assert_eq!(first.len(), N as usize);
    for _ in 0..K {
        let again = fills_on_single_tick(N, &[]);
        assert_eq!(again, first);
    }
}

#[test]
fn det_16_only_eligible_orders_fill_and_order_is_still_ascending() {
    let extra = vec![
        maker("ETHUSDT", 100.0, 1.0),
        maker("BTCUSDT", 99.0, 1.0),
        OrderIntent {
            kind: OrderKind::Taker,
            ..maker("BTCUSDT", 100.0, 1.0)
        },
    ];
    let fills = fills_on_single_tick(3, &extra);
    assert_eq!(ids(&fills), vec![1, 2, 3]);

    let mut ex = BacktestExchange::new(table(), fee_sched(), 42);
    ex.on_event(&snap(1, 1_000, "BTCUSDT"));
    ex.on_event(&snap(2, 1_001, "ETHUSDT"));
    for _ in 0..4 {
        ex.submit(maker("BTCUSDT", 100.0, 1.0)).expect("submit");
    }
    let none = ex.on_event(&trade(3, 1_050, "ETHUSDT", 100.0, 50.0));
    assert!(none.is_empty());
    let after = ex.on_event(&trade(4, 1_060, "BTCUSDT", 100.0, 50.0));
    assert_eq!(ids(&after), vec![1, 2, 3, 4]);
}

#[test]
fn det_17_boundaries_and_scale() {
    let mut ex = BacktestExchange::new(table(), fee_sched(), 42);
    ex.on_event(&snap(1, 1_000, "BTCUSDT"));
    assert!(ex.on_event(&trade(2, 1_050, "BTCUSDT", 100.0, 50.0)).is_empty());

    assert_eq!(ids(&fills_on_single_tick(1, &[])), vec![1]);

    let mut ex = BacktestExchange::new(table(), fee_sched(), 42);
    ex.on_event(&snap(1, 1_000, "BTCUSDT"));
    for _ in 0..4 {
        ex.submit(maker("BTCUSDT", 100.0, 1.0)).expect("submit");
    }
    let partial = ex.on_event(&trade(2, 1_050, "BTCUSDT", 100.0, 3.5));
    assert!(!partial.is_empty());
    let seen: Vec<u64> = ids(&partial);
    let mut sorted = seen.clone();
    sorted.sort_unstable();
    assert_eq!(seen, sorted);
    let repeat: Vec<u64> = {
        let mut ex2 = BacktestExchange::new(table(), fee_sched(), 42);
        ex2.on_event(&snap(1, 1_000, "BTCUSDT"));
        for _ in 0..4 {
            ex2.submit(maker("BTCUSDT", 100.0, 1.0)).expect("submit");
        }
        ids(&ex2.on_event(&trade(2, 1_050, "BTCUSDT", 100.0, 3.5)))
    };
    assert_eq!(seen, repeat);

    const BIG: u64 = 64;
    assert_eq!(ids(&fills_on_single_tick(BIG, &[])), (1..=BIG).collect::<Vec<u64>>());
}
