//! Trades against book decrements: consistency of the order flow.
use hft_research::market::{Level, Side};
use hft_research::orderflow::{consistency, FaithEvent};

const UNIT: i64 = 100_000_000;
const P: i64 = 64_000 * UNIT;

fn delta(ts_ms: i64, price: i64, size_units: i64) -> FaithEvent {
    FaithEvent::Delta {
        ts_ms,
        bids: vec![Level {
            price,
            size: size_units * UNIT,
        }],
        asks: vec![],
    }
}
fn trade(ts_ms: i64, price: i64, size_units: i64) -> FaithEvent {
    FaithEvent::Trade {
        ts_ms,
        price,
        side: Side::Sell,
        size: size_units * UNIT,
    }
}

#[test]
fn dv_i_6_trade_with_book_decrement_is_consistent() {
    let events = vec![
        delta(1_000, P, 10),
        trade(2_000, P, 4),
        delta(2_500, P, 6),
    ];
    let r = consistency(&events, 1_000);
    assert_eq!(r.checked, 1, "одна сделка проверена");
    assert_eq!(r.consistent, 1, "book-decrement на P в окне ⇒ consistent");
    assert_eq!(r.inconsistent, 0);
}

#[test]
fn dv_i_6_trade_without_book_decrement_is_inconsistent() {
    let events = vec![
        delta(1_000, P, 10),
        trade(2_000, P, 4),
        delta(2_500, P, 10),
        delta(2_800, P + UNIT, 5),
    ];
    let r = consistency(&events, 1_000);
    assert_eq!(r.checked, 1);
    assert_eq!(
        r.inconsistent, 1,
        "нет book-decrement на P ⇒ inconsistent (заглушка 'всегда consistent' падает здесь)"
    );
    assert_eq!(r.consistent, 0);
}

#[test]
fn dv_i_6_multiplicity_mixed() {
    let events = vec![
        delta(1_000, P, 10),
        trade(1_500, P, 4),
        delta(1_800, P, 6),
        delta(3_000, P, 8),
        trade(3_500, P, 5),
        delta(3_800, P, 8),
    ];
    let r = consistency(&events, 1_000);
    assert_eq!(r.checked, 2, "две сделки проверены");
    assert_eq!(r.consistent, 1);
    assert_eq!(r.inconsistent, 1);
}

#[test]
fn dv_i_6_determinism() {
    let mk = || {
        vec![
            delta(1_000, P, 10),
            trade(2_000, P, 4),
            delta(2_500, P, 6),
        ]
    };
    assert_eq!(consistency(&mk(), 1_000), consistency(&mk(), 1_000));
}
