//! Exporting the same stream twice gives the same artifacts, in instrument order.
use hft_research::export_collect::{export_artifacts, export_settings, ExportCollector};
use hft_research::export_rows::ExportArtifact;
use hft_research::market::{Event, EventKind, Level, MdEvent, MdPayload, Side, SysEvent, Venue};

const UNIT: i64 = 100_000_000;

fn md(seq: u64, wall: i64, venue: Venue, symbol: &str, payload: MdPayload) -> Event {
    Event {
        seq,
        ts_mono_ns: seq,
        ts_wall_ms: wall,
        kind: EventKind::Md(MdEvent { venue, symbol: symbol.into(), payload }),
    }
}

fn stream() -> Vec<Event> {
    vec![
        md(1, 1_000, Venue::Hyperliquid, "BTC", MdPayload::Trade { price: 100 * UNIT, size: UNIT, side: Side::Buy, ts_exch_ms: 1_000 }),
        md(
            2,
            1_500,
            Venue::Binance,
            "BTCUSDT",
            MdPayload::L2Snapshot {
                bids: vec![Level { price: 99 * UNIT, size: 2 * UNIT }],
                asks: vec![Level { price: 101 * UNIT, size: 3 * UNIT }],
                ts_exch_ms: 1_500,
            },
        ),
        Event { seq: 3, ts_mono_ns: 3, ts_wall_ms: 1_600, kind: EventKind::Sys(SysEvent::ConnUp(Venue::Binance)) },
        md(4, 2_000, Venue::Binance, "BTCUSDT", MdPayload::Trade { price: 100 * UNIT, size: 2 * UNIT, side: Side::Sell, ts_exch_ms: 2_000 }),
        md(5, 61_000, Venue::Binance, "BTCUSDT", MdPayload::Trade { price: 102 * UNIT, size: UNIT, side: Side::Buy, ts_exch_ms: 61_000 }),
    ]
}

fn export(events: &[Event]) -> Vec<(String, String, ExportArtifact)> {
    let mut collector = ExportCollector::new();
    for ev in events {
        collector.push(ev);
    }
    export_artifacts(collector, &vec!["e1".to_string()], 60_000, &vec![1_000_000_000])
}

#[test]
fn export_twice_gives_equal_artifacts() {
    let a = export(&stream());
    let b = export(&stream());
    assert_eq!(a, b);
    let names: Vec<(String, String)> = a.iter().map(|(v, s, _)| (v.clone(), s.clone())).collect();
    assert_eq!(
        names,
        vec![("binance".to_string(), "BTCUSDT".to_string()), ("hyperliquid".to_string(), "BTC".to_string())]
    );
    assert_eq!(a[0].2.ohlcv.len(), 2);
    assert_eq!(a[0].2.first_wall_ms, 1_000);
    assert_eq!(a[0].2.last_wall_ms, 61_000);
}

#[test]
fn export_of_a_stream_without_market_data_is_empty() {
    let sys = Event { seq: 1, ts_mono_ns: 1, ts_wall_ms: 5, kind: EventKind::Sys(SysEvent::ConnUp(Venue::Binance)) };
    assert!(export(&[sys]).is_empty());
    assert!(export(&[]).is_empty());
}

#[test]
fn export_settings_refuse_a_non_positive_timeframe_and_order_epochs() {
    let ids = vec!["e2".to_string(), "e1".to_string(), "e2".to_string(), "E0".to_string()];
    assert_eq!(export_settings(0, &ids), None);
    assert_eq!(export_settings(-5, &ids), None);
    assert_eq!(
        export_settings(60_000, &ids),
        Some(vec!["E0".to_string(), "e1".to_string(), "e2".to_string()])
    );
    assert_eq!(export_settings(60_000, &vec![]), Some(vec![]));
}
