//! The research code hash, the first mid of a cell's instrument, and the provenance checks
//! of a report.
use hft_research::grid::{
    check_split_access, first_mid_e8, research_code_hash, CellAccount, CODE_HASH_DOMAIN, LEDGER_EPOCH_CUTOFF,
};
use hft_research::ledger::sha256_hex;
use hft_research::market::{Event, EventKind, Level, MdEvent, MdPayload, Side, Venue};
use hft_research::report::{trim, validate_provenance};
use hft_research::split::SplitState;
use hft_research::types::{RcError, SplitKind, TimeSplit};
use sha2::{Digest, Sha256};

fn snapshot(seq: u64, venue: Venue, symbol: &str, bids: &[(i64, i64)], asks: &[(i64, i64)]) -> Event {
    let lv = |v: &[(i64, i64)]| v.iter().map(|&(price, size)| Level { price, size }).collect::<Vec<_>>();
    Event {
        seq,
        ts_mono_ns: seq,
        ts_wall_ms: 1_000 + seq as i64,
        kind: EventKind::Md(MdEvent {
            venue,
            symbol: symbol.into(),
            payload: MdPayload::L2Snapshot { bids: lv(bids), asks: lv(asks), ts_exch_ms: 1_000 + seq as i64 },
        }),
    }
}

fn trade(seq: u64, symbol: &str) -> Event {
    Event {
        seq,
        ts_mono_ns: seq,
        ts_wall_ms: 1_000 + seq as i64,
        kind: EventKind::Md(MdEvent {
            venue: Venue::Binance,
            symbol: symbol.into(),
            payload: MdPayload::Trade { price: 100, size: 1, side: Side::Buy, ts_exch_ms: 1_000 },
        }),
    }
}

#[test]
fn research_code_hash_is_the_domain_separated_digest() {
    let source = b"pub struct Obi;";
    let mut input = Vec::new();
    input.extend_from_slice(CODE_HASH_DOMAIN.as_bytes());
    input.extend_from_slice(LEDGER_EPOCH_CUTOFF.as_bytes());
    input.push(0);
    input.extend_from_slice(source);
    let expected: String = Sha256::digest(&input).iter().map(|b| format!("{b:02x}")).collect();
    let h = research_code_hash(source);
    assert_eq!(h, expected);
    assert_eq!(h.len(), 64);
    assert_ne!(h, sha256_hex(source), "the epoch marker keeps the hash apart from the bare one");
    assert_eq!(research_code_hash(source), h);
    assert_ne!(research_code_hash(b"pub struct Obi2;"), h);
}

#[test]
fn first_mid_takes_the_instruments_first_two_sided_book() {
    let events = vec![
        trade(0, "BTCUSDT"),
        snapshot(1, Venue::Binance, "ETHUSDT", &[(10, 1)], &[(12, 1)]),
        snapshot(2, Venue::Hyperliquid, "BTCUSDT", &[(50, 1)], &[(52, 1)]),
        snapshot(3, Venue::Binance, "BTCUSDT", &[(99, 1)], &[]),
        snapshot(4, Venue::Binance, "BTCUSDT", &[(99, 1), (100, 2)], &[(103, 1)]),
        snapshot(5, Venue::Binance, "BTCUSDT", &[(1, 1)], &[(3, 1)]),
    ];
    assert_eq!(first_mid_e8(&events, Venue::Binance, "BTCUSDT"), 101);
    assert_eq!(first_mid_e8(&events, Venue::Binance, "ETHUSDT"), 11);
    assert_eq!(first_mid_e8(&events, Venue::Hyperliquid, "BTCUSDT"), 51);
    assert_eq!(first_mid_e8(&events, Venue::BinanceFutures, "BTCUSDT"), 0);
    assert_eq!(first_mid_e8(&events[..4].to_vec(), Venue::Binance, "BTCUSDT"), 0);
    assert_eq!(first_mid_e8(&Vec::new(), Venue::Binance, "BTCUSDT"), 0);
}

#[test]
fn trim_drops_outer_whitespace_only() {
    assert_eq!(trim("  a b \t\n"), "a b");
    assert_eq!(trim("\u{3000}x\u{A0}"), "x");
    assert_eq!(trim("   "), "");
    assert_eq!(trim(""), "");
    assert_eq!(trim("abc"), "abc");
}

#[test]
fn ks_provenance_fields_are_checked_in_order() {
    assert!(validate_provenance("research/data-quality/gaps-e1.json", "5141fd9").is_ok());
    let e = validate_provenance("  ", "5141fd9").unwrap_err();
    assert!(e.starts_with("gap_ref"));
    let e = validate_provenance("", "").unwrap_err();
    assert!(e.starts_with("gap_ref"));
    let e = validate_provenance("gaps.json", " \t").unwrap_err();
    assert!(e.starts_with("ledger_cutoff is empty"));
    let e = validate_provenance("gaps.json", " f7f4761\n").unwrap_err();
    assert!(e.starts_with("ledger_cutoff=f7f4761"));
    assert!(validate_provenance("gaps.json", "f7f4761x").is_ok());
}

const HONEST_GAP_REF: &str = "research/data-quality/gaps-own-2026-07.json";
const HONEST_CUTOFF: &str = "5141fd9";

#[test]
fn ks_i_5_empty_gap_ref_is_invalid() {
    assert!(validate_provenance("", HONEST_CUTOFF).is_err());
}

#[test]
fn ks_i_3_pre_m07_ledger_epoch_is_invalid() {
    assert!(validate_provenance(HONEST_GAP_REF, "f7f4761").is_err());
}

#[test]
fn ks_i_3_empty_ledger_cutoff_is_invalid() {
    assert!(validate_provenance(HONEST_GAP_REF, "").is_err());
}

#[test]
fn honest_report_is_reachable_valid() {
    assert!(validate_provenance(HONEST_GAP_REF, HONEST_CUTOFF).is_ok());
}

const E8: i64 = 100_000_000;

#[test]
fn test_split_needs_the_validation_token() {
    assert!(check_split_access(SplitKind::Train, None).is_ok());
    assert!(check_split_access(SplitKind::Val, None).is_ok());
    assert!(matches!(check_split_access(SplitKind::Test, None), Err(RcError::GateDenied(_))));
    let mut st = SplitState::new("H-x", TimeSplit { train_ms: (0, 1), val_ms: (1, 2), test_ms: (2, 3) });
    let token = st.record_val_gate(true, "unused".into()).unwrap();
    assert!(check_split_access(SplitKind::Test, Some(&token)).is_ok());
}

#[test]
fn cell_account_books_cash_turnover_and_equity() {
    let mut acc = CellAccount::new();
    assert_eq!(acc.net_pnl_e8(), 0);
    acc.apply_fill(Side::Buy, 100 * E8, 2 * E8, E8);
    assert_eq!(acc.cash_e8, -201 * E8 as i128);
    assert_eq!(acc.turnover_e8, 200 * E8 as i128);
    acc.apply_fill(Side::Sell, 110 * E8, E8, E8 / 2);
    assert_eq!(acc.cash_e8, -(915 * E8 as i128) / 10);
    assert_eq!(acc.turnover_e8, 310 * E8 as i128);
    acc.mark_equity(&vec![(E8, Some(120 * E8)), (5 * E8, None)]);
    assert_eq!(acc.equity_curve_e8, vec![285 * E8 / 10]);
    acc.mark_equity(&vec![(-1, Some(150_000_001))]);
    assert_eq!(acc.equity_curve_e8, vec![285 * E8 / 10, -915 * E8 / 10 - 1]);
    assert_eq!(acc.net_pnl_e8(), -915 * E8 / 10 - 1);
    assert_eq!(acc.turnover_i64(), 310 * E8);
}

#[test]
fn cell_account_saturates_and_keeps_the_first_mid() {
    let mut acc = CellAccount::new();
    acc.note_mid(None);
    assert_eq!(acc.first_mid_e8, 0);
    acc.note_mid(Some(5));
    acc.note_mid(Some(7));
    assert_eq!(acc.first_mid_e8, 5);
    acc.apply_fill(Side::Sell, i64::MAX, i64::MAX, 0);
    acc.mark_equity(&Vec::new());
    assert_eq!(acc.equity_curve_e8, vec![i64::MAX]);
    assert_eq!(acc.turnover_i64(), i64::MAX);
}
