//! Research layer: split discipline, ledger chain and counts, gaps, strategy cells, report
//! checks.
use hft_research::data_quality::{
    gap_artifact_name, gap_mark, gaps, ConnMark, GapMark, GapScanner, DEFAULT_GAP_THRESHOLD_MS,
    GAP_REPORT_SCHEMA_VERSION,
};
use hft_research::ledger::{
    hex_lower, next_prev_sha256, raw_lines, sha256_hex, verify_chain_lines, Ledger, TrialKey,
};
use hft_research::market::{Event, EventKind, Level, MdEvent, MdPayload, Side, SysEvent, Venue};
use hft_research::metrics::max_drawdown_e8;
use hft_research::preregistration::check_preregistration;
use hft_research::report::{min_stress_pnl, r001_grid, split_range, validate_sizing_honesty};
use hft_research::sim::book::OrderBook;
use hft_research::sim::types::OrderKind;
use hft_research::split::SplitState;
use hft_research::strategy_cell::{
    capital_ref_e8, cell_params_hash, strategy_cell_config, StrategyBlock, StrategyCellConfig,
    DEFAULT_INTENT_TTL_MS, DEFAULT_MARKETABLE_MARGIN_BP, DEFAULT_MAX_POSITION_E8,
    DEFAULT_MIN_ORDER_E8,
};
use hft_research::types::{CostsMode, RcError, TimeSplit, Verdict};

const E8: i64 = 100_000_000;

fn to_fixed(x: f64) -> i64 {
    (x * 1e8).round() as i64
}

fn split_0_to_3() -> TimeSplit {
    TimeSplit {
        train_ms: (0, 1_000),
        val_ms: (1_000, 2_000),
        test_ms: (2_000, 3_000),
    }
}

fn pass_val_gate(
    st: &mut SplitState,
    val_sharpe: f64,
    min_val_sharpe: f64,
) -> Result<hft_research::split::ValGateToken, RcError> {
    st.record_val_gate(
        val_sharpe >= min_val_sharpe,
        format!("validation gate failed: val_sharpe {val_sharpe} < min_val_sharpe {min_val_sharpe}"),
    )
}

#[test]
fn test_test_segment_touch_once() {
    let mut st = SplitState::new("H-test", split_0_to_3());
    let tok = pass_val_gate(&mut st, 1.0, 0.5).expect("gate passed");
    assert!(st.val_gate_passed);
    let range = st.touch_test(&tok, None).unwrap();
    assert_eq!(range, (2_000, 3_000));
    assert!(st.test_touched);
    assert!(st.touch_test(&tok, None).is_err(), "a second touch without override is denied");
    st.touch_test(&tok, Some("revalidation after a harness bug fix"))
        .expect("an override with a reason is allowed");
    assert!(st.touch_log.iter().any(|l| l.contains("harness bug fix")));
}

#[test]
fn test_val_gate_fail_gives_no_token() {
    let mut st = SplitState::new("H-test", split_0_to_3());
    assert!(pass_val_gate(&mut st, 0.1, 0.5).is_err());
    assert!(!st.val_gate_passed);
}

#[test]
fn blank_override_is_no_override() {
    let mut st = SplitState::new("H-test", split_0_to_3());
    let tok = pass_val_gate(&mut st, 1.0, 0.5).unwrap();
    st.touch_test(&tok, Some("   ")).unwrap();
    assert_eq!(st.touch_log.len(), 1, "a blank reason is not logged");
    assert!(matches!(st.touch_test(&tok, Some(" \t")), Err(RcError::GateDenied(_))));
    assert_eq!(st.touch_log.len(), 1);
}

fn record_line(prev: &str, result_ref: &str, family: &str) -> String {
    format!(
        "{{\"signal_family\":\"{family}\",\"result_ref\":\"{result_ref}\",\"prev_sha256\":\"{prev}\"}}"
    )
}

fn append(content: &mut Vec<u8>, result_ref: &str, family: &str) {
    let prev = next_prev_sha256(content);
    content.extend_from_slice(record_line(&prev, result_ref, family).as_bytes());
    content.push(b'\n');
}

fn prevs_of(lines: &[Vec<u8>]) -> Vec<Option<String>> {
    lines
        .iter()
        .map(|l| {
            serde_json::from_slice::<serde_json::Value>(l)
                .ok()
                .and_then(|v| v.get("prev_sha256").and_then(|p| p.as_str()).map(|s| s.to_string()))
        })
        .collect()
}

fn chain_ok(content: &[u8]) -> bool {
    let lines = raw_lines(content);
    let prevs = prevs_of(&lines);
    verify_chain_lines(&lines, &prevs)
}

#[test]
fn test_ledger_hash_chain_detects_tampering() {
    let mut content: Vec<u8> = Vec::new();
    for i in 0..3 {
        append(&mut content, &format!("r{i}"), "obi");
    }
    assert!(chain_ok(&content), "an untouched chain is valid");
    let mid = content.len() / 2;
    let pos = (mid..content.len()).find(|&i| content[i].is_ascii_digit()).unwrap();
    content[pos] = if content[pos] == b'0' { b'1' } else { b'0' };
    assert!(!chain_ok(&content), "a changed byte breaks the chain");
}

#[test]
fn ledger_first_record_is_genesis_and_chain_links() {
    let mut content: Vec<u8> = Vec::new();
    assert_eq!(next_prev_sha256(&content), "genesis");
    append(&mut content, "r0", "obi");
    let first_line = raw_lines(&content)[0].clone();
    assert_eq!(next_prev_sha256(&content), sha256_hex(&first_line));
    let before = content.clone();
    append(&mut content, "KILL", "obi");
    assert!(content.starts_with(&before), "appending keeps the old bytes as a prefix");
    assert_eq!(raw_lines(&content).len(), 2);
    assert!(chain_ok(&content));
}

#[test]
fn sha256_hex_known_values() {
    assert_eq!(
        sha256_hex(b""),
        "e3b0c44298fc1c149afbf4c8996fb92427ae41e4649b934ca495991b7852b855"
    );
    assert_eq!(
        sha256_hex(b"abc"),
        "ba7816bf8f01cfea414140de5dae2223b00361a396177a9cb410ff61f20015ad"
    );
    assert_eq!(hex_lower(&[0x00, 0x0f, 0xa0, 0xff]), "000fa0ff");
}

#[test]
fn raw_lines_drop_empty_lines() {
    let lines = raw_lines(b"a\n\nbc\n\n\nd");
    assert_eq!(lines, vec![b"a".to_vec(), b"bc".to_vec(), b"d".to_vec()]);
    assert!(raw_lines(b"\n\n").is_empty());
}

#[test]
fn test_deflated_sharpe_reads_global_ledger() {
    let ledger = Ledger::open("research/trials-ledger.jsonl");
    assert_eq!(ledger.path(), "research/trials-ledger.jsonl");
    let mut records = vec![TrialKey { signal_family: "obi".into(), code_hash: "h1".into() }];
    assert_eq!(ledger.trial_count(&records, "obi").n(), 1);
    for i in 0..49 {
        records.push(TrialKey {
            signal_family: "obi".into(),
            code_hash: if i % 2 == 0 { "h1".into() } else { "h2".into() },
        });
    }
    records.push(TrialKey { signal_family: "other".into(), code_hash: "h1".into() });
    let n = ledger.trial_count(&records, "obi");
    assert_eq!(n.n(), 50);
    assert_eq!(n.family(), "obi");
    assert_eq!(ledger.trial_count_for_code_hash(&records, "obi", "h1").n(), 26);
    assert_eq!(ledger.trial_count(&records, "none").n(), 0);
}

const T0: i64 = 1_752_000_000_000;

fn trade_event(seq: u64, wall: i64) -> Event {
    Event {
        seq,
        ts_mono_ns: seq,
        ts_wall_ms: wall,
        kind: EventKind::Md(MdEvent {
            venue: Venue::Binance,
            symbol: "BTCUSDT".into(),
            payload: MdPayload::Trade {
                price: to_fixed(65_000.0) + seq as i64,
                size: to_fixed(0.01),
                side: Side::Buy,
                ts_exch_ms: T0 + seq as i64,
            },
        }),
    }
}

fn gap_fixture() -> Vec<Event> {
    let mut evs = Vec::new();
    let mut seq = 0u64;
    let mut t = T0;
    for _ in 0..10 {
        evs.push(trade_event(seq, t));
        seq += 1;
        t += 1_000;
    }
    t += 60_000;
    for _ in 0..10 {
        evs.push(trade_event(seq, t));
        seq += 1;
        t += 1_000;
    }
    evs.push(Event { seq, ts_mono_ns: seq, ts_wall_ms: t, kind: EventKind::Sys(SysEvent::ConnDown(Venue::Binance)) });
    seq += 1;
    t += 30_000;
    evs.push(Event { seq, ts_mono_ns: seq, ts_wall_ms: t, kind: EventKind::Sys(SysEvent::ConnUp(Venue::Binance)) });
    seq += 1;
    t += 1_000;
    for _ in 0..10 {
        evs.push(trade_event(seq, t));
        seq += 1;
        t += 1_000;
    }
    evs
}

fn scan(evs: &[Event]) -> hft_research::data_quality::GapReport {
    let mut s = GapScanner::new(DEFAULT_GAP_THRESHOLD_MS);
    for ev in evs {
        s.push(gap_mark(ev));
    }
    s.finish(vec!["own-test".to_string()])
}

#[test]
fn e8_gap_report_finds_silent_and_conn_bounded_gaps() {
    let r = scan(&gap_fixture());
    assert_eq!(r.schema_version, GAP_REPORT_SCHEMA_VERSION);
    assert_eq!(r.epoch_ids, vec!["own-test".to_string()]);
    assert_eq!(r.events_total, 32);
    assert_eq!(r.gap_threshold_ms, DEFAULT_GAP_THRESHOLD_MS);
    assert_eq!(r.gaps.len(), 2, "both gaps are found: {:?}", r.gaps);
    let silent = &r.gaps[0];
    assert_eq!(silent.duration_ms, 61_000);
    assert!(!silent.bounded_by_conn_events);
    let reconnect = &r.gaps[1];
    assert_eq!(reconnect.duration_ms, 30_000);
    assert!(reconnect.bounded_by_conn_events);
    assert_eq!(r.gap_total_ms, 91_000);
    let span = r.last_wall_ms - r.first_wall_ms;
    let expect_cov = ((span - r.gap_total_ms) as i128 * E8 as i128 / span as i128) as i64;
    assert_eq!(r.coverage_e8, expect_cov);
}

#[test]
fn e8_gap_artifact_is_deterministic() {
    let a = scan(&gap_fixture());
    let b = scan(&gap_fixture());
    assert_eq!(a, b);
    assert_eq!(gap_artifact_name(&a).unwrap(), "gaps-own-test.json");
    let marks: Vec<GapMark> = gap_fixture().iter().map(gap_mark).collect();
    let c = gaps(&marks, vec!["own-test".to_string()], DEFAULT_GAP_THRESHOLD_MS);
    assert_eq!(a, c, "the in-memory scan and the streaming scan agree");
}

#[test]
fn gap_report_edges() {
    let empty = gaps(&Vec::new(), vec![], DEFAULT_GAP_THRESHOLD_MS);
    assert_eq!(empty.events_total, 0);
    assert_eq!(empty.coverage_e8, E8, "a window of no length is fully covered");
    assert!(matches!(gap_artifact_name(&empty), Err(RcError::CorruptInput(_))));
    let at_threshold = vec![
        GapMark { seq: 0, ts_wall_ms: 0, conn: ConnMark::Data },
        GapMark { seq: 1, ts_wall_ms: 5_000, conn: ConnMark::Data },
        GapMark { seq: 2, ts_wall_ms: 10_001, conn: ConnMark::Data },
    ];
    let r = gaps(&at_threshold, vec!["e".into()], 5_000);
    assert_eq!(r.gaps.len(), 1, "a pause equal to the threshold is no gap");
    assert_eq!(r.gaps[0].from_seq, 1);
    assert_eq!(r.coverage_e8, (5_000i128 * E8 as i128 / 10_001) as i64);
}

#[test]
fn gr_i_1_absent_strategy_block_uses_documented_defaults() {
    let c = strategy_cell_config(None).expect("defaults are valid");
    assert_eq!(c.max_position_e8, DEFAULT_MAX_POSITION_E8);
    assert_eq!(c.min_order_e8, DEFAULT_MIN_ORDER_E8);
    assert_eq!(c.intent_ttl_ms, DEFAULT_INTENT_TTL_MS);
    assert_eq!(c.marketable_margin_bp, DEFAULT_MARKETABLE_MARGIN_BP);
    assert_eq!(c.kind, "taker");
}

fn block() -> StrategyBlock {
    StrategyBlock {
        max_position_e8: None,
        min_order_e8: None,
        intent_ttl_ms: None,
        marketable_margin_bp: None,
        kind: None,
    }
}

#[test]
fn gr_i_2_present_strategy_block_is_applied_and_validated() {
    let c = strategy_cell_config(Some(StrategyBlock {
        max_position_e8: Some(250_000_000),
        min_order_e8: Some(5_000_000),
        intent_ttl_ms: Some(3_000),
        marketable_margin_bp: Some(25),
        kind: Some("taker".into()),
    }))
    .expect("a valid block");
    assert_eq!(c.max_position_e8, 250_000_000);
    assert_eq!(c.min_order_e8, 5_000_000);
    assert_eq!(c.intent_ttl_ms, 3_000);
    assert_eq!(c.marketable_margin_bp, 25);

    assert!(strategy_cell_config(Some(StrategyBlock { max_position_e8: Some(0), ..block() })).is_err());
    assert!(strategy_cell_config(Some(StrategyBlock { kind: Some("quantum".into()), ..block() })).is_err());
    let partial = strategy_cell_config(Some(StrategyBlock { max_position_e8: Some(250_000_000), ..block() })).unwrap();
    assert_eq!(partial.min_order_e8, DEFAULT_MIN_ORDER_E8);
    assert_eq!(partial.kind, "taker");
}

#[test]
fn order_kind_of_config() {
    let mut c: StrategyCellConfig = strategy_cell_config(None).unwrap();
    assert_eq!(c.order_kind().unwrap(), OrderKind::Taker);
    c.kind = "maker".into();
    assert_eq!(c.order_kind().unwrap(), OrderKind::Maker);
    c.kind = "Maker".into();
    assert!(matches!(c.order_kind(), Err(RcError::Parse(_))));
}

fn canonical_cell(strategy: Option<&str>) -> String {
    let mut text = String::from(
        "{\"mode\":\"top_n\",\"n_levels\":3,\"theta_e8\":10000000,\"horizon_ms\":2000,\"venue\":\"Binance\",\"symbol\":\"BTCUSDT\"",
    );
    if let Some(s) = strategy {
        text.push_str(",\"strategy\":");
        text.push_str(s);
    }
    text.push('}');
    let v: serde_json::Value = serde_json::from_str(&text).unwrap();
    serde_json::to_string(&v).unwrap()
}

#[test]
fn gr_i_3_params_hash_covers_strategy_block_and_costs() {
    let base = canonical_cell(None);
    let with_strategy = canonical_cell(Some("{\"max_position_e8\":250000000}"));
    let other_strategy = canonical_cell(Some("{\"max_position_e8\":300000000}"));
    let h_base = cell_params_hash(&base, CostsMode::Baseline);
    assert_eq!(h_base, cell_params_hash(&base, CostsMode::Baseline));
    assert_ne!(h_base, cell_params_hash(&with_strategy, CostsMode::Baseline));
    assert_ne!(
        cell_params_hash(&with_strategy, CostsMode::Baseline),
        cell_params_hash(&other_strategy, CostsMode::Baseline)
    );
    assert_ne!(h_base, cell_params_hash(&base, CostsMode::CostX15));
    assert_eq!(h_base, sha256_hex(format!("{base}|costs_mode=baseline").as_bytes()));
}

#[test]
fn gr_i_5_capital_ref_is_max_position_notional() {
    assert_eq!(capital_ref_e8(2 * E8, 100 * E8), 200 * E8);
    assert_eq!(capital_ref_e8(E8, 0), 0);
    let mut b = OrderBook::new();
    b.apply_snapshot(
        &[Level { price: to_fixed(100.0), size: to_fixed(50.0) }, Level { price: to_fixed(99.0), size: to_fixed(50.0) }],
        &[Level { price: to_fixed(101.0), size: to_fixed(50.0) }],
    );
    assert_eq!(b.mid(), Some(to_fixed(100.5)));
}

#[test]
fn c_unsized_run_must_not_claim_capacity() {
    const R001_CAPACITY_E8: i64 = 50_794_443_807_313_248;
    assert!(validate_sizing_honesty(false, R001_CAPACITY_E8).is_err());
    assert!(validate_sizing_honesty(false, 0).is_ok());
    assert!(validate_sizing_honesty(true, R001_CAPACITY_E8).is_ok());
}

#[test]
fn max_drawdown_of_equity_curves() {
    assert_eq!(max_drawdown_e8(&[]), 0);
    assert_eq!(max_drawdown_e8(&[5, 10, 3, 8, 1, 4]), 9);
    assert_eq!(max_drawdown_e8(&[1, 2, 3]), 0);
    assert_eq!(max_drawdown_e8(&[i64::MAX, i64::MIN]), i64::MAX);
}

#[test]
fn split_range_two_thirds_train() {
    assert!(matches!(split_range(&[]), Err(RcError::CorruptInput(_))));
    assert!(matches!(split_range(&[7, 7]), Err(RcError::CorruptInput(_))));
    assert_eq!(split_range(&[300, 0, 100]).unwrap(), ((0, 200), (200, 301)));
}

#[test]
fn worst_stress_pnl() {
    assert_eq!(min_stress_pnl(&[]), 0);
    assert_eq!(min_stress_pnl(&[5, -3, 2]), -3);
}

#[test]
fn r001_grid_order() {
    let g = r001_grid();
    assert_eq!(g.len(), 64);
    assert_eq!(g[0], (1, 10_000_000, 500));
    assert_eq!(g[1], (1, 10_000_000, 1_000));
    assert_eq!(g[4], (1, 20_000_000, 500));
    assert_eq!(g[63], (20, 40_000_000, 5_000));
}

#[test]
fn verdict_text_round_trip() {
    for v in [Verdict::Pass, Verdict::Kill("oos_sharpe low".into()), Verdict::Inconclusive("bar".into())] {
        assert_eq!(Verdict::from_text(&v.to_text()).unwrap(), v);
    }
    assert_eq!(Verdict::Kill("x".into()).to_text(), "Kill: x");
    assert!(Verdict::from_text("pass").is_err());
}

#[test]
fn test_preregistration_required() {
    assert!(check_preregistration("# H-empty\nидея без критериев\n").is_err());
    let card = "# H-20260710-obi-asym\n\n## Гипотеза\nOBI предсказывает движение.\n\n## Критерии фальсификации (Kill)\n\n- Net Sharpe OOS ≤ 0.5\n- deflated Sharpe ≤ 0\n\n## Прочее\n";
    check_preregistration(card).expect("a registered card passes");
    let empty_section = "## КРИТЕРИИ ФАЛЬСИФИКАЦИИ\n\n   \n## Дальше\n- не относится\n";
    assert!(matches!(
        check_preregistration(empty_section),
        Err(RcError::PreRegistrationMissing(_))
    ));
    assert!(check_preregistration("критерии фальсификации: - на той же строке\n").is_err());
    assert!(check_preregistration("Критерии фальсификации\n  1. пункт\n").is_ok());
}

#[test]
fn code_hash_epoch_count_stays_within_family() {
    let ledger = Ledger::open("ledger.jsonl");
    let records = vec![
        TrialKey { signal_family: "obi".into(), code_hash: "h1".into() },
        TrialKey { signal_family: "obi".into(), code_hash: "h2".into() },
        TrialKey { signal_family: "mom".into(), code_hash: "h1".into() },
        TrialKey { signal_family: "obi".into(), code_hash: "h1".into() },
    ];
    let family = ledger.trial_count(&records, "obi").n();
    for h in ["h1", "h2", "h3"] {
        assert!(ledger.trial_count_for_code_hash(&records, "obi", h).n() <= family);
    }
    assert_eq!(ledger.trial_count_for_code_hash(&records, "obi", "h1").n(), 2);
    assert_eq!(ledger.trial_count_for_code_hash(&records, "obi", "h3").n(), 0);
    assert_eq!(family, 3);
}

#[test]
fn coverage_stays_a_share_of_the_window() {
    let marks: Vec<GapMark> = [0i64, 10, 30]
        .iter()
        .enumerate()
        .map(|(i, &t)| GapMark { seq: i as u64, ts_wall_ms: t, conn: ConnMark::Data })
        .collect();
    let all = gaps(&marks, vec!["e".into()], 0);
    assert_eq!(all.gap_total_ms, 30);
    assert_eq!(all.coverage_e8, 0);
    let one = gaps(&marks, vec!["e".into()], 15);
    assert_eq!(one.gap_total_ms, 20);
    assert_eq!(one.coverage_e8, 33_333_333);
    let none = gaps(&marks, vec!["e".into()], 100);
    assert_eq!(none.coverage_e8, E8);
}
