//! Depth lifetime: cancelled, frozen and censored lives of book levels.
use hft_research::market::{Level, Side};
use hft_research::depth_lifetime::{analyze, DeltaTick};

const UNIT: i64 = 100_000_000;
const MID: i64 = 64_000 * UNIT;

fn lvl(pct: f64, side: Side, size_units: i64) -> Level {
    let price = match side {
        Side::Buy => MID as f64 * (1.0 - pct),
        Side::Sell => MID as f64 * (1.0 + pct),
    };
    Level {
        price: price as i64,
        size: size_units * UNIT,
    }
}

fn tick(u_first: u64, u_final: u64, ts_ms: i64, bids: Vec<Level>, asks: Vec<Level>) -> DeltaTick {
    DeltaTick {
        bids,
        asks,
        first_update_id: u_first,
        final_update_id: u_final,
        prev_final_update_id: None,
        ts_exch_ms: ts_ms,
    }
}

const NEAR_LO: i64 = 0;
const FAR_LO: i64 = 500;
const FAR_PCT: f64 = 0.06;
const NEAR_PCT: f64 = 0.0005;

fn seed_bids() -> Vec<Level> {
    vec![lvl(NEAR_PCT, Side::Buy, 20)]
}
fn seed_asks() -> Vec<Level> {
    vec![lvl(NEAR_PCT, Side::Sell, 20)]
}

#[test]
fn dv_i_1_explicit_cancel_is_live() {
    let ticks = vec![
        tick(
            1,
            1,
            1_000,
            {
                let mut b = seed_bids();
                b.push(lvl(FAR_PCT, Side::Buy, 10));
                b
            },
            seed_asks(),
        ),
        tick(2, 2, 2_000, vec![lvl(FAR_PCT, Side::Buy, 0)], vec![]),
    ];
    let r = analyze(&ticks);
    let far = r
        .band(Side::Buy, FAR_LO)
        .expect("дальняя полоса должна присутствовать");
    assert!(far.lives_cancelled >= 1, "явный size=0 ⇒ cancelled≥1 (живой)");
    assert_eq!(far.lives_frozen, 0, "отменённый уровень не может быть frozen");
}

#[test]
fn dv_i_2_never_cancelled_is_frozen() {
    let ticks = vec![
        tick(
            1,
            1,
            1_000,
            {
                let mut b = seed_bids();
                b.push(lvl(FAR_PCT, Side::Buy, 10));
                b
            },
            seed_asks(),
        ),
        tick(2, 2, 2_000, seed_bids(), vec![]),
        tick(3, 3, 3_000, seed_bids(), vec![]),
    ];
    let r = analyze(&ticks);
    let far = r.band(Side::Buy, FAR_LO).expect("дальняя полоса");
    assert!(far.lives_frozen >= 1, "жив на конце окна, ни разу size=0 ⇒ frozen≥1");
    assert_eq!(far.lives_cancelled, 0, "не было явной отмены ⇒ cancelled=0");
    assert_eq!(far.lives_censored, 0, "gap'а не было ⇒ censored=0");
}

#[test]
fn dv_i_3_gap_vanish_is_censored_not_cancel() {
    let ticks = vec![
        tick(
            1,
            1,
            1_000,
            {
                let mut b = seed_bids();
                b.push(lvl(FAR_PCT, Side::Buy, 10));
                b
            },
            seed_asks(),
        ),
        tick(100, 100, 2_000, seed_bids(), vec![]),
        tick(101, 101, 3_000, seed_bids(), vec![]),
    ];
    let r = analyze(&ticks);
    assert!(r.gaps >= 1, "скачок update-id ⇒ gap задетектирован");
    let far = r.band(Side::Buy, FAR_LO).expect("дальняя полоса");
    assert!(far.lives_censored >= 1, "исчез через gap ⇒ censored≥1 (fate неизвестен)");
    assert_eq!(
        far.lives_cancelled, 0,
        "gap-исчезновение НЕ отмена (наивный анализатор соврал бы 'живой')"
    );
    assert_eq!(
        far.lives_frozen, 0,
        "gap-исчезновение НЕ заморозка (уровень не дожил до конца окна валидно)"
    );
}

#[test]
fn dv_i_4_absence_is_not_deletion() {
    let ticks = vec![
        tick(
            1,
            1,
            1_000,
            {
                let mut b = seed_bids();
                b.push(lvl(FAR_PCT, Side::Buy, 10));
                b
            },
            seed_asks(),
        ),
        tick(2, 2, 2_000, vec![lvl(NEAR_PCT, Side::Buy, 21)], vec![]),
        tick(3, 3, 3_000, vec![lvl(NEAR_PCT, Side::Buy, 22)], vec![]),
        tick(4, 4, 4_000, vec![lvl(NEAR_PCT, Side::Buy, 23)], vec![]),
        tick(5, 5, 5_000, vec![lvl(FAR_PCT, Side::Buy, 0)], vec![]),
    ];
    let r = analyze(&ticks);
    let far = r.band(Side::Buy, FAR_LO).expect("дальняя полоса");
    assert!(far.lives_cancelled >= 1, "уровень дожил до явной size=0 ⇒ cancelled≥1");
    assert_eq!(far.lives_frozen, 0, "молчание не должно преждевременно замораживать");
}

#[test]
fn dv_i_5_determinism() {
    let mk = || {
        vec![
            tick(
                1,
                1,
                1_000,
                {
                    let mut b = seed_bids();
                    b.push(lvl(FAR_PCT, Side::Buy, 10));
                    b
                },
                {
                    let mut a = seed_asks();
                    a.push(lvl(FAR_PCT, Side::Sell, 10));
                    a
                },
            ),
            tick(2, 2, 2_000, vec![lvl(FAR_PCT, Side::Buy, 0)], seed_asks()),
        ]
    };
    let r1 = analyze(&mk());
    let r2 = analyze(&mk());
    assert_eq!(r1, r2, "тот же вход ⇒ байт-идентичный отчёт (VB-I-1 класс)");
    let keyed: Vec<(i64, i64)> = r1.bands.iter().map(|b| (b.side as i64, b.lo_bps)).collect();
    let mut sorted = keyed.clone();
    sorted.sort();
    assert_eq!(keyed, sorted, "bands обязаны быть отсортированы (детерминизм порядка)");
}

#[test]
fn dv_i_checklist_asymmetry_and_multiplicity() {
    let ticks = vec![
        tick(
            1,
            1,
            1_000,
            {
                let mut b = seed_bids();
                b.push(lvl(FAR_PCT, Side::Buy, 10));
                b.push(lvl(0.065, Side::Buy, 10));
                b
            },
            {
                let mut a = seed_asks();
                a.push(lvl(FAR_PCT, Side::Sell, 10));
                a
            },
        ),
        tick(
            2,
            2,
            2_000,
            vec![lvl(FAR_PCT, Side::Buy, 0), lvl(0.065, Side::Buy, 0)],
            vec![],
        ),
    ];
    let r = analyze(&ticks);
    let far_bid = r.band(Side::Buy, FAR_LO).expect("дальняя bid-полоса");
    assert!(
        far_bid.lives_cancelled >= 2,
        "две отмены в одном тике ⇒ cancelled≥2 (наивный 'один' падает)"
    );
    let far_ask = r.band(Side::Sell, FAR_LO).expect("дальняя ask-полоса");
    assert_eq!(far_ask.lives_cancelled, 0, "ask-сторона молчала ⇒ не отменена");
    assert_eq!(far_ask.lives_censored, 0, "односторонний bid-тик не роняет ask в censored");
    assert!(far_ask.lives_frozen >= 1, "молчащий ask-уровень жив ⇒ frozen≥1");
}
