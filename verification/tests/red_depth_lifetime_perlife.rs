//! Depth lifetime: lives counted one by one.
use hft_research::market::{Level, Side};
use hft_research::depth_lifetime::{analyze, BandReport, DeltaTick};

fn cancel_fraction(b: &BandReport) -> Option<f64> {
    b.cancel_ratio().map(|(n, d)| n as f64 / d as f64)
}

const UNIT: i64 = 100_000_000;
const MID: i64 = 64_000 * UNIT;

fn lvl_at(mid_ref: i64, pct: f64, side: Side, size_units: i64) -> Level {
    let price = match side {
        Side::Buy => mid_ref as f64 * (1.0 - pct),
        Side::Sell => mid_ref as f64 * (1.0 + pct),
    };
    Level {
        price: price as i64,
        size: size_units * UNIT,
    }
}

fn lvl(pct: f64, side: Side, size_units: i64) -> Level {
    lvl_at(MID, pct, side, size_units)
}

fn tick(u_first: u64, u_final: u64, bids: Vec<Level>, asks: Vec<Level>) -> DeltaTick {
    DeltaTick {
        bids,
        asks,
        first_update_id: u_first,
        final_update_id: u_final,
        prev_final_update_id: None,
        ts_exch_ms: 1_700_000_000_000,
    }
}

fn seed(mid_ref: i64) -> (Vec<Level>, Vec<Level>) {
    (
        vec![lvl_at(mid_ref, 0.001, Side::Buy, 10)],
        vec![lvl_at(mid_ref, 0.001, Side::Sell, 10)],
    )
}

const FAR_PCT: f64 = 0.06;
const FAR_LO_BPS: i64 = 500;

#[test]
fn dv_i_10_rebirth_on_same_price_is_a_new_life() {
    let (sb, sa) = seed(MID);
    let ticks = vec![
        tick(1, 1, sb, sa),
        tick(2, 2, vec![lvl(FAR_PCT, Side::Buy, 5)], vec![]),
        tick(3, 3, vec![lvl(FAR_PCT, Side::Buy, 0)], vec![]),
        tick(4, 4, vec![lvl(FAR_PCT, Side::Buy, 7)], vec![]),
        tick(5, 5, vec![], vec![]),
    ];

    let rep = analyze(&ticks);
    let b = rep
        .band(Side::Buy, FAR_LO_BPS)
        .expect("полоса [500,800) bid обязана быть в отчёте");

    assert_eq!(b.lives_born, 2, "две жизни одной цены — два рождения");
    assert_eq!(b.lives_cancelled, 1, "жизнь 1 закончилась явным size=0");
    assert_eq!(
        b.lives_frozen, 1,
        "жизнь 2 жива на конце окна — это frozen, а НЕ отмена; \
         именно здесь старая метрика прятала сигнатуру фантома"
    );
    assert_eq!(b.lives_censored, 0, "gap'ов в фикстуре нет");
    assert_eq!(
        cancel_fraction(b),
        Some(0.5),
        "1 отменённая из 2 завершённых эпизодов"
    );
}

fn window_with_cycles(cycles: u64) -> Vec<DeltaTick> {
    let (sb, sa) = seed(MID);
    let mut ticks = vec![tick(1, 1, sb, sa)];
    let mut u = 2u64;
    for _ in 0..cycles {
        ticks.push(tick(u, u, vec![lvl(FAR_PCT, Side::Buy, 5)], vec![]));
        u += 1;
        ticks.push(tick(u, u, vec![lvl(FAR_PCT, Side::Buy, 0)], vec![]));
        u += 1;
    }
    ticks.push(tick(u, u, vec![lvl(FAR_PCT, Side::Buy, 9)], vec![]));
    u += 1;
    ticks.push(tick(u, u, vec![], vec![]));
    ticks
}

#[test]
fn dv_i_11_metric_does_not_saturate_with_window_length() {
    let short = analyze(&window_with_cycles(1));
    let long = analyze(&window_with_cycles(3));

    let bs = short.band(Side::Buy, FAR_LO_BPS).expect("полоса short");
    let bl = long.band(Side::Buy, FAR_LO_BPS).expect("полоса long");

    assert_eq!(
        (bs.lives_born, bs.lives_cancelled, bs.lives_frozen),
        (2, 1, 1)
    );
    assert_eq!(
        (bl.lives_born, bl.lives_cancelled, bl.lives_frozen),
        (4, 3, 1)
    );

    assert_eq!(cancel_fraction(bs), Some(0.5), "1 из 2 эпизодов");
    assert_eq!(cancel_fraction(bl), Some(0.75), "3 из 4 эпизодов");

    assert_eq!(
        bl.lives_frozen, 1,
        "живая на конце окна жизнь не должна исчезать"
    );
    assert!(
        cancel_fraction(bl) < Some(1.0),
        "величина не имеет права насыщаться до 1.0 при живом уровне на конце окна"
    );
}

#[test]
fn dv_i_12_censored_life_does_not_poison_later_lives() {
    let (sb, sa) = seed(MID);
    let ticks = vec![
        tick(1, 1, sb, sa),
        tick(2, 2, vec![lvl(FAR_PCT, Side::Buy, 5)], vec![]),
        tick(9, 9, vec![lvl(FAR_PCT, Side::Buy, 6)], vec![]),
        tick(3, 3, vec![lvl(FAR_PCT, Side::Buy, 7)], vec![]),
        tick(4, 4, vec![], vec![]),
    ];

    let rep = analyze(&ticks);
    let b = rep
        .band(Side::Buy, FAR_LO_BPS)
        .expect("полоса [500,800) bid");

    assert_eq!(rep.gaps, 1, "ровно один разрыв непрерывности");
    assert_eq!(
        b.lives_censored, 1,
        "жизнь 1 оборвана gap'ом — fate неизвестен"
    );
    assert_eq!(
        b.lives_born, 2,
        "после восстановления потока цена родилась заново — это вторая жизнь"
    );
    assert_eq!(b.lives_frozen, 1, "жизнь 2 жива на конце окна");
    assert_eq!(b.lives_cancelled, 0, "явного size=0 не было ни разу");
    assert_eq!(
        cancel_fraction(b),
        Some(0.0),
        "censored вне знаменателя: 0 отменённых из 1 завершённого эпизода"
    );
}

#[test]
fn dv_i_13_lives_balance_on_degraded_input() {
    let (sb, sa) = seed(MID);
    let ticks = vec![
        tick(1, 1, sb, sa),
        tick(
            2,
            2,
            vec![lvl(FAR_PCT, Side::Buy, 3), lvl(FAR_PCT, Side::Buy, 0)],
            vec![],
        ),
        tick(3, 3, vec![lvl(0.20, Side::Buy, 4)], vec![]),
        tick(4, 4, vec![], vec![lvl(FAR_PCT, Side::Sell, 2)]),
        tick(5, 5, vec![], vec![]),
        tick(6, 6, vec![lvl(FAR_PCT, Side::Buy, 8)], vec![]),
        tick(7, 7, vec![lvl(FAR_PCT, Side::Buy, 0)], vec![]),
        tick(8, 8, vec![lvl(0.20, Side::Buy, 0)], vec![]),
        tick(9, 9, vec![], vec![]),
    ];

    let rep = analyze(&ticks);

    for b in &rep.bands {
        assert_eq!(
            b.lives_born,
            b.lives_cancelled + b.lives_frozen + b.lives_censored,
            "баланс жизней нарушен в полосе {:?} [{},{}): born={} c={} f={} cen={}",
            b.side,
            b.lo_bps,
            b.hi_bps,
            b.lives_born,
            b.lives_cancelled,
            b.lives_frozen,
            b.lives_censored,
        );
    }

    let far_bid = rep
        .band(Side::Buy, FAR_LO_BPS)
        .expect("полоса [500,800) bid");
    assert_eq!(
        (far_bid.lives_born, far_bid.lives_cancelled),
        (2, 2),
        "две полные жизни одной цены — два рождения и две отмены; \
         первая уместилась внутри одного тика и теряться не имеет права"
    );
    assert_eq!(far_bid.lives_frozen, 0, "обе жизни завершены явным size=0");

    let far_ask = rep
        .band(Side::Sell, FAR_LO_BPS)
        .expect("полоса [500,800) ask");
    assert_eq!(
        far_ask.lives_frozen, 1,
        "ask не упоминался после рождения — он жив, а не удалён"
    );
    assert_eq!(far_ask.lives_cancelled, 0);
}

#[test]
fn dv_i_14_band_is_attributed_per_life_and_output_is_deterministic() {
    let (sb, sa) = seed(MID);
    let target = lvl(FAR_PCT, Side::Buy, 5);
    let target_price = target.price;

    let moved_mid = MID + MID / 10;
    let (nb, na) = seed(moved_mid);

    let ticks = vec![
        tick(1, 1, sb.clone(), sa.clone()),
        tick(2, 2, vec![target.clone()], vec![]),
        tick(
            3,
            3,
            vec![Level {
                price: target_price,
                size: 0,
            }],
            vec![],
        ),
        tick(
            4,
            4,
            vec![lvl_at(MID, 0.001, Side::Buy, 0)],
            vec![lvl_at(MID, 0.001, Side::Sell, 0)],
        ),
        tick(5, 5, nb, na),
        tick(
            6,
            6,
            vec![Level {
                price: target_price,
                size: 6,
            }],
            vec![],
        ),
        tick(7, 7, vec![], vec![]),
    ];

    let rep = analyze(&ticks);

    let near = rep
        .band(Side::Buy, FAR_LO_BPS)
        .expect("полоса первой жизни обязана присутствовать");
    assert_eq!(near.lives_born, 1, "в старой полосе — только ПЕРВАЯ жизнь");
    assert_eq!(near.lives_cancelled, 1);
    assert_eq!(
        near.lives_frozen, 0,
        "вторая жизнь родилась при другом mid и в эту полосу не входит"
    );

    let deeper: u64 = rep
        .bands
        .iter()
        .filter(|b| b.side == Side::Buy && b.lo_bps > FAR_LO_BPS)
        .map(|b| b.lives_frozen)
        .sum();
    assert_eq!(
        deeper, 1,
        "вторая жизнь обязана быть атрибутирована по mid НА МОМЕНТ СВОЕГО рождения"
    );

    assert_eq!(rep, analyze(&ticks), "вывод обязан быть детерминирован");
}
