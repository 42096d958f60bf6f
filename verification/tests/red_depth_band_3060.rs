//! Depth lifetime: the band from 30 to 60 basis points.
use hft_research::market::{Level, Side};
use hft_research::depth_lifetime::{analyze, DeltaTick};

const UNIT: i64 = 100_000_000;
const MID: i64 = 64_000 * UNIT;

const B3060_LO: i64 = 3000;
const B1530_LO: i64 = 1500;
const PCT_45: f64 = 0.45;
const PCT_20: f64 = 0.20;
const NEAR_PCT: f64 = 0.0005;

fn lvl(pct: f64, side: Side, size_units: i64) -> Level {
    let price = match side {
        Side::Buy => MID as f64 * (1.0 - pct),
        Side::Sell => MID as f64 * (1.0 + pct),
    };
    Level {
        price: price as i64,
        size: size_units * UNIT,
    }
}

fn tick(u_first: u64, u_final: u64, ts_ms: i64, bids: Vec<Level>, asks: Vec<Level>) -> DeltaTick {
    DeltaTick {
        bids,
        asks,
        first_update_id: u_first,
        final_update_id: u_final,
        prev_final_update_id: None,
        ts_exch_ms: ts_ms,
    }
}

fn seed_bids() -> Vec<Level> {
    vec![lvl(NEAR_PCT, Side::Buy, 20)]
}
fn seed_asks() -> Vec<Level> {
    vec![lvl(NEAR_PCT, Side::Sell, 20)]
}

#[test]
fn dv_i_9_band_3060_distinct() {
    let ticks = vec![tick(
        1,
        1,
        1_000,
        {
            let mut b = seed_bids();
            b.push(lvl(PCT_20, Side::Buy, 10));
            b.push(lvl(PCT_45, Side::Buy, 10));
            b
        },
        seed_asks(),
    )];
    let r = analyze(&ticks);
    let b3060 = r
        .band(Side::Buy, B3060_LO)
        .expect("полоса [3000,6000) должна существовать");
    assert!(b3060.lives_born >= 1, "45%-уровень рождён в [3000,6000) ⇒ born≥1");
    assert_eq!(
        b3060.hi_bps, 6000,
        "верхняя граница полосы = 6000 bps (60%)"
    );
    let b1530 = r.band(Side::Buy, B1530_LO).expect("полоса [1500,3000)");
    assert!(
        b1530.lives_born >= 1,
        "20%-уровень отдельно в [1500,3000) ⇒ born≥1"
    );
    assert!(
        b1530.lives_born < 2,
        "20% и 45% — РАЗНЫЕ полосы; [1500,3000) не должна поглотить 45%-уровень"
    );
}

#[test]
fn dv_i_9_cancel_in_3060() {
    let ticks = vec![
        tick(
            1,
            1,
            1_000,
            {
                let mut b = seed_bids();
                b.push(lvl(PCT_45, Side::Buy, 10));
                b
            },
            seed_asks(),
        ),
        tick(2, 2, 2_000, vec![lvl(PCT_45, Side::Buy, 0)], vec![]),
    ];
    let r = analyze(&ticks);
    let b3060 = r
        .band(Side::Buy, B3060_LO)
        .expect("полоса [3000,6000) должна существовать");
    assert!(
        b3060.lives_cancelled >= 1,
        "явный size=0 на 45%-уровне ⇒ cancelled≥1 в [3000,6000) (живость новой полосы)"
    );
    assert_eq!(b3060.lives_frozen, 0, "отменённый уровень не frozen");
}
