use spire_calculator::bignat::BigNat;
use spire_calculator::draw_rates::{armored_health_loss, deck_draw_rate, single_turn_sum, Ratio};

fn to_u128(n: &BigNat) -> u128 {
    let limbs = n.limbs();
    let mut v: u128 = 0;
    for (i, l) in limbs.iter().enumerate().rev() {
        if *l != 0 {
            assert!(i < 4, "value does not fit in 128 bits");
        }
        v = (v << 32) | (*l as u128);
    }
    v
}

fn gcd(a: u128, b: u128) -> u128 {
    if b == 0 {
        a
    } else {
        gcd(b, a % b)
    }
}

fn reduced(r: &Ratio) -> (u128, u128) {
    let n = to_u128(r.numer());
    let d = to_u128(r.denom());
    assert!(d > 0);
    let g = gcd(n, d);
    (n / g, d / g)
}

fn same_value(r: &Ratio, n: u128, d: u128) -> bool {
    let g = gcd(n, d);
    reduced(r) == (n / g, d / g)
}

fn as_f64(r: &Ratio) -> f64 {
    to_u128(r.numer()) as f64 / to_u128(r.denom()) as f64
}

#[test]
fn single_turn_five_of_twenty_five_as_percent() {
    let r = single_turn_sum(5, 5, 25, true);
    // 1 - C(20,5)/C(25,5) = 1 - (20*19*18*17*16)/(25*24*23*22*21)
    assert!(same_value(&r, 100 * 4515120, 6375600));
    assert!((as_f64(&r) - 70.8187).abs() < 0.001);
}

#[test]
fn single_turn_five_of_twenty_five_as_fraction() {
    let r = single_turn_sum(5, 5, 25, false);
    assert!(same_value(&r, 4515120, 6375600));
}

#[test]
fn single_turn_without_targets_is_zero() {
    for k in [0u32, 1, 5, 25, 40] {
        for n in [0u32, 1, 25, 60] {
            let r = single_turn_sum(k, 0, n, false);
            assert_eq!(to_u128(r.numer()), 0);
        }
    }
}

#[test]
fn single_turn_without_draws_is_zero() {
    for m in [1u32, 3, 25] {
        let r = single_turn_sum(0, m, 25, false);
        assert_eq!(to_u128(r.numer()), 0);
        assert!(to_u128(r.denom()) > 0);
    }
}

#[test]
fn single_turn_rises_with_targets() {
    for k in [1u32, 3, 5, 10] {
        let mut prev = single_turn_sum(k, 0, 25, false);
        for m in 1..=25u32 {
            let cur = single_turn_sum(k, m, 25, false);
            let (pn, pd) = reduced(&prev);
            let (cn, cd) = reduced(&cur);
            assert!(pn * cd <= cn * pd);
            prev = cur;
        }
    }
}

#[test]
fn single_turn_within_unit_interval() {
    for k in 0..=12u32 {
        for m in 1..=12u32 {
            let r = single_turn_sum(k, m, 12, false);
            let (n, d) = reduced(&r);
            assert!(n <= d);
        }
    }
}

#[test]
fn single_turn_percent_is_hundredfold() {
    for (k, m, n) in [(5u32, 5u32, 25u32), (1, 1, 2), (3, 7, 40), (0, 2, 9)] {
        let frac = single_turn_sum(k, m, n, false);
        let pct = single_turn_sum(k, m, n, true);
        assert_eq!(to_u128(pct.numer()), 100 * to_u128(frac.numer()));
        assert_eq!(to_u128(pct.denom()), to_u128(frac.denom()));
    }
}

#[test]
fn single_turn_one_card_one_target() {
    let r = single_turn_sum(1, 1, 4, true);
    assert!(same_value(&r, 25, 1));
}

#[test]
fn single_turn_more_targets_than_cards_is_zero() {
    let r = single_turn_sum(1, 26, 25, false);
    assert_eq!(to_u128(r.numer()), 0);
    assert_eq!(to_u128(r.denom()), 1);
}

#[test]
fn single_turn_drawing_past_the_deck_is_certain() {
    let r = single_turn_sum(30, 5, 25, false);
    assert!(same_value(&r, 1, 1));
    let r = single_turn_sum(21, 5, 25, false);
    assert!(same_value(&r, 1, 1));
}

#[test]
fn deck_rate_five_of_twenty_five() {
    let r = deck_draw_rate(5, 5, 25);
    let numer: u128 = 4515120 * 3240000 * 2177400 * 1299600;
    let denom: u128 = 6375600 * 5100480 * 4037880 * 3160080;
    assert!(same_value(&r, 100 * numer, denom));
    assert!((as_f64(&r) - 9.97651).abs() < 0.0001);
}

#[test]
fn deck_rate_without_targets_is_zero() {
    let r = deck_draw_rate(5, 0, 25);
    assert_eq!(to_u128(r.numer()), 0);
    assert!(to_u128(r.denom()) > 0);
}

#[test]
fn deck_rate_single_turn_deck_is_hundred() {
    assert!(same_value(&deck_draw_rate(5, 25, 25), 100, 1));
    assert!(same_value(&deck_draw_rate(5, 30, 25), 100, 1));
    assert!(same_value(&deck_draw_rate(5, 3, 0), 100, 1));
}

#[test]
fn deck_rate_runs_out_of_targets() {
    // ceil(25 / 2) = 13 turns: the third turn already has no target left.
    let r = deck_draw_rate(5, 2, 25);
    assert_eq!(to_u128(r.numer()), 0);
}

#[test]
fn deck_rate_two_turns() {
    // ceil(10 / 5) = 2 turns: one factor, the chance of the first turn.
    let r = deck_draw_rate(2, 5, 10);
    // 1 - (5*4)/(10*9)
    assert!(same_value(&r, 100 * 70, 90));
}

#[test]
fn net_delta_example() {
    assert_eq!(armored_health_loss(&vec![3, 4], &vec![2, 1]), 4);
}

#[test]
fn net_delta_short_streams() {
    assert_eq!(armored_health_loss(&vec![], &vec![]), 0);
    assert_eq!(armored_health_loss(&vec![7], &vec![]), 7);
    assert_eq!(armored_health_loss(&vec![], &vec![9]), -9);
    assert_eq!(armored_health_loss(&vec![5, 6], &vec![12]), -1);
}

#[test]
fn net_delta_large_partial_sums() {
    let gains = vec![i32::MAX, i32::MAX, 10];
    let losses = vec![i32::MAX, i32::MAX];
    assert_eq!(armored_health_loss(&gains, &losses), 10);
    let gains = vec![i32::MIN, i32::MIN];
    let losses = vec![i32::MIN, i32::MIN, 1];
    assert_eq!(armored_health_loss(&gains, &losses), -1);
}
