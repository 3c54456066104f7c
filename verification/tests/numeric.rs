use mct_rs::fixed::exp_neg_fp;
use mct_rs::fixed::isqrt_u64;
use mct_rs::fixed::log2_floor;
use mct_rs::fixed::q_less;
use mct_rs::fixed::q_value_fp;
use mct_rs::fixed::sat_add_i64;
use mct_rs::fixed::sat_inc_u64;
use mct_rs::fixed::ucb1_bonus;
use mct_rs::rand::genrand;

#[test]
fn genrand_stays_in_range() {
    for _ in 0..1000 {
        let r = genrand(3, 17);
        assert!(3 <= r && r < 17);
    }
    for _ in 0..100 {
        let r = genrand(0, 1);
        assert_eq!(r, 0);
    }
    assert_eq!(genrand(5, 6), 5);
}

#[test]
fn genrand_reaches_every_value() {
    let mut seen = [false; 4];
    for _ in 0..1000 {
        seen[genrand(0, 4)] = true;
    }
    assert!(seen.iter().all(|s| *s));
}

#[test]
fn saturating_helpers_clamp_at_the_bounds() {
    assert_eq!(sat_add_i64(1, 2), 3);
    assert_eq!(sat_add_i64(i64::MAX, 1), i64::MAX);
    assert_eq!(sat_add_i64(i64::MIN, -1), i64::MIN);
    assert_eq!(sat_add_i64(i64::MAX, i64::MIN), -1);
    assert_eq!(sat_inc_u64(41), 42);
    assert_eq!(sat_inc_u64(u64::MAX), u64::MAX);
}

#[test]
fn log2_floor_matches_the_usual_values() {
    assert_eq!(log2_floor(1), 0);
    assert_eq!(log2_floor(2), 1);
    assert_eq!(log2_floor(3), 1);
    assert_eq!(log2_floor(4), 2);
    assert_eq!(log2_floor(1023), 9);
    assert_eq!(log2_floor(1024), 10);
    assert_eq!(log2_floor(u64::MAX), 63);
}

#[test]
fn isqrt_matches_the_usual_values() {
    assert_eq!(isqrt_u64(0), 0);
    assert_eq!(isqrt_u64(1), 1);
    assert_eq!(isqrt_u64(3), 1);
    assert_eq!(isqrt_u64(4), 2);
    assert_eq!(isqrt_u64(99), 9);
    assert_eq!(isqrt_u64(100), 10);
    assert_eq!(isqrt_u64(u64::MAX), 4294967295);
}

#[test]
fn exp_weight_is_full_at_zero_and_shrinks() {
    assert_eq!(exp_neg_fp(0), 1024);
    // 1024^2 / (1024 + 1024 + 1024*1024/2048) = 1048576 / 2560
    assert_eq!(exp_neg_fp(1024), 409);
    assert!(exp_neg_fp(2048) < exp_neg_fp(1024));
    assert_eq!(exp_neg_fp(8193), 0);
}

#[test]
fn ucb1_bonus_values() {
    // Unvisited parent and child count as one visit each; ln(1) = 0.
    assert_eq!(ucb1_bonus(0, 0), 0);
    assert_eq!(ucb1_bonus(1, 1), 0);
    // isqrt(2 * 1024 * 710) = isqrt(1454080) = 1205.
    assert_eq!(ucb1_bonus(2, 1), 1205);
    // A much-visited child earns a small bonus.
    assert!(ucb1_bonus(2, 100) < ucb1_bonus(2, 1));
}

#[test]
fn q_value_is_truncated_scaled_mean() {
    assert_eq!(q_value_fp(0, 0), 0);
    assert_eq!(q_value_fp(123, 0), 0);
    assert_eq!(q_value_fp(10, 1), 10240);
    assert_eq!(q_value_fp(1, 3), 341); // floor(1024 / 3)
    assert_eq!(q_value_fp(-1, 3), -341); // rounded toward zero
}

#[test]
fn q_less_compares_exact_rationals() {
    // 1/3 < 2/5
    assert!(q_less(1, 3, 2, 5));
    assert!(!q_less(2, 5, 1, 3));
    // equal rationals 2/4 == 1/2
    assert!(!q_less(2, 4, 1, 2));
    assert!(!q_less(1, 2, 2, 4));
    // an unvisited entry counts as 0
    assert!(q_less(5, 0, 1, 2));
    assert!(q_less(-1, 2, 7, 0));
    assert!(!q_less(3, 0, 9, 0));
}
