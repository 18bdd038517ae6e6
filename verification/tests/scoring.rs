use garbage_sim::model::{Input, Output, Step};
use garbage_sim::num::{isqrt, score_of_time, TIME_LIMIT_FP};
use garbage_sim::sim::vis;

fn empty_scenario() -> Input {
    Input { X: 0, Y: 0, Z: 0, garbage: vec![] }
}

/// A path whose only displacement is agent A's first endpoint moving `dx`
/// along the x axis: the elapsed time is exactly `dx` (fixed point).
fn straight_move(dx: i32) -> Output {
    Output {
        q: 1,
        init: [0, 0, 0, 0, 0, 0, 0, 0],
        steps: vec![Step([dx, 0, 0, 0, 0, 0, 0, 0])],
    }
}

#[test]
fn isqrt_exact_values() {
    assert_eq!(isqrt(0), 0);
    assert_eq!(isqrt(1), 1);
    assert_eq!(isqrt(3), 1);
    assert_eq!(isqrt(4), 2);
    assert_eq!(isqrt(99), 9);
    assert_eq!(isqrt(100), 10);
    assert_eq!(isqrt(10_000_000_000_000_000), 100_000_000);
}

#[test]
fn score_at_time_limit_is_maximum() {
    assert_eq!(score_of_time(TIME_LIMIT_FP), 1_000_000);
    // replaying a move of exactly 1e8 on a fully collected scenario
    let (score, err) = vis(&empty_scenario(), &straight_move(100_000_000), 1);
    assert_eq!(err, "");
    assert_eq!(score, 1_000_000);
}

#[test]
fn score_above_time_limit_is_zero() {
    let (score, err) = vis(&empty_scenario(), &straight_move(100_000_001), 1);
    assert_eq!(err, "");
    assert_eq!(score, 0);
}

#[test]
fn score_at_zero_time_is_maximum() {
    // the formula is undefined at zero elapsed time; it is defined as the
    // maximum score
    assert_eq!(score_of_time(0), 1_000_000);
    let (score, err) = vis(&empty_scenario(), &straight_move(0), 1);
    assert_eq!(err, "");
    assert_eq!(score, 1_000_000);
}

#[test]
fn score_at_half_time() {
    // time = 5e7: round(1e6 * (1 + log2(0.5))) = 0
    let (score, err) = vis(&empty_scenario(), &straight_move(50_000_000), 1);
    assert_eq!(err, "");
    assert_eq!(score, 0);
}

#[test]
fn score_grows_with_time_up_to_the_limit() {
    let mut last = score_of_time(1);
    for t in [
        1_000u64,
        65_536,
        1_000_000_000,
        3_276_800_000_000,
        6_000_000_000_000,
        TIME_LIMIT_FP,
    ] {
        let s = score_of_time(t);
        assert!(s >= last, "score dropped at {t}: {s} < {last}");
        last = s;
    }
    assert_eq!(last, 1_000_000);
}

#[test]
fn score_can_be_negative_for_small_times() {
    assert!(score_of_time(65_536) < 0);
}
