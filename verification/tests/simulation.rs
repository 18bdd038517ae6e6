use garbage_sim::model::{max_turn, GKind, Garbage, Input, Output, Step};
use garbage_sim::sim::{replay, vis};

fn one_point_scenario(kind: GKind) -> Input {
    let (x, y, z) = match kind {
        GKind::Burn => (1, 0, 0),
        GKind::NonBurn => (0, 1, 0),
        GKind::Recycle => (0, 0, 1),
    };
    Input {
        X: x,
        Y: y,
        Z: z,
        garbage: vec![Garbage { x: 500_000, y: 500_000, kind }],
    }
}

fn full_sweep_a() -> Output {
    // agent A's second endpoint sweeps from the origin across the whole
    // domain diagonal; agent B never moves
    Output {
        q: 1,
        init: [0, 0, 0, 0, 0, 0, 0, 0],
        steps: vec![Step([0, 0, 1_000_000, 1_000_000, 0, 0, 0, 0])],
    }
}

#[test]
fn sweep_collects_burn_point() {
    let inp = one_point_scenario(GKind::Burn);
    let out = full_sweep_a();
    let (remaining, last, time) = replay(&inp, &out, 1);
    assert_eq!(remaining.len(), 0);
    assert_eq!(last, [0, 0, 1_000_000, 1_000_000, 0, 0, 0, 0]);
    // the only displacement is agent A's second endpoint, sqrt(2) * 1e6,
    // in 16-bit fixed point
    assert_eq!(time, 92_681_900_023);
    let (score, err) = vis(&inp, &out, 1);
    assert_eq!(err, "");
    // round(1e6 * (1 + log2(sqrt(2) * 1e6 / 1e8))), under the fixed-point log
    assert_eq!(score, -5_143_856);
}

#[test]
fn agent_a_ignores_nonburn() {
    let inp = one_point_scenario(GKind::NonBurn);
    // agent A sweeps the whole diagonal; agent B holds a short segment on
    // the x axis, whose degenerate sweep contains only that segment
    let out = Output {
        q: 1,
        init: [0, 0, 0, 0, 0, 0, 1, 0],
        steps: vec![Step([0, 0, 1_000_000, 1_000_000, 0, 0, 1, 0])],
    };
    let (remaining, _, _) = replay(&inp, &out, 1);
    assert_eq!(remaining.len(), 1);
    let (score, err) = vis(&inp, &out, 1);
    assert_eq!(score, 0);
    assert_eq!(err, "uncollected burn=0 nonburn=1");
}

#[test]
fn agent_b_collects_nonburn() {
    let inp = one_point_scenario(GKind::NonBurn);
    let out = Output {
        q: 1,
        init: [0, 0, 0, 0, 0, 0, 0, 0],
        steps: vec![Step([0, 0, 0, 0, 0, 0, 1_000_000, 1_000_000])],
    };
    let (remaining, _, _) = replay(&inp, &out, 1);
    assert_eq!(remaining.len(), 0);
    let (_, err) = vis(&inp, &out, 1);
    assert_eq!(err, "");
}

#[test]
fn recycle_points_persist() {
    let inp = one_point_scenario(GKind::Recycle);
    let out = Output {
        q: 1,
        init: [0, 0, 0, 0, 0, 0, 0, 0],
        steps: vec![Step([
            0, 0, 1_000_000, 1_000_000, 0, 0, 1_000_000, 1_000_000,
        ])],
    };
    let (remaining, _, _) = replay(&inp, &out, 1);
    assert_eq!(remaining.len(), 1);
    // recyclable points do not count toward the completion check
    let (_, err) = vis(&inp, &out, 1);
    assert_eq!(err, "");
}

#[test]
fn uncollected_message_names_both_counts() {
    let garbage = vec![
        Garbage { x: 100_000, y: 100_000, kind: GKind::Burn },
        Garbage { x: 200_000, y: 200_000, kind: GKind::Burn },
        Garbage { x: 300_000, y: 300_000, kind: GKind::NonBurn },
    ];
    let inp = Input { X: 2, Y: 1, Z: 0, garbage };
    let out = Output { q: 0, init: [0; 8], steps: vec![] };
    let (score, err) = vis(&inp, &out, 10);
    assert_eq!(score, 0);
    assert_eq!(err, "uncollected burn=2 nonburn=1");
}

#[test]
fn turn_limit_stops_replay() {
    let inp = one_point_scenario(GKind::Burn);
    let out = full_sweep_a();
    // a zero turn limit replays nothing: the point survives
    let (remaining, last, time) = replay(&inp, &out, 0);
    assert_eq!(remaining.len(), 1);
    assert_eq!(last, [0; 8]);
    assert_eq!(time, 0);
}

#[test]
fn boundary_points_are_collected() {
    // a point on the sweep triangle's edge counts as inside
    let inp = Input {
        X: 1,
        Y: 0,
        Z: 0,
        garbage: vec![Garbage { x: 500_000, y: 0, kind: GKind::Burn }],
    };
    let out = Output {
        q: 1,
        init: [0, 0, 0, 0, 0, 0, 0, 0],
        steps: vec![Step([0, 0, 1_000_000, 0, 0, 0, 0, 0])],
    };
    let (remaining, _, _) = replay(&inp, &out, 1);
    assert_eq!(remaining.len(), 0);
}

#[test]
fn max_turn_is_step_count() {
    let out = full_sweep_a();
    assert_eq!(max_turn(&out), 1);
    let out0 = Output { q: 0, init: [0; 8], steps: vec![] };
    assert_eq!(max_turn(&out0), 0);
}
