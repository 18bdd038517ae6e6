use garbage_sim::gen::{gen, gen_category};
use garbage_sim::model::{GKind, Garbage, Input};
use rand::Rng;
use rand::SeedableRng;
use rand_chacha::ChaCha20Rng;
use rand_distr::StandardNormal;

/// A pool of standard-normal pairs in 16-bit fixed point, derived from the
/// seed so that generation stays a deterministic function of the seed.
fn normal_pool(seed: u64, n: usize) -> Vec<(i64, i64)> {
    let mut rng = ChaCha20Rng::seed_from_u64(seed ^ 0x9e37_79b9_7f4a_7c15);
    (0..n)
        .map(|_| {
            let a: f64 = rng.sample(StandardNormal);
            let b: f64 = rng.sample(StandardNormal);
            (
                (a * 65536.0).round() as i64,
                (b * 65536.0).round() as i64,
            )
        })
        .collect()
}

fn generate(seed: u64) -> Input {
    let pool = normal_pool(seed, 400_000);
    gen(seed, &pool).expect("generation within the retry budget")
}

fn check_basic(inp: &Input, seed: u64) {
    assert_eq!(inp.X, 100);
    match seed % 3 {
        0 => {
            assert_eq!(inp.Y, 0);
            assert!(10 <= inp.Z && inp.Z <= 100);
        }
        1 => {
            assert_eq!(inp.Y, 100);
            assert_eq!(inp.Z, 0);
        }
        _ => {
            assert_eq!(inp.Y, 100);
            assert!(1 <= inp.Z && inp.Z <= 100);
        }
    }
    assert_eq!(inp.garbage.len(), inp.X + inp.Y + inp.Z);
    for (i, g) in inp.garbage.iter().enumerate() {
        assert!(1 <= g.x && g.x <= 999_999);
        assert!(1 <= g.y && g.y <= 999_999);
        let expect = if i < inp.X {
            GKind::Burn
        } else if i < inp.X + inp.Y {
            GKind::NonBurn
        } else {
            GKind::Recycle
        };
        assert_eq!(g.kind, expect);
    }
}

fn check_spacing(inp: &Input) {
    let n = inp.garbage.len();
    for i in 0..n {
        for j in (i + 1)..n {
            let a = inp.garbage[i];
            let b = inp.garbage[j];
            let d2 = ((a.x - b.x) as i64).pow(2) + ((a.y - b.y) as i64).pow(2);
            assert!(d2 >= 1_000_000, "points {i} and {j} too close: {d2}");
        }
    }
}

fn check_quadrants(inp: &Input) {
    let mut hit = [false; 4];
    for g in inp.garbage.iter().take(100) {
        if g.x <= 400_000 && g.y <= 400_000 {
            hit[0] = true;
        } else if g.x <= 400_000 && g.y >= 600_000 {
            hit[1] = true;
        } else if g.x >= 600_000 && g.y <= 400_000 {
            hit[2] = true;
        } else if g.x >= 600_000 && g.y >= 600_000 {
            hit[3] = true;
        }
    }
    assert!(hit.iter().all(|&b| b), "quadrants hit: {hit:?}");
}

#[test]
fn generated_scenario_type_zero() {
    let inp = generate(0);
    check_basic(&inp, 0);
    check_spacing(&inp);
    check_quadrants(&inp);
}

#[test]
fn generated_scenario_type_one() {
    let inp = generate(1);
    check_basic(&inp, 1);
    check_spacing(&inp);
    check_quadrants(&inp);
}

#[test]
fn generated_scenario_type_two() {
    let inp = generate(2);
    check_basic(&inp, 2);
    check_spacing(&inp);
    check_quadrants(&inp);
}

#[test]
fn generation_deterministic_in_seed_and_pool() {
    let pool = normal_pool(7, 400_000);
    let a = gen(7, &pool).expect("generation");
    let b = gen(7, &pool).expect("generation");
    assert_eq!(a.garbage.len(), b.garbage.len());
    for (p, q) in a.garbage.iter().zip(b.garbage.iter()) {
        assert_eq!((p.x, p.y, p.kind), (q.x, q.y, q.kind));
    }
}

#[test]
fn empty_category_always_succeeds() {
    // a zero-count category without the quadrant requirement consumes
    // nothing and cannot fail, whatever the stream or the pool hold
    let mut rng = ChaCha20Rng::seed_from_u64(42);
    let mut existing: Vec<Garbage> = Vec::new();
    let pool: Vec<(i64, i64)> = Vec::new();
    let mut pos: usize = 0;
    let batch = gen_category(&mut rng, 0, GKind::NonBurn, false, &mut existing, &pool, &mut pos)
        .expect("empty batch");
    assert!(batch.is_empty());
    assert!(existing.is_empty());
    assert_eq!(pos, 0);
}

#[test]
fn generation_fails_cleanly_on_empty_pool() {
    let pool: Vec<(i64, i64)> = Vec::new();
    assert!(gen(5, &pool).is_none());
}
