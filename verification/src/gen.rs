//! The procedural scenario generator.
//!
//! Points are sampled from a random set of weighted, rotated gaussian
//! clusters.  A candidate is accepted when it lies in the domain and is at
//! least 1000 away from every point already placed; a burnable batch must in
//! addition cover all four corner quadrants, else the whole batch and its
//! clusters are discarded and redrawn.  Draws of the uniform parameters come
//! from a seeded ChaCha20 stream; standard-normal offsets come from the
//! caller as a pool of 16-bit fixed-point pairs, consumed in order, so the
//! whole acceptance logic stays a deterministic function of seed and pool.
//! The rotation uses a quantized angle and a rational approximation of the
//! sine, in fixed point.  Every retry loop is bounded: an exhausted pool or
//! retry budget yields `None` rather than sampling forever.

use vstd::prelude::*;
use vstd::arithmetic::div_mod::{lemma_div_is_ordered, lemma_div_multiples_vanish};
use rand::Rng;
use rand::SeedableRng;
use rand_chacha::ChaCha20Rng;
use crate::model::{covers_quadrants, has_quadrant, in_domain, quadrant, spaced, GKind, Garbage,
    Input};

verus! {

/// Declares rand_chacha's `ChaCha20Rng` stream state, opaque to the proofs.
#[verifier::external_type_specification]
#[verifier::external_body]
pub struct ExChaCha20Rng(ChaCha20Rng);

/// Relies on `ChaCha20Rng::seed_from_u64` (rand_core's `SeedableRng`):
/// builds a generator state from a 64-bit seed.
#[verifier::external_body]
fn seed_rng(seed: u64) -> ChaCha20Rng {
    ChaCha20Rng::seed_from_u64(seed)
}

/// Relies on rand's `Rng::gen_range` over the inclusive range `lo..=hi`,
/// nonempty by the precondition: the sample lies within the bounds.
#[verifier::external_body]
fn gen_range_u64(rng: &mut ChaCha20Rng, lo: u64, hi: u64) -> (r: u64)
    requires
        lo <= hi,
    ensures
        lo <= r <= hi,
{
    rng.gen_range(lo..=hi)
}

/// Quantization unit of a cluster weight.
pub const WEIGHT_MAX: u64 = 0x20_0000_0000_0000;

/// Steps of the quantized half-turn `[0, pi)`.
pub const ANGLE_STEPS: u64 = 65536;

/// Fixed-point unit of the standard-normal pool values.
pub const NORM_ONE: i64 = 65536;

/// Pool values are clamped to 16 standard deviations.
pub const NORM_CLAMP: i64 = 1_048_576;

/// Fixed-point unit of the sine approximation.
pub const TRIG_ONE: i64 = 65536;

/// One sampling cluster: a selection weight, a center, the two axis
/// standard deviations, and a rotation angle in `[0, pi)` quantized to
/// `ANGLE_STEPS` steps.
#[derive(Clone, Copy, Debug)]
pub struct Cluster {
    pub w: u64,
    pub cx: i64,
    pub cy: i64,
    pub sx: i64,
    pub sy: i64,
    pub t: u64,
}

impl Cluster {
    /// Every parameter within its sampling range.
    pub open spec fn wf(self) -> bool {
        &&& 1 <= self.w <= WEIGHT_MAX
        &&& 200_000 <= self.cx <= 800_000
        &&& 200_000 <= self.cy <= 800_000
        &&& 30_000 <= self.sx <= 90_000
        &&& 30_000 <= self.sy <= 90_000
        &&& self.t < ANGLE_STEPS
    }
}

/// Draw one cluster: weight uniform in `(0, 1]` (quantized), center
/// coordinates uniform in `[200000, 800000]`, axis deviations uniform in
/// `[30000, 90000]`, angle uniform over the quantized `[0, pi)`.
fn draw_cluster(rng: &mut ChaCha20Rng) -> (c: Cluster)
    ensures
        c.wf(),
{
    let w = gen_range_u64(rng, 1, WEIGHT_MAX);
    let cx = gen_range_u64(rng, 200_000, 800_000) as i64;
    let cy = gen_range_u64(rng, 200_000, 800_000) as i64;
    let sx = gen_range_u64(rng, 30_000, 90_000) as i64;
    let sy = gen_range_u64(rng, 30_000, 90_000) as i64;
    let t = gen_range_u64(rng, 0, ANGLE_STEPS - 1);
    Cluster { w, cx, cy, sx, sy, t }
}

/// Draw the cluster set for one batch: uniformly 5 to 10 clusters.
fn draw_clusters(rng: &mut ChaCha20Rng) -> (v: Vec<Cluster>)
    ensures
        5 <= v@.len() <= 10,
        forall|i: int| 0 <= i < v@.len() ==> (#[trigger] v@[i]).wf(),
{
    let n = gen_range_u64(rng, 5, 10) as usize;
    let mut v: Vec<Cluster> = Vec::new();
    let mut i: usize = 0;
    while i < n
        invariant
            i <= n,
            n <= 10,
            v@.len() == i,
            forall|j: int| 0 <= j < v@.len() ==> (#[trigger] v@[j]).wf(),
        decreases n - i,
    {
        let c = draw_cluster(rng);
        v.push(c);
        i = i + 1;
    }
    v
}

/// Sum of the weights of the first `i` clusters.
pub open spec fn wpre(s: Seq<Cluster>, i: int) -> int
    decreases i,
{
    if i <= 0 {
        0
    } else {
        wpre(s, i - 1) + s[i - 1].w
    }
}

/// Select a cluster with probability proportional to its weight: a uniform
/// draw below the weight total, scanned against the prefix sums.
fn pick_cluster(rng: &mut ChaCha20Rng, cls: &Vec<Cluster>) -> (idx: usize)
    requires
        1 <= cls@.len() <= 10,
        forall|i: int| 0 <= i < cls@.len() ==> (#[trigger] cls@[i]).wf(),
    ensures
        idx < cls@.len(),
{
    let mut total: u64 = 0;
    let mut i: usize = 0;
    while i < cls.len()
        invariant
            i <= cls@.len(),
            cls@.len() <= 10,
            forall|j: int| 0 <= j < cls@.len() ==> (#[trigger] cls@[j]).wf(),
            total == wpre(cls@, i as int),
            i <= total <= i * WEIGHT_MAX,
        decreases cls@.len() - i,
    {
        total = total + cls[i].w;
        i = i + 1;
    }
    let r = gen_range_u64(rng, 0, total - 1);
    let mut idx: usize = 0;
    let mut acc: u64 = 0;
    while idx < cls.len()
        invariant
            idx <= cls@.len(),
            cls@.len() <= 10,
            forall|j: int| 0 <= j < cls@.len() ==> (#[trigger] cls@[j]).wf(),
            acc == wpre(cls@, idx as int),
            idx <= acc <= idx * WEIGHT_MAX,
            r >= acc,
            r < wpre(cls@, cls@.len() as int),
        decreases cls@.len() - idx,
    {
        let w = cls[idx].w;
        if r < acc + w {
            return idx;
        }
        acc = acc + w;
        idx = idx + 1;
    }
    proof {
        assert(false);
    }
    0
}

/// Sine of the quantized angle `pi * t / ANGLE_STEPS` on `[0, pi]`, scaled
/// by `TRIG_ONE`: the rational approximation `16u(pi-u) / (5pi^2 - 4u(pi-u))`.
fn sin_fp(t: u64) -> (r: i64)
    requires
        t <= ANGLE_STEPS,
    ensures
        0 <= r <= TRIG_ONE,
{
    proof {
        assert(ANGLE_STEPS == 65536);
        assert(t * (65536 - t) <= 0x4000_0000) by (nonlinear_arith)
            requires
                0 <= t <= 65536,
        ;
    }
    let u: u64 = t * (ANGLE_STEPS - t);
    proof {
        assert(u <= 0x4000_0000);
        assert(16 * 65536 * (u as int) <= 0x4_0000_0000_0000) by (nonlinear_arith)
            requires
                u <= 0x4000_0000,
        ;
        assert(16 * 65536 * (u as int) <= 65536 * (5 * 65536 * 65536 - 4 * (u as int)))
            by (nonlinear_arith)
            requires
                u <= 0x4000_0000,
        ;
    }
    let num: u64 = 16 * 65536 * u;
    let den: u64 = 5 * 65536 * 65536 - 4 * u;
    proof {
        assert(num <= 65536 * den);
        lemma_div_is_ordered(num as int, 65536 * den, den as int);
        lemma_div_multiples_vanish(65536, den as int);
    }
    (num / den) as i64
}

/// Cosine of the quantized angle, from the sine shifted a quarter turn.
fn cos_fp(t: u64) -> (r: i64)
    requires
        t < ANGLE_STEPS,
    ensures
        -TRIG_ONE <= r <= TRIG_ONE,
{
    if t <= ANGLE_STEPS / 2 {
        sin_fp(t + ANGLE_STEPS / 2)
    } else {
        -sin_fp(t - ANGLE_STEPS / 2)
    }
}

/// Division by the combined trig and normal fixed-point unit, rounded to
/// the nearest integer (halves away from zero).
fn unscale(n: i64) -> (r: i64)
    requires
        -0x1000_0000_0000_0000 <= n <= 0x1000_0000_0000_0000,
    ensures
        -0x1000_0000 <= r <= 0x1000_0000,
{
    proof {
        lemma_div_is_ordered(n as int + 0x8000_0000, 0x1000_0000_8000_0000, 0x1_0000_0000);
        lemma_div_is_ordered(-(n as int) + 0x8000_0000, 0x1000_0000_8000_0000, 0x1_0000_0000);
    }
    if n >= 0 {
        (n + 0x8000_0000) / 0x1_0000_0000
    } else {
        -((-n + 0x8000_0000) / 0x1_0000_0000)
    }
}

/// One candidate point from a cluster: the standard-normal pair, scaled by
/// the axis deviations, rotated by the cluster angle, and added to the
/// center.  No property of the value is needed: every candidate is
/// validated against the domain and spacing constraints by the caller.
fn make_candidate(c: &Cluster, gx: i64, gy: i64) -> (r: (i64, i64))
    requires
        c.wf(),
        -NORM_CLAMP <= gx <= NORM_CLAMP,
        -NORM_CLAMP <= gy <= NORM_CLAMP,
    ensures
        -0x2000_0000 <= r.0 <= 0x2000_0000,
        -0x2000_0000 <= r.1 <= 0x2000_0000,
{
    let cs: i64 = cos_fp(c.t);
    let sn: i64 = sin_fp(c.t);
    proof {
        assert(-0x80_0000_0000 <= gx * c.sx <= 0x80_0000_0000) by (nonlinear_arith)
            requires
                -0x10_0000 <= gx <= 0x10_0000,
                0 <= c.sx <= 0x2_0000,
        ;
        assert(-0x80_0000_0000 <= gy * c.sy <= 0x80_0000_0000) by (nonlinear_arith)
            requires
                -0x10_0000 <= gy <= 0x10_0000,
                0 <= c.sy <= 0x2_0000,
        ;
    }
    let ox: i64 = gx * c.sx;
    let oy: i64 = gy * c.sy;
    proof {
        assert(-0x800_0000_0000_0000 <= cs * ox <= 0x800_0000_0000_0000) by (nonlinear_arith)
            requires
                -0x1_0000 <= cs <= 0x1_0000,
                -0x80_0000_0000 <= ox <= 0x80_0000_0000,
        ;
        assert(-0x800_0000_0000_0000 <= sn * oy <= 0x800_0000_0000_0000) by (nonlinear_arith)
            requires
                -0x1_0000 <= sn <= 0x1_0000,
                -0x80_0000_0000 <= oy <= 0x80_0000_0000,
        ;
        assert(-0x800_0000_0000_0000 <= sn * ox <= 0x800_0000_0000_0000) by (nonlinear_arith)
            requires
                -0x1_0000 <= sn <= 0x1_0000,
                -0x80_0000_0000 <= ox <= 0x80_0000_0000,
        ;
        assert(-0x800_0000_0000_0000 <= cs * oy <= 0x800_0000_0000_0000) by (nonlinear_arith)
            requires
                -0x1_0000 <= cs <= 0x1_0000,
                -0x80_0000_0000 <= oy <= 0x80_0000_0000,
        ;
    }
    let rx: i64 = cs * ox - sn * oy;
    let ry: i64 = sn * ox + cs * oy;
    (c.cx + unscale(rx), c.cy + unscale(ry))
}

/// Squared distance from the point `(x, y)` to a garbage point.
pub open spec fn pt_dist2(x: int, y: int, g: Garbage) -> int {
    (g.x - x) * (g.x - x) + (g.y - y) * (g.y - y)
}

/// The point `(x, y)` is at squared distance at least 1,000,000 from every
/// point of `s`.
pub open spec fn far_from(x: int, y: int, s: Seq<Garbage>) -> bool {
    forall|i: int| 0 <= i < s.len() ==> pt_dist2(x, y, #[trigger] s[i]) >= 1_000_000
}

/// Check the minimum-spacing constraint of a candidate against a point set.
fn far_enough(x: i32, y: i32, pts: &Vec<Garbage>) -> (r: bool)
    requires
        1 <= x <= 999_999,
        1 <= y <= 999_999,
        forall|i: int| 0 <= i < pts@.len() ==> in_domain(#[trigger] pts@[i]),
    ensures
        r == far_from(x as int, y as int, pts@),
{
    let mut i: usize = 0;
    while i < pts.len()
        invariant
            i <= pts@.len(),
            1 <= x <= 999_999,
            1 <= y <= 999_999,
            forall|j: int| 0 <= j < pts@.len() ==> in_domain(#[trigger] pts@[j]),
            forall|j: int| 0 <= j < i ==> pt_dist2(x as int, y as int, #[trigger] pts@[j])
                >= 1_000_000,
        decreases pts@.len() - i,
    {
        let g = pts[i];
        let dx: i64 = g.x as i64 - x as i64;
        let dy: i64 = g.y as i64 - y as i64;
        proof {
            assert(0 <= dx * dx <= 0x4_0000_0000_0000 && 0 <= dy * dy <= 0x4_0000_0000_0000)
                by (nonlinear_arith)
                requires
                    -2_000_000 <= dx <= 2_000_000,
                    -2_000_000 <= dy <= 2_000_000,
            ;
        }
        if dx * dx + dy * dy < 1_000_000 {
            return false;
        }
        i = i + 1;
    }
    true
}

/// The quadrant a point counts toward (4: none).
fn quadrant_of(g: &Garbage) -> (q: usize)
    ensures
        q == quadrant(*g),
{
    if g.x <= 400_000 && g.y <= 400_000 {
        0
    } else if g.x <= 400_000 && g.y >= 600_000 {
        1
    } else if g.x >= 600_000 && g.y <= 400_000 {
        2
    } else if g.x >= 600_000 && g.y >= 600_000 {
        3
    } else {
        4
    }
}

/// Check the quadrant-coverage constraint of a batch.
fn covers(batch: &Vec<Garbage>) -> (r: bool)
    ensures
        r == covers_quadrants(batch@),
{
    let mut h0: bool = false;
    let mut h1: bool = false;
    let mut h2: bool = false;
    let mut h3: bool = false;
    let mut i: usize = 0;
    while i < batch.len()
        invariant
            i <= batch@.len(),
            h0 == has_quadrant(batch@.subrange(0, i as int), 0),
            h1 == has_quadrant(batch@.subrange(0, i as int), 1),
            h2 == has_quadrant(batch@.subrange(0, i as int), 2),
            h3 == has_quadrant(batch@.subrange(0, i as int), 3),
        decreases batch@.len() - i,
    {
        let g = batch[i];
        let q = quadrant_of(&g);
        proof {
            let pre = batch@.subrange(0, i as int);
            let post = batch@.subrange(0, i + 1);
            assert(post[i as int] == g);
            assert(forall|j: int| 0 <= j < pre.len() ==> pre[j] == post[j]);
            assert forall|qq: int| has_quadrant(pre, qq) implies has_quadrant(post, qq) by {
                let w = choose|w: int| 0 <= w < pre.len() && quadrant(pre[w]) == qq;
                assert(quadrant(post[w]) == qq);
            }
            assert(forall|qq: int| 0 <= qq < 4 && qq != quadrant(g) && !has_quadrant(pre, qq)
                ==> !has_quadrant(post, qq)) by {
                assert forall|qq: int|
                    0 <= qq < 4 && qq != quadrant(g) && !has_quadrant(pre, qq) implies !has_quadrant(
                    post,
                    qq,
                ) by {
                    if has_quadrant(post, qq) {
                        let w = choose|w: int| 0 <= w < post.len() && quadrant(post[w]) == qq;
                        if w < i {
                            assert(quadrant(pre[w]) == qq);
                        }
                    }
                }
            }
        }
        if q == 0 {
            h0 = true;
        } else if q == 1 {
            h1 = true;
        } else if q == 2 {
            h2 = true;
        } else if q == 3 {
            h3 = true;
        }
        i = i + 1;
    }
    proof {
        assert(batch@.subrange(0, batch@.len() as int) =~= batch@);
    }
    h0 && h1 && h2 && h3
}

/// Appending a point far from every point of a spaced set keeps it spaced.
proof fn lemma_spaced_push(s: Seq<Garbage>, g: Garbage)
    requires
        spaced(s),
        far_from(g.x as int, g.y as int, s),
    ensures
        spaced(s.push(g)),
{
    let t = s.push(g);
    assert forall|i: int, j: int| 0 <= i < j < t.len() implies crate::model::dist2(t[i], t[j])
        >= 1_000_000 by {
        if j < s.len() {
            assert(t[i] == s[i] && t[j] == s[j]);
        } else {
            assert(t[j] == g && t[i] == s[i]);
            assert(pt_dist2(g.x as int, g.y as int, s[i]) >= 1_000_000);
        }
    }
}

/// Generate `cnt` points of one category, reject-sampling candidates from a
/// fresh cluster set against the spacing constraint, and redrawing the
/// whole batch (bounded times) until the quadrant constraint holds where it
/// is required.  Accepted batches are appended to `existing`, so later
/// categories keep their spacing against earlier ones.  `None` is returned,
/// with `existing` unchanged, when the normal pool or the retry budget runs
/// out; an empty batch without the quadrant requirement cannot fail.
pub fn gen_category(
    rng: &mut ChaCha20Rng,
    cnt: usize,
    kind: GKind,
    need_quadrant: bool,
    existing: &mut Vec<Garbage>,
    pool: &Vec<(i64, i64)>,
    pos: &mut usize,
) -> (r: Option<Vec<Garbage>>)
    requires
        spaced(old(existing)@),
        forall|i: int| 0 <= i < old(existing)@.len() ==> in_domain(#[trigger] old(existing)@[i]),
    ensures
        match r {
            Some(b) => {
                &&& b@.len() == cnt
                &&& forall|i: int|
                    0 <= i < b@.len() ==> (#[trigger] b@[i]).kind == kind && in_domain(b@[i])
                &&& final(existing)@ == old(existing)@ + b@
                &&& spaced(final(existing)@)
                &&& forall|i: int|
                    0 <= i < final(existing)@.len() ==> in_domain(#[trigger] final(existing)@[i])
                &&& (need_quadrant ==> covers_quadrants(b@))
            },
            None => final(existing)@ == old(existing)@,
        },
        cnt == 0 && !need_quadrant ==> r is Some,
{
    let mut restarts: usize = 0;
    while restarts < 50
        invariant
            existing@ == old(existing)@,
            spaced(existing@),
            forall|i: int| 0 <= i < existing@.len() ==> in_domain(#[trigger] existing@[i]),
            !need_quadrant ==> restarts == 0,
        decreases 50 - restarts,
    {
        let clusters = draw_clusters(rng);
        let mut batch: Vec<Garbage> = Vec::new();
        while batch.len() < cnt
            invariant
                existing@ == old(existing)@,
                batch@.len() <= cnt,
                spaced(existing@ + batch@),
                forall|i: int| 0 <= i < existing@.len() ==> in_domain(#[trigger] existing@[i]),
                forall|i: int|
                    0 <= i < batch@.len() ==> (#[trigger] batch@[i]).kind == kind && in_domain(
                        batch@[i],
                    ),
                1 <= clusters@.len() <= 10,
                forall|i: int| 0 <= i < clusters@.len() ==> (#[trigger] clusters@[i]).wf(),
            decreases pool@.len() - *pos,
        {
            if *pos >= pool.len() {
                proof {
                    assert(existing@ =~= old(existing)@);
                }
                return None;
            }
            let (gx0, gy0) = pool[*pos];
            *pos = *pos + 1;
            let gx: i64 = if gx0 > NORM_CLAMP {
                NORM_CLAMP
            } else if gx0 < -NORM_CLAMP {
                -NORM_CLAMP
            } else {
                gx0
            };
            let gy: i64 = if gy0 > NORM_CLAMP {
                NORM_CLAMP
            } else if gy0 < -NORM_CLAMP {
                -NORM_CLAMP
            } else {
                gy0
            };
            let idx = pick_cluster(rng, &clusters);
            let (x64, y64) = make_candidate(&clusters[idx], gx, gy);
            if x64 < 1 || x64 > 999_999 || y64 < 1 || y64 > 999_999 {
                continue;
            }
            let x: i32 = x64 as i32;
            let y: i32 = y64 as i32;
            if !far_enough(x, y, existing) {
                continue;
            }
            if !far_enough(x, y, &batch) {
                continue;
            }
            let g = Garbage { x, y, kind };
            proof {
                let s = existing@ + batch@;
                assert forall|i: int| 0 <= i < s.len() implies pt_dist2(
                    g.x as int,
                    g.y as int,
                    #[trigger] s[i],
                ) >= 1_000_000 by {
                    if i < existing@.len() {
                        assert(s[i] == existing@[i]);
                    } else {
                        assert(s[i] == batch@[i - existing@.len()]);
                    }
                }
                lemma_spaced_push(s, g);
                assert(s.push(g) =~= existing@ + batch@.push(g));
            }
            batch.push(g);
        }
        if need_quadrant && !covers(&batch) {
            restarts = restarts + 1;
            continue;
        }
        let ghost done = batch@;
        let mut i: usize = 0;
        while i < batch.len()
            invariant
                batch@ == done,
                done.len() == cnt,
                existing@ == old(existing)@ + batch@.subrange(0, i as int),
                i <= batch@.len(),
                spaced(old(existing)@ + done),
                forall|j: int| 0 <= j < old(existing)@.len() ==> in_domain(
                    #[trigger] old(existing)@[j],
                ),
                forall|j: int|
                    0 <= j < done.len() ==> (#[trigger] done[j]).kind == kind && in_domain(done[j]),
                need_quadrant ==> covers_quadrants(done),
            decreases batch@.len() - i,
        {
            existing.push(batch[i]);
            proof {
                assert(old(existing)@ + batch@.subrange(0, i as int) + seq![batch@[i as int]]
                    =~= old(existing)@ + batch@.subrange(0, i + 1));
            }
            i = i + 1;
        }
        proof {
            assert(batch@.subrange(0, batch@.len() as int) =~= batch@);
            assert(existing@ =~= old(existing)@ + batch@);
            assert forall|j: int| 0 <= j < existing@.len() implies in_domain(
                #[trigger] existing@[j],
            ) by {
                if j < old(existing)@.len() {
                    assert(existing@[j] == old(existing)@[j]);
                } else {
                    assert(existing@[j] == done[j - old(existing)@.len()]);
                }
            }
        }
        return Some(batch);
    }
    proof {
        assert(existing@ =~= old(existing)@);
    }
    None
}

/// Generate a scenario from a seed and a pool of standard-normal pairs (16
/// fraction bits; the pool is drawn outside and consumed in order).  The
/// result has 100 burnable points covering all four quadrants, then the
/// non-burnable and recyclable blocks whose counts follow the seed's
/// residue class; every coordinate lies in `[1, 999999]` and all points are
/// pairwise at least 1000 apart.  `None` is returned when the pool or a
/// retry budget is exhausted.
pub fn gen(seed: u64, pool: &Vec<(i64, i64)>) -> (r: Option<Input>)
    ensures
        match r {
            Some(inp) => {
                &&& inp.valid()
                &&& inp.X == 100
                &&& seed % 3 == 0 ==> inp.Y == 0 && 10 <= inp.Z <= 100
                &&& seed % 3 == 1 ==> inp.Y == 100 && inp.Z == 0
                &&& seed % 3 == 2 ==> inp.Y == 100 && 1 <= inp.Z <= 100
                &&& covers_quadrants(inp.garbage@.subrange(0, 100))
            },
            None => true,
        },
{
    let mut rng = seed_rng(seed);
    let ty: u64 = seed % 3;
    let y_cnt: usize;
    let z_cnt: usize;
    if ty == 0 {
        y_cnt = 0;
        z_cnt = gen_range_u64(&mut rng, 10, 100) as usize;
    } else if ty == 1 {
        y_cnt = 100;
        z_cnt = 0;
    } else {
        y_cnt = 100;
        z_cnt = gen_range_u64(&mut rng, 1, 100) as usize;
    }
    let mut all: Vec<Garbage> = Vec::new();
    let mut pos: usize = 0;
    let b1 = match gen_category(&mut rng, 100, GKind::Burn, true, &mut all, pool, &mut pos) {
        Some(b) => b,
        None => {
            return None;
        },
    };
    let b2 = match gen_category(&mut rng, y_cnt, GKind::NonBurn, false, &mut all, pool, &mut pos) {
        Some(b) => b,
        None => {
            return None;
        },
    };
    let b3 = match gen_category(&mut rng, z_cnt, GKind::Recycle, false, &mut all, pool, &mut pos) {
        Some(b) => b,
        None => {
            return None;
        },
    };
    let inp = Input { X: 100, Y: y_cnt, Z: z_cnt, garbage: all };
    proof {
        assert(inp.garbage@ == b1@ + b2@ + b3@);
        assert(forall|i: int| 0 <= i < 100 ==> inp.garbage@[i] == b1@[i]);
        assert(forall|i: int|
            100 <= i < 100 + y_cnt ==> inp.garbage@[i] == b2@[i - 100]);
        assert(forall|i: int|
            100 + y_cnt <= i < inp.garbage@.len() ==> inp.garbage@[i] == b3@[i - 100 - y_cnt]);
        assert(inp.garbage@.subrange(0, 100) =~= b1@);
    }
    Some(inp)
}

} // verus!
