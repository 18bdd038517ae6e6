//! The replay engine: sweeps an agent path over a scenario, removing the
//! points each agent collects, accumulating the elapsed time, and scoring
//! the outcome.
//!
//! Each turn, an agent's segment moves from its previous frame to the
//! current one; the swept region is approximated by two triangles.  The
//! first agent collects burnable points, the second non-burnable ones;
//! recyclable points are never collected.  A turn costs the larger of the
//! two agents' endpoint displacements; distances carry 16 fixed-point
//! fraction bits.

use vstd::prelude::*;
use crate::geom::{in_tri, inside};
use crate::model::{GKind, Garbage, Input, Output};
use crate::num::{isqrt, score_of_time, score_time, sqrt_floor, TIME_LIMIT_FP};
use crate::text::{dec_chars, u64_str};

verus! {

/// The frame of the path at turn `t`: the initial frame for `t == 0`,
/// otherwise step `t - 1`.
pub open spec fn frame_at(out: Output, t: int) -> Seq<i32> {
    if t == 0 {
        out.init@
    } else {
        out.steps@[t - 1].0@
    }
}

/// Endpoint `i` (0..4) of a frame, as a point.
pub open spec fn pt(f: Seq<i32>, i: int) -> (int, int) {
    (f[2 * i] as int, f[2 * i + 1] as int)
}

/// A point survives the sweep triangle `a b c` of the agent collecting
/// `target` unless it has that category and lies in the triangle.
pub open spec fn keep(g: Garbage, target: GKind, a: (int, int), b: (int, int), c: (int, int)) -> bool {
    !(g.kind == target && in_tri(g.x as int, g.y as int, a.0, a.1, b.0, b.1, c.0, c.1))
}

/// The points of `s` surviving one sweep triangle, in order.
pub open spec fn tri_filter(
    s: Seq<Garbage>,
    target: GKind,
    a: (int, int),
    b: (int, int),
    c: (int, int),
) -> Seq<Garbage>
    decreases s.len(),
{
    if s.len() == 0 {
        Seq::empty()
    } else {
        let rest = tri_filter(s.drop_last(), target, a, b, c);
        if keep(s.last(), target, a, b, c) {
            rest.push(s.last())
        } else {
            rest
        }
    }
}

/// The points surviving one full turn: agent A's two sweep triangles
/// against burnable points, then agent B's against non-burnable ones.
pub open spec fn turn_rem(s: Seq<Garbage>, pre: Seq<i32>, cur: Seq<i32>) -> Seq<Garbage> {
    let s1 = tri_filter(s, GKind::Burn, pt(pre, 0), pt(pre, 1), pt(cur, 0));
    let s2 = tri_filter(s1, GKind::Burn, pt(cur, 0), pt(pre, 1), pt(cur, 1));
    let s3 = tri_filter(s2, GKind::NonBurn, pt(pre, 2), pt(pre, 3), pt(cur, 2));
    tri_filter(s3, GKind::NonBurn, pt(cur, 2), pt(pre, 3), pt(cur, 3))
}

/// The points surviving the first `t` turns.
pub open spec fn sim_rem(g: Seq<Garbage>, out: Output, t: int) -> Seq<Garbage>
    decreases t,
{
    if t <= 0 {
        g
    } else {
        turn_rem(sim_rem(g, out, t - 1), frame_at(out, t - 1), frame_at(out, t))
    }
}

/// Squared distance between two points.
pub open spec fn seg_d2(a: (int, int), b: (int, int)) -> int {
    (a.0 - b.0) * (a.0 - b.0) + (a.1 - b.1) * (a.1 - b.1)
}

/// The distance between two points, in 16-bit fixed point (rounded down).
pub open spec fn dist_fp(a: (int, int), b: (int, int)) -> int {
    sqrt_floor(seg_d2(a, b) * 0x1_0000_0000)
}

/// The cost of one turn: each agent pays the sum of its two endpoint
/// displacements, and the turn costs the larger of the two (the agents
/// move in parallel).
pub open spec fn turn_cost(pre: Seq<i32>, cur: Seq<i32>) -> int {
    let d1 = dist_fp(pt(pre, 0), pt(cur, 0)) + dist_fp(pt(pre, 1), pt(cur, 1));
    let d2 = dist_fp(pt(pre, 2), pt(cur, 2)) + dist_fp(pt(pre, 3), pt(cur, 3));
    if d1 >= d2 {
        d1
    } else {
        d2
    }
}

/// Addition capped at the largest representable time.
pub open spec fn add_sat(a: int, b: int) -> int {
    if a + b > 0xFFFF_FFFF_FFFF_FFFF {
        0xFFFF_FFFF_FFFF_FFFF
    } else {
        a + b
    }
}

/// The elapsed fixed-point time after the first `t` turns.
pub open spec fn sim_time(out: Output, t: int) -> int
    decreases t,
{
    if t <= 0 {
        0
    } else {
        add_sat(sim_time(out, t - 1), turn_cost(frame_at(out, t - 1), frame_at(out, t)))
    }
}

/// How many points of `s` have category `k`.
pub open spec fn count_kind(s: Seq<Garbage>, k: GKind) -> int
    decreases s.len(),
{
    if s.len() == 0 {
        0
    } else {
        count_kind(s.drop_last(), k) + if s.last().kind == k {
            1int
        } else {
            0int
        }
    }
}

/// The diagnostic for an incomplete collection, naming both leftover counts.
pub open spec fn err_msg(rb: int, rn: int) -> Seq<char> {
    "uncollected burn="@ + dec_chars(rb) + " nonburn="@ + dec_chars(rn)
}

/// The distance between two points in 16-bit fixed point.
fn dist_fp_exec(ax: i32, ay: i32, bx: i32, by: i32) -> (r: u64)
    ensures
        r == dist_fp((ax as int, ay as int), (bx as int, by as int)),
        r < 0x4_0000_0000_0000,
{
    let dx: i64 = ax as i64 - bx as i64;
    let dy: i64 = ay as i64 - by as i64;
    proof {
        assert(-0x1_0000_0000_0000_0000 <= (dx as int) * (dx as int) <= 0x1_0000_0000_0000_0000
            && (dx as int) * (dx as int) >= 0) by (nonlinear_arith)
            requires
                -0x1_0000_0000 <= dx <= 0x1_0000_0000,
        ;
        assert(-0x1_0000_0000_0000_0000 <= (dy as int) * (dy as int) <= 0x1_0000_0000_0000_0000
            && (dy as int) * (dy as int) >= 0) by (nonlinear_arith)
            requires
                -0x1_0000_0000 <= dy <= 0x1_0000_0000,
        ;
    }
    let d2: i128 = (dx as i128) * (dx as i128) + (dy as i128) * (dy as i128);
    let x: u128 = (d2 as u128) * 0x1_0000_0000;
    let r: u64 = isqrt(x);
    proof {
        assert(r < 0x4_0000_0000_0000) by {
            if r >= 0x4_0000_0000_0000 {
                assert((r as int) * (r as int) >= 0x10_0000_0000_0000_0000_0000_0000)
                    by (nonlinear_arith)
                    requires
                        r >= 0x4_0000_0000_0000,
                ;
            }
        }
    }
    r
}

/// Remove from `rem` the `target`-category points inside the closed
/// triangle `a b c`, keeping the order of the survivors.
fn collect(rem: &mut Vec<Garbage>, target: GKind, ax: i32, ay: i32, bx: i32, by: i32, cx: i32, cy: i32)
    ensures
        final(rem)@ == tri_filter(
            old(rem)@,
            target,
            (ax as int, ay as int),
            (bx as int, by as int),
            (cx as int, cy as int),
        ),
{
    let ghost a = (ax as int, ay as int);
    let ghost b = (bx as int, by as int);
    let ghost c = (cx as int, cy as int);
    let mut kept: Vec<Garbage> = Vec::new();
    let mut i: usize = 0;
    while i < rem.len()
        invariant
            i <= rem.len(),
            rem@ == old(rem)@,
            a == (ax as int, ay as int),
            b == (bx as int, by as int),
            c == (cx as int, cy as int),
            kept@ == tri_filter(rem@.subrange(0, i as int), target, a, b, c),
        decreases rem.len() - i,
    {
        let g = rem[i];
        let hit = g.kind == target && inside(g.x, g.y, ax, ay, bx, by, cx, cy);
        if !hit {
            kept.push(g);
        }
        proof {
            assert(rem@.subrange(0, i + 1).drop_last() =~= rem@.subrange(0, i as int));
            assert(rem@.subrange(0, i + 1).last() == g);
            assert(tri_filter(rem@.subrange(0, i + 1), target, a, b, c) == (if keep(g, target, a, b, c) {
                tri_filter(rem@.subrange(0, i as int), target, a, b, c).push(g)
            } else {
                tri_filter(rem@.subrange(0, i as int), target, a, b, c)
            }));
        }
        i = i + 1;
    }
    proof {
        assert(rem@.subrange(0, rem@.len() as int) =~= rem@);
    }
    *rem = kept;
}

/// Replay the first `min(turn, q)` steps of a path against a scenario:
/// the surviving points, the final frame, and the elapsed fixed-point time.
pub fn replay(input: &Input, out: &Output, turn: usize) -> (r: (Vec<Garbage>, [i32; 8], u64))
    requires
        out.wf(),
    ensures
        ({
            let eff = if turn <= out.q {
                turn as int
            } else {
                out.q as int
            };
            r.0@ == sim_rem(input.garbage@, *out, eff) && r.1@ == frame_at(*out, eff) && r.2
                == sim_time(*out, eff)
        }),
{
    let eff: usize = if turn <= out.q {
        turn
    } else {
        out.q
    };
    let mut remaining: Vec<Garbage> = Vec::new();
    let mut i: usize = 0;
    while i < input.garbage.len()
        invariant
            i <= input.garbage.len(),
            remaining@ == input.garbage@.subrange(0, i as int),
        decreases input.garbage.len() - i,
    {
        remaining.push(input.garbage[i]);
        proof {
            assert(remaining@ =~= input.garbage@.subrange(0, i + 1));
        }
        i = i + 1;
    }
    proof {
        assert(input.garbage@.subrange(0, input.garbage@.len() as int) =~= input.garbage@);
    }
    let mut prev: [i32; 8] = out.init;
    let mut time: u64 = 0;
    let mut t: usize = 0;
    while t < eff
        invariant
            t <= eff,
            eff <= out.q,
            out.wf(),
            prev@ == frame_at(*out, t as int),
            remaining@ == sim_rem(input.garbage@, *out, t as int),
            time == sim_time(*out, t as int),
        decreases eff - t,
    {
        let cur: [i32; 8] = out.steps[t].0;
        proof {
            assert(cur@ == frame_at(*out, t + 1));
        }
        let da: u64 = dist_fp_exec(prev[0], prev[1], cur[0], cur[1]) + dist_fp_exec(
            prev[2],
            prev[3],
            cur[2],
            cur[3],
        );
        let db: u64 = dist_fp_exec(prev[4], prev[5], cur[4], cur[5]) + dist_fp_exec(
            prev[6],
            prev[7],
            cur[6],
            cur[7],
        );
        let cost: u64 = if da >= db {
            da
        } else {
            db
        };
        proof {
            assert(pt(prev@, 0) == (prev@[0] as int, prev@[1] as int));
            assert(pt(prev@, 1) == (prev@[2] as int, prev@[3] as int));
            assert(pt(prev@, 2) == (prev@[4] as int, prev@[5] as int));
            assert(pt(prev@, 3) == (prev@[6] as int, prev@[7] as int));
            assert(pt(cur@, 0) == (cur@[0] as int, cur@[1] as int));
            assert(pt(cur@, 1) == (cur@[2] as int, cur@[3] as int));
            assert(pt(cur@, 2) == (cur@[4] as int, cur@[5] as int));
            assert(pt(cur@, 3) == (cur@[6] as int, cur@[7] as int));
            assert(cost == turn_cost(frame_at(*out, t as int), frame_at(*out, t + 1)));
        }
        time = if time > 0xFFFF_FFFF_FFFF_FFFF - cost {
            0xFFFF_FFFF_FFFF_FFFF
        } else {
            time + cost
        };
        collect(&mut remaining, GKind::Burn, prev[0], prev[1], prev[2], prev[3], cur[0], cur[1]);
        collect(&mut remaining, GKind::Burn, cur[0], cur[1], prev[2], prev[3], cur[2], cur[3]);
        collect(
            &mut remaining,
            GKind::NonBurn,
            prev[4],
            prev[5],
            prev[6],
            prev[7],
            cur[4],
            cur[5],
        );
        collect(
            &mut remaining,
            GKind::NonBurn,
            cur[4],
            cur[5],
            prev[6],
            prev[7],
            cur[6],
            cur[7],
        );
        prev = cur;
        t = t + 1;
    }
    (remaining, prev, time)
}

/// Count the burnable and non-burnable points left in `v`.
fn count_left(v: &Vec<Garbage>) -> (r: (usize, usize))
    ensures
        r.0 == count_kind(v@, GKind::Burn),
        r.1 == count_kind(v@, GKind::NonBurn),
        r.0 + r.1 <= usize::MAX,
{
    let mut rb: usize = 0;
    let mut rn: usize = 0;
    let mut i: usize = 0;
    while i < v.len()
        invariant
            i <= v.len(),
            rb == count_kind(v@.subrange(0, i as int), GKind::Burn),
            rn == count_kind(v@.subrange(0, i as int), GKind::NonBurn),
            rb + rn <= i,
        decreases v.len() - i,
    {
        let g = v[i];
        proof {
            assert(v@.subrange(0, i + 1).drop_last() =~= v@.subrange(0, i as int));
            assert(v@.subrange(0, i + 1).last() == g);
        }
        if g.kind == GKind::Burn {
            rb = rb + 1;
        } else if g.kind == GKind::NonBurn {
            rn = rn + 1;
        }
        i = i + 1;
    }
    proof {
        assert(v@.subrange(0, v@.len() as int) =~= v@);
    }
    (rb, rn)
}

/// Replay a path against a scenario and score the outcome.
///
/// With burnable or non-burnable points left after the last replayed turn,
/// the score is 0 and the diagnostic names both counts.  Otherwise, within
/// the time limit the score follows the logarithmic formula (`score_time`),
/// and over the limit it is capped to 0 with no diagnostic.
pub fn vis(input: &Input, out: &Output, turn: usize) -> (r: (i64, String))
    requires
        out.wf(),
    ensures
        ({
            let eff = if turn <= out.q {
                turn as int
            } else {
                out.q as int
            };
            let rem = sim_rem(input.garbage@, *out, eff);
            let rb = count_kind(rem, GKind::Burn);
            let rn = count_kind(rem, GKind::NonBurn);
            let time = sim_time(*out, eff);
            if rb + rn > 0 {
                r.0 == 0 && r.1@ == err_msg(rb, rn)
            } else if time <= TIME_LIMIT_FP {
                r.0 == score_time(time) && r.1@ == Seq::<char>::empty()
            } else {
                r.0 == 0 && r.1@ == Seq::<char>::empty()
            }
        }),
{
    let (remaining, _last, time) = replay(input, out, turn);
    let (rb, rn) = count_left(&remaining);
    if rb + rn > 0 {
        let mut e = String::new();
        e.append("uncollected burn=");
        let bs = u64_str(rb as u64);
        e.append(bs.as_str());
        e.append(" nonburn=");
        let ns = u64_str(rn as u64);
        e.append(ns.as_str());
        (0, e)
    } else if time <= TIME_LIMIT_FP {
        (score_of_time(time), String::new())
    } else {
        (0, String::new())
    }
}

} // verus!
