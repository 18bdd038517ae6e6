//! Exact integer geometry: the orientation test and the closed-triangle
//! membership predicate used by the sweep-collection step.

use vstd::prelude::*;
verus! {

/// Cross product of `b - a` and `p - a`: twice the signed area of the
/// triangle `a b p`.
pub open spec fn cross(ax: int, ay: int, bx: int, by: int, px: int, py: int) -> int {
    (bx - ax) * (py - ay) - (by - ay) * (px - ax)
}

/// `p` lies in the closed triangle `a b c`: the three cross products of the
/// sides against `p` have a consistent sign (boundary and degenerate
/// triangles included).
pub open spec fn in_tri(
    px: int,
    py: int,
    ax: int,
    ay: int,
    bx: int,
    by: int,
    cx: int,
    cy: int,
) -> bool {
    let ab = cross(ax, ay, bx, by, px, py);
    let bc = cross(bx, by, cx, cy, px, py);
    let ca = cross(cx, cy, ax, ay, px, py);
    (ab >= 0 && bc >= 0 && ca >= 0) || (ab <= 0 && bc <= 0 && ca <= 0)
}

/// Bound on a product of two factors below `0x1_0000_0000` in magnitude.
proof fn lemma_prod_bound(x: int, y: int)
    requires
        -0x1_0000_0000 <= x <= 0x1_0000_0000,
        -0x1_0000_0000 <= y <= 0x1_0000_0000,
    ensures
        -0x1_0000_0000_0000_0000 <= x * y <= 0x1_0000_0000_0000_0000,
{
    assert(-0x1_0000_0000_0000_0000 <= x * y <= 0x1_0000_0000_0000_0000) by (nonlinear_arith)
        requires
            -0x1_0000_0000 <= x <= 0x1_0000_0000,
            -0x1_0000_0000 <= y <= 0x1_0000_0000,
    ;
}

/// The cross product of `b - a` and `p - a`, exactly.
pub fn area(ax: i32, ay: i32, bx: i32, by: i32, px: i32, py: i32) -> (r: i128)
    ensures
        r == cross(ax as int, ay as int, bx as int, by as int, px as int, py as int),
{
    let ux: i64 = bx as i64 - ax as i64;
    let uy: i64 = by as i64 - ay as i64;
    let vx: i64 = px as i64 - ax as i64;
    let vy: i64 = py as i64 - ay as i64;
    proof {
        lemma_prod_bound(ux as int, vy as int);
        lemma_prod_bound(uy as int, vx as int);
    }
    (ux as i128) * (vy as i128) - (uy as i128) * (vx as i128)
}

/// Whether the point `(px, py)` lies in the closed triangle `a b c`.
pub fn inside(px: i32, py: i32, ax: i32, ay: i32, bx: i32, by: i32, cx: i32, cy: i32) -> (r: bool)
    ensures
        r == in_tri(
            px as int,
            py as int,
            ax as int,
            ay as int,
            bx as int,
            by as int,
            cx as int,
            cy as int,
        ),
{
    let ab = area(ax, ay, bx, by, px, py);
    let bc = area(bx, by, cx, cy, px, py);
    let ca = area(cx, cy, ax, ay, px, py);
    (ab >= 0 && bc >= 0 && ca >= 0) || (ab <= 0 && bc <= 0 && ca <= 0)
}

} // verus!
