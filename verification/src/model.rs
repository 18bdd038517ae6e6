//! Data model: garbage points, scenarios and agent paths.

use vstd::prelude::*;

verus! {

/// Category of a garbage point.  Burnable points are collected by the first
/// agent, non-burnable points by the second; recyclable points are never
/// collected.
#[derive(Clone, Copy, Debug, PartialEq, Eq, Structural)]
pub enum GKind {
    Burn,
    NonBurn,
    Recycle,
}

/// One garbage point: integer coordinates and a category.
#[derive(Clone, Copy, Debug, PartialEq, Eq, Structural)]
pub struct Garbage {
    pub x: i32,
    pub y: i32,
    pub kind: GKind,
}

/// A scenario: the three category counts and the points, grouped as the
/// `X` burnable points, then the `Y` non-burnable, then the `Z` recyclable.
#[derive(Clone, Debug)]
pub struct Input {
    pub X: usize,
    pub Y: usize,
    pub Z: usize,
    pub garbage: Vec<Garbage>,
}

/// One step of an agent path: eight integers, the two endpoints of each
/// agent's segment (agent A: indices 0..4, agent B: indices 4..8).
#[derive(Clone, Debug)]
pub struct Step(pub [i32; 8]);

/// An agent path: the initial frame and `q` step frames.
#[derive(Clone, Debug)]
pub struct Output {
    pub q: usize,
    pub init: [i32; 8],
    pub steps: Vec<Step>,
}

/// Squared Euclidean distance between two points.
pub open spec fn dist2(a: Garbage, b: Garbage) -> int {
    (a.x - b.x) * (a.x - b.x) + (a.y - b.y) * (a.y - b.y)
}

/// Every pair of distinct points in `s` is at squared distance at least
/// 1,000,000 (distance at least 1000).
pub open spec fn spaced(s: Seq<Garbage>) -> bool {
    forall|i: int, j: int| 0 <= i < j < s.len() ==> dist2(s[i], s[j]) >= 1_000_000
}

/// Both coordinates lie in the domain `[1, 999_999]`.
pub open spec fn in_domain(g: Garbage) -> bool {
    1 <= g.x <= 999_999 && 1 <= g.y <= 999_999
}

/// The quadrant a point counts toward, split at 400,000 (lower band) and
/// 600,000 (upper band) on each axis; 4 means no quadrant.
pub open spec fn quadrant(g: Garbage) -> int {
    if g.x <= 400_000 && g.y <= 400_000 {
        0
    } else if g.x <= 400_000 && g.y >= 600_000 {
        1
    } else if g.x >= 600_000 && g.y <= 400_000 {
        2
    } else if g.x >= 600_000 && g.y >= 600_000 {
        3
    } else {
        4
    }
}

/// Some point of `s` counts toward quadrant `q`.
pub open spec fn has_quadrant(s: Seq<Garbage>, q: int) -> bool {
    exists|i: int| 0 <= i < s.len() && quadrant(#[trigger] s[i]) == q
}

/// Each of the four quadrants holds at least one point of `s`.
pub open spec fn covers_quadrants(s: Seq<Garbage>) -> bool {
    has_quadrant(s, 0) && has_quadrant(s, 1) && has_quadrant(s, 2) && has_quadrant(s, 3)
}

impl Input {
    /// Structural well-formedness: the counts match the point list and the
    /// points are grouped by category in the order Burn, NonBurn, Recycle.
    pub open spec fn wf(self) -> bool {
        &&& self.garbage.len() == self.X + self.Y + self.Z
        &&& forall|i: int| 0 <= i < self.X ==> (#[trigger] self.garbage[i]).kind == GKind::Burn
        &&& forall|i: int|
            self.X <= i < self.X + self.Y ==> (#[trigger] self.garbage[i]).kind == GKind::NonBurn
        &&& forall|i: int|
            self.X + self.Y <= i < self.garbage.len() ==> (#[trigger] self.garbage[i]).kind
                == GKind::Recycle
    }

    /// Full scenario validity: well grouped, every point in the domain, and
    /// the whole point set pairwise spaced.
    pub open spec fn valid(self) -> bool {
        &&& self.wf()
        &&& forall|i: int| 0 <= i < self.garbage.len() ==> in_domain(#[trigger] self.garbage[i])
        &&& spaced(self.garbage@)
    }
}

impl Output {
    /// The step list matches the declared step count.
    pub open spec fn wf(self) -> bool {
        self.steps@.len() == self.q
    }
}

/// The number of replayable turns of a path.
pub fn max_turn(out: &Output) -> (r: usize)
    ensures
        r == out.q,
{
    out.q
}

} // verus!
