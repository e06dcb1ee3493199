use vstd::prelude::*;

use crate::rng::RandomSource;
use crate::rng::fixed_next;
use crate::rng::fixed_value;

verus! {

/// A cell of the grid. The interior is 1-indexed: row 0, column 0 and the
/// far edges at `width` and `height` are walls.
#[derive(Clone, Copy, Debug, PartialEq, Eq, Structural)]
pub struct Position {
    pub x: u16,
    pub y: u16,
}

/// Absolute difference of two coordinates.
pub open spec fn axis_gap(a: u16, b: u16) -> int {
    if a >= b {
        a - b
    } else {
        b - a
    }
}

/// The neighbourhood test the simulation uses throughout: the gap is
/// exactly one on the x axis or on the y axis; the other axis is left
/// unconstrained.
pub open spec fn axis_adjacent(a: Position, b: Position) -> bool {
    axis_gap(a.x, b.x) == 1 || axis_gap(a.y, b.y) == 1
}

/// Strictly inside the walls of a `width` by `height` grid.
pub open spec fn in_interior(p: Position, width: u16, height: u16) -> bool {
    1 <= p.x < width && 1 <= p.y < height
}

impl Position {
    /// Exact neighbourhood test matching `axis_adjacent`.
    pub fn is_axis_adjacent(self, other: Position) -> (r: bool)
        ensures
            r == axis_adjacent(self, other),
    {
        let dx: u16 = if self.x >= other.x {
            self.x - other.x
        } else {
            other.x - self.x
        };
        let dy: u16 = if self.y >= other.y {
            self.y - other.y
        } else {
            other.y - self.y
        };
        dx == 1 || dy == 1
    }
}

/// Where a coordinate lands after one jitter draw `d` (0, 1 and 2 stand
/// for a step of -1, 0 and +1), clamped to the interior `[1, hi - 1]`.
pub open spec fn stepped_coord(x: u16, d: u32, hi: u16) -> int {
    if d == 2 {
        if x as int + 1 < hi as int {
            x as int + 1
        } else {
            x as int
        }
    } else if d == 0 {
        if x > 1 {
            x as int - 1
        } else {
            1
        }
    } else {
        x as int
    }
}

/// One undirected step: both axes jittered independently by a uniform draw
/// from {-1, 0, +1}, clamped so the result never leaves the interior.
pub fn random_step(pos: Position, width: u16, height: u16, rng: &mut RandomSource) -> (r: Position)
    requires
        3 <= width,
        3 <= height,
        in_interior(pos, width, height),
    ensures
        in_interior(r, width, height),
        axis_gap(r.x, pos.x) <= 1,
        axis_gap(r.y, pos.y) <= 1,
        exists|dx: u32, dy: u32|
            #![auto]
            dx < 3 && dy < 3 && r.x as int == stepped_coord(pos.x, dx, width) && r.y as int
                == stepped_coord(pos.y, dy, height),
        final(rng).system == old(rng).system,
        final(rng).values == old(rng).values,
        old(rng).system ==> final(rng).next == old(rng).next,
        !old(rng).system ==> {
            let d0 = fixed_value(old(rng).values@, old(rng).next as int, 0, 3);
            let n1 = fixed_next(old(rng).values@, old(rng).next as int);
            let d1 = fixed_value(old(rng).values@, n1, 0, 3);
            &&& r.x as int == stepped_coord(pos.x, d0 as u32, width)
            &&& r.y as int == stepped_coord(pos.y, d1 as u32, height)
            &&& final(rng).next as int == fixed_next(old(rng).values@, n1)
        },
{
    let dx: u32 = rng.pick(0, 3);
    let dy: u32 = rng.pick(0, 3);
    let mut x: u16 = pos.x;
    let mut y: u16 = pos.y;
    if dx == 2 && x != width - 1 {
        x = x + 1;
    } else if dx == 0 {
        if x > 1 {
            x = x - 1;
        }
    }
    if dy == 2 && y != height - 1 {
        y = y + 1;
    } else if dy == 0 {
        if y > 1 {
            y = y - 1;
        }
    }
    let r = Position { x, y };
    proof {
        assert(r.x as int == stepped_coord(pos.x, dx, width));
        assert(r.y as int == stepped_coord(pos.y, dy, height));
    }
    r
}

} // verus!
