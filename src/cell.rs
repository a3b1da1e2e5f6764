use vstd::prelude::*;
use crate::geometry::{Point, Envelope, root, isqrt};

verus! {

/// Largest radius a cell may have.
pub const RADIUS_LIMIT: i64 = 0x4000_0000;

/// One simulated particle.
#[derive(Clone, Copy, Debug, PartialEq, Eq, Structural)]
pub struct Cell {
    pub pos: Point,
    pub size: i64,
    pub vel: Point,
}

/// Square of the Euclidean distance between two points.
pub open spec fn dist2(a: Point, b: Point) -> int {
    (a.x - b.x) * (a.x - b.x) + (a.y - b.y) * (a.y - b.y)
}

pub open spec fn cell_box(c: Cell) -> Envelope {
    Envelope {
        min_x: (c.pos.x - c.size) as i64,
        min_y: (c.pos.y - c.size) as i64,
        max_x: (c.pos.x + c.size) as i64,
        max_y: (c.pos.y + c.size) as i64,
    }
}

/// Squared distance from a point to the ring of a cell: zero inside it.
pub open spec fn ring_dist2(c: Cell, p: Point) -> int {
    let out = root(dist2(c.pos, p)) - c.size;
    if out > 0 {
        out * out
    } else {
        0
    }
}

proof fn lemma_square_le(d: int, b: int)
    requires
        -b <= d <= b,
    ensures
        0 <= d * d <= b * b,
{
    assert(0 <= d * d <= b * b) by (nonlinear_arith)
        requires
            -b <= d <= b,
    ;
}

/// Exact squared distance between two bounded points.
pub fn squared_distance(a: Point, b: Point) -> (r: i128)
    requires
        a.bounded(),
        b.bounded(),
    ensures
        r == dist2(a, b),
        0 <= r <= 0x80_0000_0000_0000_0000_0000,
{
    let d_x = (a.x as i128) - (b.x as i128);
    let d_y = (a.y as i128) - (b.y as i128);
    proof {
        lemma_square_le(d_x as int, 0x800_0000_0000);
        lemma_square_le(d_y as int, 0x800_0000_0000);
    }
    d_x * d_x + d_y * d_y
}

impl Cell {
    /// A positive radius within bounds, and position and velocity in range.
    pub open spec fn wf(self) -> bool {
        0 < self.size <= RADIUS_LIMIT && self.pos.bounded() && self.vel.bounded()
    }

    /// A cell at rest.
    pub fn new(pos: Point, size: i64) -> (r: Cell)
        ensures
            r.pos == pos,
            r.size == size,
            r.vel == (Point { x: 0, y: 0 }),
    {
        Cell { pos, size, vel: Point { x: 0, y: 0 } }
    }

    /// The square of side `2 * size` centred on the cell.
    pub fn envelope(&self) -> (r: Envelope)
        requires
            self.wf(),
        ensures
            r == cell_box(*self),
    {
        Envelope {
            min_x: self.pos.x - self.size,
            min_y: self.pos.y - self.size,
            max_x: self.pos.x + self.size,
            max_y: self.pos.y + self.size,
        }
    }

    /// Squared distance from `point` to the cell's ring (zero inside the cell).
    pub fn distance_2(&self, point: &Point) -> (r: u128)
        requires
            self.wf(),
            point.bounded(),
        ensures
            r == ring_dist2(*self, *point),
    {
        let sq = squared_distance(self.pos, *point) as u128;
        let to_origin = isqrt(sq);
        assert(to_origin < 0x1000_0000_0000) by (nonlinear_arith)
            requires
                to_origin * to_origin <= sq,
                sq <= 0x80_0000_0000_0000_0000_0000,
        ;
        if (to_origin as i128) > (self.size as i128) {
            let out = (to_origin as i128 - self.size as i128) as u128;
            assert(out * out <= 0x1_0000_0000_0000_0000_0000_0000) by (nonlinear_arith)
                requires
                    out <= 0x1_0000_0000_0000,
            ;
            out * out
        } else {
            0
        }
    }

    /// The point lies inside or on the cell's circle.
    pub fn contains_point(&self, point: &Point) -> (r: bool)
        requires
            self.wf(),
            point.bounded(),
        ensures
            r == (dist2(self.pos, *point) <= self.size * self.size),
    {
        proof {
            lemma_square_le(self.size as int, RADIUS_LIMIT as int);
        }
        let radius_2 = (self.size as i128) * (self.size as i128);
        squared_distance(self.pos, *point) <= radius_2
    }
}

} // verus!
