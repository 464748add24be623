//! Fixed-point vertex data handed from the transform stage to the rasterizer.
use vstd::prelude::*;
use crate::arith::{floor_div, int_sqrt, isqrt, lemma_div_shrinks, lemma_int_sqrt_bounds};

verus! {

/// Fixed-point scale of positions and normals: `FIX_ONE` stands for 1.0.
pub const FIX_ONE: i64 = 1024;

/// Largest magnitude of any fixed-point coordinate the pipeline accepts.
pub const COORD_LIMIT: i64 = 1048576;

/// A point or vector with fixed-point coordinates.
#[derive(Clone, Copy, Debug, PartialEq, Eq, Structural)]
pub struct Point3 {
    pub x: i64,
    pub y: i64,
    pub z: i64,
}

/// A clip-space position (before the perspective divide), fixed-point.
#[derive(Clone, Copy, Debug, PartialEq, Eq, Structural)]
pub struct Clip4 {
    pub x: i64,
    pub y: i64,
    pub z: i64,
    pub w: i64,
}

/// A transformed vertex: clip position, world position, normal, and NDC depth.
#[derive(Clone, Copy, Debug, PartialEq, Eq, Structural)]
pub struct FragmentInput {
    pub position: Clip4,
    pub world_pos: Point3,
    pub normal: Point3,
    pub depth: i64,
}

pub open spec fn in_range(v: i64) -> bool {
    -COORD_LIMIT <= v <= COORD_LIMIT
}

/// The squared length of `p`.
pub open spec fn norm_sq(p: Point3) -> int {
    p.x * p.x + p.y * p.y + p.z * p.z
}

/// A coordinate of `p` rescaled so that `p` has length `FIX_ONE`, rounded down.
pub open spec fn unit_coord(c: int, p: Point3) -> int {
    (c * FIX_ONE) / (int_sqrt(norm_sq(p) as nat) as int)
}

/// `p` rescaled to length `FIX_ONE`; the zero vector stays zero.
pub open spec fn unit_vector(p: Point3) -> Point3 {
    if norm_sq(p) == 0 {
        p
    } else {
        Point3 {
            x: unit_coord(p.x as int, p) as i64,
            y: unit_coord(p.y as int, p) as i64,
            z: unit_coord(p.z as int, p) as i64,
        }
    }
}

impl Point3 {
    pub open spec fn wf(&self) -> bool {
        in_range(self.x) && in_range(self.y) && in_range(self.z)
    }

    /// The vector rescaled to length `FIX_ONE` (one unit); the zero vector stays zero.
    pub fn normalize(&self) -> (r: Point3)
        requires
            self.wf(),
        ensures
            r == unit_vector(*self),
            norm_sq(*self) > 0 ==> r.x == unit_coord(self.x as int, *self) && r.y == unit_coord(
                self.y as int,
                *self,
            ) && r.z == unit_coord(self.z as int, *self),
    {
        proof {
            assert(0 <= self.x * self.x <= COORD_LIMIT * COORD_LIMIT) by (nonlinear_arith)
                requires
                    -COORD_LIMIT <= self.x <= COORD_LIMIT,
            ;
            assert(0 <= self.y * self.y <= COORD_LIMIT * COORD_LIMIT) by (nonlinear_arith)
                requires
                    -COORD_LIMIT <= self.y <= COORD_LIMIT,
            ;
            assert(0 <= self.z * self.z <= COORD_LIMIT * COORD_LIMIT) by (nonlinear_arith)
                requires
                    -COORD_LIMIT <= self.z <= COORD_LIMIT,
            ;
        }
        let sq: i64 = self.x * self.x + self.y * self.y + self.z * self.z;
        if sq == 0 {
            return *self;
        }
        let len = isqrt(sq as u64);
        proof {
            lemma_int_sqrt_bounds(sq as nat);
            assert(len >= 1) by (nonlinear_arith)
                requires
                    sq >= 1,
                    sq < (len + 1) * (len + 1),
            ;
            lemma_div_shrinks(self.x * FIX_ONE, len as int, COORD_LIMIT * FIX_ONE);
            lemma_div_shrinks(self.y * FIX_ONE, len as int, COORD_LIMIT * FIX_ONE);
            lemma_div_shrinks(self.z * FIX_ONE, len as int, COORD_LIMIT * FIX_ONE);
        }
        Point3 {
            x: floor_div(self.x as i128 * FIX_ONE as i128, len as i128) as i64,
            y: floor_div(self.y as i128 * FIX_ONE as i128, len as i128) as i64,
            z: floor_div(self.z as i128 * FIX_ONE as i128, len as i128) as i64,
        }
    }
}

impl Clip4 {
    pub open spec fn wf(&self) -> bool {
        in_range(self.x) && in_range(self.y) && in_range(self.z) && in_range(self.w)
    }
}

impl FragmentInput {
    /// Every coordinate lies within `COORD_LIMIT`.
    pub open spec fn wf(&self) -> bool {
        self.position.wf() && self.world_pos.wf() && self.normal.wf()
    }
}

} // verus!
