use vstd::prelude::*;

verus! {

/// A point of the integer lattice, carrying a caller-chosen identifier
/// (identifiers need not be unique).
#[derive(Clone, Copy, Debug, PartialEq, Eq, Structural)]
pub struct Point {
    pub x: i32,
    pub y: i32,
    pub z: i32,
    pub id: u32,
}

/// An axis-aligned box, closed on every side.  A box is meant to have
/// `min <= max` on each axis; nothing checks it, and a box that breaks it
/// contains no point.
#[derive(Clone, Copy, Debug, PartialEq, Eq, Structural)]
pub struct Aabb {
    pub min_x: i32,
    pub min_y: i32,
    pub min_z: i32,
    pub max_x: i32,
    pub max_y: i32,
    pub max_z: i32,
}

pub open spec fn sq(v: int) -> int {
    v * v
}

/// `v` moved into `[lo, hi]`.
pub open spec fn clamp(v: int, lo: int, hi: int) -> int {
    if v < lo {
        lo
    } else if v > hi {
        hi
    } else {
        v
    }
}

/// The point halfway between `lo` and `hi`, rounded down.
pub open spec fn midpoint(lo: int, hi: int) -> int {
    (lo + hi) / 2
}

/// Squared distance from `(x, y, z)` to the centre `(cx, cy, cz)`.
pub open spec fn dist2(x: int, y: int, z: int, cx: int, cy: int, cz: int) -> int {
    sq(x - cx) + sq(y - cy) + sq(z - cz)
}

/// Whether `p` lies in the closed ball of radius `|r|` around `(cx, cy, cz)`.
pub open spec fn in_sphere(p: Point, cx: i32, cy: i32, cz: i32, r: i32) -> bool {
    dist2(p.x as int, p.y as int, p.z as int, cx as int, cy as int, cz as int) <= sq(r as int)
}

impl Aabb {
    pub open spec fn contains(self, x: int, y: int, z: int) -> bool {
        &&& self.min_x <= x <= self.max_x
        &&& self.min_y <= y <= self.max_y
        &&& self.min_z <= z <= self.max_z
    }

    /// `min <= max` on every axis.
    pub open spec fn proper(self) -> bool {
        self.min_x <= self.max_x && self.min_y <= self.max_y && self.min_z <= self.max_z
    }

    pub open spec fn holds(self, p: Point) -> bool {
        self.contains(p.x as int, p.y as int, p.z as int)
    }

    pub open spec fn overlaps(self, o: Aabb) -> bool {
        !(self.max_x < o.min_x || self.min_x > o.max_x || self.max_y < o.min_y || self.min_y
            > o.max_y || self.max_z < o.min_z || self.min_z > o.max_z)
    }

    /// Squared distance from the centre to its nearest point of the box.
    pub open spec fn gap2(self, cx: int, cy: int, cz: int) -> int {
        dist2(
            clamp(cx, self.min_x as int, self.max_x as int),
            clamp(cy, self.min_y as int, self.max_y as int),
            clamp(cz, self.min_z as int, self.max_z as int),
            cx,
            cy,
            cz,
        )
    }

    pub open spec fn meets_sphere(self, cx: i32, cy: i32, cz: i32, r: i32) -> bool {
        self.gap2(cx as int, cy as int, cz as int) <= sq(r as int)
    }

    /// Octant `i` of the box: bit 0 of `i` picks the upper half in x,
    /// bit 1 in y, bit 2 in z.  Both halves of an axis share the midpoint.
    pub open spec fn octant(self, i: int) -> Aabb {
        let mx = midpoint(self.min_x as int, self.max_x as int) as i32;
        let my = midpoint(self.min_y as int, self.max_y as int) as i32;
        let mz = midpoint(self.min_z as int, self.max_z as int) as i32;
        let hx = i % 2 == 1;
        let hy = (i / 2) % 2 == 1;
        let hz = (i / 4) % 2 == 1;
        Aabb {
            min_x: if hx { mx } else { self.min_x },
            min_y: if hy { my } else { self.min_y },
            min_z: if hz { mz } else { self.min_z },
            max_x: if hx { self.max_x } else { mx },
            max_y: if hy { self.max_y } else { my },
            max_z: if hz { self.max_z } else { mz },
        }
    }

    /// The six coordinates, lower corner first.
    pub open spec fn corners(self) -> Seq<i32> {
        seq![self.min_x, self.min_y, self.min_z, self.max_x, self.max_y, self.max_z]
    }

    pub fn contains_point(&self, x: i32, y: i32, z: i32) -> (r: bool)
        ensures
            r == self.contains(x as int, y as int, z as int),
    {
        x >= self.min_x && x <= self.max_x && y >= self.min_y && y <= self.max_y && z
            >= self.min_z && z <= self.max_z
    }

    pub fn intersects_aabb(&self, other: &Aabb) -> (r: bool)
        ensures
            r == self.overlaps(*other),
    {
        !(self.max_x < other.min_x || self.min_x > other.max_x || self.max_y < other.min_y
            || self.min_y > other.max_y || self.max_z < other.min_z || self.min_z > other.max_z)
    }

    pub fn intersects_sphere(&self, cx: i32, cy: i32, cz: i32, r: i32) -> (b: bool)
        ensures
            b == self.meets_sphere(cx, cy, cz, r),
    {
        let nx = clamp_to(cx, self.min_x, self.max_x);
        let ny = clamp_to(cy, self.min_y, self.max_y);
        let nz = clamp_to(cz, self.min_z, self.max_z);
        squared_distance(nx, ny, nz, cx, cy, cz) <= square(r as i64)
    }

    /// Octant `i` of the box, as `octant` describes it.
    pub fn child_bounds(&self, i: usize) -> (b: Aabb)
        requires
            i < 8,
        ensures
            b == self.octant(i as int),
    {
        let mx = mid_of(self.min_x, self.max_x);
        let my = mid_of(self.min_y, self.max_y);
        let mz = mid_of(self.min_z, self.max_z);
        let hx = i % 2 == 1;
        let hy = (i / 2) % 2 == 1;
        let hz = (i / 4) % 2 == 1;
        Aabb {
            min_x: if hx { mx } else { self.min_x },
            min_y: if hy { my } else { self.min_y },
            min_z: if hz { mz } else { self.min_z },
            max_x: if hx { self.max_x } else { mx },
            max_y: if hy { self.max_y } else { my },
            max_z: if hz { self.max_z } else { mz },
        }
    }
}

fn clamp_to(v: i32, lo: i32, hi: i32) -> (r: i32)
    ensures
        r == clamp(v as int, lo as int, hi as int),
{
    if v < lo {
        lo
    } else if v > hi {
        hi
    } else {
        v
    }
}

fn mid_of(lo: i32, hi: i32) -> (m: i32)
    ensures
        m == midpoint(lo as int, hi as int),
{
    let s: i64 = lo as i64 + hi as i64;
    let h: i64 = if s >= 0 {
        s / 2
    } else {
        -((-s + 1) / 2)
    };
    h as i32
}

/// `v * v`, for any difference of two `i32` values.
pub fn square(v: i64) -> (r: i128)
    requires
        -0x1_0000_0000 <= v <= 0x1_0000_0000,
    ensures
        r == sq(v as int),
        0 <= r <= 0x1_0000_0000_0000_0000,
{
    proof {
        assert(0 <= v * v <= 0x1_0000_0000_0000_0000) by (nonlinear_arith)
            requires
                -0x1_0000_0000 <= v <= 0x1_0000_0000,
        ;
    }
    (v as i128) * (v as i128)
}

/// Squared distance between two lattice points.
pub fn squared_distance(x: i32, y: i32, z: i32, cx: i32, cy: i32, cz: i32) -> (r: i128)
    ensures
        r == dist2(x as int, y as int, z as int, cx as int, cy as int, cz as int),
{
    let dx = square(x as i64 - cx as i64);
    let dy = square(y as i64 - cy as i64);
    let dz = square(z as i64 - cz as i64);
    dx + dy + dz
}

/// A point of a box that misses the ball lies outside the ball.
pub proof fn lemma_far_box_far_point(b: Aabb, p: Point, cx: i32, cy: i32, cz: i32, r: i32)
    requires
        b.holds(p),
        !b.meets_sphere(cx, cy, cz, r),
    ensures
        !in_sphere(p, cx, cy, cz, r),
{
    lemma_clamp_nearer(p.x as int, cx as int, b.min_x as int, b.max_x as int);
    lemma_clamp_nearer(p.y as int, cy as int, b.min_y as int, b.max_y as int);
    lemma_clamp_nearer(p.z as int, cz as int, b.min_z as int, b.max_z as int);
}

/// The ball of radius zero holds its centre and nothing else.
pub proof fn lemma_zero_radius(p: Point, cx: i32, cy: i32, cz: i32)
    ensures
        in_sphere(p, cx, cy, cz, 0) <==> (p.x == cx && p.y == cy && p.z == cz),
{
    let dx = p.x - cx;
    let dy = p.y - cy;
    let dz = p.z - cz;
    assert(dx * dx + dy * dy + dz * dz <= 0 ==> dx == 0 && dy == 0 && dz == 0)
        by (nonlinear_arith);
    assert(sq(0) == 0);
}

/// On one axis, a coordinate inside `[lo, hi]` is at least as far from `c`
/// as `c` clamped into that range.
proof fn lemma_clamp_nearer(v: int, c: int, lo: int, hi: int)
    requires
        lo <= v <= hi,
    ensures
        sq(v - c) >= sq(clamp(c, lo, hi) - c),
{
    let a = v - c;
    let d = clamp(c, lo, hi) - c;
    assert(a * a >= d * d) by (nonlinear_arith)
        requires
            (0 <= d <= a) || (a <= d <= 0),
    ;
}

/// The midpoint of two `i32` values lies between them.
pub proof fn lemma_midpoint_fits(lo: i32, hi: i32)
    ensures
        lo <= hi ==> lo <= midpoint(lo as int, hi as int) <= hi,
        hi <= lo ==> hi <= midpoint(lo as int, hi as int) <= lo,
        midpoint(lo as int, hi as int) as i32 == midpoint(lo as int, hi as int),
{
}

/// The octant that a point of the box falls in: the first, in index order,
/// whose bounds hold it.  On each axis that is the upper half only where the
/// point lies strictly above the midpoint.
pub open spec fn first_octant(b: Aabb, q: Point) -> int {
    (if q.x > midpoint(b.min_x as int, b.max_x as int) {
        1int
    } else {
        0
    }) + (if q.y > midpoint(b.min_y as int, b.max_y as int) {
        2int
    } else {
        0
    }) + (if q.z > midpoint(b.min_z as int, b.max_z as int) {
        4int
    } else {
        0
    })
}

/// A point of a box lies in octant `first_octant` and in no octant before it.
pub proof fn lemma_first_octant(b: Aabb, q: Point)
    requires
        b.holds(q),
    ensures
        0 <= first_octant(b, q) < 8,
        b.octant(first_octant(b, q)).holds(q),
        forall|j: int| 0 <= j < first_octant(b, q) ==> !(#[trigger] b.octant(j)).holds(q),
{
    lemma_midpoint_fits(b.min_x, b.max_x);
    lemma_midpoint_fits(b.min_y, b.max_y);
    lemma_midpoint_fits(b.min_z, b.max_z);
    let f = first_octant(b, q);
    assert(b.octant(f).holds(q));
    assert forall|j: int| 0 <= j < f implies !(#[trigger] b.octant(j)).holds(q) by {
        if j == 0 {
        } else if j == 1 {
        } else if j == 2 {
        } else if j == 3 {
        } else if j == 4 {
        } else if j == 5 {
        } else {
            assert(j == 6);
        }
    }
}

} // verus!
