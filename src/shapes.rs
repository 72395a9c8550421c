use vstd::prelude::*;
use vstd::arithmetic::div_mod::{
    lemma_div_is_ordered, lemma_div_multiples_vanish, lemma_fundamental_div_mod,
    lemma_mod_multiples_basic,
};
use crate::arith::{
    ceil_div, ceil_div_exec, floor_div, floor_div_exec, lemma_mul_bounded, round_div,
    round_div_exec, lemma_quot_bounded,
};

verus! {

/// Positions are fixed-point numbers: one world unit is `UNIT` steps.
pub const UNIT: i64 = 256;

/// Largest magnitude, in steps, of a coordinate that a shape accepts.
pub const MAX_COORD: i64 = 1048576;

/// Largest magnitude, in steps, of a 2D point handed to a containment or plane query.
pub const MAX_QUERY: i64 = 2097152;

pub open spec fn in_range(v: int) -> bool {
    -MAX_COORD <= v <= MAX_COORD
}

pub open spec fn in_query_range(v: int) -> bool {
    -MAX_QUERY <= v <= MAX_QUERY
}

/// A point in space, in fixed-point steps (`UNIT` steps per world unit).
#[derive(Clone, Copy, Debug, PartialEq, Eq, Structural)]
pub struct Point3 {
    pub x: i64,
    pub y: i64,
    pub z: i64,
}

/// A point in a plane, in fixed-point steps.
#[derive(Clone, Copy, Debug, PartialEq, Eq, Structural)]
pub struct Point2 {
    pub x: i64,
    pub y: i64,
}

impl Point3 {
    pub fn new(x: i64, y: i64, z: i64) -> (r: Point3)
        ensures
            r == (Point3 { x, y, z }),
    {
        Point3 { x, y, z }
    }

    pub open spec fn in_range(self) -> bool {
        in_range(self.x as int) && in_range(self.y as int) && in_range(self.z as int)
    }
}

impl Point2 {
    pub fn new(x: i64, y: i64) -> (r: Point2)
        ensures
            r == (Point2 { x, y }),
    {
        Point2 { x, y }
    }

    pub open spec fn in_range(self) -> bool {
        in_range(self.x as int) && in_range(self.y as int)
    }

    pub open spec fn in_query_range(self) -> bool {
        in_query_range(self.x as int) && in_query_range(self.y as int)
    }
}

/// Normal `(a - b) x (a - c)` of the plane through three points.
pub open spec fn normal_of(a: Point3, b: Point3, c: Point3) -> (int, int, int) {
    let (ux, uy, uz) = (a.x - b.x, a.y - b.y, a.z - b.z);
    let (vx, vy, vz) = (a.x - c.x, a.y - c.y, a.z - c.z);
    (uy * vz - uz * vy, uz * vx - ux * vz, ux * vy - uy * vx)
}

/// The point with coordinate `which` (0: x, 1: y, 2: z) dropped.
pub open spec fn project(p: Point3, which: int) -> Point2 {
    if which == 0 {
        Point2 { x: p.y, y: p.z }
    } else if which == 1 {
        Point2 { x: p.x, y: p.z }
    } else {
        Point2 { x: p.x, y: p.y }
    }
}

/// A triangle with the plane `nx * x + ny * y + nz * z == offset` through it.
pub struct Tri {
    pub a: Point3,
    pub b: Point3,
    pub c: Point3,
    pub nx: i128,
    pub ny: i128,
    pub nz: i128,
    pub offset: i128,
}

/// A triangle in a plane.
#[derive(Clone, Copy, Debug)]
pub struct Tri2D {
    pub a: Point2,
    pub b: Point2,
    pub c: Point2,
}

/// The plane coefficients reordered so that the last one is along `which`:
/// `(ca, cb, cc)` with `ca * u + cb * v + cc * w == offset` for the kept `(u, v)`.
pub open spec fn coefs(t: Tri, which: int) -> (int, int, int) {
    if which == 0 {
        (t.ny as int, t.nz as int, t.nx as int)
    } else if which == 1 {
        (t.nx as int, t.nz as int, t.ny as int)
    } else {
        (t.nx as int, t.ny as int, t.nz as int)
    }
}

/// The coordinate along `which`, in world units and rounded, at which the plane of `t`
/// meets the line through the 2D point `(u, v)`; `None` when the plane is within 0.01
/// of parallel to that line.
pub open spec fn solve(t: Tri, which: int, u: int, v: int) -> Option<int> {
    let (ca, cb, cc) = coefs(t, which);
    let num = ca * u + cb * v - t.offset;
    let den = -cc * UNIT;
    if 100 * (if cc < 0 { -cc } else { cc }) < UNIT * UNIT {
        None
    } else if den > 0 {
        Some(round_div(num, den))
    } else {
        Some(round_div(-num, -den))
    }
}

/// Each component of a normal of in-range points is below `8 * MAX_COORD^2`.
proof fn lemma_normal_bounded(a: Point3, b: Point3, c: Point3)
    requires
        a.in_range(),
        b.in_range(),
        c.in_range(),
    ensures
        ({
            let (nx, ny, nz) = normal_of(a, b, c);
            let nb: int = 8796093022208;
            -nb <= nx <= nb && -nb <= ny <= nb && -nb <= nz <= nb
        }),
{
    let m: int = 2097152;
    let (ux, uy, uz) = (a.x - b.x, a.y - b.y, a.z - b.z);
    let (vx, vy, vz) = (a.x - c.x, a.y - c.y, a.z - c.z);
    lemma_mul_bounded(uy, vz, m, m);
    lemma_mul_bounded(uz, vy, m, m);
    lemma_mul_bounded(uz, vx, m, m);
    lemma_mul_bounded(ux, vz, m, m);
    lemma_mul_bounded(ux, vy, m, m);
    lemma_mul_bounded(uy, vx, m, m);
}

/// The triangle through three points, with its plane.
pub open spec fn tri_of(a: Point3, b: Point3, c: Point3) -> Tri {
    let (nx, ny, nz) = normal_of(a, b, c);
    Tri {
        a,
        b,
        c,
        nx: nx as i128,
        ny: ny as i128,
        nz: nz as i128,
        offset: (a.x * nx + a.y * ny + a.z * nz) as i128,
    }
}

impl Tri {
    pub open spec fn wf(self) -> bool {
        &&& self.a.in_range()
        &&& self.b.in_range()
        &&& self.c.in_range()
        &&& (self.nx as int, self.ny as int, self.nz as int) == normal_of(self.a, self.b, self.c)
        &&& self.offset == self.a.x * self.nx + self.a.y * self.ny + self.a.z * self.nz
    }

    pub open spec fn flat(self, which: int) -> Tri2D {
        Tri2D {
            a: project(self.a, which),
            b: project(self.b, which),
            c: project(self.c, which),
        }
    }

    pub fn from_points(a: Point3, b: Point3, c: Point3) -> (r: Tri)
        requires
            a.in_range(),
            b.in_range(),
            c.in_range(),
        ensures
            r.wf(),
            r == tri_of(a, b, c),
    {
        let (ux, uy, uz) = (
            a.x as i128 - b.x as i128,
            a.y as i128 - b.y as i128,
            a.z as i128 - b.z as i128,
        );
        let (vx, vy, vz) = (
            a.x as i128 - c.x as i128,
            a.y as i128 - c.y as i128,
            a.z as i128 - c.z as i128,
        );
        proof {
            let m: int = 2097152;
            lemma_mul_bounded(uy as int, vz as int, m, m);
            lemma_mul_bounded(uz as int, vy as int, m, m);
            lemma_mul_bounded(uz as int, vx as int, m, m);
            lemma_mul_bounded(ux as int, vz as int, m, m);
            lemma_mul_bounded(ux as int, vy as int, m, m);
            lemma_mul_bounded(uy as int, vx as int, m, m);
        }
        let nx = uy * vz - uz * vy;
        let ny = uz * vx - ux * vz;
        let nz = ux * vy - uy * vx;
        proof {
            let m: int = 8796093022208;
            lemma_mul_bounded(a.x as int, nx as int, 1048576, m);
            lemma_mul_bounded(a.y as int, ny as int, 1048576, m);
            lemma_mul_bounded(a.z as int, nz as int, 1048576, m);
        }
        let offset = a.x as i128 * nx + a.y as i128 * ny + a.z as i128 * nz;
        Tri { a, b, c, nx, ny, nz, offset }
    }

    /// The triangle with coordinate `which` (0: x, 1: y, 2: z) dropped.
    pub fn get_flat(&self, which: i32) -> (r: Tri2D)
        requires
            0 <= which < 3,
        ensures
            r == self.flat(which as int),
    {
        let (a, b, c) = (self.a, self.b, self.c);
        if which == 0 {
            Tri2D { a: Point2 { x: a.y, y: a.z }, b: Point2 { x: b.y, y: b.z }, c: Point2 { x: c.y, y: c.z } }
        } else if which == 1 {
            Tri2D { a: Point2 { x: a.x, y: a.z }, b: Point2 { x: b.x, y: b.z }, c: Point2 { x: c.x, y: c.z } }
        } else {
            Tri2D { a: Point2 { x: a.x, y: a.y }, b: Point2 { x: b.x, y: b.y }, c: Point2 { x: c.x, y: c.y } }
        }
    }

    /// Where the plane meets the line through `ray` along axis `which`, rounded to
    /// world units; `None` when the plane is nearly parallel to that line.
    pub fn plane_intersection(&self, ray: Point2, which: i32) -> (r: Option<i64>)
        requires
            self.wf(),
            ray.in_query_range(),
            0 <= which < 3,
        ensures
            r matches Some(s) ==> solve(*self, which as int, ray.x as int, ray.y as int) == Some(s as int),
            r is None ==> solve(*self, which as int, ray.x as int, ray.y as int) is None,
    {
        let (ca, cb, cc) = if which == 0 {
            (self.ny, self.nz, self.nx)
        } else if which == 1 {
            (self.nx, self.nz, self.ny)
        } else {
            (self.nx, self.ny, self.nz)
        };
        let ghost nb: int = 8796093022208;
        proof {
            lemma_normal_bounded(self.a, self.b, self.c);
            lemma_mul_bounded(ca as int, ray.x as int, nb, 2097152);
            lemma_mul_bounded(cb as int, ray.y as int, nb, 2097152);
            lemma_mul_bounded(self.a.x as int, self.nx as int, 1048576, nb);
            lemma_mul_bounded(self.a.y as int, self.ny as int, 1048576, nb);
            lemma_mul_bounded(self.a.z as int, self.nz as int, 1048576, nb);
        }
        let px = ray.x as i128;
        let py = ray.y as i128;
        let num = ca * px + cb * py - self.offset;
        let abs_c = if cc < 0 { -cc } else { cc };
        if 100 * abs_c < UNIT as i128 * UNIT as i128 {
            return None;
        }
        let (n, m) = if cc < 0 { (num, -cc * UNIT as i128) } else { (-num, cc * UNIT as i128) };
        let q = round_div_exec(n, m);
        proof {
            let bn: int = 129131712115594231808;
            if n >= 0 {
                lemma_quot_bounded(2 * n + m, 2 * m, bn, 335872);
            } else {
                lemma_quot_bounded(-2 * n + m, 2 * m, bn, 335872);
            }
        }
        Some(q as i64)
    }
}

pub open spec fn min3(a: int, b: int, c: int) -> int {
    if a <= b && a <= c { a } else if b <= c { b } else { c }
}

pub open spec fn max3(a: int, b: int, c: int) -> int {
    if a >= b && a >= c { a } else if b >= c { b } else { c }
}

/// Barycentric test: with `u = nu / den` and `v = nv / den` the weights of
/// `b - a` and `c - a`, the point is inside when `u >= 0`, `v >= 0` and `u + v <= 1`,
/// boundary included. A zero-area triangle (`den == 0`) holds no point.
pub open spec fn inside(t: Tri2D, px: int, py: int) -> bool {
    let (x0, y0) = (t.b.x - t.a.x, t.b.y - t.a.y);
    let (x1, y1) = (t.c.x - t.a.x, t.c.y - t.a.y);
    let (x2, y2) = (px - t.a.x, py - t.a.y);
    let d00 = x0 * x0 + y0 * y0;
    let d01 = x0 * x1 + y0 * y1;
    let d02 = x0 * x2 + y0 * y2;
    let d11 = x1 * x1 + y1 * y1;
    let d12 = x1 * x2 + y1 * y2;
    let den = d00 * d11 - d01 * d01;
    let nu = d11 * d02 - d01 * d12;
    let nv = d00 * d12 - d01 * d02;
    (den > 0 && nu >= 0 && nv >= 0 && nu + nv <= den) || (den < 0 && nu <= 0 && nv <= 0 && nu
        + nv >= den)
}

/// `(px, py)` is a lattice point (both coordinates whole world units) of the bounding
/// box of `t`, widened to whole units, and lies inside `t`.
pub open spec fn lattice_in(t: Tri2D, px: int, py: int) -> bool {
    &&& px % (UNIT as int) == 0
    &&& py % (UNIT as int) == 0
    &&& floor_div(min3(t.a.x as int, t.b.x as int, t.c.x as int), UNIT as int) <= px / (UNIT as int)
    &&& px / (UNIT as int) <= ceil_div(max3(t.a.x as int, t.b.x as int, t.c.x as int), UNIT as int)
    &&& floor_div(min3(t.a.y as int, t.b.y as int, t.c.y as int), UNIT as int) <= py / (UNIT as int)
    &&& py / (UNIT as int) <= ceil_div(max3(t.a.y as int, t.b.y as int, t.c.y as int), UNIT as int)
    &&& inside(t, px, py)
}

fn min3_exec(a: i64, b: i64, c: i64) -> (r: i64)
    ensures
        r == min3(a as int, b as int, c as int),
{
    if a <= b && a <= c { a } else if b <= c { b } else { c }
}

fn max3_exec(a: i64, b: i64, c: i64) -> (r: i64)
    ensures
        r == max3(a as int, b as int, c as int),
{
    if a >= b && a >= c { a } else if b >= c { b } else { c }
}

proof fn lemma_floor_le_ceil(a: int, b: int, m: int)
    requires
        a <= b,
        0 < m,
    ensures
        floor_div(a, m) <= ceil_div(b, m),
{
    lemma_div_is_ordered(a, b, m);
    lemma_fundamental_div_mod(b, m);
    lemma_fundamental_div_mod(-b, m);
    let (q1, q2) = (b / m, (-b) / m);
    assert(q2 <= -q1) by (nonlinear_arith)
        requires
            m * q1 + b % m == b,
            m * q2 + (-b) % m == -b,
            0 <= b % m < m,
            0 <= (-b) % m < m,
            0 < m,
    ;
}

impl Tri2D {
    pub fn new(a: Point2, b: Point2, c: Point2) -> (r: Tri2D)
        ensures
            r == (Tri2D { a, b, c }),
    {
        Tri2D { a, b, c }
    }

    pub open spec fn wf(self) -> bool {
        self.a.in_range() && self.b.in_range() && self.c.in_range()
    }

    /// Whether `p` lies inside the triangle, edges and corners included.
    pub fn contains(&self, p: Point2) -> (r: bool)
        requires
            self.wf(),
            p.in_query_range(),
        ensures
            r == inside(*self, p.x as int, p.y as int),
    {
        let (ax, ay) = (self.a.x as i128, self.a.y as i128);
        let (x0, y0) = (self.b.x as i128 - ax, self.b.y as i128 - ay);
        let (x1, y1) = (self.c.x as i128 - ax, self.c.y as i128 - ay);
        let (x2, y2) = (p.x as i128 - ax, p.y as i128 - ay);
        proof {
            let e: int = 2097152;
            let f: int = 3145728;
            lemma_mul_bounded(x0 as int, x0 as int, e, e);
            lemma_mul_bounded(y0 as int, y0 as int, e, e);
            lemma_mul_bounded(x0 as int, x1 as int, e, e);
            lemma_mul_bounded(y0 as int, y1 as int, e, e);
            lemma_mul_bounded(x1 as int, x1 as int, e, e);
            lemma_mul_bounded(y1 as int, y1 as int, e, e);
            lemma_mul_bounded(x0 as int, x2 as int, e, f);
            lemma_mul_bounded(y0 as int, y2 as int, e, f);
            lemma_mul_bounded(x1 as int, x2 as int, e, f);
            lemma_mul_bounded(y1 as int, y2 as int, e, f);
        }
        let d00 = x0 * x0 + y0 * y0;
        let d01 = x0 * x1 + y0 * y1;
        let d02 = x0 * x2 + y0 * y2;
        let d11 = x1 * x1 + y1 * y1;
        let d12 = x1 * x2 + y1 * y2;
        proof {
            let g: int = 8796093022208;
            let h: int = 13194139533312;
            lemma_mul_bounded(d00 as int, d11 as int, g, g);
            lemma_mul_bounded(d01 as int, d01 as int, g, g);
            lemma_mul_bounded(d11 as int, d02 as int, g, h);
            lemma_mul_bounded(d01 as int, d12 as int, g, h);
            lemma_mul_bounded(d00 as int, d12 as int, g, h);
            lemma_mul_bounded(d01 as int, d02 as int, g, h);
        }
        let den = d00 * d11 - d01 * d01;
        let nu = d11 * d02 - d01 * d12;
        let nv = d00 * d12 - d01 * d02;
        (den > 0 && nu >= 0 && nv >= 0 && nu + nv <= den) || (den < 0 && nu <= 0 && nv <= 0 && nu
            + nv >= den)
    }

    /// The lattice points (whole world units, given in steps) inside the triangle.
    pub fn points_inside(&self) -> (r: Vec<Point2>)
        requires
            self.wf(),
        ensures
            forall|k: int| 0 <= k < r@.len() ==> #[trigger] lattice_in(*self, r@[k].x as int, r@[k].y as int),
            forall|k: int| 0 <= k < r@.len() ==> (#[trigger] r@[k]).in_query_range(),
            forall|px: int, py: int| #[trigger] lattice_in(*self, px, py) ==> exists|k: int|
                0 <= k < r@.len() && r@[k].x == px && r@[k].y == py,
            forall|i: int, j: int| 0 <= i < j < r@.len() ==> r@[i] != r@[j],
    {
        let u = UNIT as i128;
        let minx = floor_div_exec(min3_exec(self.a.x, self.b.x, self.c.x) as i128, u) as i64;
        let miny = floor_div_exec(min3_exec(self.a.y, self.b.y, self.c.y) as i128, u) as i64;
        let maxx = ceil_div_exec(max3_exec(self.a.x, self.b.x, self.c.x) as i128, u) as i64;
        let maxy = ceil_div_exec(max3_exec(self.a.y, self.b.y, self.c.y) as i128, u) as i64;
        proof {
            let t = *self;
            lemma_floor_le_ceil(min3(t.a.x as int, t.b.x as int, t.c.x as int), max3(t.a.x as int, t.b.x as int, t.c.x as int), 256);
            lemma_floor_le_ceil(min3(t.a.y as int, t.b.y as int, t.c.y as int), max3(t.a.y as int, t.b.y as int, t.c.y as int), 256);
        }
        let mut set: Vec<Point2> = Vec::new();
        let mut x: i64 = minx;
        while x <= maxx
            invariant
                self.wf(),
                minx <= x <= maxx + 1,
                -4097 <= minx,
                maxx <= 4097,
                minx == floor_div(min3(self.a.x as int, self.b.x as int, self.c.x as int), 256),
                maxx == ceil_div(max3(self.a.x as int, self.b.x as int, self.c.x as int), 256),
                miny == floor_div(min3(self.a.y as int, self.b.y as int, self.c.y as int), 256),
                maxy == ceil_div(max3(self.a.y as int, self.b.y as int, self.c.y as int), 256),
                miny <= maxy + 1,
                -4097 <= miny,
                maxy <= 4097,
                forall|k: int| 0 <= k < set@.len() ==> #[trigger] lattice_in(*self, set@[k].x as int, set@[k].y as int),
                forall|k: int| 0 <= k < set@.len() ==> (#[trigger] set@[k]).in_query_range(),
                forall|px: int, py: int| #[trigger] lattice_in(*self, px, py) && px / 256 < x ==> exists|k: int|
                    0 <= k < set@.len() && set@[k].x == px && set@[k].y == py,
                forall|i: int, j: int| 0 <= i < j < set@.len() ==> set@[i] != set@[j],
                forall|k: int| 0 <= k < set@.len() ==> #[trigger] set@[k].x < x * 256,
            decreases maxx + 1 - x,
        {
            let mut y: i64 = miny;
            while y <= maxy
                invariant
                    self.wf(),
                    minx <= x <= maxx,
                    -4097 <= minx,
                    maxx <= 4097,
                    miny <= y <= maxy + 1,
                    -4097 <= miny,
                    maxy <= 4097,
                    minx == floor_div(min3(self.a.x as int, self.b.x as int, self.c.x as int), 256),
                    maxx == ceil_div(max3(self.a.x as int, self.b.x as int, self.c.x as int), 256),
                    miny == floor_div(min3(self.a.y as int, self.b.y as int, self.c.y as int), 256),
                    maxy == ceil_div(max3(self.a.y as int, self.b.y as int, self.c.y as int), 256),
                    forall|k: int| 0 <= k < set@.len() ==> #[trigger] lattice_in(*self, set@[k].x as int, set@[k].y as int),
                    forall|k: int| 0 <= k < set@.len() ==> (#[trigger] set@[k]).in_query_range(),
                    forall|px: int, py: int| #[trigger] lattice_in(*self, px, py) && (px / 256 < x || (px / 256 == x && py / 256 < y)) ==> exists|k: int|
                        0 <= k < set@.len() && set@[k].x == px && set@[k].y == py,
                    forall|i: int, j: int| 0 <= i < j < set@.len() ==> set@[i] != set@[j],
                    forall|k: int| 0 <= k < set@.len() ==> #[trigger] set@[k].x < x * 256 || (set@[k].x == x * 256 && set@[k].y < y * 256),
                decreases maxy + 1 - y,
            {
                let v = Point2 { x: x * UNIT, y: y * UNIT };
                proof {
                    lemma_div_multiples_vanish(x as int, 256);
                    lemma_div_multiples_vanish(y as int, 256);
                    lemma_mod_multiples_basic(x as int, 256);
                    lemma_mod_multiples_basic(y as int, 256);
                    assert((256 * x) / 256 == x);
                    assert((x * 256) / 256 == x) by { assert(x * 256 == 256 * x); }
                    assert((y * 256) / 256 == y) by { assert(y * 256 == 256 * y); }
                }
                let ins = self.contains(v);
                let ghost before = set@;
                if ins {
                    set.push(v);
                    proof {
                        assert(set@[before.len() as int] == v);
                        assert(lattice_in(*self, v.x as int, v.y as int));
                        assert forall|k: int| 0 <= k < set@.len() implies #[trigger] lattice_in(*self, set@[k].x as int, set@[k].y as int) by {
                            if k < before.len() {
                                assert(set@[k] == before[k]);
                            }
                        }
                    }
                }
                proof {
                    assert forall|px: int, py: int| #[trigger] lattice_in(*self, px, py) && (px / 256 < x || (px / 256 == x && py / 256 < y + 1)) implies exists|k: int|
                        0 <= k < set@.len() && set@[k].x == px && set@[k].y == py by {
                        if px / 256 < x || (px / 256 == x && py / 256 < y) {
                            let k = choose|k: int| 0 <= k < before.len() && before[k].x == px && before[k].y == py;
                            assert(set@[k] == before[k]);
                        } else {
                            lemma_fundamental_div_mod(px, 256);
                            lemma_fundamental_div_mod(py, 256);
                            assert(px == x * 256 && py == y * 256);
                            assert(set@[before.len() as int] == v);
                        }
                    }
                }
                y = y + 1;
            }
            proof {
                assert forall|px: int, py: int| #[trigger] lattice_in(*self, px, py) && px / 256 < x + 1 implies exists|k: int|
                    0 <= k < set@.len() && set@[k].x == px && set@[k].y == py by {
                    assert(py / 256 < y);
                }
            }
            x = x + 1;
        }
        set
    }
}

/// A point at offset `(dx, dy, dz)` from a center lies within half a cell diagonal
/// (`sqrt(3) / 2` world units) of the sphere of radius `r`: `|dist - r| <= sqrt(3) / 2`,
/// squared out so that it is exact (`3 * UNIT^2 == 196608`, `48 * UNIT^2 == 3145728`).
pub open spec fn on_shell(dx: int, dy: int, dz: int, r: int) -> bool {
    let d2 = dx * dx + dy * dy + dz * dz;
    let rr = r * r;
    let above = 4 * d2 - 4 * rr - 196608;
    let below = 4 * rr + 196608 - 4 * d2;
    &&& (above <= 0 || above * above <= 3145728 * rr)
    &&& (4 * rr <= 196608 || below <= 0 || below * below <= 3145728 * rr)
}

/// Largest magnitude, in steps, of a point handed to a sphere's containment test.
pub const MAX_SHELL_QUERY: i64 = 4194304;

/// A sphere: center `p` and radius `d`, both in steps.
pub struct Sphere {
    pub p: Point3,
    pub d: i64,
}

/// `(px, py, pz)` is a lattice point of the bounding cube of `s`, widened by one unit
/// on each side, that lies on the shell of `s`.
pub open spec fn shell_lattice(s: Sphere, px: int, py: int, pz: int) -> bool {
    &&& px % 256 == 0
    &&& py % 256 == 0
    &&& pz % 256 == 0
    &&& ceil_div(s.p.x - s.d, 256) - 1 <= px / 256 <= floor_div(s.p.x + s.d, 256) + 1
    &&& ceil_div(s.p.y - s.d, 256) - 1 <= py / 256 <= floor_div(s.p.y + s.d, 256) + 1
    &&& ceil_div(s.p.z - s.d, 256) - 1 <= pz / 256 <= floor_div(s.p.z + s.d, 256) + 1
    &&& on_shell(px - s.p.x, py - s.p.y, pz - s.p.z, s.d as int)
}

impl Sphere {
    pub fn new(p: Point3, d: i64) -> (r: Sphere)
        ensures
            r == (Sphere { p, d }),
    {
        Sphere { p, d }
    }

    pub open spec fn wf(self) -> bool {
        self.p.in_range() && 0 <= self.d <= MAX_COORD
    }

    /// Whether `q` lies within half a cell diagonal of the sphere's surface.
    pub fn contains(&self, q: Point3) -> (r: bool)
        requires
            self.wf(),
            -MAX_SHELL_QUERY <= q.x <= MAX_SHELL_QUERY,
            -MAX_SHELL_QUERY <= q.y <= MAX_SHELL_QUERY,
            -MAX_SHELL_QUERY <= q.z <= MAX_SHELL_QUERY,
        ensures
            r == on_shell(q.x - self.p.x, q.y - self.p.y, q.z - self.p.z, self.d as int),
    {
        let dx = q.x as i128 - self.p.x as i128;
        let dy = q.y as i128 - self.p.y as i128;
        let dz = q.z as i128 - self.p.z as i128;
        let r = self.d as i128;
        proof {
            let e: int = 5242880;
            lemma_mul_bounded(dx as int, dx as int, e, e);
            lemma_mul_bounded(dy as int, dy as int, e, e);
            lemma_mul_bounded(dz as int, dz as int, e, e);
            lemma_mul_bounded(r as int, r as int, 1048576, 1048576);
        }
        let d2 = dx * dx + dy * dy + dz * dz;
        let rr = r * r;
        let bound = 3145728 * rr;
        let above = 4 * d2 - 4 * rr - 196608;
        let below = 4 * rr + 196608 - 4 * d2;
        proof {
            let g: int = 334621108305920;
            lemma_mul_bounded(above as int, above as int, g, g);
            lemma_mul_bounded(below as int, below as int, g, g);
        }
        (above <= 0 || above * above <= bound) && (4 * rr <= 196608 || below <= 0 || below * below
            <= bound)
    }

    /// The lattice points (whole world units, given in steps) of the sphere's shell.
    pub fn points_inside(&self) -> (r: Vec<Point3>)
        requires
            self.wf(),
        ensures
            forall|k: int| 0 <= k < r@.len() ==> #[trigger] shell_lattice(*self, r@[k].x as int, r@[k].y as int, r@[k].z as int),
            forall|px: int, py: int, pz: int| #[trigger] shell_lattice(*self, px, py, pz) ==> exists|k: int|
                0 <= k < r@.len() && r@[k].x == px && r@[k].y == py && r@[k].z == pz,
            forall|i: int, j: int| 0 <= i < j < r@.len() ==> r@[i] != r@[j],
    {
        let (cx, cy, cz, d) = (self.p.x as i128, self.p.y as i128, self.p.z as i128, self.d as i128);
        let minx = (ceil_div_exec(cx - d, 256) - 1) as i64;
        let miny = (ceil_div_exec(cy - d, 256) - 1) as i64;
        let minz = (ceil_div_exec(cz - d, 256) - 1) as i64;
        let maxx = (floor_div_exec(cx + d, 256) + 1) as i64;
        let maxy = (floor_div_exec(cy + d, 256) + 1) as i64;
        let maxz = (floor_div_exec(cz + d, 256) + 1) as i64;
        proof {
            lemma_floor_le_ceil(cx - d, cx + d, 256);
            lemma_floor_le_ceil(cy - d, cy + d, 256);
            lemma_floor_le_ceil(cz - d, cz + d, 256);
            lemma_ceil_le_floor_plus(cx - d, cx + d);
            lemma_ceil_le_floor_plus(cy - d, cy + d);
            lemma_ceil_le_floor_plus(cz - d, cz + d);
        }
        let mut set: Vec<Point3> = Vec::new();
        let mut x: i64 = minx;
        while x <= maxx
            invariant
                self.wf(),
                minx <= x <= maxx + 1,
                miny <= maxy,
                minz <= maxz,
                -8194 <= minx, maxx <= 8194, -8194 <= miny, maxy <= 8194, -8194 <= minz, maxz <= 8194,
                minx == ceil_div(self.p.x - self.d, 256) - 1,
                miny == ceil_div(self.p.y - self.d, 256) - 1,
                minz == ceil_div(self.p.z - self.d, 256) - 1,
                maxx == floor_div(self.p.x + self.d, 256) + 1,
                maxy == floor_div(self.p.y + self.d, 256) + 1,
                maxz == floor_div(self.p.z + self.d, 256) + 1,
                forall|k: int| 0 <= k < set@.len() ==> #[trigger] shell_lattice(*self, set@[k].x as int, set@[k].y as int, set@[k].z as int),
                forall|px: int, py: int, pz: int| #[trigger] shell_lattice(*self, px, py, pz) && px / 256 < x ==> exists|k: int|
                    0 <= k < set@.len() && set@[k].x == px && set@[k].y == py && set@[k].z == pz,
                forall|i: int, j: int| 0 <= i < j < set@.len() ==> set@[i] != set@[j],
                forall|k: int| 0 <= k < set@.len() ==> #[trigger] set@[k].x < x * 256,
            decreases maxx + 1 - x,
        {
            let mut y: i64 = miny;
            while y <= maxy
                invariant
                    self.wf(),
                    minx <= x <= maxx,
                    miny <= y <= maxy + 1,
                    minz <= maxz,
                    -8194 <= minx, maxx <= 8194, -8194 <= miny, maxy <= 8194, -8194 <= minz, maxz <= 8194,
                    minx == ceil_div(self.p.x - self.d, 256) - 1,
                    miny == ceil_div(self.p.y - self.d, 256) - 1,
                    minz == ceil_div(self.p.z - self.d, 256) - 1,
                    maxx == floor_div(self.p.x + self.d, 256) + 1,
                    maxy == floor_div(self.p.y + self.d, 256) + 1,
                    maxz == floor_div(self.p.z + self.d, 256) + 1,
                    forall|k: int| 0 <= k < set@.len() ==> #[trigger] shell_lattice(*self, set@[k].x as int, set@[k].y as int, set@[k].z as int),
                    forall|px: int, py: int, pz: int| #[trigger] shell_lattice(*self, px, py, pz) && (px / 256 < x || (px / 256 == x && py / 256 < y)) ==> exists|k: int|
                        0 <= k < set@.len() && set@[k].x == px && set@[k].y == py && set@[k].z == pz,
                    forall|i: int, j: int| 0 <= i < j < set@.len() ==> set@[i] != set@[j],
                    forall|k: int| 0 <= k < set@.len() ==> #[trigger] set@[k].x < x * 256 || (set@[k].x == x * 256 && set@[k].y < y * 256),
                decreases maxy + 1 - y,
            {
                let mut z: i64 = minz;
                while z <= maxz
                    invariant
                        self.wf(),
                        minx <= x <= maxx,
                        miny <= y <= maxy,
                        minz <= z <= maxz + 1,
                        -8194 <= minx, maxx <= 8194, -8194 <= miny, maxy <= 8194, -8194 <= minz, maxz <= 8194,
                        minx == ceil_div(self.p.x - self.d, 256) - 1,
                        miny == ceil_div(self.p.y - self.d, 256) - 1,
                        minz == ceil_div(self.p.z - self.d, 256) - 1,
                        maxx == floor_div(self.p.x + self.d, 256) + 1,
                        maxy == floor_div(self.p.y + self.d, 256) + 1,
                        maxz == floor_div(self.p.z + self.d, 256) + 1,
                        forall|k: int| 0 <= k < set@.len() ==> #[trigger] shell_lattice(*self, set@[k].x as int, set@[k].y as int, set@[k].z as int),
                        forall|px: int, py: int, pz: int| #[trigger] shell_lattice(*self, px, py, pz) && (px / 256 < x || (px / 256 == x && py / 256 < y) || (px / 256 == x && py / 256 == y && pz / 256 < z)) ==> exists|k: int|
                            0 <= k < set@.len() && set@[k].x == px && set@[k].y == py && set@[k].z == pz,
                        forall|i: int, j: int| 0 <= i < j < set@.len() ==> set@[i] != set@[j],
                        forall|k: int| 0 <= k < set@.len() ==> #[trigger] set@[k].x < x * 256 || (set@[k].x == x * 256 && set@[k].y < y * 256) || (set@[k].x == x * 256 && set@[k].y == y * 256 && set@[k].z < z * 256),
                    decreases maxz + 1 - z,
                {
                    let v = Point3 { x: x * UNIT, y: y * UNIT, z: z * UNIT };
                    proof {
                        lemma_lattice_coord(x as int);
                        lemma_lattice_coord(y as int);
                        lemma_lattice_coord(z as int);
                    }
                    let ins = self.contains(v);
                    let ghost before = set@;
                    if ins {
                        set.push(v);
                        proof {
                            assert(set@[before.len() as int] == v);
                            assert forall|k: int| 0 <= k < set@.len() implies #[trigger] shell_lattice(*self, set@[k].x as int, set@[k].y as int, set@[k].z as int) by {
                                if k < before.len() {
                                    assert(set@[k] == before[k]);
                                }
                            }
                        }
                    }
                    proof {
                        assert forall|px: int, py: int, pz: int| #[trigger] shell_lattice(*self, px, py, pz) && (px / 256 < x || (px / 256 == x && py / 256 < y) || (px / 256 == x && py / 256 == y && pz / 256 < z + 1)) implies exists|k: int|
                            0 <= k < set@.len() && set@[k].x == px && set@[k].y == py && set@[k].z == pz by {
                            if px / 256 < x || (px / 256 == x && py / 256 < y) || (px / 256 == x && py / 256 == y && pz / 256 < z) {
                                let k = choose|k: int| 0 <= k < before.len() && before[k].x == px && before[k].y == py && before[k].z == pz;
                                assert(set@[k] == before[k]);
                            } else {
                                lemma_fundamental_div_mod(px, 256);
                                lemma_fundamental_div_mod(py, 256);
                                lemma_fundamental_div_mod(pz, 256);
                                assert(px == x * 256 && py == y * 256 && pz == z * 256);
                                assert(set@[before.len() as int] == v);
                            }
                        }
                    }
                    z = z + 1;
                }
                proof {
                    assert forall|px: int, py: int, pz: int| #[trigger] shell_lattice(*self, px, py, pz) && (px / 256 < x || (px / 256 == x && py / 256 < y + 1)) implies exists|k: int|
                        0 <= k < set@.len() && set@[k].x == px && set@[k].y == py && set@[k].z == pz by {
                        assert(pz / 256 < z);
                    }
                }
                y = y + 1;
            }
            proof {
                assert forall|px: int, py: int, pz: int| #[trigger] shell_lattice(*self, px, py, pz) && px / 256 < x + 1 implies exists|k: int|
                    0 <= k < set@.len() && set@[k].x == px && set@[k].y == py && set@[k].z == pz by {
                    assert(py / 256 < y);
                }
            }
            x = x + 1;
        }
        set
    }
}

proof fn lemma_lattice_coord(x: int)
    ensures
        (x * 256) / 256 == x,
        (x * 256) % 256 == 0,
{
    lemma_div_multiples_vanish(x, 256);
    lemma_mod_multiples_basic(x, 256);
    assert(x * 256 == 256 * x);
}

proof fn lemma_ceil_le_floor_plus(a: int, b: int)
    requires
        a <= b,
    ensures
        ceil_div(a, 256) - 1 <= floor_div(b, 256) + 1,
{
    lemma_div_is_ordered(a, b, 256);
    lemma_fundamental_div_mod(a, 256);
    lemma_fundamental_div_mod(-a, 256);
}

} // verus!
