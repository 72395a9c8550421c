use vstd::prelude::*;
use std::collections::HashMap;
use crate::arith::{lemma_mul_bounded, lemma_quot_bounded, round_div, round_div_exec};
use crate::shapes::{in_range, tri_of, Point3, Sphere, Tri, MAX_COORD};
use crate::voxelization::{
    distinct, insert, merge, sphere_voxels, tri_voxels, Voxel, Voxelizable,
};

verus! {

broadcast use vstd::std_specs::hash::group_hash_axioms;

/// One step of a rotation component or of a scale is `1 / ROT_UNIT`.
pub const ROT_UNIT: i64 = 65536;

/// Largest magnitude of a scale, in `1 / ROT_UNIT` steps.
pub const MAX_SCALE: i64 = 4294967296;

/// A shape of the scene; it names its points by id.
#[derive(Clone, Debug)]
pub enum Element {
    Point(usize),
    Tri(usize, usize, usize),
    Polygon(Vec<usize>),
    /// A center and a radius in position steps.
    Sphere(usize, u32),
}

/// Why a scene could not be voxelized.
#[derive(Clone, Copy, Debug, PartialEq, Eq, Structural)]
pub enum VoxelizeError {
    /// An element names a point id that the scene does not hold.
    MissingPoint(usize),
    /// A point, or a sphere's radius, falls outside the coordinate range once transformed.
    OutOfRange,
}

/// A rotation quaternion `w + xi + yj + zk`, each component in `1 / ROT_UNIT` steps.
#[derive(Clone, Copy, Debug, PartialEq, Eq, Structural)]
pub struct Rotation {
    pub w: i64,
    pub x: i64,
    pub y: i64,
    pub z: i64,
}

/// A rotation about the origin followed by a uniform scale (in `1 / ROT_UNIT` steps).
#[derive(Clone, Copy, Debug, PartialEq, Eq, Structural)]
pub struct Transform {
    pub rot: Rotation,
    pub scale: i64,
}

pub open spec fn unit_bounded(v: int) -> bool {
    -ROT_UNIT <= v <= ROT_UNIT
}

impl Transform {
    pub open spec fn wf(self) -> bool {
        &&& unit_bounded(self.rot.w as int)
        &&& unit_bounded(self.rot.x as int)
        &&& unit_bounded(self.rot.y as int)
        &&& unit_bounded(self.rot.z as int)
        &&& -MAX_SCALE <= self.scale <= MAX_SCALE
    }

    /// No rotation and a scale of one.
    pub open spec fn identity_spec() -> Transform {
        Transform { rot: Rotation { w: ROT_UNIT, x: 0, y: 0, z: 0 }, scale: ROT_UNIT }
    }
}

/// Row `i` of the rotation matrix of `q`, scaled by `ROT_UNIT^2`.
pub open spec fn rot_row(q: Rotation, i: int) -> (int, int, int) {
    let (w, x, y, z) = (q.w as int, q.x as int, q.y as int, q.z as int);
    let one: int = 4294967296;
    if i == 0 {
        (one - 2 * (y * y + z * z), 2 * (x * y - w * z), 2 * (x * z + w * y))
    } else if i == 1 {
        (2 * (x * y + w * z), one - 2 * (x * x + z * z), 2 * (y * z - w * x))
    } else {
        (2 * (x * z - w * y), 2 * (y * z + w * x), one - 2 * (x * x + y * y))
    }
}

/// Coordinate `i` of `p` rotated by `t.rot` and then scaled by `t.scale`, rounded to a step.
pub open spec fn transformed(t: Transform, p: Point3, i: int) -> int {
    let (m0, m1, m2) = rot_row(t.rot, i);
    round_div((m0 * p.x + m1 * p.y + m2 * p.z) * t.scale, 281474976710656)
}

/// Where the point `id` goes under `t`, or why it cannot be used.
pub open spec fn lookup(points: Map<usize, Point3>, t: Transform, id: usize) -> Result<Point3, VoxelizeError> {
    if !points.contains_key(id) {
        Err(VoxelizeError::MissingPoint(id))
    } else {
        let p = points[id];
        let (x, y, z) = (transformed(t, p, 0), transformed(t, p, 1), transformed(t, p, 2));
        if p.in_range() && in_range(x) && in_range(y) && in_range(z) {
            Ok(Point3 { x: x as i64, y: y as i64, z: z as i64 })
        } else {
            Err(VoxelizeError::OutOfRange)
        }
    }
}

/// The points `ids` under `t`, in order, or the first reason one cannot be used.
pub open spec fn lookup_all(points: Map<usize, Point3>, t: Transform, ids: Seq<usize>) -> Result<Seq<Point3>, VoxelizeError>
    decreases ids.len(),
{
    if ids.len() == 0 {
        Ok(Seq::empty())
    } else {
        match lookup_all(points, t, ids.drop_last()) {
            Err(e) => Err(e),
            Ok(ps) => match lookup(points, t, ids.last()) {
                Err(e) => Err(e),
                Ok(p) => Ok(ps.push(p)),
            },
        }
    }
}

/// The voxels of the fan triangles `(ps[0], ps[i], ps[i + 1])` for `1 <= i < n - 1`.
pub open spec fn fan_voxels(ps: Seq<Point3>, n: int) -> Set<Voxel>
    decreases n,
{
    if n < 3 {
        Set::empty()
    } else {
        fan_voxels(ps, n - 1).union(tri_voxels(tri_of(ps[0], ps[n - 2], ps[n - 1])))
    }
}

/// The voxel nearest a point.
pub open spec fn round_point(p: Point3) -> Voxel {
    Voxel {
        x: round_div(p.x as int, 256) as i64,
        y: round_div(p.y as int, 256) as i64,
        z: round_div(p.z as int, 256) as i64,
    }
}

/// The voxels of one element under `t`, or why it cannot be voxelized.
pub open spec fn element_voxels(points: Map<usize, Point3>, t: Transform, e: Element) -> Result<Set<Voxel>, VoxelizeError> {
    match e {
        Element::Point(id) => match lookup(points, t, id) {
            Err(err) => Err(err),
            Ok(p) => Ok(set![round_point(p)]),
        },
        Element::Tri(i, j, k) => match lookup_all(points, t, seq![i, j, k]) {
            Err(err) => Err(err),
            Ok(ps) => Ok(tri_voxels(tri_of(ps[0], ps[1], ps[2]))),
        },
        Element::Polygon(ids) => match lookup_all(points, t, ids@) {
            Err(err) => Err(err),
            Ok(ps) => Ok(fan_voxels(ps, ps.len() as int)),
        },
        Element::Sphere(id, r) => match lookup(points, t, id) {
            Err(err) => Err(err),
            Ok(p) => {
                let d = round_div(r * t.scale, 65536);
                if 0 <= d <= MAX_COORD {
                    Ok(sphere_voxels(Sphere { p, d: d as i64 }))
                } else {
                    Err(VoxelizeError::OutOfRange)
                }
            },
        },
    }
}

/// The union of the voxels of `elems` under `t`, or the first element's error.
pub open spec fn scene_voxels(points: Map<usize, Point3>, t: Transform, elems: Seq<Element>) -> Result<Set<Voxel>, VoxelizeError>
    decreases elems.len(),
{
    if elems.len() == 0 {
        Ok(Set::empty())
    } else {
        match scene_voxels(points, t, elems.drop_last()) {
            Err(e) => Err(e),
            Ok(s) => match element_voxels(points, t, elems.last()) {
                Err(e) => Err(e),
                Ok(v) => Ok(s.union(v)),
            },
        }
    }
}

/// The entries of a rotation matrix of bounded components are within `5 * ROT_UNIT^2`.
proof fn lemma_row_bounded(q: Rotation, i: int)
    requires
        unit_bounded(q.w as int),
        unit_bounded(q.x as int),
        unit_bounded(q.y as int),
        unit_bounded(q.z as int),
    ensures
        ({
            let (m0, m1, m2) = rot_row(q, i);
            let b: int = 21474836480;
            -b <= m0 <= b && -b <= m1 <= b && -b <= m2 <= b
        }),
{
    let (w, x, y, z) = (q.w as int, q.x as int, q.y as int, q.z as int);
    let u: int = 65536;
    lemma_mul_bounded(w, x, u, u);
    lemma_mul_bounded(w, y, u, u);
    lemma_mul_bounded(w, z, u, u);
    lemma_mul_bounded(x, x, u, u);
    lemma_mul_bounded(x, y, u, u);
    lemma_mul_bounded(x, z, u, u);
    lemma_mul_bounded(y, y, u, u);
    lemma_mul_bounded(y, z, u, u);
    lemma_mul_bounded(z, z, u, u);
}

/// Coordinate `i` of `p` under `t`, unrounded bounds aside: `transformed(t, p, i)`.
fn transform_coord(t: &Transform, p: Point3, i: u8) -> (r: i128)
    requires
        t.wf(),
        p.in_range(),
        i < 3,
    ensures
        r == transformed(*t, p, i as int),
{
    let (w, x, y, z) = (t.rot.w as i128, t.rot.x as i128, t.rot.y as i128, t.rot.z as i128);
    proof {
        let u: int = 65536;
        lemma_mul_bounded(w as int, x as int, u, u);
        lemma_mul_bounded(w as int, y as int, u, u);
        lemma_mul_bounded(w as int, z as int, u, u);
        lemma_mul_bounded(x as int, x as int, u, u);
        lemma_mul_bounded(x as int, y as int, u, u);
        lemma_mul_bounded(x as int, z as int, u, u);
        lemma_mul_bounded(y as int, y as int, u, u);
        lemma_mul_bounded(y as int, z as int, u, u);
        lemma_mul_bounded(z as int, z as int, u, u);
        lemma_row_bounded(t.rot, i as int);
    }
    let one: i128 = 4294967296;
    let (m0, m1, m2) = if i == 0 {
        (one - 2 * (y * y + z * z), 2 * (x * y - w * z), 2 * (x * z + w * y))
    } else if i == 1 {
        (2 * (x * y + w * z), one - 2 * (x * x + z * z), 2 * (y * z - w * x))
    } else {
        (2 * (x * z - w * y), 2 * (y * z + w * x), one - 2 * (x * x + y * y))
    };
    let ghost b: int = 21474836480;
    proof {
        lemma_mul_bounded(m0 as int, p.x as int, b, 1048576);
        lemma_mul_bounded(m1 as int, p.y as int, b, 1048576);
        lemma_mul_bounded(m2 as int, p.z as int, b, 1048576);
    }
    let sum = m0 * p.x as i128 + m1 * p.y as i128 + m2 * p.z as i128;
    proof {
        lemma_mul_bounded(sum as int, t.scale as int, 67553994410557440, 4294967296);
    }
    round_div_exec(sum * t.scale as i128, 281474976710656)
}

/// `p` under `t`, when it and its image are in range.
fn apply(t: &Transform, p: Point3) -> (r: Result<Point3, VoxelizeError>)
    requires
        t.wf(),
    ensures
        ({
            let (x, y, z) = (transformed(*t, p, 0), transformed(*t, p, 1), transformed(*t, p, 2));
            if p.in_range() && in_range(x) && in_range(y) && in_range(z) {
                r == Ok::<Point3, VoxelizeError>(Point3 { x: x as i64, y: y as i64, z: z as i64 })
            } else {
                r == Err::<Point3, VoxelizeError>(VoxelizeError::OutOfRange)
            }
        }),
{
    let m = MAX_COORD as i64;
    if !(-m <= p.x && p.x <= m && -m <= p.y && p.y <= m && -m <= p.z && p.z <= m) {
        return Err(VoxelizeError::OutOfRange);
    }
    let x = transform_coord(t, p, 0);
    let y = transform_coord(t, p, 1);
    let z = transform_coord(t, p, 2);
    let m = m as i128;
    if -m <= x && x <= m && -m <= y && y <= m && -m <= z && z <= m {
        Ok(Point3 { x: x as i64, y: y as i64, z: z as i64 })
    } else {
        Err(VoxelizeError::OutOfRange)
    }
}

/// The voxel nearest `p`.
fn round_point_exec(p: Point3) -> (r: Voxel)
    ensures
        r == round_point(p),
{
    let x = round_div_exec(p.x as i128, 256);
    let y = round_div_exec(p.y as i128, 256);
    let z = round_div_exec(p.z as i128, 256);
    proof {
        let (a, b, c) = (p.x as int, p.y as int, p.z as int);
        if a >= 0 { lemma_quot_bounded(2 * a + 256, 512, 2 * a + 256, 1); } else { lemma_quot_bounded(-2 * a + 256, 512, -2 * a + 256, 1); }
    }
    Voxel { x: x as i64, y: y as i64, z: z as i64 }
}

/// The scene: points by id, and the elements built on them.
pub struct Schematic {
    pub points: HashMap<usize, Point3>,
    pub elements: Vec<Element>,
}

impl Schematic {
    /// Where the point `id` goes under `t`, or why it cannot be used.
    fn lookup(&self, t: &Transform, id: usize) -> (r: Result<Point3, VoxelizeError>)
        requires
            t.wf(),
        ensures
            r == lookup(self.points@, *t, id),
    {
        match self.points.get(&id) {
            None => Err(VoxelizeError::MissingPoint(id)),
            Some(p) => apply(t, *p),
        }
    }

    /// The points `ids` under `t`, or the first reason one cannot be used.
    fn lookup_all(&self, t: &Transform, ids: &Vec<usize>) -> (r: Result<Vec<Point3>, VoxelizeError>)
        requires
            t.wf(),
        ensures
            match lookup_all(self.points@, *t, ids@) {
                Ok(ps) => r matches Ok(v) && v@ == ps,
                Err(e) => r == Err::<Vec<Point3>, VoxelizeError>(e),
            },
    {
        let mut out: Vec<Point3> = Vec::new();
        let mut i: usize = 0;
        while i < ids.len()
            invariant
                t.wf(),
                0 <= i <= ids.len(),
                lookup_all(self.points@, *t, ids@.subrange(0, i as int)) == Ok::<Seq<Point3>, VoxelizeError>(out@),
            decreases ids.len() - i,
        {
            let ghost pre = ids@.subrange(0, i as int);
            let ghost next = ids@.subrange(0, i + 1);
            proof {
                assert(next.drop_last() == pre);
                assert(next.last() == ids@[i as int]);
            }
            match self.lookup(t, ids[i]) {
                Err(e) => {
                    proof {
                        lemma_lookup_all_err(self.points@, *t, ids@, i + 1);
                    }
                    return Err(e);
                },
                Ok(p) => {
                    out.push(p);
                },
            }
            i = i + 1;
        }
        proof {
            assert(ids@.subrange(0, ids@.len() as int) == ids@);
        }
        Ok(out)
    }
}

/// An error on a prefix of the ids is the error of all of them.
proof fn lemma_lookup_all_err(points: Map<usize, Point3>, t: Transform, ids: Seq<usize>, n: int)
    requires
        0 < n <= ids.len(),
        lookup_all(points, t, ids.subrange(0, n)) is Err,
    ensures
        lookup_all(points, t, ids) == lookup_all(points, t, ids.subrange(0, n)),
    decreases ids.len() - n,
{
    if n == ids.len() {
        assert(ids.subrange(0, n) == ids);
    } else {
        assert(ids.subrange(0, n + 1).drop_last() == ids.subrange(0, n));
        lemma_lookup_all_err(points, t, ids, n + 1);
    }
}

/// What `lookup_all` finds has one point per id, each in range.
proof fn lemma_lookup_all_ok(points: Map<usize, Point3>, t: Transform, ids: Seq<usize>)
    requires
        lookup_all(points, t, ids) is Ok,
    ensures
        ({
            let ps = lookup_all(points, t, ids)->Ok_0;
            ps.len() == ids.len() && forall|k: int| 0 <= k < ps.len() ==> (#[trigger] ps[k]).in_range()
        }),
    decreases ids.len(),
{
    if ids.len() > 0 {
        lemma_lookup_all_ok(points, t, ids.drop_last());
        let ps = lookup_all(points, t, ids.drop_last())->Ok_0;
        let p = lookup(points, t, ids.last())->Ok_0;
        assert forall|k: int| 0 <= k < ps.len() + 1 implies (#[trigger] ps.push(p)[k]).in_range() by {
            if k < ps.len() {
                assert(ps.push(p)[k] == ps[k]);
            }
        }
    }
}

/// An error on a prefix of the elements is the error of all of them.
proof fn lemma_scene_err(points: Map<usize, Point3>, t: Transform, elems: Seq<Element>, n: int)
    requires
        0 < n <= elems.len(),
        scene_voxels(points, t, elems.subrange(0, n)) is Err,
    ensures
        scene_voxels(points, t, elems) == scene_voxels(points, t, elems.subrange(0, n)),
    decreases elems.len() - n,
{
    if n == elems.len() {
        assert(elems.subrange(0, n) == elems);
    } else {
        assert(elems.subrange(0, n + 1).drop_last() == elems.subrange(0, n));
        lemma_scene_err(points, t, elems, n + 1);
    }
}

impl Schematic {
    /// Adds the voxels of `e` under `t` to `set`, or tells why `e` cannot be voxelized.
    fn voxelize_element(&self, t: &Transform, e: &Element, set: &mut Vec<Voxel>) -> (r: Result<(), VoxelizeError>)
        requires
            t.wf(),
            distinct(old(set)@),
        ensures
            distinct(final(set)@),
            match element_voxels(self.points@, *t, *e) {
                Ok(v) => r is Ok && final(set)@.to_set() == old(set)@.to_set().union(v),
                Err(err) => r == Err::<(), VoxelizeError>(err),
            },
    {
        match e {
            Element::Point(id) => {
                let p = match self.lookup(t, *id) {
                    Err(err) => return Err(err),
                    Ok(p) => p,
                };
                insert(set, round_point_exec(p));
                proof {
                    assert(old(set)@.to_set().insert(round_point(p)) =~= old(set)@.to_set().union(set![round_point(p)]));
                }
                Ok(())
            },
            Element::Tri(i, j, k) => {
                let ids: Vec<usize> = vec![*i, *j, *k];
                proof {
                    assert(ids@ =~= seq![*i, *j, *k]);
                }
                let ps = match self.lookup_all(t, &ids) {
                    Err(err) => return Err(err),
                    Ok(ps) => ps,
                };
                proof {
                    lemma_lookup_all_ok(self.points@, *t, ids@);
                    assert(ps@[0].in_range() && ps@[1].in_range() && ps@[2].in_range());
                }
                let tri = Tri::from_points(ps[0], ps[1], ps[2]);
                merge(set, tri.voxelize());
                Ok(())
            },
            Element::Polygon(ids) => {
                let ps = match self.lookup_all(t, ids) {
                    Err(err) => return Err(err),
                    Ok(ps) => ps,
                };
                proof {
                    lemma_lookup_all_ok(self.points@, *t, ids@);
                    assert(old(set)@.to_set().union(Set::empty()) =~= old(set)@.to_set());
                }
                if ps.len() < 3 {
                    proof {
                        assert(fan_voxels(ps@, ps@.len() as int) == Set::<Voxel>::empty());
                    }
                    return Ok(());
                }
                let ghost start = set@.to_set();
                let mut i: usize = 1;
                while i + 1 < ps.len()
                    invariant
                        t.wf(),
                        1 <= i < ps.len(),
                        ps@.len() == ids@.len(),
                        forall|k: int| 0 <= k < ps@.len() ==> (#[trigger] ps@[k]).in_range(),
                        distinct(set@),
                        set@.to_set() == start.union(fan_voxels(ps@, i + 1)),
                    decreases ps.len() - i,
                {
                    let tri = Tri::from_points(ps[0], ps[i], ps[i + 1]);
                    merge(set, tri.voxelize());
                    proof {
                        assert(fan_voxels(ps@, i + 2) == fan_voxels(ps@, i + 1).union(tri_voxels(tri)));
                        assert(set@.to_set() =~= start.union(fan_voxels(ps@, i + 2)));
                    }
                    i = i + 1;
                }
                Ok(())
            },
            Element::Sphere(id, r) => {
                let p = match self.lookup(t, *id) {
                    Err(err) => return Err(err),
                    Ok(p) => p,
                };
                proof {
                    lemma_mul_bounded(*r as int, t.scale as int, 4294967296, 4294967296);
                }
                let d = round_div_exec(*r as i128 * t.scale as i128, 65536);
                if d < 0 || d > MAX_COORD as i128 {
                    return Err(VoxelizeError::OutOfRange);
                }
                let sphere = Sphere::new(p, d as i64);
                merge(set, sphere.voxelize());
                Ok(())
            },
        }
    }

    /// The voxels of the whole scene, each point rotated by `rot` about the origin and then
    /// scaled by `scale` (both in `1 / ROT_UNIT` steps); the first element that cannot be
    /// voxelized makes the whole call fail.
    pub fn voxelize_with_transform(&self, rot: Rotation, scale: i64) -> (r: Result<Vec<Voxel>, VoxelizeError>)
        ensures
            ({
                let t = Transform { rot, scale };
                if !t.wf() {
                    r == Err::<Vec<Voxel>, VoxelizeError>(VoxelizeError::OutOfRange)
                } else {
                    match scene_voxels(self.points@, t, self.elements@) {
                        Ok(v) => r matches Ok(s) && distinct(s@) && s@.to_set() == v,
                        Err(e) => r == Err::<Vec<Voxel>, VoxelizeError>(e),
                    }
                }
            }),
    {
        let u = ROT_UNIT;
        if !(-u <= rot.w && rot.w <= u && -u <= rot.x && rot.x <= u && -u <= rot.y && rot.y <= u
            && -u <= rot.z && rot.z <= u && -MAX_SCALE <= scale && scale <= MAX_SCALE) {
            return Err(VoxelizeError::OutOfRange);
        }
        let t = Transform { rot, scale };
        let mut set: Vec<Voxel> = Vec::new();
        let mut i: usize = 0;
        proof {
            assert(self.elements@.subrange(0, 0) =~= Seq::<Element>::empty());
            assert(set@.to_set() =~= Set::<Voxel>::empty());
        }
        while i < self.elements.len()
            invariant
                t.wf(),
                t == (Transform { rot, scale }),
                0 <= i <= self.elements.len(),
                distinct(set@),
                scene_voxels(self.points@, t, self.elements@.subrange(0, i as int)) == Ok::<Set<Voxel>, VoxelizeError>(set@.to_set()),
            decreases self.elements.len() - i,
        {
            let ghost next = self.elements@.subrange(0, i + 1);
            proof {
                assert(next.drop_last() == self.elements@.subrange(0, i as int));
                assert(next.last() == self.elements@[i as int]);
            }
            match self.voxelize_element(&t, &self.elements[i], &mut set) {
                Err(e) => {
                    proof {
                        lemma_scene_err(self.points@, t, self.elements@, i + 1);
                    }
                    return Err(e);
                },
                Ok(()) => {},
            }
            i = i + 1;
        }
        proof {
            assert(self.elements@.subrange(0, self.elements@.len() as int) == self.elements@);
        }
        Ok(set)
    }

    /// The voxels of the whole scene, untransformed.
    pub fn voxelize(&self) -> (r: Result<Vec<Voxel>, VoxelizeError>)
        ensures
            outcome(r) == scene_voxels(self.points@, Transform::identity_spec(), self.elements@),
            r matches Ok(s) ==> distinct(s@),
    {
        self.voxelize_with_transform(Rotation { w: ROT_UNIT, x: 0, y: 0, z: 0 }, ROT_UNIT)
    }

    /// A small scene with one element of each kind.
    pub fn example() -> (r: Schematic)
        ensures
            r.points@ == map![
                0usize => Point3 { x: 0, y: 256, z: -384i64 },
                1usize => Point3 { x: 256, y: -256i64, z: 85 },
                2usize => Point3 { x: 768, y: 0, z: 170 },
                3usize => Point3 { x: -512i64, y: 768, z: 512 },
            ],
            r.elements@.len() == 4,
            r.elements@[0] == Element::Point(0),
            r.elements@[1] == Element::Tri(0, 1, 2),
            r.elements@[2] == Element::Sphere(0, 538),
            r.elements@[3] matches Element::Polygon(ids) && ids@ == seq![0usize, 1, 2, 3],
    {
        let mut points: HashMap<usize, Point3> = HashMap::new();
        points.insert(0, Point3 { x: 0, y: 256, z: -384 });
        points.insert(1, Point3 { x: 256, y: -256, z: 85 });
        points.insert(2, Point3 { x: 768, y: 0, z: 170 });
        points.insert(3, Point3 { x: -512, y: 768, z: 512 });
        let elements: Vec<Element> = vec![
            Element::Point(0),
            Element::Tri(0, 1, 2),
            Element::Sphere(0, 538),
            Element::Polygon(vec![0, 1, 2, 3]),
        ];
        proof {
            assert(points@ =~= map![
                0usize => Point3 { x: 0, y: 256, z: -384i64 },
                1usize => Point3 { x: 256, y: -256i64, z: 85 },
                2usize => Point3 { x: 768, y: 0, z: 170 },
                3usize => Point3 { x: -512i64, y: 768, z: 512 },
            ]);
        }
        Schematic { points, elements }
    }
}

/// The voxel set of a result, or its error.
pub open spec fn outcome(r: Result<Vec<Voxel>, VoxelizeError>) -> Result<Set<Voxel>, VoxelizeError> {
    match r {
        Ok(v) => Ok(v@.to_set()),
        Err(e) => Err(e),
    }
}

/// What voxelizing a scene under a rotation and a scale yields.
pub open spec fn transform_outcome(points: Map<usize, Point3>, elems: Seq<Element>, rot: Rotation, scale: i64) -> Result<Set<Voxel>, VoxelizeError> {
    let t = Transform { rot, scale };
    if !t.wf() {
        Err(VoxelizeError::OutOfRange)
    } else {
        scene_voxels(points, t, elems)
    }
}

/// Voxelizing an unchanged scene twice with the same rotation and scale gives the same
/// voxel set (or the same error) both times.
pub proof fn lemma_voxelize_idempotent(
    points: Map<usize, Point3>,
    elems: Seq<Element>,
    rot: Rotation,
    scale: i64,
    first: Result<Vec<Voxel>, VoxelizeError>,
    second: Result<Vec<Voxel>, VoxelizeError>,
)
    requires
        outcome(first) == transform_outcome(points, elems, rot, scale),
        outcome(second) == transform_outcome(points, elems, rot, scale),
    ensures
        outcome(first) == outcome(second),
{
}

/// A polygon of four ids voxelizes exactly as its two fan triangles `(i0, i1, i2)` and
/// `(i0, i2, i3)` do together, and fails with the same error when one does.
pub proof fn lemma_quad_is_two_fan_triangles(
    points: Map<usize, Point3>,
    t: Transform,
    poly: Element,
    i0: usize,
    i1: usize,
    i2: usize,
    i3: usize,
)
    requires
        poly matches Element::Polygon(ids) && ids@ == seq![i0, i1, i2, i3],
    ensures
        scene_voxels(points, t, seq![poly]) == scene_voxels(
            points,
            t,
            seq![Element::Tri(i0, i1, i2), Element::Tri(i0, i2, i3)],
        ),
{
    let ids = seq![i0, i1, i2, i3];
    let (e0, e1) = (Element::Tri(i0, i1, i2), Element::Tri(i0, i2, i3));
    let pair = seq![e0, e1];
    assert(seq![poly].drop_last() =~= Seq::<Element>::empty());
    assert(pair.drop_last() =~= seq![e0]);
    assert(seq![e0].drop_last() =~= Seq::<Element>::empty());
    assert(ids.drop_last() =~= seq![i0, i1, i2]);
    assert(seq![i0, i1, i2].drop_last() =~= seq![i0, i1]);
    assert(seq![i0, i1].drop_last() =~= seq![i0]);
    assert(seq![i0].drop_last() =~= Seq::<usize>::empty());
    assert(seq![i0, i2, i3].drop_last() =~= seq![i0, i2]);
    assert(seq![i0, i2].drop_last() =~= seq![i0]);
    let (l0, l1, l2, l3) = (lookup(points, t, i0), lookup(points, t, i1), lookup(points, t, i2), lookup(points, t, i3));
    reveal_with_fuel(lookup_all, 5);
    reveal_with_fuel(scene_voxels, 3);
    reveal_with_fuel(fan_voxels, 3);
    if l0 is Ok && l1 is Ok && l2 is Ok && l3 is Ok {
        let ps = seq![l0->Ok_0, l1->Ok_0, l2->Ok_0, l3->Ok_0];
        assert(lookup_all(points, t, ids) == Ok::<Seq<Point3>, VoxelizeError>(ps)) by {
            assert(seq![l0->Ok_0].push(l1->Ok_0).push(l2->Ok_0).push(l3->Ok_0) =~= ps);
        }
        assert(lookup_all(points, t, seq![i0, i1, i2]) == Ok::<Seq<Point3>, VoxelizeError>(seq![l0->Ok_0, l1->Ok_0, l2->Ok_0])) by {
            assert(seq![l0->Ok_0].push(l1->Ok_0).push(l2->Ok_0) =~= seq![l0->Ok_0, l1->Ok_0, l2->Ok_0]);
        }
        assert(lookup_all(points, t, seq![i0, i2, i3]) == Ok::<Seq<Point3>, VoxelizeError>(seq![l0->Ok_0, l2->Ok_0, l3->Ok_0])) by {
            assert(seq![l0->Ok_0].push(l2->Ok_0).push(l3->Ok_0) =~= seq![l0->Ok_0, l2->Ok_0, l3->Ok_0]);
        }
        assert(fan_voxels(ps, 4) == fan_voxels(ps, 3).union(tri_voxels(tri_of(ps[0], ps[2], ps[3]))));
        assert(fan_voxels(ps, 3) == fan_voxels(ps, 2).union(tri_voxels(tri_of(ps[0], ps[1], ps[2]))));
        let (a, b) = (tri_voxels(tri_of(ps[0], ps[1], ps[2])), tri_voxels(tri_of(ps[0], ps[2], ps[3])));
        assert(Set::<Voxel>::empty().union(Set::<Voxel>::empty().union(a).union(b)) =~= Set::<Voxel>::empty().union(a).union(b));
    }
}

} // verus!
