use vstd::prelude::*;
use crate::arith::floor_div_exec;
use crate::shapes::{lattice_in, normal_of, on_shell, shell_lattice, solve, tri_of, Point3, Sphere, Tri};

verus! {

/// One cell of the integer lattice.
#[derive(Clone, Copy, Debug, PartialEq, Eq, Hash, Structural)]
pub struct Voxel {
    pub x: i64,
    pub y: i64,
    pub z: i64,
}

/// True when no voxel occurs twice in `s`.
pub open spec fn distinct(s: Seq<Voxel>) -> bool {
    forall|i: int, j: int| 0 <= i < j < s.len() ==> s[i] != s[j]
}

/// Adds `v` to `base` unless it is already there.
pub fn insert(base: &mut Vec<Voxel>, v: Voxel)
    requires
        distinct(old(base)@),
    ensures
        distinct(final(base)@),
        final(base)@.to_set() == old(base)@.to_set().insert(v),
{
    let mut i: usize = 0;
    while i < base.len()
        invariant
            0 <= i <= base.len(),
            distinct(base@),
            forall|k: int| 0 <= k < i ==> base@[k] != v,
        decreases base.len() - i,
    {
        if base[i] == v {
            proof {
                assert(base@.to_set().contains(v));
                assert(base@.to_set().insert(v) =~= base@.to_set());
            }
            return;
        }
        i = i + 1;
    }
    let ghost before = base@;
    base.push(v);
    proof {
        assert(base@ == before.push(v));
        assert(base@.to_set() =~= before.to_set().insert(v)) by {
            assert forall|w: Voxel| base@.to_set().contains(w) <==> before.to_set().insert(v).contains(w) by {
                if base@.to_set().contains(w) {
                    let k = choose|k: int| 0 <= k < base@.len() && base@[k] == w;
                    if k < before.len() {
                        assert(before[k] == w);
                    }
                }
                if before.to_set().contains(w) {
                    let k = choose|k: int| 0 <= k < before.len() && before[k] == w;
                    assert(base@[k] == w);
                }
                if w == v {
                    assert(base@[before.len() as int] == v);
                }
            }
        }
    }
}

/// Adds every voxel of `other` to `base`; a voxel already there is kept once.
pub fn merge(base: &mut Vec<Voxel>, other: Vec<Voxel>)
    requires
        distinct(old(base)@),
    ensures
        distinct(final(base)@),
        final(base)@.to_set() == old(base)@.to_set().union(other@.to_set()),
{
    let ghost start = base@.to_set();
    let mut i: usize = 0;
    while i < other.len()
        invariant
            0 <= i <= other.len(),
            distinct(base@),
            base@.to_set() == start.union(other@.subrange(0, i as int).to_set()),
        decreases other.len() - i,
    {
        let ghost prev = base@.to_set();
        insert(base, other[i]);
        proof {
            assert(other@.subrange(0, i + 1) == other@.subrange(0, i as int).push(other@[i as int]));
            lemma_push_to_set(other@.subrange(0, i as int), other@[i as int]);
            assert(base@.to_set() =~= start.union(other@.subrange(0, i + 1).to_set()));
        }
        i = i + 1;
    }
    proof {
        assert(other@.subrange(0, other@.len() as int) == other@);
    }
}

proof fn lemma_push_to_set(s: Seq<Voxel>, v: Voxel)
    ensures
        s.push(v).to_set() == s.to_set().insert(v),
{
    assert forall|w: Voxel| s.push(v).to_set().contains(w) <==> s.to_set().insert(v).contains(w) by {
        if s.push(v).to_set().contains(w) {
            let k = choose|k: int| 0 <= k < s.push(v).len() && s.push(v)[k] == w;
            if k < s.len() {
                assert(s[k] == w);
            }
        }
        if s.to_set().contains(w) {
            let k = choose|k: int| 0 <= k < s.len() && s[k] == w;
            assert(s.push(v)[k] == w);
        }
        if w == v {
            assert(s.push(v)[s.len() as int] == v);
        }
    }
    assert(s.push(v).to_set() =~= s.to_set().insert(v));
}

/// A shape that can be turned into the set of voxels on its surface.
pub trait Voxelizable {
    /// The shape's own invariant.
    spec fn shape_wf(&self) -> bool;

    /// The voxels of the shape.
    spec fn voxels(&self) -> Set<Voxel>;

    fn voxelize(&self) -> (r: Vec<Voxel>)
        requires
            self.shape_wf(),
        ensures
            distinct(r@),
            r@.to_set() == self.voxels(),
    ;
}

/// `(u, w)` are the coordinates of `v` that a sweep along `which` keeps, `s` the one it solves for.
pub open spec fn split(v: Voxel, which: int) -> (int, int, int) {
    if which == 0 {
        (v.y as int, v.z as int, v.x as int)
    } else if which == 1 {
        (v.x as int, v.z as int, v.y as int)
    } else {
        (v.x as int, v.y as int, v.z as int)
    }
}

/// The sweep of `t` along axis `which` yields `v`: the lattice point of `v`'s kept
/// coordinates lies inside the projection, and the plane there, rounded, is `v`'s
/// remaining coordinate.
pub open spec fn sweep_hit(t: Tri, which: int, v: Voxel) -> bool {
    let (u, w, s) = split(v, which);
    lattice_in(t.flat(which), u * 256, w * 256) && solve(t, which, u * 256, w * 256) == Some(s)
}

/// The voxels of a triangle: the union of its three axis sweeps.
pub open spec fn tri_voxels(t: Tri) -> Set<Voxel> {
    Set::new(|v: Voxel| sweep_hit(t, 0, v) || sweep_hit(t, 1, v) || sweep_hit(t, 2, v))
}

/// The voxels of a sphere: the lattice points of its shell.
pub open spec fn sphere_voxels(s: Sphere) -> Set<Voxel> {
    Set::new(|v: Voxel| shell_lattice(s, v.x * 256, v.y * 256, v.z * 256))
}

/// A multiple of `UNIT`, in world units.
fn to_world(v: i64) -> (r: i64)
    requires
        v % 256 == 0,
    ensures
        r * 256 == v,
        r == v / 256,
{
    proof {
        vstd::arithmetic::div_mod::lemma_fundamental_div_mod(v as int, 256);
    }
    floor_div_exec(v as i128, 256) as i64
}

fn voxel_at(which: i32, u: i64, w: i64, s: i64) -> (r: Voxel)
    requires
        0 <= which < 3,
    ensures
        split(r, which as int) == (u as int, w as int, s as int),
{
    if which == 0 {
        Voxel { x: s, y: u, z: w }
    } else if which == 1 {
        Voxel { x: u, y: s, z: w }
    } else {
        Voxel { x: u, y: w, z: s }
    }
}

impl Tri {
    /// Adds to `base` the voxels of the sweep along axis `which`.
    fn sweep(&self, which: i32, base: &mut Vec<Voxel>)
        requires
            self.wf(),
            0 <= which < 3,
            distinct(old(base)@),
        ensures
            distinct(final(base)@),
            final(base)@.to_set() == old(base)@.to_set().union(
                Set::new(|v: Voxel| sweep_hit(*self, which as int, v)),
            ),
    {
        let ghost start = base@.to_set();
        let ghost hits = Set::new(|v: Voxel| sweep_hit(*self, which as int, v));
        let flat = self.get_flat(which);
        let pts = flat.points_inside();
        let mut i: usize = 0;
        while i < pts.len()
            invariant
                self.wf(),
                0 <= which < 3,
                flat == self.flat(which as int),
                0 <= i <= pts.len(),
                distinct(base@),
                forall|k: int| 0 <= k < pts@.len() ==> #[trigger] lattice_in(flat, pts@[k].x as int, pts@[k].y as int),
                forall|k: int| 0 <= k < pts@.len() ==> (#[trigger] pts@[k]).in_query_range(),
                forall|px: int, py: int| #[trigger] lattice_in(flat, px, py) ==> exists|k: int|
                    0 <= k < pts@.len() && pts@[k].x == px && pts@[k].y == py,
                forall|v: Voxel| #[trigger] base@.to_set().contains(v) ==> start.contains(v) || sweep_hit(*self, which as int, v),
                start.subset_of(base@.to_set()),
                forall|v: Voxel, k: int| 0 <= k < i && sweep_hit(*self, which as int, v)
                    && #[trigger] pts@[k].x == split(v, which as int).0 * 256
                    && pts@[k].y == split(v, which as int).1 * 256
                    ==> #[trigger] base@.to_set().contains(v),
            decreases pts.len() - i,
        {
            let ray = pts[i];
            proof {
                assert(lattice_in(flat, ray.x as int, ray.y as int));
            }
            let hit = self.plane_intersection(ray, which);
            let ghost prev = base@;
            match hit {
                Some(s) => {
                    let u = to_world(ray.x);
                    let w = to_world(ray.y);
                    let v = voxel_at(which, u, w, s);
                    insert(base, v);
                    proof {
                        assert(sweep_hit(*self, which as int, v));
                        assert forall|x: Voxel| #[trigger] base@.to_set().contains(x) implies start.contains(x) || sweep_hit(*self, which as int, x) by {
                            if x != v {
                                assert(prev.to_set().contains(x));
                            }
                        }
                        assert forall|x: Voxel, k: int| 0 <= k < i + 1 && sweep_hit(*self, which as int, x)
                            && #[trigger] pts@[k].x == split(x, which as int).0 * 256
                            && pts@[k].y == split(x, which as int).1 * 256
                            implies #[trigger] base@.to_set().contains(x) by {
                            if k < i {
                                assert(prev.to_set().contains(x));
                            } else {
                                assert(split(x, which as int).2 == s);
                                assert(x == v);
                            }
                        }
                    }
                },
                None => {
                    proof {
                        assert forall|x: Voxel, k: int| 0 <= k < i + 1 && sweep_hit(*self, which as int, x)
                            && #[trigger] pts@[k].x == split(x, which as int).0 * 256
                            && pts@[k].y == split(x, which as int).1 * 256
                            implies #[trigger] base@.to_set().contains(x) by {
                            if k == i {
                                assert(false);
                            }
                        }
                    }
                },
            }
            i = i + 1;
        }
        proof {
            assert forall|v: Voxel| base@.to_set().contains(v) <==> #[trigger] start.union(hits).contains(v) by {
                if hits.contains(v) {
                    let (u, w, s) = split(v, which as int);
                    assert(lattice_in(flat, u * 256, w * 256));
                    let k = choose|k: int| 0 <= k < pts@.len() && pts@[k].x == u * 256 && pts@[k].y == w * 256;
                    assert(base@.to_set().contains(v));
                }
                if start.contains(v) {
                    assert(start.subset_of(base@.to_set()));
                }
            }
            assert(base@.to_set() =~= start.union(hits));
        }
    }
}

impl Voxelizable for Tri {
    open spec fn shape_wf(&self) -> bool {
        self.wf()
    }

    open spec fn voxels(&self) -> Set<Voxel> {
        tri_voxels(*self)
    }

    fn voxelize(&self) -> (r: Vec<Voxel>) {
        let mut set: Vec<Voxel> = Vec::new();
        self.sweep(0, &mut set);
        self.sweep(1, &mut set);
        self.sweep(2, &mut set);
        proof {
            assert(Seq::<Voxel>::empty().to_set() =~= Set::empty());
            assert(set@.to_set() =~= tri_voxels(*self));
        }
        set
    }
}

impl Voxelizable for Sphere {
    open spec fn shape_wf(&self) -> bool {
        self.wf()
    }

    open spec fn voxels(&self) -> Set<Voxel> {
        sphere_voxels(*self)
    }

    fn voxelize(&self) -> (r: Vec<Voxel>) {
        let pts = self.points_inside();
        let mut set: Vec<Voxel> = Vec::new();
        let mut i: usize = 0;
        while i < pts.len()
            invariant
                self.wf(),
                0 <= i <= pts.len(),
                distinct(set@),
                forall|k: int| 0 <= k < pts@.len() ==> #[trigger] shell_lattice(*self, pts@[k].x as int, pts@[k].y as int, pts@[k].z as int),
                forall|px: int, py: int, pz: int| #[trigger] shell_lattice(*self, px, py, pz) ==> exists|k: int|
                    0 <= k < pts@.len() && pts@[k].x == px && pts@[k].y == py && pts@[k].z == pz,
                forall|v: Voxel| #[trigger] set@.to_set().contains(v) ==> sphere_voxels(*self).contains(v),
                forall|v: Voxel, k: int| 0 <= k < i && #[trigger] pts@[k].x == v.x * 256 && pts@[k].y == v.y * 256 && pts@[k].z == v.z * 256
                    ==> #[trigger] set@.to_set().contains(v),
            decreases pts.len() - i,
        {
            let p = pts[i];
            proof {
                assert(shell_lattice(*self, p.x as int, p.y as int, p.z as int));
            }
            let v = Voxel { x: to_world(p.x), y: to_world(p.y), z: to_world(p.z) };
            let ghost prev = set@;
            insert(&mut set, v);
            proof {
                assert(sphere_voxels(*self).contains(v));
                assert forall|x: Voxel| #[trigger] set@.to_set().contains(x) implies sphere_voxels(*self).contains(x) by {
                    if x != v {
                        assert(prev.to_set().contains(x));
                    }
                }
                assert forall|x: Voxel, k: int| 0 <= k < i + 1 && #[trigger] pts@[k].x == x.x * 256 && pts@[k].y == x.y * 256 && pts@[k].z == x.z * 256
                    implies #[trigger] set@.to_set().contains(x) by {
                    if k < i {
                        assert(prev.to_set().contains(x));
                    } else {
                        assert(x == v);
                    }
                }
            }
            i = i + 1;
        }
        proof {
            assert forall|v: Voxel| #[trigger] sphere_voxels(*self).contains(v) implies set@.to_set().contains(v) by {
                assert(shell_lattice(*self, v.x * 256, v.y * 256, v.z * 256));
                let k = choose|k: int| 0 <= k < pts@.len() && pts@[k].x == v.x * 256 && pts@[k].y == v.y * 256 && pts@[k].z == v.z * 256;
            }
            assert(set@.to_set() =~= sphere_voxels(*self));
        }
        set
    }
}

/// Merging is order-free: `a` merged with `b` holds what `b` merged with `a` holds.
pub proof fn lemma_merge_commutative(a: Seq<Voxel>, b: Seq<Voxel>)
    ensures
        a.to_set().union(b.to_set()) == b.to_set().union(a.to_set()),
{
    assert(a.to_set().union(b.to_set()) =~= b.to_set().union(a.to_set()));
}

/// Merging is grouping-free: `(a + b) + c` holds what `a + (b + c)` holds.
pub proof fn lemma_merge_associative(a: Seq<Voxel>, b: Seq<Voxel>, c: Seq<Voxel>)
    ensures
        a.to_set().union(b.to_set()).union(c.to_set()) == a.to_set().union(b.to_set().union(c.to_set())),
{
    assert(a.to_set().union(b.to_set()).union(c.to_set()) =~= a.to_set().union(b.to_set().union(c.to_set())));
}

/// A triangle of collinear points (zero normal) yields no voxel: every axis sweep
/// meets its plane at the near-parallel cut-off.
pub proof fn lemma_collinear_empty(a: Point3, b: Point3, c: Point3)
    requires
        normal_of(a, b, c) == (0int, 0int, 0int),
    ensures
        tri_voxels(tri_of(a, b, c)) == Set::<Voxel>::empty(),
{
    let t = tri_of(a, b, c);
    assert forall|v: Voxel| !#[trigger] tri_voxels(t).contains(v) by {
        let (u0, w0, _s0) = split(v, 0);
        let (u1, w1, _s1) = split(v, 1);
        let (u2, w2, _s2) = split(v, 2);
        assert(solve(t, 0, u0 * 256, w0 * 256) is None);
        assert(solve(t, 1, u1 * 256, w1 * 256) is None);
        assert(solve(t, 2, u2 * 256, w2 * 256) is None);
    }
    assert(tri_voxels(t) =~= Set::<Voxel>::empty());
}

/// Every voxel of a sphere lies within half a cell diagonal of its surface:
/// its distance from the center is in `[d - sqrt(3) / 2, d + sqrt(3) / 2]` world units.
pub proof fn lemma_sphere_shell(s: Sphere, v: Voxel)
    requires
        sphere_voxels(s).contains(v),
    ensures
        on_shell(v.x * 256 - s.p.x, v.y * 256 - s.p.y, v.z * 256 - s.p.z, s.d as int),
{
}

/// The lowest and highest `y` among `voxels`, if there are any.
pub fn y_extent(voxels: &Vec<Voxel>) -> (r: Option<(i64, i64)>)
    ensures
        r is None <==> voxels@.len() == 0,
        r matches Some((lo, hi)) ==> {
            &&& forall|k: int| 0 <= k < voxels@.len() ==> lo <= #[trigger] voxels@[k].y <= hi
            &&& exists|k: int| 0 <= k < voxels@.len() && #[trigger] voxels@[k].y == lo
            &&& exists|k: int| 0 <= k < voxels@.len() && #[trigger] voxels@[k].y == hi
        },
{
    if voxels.len() == 0 {
        return None;
    }
    let mut lo = voxels[0].y;
    let mut hi = voxels[0].y;
    let mut i: usize = 1;
    while i < voxels.len()
        invariant
            1 <= i <= voxels.len(),
            forall|k: int| 0 <= k < i ==> lo <= #[trigger] voxels@[k].y <= hi,
            exists|k: int| 0 <= k < i && #[trigger] voxels@[k].y == lo,
            exists|k: int| 0 <= k < i && #[trigger] voxels@[k].y == hi,
        decreases voxels.len() - i,
    {
        let y = voxels[i].y;
        if y < lo {
            lo = y;
        }
        if y > hi {
            hi = y;
        }
        i = i + 1;
    }
    Some((lo, hi))
}

} // verus!
