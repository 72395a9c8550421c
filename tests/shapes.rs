use ultvox::arith::{ceil_div_exec, floor_div_exec, round_div_exec};
use ultvox::shapes::{Point2, Point3, Sphere, Tri, Tri2D, UNIT};
use ultvox::voxelization::{merge, y_extent, Voxel, Voxelizable};

fn p2(x: f64, y: f64) -> Point2 {
    Point2::new((x * UNIT as f64).round() as i64, (y * UNIT as f64).round() as i64)
}

fn p3(x: f64, y: f64, z: f64) -> Point3 {
    let s = UNIT as f64;
    Point3::new((x * s).round() as i64, (y * s).round() as i64, (z * s).round() as i64)
}

fn vox(x: i64, y: i64, z: i64) -> Voxel {
    Voxel { x, y, z }
}

#[test]
fn tri2d_tests() {
    let p1 = p2(0., 0.);
    let p2_ = p2(1., 1.);
    let p3_ = p2(0.5, 3.);
    let p4 = p2(3., 0.5);
    let p5 = p2(-2., -1.);

    let tri1 = Tri2D::new(p5, p3_, p4);
    assert!(tri1.contains(p1));
    assert!(tri1.contains(p2_));
    assert!(!tri1.contains(p2(-2., -0.1)));

    let tri2 = Tri2D::new(p1, p2_, p4);
    assert!(!tri2.contains(p3_));
    assert!(!tri2.contains(p5));

    let tri3 = Tri2D::new(p5, p2_, p4);
    assert!(tri3.contains(p1));
    assert!(!tri3.contains(p3_))
}

#[test]
fn points_inside_tests() {
    let p3_ = p2(0.5, 3.);
    let p4 = p2(3., 0.5);
    let p5 = p2(-2., -1.);

    let tri1 = Tri2D::new(p5, p3_, p4);
    let set = tri1.points_inside();
    assert!(set.contains(&p2(0., 0.)));
    assert!(set.contains(&p2(1., 1.)));
    assert!(!set.contains(&p2(3., 1.)));
    assert!(set.contains(&p2(-2., -1.)));
    assert!(!set.contains(&p2(3., 0.)));
    assert!(!set.contains(&p2(0., 3.)));
}

#[test]
fn degenerate_projection_holds_nothing() {
    let t = Tri2D::new(p2(0., 0.), p2(1., 1.), p2(2., 2.));
    assert!(!t.contains(p2(1., 1.)));
    assert!(t.points_inside().is_empty());
}

#[test]
fn corner_triangle_z_sweep() {
    let t = Tri::from_points(p3(0., 0., 0.), p3(1., 0., 0.), p3(0., 1., 0.));
    let flat = t.get_flat(2);
    let rays = flat.points_inside();
    assert_eq!(rays.len(), 3);
    for r in &rays {
        assert_eq!(t.plane_intersection(*r, 2), Some(0));
    }
    let v = t.voxelize();
    assert!(v.contains(&vox(0, 0, 0)));
    assert!(v.contains(&vox(1, 0, 0)));
    assert!(v.contains(&vox(0, 1, 0)));
    assert_eq!(v.len(), 3);
}

#[test]
fn plane_intersection_solves_the_dropped_coordinate() {
    // the plane z = x / 2 + 1
    let t = Tri::from_points(p3(0., 0., 1.), p3(4., 0., 3.), p3(0., 4., 1.));
    assert_eq!(t.plane_intersection(p2(2., 1.), 2), Some(2));
    assert_eq!(t.plane_intersection(p2(3., 1.), 2), Some(3));
    // the x sweep runs parallel to nothing here; the y sweep is parallel to the plane
    assert_eq!(t.plane_intersection(p2(1., 2.), 1), None);
    assert_eq!(t.plane_intersection(p2(0., 2.), 0), Some(2));
}

#[test]
fn collinear_triangle_is_empty() {
    let t = Tri::from_points(p3(0., 0., 0.), p3(1., 1., 1.), p3(2., 2., 2.));
    assert!(t.voxelize().is_empty());
}

#[test]
fn sphere_radius_two_is_a_shell() {
    let s = Sphere::new(p3(0., 0., 0.), 2 * UNIT);
    assert!(s.contains(p3(2., 0., 0.)));
    assert!(!s.contains(p3(0., 0., 0.)));
    let v = s.voxelize();
    assert!(v.contains(&vox(2, 0, 0)));
    assert!(v.contains(&vox(0, -2, 0)));
    assert!(!v.contains(&vox(0, 0, 0)));
    assert!(!v.contains(&vox(3, 0, 0)));
    for w in &v {
        let d = ((w.x * w.x + w.y * w.y + w.z * w.z) as f64).sqrt();
        assert!((d - 2.0).abs() <= 3f64.sqrt() / 2.0 + 1e-9);
    }
}

#[test]
fn zero_radius_sphere() {
    let s = Sphere::new(p3(0., 0., 0.), 0);
    let v = s.voxelize();
    assert!(v.contains(&vox(0, 0, 0)));
    assert!(!v.contains(&vox(1, 0, 0)));
    assert_eq!(v.len(), 1);
}

#[test]
fn merge_is_a_union() {
    let mut a = vec![vox(0, 0, 0), vox(1, 0, 0)];
    merge(&mut a, vec![vox(1, 0, 0), vox(2, 0, 0), vox(2, 0, 0)]);
    assert_eq!(a.len(), 3);
    assert!(a.contains(&vox(2, 0, 0)));

    let mut b = vec![vox(2, 0, 0)];
    merge(&mut b, vec![vox(0, 0, 0), vox(1, 0, 0)]);
    let mut sa = a.clone();
    sa.sort_by_key(|v| (v.x, v.y, v.z));
    b.sort_by_key(|v| (v.x, v.y, v.z));
    assert_eq!(sa, b);
}

#[test]
fn rounding_helpers() {
    assert_eq!(round_div_exec(5, 2), 3);
    assert_eq!(round_div_exec(-5, 2), -3);
    assert_eq!(round_div_exec(7, 4), 2);
    assert_eq!(round_div_exec(-1, 4), 0);
    assert_eq!(floor_div_exec(-1, 256), -1);
    assert_eq!(floor_div_exec(511, 256), 1);
    assert_eq!(ceil_div_exec(-1, 256), 0);
    assert_eq!(ceil_div_exec(257, 256), 2);
}

#[test]
fn y_extent_of_voxels() {
    assert_eq!(y_extent(&vec![]), None);
    assert_eq!(y_extent(&vec![vox(0, 3, 0), vox(5, -2, 1), vox(0, 7, 0)]), Some((-2, 7)));
}

#[test]
fn projections_drop_one_axis() {
    let t = Tri::from_points(p3(1., 2., 3.), p3(4., 5., 6.), p3(7., 8., 9.));
    let fx = t.get_flat(0);
    let fy = t.get_flat(1);
    let fz = t.get_flat(2);
    assert_eq!((fx.a, fx.b, fx.c), (p2(2., 3.), p2(5., 6.), p2(8., 9.)));
    assert_eq!((fy.a, fy.b, fy.c), (p2(1., 3.), p2(4., 6.), p2(7., 9.)));
    assert_eq!((fz.a, fz.b, fz.c), (p2(1., 2.), p2(4., 5.), p2(7., 8.)));
}

#[test]
fn lattice_lists_hold_no_repeats() {
    let t = Tri2D::new(p2(-2., -1.), p2(0.5, 3.), p2(3., 0.5));
    let pts = t.points_inside();
    for i in 0..pts.len() {
        for j in i + 1..pts.len() {
            assert_ne!(pts[i], pts[j]);
        }
    }
    let s = Sphere::new(p3(0.5, 0., 0.), 3 * UNIT / 2);
    let shell = s.points_inside();
    assert!(!shell.is_empty());
    for i in 0..shell.len() {
        for j in i + 1..shell.len() {
            assert_ne!(shell[i], shell[j]);
        }
    }
}
