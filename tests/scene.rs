use std::collections::HashMap;
use ultvox::schematic::{Element, Rotation, Schematic, VoxelizeError, ROT_UNIT};
use ultvox::shapes::{Point3, UNIT};
use ultvox::voxelization::Voxel;

fn sorted(mut v: Vec<Voxel>) -> Vec<(i64, i64, i64)> {
    let mut out: Vec<(i64, i64, i64)> = v.drain(..).map(|w| (w.x, w.y, w.z)).collect();
    out.sort();
    out
}

fn scene(points: &[(usize, (i64, i64, i64))], elements: Vec<Element>) -> Schematic {
    let mut map = HashMap::new();
    for (id, (x, y, z)) in points {
        map.insert(*id, Point3::new(x * UNIT, y * UNIT, z * UNIT));
    }
    Schematic { points: map, elements }
}

const NO_TURN: Rotation = Rotation { w: ROT_UNIT, x: 0, y: 0, z: 0 };

#[test]
fn polygon_is_its_fan() {
    let pts = [(0, (0, 0, 0)), (1, (4, 0, 2)), (2, (4, 4, 2)), (3, (0, 4, 0))];
    let poly = scene(&pts, vec![Element::Polygon(vec![0, 1, 2, 3])]);
    let fan = scene(&pts, vec![Element::Tri(0, 1, 2), Element::Tri(0, 2, 3)]);
    let a = sorted(poly.voxelize().unwrap());
    let b = sorted(fan.voxelize().unwrap());
    assert!(!a.is_empty());
    assert_eq!(a, b);
}

#[test]
fn short_polygon_adds_nothing() {
    let s = scene(&[(0, (0, 0, 0)), (1, (1, 0, 0))], vec![Element::Polygon(vec![0, 1])]);
    assert_eq!(s.voxelize().unwrap(), vec![]);
    let empty = scene(&[(0, (0, 0, 0))], vec![Element::Polygon(vec![])]);
    assert_eq!(empty.voxelize().unwrap(), vec![]);
}

#[test]
fn short_polygon_with_missing_point_fails() {
    let one = scene(&[], vec![Element::Polygon(vec![5])]);
    assert_eq!(one.voxelize(), Err(VoxelizeError::MissingPoint(5)));
    let two = scene(&[(0, (0, 0, 0))], vec![Element::Point(0), Element::Polygon(vec![5, 6])]);
    assert_eq!(two.voxelize(), Err(VoxelizeError::MissingPoint(5)));
}

#[test]
fn half_turn_about_y_then_double() {
    let s = scene(&[(0, (1, 0, 0))], vec![Element::Point(0)]);
    let half_turn = Rotation { w: 0, x: 0, y: ROT_UNIT, z: 0 };
    let v = s.voxelize_with_transform(half_turn, 2 * ROT_UNIT).unwrap();
    assert_eq!(v, vec![Voxel { x: -2, y: 0, z: 0 }]);
}

#[test]
fn sphere_element_is_scaled() {
    let s = scene(&[(0, (0, 0, 0))], vec![Element::Sphere(0, UNIT as u32)]);
    let v = s.voxelize_with_transform(NO_TURN, 2 * ROT_UNIT).unwrap();
    assert!(v.contains(&Voxel { x: 2, y: 0, z: 0 }));
    assert!(!v.contains(&Voxel { x: 0, y: 0, z: 0 }));
}

#[test]
fn missing_point_fails_the_whole_scene() {
    let s = scene(
        &[(0, (0, 0, 0)), (1, (1, 0, 0)), (2, (0, 1, 0))],
        vec![Element::Tri(0, 1, 2), Element::Point(9), Element::Point(0)],
    );
    assert_eq!(s.voxelize(), Err(VoxelizeError::MissingPoint(9)));
}

#[test]
fn out_of_range_transform_fails() {
    let s = scene(&[(0, (1, 0, 0))], vec![Element::Point(0)]);
    assert_eq!(s.voxelize_with_transform(NO_TURN, i64::MAX), Err(VoxelizeError::OutOfRange));
    let far = scene(&[(0, (4000, 0, 0))], vec![Element::Point(0)]);
    assert_eq!(far.voxelize_with_transform(NO_TURN, 2 * ROT_UNIT), Err(VoxelizeError::OutOfRange));
}

#[test]
fn voxelizing_twice_gives_the_same_set() {
    let s = Schematic::example();
    let turn = Rotation { w: 60000, x: 0, y: 26000, z: 0 };
    let a = sorted(s.voxelize_with_transform(turn, 3 * ROT_UNIT / 2).unwrap());
    let b = sorted(s.voxelize_with_transform(turn, 3 * ROT_UNIT / 2).unwrap());
    assert_eq!(a, b);
    assert!(!a.is_empty());
}

#[test]
fn example_scene_voxelizes() {
    let s = Schematic::example();
    let v = s.voxelize().unwrap();
    // the point element (0, 1, -1.5) rounds half away from zero
    assert!(v.contains(&Voxel { x: 0, y: 1, z: -2 }));
    // the sphere of radius 2.1 about it
    assert!(v.contains(&Voxel { x: 0, y: 3, z: -2 }));
}

#[test]
fn negative_scale_on_a_sphere_is_out_of_range() {
    let s = scene(&[(0, (0, 0, 0))], vec![Element::Sphere(0, UNIT as u32)]);
    assert_eq!(s.voxelize_with_transform(NO_TURN, -ROT_UNIT), Err(VoxelizeError::OutOfRange));
}

#[test]
fn quarter_turn_about_z_moves_a_triangle() {
    let s = scene(&[(0, (0, 0, 0)), (1, (1, 0, 0)), (2, (0, 1, 0))], vec![Element::Tri(0, 1, 2)]);
    // 46341 / 65536 is cos(45 degrees), rounded
    let quarter = Rotation { w: 46341, x: 0, y: 0, z: 46341 };
    let v = sorted(s.voxelize_with_transform(quarter, ROT_UNIT).unwrap());
    assert_eq!(v, vec![(-1, 0, 0), (0, 0, 0), (0, 1, 0)]);
}
