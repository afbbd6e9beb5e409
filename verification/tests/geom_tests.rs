use old_gods::geom::{Aabb, Cardinal, GlobalTileIndex, Shape, V2, FLIP_D, FLIP_H, FLIP_V};

#[test]
fn vectors_add_subtract_scale() {
    let a = V2::new(3, -4);
    let b = V2::new(1, 2);
    assert_eq!(a.plus(b), V2 { x: 4, y: -2 });
    assert_eq!(a.minus(b), V2 { x: 2, y: -6 });
    assert_eq!(a.scalar_mul(3), V2 { x: 9, y: -12 });
    assert!(a.is_nonzero());
    assert!(!V2::origin().is_nonzero());
}

#[test]
fn boxes_touching_do_not_overlap() {
    let a = Aabb::new(0, 0, 10, 10);
    let b = Aabb::new(10, 0, 20, 10);
    assert!(!a.intersects(&b));
    let c = Aabb::new(9, 0, 19, 10);
    assert!(a.intersects(&c));
}

#[test]
fn mtv_pushes_along_least_penetration_axis() {
    let a = Aabb::new(0, 0, 10, 10);
    let b = Aabb::new(5, 0, 15, 10);
    // x penetration 5, y penetration 10: push left by 5
    assert_eq!(a.mtv(&b), V2 { x: 5, y: 0 });
    let c = Aabb::new(0, 8, 10, 18);
    // y penetration 2: push up by 2
    assert_eq!(a.mtv(&c), V2 { x: 0, y: 2 });
    let d = Aabb::new(-8, 0, 2, 10);
    // push right: negative x component
    assert_eq!(a.mtv(&d), V2 { x: -2, y: 0 });
}

#[test]
fn mtv_separates_the_boxes() {
    let a = Aabb::new(0, 0, 10, 10);
    let b = Aabb::new(5, -3, 12, 13);
    let m = a.mtv(&b);
    let moved = a.translate(&V2::new(-m.x, -m.y));
    assert!(!moved.intersects(&b));
}

#[test]
fn cardinal_of_all_eight_directions() {
    assert_eq!(Cardinal::from_v2(&V2::new(0, -1)), Some(Cardinal::North));
    assert_eq!(Cardinal::from_v2(&V2::new(0, 1)), Some(Cardinal::South));
    assert_eq!(Cardinal::from_v2(&V2::new(1, 0)), Some(Cardinal::East));
    assert_eq!(Cardinal::from_v2(&V2::new(-1, 0)), Some(Cardinal::West));
    assert_eq!(Cardinal::from_v2(&V2::new(2, -3)), Some(Cardinal::NorthEast));
    assert_eq!(Cardinal::from_v2(&V2::new(2, 3)), Some(Cardinal::SouthEast));
    assert_eq!(Cardinal::from_v2(&V2::new(-2, -3)), Some(Cardinal::NorthWest));
    assert_eq!(Cardinal::from_v2(&V2::new(-2, 3)), Some(Cardinal::SouthWest));
    assert_eq!(Cardinal::from_v2(&V2::new(0, 0)), None);
}

#[test]
fn tile_index_unpacks_id_and_flip_flags() {
    let g = GlobalTileIndex::new(7 | FLIP_H | FLIP_D);
    assert_eq!(g.id(), 7);
    assert!(g.flip_h());
    assert!(!g.flip_v());
    assert!(g.flip_d());
    assert!(!g.is_empty());
    assert!(GlobalTileIndex::new(FLIP_V).is_empty());
}

#[test]
fn polygon_bounding_box() {
    let s = Shape::Polygon(vec![V2::new(3, 1), V2::new(-2, 5), V2::new(0, -4)]);
    assert_eq!(s.aabb(), Aabb { x0: -2, y0: -4, x1: 3, y1: 5 });
    let r = Shape::Rect(Aabb::new(1, 2, 3, 4));
    assert_eq!(r.aabb(), Aabb { x0: 1, y0: 2, x1: 3, y1: 4 });
    let empty = Shape::Polygon(vec![]);
    assert_eq!(empty.aabb(), Aabb { x0: 0, y0: 0, x1: 0, y1: 0 });
}
