use old_gods::geom::{Aabb, Cardinal, Shape, V2};
use old_gods::physics::{Barrier, Physics, PhysicsSystemData};
use old_gods::spatial::AabbTree;
use old_gods::world::{EntityRow, World};

fn mover(x: i64, y: i64, vx: i64, vy: i64) -> EntityRow {
    let mut row = EntityRow::empty();
    row.position = Some(V2::new(x, y));
    row.velocity = Some(V2::new(vx, vy));
    row
}

fn barrier_at(x: i64, y: i64, w: i64, h: i64, z: i64, moving: bool) -> EntityRow {
    let mut row = EntityRow::empty();
    row.position = Some(V2::new(x, y));
    row.shape = Some(Shape::Rect(Aabb::new(0, 0, w, h)));
    row.barrier = true;
    row.zlevel = Some(z);
    if moving {
        row.velocity = Some(V2::new(0, 0));
    }
    row
}

fn data_with(rows: Vec<EntityRow>, dt: i64) -> PhysicsSystemData {
    let mut world = World::new();
    for row in rows {
        world.spawn(row);
    }
    PhysicsSystemData { world, aabb_tree: AabbTree::new(), dt }
}

#[test]
fn barrier_names_its_map_type_tag() {
    assert_eq!(Barrier::tiled_type(), "barrier");
}

#[test]
fn move_things_integrates_velocity_over_dt() {
    let mut data = data_with(vec![mover(10, 20, 2, -3)], 2);
    data.move_things();
    let row = data.world.row(0);
    assert_eq!(row.position, Some(V2 { x: 14, y: 14 }));
    assert_eq!(row.cardinal, Some(Cardinal::NorthEast));
}

#[test]
fn exiled_and_still_entities_do_not_move() {
    let mut still = mover(5, 5, 0, 0);
    still.cardinal = Some(Cardinal::South);
    let mut exiled = mover(7, 7, 4, 4);
    exiled.exile = true;
    let mut data = data_with(vec![still, exiled], 3);
    data.move_things();
    assert_eq!(data.world.row(0).position, Some(V2 { x: 5, y: 5 }));
    // a zero displacement leaves the prior direction in place
    assert_eq!(data.world.row(0).cardinal, Some(Cardinal::South));
    assert_eq!(data.world.row(1).position, Some(V2 { x: 7, y: 7 }));
    assert!(data.world.row(1).cardinal.is_none());
}

#[test]
fn zero_dt_moves_nothing() {
    let mut data = data_with(vec![mover(1, 2, 50, 60)], 0);
    data.move_things();
    assert_eq!(data.world.row(0).position, Some(V2 { x: 1, y: 2 }));
    assert!(data.world.row(0).cardinal.is_none());
}

/// Build the spatial index from the world's change logs, as a tick would.
fn sync_tree(data: &mut PhysicsSystemData) {
    let events: Vec<usize> = (0..data.world.len()).collect();
    data.aabb_tree.update_tree(&data.world, &events);
}

#[test]
fn one_resolution_pass_separates_and_is_idempotent() {
    // the mover's box [0,10]x[0,10] overlaps the wall's [5,15]x[0,10]
    let mut data = data_with(
        vec![barrier_at(0, 0, 10, 10, 0, true), barrier_at(5, 0, 10, 10, 0, false)],
        1,
    );
    sync_tree(&mut data);
    data.collide_things();
    // pushed out to the left by the 5-unit x penetration
    assert_eq!(data.world.row(0).position, Some(V2 { x: -5, y: 0 }));
    assert_eq!(data.world.row(1).position, Some(V2 { x: 5, y: 0 }));
    // after one pass the overlap set is empty: a second pass is a fixed point
    let a = Aabb::new(0, 0, 10, 10).translate(&V2::new(-5, 0));
    let overlaps = data.aabb_tree.query_intersecting_barriers(&data.world, 0, a);
    assert!(overlaps.is_empty());
    data.collide_things();
    assert_eq!(data.world.row(0).position, Some(V2 { x: -5, y: 0 }));
}

#[test]
fn different_zlevels_never_interact() {
    let mut data = data_with(
        vec![barrier_at(0, 0, 10, 10, 0, true), barrier_at(5, 0, 10, 10, 1, false)],
        1,
    );
    sync_tree(&mut data);
    data.collide_things();
    assert_eq!(data.world.row(0).position, Some(V2 { x: 0, y: 0 }));
    assert_eq!(data.world.row(1).position, Some(V2 { x: 5, y: 0 }));
}

#[test]
fn exiled_barriers_are_ignored() {
    let mut wall = barrier_at(5, 0, 10, 10, 0, false);
    wall.exile = true;
    let mut data = data_with(vec![barrier_at(0, 0, 10, 10, 0, true), wall], 1);
    sync_tree(&mut data);
    data.collide_things();
    assert_eq!(data.world.row(0).position, Some(V2 { x: 0, y: 0 }));
}

#[test]
fn entities_without_velocity_are_never_pushed() {
    // two overlapping static walls stay exactly where they are
    let mut data = data_with(
        vec![barrier_at(0, 0, 10, 10, 0, false), barrier_at(5, 0, 10, 10, 0, false)],
        1,
    );
    sync_tree(&mut data);
    data.collide_things();
    assert_eq!(data.world.row(0).position, Some(V2 { x: 0, y: 0 }));
    assert_eq!(data.world.row(1).position, Some(V2 { x: 5, y: 0 }));
}

#[test]
fn run_moves_collides_and_reconciles_the_index() {
    let mut wall = barrier_at(12, 0, 10, 10, 0, false);
    wall.velocity = None;
    let mut data = data_with(vec![barrier_at(0, 0, 10, 10, 0, true), wall], 1);
    sync_tree(&mut data);
    let mut physics = Physics::default();
    assert!(physics.shape_reader.is_none());
    physics.setup(&data);
    // drive the mover 4 units right into the wall; collision pushes it back
    data.world.set_velocity(0, V2::new(4, 0));
    physics.run(&mut data);
    // moved to x=4, box [4,14] overlaps wall box [12,22] by 2: pushed to x=2
    assert_eq!(data.world.row(0).position, Some(V2 { x: 2, y: 0 }));
    // the index entry reflects the corrected bounds
    let entry = data
        .aabb_tree
        .entries
        .iter()
        .find(|e| e.0 == 0)
        .expect("mover indexed");
    assert_eq!(entry.1, Aabb { x0: 2, y0: 0, x1: 12, y1: 10 });
    // cursors advanced to the ends of the change logs
    assert_eq!(physics.position_reader, Some(data.world.position_events.len()));
    assert_eq!(physics.shape_reader, Some(data.world.shape_events.len()));
}

#[test]
fn proximity_query_reports_overlaps_without_mutating() {
    let mut data = data_with(
        vec![barrier_at(0, 0, 10, 10, 0, false), barrier_at(5, 0, 10, 10, 0, false)],
        1,
    );
    sync_tree(&mut data);
    let a = Aabb::new(0, 0, 10, 10);
    let hits = data.aabb_tree.query_intersecting_shapes(&data.world, 0, a);
    assert_eq!(hits.len(), 1);
    assert_eq!(hits[0].0, 1);
    assert_eq!(hits[0].2, V2 { x: 5, y: 0 });
}

#[test]
fn flanking_barriers_cancel_in_entry_order() {
    // the mover is flanked: the right wall pushes it left by 2, the
    // left wall pushes it right by 2, in ascending entry order; the
    // corrections cancel and the overlaps survive the pass, which is
    // why the single-pass fixed point holds only for a single barrier
    let mut data = data_with(
        vec![
            barrier_at(0, 0, 10, 10, 0, true),
            barrier_at(8, 0, 10, 10, 0, false),
            barrier_at(-8, 0, 10, 10, 0, false),
        ],
        1,
    );
    sync_tree(&mut data);
    data.collide_things();
    assert_eq!(data.world.row(0).position, Some(V2 { x: 0, y: 0 }));
}
