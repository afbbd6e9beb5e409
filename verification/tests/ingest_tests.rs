use old_gods::assemble::ingest;
use old_gods::geom::V2;
use old_gods::load::{LoadStatusKind, LoadTracker};
use old_gods::tiled::{Layer, MapTables, Object, TiledMap};
use old_gods::world::{EntityRow, World};

fn request(path: &str) -> EntityRow {
    let mut row = EntityRow::empty();
    row.map_request = Some(path.to_string());
    row
}

fn one_barrier_map() -> TiledMap {
    let obj = Object {
        x: 0,
        y: 8,
        width: 8,
        height: 8,
        name: String::new(),
        type_is: "barrier".to_string(),
        polygon: None,
        gid: None,
        properties: vec![],
    };
    TiledMap {
        layers: vec![Layer::Objects(vec![obj])],
        tables: MapTables { tile_width: 16, tile_height: 16, tilesets: vec![] },
    }
}

#[test]
fn completed_request_populates_the_world_and_is_deleted() {
    let mut world = World::new();
    world.spawn(request("m.json"));
    let mut tracker = LoadTracker::new();
    let ticket = tracker.load("m.json".to_string());
    // nothing happens while the fetch is pending
    ingest(&mut world, &mut tracker).unwrap();
    assert_eq!(world.len(), 1);
    assert!(world.row(0).alive);
    // completion: the map is decomposed once and the request deleted
    tracker.complete("m.json", ticket, one_barrier_map());
    ingest(&mut world, &mut tracker).unwrap();
    assert_eq!(world.len(), 2);
    assert!(!world.row(0).alive);
    let spawned = world.row(1);
    assert!(spawned.barrier);
    assert_eq!(spawned.position, Some(V2 { x: 0, y: 0 }));
    assert_eq!(spawned.zlevel, Some(0));
    // the outcome was consumed: the path is free for a fresh load
    assert_eq!(tracker.status_of("m.json"), LoadStatusKind::NotRequested);
}

#[test]
fn failed_request_is_deleted_without_world_mutation() {
    let mut world = World::new();
    world.spawn(request("bad.json"));
    let mut tracker = LoadTracker::new();
    let ticket = tracker.load("bad.json".to_string());
    tracker.fail("bad.json", ticket, "network".to_string());
    ingest(&mut world, &mut tracker).unwrap();
    assert_eq!(world.len(), 1);
    assert!(!world.row(0).alive);
    assert_eq!(tracker.status_of("bad.json"), LoadStatusKind::NotRequested);
}

#[test]
fn entities_without_requests_are_untouched() {
    let mut world = World::new();
    let mut bystander = EntityRow::empty();
    bystander.position = Some(V2::new(1, 2));
    world.spawn(bystander);
    let mut tracker = LoadTracker::new();
    ingest(&mut world, &mut tracker).unwrap();
    assert_eq!(world.len(), 1);
    assert!(world.row(0).alive);
    assert_eq!(world.row(0).position, Some(V2 { x: 1, y: 2 }));
}
