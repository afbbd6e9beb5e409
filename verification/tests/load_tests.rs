use old_gods::load::{LoadStatus, LoadStatusKind, LoadTracker};
use old_gods::tiled::{MapTables, TiledMap};

fn tiny_map() -> TiledMap {
    TiledMap {
        layers: vec![],
        tables: MapTables { tile_width: 16, tile_height: 16, tilesets: vec![] },
    }
}

fn marked_map(tile_width: i64) -> TiledMap {
    TiledMap {
        layers: vec![],
        tables: MapTables { tile_width, tile_height: 16, tilesets: vec![] },
    }
}

#[test]
fn load_then_complete_then_take() {
    let mut tracker = LoadTracker::new();
    assert_eq!(tracker.status_of("a.json"), LoadStatusKind::NotRequested);
    let ticket = tracker.load("a.json".to_string());
    assert_eq!(tracker.status_of("a.json"), LoadStatusKind::Started);
    tracker.complete("a.json", ticket, tiny_map());
    assert_eq!(tracker.status_of("a.json"), LoadStatusKind::Complete);
    let taken = tracker.take("a.json");
    assert!(matches!(taken, Some(LoadStatus::Complete(_))));
    // taking consumes the entry: the path is no longer tracked
    assert_eq!(tracker.status_of("a.json"), LoadStatusKind::NotRequested);
    assert!(tracker.take("a.json").is_none());
}

#[test]
fn loading_twice_observes_only_the_second_outcome() {
    let mut tracker = LoadTracker::new();
    let first = tracker.load("a.json".to_string());
    // a second load for the same path before the first completes
    // overwrites the tracked state under a fresh ticket
    let second = tracker.load("a.json".to_string());
    assert_ne!(first, second);
    assert_eq!(tracker.entries.len(), 1);
    assert_eq!(tracker.status_of("a.json"), LoadStatusKind::Started);
    // the first fetch reports back, but its ticket is stale: discarded
    tracker.complete("a.json", first, marked_map(1));
    assert_eq!(tracker.status_of("a.json"), LoadStatusKind::Started);
    // the second fetch's report lands; take observes only its outcome
    tracker.complete("a.json", second, marked_map(2));
    match tracker.take("a.json") {
        Some(LoadStatus::Complete(m)) => assert_eq!(m.tables.tile_width, 2),
        other => panic!("expected the second load's map, got {:?}", other),
    }
    assert_eq!(tracker.status_of("a.json"), LoadStatusKind::NotRequested);
}

#[test]
fn stale_failure_reports_are_discarded_too() {
    let mut tracker = LoadTracker::new();
    let first = tracker.load("a.json".to_string());
    let second = tracker.load("a.json".to_string());
    tracker.fail("a.json", first, "first fetch lost".to_string());
    assert_eq!(tracker.status_of("a.json"), LoadStatusKind::Started);
    tracker.complete("a.json", second, tiny_map());
    assert_eq!(tracker.status_of("a.json"), LoadStatusKind::Complete);
}

#[test]
fn failure_is_terminal_and_carries_the_message() {
    let mut tracker = LoadTracker::new();
    let ticket = tracker.load("broken.json".to_string());
    tracker.fail("broken.json", ticket, "decode error".to_string());
    assert_eq!(tracker.status_of("broken.json"), LoadStatusKind::Error);
    // a terminal status is written once: completion after failure is ignored
    tracker.complete("broken.json", ticket, tiny_map());
    assert_eq!(tracker.status_of("broken.json"), LoadStatusKind::Error);
    match tracker.take("broken.json") {
        Some(LoadStatus::Error(msg)) => assert_eq!(msg, "decode error"),
        other => panic!("expected the error outcome, got {:?}", other),
    }
}

#[test]
fn reports_for_untracked_paths_are_ignored() {
    let mut tracker = LoadTracker::new();
    tracker.complete("nobody.json", 0, tiny_map());
    tracker.fail("nobody.json", 0, "lost".to_string());
    assert_eq!(tracker.status_of("nobody.json"), LoadStatusKind::NotRequested);
    assert!(tracker.entries.is_empty());
}

#[test]
fn paths_are_tracked_independently() {
    let mut tracker = LoadTracker::new();
    let ta = tracker.load("a.json".to_string());
    let tb = tracker.load("b.json".to_string());
    assert_ne!(ta, tb);
    tracker.fail("a.json", ta, "404".to_string());
    assert_eq!(tracker.status_of("a.json"), LoadStatusKind::Error);
    assert_eq!(tracker.status_of("b.json"), LoadStatusKind::Started);
}
