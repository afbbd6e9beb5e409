use old_gods::assemble::{assemble_object, assemble_tile_layer, decompose_map, map_is_ok, AssembleError};
use old_gods::geom::{Aabb, GlobalTileIndex, Shape, V2};
use old_gods::tiled::{
    Frame, Layer, MapTables, Object, PropVal, Property, TileDef, TileLayer, TiledMap, Tileset,
};
use old_gods::world::{Diagnostic, World};

fn plain_object(type_is: &str) -> Object {
    Object {
        x: 10,
        y: 20,
        width: 16,
        height: 16,
        name: String::new(),
        type_is: type_is.to_string(),
        polygon: None,
        gid: None,
        properties: vec![],
    }
}

fn prop(name: &str, value: PropVal) -> Property {
    Property { name: name.to_string(), value }
}

fn empty_tables() -> MapTables {
    MapTables { tile_width: 16, tile_height: 16, tilesets: vec![] }
}

fn two_tilesets() -> MapTables {
    MapTables {
        tile_width: 16,
        tile_height: 16,
        tilesets: vec![
            Tileset {
                first_gid: 1,
                tile_count: 4,
                tile_width: 16,
                tile_height: 16,
                columns: 2,
                tiles: vec![],
            },
            Tileset {
                first_gid: 5,
                tile_count: 4,
                tile_width: 8,
                tile_height: 8,
                columns: 2,
                tiles: vec![],
            },
        ],
    }
}

#[test]
fn object_position_uses_bottom_left_origin() {
    // authored origin is top-left-x, bottom-y: position.y = y - height
    let mut world = World::new();
    let ent = assemble_object(&mut world, &empty_tables(), plain_object("barrier"), 3).unwrap();
    let row = world.row(ent);
    assert_eq!(row.position, Some(V2 { x: 10, y: 4 }));
    assert_eq!(row.zlevel, Some(3));
    assert!(row.barrier);
    assert!(matches!(row.shape, Some(Shape::Rect(Aabb { x0: 0, y0: 0, x1: 16, y1: 16 }))));
}

#[test]
fn polygon_shape_is_translated_to_entity_local() {
    let mut obj = plain_object("barrier");
    obj.polygon = Some(vec![V2::new(0, 0), V2::new(4, -2)]);
    let mut world = World::new();
    let ent = assemble_object(&mut world, &empty_tables(), obj, 0).unwrap();
    match &world.row(ent).shape {
        Some(Shape::Polygon(vs)) => {
            assert_eq!(vs.as_slice(), &[V2 { x: 0, y: 16 }, V2 { x: 4, y: 14 }]);
        }
        other => panic!("expected a polygon shape, got {:?}", other),
    }
}

#[test]
fn player_character_scenario() {
    let mut obj = plain_object("character");
    obj.properties = vec![
        prop("control", PropVal::Str("player".to_string())),
        prop("player_index", PropVal::Int(0)),
    ];
    let mut world = World::new();
    let ent = assemble_object(&mut world, &empty_tables(), obj, 0).unwrap();
    let row = world.row(ent);
    assert_eq!(row.position, Some(V2 { x: 10, y: 4 }));
    assert_eq!(row.velocity, Some(V2 { x: 0, y: 0 }));
    assert_eq!(row.player, Some(0));
    assert!(row.leftover.is_none());
    assert!(row.raw_object.is_none());
}

#[test]
fn unknown_control_scheme_is_a_diagnostic_not_an_error() {
    let mut obj = plain_object("character");
    obj.properties = vec![prop("control", PropVal::Str("gamepad".to_string()))];
    let mut world = World::new();
    let ent = assemble_object(&mut world, &empty_tables(), obj, 0).unwrap();
    let row = world.row(ent);
    assert_eq!(row.velocity, Some(V2 { x: 0, y: 0 }));
    assert!(row.player.is_none());
    assert_eq!(world.diagnostics.len(), 1);
    assert!(matches!(&world.diagnostics[0], Diagnostic::UnknownControlScheme(s) if s == "gamepad"));
}

#[test]
fn character_without_control_is_fatal() {
    let mut world = World::new();
    let r = assemble_object(&mut world, &empty_tables(), plain_object("character"), 0);
    assert!(matches!(r, Err(AssembleError::MissingControl)));
    assert_eq!(world.len(), 0);
}

#[test]
fn player_without_index_is_fatal() {
    let mut obj = plain_object("character");
    obj.properties = vec![prop("control", PropVal::Str("player".to_string()))];
    let r = assemble_object(&mut World::new(), &empty_tables(), obj, 0);
    assert!(matches!(r, Err(AssembleError::MissingPlayerIndex)));
}

#[test]
fn player_index_must_be_an_integer() {
    let mut obj = plain_object("character");
    obj.properties = vec![
        prop("control", PropVal::Str("player".to_string())),
        prop("player_index", PropVal::Str("zero".to_string())),
    ];
    let r = assemble_object(&mut World::new(), &empty_tables(), obj, 0);
    assert!(matches!(r, Err(AssembleError::PlayerIndexNotInteger)));
}

#[test]
fn npc_control_is_unimplemented() {
    let mut obj = plain_object("character");
    obj.properties = vec![prop("control", PropVal::Str("npc".to_string()))];
    let r = assemble_object(&mut World::new(), &empty_tables(), obj, 0);
    assert!(matches!(r, Err(AssembleError::NpcUnimplemented)));
}

#[test]
fn item_consumes_stack_and_usable() {
    let mut obj = plain_object("item");
    obj.name = "potion".to_string();
    obj.properties = vec![
        prop("stack", PropVal::Int(3)),
        prop("usable", PropVal::Bool(true)),
    ];
    let mut world = World::new();
    let ent = assemble_object(&mut world, &empty_tables(), obj, 0).unwrap();
    let row = world.row(ent);
    let item = row.item.as_ref().expect("item data");
    assert_eq!(item.stack, Some(3));
    assert!(item.usable);
    // every property was consumed: no leftover bag
    assert!(row.leftover.is_none());
    assert!(row.raw_object.is_none());
}

#[test]
fn unnamed_item_is_still_consumed() {
    // the name requirement belongs to the inventory subsystem, which
    // claims objects through the raw escape hatch; an item itself needs
    // no name to be consumed
    let mut obj = plain_object("item");
    obj.properties = vec![prop("stack", PropVal::Int(1))];
    let mut world = World::new();
    let ent = assemble_object(&mut world, &empty_tables(), obj, 0).unwrap();
    let row = world.row(ent);
    assert_eq!(row.item.as_ref().unwrap().stack, Some(1));
    assert!(row.name.is_none());
    assert!(row.leftover.is_none());
}

#[test]
fn unrecognized_type_keeps_raw_object_without_leftover() {
    let mut obj = plain_object("gizmo");
    obj.properties = vec![prop("foo", PropVal::Str("bar".to_string()))];
    let mut world = World::new();
    let ent = assemble_object(&mut world, &empty_tables(), obj, 0).unwrap();
    let row = world.row(ent);
    let raw = row.raw_object.as_ref().expect("raw object kept verbatim");
    assert_eq!(raw.type_is, "gizmo");
    assert_eq!(raw.properties.len(), 1);
    assert!(row.leftover.is_none());
}

#[test]
fn recognized_type_keeps_exactly_the_unconsumed_properties() {
    let mut obj = plain_object("barrier");
    obj.properties = vec![prop("foo", PropVal::Str("bar".to_string()))];
    let mut world = World::new();
    let ent = assemble_object(&mut world, &empty_tables(), obj, 0).unwrap();
    let row = world.row(ent);
    assert!(row.raw_object.is_none());
    let left = row.leftover.as_ref().expect("leftover bag");
    assert_eq!(left.len(), 1);
    assert_eq!(left[0].name, "foo");
    assert!(matches!(&left[0].value, PropVal::Str(s) if s == "bar"));
}

#[test]
fn empty_type_is_a_passthrough() {
    let mut world = World::new();
    let ent = assemble_object(&mut world, &empty_tables(), plain_object(""), 0).unwrap();
    let row = world.row(ent);
    assert!(row.raw_object.is_none());
    assert!(!row.barrier);
    assert!(row.player.is_none());
}

#[test]
fn rendering_resolves_against_the_owning_tileset() {
    // gid 6 belongs to the second tileset (first_gid 5): local id 1,
    // two columns of 8x8 tiles puts it at x 8..16, y 0..8
    let tables = two_tilesets();
    let mut obj = plain_object("");
    obj.gid = Some(GlobalTileIndex::new(6));
    let mut world = World::new();
    let ent = assemble_object(&mut world, &tables, obj, 0).unwrap();
    assert_eq!(world.row(ent).rendering, Some(Aabb { x0: 8, y0: 0, x1: 16, y1: 8 }));

    // gid 3 belongs to the first tileset: local id 2, second row of 16x16
    let mut obj2 = plain_object("");
    obj2.gid = Some(GlobalTileIndex::new(3));
    let ent2 = assemble_object(&mut world, &tables, obj2, 0).unwrap();
    assert_eq!(world.row(ent2).rendering, Some(Aabb { x0: 0, y0: 16, x1: 16, y1: 32 }));
}

fn tables_with_defs(objects: Vec<Object>, frames: Vec<Frame>) -> MapTables {
    MapTables {
        tile_width: 16,
        tile_height: 16,
        tilesets: vec![Tileset {
            first_gid: 1,
            tile_count: 4,
            tile_width: 16,
            tile_height: 16,
            columns: 2,
            tiles: vec![TileDef {
                local_id: 1,
                type_is: String::new(),
                frames,
                objects,
            }],
        }],
    }
}

fn sub_object(type_is: &str, x: i64, y: i64, w: i64, h: i64) -> Object {
    Object {
        x,
        y,
        width: w,
        height: h,
        name: String::new(),
        type_is: type_is.to_string(),
        polygon: None,
        gid: None,
        properties: vec![],
    }
}

#[test]
fn tile_sub_objects_set_offset_shape_and_barrier() {
    let tables = tables_with_defs(
        vec![
            sub_object("origin_offset", 2, 3, 0, 0),
            sub_object("barrier", 1, 4, 8, 6),
        ],
        vec![Frame { tile_id: 1, duration_ms: 120 }],
    );
    let mut obj = plain_object("");
    obj.gid = Some(GlobalTileIndex::new(2)); // local id 1
    let mut world = World::new();
    let ent = assemble_object(&mut world, &tables, obj, 0).unwrap();
    let row = world.row(ent);
    assert_eq!(row.origin_offset, Some(V2 { x: 2, y: 3 }));
    assert!(matches!(row.shape, Some(Shape::Rect(Aabb { x0: 1, y0: 4, x1: 9, y1: 10 }))));
    assert!(row.barrier);
    let anim = row.animation.as_ref().expect("animation frames");
    assert_eq!(anim.len(), 1);
    assert_eq!(anim[0], Frame { tile_id: 1, duration_ms: 120 });
}

#[test]
fn unsupported_sub_object_is_fatal() {
    let tables = tables_with_defs(vec![sub_object("spikes", 0, 0, 4, 4)], vec![]);
    let mut obj = plain_object("");
    obj.gid = Some(GlobalTileIndex::new(2));
    let r = assemble_object(&mut World::new(), &tables, obj, 0);
    assert!(matches!(r, Err(AssembleError::UnsupportedSubObject(s)) if s == "spikes"));
}

#[test]
fn tile_layer_places_one_entity_per_nonempty_cell() {
    let tables = two_tilesets();
    let tl = TileLayer {
        width: 2,
        cells: vec![
            GlobalTileIndex::new(0),
            GlobalTileIndex::new(6),
            GlobalTileIndex::new(1),
        ],
    };
    let mut world = World::new();
    assemble_tile_layer(&mut world, &tables, &tl, 7).unwrap();
    assert_eq!(world.len(), 2);
    // cell index 1: column 1, row 0 of 16x16 cells
    let first = world.row(0);
    assert_eq!(first.position, Some(V2 { x: 16, y: 0 }));
    assert_eq!(first.rendering, Some(Aabb { x0: 8, y0: 0, x1: 16, y1: 8 }));
    assert_eq!(first.zlevel, Some(7));
    // cell index 2: column 0, row 1
    let second = world.row(1);
    assert_eq!(second.position, Some(V2 { x: 0, y: 16 }));
    assert_eq!(second.zlevel, Some(7));
}

#[test]
fn decompose_assigns_zlevels_by_traversal_order() {
    let mut barrier_obj = plain_object("barrier");
    barrier_obj.x = 0;
    barrier_obj.y = 16;
    let map = TiledMap {
        layers: vec![
            Layer::Group(vec![
                Layer::Tiles(TileLayer { width: 1, cells: vec![GlobalTileIndex::new(1)] }),
                Layer::Objects(vec![barrier_obj]),
            ]),
            Layer::Tiles(TileLayer { width: 1, cells: vec![GlobalTileIndex::new(2)] }),
        ],
        tables: two_tilesets(),
    };
    let mut world = World::new();
    decompose_map(&mut world, map).unwrap();
    assert_eq!(world.len(), 3);
    assert_eq!(world.row(0).zlevel, Some(0));
    assert_eq!(world.row(1).zlevel, Some(1));
    assert_eq!(world.row(2).zlevel, Some(2));
}

#[test]
fn map_is_ok_screens_maps_at_the_boundary() {
    let good = TiledMap {
        layers: vec![Layer::Objects(vec![plain_object("barrier")])],
        tables: two_tilesets(),
    };
    assert!(map_is_ok(&good));
    // a tileset without a column cannot register tile rectangles
    let mut bad_tables = two_tilesets();
    bad_tables.tilesets[0].columns = 0;
    let bad = TiledMap { layers: vec![], tables: bad_tables };
    assert!(!map_is_ok(&bad));
    // an object outside the coordinate budget is rejected too
    let mut far = plain_object("barrier");
    far.x = 1 << 50;
    let bad2 = TiledMap {
        layers: vec![Layer::Objects(vec![far])],
        tables: two_tilesets(),
    };
    assert!(!map_is_ok(&bad2));
}
