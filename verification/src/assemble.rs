//! Entity assembly: tile cells and map objects become entities with
//! components. Objects dispatch on their effective type (their own tag,
//! or the tag of the tile definition they reference); properties the
//! dispatch does not consume are kept as a leftover bag, unless the
//! whole object was kept verbatim as a raw component.

use vstd::prelude::*;
use vstd::string::StringExecFns;
use crate::geom::{Aabb, GlobalTileIndex, Shape, V2, GID_MASK};
use crate::layers::{flat_of_layer, flat_of_layers, lemma_flat_append, lemma_flat_singleton, flatten_layer_tree, skipped_of_layers, FlatLayer};
use crate::tiled::{
    Frame, Layer, MapTables, Object, Property, PropVal, TileDef, TileLayer, TiledMap, Tileset,
};
use crate::load::{find_load, LoadCell, LoadStatus, LoadTracker};
use crate::world::{Diagnostic, EntityRow, ItemData, World};

verus! {

/// A fatal configuration error: the authored map violates the engine's
/// supported vocabulary, and processing of the offending map halts.
#[derive(Debug)]
pub enum AssembleError {
    /// A character object has no string `control` property.
    MissingControl,
    /// A player-controlled character has no `player_index` property.
    MissingPlayerIndex,
    /// The `player_index` property is not a whole number a player slot
    /// can hold.
    PlayerIndexNotInteger,
    /// The `npc` control scheme is not implemented.
    NpcUnimplemented,
    /// A tile definition nests a sub-object of an unsupported type.
    UnsupportedSubObject(String),
}

/// Compare two strings by their characters.
pub fn str_eq(a: &str, b: &str) -> (r: bool)
    ensures
        r == (a@ == b@),
{
    let sa = String::from_str(a);
    let sb = String::from_str(b);
    sa == sb
}

/// Index of the first property at or after `i` with the given name.
pub open spec fn prop_index(props: Seq<Property>, name: Seq<char>, i: int) -> Option<int>
    decreases props.len() - i,
{
    if i < 0 || i >= props.len() {
        None
    } else if props[i].name@ == name {
        Some(i)
    } else {
        prop_index(props, name, i + 1)
    }
}

/// The value of the first property with the given name, if any.
pub open spec fn prop_of(props: Seq<Property>, name: Seq<char>) -> Option<PropVal> {
    match prop_index(props, name, 0) {
        Some(i) => Some(props[i].value),
        None => None,
    }
}

/// Look up a property by name.
pub fn find_prop<'a>(props: &'a Vec<Property>, name: &str) -> (r: Option<&'a PropVal>)
    ensures
        match r {
            Some(v) => prop_of(props@, name@) == Some(*v),
            None => prop_of(props@, name@) is None,
        },
{
    let mut i: usize = 0;
    while i < props.len()
        invariant
            i <= props@.len(),
            prop_index(props@, name@, 0) == prop_index(props@, name@, i as int),
        decreases props@.len() - i,
    {
        if str_eq(props[i].name.as_str(), name) {
            return Some(&props[i].value);
        }
        i = i + 1;
    }
    None
}

/// Copy a list of vertices.
fn copy_v2s(vs: &Vec<V2>) -> (r: Vec<V2>)
    ensures
        r@ == vs@,
{
    let mut out: Vec<V2> = Vec::new();
    let mut i: usize = 0;
    while i < vs.len()
        invariant
            i <= vs@.len(),
            out@ == vs@.take(i as int),
        decreases vs@.len() - i,
    {
        out.push(vs[i]);
        proof {
            assert(out@ =~= vs@.take(i + 1));
        }
        i = i + 1;
    }
    proof {
        assert(vs@.take(vs@.len() as int) =~= vs@);
    }
    out
}

/// Copy a list of animation frames.
fn copy_frames(fs: &Vec<Frame>) -> (r: Vec<Frame>)
    ensures
        r@ == fs@,
{
    let mut out: Vec<Frame> = Vec::new();
    let mut i: usize = 0;
    while i < fs.len()
        invariant
            i <= fs@.len(),
            out@ == fs@.take(i as int),
        decreases fs@.len() - i,
    {
        out.push(fs[i]);
        proof {
            assert(out@ =~= fs@.take(i + 1));
        }
        i = i + 1;
    }
    proof {
        assert(fs@.take(fs@.len() as int) =~= fs@);
    }
    out
}

/// Every sub-object of every tile definition has coordinates inside the
/// assembly budget: positions within `2^39`, non-negative sizes within
/// `2^39`.
pub open spec fn sub_objects_in_budget(tables: MapTables) -> bool {
    forall|t: int, d: int, s: int|
        0 <= t < tables.tilesets@.len() && 0 <= d < tables.tilesets@[t].tiles@.len() && 0 <= s
            < tables.tilesets@[t].tiles@[d].objects@.len() ==> object_coords_in_budget(
            #[trigger] tables.tilesets@[t].tiles@[d].objects@[s],
        )
}

/// An object's coordinates inside the assembly budget.
pub open spec fn object_coords_in_budget(obj: Object) -> bool {
    &&& -0x80_0000_0000 <= obj.x <= 0x80_0000_0000
    &&& -0x80_0000_0000 <= obj.y <= 0x80_0000_0000
    &&& 0 <= obj.width <= 0x80_0000_0000
    &&& 0 <= obj.height <= 0x80_0000_0000
    &&& forall|i: int|
        obj.polygon is Some && 0 <= i < obj.polygon->0@.len() ==> -0x80_0000_0000 <= (
        #[trigger] obj.polygon->0@[i]).x <= 0x80_0000_0000 && -0x80_0000_0000
            <= obj.polygon->0@[i].y <= 0x80_0000_0000
}

/// Fold a tile definition's sub-objects over an entity's origin offset,
/// shape and barrier mark: an `origin_offset` sub-object sets the
/// OriginOffset, a `barrier` sub-object derives a Shape from the
/// sub-object's bounding rectangle and marks the Barrier; any other
/// type is a fatal configuration error.
pub open spec fn apply_subs(
    subs: Seq<Object>,
    oo: Option<V2>,
    sh: Option<Aabb>,
    bar: bool,
) -> Result<(Option<V2>, Option<Aabb>, bool), AssembleError>
    decreases subs.len(),
{
    if subs.len() == 0 {
        Ok((oo, sh, bar))
    } else {
        let s = subs[0];
        if s.type_is@ == "origin_offset"@ {
            apply_subs(subs.drop_first(), Some(V2 { x: s.x, y: s.y }), sh, bar)
        } else if s.type_is@ == "barrier"@ {
            let rect = Aabb {
                x0: s.x,
                y0: s.y,
                x1: (s.x + s.width) as i64,
                y1: (s.y + s.height) as i64,
            };
            apply_subs(subs.drop_first(), oo, Some(rect), true)
        } else {
            Err(AssembleError::UnsupportedSubObject(s.type_is))
        }
    }
}

/// Run a tile definition's sub-objects over an entity.
fn apply_subs_exec(subs: &Vec<Object>) -> (r: Result<(Option<V2>, Option<Aabb>, bool),
    AssembleError>)
    requires
        forall|i: int| 0 <= i < subs@.len() ==> object_coords_in_budget(#[trigger] subs@[i]),
    ensures
        r == apply_subs(subs@, None, None, false),
{
    let mut oo: Option<V2> = None;
    let mut sh: Option<Aabb> = None;
    let mut bar: bool = false;
    let mut i: usize = 0;
    proof {
        assert(subs@.skip(0) =~= subs@);
    }
    while i < subs.len()
        invariant
            i <= subs@.len(),
            forall|j: int| 0 <= j < subs@.len() ==> object_coords_in_budget(#[trigger] subs@[j]),
            apply_subs(subs@, None, None, false) == apply_subs(
                subs@.skip(i as int),
                oo,
                sh,
                bar,
            ),
        decreases subs@.len() - i,
    {
        let s = &subs[i];
        proof {
            assert(subs@.skip(i as int)[0] == subs@[i as int]);
            assert(subs@.skip(i as int).drop_first() =~= subs@.skip(i + 1));
        }
        if str_eq(s.type_is.as_str(), "origin_offset") {
            oo = Some(V2 { x: s.x, y: s.y });
        } else if str_eq(s.type_is.as_str(), "barrier") {
            sh = Some(Aabb { x0: s.x, y0: s.y, x1: s.x + s.width, y1: s.y + s.height });
            bar = true;
        } else {
            return Err(AssembleError::UnsupportedSubObject(s.type_is.clone()));
        }
        i = i + 1;
    }
    proof {
        assert(subs@.skip(subs@.len() as int) =~= Seq::<Object>::empty());
    }
    Ok((oo, sh, bar))
}

/// The tile definition a global tile index resolves to: the owning
/// tileset's definition for the index's local tile id, if either exists.
pub open spec fn tile_def_spec(tables: MapTables, id: u32) -> Option<TileDef> {
    match tables.tileset_index_spec(id) {
        Some(t) => {
            let ts = tables.tilesets@[t];
            match ts.def_index_spec((id - ts.first_gid) as u32) {
                Some(d) => Some(ts.tiles@[d]),
                None => None,
            }
        },
        None => None,
    }
}

/// The tile id of an object's tile reference, if it has one.
pub open spec fn gid_id(gid: Option<GlobalTileIndex>) -> Option<u32> {
    match gid {
        Some(g) => Some(g.raw & GID_MASK),
        None => None,
    }
}

/// The Rendering a tile reference yields: the registered source
/// rectangle of the owning tileset, when one owns the id.
pub open spec fn rend_spec(tables: MapTables, gid: Option<GlobalTileIndex>) -> Option<Aabb> {
    match gid_id(gid) {
        Some(id) => tables.rect_of_spec(id),
        None => None,
    }
}

/// The Animation a tile id yields: its definition's frames, when any.
pub open spec fn anim_of_id(tables: MapTables, id: u32) -> Option<Seq<Frame>> {
    match tile_def_spec(tables, id) {
        Some(d) => if d.frames@.len() > 0 {
            Some(d.frames@)
        } else {
            None
        },
        None => None,
    }
}

/// The Animation a tile reference yields: the tile definition's frames,
/// when it has any.
pub open spec fn anim_spec(tables: MapTables, gid: Option<GlobalTileIndex>) -> Option<Seq<Frame>> {
    match gid_id(gid) {
        Some(id) => anim_of_id(tables, id),
        None => None,
    }
}

/// The outcome of running a tile id's sub-objects, starting from no
/// origin offset, no shape and no barrier.
pub open spec fn subs_of_id(tables: MapTables, id: u32) -> Result<
    (Option<V2>, Option<Aabb>, bool),
    AssembleError,
> {
    match tile_def_spec(tables, id) {
        Some(d) => apply_subs(d.objects@, None, None, false),
        None => Ok((None, None, false)),
    }
}

/// The outcome of running a tile reference's sub-objects.
pub open spec fn subs_spec(tables: MapTables, gid: Option<GlobalTileIndex>) -> Result<
    (Option<V2>, Option<Aabb>, bool),
    AssembleError,
> {
    match gid_id(gid) {
        Some(id) => subs_of_id(tables, id),
        None => Ok((None, None, false)),
    }
}

/// The type tag of a tile id's definition, when one exists.
pub open spec fn def_type_of_id(tables: MapTables, id: u32) -> Seq<char> {
    match tile_def_spec(tables, id) {
        Some(d) => d.type_is@,
        None => Seq::empty(),
    }
}

/// Resolve everything a tile id contributes to an entity: the tileset's
/// registered source rectangle, the tile definition's animation frames,
/// the outcome of its sub-objects, and its type tag.
fn resolve_tile(tables: &MapTables, id: u32) -> (r: Result<
    (Option<Aabb>, Option<Vec<Frame>>, (Option<V2>, Option<Aabb>, bool), Option<String>),
    AssembleError,
>)
    requires
        tables.wf(),
        sub_objects_in_budget(*tables),
    ensures
        match r {
            Ok(t) => {
                &&& t.0 == tables.rect_of_spec(id)
                &&& (match anim_of_id(*tables, id) {
                    Some(frames) => t.1 matches Some(fs) && fs@ == frames,
                    None => t.1 is None,
                })
                &&& subs_of_id(*tables, id) == Ok::<_, AssembleError>(t.2)
                &&& (match tile_def_spec(*tables, id) {
                    Some(d) => t.3 matches Some(ty) && ty@ == d.type_is@,
                    None => t.3 is None,
                })
            },
            Err(e) => subs_of_id(*tables, id) == Err::<(Option<V2>, Option<Aabb>, bool), _>(e),
        },
{
    let mut rendering: Option<Aabb> = None;
    let mut animation: Option<Vec<Frame>> = None;
    let mut subs: (Option<V2>, Option<Aabb>, bool) = (None, None, false);
    let mut deep_type: Option<String> = None;
    match tables.tileset_for(id) {
        Some(ts) => {
            proof {
                assert(tables.tilesets@[tables.tileset_index_spec(id)->0].wf());
            }
            rendering = Some(ts.rect_of(id));
            match ts.def_of(id - ts.first_gid) {
                Some(def) => {
                    proof {
                        let t0 = tables.tileset_index_spec(id)->0;
                        let d0 = ts.def_index_spec((id - ts.first_gid) as u32)->0;
                        assert(tile_def_spec(*tables, id) == Some(*def));
                        assert forall|i: int|
                            0 <= i < def.objects@.len() implies object_coords_in_budget(
                            #[trigger] def.objects@[i],
                        ) by {
                            assert(def.objects@[i]
                                == tables.tilesets@[t0].tiles@[d0].objects@[i]);
                        }
                    }
                    deep_type = Some(def.type_is.clone());
                    if def.frames.len() > 0 {
                        animation = Some(copy_frames(&def.frames));
                    }
                    match apply_subs_exec(&def.objects) {
                        Ok(t) => {
                            subs = t;
                        },
                        Err(e) => {
                            return Err(e);
                        },
                    }
                },
                None => {},
            }
        },
        None => {},
    }
    Ok((rendering, animation, subs, deep_type))
}

/// An object's effective type: its own tag, or — when that is empty —
/// the tag of the tile definition its tile reference resolves to (its
/// "deep type"); empty when neither names one.
pub open spec fn effective_type(tables: MapTables, obj: Object) -> Seq<char> {
    if obj.type_is@.len() > 0 {
        obj.type_is@
    } else {
        match gid_id(obj.gid) {
            Some(id) => match tile_def_spec(tables, id) {
                Some(d) => d.type_is@,
                None => Seq::empty(),
            },
            None => Seq::empty(),
        }
    }
}

/// The `control` scheme named by a character object's properties, when
/// it is a string.
pub open spec fn scheme_of(props: Seq<Property>) -> Option<String> {
    match prop_of(props, "control"@) {
        Some(PropVal::Str(s)) => Some(s),
        _ => None,
    }
}

/// The player slot a character's `player_index` property names, when it
/// is a whole number a slot can hold.
pub open spec fn player_index_of(props: Seq<Property>) -> Option<u32> {
    match prop_of(props, "player_index"@) {
        Some(PropVal::Int(v)) => if 0 <= v <= u32::MAX {
            Some(v as u32)
        } else {
            None
        },
        _ => None,
    }
}

/// Whether an object's effective type is one the dispatch recognizes.
pub open spec fn recognized(eff: Seq<char>) -> bool {
    ||| eff == "character"@
    ||| eff == "barrier"@
    ||| eff == "item"@
    ||| eff =~= Seq::<char>::empty()
}

/// The property names an object's dispatch consumes.
pub open spec fn consumed_names(tables: MapTables, obj: Object) -> Set<Seq<char>> {
    let eff = effective_type(tables, obj);
    if eff == "character"@ {
        match scheme_of(obj.properties@) {
            Some(s) => if s@ == "player"@ {
                set!["control"@, "player_index"@]
            } else {
                set!["control"@]
            },
            None => set!["control"@],
        }
    } else if eff == "item"@ {
        set!["stack"@, "usable"@]
    } else {
        Set::empty()
    }
}

/// The properties of `props` whose names are not consumed, in order.
pub open spec fn unconsumed(props: Seq<Property>, consumed: Set<Seq<char>>) -> Seq<Property>
    decreases props.len(),
{
    if props.len() == 0 {
        Seq::empty()
    } else {
        unconsumed(props.drop_last(), consumed) + if consumed.contains(props.last().name@) {
            Seq::empty()
        } else {
            seq![props.last()]
        }
    }
}

/// The fatal error assembling an object reports, if any: an unsupported
/// sub-object of its tile reference first, then the dispatch's own
/// errors. `None` exactly when assembly succeeds.
pub open spec fn object_error(tables: MapTables, obj: Object) -> Option<AssembleError> {
    match subs_spec(tables, obj.gid) {
        Err(e) => Some(e),
        Ok(_) => {
            let eff = effective_type(tables, obj);
            if eff == "character"@ {
                match scheme_of(obj.properties@) {
                    None => Some(AssembleError::MissingControl),
                    Some(s) => if s@ == "player"@ {
                        match prop_of(obj.properties@, "player_index"@) {
                            Some(PropVal::Int(v)) => if 0 <= v <= u32::MAX {
                                None
                            } else {
                                Some(AssembleError::PlayerIndexNotInteger)
                            },
                            Some(_) => Some(AssembleError::PlayerIndexNotInteger),
                            None => Some(AssembleError::MissingPlayerIndex),
                        }
                    } else if s@ == "npc"@ {
                        Some(AssembleError::NpcUnimplemented)
                    } else {
                        None
                    },
                }
            } else {
                None
            }
        },
    }
}

/// The diagnostics assembling an object emits: one record when a
/// character names a control scheme the engine does not know.
pub open spec fn object_diag(tables: MapTables, obj: Object) -> Seq<Diagnostic> {
    if effective_type(tables, obj) == "character"@ {
        match scheme_of(obj.properties@) {
            Some(s) => if s@ != "player"@ && s@ != "npc"@ {
                seq![Diagnostic::UnknownControlScheme(s)]
            } else {
                Seq::empty()
            },
            None => Seq::empty(),
        }
    } else {
        Seq::empty()
    }
}

/// What the entity assembled from an object looks like. Its Position is
/// the top-left-top corner of the object's bounds: the authored origin
/// is at top-left-x, bottom-y, so `position.x == object.x` and
/// `position.y == object.y - object.height`. Its Shape is the object's
/// geometry translated into entity-local coordinates, unless a barrier
/// sub-object of its tile reference replaced it.
pub open spec fn object_row_matches(tables: MapTables, obj: Object, z: i64, row: EntityRow) -> bool {
    let eff = effective_type(tables, obj);
    let subs = match subs_spec(tables, obj.gid) {
        Ok(t) => t,
        Err(_) => (None, None, false),
    };
    let is_raw = !recognized(eff);
    &&& row.alive
    &&& row.position == Some(V2 { x: obj.x, y: (obj.y - obj.height) as i64 })
    &&& row.zlevel == Some(z)
    &&& (if obj.name@.len() > 0 {
        row.name matches Some(n) && n@ == obj.name@
    } else {
        row.name is None
    })
    &&& (match subs.1 {
        Some(rect) => row.shape == Some(Shape::Rect(rect)),
        None => match obj.polygon {
            Some(vs) => row.shape matches Some(Shape::Polygon(ws)) && ws@ == vs@.map_values(
                |v: V2| V2 { x: v.x, y: (v.y + obj.height) as i64 },
            ),
            None => row.shape == Some(
                Shape::Rect(Aabb { x0: 0, y0: 0, x1: obj.width, y1: obj.height }),
            ),
        },
    })
    &&& row.barrier == (subs.2 || eff == "barrier"@)
    &&& row.origin_offset == subs.0
    &&& row.rendering == rend_spec(tables, obj.gid)
    &&& (match anim_spec(tables, obj.gid) {
        Some(frames) => row.animation matches Some(fs) && fs@ == frames,
        None => row.animation is None,
    })
    &&& (if eff == "character"@ {
        &&& row.velocity == Some(V2 { x: 0, y: 0 })
        &&& (match scheme_of(obj.properties@) {
            Some(s) => if s@ == "player"@ {
                row.player == player_index_of(obj.properties@)
            } else {
                row.player is None
            },
            None => row.player is None,
        })
        &&& row.item is None
    } else if eff == "item"@ {
        &&& row.velocity is None
        &&& row.player is None
        &&& row.item matches Some(it) && it.stack == (match prop_of(obj.properties@, "stack"@) {
            Some(PropVal::Int(v)) => Some(v),
            _ => None,
        }) && it.usable == (prop_of(obj.properties@, "usable"@) == Some(PropVal::Bool(true)))
    } else {
        &&& row.velocity is None
        &&& row.player is None
        &&& row.item is None
    })
    &&& (if is_raw {
        row.raw_object == Some(obj) && row.leftover is None
    } else {
        row.raw_object is None && {
            let un = unconsumed(obj.properties@, consumed_names(tables, obj));
            if un.len() > 0 {
                row.leftover matches Some(l) && l@ == un
            } else {
                row.leftover is None
            }
        }
    })
    &&& row.cardinal is None
    &&& !row.exile
    &&& row.map_request is None
}

/// Assemble one map object into an entity: Position at the top of the
/// object's bounds, Name when non-empty, Shape in entity-local
/// coordinates, Rendering/Animation and sub-objects from its tile
/// reference, then dispatch on the effective type; properties the
/// dispatch did not consume become a leftover bag, unless the object was
/// kept verbatim as a raw component (never both). A fatal configuration
/// error leaves the world untouched.
pub fn assemble_object(world: &mut World, tables: &MapTables, obj: Object, z: i64) -> (r: Result<
    usize,
    AssembleError,
>)
    requires
        old(world).wf(),
        tables.wf(),
        sub_objects_in_budget(*tables),
        object_coords_in_budget(obj),
    ensures
        match r {
            Ok(ent) => {
                &&& object_error(*tables, obj) is None
                &&& ent == old(world).rows@.len()
                &&& final(world).rows@.len() == old(world).rows@.len() + 1
                &&& forall|j: int|
                    0 <= j < old(world).rows@.len() ==> final(world).rows@[j] == old(
                        world,
                    ).rows@[j]
                &&& object_row_matches(*tables, obj, z, final(world).rows@.last())
                &&& final(world).position_events@ == old(world).position_events@.push(ent)
                &&& final(world).shape_events@ == old(world).shape_events@.push(ent)
                &&& final(world).diagnostics@ == old(world).diagnostics@ + object_diag(
                    *tables,
                    obj,
                )
            },
            Err(e) => {
                &&& object_error(*tables, obj) == Some(e)
                &&& *final(world) == *old(world)
            },
        },
        final(world).wf(),
{
    let ghost obj0 = obj;
    // resolve the tile reference: rendering, animation, sub-objects
    let id_opt: Option<u32> = match &obj.gid {
        Some(g) => Some(g.id()),
        None => None,
    };
    let mut rendering: Option<Aabb> = None;
    let mut animation: Option<Vec<Frame>> = None;
    let mut subs: (Option<V2>, Option<Aabb>, bool) = (None, None, false);
    let mut deep_type: Option<String> = None;
    match id_opt {
        Some(id) => {
            match resolve_tile(tables, id) {
                Ok(t) => {
                    rendering = t.0;
                    animation = t.1;
                    subs = t.2;
                    deep_type = t.3;
                },
                Err(e) => {
                    return Err(e);
                },
            }
        },
        None => {},
    }
    proof {
        assert(subs_spec(*tables, obj0.gid) == Ok::<_, AssembleError>(subs));
        assert(rendering == rend_spec(*tables, obj0.gid));
        match anim_spec(*tables, obj0.gid) {
            Some(frames) => {
                assert(animation matches Some(fs) && fs@ == frames);
            },
            None => {
                assert(animation is None);
            },
        }
    }
    // the effective type: the object's own tag, or its tile's
    let ghost eff = effective_type(*tables, obj0);
    let mut is_char = false;
    let mut is_barrier = false;
    let mut is_item = false;
    let mut is_empty = false;
    if obj.type_is.as_str().unicode_len() > 0 {
        is_char = str_eq(obj.type_is.as_str(), "character");
        is_barrier = str_eq(obj.type_is.as_str(), crate::physics::Barrier::tiled_type().as_str());
        is_item = str_eq(obj.type_is.as_str(), "item");
    } else {
        match &deep_type {
            Some(d) => {
                if d.as_str().unicode_len() > 0 {
                    is_char = str_eq(d.as_str(), "character");
                    is_barrier = str_eq(
                        d.as_str(),
                        crate::physics::Barrier::tiled_type().as_str(),
                    );
                    is_item = str_eq(d.as_str(), "item");
                } else {
                    is_empty = true;
                }
            },
            None => {
                is_empty = true;
            },
        }
    }
    proof {
        reveal_strlit("character");
        reveal_strlit("barrier");
        reveal_strlit("item");
        assert("character"@.len() == 9);
        assert("barrier"@.len() == 7);
        assert("item"@.len() == 4);
        assert(is_char == (eff == "character"@));
        assert(is_barrier == (eff == "barrier"@));
        assert(is_item == (eff == "item"@));
        assert(is_empty == (eff =~= Seq::<char>::empty()));
    }
    // dispatch on the effective type
    let mut velocity: Option<V2> = None;
    let mut player: Option<u32> = None;
    let mut item: Option<ItemData> = None;
    let mut scheme_is_player = false;
    if is_char {
        match find_prop(&obj.properties, "control") {
            Some(PropVal::Str(s)) => {
                if str_eq(s.as_str(), "player") {
                    scheme_is_player = true;
                    match find_prop(&obj.properties, "player_index") {
                        Some(PropVal::Int(v)) => {
                            let v = *v;
                            if 0 <= v && v <= u32::MAX as i64 {
                                player = Some(v as u32);
                            } else {
                                return Err(AssembleError::PlayerIndexNotInteger);
                            }
                        },
                        Some(_) => {
                            return Err(AssembleError::PlayerIndexNotInteger);
                        },
                        None => {
                            return Err(AssembleError::MissingPlayerIndex);
                        },
                    }
                } else if str_eq(s.as_str(), "npc") {
                    return Err(AssembleError::NpcUnimplemented);
                } else {
                    world.diagnostics.push(Diagnostic::UnknownControlScheme(s.clone()));
                }
                velocity = Some(V2::origin());
            },
            _ => {
                return Err(AssembleError::MissingControl);
            },
        }
    }
    if is_item {
        let stack: Option<i64> = match find_prop(&obj.properties, "stack") {
            Some(PropVal::Int(v)) => Some(*v),
            _ => None,
        };
        let usable: bool = match find_prop(&obj.properties, "usable") {
            Some(PropVal::Bool(b)) => *b,
            _ => false,
        };
        item = Some(ItemData { stack, usable });
    }
    proof {
        assert(object_error(*tables, obj0) is None);
    }
    // geometry: a barrier sub-object's rectangle wins, else the object's
    // own polygon or bounds, translated so Position is the shape origin
    let shape: Shape = match subs.1 {
        Some(rect) => Shape::Rect(rect),
        None => match &obj.polygon {
            Some(vs) => {
                let mut ws: Vec<V2> = Vec::new();
                let mut i: usize = 0;
                while i < vs.len()
                    invariant
                        i <= vs@.len(),
                        object_coords_in_budget(obj0),
                        obj0.polygon is Some,
                        vs@ == obj0.polygon->0@,
                        obj.height == obj0.height,
                        ws@.len() == i,
                        forall|j: int|
                            0 <= j < i ==> ws@[j] == (V2 {
                                x: vs@[j].x,
                                y: (vs@[j].y + obj0.height) as i64,
                            }),
                    decreases vs@.len() - i,
                {
                    proof {
                        assert(-0x80_0000_0000 <= obj0.polygon->0@[i as int].x <= 0x80_0000_0000
                            && -0x80_0000_0000 <= obj0.polygon->0@[i as int].y
                            <= 0x80_0000_0000);
                    }
                    ws.push(V2 { x: vs[i].x, y: vs[i].y + obj.height });
                    i = i + 1;
                }
                proof {
                    assert(ws@ =~= vs@.map_values(
                        |v: V2| V2 { x: v.x, y: (v.y + obj0.height) as i64 },
                    ));
                }
                Shape::Polygon(ws)
            },
            None => Shape::Rect(Aabb { x0: 0, y0: 0, x1: obj.width, y1: obj.height }),
        },
    };
    // put the row together and spawn it
    let mut row = EntityRow::empty();
    row.position = Some(V2 { x: obj.x, y: obj.y - obj.height });
    row.zlevel = Some(z);
    row.shape = Some(shape);
    row.barrier = subs.2 || is_barrier;
    row.origin_offset = subs.0;
    row.rendering = rendering;
    row.animation = animation;
    row.velocity = velocity;
    row.player = player;
    row.item = item;
    let is_raw = !(is_char || is_barrier || is_item || is_empty);
    if is_raw {
        if obj.name.as_str().unicode_len() > 0 {
            row.name = Some(obj.name.clone());
        }
        row.raw_object = Some(obj);
    } else {
        let name_nonempty = obj.name.as_str().unicode_len() > 0;
        let nm = obj.name;
        let mut props = obj.properties;
        if name_nonempty {
            row.name = Some(nm);
        }
        let ghost props0 = props@;
        let ghost cons = consumed_names(*tables, obj0);
        let mut left: Vec<Property> = Vec::new();
        let ghost mut k: int = 0;
        while props.len() > 0
            invariant
                0 <= k <= props0.len(),
                props@ =~= props0.skip(k),
                left@ == unconsumed(props0.take(k), cons),
                cons == consumed_names(*tables, obj0),
                is_char == (effective_type(*tables, obj0) == "character"@),
                is_item == (effective_type(*tables, obj0) == "item"@),
                is_char ==> (scheme_is_player == (scheme_of(obj0.properties@) matches Some(s)
                    && s@ == "player"@)),
            decreases props@.len(),
        {
            let p = props.remove(0);
            proof {
                assert(p == props0[k]);
                assert(props@ =~= props0.skip(k + 1));
            }
            let skip = if is_char {
                str_eq(p.name.as_str(), "control") || (scheme_is_player && str_eq(
                    p.name.as_str(),
                    "player_index",
                ))
            } else if is_item {
                str_eq(p.name.as_str(), "stack") || str_eq(p.name.as_str(), "usable")
            } else {
                false
            };
            proof {
                assert(skip == cons.contains(p.name@));
                assert(props0.take(k + 1).drop_last() =~= props0.take(k));
                assert(props0.take(k + 1).last() == props0[k]);
            }
            if !skip {
                let ghost prev = left@;
                left.push(p);
                proof {
                    assert(left@ =~= prev + seq![props0[k]]);
                    assert(left@ =~= unconsumed(props0.take(k + 1), cons));
                }
            } else {
                proof {
                    assert(left@ =~= unconsumed(props0.take(k + 1), cons));
                }
            }
            proof {
                k = k + 1;
            }
        }
        proof {
            assert(props0.take(k) =~= props0);
            assert(left@ == unconsumed(obj0.properties@, cons));
        }
        if left.len() > 0 {
            row.leftover = Some(left);
        }
    }
    let ent = world.spawn(row);
    proof {
        assert(world.rows@.last() == row);
        assert(object_row_matches(*tables, obj0, z, row));
    }
    Ok(ent)
}

/// How many of the first `n` cells hold a tile.
pub open spec fn nonempty_count(cells: Seq<GlobalTileIndex>, n: int) -> nat
    decreases n,
{
    if n <= 0 {
        0
    } else {
        nonempty_count(cells, n - 1) + if cells[n - 1].raw & GID_MASK != 0 {
            1nat
        } else {
            0nat
        }
    }
}

/// The fatal error a cell reports: an unsupported sub-object of its
/// tile's definition.
pub open spec fn cell_error(tables: MapTables, cell: GlobalTileIndex) -> Option<AssembleError> {
    if cell.raw & GID_MASK == 0 {
        None
    } else {
        match subs_of_id(tables, cell.raw & GID_MASK) {
            Ok(_) => None,
            Err(e) => Some(e),
        }
    }
}

/// The first of the first `n` cells that reports an error, if any.
pub open spec fn first_bad_cell(tables: MapTables, cells: Seq<GlobalTileIndex>, n: int) -> Option<
    int,
>
    decreases n,
{
    if n <= 0 {
        None
    } else {
        match first_bad_cell(tables, cells, n - 1) {
            Some(i) => Some(i),
            None => if cell_error(tables, cells[n - 1]) is Some {
                Some(n - 1)
            } else {
                None
            },
        }
    }
}

/// What the entity assembled from tile cell `idx` looks like: placed at
/// the cell's column and row scaled by the map's tile dimensions, its
/// Rendering the registered source rectangle of the tileset owning the
/// cell's tile id, and its origin offset, shape and barrier drawn from
/// the tile definition's sub-objects.
pub open spec fn cell_row_matches(
    tables: MapTables,
    tl: TileLayer,
    z: i64,
    idx: int,
    row: EntityRow,
) -> bool {
    let g = tl.cells@[idx];
    let id = g.raw & GID_MASK;
    let col = idx % (tl.width as int);
    let rowi = idx / (tl.width as int);
    let subs = match subs_of_id(tables, id) {
        Ok(t) => t,
        Err(_) => (None, None, false),
    };
    &&& row.alive
    &&& row.position == Some(
        V2 { x: (col * tables.tile_width) as i64, y: (rowi * tables.tile_height) as i64 },
    )
    &&& row.zlevel == Some(z)
    &&& row.rendering == tables.rect_of_spec(id)
    &&& (match anim_of_id(tables, id) {
        Some(frames) => row.animation matches Some(fs) && fs@ == frames,
        None => row.animation is None,
    })
    &&& (match subs.1 {
        Some(rect) => row.shape == Some(Shape::Rect(rect)),
        None => row.shape is None,
    })
    &&& row.barrier == subs.2
    &&& row.origin_offset == subs.0
    &&& row.velocity is None
    &&& row.name is None
    &&& row.player is None
    &&& row.item is None
    &&& row.raw_object is None
    &&& row.leftover is None
    &&& row.cardinal is None
    &&& !row.exile
    &&& row.map_request is None
}

/// The ids of the rows with a Shape among `n` rows starting at `base`,
/// ascending.
pub open spec fn shape_ids(rows: Seq<EntityRow>, base: int, n: int) -> Seq<usize>
    decreases n,
{
    if n <= 0 {
        Seq::empty()
    } else {
        shape_ids(rows, base, n - 1) + if rows[base + n - 1].shape is Some {
            seq![(base + n - 1) as usize]
        } else {
            Seq::empty()
        }
    }
}

/// `shape_ids` reads only the rows it ranges over.
proof fn lemma_shape_ids_stable(rows1: Seq<EntityRow>, rows2: Seq<EntityRow>, base: int, n: int)
    requires
        0 <= base,
        0 <= n,
        base + n <= rows1.len(),
        base + n <= rows2.len(),
        rows1.subrange(base, base + n) == rows2.subrange(base, base + n),
    ensures
        shape_ids(rows1, base, n) == shape_ids(rows2, base, n),
    decreases n,
{
    if n > 0 {
        assert(rows1.subrange(base, base + n - 1) =~= rows2.subrange(base, base + n - 1)) by {
            assert forall|k: int| 0 <= k < n - 1 implies #[trigger] rows1.subrange(
                base,
                base + n - 1,
            )[k] == rows2.subrange(base, base + n - 1)[k] by {
                assert(rows1.subrange(base, base + n)[k] == rows2.subrange(base, base + n)[k]);
            }
        }
        lemma_shape_ids_stable(rows1, rows2, base, n - 1);
        assert(rows1.subrange(base, base + n)[n - 1] == rows2.subrange(base, base + n)[n - 1]);
        assert(rows1.subrange(base, base + n)[n - 1] == rows1[base + n - 1]);
        assert(rows2.subrange(base, base + n)[n - 1] == rows2[base + n - 1]);
        assert(rows1[base + n - 1] == rows2[base + n - 1]);
        assert(shape_ids(rows1, base, n) =~= shape_ids(rows2, base, n));
    }
}

/// Assemble one flattened tile layer: every cell holding a tile yields
/// exactly one entity at the cell's position; empty cells yield none. A
/// fatal error stops at the offending cell, keeping the entities of the
/// cells before it.
#[verifier::rlimit(80)]
pub fn assemble_tile_layer(world: &mut World, tables: &MapTables, tl: &TileLayer, z: i64) -> (r:
    Result<(), AssembleError>)
    requires
        old(world).wf(),
        tables.wf(),
        sub_objects_in_budget(*tables),
        tl.wf(),
        tl.cells@.len() <= 0x10_0000,
    ensures
        ({
            let cells = tl.cells@;
            let n = cells.len() as int;
            let processed = match first_bad_cell(*tables, cells, n) {
                Some(i) => i,
                None => n,
            };
            let added = nonempty_count(cells, processed) as int;
            let base = old(world).rows@.len() as int;
            &&& final(world).rows@.len() == base + added
            &&& (forall|j: int|
                0 <= j < base ==> final(world).rows@[j] == old(world).rows@[j])
            &&& (forall|idx: int|
                0 <= idx < processed && (#[trigger] cells[idx]).raw & GID_MASK != 0
                    ==> cell_row_matches(
                    *tables,
                    *tl,
                    z,
                    idx,
                    final(world).rows@[base + nonempty_count(cells, idx)],
                ))
            &&& final(world).position_events@ == old(world).position_events@ + Seq::new(
                added as nat,
                |i: int| (base + i) as usize,
            )
            &&& final(world).shape_events@ == old(world).shape_events@ + shape_ids(
                final(world).rows@,
                base,
                added,
            )
            &&& final(world).diagnostics@ == old(world).diagnostics@
            &&& (forall|j: int|
                base <= j < final(world).rows@.len()
                    ==> (#[trigger] final(world).rows@[j]).zlevel == Some(z))
            &&& (match r {
                Ok(()) => first_bad_cell(*tables, cells, n) is None,
                Err(e) => first_bad_cell(*tables, cells, n) matches Some(i) && cell_error(
                    *tables,
                    cells[i],
                ) == Some(e),
            })
        }),
        final(world).wf(),
{
    let ghost cells = tl.cells@;
    let ghost base = old(world).rows@.len() as int;
    let mut idx: usize = 0;
    while idx < tl.cells.len()
        invariant
            world.wf(),
            tables.wf(),
            sub_objects_in_budget(*tables),
            tl.wf(),
            cells == tl.cells@,
            cells.len() <= 0x10_0000,
            idx <= cells.len(),
            base == old(world).rows@.len() as int,
            nonempty_count(cells, idx as int) <= idx,
            first_bad_cell(*tables, cells, idx as int) is None,
            forall|j: int|
                base <= j < world.rows@.len() ==> (#[trigger] world.rows@[j]).zlevel == Some(z),
            world.rows@.len() == base + nonempty_count(cells, idx as int),
            forall|j: int| 0 <= j < base ==> world.rows@[j] == old(world).rows@[j],
            forall|i2: int|
                0 <= i2 < idx && (#[trigger] cells[i2]).raw & GID_MASK != 0
                    ==> cell_row_matches(
                    *tables,
                    *tl,
                    z,
                    i2,
                    world.rows@[base + nonempty_count(cells, i2)],
                ),
            world.position_events@ == old(world).position_events@ + Seq::new(
                nonempty_count(cells, idx as int),
                |i: int| (base + i) as usize,
            ),
            world.shape_events@ == old(world).shape_events@ + shape_ids(
                world.rows@,
                base,
                nonempty_count(cells, idx as int) as int,
            ),
            world.diagnostics@ == old(world).diagnostics@,
        decreases cells.len() - idx,
    {
        let g = tl.cells[idx];
        let ghost count = nonempty_count(cells, idx as int);
        if !g.is_empty() {
            let id = g.id();
            let t = match resolve_tile(tables, id) {
                Ok(t) => t,
                Err(e) => {
                    proof {
                        assert(cell_error(*tables, cells[idx as int]) == Some(e));
                        assert(first_bad_cell(*tables, cells, idx + 1) == Some(idx as int));
                        assert(first_bad_cell(*tables, cells, cells.len() as int) == Some(
                            idx as int,
                        )) by {
                            lemma_first_bad_extends(*tables, cells, idx + 1, cells.len() as int);
                        }
                    }
                    return Err(e);
                },
            };
            let col = (idx % tl.width) as i64;
            let rowi = (idx / tl.width) as i64;
            proof {
                assert((idx as int) % (tl.width as int) <= idx as int) by (nonlinear_arith)
                    requires
                        tl.width as int >= 1,
                        idx as int >= 0,
                ;
                assert((idx as int) / (tl.width as int) <= idx as int) by (nonlinear_arith)
                    requires
                        tl.width as int >= 1,
                        idx as int >= 0,
                ;
                assert(col * tables.tile_width >= 0) by (nonlinear_arith)
                    requires
                        col >= 0,
                        tables.tile_width > 0,
                ;
                assert(col * tables.tile_width <= 0x10_0000 * 0x10000) by (nonlinear_arith)
                    requires
                        0 <= col <= 0x10_0000,
                        0 < tables.tile_width <= 0x10000,
                ;
                assert(rowi * tables.tile_height >= 0) by (nonlinear_arith)
                    requires
                        rowi >= 0,
                        tables.tile_height > 0,
                ;
                assert(rowi * tables.tile_height <= 0x10_0000 * 0x10000) by (nonlinear_arith)
                    requires
                        0 <= rowi <= 0x10_0000,
                        0 < tables.tile_height <= 0x10000,
                ;
            }
            let mut row = EntityRow::empty();
            row.position = Some(V2 { x: col * tables.tile_width, y: rowi * tables.tile_height });
            row.zlevel = Some(z);
            row.rendering = t.0;
            row.animation = t.1;
            row.shape = match t.2.1 {
                Some(rect) => Some(Shape::Rect(rect)),
                None => None,
            };
            row.barrier = t.2.2;
            row.origin_offset = t.2.0;
            let ghost rows_before = world.rows@;
            let ent = world.spawn(row);
            proof {
                assert(cell_row_matches(*tables, *tl, z, idx as int, row));
                assert(nonempty_count(cells, idx + 1) == count + 1);
                assert(world.rows@[base + count] == row);
                assert forall|i2: int|
                    0 <= i2 < idx + 1 && (#[trigger] cells[i2]).raw & GID_MASK != 0
                        implies cell_row_matches(
                    *tables,
                    *tl,
                    z,
                    i2,
                    world.rows@[base + nonempty_count(cells, i2)],
                ) by {
                    if i2 < idx as int {
                        lemma_nonempty_count_mono(cells, i2, idx as int);
                        assert(world.rows@[base + nonempty_count(cells, i2)]
                            == rows_before[base + nonempty_count(cells, i2)]);
                    }
                }
                assert(world.position_events@ =~= old(world).position_events@ + Seq::new(
                    (count + 1) as nat,
                    |i: int| (base + i) as usize,
                ));
                assert(rows_before.subrange(base, base + count) =~= world.rows@.subrange(
                    base,
                    base + count,
                ));
                lemma_shape_ids_stable(rows_before, world.rows@, base, count as int);
                assert(world.shape_events@ =~= old(world).shape_events@ + shape_ids(
                    world.rows@,
                    base,
                    count as int + 1,
                ));
            }
        } else {
            proof {
                assert(nonempty_count(cells, idx + 1) == count);
                assert(first_bad_cell(*tables, cells, idx + 1) is None);
            }
        }
        idx = idx + 1;
    }
    Ok(())
}

/// A clean prefix stays clean only up to the first bad cell: once a
/// prefix has a bad cell, longer prefixes report the same one.
proof fn lemma_first_bad_extends(
    tables: MapTables,
    cells: Seq<GlobalTileIndex>,
    n1: int,
    n2: int,
)
    requires
        0 < n1 <= n2,
        first_bad_cell(tables, cells, n1) is Some,
    ensures
        first_bad_cell(tables, cells, n2) == first_bad_cell(tables, cells, n1),
    decreases n2,
{
    if n1 < n2 {
        lemma_first_bad_extends(tables, cells, n1, n2 - 1);
    }
}

/// Counting nonempty cells is monotone, and a cell before `n` counts
/// strictly below the count at `n`.
proof fn lemma_nonempty_count_mono(cells: Seq<GlobalTileIndex>, i: int, n: int)
    requires
        0 <= i < n,
    ensures
        nonempty_count(cells, n) >= nonempty_count(cells, i + 1),
        cells[i].raw & GID_MASK != 0 ==> nonempty_count(cells, i) < nonempty_count(cells, n),
    decreases n,
{
    if i + 1 < n {
        lemma_nonempty_count_mono(cells, i, n - 1);
    }
}

/// A sequence is a prefix of itself.
proof fn lemma_prefix_refl<T>(a: Seq<T>)
    ensures
        a.is_prefix_of(a),
{
    assert(a =~= a.subrange(0, a.len() as int));
}

/// A prefix of a prefix: dropping the right part keeps the left a prefix.
proof fn lemma_prefix_drop_right<T>(a: Seq<T>, b: Seq<T>, c: Seq<T>)
    requires
        (a + b).is_prefix_of(c),
    ensures
        a.is_prefix_of(c),
{
    assert forall|i: int| 0 <= i < a.len() implies a[i] == c.subrange(0, a.len() as int)[i] by {
        assert((a + b)[i] == c.subrange(0, (a + b).len() as int)[i]);
        assert(c.subrange(0, (a + b).len() as int)[i] == c[i]);
        assert(c.subrange(0, a.len() as int)[i] == c[i]);
    }
    assert(a =~= c.subrange(0, a.len() as int));
}

/// A prefix of a sequence is a prefix of any extension of it.
proof fn lemma_prefix_extends<T>(a: Seq<T>, b: Seq<T>, c: Seq<T>)
    requires
        a.is_prefix_of(b),
    ensures
        a.is_prefix_of(b + c),
{
    assert forall|i: int| 0 <= i < a.len() implies a[i] == (b + c).subrange(0, a.len() as int)[i]
        by {
        assert(a[i] == b.subrange(0, a.len() as int)[i]);
    }
    assert(a =~= (b + c).subrange(0, a.len() as int));
}

/// Every object of a list inside the assembly budget.
pub open spec fn objects_in_budget(os: Seq<Object>) -> bool {
    forall|i: int| 0 <= i < os.len() ==> object_coords_in_budget(#[trigger] os[i])
}

/// One flattened element's data inside the assembly budgets.
pub open spec fn flat_elem_ok(e: FlatLayer) -> bool {
    match e {
        FlatLayer::Tiles(tl) => tl.wf() && tl.cells@.len() <= 0x10_0000,
        FlatLayer::Objects(os) => objects_in_budget(os@),
    }
}

/// A decoded map ingestion can take: well-formed tables, sub-objects
/// and layer data inside the assembly budgets, and a bounded number of
/// flattened elements.
/// The first of the first `n` objects that reports a fatal error.
pub open spec fn first_bad_object(tables: MapTables, os: Seq<Object>, n: int) -> Option<int>
    decreases n,
{
    if n <= 0 {
        None
    } else {
        match first_bad_object(tables, os, n - 1) {
            Some(i) => Some(i),
            None => if object_error(tables, os[n - 1]) is Some {
                Some(n - 1)
            } else {
                None
            },
        }
    }
}

/// The fatal error one flattened element reports, if any: its first bad
/// cell's, or its first bad object's.
pub open spec fn elem_error(tables: MapTables, e: FlatLayer) -> Option<AssembleError> {
    match e {
        FlatLayer::Tiles(tl) => match first_bad_cell(tables, tl.cells@, tl.cells@.len() as int) {
            Some(i) => cell_error(tables, tl.cells@[i]),
            None => None,
        },
        FlatLayer::Objects(os) => match first_bad_object(tables, os@, os@.len() as int) {
            Some(i) => object_error(tables, os@[i]),
            None => None,
        },
    }
}

/// The first of the first `n` flattened elements that reports an error.
pub open spec fn first_bad_elem(tables: MapTables, flat: Seq<FlatLayer>, n: int) -> Option<int>
    decreases n,
{
    if n <= 0 {
        None
    } else {
        match first_bad_elem(tables, flat, n - 1) {
            Some(i) => Some(i),
            None => if elem_error(tables, flat[n - 1]) is Some {
                Some(n - 1)
            } else {
                None
            },
        }
    }
}

/// How many entities one flattened element yields: one per non-empty
/// cell, or one per object.
pub open spec fn elem_count(e: FlatLayer) -> nat {
    match e {
        FlatLayer::Tiles(tl) => nonempty_count(tl.cells@, tl.cells@.len() as int),
        FlatLayer::Objects(os) => os@.len(),
    }
}

/// How many entities the first `k` flattened elements yield together.
pub open spec fn flat_count(flat: Seq<FlatLayer>, k: int) -> nat
    decreases k,
{
    if k <= 0 {
        0
    } else {
        flat_count(flat, k - 1) + elem_count(flat[k - 1])
    }
}

/// What the contiguous row segment assembled from one flattened element
/// looks like: exactly one row per non-empty cell or per object, each
/// matching its cell's or object's assembly at ZLevel `z`.
pub open spec fn elem_rows_match(
    tables: MapTables,
    e: FlatLayer,
    z: i64,
    seg: Seq<EntityRow>,
) -> bool {
    match e {
        FlatLayer::Tiles(tl) => {
            &&& seg.len() == nonempty_count(tl.cells@, tl.cells@.len() as int)
            &&& forall|idx: int|
                0 <= idx < tl.cells@.len() && (#[trigger] tl.cells@[idx]).raw & GID_MASK != 0
                    ==> cell_row_matches(
                    tables,
                    tl,
                    z,
                    idx,
                    seg[nonempty_count(tl.cells@, idx) as int],
                )
        },
        FlatLayer::Objects(os) => {
            &&& seg.len() == os@.len()
            &&& forall|j: int|
                0 <= j < os@.len() ==> object_row_matches(tables, #[trigger] os@[j], z, seg[j])
        },
    }
}

/// A found first bad object stays the first over longer prefixes.
proof fn lemma_first_bad_object_extends(tables: MapTables, os: Seq<Object>, n1: int, n2: int)
    requires
        0 < n1 <= n2,
        first_bad_object(tables, os, n1) is Some,
    ensures
        first_bad_object(tables, os, n2) == first_bad_object(tables, os, n1),
    decreases n2,
{
    if n1 < n2 {
        lemma_first_bad_object_extends(tables, os, n1, n2 - 1);
    }
}

/// A found first bad element stays the first over longer prefixes.
proof fn lemma_first_bad_elem_extends(tables: MapTables, flat: Seq<FlatLayer>, n1: int, n2: int)
    requires
        0 < n1 <= n2,
        first_bad_elem(tables, flat, n1) is Some,
    ensures
        first_bad_elem(tables, flat, n2) == first_bad_elem(tables, flat, n1),
    decreases n2,
{
    if n1 < n2 {
        lemma_first_bad_elem_extends(tables, flat, n1, n2 - 1);
    }
}

/// Entity counts over flattened prefixes grow monotonically.
proof fn lemma_flat_count_mono(flat: Seq<FlatLayer>, a: int, b: int)
    requires
        a <= b,
    ensures
        flat_count(flat, a) <= flat_count(flat, b),
    decreases b - a,
{
    if a < b {
        lemma_flat_count_mono(flat, a, b - 1);
    }
}

pub open spec fn map_ok(m: TiledMap) -> bool {
    &&& m.tables.wf()
    &&& sub_objects_in_budget(m.tables)
    &&& forall|k: int|
        0 <= k < flat_of_layers(m.layers@).len() ==> flat_elem_ok(
            #[trigger] flat_of_layers(m.layers@)[k],
        )
    &&& flat_of_layers(m.layers@).len() <= 0x1000_0000
}

/// Element segments already assembled are untouched by later writes
/// past them: their matches carry over to the extended row list.
proof fn lemma_segments_stable(
    tables: MapTables,
    flat0: Seq<FlatLayer>,
    z: int,
    base0: int,
    rows1: Seq<EntityRow>,
    rows2: Seq<EntityRow>,
)
    requires
        0 <= z <= flat0.len(),
        0 <= base0,
        base0 + flat_count(flat0, z) <= rows1.len(),
        base0 + flat_count(flat0, z) <= rows2.len(),
        forall|j: int|
            0 <= j < base0 + flat_count(flat0, z) ==> (#[trigger] rows2[j]) == rows1[j],
        forall|k2: int|
            0 <= k2 < z ==> elem_rows_match(
                tables,
                #[trigger] flat0[k2],
                k2 as i64,
                rows1.subrange(
                    base0 + flat_count(flat0, k2),
                    base0 + flat_count(flat0, k2 + 1),
                ),
            ),
    ensures
        forall|k2: int|
            0 <= k2 < z ==> elem_rows_match(
                tables,
                #[trigger] flat0[k2],
                k2 as i64,
                rows2.subrange(
                    base0 + flat_count(flat0, k2),
                    base0 + flat_count(flat0, k2 + 1),
                ),
            ),
{
    assert forall|k2: int| 0 <= k2 < z implies elem_rows_match(
        tables,
        #[trigger] flat0[k2],
        k2 as i64,
        rows2.subrange(base0 + flat_count(flat0, k2), base0 + flat_count(flat0, k2 + 1)),
    ) by {
        lemma_flat_count_mono(flat0, k2 + 1, z);
        let b1 = base0 + flat_count(flat0, k2);
        let b2 = base0 + flat_count(flat0, k2 + 1);
        assert forall|jj: int| 0 <= jj < b2 - b1 implies #[trigger] rows2.subrange(b1, b2)[jj]
            == rows1.subrange(b1, b2)[jj] by {
            assert(rows2[b1 + jj] == rows1[b1 + jj]);
        }
        assert(rows2.subrange(b1, b2) =~= rows1.subrange(b1, b2));
    }
}

/// Decompose a whole decoded map into the world: flatten the layer
/// tree, record one diagnostic per skipped unsupported layer, then
/// assemble each flattened element in order, its traversal index
/// becoming the ZLevel of every entity it yields. A fatal configuration
/// error stops at the offending cell or object; everything assembled
/// before it stays.
/// Assemble one flattened element at ZLevel `z`: one entity per
/// non-empty cell or per object, appended in order; a fatal error stops
/// at the offending cell or object.
#[verifier::rlimit(100)]
fn assemble_elem(world: &mut World, tables: &MapTables, el: FlatLayer, z: i64) -> (r: Result<
    (),
    AssembleError,
>)
    requires
        old(world).wf(),
        tables.wf(),
        sub_objects_in_budget(*tables),
        flat_elem_ok(el),
    ensures
        final(world).wf(),
        final(world).rows@.len() >= old(world).rows@.len(),
        forall|j: int|
            0 <= j < old(world).rows@.len() ==> final(world).rows@[j] == old(world).rows@[j],
        forall|j: int|
            old(world).rows@.len() <= j < final(world).rows@.len()
                ==> (#[trigger] final(world).rows@[j]).zlevel == Some(z),
        old(world).position_events@.is_prefix_of(final(world).position_events@),
        old(world).shape_events@.is_prefix_of(final(world).shape_events@),
        old(world).diagnostics@.is_prefix_of(final(world).diagnostics@),
        (r is Ok <==> elem_error(*tables, el) is None),
        (r matches Err(e) ==> elem_error(*tables, el) == Some(e)),
        (r is Ok ==> final(world).rows@.len() == old(world).rows@.len() + elem_count(el)
            && elem_rows_match(
            *tables,
            el,
            z,
            final(world).rows@.subrange(
                old(world).rows@.len() as int,
                final(world).rows@.len() as int,
            ),
        )),
{
    proof {
        lemma_prefix_refl(old(world).position_events@);
        lemma_prefix_refl(old(world).shape_events@);
        lemma_prefix_refl(old(world).diagnostics@);
    }
    match el {
        FlatLayer::Tiles(tl) => {
            let res = assemble_tile_layer(world, tables, &tl, z);
            proof {
                lemma_prefix_refl(old(world).position_events@);
                lemma_prefix_extends(
                    old(world).position_events@,
                    old(world).position_events@,
                    world.position_events@.skip(old(world).position_events@.len() as int),
                );
                assert(old(world).position_events@ + world.position_events@.skip(
                    old(world).position_events@.len() as int,
                ) =~= world.position_events@);
                lemma_prefix_refl(old(world).shape_events@);
                lemma_prefix_extends(
                    old(world).shape_events@,
                    old(world).shape_events@,
                    world.shape_events@.skip(old(world).shape_events@.len() as int),
                );
                assert(old(world).shape_events@ + world.shape_events@.skip(
                    old(world).shape_events@.len() as int,
                ) =~= world.shape_events@);
                lemma_prefix_refl(world.diagnostics@);
            }
            match res {
                Ok(()) => {
                    proof {
                        let base = old(world).rows@.len() as int;
                        let seg = world.rows@.subrange(base, world.rows@.len() as int);
                        assert forall|idx: int|
                            0 <= idx < tl.cells@.len() && (#[trigger] tl.cells@[idx]).raw
                                & GID_MASK != 0 implies cell_row_matches(
                            *tables,
                            tl,
                            z,
                            idx,
                            seg[nonempty_count(tl.cells@, idx) as int],
                        ) by {
                            lemma_nonempty_count_mono(tl.cells@, idx, tl.cells@.len() as int);
                            assert(seg[nonempty_count(tl.cells@, idx) as int]
                                == world.rows@[base + nonempty_count(tl.cells@, idx) as int]);
                        }
                        assert(elem_rows_match(*tables, el, z, seg));
                    }
                    Ok(())
                },
                Err(e) => Err(e),
            }
        },
        FlatLayer::Objects(objs) => {
            let mut objs = objs;
            let ghost os0 = objs@;
            let ghost base = old(world).rows@.len() as int;
            let ghost mut oi: int = 0;
            while objs.len() > 0
                invariant
                    0 <= oi <= os0.len(),
                    objs@ =~= os0.skip(oi),
                    (el matches FlatLayer::Objects(osv) && osv@ == os0),
                    forall|i: int|
                        0 <= i < os0.len() ==> object_coords_in_budget(#[trigger] os0[i]),
                    tables.wf(),
                    sub_objects_in_budget(*tables),
                    base == old(world).rows@.len() as int,
                    world.wf(),
                    world.rows@.len() == base + oi,
                    first_bad_object(*tables, os0, oi) is None,
                    forall|j2: int|
                        0 <= j2 < oi ==> object_row_matches(
                            *tables,
                            #[trigger] os0[j2],
                            z,
                            world.rows@[base + j2],
                        ),
                    forall|j: int|
                        0 <= j < old(world).rows@.len() ==> world.rows@[j] == old(
                            world,
                        ).rows@[j],
                    forall|j: int|
                        old(world).rows@.len() <= j < world.rows@.len() ==> (
                        #[trigger] world.rows@[j]).zlevel == Some(z),
                    old(world).position_events@.is_prefix_of(world.position_events@),
                    old(world).shape_events@.is_prefix_of(world.shape_events@),
                    old(world).diagnostics@.is_prefix_of(world.diagnostics@),
                decreases objs@.len(),
            {
                let o = objs.remove(0);
                proof {
                    assert(o == os0[oi]);
                    assert(objs@ =~= os0.skip(oi + 1));
                }
                let ghost before = *world;
                let res = assemble_object(world, tables, o, z);
                proof {
                    lemma_prefix_extends(
                        old(world).position_events@,
                        before.position_events@,
                        world.position_events@.skip(before.position_events@.len() as int),
                    );
                    assert(before.position_events@ + world.position_events@.skip(
                        before.position_events@.len() as int,
                    ) =~= world.position_events@);
                    lemma_prefix_extends(
                        old(world).shape_events@,
                        before.shape_events@,
                        world.shape_events@.skip(before.shape_events@.len() as int),
                    );
                    assert(before.shape_events@ + world.shape_events@.skip(
                        before.shape_events@.len() as int,
                    ) =~= world.shape_events@);
                    lemma_prefix_extends(
                        old(world).diagnostics@,
                        before.diagnostics@,
                        world.diagnostics@.skip(before.diagnostics@.len() as int),
                    );
                    assert(before.diagnostics@ + world.diagnostics@.skip(
                        before.diagnostics@.len() as int,
                    ) =~= world.diagnostics@);
                }
                match res {
                    Ok(_) => {
                        proof {
                            assert(object_error(*tables, os0[oi]) is None);
                            assert(first_bad_object(*tables, os0, oi + 1) is None);
                            assert(world.rows@[base + oi] == world.rows@.last());
                        }
                    },
                    Err(e) => {
                        proof {
                            assert(object_error(*tables, os0[oi]) == Some(e));
                            assert(first_bad_object(*tables, os0, oi + 1) == Some(oi));
                            lemma_first_bad_object_extends(
                                *tables,
                                os0,
                                oi + 1,
                                os0.len() as int,
                            );
                            assert(elem_error(*tables, el) == Some(e));
                        }
                        return Err(e);
                    },
                }
                proof {
                    oi = oi + 1;
                }
            }
            proof {
                assert(oi == os0.len());
                assert(first_bad_object(*tables, os0, os0.len() as int) is None);
                assert(elem_error(*tables, el) is None);
                let seg = world.rows@.subrange(base, world.rows@.len() as int);
                assert forall|j2: int| 0 <= j2 < os0.len() implies object_row_matches(
                    *tables,
                    #[trigger] os0[j2],
                    z,
                    seg[j2],
                ) by {
                    assert(seg[j2] == world.rows@[base + j2]);
                }
                assert(elem_rows_match(*tables, el, z, seg));
            }
            Ok(())
        },
    }
}

/// Decompose a whole decoded map into the world: flatten the layer
/// tree, record one diagnostic per skipped unsupported layer, then
/// assemble each flattened element in order, its traversal index
/// becoming the ZLevel of every entity it yields. Assembly succeeds
/// exactly when no cell or object reports a fatal configuration error;
/// an error stops at the offending element, keeping everything
/// assembled before it.
#[verifier::rlimit(100)]
pub fn decompose_map(world: &mut World, map: TiledMap) -> (r: Result<(), AssembleError>)
    requires
        old(world).wf(),
        map_ok(map),
    ensures
        final(world).rows@.len() >= old(world).rows@.len(),
        forall|j: int|
            0 <= j < old(world).rows@.len() ==> final(world).rows@[j] == old(world).rows@[j],
        forall|j: int|
            old(world).rows@.len() <= j < final(world).rows@.len()
                ==> ((#[trigger] final(world).rows@[j]).zlevel matches Some(zz) && 0 <= zz
                < flat_of_layers(map.layers@).len()),
        old(world).position_events@.is_prefix_of(final(world).position_events@),
        old(world).shape_events@.is_prefix_of(final(world).shape_events@),
        (old(world).diagnostics@ + skipped_of_layers(map.layers@)).is_prefix_of(
            final(world).diagnostics@,
        ),
        ({
            let flat = flat_of_layers(map.layers@);
            let n = flat.len() as int;
            let base = old(world).rows@.len() as int;
            &&& (r is Ok <==> first_bad_elem(map.tables, flat, n) is None)
            &&& (r matches Err(e) ==> (first_bad_elem(map.tables, flat, n) matches Some(b)
                && elem_error(map.tables, flat[b]) == Some(e)))
            &&& (r is Ok ==> {
                &&& final(world).rows@.len() == base + flat_count(flat, n)
                &&& (forall|k2: int|
                    0 <= k2 < n ==> elem_rows_match(
                        map.tables,
                        #[trigger] flat[k2],
                        k2 as i64,
                        final(world).rows@.subrange(
                            base + flat_count(flat, k2),
                            base + flat_count(flat, k2 + 1),
                        ),
                    ))
            })
        }),
        final(world).wf(),
{
    let TiledMap { layers, tables } = map;
    let ghost flat0 = flat_of_layers(map.layers@);
    let ghost base0 = old(world).rows@.len() as int;
    let (flat, fdiags) = flatten_layer_tree(layers);
    let mut fdiags = fdiags;
    let ghost skipped = skipped_of_layers(map.layers@);
    let ghost mut k: int = 0;
    while fdiags.len() > 0
        invariant
            0 <= k <= skipped.len(),
            fdiags@ =~= skipped.skip(k),
            world.rows@ == old(world).rows@,
            world.position_events@ == old(world).position_events@,
            world.shape_events@ == old(world).shape_events@,
            world.diagnostics@ == old(world).diagnostics@ + skipped.take(k),
            world.wf(),
        decreases fdiags@.len(),
    {
        let d = fdiags.remove(0);
        proof {
            assert(d == skipped[k]);
            assert(fdiags@ =~= skipped.skip(k + 1));
        }
        world.diagnostics.push(d);
        proof {
            assert(skipped.take(k + 1).drop_last() =~= skipped.take(k));
            assert(world.diagnostics@ =~= old(world).diagnostics@ + skipped.take(k + 1));
            k = k + 1;
        }
    }
    proof {
        assert(skipped.take(k) =~= skipped);
    }
    let mut flat = flat;
    let mut z: usize = 0;
    let ghost base_diag = old(world).diagnostics@ + skipped;
    while flat.len() > 0
        invariant
            z + flat@.len() == flat0.len(),
            flat@ =~= flat0.skip(z as int),
            flat0 == flat_of_layers(map.layers@),
            map_ok(map),
            tables == map.tables,
            base0 == old(world).rows@.len() as int,
            world.wf(),
            world.rows@.len() == base0 + flat_count(flat0, z as int),
            first_bad_elem(map.tables, flat0, z as int) is None,
            forall|k2: int|
                0 <= k2 < z ==> elem_rows_match(
                    map.tables,
                    #[trigger] flat0[k2],
                    k2 as i64,
                    world.rows@.subrange(
                        base0 + flat_count(flat0, k2),
                        base0 + flat_count(flat0, k2 + 1),
                    ),
                ),
            forall|j: int|
                0 <= j < old(world).rows@.len() ==> world.rows@[j] == old(world).rows@[j],
            forall|j: int|
                old(world).rows@.len() <= j < world.rows@.len() ==> ((#[trigger] world.rows@[j])
                    .zlevel matches Some(zz) && 0 <= zz < flat0.len()),
            old(world).position_events@.is_prefix_of(world.position_events@),
            old(world).shape_events@.is_prefix_of(world.shape_events@),
            base_diag.is_prefix_of(world.diagnostics@),
            base_diag == old(world).diagnostics@ + skipped_of_layers(map.layers@),
        decreases flat@.len(),
    {
        let el = flat.remove(0);
        let ghost start = *world;
        proof {
            assert(el == flat0[z as int]);
            assert(flat@ =~= flat0.skip(z as int + 1));
            assert(flat_elem_ok(flat0[z as int]));
            assert(z < flat0.len());
        }
        let res = assemble_elem(world, &tables, el, z as i64);
        proof {
            lemma_prefix_extends(
                old(world).position_events@,
                start.position_events@,
                world.position_events@.skip(start.position_events@.len() as int),
            );
            assert(start.position_events@ + world.position_events@.skip(
                start.position_events@.len() as int,
            ) =~= world.position_events@);
            lemma_prefix_extends(
                old(world).shape_events@,
                start.shape_events@,
                world.shape_events@.skip(start.shape_events@.len() as int),
            );
            assert(start.shape_events@ + world.shape_events@.skip(
                start.shape_events@.len() as int,
            ) =~= world.shape_events@);
            lemma_prefix_extends(
                base_diag,
                start.diagnostics@,
                world.diagnostics@.skip(start.diagnostics@.len() as int),
            );
            assert(start.diagnostics@ + world.diagnostics@.skip(
                start.diagnostics@.len() as int,
            ) =~= world.diagnostics@);
            assert forall|j: int|
                old(world).rows@.len() <= j < world.rows@.len() implies ((
            #[trigger] world.rows@[j]).zlevel matches Some(zz) && 0 <= zz < flat0.len()) by {
                if j < start.rows@.len() {
                    assert(world.rows@[j] == start.rows@[j]);
                }
            }
            lemma_segments_stable(
                map.tables,
                flat0,
                z as int,
                base0,
                start.rows@,
                world.rows@,
            );
        }
        match res {
            Ok(()) => {
                proof {
                    assert(elem_error(map.tables, flat0[z as int]) is None);
                    assert(first_bad_elem(map.tables, flat0, z as int + 1) is None);
                    assert(world.rows@.len() == base0 + flat_count(flat0, z as int + 1));
                    assert(elem_rows_match(
                        map.tables,
                        flat0[z as int],
                        z as i64,
                        world.rows@.subrange(
                            base0 + flat_count(flat0, z as int),
                            base0 + flat_count(flat0, z as int + 1),
                        ),
                    ));
                }
            },
            Err(e) => {
                proof {
                    assert(elem_error(map.tables, flat0[z as int]) == Some(e));
                    assert(first_bad_elem(map.tables, flat0, z as int + 1) == Some(z as int));
                    lemma_first_bad_elem_extends(
                        map.tables,
                        flat0,
                        z as int + 1,
                        flat0.len() as int,
                    );
                }
                return Err(e);
            },
        }
        z = z + 1;
    }
    proof {
        assert(z == flat0.len());
    }
    Ok(())
}

/// Every decoded map a tracker holds is one ingestion can take.
pub open spec fn tracker_maps_ok(tr: LoadTracker) -> bool {
    forall|i: int|
        0 <= i < tr.entries@.len() ==> ((#[trigger] tr.entries@[i]).1.status
            matches LoadStatus::Complete(m) ==> map_ok(m))
}

/// Service one load-request entity: a request whose map completed is
/// decomposed into the world and deleted; one whose load failed is
/// deleted with no world mutation; one still pending (or never
/// tracked) is left to be polled again next tick. The request entity
/// is deleted exactly once, on either terminal status.
pub fn ingest_request(world: &mut World, tracker: &mut LoadTracker, ent: usize) -> (r: Result<
    (),
    AssembleError,
>)
    requires
        old(world).wf(),
        old(tracker).wf(),
        ent < old(world).rows@.len(),
        tracker_maps_ok(*old(tracker)),
    ensures
        final(world).wf(),
        final(tracker).wf(),
        tracker_maps_ok(*final(tracker)),
        old(world).position_events@.is_prefix_of(final(world).position_events@),
        old(world).shape_events@.is_prefix_of(final(world).shape_events@),
        old(world).diagnostics@.is_prefix_of(final(world).diagnostics@),
        forall|q: Seq<char>|
            (match old(world).rows@[ent as int].map_request {
                Some(p) => q != p@,
                None => true,
            }) ==> #[trigger] final(tracker).status_spec(q) == old(tracker).status_spec(q),
        match old(world).rows@[ent as int].map_request {
            None => *final(world) == *old(world) && *final(tracker) == *old(tracker) && r is Ok,
            Some(p) => match old(tracker).status_spec(p@) {
                None => *final(world) == *old(world) && *final(tracker) == *old(tracker) && r
                    is Ok,
                Some(LoadStatus::Started) => *final(world) == *old(world) && *final(tracker)
                    == *old(tracker) && r is Ok,
                Some(LoadStatus::Error(_)) => {
                    &&& final(world).rows@ == old(world).rows@.update(
                        ent as int,
                        EntityRow::dead_spec(),
                    )
                    &&& final(world).position_events@ == old(world).position_events@
                    &&& final(world).shape_events@ == old(world).shape_events@
                    &&& final(world).diagnostics@ == old(world).diagnostics@
                    &&& final(tracker).status_spec(p@) is None
                    &&& r is Ok
                },
                Some(LoadStatus::Complete(m)) => {
                    &&& final(world).rows@.len() >= old(world).rows@.len()
                    &&& final(world).rows@[ent as int] == EntityRow::dead_spec()
                    &&& (forall|j: int|
                        0 <= j < old(world).rows@.len() && j != ent ==> final(world).rows@[j]
                            == old(world).rows@[j])
                    &&& (forall|j: int|
                        old(world).rows@.len() <= j < final(world).rows@.len() ==> ((
                        #[trigger] final(world).rows@[j]).zlevel matches Some(zz) && 0 <= zz
                            < flat_of_layers(m.layers@).len()))
                    &&& old(world).position_events@.is_prefix_of(final(world).position_events@)
                    &&& old(world).shape_events@.is_prefix_of(final(world).shape_events@)
                    &&& (old(world).diagnostics@ + skipped_of_layers(m.layers@)).is_prefix_of(
                        final(world).diagnostics@,
                    )
                    &&& final(tracker).status_spec(p@) is None
                    &&& ({
                        let flat = flat_of_layers(m.layers@);
                        let n = flat.len() as int;
                        let base = old(world).rows@.len() as int;
                        &&& (r is Ok <==> first_bad_elem(m.tables, flat, n) is None)
                        &&& (r matches Err(e) ==> (first_bad_elem(m.tables, flat, n)
                            matches Some(b) && elem_error(m.tables, flat[b]) == Some(e)))
                        &&& (r is Ok ==> {
                            &&& final(world).rows@.len() == base + flat_count(flat, n)
                            &&& (forall|k2: int|
                                0 <= k2 < n ==> elem_rows_match(
                                    m.tables,
                                    #[trigger] flat[k2],
                                    k2 as i64,
                                    final(world).rows@.subrange(
                                        base + flat_count(flat, k2),
                                        base + flat_count(flat, k2 + 1),
                                    ),
                                ))
                        })
                    })
                },
            },
        },
{
    proof {
        lemma_prefix_refl(old(world).position_events@);
        lemma_prefix_refl(old(world).shape_events@);
        lemma_prefix_refl(old(world).diagnostics@);
    }
    let req: Option<String> = match &world.row(ent).map_request {
        Some(p) => Some(p.clone()),
        None => None,
    };
    match req {
        None => Ok(()),
        Some(path) => {
            match tracker.status_of(path.as_str()) {
                crate::load::LoadStatusKind::NotRequested => Ok(()),
                crate::load::LoadStatusKind::Started => Ok(()),
                crate::load::LoadStatusKind::Error => {
                    let _taken = tracker.take(path.as_str());
                    proof {
                        lemma_take_keeps_maps_ok(*old(tracker), *tracker, path@);
                        lemma_removed_path_gone(*old(tracker), *tracker, path@);
                        lemma_find_load_in_range(old(tracker).entries@, path@, 0);
                        assert forall|q: Seq<char>| q != path@ implies #[trigger] tracker
                            .status_spec(q) == old(tracker).status_spec(q) by {
                            lemma_remove_preserves_status(
                                *old(tracker),
                                *tracker,
                                find_load(old(tracker).entries@, path@, 0)->0,
                                q,
                            );
                        }
                    }
                    world.delete(ent);
                    Ok(())
                },
                crate::load::LoadStatusKind::Complete => {
                    let taken = tracker.take(path.as_str());
                    proof {
                        lemma_take_keeps_maps_ok(*old(tracker), *tracker, path@);
                        lemma_removed_path_gone(*old(tracker), *tracker, path@);
                        lemma_find_load_in_range(old(tracker).entries@, path@, 0);
                        assert forall|q: Seq<char>| q != path@ implies #[trigger] tracker
                            .status_spec(q) == old(tracker).status_spec(q) by {
                            lemma_remove_preserves_status(
                                *old(tracker),
                                *tracker,
                                find_load(old(tracker).entries@, path@, 0)->0,
                                q,
                            );
                        }
                    }
                    match taken {
                        Some(LoadStatus::Complete(m)) => {
                            let ghost m0 = m;
                            proof {
                                lemma_find_load_in_range(old(tracker).entries@, path@, 0);
                                let i0 = find_load(old(tracker).entries@, path@, 0)->0;
                                assert(old(tracker).entries@[i0].1.status
                                    == LoadStatus::Complete(m));
                                assert(map_ok(m));
                            }
                            let ghost mid = *world;
                            let res = decompose_map(world, m);
                            proof {
                                lemma_prefix_drop_right(
                                    mid.diagnostics@,
                                    skipped_of_layers(m0.layers@),
                                    world.diagnostics@,
                                );
                            }
                            let ghost decomposed = *world;
                            world.delete(ent);
                            proof {
                                if res is Ok {
                                    let flat = flat_of_layers(m0.layers@);
                                    let base = old(world).rows@.len() as int;
                                    assert forall|k2: int| 0 <= k2 < flat.len() as int
                                        implies elem_rows_match(
                                        m0.tables,
                                        #[trigger] flat[k2],
                                        k2 as i64,
                                        world.rows@.subrange(
                                            base + flat_count(flat, k2),
                                            base + flat_count(flat, k2 + 1),
                                        ),
                                    ) by {
                                        let b1 = base + flat_count(flat, k2);
                                        let b2 = base + flat_count(flat, k2 + 1);
                                        lemma_flat_count_mono(flat, k2 + 1, flat.len() as int);
                                        assert forall|jj: int|
                                            0 <= jj < b2 - b1 implies #[trigger] world.rows@
                                            .subrange(b1, b2)[jj] == decomposed.rows@.subrange(
                                            b1,
                                            b2,
                                        )[jj] by {
                                            assert(world.rows@[b1 + jj] == decomposed.rows@[b1
                                                + jj]);
                                        }
                                        assert(world.rows@.subrange(b1, b2)
                                            =~= decomposed.rows@.subrange(b1, b2));
                                    }
                                }
                            }
                            res
                        },
                        _ => {
                            proof {
                                assert(false);
                            }
                            Ok(())
                        },
                    }
                },
            }
        },
    }
}

/// Removing one tracked path keeps every remaining map acceptable.
proof fn lemma_take_keeps_maps_ok(t1: LoadTracker, t2: LoadTracker, path: Seq<char>)
    requires
        tracker_maps_ok(t1),
        t2.entries@ == (match find_load(t1.entries@, path, 0) {
            Some(i) => t1.entries@.remove(i),
            None => t1.entries@,
        }),
    ensures
        tracker_maps_ok(t2),
{
    match find_load(t1.entries@, path, 0) {
        Some(i) => {
            lemma_find_load_in_range(t1.entries@, path, 0);
            assert forall|j: int| 0 <= j < t2.entries@.len() implies ((
            #[trigger] t2.entries@[j]).1.status matches LoadStatus::Complete(m) ==> map_ok(m))
                by {
                if j < i {
                    assert(t2.entries@[j] == t1.entries@[j]);
                } else {
                    assert(t2.entries@[j] == t1.entries@[j + 1]);
                }
            }
        },
        None => {},
    }
}

/// After removing a path's entry from a well-formed tracker, the path
/// is no longer tracked.
proof fn lemma_removed_path_gone(t1: LoadTracker, t2: LoadTracker, path: Seq<char>)
    requires
        t1.wf(),
        find_load(t1.entries@, path, 0) is Some,
        t2.entries@ == t1.entries@.remove(find_load(t1.entries@, path, 0)->0),
    ensures
        t2.status_spec(path) is None,
{
    let i = find_load(t1.entries@, path, 0)->0;
    lemma_find_load_in_range(t1.entries@, path, 0);
    assert forall|j: int| 0 <= j < t2.entries@.len() implies (#[trigger] t2.entries@[j]).0@
        != path by {
        if j < i {
            assert(t2.entries@[j] == t1.entries@[j]);
        } else {
            assert(t2.entries@[j] == t1.entries@[j + 1]);
        }
    }
    lemma_find_load_none(t2.entries@, path, 0);
}

/// A found entry lies inside the list and names the path; an absent
/// one means no entry at or after `i` names it.
proof fn lemma_find_load_in_range(entries: Seq<(String, LoadCell)>, path: Seq<char>, i: int)
    requires
        0 <= i,
    ensures
        match find_load(entries, path, i) {
            Some(j) => i <= j < entries.len() && entries[j].0@ == path,
            None => forall|j: int| i <= j < entries.len() ==> (#[trigger] entries[j]).0@ != path,
        },
    decreases entries.len() - i,
{
    if 0 <= i < entries.len() && entries[i].0@ != path {
        lemma_find_load_in_range(entries, path, i + 1);
    }
}

/// Removing one path's entry leaves every other path's status alone.
proof fn lemma_remove_preserves_status(t1: LoadTracker, t2: LoadTracker, i: int, q: Seq<char>)
    requires
        t1.wf(),
        0 <= i < t1.entries@.len(),
        t2.entries@ == t1.entries@.remove(i),
        t1.entries@[i].0@ != q,
    ensures
        t2.status_spec(q) == t1.status_spec(q),
{
    lemma_find_load_in_range(t1.entries@, q, 0);
    lemma_find_load_in_range(t2.entries@, q, 0);
    match find_load(t1.entries@, q, 0) {
        Some(j) => {
            let j2: int = if j < i {
                j
            } else {
                j - 1
            };
            assert(t2.entries@[j2] == t1.entries@[j]);
            match find_load(t2.entries@, q, 0) {
                Some(k2) => {
                    let k1: int = if k2 < i {
                        k2
                    } else {
                        k2 + 1
                    };
                    assert(t2.entries@[k2] == t1.entries@[k1]);
                    assert(t1.entries@[k1].0@ == q);
                    assert(k1 == j);
                },
                None => {
                    assert(t2.entries@[j2].0@ == q);
                    assert(false);
                },
            }
        },
        None => {
            assert forall|j2: int| 0 <= j2 < t2.entries@.len() implies (
            #[trigger] t2.entries@[j2]).0@ != q by {
                if j2 < i {
                    assert(t2.entries@[j2] == t1.entries@[j2]);
                } else {
                    assert(t2.entries@[j2] == t1.entries@[j2 + 1]);
                }
            }
            lemma_find_load_none(t2.entries@, q, 0);
        },
    }
}

/// A path no entry names is not found.
proof fn lemma_find_load_none(entries: Seq<(String, LoadCell)>, path: Seq<char>, i: int)
    requires
        0 <= i,
        forall|j: int| 0 <= j < entries.len() ==> (#[trigger] entries[j]).0@ != path,
    ensures
        find_load(entries, path, i) is None,
    decreases entries.len() - i,
{
    if i < entries.len() {
        lemma_find_load_none(entries, path, i + 1);
    }
}

/// Check one object's coordinates against the assembly budget.
fn object_in_budget_exec(o: &Object) -> (r: bool)
    ensures
        r == object_coords_in_budget(*o),
{
    let fields_ok = -0x80_0000_0000 <= o.x && o.x <= 0x80_0000_0000 && -0x80_0000_0000 <= o.y
        && o.y <= 0x80_0000_0000 && 0 <= o.width && o.width <= 0x80_0000_0000 && 0 <= o.height
        && o.height <= 0x80_0000_0000;
    let mut poly_ok = true;
    match &o.polygon {
        Some(vs) => {
            let mut i: usize = 0;
            while i < vs.len()
                invariant
                    i <= vs@.len(),
                    o.polygon is Some,
                    vs@ == o.polygon->0@,
                    poly_ok == (forall|j: int|
                        0 <= j < i ==> -0x80_0000_0000 <= (#[trigger] o.polygon->0@[j]).x
                            <= 0x80_0000_0000 && -0x80_0000_0000 <= o.polygon->0@[j].y
                            <= 0x80_0000_0000),
                decreases vs@.len() - i,
            {
                let v = vs[i];
                poly_ok = poly_ok && -0x80_0000_0000 <= v.x && v.x <= 0x80_0000_0000
                    && -0x80_0000_0000 <= v.y && v.y <= 0x80_0000_0000;
                i = i + 1;
            }
        },
        None => {},
    }
    fields_ok && poly_ok
}

/// Check every object of a list against the assembly budget.
fn objects_in_budget_exec(os: &Vec<Object>) -> (r: bool)
    ensures
        r == objects_in_budget(os@),
{
    let mut i: usize = 0;
    while i < os.len()
        invariant
            i <= os@.len(),
            forall|j: int| 0 <= j < i ==> object_coords_in_budget(#[trigger] os@[j]),
        decreases os@.len() - i,
    {
        if !object_in_budget_exec(&os[i]) {
            return false;
        }
        i = i + 1;
    }
    true
}

/// Check the map's lookup tables: well-formed tilesets and every tile
/// definition's sub-objects inside the assembly budget.
fn tables_ok_exec(tables: &MapTables) -> (r: bool)
    ensures
        r == (tables.wf() && sub_objects_in_budget(*tables)),
{
    if !(0 < tables.tile_width && tables.tile_width <= 0x10000 && 0 < tables.tile_height
        && tables.tile_height <= 0x10000) {
        return false;
    }
    let mut t: usize = 0;
    while t < tables.tilesets.len()
        invariant
            t <= tables.tilesets@.len(),
            0 < tables.tile_width <= 0x10000,
            0 < tables.tile_height <= 0x10000,
            forall|j: int| 0 <= j < t ==> (#[trigger] tables.tilesets@[j]).wf(),
            forall|j: int, d: int, x: int|
                0 <= j < t && 0 <= d < tables.tilesets@[j].tiles@.len() && 0 <= x
                    < tables.tilesets@[j].tiles@[d].objects@.len()
                    ==> object_coords_in_budget(
                    #[trigger] tables.tilesets@[j].tiles@[d].objects@[x],
                ),
        decreases tables.tilesets@.len() - t,
    {
        let ts = &tables.tilesets[t];
        if !(1 <= ts.first_gid && ts.first_gid as u64 + ts.tile_count as u64 <= GID_MASK as u64
            && 1 <= ts.columns && 0 < ts.tile_width && ts.tile_width <= 0x10000
            && 0 < ts.tile_height && ts.tile_height <= 0x10000) {
            return false;
        }
        let mut d: usize = 0;
        while d < ts.tiles.len()
            invariant
                d <= ts.tiles@.len(),
                ts == &tables.tilesets@[t as int],
                t < tables.tilesets@.len(),
                forall|d2: int, x: int|
                    0 <= d2 < d && 0 <= x < tables.tilesets@[t as int].tiles@[d2].objects@.len()
                        ==> object_coords_in_budget(
                        #[trigger] tables.tilesets@[t as int].tiles@[d2].objects@[x],
                    ),
            decreases ts.tiles@.len() - d,
        {
            if !objects_in_budget_exec(&ts.tiles[d].objects) {
                return false;
            }
            d = d + 1;
        }
        t = t + 1;
    }
    proof {
        assert forall|t2: int, d2: int, x: int|
            0 <= t2 < tables.tilesets@.len() && 0 <= d2 < tables.tilesets@[t2].tiles@.len() && 0
                <= x < tables.tilesets@[t2].tiles@[d2].objects@.len()
                implies object_coords_in_budget(
            #[trigger] tables.tilesets@[t2].tiles@[d2].objects@[x],
        ) by {}
    }
    true
}

/// Check one flattened element's data against the assembly budgets.
fn flat_elem_ok_exec(tl_ok: bool) -> bool {
    tl_ok
}

/// Check one layer node: every tile or object element it flattens to is
/// inside the assembly budgets; the count result is the number of
/// elements it flattens to, saturated just past the ingestion bound.
#[verifier::loop_isolation(false)]
fn layer_elems_ok(l: &Layer) -> (r: (bool, u64))
    ensures
        r.0 == (forall|k: int|
            0 <= k < flat_of_layer(*l).len() ==> flat_elem_ok(#[trigger] flat_of_layer(*l)[k])),
        r.1 == if flat_of_layer(*l).len() <= 0x1000_0001 {
            flat_of_layer(*l).len() as u64
        } else {
            0x1000_0001u64
        },
    decreases *l,
{
    match l {
        Layer::Tiles(tl) => {
            let ok = 1 <= tl.width && tl.cells.len() <= 0x10_0000;
            proof {
                assert(flat_of_layer(*l) =~= seq![FlatLayer::Tiles(*tl)]);
                assert(flat_of_layer(*l)[0] == FlatLayer::Tiles(*tl));
                if ok {
                    assert forall|k: int| 0 <= k < flat_of_layer(*l).len() implies flat_elem_ok(
                        #[trigger] flat_of_layer(*l)[k],
                    ) by {
                        assert(k == 0);
                    }
                } else {
                    assert(!flat_elem_ok(flat_of_layer(*l)[0]));
                }
            }
            (ok, 1)
        },
        Layer::Objects(os) => {
            let ok = objects_in_budget_exec(os);
            proof {
                assert(flat_of_layer(*l) =~= seq![FlatLayer::Objects(*os)]);
                assert(flat_of_layer(*l)[0] == FlatLayer::Objects(*os));
                if ok {
                    assert forall|k: int| 0 <= k < flat_of_layer(*l).len() implies flat_elem_ok(
                        #[trigger] flat_of_layer(*l)[k],
                    ) by {
                        assert(k == 0);
                    }
                } else {
                    assert(!objects_in_budget(os@));
                    assert(!flat_elem_ok(flat_of_layer(*l)[0]));
                }
            }
            (ok, 1)
        },
        Layer::Image(_) => (true, 0),
        Layer::Group(children) => layer_list_elems_ok(children),
        Layer::Unsupported(_) => (true, 0),
    }
}

/// Check a list of layer nodes, as `layer_elems_ok` does one.
#[verifier::loop_isolation(false)]
fn layer_list_elems_ok(ls: &Vec<Layer>) -> (r: (bool, u64))
    ensures
        r.0 == (forall|k: int|
            0 <= k < flat_of_layers(ls@).len() ==> flat_elem_ok(
                #[trigger] flat_of_layers(ls@)[k],
            )),
        r.1 == if flat_of_layers(ls@).len() <= 0x1000_0001 {
            flat_of_layers(ls@).len() as u64
        } else {
            0x1000_0001u64
        },
    decreases *ls,
{
    let mut ok = true;
    let mut cnt: u64 = 0;
    let mut i: usize = 0;
    proof {
        assert(ls@.take(0) =~= Seq::<Layer>::empty());
    }
    while i < ls.len()
        invariant
            i <= ls@.len(),
            ok == (forall|k: int|
                0 <= k < flat_of_layers(ls@.take(i as int)).len() ==> flat_elem_ok(
                    #[trigger] flat_of_layers(ls@.take(i as int))[k],
                )),
            cnt == if flat_of_layers(ls@.take(i as int)).len() <= 0x1000_0001 {
                flat_of_layers(ls@.take(i as int)).len() as u64
            } else {
                0x1000_0001u64
            },
        decreases ls@.len() - i,
    {
        proof {
            assert(decreases_to!(*ls => ls@));
            assert(decreases_to!(ls@ => ls@[i as int]));
        }
        let (ok_i, cnt_i) = layer_elems_ok(&ls[i]);
        let ghost prefix = flat_of_layers(ls@.take(i as int));
        let ghost one = flat_of_layer(ls@[i as int]);
        proof {
            assert(ls@.take(i + 1) =~= ls@.take(i as int) + seq![ls@[i as int]]);
            lemma_flat_append(ls@.take(i as int), seq![ls@[i as int]]);
            lemma_flat_singleton(ls@[i as int]);
            assert(flat_of_layers(ls@.take(i + 1)) =~= prefix + one);
        }
        let new_ok = ok && ok_i;
        proof {
            assert(new_ok == (forall|k: int|
                0 <= k < (prefix + one).len() ==> flat_elem_ok(#[trigger] (prefix + one)[k])))
                by {
                if new_ok {
                    assert forall|k: int| 0 <= k < (prefix + one).len() implies flat_elem_ok(
                        #[trigger] (prefix + one)[k],
                    ) by {
                        if k < prefix.len() {
                            assert((prefix + one)[k] == prefix[k]);
                        } else {
                            assert((prefix + one)[k] == one[k - prefix.len()]);
                        }
                    }
                } else {
                    if !ok {
                        let kb = choose|k: int|
                            0 <= k < prefix.len() && !flat_elem_ok(#[trigger] prefix[k]);
                        assert((prefix + one)[kb] == prefix[kb]);
                        assert(!flat_elem_ok((prefix + one)[kb]));
                    } else {
                        let kb = choose|k: int|
                            0 <= k < one.len() && !flat_elem_ok(#[trigger] one[k]);
                        assert((prefix + one)[prefix.len() + kb] == one[kb]);
                        assert(!flat_elem_ok((prefix + one)[prefix.len() + kb]));
                    }
                }
            }
        }
        ok = new_ok;
        cnt = if cnt + cnt_i > 0x1000_0001 {
            0x1000_0001
        } else {
            cnt + cnt_i
        };
        i = i + 1;
    }
    proof {
        assert(ls@.take(ls@.len() as int) =~= ls@);
    }
    (ok, cnt)
}

/// Check a whole decoded map against what ingestion can take: the
/// executable face of the ingestion contract, for callers that receive
/// maps from outside and must reject the rest.
pub fn map_is_ok(m: &TiledMap) -> (r: bool)
    ensures
        r == map_ok(*m),
{
    if !tables_ok_exec(&m.tables) {
        return false;
    }
    let (ok, cnt) = layer_list_elems_ok(&m.layers);
    ok && cnt <= 0x1000_0000
}

/// A terminal load status: the fetch reported back, one way or the other.
pub open spec fn terminal_status(st: Option<LoadStatus>) -> bool {
    st matches Some(LoadStatus::Complete(_)) || st matches Some(LoadStatus::Error(_))
}

/// No two load-request entities name the same path.
pub open spec fn distinct_request_paths(rows: Seq<EntityRow>) -> bool {
    forall|j1: int, j2: int|
        0 <= j1 < j2 < rows.len() && (#[trigger] rows[j1]).map_request is Some && (
        #[trigger] rows[j2]).map_request is Some ==> rows[j1].map_request->0@
            != rows[j2].map_request->0@
}

/// Service every load-request entity present at the start of the tick:
/// each is handled as `ingest_request` says, in ascending entity order,
/// stopping at the first fatal configuration error. Only request
/// entities are ever deleted; everything else is preserved, and newly
/// assembled entities are only appended.
pub fn ingest(world: &mut World, tracker: &mut LoadTracker) -> (r: Result<(), AssembleError>)
    requires
        old(world).wf(),
        old(tracker).wf(),
        tracker_maps_ok(*old(tracker)),
    ensures
        final(world).wf(),
        final(tracker).wf(),
        tracker_maps_ok(*final(tracker)),
        final(world).rows@.len() >= old(world).rows@.len(),
        forall|j: int|
            0 <= j < old(world).rows@.len() ==> final(world).rows@[j] == old(world).rows@[j] || (
            old(world).rows@[j].map_request is Some && final(world).rows@[j]
                == EntityRow::dead_spec()),
        old(world).position_events@.is_prefix_of(final(world).position_events@),
        old(world).shape_events@.is_prefix_of(final(world).shape_events@),
        old(world).diagnostics@.is_prefix_of(final(world).diagnostics@),
        (r is Ok && distinct_request_paths(old(world).rows@)) ==> forall|j: int|
            0 <= j < old(world).rows@.len() ==> (match (#[trigger] old(world).rows@[j])
                .map_request {
                Some(p) => if terminal_status(old(tracker).status_spec(p@)) {
                    final(world).rows@[j] == EntityRow::dead_spec()
                        && final(tracker).status_spec(p@) is None
                } else {
                    final(world).rows@[j] == old(world).rows@[j]
                },
                None => final(world).rows@[j] == old(world).rows@[j],
            }),
{
    let n0 = world.len();
    let mut ent: usize = 0;
    while ent < n0
        invariant
            n0 == old(world).rows@.len(),
            ent <= n0,
            world.wf(),
            tracker.wf(),
            tracker_maps_ok(*tracker),
            world.rows@.len() >= n0,
            forall|j: int|
                0 <= j < n0 ==> world.rows@[j] == old(world).rows@[j] || (old(
                    world,
                ).rows@[j].map_request is Some && world.rows@[j] == EntityRow::dead_spec()),
            old(world).position_events@.is_prefix_of(world.position_events@),
            old(world).shape_events@.is_prefix_of(world.shape_events@),
            old(world).diagnostics@.is_prefix_of(world.diagnostics@),
            distinct_request_paths(old(world).rows@) ==> {
                &&& (forall|j: int|
                    0 <= j < ent ==> (match (#[trigger] old(world).rows@[j]).map_request {
                        Some(p) => if terminal_status(old(tracker).status_spec(p@)) {
                            world.rows@[j] == EntityRow::dead_spec() && tracker.status_spec(p@)
                                is None
                        } else {
                            world.rows@[j] == old(world).rows@[j]
                        },
                        None => world.rows@[j] == old(world).rows@[j],
                    }))
                &&& (forall|j: int|
                    ent <= j < n0 ==> world.rows@[j] == (#[trigger] old(world).rows@[j]))
                &&& (forall|j: int|
                    ent <= j < n0 ==> ((#[trigger] old(world).rows@[j]).map_request matches Some(
                        p,
                    ) ==> tracker.status_spec(p@) == old(tracker).status_spec(p@)))
            },
        decreases n0 - ent,
    {
        let ghost before = *world;
        let ghost tracker_before = *tracker;
        let res = ingest_request(world, tracker, ent);
        proof {
            lemma_prefix_extends(
                old(world).position_events@,
                before.position_events@,
                world.position_events@.skip(before.position_events@.len() as int),
            );
            assert(before.position_events@ + world.position_events@.skip(
                before.position_events@.len() as int,
            ) =~= world.position_events@);
            lemma_prefix_extends(
                old(world).shape_events@,
                before.shape_events@,
                world.shape_events@.skip(before.shape_events@.len() as int),
            );
            assert(before.shape_events@ + world.shape_events@.skip(
                before.shape_events@.len() as int,
            ) =~= world.shape_events@);
            lemma_prefix_extends(
                old(world).diagnostics@,
                before.diagnostics@,
                world.diagnostics@.skip(before.diagnostics@.len() as int),
            );
            assert(before.diagnostics@ + world.diagnostics@.skip(
                before.diagnostics@.len() as int,
            ) =~= world.diagnostics@);
        }
        proof {
            if distinct_request_paths(old(world).rows@) {
                assert(before.rows@[ent as int] == old(world).rows@[ent as int]);
                assert forall|j: int|
                    ent + 1 <= j < n0 implies ((#[trigger] old(world).rows@[j]).map_request
                    matches Some(p) ==> tracker.status_spec(p@) == old(tracker).status_spec(
                    p@,
                )) by {
                    match old(world).rows@[j].map_request {
                        Some(p) => {
                            assert(tracker.status_spec(p@) == tracker_before.status_spec(p@));
                        },
                        None => {},
                    }
                }
                assert forall|j: int|
                    0 <= j < ent + 1 implies (match (#[trigger] old(world).rows@[j])
                    .map_request {
                    Some(p) => if terminal_status(old(tracker).status_spec(p@)) {
                        world.rows@[j] == EntityRow::dead_spec() && tracker.status_spec(p@)
                            is None
                    } else {
                        world.rows@[j] == old(world).rows@[j]
                    },
                    None => world.rows@[j] == old(world).rows@[j],
                }) by {
                    if j < ent as int {
                        match old(world).rows@[j].map_request {
                            Some(p) => {
                                assert(world.rows@[j] == before.rows@[j]);
                                assert(tracker.status_spec(p@) == tracker_before.status_spec(
                                    p@,
                                ));
                            },
                            None => {
                                assert(world.rows@[j] == before.rows@[j]);
                            },
                        }
                    }
                }
            }
        }
        match res {
            Ok(()) => {},
            Err(e) => {
                return Err(e);
            },
        }
        ent = ent + 1;
    }
    Ok(())
}

} // verus!
