//! The decoded map description: an ordered tree of layers over tilesets,
//! with free-form typed properties on objects. The description is immutable
//! once loaded; ingestion reads it and populates the world.

use vstd::prelude::*;
use crate::geom::{Aabb, GlobalTileIndex, V2, GID_MASK};

verus! {

/// The value of a named custom property: string, number, bool or null.
/// Numbers are whole world units.
#[derive(Clone, Debug)]
pub enum PropVal {
    Str(String),
    Int(i64),
    Bool(bool),
    Null,
}

/// A named custom property of an object or tile.
#[derive(Clone, Debug)]
pub struct Property {
    pub name: String,
    pub value: PropVal,
}

/// One frame of a tile animation: a source tile and how long it shows.
#[derive(Clone, Copy, Debug, PartialEq, Eq, Structural)]
pub struct Frame {
    pub tile_id: u32,
    pub duration_ms: u32,
}

/// A map object: a free placed rectangle or polygon with a type tag,
/// an optional tile reference and an open property bag. Its authored
/// origin is at top-left-x, bottom-y.
#[derive(Clone, Debug)]
pub struct Object {
    pub x: i64,
    pub y: i64,
    pub width: i64,
    pub height: i64,
    pub name: String,
    pub type_is: String,
    pub polygon: Option<Vec<V2>>,
    pub gid: Option<GlobalTileIndex>,
    pub properties: Vec<Property>,
}

/// Extra data a tileset carries for one of its tiles: a type tag,
/// animation frames and sub-objects attached to the tile definition.
#[derive(Clone, Debug)]
pub struct TileDef {
    /// The tile's id local to its tileset.
    pub local_id: u32,
    pub type_is: String,
    pub frames: Vec<Frame>,
    pub objects: Vec<Object>,
}

/// A tileset owning a contiguous range of global tile ids starting at
/// `first_gid`, laid out on its sheet in rows of `columns` tiles.
#[derive(Clone, Debug)]
pub struct Tileset {
    pub first_gid: u32,
    pub tile_count: u32,
    pub tile_width: i64,
    pub tile_height: i64,
    pub columns: u32,
    pub tiles: Vec<TileDef>,
}

impl Tileset {
    /// Well-formed: a positive id range that stays inside the id mask,
    /// at least one column, and positive bounded tile dimensions.
    pub open spec fn wf(self) -> bool {
        &&& 1 <= self.first_gid
        &&& self.first_gid + self.tile_count <= GID_MASK
        &&& 1 <= self.columns
        &&& 0 < self.tile_width <= 0x10000
        &&& 0 < self.tile_height <= 0x10000
    }

    /// Does this tileset own the global tile id?
    pub open spec fn contains_spec(self, id: u32) -> bool {
        self.first_gid <= id < self.first_gid + self.tile_count
    }

    pub fn contains(&self, id: u32) -> (r: bool)
        requires
            self.wf(),
        ensures
            r == self.contains_spec(id),
    {
        self.first_gid <= id && id - self.first_gid < self.tile_count
    }

    /// The registered source rectangle of a tile on this tileset's sheet:
    /// tiles are laid out row-major in rows of `columns`.
    pub open spec fn rect_of_spec(self, id: u32) -> Aabb {
        let local = id - self.first_gid;
        let col = local % (self.columns as int);
        let row = local / (self.columns as int);
        Aabb {
            x0: (col * self.tile_width) as i64,
            y0: (row * self.tile_height) as i64,
            x1: (col * self.tile_width + self.tile_width) as i64,
            y1: (row * self.tile_height + self.tile_height) as i64,
        }
    }

    /// Compute the source rectangle of a tile this tileset owns.
    pub fn rect_of(&self, id: u32) -> (r: Aabb)
        requires
            self.wf(),
            self.contains_spec(id),
        ensures
            r == self.rect_of_spec(id),
            r.wf(),
    {
        let local = id - self.first_gid;
        let col = (local % self.columns) as i64;
        let row = (local / self.columns) as i64;
        proof {
            assert((local as int) % (self.columns as int) < (self.columns as int));
            assert((local as int) % (self.columns as int) <= (local as int)) by (nonlinear_arith)
                requires
                    self.columns as int >= 1,
                    local as int >= 0,
            ;
            assert((local as int) / (self.columns as int) <= (local as int)) by (nonlinear_arith)
                requires
                    self.columns as int >= 1,
                    local as int >= 0,
            ;
            assert(col * self.tile_width >= 0) by (nonlinear_arith)
                requires
                    col >= 0,
                    self.tile_width > 0,
            ;
            assert(col * self.tile_width <= 0x2000_0000 * 0x10000) by (nonlinear_arith)
                requires
                    0 <= col <= 0x2000_0000,
                    0 < self.tile_width <= 0x10000,
            ;
            assert(row * self.tile_height >= 0) by (nonlinear_arith)
                requires
                    row >= 0,
                    self.tile_height > 0,
            ;
            assert(row * self.tile_height <= 0x2000_0000 * 0x10000) by (nonlinear_arith)
                requires
                    0 <= row <= 0x2000_0000,
                    0 < self.tile_height <= 0x10000,
            ;
        }
        Aabb {
            x0: col * self.tile_width,
            y0: row * self.tile_height,
            x1: col * self.tile_width + self.tile_width,
            y1: row * self.tile_height + self.tile_height,
        }
    }

    /// First tile definition with the given tileset-local id, if any.
    pub open spec fn def_index_spec(self, local: u32) -> Option<int> {
        choose_first_def(self.tiles@, local, 0)
    }

    /// Look up the tile definition for a tileset-local id.
    pub fn def_of(&self, local: u32) -> (r: Option<&TileDef>)
        ensures
            match r {
                Some(d) => {
                    &&& self.def_index_spec(local) is Some
                    &&& 0 <= self.def_index_spec(local)->0 < self.tiles@.len()
                    &&& *d == self.tiles@[self.def_index_spec(local)->0]
                },
                None => self.def_index_spec(local) is None,
            },
    {
        let mut i: usize = 0;
        while i < self.tiles.len()
            invariant
                i <= self.tiles.len(),
                choose_first_def(self.tiles@, local, 0) == choose_first_def(
                    self.tiles@,
                    local,
                    i as int,
                ),
                forall|j: int| 0 <= j < i ==> self.tiles@[j].local_id != local,
            decreases self.tiles.len() - i,
        {
            if self.tiles[i].local_id == local {
                return Some(&self.tiles[i]);
            }
            i = i + 1;
        }
        None
    }
}

/// Index of the first tile definition at or after `i` whose local id matches.
pub open spec fn choose_first_def(defs: Seq<TileDef>, local: u32, i: int) -> Option<int>
    decreases defs.len() - i,
{
    if i < 0 || i >= defs.len() {
        None
    } else if defs[i].local_id == local {
        Some(i)
    } else {
        choose_first_def(defs, local, i + 1)
    }
}

/// A dense grid of global tile indices, row-major, `width` cells per row.
#[derive(Clone, Debug)]
pub struct TileLayer {
    pub width: usize,
    pub cells: Vec<GlobalTileIndex>,
}

impl TileLayer {
    /// A tile layer needs at least one column for cells to have a row.
    pub open spec fn wf(self) -> bool {
        1 <= self.width
    }
}

/// A node of the layer tree: a tile grid, a list of objects, a decorative
/// image, a group of nested layers, or a kind this engine does not support.
#[derive(Debug)]
pub enum Layer {
    Tiles(TileLayer),
    Objects(Vec<Object>),
    /// A purely decorative image layer: supported, but it yields no
    /// simulated entities.
    Image(String),
    Group(Vec<Layer>),
    /// An unsupported layer kind, carrying its name for diagnostics.
    Unsupported(String),
}

/// The decoded map: the layer tree, and the lookup tables (tile cell
/// dimensions and tilesets) that ingestion resolves tile ids against.
#[derive(Debug)]
pub struct TiledMap {
    pub layers: Vec<Layer>,
    pub tables: MapTables,
}

/// The map's lookup tables: tile cell dimensions and the tilesets the
/// map's global tile ids resolve against.
#[derive(Debug)]
pub struct MapTables {
    pub tile_width: i64,
    pub tile_height: i64,
    pub tilesets: Vec<Tileset>,
}

impl MapTables {
    pub open spec fn wf(self) -> bool {
        &&& 0 < self.tile_width <= 0x10000
        &&& 0 < self.tile_height <= 0x10000
        &&& forall|i: int| 0 <= i < self.tilesets@.len() ==> (#[trigger] self.tilesets@[i]).wf()
    }

    /// Index of the first tileset owning the global tile id, if any.
    pub open spec fn tileset_index_spec(self, id: u32) -> Option<int> {
        choose_first_tileset(self.tilesets@, id, 0)
    }

    /// The registered source rectangle for a global tile id, resolved
    /// against the tileset that owns the id's range.
    pub open spec fn rect_of_spec(self, id: u32) -> Option<Aabb> {
        match self.tileset_index_spec(id) {
            Some(t) => Some(self.tilesets@[t].rect_of_spec(id)),
            None => None,
        }
    }

    /// Find the tileset owning a global tile id.
    pub fn tileset_for(&self, id: u32) -> (r: Option<&Tileset>)
        requires
            self.wf(),
        ensures
            match r {
                Some(ts) => {
                    &&& self.tileset_index_spec(id) is Some
                    &&& 0 <= self.tileset_index_spec(id)->0 < self.tilesets@.len()
                    &&& *ts == self.tilesets@[self.tileset_index_spec(id)->0]
                    &&& ts.contains_spec(id)
                },
                None => self.tileset_index_spec(id) is None,
            },
    {
        let mut i: usize = 0;
        while i < self.tilesets.len()
            invariant
                self.wf(),
                i <= self.tilesets.len(),
                choose_first_tileset(self.tilesets@, id, 0) == choose_first_tileset(
                    self.tilesets@,
                    id,
                    i as int,
                ),
            decreases self.tilesets.len() - i,
        {
            if self.tilesets[i].contains(id) {
                return Some(&self.tilesets[i]);
            }
            i = i + 1;
        }
        None
    }
}

/// Index of the first tileset at or after `i` that owns the global tile id.
pub open spec fn choose_first_tileset(sets: Seq<Tileset>, id: u32, i: int) -> Option<int>
    decreases sets.len() - i,
{
    if i < 0 || i >= sets.len() {
        None
    } else if sets[i].contains_spec(id) {
        Some(i)
    } else {
        choose_first_tileset(sets, id, i + 1)
    }
}

} // verus!
