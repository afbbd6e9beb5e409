//! The simulated world: entities with sparse components, plus the change
//! logs that keep the spatial index consistent from tick to tick.
//!
//! An entity is an index into the world's rows. Components live in the row;
//! a missing component is `None`. Writes to Position and Shape are appended
//! to change logs that consumers read through their own cursors.

use vstd::prelude::*;
use crate::geom::{Aabb, Cardinal, Shape, V2};
use crate::tiled::{Frame, Object, Property};

verus! {

/// A recoverable condition worth reporting but not fatal to ingestion.
#[derive(Clone, Debug)]
pub enum Diagnostic {
    /// A layer of a kind the engine does not support was skipped.
    UnsupportedLayerKind(String),
    /// A character object named a control scheme the engine does not know.
    UnknownControlScheme(String),
}

/// The components one entity owns. A field of `None` means the entity
/// does not carry that component.
#[derive(Clone, Debug)]
pub struct EntityRow {
    /// Dead rows keep their slot so entity ids stay stable.
    pub alive: bool,
    /// World-space origin; present iff the entity is spatially located.
    pub position: Option<V2>,
    /// Rate of motion; only on moving entities.
    pub velocity: Option<V2>,
    /// Collision geometry in entity-local coordinates.
    pub shape: Option<Shape>,
    /// The entity takes part in collision resolution.
    pub barrier: bool,
    /// Layer order; entities interact physically only on equal levels.
    pub zlevel: Option<i64>,
    /// Local pivot correction for renderers.
    pub origin_offset: Option<V2>,
    /// Source rectangle of the entity's visual frame.
    pub rendering: Option<Aabb>,
    /// Animation frames, if the tile definition carries any.
    pub animation: Option<Vec<Frame>>,
    /// Display/lookup key.
    pub name: Option<String>,
    /// Index of the player controlling this entity.
    pub player: Option<u32>,
    /// Item data consumed from an inventory-typed object.
    pub item: Option<ItemData>,
    /// An unrecognized object kept verbatim for other systems to claim.
    pub raw_object: Option<Object>,
    /// Properties no dispatch branch consumed; never beside `raw_object`.
    pub leftover: Option<Vec<Property>>,
    /// The compass direction the entity last moved in.
    pub cardinal: Option<Cardinal>,
    /// Suppressed: excluded from motion and collision.
    pub exile: bool,
    /// A pending request to load the map at this path.
    pub map_request: Option<String>,
}

/// Item data consumed from an object of the inventory vocabulary.
#[derive(Clone, Debug)]
pub struct ItemData {
    /// How many of the item stack together, when authored.
    pub stack: Option<i64>,
    /// Whether the item can be used from an inventory.
    pub usable: bool,
}

impl EntityRow {
    /// A live row with no components.
    pub open spec fn empty_spec() -> EntityRow {
        EntityRow {
            alive: true,
            position: None,
            velocity: None,
            shape: None,
            barrier: false,
            zlevel: None,
            origin_offset: None,
            rendering: None,
            animation: None,
            name: None,
            player: None,
            item: None,
            raw_object: None,
            leftover: None,
            cardinal: None,
            exile: false,
            map_request: None,
        }
    }

    /// Make a live row with no components.
    pub fn empty() -> (r: EntityRow)
        ensures
            r == EntityRow::empty_spec(),
    {
        EntityRow {
            alive: true,
            position: None,
            velocity: None,
            shape: None,
            barrier: false,
            zlevel: None,
            origin_offset: None,
            rendering: None,
            animation: None,
            name: None,
            player: None,
            item: None,
            raw_object: None,
            leftover: None,
            cardinal: None,
            exile: false,
            map_request: None,
        }
    }

    /// A dead row: the slot of a deleted entity.
    pub open spec fn dead_spec() -> EntityRow {
        EntityRow { alive: false, ..EntityRow::empty_spec() }
    }
}

/// The world: entity rows, the Position and Shape change logs, and the
/// diagnostics gathered while ingesting maps.
#[derive(Debug)]
pub struct World {
    pub rows: Vec<EntityRow>,
    /// Ids whose Position changed, in write order; read via cursors.
    pub position_events: Vec<usize>,
    /// Ids whose Shape changed, in write order; read via cursors.
    pub shape_events: Vec<usize>,
    pub diagnostics: Vec<Diagnostic>,
}

impl World {
    /// Every id a change log names is a row of the world.
    pub open spec fn wf(self) -> bool {
        &&& forall|i: int|
            0 <= i < self.position_events@.len() ==> (#[trigger] self.position_events@[i])
                < self.rows@.len()
        &&& forall|i: int|
            0 <= i < self.shape_events@.len() ==> (#[trigger] self.shape_events@[i])
                < self.rows@.len()
    }

    pub fn new() -> (r: World)
        ensures
            r.rows@ =~= Seq::<EntityRow>::empty(),
            r.position_events@ =~= Seq::<usize>::empty(),
            r.shape_events@ =~= Seq::<usize>::empty(),
            r.diagnostics@ =~= Seq::<Diagnostic>::empty(),
            r.wf(),
    {
        World {
            rows: Vec::new(),
            position_events: Vec::new(),
            shape_events: Vec::new(),
            diagnostics: Vec::new(),
        }
    }

    /// Add an entity with the given components. Its Position and Shape,
    /// when present, are announced on the change logs so the spatial index
    /// learns of the new entity.
    pub fn spawn(&mut self, row: EntityRow) -> (ent: usize)
        requires
            old(self).wf(),
        ensures
            ent == old(self).rows@.len(),
            final(self).rows@ == old(self).rows@.push(row),
            final(self).position_events@ == if row.position is Some {
                old(self).position_events@.push(ent)
            } else {
                old(self).position_events@
            },
            final(self).shape_events@ == if row.shape is Some {
                old(self).shape_events@.push(ent)
            } else {
                old(self).shape_events@
            },
            final(self).diagnostics@ == old(self).diagnostics@,
            final(self).wf(),
    {
        let ent = self.rows.len();
        let has_position = row.position.is_some();
        let has_shape = row.shape.is_some();
        self.rows.push(row);
        if has_position {
            self.position_events.push(ent);
        }
        if has_shape {
            self.shape_events.push(ent);
        }
        ent
    }

    /// Delete an entity: its slot stays, cleared and marked dead.
    pub fn delete(&mut self, ent: usize)
        requires
            old(self).wf(),
            ent < old(self).rows@.len(),
        ensures
            final(self).rows@ == old(self).rows@.update(ent as int, EntityRow::dead_spec()),
            final(self).position_events@ == old(self).position_events@,
            final(self).shape_events@ == old(self).shape_events@,
            final(self).diagnostics@ == old(self).diagnostics@,
            final(self).wf(),
    {
        let mut row = EntityRow::empty();
        row.alive = false;
        let _old_row = self.rows.remove(ent);
        self.rows.insert(ent, row);
        proof {
            assert(self.rows@ =~= old(self).rows@.update(ent as int, EntityRow::dead_spec()));
        }
    }

    /// Move an entity: overwrite its Position and log the change.
    pub fn set_position(&mut self, ent: usize, p: V2)
        requires
            old(self).wf(),
            ent < old(self).rows@.len(),
        ensures
            final(self).rows@ == old(self).rows@.update(
                ent as int,
                EntityRow { position: Some(p), ..old(self).rows@[ent as int] },
            ),
            final(self).position_events@ == old(self).position_events@.push(ent),
            final(self).shape_events@ == old(self).shape_events@,
            final(self).diagnostics@ == old(self).diagnostics@,
            final(self).wf(),
    {
        let mut row = self.rows.remove(ent);
        row.position = Some(p);
        self.rows.insert(ent, row);
        proof {
            assert(self.rows@ =~= old(self).rows@.update(
                ent as int,
                EntityRow { position: Some(p), ..old(self).rows@[ent as int] },
            ));
        }
        self.position_events.push(ent);
    }

    /// Overwrite an entity's Velocity.
    pub fn set_velocity(&mut self, ent: usize, v: V2)
        requires
            old(self).wf(),
            ent < old(self).rows@.len(),
        ensures
            final(self).rows@ == old(self).rows@.update(
                ent as int,
                EntityRow { velocity: Some(v), ..old(self).rows@[ent as int] },
            ),
            final(self).position_events@ == old(self).position_events@,
            final(self).shape_events@ == old(self).shape_events@,
            final(self).diagnostics@ == old(self).diagnostics@,
            final(self).wf(),
    {
        let mut row = self.rows.remove(ent);
        row.velocity = Some(v);
        self.rows.insert(ent, row);
        proof {
            assert(self.rows@ =~= old(self).rows@.update(
                ent as int,
                EntityRow { velocity: Some(v), ..old(self).rows@[ent as int] },
            ));
        }
    }

    /// Overwrite the compass direction the entity last moved in.
    pub fn set_cardinal(&mut self, ent: usize, c: Cardinal)
        requires
            old(self).wf(),
            ent < old(self).rows@.len(),
        ensures
            final(self).rows@ == old(self).rows@.update(
                ent as int,
                EntityRow { cardinal: Some(c), ..old(self).rows@[ent as int] },
            ),
            final(self).position_events@ == old(self).position_events@,
            final(self).shape_events@ == old(self).shape_events@,
            final(self).diagnostics@ == old(self).diagnostics@,
            final(self).wf(),
    {
        let mut row = self.rows.remove(ent);
        row.cardinal = Some(c);
        self.rows.insert(ent, row);
        proof {
            assert(self.rows@ =~= old(self).rows@.update(
                ent as int,
                EntityRow { cardinal: Some(c), ..old(self).rows@[ent as int] },
            ));
        }
    }

    /// Mark or clear an entity's suppressed state.
    pub fn set_exile(&mut self, ent: usize, exile: bool)
        requires
            old(self).wf(),
            ent < old(self).rows@.len(),
        ensures
            final(self).rows@ == old(self).rows@.update(
                ent as int,
                EntityRow { exile, ..old(self).rows@[ent as int] },
            ),
            final(self).position_events@ == old(self).position_events@,
            final(self).shape_events@ == old(self).shape_events@,
            final(self).diagnostics@ == old(self).diagnostics@,
            final(self).wf(),
    {
        let mut row = self.rows.remove(ent);
        row.exile = exile;
        self.rows.insert(ent, row);
        proof {
            assert(self.rows@ =~= old(self).rows@.update(
                ent as int,
                EntityRow { exile, ..old(self).rows@[ent as int] },
            ));
        }
    }

    /// Borrow an entity's row.
    pub fn row(&self, ent: usize) -> (r: &EntityRow)
        requires
            ent < self.rows@.len(),
        ensures
            *r == self.rows@[ent as int],
    {
        &self.rows[ent]
    }

    /// Number of entity slots, live and dead.
    pub fn len(&self) -> (r: usize)
        ensures
            r == self.rows@.len(),
    {
        self.rows.len()
    }
}

} // verus!
