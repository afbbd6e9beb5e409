//! The broad-phase spatial index: a bounding-box table over entities,
//! reconciled each tick from the Position and Shape change logs, and
//! queried for overlapping shapes and barriers.
//!
//! The index's internal layout is a flat table scanned in entry order;
//! queries report candidates in ascending entry order (entity insertion
//! order), which is the engine's deterministic tie-break for simultaneous
//! overlaps.

use vstd::prelude::*;
use crate::geom::{Aabb, V2};
use crate::world::{EntityRow, World};

verus! {

/// Largest magnitude a stored box coordinate may have. Keeping stored
/// boxes inside this budget keeps every query's arithmetic inside `i64`.
pub const TREE_LIMIT: i64 = 0x8000_0000_0000;

/// A box within the index's coordinate budget.
pub open spec fn aabb_in_budget(b: Aabb) -> bool {
    &&& -TREE_LIMIT <= b.x0 <= TREE_LIMIT
    &&& -TREE_LIMIT <= b.y0 <= TREE_LIMIT
    &&& -TREE_LIMIT <= b.x1 <= TREE_LIMIT
    &&& -TREE_LIMIT <= b.y1 <= TREE_LIMIT
}

/// Index of the first entry at or after `i` that belongs to `ent`.
pub open spec fn find_entry(entries: Seq<(usize, Aabb)>, ent: usize, i: int) -> Option<int>
    decreases entries.len() - i,
{
    if i < 0 || i >= entries.len() {
        None
    } else if entries[i].0 == ent {
        Some(i)
    } else {
        find_entry(entries, ent, i + 1)
    }
}

/// The entries after an insert-or-update of `ent`'s box.
pub open spec fn upsert(entries: Seq<(usize, Aabb)>, ent: usize, b: Aabb) -> Seq<(usize, Aabb)> {
    match find_entry(entries, ent, 0) {
        Some(i) => entries.update(i, (ent, b)),
        None => entries.push((ent, b)),
    }
}

/// The entries after removing `ent`'s box, if it had one.
pub open spec fn drop_entry(entries: Seq<(usize, Aabb)>, ent: usize) -> Seq<(usize, Aabb)> {
    match find_entry(entries, ent, 0) {
        Some(i) => entries.remove(i),
        None => entries,
    }
}

/// The world-space box an entity occupies, when it is live and has both
/// a Position and a Shape.
pub open spec fn world_box(row: EntityRow) -> Option<Aabb> {
    if row.alive && row.position is Some && row.shape is Some {
        Some(
            row.shape->0.aabb_spec().shifted(
                row.position->0.x as int,
                row.position->0.y as int,
            ),
        )
    } else {
        None
    }
}

/// The entries after reconciling one changed entity against the world.
pub open spec fn apply_event(
    entries: Seq<(usize, Aabb)>,
    rows: Seq<EntityRow>,
    ent: usize,
) -> Seq<(usize, Aabb)> {
    if ent < rows.len() {
        match world_box(rows[ent as int]) {
            Some(b) => upsert(entries, ent, b),
            None => drop_entry(entries, ent),
        }
    } else {
        drop_entry(entries, ent)
    }
}

/// The entries after reconciling a whole change-event list, in order.
pub open spec fn apply_events(
    entries: Seq<(usize, Aabb)>,
    rows: Seq<EntityRow>,
    evs: Seq<usize>,
) -> Seq<(usize, Aabb)>
    decreases evs.len(),
{
    if evs.len() == 0 {
        entries
    } else {
        apply_event(apply_events(entries, rows, evs.drop_last()), rows, evs.last())
    }
}

/// The barrier candidates a query reports for origin box `a` of entity
/// `ent`: every other entry whose entity is a live barrier of the world
/// and whose stored box overlaps `a`, with the minimum translation vector
/// that pushes `a` out of it, in entry order.
pub open spec fn query_barriers_spec(
    entries: Seq<(usize, Aabb)>,
    rows: Seq<EntityRow>,
    ent: usize,
    a: Aabb,
) -> Seq<(usize, V2)>
    decreases entries.len(),
{
    if entries.len() == 0 {
        Seq::empty()
    } else {
        let head = entries[0];
        let rest = query_barriers_spec(entries.drop_first(), rows, ent, a);
        if head.0 != ent && head.0 < rows.len() && rows[head.0 as int].alive && rows[head.0
            as int].barrier && a.overlaps(head.1) {
            seq![(head.0, a.mtv_spec(head.1))] + rest
        } else {
            rest
        }
    }
}

/// The overlap candidates a proximity query reports for origin box `a`:
/// every other entry overlapping `a`, with its stored box and the minimum
/// translation vector, in entry order.
pub open spec fn query_shapes_spec(
    entries: Seq<(usize, Aabb)>,
    rows: Seq<EntityRow>,
    ent: usize,
    a: Aabb,
) -> Seq<(usize, Aabb, V2)>
    decreases entries.len(),
{
    if entries.len() == 0 {
        Seq::empty()
    } else {
        let head = entries[0];
        let rest = query_shapes_spec(entries.drop_first(), rows, ent, a);
        if head.0 != ent && head.0 < rows.len() && rows[head.0 as int].alive && a.overlaps(
            head.1,
        ) {
            seq![(head.0, head.1, a.mtv_spec(head.1))] + rest
        } else {
            rest
        }
    }
}

/// The incremental bounding-box index over entities.
#[derive(Debug)]
pub struct AabbTree {
    /// One entry per indexed entity: its id and its world-space box.
    pub entries: Vec<(usize, Aabb)>,
}

impl AabbTree {
    /// Well-formed: one entry per entity, every box well formed and
    /// within the coordinate budget.
    pub open spec fn wf(self) -> bool {
        &&& forall|i: int, j: int|
            0 <= i < j < self.entries@.len() ==> (#[trigger] self.entries@[i]).0 != (
            #[trigger] self.entries@[j]).0
        &&& forall|i: int|
            0 <= i < self.entries@.len() ==> (#[trigger] self.entries@[i]).1.wf()
                && aabb_in_budget(self.entries@[i].1)
    }

    pub fn new() -> (r: AabbTree)
        ensures
            r.entries@ =~= Seq::<(usize, Aabb)>::empty(),
            r.wf(),
    {
        AabbTree { entries: Vec::new() }
    }

    /// Find the position of an entity's entry.
    fn find(&self, ent: usize) -> (r: Option<usize>)
        ensures
            match r {
                Some(i) => find_entry(self.entries@, ent, 0) == Some(i as int),
                None => find_entry(self.entries@, ent, 0) is None,
            },
    {
        let mut i: usize = 0;
        while i < self.entries.len()
            invariant
                i <= self.entries.len(),
                find_entry(self.entries@, ent, 0) == find_entry(self.entries@, ent, i as int),
            decreases self.entries.len() - i,
        {
            if self.entries[i].0 == ent {
                return Some(i);
            }
            i = i + 1;
        }
        None
    }

    /// Insert or update the box stored for an entity.
    pub fn insert(&mut self, ent: usize, b: Aabb)
        requires
            old(self).wf(),
            b.wf(),
            aabb_in_budget(b),
        ensures
            final(self).entries@ == upsert(old(self).entries@, ent, b),
            final(self).entries@.len() <= old(self).entries@.len() + 1,
            final(self).wf(),
    {
        let found = self.find(ent);
        proof {
            lemma_find_entry_bounds(old(self).entries@, ent, 0);
        }
        match found {
            Some(i) => {
                let _old_entry = self.entries.remove(i);
                self.entries.insert(i, (ent, b));
                proof {
                    assert(self.entries@ =~= old(self).entries@.update(i as int, (ent, b)));
                }
            },
            None => {
                self.entries.push((ent, b));
            },
        }
    }

    /// Forget an entity's box, if one is stored.
    pub fn remove(&mut self, ent: usize)
        requires
            old(self).wf(),
        ensures
            final(self).entries@ == drop_entry(old(self).entries@, ent),
            final(self).entries@.len() <= old(self).entries@.len(),
            final(self).wf(),
    {
        let found = self.find(ent);
        match found {
            Some(i) => {
                proof {
                    lemma_find_entry_bounds(self.entries@, ent, 0);
                }
                let _old_entry = self.entries.remove(i);
            },
            None => {},
        }
    }

    /// Reconcile the index with the world for every entity named on a
    /// change-event list: entities that now have a Position and a Shape
    /// get their current world-space box stored; the rest are dropped.
    pub fn update_tree(&mut self, world: &World, events: &Vec<usize>)
        requires
            old(self).wf(),
            forall|k: int|
                0 <= k < events@.len() ==> event_box_in_budget(
                    world.rows@,
                    #[trigger] events@[k],
                ),
        ensures
            final(self).entries@ == apply_events(old(self).entries@, world.rows@, events@),
            final(self).wf(),
    {
        let mut k: usize = 0;
        while k < events.len()
            invariant
                k <= events@.len(),
                self.wf(),
                self.entries@ == apply_events(old(self).entries@, world.rows@, events@.take(
                    k as int,
                )),
                forall|j: int|
                    0 <= j < events@.len() ==> event_box_in_budget(
                        world.rows@,
                        #[trigger] events@[j],
                    ),
            decreases events@.len() - k,
        {
            let ent = events[k];
            if ent < world.len() {
                let row = world.row(ent);
                let alive = row.alive;
                let pos = row.position;
                let has_shape = row.shape.is_some();
                if alive && pos.is_some() && has_shape {
                    let b = match &row.shape {
                        Some(s) => s.aabb(),
                        None => Aabb::new(0, 0, 0, 0),
                    };
                    let p = match pos {
                        Some(p) => p,
                        None => V2::new(0, 0),
                    };
                    let wb = b.translate(&p);
                    self.insert(ent, wb);
                } else {
                    self.remove(ent);
                }
            } else {
                self.remove(ent);
            }
            proof {
                assert(events@.take(k + 1).drop_last() =~= events@.take(k as int));
                assert(events@.take(k + 1).last() == events@[k as int]);
            }
            k = k + 1;
        }
        proof {
            assert(events@.take(events@.len() as int) =~= events@);
        }
    }

    /// Query every barrier entry overlapping the origin entity's box,
    /// with the minimum translation vector out of each, in entry order.
    /// A pure proximity test: the index is not changed.
    pub fn query_intersecting_barriers(&self, world: &World, ent: usize, a: Aabb) -> (r: Vec<
        (usize, V2),
    >)
        requires
            self.wf(),
            a.wf(),
            aabb_in_budget(a),
        ensures
            r@ == query_barriers_spec(self.entries@, world.rows@, ent, a),
            r@.len() <= self.entries@.len(),
    {
        let mut out: Vec<(usize, V2)> = Vec::new();
        let mut i: usize = 0;
        proof {
            assert(self.entries@.skip(0) =~= self.entries@);
            assert(out@ + query_barriers_spec(self.entries@, world.rows@, ent, a)
                =~= query_barriers_spec(self.entries@, world.rows@, ent, a));
        }
        while i < self.entries.len()
            invariant
                i <= self.entries@.len(),
                self.wf(),
                a.wf(),
                aabb_in_budget(a),
                out@.len() <= i,
                query_barriers_spec(self.entries@, world.rows@, ent, a) == out@
                    + query_barriers_spec(
                    self.entries@.skip(i as int),
                    world.rows@,
                    ent,
                    a,
                ),
            decreases self.entries@.len() - i,
        {
            let (other, b) = self.entries[i];
            proof {
                assert(self.entries@.skip(i as int)[0] == self.entries@[i as int]);
                assert(self.entries@.skip(i as int).drop_first() =~= self.entries@.skip(i + 1));
            }
            if other != ent && other < world.len() {
                let orow = world.row(other);
                if orow.alive && orow.barrier && a.intersects(&b) {
                    let m = a.mtv(&b);
                    let ghost prev = out@;
                    out.push((other, m));
                    proof {
                        assert(prev + (seq![(other, m)] + query_barriers_spec(
                            self.entries@.skip(i + 1),
                            world.rows@,
                            ent,
                            a,
                        )) =~= out@ + query_barriers_spec(
                            self.entries@.skip(i + 1),
                            world.rows@,
                            ent,
                            a,
                        ));
                    }
                }
            }
            i = i + 1;
        }
        proof {
            assert(self.entries@.skip(self.entries@.len() as int)
                =~= Seq::<(usize, Aabb)>::empty());
            assert(out@ + query_barriers_spec(Seq::empty(), world.rows@, ent, a) =~= out@);
        }
        out
    }

    /// Query every entry overlapping the origin entity's box, with its
    /// stored box and the minimum translation vector, in entry order.
    /// A pure proximity test: the index is not changed.
    pub fn query_intersecting_shapes(&self, world: &World, ent: usize, a: Aabb) -> (r: Vec<
        (usize, Aabb, V2),
    >)
        requires
            self.wf(),
            a.wf(),
            aabb_in_budget(a),
        ensures
            r@ == query_shapes_spec(self.entries@, world.rows@, ent, a),
    {
        let mut out: Vec<(usize, Aabb, V2)> = Vec::new();
        let mut i: usize = 0;
        proof {
            assert(self.entries@.skip(0) =~= self.entries@);
            assert(out@ + query_shapes_spec(self.entries@, world.rows@, ent, a)
                =~= query_shapes_spec(self.entries@, world.rows@, ent, a));
        }
        while i < self.entries.len()
            invariant
                i <= self.entries@.len(),
                self.wf(),
                a.wf(),
                aabb_in_budget(a),
                query_shapes_spec(self.entries@, world.rows@, ent, a) == out@ + query_shapes_spec(
                    self.entries@.skip(i as int),
                    world.rows@,
                    ent,
                    a,
                ),
            decreases self.entries@.len() - i,
        {
            let (other, b) = self.entries[i];
            proof {
                assert(self.entries@.skip(i as int)[0] == self.entries@[i as int]);
                assert(self.entries@.skip(i as int).drop_first() =~= self.entries@.skip(i + 1));
            }
            if other != ent && other < world.len() {
                let orow = world.row(other);
                if orow.alive && a.intersects(&b) {
                    let m = a.mtv(&b);
                    let ghost prev = out@;
                    out.push((other, b, m));
                    proof {
                        assert(prev + (seq![(other, b, m)] + query_shapes_spec(
                            self.entries@.skip(i + 1),
                            world.rows@,
                            ent,
                            a,
                        )) =~= out@ + query_shapes_spec(
                            self.entries@.skip(i + 1),
                            world.rows@,
                            ent,
                            a,
                        ));
                    }
                }
            }
            i = i + 1;
        }
        proof {
            assert(self.entries@.skip(self.entries@.len() as int)
                =~= Seq::<(usize, Aabb)>::empty());
            assert(out@ + query_shapes_spec(Seq::empty(), world.rows@, ent, a) =~= out@);
        }
        out
    }
}

/// Whether reconciling this entity stores a box inside the budget:
/// either it has no current world box, or shifting its shape's bounds to
/// its position neither overflows nor leaves the coordinate budget.
pub open spec fn event_box_in_budget(rows: Seq<EntityRow>, ent: usize) -> bool {
    ent < rows.len() ==> {
        let row = rows[ent as int];
        (row.alive && row.position is Some && row.shape is Some) ==> {
            let s = row.shape->0.aabb_spec();
            let p = row.position->0;
            &&& i64::MIN <= s.x0 + p.x <= i64::MAX
            &&& i64::MIN <= s.y0 + p.y <= i64::MAX
            &&& i64::MIN <= s.x1 + p.x <= i64::MAX
            &&& i64::MIN <= s.y1 + p.y <= i64::MAX
            &&& world_box(row)->0.wf()
            &&& aabb_in_budget(world_box(row)->0)
        }
    }
}

/// A found entry index lies inside the entry list and names the entity;
/// an absent entry means no entry at or after `i` names it.
proof fn lemma_find_entry_bounds(entries: Seq<(usize, Aabb)>, ent: usize, i: int)
    requires
        0 <= i,
    ensures
        match find_entry(entries, ent, i) {
            Some(j) => i <= j < entries.len() && entries[j].0 == ent,
            None => forall|j: int| i <= j < entries.len() ==> (#[trigger] entries[j]).0 != ent,
        },
    decreases entries.len() - i,
{
    if 0 <= i < entries.len() && entries[i].0 != ent {
        lemma_find_entry_bounds(entries, ent, i + 1);
    }
}

} // verus!
