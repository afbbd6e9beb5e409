//! The per-tick physics step: motion integration for velocity-bearing
//! entities, barrier-collision resolution through the spatial index, and
//! the reconciliation of the index from the Position and Shape change
//! logs.
//!
//! Corrected positions are clamped to the world's coordinate budget
//! (`POS_LIMIT`), which keeps every correction inside `i64` however many
//! barriers push back in one pass.

use vstd::prelude::*;
use vstd::string::StringExecFns;
use crate::geom::{Aabb, Cardinal, V2};
use crate::spatial::{
    aabb_in_budget, apply_events, event_box_in_budget, find_entry, query_barriers_spec, upsert,
    AabbTree,
};
use crate::world::{EntityRow, World};

verus! {

/// Largest magnitude a position coordinate may have: the world's
/// coordinate budget.
pub const POS_LIMIT: i64 = 0x4000_0000_0000;

/// Largest magnitude an entity-local shape coordinate may have.
pub const SHAPE_LIMIT: i64 = 0x100_0000_0000;

/// A coordinate clamped into the world's coordinate budget.
pub open spec fn clamp_coord(v: int) -> i64 {
    if v > POS_LIMIT {
        POS_LIMIT
    } else if v < -POS_LIMIT {
        (-POS_LIMIT) as i64
    } else {
        v as i64
    }
}

/// A position minus a translation vector, each coordinate clamped into
/// the coordinate budget.
pub open spec fn sub_clamped(p: V2, m: V2) -> V2 {
    V2 { x: clamp_coord(p.x - m.x), y: clamp_coord(p.y - m.y) }
}

/// A shape's bounding box is well formed and within the shape budget.
pub open spec fn shape_box_ok(b: Aabb) -> bool {
    &&& b.wf()
    &&& -SHAPE_LIMIT <= b.x0 <= SHAPE_LIMIT
    &&& -SHAPE_LIMIT <= b.y0 <= SHAPE_LIMIT
    &&& -SHAPE_LIMIT <= b.x1 <= SHAPE_LIMIT
    &&& -SHAPE_LIMIT <= b.y1 <= SHAPE_LIMIT
}

/// A vector within the world's coordinate budget.
pub open spec fn v2_in_budget(p: V2) -> bool {
    -POS_LIMIT <= p.x <= POS_LIMIT && -POS_LIMIT <= p.y <= POS_LIMIT
}

/// Whether this entity moves this tick: it is live, not exiled, carries
/// a Velocity, and its displacement over `dt` is not zero.
pub open spec fn moving(row: EntityRow, dt: i64) -> bool {
    &&& row.alive
    &&& row.velocity is Some
    &&& !row.exile
    &&& (row.velocity->0.x * dt != 0 || row.velocity->0.y * dt != 0)
}

/// The row after motion integration: a moving entity's position advances
/// by `velocity * dt` and its compass direction is rewritten from its
/// velocity; any other row is unchanged.
pub open spec fn moved_row(row: EntityRow, dt: i64) -> EntityRow {
    if moving(row, dt) {
        let v = row.velocity->0;
        let p = row.position->0;
        let np = V2 { x: (p.x + v.x * dt) as i64, y: (p.y + v.y * dt) as i64 };
        let c = match Cardinal::of_v2_spec(v) {
            Some(c) => Some(c),
            None => row.cardinal,
        };
        EntityRow { position: Some(np), cardinal: c, ..row }
    } else {
        row
    }
}

/// The entities the motion pass moves among the first `n`, in ascending
/// order: the ids appended to the Position change log.
pub open spec fn moved_ids(rows: Seq<EntityRow>, dt: i64, n: int) -> Seq<usize>
    decreases n,
{
    if n <= 0 {
        Seq::empty()
    } else {
        moved_ids(rows, dt, n - 1) + if moving(rows[n - 1], dt) {
            seq![(n - 1) as usize]
        } else {
            Seq::empty()
        }
    }
}

/// The motion pass's contract on the world: a Velocity implies the
/// entity is spatially located, so every live, non-exiled
/// velocity-bearing entity has a Position, whatever its displacement;
/// displacement arithmetic fits `i64` and lands inside the coordinate
/// budget.
pub open spec fn motion_ok(rows: Seq<EntityRow>, dt: i64) -> bool {
    forall|i: int|
        0 <= i < rows.len() ==> {
            let row = #[trigger] rows[i];
            &&& (row.alive && row.velocity is Some && !row.exile) ==> {
                &&& row.position is Some
                &&& i64::MIN <= row.velocity->0.x * dt <= i64::MAX
                &&& i64::MIN <= row.velocity->0.y * dt <= i64::MAX
            }
            &&& moving(row, dt) ==> {
                &&& -POS_LIMIT <= row.position->0.x + row.velocity->0.x * dt <= POS_LIMIT
                &&& -POS_LIMIT <= row.position->0.y + row.velocity->0.y * dt <= POS_LIMIT
            }
        }
}

/// The rows after the motion pass.
pub open spec fn moved_rows(rows: Seq<EntityRow>, dt: i64) -> Seq<EntityRow> {
    Seq::new(rows.len(), |i: int| moved_row(rows[i], dt))
}

/// The world, the spatial index and the elapsed tick time the physics
/// step runs over.
#[derive(Debug)]
pub struct PhysicsSystemData {
    pub world: World,
    pub aabb_tree: AabbTree,
    /// The last tick's elapsed time, in the engine's time unit.
    pub dt: i64,
}

impl PhysicsSystemData {
    /// Move all the things that can move: every live, non-exiled entity
    /// with a Velocity advances by `velocity * dt`; a non-zero
    /// displacement rewrites the entity's compass direction.
    pub fn move_things(&mut self)
        requires
            old(self).world.wf(),
            motion_ok(old(self).world.rows@, old(self).dt),
        ensures
            final(self).world.rows@ == moved_rows(old(self).world.rows@, old(self).dt),
            final(self).world.position_events@ == old(self).world.position_events@ + moved_ids(
                old(self).world.rows@,
                old(self).dt,
                old(self).world.rows@.len() as int,
            ),
            final(self).world.shape_events@ == old(self).world.shape_events@,
            final(self).world.diagnostics@ == old(self).world.diagnostics@,
            final(self).aabb_tree == old(self).aabb_tree,
            final(self).dt == old(self).dt,
            final(self).world.wf(),
    {
        let dt = self.dt;
        let n = self.world.len();
        let mut ent: usize = 0;
        while ent < n
            invariant
                n == old(self).world.rows@.len(),
                ent <= n,
                self.dt == old(self).dt,
                self.aabb_tree == old(self).aabb_tree,
                self.world.wf(),
                motion_ok(old(self).world.rows@, dt),
                dt == old(self).dt,
                self.world.rows@.len() == n,
                forall|j: int|
                    0 <= j < ent ==> self.world.rows@[j] == moved_row(
                        old(self).world.rows@[j],
                        dt,
                    ),
                forall|j: int| ent <= j < n ==> self.world.rows@[j] == old(self).world.rows@[j],
                self.world.position_events@ == old(self).world.position_events@ + moved_ids(
                    old(self).world.rows@,
                    dt,
                    ent as int,
                ),
                self.world.shape_events@ == old(self).world.shape_events@,
                self.world.diagnostics@ == old(self).world.diagnostics@,
            decreases n - ent,
        {
            let row = self.world.row(ent);
            let alive = row.alive;
            let exile = row.exile;
            let vel = row.velocity;
            let pos = row.position;
            let ghost prev_events = self.world.position_events@;
            if alive && !exile && vel.is_some() {
                let v = match vel {
                    Some(v) => v,
                    None => V2::new(0, 0),
                };
                let dxy = v.scalar_mul(dt);
                if dxy.is_nonzero() {
                    let p = match pos {
                        Some(p) => p,
                        None => V2::new(0, 0),
                    };
                    proof {
                        assert(moving(old(self).world.rows@[ent as int], dt));
                        assert(pos is Some);
                    }
                    let np = p.plus(dxy);
                    self.world.set_position(ent, np);
                    match Cardinal::from_v2(&v) {
                        Some(c) => {
                            self.world.set_cardinal(ent, c);
                        },
                        None => {},
                    }
                    proof {
                        assert(self.world.rows@[ent as int] == moved_row(
                            old(self).world.rows@[ent as int],
                            dt,
                        ));
                    }
                }
            }
            proof {
                assert(moved_ids(old(self).world.rows@, dt, ent + 1) == moved_ids(
                    old(self).world.rows@,
                    dt,
                    ent as int,
                ) + if moving(old(self).world.rows@[ent as int], dt) {
                    seq![ent]
                } else {
                    Seq::<usize>::empty()
                });
                assert(self.world.position_events@ =~= old(self).world.position_events@
                    + moved_ids(old(self).world.rows@, dt, ent + 1));
            }
            ent = ent + 1;
        }
        proof {
            assert(self.world.rows@ =~= moved_rows(old(self).world.rows@, dt));
        }
    }
}

/// Whether a collision candidate counts against an entity on level `z`:
/// the other entity has a ZLevel, the two levels are equal, and the
/// other entity is not exiled.
pub open spec fn qualifies(row: EntityRow, z: i64) -> bool {
    &&& row.zlevel is Some
    &&& row.zlevel->0 == z
    &&& !row.exile
}

/// Whether an entity takes part in collision resolution: live, not
/// exiled, and carrying Velocity, Barrier, Shape and ZLevel. Only
/// velocity-bearing entities are adjusted, so tiles with overlapping
/// borders are never moved around.
pub open spec fn eligible(row: EntityRow) -> bool {
    &&& row.alive
    &&& row.velocity is Some
    &&& row.barrier
    &&& row.shape is Some
    &&& row.zlevel is Some
    &&& !row.exile
}

/// Fold a query's candidates into a corrected position: each qualifying
/// candidate's minimum translation vector is subtracted in query order.
pub open spec fn resolve_pos(p: V2, cands: Seq<(usize, V2)>, rows: Seq<EntityRow>, z: i64) -> V2
    decreases cands.len(),
{
    if cands.len() == 0 {
        p
    } else {
        let c = cands[0];
        let p2 = if c.0 < rows.len() && qualifies(rows[c.0 as int], z) {
            sub_clamped(p, c.1)
        } else {
            p
        };
        resolve_pos(p2, cands.drop_first(), rows, z)
    }
}

/// One entity's collision step: query the index for intersecting
/// barriers at the entity's current box, fold the qualifying minimum
/// translation vectors into a corrected position, and when it differs
/// write it back and refresh the entity's index entry at once, so
/// entities resolved later in the same tick see the corrected bounds.
/// The third component lists the Position change-log append.
pub open spec fn collide_one(
    rows: Seq<EntityRow>,
    entries: Seq<(usize, Aabb)>,
    ent: usize,
) -> (Seq<EntityRow>, Seq<(usize, Aabb)>, Seq<usize>) {
    let row = rows[ent as int];
    if !(eligible(row) && row.position is Some) {
        (rows, entries, Seq::empty())
    } else {
        let p = row.position->0;
        let a = row.shape->0.aabb_spec().shifted(p.x as int, p.y as int);
        let q = query_barriers_spec(entries, rows, ent, a);
        let np = resolve_pos(p, q, rows, row.zlevel->0);
        if np == p {
            (rows, entries, Seq::empty())
        } else {
            let nrows = rows.update(ent as int, EntityRow { position: Some(np), ..row });
            let nb = row.shape->0.aabb_spec().shifted(np.x as int, np.y as int);
            (nrows, upsert(entries, ent, nb), seq![ent])
        }
    }
}

/// The collision pass over the first `n` entities, in ascending entity
/// order: the engine's deterministic tie-break for simultaneous
/// overlaps.
pub open spec fn collide_upto(
    rows: Seq<EntityRow>,
    entries: Seq<(usize, Aabb)>,
    n: int,
) -> (Seq<EntityRow>, Seq<(usize, Aabb)>, Seq<usize>)
    decreases n,
{
    if n <= 0 {
        (rows, entries, Seq::empty())
    } else {
        let prev = collide_upto(rows, entries, n - 1);
        let step = collide_one(prev.0, prev.1, (n - 1) as usize);
        (step.0, step.1, prev.2 + step.2)
    }
}

/// The collision pass's contract on the world: an entity that will be
/// resolved has its position inside the coordinate budget and its
/// shape's bounds inside the shape budget.
pub open spec fn collide_ok(rows: Seq<EntityRow>) -> bool {
    forall|i: int|
        0 <= i < rows.len() ==> {
            let row = #[trigger] rows[i];
            (eligible(row) && row.position is Some) ==> {
                &&& shape_box_ok(row.shape->0.aabb_spec())
                &&& v2_in_budget(row.position->0)
            }
        }
}

/// The collision pass never touches an entity at or past `n`, and keeps
/// the number of rows.
pub proof fn lemma_collide_untouched(rows: Seq<EntityRow>, entries: Seq<(usize, Aabb)>, n: int)
    requires
        n <= rows.len(),
    ensures
        collide_upto(rows, entries, n).0.len() == rows.len(),
        forall|j: int| n <= j < rows.len() ==> collide_upto(rows, entries, n).0[j] == rows[j],
    decreases n,
{
    if n > 0 {
        lemma_collide_untouched(rows, entries, n - 1);
    }
}

/// Subtract a minimum translation vector, clamping into the budget.
pub fn clamped_sub(p: V2, m: V2) -> (r: V2)
    ensures
        r == sub_clamped(p, m),
{
    let dx = (p.x as i128) - (m.x as i128);
    let dy = (p.y as i128) - (m.y as i128);
    let x: i64 = if dx > POS_LIMIT as i128 {
        POS_LIMIT
    } else if dx < -POS_LIMIT as i128 {
        -POS_LIMIT
    } else {
        dx as i64
    };
    let y: i64 = if dy > POS_LIMIT as i128 {
        POS_LIMIT
    } else if dy < -POS_LIMIT as i128 {
        -POS_LIMIT
    } else {
        dy as i64
    };
    V2 { x, y }
}

impl PhysicsSystemData {
    /// For each entity that has a Position, Velocity, Barrier, Shape and
    /// ZLevel and is not exiled: query the spatial index for intersecting
    /// barriers and fold the qualifying minimum translation vectors into
    /// a corrected position, in query order. A candidate qualifies only
    /// if the other entity's ZLevel equals this one's and it is not
    /// exiled. A corrected position is written back and the entity's
    /// index entry refreshed immediately.
    pub fn collide_things(&mut self)
        requires
            old(self).world.wf(),
            old(self).aabb_tree.wf(),
            collide_ok(old(self).world.rows@),
        ensures
            ({
                let r = collide_upto(
                    old(self).world.rows@,
                    old(self).aabb_tree.entries@,
                    old(self).world.rows@.len() as int,
                );
                &&& final(self).world.rows@ == r.0
                &&& final(self).aabb_tree.entries@ == r.1
                &&& final(self).world.position_events@ == old(self).world.position_events@ + r.2
            }),
            final(self).world.shape_events@ == old(self).world.shape_events@,
            final(self).world.diagnostics@ == old(self).world.diagnostics@,
            final(self).dt == old(self).dt,
            final(self).world.wf(),
            final(self).aabb_tree.wf(),
    {
        let n = self.world.len();
        let mut ent: usize = 0;
        while ent < n
            invariant
                n == old(self).world.rows@.len(),
                ent <= n,
                self.dt == old(self).dt,
                self.world.wf(),
                self.aabb_tree.wf(),
                collide_ok(old(self).world.rows@),
                ({
                    let r = collide_upto(
                        old(self).world.rows@,
                        old(self).aabb_tree.entries@,
                        ent as int,
                    );
                    &&& self.world.rows@ == r.0
                    &&& self.aabb_tree.entries@ == r.1
                    &&& self.world.position_events@ == old(self).world.position_events@ + r.2
                }),
                self.world.shape_events@ == old(self).world.shape_events@,
                self.world.diagnostics@ == old(self).world.diagnostics@,
            decreases n - ent,
        {
            proof {
                lemma_collide_untouched(
                    old(self).world.rows@,
                    old(self).aabb_tree.entries@,
                    ent as int,
                );
                assert(self.world.rows@[ent as int] == old(self).world.rows@[ent as int]);
            }
            let ghost prev = collide_upto(
                old(self).world.rows@,
                old(self).aabb_tree.entries@,
                ent as int,
            );
            let row = self.world.row(ent);
            let alive = row.alive;
            let exile = row.exile;
            let barrier = row.barrier;
            let has_vel = row.velocity.is_some();
            let zl = row.zlevel;
            let pos = row.position;
            let has_shape = row.shape.is_some();
            if alive && !exile && barrier && has_vel && has_shape && zl.is_some() && pos.is_some()
            {
                let b_local = match &row.shape {
                    Some(s) => s.aabb(),
                    None => Aabb::new(0, 0, 0, 0),
                };
                let p = match pos {
                    Some(p) => p,
                    None => V2::new(0, 0),
                };
                let z = match zl {
                    Some(z) => z,
                    None => 0,
                };
                let a = b_local.translate(&p);
                let q = self.aabb_tree.query_intersecting_barriers(&self.world, ent, a);
                let ghost rows_now = self.world.rows@;
                let mut cur = p;
                let mut k: usize = 0;
                proof {
                    assert(q@.skip(0) =~= q@);
                }
                while k < q.len()
                    invariant
                        k <= q@.len(),
                        v2_in_budget(p),
                        v2_in_budget(cur),
                        rows_now == self.world.rows@,
                        resolve_pos(cur, q@.skip(k as int), rows_now, z) == resolve_pos(
                            p,
                            q@,
                            rows_now,
                            z,
                        ),
                    decreases q@.len() - k,
                {
                    let (o, m) = q[k];
                    proof {
                        assert(q@.skip(k as int)[0] == q@[k as int]);
                        assert(q@.skip(k as int).drop_first() =~= q@.skip(k + 1));
                    }
                    if o < self.world.len() {
                        let orow = self.world.row(o);
                        let oz = orow.zlevel;
                        let oexile = orow.exile;
                        match oz {
                            Some(ozv) => {
                                if ozv == z && !oexile {
                                    cur = clamped_sub(cur, m);
                                }
                            },
                            None => {},
                        }
                    }
                    k = k + 1;
                }
                proof {
                    assert(q@.skip(q@.len() as int) =~= Seq::<(usize, V2)>::empty());
                }
                let np = cur;
                if np != p {
                    self.world.set_position(ent, np);
                    let nb = b_local.translate(&np);
                    self.aabb_tree.insert(ent, nb);
                }
            }
            proof {
                let step = collide_one(prev.0, prev.1, ent);
                assert(collide_upto(
                    old(self).world.rows@,
                    old(self).aabb_tree.entries@,
                    ent + 1,
                ) == (step.0, step.1, prev.2 + step.2));
                assert(self.world.rows@ =~= step.0);
                assert(self.aabb_tree.entries@ =~= step.1);
                assert(self.world.position_events@ =~= old(self).world.position_events@ + (prev.2
                    + step.2));
            }
            ent = ent + 1;
        }
    }
}

/// Every candidate a barrier query reports names an entity of the world
/// other than the origin, drawn from the index's entries.
proof fn lemma_query_ids_from_entries(
    entries: Seq<(usize, Aabb)>,
    rows: Seq<EntityRow>,
    ent: usize,
    a: Aabb,
)
    ensures
        forall|k: int|
            0 <= k < query_barriers_spec(entries, rows, ent, a).len() ==> {
                let c = #[trigger] query_barriers_spec(entries, rows, ent, a)[k];
                &&& c.0 != ent
                &&& c.0 < rows.len()
                &&& exists|j: int| 0 <= j < entries.len() && (#[trigger] entries[j]).0 == c.0
            },
    decreases entries.len(),
{
    if entries.len() > 0 {
        lemma_query_ids_from_entries(entries.drop_first(), rows, ent, a);
        let q = query_barriers_spec(entries, rows, ent, a);
        let rest = query_barriers_spec(entries.drop_first(), rows, ent, a);
        assert forall|k: int| 0 <= k < q.len() implies {
            let c = #[trigger] q[k];
            &&& c.0 != ent
            &&& c.0 < rows.len()
            &&& exists|j: int| 0 <= j < entries.len() && (#[trigger] entries[j]).0 == c.0
        } by {
            let head = entries[0];
            if head.0 != ent && head.0 < rows.len() && rows[head.0 as int].alive && rows[head.0
                as int].barrier && a.overlaps(head.1) {
                if k == 0 {
                    assert(entries[0].0 == q[0].0);
                } else {
                    let c = rest[k - 1];
                    let j0 = choose|j: int|
                        0 <= j < entries.drop_first().len() && (#[trigger] entries.drop_first()[j]).0
                            == c.0;
                    assert(entries[j0 + 1].0 == c.0);
                }
            } else {
                let c = rest[k];
                let j0 = choose|j: int|
                    0 <= j < entries.drop_first().len() && (#[trigger] entries.drop_first()[j]).0
                        == c.0;
                assert(entries[j0 + 1].0 == c.0);
            }
        }
    }
}

/// A fold over candidates none of which qualifies leaves the position
/// unchanged.
proof fn lemma_resolve_no_qualifier(p: V2, cands: Seq<(usize, V2)>, rows: Seq<EntityRow>, z: i64)
    requires
        forall|k: int|
            0 <= k < cands.len() ==> !((#[trigger] cands[k]).0 < rows.len() && qualifies(
                rows[cands[k].0 as int],
                z,
            )),
    ensures
        resolve_pos(p, cands, rows, z) == p,
    decreases cands.len(),
{
    if cands.len() > 0 {
        assert(cands.drop_first().len() == cands.len() - 1);
        assert forall|k: int| 0 <= k < cands.drop_first().len() implies !((#[trigger] cands.drop_first()[k]).0
            < rows.len() && qualifies(rows[cands.drop_first()[k].0 as int], z)) by {
            assert(cands.drop_first()[k] == cands[k + 1]);
        }
        lemma_resolve_no_qualifier(p, cands.drop_first(), rows, z);
    }
}

/// Entities on different ZLevels never affect each other's resolved
/// position, however their boxes overlap: when every other entity with a
/// ZLevel sits on a different level than this one, the collision step
/// changes nothing.
pub proof fn lemma_zlevel_isolation(rows: Seq<EntityRow>, entries: Seq<(usize, Aabb)>, ent: usize)
    requires
        ent < rows.len(),
        forall|e: int|
            0 <= e < rows.len() && e != ent ==> ((#[trigger] rows[e]).zlevel is Some
                ==> rows[e].zlevel->0 != rows[ent as int].zlevel->0),
    ensures
        collide_one(rows, entries, ent) == (rows, entries, Seq::<usize>::empty()),
{
    let row = rows[ent as int];
    if eligible(row) && row.position is Some {
        let p = row.position->0;
        let a = row.shape->0.aabb_spec().shifted(p.x as int, p.y as int);
        let q = query_barriers_spec(entries, rows, ent, a);
        let z = row.zlevel->0;
        lemma_query_ids_from_entries(entries, rows, ent, a);
        assert forall|k: int| 0 <= k < q.len() implies !((#[trigger] q[k]).0 < rows.len()
            && qualifies(rows[q[k].0 as int], z)) by {
            assert(q[k].0 != ent && q[k].0 < rows.len());
        }
        lemma_resolve_no_qualifier(p, q, rows, z);
    }
}

/// Resolving against a single same-level barrier is idempotent: one pass
/// already separates the two boxes, so a second pass finds no overlap
/// and changes nothing. With several barriers pushing at once one
/// correction can open a new overlap, so this fixed point is stated for
/// the single-barrier case.
pub proof fn lemma_single_barrier_idempotent(
    rows: Seq<EntityRow>,
    ent: usize,
    other: usize,
    b: Aabb,
)
    requires
        ent < rows.len(),
        other < rows.len(),
        other != ent,
        eligible(rows[ent as int]),
        rows[ent as int].position is Some,
        -0x400_0000_0000 <= rows[ent as int].position->0.x <= 0x400_0000_0000,
        -0x400_0000_0000 <= rows[ent as int].position->0.y <= 0x400_0000_0000,
        shape_box_ok(rows[ent as int].shape->0.aabb_spec()),
        b.wf(),
        -0x800_0000_0000 <= b.x0 <= 0x800_0000_0000,
        -0x800_0000_0000 <= b.y0 <= 0x800_0000_0000,
        -0x800_0000_0000 <= b.x1 <= 0x800_0000_0000,
        -0x800_0000_0000 <= b.y1 <= 0x800_0000_0000,
        rows[other as int].alive,
        rows[other as int].barrier,
        qualifies(rows[other as int], rows[ent as int].zlevel->0),
    ensures
        ({
            let r1 = collide_one(rows, seq![(other, b)], ent);
            collide_one(r1.0, r1.1, ent) == (r1.0, r1.1, Seq::<usize>::empty())
        }),
{
    let row = rows[ent as int];
    let p = row.position->0;
    let s = row.shape->0.aabb_spec();
    let a = s.shifted(p.x as int, p.y as int);
    let z = row.zlevel->0;
    let entries = seq![(other, b)];
    assert(entries.len() == 1);
    assert(entries[0] == (other, b));
    assert(entries.drop_first() =~= Seq::<(usize, Aabb)>::empty());
    let q = query_barriers_spec(entries, rows, ent, a);
    assert(query_barriers_spec(entries.drop_first(), rows, ent, a) =~= Seq::<(usize, V2)>::empty());
    if !a.overlaps(b) {
        assert(q =~= Seq::<(usize, V2)>::empty());
        assert(resolve_pos(p, q, rows, z) == p);
        let r1 = collide_one(rows, entries, ent);
        assert(r1.0 == rows && r1.1 == entries);
    } else {
        let m = a.mtv_spec(b);
        assert(q =~= seq![(other, m)] + Seq::<(usize, V2)>::empty());
        assert(q =~= seq![(other, m)]);
        assert(q[0] == (other, m));
        assert(q.drop_first() =~= Seq::<(usize, V2)>::empty());
        // the single candidate qualifies, so one clamped subtraction runs
        let p2 = sub_clamped(p, m);
        assert(resolve_pos(p2, q.drop_first(), rows, z) == p2);
        assert(resolve_pos(p, q, rows, z) == p2);
        // within these bounds the clamp never engages
        assert(-0x2000_0000_0000 <= p.x - m.x <= 0x2000_0000_0000);
        assert(-0x2000_0000_0000 <= p.y - m.y <= 0x2000_0000_0000);
        assert(p2.x == p.x - m.x && p2.y == p.y - m.y);
        // a strict overlap makes the minimum translation vector nonzero
        assert(m.x != 0 || m.y != 0);
        assert(p2 != p);
        let nrows = rows.update(ent as int, EntityRow { position: Some(p2), ..row });
        let nb = s.shifted(p2.x as int, p2.y as int);
        let nentries = upsert(entries, ent, nb);
        assert(find_entry(entries, ent, 0) == find_entry(entries, ent, 1));
        assert(find_entry(entries, ent, 1) is None);
        assert(nentries =~= entries.push((ent, nb)));
        let r1 = collide_one(rows, entries, ent);
        assert(r1.0 == nrows && r1.1 == nentries && r1.2 == seq![ent]);
        // second pass: the separated boxes no longer overlap
        let row2 = nrows[ent as int];
        assert(row2 == EntityRow { position: Some(p2), ..row });
        assert(eligible(row2) && row2.position is Some);
        let a2 = s.shifted(p2.x as int, p2.y as int);
        crate::geom::lemma_mtv_separates(a, b);
        assert(a2 == a.shifted(-m.x as int, -m.y as int));
        assert(!a2.overlaps(b));
        let q2 = query_barriers_spec(nentries, nrows, ent, a2);
        reveal_with_fuel(query_barriers_spec, 4);
        assert(nentries[0] == (other, b));
        assert(nentries.drop_first() =~= seq![(ent, nb)]);
        assert(seq![(ent, nb)][0] == (ent, nb));
        assert(seq![(ent, nb)].drop_first() =~= Seq::<(usize, Aabb)>::empty());
        assert(query_barriers_spec(seq![(ent, nb)], nrows, ent, a2) =~= Seq::<(
            usize,
            V2,
        )>::empty());
        assert(q2 =~= Seq::<(usize, V2)>::empty());
        assert(resolve_pos(p2, q2, nrows, row2.zlevel->0) == p2);
        assert(collide_one(nrows, nentries, ent) == (
            nrows,
            nentries,
            Seq::<usize>::empty(),
        ));
    }
}

/// Every positioned row inside the coordinate budget, every shaped row
/// inside the shape budget.
pub open spec fn rows_in_budget(rows: Seq<EntityRow>) -> bool {
    forall|i: int|
        0 <= i < rows.len() ==> {
            let row = #[trigger] rows[i];
            &&& row.position is Some ==> v2_in_budget(row.position->0)
            &&& row.shape is Some ==> shape_box_ok(row.shape->0.aabb_spec())
        }
}

/// Folding corrections into a position keeps it inside the budget.
pub proof fn lemma_resolve_in_budget(p: V2, cands: Seq<(usize, V2)>, rows: Seq<EntityRow>, z: i64)
    requires
        v2_in_budget(p),
    ensures
        v2_in_budget(resolve_pos(p, cands, rows, z)),
    decreases cands.len(),
{
    if cands.len() > 0 {
        let c = cands[0];
        let p2 = if c.0 < rows.len() && qualifies(rows[c.0 as int], z) {
            sub_clamped(p, c.1)
        } else {
            p
        };
        lemma_resolve_in_budget(p2, cands.drop_first(), rows, z);
    }
}

/// The motion pass keeps every row inside the budgets.
pub proof fn lemma_moved_rows_in_budget(rows: Seq<EntityRow>, dt: i64)
    requires
        rows_in_budget(rows),
        motion_ok(rows, dt),
    ensures
        rows_in_budget(moved_rows(rows, dt)),
{
    assert forall|i: int| 0 <= i < moved_rows(rows, dt).len() implies {
        let row = #[trigger] moved_rows(rows, dt)[i];
        &&& row.position is Some ==> v2_in_budget(row.position->0)
        &&& row.shape is Some ==> shape_box_ok(row.shape->0.aabb_spec())
    } by {
        assert(moved_rows(rows, dt)[i] == moved_row(rows[i], dt));
    }
}

/// The collision pass keeps every row inside the budgets.
pub proof fn lemma_collide_in_budget(rows: Seq<EntityRow>, entries: Seq<(usize, Aabb)>, n: int)
    requires
        rows_in_budget(rows),
        n <= rows.len(),
    ensures
        rows_in_budget(collide_upto(rows, entries, n).0),
    decreases n,
{
    if n > 0 {
        lemma_collide_in_budget(rows, entries, n - 1);
        lemma_collide_untouched(rows, entries, n - 1);
        let prev = collide_upto(rows, entries, n - 1);
        let ent = (n - 1) as usize;
        let row = prev.0[ent as int];
        if eligible(row) && row.position is Some {
            let p = row.position->0;
            let a = row.shape->0.aabb_spec().shifted(p.x as int, p.y as int);
            let q = query_barriers_spec(prev.1, prev.0, ent, a);
            lemma_resolve_in_budget(p, q, prev.0, row.zlevel->0);
        }
        assert forall|i: int| 0 <= i < collide_upto(rows, entries, n).0.len() implies {
            let r = #[trigger] collide_upto(rows, entries, n).0[i];
            &&& r.position is Some ==> v2_in_budget(r.position->0)
            &&& r.shape is Some ==> shape_box_ok(r.shape->0.aabb_spec())
        } by {
            if i != ent as int {
                assert(collide_upto(rows, entries, n).0[i] == prev.0[i]);
            }
        }
    }
}

/// Rows inside the budgets reconcile into boxes inside the index's
/// budget, whatever entity a change event names.
pub proof fn lemma_budget_events(rows: Seq<EntityRow>, ent: usize)
    requires
        rows_in_budget(rows),
    ensures
        event_box_in_budget(rows, ent),
{
}

/// The marker component's vocabulary: an entity with Barrier takes part
/// in collision resolution.
#[derive(Clone, Debug)]
pub struct Barrier;

impl Barrier {
    /// The map-object type tag that marks a barrier.
    pub fn tiled_type() -> (s: String)
        ensures
            s@ == "barrier"@,
    {
        String::from_str("barrier")
    }
}

/// The physics system: holds the two change-log cursors it reads the
/// world's Position and Shape streams through. Each consumer must use
/// its own cursors.
#[derive(Debug)]
pub struct Physics {
    /// Cursor into the world's Shape change log; `None` until `setup`.
    pub shape_reader: Option<usize>,
    /// Cursor into the world's Position change log; `None` until `setup`.
    pub position_reader: Option<usize>,
}

impl Default for Physics {
    /// A physics system with no registered cursors yet.
    fn default() -> (r: Physics)
        ensures
            r.shape_reader is None,
            r.position_reader is None,
    {
        Physics { shape_reader: None, position_reader: None }
    }
}

impl Physics {
    /// Register the change-log cursors at the current ends of the
    /// world's Position and Shape streams.
    pub fn setup(&mut self, data: &PhysicsSystemData)
        ensures
            final(self).shape_reader == Some(data.world.shape_events@.len() as usize),
            final(self).position_reader == Some(data.world.position_events@.len() as usize),
    {
        self.shape_reader = Some(data.world.shape_events.len());
        self.position_reader = Some(data.world.position_events.len());
    }

    /// One physics tick: move everything that can move, resolve barrier
    /// collisions, then reconcile the spatial index from the Shape and
    /// Position change logs read at this system's cursors, and advance
    /// the cursors to the ends of the logs.
    pub fn run(&mut self, data: &mut PhysicsSystemData)
        requires
            old(data).world.wf(),
            old(data).aabb_tree.wf(),
            old(self).shape_reader is Some,
            old(self).shape_reader->0 <= old(data).world.shape_events@.len(),
            old(self).position_reader is Some,
            old(self).position_reader->0 <= old(data).world.position_events@.len(),
            motion_ok(old(data).world.rows@, old(data).dt),
            collide_ok(moved_rows(old(data).world.rows@, old(data).dt)),
            rows_in_budget(old(data).world.rows@),
        ensures
            ({
                let rows0 = old(data).world.rows@;
                let dt = old(data).dt;
                let rows1 = moved_rows(rows0, dt);
                let pe1 = old(data).world.position_events@ + moved_ids(
                    rows0,
                    dt,
                    rows0.len() as int,
                );
                let r = collide_upto(rows1, old(data).aabb_tree.entries@, rows0.len() as int);
                let pe2 = pe1 + r.2;
                let se = old(data).world.shape_events@;
                let evs = se.skip(old(self).shape_reader->0 as int) + pe2.skip(
                    old(self).position_reader->0 as int,
                );
                &&& final(data).world.rows@ == r.0
                &&& final(data).world.position_events@ == pe2
                &&& final(data).world.shape_events@ == se
                &&& final(data).aabb_tree.entries@ == apply_events(r.1, r.0, evs)
                &&& final(self).shape_reader == Some(se.len() as usize)
                &&& final(self).position_reader == Some(pe2.len() as usize)
            }),
            final(data).world.diagnostics@ == old(data).world.diagnostics@,
            final(data).dt == old(data).dt,
            final(data).world.wf(),
            final(data).aabb_tree.wf(),
    {
        let sc = match self.shape_reader {
            Some(c) => c,
            None => 0,
        };
        let pc = match self.position_reader {
            Some(c) => c,
            None => 0,
        };
        data.move_things();
        data.collide_things();
        proof {
            lemma_moved_rows_in_budget(old(data).world.rows@, old(data).dt);
            lemma_collide_in_budget(
                moved_rows(old(data).world.rows@, old(data).dt),
                old(data).aabb_tree.entries@,
                old(data).world.rows@.len() as int,
            );
        }
        let mut evs: Vec<usize> = Vec::new();
        let mut j: usize = sc;
        proof {
            assert(evs@ =~= data.world.shape_events@.subrange(sc as int, j as int));
        }
        while j < data.world.shape_events.len()
            invariant
                sc <= j <= data.world.shape_events@.len(),
                evs@ == data.world.shape_events@.subrange(sc as int, j as int),
            decreases data.world.shape_events@.len() - j,
        {
            evs.push(data.world.shape_events[j]);
            proof {
                assert(evs@ =~= data.world.shape_events@.subrange(sc as int, j + 1));
            }
            j = j + 1;
        }
        let ghost shape_part = evs@;
        let mut i: usize = pc;
        while i < data.world.position_events.len()
            invariant
                pc <= i <= data.world.position_events@.len(),
                evs@ == shape_part + data.world.position_events@.subrange(pc as int, i as int),
            decreases data.world.position_events@.len() - i,
        {
            evs.push(data.world.position_events[i]);
            proof {
                assert(evs@ =~= shape_part + data.world.position_events@.subrange(
                    pc as int,
                    i + 1,
                ));
            }
            i = i + 1;
        }
        proof {
            assert(data.world.shape_events@.subrange(
                sc as int,
                data.world.shape_events@.len() as int,
            ) =~= data.world.shape_events@.skip(sc as int));
            assert(data.world.position_events@.subrange(
                pc as int,
                data.world.position_events@.len() as int,
            ) =~= data.world.position_events@.skip(pc as int));
            assert forall|k: int| 0 <= k < evs@.len() implies event_box_in_budget(
                data.world.rows@,
                #[trigger] evs@[k],
            ) by {
                lemma_budget_events(data.world.rows@, evs@[k]);
            }
        }
        data.aabb_tree.update_tree(&data.world, &evs);
        self.shape_reader = Some(data.world.shape_events.len());
        self.position_reader = Some(data.world.position_events.len());
    }
}

} // verus!
