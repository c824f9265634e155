//! The entity/component table and the entity factory.
//!
//! Entities are opaque `u32` ids; all state lives in per-entity component
//! slots. The table also keeps the retained-removal recorder: the set of
//! body handles handed to rows since the last reclamation pass, so the
//! pass can diff it against the handles still owned and reclaim the rest.

use vstd::prelude::*;

use crate::components::{BodyStatus, Contactor, EcsRigidBody, ShapeCuboid, ShapeTriangle,
    Transform, Velocity};
use crate::resources::{BodiesMap, PhysicWorld};
use crate::tagset::{TagSet, INDEX_LIMIT};
use crate::util::{keep_out, lemma_keep_out_contains, vec_keep_out};

verus! {

broadcast use vstd::seq_lib::group_seq_properties;

/// One entity and its component slots; a `None` slot means the entity
/// does not carry that component.
pub struct EntityRow {
    pub id: u32,
    pub velocity: Option<Velocity>,
    pub transform: Option<Transform>,
    pub body: Option<EcsRigidBody>,
    pub contacts: Option<Contactor>,
    pub shape_cuboid: Option<ShapeCuboid>,
    pub shape_triangle: Option<ShapeTriangle>,
}

/// No entity id occurs on two rows.
pub open spec fn ids_distinct(rows: Seq<EntityRow>) -> bool {
    forall|i: int, j: int|
        0 <= i < j < rows.len() ==> (#[trigger] rows[i]).id != (#[trigger] rows[j]).id
}

/// Some row carries this entity id.
pub open spec fn has_entity(rows: Seq<EntityRow>, id: u32) -> bool {
    exists|i: int| 0 <= i < rows.len() && (#[trigger] rows[i]).id == id
}

/// The index of the row carrying `id`; meaningful when `has_entity` holds
/// and ids are distinct.
pub open spec fn index_of(rows: Seq<EntityRow>, id: u32) -> int {
    choose|i: int| 0 <= i < rows.len() && (#[trigger] rows[i]).id == id
}

/// The row carrying `id`.
pub open spec fn row_of(rows: Seq<EntityRow>, id: u32) -> EntityRow {
    rows[index_of(rows, id)]
}

/// `r` owns the body handle `h`.
pub open spec fn row_owns(r: EntityRow, h: u32) -> bool {
    r.body matches Some(b) && b@ == h
}

/// Some row owns the body handle `h`.
pub open spec fn handle_live(rows: Seq<EntityRow>, h: u32) -> bool {
    exists|i: int| 0 <= i < rows.len() && row_owns(#[trigger] rows[i], h)
}

/// No body handle is owned by two rows.
pub open spec fn handles_distinct(rows: Seq<EntityRow>) -> bool {
    forall|i: int, j: int|
        0 <= i < j < rows.len() && (#[trigger] rows[i]).body is Some && (#[trigger] rows[j]).body
            is Some ==> rows[i].body->0@ != rows[j].body->0@
}

/// Every entry of every contact list lies below `bound`; with `bound` the
/// next fresh id, no list can name an entity that does not exist yet.
pub open spec fn contact_entries_bounded(rows: Seq<EntityRow>, bound: u32) -> bool {
    forall|i: int, e: u32|
        0 <= i < rows.len() && (#[trigger] rows[i]).contacts is Some && #[trigger] rows[i]
            .contacts->0.touching@.contains(e) ==> e < bound
}

/// Contact lists are mutual: among rows that carry one, A lists B exactly
/// when B lists A.
pub open spec fn contacts_symmetric(rows: Seq<EntityRow>) -> bool {
    forall|i: int, j: int|
        0 <= i < rows.len() && 0 <= j < rows.len() && (#[trigger] rows[i]).contacts is Some && (
        #[trigger] rows[j]).contacts is Some ==> (rows[i].contacts->0.touching@.contains(
            rows[j].id,
        ) <==> rows[j].contacts->0.touching@.contains(rows[i].id))
}

/// The row carrying `e` also carries a velocity.
pub open spec fn controlable_ok(rows: Seq<EntityRow>, e: u32) -> bool {
    exists|i: int|
        0 <= i < rows.len() && (#[trigger] rows[i]).id == e && rows[i].velocity is Some
}

/// With distinct ids, the index of a present id is unique and in range.
pub proof fn lemma_index_of(rows: Seq<EntityRow>, id: u32)
    requires
        ids_distinct(rows),
        has_entity(rows, id),
    ensures
        0 <= index_of(rows, id) < rows.len(),
        rows[index_of(rows, id)].id == id,
        forall|i: int| 0 <= i < rows.len() && (#[trigger] rows[i]).id == id ==> i == index_of(
            rows,
            id,
        ),
{
    let w = index_of(rows, id);
    assert(0 <= w < rows.len() && rows[w].id == id);
    assert forall|i: int| 0 <= i < rows.len() && (#[trigger] rows[i]).id == id implies i == w by {
        if i < w {
            assert(rows[i].id != rows[w].id);
        } else if w < i {
            assert(rows[w].id != rows[i].id);
        }
    }
}

/// An order for the host: build this body in the physics engine, with
/// this handle, status, and initial position (milliunits).
#[derive(Clone, Copy, Debug, PartialEq, Eq, Structural)]
pub struct BodyInit {
    pub handle: u32,
    pub status: BodyStatus,
    pub x: i64,
    pub y: i64,
}

/// The entity/component table, with the id counter, the controllable-tag
/// set, and the retained-removal recorder for body handles.
pub struct EcsWorld {
    rows: Vec<EntityRow>,
    next_entity: u32,
    controlables: TagSet,
    tracked_handles: Vec<u32>,
}

/// What went wrong while constructing an entity; all of these are fatal
/// configuration errors at construction time.
#[derive(Clone, Copy, Debug, PartialEq, Eq, Structural)]
pub enum SpawnError {
    /// A controllable entity was requested without a velocity component.
    ControlableWithoutVelocity,
    /// A shape with no enclosed area was requested.
    DegenerateShape,
    /// The entity-id space is exhausted.
    CapacityExhausted,
}

/// The construction-time validation of an entity request, in check order.
pub open spec fn spawn_check(
    next_id: u32,
    velocity: Option<Velocity>,
    controlable: bool,
    shape_cuboid: Option<ShapeCuboid>,
    shape_triangle: Option<ShapeTriangle>,
) -> Option<SpawnError> {
    if controlable && velocity is None {
        Some(SpawnError::ControlableWithoutVelocity)
    } else if shape_cuboid matches Some(s) && s.degenerate() {
        Some(SpawnError::DegenerateShape)
    } else if shape_triangle matches Some(s) && s.degenerate() {
        Some(SpawnError::DegenerateShape)
    } else if next_id >= INDEX_LIMIT {
        Some(SpawnError::CapacityExhausted)
    } else {
        None
    }
}

impl EcsWorld {
    /// The rows, in creation order.
    pub closed spec fn rows_seq(&self) -> Seq<EntityRow> {
        self.rows@
    }

    /// The next fresh entity id; every existing id lies below it.
    pub closed spec fn next_id(&self) -> u32 {
        self.next_entity
    }

    /// The ids tagged as controllable.
    pub closed spec fn controlable_set(&self) -> Set<u32> {
        self.controlables@
    }

    /// The retained-removal recorder, in insertion order.
    pub closed spec fn tracked_seq(&self) -> Seq<u32> {
        self.tracked_handles@
    }

    /// The retained-removal recorder as a set.
    pub open spec fn tracked_set(&self) -> Set<u32> {
        self.tracked_seq().to_set()
    }

    /// Well-formedness of the table alone: distinct ids below the
    /// counter, distinct owned handles, bounded contact entries, every
    /// controllable id on a row that carries a velocity, and a
    /// duplicate-free recorder.
    pub open spec fn wf(&self) -> bool {
        &&& ids_distinct(self.rows_seq())
        &&& forall|i: int|
            0 <= i < self.rows_seq().len() ==> (#[trigger] self.rows_seq()[i]).id < self.next_id()
        &&& self.next_id() <= INDEX_LIMIT
        &&& handles_distinct(self.rows_seq())
        &&& contact_entries_bounded(self.rows_seq(), self.next_id())
        &&& forall|e: u32| #[trigger]
            self.controlable_set().contains(e) ==> controlable_ok(self.rows_seq(), e)
        &&& self.tracked_seq().no_duplicates()
    }

    /// An empty table.
    pub fn new() -> (r: EcsWorld)
        ensures
            r.wf(),
            r.rows_seq() == Seq::<EntityRow>::empty(),
            r.next_id() == 0,
            r.controlable_set() == Set::<u32>::empty(),
            r.tracked_seq() == Seq::<u32>::empty(),
    {
        EcsWorld {
            rows: Vec::new(),
            next_entity: 0,
            controlables: TagSet::new(),
            tracked_handles: Vec::new(),
        }
    }

    /// The next fresh entity id.
    pub fn next_entity_id(&self) -> (r: u32)
        ensures
            r == self.next_id(),
    {
        self.next_entity
    }

    /// How many entities exist.
    pub fn len(&self) -> (r: usize)
        ensures
            r == self.rows_seq().len(),
    {
        self.rows.len()
    }

    /// The row at position `i`.
    pub fn row_at(&self, i: usize) -> (r: &EntityRow)
        requires
            i < self.rows_seq().len(),
        ensures
            *r == self.rows_seq()[i as int],
    {
        &self.rows[i]
    }

    /// The position of the row carrying `id`, if any.
    pub fn find_row(&self, id: u32) -> (r: Option<usize>)
        requires
            self.wf(),
        ensures
            match r {
                Some(i) => i < self.rows_seq().len() && self.rows_seq()[i as int].id == id && i
                    as int == index_of(self.rows_seq(), id),
                None => !has_entity(self.rows_seq(), id),
            },
    {
        let mut i: usize = 0;
        while i < self.rows.len()
            invariant
                self.wf(),
                0 <= i <= self.rows_seq().len(),
                forall|k: int| 0 <= k < i ==> (#[trigger] self.rows_seq()[k]).id != id,
            decreases self.rows_seq().len() - i,
        {
            if self.rows[i].id == id {
                proof {
                    assert(self.rows_seq()[i as int].id == id);
                    lemma_index_of(self.rows_seq(), id);
                }
                return Some(i);
            }
            i = i + 1;
        }
        None
    }

    /// Whether `id` is tagged controllable.
    pub fn is_controlable(&self, id: u32) -> (r: bool)
        ensures
            r == self.controlable_set().contains(id),
    {
        self.controlables.contains(id)
    }

    /// Creates an entity with the requested component slots and no physics
    /// body, or rejects the request as a configuration error; on an error
    /// nothing changes.
    pub fn create_entity(
        &mut self,
        velocity: Option<Velocity>,
        transform: Option<Transform>,
        with_contacts: bool,
        controlable: bool,
        shape_cuboid: Option<ShapeCuboid>,
        shape_triangle: Option<ShapeTriangle>,
    ) -> (r: Result<u32, SpawnError>)
        requires
            old(self).wf(),
        ensures
            final(self).wf(),
            forall|p: PhysicWorld, m: BodiesMap|
                linked(*old(self), p, m) ==> linked(*final(self), p, m),
            contacts_symmetric(old(self).rows_seq()) ==> contacts_symmetric(final(self).rows_seq()),
            match spawn_check(
                old(self).next_id(),
                velocity,
                controlable,
                shape_cuboid,
                shape_triangle,
            ) {
                Some(e) => r == Err::<u32, SpawnError>(e) && *final(self) == *old(self),
                None => {
                    &&& r == Ok::<u32, SpawnError>(old(self).next_id())
                    &&& final(self).next_id() == old(self).next_id() + 1
                    &&& final(self).rows_seq().len() == old(self).rows_seq().len() + 1
                    &&& forall|i: int|
                        0 <= i < old(self).rows_seq().len() ==> final(self).rows_seq()[i]
                            == old(self).rows_seq()[i]
                    &&& final(self).rows_seq().last().id == old(self).next_id()
                    &&& final(self).rows_seq().last().velocity == velocity
                    &&& final(self).rows_seq().last().transform == transform
                    &&& final(self).rows_seq().last().body is None
                    &&& (with_contacts ==> final(self).rows_seq().last().contacts is Some
                        && final(self).rows_seq().last().contacts->0.touching@
                        == Seq::<u32>::empty())
                    &&& (!with_contacts ==> final(self).rows_seq().last().contacts is None)
                    &&& final(self).rows_seq().last().shape_cuboid == shape_cuboid
                    &&& final(self).rows_seq().last().shape_triangle == shape_triangle
                    &&& final(self).controlable_set() == (if controlable {
                        old(self).controlable_set().insert(old(self).next_id())
                    } else {
                        old(self).controlable_set()
                    })
                    &&& final(self).tracked_seq() == old(self).tracked_seq()
                },
            },
    {
        if controlable && velocity.is_none() {
            return Err(SpawnError::ControlableWithoutVelocity);
        }
        if let Some(s) = &shape_cuboid {
            if s.is_degenerate() {
                return Err(SpawnError::DegenerateShape);
            }
        }
        if let Some(s) = &shape_triangle {
            if s.is_degenerate() {
                return Err(SpawnError::DegenerateShape);
            }
        }
        if self.next_entity >= INDEX_LIMIT {
            return Err(SpawnError::CapacityExhausted);
        }
        let id = self.next_entity;
        let contacts = if with_contacts {
            Some(Contactor::new())
        } else {
            None
        };
        let row = EntityRow {
            id,
            velocity,
            transform,
            body: None,
            contacts,
            shape_cuboid,
            shape_triangle,
        };
        self.rows.push(row);
        self.next_entity = id + 1;
        if controlable {
            self.controlables.insert(id);
        }
        proof {
            let rows0 = old(self).rows_seq();
            let rows1 = self.rows_seq();
            assert forall|i: int, j: int| 0 <= i < j < rows1.len() implies (
            #[trigger] rows1[i]).id != (#[trigger] rows1[j]).id by {
                if j < rows0.len() {
                    assert(rows0[i].id != rows0[j].id);
                }
            }
            assert forall|e: u32| #[trigger]
                self.controlable_set().contains(e) implies controlable_ok(rows1, e) by {
                if controlable && e == id {
                    assert(rows1[rows1.len() - 1].id == id);
                } else {
                    assert(old(self).controlable_set().contains(e));
                    let i = choose|i: int|
                        0 <= i < rows0.len() && (#[trigger] rows0[i]).id == e && rows0[i].velocity
                            is Some;
                    assert(rows1[i].id == e && rows1[i].velocity is Some);
                }
            }
            assert forall|p: PhysicWorld, m: BodiesMap|
                linked(*old(self), p, m) implies linked(*self, p, m) by {
                assert forall|k: int|
                    0 <= k < rows1.len() && (#[trigger] rows1[k]).body is Some implies p.handles().contains(
                        rows1[k].body->0@,
                    ) && m@[rows1[k].body->0@] == rows1[k].id by {
                    assert(rows1[k] == rows0[k]);
                }
            }
            if contacts_symmetric(rows0) {
                assert forall|a: int, b: int|
                    0 <= a < rows1.len() && 0 <= b < rows1.len() && (#[trigger] rows1[a]).contacts
                        is Some && (#[trigger] rows1[b]).contacts is Some implies (
                rows1[a].contacts->0.touching@.contains(rows1[b].id)
                    <==> rows1[b].contacts->0.touching@.contains(rows1[a].id)) by {
                    if a < rows0.len() && b < rows0.len() {
                        assert(rows1[a] == rows0[a] && rows1[b] == rows0[b]);
                    } else if a < rows0.len() && b == rows0.len() {
                        assert(rows1[a] == rows0[a]);
                        assert(!rows0[a].contacts->0.touching@.contains(id));
                    } else if a == rows0.len() && b < rows0.len() {
                        assert(rows1[b] == rows0[b]);
                        assert(!rows0[b].contacts->0.touching@.contains(id));
                    }
                }
            }
        }
        Ok(id)
    }

    /// Deletes the entity carrying `id` together with all its components;
    /// reports whether it existed. An owned body handle stays in the
    /// recorder and in the physics world until the reclamation pass.
    pub fn delete_entity(&mut self, id: u32) -> (found: bool)
        requires
            old(self).wf(),
        ensures
            final(self).wf(),
            found == has_entity(old(self).rows_seq(), id),
            forall|p: PhysicWorld, m: BodiesMap|
                linked(*old(self), p, m) ==> linked(*final(self), p, m),
            contacts_symmetric(old(self).rows_seq()) ==> contacts_symmetric(final(self).rows_seq()),
            !found ==> *final(self) == *old(self),
            found ==> {
                &&& final(self).rows_seq() == old(self).rows_seq().remove(
                    index_of(old(self).rows_seq(), id),
                )
                &&& final(self).controlable_set() == old(self).controlable_set().remove(id)
                &&& final(self).tracked_seq() == old(self).tracked_seq()
                &&& final(self).next_id() == old(self).next_id()
            },
    {
        let found = self.find_row(id);
        match found {
            None => {
                proof {
                    assert(*final(self) == *old(self));
                }
                false
            },
            Some(i) => {
                self.rows.remove(i);
                self.controlables.remove(id);
                proof {
                    let rows0 = old(self).rows_seq();
                    let rows1 = self.rows_seq();
                    let at = i as int;
                    assert forall|a: int, b: int| 0 <= a < b < rows1.len() implies (
                    #[trigger] rows1[a]).id != (#[trigger] rows1[b]).id by {
                        let a0 = if a < at { a } else { a + 1 };
                        let b0 = if b < at { b } else { b + 1 };
                        assert(rows1[a] == rows0[a0] && rows1[b] == rows0[b0]);
                    }
                    assert forall|a: int, b: int|
                        0 <= a < b < rows1.len() && (#[trigger] rows1[a]).body is Some && (
                        #[trigger] rows1[b]).body is Some implies rows1[a].body->0@
                        != rows1[b].body->0@ by {
                        let a0 = if a < at { a } else { a + 1 };
                        let b0 = if b < at { b } else { b + 1 };
                        assert(rows1[a] == rows0[a0] && rows1[b] == rows0[b0]);
                    }
                    assert forall|k: int, e: u32|
                        0 <= k < rows1.len() && (#[trigger] rows1[k]).contacts is Some
                            && #[trigger] rows1[k].contacts->0.touching@.contains(
                            e,
                        ) implies e < self.next_id() by {
                        let k0 = if k < at { k } else { k + 1 };
                        assert(rows1[k] == rows0[k0]);
                    }
                    assert forall|e: u32| #[trigger]
                        self.controlable_set().contains(e) implies controlable_ok(rows1, e) by {
                        assert(old(self).controlable_set().contains(e));
                        let k0 = choose|k: int|
                            0 <= k < rows0.len() && (#[trigger] rows0[k]).id == e
                                && rows0[k].velocity is Some;
                        assert(e != id);
                        assert(k0 != at) by {
                            lemma_index_of(rows0, id);
                        }
                        let k1 = if k0 < at { k0 } else { k0 - 1 };
                        assert(rows1[k1] == rows0[k0]);
                    }
                    assert forall|p: PhysicWorld, m: BodiesMap|
                        linked(*old(self), p, m) implies linked(*self, p, m) by {
                        assert forall|k: int|
                            0 <= k < rows1.len() && (#[trigger] rows1[k]).body
                                is Some implies p.handles().contains(rows1[k].body->0@)
                            && m@[rows1[k].body->0@] == rows1[k].id by {
                            let k0 = if k < at {
                                k
                            } else {
                                k + 1
                            };
                            assert(rows1[k] == rows0[k0]);
                        }
                    }
                    if contacts_symmetric(rows0) {
                        assert forall|a: int, b: int|
                            0 <= a < rows1.len() && 0 <= b < rows1.len() && (
                            #[trigger] rows1[a]).contacts is Some && (#[trigger] rows1[b]).contacts
                                is Some implies (rows1[a].contacts->0.touching@.contains(
                            rows1[b].id,
                        ) <==> rows1[b].contacts->0.touching@.contains(rows1[a].id)) by {
                            let a0 = if a < at { a } else { a + 1 };
                            let b0 = if b < at { b } else { b + 1 };
                            assert(rows1[a] == rows0[a0] && rows1[b] == rows0[b0]);
                        }
                    }
                }
                true
            },
        }
    }

    /// Removes the body component of the entity carrying `id`, leaving the
    /// entity alive; reports whether a body component was removed. The
    /// handle stays in the recorder and in the physics world until the
    /// reclamation pass.
    pub fn remove_body_component(&mut self, id: u32) -> (had: bool)
        requires
            old(self).wf(),
        ensures
            final(self).wf(),
            had == (has_entity(old(self).rows_seq(), id) && row_of(old(self).rows_seq(), id).body
                is Some),
            forall|p: PhysicWorld, m: BodiesMap|
                linked(*old(self), p, m) ==> linked(*final(self), p, m),
            contacts_symmetric(old(self).rows_seq()) ==> contacts_symmetric(final(self).rows_seq()),
            !had ==> *final(self) == *old(self),
            had ==> {
                &&& final(self).rows_seq() == old(self).rows_seq().update(
                    index_of(old(self).rows_seq(), id),
                    (EntityRow {
                        body: None,
                        ..old(self).rows_seq()[index_of(old(self).rows_seq(), id)]
                    }),
                )
                &&& final(self).controlable_set() == old(self).controlable_set()
                &&& final(self).tracked_seq() == old(self).tracked_seq()
                &&& final(self).next_id() == old(self).next_id()
            },
    {
        let found = self.find_row(id);
        match found {
            None => false,
            Some(i) => {
                if self.rows[i].body.is_none() {
                    proof {
                        assert(*final(self) == *old(self));
                    }
                    return false;
                }
                self.rows[i].body = None;
                proof {
                    let rows0 = old(self).rows_seq();
                    let rows1 = self.rows_seq();
                    let at = i as int;
                    assert forall|a: int, b: int| 0 <= a < b < rows1.len() implies (
                    #[trigger] rows1[a]).id != (#[trigger] rows1[b]).id by {
                        assert(rows0[a].id != rows0[b].id);
                        assert(rows1[a].id == rows0[a].id && rows1[b].id == rows0[b].id);
                    }
                    assert forall|a: int, b: int|
                        0 <= a < b < rows1.len() && (#[trigger] rows1[a]).body is Some && (
                        #[trigger] rows1[b]).body is Some implies rows1[a].body->0@
                        != rows1[b].body->0@ by {
                        assert(rows1[a] == rows0[a] || a == at);
                        assert(rows1[b] == rows0[b] || b == at);
                    }
                    assert forall|k: int, e: u32|
                        0 <= k < rows1.len() && (#[trigger] rows1[k]).contacts is Some
                            && #[trigger] rows1[k].contacts->0.touching@.contains(
                            e,
                        ) implies e < self.next_id() by {
                        assert(rows1[k].contacts == rows0[k].contacts);
                    }
                    assert forall|e: u32| #[trigger]
                        self.controlable_set().contains(e) implies controlable_ok(rows1, e) by {
                        assert(old(self).controlable_set().contains(e));
                        assert(controlable_ok(rows0, e));
                        let k0 = choose|k: int|
                            0 <= k < rows0.len() && (#[trigger] rows0[k]).id == e
                                && rows0[k].velocity is Some;
                        assert(rows1[k0].id == e && rows1[k0].velocity is Some);
                    }
                    assert forall|p: PhysicWorld, m: BodiesMap|
                        linked(*old(self), p, m) implies linked(*self, p, m) by {
                        assert forall|k: int|
                            0 <= k < rows1.len() && (#[trigger] rows1[k]).body
                                is Some implies p.handles().contains(rows1[k].body->0@)
                            && m@[rows1[k].body->0@] == rows1[k].id by {
                            assert(k != at);
                            assert(rows1[k] == rows0[k]);
                        }
                    }
                    if contacts_symmetric(rows0) {
                        assert forall|a: int, b: int|
                            0 <= a < rows1.len() && 0 <= b < rows1.len() && (
                            #[trigger] rows1[a]).contacts is Some && (#[trigger] rows1[b]).contacts
                                is Some implies (rows1[a].contacts->0.touching@.contains(
                            rows1[b].id,
                        ) <==> rows1[b].contacts->0.touching@.contains(rows1[a].id)) by {
                            assert(rows1[a].contacts == rows0[a].contacts && rows1[a].id
                                == rows0[a].id);
                            assert(rows1[b].contacts == rows0[b].contacts && rows1[b].id
                                == rows0[b].id);
                        }
                    }
                }
                true
            },
        }
    }
}

/// The handles owned by the rows, in row order.
pub open spec fn handle_seq(rows: Seq<EntityRow>) -> Seq<u32>
    decreases rows.len(),
{
    if rows.len() == 0 {
        Seq::empty()
    } else if rows.last().body is Some {
        handle_seq(rows.drop_last()).push(rows.last().body->0@)
    } else {
        handle_seq(rows.drop_last())
    }
}

/// `handle_seq` holds exactly the live handles.
pub proof fn lemma_handle_seq_contains(rows: Seq<EntityRow>, h: u32)
    ensures
        handle_seq(rows).contains(h) <==> handle_live(rows, h),
    decreases rows.len(),
{
    if rows.len() > 0 {
        lemma_handle_seq_contains(rows.drop_last(), h);
        if handle_live(rows, h) {
            let i = choose|i: int| 0 <= i < rows.len() && row_owns(#[trigger] rows[i], h);
            if i < rows.len() - 1 {
                assert(row_owns(rows.drop_last()[i], h));
            }
        }
        if handle_live(rows.drop_last(), h) {
            let i = choose|i: int|
                0 <= i < rows.drop_last().len() && row_owns(#[trigger] rows.drop_last()[i], h);
            assert(row_owns(rows[i], h));
        }
    }
}

/// With distinct owned handles, `handle_seq` has no duplicates.
pub proof fn lemma_handle_seq_distinct(rows: Seq<EntityRow>)
    requires
        handles_distinct(rows),
    ensures
        handle_seq(rows).no_duplicates(),
    decreases rows.len(),
{
    if rows.len() > 0 {
        assert(handles_distinct(rows.drop_last()));
        lemma_handle_seq_distinct(rows.drop_last());
        if rows.last().body is Some {
            let h = rows.last().body->0@;
            assert(!handle_live(rows.drop_last(), h)) by {
                if handle_live(rows.drop_last(), h) {
                    let i = choose|i: int|
                        0 <= i < rows.drop_last().len() && row_owns(
                            #[trigger] rows.drop_last()[i],
                            h,
                        );
                    assert(rows[i].body->0@ == rows[rows.len() - 1].body->0@);
                }
            }
            lemma_handle_seq_contains(rows.drop_last(), h);
            let r = handle_seq(rows.drop_last()).push(h);
            assert forall|a: int, b: int| 0 <= a < b < r.len() implies r[a] != r[b] by {
                if b == r.len() - 1 {
                    assert(handle_seq(rows.drop_last()).contains(r[a]));
                }
            }
        }
    }
}

/// Tables whose rows own the same bodies list the same handles.
pub proof fn lemma_handle_seq_same_bodies(r0: Seq<EntityRow>, r1: Seq<EntityRow>)
    requires
        r0.len() == r1.len(),
        forall|i: int| 0 <= i < r0.len() ==> (#[trigger] r1[i]).body == r0[i].body,
    ensures
        handle_seq(r1) == handle_seq(r0),
    decreases r0.len(),
{
    if r0.len() > 0 {
        assert forall|i: int| 0 <= i < r0.drop_last().len() implies (
        #[trigger] r1.drop_last()[i]).body == r0.drop_last()[i].body by {
            assert(r1[i].body == r0[i].body);
        }
        lemma_handle_seq_same_bodies(r0.drop_last(), r1.drop_last());
        assert(r1.last().body == r0.last().body);
    }
}

/// Peeling one row off the front of the prefix whose handles are listed.
pub proof fn lemma_handle_seq_step(rows: Seq<EntityRow>, i: int)
    requires
        0 <= i < rows.len(),
    ensures
        handle_seq(rows.take(i + 1)) == if rows[i].body is Some {
            handle_seq(rows.take(i)).push(rows[i].body->0@)
        } else {
            handle_seq(rows.take(i))
        },
{
    assert(rows.take(i + 1).last() == rows[i]);
    assert(rows.take(i + 1).drop_last() =~= rows.take(i));
}

impl EcsWorld {
    /// Overwrites (or creates) the velocity component of the row at `i`.
    pub fn set_velocity_at(&mut self, i: usize, v: Velocity)
        requires
            old(self).wf(),
            i < old(self).rows_seq().len(),
        ensures
            final(self).wf(),
            final(self).rows_seq() == old(self).rows_seq().update(
                i as int,
                (EntityRow { velocity: Some(v), ..old(self).rows_seq()[i as int] }),
            ),
            final(self).controlable_set() == old(self).controlable_set(),
            final(self).tracked_seq() == old(self).tracked_seq(),
            final(self).next_id() == old(self).next_id(),
    {
        self.rows[i].velocity = Some(v);
        proof {
            self.lemma_wf_after_row_update(*old(self), i as int);
        }
    }

    /// Overwrites (or creates) the transform component of the row at `i`.
    pub fn set_transform_at(&mut self, i: usize, t: Transform)
        requires
            old(self).wf(),
            i < old(self).rows_seq().len(),
        ensures
            final(self).wf(),
            final(self).rows_seq() == old(self).rows_seq().update(
                i as int,
                (EntityRow { transform: Some(t), ..old(self).rows_seq()[i as int] }),
            ),
            final(self).controlable_set() == old(self).controlable_set(),
            final(self).tracked_seq() == old(self).tracked_seq(),
            final(self).next_id() == old(self).next_id(),
    {
        self.rows[i].transform = Some(t);
        proof {
            self.lemma_wf_after_row_update(*old(self), i as int);
        }
    }

    /// Appends `other` to the contact list of the row at `i`.
    pub fn push_contact_at(&mut self, i: usize, other: u32)
        requires
            old(self).wf(),
            i < old(self).rows_seq().len(),
            old(self).rows_seq()[i as int].contacts is Some,
            other < old(self).next_id(),
        ensures
            final(self).wf(),
            final(self).rows_seq().len() == old(self).rows_seq().len(),
            forall|k: int|
                0 <= k < old(self).rows_seq().len() && k != i ==> final(self).rows_seq()[k] == old(
                    self,
                ).rows_seq()[k],
            final(self).rows_seq()[i as int].contacts is Some,
            final(self).rows_seq()[i as int].contacts->0.touching@ == old(self).rows_seq()[i as int].contacts->0.touching@.push(
                other,
            ),
            final(self).rows_seq()[i as int] == (EntityRow {
                contacts: final(self).rows_seq()[i as int].contacts,
                ..old(self).rows_seq()[i as int]
            }),
            final(self).controlable_set() == old(self).controlable_set(),
            final(self).tracked_seq() == old(self).tracked_seq(),
            final(self).next_id() == old(self).next_id(),
    {
        match &mut self.rows[i].contacts {
            Some(c) => {
                c.touching.push(other);
            },
            None => {
            },
        }
        proof {
            self.lemma_wf_after_row_update(*old(self), i as int);
        }
    }

    /// Removes every occurrence of `other` from the contact list of the
    /// row at `i`.
    pub fn prune_contacts_at(&mut self, i: usize, other: u32)
        requires
            old(self).wf(),
            i < old(self).rows_seq().len(),
            old(self).rows_seq()[i as int].contacts is Some,
        ensures
            final(self).wf(),
            final(self).rows_seq().len() == old(self).rows_seq().len(),
            forall|k: int|
                0 <= k < old(self).rows_seq().len() && k != i ==> final(self).rows_seq()[k] == old(
                    self,
                ).rows_seq()[k],
            final(self).rows_seq()[i as int].contacts is Some,
            final(self).rows_seq()[i as int].contacts->0.touching@ == keep_out(
                old(self).rows_seq()[i as int].contacts->0.touching@,
                seq![other],
            ),
            final(self).rows_seq()[i as int] == (EntityRow {
                contacts: final(self).rows_seq()[i as int].contacts,
                ..old(self).rows_seq()[i as int]
            }),
            final(self).controlable_set() == old(self).controlable_set(),
            final(self).tracked_seq() == old(self).tracked_seq(),
            final(self).next_id() == old(self).next_id(),
    {
        let banned: Vec<u32> = vec![other];
        match &mut self.rows[i].contacts {
            Some(c) => {
                let filtered = vec_keep_out(&c.touching, &banned);
                c.touching = filtered;
            },
            None => {
            },
        }
        proof {
            assert(banned@ =~= seq![other]);
            assert forall|e: u32| #[trigger]
                final(self).rows_seq()[i as int].contacts->0.touching@.contains(e) implies old(
                self,
            ).rows_seq()[i as int].contacts->0.touching@.contains(e) by {
                lemma_keep_out_contains(
                    old(self).rows_seq()[i as int].contacts->0.touching@,
                    seq![other],
                    e,
                );
            }
            self.lemma_wf_after_row_update(*old(self), i as int);
        }
    }

    /// A row update that keeps the id, the body, the velocity slot, and
    /// only shrinks the set of listed contacts keeps the table well
    /// formed.
    proof fn lemma_wf_after_row_update(&self, pre: EcsWorld, at: int)
        requires
            pre.wf(),
            0 <= at < pre.rows_seq().len(),
            self.rows_seq().len() == pre.rows_seq().len(),
            forall|k: int|
                0 <= k < pre.rows_seq().len() && k != at ==> self.rows_seq()[k] == pre.rows_seq()[k],
            self.rows_seq()[at].id == pre.rows_seq()[at].id,
            self.rows_seq()[at].body == pre.rows_seq()[at].body,
            pre.rows_seq()[at].velocity is Some ==> self.rows_seq()[at].velocity is Some,
            self.rows_seq()[at].velocity is None ==> self.rows_seq()[at].velocity
                == pre.rows_seq()[at].velocity,
            self.rows_seq()[at].contacts is Some <==> pre.rows_seq()[at].contacts is Some,
            forall|e: u32|
                self.rows_seq()[at].contacts is Some && #[trigger] self.rows_seq()[at].contacts->0.touching@.contains(
                    e,
                ) ==> pre.rows_seq()[at].contacts->0.touching@.contains(e) || e < pre.next_id(),
            self.next_id() == pre.next_id(),
            self.controlable_set() == pre.controlable_set(),
            self.tracked_seq() == pre.tracked_seq(),
        ensures
            self.wf(),
    {
        let rows0 = pre.rows_seq();
        let rows1 = self.rows_seq();
        assert forall|a: int, b: int| 0 <= a < b < rows1.len() implies (#[trigger] rows1[a]).id != (
        #[trigger] rows1[b]).id by {
            assert(rows1[a].id == rows0[a].id && rows1[b].id == rows0[b].id);
        }
        assert forall|a: int| 0 <= a < rows1.len() implies (#[trigger] rows1[a]).id
            < self.next_id() by {
            assert(rows1[a].id == rows0[a].id);
        }
        assert forall|a: int, b: int|
            0 <= a < b < rows1.len() && (#[trigger] rows1[a]).body is Some && (
            #[trigger] rows1[b]).body is Some implies rows1[a].body->0@ != rows1[b].body->0@ by {
            assert(rows1[a].body == rows0[a].body && rows1[b].body == rows0[b].body);
        }
        assert forall|k: int, e: u32|
            0 <= k < rows1.len() && (#[trigger] rows1[k]).contacts is Some && #[trigger] rows1[k].contacts->0.touching@.contains(
                e,
            ) implies e < self.next_id() by {
            if k != at {
                assert(rows1[k] == rows0[k]);
            }
        }
        assert forall|e: u32| #[trigger]
            self.controlable_set().contains(e) implies controlable_ok(rows1, e) by {
            assert(pre.controlable_set().contains(e));
            assert(controlable_ok(rows0, e));
            let k0 = choose|k: int|
                0 <= k < rows0.len() && (#[trigger] rows0[k]).id == e && rows0[k].velocity is Some;
            assert(rows1[k0].id == e && rows1[k0].velocity is Some);
        }
    }

    /// The handles currently owned by the rows, in row order.
    pub fn collect_handles(&self) -> (r: Vec<u32>)
        ensures
            r@ == handle_seq(self.rows_seq()),
    {
        let mut r: Vec<u32> = Vec::new();
        let mut i: usize = 0;
        while i < self.rows.len()
            invariant
                0 <= i <= self.rows_seq().len(),
                r@ == handle_seq(self.rows_seq().take(i as int)),
            decreases self.rows_seq().len() - i,
        {
            proof {
                lemma_handle_seq_step(self.rows_seq(), i as int);
            }
            match &self.rows[i].body {
                Some(b) => {
                    let h = b.handle();
                    r.push(h);
                },
                None => {
                },
            }
            i = i + 1;
        }
        proof {
            assert(self.rows_seq().take(self.rows_seq().len() as int) =~= self.rows_seq());
        }
        r
    }

    /// The recorded handles that are no longer owned by any row: the
    /// retained removals since the last reclamation pass.
    pub fn retained(&self, current: &Vec<u32>) -> (r: Vec<u32>)
        ensures
            r@ == keep_out(self.tracked_seq(), current@),
    {
        vec_keep_out(&self.tracked_handles, current)
    }

    /// Resets the recorder to the given snapshot of owned handles.
    pub fn replace_tracked(&mut self, current: Vec<u32>)
        requires
            old(self).wf(),
            current@.no_duplicates(),
        ensures
            final(self).wf(),
            final(self).rows_seq() == old(self).rows_seq(),
            final(self).controlable_set() == old(self).controlable_set(),
            final(self).next_id() == old(self).next_id(),
            final(self).tracked_seq() == current@,
    {
        self.tracked_handles = current;
        proof {
            assert(ids_distinct(self.rows_seq()));
            assert(handles_distinct(self.rows_seq()));
            assert(contact_entries_bounded(self.rows_seq(), self.next_id()));
            assert forall|e: u32| #[trigger]
                self.controlable_set().contains(e) implies controlable_ok(self.rows_seq(), e) by {
                assert(old(self).controlable_set().contains(e));
            }
            assert(self.tracked_seq().no_duplicates());
        }
    }
}

/// The cross-store invariant that holds between the pipeline stages: the
/// index knows exactly the live handles, the recorder covers exactly the
/// live handles, and every owned handle is live and indexed back to its
/// owner. (The reverse direction, that every live handle is still owned,
/// may lapse mid-frame and is restored by the reclamation pass.)
pub open spec fn linked(w: EcsWorld, p: PhysicWorld, m: BodiesMap) -> bool {
    &&& w.wf()
    &&& p.wf()
    &&& m@.dom() == p.handles()
    &&& w.tracked_set() == p.handles()
    &&& forall|i: int|
        0 <= i < w.rows_seq().len() && (#[trigger] w.rows_seq()[i]).body is Some ==> p.handles().contains(
            w.rows_seq()[i].body->0@,
        ) && m@[w.rows_seq()[i].body->0@] == w.rows_seq()[i].id
}

/// The full bijection between live handles and owning entities: `linked`,
/// and every live handle is owned by some row. Holds at every frame
/// boundary.
pub open spec fn bijective(w: EcsWorld, p: PhysicWorld, m: BodiesMap) -> bool {
    &&& linked(w, p, m)
    &&& forall|h: u32| #[trigger] p.handles().contains(h) ==> handle_live(w.rows_seq(), h)
}

/// `rows1` is `rows0` with the body handle `h` attached to the row
/// carrying `entity`, everything else unchanged.
pub open spec fn body_attached(
    rows0: Seq<EntityRow>,
    rows1: Seq<EntityRow>,
    entity: u32,
    h: u32,
) -> bool {
    &&& rows1.len() == rows0.len()
    &&& forall|i: int|
        0 <= i < rows0.len() && (#[trigger] rows0[i]).id != entity ==> rows1[i] == rows0[i]
    &&& forall|i: int|
        0 <= i < rows0.len() && (#[trigger] rows0[i]).id == entity ==> {
            &&& rows1[i].id == rows0[i].id
            &&& rows1[i].velocity == rows0[i].velocity
            &&& rows1[i].transform == rows0[i].transform
            &&& rows1[i].body is Some && rows1[i].body->0@ == h
            &&& rows1[i].contacts == rows0[i].contacts
            &&& rows1[i].shape_cuboid == rows0[i].shape_cuboid
            &&& rows1[i].shape_triangle == rows0[i].shape_triangle
        }
}

impl EcsRigidBody {
    /// Creates a physics body for an existing entity as one logical step:
    /// the handle is allocated, indexed to its owner, recorded for
    /// reclamation tracking, and attached to the row before anything else
    /// can observe the state.
    pub fn safe_insert(
        entity: u32,
        world: &mut EcsWorld,
        physic_world: &mut PhysicWorld,
        bodies_map: &mut BodiesMap,
    ) -> (r: EcsRigidBody)
        requires
            linked(*old(world), *old(physic_world), *old(bodies_map)),
            has_entity(old(world).rows_seq(), entity),
            row_of(old(world).rows_seq(), entity).body is None,
            old(physic_world).handle_bound() < u32::MAX,
        ensures
            linked(*final(world), *final(physic_world), *final(bodies_map)),
            r@ == old(physic_world).handle_bound(),
            !old(physic_world).handles().contains(r@),
            body_attached(old(world).rows_seq(), final(world).rows_seq(), entity, r@),
            final(world).controlable_set() == old(world).controlable_set(),
            final(world).tracked_seq() == old(world).tracked_seq().push(r@),
            final(world).next_id() == old(world).next_id(),
            final(physic_world).handles() == old(physic_world).handles().insert(r@),
            final(physic_world).live_seq() == old(physic_world).live_seq().push(r@),
            final(physic_world).handle_bound() == r@ + 1,
            final(bodies_map)@ == old(bodies_map)@.insert(r@, entity),
            bijective(*old(world), *old(physic_world), *old(bodies_map)) ==> bijective(
                *final(world),
                *final(physic_world),
                *final(bodies_map),
            ),
    {
        proof {
            lemma_index_of(old(world).rows_seq(), entity);
        }
        let i_opt = world.find_row(entity);
        let i = match i_opt {
            Some(i) => i,
            None => {
                proof {
                    assert(false);
                }
                0
            },
        };
        let h = physic_world.add_rigid_body();
        bodies_map.insert(h, entity);
        let comp = EcsRigidBody::wrap(h);
        world.rows[i].body = Some(comp);
        world.tracked_handles.push(h);
        proof {
            let rows0 = old(world).rows_seq();
            let rows1 = world.rows_seq();
            let at = i as int;
            let p0 = *old(physic_world);
            let p1 = *physic_world;
            let m0 = *old(bodies_map);
            assert(rows1 == rows0.update(at, rows1[at]));
            // the table alone stays well formed
            assert forall|a: int, b: int| 0 <= a < b < rows1.len() implies (
            #[trigger] rows1[a]).id != (#[trigger] rows1[b]).id by {
                assert(rows1[a].id == rows0[a].id && rows1[b].id == rows0[b].id);
            }
            assert forall|a: int, b: int|
                0 <= a < b < rows1.len() && (#[trigger] rows1[a]).body is Some && (
                #[trigger] rows1[b]).body is Some implies rows1[a].body->0@ != rows1[b].body->0@ by {
                if a != at && b != at {
                    assert(rows1[a] == rows0[a] && rows1[b] == rows0[b]);
                } else if a == at {
                    assert(rows1[b] == rows0[b]);
                    assert(p0.handles().contains(rows0[b].body->0@));
                } else {
                    assert(rows1[a] == rows0[a]);
                    assert(p0.handles().contains(rows0[a].body->0@));
                }
            }
            assert forall|k: int, e: u32|
                0 <= k < rows1.len() && (#[trigger] rows1[k]).contacts is Some && #[trigger] rows1[k].contacts->0.touching@.contains(
                    e,
                ) implies e < world.next_id() by {
                assert(rows1[k].contacts == rows0[k].contacts);
            }
            assert forall|e: u32| #[trigger]
                world.controlable_set().contains(e) implies controlable_ok(rows1, e) by {
                assert(old(world).controlable_set().contains(e));
                assert(controlable_ok(rows0, e));
                let k0 = choose|k: int|
                    0 <= k < rows0.len() && (#[trigger] rows0[k]).id == e && rows0[k].velocity
                        is Some;
                assert(rows1[k0].id == e && rows1[k0].velocity is Some);
            }
            // the recorder gains exactly the fresh handle
            assert(!old(world).tracked_seq().contains(h)) by {
                if old(world).tracked_seq().contains(h) {
                    assert(old(world).tracked_set().contains(h));
                }
            }
            assert forall|a: int, b: int|
                0 <= a < b < world.tracked_seq().len() implies world.tracked_seq()[a]
                != world.tracked_seq()[b] by {
                if b < old(world).tracked_seq().len() {
                    assert(old(world).tracked_seq()[a] != old(world).tracked_seq()[b]);
                } else {
                    assert(old(world).tracked_seq().contains(old(world).tracked_seq()[a]));
                }
            }
            assert(world.tracked_set() =~= old(world).tracked_set().insert(h));
            assert(bodies_map@.dom() =~= p1.handles());
            // every owned handle is live and indexed to its owner
            assert forall|k: int|
                0 <= k < rows1.len() && (#[trigger] rows1[k]).body is Some implies p1.handles().contains(
                    rows1[k].body->0@,
                ) && bodies_map@[rows1[k].body->0@] == rows1[k].id by {
                if k != at {
                    assert(rows1[k] == rows0[k]);
                    assert(p0.handles().contains(rows0[k].body->0@));
                    assert(rows0[k].body->0@ != h);
                    assert(m0@[rows0[k].body->0@] == rows0[k].id);
                }
            }
            // a full bijection before the call stays one after it
            if bijective(*old(world), p0, m0) {
                assert forall|x: u32| #[trigger]
                    p1.handles().contains(x) implies handle_live(rows1, x) by {
                    if x == h {
                        assert(row_owns(rows1[at], x));
                    } else {
                        assert(p0.handles().contains(x));
                        assert(handle_live(rows0, x));
                        let j = choose|j: int|
                            0 <= j < rows0.len() && row_owns(#[trigger] rows0[j], x);
                        assert(j != at);
                        assert(row_owns(rows1[j], x));
                    }
                }
            }
        }
        comp
    }
}

/// A geometric descriptor that can create the physics body for its
/// entity; the engine-side collider construction follows the returned
/// order with the host.
pub trait ShapeBase {
    /// Creates the physics body for `entity` at (`x`, `y`) with the given
    /// status, as `EcsRigidBody::safe_insert` does, and returns the order
    /// the host needs to build the engine-side body and collider.
    fn create_rigid_body(
        &self,
        world: &mut EcsWorld,
        physic_world: &mut PhysicWorld,
        bodies_map: &mut BodiesMap,
        entity: u32,
        status: BodyStatus,
        x: i64,
        y: i64,
    ) -> (r: BodyInit)
        requires
            linked(*old(world), *old(physic_world), *old(bodies_map)),
            has_entity(old(world).rows_seq(), entity),
            row_of(old(world).rows_seq(), entity).body is None,
            old(physic_world).handle_bound() < u32::MAX,
        ensures
            linked(*final(world), *final(physic_world), *final(bodies_map)),
            r.handle == old(physic_world).handle_bound(),
            r.status == status,
            r.x == x,
            r.y == y,
            !old(physic_world).handles().contains(r.handle),
            body_attached(old(world).rows_seq(), final(world).rows_seq(), entity, r.handle),
            final(world).controlable_set() == old(world).controlable_set(),
            final(world).tracked_seq() == old(world).tracked_seq().push(r.handle),
            final(world).next_id() == old(world).next_id(),
            final(physic_world).handles() == old(physic_world).handles().insert(r.handle),
            final(physic_world).live_seq() == old(physic_world).live_seq().push(r.handle),
            final(physic_world).handle_bound() == r.handle + 1,
            final(bodies_map)@ == old(bodies_map)@.insert(r.handle, entity),
            bijective(*old(world), *old(physic_world), *old(bodies_map)) ==> bijective(
                *final(world),
                *final(physic_world),
                *final(bodies_map),
            ),
    ;
}

impl ShapeBase for ShapeCuboid {
    fn create_rigid_body(
        &self,
        world: &mut EcsWorld,
        physic_world: &mut PhysicWorld,
        bodies_map: &mut BodiesMap,
        entity: u32,
        status: BodyStatus,
        x: i64,
        y: i64,
    ) -> (r: BodyInit) {
        let body = EcsRigidBody::safe_insert(entity, world, physic_world, bodies_map);
        BodyInit { handle: body.handle(), status, x, y }
    }
}

impl ShapeBase for ShapeTriangle {
    fn create_rigid_body(
        &self,
        world: &mut EcsWorld,
        physic_world: &mut PhysicWorld,
        bodies_map: &mut BodiesMap,
        entity: u32,
        status: BodyStatus,
        x: i64,
        y: i64,
    ) -> (r: BodyInit) {
        let body = EcsRigidBody::safe_insert(entity, world, physic_world, bodies_map);
        BodyInit { handle: body.handle(), status, x, y }
    }
}

/// The whole effect of the factory: one new entity with the requested
/// components, a fresh body handle attached to it, the handle live in the
/// world, indexed to its owner, and recorded for reclamation tracking.
pub open spec fn spawned(
    w0: EcsWorld,
    p0: PhysicWorld,
    m0: BodiesMap,
    w1: EcsWorld,
    p1: PhysicWorld,
    m1: BodiesMap,
    id: u32,
    init: BodyInit,
    velocity: Option<Velocity>,
    with_contacts: bool,
    controlable: bool,
    shape_cuboid: Option<ShapeCuboid>,
    shape_triangle: Option<ShapeTriangle>,
    status: BodyStatus,
    x: i64,
    y: i64,
) -> bool {
    &&& id == w0.next_id()
    &&& w1.next_id() == id + 1
    &&& init.handle == p0.handle_bound()
    &&& !p0.handles().contains(init.handle)
    &&& init.status == status
    &&& init.x == x
    &&& init.y == y
    &&& w1.rows_seq().len() == w0.rows_seq().len() + 1
    &&& forall|i: int| 0 <= i < w0.rows_seq().len() ==> w1.rows_seq()[i] == w0.rows_seq()[i]
    &&& w1.rows_seq().last().id == id
    &&& w1.rows_seq().last().velocity == velocity
    &&& w1.rows_seq().last().transform == Some((Transform { x, y }))
    &&& w1.rows_seq().last().body is Some && w1.rows_seq().last().body->0@ == init.handle
    &&& (with_contacts ==> w1.rows_seq().last().contacts is Some
        && w1.rows_seq().last().contacts->0.touching@ == Seq::<u32>::empty())
    &&& (!with_contacts ==> w1.rows_seq().last().contacts is None)
    &&& w1.rows_seq().last().shape_cuboid == shape_cuboid
    &&& w1.rows_seq().last().shape_triangle == shape_triangle
    &&& w1.controlable_set() == (if controlable {
        w0.controlable_set().insert(id)
    } else {
        w0.controlable_set()
    })
    &&& w1.tracked_seq() == w0.tracked_seq().push(init.handle)
    &&& p1.handles() == p0.handles().insert(init.handle)
    &&& p1.live_seq() == p0.live_seq().push(init.handle)
    &&& p1.handle_bound() == init.handle + 1
    &&& m1@ == m0@.insert(init.handle, id)
}

/// Atomically creates an entity with the requested components, its
/// physics body, and the index entry, or rejects the request as a
/// configuration error without changing anything. Partial construction
/// is never observable: the table, the world, and the index change in
/// one call.
pub fn spawn_entity(
    world: &mut EcsWorld,
    physic_world: &mut PhysicWorld,
    bodies_map: &mut BodiesMap,
    velocity: Option<Velocity>,
    with_contacts: bool,
    controlable: bool,
    shape_cuboid: Option<ShapeCuboid>,
    shape_triangle: Option<ShapeTriangle>,
    status: BodyStatus,
    x: i64,
    y: i64,
) -> (r: Result<(u32, BodyInit), SpawnError>)
    requires
        linked(*old(world), *old(physic_world), *old(bodies_map)),
        old(physic_world).handle_bound() < u32::MAX,
    ensures
        linked(*final(world), *final(physic_world), *final(bodies_map)),
        bijective(*old(world), *old(physic_world), *old(bodies_map)) ==> bijective(
            *final(world),
            *final(physic_world),
            *final(bodies_map),
        ),
        contacts_symmetric(old(world).rows_seq()) ==> contacts_symmetric(final(world).rows_seq()),
        match spawn_check(
            old(world).next_id(),
            velocity,
            controlable,
            shape_cuboid,
            shape_triangle,
        ) {
            Some(e) => r == Err::<(u32, BodyInit), SpawnError>(e) && *final(world) == *old(world)
                && *final(physic_world) == *old(physic_world) && *final(bodies_map) == *old(
                bodies_map,
            ),
            None => r matches Ok(pr) && spawned(
                *old(world),
                *old(physic_world),
                *old(bodies_map),
                *final(world),
                *final(physic_world),
                *final(bodies_map),
                pr.0,
                pr.1,
                velocity,
                with_contacts,
                controlable,
                shape_cuboid,
                shape_triangle,
                status,
                x,
                y,
            ),
        },
{
    let id = match world.create_entity(
        velocity,
        Some(Transform { x, y }),
        with_contacts,
        controlable,
        shape_cuboid,
        shape_triangle,
    ) {
        Err(e) => {
            return Err(e);
        },
        Ok(id) => id,
    };
    proof {
        let rows0 = old(world).rows_seq();
        let rows1 = world.rows_seq();
        assert(rows1[rows1.len() - 1].id == id);
        assert(has_entity(rows1, id));
        lemma_index_of(rows1, id);
        assert(index_of(rows1, id) == rows1.len() - 1);
        assert(row_of(rows1, id).body is None);
        assert forall|i: int|
            0 <= i < rows1.len() && (#[trigger] rows1[i]).body is Some implies physic_world.handles().contains(
                rows1[i].body->0@,
            ) && bodies_map@[rows1[i].body->0@] == rows1[i].id by {
            assert(rows1[i] == rows0[i]);
        }
    }
    let init = if let Some(s) = shape_cuboid {
        s.create_rigid_body(world, physic_world, bodies_map, id, status, x, y)
    } else if let Some(s) = shape_triangle {
        s.create_rigid_body(world, physic_world, bodies_map, id, status, x, y)
    } else {
        let b = EcsRigidBody::safe_insert(id, world, physic_world, bodies_map);
        BodyInit { handle: b.handle(), status, x, y }
    };
    proof {
        let rows0 = old(world).rows_seq();
        let rows2 = world.rows_seq();
        let h = init.handle;
        // rows below the new one are exactly the old rows
        assert forall|i: int| 0 <= i < rows0.len() implies rows2[i] == rows0[i] by {
            assert(rows0[i].id < id);
        }
        assert(rows2.last().id == id);
        // the new entity keeps its requested components
        assert(rows2.last().velocity == velocity && rows2.last().transform == Some(
            (Transform { x, y }),
        ) && rows2.last().contacts == (if with_contacts {
            rows2.last().contacts
        } else {
            Option::<Contactor>::None
        }) && rows2.last().shape_cuboid == shape_cuboid && rows2.last().shape_triangle
            == shape_triangle);
        // a symmetric contact relation stays symmetric: the new list is
        // empty and no old list can name the fresh id
        if contacts_symmetric(rows0) {
            assert forall|i: int, j: int|
                0 <= i < rows2.len() && 0 <= j < rows2.len() && (#[trigger] rows2[i]).contacts
                    is Some && (#[trigger] rows2[j]).contacts is Some implies (
            rows2[i].contacts->0.touching@.contains(rows2[j].id)
                <==> rows2[j].contacts->0.touching@.contains(rows2[i].id)) by {
                if i < rows0.len() && j < rows0.len() {
                    assert(rows2[i] == rows0[i] && rows2[j] == rows0[j]);
                } else if i < rows0.len() && j == rows0.len() {
                    assert(rows2[i] == rows0[i]);
                    assert(!rows0[i].contacts->0.touching@.contains(id));
                } else if i == rows0.len() && j < rows0.len() {
                    assert(rows2[j] == rows0[j]);
                    assert(!rows0[j].contacts->0.touching@.contains(id));
                }
            }
        }
    }
    Ok((id, init))
}

/// Spawns a static box of half extents 2.5 units at (`x`, `y`) with a
/// zeroed velocity and an empty contact list.
pub fn create_static(
    world: &mut EcsWorld,
    physic_world: &mut PhysicWorld,
    bodies_map: &mut BodiesMap,
    x: i64,
    y: i64,
) -> (r: (u32, BodyInit))
    requires
        linked(*old(world), *old(physic_world), *old(bodies_map)),
        old(world).next_id() < INDEX_LIMIT,
        old(physic_world).handle_bound() < u32::MAX,
    ensures
        linked(*final(world), *final(physic_world), *final(bodies_map)),
        bijective(*old(world), *old(physic_world), *old(bodies_map)) ==> bijective(
            *final(world),
            *final(physic_world),
            *final(bodies_map),
        ),
        contacts_symmetric(old(world).rows_seq()) ==> contacts_symmetric(final(world).rows_seq()),
        spawned(
            *old(world),
            *old(physic_world),
            *old(bodies_map),
            *final(world),
            *final(physic_world),
            *final(bodies_map),
            r.0,
            r.1,
            Some((Velocity { x: 0, y: 0 })),
            true,
            false,
            Some((ShapeCuboid { half_x: 2500, half_y: 2500 })),
            None::<ShapeTriangle>,
            BodyStatus::Static,
            x,
            y,
        ),
{
    let res = spawn_entity(
        world,
        physic_world,
        bodies_map,
        Some(Velocity { x: 0, y: 0 }),
        true,
        false,
        Some(ShapeCuboid { half_x: 2500, half_y: 2500 }),
        None,
        BodyStatus::Static,
        x,
        y,
    );
    match res {
        Ok(pair) => pair,
        Err(_) => {
            proof {
                assert(false);
            }
            (0, BodyInit { handle: 0, status: BodyStatus::Static, x: 0, y: 0 })
        },
    }
}

/// Spawns a static triangle of side 4 units at (`x`, `y`) with a zeroed
/// velocity and an empty contact list.
pub fn create_static_tri(
    world: &mut EcsWorld,
    physic_world: &mut PhysicWorld,
    bodies_map: &mut BodiesMap,
    x: i64,
    y: i64,
) -> (r: (u32, BodyInit))
    requires
        linked(*old(world), *old(physic_world), *old(bodies_map)),
        old(world).next_id() < INDEX_LIMIT,
        old(physic_world).handle_bound() < u32::MAX,
    ensures
        linked(*final(world), *final(physic_world), *final(bodies_map)),
        bijective(*old(world), *old(physic_world), *old(bodies_map)) ==> bijective(
            *final(world),
            *final(physic_world),
            *final(bodies_map),
        ),
        contacts_symmetric(old(world).rows_seq()) ==> contacts_symmetric(final(world).rows_seq()),
        spawned(
            *old(world),
            *old(physic_world),
            *old(bodies_map),
            *final(world),
            *final(physic_world),
            *final(bodies_map),
            r.0,
            r.1,
            Some((Velocity { x: 0, y: 0 })),
            true,
            false,
            None::<ShapeCuboid>,
            Some(
                (ShapeTriangle {
                    ax: -2000i64,
                    ay: -2000i64,
                    bx: 2000,
                    by: 2000,
                    cx: -2000i64,
                    cy: 2000,
                }),
            ),
            BodyStatus::Static,
            x,
            y,
        ),
{
    let tri = ShapeTriangle { ax: -2000, ay: -2000, bx: 2000, by: 2000, cx: -2000, cy: 2000 };
    proof {
        assert(4000 * 4000 == 16_000_000int && 4000 * 0 == 0int) by (nonlinear_arith);
        assert(tri.spec_cross() == 4000 * 4000 - 4000 * 0);
    }
    let res = spawn_entity(
        world,
        physic_world,
        bodies_map,
        Some(Velocity { x: 0, y: 0 }),
        true,
        false,
        None,
        Some(tri),
        BodyStatus::Static,
        x,
        y,
    );
    match res {
        Ok(pair) => pair,
        Err(_) => {
            proof {
                assert(false);
            }
            (0, BodyInit { handle: 0, status: BodyStatus::Static, x: 0, y: 0 })
        },
    }
}

/// Spawns a dynamic box of half extents 2.5 by 1.25 units at (1, 8) with
/// velocity (10, 10) and an empty contact list.
pub fn create_moving(
    world: &mut EcsWorld,
    physic_world: &mut PhysicWorld,
    bodies_map: &mut BodiesMap,
) -> (r: (u32, BodyInit))
    requires
        linked(*old(world), *old(physic_world), *old(bodies_map)),
        old(world).next_id() < INDEX_LIMIT,
        old(physic_world).handle_bound() < u32::MAX,
    ensures
        linked(*final(world), *final(physic_world), *final(bodies_map)),
        bijective(*old(world), *old(physic_world), *old(bodies_map)) ==> bijective(
            *final(world),
            *final(physic_world),
            *final(bodies_map),
        ),
        contacts_symmetric(old(world).rows_seq()) ==> contacts_symmetric(final(world).rows_seq()),
        spawned(
            *old(world),
            *old(physic_world),
            *old(bodies_map),
            *final(world),
            *final(physic_world),
            *final(bodies_map),
            r.0,
            r.1,
            Some((Velocity { x: 10000, y: 10000 })),
            true,
            false,
            Some((ShapeCuboid { half_x: 2500, half_y: 1250 })),
            None::<ShapeTriangle>,
            BodyStatus::Dynamic,
            1000,
            8000,
        ),
{
    let res = spawn_entity(
        world,
        physic_world,
        bodies_map,
        Some(Velocity { x: 10000, y: 10000 }),
        true,
        false,
        Some(ShapeCuboid { half_x: 2500, half_y: 1250 }),
        None,
        BodyStatus::Dynamic,
        1000,
        8000,
    );
    match res {
        Ok(pair) => pair,
        Err(_) => {
            proof {
                assert(false);
            }
            (0, BodyInit { handle: 0, status: BodyStatus::Dynamic, x: 0, y: 0 })
        },
    }
}

/// Spawns the input-driven dynamic box of half extents 1 unit at (2, 40)
/// with a zeroed velocity, the controllable tag, and an empty contact
/// list.
pub fn create_controled(
    world: &mut EcsWorld,
    physic_world: &mut PhysicWorld,
    bodies_map: &mut BodiesMap,
) -> (r: (u32, BodyInit))
    requires
        linked(*old(world), *old(physic_world), *old(bodies_map)),
        old(world).next_id() < INDEX_LIMIT,
        old(physic_world).handle_bound() < u32::MAX,
    ensures
        linked(*final(world), *final(physic_world), *final(bodies_map)),
        bijective(*old(world), *old(physic_world), *old(bodies_map)) ==> bijective(
            *final(world),
            *final(physic_world),
            *final(bodies_map),
        ),
        contacts_symmetric(old(world).rows_seq()) ==> contacts_symmetric(final(world).rows_seq()),
        spawned(
            *old(world),
            *old(physic_world),
            *old(bodies_map),
            *final(world),
            *final(physic_world),
            *final(bodies_map),
            r.0,
            r.1,
            Some((Velocity { x: 0, y: 0 })),
            true,
            true,
            Some((ShapeCuboid { half_x: 1000, half_y: 1000 })),
            None::<ShapeTriangle>,
            BodyStatus::Dynamic,
            2000,
            40000,
        ),
{
    let res = spawn_entity(
        world,
        physic_world,
        bodies_map,
        Some(Velocity { x: 0, y: 0 }),
        true,
        true,
        Some(ShapeCuboid { half_x: 1000, half_y: 1000 }),
        None,
        BodyStatus::Dynamic,
        2000,
        40000,
    );
    match res {
        Ok(pair) => pair,
        Err(_) => {
            proof {
                assert(false);
            }
            (0, BodyInit { handle: 0, status: BodyStatus::Dynamic, x: 0, y: 0 })
        },
    }
}

} // verus!
