//! The per-frame system pipeline, in mandatory order: control input is
//! mapped onto velocities, desired velocities become orders for the
//! physics engine, the engine steps and reports contact events, poses are
//! synced back into transforms, and the end-of-frame reclamation pass
//! reconciles the physics world and the handle index with the entity
//! table.

use vstd::prelude::*;

use crate::components::{ShapeCuboid, ShapeTriangle, Transform, Velocity};
use crate::entities::{bijective, contacts_symmetric, handle_live, handle_seq, has_entity,
    ids_distinct, index_of, lemma_handle_seq_contains, lemma_handle_seq_distinct,
    lemma_handle_seq_same_bodies, lemma_index_of, linked, row_of, row_owns, EcsWorld, EntityRow};
use crate::resources::{BodiesMap, InputControls, PhysicWorld, UpdateTime};
use crate::util::{keep_out, lemma_keep_out_contains, lemma_keep_out_distinct,
    lemma_len_difference_subset};

verus! {

broadcast use vstd::seq_lib::group_seq_properties;

/// The fixed speed an input-driven entity moves at, in milliunits per
/// second.
pub const SPEED: i64 = 30_000;

/// Largest position magnitude the outline helpers accept, in milliunits.
pub const POSITION_LIMIT: i64 = 1_000_000_000_000_000;

/// The horizontal velocity the latched input asks for: left wins over
/// right, neither means rest.
pub open spec fn ctrl_vx(input: InputControls) -> i64 {
    if input.left {
        (-SPEED) as i64
    } else if input.right {
        SPEED
    } else {
        0
    }
}

/// The vertical velocity the latched input asks for: up wins over down,
/// neither means rest; up is negative, matching screen coordinates.
pub open spec fn ctrl_vy(input: InputControls) -> i64 {
    if input.up {
        (-SPEED) as i64
    } else if input.down {
        SPEED
    } else {
        0
    }
}

/// Maps the latched input onto the velocity of every controllable
/// entity, each axis independently; other entities are untouched. The
/// result for each entity depends only on the input, never on entity
/// count or order.
pub struct ControlableSystem;

impl ControlableSystem {
    /// Runs the control stage over the whole table.
    pub fn run(input: &InputControls, world: &mut EcsWorld)
        requires
            old(world).wf(),
        ensures
            final(world).wf(),
            final(world).rows_seq().len() == old(world).rows_seq().len(),
            forall|i: int|
                0 <= i < old(world).rows_seq().len() && old(world).controlable_set().contains(
                    (#[trigger] old(world).rows_seq()[i]).id,
                ) ==> final(world).rows_seq()[i] == (EntityRow {
                    velocity: Some((Velocity { x: ctrl_vx(*input), y: ctrl_vy(*input) })),
                    ..old(world).rows_seq()[i]
                }),
            forall|i: int|
                0 <= i < old(world).rows_seq().len() && !old(world).controlable_set().contains(
                    (#[trigger] old(world).rows_seq()[i]).id,
                ) ==> final(world).rows_seq()[i] == old(world).rows_seq()[i],
            final(world).controlable_set() == old(world).controlable_set(),
            final(world).tracked_seq() == old(world).tracked_seq(),
            final(world).next_id() == old(world).next_id(),
    {
        let vx: i64 = if input.left {
            -SPEED
        } else if input.right {
            SPEED
        } else {
            0
        };
        let vy: i64 = if input.up {
            -SPEED
        } else if input.down {
            SPEED
        } else {
            0
        };
        let n = world.len();
        let mut i: usize = 0;
        while i < n
            invariant
                world.wf(),
                vx == ctrl_vx(*input),
                vy == ctrl_vy(*input),
                n == world.rows_seq().len(),
                n == old(world).rows_seq().len(),
                0 <= i <= n,
                world.controlable_set() == old(world).controlable_set(),
                world.tracked_seq() == old(world).tracked_seq(),
                world.next_id() == old(world).next_id(),
                forall|k: int|
                    0 <= k < i && old(world).controlable_set().contains(
                        (#[trigger] old(world).rows_seq()[k]).id,
                    ) ==> world.rows_seq()[k] == (EntityRow {
                        velocity: Some((Velocity { x: ctrl_vx(*input), y: ctrl_vy(*input) })),
                        ..old(world).rows_seq()[k]
                    }),
                forall|k: int|
                    0 <= k < i && !old(world).controlable_set().contains(
                        (#[trigger] old(world).rows_seq()[k]).id,
                    ) ==> world.rows_seq()[k] == old(world).rows_seq()[k],
                forall|k: int|
                    i <= k < n ==> world.rows_seq()[k] == old(world).rows_seq()[k],
            decreases n - i,
        {
            let id = world.row_at(i).id;
            if world.is_controlable(id) {
                world.set_velocity_at(i, Velocity { x: vx, y: vy });
            }
            i = i + 1;
        }
    }
}

/// An order for the host: give this body this gameplay velocity. When
/// both axes are driven (`diagonal`), the host scales the magnitude by
/// the fixed diagonal factor before handing it to the engine.
#[derive(Clone, Copy, Debug, PartialEq, Eq, Structural)]
pub struct BodyVelocity {
    pub handle: u32,
    pub x: i64,
    pub y: i64,
    pub diagonal: bool,
}

/// The velocity order for one row that carries both a velocity and a
/// body.
pub open spec fn cmd_of(r: EntityRow) -> BodyVelocity {
    BodyVelocity {
        handle: r.body->0@,
        x: r.velocity->0.x,
        y: r.velocity->0.y,
        diagonal: r.velocity->0.x != 0 && r.velocity->0.y != 0,
    }
}

/// The velocity orders of all rows with both a velocity and a body, in
/// row order.
pub open spec fn move_commands(rows: Seq<EntityRow>) -> Seq<BodyVelocity>
    decreases rows.len(),
{
    if rows.len() == 0 {
        Seq::empty()
    } else if rows.last().velocity is Some && rows.last().body is Some {
        move_commands(rows.drop_last()).push(cmd_of(rows.last()))
    } else {
        move_commands(rows.drop_last())
    }
}

/// Peeling one row off the front of the prefix whose orders are listed.
pub proof fn lemma_move_commands_step(rows: Seq<EntityRow>, i: int)
    requires
        0 <= i < rows.len(),
    ensures
        move_commands(rows.take(i + 1)) == if rows[i].velocity is Some && rows[i].body is Some {
            move_commands(rows.take(i)).push(cmd_of(rows[i]))
        } else {
            move_commands(rows.take(i))
        },
{
    assert(rows.take(i + 1).last() == rows[i]);
    assert(rows.take(i + 1).drop_last() =~= rows.take(i));
}

/// Turns each gameplay velocity into an order for the physics engine,
/// one per entity with both a velocity and a body, in row order.
pub struct MoveSystem;

impl MoveSystem {
    /// Runs the move stage: collects the velocity orders the host applies
    /// to the engine before stepping.
    pub fn run(world: &EcsWorld) -> (cmds: Vec<BodyVelocity>)
        ensures
            cmds@ == move_commands(world.rows_seq()),
    {
        let mut cmds: Vec<BodyVelocity> = Vec::new();
        let n = world.len();
        let mut i: usize = 0;
        while i < n
            invariant
                n == world.rows_seq().len(),
                0 <= i <= n,
                cmds@ == move_commands(world.rows_seq().take(i as int)),
            decreases n - i,
        {
            proof {
                lemma_move_commands_step(world.rows_seq(), i as int);
            }
            let row = world.row_at(i);
            match (&row.velocity, &row.body) {
                (Some(v), Some(b)) => {
                    let cmd = BodyVelocity {
                        handle: b.handle(),
                        x: v.x,
                        y: v.y,
                        diagonal: v.x != 0 && v.y != 0,
                    };
                    cmds.push(cmd);
                },
                _ => {
                },
            }
            i = i + 1;
        }
        proof {
            assert(world.rows_seq().take(world.rows_seq().len() as int) =~= world.rows_seq());
        }
        cmds
    }
}

/// An order for the host: advance the physics engine by this tick.
#[derive(Clone, Copy, Debug, PartialEq, Eq, Structural)]
pub struct StepCommand {
    pub micros: u64,
}

/// Advances the physics world by the frame's elapsed time and drains the
/// engine's contact events into the per-entity contact lists.
pub struct PhysicSystem;

impl PhysicSystem {
    /// Runs the step stage: orders the host to set the engine timestep to
    /// the frame clock and advance the simulation once.
    pub fn run(update_time: &UpdateTime) -> (r: StepCommand)
        ensures
            r.micros == update_time.micros,
    {
        StepCommand { micros: update_time.micros }
    }
}

/// A contact notification from the engine, carrying the two body
/// handles, in emission order.
#[derive(Clone, Copy, Debug, PartialEq, Eq, Structural)]
pub enum ContactEvent {
    /// The two bodies began touching.
    Started(u32, u32),
    /// The two bodies ceased touching.
    Stopped(u32, u32),
}

/// The handle resolves through the index to an entity that exists.
pub open spec fn resolves(rows: Seq<EntityRow>, m: Map<u32, u32>, h: u32) -> bool {
    m.contains_key(h) && has_entity(rows, m[h])
}

/// A begin-contact event mutates only when both handles resolve and both
/// entities carry contact lists.
pub open spec fn started_applies(rows: Seq<EntityRow>, m: Map<u32, u32>, h1: u32, h2: u32) -> bool {
    &&& resolves(rows, m, h1)
    &&& resolves(rows, m, h2)
    &&& row_of(rows, m[h1]).contacts is Some
    &&& row_of(rows, m[h2]).contacts is Some
}

/// An end-contact event mutates only when both handles resolve; each
/// side with a contact list is then pruned.
pub open spec fn stopped_applies(rows: Seq<EntityRow>, m: Map<u32, u32>, h1: u32, h2: u32) -> bool {
    resolves(rows, m, h1) && resolves(rows, m, h2)
}

/// One event's effect on the contact list `l` of the entity `e`, with
/// resolution read from the pre-drain table `rows` and index `m`. An
/// event with a stale handle changes nothing.
pub open spec fn list_after_event(
    rows: Seq<EntityRow>,
    m: Map<u32, u32>,
    ev: ContactEvent,
    e: u32,
    l: Seq<u32>,
) -> Seq<u32> {
    match ev {
        ContactEvent::Started(h1, h2) => {
            if started_applies(rows, m, h1, h2) {
                let a = m[h1];
                let b = m[h2];
                let l1 = if e == a {
                    l.push(b)
                } else {
                    l
                };
                if e == b {
                    l1.push(a)
                } else {
                    l1
                }
            } else {
                l
            }
        },
        ContactEvent::Stopped(h1, h2) => {
            if stopped_applies(rows, m, h1, h2) {
                let a = m[h1];
                let b = m[h2];
                let l1 = if e == a {
                    keep_out(l, seq![b])
                } else {
                    l
                };
                if e == b {
                    keep_out(l1, seq![a])
                } else {
                    l1
                }
            } else {
                l
            }
        },
    }
}

/// The whole drain's effect on the contact list `l` of the entity `e`,
/// event by event in emission order.
pub open spec fn list_after_events(
    rows: Seq<EntityRow>,
    m: Map<u32, u32>,
    events: Seq<ContactEvent>,
    e: u32,
    l: Seq<u32>,
) -> Seq<u32>
    decreases events.len(),
{
    if events.len() == 0 {
        l
    } else {
        list_after_event(rows, m, events.last(), e, list_after_events(
            rows,
            m,
            events.drop_last(),
            e,
            l,
        ))
    }
}

/// Peeling one event off the front of the prefix being drained.
pub proof fn lemma_list_after_events_step(
    rows: Seq<EntityRow>,
    m: Map<u32, u32>,
    events: Seq<ContactEvent>,
    k: int,
    e: u32,
    l: Seq<u32>,
)
    requires
        0 <= k < events.len(),
    ensures
        list_after_events(rows, m, events.take(k + 1), e, l) == list_after_event(
            rows,
            m,
            events[k],
            e,
            list_after_events(rows, m, events.take(k), e, l),
        ),
{
    assert(events.take(k + 1).last() == events[k]);
    assert(events.take(k + 1).drop_last() =~= events.take(k));
}

/// Resolves a body handle through the index to the position and id of
/// its owning row, if the entity still exists.
fn resolve_handle(world: &EcsWorld, bodies_map: &BodiesMap, h: u32) -> (r: Option<(usize, u32)>)
    requires
        world.wf(),
    ensures
        match r {
            Some(p) => {
                &&& resolves(world.rows_seq(), bodies_map@, h)
                &&& bodies_map@[h] == p.1
                &&& p.0 < world.rows_seq().len()
                &&& p.0 as int == index_of(world.rows_seq(), p.1)
                &&& world.rows_seq()[p.0 as int].id == p.1
            },
            None => !resolves(world.rows_seq(), bodies_map@, h),
        },
{
    match bodies_map.lookup(h) {
        None => None,
        Some(e) => {
            match world.find_row(e) {
                None => None,
                Some(i) => Some((i, e)),
            }
        },
    }
}


/// Two tables with the same ids hold the same entities.
proof fn lemma_same_entities(rows0: Seq<EntityRow>, rows1: Seq<EntityRow>)
    requires
        rows0.len() == rows1.len(),
        forall|i: int| 0 <= i < rows0.len() ==> (#[trigger] rows1[i]).id == rows0[i].id,
    ensures
        forall|e: u32| #[trigger] has_entity(rows1, e) ==> has_entity(rows0, e),
        forall|e: u32| #[trigger] has_entity(rows0, e) ==> has_entity(rows1, e),
{
    assert forall|e: u32| #[trigger] has_entity(rows1, e) implies has_entity(rows0, e) by {
        let j = choose|j: int| 0 <= j < rows1.len() && (#[trigger] rows1[j]).id == e;
        assert(rows0[j].id == e);
    }
    assert forall|e: u32| #[trigger] has_entity(rows0, e) implies has_entity(rows1, e) by {
        let j = choose|j: int| 0 <= j < rows0.len() && (#[trigger] rows0[j]).id == e;
        assert(rows1[j].id == e);
    }
}

/// A one-element sequence holds exactly that element.
proof fn lemma_singleton_contains(v: u32, x: u32)
    ensures
        seq![v].contains(x) <==> v == x,
{
    if v == x {
        assert(seq![v][0] == x);
    }
    if seq![v].contains(x) {
        let i = choose|i: int| 0 <= i < seq![v].len() && seq![v][i] == x;
    }
}

/// An event that does not apply leaves every contact list as it was.
proof fn lemma_event_noop(rows0: Seq<EntityRow>, m: Map<u32, u32>, ev: ContactEvent)
    requires
        match ev {
            ContactEvent::Started(h1, h2) => !started_applies(rows0, m, h1, h2),
            ContactEvent::Stopped(h1, h2) => !stopped_applies(rows0, m, h1, h2),
        },
    ensures
        forall|e: u32, l: Seq<u32>| #[trigger] list_after_event(rows0, m, ev, e, l) == l,
{
}

/// The effect of an applying begin-contact event: each side's list gains
/// the other's id; every other list, and everything but the lists, is
/// unchanged; a symmetric relation stays symmetric.
proof fn lemma_started_shape(
    rows0: Seq<EntityRow>,
    pre: Seq<EntityRow>,
    mid: Seq<EntityRow>,
    new: Seq<EntityRow>,
    m: Map<u32, u32>,
    h1: u32,
    h2: u32,
    ia: int,
    ib: int,
    a: u32,
    b: u32,
)
    requires
        ids_distinct(rows0),
        pre.len() == rows0.len(),
        forall|i: int|
            0 <= i < rows0.len() ==> pre[i] == (EntityRow {
                contacts: (#[trigger] pre[i]).contacts,
                ..rows0[i]
            }),
        forall|i: int|
            0 <= i < rows0.len() ==> ((#[trigger] pre[i]).contacts is Some <==> rows0[i].contacts
                is Some),
        started_applies(rows0, m, h1, h2),
        0 <= ia < rows0.len(),
        0 <= ib < rows0.len(),
        m[h1] == a,
        m[h2] == b,
        rows0[ia].id == a,
        rows0[ib].id == b,
        pre[ia].contacts is Some,
        pre[ib].contacts is Some,
        mid.len() == pre.len(),
        forall|k: int| 0 <= k < pre.len() && k != ia ==> #[trigger] mid[k] == pre[k],
        mid[ia] == (EntityRow { contacts: mid[ia].contacts, ..pre[ia] }),
        mid[ia].contacts is Some,
        mid[ia].contacts->0.touching@ == pre[ia].contacts->0.touching@.push(b),
        new.len() == mid.len(),
        forall|k: int| 0 <= k < mid.len() && k != ib ==> #[trigger] new[k] == mid[k],
        new[ib] == (EntityRow { contacts: new[ib].contacts, ..mid[ib] }),
        new[ib].contacts is Some,
        new[ib].contacts->0.touching@ == mid[ib].contacts->0.touching@.push(a),
    ensures
        forall|i: int|
            0 <= i < rows0.len() ==> new[i] == (EntityRow {
                contacts: (#[trigger] new[i]).contacts,
                ..rows0[i]
            }),
        forall|i: int|
            0 <= i < rows0.len() ==> ((#[trigger] new[i]).contacts is Some <==> rows0[i].contacts
                is Some),
        forall|i: int|
            0 <= i < rows0.len() && (#[trigger] rows0[i]).contacts is Some
                ==> new[i].contacts->0.touching@ == list_after_event(
                rows0,
                m,
                ContactEvent::Started(h1, h2),
                rows0[i].id,
                pre[i].contacts->0.touching@,
            ),
        contacts_symmetric(pre) ==> contacts_symmetric(new),
{
    assert forall|i: int| 0 <= i < rows0.len() implies new[i] == (EntityRow {
        contacts: (#[trigger] new[i]).contacts,
        ..rows0[i]
    }) by {
        if i != ia && i != ib {
            assert(new[i] == pre[i]);
        }
    }
    assert forall|i: int| 0 <= i < rows0.len() implies ((#[trigger] new[i]).contacts is Some
        <==> rows0[i].contacts is Some) by {
        if i != ia && i != ib {
            assert(new[i] == pre[i]);
        }
    }
    assert forall|i: int|
        0 <= i < rows0.len() && (#[trigger] rows0[i]).contacts is Some implies new[i].contacts->0.touching@
        == list_after_event(
        rows0,
        m,
        ContactEvent::Started(h1, h2),
        rows0[i].id,
        pre[i].contacts->0.touching@,
    ) by {
        let e = rows0[i].id;
        let l = pre[i].contacts->0.touching@;
        if ia == ib {
            if i == ia {
                assert(new[i].contacts->0.touching@ == l.push(b).push(a));
            } else {
                assert(new[i] == pre[i]);
                assert(e != a && e != b);
            }
        } else {
            assert(a != b);
            if i == ia {
                assert(new[i] == mid[i]);
                assert(new[i].contacts->0.touching@ == l.push(b));
                assert(e == a && e != b);
            } else if i == ib {
                assert(mid[i] == pre[i]);
                assert(new[i].contacts->0.touching@ == l.push(a));
                assert(e == b && e != a);
            } else {
                assert(mid[i] == pre[i] && new[i] == mid[i]);
                assert(e != a && e != b);
            }
        }
    }
    if contacts_symmetric(pre) {
        assert forall|i: int, j: int|
            0 <= i < new.len() && 0 <= j < new.len() && (#[trigger] new[i]).contacts is Some && (
            #[trigger] new[j]).contacts is Some implies (new[i].contacts->0.touching@.contains(
            new[j].id,
        ) <==> new[j].contacts->0.touching@.contains(new[i].id)) by {
            assert(pre[i].contacts is Some && pre[j].contacts is Some);
            let ei = rows0[i].id;
            let ej = rows0[j].id;
            assert(new[i].id == ei && new[j].id == ej);
            let li = pre[i].contacts->0.touching@;
            let lj = pre[j].contacts->0.touching@;
            assert(li.contains(ej) <==> lj.contains(ei));
            if i != j {
                assert(ei != ej);
                if ia == ib {
                    if i == ia {
                        assert(new[i].contacts->0.touching@ == li.push(b).push(a));
                        assert(new[j] == pre[j]);
                        assert(ej != a && ej != b);
                    } else if j == ia {
                        assert(new[j].contacts->0.touching@ == lj.push(b).push(a));
                        assert(new[i] == pre[i]);
                        assert(ei != a && ei != b);
                    } else {
                        assert(new[i] == pre[i] && new[j] == pre[j]);
                    }
                } else {
                    assert(a != b);
                    if i == ia && j == ib {
                        assert(new[i].contacts->0.touching@ == li.push(b));
                        assert(new[j].contacts->0.touching@ == lj.push(a));
                    } else if i == ib && j == ia {
                        assert(new[i].contacts->0.touching@ == li.push(a));
                        assert(new[j].contacts->0.touching@ == lj.push(b));
                    } else if i == ia {
                        assert(new[i].contacts->0.touching@ == li.push(b));
                        assert(new[j] == pre[j]);
                        assert(ej != b);
                    } else if i == ib {
                        assert(new[i].contacts->0.touching@ == li.push(a));
                        assert(new[j] == pre[j]);
                        assert(ej != a);
                    } else if j == ia {
                        assert(new[j].contacts->0.touching@ == lj.push(b));
                        assert(new[i] == pre[i]);
                        assert(ei != b);
                    } else if j == ib {
                        assert(new[j].contacts->0.touching@ == lj.push(a));
                        assert(new[i] == pre[i]);
                        assert(ei != a);
                    } else {
                        assert(new[i] == pre[i] && new[j] == pre[j]);
                    }
                }
            }
        }
    }
}

/// The effect of an applying end-contact event: each side with a list
/// loses every occurrence of the other's id; every other list, and
/// everything but the lists, is unchanged; a symmetric relation stays
/// symmetric.
proof fn lemma_stopped_shape(
    rows0: Seq<EntityRow>,
    pre: Seq<EntityRow>,
    mid: Seq<EntityRow>,
    new: Seq<EntityRow>,
    m: Map<u32, u32>,
    h1: u32,
    h2: u32,
    ia: int,
    ib: int,
    a: u32,
    b: u32,
    a_has: bool,
    b_has: bool,
)
    requires
        ids_distinct(rows0),
        pre.len() == rows0.len(),
        forall|i: int|
            0 <= i < rows0.len() ==> pre[i] == (EntityRow {
                contacts: (#[trigger] pre[i]).contacts,
                ..rows0[i]
            }),
        forall|i: int|
            0 <= i < rows0.len() ==> ((#[trigger] pre[i]).contacts is Some <==> rows0[i].contacts
                is Some),
        stopped_applies(rows0, m, h1, h2),
        0 <= ia < rows0.len(),
        0 <= ib < rows0.len(),
        m[h1] == a,
        m[h2] == b,
        rows0[ia].id == a,
        rows0[ib].id == b,
        a_has == (pre[ia].contacts is Some),
        b_has == (pre[ib].contacts is Some),
        mid.len() == pre.len(),
        !a_has ==> mid == pre,
        a_has ==> forall|k: int| 0 <= k < pre.len() && k != ia ==> #[trigger] mid[k] == pre[k],
        a_has ==> mid[ia] == (EntityRow { contacts: mid[ia].contacts, ..pre[ia] }),
        a_has ==> mid[ia].contacts is Some,
        a_has ==> mid[ia].contacts->0.touching@ == keep_out(
            pre[ia].contacts->0.touching@,
            seq![b],
        ),
        new.len() == mid.len(),
        !b_has ==> new == mid,
        b_has ==> forall|k: int| 0 <= k < mid.len() && k != ib ==> #[trigger] new[k] == mid[k],
        b_has ==> new[ib] == (EntityRow { contacts: new[ib].contacts, ..mid[ib] }),
        b_has ==> new[ib].contacts is Some,
        b_has ==> new[ib].contacts->0.touching@ == keep_out(
            mid[ib].contacts->0.touching@,
            seq![a],
        ),
    ensures
        forall|i: int|
            0 <= i < rows0.len() ==> new[i] == (EntityRow {
                contacts: (#[trigger] new[i]).contacts,
                ..rows0[i]
            }),
        forall|i: int|
            0 <= i < rows0.len() ==> ((#[trigger] new[i]).contacts is Some <==> rows0[i].contacts
                is Some),
        forall|i: int|
            0 <= i < rows0.len() && (#[trigger] rows0[i]).contacts is Some
                ==> new[i].contacts->0.touching@ == list_after_event(
                rows0,
                m,
                ContactEvent::Stopped(h1, h2),
                rows0[i].id,
                pre[i].contacts->0.touching@,
            ),
        contacts_symmetric(pre) ==> contacts_symmetric(new),
{
    assert forall|i: int| 0 <= i < rows0.len() implies new[i] == (EntityRow {
        contacts: (#[trigger] new[i]).contacts,
        ..rows0[i]
    }) && ((new[i]).contacts is Some <==> rows0[i].contacts is Some) by {
        if i != ia && i != ib {
            assert(mid[i] == pre[i] && new[i] == mid[i]);
        } else if i == ia && i != ib {
            if !b_has {
                assert(new[i] == mid[i]);
            } else {
                assert(new[i] == mid[i]);
            }
        }
    }
    assert forall|i: int|
        0 <= i < rows0.len() && (#[trigger] rows0[i]).contacts is Some implies new[i].contacts->0.touching@
        == list_after_event(
        rows0,
        m,
        ContactEvent::Stopped(h1, h2),
        rows0[i].id,
        pre[i].contacts->0.touching@,
    ) by {
        let e = rows0[i].id;
        let l = pre[i].contacts->0.touching@;
        if ia == ib {
            if i == ia {
                assert(a_has && b_has);
                assert(mid[i].contacts->0.touching@ == keep_out(l, seq![b]));
                assert(new[i].contacts->0.touching@ == keep_out(keep_out(l, seq![b]), seq![a]));
            } else {
                assert(mid[i] == pre[i] && new[i] == mid[i]);
                assert(e != a && e != b);
            }
        } else {
            assert(a != b);
            if i == ia {
                assert(a_has);
                assert(new[i] == mid[i]);
                assert(new[i].contacts->0.touching@ == keep_out(l, seq![b]));
                assert(e == a && e != b);
            } else if i == ib {
                assert(b_has);
                assert(mid[i] == pre[i]);
                assert(new[i].contacts->0.touching@ == keep_out(l, seq![a]));
                assert(e == b && e != a);
            } else {
                assert(mid[i] == pre[i] && new[i] == mid[i]);
                assert(e != a && e != b);
            }
        }
    }
    if contacts_symmetric(pre) {
        assert forall|i: int, j: int|
            0 <= i < new.len() && 0 <= j < new.len() && (#[trigger] new[i]).contacts is Some && (
            #[trigger] new[j]).contacts is Some implies (new[i].contacts->0.touching@.contains(
            new[j].id,
        ) <==> new[j].contacts->0.touching@.contains(new[i].id)) by {
            assert(pre[i].contacts is Some && pre[j].contacts is Some);
            let ei = rows0[i].id;
            let ej = rows0[j].id;
            assert(new[i].id == ei && new[j].id == ej);
            let li = pre[i].contacts->0.touching@;
            let lj = pre[j].contacts->0.touching@;
            assert(li.contains(ej) <==> lj.contains(ei));
            lemma_singleton_contains(a, ei);
            lemma_singleton_contains(a, ej);
            lemma_singleton_contains(b, ei);
            lemma_singleton_contains(b, ej);
            lemma_keep_out_contains(li, seq![a], ej);
            lemma_keep_out_contains(li, seq![b], ej);
            lemma_keep_out_contains(lj, seq![a], ei);
            lemma_keep_out_contains(lj, seq![b], ei);
            lemma_keep_out_contains(keep_out(li, seq![b]), seq![a], ej);
            lemma_keep_out_contains(keep_out(lj, seq![b]), seq![a], ei);
            if i != j {
                assert(ei != ej);
                if ia == ib {
                    if i == ia {
                        assert(new[i].contacts->0.touching@ == keep_out(
                            keep_out(li, seq![b]),
                            seq![a],
                        ));
                        assert(new[j] == pre[j]);
                        assert(ej != a && ej != b);
                    } else if j == ia {
                        assert(new[j].contacts->0.touching@ == keep_out(
                            keep_out(lj, seq![b]),
                            seq![a],
                        ));
                        assert(new[i] == pre[i]);
                        assert(ei != a && ei != b);
                    } else {
                        assert(new[i] == pre[i] && new[j] == pre[j]);
                    }
                } else {
                    assert(a != b);
                    if i == ia && j == ib {
                        assert(new[i].contacts->0.touching@ == keep_out(li, seq![b]));
                        assert(new[j].contacts->0.touching@ == keep_out(lj, seq![a]));
                        assert(!new[i].contacts->0.touching@.contains(ej));
                        assert(!new[j].contacts->0.touching@.contains(ei));
                    } else if i == ib && j == ia {
                        assert(new[i].contacts->0.touching@ == keep_out(li, seq![a]));
                        assert(new[j].contacts->0.touching@ == keep_out(lj, seq![b]));
                        assert(!new[i].contacts->0.touching@.contains(ej));
                        assert(!new[j].contacts->0.touching@.contains(ei));
                    } else if i == ia {
                        assert(new[i].contacts->0.touching@ == keep_out(li, seq![b]));
                        assert(new[j] == pre[j]);
                        assert(ej != b);
                    } else if i == ib {
                        assert(new[i].contacts->0.touching@ == keep_out(li, seq![a]));
                        assert(new[j] == pre[j]);
                        assert(ej != a);
                    } else if j == ia {
                        assert(new[j].contacts->0.touching@ == keep_out(lj, seq![b]));
                        assert(new[i] == pre[i]);
                        assert(ei != b);
                    } else if j == ib {
                        assert(new[j].contacts->0.touching@ == keep_out(lj, seq![a]));
                        assert(new[i] == pre[i]);
                        assert(ei != a);
                    } else {
                        assert(new[i] == pre[i] && new[j] == pre[j]);
                    }
                }
            }
        }
    }
}

impl PhysicSystem {
    /// Drains the engine's contact events, in emission order, into the
    /// per-entity contact lists: a begin event appends each side to the
    /// other's list when both sides resolve and carry lists (duplicates
    /// are kept); an end event removes every occurrence of each side
    /// from the other's list when both sides resolve. An event naming a
    /// reclaimed handle is dropped without any effect. The index is read
    /// only: no event can resurrect an entry. A symmetric contact
    /// relation stays symmetric.
    pub fn apply_contact_events(
        world: &mut EcsWorld,
        bodies_map: &BodiesMap,
        events: &Vec<ContactEvent>,
    )
        requires
            old(world).wf(),
        ensures
            final(world).wf(),
            final(world).rows_seq().len() == old(world).rows_seq().len(),
            forall|i: int|
                0 <= i < old(world).rows_seq().len() ==> final(world).rows_seq()[i] == (EntityRow {
                    contacts: final(world).rows_seq()[i].contacts,
                    ..old(world).rows_seq()[i]
                }),
            forall|i: int|
                0 <= i < old(world).rows_seq().len() ==> ((#[trigger] final(world).rows_seq()[i]).contacts
                    is Some <==> old(world).rows_seq()[i].contacts is Some),
            forall|i: int|
                0 <= i < old(world).rows_seq().len() && (#[trigger] old(world).rows_seq()[i]).contacts
                    is Some ==> final(world).rows_seq()[i].contacts->0.touching@
                    == list_after_events(
                    old(world).rows_seq(),
                    bodies_map@,
                    events@,
                    old(world).rows_seq()[i].id,
                    old(world).rows_seq()[i].contacts->0.touching@,
                ),
            contacts_symmetric(old(world).rows_seq()) ==> contacts_symmetric(
                final(world).rows_seq(),
            ),
            final(world).controlable_set() == old(world).controlable_set(),
            final(world).tracked_seq() == old(world).tracked_seq(),
            final(world).next_id() == old(world).next_id(),
    {
        let rows0 = Ghost(old(world).rows_seq());
        let m = Ghost(bodies_map@);
        let mut k: usize = 0;
        while k < events.len()
            invariant
                world.wf(),
                rows0@ == old(world).rows_seq(),
                ids_distinct(rows0@),
                m@ == bodies_map@,
                0 <= k <= events@.len(),
                world.rows_seq().len() == rows0@.len(),
                forall|i: int|
                    0 <= i < rows0@.len() ==> world.rows_seq()[i] == (EntityRow {
                        contacts: world.rows_seq()[i].contacts,
                        ..rows0@[i]
                    }),
                forall|i: int|
                    0 <= i < rows0@.len() ==> ((#[trigger] world.rows_seq()[i]).contacts is Some
                        <==> rows0@[i].contacts is Some),
                forall|i: int|
                    0 <= i < rows0@.len() && (#[trigger] rows0@[i]).contacts is Some
                        ==> world.rows_seq()[i].contacts->0.touching@ == list_after_events(
                        rows0@,
                        m@,
                        events@.take(k as int),
                        rows0@[i].id,
                        rows0@[i].contacts->0.touching@,
                    ),
                contacts_symmetric(rows0@) ==> contacts_symmetric(world.rows_seq()),
                world.controlable_set() == old(world).controlable_set(),
                world.tracked_seq() == old(world).tracked_seq(),
                world.next_id() == old(world).next_id(),
            decreases events@.len() - k,
        {
            let ghost rows_pre = world.rows_seq();
            let ev = events[k];
            proof {
                assert forall|i: int| 0 <= i < rows0@.len() implies (#[trigger] rows_pre[i]).id
                    == rows0@[i].id by {
                    assert(rows_pre[i] == (EntityRow { contacts: rows_pre[i].contacts, ..rows0@[i] }));
                }
                lemma_same_entities(rows0@, rows_pre);
            }
            match ev {
                ContactEvent::Started(h1, h2) => {
                    let r1 = resolve_handle(world, bodies_map, h1);
                    let r2 = resolve_handle(world, bodies_map, h2);
                    match (r1, r2) {
                        (Some((ia, a)), Some((ib, b))) => {
                            let a_has = world.row_at(ia).contacts.is_some();
                            let b_has = world.row_at(ib).contacts.is_some();
                            proof {
                                assert(rows0@[ia as int].id == a && rows0@[ib as int].id == b);
                                assert(has_entity(rows0@, a) && has_entity(rows0@, b));
                                lemma_index_of(rows0@, a);
                                lemma_index_of(rows0@, b);
                                assert(index_of(rows0@, a) == ia as int);
                                assert(index_of(rows0@, b) == ib as int);
                                assert(a_has == (row_of(rows0@, a).contacts is Some));
                                assert(b_has == (row_of(rows0@, b).contacts is Some));
                            }
                            if a_has && b_has {
                                proof {
                                    assert(started_applies(rows0@, m@, h1, h2));
                                    assert(rows_pre[ib as int].id == b);
                                    assert(b < world.next_id() && a < world.next_id());
                                }
                                world.push_contact_at(ia, b);
                                let ghost rows_mid = world.rows_seq();
                                world.push_contact_at(ib, a);
                                proof {
                                    let rows_new = world.rows_seq();
                                    lemma_started_shape(
                                        rows0@, rows_pre, rows_mid, rows_new, m@,
                                        h1, h2, ia as int, ib as int, a, b,
                                    );
                                }
                            } else {
                                proof {
                                    assert(!started_applies(rows0@, m@, h1, h2));
                                    lemma_event_noop(rows0@, m@, ev);
                                }
                            }
                        },
                        _ => {
                            proof {
                                assert(!started_applies(rows0@, m@, h1, h2)) by {
                                    if started_applies(rows0@, m@, h1, h2) {
                                        assert(has_entity(rows_pre, m@[h1]));
                                        assert(has_entity(rows_pre, m@[h2]));
                                    }
                                }
                                lemma_event_noop(rows0@, m@, ev);
                            }
                        },
                    }
                },
                ContactEvent::Stopped(h1, h2) => {
                    let r1 = resolve_handle(world, bodies_map, h1);
                    let r2 = resolve_handle(world, bodies_map, h2);
                    match (r1, r2) {
                        (Some((ia, a)), Some((ib, b))) => {
                            proof {
                                assert(rows0@[ia as int].id == a && rows0@[ib as int].id == b);
                                assert(has_entity(rows0@, a) && has_entity(rows0@, b));
                                lemma_index_of(rows0@, a);
                                lemma_index_of(rows0@, b);
                                assert(index_of(rows0@, a) == ia as int);
                                assert(index_of(rows0@, b) == ib as int);
                                assert(stopped_applies(rows0@, m@, h1, h2));
                            }
                            let a_has = world.row_at(ia).contacts.is_some();
                            if a_has {
                                world.prune_contacts_at(ia, b);
                            }
                            let ghost rows_mid = world.rows_seq();
                            let b_has = world.row_at(ib).contacts.is_some();
                            if b_has {
                                world.prune_contacts_at(ib, a);
                            }
                            proof {
                                let rows_new = world.rows_seq();
                                lemma_stopped_shape(
                                    rows0@, rows_pre, rows_mid, rows_new, m@,
                                    h1, h2, ia as int, ib as int, a, b, a_has, b_has,
                                );
                            }
                        },
                        _ => {
                            proof {
                                assert(!stopped_applies(rows0@, m@, h1, h2)) by {
                                    if stopped_applies(rows0@, m@, h1, h2) {
                                        assert(has_entity(rows_pre, m@[h1]));
                                        assert(has_entity(rows_pre, m@[h2]));
                                    }
                                }
                                lemma_event_noop(rows0@, m@, ev);
                            }
                        },
                    }
                },
            }
            proof {
                assert forall|i: int|
                    0 <= i < rows0@.len() && (#[trigger] rows0@[i]).contacts is Some implies world.rows_seq()[i].contacts->0.touching@
                    == list_after_events(
                    rows0@,
                    m@,
                    events@.take(k as int + 1),
                    rows0@[i].id,
                    rows0@[i].contacts->0.touching@,
                ) by {
                    lemma_list_after_events_step(
                        rows0@,
                        m@,
                        events@,
                        k as int,
                        rows0@[i].id,
                        rows0@[i].contacts->0.touching@,
                    );
                }
            }
            k = k + 1;
        }
        proof {
            assert(events@.take(events@.len() as int) =~= events@);
        }
    }
}

/// A body pose read back from the engine after a step, in milliunits.
#[derive(Clone, Copy, Debug, PartialEq, Eq, Structural)]
pub struct Pose {
    pub handle: u32,
    pub x: i64,
    pub y: i64,
}

/// The first reported pose for a handle, if any.
pub open spec fn first_pose(poses: Seq<Pose>, h: u32) -> Option<Pose>
    decreases poses.len(),
{
    if poses.len() == 0 {
        None
    } else if poses[0].handle == h {
        Some(poses[0])
    } else {
        first_pose(poses.drop_first(), h)
    }
}

/// A row after the sync stage: a row with both a body and a transform
/// takes the first pose reported for its handle; every other row is
/// unchanged.
pub open spec fn synced_row(r: EntityRow, poses: Seq<Pose>) -> EntityRow {
    if r.body is Some && r.transform is Some && first_pose(poses, r.body->0@) is Some {
        EntityRow {
            transform: Some(
                Transform {
                    x: first_pose(poses, r.body->0@)->0.x,
                    y: first_pose(poses, r.body->0@)->0.y,
                },
            ),
            ..r
        }
    } else {
        r
    }
}

/// The first pose reported for `h`, scanning in report order.
fn find_pose(poses: &Vec<Pose>, h: u32) -> (r: Option<Pose>)
    ensures
        r == first_pose(poses@, h),
{
    let mut k: usize = 0;
    while k < poses.len()
        invariant
            0 <= k <= poses@.len(),
            first_pose(poses@, h) == first_pose(poses@.skip(k as int), h),
        decreases poses@.len() - k,
    {
        proof {
            assert(poses@.skip(k as int)[0] == poses@[k as int]);
            assert(poses@.skip(k as int).drop_first() =~= poses@.skip(k as int + 1));
        }
        if poses[k].handle == h {
            return Some(poses[k]);
        }
        k = k + 1;
    }
    None
}

/// Reads the stepped poses back into the transforms of the entities that
/// carry both a body and a transform; entities without a reported pose,
/// or without both components, keep their transform.
pub struct SyncSystem;

impl SyncSystem {
    /// Runs the sync stage over the whole table.
    pub fn run(world: &mut EcsWorld, poses: &Vec<Pose>)
        requires
            old(world).wf(),
        ensures
            final(world).wf(),
            final(world).rows_seq().len() == old(world).rows_seq().len(),
            forall|i: int|
                0 <= i < old(world).rows_seq().len() ==> final(world).rows_seq()[i] == synced_row(
                    #[trigger] old(world).rows_seq()[i],
                    poses@,
                ),
            final(world).controlable_set() == old(world).controlable_set(),
            final(world).tracked_seq() == old(world).tracked_seq(),
            final(world).next_id() == old(world).next_id(),
    {
        let n = world.len();
        let mut i: usize = 0;
        while i < n
            invariant
                world.wf(),
                n == world.rows_seq().len(),
                n == old(world).rows_seq().len(),
                0 <= i <= n,
                world.controlable_set() == old(world).controlable_set(),
                world.tracked_seq() == old(world).tracked_seq(),
                world.next_id() == old(world).next_id(),
                forall|k: int|
                    0 <= k < i ==> world.rows_seq()[k] == synced_row(
                        #[trigger] old(world).rows_seq()[k],
                        poses@,
                    ),
                forall|k: int|
                    i <= k < n ==> world.rows_seq()[k] == old(world).rows_seq()[k],
            decreases n - i,
        {
            let row = world.row_at(i);
            let handle_opt = match (&row.body, &row.transform) {
                (Some(b), Some(_)) => Some(b.handle()),
                _ => None,
            };
            match handle_opt {
                Some(h) => {
                    match find_pose(poses, h) {
                        Some(p) => {
                            world.set_transform_at(i, Transform { x: p.x, y: p.y });
                        },
                        None => {
                        },
                    }
                },
                None => {
                },
            }
            i = i + 1;
        }
    }
}

/// The end-of-frame reclamation pass: diffs the retained-removal
/// recorder against the handles the rows still own, removes every
/// no-longer-owned body from the physics world first and from the index
/// second, and resets the recorder. After the pass the handle-entity
/// bijection holds again.
pub struct ReclamationPass;

impl ReclamationPass {
    /// Runs the pass; returns the reclaimed handles, which the host
    /// removes from the engine in the same batch.
    pub fn run(
        world: &mut EcsWorld,
        physic_world: &mut PhysicWorld,
        bodies_map: &mut BodiesMap,
    ) -> (removed: Vec<u32>)
        requires
            linked(*old(world), *old(physic_world), *old(bodies_map)),
        ensures
            linked(*final(world), *final(physic_world), *final(bodies_map)),
            bijective(*final(world), *final(physic_world), *final(bodies_map)),
            removed@ == keep_out(old(world).tracked_seq(), handle_seq(old(world).rows_seq())),
            removed@.no_duplicates(),
            forall|h: u32|
                #[trigger] removed@.contains(h) <==> old(world).tracked_set().contains(h)
                    && !handle_live(old(world).rows_seq(), h),
            final(world).rows_seq() == old(world).rows_seq(),
            final(world).controlable_set() == old(world).controlable_set(),
            final(world).next_id() == old(world).next_id(),
            final(world).tracked_seq() == handle_seq(old(world).rows_seq()),
            final(physic_world).handles() == old(physic_world).handles().difference(
                removed@.to_set(),
            ),
            final(physic_world).live_seq().len() == old(physic_world).live_seq().len()
                - removed@.len(),
            final(physic_world).handle_bound() == old(physic_world).handle_bound(),
            final(bodies_map)@ == old(bodies_map)@.remove_keys(removed@.to_set()),
            final(bodies_map)@.dom().len() == old(bodies_map)@.dom().len() - removed@.len(),
    {
        let ghost rows = old(world).rows_seq();
        let ghost tracked0 = old(world).tracked_seq();
        let ghost p0 = *old(physic_world);
        let ghost m0 = *old(bodies_map);
        let current = world.collect_handles();
        proof {
            lemma_handle_seq_distinct(rows);
        }
        let removed = world.retained(&current);
        proof {
            lemma_keep_out_distinct(tracked0, current@);
            assert forall|h: u32| #[trigger] removed@.contains(h) <==> old(
                world,
            ).tracked_set().contains(h) && !handle_live(rows, h) by {
                lemma_keep_out_contains(tracked0, current@, h);
                lemma_handle_seq_contains(rows, h);
            }
            // the reclaimed handles are all live in the world
            assert forall|i: int| 0 <= i < removed@.len() implies p0.handles().contains(
                #[trigger] removed@[i],
            ) by {
                assert(removed@.contains(removed@[i]));
            }
        }
        physic_world.remove_bodies(&removed);
        let mut k: usize = 0;
        while k < removed.len()
            invariant
                0 <= k <= removed@.len(),
                bodies_map@ == m0@.remove_keys(removed@.take(k as int).to_set()),
            decreases removed@.len() - k,
        {
            bodies_map.remove(removed[k]);
            proof {
                assert(removed@.take(k as int + 1).to_set() =~= removed@.take(
                    k as int,
                ).to_set().insert(removed@[k as int]));
                assert(bodies_map@ =~= m0@.remove_keys(removed@.take(k as int + 1).to_set()));
            }
            k = k + 1;
        }
        world.replace_tracked(current);
        proof {
            assert(removed@.take(removed@.len() as int) =~= removed@);
            assert(bodies_map@ == m0@.remove_keys(removed@.to_set()));
            let live1 = world.tracked_set();
            // what stays in the world is exactly what the rows still own
            assert forall|h: u32| #[trigger] physic_world.handles().contains(h) <==> handle_live(
                rows,
                h,
            ) by {
                lemma_handle_seq_contains(rows, h);
                if handle_live(rows, h) {
                    let i = choose|i: int| 0 <= i < rows.len() && row_owns(#[trigger] rows[i], h);
                }
            }
            assert(world.tracked_set() =~= physic_world.handles()) by {
                assert forall|h: u32| #[trigger] world.tracked_set().contains(h) <==> handle_live(
                    rows,
                    h,
                ) by {
                    lemma_handle_seq_contains(rows, h);
                }
            }
            assert(bodies_map@.dom() =~= physic_world.handles());
            // every owned handle still resolves to its owner
            assert forall|i: int|
                0 <= i < rows.len() && (#[trigger] rows[i]).body is Some implies physic_world.handles().contains(
                    rows[i].body->0@,
                ) && bodies_map@[rows[i].body->0@] == rows[i].id by {
                assert(handle_live(rows, rows[i].body->0@));
                assert(!removed@.contains(rows[i].body->0@));
                assert(m0@[rows[i].body->0@] == rows[i].id);
            }
            // cardinalities: exactly the reclaimed handles left each store
            removed@.unique_seq_to_set();
            old(physic_world).live_seq().unique_seq_to_set();
            physic_world.live_seq().unique_seq_to_set();
            assert(removed@.to_set().subset_of(p0.handles()));
            lemma_len_difference_subset(p0.handles(), removed@.to_set());
            assert(m0@.dom() == p0.handles());
            assert(bodies_map@.dom() =~= m0@.dom().difference(removed@.to_set()));
        }
        removed
    }
}

/// The first half of a frame, before the engine step, in mandatory
/// order: the control stage settles every controllable velocity, then
/// the move stage collects the velocity orders, then the step order is
/// issued. The host applies the orders to the engine and steps it.
pub fn frame_begin(
    world: &mut EcsWorld,
    input: &InputControls,
    update_time: &UpdateTime,
) -> (r: (Vec<BodyVelocity>, StepCommand))
    requires
        old(world).wf(),
    ensures
        final(world).wf(),
        final(world).rows_seq().len() == old(world).rows_seq().len(),
        forall|i: int|
            0 <= i < old(world).rows_seq().len() && old(world).controlable_set().contains(
                (#[trigger] old(world).rows_seq()[i]).id,
            ) ==> final(world).rows_seq()[i] == (EntityRow {
                velocity: Some((Velocity { x: ctrl_vx(*input), y: ctrl_vy(*input) })),
                ..old(world).rows_seq()[i]
            }),
        forall|i: int|
            0 <= i < old(world).rows_seq().len() && !old(world).controlable_set().contains(
                (#[trigger] old(world).rows_seq()[i]).id,
            ) ==> final(world).rows_seq()[i] == old(world).rows_seq()[i],
        r.0@ == move_commands(final(world).rows_seq()),
        r.1.micros == update_time.micros,
        final(world).controlable_set() == old(world).controlable_set(),
        final(world).tracked_seq() == old(world).tracked_seq(),
        final(world).next_id() == old(world).next_id(),
{
    ControlableSystem::run(input, world);
    let cmds = MoveSystem::run(world);
    let step = PhysicSystem::run(update_time);
    (cmds, step)
}

/// The second half of a frame, after the engine step, in mandatory
/// order: the reported contact events are drained into the contact
/// lists, the stepped poses are synced into the transforms, and the
/// reclamation pass reconciles the physics world and the index with the
/// table. Afterwards the handle-entity bijection holds, and a symmetric
/// contact relation is still symmetric. The host removes the returned
/// handles from the engine in the same batch.
pub fn frame_end(
    world: &mut EcsWorld,
    physic_world: &mut PhysicWorld,
    bodies_map: &mut BodiesMap,
    events: &Vec<ContactEvent>,
    poses: &Vec<Pose>,
) -> (removed: Vec<u32>)
    requires
        linked(*old(world), *old(physic_world), *old(bodies_map)),
    ensures
        linked(*final(world), *final(physic_world), *final(bodies_map)),
        bijective(*final(world), *final(physic_world), *final(bodies_map)),
        contacts_symmetric(old(world).rows_seq()) ==> contacts_symmetric(final(world).rows_seq()),
        final(world).rows_seq().len() == old(world).rows_seq().len(),
        forall|i: int|
            0 <= i < old(world).rows_seq().len() ==> final(world).rows_seq()[i] == (EntityRow {
                contacts: final(world).rows_seq()[i].contacts,
                transform: final(world).rows_seq()[i].transform,
                ..old(world).rows_seq()[i]
            }),
        forall|i: int|
            0 <= i < old(world).rows_seq().len() ==> ((#[trigger] final(world).rows_seq()[i]).contacts
                is Some <==> old(world).rows_seq()[i].contacts is Some),
        forall|i: int|
            0 <= i < old(world).rows_seq().len() && (#[trigger] old(world).rows_seq()[i]).contacts
                is Some ==> final(world).rows_seq()[i].contacts->0.touching@ == list_after_events(
                old(world).rows_seq(),
                old(bodies_map)@,
                events@,
                old(world).rows_seq()[i].id,
                old(world).rows_seq()[i].contacts->0.touching@,
            ),
        forall|i: int|
            0 <= i < old(world).rows_seq().len() ==> final(world).rows_seq()[i].transform
                == synced_row(#[trigger] old(world).rows_seq()[i], poses@).transform,
        removed@.no_duplicates(),
        forall|h: u32|
            #[trigger] removed@.contains(h) <==> old(world).tracked_set().contains(h)
                && !handle_live(old(world).rows_seq(), h),
        final(physic_world).handles() == old(physic_world).handles().difference(
            removed@.to_set(),
        ),
        final(physic_world).live_seq().len() == old(physic_world).live_seq().len()
            - removed@.len(),
        final(bodies_map)@ == old(bodies_map)@.remove_keys(removed@.to_set()),
        final(bodies_map)@.dom().len() == old(bodies_map)@.dom().len() - removed@.len(),
        final(world).controlable_set() == old(world).controlable_set(),
        final(world).next_id() == old(world).next_id(),
{
    let ghost rows0 = old(world).rows_seq();
    PhysicSystem::apply_contact_events(world, bodies_map, events);
    let ghost rows1 = world.rows_seq();
    SyncSystem::run(world, poses);
    proof {
        let rows2 = world.rows_seq();
        assert forall|i: int| 0 <= i < rows0.len() implies rows2[i].transform == synced_row(
            #[trigger] rows0[i],
            poses@,
        ).transform by {
            assert(rows1[i].body == rows0[i].body && rows1[i].transform == rows0[i].transform);
            assert(rows2[i] == synced_row(rows1[i], poses@));
        }
        assert forall|i: int| 0 <= i < rows0.len() implies (#[trigger] rows2[i]).body
            == rows0[i].body && rows2[i].id == rows0[i].id by {
        }
        // the two mutating stages touch neither bodies nor the stores,
        // so the cross-store invariant still holds going into the pass
        assert forall|i: int|
            0 <= i < rows2.len() && (#[trigger] rows2[i]).body is Some implies physic_world.handles().contains(
                rows2[i].body->0@,
            ) && bodies_map@[rows2[i].body->0@] == rows2[i].id by {
            assert(rows2[i].body == rows0[i].body && rows2[i].id == rows0[i].id);
        }
        lemma_handle_seq_same_bodies(rows0, rows2);
        assert forall|h: u32| handle_live(rows2, h) implies handle_live(rows0, h) by {
            let i = choose|i: int| 0 <= i < rows2.len() && row_owns(#[trigger] rows2[i], h);
            assert(row_owns(rows0[i], h));
        }
        assert forall|h: u32| handle_live(rows0, h) implies handle_live(rows2, h) by {
            let i = choose|i: int| 0 <= i < rows0.len() && row_owns(#[trigger] rows0[i], h);
            assert(row_owns(rows2[i], h));
        }
    }
    let removed = ReclamationPass::run(world, physic_world, bodies_map);
    removed
}

/// The four corners of a box shape at a position, counterclockwise from
/// the lower-left corner: the bounds outline the renderer draws.
pub fn cuboid_outline(t: &Transform, s: &ShapeCuboid) -> (r: Vec<(i64, i64)>)
    requires
        -POSITION_LIMIT <= t.x <= POSITION_LIMIT,
        -POSITION_LIMIT <= t.y <= POSITION_LIMIT,
        !s.degenerate(),
    ensures
        r@.len() == 4,
        r@[0].0 == t.x - s.half_x && r@[0].1 == t.y - s.half_y,
        r@[1].0 == t.x + s.half_x && r@[1].1 == t.y - s.half_y,
        r@[2].0 == t.x + s.half_x && r@[2].1 == t.y + s.half_y,
        r@[3].0 == t.x - s.half_x && r@[3].1 == t.y + s.half_y,
{
    let x1 = t.x - s.half_x;
    let x2 = t.x + s.half_x;
    let y1 = t.y - s.half_y;
    let y2 = t.y + s.half_y;
    let mut r: Vec<(i64, i64)> = Vec::new();
    r.push((x1, y1));
    r.push((x2, y1));
    r.push((x2, y2));
    r.push((x1, y2));
    r
}

/// The three corners of a triangle shape translated to a position: the
/// bounds outline the renderer draws.
pub fn triangle_outline(t: &Transform, s: &ShapeTriangle) -> (r: Vec<(i64, i64)>)
    requires
        -POSITION_LIMIT <= t.x <= POSITION_LIMIT,
        -POSITION_LIMIT <= t.y <= POSITION_LIMIT,
        !s.degenerate(),
    ensures
        r@.len() == 3,
        r@[0].0 == t.x + s.ax && r@[0].1 == t.y + s.ay,
        r@[1].0 == t.x + s.bx && r@[1].1 == t.y + s.by,
        r@[2].0 == t.x + s.cx && r@[2].1 == t.y + s.cy,
{
    let mut r: Vec<(i64, i64)> = Vec::new();
    r.push((t.x + s.ax, t.y + s.ay));
    r.push((t.x + s.bx, t.y + s.by));
    r.push((t.x + s.cx, t.y + s.cy));
    r
}

} // verus!
