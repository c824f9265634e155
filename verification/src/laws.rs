//! The core's global guarantees, stated and proved over the same spec
//! functions the systems' contracts use.
//!
//! The bijection between live body handles and owning entities holds at
//! every frame boundary by induction: a fresh simulation is bijective
//! (`lemma_initial_bijective`), every mid-frame operation preserves
//! `linked`, and the reclamation pass at the end of `frame_end` restores
//! `bijective` (its postcondition).

use vstd::prelude::*;

use crate::entities::{bijective, handle_live, has_entity, lemma_index_of, linked, row_of,
    row_owns, EcsWorld, EntityRow};
use crate::resources::{BodiesMap, InputControls, PhysicWorld};
use crate::systems::{ctrl_vx, ctrl_vy, list_after_event, ContactEvent, SPEED};
use crate::util::lemma_len_difference_subset;

verus! {

/// A freshly created table, world, and index are bijective: nothing is
/// live, nothing is indexed, nothing is recorded.
pub proof fn lemma_initial_bijective(w: EcsWorld, p: PhysicWorld, m: BodiesMap)
    requires
        w.wf(),
        p.wf(),
        w.rows_seq() == Seq::<EntityRow>::empty(),
        w.tracked_seq() == Seq::<u32>::empty(),
        p.live_seq() == Seq::<u32>::empty(),
        m@ == Map::<u32, u32>::empty(),
    ensures
        bijective(w, p, m),
{
    assert(m@.dom() =~= p.handles());
    assert(w.tracked_set() =~= p.handles());
}

/// The bijection read off at a frame boundary: every live handle
/// resolves through the index to an entity that owns a body with exactly
/// that handle, and every entity owning that handle is that one.
pub proof fn lemma_bijection_resolves(w: EcsWorld, p: PhysicWorld, m: BodiesMap, h: u32)
    requires
        bijective(w, p, m),
        p.handles().contains(h),
    ensures
        m@.contains_key(h),
        has_entity(w.rows_seq(), m@[h]),
        row_of(w.rows_seq(), m@[h]).body is Some,
        row_of(w.rows_seq(), m@[h]).body->0@ == h,
        forall|i: int|
            0 <= i < w.rows_seq().len() && row_owns(#[trigger] w.rows_seq()[i], h)
                ==> w.rows_seq()[i].id == m@[h],
{
    let rows = w.rows_seq();
    assert(handle_live(rows, h));
    let j = choose|j: int| 0 <= j < rows.len() && row_owns(#[trigger] rows[j], h);
    assert(m@[h] == rows[j].id);
    assert(has_entity(rows, rows[j].id));
    lemma_index_of(rows, rows[j].id);
    assert(row_of(rows, m@[h]) == rows[j]);
    assert forall|i: int|
        0 <= i < rows.len() && row_owns(#[trigger] rows[i], h) implies rows[i].id == m@[h] by {
        assert(m@[rows[i].body->0@] == rows[i].id);
    }
}

/// No leak: at a frame boundary the recorder matches the owned handles,
/// so when a frame then removes exactly the owners of the handle set
/// `gone`, the next reclamation pass reclaims exactly `gone`, and the
/// physics world and the index each end up exactly `gone.len()` entries
/// smaller.
pub proof fn lemma_no_leak(tracked0: Set<u32>, owned0: Set<u32>, gone: Set<u32>)
    requires
        tracked0 == owned0,
        owned0.finite(),
        gone.subset_of(owned0),
    ensures
        tracked0.difference(owned0.difference(gone)) == gone,
        owned0.difference(gone).len() == owned0.len() - gone.len(),
{
    assert(tracked0.difference(owned0.difference(gone)) =~= gone);
    assert(gone.finite()) by {
        vstd::set_lib::lemma_len_subset(gone, owned0);
    }
    lemma_len_difference_subset(owned0, gone);
}

/// Stale-event tolerance: an event naming a handle that no longer
/// resolves, in either position, changes no contact list. (The drain
/// also never writes the index: it takes it read-only.)
pub proof fn lemma_stale_event_dropped(
    rows: Seq<EntityRow>,
    m: Map<u32, u32>,
    h1: u32,
    h2: u32,
    e: u32,
    l: Seq<u32>,
)
    requires
        !m.contains_key(h1) || !m.contains_key(h2) || !has_entity(rows, m[h1]) || !has_entity(
            rows,
            m[h2],
        ),
    ensures
        list_after_event(rows, m, ContactEvent::Started(h1, h2), e, l) == l,
        list_after_event(rows, m, ContactEvent::Stopped(h1, h2), e, l) == l,
{
}

/// Control determinism: with only `left` latched, the control stage asks
/// for velocity (-SPEED, 0); by the control stage's contract this is
/// what every controllable entity receives, whatever the entity count or
/// order.
pub proof fn lemma_control_determinism(input: InputControls)
    requires
        input.left,
        !input.right,
        !input.up,
        !input.down,
    ensures
        ctrl_vx(input) == -SPEED,
        ctrl_vy(input) == 0,
{
}

} // verus!
