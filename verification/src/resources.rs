//! Singleton resources shared by the per-frame systems: the frame clock,
//! latched directional input, the handle arena standing for the external
//! physics world, and the handle-to-entity index.

use std::collections::HashMap;
use vstd::prelude::*;

use crate::util::{keep_out, lemma_keep_out_contains, lemma_keep_out_distinct, vec_keep_out};

verus! {

broadcast use vstd::std_specs::hash::group_hash_axioms, vstd::seq_lib::group_seq_properties;

/// Elapsed time of the current tick, in microseconds.
#[derive(Clone, Copy, Debug)]
pub struct UpdateTime {
    pub micros: u64,
}

impl Default for UpdateTime {
    fn default() -> (r: UpdateTime)
        ensures
            r.micros == 0,
    {
        UpdateTime { micros: 0 }
    }
}

/// A directional control key.
#[derive(Clone, Copy, Debug, PartialEq, Eq, Structural)]
pub enum ControlKey {
    Up,
    Down,
    Left,
    Right,
}

/// Latched directional flags from the input collaborator. Only edge
/// transitions update the flags; repeat events are ignored.
#[derive(Clone, Copy, Debug)]
pub struct InputControls {
    pub up: bool,
    pub down: bool,
    pub left: bool,
    pub right: bool,
}

impl InputControls {
    /// A fresh input state with every direction released.
    pub fn new() -> (r: InputControls)
        ensures
            !r.up,
            !r.down,
            !r.left,
            !r.right,
    {
        InputControls { up: false, down: false, left: false, right: false }
    }

    /// Latches the pressed key; a repeat event leaves the state unchanged.
    pub fn key_down(&mut self, key: ControlKey, repeat: bool)
        ensures
            final(self).up == (if !repeat && key == ControlKey::Up { true } else { old(self).up }),
            final(self).down == (if !repeat && key == ControlKey::Down {
                true
            } else {
                old(self).down
            }),
            final(self).left == (if !repeat && key == ControlKey::Left {
                true
            } else {
                old(self).left
            }),
            final(self).right == (if !repeat && key == ControlKey::Right {
                true
            } else {
                old(self).right
            }),
    {
        if !repeat {
            match key {
                ControlKey::Up => self.up = true,
                ControlKey::Down => self.down = true,
                ControlKey::Left => self.left = true,
                ControlKey::Right => self.right = true,
            }
        }
    }

    /// Clears the released key; a repeat event leaves the state unchanged.
    pub fn key_up(&mut self, key: ControlKey, repeat: bool)
        ensures
            final(self).up == (if !repeat && key == ControlKey::Up { false } else { old(self).up }),
            final(self).down == (if !repeat && key == ControlKey::Down {
                false
            } else {
                old(self).down
            }),
            final(self).left == (if !repeat && key == ControlKey::Left {
                false
            } else {
                old(self).left
            }),
            final(self).right == (if !repeat && key == ControlKey::Right {
                false
            } else {
                old(self).right
            }),
    {
        if !repeat {
            match key {
                ControlKey::Up => self.up = false,
                ControlKey::Down => self.down = false,
                ControlKey::Left => self.left = false,
                ControlKey::Right => self.right = false,
            }
        }
    }
}

impl Default for InputControls {
    fn default() -> (r: InputControls)
        ensures
            !r.up,
            !r.down,
            !r.left,
            !r.right,
    {
        InputControls { up: false, down: false, left: false, right: false }
    }
}

/// The bidirectional lookup from physics-body handle to owning entity.
pub struct BodiesMap {
    map: HashMap<u32, u32>,
}

impl BodiesMap {
    /// The handle-to-entity mapping this index holds.
    pub closed spec fn view(&self) -> Map<u32, u32> {
        self.map@
    }

    /// An empty index.
    pub fn new() -> (r: BodiesMap)
        ensures
            r@ == Map::<u32, u32>::empty(),
    {
        BodiesMap { map: HashMap::new() }
    }

    /// Records that `handle` is owned by `entity`.
    pub fn insert(&mut self, handle: u32, entity: u32)
        ensures
            final(self)@ == old(self)@.insert(handle, entity),
    {
        self.map.insert(handle, entity);
    }

    /// Forgets `handle`; reports whether it was known.
    pub fn remove(&mut self, handle: u32) -> (r: bool)
        ensures
            final(self)@ == old(self)@.remove(handle),
            r == old(self)@.contains_key(handle),
    {
        match self.map.remove(&handle) {
            Some(_) => true,
            None => false,
        }
    }

    /// The entity owning `handle`, if the index knows it.
    pub fn lookup(&self, handle: u32) -> (r: Option<u32>)
        ensures
            match r {
                Some(e) => self@.contains_key(handle) && self@[handle] == e,
                None => !self@.contains_key(handle),
            },
    {
        match self.map.get(&handle) {
            Some(e) => Some(*e),
            None => None,
        }
    }

    /// How many handles the index knows.
    pub fn len(&self) -> (r: usize)
        ensures
            r == self@.dom().len(),
    {
        self.map.len()
    }
}

impl Default for BodiesMap {
    fn default() -> (r: BodiesMap)
        ensures
            r@ == Map::<u32, u32>::empty(),
    {
        BodiesMap::new()
    }
}

/// The core's model of the external rigid-body simulation: it owns handle
/// allocation and records which handles name a live body. The simulation
/// algorithm itself runs with the host; every create or remove decided
/// here is carried out there with the same handle.
pub struct PhysicWorld {
    live: Vec<u32>,
    next_handle: u32,
}

impl PhysicWorld {
    /// The live handles, in creation order.
    pub closed spec fn live_seq(&self) -> Seq<u32> {
        self.live@
    }

    /// The set of handles that currently name a body.
    pub open spec fn handles(&self) -> Set<u32> {
        self.live_seq().to_set()
    }

    /// All handles handed out so far lie below this bound.
    pub closed spec fn handle_bound(&self) -> u32 {
        self.next_handle
    }

    /// No handle is live twice, and every live handle was handed out.
    pub open spec fn wf(&self) -> bool {
        &&& self.live_seq().no_duplicates()
        &&& forall|i: int|
            0 <= i < self.live_seq().len() ==> self.live_seq()[i] < self.handle_bound()
    }

    /// An empty world with no handle handed out.
    pub fn new() -> (r: PhysicWorld)
        ensures
            r.wf(),
            r.live_seq() == Seq::<u32>::empty(),
            r.handle_bound() == 0,
    {
        PhysicWorld { live: Vec::new(), next_handle: 0 }
    }

    /// Creates a body: allocates a fresh handle and marks it live.
    pub fn add_rigid_body(&mut self) -> (h: u32)
        requires
            old(self).wf(),
            old(self).handle_bound() < u32::MAX,
        ensures
            final(self).wf(),
            h == old(self).handle_bound(),
            !old(self).handles().contains(h),
            final(self).live_seq() == old(self).live_seq().push(h),
            final(self).handles() == old(self).handles().insert(h),
            final(self).handle_bound() == h + 1,
    {
        let h = self.next_handle;
        self.next_handle = self.next_handle + 1;
        self.live.push(h);
        proof {
            let s = old(self).live_seq();
            assert(!s.contains(h)) by {
                if s.contains(h) {
                    let i = choose|i: int| 0 <= i < s.len() && s[i] == h;
                }
            }
            assert forall|i: int, j: int| 0 <= i < j < s.push(h).len() implies s.push(h)[i] != s
                .push(h)[j] by {
                if j < s.len() {
                    assert(s[i] != s[j]);
                } else {
                    assert(s.contains(s[i]));
                }
            }
            assert(self.handles() =~= s.to_set().insert(h));
        }
        h
    }

    /// Removes every body named in `handles`; a handle with no live body
    /// is passed over without effect.
    pub fn remove_bodies(&mut self, handles: &Vec<u32>)
        requires
            old(self).wf(),
        ensures
            final(self).wf(),
            final(self).live_seq() == keep_out(old(self).live_seq(), handles@),
            final(self).handles() == old(self).handles().difference(handles@.to_set()),
            final(self).handle_bound() == old(self).handle_bound(),
    {
        let kept = vec_keep_out(&self.live, handles);
        self.live = kept;
        proof {
            lemma_keep_out_distinct(old(self).live_seq(), handles@);
            assert forall|x: u32| #[trigger] self.handles().contains(x) <==> old(
                self,
            ).handles().contains(x) && !handles@.to_set().contains(x) by {
                lemma_keep_out_contains(old(self).live_seq(), handles@, x);
            }
            assert(self.handles() =~= old(self).handles().difference(handles@.to_set()));
            assert forall|i: int| 0 <= i < self.live_seq().len() implies self.live_seq()[i]
                < self.handle_bound() by {
                lemma_keep_out_contains(old(self).live_seq(), handles@, self.live_seq()[i]);
                assert(self.live_seq().contains(self.live_seq()[i]));
                let j = choose|j: int|
                    0 <= j < old(self).live_seq().len() && old(self).live_seq()[j]
                        == self.live_seq()[i];
            }
        }
    }

    /// The next handle that would be handed out.
    pub fn next_handle_value(&self) -> (r: u32)
        ensures
            r == self.handle_bound(),
    {
        self.next_handle
    }

    /// Whether `handle` names a live body.
    pub fn contains(&self, handle: u32) -> (r: bool)
        ensures
            r == self.handles().contains(handle),
    {
        crate::util::vec_contains(&self.live, handle)
    }

    /// How many bodies are live.
    pub fn len(&self) -> (r: usize)
        ensures
            r == self.live_seq().len(),
    {
        self.live.len()
    }
}

} // verus!
