//! Leaf component data attached to entities: planar velocity, a cached
//! transform, geometric shape descriptors, the controllable tag, the
//! owned physics-body handle, and the per-entity contact list.
//!
//! Linear quantities are fixed-point milliunits: one unit of world space
//! is 1000, so a half extent of 2.5 units is 2500.

use vstd::prelude::*;

verus! {

/// Planar velocity, in milliunits per second.
#[derive(Clone, Copy, Debug, PartialEq, Eq, Structural)]
pub struct Velocity {
    pub x: i64,
    pub y: i64,
}

/// Cached planar position, in milliunits; the sync stage overwrites it
/// from the physics world each frame.
#[derive(Clone, Copy, Debug, PartialEq, Eq, Structural)]
pub struct Transform {
    pub x: i64,
    pub y: i64,
}

/// Tag marking an entity as input-driven. Membership is kept as an
/// entity-id set on the entity table rather than as per-entity data.
#[derive(Clone, Copy, Debug, Default)]
pub struct Controlable;

/// An axis-aligned box shape: half extents in milliunits.
#[derive(Clone, Copy, Debug, PartialEq, Eq, Structural)]
pub struct ShapeCuboid {
    pub half_x: i64,
    pub half_y: i64,
}

/// Largest coordinate a shape may use, in milliunits; anything larger is
/// treated as degenerate geometry.
pub const SHAPE_COORD_LIMIT: i64 = 1_000_000_000;

impl ShapeCuboid {
    /// A box must have positive, bounded extent on both axes.
    pub open spec fn degenerate(self) -> bool {
        ||| self.half_x <= 0
        ||| self.half_y <= 0
        ||| self.half_x > SHAPE_COORD_LIMIT
        ||| self.half_y > SHAPE_COORD_LIMIT
    }

    /// Whether the box has no positive bounded extent on some axis.
    pub fn is_degenerate(&self) -> (r: bool)
        ensures
            r == self.degenerate(),
    {
        self.half_x <= 0 || self.half_y <= 0 || self.half_x > SHAPE_COORD_LIMIT || self.half_y
            > SHAPE_COORD_LIMIT
    }
}

/// A triangle shape: three vertices in milliunits, relative to the body
/// position.
#[derive(Clone, Copy, Debug, PartialEq, Eq, Structural)]
pub struct ShapeTriangle {
    pub ax: i64,
    pub ay: i64,
    pub bx: i64,
    pub by: i64,
    pub cx: i64,
    pub cy: i64,
}

impl ShapeTriangle {
    /// Twice the signed area the three vertices span.
    pub open spec fn spec_cross(self) -> int {
        (self.bx - self.ax) * (self.cy - self.ay) - (self.by - self.ay) * (self.cx - self.ax)
    }

    /// A triangle is degenerate when a coordinate is out of range or when
    /// the vertices are collinear and enclose no area.
    pub open spec fn degenerate(self) -> bool {
        ||| self.ax < -SHAPE_COORD_LIMIT || self.ax > SHAPE_COORD_LIMIT
        ||| self.ay < -SHAPE_COORD_LIMIT || self.ay > SHAPE_COORD_LIMIT
        ||| self.bx < -SHAPE_COORD_LIMIT || self.bx > SHAPE_COORD_LIMIT
        ||| self.by < -SHAPE_COORD_LIMIT || self.by > SHAPE_COORD_LIMIT
        ||| self.cx < -SHAPE_COORD_LIMIT || self.cx > SHAPE_COORD_LIMIT
        ||| self.cy < -SHAPE_COORD_LIMIT || self.cy > SHAPE_COORD_LIMIT
        ||| self.spec_cross() == 0
    }

    /// Whether the triangle is out of range or encloses no area.
    pub fn is_degenerate(&self) -> (r: bool)
        ensures
            r == self.degenerate(),
    {
        if self.ax < -SHAPE_COORD_LIMIT || self.ax > SHAPE_COORD_LIMIT || self.ay
            < -SHAPE_COORD_LIMIT || self.ay > SHAPE_COORD_LIMIT || self.bx < -SHAPE_COORD_LIMIT
            || self.bx > SHAPE_COORD_LIMIT || self.by < -SHAPE_COORD_LIMIT || self.by
            > SHAPE_COORD_LIMIT || self.cx < -SHAPE_COORD_LIMIT || self.cx > SHAPE_COORD_LIMIT
            || self.cy < -SHAPE_COORD_LIMIT || self.cy > SHAPE_COORD_LIMIT {
            return true;
        }
        let dx1: i64 = self.bx - self.ax;
        let dy1: i64 = self.by - self.ay;
        let dx2: i64 = self.cx - self.ax;
        let dy2: i64 = self.cy - self.ay;
        proof {
            assert(-4_000_000_000_000_000_000 <= dx1 * dy2 <= 4_000_000_000_000_000_000) by (nonlinear_arith)
                requires
                    -2_000_000_000 <= dx1 <= 2_000_000_000,
                    -2_000_000_000 <= dy2 <= 2_000_000_000,
            ;
            assert(-4_000_000_000_000_000_000 <= dy1 * dx2 <= 4_000_000_000_000_000_000) by (nonlinear_arith)
                requires
                    -2_000_000_000 <= dy1 <= 2_000_000_000,
                    -2_000_000_000 <= dx2 <= 2_000_000_000,
            ;
        }
        let cross: i64 = dx1 * dy2 - dy1 * dx2;
        cross == 0
    }
}

/// Whether a physics body moves: a static body never does, a dynamic one
/// is integrated by the engine.
#[derive(Clone, Copy, Debug, PartialEq, Eq, Structural)]
pub enum BodyStatus {
    Static,
    Dynamic,
}

/// Ownership of a physics-body handle. Its removal from the entity table
/// obliges the end-of-frame reclamation pass to remove the body and the
/// index entry.
#[derive(Clone, Copy, Debug)]
pub struct EcsRigidBody {
    handle: u32,
}

impl View for EcsRigidBody {
    type V = u32;

    /// The handle this component owns.
    closed spec fn view(&self) -> u32 {
        self.handle
    }
}

impl EcsRigidBody {
    /// Wraps a handle; only the table's own insertion paths hand the
    /// result to a row, so handle uniqueness is kept there.
    pub(crate) fn wrap(handle: u32) -> (r: EcsRigidBody)
        ensures
            r@ == handle,
    {
        EcsRigidBody { handle }
    }

    /// The owned handle.
    pub fn handle(&self) -> (r: u32)
        ensures
            r == self@,
    {
        self.handle
    }
}

/// The entities currently in contact with this entity, in the order the
/// engine reported them; duplicates are possible while a contact pair
/// keeps re-reporting.
#[derive(Debug)]
pub struct Contactor {
    pub touching: Vec<u32>,
}

impl Contactor {
    /// An empty contact list.
    pub fn new() -> (r: Contactor)
        ensures
            r.touching@ == Seq::<u32>::empty(),
    {
        Contactor { touching: Vec::new() }
    }
}

} // verus!
