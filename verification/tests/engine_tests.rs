use nalgebra::Vector2;
use ncollide2d::pipeline::ContactEvent as EngineContactEvent;
use ncollide2d::shape::{Cuboid, ShapeHandle};
use nphysics2d::algebra::Velocity2;
use nphysics2d::force_generator::DefaultForceGeneratorSet;
use nphysics2d::joint::DefaultJointConstraintSet;
use nphysics2d::object::{
    BodyPartHandle, BodyStatus as EngineBodyStatus, ColliderDesc, DefaultBodyHandle,
    DefaultBodySet, DefaultColliderHandle, DefaultColliderSet, RigidBodyDesc,
};
use nphysics2d::world::{DefaultGeometricalWorld, DefaultMechanicalWorld};

use sim_core::components::BodyStatus;
use sim_core::entities::{create_controled, create_moving, create_static, BodyInit, EcsWorld};
use sim_core::resources::{BodiesMap, InputControls, PhysicWorld, UpdateTime};
use sim_core::systems::{frame_begin, frame_end, ContactEvent, Pose};

struct Engine {
    mech: DefaultMechanicalWorld<f32>,
    geom: DefaultGeometricalWorld<f32>,
    bodies: DefaultBodySet<f32>,
    colliders: DefaultColliderSet<f32>,
    joints: DefaultJointConstraintSet<f32>,
    forces: DefaultForceGeneratorSet<f32>,
    handles: Vec<(u32, DefaultBodyHandle)>,
}

impl Engine {
    fn new() -> Engine {
        Engine {
            mech: DefaultMechanicalWorld::new(Vector2::new(0.0, 0.0)),
            geom: DefaultGeometricalWorld::new(),
            bodies: DefaultBodySet::new(),
            colliders: DefaultColliderSet::new(),
            joints: DefaultJointConstraintSet::new(),
            forces: DefaultForceGeneratorSet::new(),
            handles: Vec::new(),
        }
    }

    fn body_of(&self, lib_handle: u32) -> Option<DefaultBodyHandle> {
        self.handles.iter().find(|(lh, _)| *lh == lib_handle).map(|(_, bh)| *bh)
    }

    fn lib_of_collider(&self, ch: DefaultColliderHandle) -> Option<u32> {
        let bh = self.colliders.get(ch)?.body();
        self.handles.iter().find(|(_, b)| *b == bh).map(|(lh, _)| *lh)
    }

    fn add_box(&mut self, init: &BodyInit, half_x: f32, half_y: f32) {
        let status = match init.status {
            BodyStatus::Static => EngineBodyStatus::Static,
            BodyStatus::Dynamic => EngineBodyStatus::Dynamic,
        };
        let rb = RigidBodyDesc::new()
            .translation(Vector2::new(init.x as f32 / 1000.0, init.y as f32 / 1000.0))
            .status(status)
            .sleep_threshold(None)
            .build();
        let bh = self.bodies.insert(rb);
        let shape = ShapeHandle::new(Cuboid::new(Vector2::new(half_x, half_y)));
        let co = ColliderDesc::new(shape).margin(0.01).density(1.0).build(BodyPartHandle(bh, 0));
        self.colliders.insert(co);
        self.handles.push((init.handle, bh));
    }
}

fn run_frame(
    world: &mut EcsWorld,
    phys: &mut PhysicWorld,
    map: &mut BodiesMap,
    engine: &mut Engine,
    input: &InputControls,
    micros: u64,
) {
    let (cmds, step) = frame_begin(world, input, &UpdateTime { micros });
    for c in &cmds {
        if let Some(bh) = engine.body_of(c.handle) {
            if let Some(rb) = engine.bodies.rigid_body_mut(bh) {
                let mut vx = c.x as f32 / 1000.0;
                let mut vy = c.y as f32 / 1000.0;
                if c.diagonal {
                    let inv = 1.0 / 2.0f32.sqrt();
                    vx *= inv;
                    vy *= inv;
                }
                rb.set_velocity(Velocity2::linear(vx, vy));
            }
        }
    }
    engine.mech.set_timestep(step.micros as f32 / 1_000_000.0);
    let (geom, bodies, colliders, joints, forces) = (
        &mut engine.geom,
        &mut engine.bodies,
        &mut engine.colliders,
        &mut engine.joints,
        &mut engine.forces,
    );
    engine.mech.step(geom, bodies, colliders, joints, forces);
    let mut events: Vec<ContactEvent> = Vec::new();
    for ev in engine.geom.contact_events().iter() {
        match ev {
            EngineContactEvent::Started(c1, c2) => {
                if let (Some(h1), Some(h2)) =
                    (engine.lib_of_collider(*c1), engine.lib_of_collider(*c2))
                {
                    events.push(ContactEvent::Started(h1, h2));
                }
            }
            EngineContactEvent::Stopped(c1, c2) => {
                if let (Some(h1), Some(h2)) =
                    (engine.lib_of_collider(*c1), engine.lib_of_collider(*c2))
                {
                    events.push(ContactEvent::Stopped(h1, h2));
                }
            }
        }
    }
    let mut poses: Vec<Pose> = Vec::new();
    for (lib_h, bh) in &engine.handles {
        if let Some(rb) = engine.bodies.rigid_body(*bh) {
            let v = rb.position().translation.vector;
            poses.push(Pose {
                handle: *lib_h,
                x: (v.x * 1000.0).round() as i64,
                y: (v.y * 1000.0).round() as i64,
            });
        }
    }
    let removed = frame_end(world, phys, map, &events, &poses);
    for h in &removed {
        if let Some(bh) = engine.body_of(*h) {
            engine.bodies.remove(bh);
        }
        engine.handles.retain(|(lh, _)| lh != h);
    }
}

#[test]
fn one_frame_end_to_end() {
    let mut world = EcsWorld::new();
    let mut phys = PhysicWorld::new();
    let mut map = BodiesMap::new();
    let mut engine = Engine::new();

    let (_sid, s_init) = create_static(&mut world, &mut phys, &mut map, 4000, 4000);
    engine.add_box(&s_init, 2.5, 2.5);
    let (mid, m_init) = create_moving(&mut world, &mut phys, &mut map);
    engine.add_box(&m_init, 2.5, 1.25);
    let (cid, c_init) = create_controled(&mut world, &mut phys, &mut map);
    engine.add_box(&c_init, 1.0, 1.0);

    let input = InputControls::new();
    run_frame(&mut world, &mut phys, &mut map, &mut engine, &input, 100_000);

    // the control stage zeroes the unset axes of the controllable box
    let ci = world.find_row(cid).unwrap();
    let cv = world.row_at(ci).velocity.as_ref().unwrap();
    assert_eq!((cv.x, cv.y), (0, 0));

    // the dynamic box's synced transform moved from (1, 8) by an amount
    // consistent with the engine integrating the diagonally scaled
    // velocity (10, 10) / sqrt(2) over 0.1 s: about 0.707 units per axis
    let mi = world.find_row(mid).unwrap();
    let mt = world.row_at(mi).transform.as_ref().unwrap();
    let dx = mt.x - 1000;
    let dy = mt.y - 8000;
    assert!((500..900).contains(&dx), "dx = {}", dx);
    assert!((500..900).contains(&dy), "dy = {}", dy);
}

#[test]
fn engine_and_core_stay_reconciled_over_frames() {
    let mut world = EcsWorld::new();
    let mut phys = PhysicWorld::new();
    let mut map = BodiesMap::new();
    let mut engine = Engine::new();

    let (sid, s_init) = create_static(&mut world, &mut phys, &mut map, 4000, 4000);
    engine.add_box(&s_init, 2.5, 2.5);
    let (_mid, m_init) = create_moving(&mut world, &mut phys, &mut map);
    engine.add_box(&m_init, 2.5, 1.25);

    let input = InputControls::new();
    run_frame(&mut world, &mut phys, &mut map, &mut engine, &input, 16_666);
    assert_eq!(phys.len(), 2);
    assert_eq!(engine.handles.len(), 2);

    // delete the static box; the body must be gone everywhere after the
    // frame's reclamation pass, and nothing else with it
    assert!(world.delete_entity(sid));
    run_frame(&mut world, &mut phys, &mut map, &mut engine, &input, 16_666);
    assert_eq!(phys.len(), 1);
    assert_eq!(map.len(), 1);
    assert_eq!(engine.handles.len(), 1);
    assert_eq!(map.lookup(s_init.handle), None);
    assert!(engine.body_of(s_init.handle).is_none());
}
