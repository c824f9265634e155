use sim_core::components::{BodyStatus, ShapeCuboid, ShapeTriangle, Transform, Velocity};
use sim_core::entities::{
    create_controled, create_moving, create_static, create_static_tri, spawn_entity, EcsWorld,
    SpawnError,
};
use sim_core::resources::{BodiesMap, ControlKey, InputControls, PhysicWorld, UpdateTime};
use sim_core::systems::{
    cuboid_outline, frame_begin, frame_end, triangle_outline, ContactEvent, ControlableSystem,
    MoveSystem, PhysicSystem, Pose, ReclamationPass, SyncSystem, SPEED,
};

fn fresh_sim() -> (EcsWorld, PhysicWorld, BodiesMap) {
    (EcsWorld::new(), PhysicWorld::new(), BodiesMap::new())
}

#[test]
fn input_controls_start_released() {
    let input = InputControls::new();
    assert!(!input.up && !input.down && !input.left && !input.right);
    let d = InputControls::default();
    assert!(!d.up && !d.down && !d.left && !d.right);
}

#[test]
fn input_controls_edge_transitions() {
    let mut input = InputControls::new();
    input.key_down(ControlKey::Left, false);
    assert!(input.left && !input.right && !input.up && !input.down);
    input.key_down(ControlKey::Up, true);
    assert!(!input.up, "a repeat press must not latch");
    input.key_up(ControlKey::Left, true);
    assert!(input.left, "a repeat release must not clear");
    input.key_up(ControlKey::Left, false);
    assert!(!input.left);
}

#[test]
fn spawn_static_box() {
    let (mut world, mut phys, mut map) = fresh_sim();
    let (id, init) = create_static(&mut world, &mut phys, &mut map, 4000, 4000);
    assert_eq!(id, 0);
    assert_eq!(init.handle, 0);
    assert!(matches!(init.status, BodyStatus::Static));
    assert_eq!(init.x, 4000);
    assert_eq!(init.y, 4000);
    assert_eq!(world.len(), 1);
    let row = world.row_at(0);
    assert_eq!(row.id, 0);
    assert_eq!(row.velocity.as_ref().unwrap().x, 0);
    assert_eq!(row.velocity.as_ref().unwrap().y, 0);
    assert_eq!(row.transform.as_ref().unwrap().x, 4000);
    assert_eq!(row.transform.as_ref().unwrap().y, 4000);
    assert_eq!(row.shape_cuboid.as_ref().unwrap().half_x, 2500);
    assert_eq!(row.shape_cuboid.as_ref().unwrap().half_y, 2500);
    assert!(row.body.is_some());
    assert_eq!(row.body.as_ref().unwrap().handle(), 0);
    assert!(row.contacts.as_ref().unwrap().touching.is_empty());
    assert_eq!(map.lookup(0), Some(0));
    assert!(phys.contains(0));
    assert_eq!(phys.len(), 1);
}

#[test]
fn spawn_fixed_factories() {
    let (mut world, mut phys, mut map) = fresh_sim();
    let (tri_id, tri_init) = create_static_tri(&mut world, &mut phys, &mut map, 20000, 20000);
    let (mov_id, mov_init) = create_moving(&mut world, &mut phys, &mut map);
    let (ctl_id, ctl_init) = create_controled(&mut world, &mut phys, &mut map);
    assert_eq!((tri_id, mov_id, ctl_id), (0, 1, 2));
    assert_eq!((tri_init.handle, mov_init.handle, ctl_init.handle), (0, 1, 2));
    assert!(matches!(mov_init.status, BodyStatus::Dynamic));
    assert_eq!((mov_init.x, mov_init.y), (1000, 8000));
    assert_eq!((ctl_init.x, ctl_init.y), (2000, 40000));
    let tri_row = world.row_at(0);
    let tri = tri_row.shape_triangle.as_ref().unwrap();
    assert_eq!((tri.ax, tri.ay, tri.bx, tri.by, tri.cx, tri.cy), (-2000, -2000, 2000, 2000, -2000, 2000));
    let mov_row = world.row_at(1);
    assert_eq!(mov_row.velocity.as_ref().unwrap().x, 10000);
    assert_eq!(mov_row.velocity.as_ref().unwrap().y, 10000);
    assert!(world.is_controlable(ctl_id));
    assert!(!world.is_controlable(mov_id));
    assert_eq!(phys.len(), 3);
    assert_eq!(map.len(), 3);
}

#[test]
fn spawn_rejects_controlable_without_velocity() {
    let (mut world, mut phys, mut map) = fresh_sim();
    let r = spawn_entity(
        &mut world,
        &mut phys,
        &mut map,
        None,
        true,
        true,
        Some(ShapeCuboid { half_x: 1000, half_y: 1000 }),
        None,
        BodyStatus::Dynamic,
        0,
        0,
    );
    assert_eq!(r, Err(SpawnError::ControlableWithoutVelocity));
    assert_eq!(world.len(), 0);
    assert_eq!(phys.len(), 0);
    assert_eq!(map.len(), 0);
}

#[test]
fn spawn_rejects_degenerate_shapes() {
    let (mut world, mut phys, mut map) = fresh_sim();
    let r = spawn_entity(
        &mut world,
        &mut phys,
        &mut map,
        Some(Velocity { x: 0, y: 0 }),
        true,
        false,
        Some(ShapeCuboid { half_x: 0, half_y: 1000 }),
        None,
        BodyStatus::Static,
        0,
        0,
    );
    assert_eq!(r, Err(SpawnError::DegenerateShape));
    let flat = ShapeTriangle { ax: 0, ay: 0, bx: 1000, by: 1000, cx: 2000, cy: 2000 };
    let r2 = spawn_entity(
        &mut world,
        &mut phys,
        &mut map,
        Some(Velocity { x: 0, y: 0 }),
        true,
        false,
        None,
        Some(flat),
        BodyStatus::Static,
        0,
        0,
    );
    assert_eq!(r2, Err(SpawnError::DegenerateShape), "collinear vertices enclose no area");
    assert_eq!(world.len(), 0);
}

#[test]
fn control_sets_left_velocity_for_every_controllable() {
    let (mut world, mut phys, mut map) = fresh_sim();
    let (_, _) = create_moving(&mut world, &mut phys, &mut map);
    let (c1, _) = create_controled(&mut world, &mut phys, &mut map);
    let (c2, _) = create_controled(&mut world, &mut phys, &mut map);
    let mut input = InputControls::new();
    input.key_down(ControlKey::Left, false);
    ControlableSystem::run(&input, &mut world);
    for i in 0..world.len() {
        let row = world.row_at(i);
        let v = row.velocity.as_ref().unwrap();
        if row.id == c1 || row.id == c2 {
            assert_eq!(v.x, -SPEED);
            assert_eq!(v.y, 0, "an unset axis is zeroed");
        } else {
            assert_eq!((v.x, v.y), (10000, 10000), "uncontrolled entities keep their velocity");
        }
    }
}

#[test]
fn control_zeroes_with_no_input() {
    let (mut world, mut phys, mut map) = fresh_sim();
    let (cid, _) = create_controled(&mut world, &mut phys, &mut map);
    let idx = world.find_row(cid).unwrap();
    world.set_velocity_at(idx, Velocity { x: 123, y: -456 });
    let input = InputControls::new();
    ControlableSystem::run(&input, &mut world);
    let v = world.row_at(idx).velocity.as_ref().unwrap();
    assert_eq!((v.x, v.y), (0, 0));
}

#[test]
fn move_commands_carry_diagonal_flag() {
    let (mut world, mut phys, mut map) = fresh_sim();
    let (_, _) = create_moving(&mut world, &mut phys, &mut map);
    let (cid, _) = create_controled(&mut world, &mut phys, &mut map);
    let idx = world.find_row(cid).unwrap();
    world.set_velocity_at(idx, Velocity { x: SPEED, y: 0 });
    let cmds = MoveSystem::run(&world);
    assert_eq!(cmds.len(), 2);
    assert_eq!(cmds[0].handle, 0);
    assert_eq!((cmds[0].x, cmds[0].y), (10000, 10000));
    assert!(cmds[0].diagonal, "both axes driven");
    assert_eq!((cmds[1].x, cmds[1].y), (SPEED, 0));
    assert!(!cmds[1].diagonal, "one axis driven");
}

#[test]
fn physic_step_carries_frame_clock() {
    let step = PhysicSystem::run(&UpdateTime { micros: 100_000 });
    assert_eq!(step.micros, 100_000);
}

#[test]
fn contacts_append_on_started_and_clear_on_stopped() {
    let (mut world, mut phys, mut map) = fresh_sim();
    let (a, ia) = create_static(&mut world, &mut phys, &mut map, 0, 0);
    let (b, ib) = create_static(&mut world, &mut phys, &mut map, 1000, 0);
    let started = vec![ContactEvent::Started(ia.handle, ib.handle)];
    PhysicSystem::apply_contact_events(&mut world, &map, &started);
    let la = &world.row_at(a as usize).contacts.as_ref().unwrap().touching;
    let lb = &world.row_at(b as usize).contacts.as_ref().unwrap().touching;
    assert_eq!(la.as_slice(), &[b]);
    assert_eq!(lb.as_slice(), &[a]);
    // a persistent contact may be reported again: duplicates are kept
    PhysicSystem::apply_contact_events(&mut world, &map, &started);
    let la = &world.row_at(a as usize).contacts.as_ref().unwrap().touching;
    assert_eq!(la.as_slice(), &[b, b]);
    // the matching end event removes every occurrence on both sides
    let stopped = vec![ContactEvent::Stopped(ia.handle, ib.handle)];
    PhysicSystem::apply_contact_events(&mut world, &map, &stopped);
    assert!(world.row_at(a as usize).contacts.as_ref().unwrap().touching.is_empty());
    assert!(world.row_at(b as usize).contacts.as_ref().unwrap().touching.is_empty());
}

#[test]
fn contact_symmetry_at_frame_boundary() {
    let (mut world, mut phys, mut map) = fresh_sim();
    let (_, ia) = create_static(&mut world, &mut phys, &mut map, 0, 0);
    let (_, ib) = create_static(&mut world, &mut phys, &mut map, 1000, 0);
    let (_, ic) = create_moving(&mut world, &mut phys, &mut map);
    let events = vec![
        ContactEvent::Started(ia.handle, ib.handle),
        ContactEvent::Started(ib.handle, ic.handle),
        ContactEvent::Stopped(ia.handle, ib.handle),
    ];
    let poses: Vec<Pose> = Vec::new();
    frame_end(&mut world, &mut phys, &mut map, &events, &poses);
    for i in 0..world.len() {
        for j in 0..world.len() {
            let li = &world.row_at(i).contacts.as_ref().unwrap().touching;
            let lj = &world.row_at(j).contacts.as_ref().unwrap().touching;
            let i_id = world.row_at(i).id;
            let j_id = world.row_at(j).id;
            assert_eq!(li.contains(&j_id), lj.contains(&i_id), "A lists B exactly when B lists A");
        }
    }
}

#[test]
fn contact_event_without_lists_is_ignored() {
    let (mut world, mut phys, mut map) = fresh_sim();
    let r = spawn_entity(
        &mut world,
        &mut phys,
        &mut map,
        Some(Velocity { x: 0, y: 0 }),
        false,
        false,
        Some(ShapeCuboid { half_x: 1000, half_y: 1000 }),
        None,
        BodyStatus::Static,
        0,
        0,
    );
    let (_, init_a) = r.unwrap();
    let (b, init_b) = create_static(&mut world, &mut phys, &mut map, 1000, 0);
    let events = vec![ContactEvent::Started(init_a.handle, init_b.handle)];
    PhysicSystem::apply_contact_events(&mut world, &map, &events);
    assert!(
        world.row_at(b as usize).contacts.as_ref().unwrap().touching.is_empty(),
        "a begin event appends only when both sides carry contact lists"
    );
}

#[test]
fn reclamation_removes_exactly_the_deleted_bodies() {
    let (mut world, mut phys, mut map) = fresh_sim();
    let (a, _) = create_static(&mut world, &mut phys, &mut map, 0, 0);
    let (b, _) = create_static(&mut world, &mut phys, &mut map, 1000, 0);
    let (_, _) = create_static(&mut world, &mut phys, &mut map, 2000, 0);
    assert_eq!(phys.len(), 3);
    assert!(world.delete_entity(a));
    assert!(world.delete_entity(b));
    // the bodies linger until the end-of-frame pass runs
    assert_eq!(phys.len(), 3);
    assert_eq!(map.len(), 3);
    let removed = ReclamationPass::run(&mut world, &mut phys, &mut map);
    let mut removed_sorted = removed.clone();
    removed_sorted.sort();
    assert_eq!(removed_sorted, vec![0, 1], "exactly the two orphaned handles are reclaimed");
    assert_eq!(phys.len(), 1);
    assert_eq!(map.len(), 1);
    assert_eq!(map.lookup(0), None);
    assert_eq!(map.lookup(1), None);
    // a second pass finds nothing left to reclaim
    let removed_again = ReclamationPass::run(&mut world, &mut phys, &mut map);
    assert!(removed_again.is_empty());
    assert_eq!(phys.len(), 1);
}

#[test]
fn removing_the_component_alone_also_reclaims() {
    let (mut world, mut phys, mut map) = fresh_sim();
    let (a, init) = create_static(&mut world, &mut phys, &mut map, 0, 0);
    assert!(world.remove_body_component(a));
    assert_eq!(world.len(), 1, "the entity itself stays alive");
    let removed = ReclamationPass::run(&mut world, &mut phys, &mut map);
    assert_eq!(removed, vec![init.handle]);
    assert_eq!(phys.len(), 0);
    assert_eq!(map.len(), 0);
}

#[test]
fn stale_stopped_event_is_dropped() {
    let (mut world, mut phys, mut map) = fresh_sim();
    let (a, init_a) = create_static(&mut world, &mut phys, &mut map, 0, 0);
    let (b, init_b) = create_static(&mut world, &mut phys, &mut map, 1000, 0);
    let started = vec![ContactEvent::Started(init_a.handle, init_b.handle)];
    PhysicSystem::apply_contact_events(&mut world, &map, &started);
    assert!(world.delete_entity(a));
    ReclamationPass::run(&mut world, &mut phys, &mut map);
    let map_len_before = map.len();
    // a trailing event from the engine still names the reclaimed handle
    let stale = vec![ContactEvent::Stopped(init_a.handle, init_b.handle)];
    PhysicSystem::apply_contact_events(&mut world, &map, &stale);
    let bi = world.find_row(b).unwrap();
    let lb = &world.row_at(bi).contacts.as_ref().unwrap().touching;
    assert_eq!(lb.as_slice(), &[a], "a stale event mutates no contact list");
    assert_eq!(map.len(), map_len_before, "a stale event resurrects no index entry");
    assert_eq!(map.lookup(init_a.handle), None);
}

#[test]
fn bijection_after_frames_with_spawns_and_deletes() {
    let (mut world, mut phys, mut map) = fresh_sim();
    let (a, _) = create_static(&mut world, &mut phys, &mut map, 0, 0);
    let (_b, _) = create_moving(&mut world, &mut phys, &mut map);
    let no_events: Vec<ContactEvent> = Vec::new();
    let no_poses: Vec<Pose> = Vec::new();
    frame_end(&mut world, &mut phys, &mut map, &no_events, &no_poses);
    world.delete_entity(a);
    let (_c, _) = create_controled(&mut world, &mut phys, &mut map);
    frame_end(&mut world, &mut phys, &mut map, &no_events, &no_poses);
    // every owned handle resolves back to its owner, and the counts agree
    let mut owned: usize = 0;
    for i in 0..world.len() {
        let row = world.row_at(i);
        if let Some(body) = &row.body {
            owned += 1;
            assert!(phys.contains(body.handle()));
            assert_eq!(map.lookup(body.handle()), Some(row.id));
        }
    }
    assert_eq!(phys.len(), owned);
    assert_eq!(map.len(), owned);
}

#[test]
fn sync_overwrites_transform_from_pose() {
    let (mut world, mut phys, mut map) = fresh_sim();
    let (a, init_a) = create_static(&mut world, &mut phys, &mut map, 4000, 4000);
    let (b, _) = create_static(&mut world, &mut phys, &mut map, 1000, 8000);
    let poses = vec![Pose { handle: init_a.handle, x: 4321, y: 4000 }, Pose { handle: 99, x: 7, y: 7 }];
    SyncSystem::run(&mut world, &poses);
    let ta = world.row_at(a as usize).transform.as_ref().unwrap();
    assert_eq!((ta.x, ta.y), (4321, 4000));
    let tb = world.row_at(b as usize).transform.as_ref().unwrap();
    assert_eq!((tb.x, tb.y), (1000, 8000), "no reported pose leaves the transform alone");
}

#[test]
fn frame_begin_orders_follow_input() {
    let (mut world, mut phys, mut map) = fresh_sim();
    let (_, _) = create_controled(&mut world, &mut phys, &mut map);
    let mut input = InputControls::new();
    input.key_down(ControlKey::Down, false);
    input.key_down(ControlKey::Right, false);
    let (cmds, step) = frame_begin(&mut world, &input, &UpdateTime { micros: 16_666 });
    assert_eq!(step.micros, 16_666);
    assert_eq!(cmds.len(), 1);
    assert_eq!((cmds[0].x, cmds[0].y), (SPEED, SPEED));
    assert!(cmds[0].diagonal);
}

#[test]
fn outlines_translate_shapes() {
    let t = Transform { x: 4000, y: 4000 };
    let s = ShapeCuboid { half_x: 2500, half_y: 2500 };
    let pts = cuboid_outline(&t, &s);
    assert_eq!(pts, vec![(1500, 1500), (6500, 1500), (6500, 6500), (1500, 6500)]);
    let tri = ShapeTriangle { ax: -2000, ay: -2000, bx: 2000, by: 2000, cx: -2000, cy: 2000 };
    let tp = triangle_outline(&Transform { x: 20000, y: 20000 }, &tri);
    assert_eq!(tp, vec![(18000, 18000), (22000, 22000), (18000, 22000)]);
}

#[test]
fn shape_degeneracy_checks() {
    assert!(ShapeCuboid { half_x: 0, half_y: 10 }.is_degenerate());
    assert!(ShapeCuboid { half_x: 10, half_y: -1 }.is_degenerate());
    assert!(!ShapeCuboid { half_x: 2500, half_y: 1250 }.is_degenerate());
    let flat = ShapeTriangle { ax: 0, ay: 0, bx: 5, by: 5, cx: 10, cy: 10 };
    assert!(flat.is_degenerate());
    let fine = ShapeTriangle { ax: 0, ay: 0, bx: 10, by: 0, cx: 0, cy: 10 };
    assert!(!fine.is_degenerate());
}

#[test]
fn resource_defaults_are_empty() {
    let t = UpdateTime::default();
    assert_eq!(t.micros, 0);
    let m = BodiesMap::default();
    assert_eq!(m.len(), 0);
    assert_eq!(m.lookup(0), None);
}

#[test]
fn bodies_map_tracks_insert_and_remove() {
    let mut m = BodiesMap::new();
    m.insert(7, 42);
    m.insert(9, 43);
    assert_eq!(m.lookup(7), Some(42));
    assert_eq!(m.len(), 2);
    assert!(m.remove(7));
    assert!(!m.remove(7), "a handle leaves the index only once");
    assert_eq!(m.lookup(7), None);
    assert_eq!(m.len(), 1);
}

#[test]
fn deleting_a_controllable_clears_its_tag() {
    let (mut world, mut phys, mut map) = fresh_sim();
    let (cid, _) = create_controled(&mut world, &mut phys, &mut map);
    assert!(world.is_controlable(cid));
    assert!(world.delete_entity(cid));
    assert!(!world.is_controlable(cid));
}

#[test]
fn spawn_rejects_exhausted_id_space() {
    let mut world = EcsWorld::new();
    let limit: u32 = 0x0100_0000;
    for _ in 0..limit {
        let id = world.create_entity(None, None, false, false, None, None).unwrap();
        world.delete_entity(id);
    }
    let r = world.create_entity(None, None, false, false, None, None);
    assert_eq!(r, Err(SpawnError::CapacityExhausted));
}
