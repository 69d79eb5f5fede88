use steadyum::api_types::messages::{BodyAssignment, RunnerMessage};
use steadyum::api_types::objects::{ColdBodyObject, RigidBodyType, WarmBodyObject};
use steadyum::api_types::partitionner::{
    AckRequest, AssignRunnerRequest, ChildPartitionner, ClientInputRequest, CreateSceneRequest,
    InsertObjectsRequest, ListRegionsRequest, RegisterChildRequest, RemoveSceneRequest, SceneUuid,
    StartStopRequest, StepRequest,
};
use steadyum::api_types::simulation::SimulationBounds;
use steadyum::geometry::Aabb;
use steadyum::partitionner::acks::{AckOutcome, SceneAcks};
use steadyum::partitionner::geometry::{child_for_region, split_aabb, subdivide_domain};
use steadyum::partitionner::{runner_arguments, AppState, Command, PartitionnerType, StatusCode};
use steadyum::runner::cli::CliArgs;

fn cell(x: i64, y: i64, z: i64) -> SimulationBounds {
    SimulationBounds { mins: [x, y, z], maxs: [x + 100, y + 100, z + 100] }
}

fn scene_bounds() -> Aabb {
    Aabb { mins: [-400, 0, -100], maxs: [400, 100, 100] }
}

fn body(uuid: u128, body_type: RigidBodyType) -> BodyAssignment {
    BodyAssignment {
        uuid,
        warm: WarmBodyObject { timestamp: 0, position: [0; 7], linvel: [0; 3], angvel: [0; 3] },
        cold: ColdBodyObject { body_type, density: 0, shape: vec![uuid as u8], animations: vec![] },
    }
}

/// The upper corner, rounded down, of a ball of radius one around `(x, 10, 0)`.
fn corner_at(x: i64) -> [i64; 3] {
    [x + 1, 11, 1]
}

fn master_with_children(n: usize) -> AppState {
    let mut master = AppState::with_type(PartitionnerType::Master);
    for i in 0..n {
        master.register_child(RegisterChildRequest {
            child: ChildPartitionner { addr: format!("http://child{}", i), port: 3535 },
        });
    }
    master
}

fn master_with_scene(n: usize, scene: SceneUuid) -> AppState {
    let mut master = master_with_children(n);
    let (_, commands) = master.create_scene(CreateSceneRequest { scene, bounds: scene_bounds() });
    assert_eq!(commands.len(), n);
    for i in 0..n {
        master.runner_created(scene, 1000 + i as u128);
    }
    master
}

#[test]
fn a_box_is_cut_at_the_middle_of_its_widest_horizontal_axis() {
    let halves = split_aabb(Aabb { mins: [0, 0, 0], maxs: [10, 100, 4] });
    assert_eq!(halves[0], Aabb { mins: [0, 0, 0], maxs: [5, 100, 4] });
    assert_eq!(halves[1], Aabb { mins: [5, 0, 0], maxs: [10, 100, 4] });
    let deep = split_aabb(Aabb { mins: [0, 0, -4], maxs: [4, 100, 10] });
    assert_eq!(deep[0], Aabb { mins: [0, 0, -4], maxs: [4, 100, 3] });
    assert_eq!(deep[1], Aabb { mins: [0, 0, 3], maxs: [4, 100, 10] });
}

#[test]
fn a_box_as_wide_as_deep_is_cut_along_the_first_axis() {
    let halves = split_aabb(Aabb { mins: [0, 0, 0], maxs: [8, 1000, 8] });
    assert_eq!(halves[0].maxs, [4, 1000, 8]);
    assert_eq!(halves[1].mins, [4, 0, 0]);
}

#[test]
fn the_middle_is_rounded_down() {
    let halves = split_aabb(Aabb { mins: [-3, 0, 0], maxs: [0, 1, 1] });
    assert_eq!(halves[0].maxs[0], -2);
    assert_eq!(halves[1].mins[0], -2);
    let odd = split_aabb(Aabb { mins: [0, 0, 0], maxs: [3, 1, 1] });
    assert_eq!(odd[0].maxs[0], 1);
}

#[test]
fn a_domain_is_cut_into_as_many_boxes_as_asked_for() {
    let domain = scene_bounds();
    assert_eq!(subdivide_domain(domain, 0), vec![]);
    assert_eq!(subdivide_domain(domain, 1), vec![domain]);
    assert_eq!(
        subdivide_domain(domain, 2),
        vec![
            Aabb { mins: [-400, 0, -100], maxs: [0, 100, 100] },
            Aabb { mins: [0, 0, -100], maxs: [400, 100, 100] },
        ]
    );
    assert_eq!(
        subdivide_domain(domain, 3),
        vec![
            Aabb { mins: [0, 0, -100], maxs: [400, 100, 100] },
            Aabb { mins: [-400, 0, -100], maxs: [-200, 100, 100] },
            Aabb { mins: [-200, 0, -100], maxs: [0, 100, 100] },
        ]
    );
    for n in 0..20 {
        assert_eq!(subdivide_domain(domain, n).len(), n);
    }
}

#[test]
fn the_child_whose_box_holds_the_centre_gets_the_region() {
    let boxes = subdivide_domain(scene_bounds(), 2);
    assert_eq!(child_for_region(&boxes, &cell(-300, 0, 0)), Some(0));
    assert_eq!(child_for_region(&boxes, &cell(100, 0, 0)), Some(1));
    // The centre lies on the border of both boxes: the first gets it.
    assert_eq!(child_for_region(&boxes, &cell(-50, 0, -50)), Some(0));
}

#[test]
fn the_nearest_child_gets_a_region_outside_of_all_boxes() {
    let boxes = subdivide_domain(scene_bounds(), 2);
    assert_eq!(child_for_region(&boxes, &cell(900, 0, 0)), Some(1));
    assert_eq!(child_for_region(&boxes, &cell(-900, 500, 0)), Some(0));
    // As near to both: the first gets it.
    assert_eq!(child_for_region(&boxes, &cell(-50, 500, -50)), Some(0));
    assert_eq!(child_for_region(&vec![], &cell(0, 0, 0)), None);
}

#[test]
fn the_count_waits_for_every_acknowledgement() {
    let mut acks = SceneAcks { pending_acks: 3, step_id: 4, step_limit: 9, running: true };
    assert_eq!(acks.ack(true), AckOutcome::Wait);
    assert_eq!(acks.ack(true), AckOutcome::Wait);
    assert_eq!(acks.step_id, 4);
    assert_eq!(acks.pending_acks, 1);
    assert_eq!(acks.ack(true), AckOutcome::StartStep(5));
    assert_eq!(acks.step_id, 5);
    assert_eq!(acks.pending_acks, 0);
}

#[test]
fn the_scene_rests_when_the_limit_is_reached() {
    let mut acks = SceneAcks { pending_acks: 1, step_id: 9, step_limit: 9, running: true };
    assert_eq!(acks.ack(true), AckOutcome::Rest);
    assert_eq!(acks, SceneAcks { pending_acks: 0, step_id: 10, step_limit: 9, running: false });
}

#[test]
fn an_acknowledgement_that_is_not_due_changes_nothing() {
    let mut acks = SceneAcks { pending_acks: 0, step_id: 2, step_limit: 9, running: true };
    assert_eq!(acks.ack(true), AckOutcome::Wait);
    assert_eq!(acks, SceneAcks { pending_acks: 0, step_id: 2, step_limit: 9, running: true });
    assert_eq!(acks.ack(false), AckOutcome::Wait);
}

#[test]
fn a_child_tells_its_parent_when_its_step_is_complete() {
    let mut acks = SceneAcks { pending_acks: 2, step_id: 2, step_limit: 0, running: false };
    assert_eq!(acks.ack(false), AckOutcome::Wait);
    assert_eq!(acks.ack(false), AckOutcome::AckParent);
    assert_eq!(acks.step_id, 2);
}

#[test]
fn a_paused_scene_moves_to_the_next_number_and_starts_nothing() {
    let mut acks = SceneAcks { pending_acks: 1, step_id: 2, step_limit: 9, running: false };
    assert_eq!(acks.ack(true), AckOutcome::Rest);
    assert_eq!(acks.step_id, 3);
    assert_eq!(acks.start(2), Some(3));
    assert_eq!(acks, SceneAcks { pending_acks: 2, step_id: 3, step_limit: 9, running: true });
}

#[test]
fn the_limit_is_two_steps_beyond_what_the_client_has_seen() {
    let mut acks = SceneAcks::new();
    acks.raise_limit(0);
    assert_eq!(acks.step_limit, 2);
    acks.raise_limit(9);
    assert_eq!(acks.step_limit, 2);
    acks.raise_limit(10);
    assert_eq!(acks.step_limit, 3);
    acks.raise_limit(57);
    assert_eq!(acks.step_limit, 7);
    acks.raise_limit(0);
    assert_eq!(acks.step_limit, 7);
    acks.raise_limit(u64::MAX);
    assert_eq!(acks.step_limit, u64::MAX / 10 + 2);
}

#[test]
fn a_master_cuts_a_new_scene_among_its_children() {
    let scene = SceneUuid(7);
    let mut master = master_with_children(2);
    let (_, commands) = master.create_scene(CreateSceneRequest { scene, bounds: scene_bounds() });
    assert_eq!(commands.len(), 2);
    assert!(matches!(
        commands[0],
        Command::CreateSceneOnChild { child: 0, scene: s, bounds }
            if s == scene && bounds == Aabb { mins: [-400, 0, -100], maxs: [0, 100, 100] }
    ));
    assert!(matches!(
        commands[1],
        Command::CreateSceneOnChild { child: 1, scene: s, bounds }
            if s == scene && bounds == Aabb { mins: [0, 0, -100], maxs: [400, 100, 100] }
    ));
    assert_eq!(master.list_scenes().scenes, vec![scene]);
    assert_eq!(master.scenes[0].acks, SceneAcks { pending_acks: 0, step_id: 0, step_limit: 0, running: false });
    assert!(master.scenes[0].runners.is_empty());
    master.runner_created(scene, 11);
    master.runner_created(scene, 12);
    assert_eq!(master.scenes[0].runners.iter().map(|r| r.uuid).collect::<Vec<_>>(), vec![11, 12]);
}

#[test]
fn a_child_coordinator_starts_one_worker_for_a_new_scene() {
    let scene = SceneUuid(7);
    for (my_type, dev) in [(PartitionnerType::Runner, false), (PartitionnerType::Dev, true)] {
        let mut child = AppState::with_type(my_type);
        let (response, commands) =
            child.create_scene(CreateSceneRequest { scene, bounds: scene_bounds() });
        assert_eq!(commands.len(), 1);
        assert!(matches!(
            commands[0],
            Command::SpawnRunner { uuid, scene: s, dev: d }
                if uuid == response.runner && s == scene && d == dev
        ));
        assert_eq!(child.scenes[0].children_bounds, vec![scene_bounds()]);
        assert_eq!(child.scenes[0].runners.len(), 1);
        assert_eq!(child.scenes[0].runners[0].uuid, response.runner);
    }
}

#[test]
fn creating_a_scene_again_starts_it_afresh() {
    let scene = SceneUuid(7);
    let mut master = master_with_scene(2, scene);
    master.handle_client_inputs(ClientInputRequest { scene, step_id: 0, input: 0 });
    assert!(master.scenes[0].acks.running);
    master.create_scene(CreateSceneRequest { scene, bounds: scene_bounds() });
    assert_eq!(master.scenes.len(), 1);
    assert_eq!(master.scenes[0].acks, SceneAcks::new());
    assert!(master.scenes[0].runners.is_empty());
}

#[test]
fn create_scene_then_remove_scene_leaves_nothing_behind() {
    let scene = SceneUuid(7);
    let other = SceneUuid(8);
    let mut master = master_with_scene(2, other);
    master.create_scene(CreateSceneRequest { scene, bounds: scene_bounds() });
    master.runner_created(scene, 1);
    master.runner_created(scene, 2);
    let r = master.insert_objects(
        InsertObjectsRequest {
            scene,
            bodies: vec![body(1, RigidBodyType::Dynamic), body(2, RigidBodyType::Fixed)],
        },
        &vec![corner_at(49), corner_at(0)],
    );
    assert!(r.is_ok());
    assert_eq!(master.list_regions(&ListRegionsRequest { scene }).bounds.len(), 1);
    let commands = master.remove_scene(RemoveSceneRequest { scene });
    assert_eq!(master.list_scenes().scenes, vec![other]);
    assert!(master.list_regions(&ListRegionsRequest { scene }).bounds.is_empty());
    assert!(master.runners.assigned.iter().all(|a| a.scene != scene));
    assert!(master.scenes.iter().all(|s| s.scene != scene));
    assert_eq!(master.runners.exited, vec![scene]);
    // Both workers are told to stop, then both children are asked to remove the scene.
    assert_eq!(commands.len(), 4);
    assert!(matches!(commands[0], Command::SendRunner { uuid: 1, message: RunnerMessage::Exit }));
    assert!(matches!(commands[1], Command::SendRunner { uuid: 2, message: RunnerMessage::Exit }));
    assert!(matches!(commands[2], Command::RemoveSceneOnChild { child: 0, scene: s } if s == scene));
    assert!(matches!(commands[3], Command::RemoveSceneOnChild { child: 1, scene: s } if s == scene));
}

#[test]
fn removing_a_scene_twice_changes_nothing_the_second_time() {
    let scene = SceneUuid(7);
    let mut master = master_with_scene(1, scene);
    master.remove_scene(RemoveSceneRequest { scene });
    let exited = master.runners.exited.clone();
    let commands = master.remove_scene(RemoveSceneRequest { scene });
    assert_eq!(master.runners.exited, exited);
    assert!(master.scenes.is_empty());
    assert!(master.runners.assigned.is_empty());
    assert_eq!(commands.len(), 1);
    assert!(matches!(commands[0], Command::RemoveSceneOnChild { child: 0, .. }));
}

#[test]
fn a_child_coordinator_waits_for_the_process_of_a_worker_that_it_stops() {
    let scene = SceneUuid(7);
    let mut child = AppState::with_type(PartitionnerType::Runner);
    let (response, _) = child.create_scene(CreateSceneRequest { scene, bounds: scene_bounds() });
    let commands = child.remove_scene(RemoveSceneRequest { scene });
    assert_eq!(commands.len(), 2);
    assert!(matches!(commands[0], Command::SendRunner { uuid, message: RunnerMessage::Exit } if uuid == response.runner));
    assert!(matches!(commands[1], Command::ReapRunner { uuid } if uuid == response.runner));
}

#[test]
fn a_new_scene_without_children() {
    let scene = SceneUuid(7);
    let mut master = AppState::with_type(PartitionnerType::Master);
    let (_, commands) = master.create_scene(CreateSceneRequest { scene, bounds: scene_bounds() });
    assert!(commands.is_empty());
    assert_eq!(master.list_scenes().scenes, vec![scene]);
    assert!(master.list_regions(&ListRegionsRequest { scene }).bounds.is_empty());
    let r = master.insert_objects(
        InsertObjectsRequest { scene, bodies: vec![body(1, RigidBodyType::Dynamic)] },
        &vec![corner_at(49)],
    );
    assert_eq!(r.err(), Some(StatusCode::BadRequest));
    assert!(master.list_regions(&ListRegionsRequest { scene }).bounds.is_empty());
    assert_eq!(
        master.assign_runner(AssignRunnerRequest { scene, region: cell(0, 0, 0) }).err(),
        Some(StatusCode::BadRequest)
    );
}

#[test]
fn a_child_that_registers_late_takes_no_part_in_the_scene() {
    let scene = SceneUuid(7);
    let mut master = master_with_scene(1, scene);
    master.register_child(RegisterChildRequest {
        child: ChildPartitionner { addr: "http://late".to_string(), port: 1 },
    });
    assert_eq!(master.scenes[0].children_bounds.len(), 1);
    let a = master.assign_runner(AssignRunnerRequest { scene, region: cell(300, 0, 0) }).unwrap();
    assert_eq!(a.uuid, 1000);
}

#[test]
fn a_region_goes_to_the_worker_of_the_child_that_holds_it() {
    let scene = SceneUuid(7);
    let mut master = master_with_scene(2, scene);
    let left = master.assign_runner(AssignRunnerRequest { scene, region: cell(-300, 0, 0) }).unwrap();
    let right = master.assign_runner(AssignRunnerRequest { scene, region: cell(200, 0, 0) }).unwrap();
    let beyond = master.assign_runner(AssignRunnerRequest { scene, region: cell(5000, 0, 0) }).unwrap();
    assert_eq!((left.uuid, right.uuid, beyond.uuid), (1000, 1001, 1001));
    assert_eq!(left.scene, scene);
    assert_eq!(left.region, cell(-300, 0, 0));
    assert_eq!(
        master.list_regions(&ListRegionsRequest { scene }).bounds,
        vec![cell(-300, 0, 0), cell(200, 0, 0), cell(5000, 0, 0)]
    );
}

#[test]
fn a_region_that_is_assigned_stays_with_its_worker() {
    let scene = SceneUuid(7);
    let mut master = master_with_scene(2, scene);
    let first = master.assign_runner(AssignRunnerRequest { scene, region: cell(200, 0, 0) }).unwrap();
    let again = master.assign_runner(AssignRunnerRequest { scene, region: cell(200, 0, 0) }).unwrap();
    assert_eq!(first.uuid, again.uuid);
    assert_eq!(master.runners.assigned.len(), 1);
}

#[test]
fn no_region_is_assigned_for_a_scene_that_was_removed_or_is_unknown() {
    let scene = SceneUuid(7);
    let mut master = master_with_scene(2, scene);
    assert_eq!(
        master.assign_runner(AssignRunnerRequest { scene: SceneUuid(9), region: cell(0, 0, 0) }).err(),
        Some(StatusCode::BadRequest)
    );
    master.assign_runner(AssignRunnerRequest { scene, region: cell(0, 0, 0) }).unwrap();
    master.remove_scene(RemoveSceneRequest { scene });
    assert_eq!(
        master.assign_runner(AssignRunnerRequest { scene, region: cell(0, 0, 0) }).err(),
        Some(StatusCode::BadRequest)
    );
}

#[test]
fn a_child_coordinator_assigns_no_region() {
    let scene = SceneUuid(7);
    let mut child = AppState::with_type(PartitionnerType::Runner);
    child.create_scene(CreateSceneRequest { scene, bounds: scene_bounds() });
    assert_eq!(
        child.assign_runner(AssignRunnerRequest { scene, region: cell(0, 0, 0) }).err(),
        Some(StatusCode::BadRequest)
    );
    let mut dev = AppState::with_type(PartitionnerType::Dev);
    let (response, _) = dev.create_scene(CreateSceneRequest { scene, bounds: scene_bounds() });
    let a = dev.assign_runner(AssignRunnerRequest { scene, region: cell(0, 0, 0) }).unwrap();
    assert_eq!(a.uuid, response.runner);
}

#[test]
fn a_region_beyond_the_range_is_refused() {
    let scene = SceneUuid(7);
    let mut master = master_with_scene(1, scene);
    let far = SimulationBounds { mins: [i64::MAX - 100, 0, 0], maxs: [i64::MAX, 100, 100] };
    assert_eq!(
        master.assign_runner(AssignRunnerRequest { scene, region: far }).err(),
        Some(StatusCode::BadRequest)
    );
}

#[test]
fn bodies_enter_by_region() {
    let scene = SceneUuid(7);
    let mut master = master_with_scene(2, scene);
    let bodies = vec![
        body(1, RigidBodyType::Dynamic),
        body(2, RigidBodyType::Dynamic),
        body(3, RigidBodyType::Dynamic),
        body(4, RigidBodyType::Dynamic),
    ];
    let corners = vec![corner_at(49), corner_at(-250), corner_at(20), corner_at(-202)];
    let commands = master.insert_objects(InsertObjectsRequest { scene, bodies }, &corners).unwrap();
    assert_eq!(commands.len(), 4);
    match &commands[0] {
        Command::SendRunner {
            uuid: 1001,
            message: RunnerMessage::AssignIsland { scene: s, region, bodies, impulse_joints },
        } => {
            assert_eq!(*s, scene);
            assert_eq!(*region, cell(0, 0, 0));
            assert_eq!(bodies.iter().map(|b| b.uuid).collect::<Vec<_>>(), vec![1, 3]);
            assert!(impulse_joints.is_empty());
        }
        _ => panic!("the first island goes to the second worker"),
    }
    assert!(matches!(commands[1], Command::SendRunner { uuid: 1001, message: RunnerMessage::SyncClientObjects }));
    match &commands[2] {
        Command::SendRunner { uuid: 1000, message: RunnerMessage::AssignIsland { region, bodies, .. } } => {
            assert_eq!(*region, cell(-300, 0, 0));
            assert_eq!(bodies.iter().map(|b| b.uuid).collect::<Vec<_>>(), vec![2, 4]);
        }
        _ => panic!("the second island goes to the first worker"),
    }
    assert!(matches!(commands[3], Command::SendRunner { uuid: 1000, message: RunnerMessage::SyncClientObjects }));
    assert_eq!(
        master.list_regions(&ListRegionsRequest { scene }).bounds,
        vec![cell(0, 0, 0), cell(-300, 0, 0)]
    );
    assert!(master.scenes[0].static_bodies.is_empty());
}

#[test]
fn static_bodies_reach_every_worker_of_the_scene() {
    let scene = SceneUuid(7);
    let mut master = master_with_scene(2, scene);
    let commands = master
        .insert_objects(
            InsertObjectsRequest {
                scene,
                bodies: vec![body(9, RigidBodyType::Fixed), body(8, RigidBodyType::KinematicPositionBased)],
            },
            &vec![corner_at(0), corner_at(0)],
        )
        .unwrap();
    assert_eq!(commands.len(), 2);
    for (at, worker) in [(0usize, 1000u128), (1, 1001)] {
        match &commands[at] {
            Command::SendRunner { uuid, message: RunnerMessage::AssignStaticBodies { bodies } } => {
                assert_eq!(*uuid, worker);
                assert_eq!(bodies.iter().map(|b| b.uuid).collect::<Vec<_>>(), vec![9, 8]);
                assert_eq!(bodies[0].cold.shape, vec![9]);
            }
            _ => panic!("static bodies go to every worker"),
        }
    }
    assert_eq!(master.scenes[0].static_bodies.iter().map(|b| b.uuid).collect::<Vec<_>>(), vec![9, 8]);
    assert!(master.runners.assigned.is_empty());
    // A dynamic body that comes later goes to its worker alone.
    let later = master
        .insert_objects(
            InsertObjectsRequest { scene, bodies: vec![body(1, RigidBodyType::Dynamic)] },
            &vec![corner_at(49)],
        )
        .unwrap();
    assert_eq!(later.len(), 2);
    assert!(matches!(later[0], Command::SendRunner { uuid: 1001, message: RunnerMessage::AssignIsland { .. } }));
    assert_eq!(master.scenes[0].static_bodies.len(), 2);
}

#[test]
fn bodies_are_refused_as_a_whole() {
    let scene = SceneUuid(7);
    let mut master = master_with_scene(2, scene);
    let far = [i64::MAX, 1, 1];
    let r = master.insert_objects(
        InsertObjectsRequest {
            scene,
            bodies: vec![
                body(1, RigidBodyType::Dynamic),
                body(2, RigidBodyType::Fixed),
                body(3, RigidBodyType::Dynamic),
            ],
        },
        &vec![corner_at(49), corner_at(0), far],
    );
    assert_eq!(r.err(), Some(StatusCode::BadRequest));
    assert!(master.runners.assigned.is_empty());
    assert!(master.scenes[0].static_bodies.is_empty());
    // A static body may lie anywhere.
    let ok = master.insert_objects(
        InsertObjectsRequest { scene, bodies: vec![body(2, RigidBodyType::Fixed)] },
        &vec![far],
    );
    assert!(ok.is_ok());
}

#[test]
fn no_bodies_enter_a_scene_that_was_removed_or_is_unknown() {
    let scene = SceneUuid(7);
    let mut master = master_with_scene(2, scene);
    let unknown = master.insert_objects(
        InsertObjectsRequest { scene: SceneUuid(9), bodies: vec![] },
        &vec![],
    );
    assert_eq!(unknown.err(), Some(StatusCode::BadRequest));
    master.remove_scene(RemoveSceneRequest { scene });
    let removed = master.insert_objects(
        InsertObjectsRequest { scene, bodies: vec![body(1, RigidBodyType::Dynamic)] },
        &vec![corner_at(49)],
    );
    assert_eq!(removed.err(), Some(StatusCode::BadRequest));
}

#[test]
fn the_master_steps_on_only_when_every_child_has_acknowledged() {
    let scene = SceneUuid(7);
    let mut master = master_with_scene(3, scene);
    let started = master.handle_client_inputs(ClientInputRequest { scene, step_id: 0, input: 0 });
    assert_eq!(started.len(), 3);
    for (i, c) in started.iter().enumerate() {
        assert!(matches!(*c, Command::StepChild { child, scene: s, step_id: 0 } if child == i && s == scene));
    }
    assert_eq!(master.scenes[0].acks, SceneAcks { pending_acks: 3, step_id: 0, step_limit: 2, running: true });
    assert!(master.ack(AckRequest { scene }).is_empty());
    assert!(master.ack(AckRequest { scene }).is_empty());
    assert_eq!(master.scenes[0].acks.step_id, 0);
    let next = master.ack(AckRequest { scene });
    assert_eq!(next.len(), 3);
    assert!(next.iter().all(|c| matches!(*c, Command::StepChild { step_id: 1, .. })));
    assert_eq!(master.scenes[0].acks, SceneAcks { pending_acks: 3, step_id: 1, step_limit: 2, running: true });
}

#[test]
fn without_clients_a_scene_rests() {
    let scene = SceneUuid(7);
    let mut master = master_with_scene(1, scene);
    assert!(master.step(StepRequest { scene, step_id: 0 }).is_empty());
    assert!(master.start_stop(StartStopRequest { scene, running: true }).is_empty());
    assert!(!master.scenes[0].acks.running);
    master.handle_client_inputs(ClientInputRequest { scene, step_id: 0, input: 0 });
    let mut steps = vec![0u64];
    loop {
        let commands = master.ack(AckRequest { scene });
        match commands.first() {
            Some(Command::StepChild { step_id, .. }) => steps.push(*step_id),
            _ => break,
        }
    }
    assert_eq!(steps, vec![0, 1, 2]);
    assert_eq!(master.scenes[0].acks, SceneAcks { pending_acks: 0, step_id: 3, step_limit: 2, running: false });
    // A client that has seen more sets the scene going again, with the step that is next.
    let again = master.handle_client_inputs(ClientInputRequest { scene, step_id: 20, input: 0 });
    assert!(matches!(again[0], Command::StepChild { step_id: 3, .. }));
    assert_eq!(master.scenes[0].acks.step_limit, 4);
}

#[test]
fn a_client_input_for_a_running_scene_only_raises_the_limit() {
    let scene = SceneUuid(7);
    let mut master = master_with_scene(1, scene);
    master.handle_client_inputs(ClientInputRequest { scene, step_id: 0, input: 0 });
    let commands = master.handle_client_inputs(ClientInputRequest { scene, step_id: 50, input: 0 });
    assert!(commands.is_empty());
    assert_eq!(master.scenes[0].acks, SceneAcks { pending_acks: 1, step_id: 0, step_limit: 7, running: true });
}

#[test]
fn requests_for_an_unknown_scene_are_passed_over() {
    let scene = SceneUuid(7);
    let mut master = master_with_scene(1, scene);
    let unknown = SceneUuid(9);
    assert!(master.ack(AckRequest { scene: unknown }).is_empty());
    assert!(master.step(StepRequest { scene: unknown, step_id: 3 }).is_empty());
    assert!(master.start_stop(StartStopRequest { scene: unknown, running: true }).is_empty());
    assert!(master.handle_client_inputs(ClientInputRequest { scene: unknown, step_id: 0, input: 0 }).is_empty());
    assert_eq!(master.scenes[0].acks, SceneAcks::new());
    assert!(master.ack(AckRequest { scene }).is_empty());
    assert_eq!(master.scenes[0].acks, SceneAcks::new());
}

#[test]
fn a_stopped_scene_finishes_its_step_and_rests() {
    let scene = SceneUuid(7);
    let mut master = master_with_scene(1, scene);
    master.handle_client_inputs(ClientInputRequest { scene, step_id: 0, input: 0 });
    assert!(master.start_stop(StartStopRequest { scene, running: false }).is_empty());
    assert!(master.ack(AckRequest { scene }).is_empty());
    assert_eq!(master.scenes[0].acks, SceneAcks { pending_acks: 0, step_id: 1, step_limit: 2, running: false });
    let resumed = master.start_stop(StartStopRequest { scene, running: true });
    assert!(matches!(resumed[0], Command::StepChild { step_id: 1, .. }));
}

#[test]
fn a_child_coordinator_hands_a_step_to_its_workers() {
    let scene = SceneUuid(7);
    let mut child = AppState::with_type(PartitionnerType::Runner);
    let (response, _) = child.create_scene(CreateSceneRequest { scene, bounds: scene_bounds() });
    let commands = child.step(StepRequest { scene, step_id: 5 });
    assert_eq!(commands.len(), 1);
    assert!(matches!(
        commands[0],
        Command::SendRunner { uuid, message: RunnerMessage::Step { step_id: 5 } } if uuid == response.runner
    ));
    let done = child.ack(AckRequest { scene });
    assert_eq!(done.len(), 1);
    assert!(matches!(done[0], Command::AckParent { scene: s } if s == scene));
    assert!(child.ack(AckRequest { scene }).is_empty());
}

#[test]
fn a_worker_reads_the_names_that_its_coordinator_writes() {
    let uuid = 0xa1a2a3a4_b1b2_c1c2_d1d2_d3d4d5d6d7d8u128;
    let scene = SceneUuid(7);
    let args = runner_arguments(uuid, scene, false);
    assert_eq!(
        args,
        vec![
            "--uuid".to_string(),
            uuid::Uuid::from_u128(uuid).to_u128_le().to_string(),
            "--scene-uuid".to_string(),
            uuid::Uuid::from_u128(7).to_u128_le().to_string(),
        ]
    );
    let dev = runner_arguments(uuid, scene, true);
    assert_eq!(dev.len(), 5);
    assert_eq!(dev[4], "--dev");
    let read = CliArgs {
        uuid: args[1].parse().unwrap(),
        scene_uuid: args[3].parse().unwrap(),
        time_origin: 0,
        dev: false,
    };
    assert_eq!(read.typed_uuid(), uuid);
    assert_eq!(read.typed_scene_uuid(), 7);
}

#[test]
fn a_body_is_placed_by_its_upper_corner_rounded_down() {
    let scene = SceneUuid(7);
    let mut master = master_with_scene(2, scene);
    // An extent that ends at 99.9 has its corner at 99, one that ends at 100.0 at 100.
    let r = master.insert_objects(
        InsertObjectsRequest {
            scene,
            bodies: vec![body(1, RigidBodyType::Dynamic), body(2, RigidBodyType::Dynamic)],
        },
        &vec![[99, 11, 1], [100, 11, 1]],
    );
    assert!(r.is_ok());
    let mut regions: Vec<_> = master
        .list_regions(&ListRegionsRequest { scene })
        .bounds
        .iter()
        .map(|b| (b.mins, b.maxs))
        .collect();
    regions.sort();
    assert_eq!(regions, vec![([0, 0, 0], [100, 100, 100]), ([100, 0, 0], [200, 100, 100])]);
}
