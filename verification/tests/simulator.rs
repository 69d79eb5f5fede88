use steadyum::api_types::messages::{BodyAssignment, RunnerMessage};
use steadyum::api_types::objects::{ColdBodyObject, RigidBodyType, WarmBodyObject, WatchedObjects};
use steadyum::runner::physics::{find_body, is_report_wf};
use steadyum::api_types::partitionner::SceneUuid;
use steadyum::api_types::simulation::SimulationBounds;
use steadyum::geometry::Aabb;
use steadyum::runner::connected_components::calculate_connected_components;
use steadyum::runner::physics::{BodyState, ImpulseJointHandle, JointLink, RigidBodyHandle};
use steadyum::runner::region_assignment::{
    apply_and_send_region_assignments, calculate_region_assignments, RegionAssignments, MIN_SENDBACK_DELAY,
};
use steadyum::runner::runner::{
    add_missing_static_bodies, compute_client_objects, process_message,
    resolve_pending_assignments, QueryableWatchedObjects, Reaction, SimulationState,
};
use steadyum::runner::step::{adopt_bodies, complete_step};
use steadyum::runner::watch::{compute_watch_data, watched_regions, WatchedObject};

fn cell(x: i64, y: i64, z: i64) -> SimulationBounds {
    SimulationBounds { mins: [x, y, z], maxs: [x + 100, y + 100, z + 100] }
}

fn handle(index: u32) -> RigidBodyHandle {
    RigidBodyHandle { index, generation: 0 }
}

fn body(uuid: u128, timestamp: u64, body_type: RigidBodyType) -> BodyAssignment {
    BodyAssignment {
        uuid,
        warm: WarmBodyObject { timestamp, position: [uuid as u32; 7], linvel: [0; 3], angvel: [0; 3] },
        cold: ColdBodyObject { body_type, density: 1, shape: vec![uuid as u8, 1], animations: vec![] },
    }
}

/// A ball of radius one around `(x, 10, 10)` that moves `dx` along the first axis in a step.
fn ball(index: u32, x: i64, dx: i64) -> BodyState {
    let here = Aabb { mins: [x - 1, 9, 9], maxs: [x + 1, 11, 11] };
    let swept = Aabb { mins: [x - 1 + dx.min(0), 9, 9], maxs: [x + 1 + dx.max(0), 11, 11] };
    BodyState {
        handle: handle(index),
        body_type: RigidBodyType::Dynamic,
        sleeping: false,
        position: [x as u32; 7],
        linvel: [dx as u32, 0, 0],
        angvel: [0; 3],
        density: 1,
        shape: vec![index as u8],
        aabb: here,
        upper_corner: here.maxs,
        swept_aabb: swept,
        contacts: vec![],
        joints: vec![],
    }
}

fn ground(index: u32) -> BodyState {
    let mut g = ball(index, 0, 0);
    g.body_type = RigidBodyType::Fixed;
    g.aabb = Aabb { mins: [-1000, -1, -1000], maxs: [1000, 0, 1000] };
    g.upper_corner = g.aabb.maxs;
    g.swept_aabb = g.aabb;
    g
}

fn simulator(region: SimulationBounds, bodies: &[(u128, u32, RigidBodyType)]) -> SimulationState {
    let mut state = SimulationState::new(SceneUuid(7), region);
    for (uuid, index, body_type) in bodies.iter() {
        assert_eq!(state.insert_body(*uuid, *body_type, handle(*index)), None);
    }
    state
}

fn no_watch() -> QueryableWatchedObjects {
    QueryableWatchedObjects::new(&vec![])
}

fn island_uuids(message: &RunnerMessage) -> Vec<u128> {
    match message {
        RunnerMessage::AssignIsland { bodies, .. } => bodies.iter().map(|b| b.uuid).collect(),
        _ => panic!("a message that hands over bodies was expected"),
    }
}

#[test]
fn bodies_from_the_future_wait_for_their_step() {
    let mut state = SimulationState::new(SceneUuid(7), cell(0, 0, 0));
    state.step_id = 5;
    let mut pending = vec![
        body(1, 5, RigidBodyType::Dynamic),
        body(2, 6, RigidBodyType::Dynamic),
        body(3, 0, RigidBodyType::Fixed),
        body(4, 9, RigidBodyType::Dynamic),
    ];
    let due = resolve_pending_assignments(&state, &mut pending);
    assert_eq!(due.iter().map(|b| b.uuid).collect::<Vec<_>>(), vec![1, 3]);
    assert_eq!(pending.iter().map(|b| b.uuid).collect::<Vec<_>>(), vec![2, 4]);
    state.step_id = 6;
    let due = resolve_pending_assignments(&state, &mut pending);
    assert_eq!(due.iter().map(|b| b.uuid).collect::<Vec<_>>(), vec![2]);
    assert_eq!(pending.iter().map(|b| b.uuid).collect::<Vec<_>>(), vec![4]);
    let due = resolve_pending_assignments(&state, &mut pending);
    assert!(due.is_empty());
    assert_eq!(pending.len(), 1);
}

#[test]
fn a_body_that_enters_supersedes_the_body_of_the_same_name() {
    let mut state = simulator(cell(0, 0, 0), &[(1, 0, RigidBodyType::Dynamic), (2, 1, RigidBodyType::Dynamic)]);
    state.bodies[0].sendback_delay = 12;
    let superseded = state.insert_body(1, RigidBodyType::Dynamic, handle(5));
    assert_eq!(superseded, Some(handle(0)));
    assert_eq!(state.bodies.len(), 2);
    assert_eq!(state.handles(), vec![handle(1), handle(5)]);
    assert_eq!(state.find_uuid(1), Some(1));
    assert_eq!(state.bodies[1].sendback_delay, 0);
    assert!(!state.contains_handle(handle(0)));
    assert_eq!(state.remove_body(handle(1)), Some(2));
    assert_eq!(state.remove_body(handle(1)), None);
    assert_eq!(state.handles(), vec![handle(5)]);
}

#[test]
fn due_bodies_enter_one_after_the_other() {
    let mut state = simulator(cell(0, 0, 0), &[(1, 0, RigidBodyType::Dynamic), (2, 1, RigidBodyType::Dynamic)]);
    let due = vec![
        body(2, 0, RigidBodyType::Dynamic),
        body(3, 0, RigidBodyType::Dynamic),
        body(3, 0, RigidBodyType::Dynamic),
        body(4, 0, RigidBodyType::Fixed),
    ];
    let handles = vec![handle(10), handle(11), handle(12), handle(13)];
    let superseded = adopt_bodies(&mut state, &due, &handles);
    assert_eq!(superseded, vec![handle(1), handle(11)]);
    let held: Vec<(u128, RigidBodyHandle)> = state.bodies.iter().map(|r| (r.uuid, r.handle)).collect();
    assert_eq!(held, vec![(1, handle(0)), (2, handle(10)), (3, handle(12)), (4, handle(13))]);
    assert_eq!(state.bodies[3].body_type, RigidBodyType::Fixed);
}

#[test]
fn messages_between_steps() {
    let mut state = SimulationState::new(SceneUuid(7), cell(0, 0, 0));
    let mut pending = vec![body(1, 0, RigidBodyType::Dynamic)];
    let arrive = RunnerMessage::AssignIsland {
        scene: SceneUuid(7),
        region: cell(0, 0, 0),
        bodies: vec![body(2, 0, RigidBodyType::Dynamic), body(3, 1, RigidBodyType::Dynamic)],
        impulse_joints: vec![],
    };
    assert!(matches!(process_message(&mut state, arrive, &mut pending, &vec![]), Reaction::Noted));
    assert_eq!(pending.iter().map(|b| b.uuid).collect::<Vec<_>>(), vec![1, 2, 3]);
    let step = RunnerMessage::Step { step_id: 4 };
    assert!(matches!(process_message(&mut state, step, &mut pending, &vec![]), Reaction::RunStep));
    assert_eq!(state.step_id, 4);
    assert!(matches!(process_message(&mut state, RunnerMessage::Ack, &mut pending, &vec![]), Reaction::Noted));
    let statics = RunnerMessage::AssignStaticBodies { bodies: vec![body(9, 0, RigidBodyType::Fixed)] };
    assert!(matches!(process_message(&mut state, statics, &mut pending, &vec![]), Reaction::Noted));
    assert_eq!(pending.len(), 3);
    assert!(!state.killed);
}

#[test]
fn exit_delivered_twice_is_a_no_op() {
    let mut state = simulator(cell(0, 0, 0), &[(1, 0, RigidBodyType::Dynamic)]);
    state.step_id = 3;
    let mut pending = vec![body(2, 0, RigidBodyType::Dynamic)];
    let reported = vec![ball(0, 50, 0)];
    assert!(matches!(process_message(&mut state, RunnerMessage::Exit, &mut pending, &reported), Reaction::Stop));
    assert!(state.killed);
    assert!(matches!(process_message(&mut state, RunnerMessage::Exit, &mut pending, &reported), Reaction::Stop));
    assert!(state.killed);
    assert_eq!(state.step_id, 3);
    assert_eq!(state.bodies.len(), 1);
    assert_eq!(pending.len(), 1);
    // Whatever comes after the order to stop is not acted upon.
    let late = RunnerMessage::Step { step_id: 9 };
    assert!(matches!(process_message(&mut state, late, &mut pending, &reported), Reaction::Stop));
    assert_eq!(state.step_id, 3);
}

#[test]
fn the_snapshot_before_the_first_step_shows_what_was_inserted() {
    let mut state = SimulationState::new(SceneUuid(7), cell(0, 0, 0));
    let mut pending = vec![];
    let inserted = vec![body(5, 0, RigidBodyType::Dynamic), body(6, 0, RigidBodyType::Dynamic)];
    let arrive = RunnerMessage::AssignIsland {
        scene: SceneUuid(7),
        region: cell(0, 0, 0),
        bodies: inserted,
        impulse_joints: vec![],
    };
    process_message(&mut state, arrive, &mut pending, &vec![]);
    match process_message(&mut state, RunnerMessage::SyncClientObjects, &mut pending, &vec![]) {
        Reaction::Publish(snapshot) => {
            assert_eq!(snapshot.timestamp, 0);
            assert_eq!(snapshot.objects.iter().map(|o| o.uuid).collect::<Vec<_>>(), vec![5, 6]);
            assert_eq!(snapshot.objects[0].position, [5; 7]);
            assert_eq!(snapshot.objects[0].shape, vec![5, 1]);
            assert_eq!(snapshot.objects[0].body_type, RigidBodyType::Dynamic);
            assert_eq!(snapshot.objects[0].sleep_start_frame, None);
        }
        _ => panic!("the snapshot is to be published"),
    }
    assert_eq!(pending.len(), 2);
}

#[test]
fn the_snapshot_shows_bodies_in_the_engine_then_bodies_that_wait() {
    let mut state = simulator(
        cell(0, 0, 0),
        &[(1, 0, RigidBodyType::Dynamic), (2, 1, RigidBodyType::Dynamic), (3, 2, RigidBodyType::Fixed)],
    );
    state.step_id = 3;
    state.bodies[1].watched = Some(WatchedObject::new(cell(100, 0, 0), 0));
    let reported = vec![ball(0, 50, 0), ball(1, 60, 0), ground(2)];
    let snapshot = compute_client_objects(&mut state, &reported, &vec![body(4, 9, RigidBodyType::Dynamic)]);
    assert_eq!(snapshot.timestamp, 30);
    assert_eq!(snapshot.objects.iter().map(|o| o.uuid).collect::<Vec<_>>(), vec![1, 3, 4]);
    assert_eq!(snapshot.objects[0].position, [50; 7]);
    assert_eq!(snapshot.objects[0].shape, vec![0]);
    assert_eq!(snapshot.objects[1].body_type, RigidBodyType::Fixed);
    assert_eq!(snapshot.objects[2].position, [4; 7]);
}

#[test]
fn the_time_at_which_a_body_fell_asleep_is_set_once() {
    let mut state = simulator(cell(0, 0, 0), &[(1, 0, RigidBodyType::Dynamic)]);
    let awake = vec![ball(0, 50, 0)];
    let mut asleep = vec![ball(0, 50, 0)];
    asleep[0].sleeping = true;
    let mut seen = vec![];
    for (step, report) in [(1u64, &awake), (2, &asleep), (3, &asleep), (4, &asleep), (5, &awake), (6, &asleep)] {
        state.step_id = step;
        let snapshot = compute_client_objects(&mut state, report, &vec![]);
        seen.push(snapshot.objects[0].sleep_start_frame);
    }
    assert_eq!(seen, vec![None, Some(20), Some(20), Some(20), None, Some(60)]);
    assert_eq!(state.bodies[0].attributes.sleep_step_id, Some(60));
}

#[test]
fn static_bodies_that_a_simulator_has_not_met_wait_with_the_pending_bodies() {
    let scene_statics = vec![body(9, 0, RigidBodyType::Fixed), body(8, 0, RigidBodyType::Fixed)];
    let mut added = 0usize;
    let mut pending = vec![body(1, 0, RigidBodyType::Dynamic)];
    add_missing_static_bodies(&scene_statics, &mut added, &mut pending);
    assert_eq!(added, 2);
    assert_eq!(pending.iter().map(|b| b.uuid).collect::<Vec<_>>(), vec![1, 9, 8]);
    assert_eq!(pending[1].cold.shape, vec![9, 1]);
    add_missing_static_bodies(&scene_statics, &mut added, &mut pending);
    assert_eq!(pending.len(), 3);
    let more = vec![body(9, 0, RigidBodyType::Fixed), body(8, 0, RigidBodyType::Fixed), body(7, 0, RigidBodyType::Fixed)];
    add_missing_static_bodies(&more, &mut added, &mut pending);
    assert_eq!(added, 3);
    assert_eq!(pending.iter().map(|b| b.uuid).collect::<Vec<_>>(), vec![1, 9, 8, 7]);
}

#[test]
fn a_new_simulator_rebuilds_the_static_bodies_before_its_first_step() {
    // The half-space came first; the simulator is started later for a dynamic body.
    let scene_statics = vec![body(9, 0, RigidBodyType::Fixed)];
    let mut state = SimulationState::new(SceneUuid(7), cell(0, 0, 0));
    let mut pending = vec![];
    let mut added = 0usize;
    let arrive = RunnerMessage::AssignIsland {
        scene: SceneUuid(7),
        region: cell(0, 0, 0),
        bodies: vec![body(1, 0, RigidBodyType::Dynamic)],
        impulse_joints: vec![],
    };
    process_message(&mut state, arrive, &mut pending, &vec![]);
    process_message(&mut state, RunnerMessage::Step { step_id: 0 }, &mut pending, &vec![]);
    add_missing_static_bodies(&scene_statics, &mut added, &mut pending);
    let due = resolve_pending_assignments(&state, &mut pending);
    assert_eq!(due.iter().map(|b| b.uuid).collect::<Vec<_>>(), vec![1, 9]);
    adopt_bodies(&mut state, &due, &vec![handle(0), handle(1)]);
    assert_eq!(state.bodies.iter().map(|r| (r.uuid, r.body_type)).collect::<Vec<_>>(),
        vec![(1, RigidBodyType::Dynamic), (9, RigidBodyType::Fixed)]);
}

#[test]
fn the_watch_index_gathers_the_sets_of_the_neighbours() {
    let watched = vec![
        (WatchedObjects { objects: vec![(1, Aabb { mins: [99, 0, 0], maxs: [103, 2, 2] })] }, cell(100, 0, 0)),
        (WatchedObjects { objects: vec![] }, cell(0, 100, 0)),
        (
            WatchedObjects {
                objects: vec![
                    (2, Aabb { mins: [0, 0, 99], maxs: [2, 2, 103] }),
                    (3, Aabb { mins: [100, 0, 99], maxs: [102, 2, 103] }),
                ],
            },
            cell(0, 0, 100),
        ),
    ];
    let index = QueryableWatchedObjects::new(&watched);
    assert_eq!(
        index.objects,
        vec![
            (cell(100, 0, 0), Aabb { mins: [99, 0, 0], maxs: [103, 2, 2] }),
            (cell(0, 0, 100), Aabb { mins: [0, 0, 99], maxs: [2, 2, 103] }),
            (cell(0, 0, 100), Aabb { mins: [100, 0, 99], maxs: [102, 2, 103] }),
        ]
    );
    let near_x = Aabb { mins: [97, 0, 0], maxs: [99, 1, 1] };
    assert_eq!(index.watching_region(&near_x), Some(cell(100, 0, 0)));
    let near_z = Aabb { mins: [1, 1, 98], maxs: [2, 2, 99] };
    assert_eq!(index.watching_region(&near_z), Some(cell(0, 0, 100)));
    let corner = Aabb { mins: [98, 0, 0], maxs: [100, 1, 100] };
    assert_eq!(index.watching_region(&corner), Some(cell(100, 0, 0)));
    let far = Aabb { mins: [40, 40, 40], maxs: [41, 41, 41] };
    assert_eq!(index.watching_region(&far), None);
    assert_eq!(no_watch().watching_region(&far), None);
}

#[test]
fn the_three_neighbours_up_the_axes_are_read() {
    let regions = watched_regions(&cell(100, 0, -100));
    assert_eq!(regions, [cell(200, 0, -100), cell(100, 100, -100), cell(100, 0, 0)]);
    for r in regions.iter() {
        assert!(*r > cell(100, 0, -100));
    }
}

#[test]
fn contacts_hold_bodies_together() {
    let mut reported = vec![ball(0, 10, 0), ball(1, 12, 0), ball(2, 50, 0), ball(3, 14, 3)];
    reported[0].contacts = vec![handle(1)];
    reported[1].contacts = vec![handle(0), handle(3)];
    reported[3].contacts = vec![handle(1)];
    let components = calculate_connected_components(&reported);
    assert_eq!(components.len(), 2);
    assert_eq!(components[0].bodies, vec![handle(0), handle(1), handle(3)]);
    assert_eq!(components[1].bodies, vec![handle(2)]);
    assert_eq!(components[0].swept_aabb, Aabb { mins: [9, 9, 9], maxs: [18, 11, 11] });
    assert_eq!(components[1].swept_aabb, Aabb { mins: [49, 9, 9], maxs: [51, 11, 11] });
    assert!(components[0].joints.is_empty());
}

#[test]
fn joints_hold_bodies_together_and_are_listed_once() {
    let link = JointLink { body1: handle(0), body2: handle(2), joint: ImpulseJointHandle { index: 4, generation: 1 } };
    let mut reported = vec![ball(0, 10, 0), ball(1, 30, 0), ball(2, 50, 0)];
    reported[0].joints = vec![link];
    reported[2].joints = vec![link];
    let components = calculate_connected_components(&reported);
    assert_eq!(components.len(), 2);
    assert_eq!(components[0].bodies, vec![handle(0), handle(2)]);
    assert_eq!(components[0].joints, vec![(handle(0), handle(2), link.joint)]);
    assert_eq!(components[1].bodies, vec![handle(1)]);
    assert!(components[1].joints.is_empty());
}

#[test]
fn bodies_that_forces_do_not_move_connect_nothing() {
    let mut reported = vec![ball(0, 10, 0), ground(1), ball(2, 50, 0)];
    reported[0].contacts = vec![handle(1)];
    reported[1].contacts = vec![handle(0), handle(2)];
    reported[2].contacts = vec![handle(1), handle(9)];
    let components = calculate_connected_components(&reported);
    assert_eq!(components.len(), 2);
    assert_eq!(components[0].bodies, vec![handle(0)]);
    assert_eq!(components[1].bodies, vec![handle(2)]);
    assert!(calculate_connected_components(&vec![ground(0)]).is_empty());
    assert!(calculate_connected_components(&vec![]).is_empty());
}

#[test]
fn a_long_chain_is_one_component() {
    let n = 200u32;
    let mut reported: Vec<BodyState> = (0..n).map(|i| ball(i, 2 * i as i64, 0)).collect();
    for i in 0..n {
        if i > 0 {
            reported[i as usize].contacts.push(handle(i - 1));
        }
        if i + 1 < n {
            reported[i as usize].contacts.push(handle(i + 1));
        }
    }
    let components = calculate_connected_components(&reported);
    assert_eq!(components.len(), 1);
    let mut members: Vec<u32> = components[0].bodies.iter().map(|h| h.index).collect();
    members.sort();
    assert_eq!(members, (0..n).collect::<Vec<_>>());
}

#[test]
fn a_body_whose_upper_corner_lies_in_a_greater_region_leaves_for_it() {
    let mut state = simulator(cell(0, 0, 0), &[(1, 0, RigidBodyType::Dynamic), (2, 1, RigidBodyType::Dynamic)]);
    let reported = vec![ball(0, 99, 3), ball(1, 50, 0)];
    let components = calculate_connected_components(&reported);
    let assignments = calculate_region_assignments(&mut state, &components, &no_watch(), &reported);
    assert_eq!(assignments.bodies_to_reassign, vec![(cell(100, 0, 0), vec![handle(0)])]);
    assert_eq!(assignments.reassigned_bodies, vec![handle(0)]);
    assert_eq!(state.bodies[0].sendback_delay, 0);
}

#[test]
fn a_component_goes_where_its_greatest_vote_goes() {
    // Two balls in contact, one on each side of the border.
    let mut state = simulator(cell(0, 0, 0), &[(1, 0, RigidBodyType::Dynamic), (2, 1, RigidBodyType::Dynamic)]);
    let mut reported = vec![ball(0, 98, 0), ball(1, 101, 0)];
    reported[0].contacts = vec![handle(1)];
    reported[1].contacts = vec![handle(0)];
    let components = calculate_connected_components(&reported);
    assert_eq!(components.len(), 1);
    let assignments = calculate_region_assignments(&mut state, &components, &no_watch(), &reported);
    assert_eq!(assignments.bodies_to_reassign, vec![(cell(100, 0, 0), vec![handle(0), handle(1)])]);
    let islands = apply_and_send_region_assignments(&mut state, &assignments, &reported);
    assert_eq!(islands.len(), 1);
    assert_eq!(islands[0].0, cell(100, 0, 0));
    assert_eq!(island_uuids(&islands[0].1), vec![1, 2]);
    assert!(state.bodies.is_empty());
}

#[test]
fn a_watch_set_that_touches_a_body_decides_its_vote() {
    let mut state = simulator(cell(0, 0, 0), &[(1, 0, RigidBodyType::Dynamic)]);
    let reported = vec![ball(0, 97, 0)];
    let index = QueryableWatchedObjects::new(&vec![
        (WatchedObjects { objects: vec![(9, Aabb { mins: [98, 9, 9], maxs: [103, 11, 11] })] }, cell(100, 0, 0)),
        (WatchedObjects { objects: vec![(8, Aabb { mins: [90, 9, 9], maxs: [99, 11, 103] })] }, cell(0, 0, 100)),
    ]);
    let components = calculate_connected_components(&reported);
    let assignments = calculate_region_assignments(&mut state, &components, &index, &reported);
    assert_eq!(assignments.bodies_to_reassign, vec![(cell(100, 0, 0), vec![handle(0)])]);
}

#[test]
fn a_body_that_is_held_for_a_neighbour_votes_for_it_and_stays() {
    let mut state = simulator(cell(0, 0, 0), &[(1, 0, RigidBodyType::Dynamic), (2, 1, RigidBodyType::Dynamic)]);
    state.bodies[1].watched = Some(WatchedObject::new(cell(0, 100, 0), 3));
    let mut reported = vec![ball(0, 50, 0), ball(1, 52, 0)];
    reported[0].contacts = vec![handle(1)];
    reported[1].contacts = vec![handle(0)];
    let components = calculate_connected_components(&reported);
    let assignments = calculate_region_assignments(&mut state, &components, &no_watch(), &reported);
    assert_eq!(assignments.bodies_to_reassign, vec![(cell(0, 100, 0), vec![handle(0)])]);
    assert_eq!(assignments.reassigned_bodies, vec![handle(0)]);
}

#[test]
fn a_body_is_sent_back_to_a_smaller_region_only_after_fifty_steps() {
    assert_eq!(MIN_SENDBACK_DELAY, 50);
    let mut state = simulator(cell(100, 0, 0), &[(1, 0, RigidBodyType::Dynamic)]);
    // The ball rests just below the border, on the side of the smaller region.
    let reported = vec![ball(0, 98, 0)];
    for step in 0..50u64 {
        let components = calculate_connected_components(&reported);
        let assignments = calculate_region_assignments(&mut state, &components, &no_watch(), &reported);
        assert!(assignments.bodies_to_reassign.is_empty(), "sent back at step {}", step);
        assert!(assignments.reassigned_bodies.is_empty());
        assert_eq!(state.bodies[0].sendback_delay, step + 1);
    }
    let components = calculate_connected_components(&reported);
    let assignments = calculate_region_assignments(&mut state, &components, &no_watch(), &reported);
    assert_eq!(assignments.bodies_to_reassign, vec![(cell(0, 0, 0), vec![handle(0)])]);
    assert_eq!(state.bodies[0].sendback_delay, 50);
}

#[test]
fn one_body_that_stays_keeps_its_component() {
    let mut state = simulator(cell(100, 0, 0), &[(1, 0, RigidBodyType::Dynamic), (2, 1, RigidBodyType::Dynamic)]);
    state.bodies[0].sendback_delay = 50;
    let mut reported = vec![ball(0, 98, 0), ball(1, 101, 0)];
    reported[0].contacts = vec![handle(1)];
    reported[1].contacts = vec![handle(0)];
    let components = calculate_connected_components(&reported);
    let assignments = calculate_region_assignments(&mut state, &components, &no_watch(), &reported);
    assert!(assignments.bodies_to_reassign.is_empty());
    assert_eq!(state.bodies[0].sendback_delay, 50);
    assert_eq!(state.bodies[1].sendback_delay, 0);
}

#[test]
fn components_for_the_same_region_leave_together() {
    let mut state = simulator(
        cell(0, 0, 0),
        &[(1, 0, RigidBodyType::Dynamic), (2, 1, RigidBodyType::Dynamic), (3, 2, RigidBodyType::Dynamic), (4, 3, RigidBodyType::Dynamic)],
    );
    let mut far = ball(2, 50, 0);
    far.aabb = Aabb { mins: [49, 99, 9], maxs: [51, 101, 11] };
    far.upper_corner = far.aabb.maxs;
    let reported = vec![ball(0, 101, 0), ball(1, 50, 0), far, ball(3, 150, 0)];
    let components = calculate_connected_components(&reported);
    let assignments = calculate_region_assignments(&mut state, &components, &no_watch(), &reported);
    assert_eq!(
        assignments.bodies_to_reassign,
        vec![(cell(100, 0, 0), vec![handle(0), handle(3)]), (cell(0, 100, 0), vec![handle(2)])]
    );
    assert_eq!(assignments.reassigned_bodies, vec![handle(0), handle(2), handle(3)]);
    let islands = apply_and_send_region_assignments(&mut state, &assignments, &reported);
    assert_eq!(islands.len(), 2);
    assert_eq!(island_uuids(&islands[0].1), vec![1, 4]);
    assert_eq!(island_uuids(&islands[1].1), vec![3]);
    assert_eq!(state.bodies.iter().map(|r| r.uuid).collect::<Vec<_>>(), vec![2]);
}

#[test]
fn a_body_travels_as_the_engine_reports_it() {
    let mut state = simulator(cell(0, 0, 0), &[(1, 0, RigidBodyType::Dynamic)]);
    state.step_id = 6;
    let mut report = ball(0, 101, 3);
    report.angvel = [4, 5, 6];
    report.density = 77;
    let reported = vec![report];
    let assignments = RegionAssignments {
        bodies_to_reassign: vec![(cell(100, 0, 0), vec![handle(0)]), (cell(0, 100, 0), vec![])],
        reassigned_bodies: vec![handle(0)],
    };
    let islands = apply_and_send_region_assignments(&mut state, &assignments, &reported);
    assert_eq!(islands.len(), 1);
    match &islands[0].1 {
        RunnerMessage::AssignIsland { scene, region, bodies, impulse_joints } => {
            assert_eq!(*scene, SceneUuid(7));
            assert_eq!(*region, cell(100, 0, 0));
            assert!(impulse_joints.is_empty());
            assert_eq!(bodies.len(), 1);
            assert_eq!(bodies[0].uuid, 1);
            assert_eq!(bodies[0].warm.timestamp, 6);
            assert_eq!(bodies[0].warm.position, [101; 7]);
            assert_eq!(bodies[0].warm.linvel, [3, 0, 0]);
            assert_eq!(bodies[0].warm.angvel, [4, 5, 6]);
            assert_eq!(bodies[0].cold.body_type, RigidBodyType::Dynamic);
            assert_eq!(bodies[0].cold.density, 77);
            assert_eq!(bodies[0].cold.shape, vec![0]);
            assert!(bodies[0].cold.animations.is_empty());
        }
        _ => panic!("a message that hands over bodies was expected"),
    }
}

#[test]
fn bodies_near_the_border_are_published_in_the_watch_set() {
    let state = simulator(
        cell(0, 0, 0),
        &[
            (1, 0, RigidBodyType::Dynamic),
            (2, 1, RigidBodyType::Dynamic),
            (3, 2, RigidBodyType::Dynamic),
            (4, 3, RigidBodyType::Fixed),
            (5, 4, RigidBodyType::Dynamic),
        ],
    );
    let mut state = state;
    state.bodies[4].watched = Some(WatchedObject::new(cell(100, 0, 0), 0));
    let reported = vec![ball(0, 50, 3), ball(1, 97, 3), ball(2, 101, 0), ground(3), ball(4, 99, 3)];
    let leaving = RegionAssignments {
        bodies_to_reassign: vec![(cell(100, 0, 0), vec![handle(2)])],
        reassigned_bodies: vec![handle(2)],
    };
    let watched = compute_watch_data(&state, &reported, &leaving);
    assert_eq!(watched.objects, vec![(2, Aabb { mins: [96, 9, 9], maxs: [101, 11, 11] })]);
    // A body that just reaches the border stays inside.
    let at_border = vec![ball(0, 50, 3), ball(1, 96, 3), ball(2, 101, 0), ground(3), ball(4, 99, 3)];
    assert!(compute_watch_data(&state, &at_border, &leaving).objects.is_empty());
}

#[test]
fn a_ball_that_crosses_the_border_changes_owner_once() {
    // The ball starts at x = 49 and moves eight units in a step.
    let mut left = simulator(cell(0, 0, 0), &[(1, 0, RigidBodyType::Dynamic)]);
    let mut right = SimulationState::new(SceneUuid(7), cell(100, 0, 0));
    let mut right_pending: Vec<BodyAssignment> = vec![];
    let mut x = 49;
    let mut owners = vec![];
    let mut watched_by_left = vec![];
    let mut watched_by_right = vec![];
    for step in 1..=12u64 {
        x += 8;
        left.step_id = step;
        right.step_id = step;
        // The body that arrived at the end of the last step enters the engine of its new owner.
        let due = resolve_pending_assignments(&right, &mut right_pending);
        let handles: Vec<RigidBodyHandle> = (0..due.len() as u32).map(handle).collect();
        adopt_bodies(&mut right, &due, &handles);
        let left_report: Vec<BodyState> = left.handles().iter().map(|h| ball(h.index, x, 8)).collect();
        let right_report: Vec<BodyState> = right.handles().iter().map(|h| ball(h.index, x, 8)).collect();
        // The smaller region reads the watch set that the greater one published last.
        let read = vec![(
            WatchedObjects { objects: watched_by_right.last().cloned().unwrap_or_default() },
            cell(100, 0, 0),
        )];
        let from_left = complete_step(&mut left, &left_report, &QueryableWatchedObjects::new(&read));
        let from_right = complete_step(&mut right, &right_report, &no_watch());
        assert!(from_right.islands.is_empty());
        for (region, message) in from_left.islands {
            assert_eq!(region, cell(100, 0, 0));
            process_message(&mut right, message, &mut right_pending, &vec![]);
        }
        let held_left = left.bodies.len();
        let held_right = right.bodies.len() + right_pending.len();
        assert_eq!(held_left + held_right, 1, "the ball has one owner at step {}", step);
        owners.push(if held_left == 1 { 0 } else { 100 });
        watched_by_left.push(from_left.watched.objects.len());
        watched_by_right.push(from_right.watched.objects);
    }
    // x = 57, 65, 73, 81, 89, 97, 105, ...: the upper corner is beyond x = 100 at the seventh step.
    assert_eq!(owners, vec![0, 0, 0, 0, 0, 0, 100, 100, 100, 100, 100, 100]);
    // The former owner publishes the ball while the ball reaches beyond the border and stays.
    assert_eq!(watched_by_left, vec![0, 0, 0, 0, 0, 1, 0, 0, 0, 0, 0, 0]);
    assert_eq!(right.bodies.iter().map(|r| r.uuid).collect::<Vec<_>>(), vec![1]);
}

#[test]
fn the_end_of_a_step_hands_each_body_over_once() {
    let mut state = simulator(
        cell(0, 0, 0),
        &[
            (1, 0, RigidBodyType::Dynamic),
            (2, 1, RigidBodyType::Dynamic),
            (3, 2, RigidBodyType::Dynamic),
            (4, 3, RigidBodyType::Fixed),
            (5, 4, RigidBodyType::Dynamic),
        ],
    );
    state.step_id = 2;
    let mut reported = vec![ball(0, 98, 0), ball(1, 101, 0), ball(2, 40, 0), ground(3), ball(4, 96, 5)];
    reported[0].contacts = vec![handle(1), handle(3)];
    reported[1].contacts = vec![handle(0)];
    reported[2].contacts = vec![handle(3)];
    let outcome = complete_step(&mut state, &reported, &no_watch());
    assert_eq!(outcome.islands.len(), 1);
    assert_eq!(outcome.islands[0].0, cell(100, 0, 0));
    assert_eq!(island_uuids(&outcome.islands[0].1), vec![1, 2]);
    assert_eq!(outcome.assignments.reassigned_bodies, vec![handle(0), handle(1)]);
    assert_eq!(state.bodies.iter().map(|r| r.uuid).collect::<Vec<_>>(), vec![3, 4, 5]);
    // The snapshot still shows the bodies that leave; the watch set does not.
    assert_eq!(outcome.client_objects.timestamp, 20);
    assert_eq!(outcome.client_objects.objects.iter().map(|o| o.uuid).collect::<Vec<_>>(), vec![1, 2, 3, 4, 5]);
    assert_eq!(outcome.watched.objects, vec![(5, Aabb { mins: [95, 9, 9], maxs: [102, 11, 11] })]);
}

#[test]
fn a_body_is_described_as_the_engine_reports_it() {
    let mut report = ball(3, 42, 5);
    report.angvel = [7, 8, 9];
    report.density = 11;
    let warm = WarmBodyObject::from_body(&report, 6);
    assert_eq!(warm.timestamp, 6);
    assert_eq!(warm.position, [42; 7]);
    assert_eq!(warm.linvel, [5, 0, 0]);
    assert_eq!(warm.angvel, [7, 8, 9]);
    let cold = ColdBodyObject::from_body_collider(&report);
    assert_eq!(cold.body_type, RigidBodyType::Dynamic);
    assert_eq!(cold.density, 11);
    assert_eq!(cold.shape, vec![3]);
    assert!(cold.animations.is_empty());
}

#[test]
fn a_report_must_tell_of_each_body_once_and_within_range() {
    let good = vec![ball(0, 10, 0), ball(1, 20, 0)];
    assert!(is_report_wf(&good));
    assert!(is_report_wf(&vec![]));
    let twice = vec![ball(0, 10, 0), ball(1, 20, 0), ball(0, 30, 0)];
    assert!(!is_report_wf(&twice));
    let mut far = vec![ball(0, 10, 0)];
    far[0].upper_corner[0] = i64::MAX;
    assert!(!is_report_wf(&far));
    assert_eq!(find_body(&good, handle(1)), Some(1));
    assert_eq!(find_body(&good, handle(2)), None);
    let state = simulator(cell(0, 0, 0), &[(1, 0, RigidBodyType::Dynamic), (2, 1, RigidBodyType::Dynamic)]);
    assert!(state.is_matched_by(&good));
    assert!(!state.is_matched_by(&vec![ball(1, 20, 0), ball(0, 10, 0)]));
    assert!(!state.is_matched_by(&vec![ball(0, 10, 0)]));
    assert!(!state.is_matched_by(&vec![ball(0, 10, 0), ground(1)]));
}

#[test]
fn the_cell_of_a_body_is_taken_from_its_upper_corner_rounded_down() {
    // The extent ends at 99.9: rounded outwards the box reaches 100, rounded
    // down the corner lies at 99, in the cell that starts at 0.
    let mut state = simulator(cell(0, 0, 0), &[(1, 0, RigidBodyType::Dynamic)]);
    let mut report = ball(0, 98, 0);
    report.aabb = Aabb { mins: [97, 9, 9], maxs: [100, 11, 11] };
    report.upper_corner = [99, 10, 10];
    let reported = vec![report];
    let components = calculate_connected_components(&reported);
    let assignments = calculate_region_assignments(&mut state, &components, &no_watch(), &reported);
    assert!(assignments.bodies_to_reassign.is_empty());
    // Once the corner itself is at 100 the body belongs to the next cell.
    let mut report = ball(0, 99, 0);
    report.upper_corner = [100, 10, 10];
    let reported = vec![report];
    let components = calculate_connected_components(&reported);
    let assignments = calculate_region_assignments(&mut state, &components, &no_watch(), &reported);
    assert_eq!(assignments.bodies_to_reassign, vec![(cell(100, 0, 0), vec![handle(0)])]);
}

#[test]
fn the_end_of_a_step_tells_what_leaves_and_what_stays() {
    let mut state = simulator(
        cell(100, 0, 0),
        &[
            (1, 0, RigidBodyType::Dynamic),
            (2, 1, RigidBodyType::Dynamic),
            (3, 2, RigidBodyType::Dynamic),
            (4, 3, RigidBodyType::Dynamic),
        ],
    );
    state.step_id = 3;
    // The first two touch and lie in the next cell; the third has fallen
    // back into the cell before and is held back; the fourth sleeps at home.
    let mut reported = vec![ball(0, 250, 0), ball(1, 252, 0), ball(2, 50, 0), ball(3, 150, 0)];
    reported[0].contacts = vec![handle(1)];
    reported[1].contacts = vec![handle(0)];
    reported[3].sleeping = true;
    let outcome = complete_step(&mut state, &reported, &no_watch());
    // The components, in the order of their first body.
    let listed: Vec<_> = outcome.components.iter().map(|c| c.bodies.clone()).collect();
    assert_eq!(listed, vec![vec![handle(0), handle(1)], vec![handle(2)], vec![handle(3)]]);
    assert_eq!(outcome.components[0].swept_aabb, Aabb { mins: [249, 9, 9], maxs: [253, 11, 11] });
    // What the election makes leave.
    assert_eq!(
        outcome.assignments.bodies_to_reassign,
        vec![(cell(200, 0, 0), vec![handle(0), handle(1)])]
    );
    assert_eq!(outcome.assignments.reassigned_bodies, vec![handle(0), handle(1)]);
    // One message, with the bodies as they are reported.
    assert_eq!(outcome.islands.len(), 1);
    assert_eq!(outcome.islands[0].0, cell(200, 0, 0));
    match &outcome.islands[0].1 {
        RunnerMessage::AssignIsland { scene, region, bodies, impulse_joints } => {
            assert_eq!(*scene, state.scene);
            assert_eq!(*region, cell(200, 0, 0));
            assert!(impulse_joints.is_empty());
            assert_eq!(bodies.len(), 2);
            assert_eq!(bodies[0].uuid, 1);
            assert_eq!(bodies[0].warm.timestamp, 3);
            assert_eq!(bodies[0].warm.position, [250; 7]);
            assert_eq!(bodies[0].cold.shape, vec![0]);
            assert_eq!(bodies[1].uuid, 2);
            assert_eq!(bodies[1].warm.position, [252; 7]);
            assert_eq!(bodies[1].cold.shape, vec![1]);
        },
        _ => panic!("a message that hands over bodies was expected"),
    }
    // What stays, in order: held back once, and seen asleep at this time.
    assert_eq!(state.bodies.len(), 2);
    assert_eq!(state.bodies[0].uuid, 3);
    assert_eq!(state.bodies[0].handle, handle(2));
    assert_eq!(state.bodies[0].sendback_delay, 1);
    assert_eq!(state.bodies[0].attributes.sleep_step_id, None);
    assert_eq!(state.bodies[1].uuid, 4);
    assert_eq!(state.bodies[1].sendback_delay, 0);
    assert_eq!(state.bodies[1].attributes.sleep_step_id, Some(30));
    // Of those that stay, the one that lies beyond the region is published.
    assert_eq!(outcome.watched.objects, vec![(3, Aabb { mins: [49, 9, 9], maxs: [51, 11, 11] })]);
}

#[test]
fn of_a_body_that_arrives_twice_the_last_instance_stays() {
    let mut state = simulator(cell(0, 0, 0), &[(1, 0, RigidBodyType::Dynamic), (2, 1, RigidBodyType::Dynamic)]);
    state.step_id = 4;
    let mut pending = vec![
        body(2, 3, RigidBodyType::Dynamic),
        body(9, 5, RigidBodyType::Dynamic),
        body(3, 4, RigidBodyType::Dynamic),
        body(2, 4, RigidBodyType::Dynamic),
    ];
    let due = resolve_pending_assignments(&state, &mut pending);
    assert_eq!(due.iter().map(|b| (b.uuid, b.warm.timestamp)).collect::<Vec<_>>(), vec![(2, 3), (3, 4), (2, 4)]);
    assert_eq!(pending.iter().map(|b| b.uuid).collect::<Vec<_>>(), vec![9]);
    let superseded = adopt_bodies(&mut state, &due, &vec![handle(10), handle(11), handle(12)]);
    // The body 2 was there, entered, and entered again: two instances are gone.
    assert_eq!(superseded, vec![handle(1), handle(10)]);
    let held: Vec<_> = state.bodies.iter().map(|r| (r.uuid, r.handle)).collect();
    assert_eq!(held, vec![(1, handle(0)), (3, handle(11)), (2, handle(12))]);
    assert_eq!(state.step_id, 4);
    // Nothing is lost: each body that waited is in the engine or waits on.
    for uuid in [2u128, 3, 9] {
        let live = state.bodies.iter().filter(|r| r.uuid == uuid).count();
        let waits = pending.iter().filter(|b| b.uuid == uuid).count();
        assert_eq!(live + waits, 1);
    }
}
