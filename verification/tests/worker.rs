use steadyum::api_types::messages::{BodyAssignment, RunnerMessage};
use steadyum::api_types::objects::{
    ClientBodyObject, ClientBodyObjectSet, ColdBodyObject, RigidBodyType, WarmBodyObject,
    WatchedObjects,
};
use steadyum::api_types::partitionner::SceneUuid;
use steadyum::api_types::simulation::SimulationBounds;
use steadyum::geometry::Aabb;
use steadyum::runner::neighbors::{NeighborRunner, Neighbors};
use steadyum::runner::storage::{
    filter_object_set, parse_client_objects_query, parse_watch_query,
};
use steadyum::runner::watch::{init_watched_neighbors, WatchedNeighbor};
use steadyum::runner::{AppState, WorkerCommand};

fn cell(x: i64, y: i64, z: i64) -> SimulationBounds {
    SimulationBounds { mins: [x, y, z], maxs: [x + 100, y + 100, z + 100] }
}

fn body(uuid: u128) -> BodyAssignment {
    BodyAssignment {
        uuid,
        warm: WarmBodyObject { timestamp: 0, position: [0; 7], linvel: [0; 3], angvel: [0; 3] },
        cold: ColdBodyObject { body_type: RigidBodyType::Dynamic, density: 0, shape: vec![], animations: vec![] },
    }
}

fn island(region: SimulationBounds, uuids: &[u128]) -> RunnerMessage {
    RunnerMessage::AssignIsland {
        scene: SceneUuid(7),
        region,
        bodies: uuids.iter().map(|u| body(*u)).collect(),
        impulse_joints: vec![],
    }
}

fn object(uuid: u128, sleep_start_frame: Option<u64>) -> ClientBodyObject {
    ClientBodyObject {
        uuid,
        position: [1; 7],
        shape: vec![uuid as u8],
        body_type: RigidBodyType::Dynamic,
        sleep_start_frame,
    }
}

fn worker_with_regions(regions: &[SimulationBounds]) -> AppState {
    let mut worker = AppState::new(SceneUuid(7), 42);
    for r in regions.iter() {
        worker.handle_message(island(*r, &[1]));
    }
    worker
}

#[test]
fn an_island_starts_the_simulator_of_its_region() {
    let mut worker = AppState::new(SceneUuid(7), 42);
    let commands = worker.handle_message(island(cell(0, 0, 0), &[1, 2]));
    assert_eq!(commands.len(), 2);
    assert!(matches!(commands[0], WorkerCommand::SpawnRegion { region } if region == cell(0, 0, 0)));
    match &commands[1] {
        WorkerCommand::Send { region, message: RunnerMessage::AssignIsland { bodies, .. } } => {
            assert_eq!(*region, cell(0, 0, 0));
            assert_eq!(bodies.iter().map(|b| b.uuid).collect::<Vec<_>>(), vec![1, 2]);
        }
        _ => panic!("the island goes to the simulator"),
    }
    assert!(worker.has_region(cell(0, 0, 0)));
    let again = worker.handle_message(island(cell(0, 0, 0), &[3]));
    assert_eq!(again.len(), 1);
    assert!(matches!(again[0], WorkerCommand::Send { .. }));
    assert_eq!(worker.local_regions(), vec![cell(0, 0, 0)]);
}

#[test]
fn a_step_goes_to_every_simulator_and_is_acknowledged_when_all_have_finished() {
    let mut worker = worker_with_regions(&[cell(0, 0, 0), cell(100, 0, 0), cell(0, 100, 0)]);
    let commands = worker.handle_message(RunnerMessage::Step { step_id: 4 });
    assert_eq!(commands.len(), 3);
    // Each simulator is told once; in which order is not fixed.
    let mut told = Vec::new();
    for c in commands.iter() {
        match c {
            WorkerCommand::Send { region, message: RunnerMessage::Step { step_id: 4 } } => told.push(region.mins),
            _ => panic!("the step goes to the simulators"),
        }
    }
    told.sort();
    assert_eq!(told, vec![[0, 0, 0], [0, 100, 0], [100, 0, 0]]);
    assert_eq!(worker.step_id, 4);
    assert_eq!(worker.pending_acks, 3);
    assert!(worker.handle_message(RunnerMessage::Ack).is_empty());
    assert!(worker.handle_message(RunnerMessage::Ack).is_empty());
    let done = worker.handle_message(RunnerMessage::Ack);
    assert_eq!(done.len(), 1);
    assert!(matches!(done[0], WorkerCommand::AckParent));
    assert_eq!(worker.pending_acks, 0);
    // A finish that nothing waits for is passed over.
    assert!(worker.handle_message(RunnerMessage::Ack).is_empty());
    assert_eq!(worker.pending_acks, 0);
}

#[test]
fn a_worker_without_simulators_acknowledges_a_step_at_once() {
    let mut worker = AppState::new(SceneUuid(7), 42);
    let commands = worker.handle_message(RunnerMessage::Step { step_id: 1 });
    assert_eq!(commands.len(), 1);
    assert!(matches!(commands[0], WorkerCommand::AckParent));
    assert_eq!(worker.step_id, 1);
}

#[test]
fn static_bodies_are_kept_for_all_simulators() {
    let mut worker = worker_with_regions(&[cell(0, 0, 0)]);
    let commands = worker.handle_message(RunnerMessage::AssignStaticBodies { bodies: vec![body(9), body(8)] });
    assert!(commands.is_empty());
    worker.handle_message(RunnerMessage::AssignStaticBodies { bodies: vec![body(7)] });
    assert_eq!(worker.static_bodies.iter().map(|b| b.uuid).collect::<Vec<_>>(), vec![9, 8, 7]);
}

#[test]
fn a_request_for_snapshots_goes_to_every_simulator() {
    let mut worker = worker_with_regions(&[cell(0, 0, 0), cell(100, 0, 0)]);
    let commands = worker.handle_message(RunnerMessage::SyncClientObjects);
    assert_eq!(commands.len(), 2);
    assert!(commands.iter().all(|c| matches!(c, WorkerCommand::Send { message: RunnerMessage::SyncClientObjects, .. })));
    let mut told: Vec<_> = commands
        .iter()
        .map(|c| match c {
            WorkerCommand::Send { region, .. } => region.mins,
            _ => panic!("the request goes to the simulators"),
        })
        .collect();
    told.sort();
    assert_eq!(told, vec![[0, 0, 0], [100, 0, 0]]);
    let mut listed: Vec<_> = worker.local_regions().iter().map(|r| (r.mins, r.maxs)).collect();
    listed.sort();
    assert_eq!(listed, vec![([0, 0, 0], [100, 100, 100]), ([100, 0, 0], [200, 100, 100])]);
}

#[test]
fn exit_stops_the_worker_and_a_second_exit_does_nothing() {
    let mut worker = worker_with_regions(&[cell(0, 0, 0), cell(100, 0, 0)]);
    let commands = worker.handle_message(RunnerMessage::Exit);
    assert_eq!(commands.len(), 3);
    let mut told = Vec::new();
    for c in commands[..2].iter() {
        match c {
            WorkerCommand::Send { region, message: RunnerMessage::Exit } => told.push(region.mins),
            _ => panic!("the order to stop goes to the simulators first"),
        }
    }
    told.sort();
    assert_eq!(told, vec![[0, 0, 0], [100, 0, 0]]);
    assert!(matches!(commands[2], WorkerCommand::Stop));
    assert!(worker.exit);
    assert!(worker.handle_message(RunnerMessage::Exit).is_empty());
    assert!(worker.handle_message(RunnerMessage::Step { step_id: 9 }).is_empty());
    assert!(worker.handle_message(island(cell(0, 100, 0), &[5])).is_empty());
    assert!(worker.exit);
    assert_eq!(worker.step_id, 0);
    assert_eq!(worker.regions.len(), 2);
}

#[test]
fn what_a_simulator_publishes_replaces_what_it_published_before() {
    let mut worker = AppState::new(SceneUuid(7), 42);
    let first = WatchedObjects { objects: vec![(1, Aabb { mins: [0; 3], maxs: [1; 3] })] };
    let second = WatchedObjects { objects: vec![(2, Aabb { mins: [2; 3], maxs: [3; 3] })] };
    worker.publish(cell(0, 0, 0), first, ClientBodyObjectSet { timestamp: 10, objects: vec![object(1, None)] });
    worker.publish(cell(100, 0, 0), WatchedObjects::default(), ClientBodyObjectSet::default());
    worker.publish(cell(0, 0, 0), second, ClientBodyObjectSet { timestamp: 20, objects: vec![object(2, None)] });
    assert_eq!(worker.watch_sets.len(), 2);
    assert_eq!(worker.watched_objects(cell(0, 0, 0)).objects, vec![(2, Aabb { mins: [2; 3], maxs: [3; 3] })]);
    assert!(worker.watched_objects(cell(100, 0, 0)).objects.is_empty());
    assert!(worker.watched_objects(cell(0, 100, 0)).objects.is_empty());
    let shown = worker.answer_client_objects_query("0_0_0__100_100_100&0").unwrap();
    assert_eq!(shown.timestamp, 20);
    assert_eq!(shown.objects.iter().map(|o| o.uuid).collect::<Vec<_>>(), vec![2]);
}

#[test]
fn requests_for_watch_sets() {
    let mut worker = AppState::new(SceneUuid(7), 42);
    let set = WatchedObjects { objects: vec![(1, Aabb { mins: [0; 3], maxs: [1; 3] })] };
    worker.publish(cell(0, 0, 0), set, ClientBodyObjectSet::default());
    assert_eq!(worker.answer_watch_query("0_0_0__100_100_100").unwrap().objects.len(), 1);
    assert!(worker.answer_watch_query("100_0_0__200_100_100").unwrap().objects.is_empty());
    assert!(worker.answer_watch_query("somewhere").is_none());
    assert!(worker.answer_watch_query("").is_none());
    assert_eq!(parse_watch_query("0_0_0__100_100_100"), Some(cell(0, 0, 0)));
}

#[test]
fn a_snapshot_leaves_out_what_has_long_been_asleep() {
    let set = ClientBodyObjectSet {
        timestamp: 70,
        objects: vec![object(1, None), object(2, Some(30)), object(3, Some(50)), object(4, Some(70)), object(5, Some(0))],
    };
    let shown = |step: u64| filter_object_set(step, &set).objects.iter().map(|o| o.uuid).collect::<Vec<_>>();
    assert_eq!(shown(0), vec![1, 2, 3, 4, 5]);
    assert_eq!(shown(1), vec![1, 2, 3, 4]);
    assert_eq!(shown(30), vec![1, 2, 3, 4]);
    assert_eq!(shown(31), vec![1, 3, 4]);
    assert_eq!(shown(70), vec![1, 4]);
    assert_eq!(shown(71), vec![1]);
    let kept = filter_object_set(31, &set);
    assert_eq!(kept.timestamp, 70);
    assert_eq!(kept.objects[1].shape, vec![3]);
    assert_eq!(kept.objects[1].sleep_start_frame, Some(50));
    for o in kept.objects.iter() {
        assert!(o.sleep_start_frame.map_or(true, |f| f >= 31));
    }
}

#[test]
fn a_pyramid_that_has_settled_is_no_longer_sent() {
    let objects: Vec<ClientBodyObject> = (0..100u128).map(|i| object(i, Some(120))).collect();
    let mut worker = AppState::new(SceneUuid(7), 42);
    worker.publish(cell(0, 0, 0), WatchedObjects::default(), ClientBodyObjectSet { timestamp: 200, objects });
    let region = cell(0, 0, 0);
    let key = region.runner_client_objects_key(SceneUuid(7), 120);
    let params = key.split('?').nth(1).unwrap();
    assert_eq!(worker.answer_client_objects_query(params).unwrap().objects.len(), 100);
    let later = region.runner_client_objects_key(SceneUuid(7), 121);
    let params = later.split('?').nth(1).unwrap();
    let shown = worker.answer_client_objects_query(params).unwrap();
    assert!(shown.objects.is_empty());
    assert_eq!(shown.timestamp, 200);
}

#[test]
fn requests_for_snapshots_name_a_region_and_a_step() {
    assert_eq!(parse_client_objects_query("0_0_0__100_100_100&12"), Some((cell(0, 0, 0), 12)));
    assert_eq!(parse_client_objects_query("-100_0_0__0_100_100&+7&more"), Some((cell(-100, 0, 0), 7)));
    assert_eq!(
        parse_client_objects_query("0_0_0__100_100_100&18446744073709551615"),
        Some((cell(0, 0, 0), u64::MAX))
    );
    for bad in [
        "",
        "0_0_0__100_100_100",
        "0_0_0__100_100_100&",
        "0_0_0__100_100_100&-1",
        "0_0_0__100_100_100&1.5",
        "0_0_0__100_100_100&18446744073709551616",
        "&3",
        "region&3",
    ] {
        assert_eq!(parse_client_objects_query(bad), None, "{}", bad);
    }
    let worker = AppState::new(SceneUuid(7), 42);
    assert!(worker.answer_client_objects_query("0_0_0__100_100_100").is_none());
    let empty = worker.answer_client_objects_query("0_0_0__100_100_100&3").unwrap();
    assert_eq!(empty.timestamp, 0);
    assert!(empty.objects.is_empty());
}

#[test]
fn the_parameters_of_a_key_are_read_back() {
    let samples = [cell(0, 0, 0), cell(-300, 200, -100), SimulationBounds::default()];
    for region in samples.iter() {
        for step in [0u64, 1, 10, 12345, u64::MAX] {
            let key = region.runner_client_objects_key(SceneUuid(9), step);
            let params = key.split('?').nth(1).unwrap();
            assert_eq!(parse_client_objects_query(params), Some((*region, step)));
        }
        let key = region.watch_kvs_key(5);
        assert_eq!(parse_watch_query(key.split('?').nth(1).unwrap()), Some(*region));
    }
}

#[test]
fn neighbours_in_the_same_worker_are_reached_locally() {
    let mut neighbors = Neighbors::new();
    let local = vec![cell(100, 0, 0)];
    let asked = vec![cell(100, 0, 0), cell(0, 100, 0), cell(0, 100, 0), cell(0, 0, 100)];
    let unknown = neighbors.spawn_neighbors(&local, &asked);
    assert_eq!(unknown, vec![cell(0, 100, 0), cell(0, 0, 100)]);
    assert_eq!(neighbors.runners, vec![(cell(100, 0, 0), NeighborRunner::Local)]);
    neighbors.runner_allocated(cell(0, 100, 0), 42, 42);
    neighbors.runner_allocated(cell(0, 0, 100), 43, 42);
    // What is known stays as it is.
    neighbors.runner_allocated(cell(0, 0, 100), 44, 42);
    assert_eq!(neighbors.fetch_neighbor(cell(100, 0, 0)), NeighborRunner::Local);
    assert_eq!(neighbors.fetch_neighbor(cell(0, 100, 0)), NeighborRunner::Local);
    assert_eq!(neighbors.fetch_neighbor(cell(0, 0, 100)), NeighborRunner::Remote { uuid: 43 });
    assert!(neighbors.spawn_neighbors(&local, &asked).is_empty());
    assert_eq!(neighbors.runners.len(), 3);
}

#[test]
fn the_watched_neighbours_of_a_simulator() {
    let mut neighbors = Neighbors::new();
    let region = cell(0, 0, 0);
    neighbors.runner_allocated(cell(100, 0, 0), 42, 42);
    neighbors.runner_allocated(cell(0, 100, 0), 43, 42);
    neighbors.runner_allocated(cell(0, 0, 100), 42, 42);
    let watched = init_watched_neighbors(&neighbors, region);
    assert!(matches!(watched[0], WatchedNeighbor::Local { bounds } if bounds == cell(100, 0, 0)));
    assert!(matches!(watched[1], WatchedNeighbor::Remote { uuid: 43, bounds } if bounds == cell(0, 100, 0)));
    assert!(matches!(watched[2], WatchedNeighbor::Local { bounds } if bounds == cell(0, 0, 100)));
}

#[test]
fn a_snapshot_made_between_steps_replaces_the_one_before() {
    let mut worker = AppState::new(SceneUuid(7), 42);
    let set = WatchedObjects { objects: vec![(1, Aabb { mins: [0; 3], maxs: [1; 3] })] };
    worker.publish(cell(0, 0, 0), set, ClientBodyObjectSet { timestamp: 10, objects: vec![object(1, None)] });
    worker.publish_client_objects(
        cell(0, 0, 0),
        ClientBodyObjectSet { timestamp: 10, objects: vec![object(1, None), object(2, Some(3))] },
    );
    let shown = worker.answer_client_objects_query("0_0_0__100_100_100&0").unwrap();
    assert_eq!(shown.timestamp, 10);
    assert_eq!(shown.objects.iter().map(|o| o.uuid).collect::<Vec<_>>(), vec![1, 2]);
    let shown = worker.answer_client_objects_query("0_0_0__100_100_100&4").unwrap();
    assert_eq!(shown.objects.iter().map(|o| o.uuid).collect::<Vec<_>>(), vec![1]);
    // The watch set is as it was, and nothing is kept for other regions.
    assert_eq!(worker.watched_objects(cell(0, 0, 0)).objects.len(), 1);
    assert_eq!(worker.watch_sets.len(), 1);
    assert_eq!(worker.client_object_sets.len(), 1);
    let none = worker.answer_client_objects_query("100_0_0__200_100_100&0").unwrap();
    assert_eq!(none.timestamp, 0);
    assert!(none.objects.is_empty());
}
