//! The worker: the process that simulates the regions of one scene on one
//! host, and the simulators that it runs, one for each region.

use crate::api_types::messages::{BodyAssignment, RunnerMessage};
use crate::api_types::objects::{ClientBodyObjectSet, ClientBodyObjectView, WatchedObjects};
use crate::geometry::Aabb;
use crate::api_types::partitionner::SceneUuid;
use crate::api_types::simulation::{parse_region, SimulationBounds};
use crate::runner::shared::{
    add_region, client_sets_held, holds_region, is_listing, keep_client_set, keep_watch_set,
    kept_client_set, kept_watch_set, listed_regions, no_client_sets, no_regions, no_watch_sets,
    regions_held, watch_sets_held,
};
use crate::runner::storage::{
    client_objects_query, filter_object_set, fresh_objects, parse_client_objects_query,
    parse_watch_query,
};
use vstd::prelude::*;

pub mod arrival;
pub mod cli;
pub mod connected_components;
pub mod hysteresis;
pub mod neighbors;
pub mod ownership;
pub mod physics;
pub mod region_assignment;
pub mod runner;
pub mod shared;
pub mod step;
pub mod storage;
pub mod watch;

verus! {

/// The state of a worker.
pub struct AppState {
    pub scene: SceneUuid,
    pub uuid: u128,
    /// The regions that have a simulator in this worker.
    pub regions: dashmap::DashMap<([i64; 3], [i64; 3]), ()>,
    /// The step that was started last.
    pub step_id: u64,
    /// How many simulators have not finished that step yet.
    pub pending_acks: u64,
    /// The static bodies of the scene: they only ever grow in number.
    pub static_bodies: Vec<BodyAssignment>,
    /// The watch set that each simulator published last.
    pub watch_sets: dashmap::DashMap<([i64; 3], [i64; 3]), WatchedObjects>,
    /// The snapshot that each simulator published last.
    pub client_object_sets: dashmap::DashMap<([i64; 3], [i64; 3]), ClientBodyObjectSet>,
    /// Whether the worker has been told to stop.
    pub exit: bool,
}

/// What a worker is to do about a message.
pub enum WorkerCommand {
    /// Start a simulator for the region.
    SpawnRegion { region: SimulationBounds },
    /// Hand the message to the simulator of the region.
    Send { region: SimulationBounds, message: RunnerMessage },
    /// Tell the coordinator of this host that the step is finished.
    AckParent,
    /// Stop reading messages.
    Stop,
}

/// The same message `message` for the simulator of each of `regions`, in order.
pub open spec fn broadcast_step(regions: Seq<SimulationBounds>, step_id: u64) -> Seq<WorkerCommand> {
    regions.map_values(
        |region: SimulationBounds|
            WorkerCommand::Send { region, message: RunnerMessage::Step { step_id } },
    )
}

/// A request for the snapshot for the simulator of each of `regions`, in order.
pub open spec fn broadcast_sync(regions: Seq<SimulationBounds>) -> Seq<WorkerCommand> {
    regions.map_values(
        |region: SimulationBounds|
            WorkerCommand::Send { region, message: RunnerMessage::SyncClientObjects },
    )
}

/// The order to stop for the simulator of each of `regions`, in order.
pub open spec fn broadcast_exit(regions: Seq<SimulationBounds>) -> Seq<WorkerCommand> {
    regions.map_values(
        |region: SimulationBounds| WorkerCommand::Send { region, message: RunnerMessage::Exit },
    )
}

/// The watch set that is kept for `region` among `sets`: an empty one where none is.
pub open spec fn watch_set_of(
    sets: Map<SimulationBounds, Seq<(u128, Aabb)>>,
    region: SimulationBounds,
) -> Seq<(u128, Aabb)> {
    if sets.dom().contains(region) {
        sets[region]
    } else {
        Seq::empty()
    }
}

/// The snapshot that is kept for `region` among `sets`, as a viewer that has
/// seen the step `step_id` is shown it: without the bodies that have been
/// asleep since before that step. An empty one, of time 0, where none is kept.
pub open spec fn client_set_shown(
    sets: Map<SimulationBounds, (u64, Seq<ClientBodyObjectView>)>,
    region: SimulationBounds,
    step_id: u64,
) -> (u64, Seq<ClientBodyObjectView>) {
    if sets.dom().contains(region) {
        (sets[region].0, fresh_objects(sets[region].1, step_id, sets[region].1.len()))
    } else {
        (0, Seq::empty())
    }
}

impl AppState {
    /// The worker `uuid` of `scene`, before its first message.
    pub fn new(scene: SceneUuid, uuid: u128) -> (r: Self)
        ensures
            r.scene == scene,
            r.uuid == uuid,
            regions_held(r.regions) == Set::<SimulationBounds>::empty(),
            r.step_id == 0,
            r.pending_acks == 0,
            r.static_bodies@.len() == 0,
            watch_sets_held(r.watch_sets).dom() == Set::<SimulationBounds>::empty(),
            client_sets_held(r.client_object_sets).dom() == Set::<SimulationBounds>::empty(),
            !r.exit,
    {
        Self {
            scene,
            uuid,
            regions: no_regions(),
            step_id: 0,
            pending_acks: 0,
            static_bodies: Vec::new(),
            watch_sets: no_watch_sets(),
            client_object_sets: no_client_sets(),
            exit: false,
        }
    }

    /// Whether `region` has a simulator in this worker.
    pub fn has_region(&self, region: SimulationBounds) -> (r: bool)
        ensures
            r == regions_held(self.regions).contains(region),
    {
        holds_region(&self.regions, region)
    }

    /// The regions that have a simulator in this worker, each once. Their
    /// order is not told, and may differ from one call to the next.
    pub fn local_regions(&self) -> (order: Vec<SimulationBounds>)
        ensures
            is_listing(order@, regions_held(self.regions)),
    {
        listed_regions(&self.regions)
    }

    /// Deals with a message to the worker, and says what is to be done about it.
    ///
    /// An island goes to the simulator of its region, which is started first
    /// if the region has none. Static bodies are kept for all simulators. A
    /// step is handed to every simulator, and acknowledged at once where
    /// there is none. Each simulator that finishes is counted, and when the
    /// last has finished the step is acknowledged. A finish that nothing waits
    /// for is passed over. A request for snapshots and the order to stop go
    /// to every simulator. A worker that has been told to stop does nothing
    /// about any message.
    ///
    /// What goes to every simulator goes to each once; in which order is not told.
    pub fn handle_message(&mut self, message: RunnerMessage) -> (commands: Vec<WorkerCommand>)
        ensures
            final(self).scene == old(self).scene,
            final(self).uuid == old(self).uuid,
            final(self).watch_sets == old(self).watch_sets,
            final(self).client_object_sets == old(self).client_object_sets,
            old(self).exit ==> *final(self) == *old(self) && commands@.len() == 0,
            !old(self).exit ==> match message {
                RunnerMessage::Ack => {
                    &&& final(self).regions == old(self).regions
                    &&& final(self).step_id == old(self).step_id
                    &&& final(self).static_bodies == old(self).static_bodies
                    &&& !final(self).exit
                    &&& old(self).pending_acks == 0 ==> final(self).pending_acks == 0
                        && commands@.len() == 0
                    &&& old(self).pending_acks > 1 ==> final(self).pending_acks == old(self).pending_acks - 1 && commands@.len() == 0
                    &&& old(self).pending_acks == 1 ==> final(self).pending_acks == 0
                        && commands@ == seq![WorkerCommand::AckParent]
                },
                RunnerMessage::AssignStaticBodies { bodies } => {
                    &&& final(self).regions == old(self).regions
                    &&& final(self).step_id == old(self).step_id
                    &&& final(self).pending_acks == old(self).pending_acks
                    &&& final(self).static_bodies@ == old(self).static_bodies@ + bodies@
                    &&& !final(self).exit
                    &&& commands@.len() == 0
                },
                RunnerMessage::AssignIsland { region, .. } => {
                    let had = regions_held(old(self).regions);
                    &&& final(self).step_id == old(self).step_id
                    &&& final(self).pending_acks == old(self).pending_acks
                    &&& final(self).static_bodies == old(self).static_bodies
                    &&& !final(self).exit
                    &&& had.contains(region) ==> final(self).regions == old(self).regions
                        && commands@ == seq![WorkerCommand::Send { region, message }]
                    &&& !had.contains(region) ==> regions_held(final(self).regions) == had.insert(
                        region,
                    ) && commands@ == seq![
                        WorkerCommand::SpawnRegion { region },
                        WorkerCommand::Send { region, message },
                    ]
                },
                RunnerMessage::Step { step_id } => {
                    &&& final(self).regions == old(self).regions
                    &&& final(self).step_id == step_id
                    &&& final(self).static_bodies == old(self).static_bodies
                    &&& !final(self).exit
                    &&& exists|order: Seq<SimulationBounds>| #[trigger]
                        is_listing(order, regions_held(old(self).regions)) && final(self).pending_acks == order.len() && commands@ == broadcast_step(
                            order,
                            step_id,
                        ) + (if order.len() == 0 {
                            seq![WorkerCommand::AckParent]
                        } else {
                            Seq::empty()
                        })
                },
                RunnerMessage::SyncClientObjects => {
                    &&& final(self).regions == old(self).regions
                    &&& final(self).step_id == old(self).step_id
                    &&& final(self).pending_acks == old(self).pending_acks
                    &&& final(self).static_bodies == old(self).static_bodies
                    &&& !final(self).exit
                    &&& exists|order: Seq<SimulationBounds>| #[trigger]
                        is_listing(order, regions_held(old(self).regions)) && commands@
                            == broadcast_sync(order)
                },
                RunnerMessage::Exit => {
                    &&& final(self).regions == old(self).regions
                    &&& final(self).step_id == old(self).step_id
                    &&& final(self).pending_acks == old(self).pending_acks
                    &&& final(self).static_bodies == old(self).static_bodies
                    &&& final(self).exit
                    &&& exists|order: Seq<SimulationBounds>| #[trigger]
                        is_listing(order, regions_held(old(self).regions)) && commands@
                            == broadcast_exit(order).push(WorkerCommand::Stop)
                },
            },
    {
        let mut commands: Vec<WorkerCommand> = Vec::new();
        if self.exit {
            return commands;
        }
        match message {
            RunnerMessage::Ack => {
                if self.pending_acks > 0 {
                    self.pending_acks = self.pending_acks - 1;
                    if self.pending_acks == 0 {
                        commands.push(WorkerCommand::AckParent);
                    }
                }
                assert(old(self).pending_acks == 1 ==> commands@ =~= seq![WorkerCommand::AckParent]);
            },
            RunnerMessage::AssignStaticBodies { bodies } => {
                let mut bodies = bodies;
                self.static_bodies.append(&mut bodies);
            },
            RunnerMessage::AssignIsland { scene, region, bodies, impulse_joints } => {
                let known = self.has_region(region);
                if !known {
                    add_region(&mut self.regions, region);
                    commands.push(WorkerCommand::SpawnRegion { region });
                }
                let ghost first = commands@;
                commands.push(
                    WorkerCommand::Send {
                        region,
                        message: RunnerMessage::AssignIsland { scene, region, bodies, impulse_joints },
                    },
                );
                assert(commands@ =~= first.push(WorkerCommand::Send { region, message }));
                assert(known ==> commands@ =~= seq![WorkerCommand::Send { region, message }]);
                assert(!known ==> commands@ =~= seq![
                    WorkerCommand::SpawnRegion { region },
                    WorkerCommand::Send { region, message },
                ]);
            },
            RunnerMessage::Step { step_id } => {
                self.step_id = step_id;
                let order = self.local_regions();
                let n = order.len();
                self.pending_acks = n as u64;
                let mut i: usize = 0;
                while i < n
                    invariant
                        i <= n,
                        n == order@.len(),
                        commands@ == broadcast_step(order@.take(i as int), step_id),
                    decreases n - i,
                {
                    commands.push(
                        WorkerCommand::Send {
                            region: order[i],
                            message: RunnerMessage::Step { step_id },
                        },
                    );
                    assert(commands@ =~= broadcast_step(order@.take(i + 1), step_id));
                    i += 1;
                }
                assert(order@.take(n as int) =~= order@);
                let ghost sent = commands@;
                // Without a simulator there is nothing to wait for.
                if n == 0 {
                    commands.push(WorkerCommand::AckParent);
                    assert(commands@ =~= sent + seq![WorkerCommand::AckParent]);
                } else {
                    assert(commands@ =~= sent + Seq::<WorkerCommand>::empty());
                }
                assert(is_listing(order@, regions_held(old(self).regions)));
            },
            RunnerMessage::SyncClientObjects => {
                let order = self.local_regions();
                let n = order.len();
                let mut i: usize = 0;
                while i < n
                    invariant
                        i <= n,
                        n == order@.len(),
                        commands@ == broadcast_sync(order@.take(i as int)),
                    decreases n - i,
                {
                    commands.push(
                        WorkerCommand::Send {
                            region: order[i],
                            message: RunnerMessage::SyncClientObjects,
                        },
                    );
                    assert(commands@ =~= broadcast_sync(order@.take(i + 1)));
                    i += 1;
                }
                assert(order@.take(n as int) =~= order@);
                assert(is_listing(order@, regions_held(old(self).regions)));
            },
            RunnerMessage::Exit => {
                self.exit = true;
                let order = self.local_regions();
                let n = order.len();
                let mut i: usize = 0;
                while i < n
                    invariant
                        i <= n,
                        n == order@.len(),
                        commands@ == broadcast_exit(order@.take(i as int)),
                    decreases n - i,
                {
                    commands.push(
                        WorkerCommand::Send { region: order[i], message: RunnerMessage::Exit },
                    );
                    assert(commands@ =~= broadcast_exit(order@.take(i + 1)));
                    i += 1;
                }
                assert(order@.take(n as int) =~= order@);
                commands.push(WorkerCommand::Stop);
                assert(is_listing(order@, regions_held(old(self).regions)));
            },
        }
        commands
    }

    /// Keeps what the simulator of `region` publishes at the end of a step,
    /// in place of what it published before. What the other simulators
    /// published stays.
    pub fn publish(
        &mut self,
        region: SimulationBounds,
        watched: WatchedObjects,
        client_objects: ClientBodyObjectSet,
    )
        ensures
            final(self).scene == old(self).scene,
            final(self).uuid == old(self).uuid,
            final(self).regions == old(self).regions,
            final(self).step_id == old(self).step_id,
            final(self).pending_acks == old(self).pending_acks,
            final(self).static_bodies == old(self).static_bodies,
            final(self).exit == old(self).exit,
            watch_sets_held(final(self).watch_sets) == watch_sets_held(old(self).watch_sets).insert(
                region,
                watched.objects@,
            ),
            client_sets_held(final(self).client_object_sets) == client_sets_held(
                old(self).client_object_sets,
            ).insert(region, (client_objects.timestamp, client_objects.objects_view())),
    {
        keep_watch_set(&mut self.watch_sets, region, watched);
        keep_client_set(&mut self.client_object_sets, region, client_objects);
    }

    /// Keeps the snapshot that the simulator of `region` has made between two
    /// steps, in place of the one that it published before.
    pub fn publish_client_objects(
        &mut self,
        region: SimulationBounds,
        client_objects: ClientBodyObjectSet,
    )
        ensures
            final(self).scene == old(self).scene,
            final(self).uuid == old(self).uuid,
            final(self).regions == old(self).regions,
            final(self).step_id == old(self).step_id,
            final(self).pending_acks == old(self).pending_acks,
            final(self).static_bodies == old(self).static_bodies,
            final(self).exit == old(self).exit,
            final(self).watch_sets == old(self).watch_sets,
            client_sets_held(final(self).client_object_sets) == client_sets_held(
                old(self).client_object_sets,
            ).insert(region, (client_objects.timestamp, client_objects.objects_view())),
    {
        keep_client_set(&mut self.client_object_sets, region, client_objects);
    }

    /// The watch set that the simulator of `region` published last; an empty
    /// one where it has published none.
    pub fn watched_objects(&self, region: SimulationBounds) -> (r: WatchedObjects)
        ensures
            r.objects@ == watch_set_of(watch_sets_held(self.watch_sets), region),
    {
        match kept_watch_set(&self.watch_sets, region) {
            Some(kept) => kept,
            None => WatchedObjects::default(),
        }
    }

    /// The answer to a request for a watch set. A request whose parameters
    /// name no region gets none.
    pub fn answer_watch_query(&self, params: &str) -> (r: Option<WatchedObjects>)
        ensures
            r.is_some() == parse_region(params@).is_some(),
            r.is_some() ==> r.unwrap().objects@ == watch_set_of(
                watch_sets_held(self.watch_sets),
                parse_region(params@).unwrap(),
            ),
    {
        match parse_watch_query(params) {
            Some(region) => Some(self.watched_objects(region)),
            None => None,
        }
    }

    /// The answer to a request for a snapshot: the snapshot that the
    /// simulator of the region published last, without the bodies that have
    /// been asleep since before the step that the viewer has seen; an empty
    /// one where the simulator has published none. A request whose parameters
    /// name no region and step gets none.
    pub fn answer_client_objects_query(&self, params: &str) -> (r: Option<ClientBodyObjectSet>)
        ensures
            r.is_some() == client_objects_query(params@).is_some(),
            r.is_some() ==> {
                let (region, step_id) = client_objects_query(params@).unwrap();
                &&& (r.unwrap().timestamp, r.unwrap().objects_view()) == client_set_shown(
                    client_sets_held(self.client_object_sets),
                    region,
                    step_id,
                )
                &&& forall|t: int|
                    0 <= t < r.unwrap().objects@.len() ==> match (
                    #[trigger] r.unwrap().objects@[t]).sleep_start_frame {
                        Some(sleep_frame) => sleep_frame >= step_id,
                        None => true,
                    }
            },
    {
        match parse_client_objects_query(params) {
            Some((region, step_id)) => {
                match kept_client_set(&self.client_object_sets, region) {
                    Some(kept) => Some(filter_object_set(step_id, &kept)),
                    None => {
                        let none = ClientBodyObjectSet::default();
                        assert(none.objects_view() =~= Seq::empty());
                        Some(none)
                    },
                }
            },
            None => None,
        }
    }
}

} // verus!
