//! The coordinators: the master, which cuts each scene among the hosts and
//! drives its steps, and the child coordinator of each host.

use crate::api_types::ids::{bytes_reversed, is_random_uuid, random_uuid, uuid_to_u128_le};
use crate::text::{decimal_digits, push_u128};
use crate::api_types::messages::{BodyAssignment, RunnerMessage};
use crate::api_types::objects::{RegionList, SceneList};
use crate::api_types::partitionner::{
    AckRequest, AssignRunnerRequest, AssignRunnerResponse, ChildPartitionner, ClientInputRequest,
    CreateSceneRequest, CreateSceneResponse, ListRegionsRequest,
    RegisterChildRequest, RemoveSceneRequest, SceneUuid, StartStopRequest, StepRequest,
};
use crate::api_types::simulation::SimulationBounds;
use crate::geometry::Aabb;
use crate::partitionner::acks::{AckOutcome, SceneAcks};
use crate::partitionner::geometry::{
    all_bounded, child_for_region, is_child_for, subdivide_domain, subdivided,
};
use vstd::prelude::*;

pub mod acks;
pub mod cli;
pub mod geometry;
pub mod insertion;

verus! {

/// What part a coordinator plays.
#[derive(Copy, Clone, Debug, PartialEq, Eq, Structural)]
pub enum PartitionnerType {
    /// The one coordinator of the cluster: its children are coordinators.
    Master,
    /// The child coordinator of a host: it starts the workers of its host.
    Runner,
    /// Master and child in one, for a cluster of one host.
    Dev,
}

/// A worker that simulates a part of a scene.
#[derive(Copy, Clone, Debug, PartialEq, Eq, Structural)]
pub struct Runner {
    pub uuid: u128,
    pub is_new: bool,
}

/// What a coordinator knows of a scene.
pub struct SceneState {
    pub scene: SceneUuid,
    /// The part of the scene that each worker gets, worker by worker.
    pub children_bounds: Vec<Aabb>,
    /// The workers of the scene, one for each child that has answered.
    pub runners: Vec<Runner>,
    /// The bodies of the scene that do not move.
    pub static_bodies: Vec<BodyAssignment>,
    pub acks: SceneAcks,
}

/// What a coordinator is to do about a request.
pub enum Command {
    /// Ask the child `child` to create the scene for the part `bounds`; the
    /// worker that it answers with is to be handed to `runner_created`.
    CreateSceneOnChild { child: usize, scene: SceneUuid, bounds: Aabb },
    /// Ask the child `child` to remove the scene.
    RemoveSceneOnChild { child: usize, scene: SceneUuid },
    /// Ask the child `child` to run the step.
    StepChild { child: usize, scene: SceneUuid, step_id: u64 },
    /// Tell the parent that the step of the scene is complete on this host.
    AckParent { scene: SceneUuid },
    /// Start a worker process for the scene.
    SpawnRunner { uuid: u128, scene: SceneUuid, dev: bool },
    /// Wait for the process of the worker to end.
    ReapRunner { uuid: u128 },
    /// Put the message on the command queue of the worker.
    SendRunner { uuid: u128, message: RunnerMessage },
}

/// Why a request is refused.
#[derive(Copy, Clone, Debug, PartialEq, Eq, Structural)]
pub enum StatusCode {
    /// The request cannot be served as it stands.
    BadRequest,
}

/// What a coordinator knows of the workers beyond the scenes that it runs.
pub struct LiveRunners {
    /// The scenes that have been removed.
    pub exited: Vec<SceneUuid>,
    /// Which worker simulates which region.
    pub assigned: Vec<AssignRunnerResponse>,
}

/// The state of a coordinator.
pub struct AppState {
    pub my_type: PartitionnerType,
    /// The child coordinators, in the order in which they registered.
    pub children: Vec<ChildPartitionner>,
    pub scenes: Vec<SceneState>,
    pub runners: LiveRunners,
}

/// The arguments that a worker of `scene` is started with under the name
/// `uuid`: both names as numbers in little-endian order, as the worker reads
/// them, and `--dev` for a worker that runs without a router.
pub fn runner_arguments(uuid: u128, scene: SceneUuid, dev: bool) -> (args: Vec<String>)
    ensures
        args@.len() == if dev { 5int } else { 4int },
        args@[0]@ == "--uuid"@,
        args@[1]@ == decimal_digits(bytes_reversed(uuid) as nat),
        args@[2]@ == "--scene-uuid"@,
        args@[3]@ == decimal_digits(bytes_reversed(scene.0) as nat),
        dev ==> args@[4]@ == "--dev"@,
{
    let mut args: Vec<String> = Vec::new();
    args.push(String::from_str("--uuid"));
    let mut name = String::new();
    push_u128(&mut name, uuid_to_u128_le(uuid));
    args.push(name);
    args.push(String::from_str("--scene-uuid"));
    let mut scene_name = String::new();
    push_u128(&mut scene_name, uuid_to_u128_le(scene.0));
    args.push(scene_name);
    if dev {
        args.push(String::from_str("--dev"));
    }
    args
}

/// The order to run the step `step_id` of `scene`, for each of `n` children.
pub open spec fn step_children(n: nat, scene: SceneUuid, step_id: u64) -> Seq<Command> {
    Seq::new(n, |i: int| Command::StepChild { child: i as usize, scene, step_id })
}

/// The order to run the step `step_id`, for each of `runners`.
pub open spec fn step_runners(runners: Seq<Runner>, step_id: u64) -> Seq<Command> {
    runners.map_values(
        |r: Runner| Command::SendRunner { uuid: r.uuid, message: RunnerMessage::Step { step_id } },
    )
}

/// The order to stop, for each of `runners`; where the coordinator started
/// the workers itself, it also waits for each process to end.
pub open spec fn exit_runners(runners: Seq<Runner>, reaps: bool, n: nat) -> Seq<Command>
    decreases n,
{
    if n == 0 {
        Seq::empty()
    } else {
        let before = exit_runners(runners, reaps, (n - 1) as nat).push(
            Command::SendRunner { uuid: runners[n - 1].uuid, message: RunnerMessage::Exit },
        );
        if reaps {
            before.push(Command::ReapRunner { uuid: runners[n - 1].uuid })
        } else {
            before
        }
    }
}

/// The order to remove `scene`, for each of `n` children.
pub open spec fn remove_on_children(n: nat, scene: SceneUuid) -> Seq<Command> {
    Seq::new(n, |i: int| Command::RemoveSceneOnChild { child: i as usize, scene })
}

/// The order to create `scene`, for each child with its part.
pub open spec fn create_on_children(boxes: Seq<Aabb>, scene: SceneUuid) -> Seq<Command> {
    Seq::new(
        boxes.len(),
        |i: int| Command::CreateSceneOnChild { child: i as usize, scene, bounds: boxes[i] },
    )
}

impl AppState {
    /// Whether the coordinator drives the steps of its scenes itself.
    pub open spec fn drives(&self) -> bool {
        self.my_type != PartitionnerType::Runner
    }

    /// Whether no scene is listed twice, no region of a scene is assigned
    /// twice, and the parts of each scene are within the range of coordinates.
    pub open spec fn wf(&self) -> bool {
        &&& forall|i: int, j: int|
            0 <= i < j < self.scenes@.len() ==> self.scenes@[i].scene != self.scenes@[j].scene
        &&& forall|i: int|
            0 <= i < self.scenes@.len() ==> all_bounded(
                (#[trigger] self.scenes@[i]).children_bounds@,
            )
        &&& forall|i: int, j: int|
            0 <= i < j < self.runners.assigned@.len() ==> !(self.runners.assigned@[i].scene
                == self.runners.assigned@[j].scene && self.runners.assigned@[i].region == self.runners.assigned@[j].region)
    }

    /// Whether the coordinator runs `scene`.
    pub open spec fn has_scene(&self, scene: SceneUuid) -> bool {
        exists|i: int| 0 <= i < self.scenes@.len() && (#[trigger] self.scenes@[i]).scene == scene
    }

    /// Whether `scene` has been removed.
    pub open spec fn is_exited(&self, scene: SceneUuid) -> bool {
        self.runners.exited@.contains(scene)
    }

    /// Whether the region `region` of `scene` is assigned to the worker `uuid`.
    pub open spec fn is_assigned(&self, scene: SceneUuid, region: SimulationBounds, uuid: u128) -> bool {
        exists|i: int|
            0 <= i < self.runners.assigned@.len() && (#[trigger] self.runners.assigned@[i]).scene == scene
                && self.runners.assigned@[i].region == region && self.runners.assigned@[i].uuid == uuid
    }

    /// Whether a region of `scene` is assigned.
    pub open spec fn has_assignment(&self, scene: SceneUuid) -> bool {
        exists|i: int| 0 <= i < self.runners.assigned@.len() && (#[trigger] self.runners.assigned@[i]).scene == scene
    }

    /// A coordinator that plays the part `my_type`, without children or scenes.
    pub fn with_type(my_type: PartitionnerType) -> (r: Self)
        ensures
            r.wf(),
            r.my_type == my_type,
            r.children@.len() == 0,
            r.scenes@.len() == 0,
            r.runners.exited@.len() == 0,
            r.runners.assigned@.len() == 0,
    {
        Self {
            my_type,
            children: Vec::new(),
            scenes: Vec::new(),
            runners: LiveRunners { exited: Vec::new(), assigned: Vec::new() },
        }
    }

    /// Where `scene` is listed, if the coordinator runs it.
    pub fn find_scene(&self, scene: SceneUuid) -> (r: Option<usize>)
        ensures
            r.is_some() == self.has_scene(scene),
            r.is_some() ==> r.unwrap() < self.scenes@.len() && self.scenes@[r.unwrap() as int].scene
                == scene,
    {
        let mut i: usize = 0;
        while i < self.scenes.len()
            invariant
                i <= self.scenes@.len(),
                forall|j: int| 0 <= j < i ==> (#[trigger] self.scenes@[j]).scene != scene,
            decreases self.scenes@.len() - i,
        {
            if self.scenes[i].scene == scene {
                return Some(i);
            }
            i += 1;
        }
        None
    }

    /// Whether `scene` has been removed.
    pub fn has_exited(&self, scene: SceneUuid) -> (r: bool)
        ensures
            r == self.is_exited(scene),
    {
        let mut i: usize = 0;
        while i < self.runners.exited.len()
            invariant
                i <= self.runners.exited@.len(),
                forall|j: int| 0 <= j < i ==> self.runners.exited@[j] != scene,
            decreases self.runners.exited@.len() - i,
        {
            if self.runners.exited[i] == scene {
                return true;
            }
            i += 1;
        }
        false
    }

    /// Takes note of a child coordinator. It takes part in the scenes that
    /// are created from now on.
    pub fn register_child(&mut self, payload: RegisterChildRequest)
        requires
            old(self).wf(),
        ensures
            final(self).wf(),
            final(self).my_type == old(self).my_type,
            final(self).children@ == old(self).children@.push(payload.child),
            final(self).scenes == old(self).scenes,
            final(self).runners.exited == old(self).runners.exited,
            final(self).runners.assigned == old(self).runners.assigned,
    {
        self.children.push(payload.child);
    }

    /// The scenes that the coordinator runs.
    pub fn list_scenes(&self) -> (r: SceneList)
        ensures
            r.scenes@ == self.scenes@.map_values(|s: SceneState| s.scene),
    {
        let mut scenes: Vec<SceneUuid> = Vec::new();
        let mut i: usize = 0;
        while i < self.scenes.len()
            invariant
                i <= self.scenes@.len(),
                scenes@ == self.scenes@.take(i as int).map_values(|s: SceneState| s.scene),
            decreases self.scenes@.len() - i,
        {
            scenes.push(self.scenes[i].scene);
            assert(scenes@ =~= self.scenes@.take(i + 1).map_values(|s: SceneState| s.scene));
            i += 1;
        }
        assert(self.scenes@.take(i as int) =~= self.scenes@);
        SceneList { scenes }
    }

    /// The regions of `scene` that are assigned, among the first `n` assignments.
    pub open spec fn regions_of(&self, scene: SceneUuid, n: nat) -> Seq<SimulationBounds>
        decreases n,
    {
        if n == 0 {
            Seq::empty()
        } else if self.runners.assigned@[n - 1].scene == scene {
            self.regions_of(scene, (n - 1) as nat).push(self.runners.assigned@[n - 1].region)
        } else {
            self.regions_of(scene, (n - 1) as nat)
        }
    }

    /// The regions of the scene that are assigned to a worker.
    pub fn list_regions(&self, payload: &ListRegionsRequest) -> (r: RegionList)
        ensures
            r.bounds@ == self.regions_of(payload.scene, self.runners.assigned@.len()),
    {
        let mut bounds: Vec<SimulationBounds> = Vec::new();
        let mut i: usize = 0;
        while i < self.runners.assigned.len()
            invariant
                i <= self.runners.assigned@.len(),
                bounds@ == self.regions_of(payload.scene, i as nat),
            decreases self.runners.assigned@.len() - i,
        {
            if self.runners.assigned[i].scene == payload.scene {
                bounds.push(self.runners.assigned[i].region);
            }
            i += 1;
        }
        RegionList { bounds }
    }
}

/// Whether `after` is `before` but for the count of acknowledgements of the scene at `i`.
pub open spec fn same_but_acks(before: &AppState, after: &AppState, i: int) -> bool {
    &&& after.my_type == before.my_type
    &&& after.children == before.children
    &&& after.runners.exited == before.runners.exited
    &&& after.runners.assigned == before.runners.assigned
    &&& after.scenes@.len() == before.scenes@.len()
    &&& forall|j: int|
        0 <= j < before.scenes@.len() && j != i ==> #[trigger] after.scenes@[j] == before.scenes@[j]
    &&& 0 <= i < before.scenes@.len() ==> {
        &&& after.scenes@[i].scene == before.scenes@[i].scene
        &&& after.scenes@[i].children_bounds == before.scenes@[i].children_bounds
        &&& after.scenes@[i].runners == before.scenes@[i].runners
        &&& after.scenes@[i].static_bodies == before.scenes@[i].static_bodies
    }
}

impl AppState {
    /// To how many receivers a step of the scene at `i` is handed: to the
    /// children of a master, else to the workers of the scene.
    pub open spec fn fanout(&self, i: int) -> u64 {
        if self.my_type == PartitionnerType::Master {
            self.children@.len() as u64
        } else {
            self.scenes@[i].runners@.len() as u64
        }
    }

    /// What is done to run the step `step_id` of the scene at `i`: a master
    /// asks each child, any other coordinator tells each worker of the scene.
    /// A child coordinator without a worker for the scene tells its parent at
    /// once that the step is complete.
    pub open spec fn step_commands(&self, i: int, step_id: u64) -> Seq<Command> {
        let scene = self.scenes@[i].scene;
        if self.my_type == PartitionnerType::Master {
            step_children(self.children@.len(), scene, step_id)
        } else if self.my_type == PartitionnerType::Runner && self.scenes@[i].runners@.len() == 0 {
            seq![Command::AckParent { scene }]
        } else {
            step_runners(self.scenes@[i].runners@, step_id)
        }
    }

    /// Hands the step `step_id` of the scene at `i` to its receivers.
    fn start_step(&mut self, i: usize, step_id: u64) -> (commands: Vec<Command>)
        requires
            old(self).wf(),
            i < old(self).scenes@.len(),
        ensures
            final(self).wf(),
            same_but_acks(old(self), final(self), i as int),
            final(self).scenes@[i as int].acks == old(self).scenes@[i as int].acks.after_step(
                step_id,
                old(self).fanout(i as int),
            ),
            commands@ == old(self).step_commands(i as int, step_id),
    {
        let scene = self.scenes[i].scene;
        let mut commands: Vec<Command> = Vec::new();
        let mut acks = self.scenes[i].acks;
        match self.my_type {
            PartitionnerType::Master => {
                let n = self.children.len();
                acks.begin_step(step_id, n as u64);
                let mut c: usize = 0;
                while c < n
                    invariant
                        c <= n,
                        commands@ == step_children(c as nat, scene, step_id),
                    decreases n - c,
                {
                    commands.push(Command::StepChild { child: c, scene, step_id });
                    assert(commands@ =~= step_children((c + 1) as nat, scene, step_id));
                    c += 1;
                }
            },
            _ => {
                let n = self.scenes[i].runners.len();
                acks.begin_step(step_id, n as u64);
                if n == 0 && self.my_type == PartitionnerType::Runner {
                    // Without a worker there is nothing to wait for.
                    commands.push(Command::AckParent { scene });
                    assert(commands@ =~= seq![Command::AckParent { scene }]);
                } else {
                    let mut r: usize = 0;
                    while r < n
                        invariant
                            r <= n,
                            i < self.scenes@.len(),
                            n == self.scenes@[i as int].runners@.len(),
                            commands@ == step_runners(
                                self.scenes@[i as int].runners@.take(r as int),
                                step_id,
                            ),
                        decreases n - r,
                    {
                        commands.push(
                            Command::SendRunner {
                                uuid: self.scenes[i].runners[r].uuid,
                                message: RunnerMessage::Step { step_id },
                            },
                        );
                        assert(commands@ =~= step_runners(
                            self.scenes@[i as int].runners@.take(r + 1),
                            step_id,
                        ));
                        r += 1;
                    }
                    assert(self.scenes@[i as int].runners@.take(n as int)
                        =~= self.scenes@[i as int].runners@);
                }
            },
        }
        set_acks(&mut self.scenes, i, acks);
        commands
    }

    /// Runs the step `step_id` of the scene: hands it to those who simulate
    /// the scene, and expects an acknowledgement of each. Nothing is done
    /// about a scene that the coordinator does not run, nor by a coordinator
    /// that drives the scene while the scene rests.
    pub fn step(&mut self, payload: StepRequest) -> (commands: Vec<Command>)
        requires
            old(self).wf(),
        ensures
            final(self).wf(),
            !old(self).has_scene(payload.scene) ==> *final(self) == *old(self) && commands@.len()
                == 0,
            forall|i: int|
                0 <= i < old(self).scenes@.len() && (#[trigger] old(self).scenes@[i]).scene
                    == payload.scene ==> {
                    if old(self).drives() && !old(self).scenes@[i].acks.running {
                        *final(self) == *old(self) && commands@.len() == 0
                    } else {
                        &&& same_but_acks(old(self), final(self), i)
                        &&& final(self).scenes@[i].acks == old(self).scenes@[i].acks.after_step(
                            payload.step_id,
                            old(self).fanout(i),
                        )
                        &&& commands@ == old(self).step_commands(i, payload.step_id)
                    }
                },
    {
        match self.find_scene(payload.scene) {
            Some(at) => {
                proof {
                    self.lemma_scene_unique(at as int);
                }
                if self.my_type != PartitionnerType::Runner && !self.scenes[at].acks.running {
                    // The scene rests.
                    Vec::new()
                } else {
                    self.start_step(at, payload.step_id)
                }
            },
            None => Vec::new(),
        }
    }

    /// The scene at `at` is listed nowhere else.
    pub proof fn lemma_scene_unique(&self, at: int)
        requires
            self.wf(),
            0 <= at < self.scenes@.len(),
        ensures
            forall|i: int|
                0 <= i < self.scenes@.len() && (#[trigger] self.scenes@[i]).scene
                    == self.scenes@[at].scene ==> i == at,
    {
        assert forall|i: int|
            0 <= i < self.scenes@.len() && (#[trigger] self.scenes@[i]).scene
                == self.scenes@[at].scene implies i == at by {
            if i < at {
                assert(self.scenes@[i].scene != self.scenes@[at].scene);
            } else if at < i {
                assert(self.scenes@[at].scene != self.scenes@[i].scene);
            }
        }
    }

    /// Counts an acknowledgement of the step of the scene that runs.
    ///
    /// When the last acknowledgement is in, a coordinator that drives the
    /// scene starts the next step, if the clients have asked for it and the
    /// scene is running, and lets the scene rest if they have not; a child
    /// coordinator tells its parent. An acknowledgement that is not due, or
    /// for a scene that the coordinator does not run, is passed over.
    pub fn ack(&mut self, payload: AckRequest) -> (commands: Vec<Command>)
        requires
            old(self).wf(),
        ensures
            final(self).wf(),
            !old(self).has_scene(payload.scene) ==> *final(self) == *old(self) && commands@.len()
                == 0,
            forall|i: int|
                0 <= i < old(self).scenes@.len() && (#[trigger] old(self).scenes@[i]).scene
                    == payload.scene ==> {
                    let (counted, outcome) = old(self).scenes@[i].acks.after_ack(
                        old(self).drives(),
                    );
                    &&& same_but_acks(old(self), final(self), i)
                    &&& match outcome {
                        AckOutcome::StartStep(step_id) => {
                            &&& final(self).scenes@[i].acks == counted.after_step(
                                step_id,
                                old(self).fanout(i),
                            )
                            &&& commands@ == old(self).step_commands(i, step_id)
                        },
                        AckOutcome::AckParent => {
                            &&& final(self).scenes@[i].acks == counted
                            &&& commands@ == seq![Command::AckParent { scene: payload.scene }]
                        },
                        _ => {
                            &&& final(self).scenes@[i].acks == counted
                            &&& commands@.len() == 0
                        },
                    }
                },
    {
        match self.find_scene(payload.scene) {
            Some(at) => {
                proof {
                    self.lemma_scene_unique(at as int);
                }
                let mut acks = self.scenes[at].acks;
                let outcome = acks.ack(self.my_type != PartitionnerType::Runner);
                set_acks(&mut self.scenes, at, acks);
                let ghost counted = *self;
                match outcome {
                    AckOutcome::StartStep(step_id) => {
                        let commands = self.start_step(at, step_id);
                        proof {
                            assert(counted.fanout(at as int) == old(self).fanout(at as int));
                            assert(counted.step_commands(at as int, step_id) == old(self).step_commands(at as int, step_id));
                        }
                        commands
                    },
                    AckOutcome::AckParent => {
                        let mut commands: Vec<Command> = Vec::new();
                        commands.push(Command::AckParent { scene: payload.scene });
                        assert(commands@ =~= seq![Command::AckParent { scene: payload.scene }]);
                        commands
                    },
                    _ => Vec::new(),
                }
            },
            None => Vec::new(),
        }
    }

    /// Tells the scene to run or to rest. A scene that is told to run and
    /// rested starts the step that is next, if the clients have asked for it.
    pub fn start_stop(&mut self, payload: StartStopRequest) -> (commands: Vec<Command>)
        requires
            old(self).wf(),
        ensures
            final(self).wf(),
            !old(self).has_scene(payload.scene) ==> *final(self) == *old(self) && commands@.len()
                == 0,
            forall|i: int|
                0 <= i < old(self).scenes@.len() && (#[trigger] old(self).scenes@[i]).scene
                    == payload.scene ==> {
                    &&& same_but_acks(old(self), final(self), i)
                    &&& !payload.running ==> final(self).scenes@[i].acks == old(self).scenes@[i].acks.after_stop() && commands@.len() == 0
                    &&& payload.running ==> {
                        let (started, step) = old(self).scenes@[i].acks.after_start(
                            old(self).fanout(i),
                        );
                        &&& final(self).scenes@[i].acks == started
                        &&& match step {
                            Some(step_id) => commands@ == old(self).step_commands(i, step_id),
                            None => commands@.len() == 0,
                        }
                    }
                },
    {
        match self.find_scene(payload.scene) {
            Some(at) => {
                proof {
                    self.lemma_scene_unique(at as int);
                }
                self.set_running(at, payload.running)
            },
            None => Vec::new(),
        }
    }

    /// Tells the scene at `at` to run or to rest.
    fn set_running(&mut self, at: usize, running: bool) -> (commands: Vec<Command>)
        requires
            old(self).wf(),
            at < old(self).scenes@.len(),
        ensures
            final(self).wf(),
            same_but_acks(old(self), final(self), at as int),
            !running ==> final(self).scenes@[at as int].acks == old(self).scenes@[at as int].acks.after_stop() && commands@.len() == 0,
            running ==> {
                let (started, step) = old(self).scenes@[at as int].acks.after_start(
                    old(self).fanout(at as int),
                );
                &&& final(self).scenes@[at as int].acks == started
                &&& match step {
                    Some(step_id) => commands@ == old(self).step_commands(at as int, step_id),
                    None => commands@.len() == 0,
                }
            },
    {
        let mut acks = self.scenes[at].acks;
        if !running {
            acks.stop();
            set_acks(&mut self.scenes, at, acks);
            return Vec::new();
        }
        let fanout = if self.my_type == PartitionnerType::Master {
            self.children.len() as u64
        } else {
            self.scenes[at].runners.len() as u64
        };
        let ghost before = acks;
        match acks.start(fanout) {
            Some(step_id) => {
                // The count is set when the step is handed out.
                let ghost started = acks;
                let commands = self.start_step(at, step_id);
                proof {
                    assert(before.after_step(step_id, fanout).pending_acks == fanout);
                }
                let mut running_acks = self.scenes[at].acks;
                running_acks.running = true;
                set_acks(&mut self.scenes, at, running_acks);
                commands
            },
            None => Vec::new(),
        }
    }

    /// Takes note that a client has seen the step `step_id` of the engine:
    /// the scene may run two steps beyond it, and is told to run. This alone
    /// moves a scene forward in time: without clients, a scene rests.
    pub fn handle_client_inputs(&mut self, payload: ClientInputRequest) -> (commands: Vec<Command>)
        requires
            old(self).wf(),
        ensures
            final(self).wf(),
            !old(self).has_scene(payload.scene) ==> *final(self) == *old(self) && commands@.len()
                == 0,
            forall|i: int|
                0 <= i < old(self).scenes@.len() && (#[trigger] old(self).scenes@[i]).scene
                    == payload.scene ==> {
                    let raised = SceneAcks {
                        step_limit: old(self).scenes@[i].acks.raised_limit(payload.step_id),
                        ..old(self).scenes@[i].acks
                    };
                    let (started, step) = raised.after_start(old(self).fanout(i));
                    &&& same_but_acks(old(self), final(self), i)
                    &&& final(self).scenes@[i].acks == started
                    &&& match step {
                        Some(step_id) => commands@ == old(self).step_commands(i, step_id),
                        None => commands@.len() == 0,
                    }
                },
    {
        match self.find_scene(payload.scene) {
            Some(at) => {
                proof {
                    self.lemma_scene_unique(at as int);
                }
                let mut acks = self.scenes[at].acks;
                acks.raise_limit(payload.step_id);
                set_acks(&mut self.scenes, at, acks);
                let ghost raised = *self;
                let commands = self.set_running(at, true);
                proof {
                    assert(raised.fanout(at as int) == old(self).fanout(at as int));
                    assert forall|step_id: u64|
                        raised.step_commands(at as int, step_id) == old(self).step_commands(
                            at as int,
                            step_id,
                        ) by {}
                }
                commands
            },
            None => Vec::new(),
        }
    }
}

/// The assignments among the first `n` that are not for `scene`.
pub open spec fn assignments_without(
    assigned: Seq<AssignRunnerResponse>,
    scene: SceneUuid,
    n: nat,
) -> Seq<AssignRunnerResponse>
    decreases n,
{
    if n == 0 {
        Seq::empty()
    } else if assigned[n - 1].scene == scene {
        assignments_without(assigned, scene, (n - 1) as nat)
    } else {
        assignments_without(assigned, scene, (n - 1) as nat).push(assigned[n - 1])
    }
}

/// Whether `a` is one of the first `n` assignments.
pub open spec fn is_among(assigned: Seq<AssignRunnerResponse>, n: nat, a: AssignRunnerResponse) -> bool {
    exists|i: int| 0 <= i < n && #[trigger] assigned[i] == a
}

/// The assignments that stay come from the list in its order, and none is for `scene`.
pub proof fn lemma_assignments_without(assigned: Seq<AssignRunnerResponse>, scene: SceneUuid, n: nat)
    requires
        n <= assigned.len(),
        forall|i: int, j: int|
            0 <= i < j < assigned.len() ==> !(assigned[i].scene == assigned[j].scene
                && assigned[i].region == assigned[j].region),
    ensures
        forall|t: int|
            0 <= t < assignments_without(assigned, scene, n).len() ==> (
            #[trigger] assignments_without(assigned, scene, n)[t]).scene != scene,
        forall|t: int|
            0 <= t < assignments_without(assigned, scene, n).len() ==> is_among(
                assigned,
                n,
                #[trigger] assignments_without(assigned, scene, n)[t],
            ),
        forall|t: int, u: int|
            0 <= t < u < assignments_without(assigned, scene, n).len() ==> !(assignments_without(
                assigned,
                scene,
                n,
            )[t].scene == assignments_without(assigned, scene, n)[u].scene && assignments_without(
                assigned,
                scene,
                n,
            )[t].region == assignments_without(assigned, scene, n)[u].region),
        forall|i: int|
            0 <= i < n && (#[trigger] assigned[i]).scene != scene ==> assignments_without(
                assigned,
                scene,
                n,
            ).contains(assigned[i]),
    decreases n,
{
    if n > 0 {
        lemma_assignments_without(assigned, scene, (n - 1) as nat);
        let before = assignments_without(assigned, scene, (n - 1) as nat);
        let now = assignments_without(assigned, scene, n);
        assert forall|t: int| 0 <= t < now.len() implies is_among(assigned, n, #[trigger] now[t]) by {
            if t < before.len() {
                assert(is_among(assigned, (n - 1) as nat, before[t]));
                let i = choose|i: int| 0 <= i < n - 1 && #[trigger] assigned[i] == before[t];
                assert(assigned[i] == now[t]);
            } else {
                assert(assigned[n - 1] == now[t]);
            }
        }
        assert forall|t: int, u: int| 0 <= t < u < now.len() implies !(now[t].scene
            == now[u].scene && now[t].region == now[u].region) by {
            if u == before.len() {
                assert(is_among(assigned, (n - 1) as nat, before[t]));
                let i = choose|i: int| 0 <= i < n - 1 && #[trigger] assigned[i] == before[t];
                assert(!(assigned[i].scene == assigned[n - 1].scene && assigned[i].region
                    == assigned[n - 1].region));
            }
        }
        assert forall|i: int|
            0 <= i < n && (#[trigger] assigned[i]).scene != scene implies now.contains(
            assigned[i],
        ) by {
            if i < n - 1 {
                assert(before.contains(assigned[i]));
                let t = choose|t: int| 0 <= t < before.len() && before[t] == assigned[i];
                assert(now[t] == assigned[i]);
            } else {
                assert(now[now.len() - 1] == assigned[i]);
            }
        }
    }
}

impl AppState {
    /// Forgets the scene at `at`, and returns what was known of it.
    fn take_scene(&mut self, at: usize) -> (taken: SceneState)
        requires
            old(self).wf(),
            at < old(self).scenes@.len(),
        ensures
            final(self).wf(),
            final(self).my_type == old(self).my_type,
            final(self).children == old(self).children,
            final(self).runners.exited == old(self).runners.exited,
            final(self).runners.assigned == old(self).runners.assigned,
            final(self).scenes@ == old(self).scenes@.remove(at as int),
            taken == old(self).scenes@[at as int],
            !final(self).has_scene(taken.scene),
    {
        let taken = self.scenes.remove(at);
        proof {
            let before = old(self).scenes@;
            let after = self.scenes@;
            assert forall|i: int| 0 <= i < after.len() implies (#[trigger] after[i])
                == before[if i < at { i } else { i + 1 }] by {}
            assert forall|i: int, j: int| 0 <= i < j < after.len() implies after[i].scene
                != after[j].scene by {
                assert(after[i] == before[if i < at { i } else { i + 1 }]);
                assert(after[j] == before[if j < at { j } else { j + 1 }]);
            }
            assert forall|i: int| 0 <= i < after.len() implies all_bounded(
                (#[trigger] after[i]).children_bounds@,
            ) by {
                assert(after[i] == before[if i < at { i } else { i + 1 }]);
            }
            assert forall|i: int| 0 <= i < after.len() implies (#[trigger] after[i]).scene
                != taken.scene by {
                let o = if i < at { i } else { i + 1 };
                assert(after[i] == before[o]);
                if o < at {
                    assert(before[o].scene != before[at as int].scene);
                } else {
                    assert(before[at as int].scene != before[o].scene);
                }
            }
        }
        taken
    }

    /// Creates the scene. What was known of a scene of the same name is forgotten.
    ///
    /// A master cuts the bounds of the scene into as many parts as it has
    /// children, and asks each child to create the scene for its part; the
    /// answer that it gives names no worker of its own. Any other coordinator
    /// keeps the bounds whole and starts one worker for the scene, under a
    /// fresh name, which is its answer. The scene rests until a client asks
    /// for a step.
    pub fn create_scene(&mut self, payload: CreateSceneRequest) -> (r: (CreateSceneResponse, Vec<Command>))
        requires
            old(self).wf(),
            payload.bounds.bounded(),
        ensures
            final(self).wf(),
            final(self).my_type == old(self).my_type,
            final(self).children == old(self).children,
            final(self).runners.exited == old(self).runners.exited,
            final(self).runners.assigned == old(self).runners.assigned,
            final(self).scenes@.len() > 0,
            final(self).scenes@.last().scene == payload.scene,
            final(self).scenes@.last().static_bodies@.len() == 0,
            final(self).scenes@.last().acks == SceneAcks::initial(),
            !old(self).has_scene(payload.scene) ==> final(self).scenes@.drop_last() == old(self).scenes@,
            forall|i: int|
                0 <= i < old(self).scenes@.len() && (#[trigger] old(self).scenes@[i]).scene
                    == payload.scene ==> final(self).scenes@.drop_last() == old(self).scenes@.remove(i),
            old(self).my_type == PartitionnerType::Master ==> {
                &&& final(self).scenes@.last().children_bounds@ == subdivided(
                    payload.bounds,
                    old(self).children@.len(),
                )
                &&& final(self).scenes@.last().runners@.len() == 0
                &&& r.1@ == create_on_children(
                    subdivided(payload.bounds, old(self).children@.len()),
                    payload.scene,
                )
                &&& is_random_uuid(r.0.runner)
            },
            old(self).my_type != PartitionnerType::Master ==> {
                &&& final(self).scenes@.last().children_bounds@ == seq![payload.bounds]
                &&& final(self).scenes@.last().runners@ == seq![
                    Runner { uuid: r.0.runner, is_new: true },
                ]
                &&& r.1@ == seq![
                    Command::SpawnRunner {
                        uuid: r.0.runner,
                        scene: payload.scene,
                        dev: old(self).my_type == PartitionnerType::Dev,
                    },
                ]
                &&& is_random_uuid(r.0.runner)
            },
    {
        match self.find_scene(payload.scene) {
            Some(at) => {
                proof {
                    self.lemma_scene_unique(at as int);
                }
                let _ = self.take_scene(at);
            },
            None => {},
        }
        let ghost kept = self.scenes@;
        let mut commands: Vec<Command> = Vec::new();
        let uuid = random_uuid();
        let mut runners: Vec<Runner> = Vec::new();
        let children_bounds = match self.my_type {
            PartitionnerType::Master => {
                let boxes = subdivide_domain(payload.bounds, self.children.len());
                let mut c: usize = 0;
                while c < boxes.len()
                    invariant
                        c <= boxes@.len(),
                        commands@ == create_on_children(boxes@.take(c as int), payload.scene),
                    decreases boxes@.len() - c,
                {
                    commands.push(
                        Command::CreateSceneOnChild {
                            child: c,
                            scene: payload.scene,
                            bounds: boxes[c],
                        },
                    );
                    assert(commands@ =~= create_on_children(boxes@.take(c + 1), payload.scene));
                    c += 1;
                }
                assert(boxes@.take(c as int) =~= boxes@);
                boxes
            },
            _ => {
                let mut boxes: Vec<Aabb> = Vec::new();
                boxes.push(payload.bounds);
                assert(boxes@ =~= seq![payload.bounds]);
                runners.push(Runner { uuid, is_new: true });
                assert(runners@ =~= seq![Runner { uuid, is_new: true }]);
                commands.push(
                    Command::SpawnRunner {
                        uuid,
                        scene: payload.scene,
                        dev: self.my_type == PartitionnerType::Dev,
                    },
                );
                assert(commands@ =~= seq![
                    Command::SpawnRunner {
                        uuid,
                        scene: payload.scene,
                        dev: self.my_type == PartitionnerType::Dev,
                    },
                ]);
                boxes
            },
        };
        self.scenes.push(
            SceneState {
                scene: payload.scene,
                children_bounds,
                runners,
                static_bodies: Vec::new(),
                acks: SceneAcks::new(),
            },
        );
        proof {
            let after = self.scenes@;
            assert(after.drop_last() =~= kept);
            assert forall|i: int, j: int| 0 <= i < j < after.len() implies after[i].scene
                != after[j].scene by {
                if j == after.len() - 1 {
                    assert(after[i] == kept[i]);
                    if old(self).has_scene(payload.scene) {
                    } else {
                        assert(kept[i].scene != payload.scene);
                    }
                } else {
                    assert(after[i] == kept[i] && after[j] == kept[j]);
                }
            }
            assert forall|i: int| 0 <= i < after.len() implies all_bounded(
                (#[trigger] after[i]).children_bounds@,
            ) by {
                if i < kept.len() {
                    assert(after[i] == kept[i]);
                }
            }
        }
        (CreateSceneResponse { runner: uuid }, commands)
    }

    /// Takes note of the worker that a child has started for the scene. The
    /// workers of a scene are kept in the order of the children.
    pub fn runner_created(&mut self, scene: SceneUuid, runner: u128)
        requires
            old(self).wf(),
        ensures
            final(self).wf(),
            !old(self).has_scene(scene) ==> *final(self) == *old(self),
            forall|i: int|
                0 <= i < old(self).scenes@.len() && (#[trigger] old(self).scenes@[i]).scene == scene
                    ==> {
                    &&& final(self).my_type == old(self).my_type
                    &&& final(self).children == old(self).children
                    &&& final(self).runners.exited == old(self).runners.exited
                    &&& final(self).runners.assigned == old(self).runners.assigned
                    &&& final(self).scenes@.len() == old(self).scenes@.len()
                    &&& forall|j: int|
                        0 <= j < old(self).scenes@.len() && j != i ==> #[trigger] final(self).scenes@[j] == old(self).scenes@[j]
                    &&& final(self).scenes@[i].scene == scene
                    &&& final(self).scenes@[i].children_bounds == old(self).scenes@[i].children_bounds
                    &&& final(self).scenes@[i].static_bodies == old(self).scenes@[i].static_bodies
                    &&& final(self).scenes@[i].acks == old(self).scenes@[i].acks
                    &&& final(self).scenes@[i].runners@ == old(self).scenes@[i].runners@.push(
                        Runner { uuid: runner, is_new: true },
                    )
                },
    {
        match self.find_scene(scene) {
            Some(at) => {
                proof {
                    self.lemma_scene_unique(at as int);
                }
                self.scenes[at].runners.push(Runner { uuid: runner, is_new: true });
            },
            None => {},
        }
    }

    /// Whether a region of `scene` is assigned.
    fn any_assignment(&self, scene: SceneUuid) -> (r: bool)
        ensures
            r == self.has_assignment(scene),
    {
        let mut i: usize = 0;
        while i < self.runners.assigned.len()
            invariant
                i <= self.runners.assigned@.len(),
                forall|j: int| 0 <= j < i ==> (#[trigger] self.runners.assigned@[j]).scene != scene,
            decreases self.runners.assigned@.len() - i,
        {
            if self.runners.assigned[i].scene == scene {
                return true;
            }
            i += 1;
        }
        false
    }

    /// Removes the scene, whether the coordinator runs it or not.
    ///
    /// The scene counts as removed from now on. Its workers are told to stop,
    /// what was known of it and of its regions is forgotten, and the children
    /// are asked to remove it too. To remove a scene again changes nothing.
    pub fn remove_scene(&mut self, payload: RemoveSceneRequest) -> (commands: Vec<Command>)
        requires
            old(self).wf(),
        ensures
            final(self).wf(),
            final(self).my_type == old(self).my_type,
            final(self).children == old(self).children,
            !final(self).has_scene(payload.scene),
            final(self).is_exited(payload.scene),
            !final(self).has_assignment(payload.scene),
            old(self).is_exited(payload.scene) ==> final(self).runners.exited == old(self).runners.exited,
            !old(self).is_exited(payload.scene) ==> final(self).runners.exited@ == old(self).runners.exited@.push(
                payload.scene,
            ),
            !old(self).has_assignment(payload.scene) ==> final(self).runners.assigned == old(self).runners.assigned,
            final(self).runners.assigned@ == assignments_without(
                old(self).runners.assigned@,
                payload.scene,
                old(self).runners.assigned@.len(),
            ),
            !old(self).has_scene(payload.scene) ==> final(self).scenes == old(self).scenes
                && commands@ == remove_on_children(old(self).children@.len(), payload.scene),
            forall|i: int|
                0 <= i < old(self).scenes@.len() && (#[trigger] old(self).scenes@[i]).scene
                    == payload.scene ==> {
                    &&& final(self).scenes@ == old(self).scenes@.remove(i)
                    &&& commands@ == exit_runners(
                        old(self).scenes@[i].runners@,
                        old(self).my_type != PartitionnerType::Master,
                        old(self).scenes@[i].runners@.len(),
                    ) + remove_on_children(old(self).children@.len(), payload.scene)
                },
    {
        let scene = payload.scene;
        let mut commands: Vec<Command> = Vec::new();
        if !self.has_exited(scene) {
            self.runners.exited.push(scene);
            assert(self.runners.exited@[self.runners.exited@.len() - 1] == scene);
        }
        match self.find_scene(scene) {
            Some(at) => {
                proof {
                    self.lemma_scene_unique(at as int);
                }
                let taken = self.take_scene(at);
                let reaps = self.my_type != PartitionnerType::Master;
                let mut r: usize = 0;
                while r < taken.runners.len()
                    invariant
                        r <= taken.runners@.len(),
                        commands@ == exit_runners(taken.runners@, reaps, r as nat),
                    decreases taken.runners@.len() - r,
                {
                    let uuid = taken.runners[r].uuid;
                    commands.push(Command::SendRunner { uuid, message: RunnerMessage::Exit });
                    if reaps {
                        commands.push(Command::ReapRunner { uuid });
                    }
                    r += 1;
                }
            },
            None => {},
        }
        proof {
            lemma_assignments_without(self.runners.assigned@, scene, self.runners.assigned@.len() as nat);
        }
        if self.any_assignment(scene) {
            let mut kept: Vec<AssignRunnerResponse> = Vec::new();
            let mut i: usize = 0;
            while i < self.runners.assigned.len()
                invariant
                    i <= self.runners.assigned@.len(),
                    self.runners.assigned == old(self).runners.assigned,
                    kept@ == assignments_without(self.runners.assigned@, scene, i as nat),
                decreases self.runners.assigned@.len() - i,
            {
                if self.runners.assigned[i].scene != scene {
                    kept.push(self.runners.assigned[i]);
                }
                i += 1;
            }
            self.runners.assigned = kept;
        } else {
            proof {
                lemma_nothing_to_forget(self.runners.assigned@, scene, self.runners.assigned@.len() as nat);
            }
        }
        proof {
            assert forall|i: int| 0 <= i < self.runners.assigned@.len() implies (
            #[trigger] self.runners.assigned@[i]).scene != scene by {}
        }
        let ghost sent = commands@;
        let n = self.children.len();
        let mut c: usize = 0;
        while c < n
            invariant
                c <= n,
                commands@ == sent + remove_on_children(c as nat, scene),
            decreases n - c,
        {
            commands.push(Command::RemoveSceneOnChild { child: c, scene });
            assert(commands@ =~= sent + remove_on_children((c + 1) as nat, scene));
            c += 1;
        }
        assert(sent + remove_on_children(0, scene) =~= sent);
        assert(sent.len() == 0 ==> commands@ =~= remove_on_children(n as nat, scene));
        commands
    }
}

/// Where no assignment is for `scene`, all assignments stay.
pub proof fn lemma_nothing_to_forget(assigned: Seq<AssignRunnerResponse>, scene: SceneUuid, n: nat)
    requires
        n <= assigned.len(),
        forall|i: int| 0 <= i < assigned.len() ==> (#[trigger] assigned[i]).scene != scene,
    ensures
        assignments_without(assigned, scene, n) == assigned.take(n as int),
    decreases n,
{
    if n > 0 {
        lemma_nothing_to_forget(assigned, scene, (n - 1) as nat);
        assert(assigned.take(n as int) =~= assigned.take(n - 1).push(assigned[n - 1]));
    } else {
        assert(assigned.take(0) =~= Seq::<AssignRunnerResponse>::empty());
    }
}

impl AppState {
    /// Whether the coordinator can give the region `region` of `scene` to the
    /// worker `uuid`: it assigns regions, it runs the scene, the region is
    /// within the range of coordinates, and `uuid` is the worker of the child
    /// whose part of the scene holds the centre of the region or, where none
    /// does, lies nearest to it.
    pub open spec fn can_assign(&self, scene: SceneUuid, region: SimulationBounds, uuid: u128) -> bool {
        &&& self.drives()
        &&& region.bounded()
        &&& exists|i: int, c: int|
            0 <= i < self.scenes@.len() && (#[trigger] self.scenes@[i]).scene == scene
                && #[trigger] is_child_for(self.scenes@[i].children_bounds@, region, c) && c
                < self.scenes@[i].runners@.len() && self.scenes@[i].runners@[c].uuid == uuid
    }

    /// Whether the region is assigned to some worker.
    pub open spec fn is_taken(&self, scene: SceneUuid, region: SimulationBounds) -> bool {
        exists|uuid: u128| self.is_assigned(scene, region, uuid)
    }

    /// Whether the coordinator can give the region to some worker.
    pub open spec fn is_assignable(&self, scene: SceneUuid, region: SimulationBounds) -> bool {
        exists|uuid: u128| self.can_assign(scene, region, uuid)
    }

    /// The worker that the region is assigned to, if it is assigned.
    pub fn find_assignment(&self, scene: SceneUuid, region: SimulationBounds) -> (r: Option<u128>)
        requires
            self.wf(),
        ensures
            r.is_some() == self.is_taken(scene, region),
            r.is_some() ==> self.is_assigned(scene, region, r.unwrap()),
            forall|uuid: u128| self.is_assigned(scene, region, uuid) ==> r == Some(uuid),
    {
        let mut i: usize = 0;
        while i < self.runners.assigned.len()
            invariant
                i <= self.runners.assigned@.len(),
                self.wf(),
                forall|j: int|
                    0 <= j < i ==> !((#[trigger] self.runners.assigned@[j]).scene == scene
                        && self.runners.assigned@[j].region == region),
            decreases self.runners.assigned@.len() - i,
        {
            if self.runners.assigned[i].scene == scene && self.runners.assigned[i].region == region {
                let found = self.runners.assigned[i].uuid;
                proof {
                    assert(self.is_assigned(scene, region, found));
                    assert forall|uuid: u128| self.is_assigned(scene, region, uuid) implies uuid
                        == found by {
                        let j = choose|j: int|
                            0 <= j < self.runners.assigned@.len() && (#[trigger] self.runners.assigned@[j]).scene
                                == scene && self.runners.assigned@[j].region == region
                                && self.runners.assigned@[j].uuid == uuid;
                        if j < i {
                        } else if i < j {
                            assert(!(self.runners.assigned@[i as int].scene == self.runners.assigned@[j].scene
                                && self.runners.assigned@[i as int].region == self.runners.assigned@[j].region));
                        }
                    }
                }
                return Some(found);
            }
            i += 1;
        }
        proof {
            assert forall|uuid: u128| !self.is_assigned(scene, region, uuid) by {
                if self.is_assigned(scene, region, uuid) {
                    let j = choose|j: int|
                        0 <= j < self.runners.assigned@.len() && (#[trigger] self.runners.assigned@[j]).scene
                            == scene && self.runners.assigned@[j].region == region
                            && self.runners.assigned@[j].uuid == uuid;
                    assert(false);
                }
            }
        }
        None
    }

    /// The worker that the region would be given to, if the coordinator can give it to one.
    pub fn pick_runner(&self, scene: SceneUuid, region: SimulationBounds) -> (r: Option<u128>)
        requires
            self.wf(),
        ensures
            r.is_some() == self.is_assignable(scene, region),
            r.is_some() ==> self.can_assign(scene, region, r.unwrap()),
            forall|uuid: u128| self.can_assign(scene, region, uuid) ==> r == Some(uuid),
    {
        let r = self.pick_runner_inner(scene, region);
        proof {
            if r.is_none() {
                assert forall|uuid: u128| !self.can_assign(scene, region, uuid) by {}
            } else {
                assert forall|uuid: u128| self.can_assign(scene, region, uuid) implies r == Some(
                    uuid,
                ) by {}
            }
        }
        r
    }

    fn pick_runner_inner(&self, scene: SceneUuid, region: SimulationBounds) -> (r: Option<u128>)
        requires
            self.wf(),
        ensures
            r.is_some() ==> self.can_assign(scene, region, r.unwrap()),
            r.is_none() ==> forall|uuid: u128| !self.can_assign(scene, region, uuid),
            r.is_some() ==> forall|uuid: u128|
                self.can_assign(scene, region, uuid) ==> uuid == r.unwrap(),
    {
        if self.my_type == PartitionnerType::Runner || !region.is_bounded() {
            return None;
        }
        let Some(at) = self.find_scene(scene) else {
            return None;
        };
        proof {
            self.lemma_scene_unique(at as int);
        }
        let state = &self.scenes[at];
        assert(all_bounded(state.children_bounds@));
        let Some(child) = child_for_region(&state.children_bounds, &region) else {
            assert forall|uuid: u128| !self.can_assign(scene, region, uuid) by {
                if self.can_assign(scene, region, uuid) {
                    let (i, c) = choose|i: int, c: int|
                        0 <= i < self.scenes@.len() && (#[trigger] self.scenes@[i]).scene == scene
                            && #[trigger] is_child_for(self.scenes@[i].children_bounds@, region, c)
                            && c < self.scenes@[i].runners@.len()
                            && self.scenes@[i].runners@[c].uuid == uuid;
                    assert(i == at);
                }
            }
            return None;
        };
        proof {
            crate::partitionner::geometry::lemma_child_unique(
                state.children_bounds@,
                region,
                child as int,
            );
            assert forall|uuid: u128| self.can_assign(scene, region, uuid) implies child
                < state.runners@.len() && uuid == state.runners@[child as int].uuid by {
                let (i, c) = choose|i: int, c: int|
                    0 <= i < self.scenes@.len() && (#[trigger] self.scenes@[i]).scene == scene
                        && #[trigger] is_child_for(self.scenes@[i].children_bounds@, region, c) && c
                        < self.scenes@[i].runners@.len() && self.scenes@[i].runners@[c].uuid
                        == uuid;
                assert(i == at);
                assert(c == child);
            }
        }
        if child >= state.runners.len() {
            return None;
        }
        let uuid = state.runners[child].uuid;
        assert(is_child_for(self.scenes@[at as int].children_bounds@, region, child as int));
        Some(uuid)
    }

    /// Says which worker simulates the region, and decides it if it is not decided yet.
    ///
    /// A region that is assigned stays with its worker. A region that is not
    /// goes to the worker of the child whose part of the scene holds the
    /// centre of the region, or lies nearest to it. The request is refused for
    /// a scene that has been removed, and where the region is not assigned and
    /// cannot be: by a child coordinator, for a scene that the coordinator
    /// does not run or that has no worker for the part, and for a region
    /// beyond the range of coordinates.
    pub fn assign_runner(&mut self, payload: AssignRunnerRequest) -> (r: Result<AssignRunnerResponse, StatusCode>)
        requires
            old(self).wf(),
        ensures
            final(self).wf(),
            final(self).my_type == old(self).my_type,
            final(self).children == old(self).children,
            final(self).scenes == old(self).scenes,
            final(self).runners.exited == old(self).runners.exited,
            r.is_ok() == (!old(self).is_exited(payload.scene) && (old(self).is_taken(
                payload.scene,
                payload.region,
            ) || old(self).is_assignable(payload.scene, payload.region))),
            r.is_err() ==> final(self).runners.assigned == old(self).runners.assigned,
            r.is_ok() ==> {
                let answer = r.unwrap();
                &&& answer.scene == payload.scene
                &&& answer.region == payload.region
                &&& final(self).is_assigned(payload.scene, payload.region, answer.uuid)
                &&& old(self).is_taken(payload.scene, payload.region) ==> final(self).runners.assigned
                    == old(self).runners.assigned && old(self).is_assigned(
                    payload.scene,
                    payload.region,
                    answer.uuid,
                )
                &&& !old(self).is_taken(payload.scene, payload.region) ==> final(self).runners.assigned@
                    == old(self).runners.assigned@.push(answer) && old(self).can_assign(
                    payload.scene,
                    payload.region,
                    answer.uuid,
                )
            },
    {
        if self.has_exited(payload.scene) {
            return Err(StatusCode::BadRequest);
        }
        if let Some(uuid) = self.find_assignment(payload.scene, payload.region) {
            return Ok(AssignRunnerResponse { scene: payload.scene, region: payload.region, uuid });
        }
        match self.pick_runner(payload.scene, payload.region) {
            Some(uuid) => {
                let answer = AssignRunnerResponse {
                    scene: payload.scene,
                    region: payload.region,
                    uuid,
                };
                let ghost before = self.runners.assigned@;
                self.runners.assigned.push(answer);
                proof {
                    assert(self.runners.assigned@[before.len() as int] == answer);
                    assert forall|i: int, j: int|
                        0 <= i < j < self.runners.assigned@.len() implies !(self.runners.assigned@[i].scene
                        == self.runners.assigned@[j].scene && self.runners.assigned@[i].region
                        == self.runners.assigned@[j].region) by {
                        if j == before.len() {
                            assert(self.runners.assigned@[i] == before[i]);
                            if before[i].scene == payload.scene && before[i].region
                                == payload.region {
                                assert(old(self).is_assigned(
                                    payload.scene,
                                    payload.region,
                                    before[i].uuid,
                                ));
                            }
                        }
                    }
                }
                Ok(answer)
            },
            None => Err(StatusCode::BadRequest),
        }
    }
}

/// Sets the count of acknowledgements of the scene at `i`.
fn set_acks(scenes: &mut Vec<SceneState>, i: usize, acks: SceneAcks)
    requires
        i < old(scenes)@.len(),
    ensures
        final(scenes)@.len() == old(scenes)@.len(),
        forall|j: int| 0 <= j < old(scenes)@.len() && j != i ==> final(scenes)@[j] == old(scenes)@[j],
        final(scenes)@[i as int].acks == acks,
        final(scenes)@[i as int].scene == old(scenes)@[i as int].scene,
        final(scenes)@[i as int].children_bounds == old(scenes)@[i as int].children_bounds,
        final(scenes)@[i as int].runners == old(scenes)@[i as int].runners,
        final(scenes)@[i as int].static_bodies == old(scenes)@[i as int].static_bodies,
{
    scenes[i].acks = acks;
}

} // verus!
