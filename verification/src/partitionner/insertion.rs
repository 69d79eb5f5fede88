//! How new bodies enter a scene: each to the worker of the region that owns it.

use crate::api_types::messages::{bodies_view, BodyAssignment, BodyAssignmentView, RunnerMessage};
use crate::api_types::objects::RigidBodyType;
use crate::api_types::partitionner::{AssignRunnerRequest, InsertObjectsRequest, SceneUuid};
use crate::api_types::simulation::SimulationBounds;
use crate::geometry::{is_point_bounded, point_bounded, Point};
use crate::partitionner::{AppState, Command, StatusCode};
use crate::sequences::take_reversed;
use vstd::prelude::*;

verus! {

/// The region that owns a body whose extent has the upper corner `corner`,
/// rounded down: the region whose cell holds the corner.
pub open spec fn owning_region(corner: Point) -> SimulationBounds {
    SimulationBounds::from_point_spec(corner, SimulationBounds::DEFAULT_WIDTH)
}

/// Whether forces move the body.
pub open spec fn is_dynamic_body(body: BodyAssignment) -> bool {
    body.cold.body_type == RigidBodyType::Dynamic
}

/// Those of the first `n` bodies that forces do not move, in order.
pub open spec fn static_bodies_in(bodies: Seq<BodyAssignment>, n: nat) -> Seq<BodyAssignment>
    decreases n,
{
    if n == 0 {
        Seq::empty()
    } else if is_dynamic_body(bodies[n - 1]) {
        static_bodies_in(bodies, (n - 1) as nat)
    } else {
        static_bodies_in(bodies, (n - 1) as nat).push(bodies[n - 1])
    }
}

/// The regions that own a dynamic body among the first `n`, each once, in
/// the order in which the bodies name them first.
pub open spec fn island_regions(bodies: Seq<BodyAssignment>, corners: Seq<Point>, n: nat) -> Seq<
    SimulationBounds,
>
    decreases n,
{
    if n == 0 {
        Seq::empty()
    } else {
        let before = island_regions(bodies, corners, (n - 1) as nat);
        if is_dynamic_body(bodies[n - 1]) && !before.contains(owning_region(corners[n - 1])) {
            before.push(owning_region(corners[n - 1]))
        } else {
            before
        }
    }
}

/// The dynamic bodies among the first `n` that `region` owns, in order.
pub open spec fn island_bodies(
    bodies: Seq<BodyAssignment>,
    corners: Seq<Point>,
    region: SimulationBounds,
    n: nat,
) -> Seq<BodyAssignment>
    decreases n,
{
    if n == 0 {
        Seq::empty()
    } else if is_dynamic_body(bodies[n - 1]) && owning_region(corners[n - 1]) == region {
        island_bodies(bodies, corners, region, (n - 1) as nat).push(bodies[n - 1])
    } else {
        island_bodies(bodies, corners, region, (n - 1) as nat)
    }
}

/// A region that owns no dynamic body among the first `n` is not listed, and
/// no region is listed twice.
pub proof fn lemma_island_regions(
    bodies: Seq<BodyAssignment>,
    corners: Seq<Point>,
    region: SimulationBounds,
    n: nat,
)
    requires
        n <= bodies.len(),
        n <= corners.len(),
    ensures
        !island_regions(bodies, corners, n).contains(region) ==> island_bodies(
            bodies,
            corners,
            region,
            n,
        ) == Seq::<BodyAssignment>::empty(),
        forall|i: int|
            0 <= i < n && is_dynamic_body(#[trigger] bodies[i]) ==> island_regions(
                bodies,
                corners,
                n,
            ).contains(owning_region(corners[i])),
        forall|a: int, b: int|
            0 <= a < b < island_regions(bodies, corners, n).len() ==> island_regions(
                bodies,
                corners,
                n,
            )[a] != island_regions(bodies, corners, n)[b],
    decreases n,
{
    if n > 0 {
        lemma_island_regions(bodies, corners, region, (n - 1) as nat);
        let before = island_regions(bodies, corners, (n - 1) as nat);
        let now = island_regions(bodies, corners, n);
        assert forall|r: SimulationBounds| before.contains(r) implies now.contains(r) by {
            let t = choose|t: int| 0 <= t < before.len() && before[t] == r;
            assert(now[t] == r);
        }
        if is_dynamic_body(bodies[n - 1]) && !before.contains(owning_region(corners[n - 1])) {
            assert(now[now.len() - 1] == owning_region(corners[n - 1]));
            assert forall|a: int, b: int| 0 <= a < b < now.len() implies now[a] != now[b] by {
                if b == now.len() - 1 {
                    assert(before[a] == now[a]);
                    assert(before.contains(before[a]));
                } else {
                    assert(before[a] == now[a] && before[b] == now[b]);
                }
            }
        }
        assert forall|i: int| 0 <= i < n && is_dynamic_body(#[trigger] bodies[i])
            implies now.contains(owning_region(corners[i])) by {
            if i < n - 1 {
                assert(before.contains(owning_region(corners[i])));
            }
        }
    }
}

/// Whether `command` sends the static bodies `bodies` to the worker `uuid`.
pub open spec fn is_static_command(command: Command, uuid: u128, bodies: Seq<BodyAssignmentView>) -> bool {
    match command {
        Command::SendRunner { uuid: u, message: RunnerMessage::AssignStaticBodies { bodies: b } } => {
            u == uuid && bodies_view(b@) == bodies
        },
        _ => false,
    }
}

/// Whether `command` hands the bodies `bodies` to the worker `uuid` for `region`.
pub open spec fn is_island_command(
    command: Command,
    uuid: u128,
    scene: SceneUuid,
    region: SimulationBounds,
    bodies: Seq<BodyAssignment>,
) -> bool {
    match command {
        Command::SendRunner {
            uuid: u,
            message: RunnerMessage::AssignIsland { scene: s, region: r, bodies: b, impulse_joints: j },
        } => u == uuid && s == scene && r == region && b@ == bodies && j@.len() == 0,
        _ => false,
    }
}

/// Whether `command` asks the worker `uuid` to publish its snapshots.
pub open spec fn is_sync_command(command: Command, uuid: u128) -> bool {
    match command {
        Command::SendRunner { uuid: u, message: RunnerMessage::SyncClientObjects } => u == uuid,
        _ => false,
    }
}

impl AppState {
    /// Whether the coordinator takes the bodies: it runs the scene, the scene
    /// has not been removed, and each body that forces move has its upper
    /// corner within the range of coordinates and a region that is assigned to
    /// a worker or can be.
    pub open spec fn accepts(
        &self,
        scene: SceneUuid,
        bodies: Seq<BodyAssignment>,
        corners: Seq<Point>,
    ) -> bool {
        &&& !self.is_exited(scene)
        &&& self.has_scene(scene)
        &&& forall|i: int|
            0 <= i < bodies.len() && is_dynamic_body(#[trigger] bodies[i]) ==> self.has_place(
                scene,
                corners[i],
            )
    }

    /// Whether a body with the upper corner `corner` can be placed.
    pub open spec fn has_place(&self, scene: SceneUuid, corner: Point) -> bool {
        &&& point_bounded(corner)
        &&& self.is_taken(scene, owning_region(corner)) || self.is_assignable(
            scene,
            owning_region(corner),
        )
    }

    /// Decides `has_place`.
    fn can_place(&self, scene: SceneUuid, corner: &Point) -> (r: bool)
        requires
            self.wf(),
        ensures
            r == self.has_place(scene, *corner),
    {
        if !is_point_bounded(corner) {
            return false;
        }
        let region = SimulationBounds::from_point(*corner, SimulationBounds::DEFAULT_WIDTH);
        if self.find_assignment(scene, region).is_some() {
            return true;
        }
        self.pick_runner(scene, region).is_some()
    }

    /// Whether each of the bodies that forces move can be placed.
    fn can_place_all(&self, scene: SceneUuid, bodies: &Vec<BodyAssignment>, corners: &Vec<Point>) -> (r: bool)
        requires
            self.wf(),
            corners@.len() == bodies@.len(),
        ensures
            r == (forall|i: int|
                0 <= i < bodies@.len() && is_dynamic_body(#[trigger] bodies@[i]) ==> self.has_place(
                    scene,
                    corners@[i],
                )),
    {
        let mut i: usize = 0;
        while i < bodies.len()
            invariant
                i <= bodies@.len(),
                self.wf(),
                corners@.len() == bodies@.len(),
                forall|j: int|
                    0 <= j < i && is_dynamic_body(#[trigger] bodies@[j]) ==> self.has_place(
                        scene,
                        corners@[j],
                    ),
            decreases bodies@.len() - i,
        {
            if bodies[i].cold.body_type.is_dynamic() && !self.can_place(scene, &corners[i]) {
                return false;
            }
            i += 1;
        }
        true
    }
}

/// The bodies that enter one region, and the worker that gets them.
struct Island {
    region: SimulationBounds,
    runner: u128,
    bodies: Vec<BodyAssignment>,
}

/// Where `region` is listed among `islands`, if it is.
fn find_island(islands: &Vec<Island>, region: SimulationBounds) -> (r: Option<usize>)
    ensures
        r.is_some() ==> r.unwrap() < islands@.len() && islands@[r.unwrap() as int].region == region,
        r.is_none() ==> forall|i: int| 0 <= i < islands@.len() ==> islands@[i].region != region,
{
    let mut i: usize = 0;
    while i < islands.len()
        invariant
            i <= islands@.len(),
            forall|j: int| 0 <= j < i ==> islands@[j].region != region,
        decreases islands@.len() - i,
    {
        if islands[i].region == region {
            return Some(i);
        }
        i += 1;
    }
    None
}

/// Whether `after` is `before` with further assignments for `scene`, each of
/// a region of `regions` to the worker that `before` can give it to.
pub open spec fn assigned_more(
    before: &AppState,
    after: &AppState,
    scene: SceneUuid,
    regions: Seq<SimulationBounds>,
) -> bool {
    &&& after.my_type == before.my_type
    &&& after.children == before.children
    &&& after.runners.exited == before.runners.exited
    &&& after.runners.assigned@.len() >= before.runners.assigned@.len()
    &&& after.runners.assigned@.take(before.runners.assigned@.len() as int) == before.runners.assigned@
    &&& forall|t: int|
        before.runners.assigned@.len() <= t < after.runners.assigned@.len() ==> {
            &&& (#[trigger] after.runners.assigned@[t]).scene == scene
            &&& regions.contains(after.runners.assigned@[t].region)
            &&& before.can_assign(scene, after.runners.assigned@[t].region, after.runners.assigned@[t].uuid)
        }
}

impl AppState {
    /// What is assigned stays assigned as further assignments are made.
    proof fn lemma_still_assigned(
        before: &AppState,
        after: &AppState,
        scene: SceneUuid,
        region: SimulationBounds,
        uuid: u128,
    )
        requires
            after.runners.assigned@.len() >= before.runners.assigned@.len(),
            after.runners.assigned@.take(before.runners.assigned@.len() as int) == before.runners.assigned@,
            before.is_assigned(scene, region, uuid),
        ensures
            after.is_assigned(scene, region, uuid),
    {
        let i = choose|i: int|
            0 <= i < before.runners.assigned@.len() && (#[trigger] before.runners.assigned@[i]).scene == scene
                && before.runners.assigned@[i].region == region && before.runners.assigned@[i].uuid == uuid;
        assert(after.runners.assigned@.take(before.runners.assigned@.len() as int)[i] == after.runners.assigned@[i]);
        assert(after.runners.assigned@[i].scene == scene);
    }

    /// Assigns the region of each body that forces move, and sorts the bodies:
    /// those that move by their regions, the others apart.
    fn place_bodies(
        &mut self,
        scene: SceneUuid,
        bodies: Vec<BodyAssignment>,
        corners: &Vec<Point>,
    ) -> (r: (Vec<Island>, Vec<BodyAssignment>))
        requires
            old(self).wf(),
            corners@.len() == bodies@.len(),
            old(self).accepts(scene, bodies@, corners@),
        ensures
            final(self).wf(),
            final(self).scenes == old(self).scenes,
            assigned_more(
                old(self),
                final(self),
                scene,
                island_regions(bodies@, corners@, bodies@.len()),
            ),
            r.1@ == static_bodies_in(bodies@, bodies@.len()),
            r.0@.len() == island_regions(bodies@, corners@, bodies@.len()).len(),
            forall|g: int|
                0 <= g < r.0@.len() ==> {
                    &&& (#[trigger] r.0@[g]).region == island_regions(
                        bodies@,
                        corners@,
                        bodies@.len(),
                    )[g]
                    &&& r.0@[g].bodies@ == island_bodies(
                        bodies@,
                        corners@,
                        r.0@[g].region,
                        bodies@.len(),
                    )
                    &&& final(self).is_assigned(scene, r.0@[g].region, r.0@[g].runner)
                },
    {
        let ghost all = bodies@;
        let ghost ext = corners@;
        let mut bodies = bodies;
        let mut rest = take_reversed(&mut bodies);
        let n = rest.len();
        assert(rest@ =~= all.reverse().take(n as int));
        let mut islands: Vec<Island> = Vec::new();
        let mut statics: Vec<BodyAssignment> = Vec::new();
        let mut i: usize = 0;
        assert(self.runners.assigned@.take(self.runners.assigned@.len() as int) =~= self.runners.assigned@);
        while i < n
            invariant
                i <= n,
                n == all.len(),
                ext == corners@,
                ext.len() == n,
                rest@ == all.reverse().take(n - i),
                self.wf(),
                self.scenes == old(self).scenes,
                old(self).accepts(scene, all, ext),
                assigned_more(old(self), self, scene, island_regions(all, ext, i as nat)),
                statics@ == static_bodies_in(all, i as nat),
                islands@.len() == island_regions(all, ext, i as nat).len(),
                forall|g: int|
                    0 <= g < islands@.len() ==> {
                        &&& (#[trigger] islands@[g]).region == island_regions(all, ext, i as nat)[g]
                        &&& islands@[g].bodies@ == island_bodies(
                            all,
                            ext,
                            islands@[g].region,
                            i as nat,
                        )
                        &&& self.is_assigned(scene, islands@[g].region, islands@[g].runner)
                    },
            decreases n - i,
        {
            let body = rest.pop().unwrap();
            assert(body == all.reverse()[n - 1 - i]);
            assert(body == all[i as int]);
            assert(rest@ =~= all.reverse().take(n - i - 1));
            let ghost regions = island_regions(all, ext, i as nat);
            let ghost next = island_regions(all, ext, (i + 1) as nat);
            let ghost islands_before = islands@;
            let ghost state_before = *self;
            if body.cold.body_type.is_dynamic() {
                assert(old(self).has_place(scene, ext[i as int]));
                let region = SimulationBounds::from_point(
                    corners[i],
                    SimulationBounds::DEFAULT_WIDTH,
                );
                assert(region == owning_region(ext[i as int]));
                proof {
                    // The region can still be assigned, for what was assigned stays so.
                    if old(self).is_taken(scene, region) {
                        let u = choose|u: u128| old(self).is_assigned(scene, region, u);
                        Self::lemma_still_assigned(old(self), self, scene, region, u);
                        assert(self.is_taken(scene, region));
                    } else {
                        let u = choose|u: u128| old(self).can_assign(scene, region, u);
                        assert(self.can_assign(scene, region, u));
                        assert(self.is_assignable(scene, region));
                    }
                    lemma_island_regions(all, ext, region, i as nat);
                }
                let answer = match self.assign_runner(AssignRunnerRequest { scene, region }) {
                    Ok(answer) => answer,
                    Err(_) => {
                        assert(false);
                        return (islands, statics);
                    },
                };
                proof {
                    // The assignments so far.
                    assert(self.runners.assigned@.len() >= state_before.runners.assigned@.len());
                    assert(self.runners.assigned@.take(old(self).runners.assigned@.len() as int)
                        =~= old(self).runners.assigned@) by {
                        if !state_before.is_taken(scene, region) {
                            assert(self.runners.assigned@ == state_before.runners.assigned@.push(answer));
                        }
                        assert(state_before.runners.assigned@.take(old(self).runners.assigned@.len() as int)
                            == old(self).runners.assigned@);
                        assert forall|t: int| 0 <= t < old(self).runners.assigned@.len() implies
                            self.runners.assigned@[t] == old(self).runners.assigned@[t] by {
                            assert(state_before.runners.assigned@.take(
                                old(self).runners.assigned@.len() as int,
                            )[t] == state_before.runners.assigned@[t]);
                        }
                    }
                    assert forall|r: SimulationBounds| regions.contains(r) implies next.contains(
                        r,
                    ) by {
                        let t = choose|t: int| 0 <= t < regions.len() && regions[t] == r;
                        assert(next[t] == r);
                    }
                    if !regions.contains(region) {
                        assert(next[next.len() - 1] == region);
                    }
                    assert(next.contains(region));
                    assert forall|t: int|
                        old(self).runners.assigned@.len() <= t < self.runners.assigned@.len() implies {
                        &&& (#[trigger] self.runners.assigned@[t]).scene == scene
                        &&& next.contains(self.runners.assigned@[t].region)
                        &&& old(self).can_assign(
                            scene,
                            self.runners.assigned@[t].region,
                            self.runners.assigned@[t].uuid,
                        )
                    } by {
                        if t < state_before.runners.assigned@.len() {
                            assert(self.runners.assigned@[t] == state_before.runners.assigned@[t]) by {
                                if !state_before.is_taken(scene, region) {
                                    assert(self.runners.assigned@ == state_before.runners.assigned@.push(answer));
                                }
                            }
                        } else {
                            assert(self.runners.assigned@ == state_before.runners.assigned@.push(answer));
                            assert(self.runners.assigned@[t] == answer);
                            assert(state_before.can_assign(scene, region, answer.uuid));
                            assert(old(self).can_assign(scene, region, answer.uuid));
                        }
                    }
                    assert forall|g: int| 0 <= g < islands_before.len() implies self.is_assigned(
                        scene,
                        (#[trigger] islands_before[g]).region,
                        islands_before[g].runner,
                    ) by {
                        assert(self.runners.assigned@.take(state_before.runners.assigned@.len() as int)
                            =~= state_before.runners.assigned@) by {
                            if !state_before.is_taken(scene, region) {
                                assert(self.runners.assigned@ == state_before.runners.assigned@.push(answer));
                            }
                        }
                        Self::lemma_still_assigned(
                            &state_before,
                            self,
                            scene,
                            islands_before[g].region,
                            islands_before[g].runner,
                        );
                    }
                }
                match find_island(&islands, region) {
                    Some(g) => {
                        islands[g].bodies.push(body);
                        proof {
                            assert(regions[g as int] == region);
                            assert(regions.contains(region));
                            assert(next == regions);
                            assert forall|h: int| 0 <= h < islands@.len() implies {
                                &&& (#[trigger] islands@[h]).region == next[h]
                                &&& islands@[h].bodies@ == island_bodies(
                                    all,
                                    ext,
                                    islands@[h].region,
                                    (i + 1) as nat,
                                )
                                &&& self.is_assigned(scene, islands@[h].region, islands@[h].runner)
                            } by {
                                if h != g {
                                    assert(islands@[h] == islands_before[h]);
                                    assert(regions[h] != regions[g as int]);
                                } else {
                                    assert(islands@[h].region == islands_before[h].region);
                                    assert(islands@[h].runner == islands_before[h].runner);
                                    assert(islands@[h].bodies@ == islands_before[h].bodies@.push(
                                        body,
                                    ));
                                }
                            }
                        }
                    },
                    None => {
                        let mut first: Vec<BodyAssignment> = Vec::new();
                        first.push(body);
                        islands.push(Island { region, runner: answer.uuid, bodies: first });
                        proof {
                            assert(!regions.contains(region)) by {
                                if regions.contains(region) {
                                    let t = choose|t: int|
                                        0 <= t < regions.len() && regions[t] == region;
                                    assert(islands_before[t].region == region);
                                }
                            }
                            assert(next == regions.push(region));
                            assert(island_bodies(all, ext, region, i as nat) == Seq::<
                                BodyAssignment,
                            >::empty());
                            assert(first@ =~= Seq::<BodyAssignment>::empty().push(body));
                            assert forall|h: int| 0 <= h < islands@.len() implies {
                                &&& (#[trigger] islands@[h]).region == next[h]
                                &&& islands@[h].bodies@ == island_bodies(
                                    all,
                                    ext,
                                    islands@[h].region,
                                    (i + 1) as nat,
                                )
                                &&& self.is_assigned(scene, islands@[h].region, islands@[h].runner)
                            } by {
                                if h < islands_before.len() {
                                    assert(islands@[h] == islands_before[h]);
                                    assert(regions[h] != region);
                                }
                            }
                        }
                    },
                }
            } else {
                statics.push(body);
                proof {
                    assert(next == regions);
                    assert forall|h: int| 0 <= h < islands@.len() implies {
                        &&& (#[trigger] islands@[h]).region == next[h]
                        &&& islands@[h].bodies@ == island_bodies(
                            all,
                            ext,
                            islands@[h].region,
                            (i + 1) as nat,
                        )
                        &&& self.is_assigned(scene, islands@[h].region, islands@[h].runner)
                    } by {}
                }
            }
            i += 1;
        }
        (islands, statics)
    }
}

/// A copy of `bodies`.
fn clone_bodies(bodies: &Vec<BodyAssignment>) -> (r: Vec<BodyAssignment>)
    ensures
        bodies_view(r@) == bodies_view(bodies@),
{
    let mut r: Vec<BodyAssignment> = Vec::new();
    let mut i: usize = 0;
    while i < bodies.len()
        invariant
            i <= bodies@.len(),
            bodies_view(r@) == bodies_view(bodies@.take(i as int)),
        decreases bodies@.len() - i,
    {
        let ghost shown = bodies_view(r@);
        let copy = bodies[i].clone();
        r.push(copy);
        assert(bodies_view(r@) =~= shown.push(bodies@[i as int]@));
        assert(bodies_view(bodies@.take(i + 1)) =~= bodies_view(bodies@.take(i as int)).push(
            bodies@[i as int]@,
        ));
        i += 1;
    }
    assert(bodies@.take(i as int) =~= bodies@);
    r
}

/// Whether the commands at `at` and behind it hand `bodies` to the worker of
/// `region`, and ask that worker to publish its snapshots.
pub open spec fn island_sent(
    state: &AppState,
    commands: Seq<Command>,
    at: int,
    scene: SceneUuid,
    region: SimulationBounds,
    bodies: Seq<BodyAssignment>,
) -> bool {
    exists|uuid: u128| #[trigger]
        state.is_assigned(scene, region, uuid) && is_island_command(
            commands[at],
            uuid,
            scene,
            region,
            bodies,
        ) && is_sync_command(commands[at + 1], uuid)
}

/// Whether `after` and `commands` are what becomes of `before` when `bodies`
/// with the corners `corners` enter the scene that is listed at `at`.
///
/// The bodies that forces do not move are kept with the scene and sent to
/// every worker of the scene. The bodies that forces move are sent, region by
/// region, to the worker of the region that owns them, which is then asked to
/// publish its snapshots; a region without a worker has got one.
pub open spec fn inserted(
    before: &AppState,
    after: &AppState,
    commands: Seq<Command>,
    at: int,
    bodies: Seq<BodyAssignment>,
    corners: Seq<Point>,
) -> bool {
    let scene = before.scenes@[at].scene;
    let statics = static_bodies_in(bodies, bodies.len());
    let regions = island_regions(bodies, corners, bodies.len());
    let runners = before.scenes@[at].runners@;
    let broadcast = if statics.len() == 0 {
        0
    } else {
        runners.len() as int
    };
    &&& assigned_more(before, after, scene, regions)
    &&& after.scenes@.len() == before.scenes@.len()
    &&& forall|j: int|
        0 <= j < before.scenes@.len() && j != at ==> #[trigger] after.scenes@[j]
            == before.scenes@[j]
    &&& after.scenes@[at].scene == scene
    &&& after.scenes@[at].children_bounds == before.scenes@[at].children_bounds
    &&& after.scenes@[at].runners == before.scenes@[at].runners
    &&& after.scenes@[at].acks == before.scenes@[at].acks
    &&& after.scenes@[at].static_bodies@ == before.scenes@[at].static_bodies@ + statics
    &&& commands.len() == broadcast + 2 * regions.len()
    &&& forall|c: int|
        0 <= c < broadcast ==> is_static_command(
            #[trigger] commands[c],
            runners[c].uuid,
            bodies_view(statics),
        )
    &&& forall|k: int|
        0 <= k < regions.len() ==> island_sent(
            after,
            commands,
            broadcast + 2 * k,
            scene,
            #[trigger] regions[k],
            island_bodies(bodies, corners, regions[k], bodies.len()),
        )
}

impl AppState {
    /// Lets bodies enter a scene. `corners` gives the upper corner of the
    /// extent of each body, rounded down, in the order of the bodies.
    ///
    /// The request is refused as a whole, and nothing changes, for a scene
    /// that has been removed or that the coordinator does not run, and where
    /// a body that forces move has its upper corner beyond the range of
    /// coordinates or a region that has no worker and cannot get one.
    pub fn insert_objects(&mut self, payload: InsertObjectsRequest, corners: &Vec<Point>) -> (r: Result<Vec<Command>, StatusCode>)
        requires
            old(self).wf(),
            corners@.len() == payload.bodies@.len(),
        ensures
            final(self).wf(),
            r.is_ok() == old(self).accepts(payload.scene, payload.bodies@, corners@),
            r.is_err() ==> *final(self) == *old(self),
            r.is_ok() ==> forall|at: int|
                0 <= at < old(self).scenes@.len() && (#[trigger] old(self).scenes@[at]).scene
                    == payload.scene ==> inserted(
                    old(self),
                    final(self),
                    r.unwrap()@,
                    at,
                    payload.bodies@,
                    corners@,
                ),
    {
        let ghost all = payload.bodies@;
        let scene = payload.scene;
        if self.has_exited(scene) {
            return Err(StatusCode::BadRequest);
        }
        let Some(at) = self.find_scene(scene) else {
            return Err(StatusCode::BadRequest);
        };
        proof {
            self.lemma_scene_unique(at as int);
        }
        if !self.can_place_all(scene, &payload.bodies, corners) {
            return Err(StatusCode::BadRequest);
        }
        let (islands, statics) = self.place_bodies(scene, payload.bodies, corners);
        let ghost placed = *self;
        let ghost regions = island_regions(all, corners@, all.len());
        let ghost groups = islands@;
        let mut commands: Vec<Command> = Vec::new();
        // The bodies that do not move go to every worker of the scene.
        if statics.len() > 0 {
            let n = self.scenes[at].runners.len();
            let mut c: usize = 0;
            while c < n
                invariant
                    c <= n,
                    at < self.scenes@.len(),
                    n == self.scenes@[at as int].runners@.len(),
                    commands@.len() == c,
                    forall|d: int|
                        0 <= d < c ==> is_static_command(
                            #[trigger] commands@[d],
                            self.scenes@[at as int].runners@[d].uuid,
                            bodies_view(statics@),
                        ),
                decreases n - c,
            {
                let ghost sent = commands@;
                let copy = clone_bodies(&statics);
                commands.push(
                    Command::SendRunner {
                        uuid: self.scenes[at].runners[c].uuid,
                        message: RunnerMessage::AssignStaticBodies { bodies: copy },
                    },
                );
                assert forall|d: int| 0 <= d < c + 1 implies is_static_command(
                    #[trigger] commands@[d],
                    self.scenes@[at as int].runners@[d].uuid,
                    bodies_view(statics@),
                ) by {
                    if d < c {
                        assert(commands@[d] == sent[d]);
                    }
                }
                c += 1;
            }
        }
        let ghost broadcast = commands@;
        // The bodies that move go to the workers of their regions.
        let mut islands = islands;
        let mut rest = take_reversed(&mut islands);
        let m = rest.len();
        assert(rest@ =~= groups.reverse().take(m as int));
        let mut k: usize = 0;
        while k < m
            invariant
                k <= m,
                m == groups.len(),
                m == regions.len(),
                rest@ == groups.reverse().take(m - k),
                *self == placed,
                commands@.len() == broadcast.len() + 2 * k,
                commands@.take(broadcast.len() as int) == broadcast,
                forall|g: int|
                    0 <= g < groups.len() ==> {
                        &&& (#[trigger] groups[g]).region == regions[g]
                        &&& groups[g].bodies@ == island_bodies(
                            all,
                            corners@,
                            groups[g].region,
                            all.len(),
                        )
                        &&& placed.is_assigned(scene, groups[g].region, groups[g].runner)
                    },
                forall|g: int|
                    0 <= g < k ==> island_sent(
                        &placed,
                        commands@,
                        broadcast.len() + 2 * g,
                        scene,
                        #[trigger] regions[g],
                        island_bodies(all, corners@, regions[g], all.len()),
                    ),
            decreases m - k,
        {
            let ghost sent = commands@;
            let island = rest.pop().unwrap();
            assert(island == groups.reverse()[m - 1 - k]);
            assert(island == groups[k as int]);
            assert(rest@ =~= groups.reverse().take(m - k - 1));
            let Island { region, runner, bodies } = island;
            commands.push(
                Command::SendRunner {
                    uuid: runner,
                    message: RunnerMessage::AssignIsland {
                        scene,
                        region,
                        bodies,
                        impulse_joints: Vec::new(),
                    },
                },
            );
            commands.push(
                Command::SendRunner { uuid: runner, message: RunnerMessage::SyncClientObjects },
            );
            proof {
                assert(commands@.take(broadcast.len() as int) =~= sent.take(
                    broadcast.len() as int,
                ));
                assert forall|g: int| 0 <= g < k + 1 implies island_sent(
                    &placed,
                    commands@,
                    broadcast.len() + 2 * g,
                    scene,
                    #[trigger] regions[g],
                    island_bodies(all, corners@, regions[g], all.len()),
                ) by {
                    if g < k {
                        let at_g = broadcast.len() + 2 * g;
                        assert(island_sent(
                            &placed,
                            sent,
                            at_g,
                            scene,
                            regions[g],
                            island_bodies(all, corners@, regions[g], all.len()),
                        ));
                        let uuid = choose|uuid: u128| #[trigger]
                            placed.is_assigned(scene, regions[g], uuid) && is_island_command(
                                sent[at_g],
                                uuid,
                                scene,
                                regions[g],
                                island_bodies(all, corners@, regions[g], all.len()),
                            ) && is_sync_command(sent[at_g + 1], uuid);
                        assert(commands@[at_g] == sent[at_g]);
                        assert(commands@[at_g + 1] == sent[at_g + 1]);
                    } else {
                        let at_k = broadcast.len() + 2 * k;
                        assert(placed.is_assigned(scene, regions[g], runner));
                        assert(is_island_command(
                            commands@[at_k],
                            runner,
                            scene,
                            regions[g],
                            island_bodies(all, corners@, regions[g], all.len()),
                        ));
                        assert(is_sync_command(commands@[at_k + 1], runner));
                    }
                }
            }
            k += 1;
        }
        // The bodies that do not move stay with the scene.
        let ghost sent = commands@;
        let ghost kept = statics@;
        let mut statics = statics;
        self.scenes[at].static_bodies.append(&mut statics);
        proof {
            assert forall|c: int| 0 <= c < broadcast.len() implies #[trigger] sent[c]
                == broadcast[c] by {
                assert(sent.take(broadcast.len() as int)[c] == sent[c]);
            }
            assert forall|g: int| 0 <= g < regions.len() implies island_sent(
                self,
                sent,
                broadcast.len() + 2 * g,
                scene,
                #[trigger] regions[g],
                island_bodies(all, corners@, regions[g], all.len()),
            ) by {
                let at_g = broadcast.len() + 2 * g;
                assert(island_sent(
                    &placed,
                    sent,
                    at_g,
                    scene,
                    regions[g],
                    island_bodies(all, corners@, regions[g], all.len()),
                ));
                let uuid = choose|uuid: u128| #[trigger]
                    placed.is_assigned(scene, regions[g], uuid) && is_island_command(
                        sent[at_g],
                        uuid,
                        scene,
                        regions[g],
                        island_bodies(all, corners@, regions[g], all.len()),
                    ) && is_sync_command(sent[at_g + 1], uuid);
                assert(self.runners.assigned == placed.runners.assigned);
                assert(self.is_assigned(scene, regions[g], uuid));
            }
            assert forall|i: int, j: int| 0 <= i < j < self.scenes@.len() implies
                self.scenes@[i].scene != self.scenes@[j].scene by {
                assert(placed.scenes@[i].scene != placed.scenes@[j].scene);
            }
            assert forall|i: int| 0 <= i < self.scenes@.len() implies
                crate::partitionner::geometry::all_bounded(
                (#[trigger] self.scenes@[i]).children_bounds@,
            ) by {
                assert(crate::partitionner::geometry::all_bounded(
                    placed.scenes@[i].children_bounds@,
                ));
            }
        }
        Ok(commands)
    }
}

} // verus!
