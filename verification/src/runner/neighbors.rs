//! The other simulators that a simulator talks to, and how each is reached.

use crate::api_types::simulation::SimulationBounds;
use vstd::prelude::*;

verus! {

/// How the simulator of a region is reached.
#[derive(Copy, Clone, Debug, PartialEq, Eq, Structural)]
pub enum NeighborRunner {
    /// It runs in this worker, and is reached through the worker's own queue.
    Local,
    /// It runs in the worker `uuid`, and is reached through that worker's command queue.
    Remote { uuid: u128 },
}

/// The simulators that a simulator has talked to.
pub struct Neighbors {
    pub runners: Vec<(SimulationBounds, NeighborRunner)>,
}

/// Whether `region` stands in `regions`.
fn contains_region(regions: &Vec<SimulationBounds>, region: SimulationBounds) -> (r: bool)
    ensures
        r == regions@.contains(region),
{
    let mut i: usize = 0;
    while i < regions.len()
        invariant
            i <= regions@.len(),
            forall|j: int| 0 <= j < i ==> regions@[j] != region,
        decreases regions@.len() - i,
    {
        if regions[i] == region {
            return true;
        }
        i += 1;
    }
    false
}

impl Neighbors {
    /// Whether no region is listed twice.
    pub open spec fn wf(&self) -> bool {
        forall|i: int, j: int|
            0 <= i < j < self.runners@.len() ==> self.runners@[i].0 != self.runners@[j].0
    }

    /// Whether it is known how the simulator of `region` is reached.
    pub open spec fn knows(&self, region: SimulationBounds) -> bool {
        exists|i: int| 0 <= i < self.runners@.len() && (#[trigger] self.runners@[i]).0 == region
    }

    /// Whether the simulator of `region` is known to be reached by `runner`.
    pub open spec fn reaches(&self, region: SimulationBounds, runner: NeighborRunner) -> bool {
        exists|i: int|
            0 <= i < self.runners@.len() && #[trigger] self.runners@[i] == (region, runner)
    }

    /// No simulator is known yet.
    pub fn new() -> (r: Self)
        ensures
            r.wf(),
            r.runners@.len() == 0,
    {
        Self { runners: Vec::new() }
    }

    /// Where `region` is listed, if it is.
    fn find(&self, region: SimulationBounds) -> (r: Option<usize>)
        ensures
            r.is_some() == self.knows(region),
            r.is_some() ==> r.unwrap() < self.runners@.len() && self.runners@[r.unwrap() as int].0
                == region,
    {
        let mut i: usize = 0;
        while i < self.runners.len()
            invariant
                i <= self.runners@.len(),
                forall|j: int| 0 <= j < i ==> (#[trigger] self.runners@[j]).0 != region,
            decreases self.runners@.len() - i,
        {
            if self.runners[i].0 == region {
                return Some(i);
            }
            i += 1;
        }
        None
    }

    /// Gets to know the simulators of `regions`, as far as this worker can
    /// tell: a region that is not known yet and that this worker simulates
    /// itself, as `local_regions` tells, is reached locally. The regions that
    /// are returned are those that remain unknown: for each of them, the
    /// coordinator is to be asked which worker simulates it, and the answer is
    /// to be handed to `runner_allocated`.
    pub fn spawn_neighbors(
        &mut self,
        local_regions: &Vec<SimulationBounds>,
        regions: &Vec<SimulationBounds>,
    ) -> (unknown: Vec<SimulationBounds>)
        requires
            old(self).wf(),
        ensures
            final(self).wf(),
            forall|region: SimulationBounds, runner: NeighborRunner|
                final(self).reaches(region, runner) <==> old(self).reaches(region, runner) || (
                runner == NeighborRunner::Local && regions@.contains(region) && !old(self).knows(
                    region,
                ) && local_regions@.contains(region)),
            forall|region: SimulationBounds| #[trigger]
                unknown@.contains(region) <==> regions@.contains(region) && !old(self).knows(
                    region,
                ) && !local_regions@.contains(region),
            forall|i: int, j: int| 0 <= i < j < unknown@.len() ==> unknown@[i] != unknown@[j],
    {
        let mut unknown: Vec<SimulationBounds> = Vec::new();
        let mut k: usize = 0;
        while k < regions.len()
            invariant
                k <= regions@.len(),
                self.wf(),
                forall|region: SimulationBounds, runner: NeighborRunner|
                    self.reaches(region, runner) <==> old(self).reaches(region, runner) || (runner
                        == NeighborRunner::Local && regions@.take(k as int).contains(region)
                        && !old(self).knows(region) && local_regions@.contains(region)),
                forall|region: SimulationBounds| #[trigger]
                    unknown@.contains(region) <==> regions@.take(k as int).contains(region)
                        && !old(self).knows(region) && !local_regions@.contains(region),
                forall|i: int, j: int| 0 <= i < j < unknown@.len() ==> unknown@[i] != unknown@[j],
            decreases regions@.len() - k,
        {
            let region = regions[k];
            let ghost before = *self;
            let ghost unknown_before = unknown@;
            let ghost seen = regions@.take(k as int);
            let ghost now = regions@.take(k + 1);
            assert(now =~= seen.push(region));
            assert forall|r: SimulationBounds| now.contains(r) <==> seen.contains(r) || r
                == region by {
                if seen.contains(r) {
                    let i = choose|i: int| 0 <= i < seen.len() && seen[i] == r;
                    assert(now[i] == r);
                }
                if r == region {
                    assert(now[seen.len() as int] == r);
                }
            }
            let known = self.find(region).is_some();
            if !known {
                if contains_region(local_regions, region) {
                    self.runners.push((region, NeighborRunner::Local));
                    proof {
                        assert(self.runners@[before.runners@.len() as int] == (
                            region,
                            NeighborRunner::Local,
                        ));
                        assert forall|i: int| 0 <= i < before.runners@.len() implies
                            #[trigger] self.runners@[i] == before.runners@[i] by {}
                        assert forall|r: SimulationBounds, runner: NeighborRunner|
                            self.reaches(r, runner) <==> before.reaches(r, runner) || (r, runner)
                                == (region, NeighborRunner::Local) by {
                            if before.reaches(r, runner) {
                                let i = choose|i: int|
                                    0 <= i < before.runners@.len() && #[trigger] before.runners@[i]
                                        == (r, runner);
                                assert(self.runners@[i] == (r, runner));
                            }
                            if self.reaches(r, runner) {
                                let i = choose|i: int|
                                    0 <= i < self.runners@.len() && #[trigger] self.runners@[i]
                                        == (r, runner);
                                if i < before.runners@.len() {
                                    assert(before.runners@[i] == (r, runner));
                                }
                            }
                        }
                        assert(!before.knows(region));
                        if old(self).knows(region) {
                            let i = choose|i: int|
                                0 <= i < old(self).runners@.len() && (
                                #[trigger] old(self).runners@[i]).0 == region;
                            assert(old(self).reaches(region, old(self).runners@[i].1));
                            assert(before.reaches(region, old(self).runners@[i].1));
                            let j = choose|j: int|
                                0 <= j < before.runners@.len() && #[trigger] before.runners@[j]
                                    == (region, old(self).runners@[i].1);
                            assert(before.runners@[j].0 == region);
                        }
                        assert(self.wf()) by {
                            assert forall|i: int, j: int|
                                0 <= i < j < self.runners@.len() implies self.runners@[i].0
                                != self.runners@[j].0 by {
                                if j == before.runners@.len() {
                                    assert(before.runners@[i].0 != region);
                                }
                            }
                        }
                    }
                } else if !contains_region(&unknown, region) {
                    unknown.push(region);
                    proof {
                        assert(unknown@[unknown_before.len() as int] == region);
                        assert forall|r: SimulationBounds| #[trigger]
                            unknown@.contains(r) <==> unknown_before.contains(r) || r == region by {
                            if unknown_before.contains(r) {
                                let i = choose|i: int|
                                    0 <= i < unknown_before.len() && unknown_before[i] == r;
                                assert(unknown@[i] == r);
                            }
                        }
                        if old(self).knows(region) {
                            let i = choose|i: int|
                                0 <= i < old(self).runners@.len() && (
                                #[trigger] old(self).runners@[i]).0 == region;
                            assert(old(self).reaches(region, old(self).runners@[i].1));
                            assert(before.reaches(region, old(self).runners@[i].1));
                            let j = choose|j: int|
                                0 <= j < before.runners@.len() && #[trigger] before.runners@[j]
                                    == (region, old(self).runners@[i].1);
                            assert(before.runners@[j].0 == region);
                        }
                    }
                } else {
                    proof {
                        assert(unknown@.contains(region));
                    }
                }
            } else {
                proof {
                    // A region that is known now was known before, or is reached locally.
                    let i = choose|i: int|
                        0 <= i < self.runners@.len() && (#[trigger] self.runners@[i]).0 == region;
                    assert(self.reaches(region, self.runners@[i].1));
                    if old(self).reaches(region, self.runners@[i].1) {
                        let j = choose|j: int|
                            0 <= j < old(self).runners@.len() && #[trigger] old(self).runners@[j]
                                == (region, self.runners@[i].1);
                        assert(old(self).runners@[j].0 == region);
                        assert(old(self).knows(region));
                    }
                }
            }
            k += 1;
        }
        assert(regions@.take(k as int) =~= regions@);
        unknown
    }

    /// Takes note of the answer of the coordinator: the worker `uuid`
    /// simulates `region`. Where that worker is this one, `my_uuid`, the
    /// region is reached locally. A region that is known already stays as it is.
    pub fn runner_allocated(&mut self, region: SimulationBounds, uuid: u128, my_uuid: u128)
        requires
            old(self).wf(),
        ensures
            final(self).wf(),
            old(self).knows(region) ==> final(self).runners@ == old(self).runners@,
            !old(self).knows(region) ==> final(self).runners@ == old(self).runners@.push(
                (
                    region,
                    if uuid == my_uuid {
                        NeighborRunner::Local
                    } else {
                        NeighborRunner::Remote { uuid }
                    },
                ),
            ),
            final(self).knows(region),
    {
        if self.find(region).is_none() {
            let runner = if uuid == my_uuid {
                NeighborRunner::Local
            } else {
                NeighborRunner::Remote { uuid }
            };
            let ghost before = self.runners@;
            self.runners.push((region, runner));
            proof {
                assert(self.runners@[before.len() as int].0 == region);
                assert forall|i: int, j: int| 0 <= i < j < self.runners@.len() implies
                    self.runners@[i].0 != self.runners@[j].0 by {
                    if j == before.len() {
                        assert(before[i].0 != region);
                    }
                }
            }
        }
    }

    /// Whether it is known how the simulator of `region` is reached.
    pub fn is_known(&self, region: SimulationBounds) -> (r: bool)
        ensures
            r == self.knows(region),
    {
        self.find(region).is_some()
    }

    /// How the simulator of `region` is reached.
    pub fn fetch_neighbor(&self, region: SimulationBounds) -> (runner: NeighborRunner)
        requires
            self.knows(region),
        ensures
            self.reaches(region, runner),
    {
        let found = self.find(region);
        self.runners[found.unwrap()].1
    }
}

} // verus!
