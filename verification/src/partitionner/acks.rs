//! The count of acknowledgements that drives the steps of a scene.

use crate::api_types::partitionner::NUM_INTERNAL_STEPS;
use vstd::prelude::*;

verus! {

/// Where a scene stands in its steps, as its coordinator sees it.
#[derive(Copy, Clone, Debug, PartialEq, Eq, Structural)]
pub struct SceneAcks {
    /// How many acknowledgements of the step that runs are still due.
    pub pending_acks: u64,
    /// The step that runs; once its last acknowledgement is in, the step to run next.
    pub step_id: u64,
    /// The last step that the clients have asked for.
    pub step_limit: u64,
    /// Whether the scene steps on as acknowledgements come in.
    pub running: bool,
}

/// What a coordinator does when an acknowledgement has been counted.
#[derive(Copy, Clone, Debug, PartialEq, Eq, Structural)]
pub enum AckOutcome {
    /// Nothing: the acknowledgement was not due, or others are still due.
    Wait,
    /// The step is complete and the step with this number is to be started.
    StartStep(u64),
    /// The step is complete and no further step is started.
    Rest,
    /// The step is complete on this host, and the parent is to be told.
    AckParent,
}

impl Default for SceneAcks {
    /// A scene that has not run a step.
    fn default() -> (r: Self)
        ensures
            r == SceneAcks::initial(),
    {
        SceneAcks { pending_acks: 0, step_id: 0, step_limit: 0, running: false }
    }
}

/// The number that follows `step_id`.
pub open spec fn following(step_id: u64) -> u64 {
    if step_id < u64::MAX {
        (step_id + 1) as u64
    } else {
        step_id
    }
}

impl SceneAcks {
    /// A scene that has not run a step.
    pub open spec fn initial() -> SceneAcks {
        SceneAcks { pending_acks: 0, step_id: 0, step_limit: 0, running: false }
    }

    /// The count once the step `step_id` has been handed to `fanout` receivers.
    pub open spec fn after_step(self, step_id: u64, fanout: u64) -> SceneAcks {
        SceneAcks { pending_acks: fanout, step_id, ..self }
    }

    /// The count once an acknowledgement has come in, and what is done about it.
    ///
    /// An acknowledgement that is not due changes nothing. The last one that
    /// is due completes the step. A coordinator that drives the scene then
    /// moves on to the next number, and starts that step if the clients have
    /// asked for it and the scene is running; if they have not asked for it,
    /// the scene rests until they do. A child coordinator tells its parent.
    pub open spec fn after_ack(self, drives: bool) -> (SceneAcks, AckOutcome) {
        if self.pending_acks == 0 {
            (self, AckOutcome::Wait)
        } else if self.pending_acks > 1 {
            (SceneAcks { pending_acks: (self.pending_acks - 1) as u64, ..self }, AckOutcome::Wait)
        } else if !drives {
            (SceneAcks { pending_acks: 0, ..self }, AckOutcome::AckParent)
        } else if self.step_id < self.step_limit {
            if self.running {
                (
                    SceneAcks { pending_acks: 0, step_id: following(self.step_id), ..self },
                    AckOutcome::StartStep(following(self.step_id)),
                )
            } else {
                (
                    SceneAcks { pending_acks: 0, step_id: following(self.step_id), ..self },
                    AckOutcome::Rest,
                )
            }
        } else {
            (
                SceneAcks {
                    pending_acks: 0,
                    step_id: following(self.step_id),
                    running: false,
                    ..self
                },
                AckOutcome::Rest,
            )
        }
    }

    /// The count once `n` acknowledgements have come in and been counted, one
    /// after the other.
    pub open spec fn after_acks(self, drives: bool, n: nat) -> SceneAcks
        decreases n,
    {
        if n == 0 {
            self
        } else {
            self.after_acks(drives, (n - 1) as nat).after_ack(drives).0
        }
    }

    /// The limit once a client has shown that it has seen the step `step_id`
    /// of the engine: two steps of the scene beyond the one that holds it, and
    /// never less than before.
    pub open spec fn raised_limit(self, step_id: u64) -> u64 {
        let wanted = (step_id / NUM_INTERNAL_STEPS + 2) as u64;
        if wanted > self.step_limit {
            wanted
        } else {
            self.step_limit
        }
    }

    /// The count once the scene has been told to run, and the step that is
    /// started by that, if one is. A scene that runs already runs on. A scene
    /// that rested starts the step that is next, if the clients have asked for
    /// it; else it goes on resting.
    pub open spec fn after_start(self, fanout: u64) -> (SceneAcks, Option<u64>) {
        if self.running {
            (self, None)
        } else if self.step_id < self.step_limit {
            (SceneAcks { running: true, pending_acks: fanout, ..self }, Some(self.step_id))
        } else {
            (self, None)
        }
    }

    /// The count once the scene has been told to rest.
    pub open spec fn after_stop(self) -> SceneAcks {
        SceneAcks { running: false, ..self }
    }

    /// A scene that has not run a step.
    pub fn new() -> (r: Self)
        ensures
            r == Self::initial(),
    {
        SceneAcks { pending_acks: 0, step_id: 0, step_limit: 0, running: false }
    }

    /// Counts an acknowledgement.
    pub fn ack(&mut self, drives: bool) -> (outcome: AckOutcome)
        ensures
            (*final(self), outcome) == old(self).after_ack(drives),
    {
        if self.pending_acks == 0 {
            return AckOutcome::Wait;
        }
        self.pending_acks = self.pending_acks - 1;
        if self.pending_acks > 0 {
            return AckOutcome::Wait;
        }
        if !drives {
            return AckOutcome::AckParent;
        }
        let complete = self.step_id;
        if self.step_id < u64::MAX {
            self.step_id = self.step_id + 1;
        }
        if complete < self.step_limit {
            if self.running {
                AckOutcome::StartStep(self.step_id)
            } else {
                AckOutcome::Rest
            }
        } else {
            self.running = false;
            AckOutcome::Rest
        }
    }

    /// Takes note that the step `step_id` has been handed to `fanout` receivers.
    pub fn begin_step(&mut self, step_id: u64, fanout: u64)
        ensures
            *final(self) == old(self).after_step(step_id, fanout),
    {
        self.pending_acks = fanout;
        self.step_id = step_id;
    }

    /// Tells the scene to run; returns the step to start, if one is to be started.
    pub fn start(&mut self, fanout: u64) -> (step: Option<u64>)
        ensures
            (*final(self), step) == old(self).after_start(fanout),
    {
        if self.running {
            None
        } else if self.step_id < self.step_limit {
            self.running = true;
            self.pending_acks = fanout;
            Some(self.step_id)
        } else {
            None
        }
    }

    /// Tells the scene to rest.
    pub fn stop(&mut self)
        ensures
            *final(self) == old(self).after_stop(),
    {
        self.running = false;
    }

    /// Raises the limit for a client that has seen the step `step_id` of the engine.
    pub fn raise_limit(&mut self, step_id: u64)
        ensures
            *final(self) == (SceneAcks { step_limit: old(self).raised_limit(step_id), ..*old(self) }),
            final(self).step_limit >= old(self).step_limit,
    {
        let wanted = step_id / NUM_INTERNAL_STEPS + 2;
        if wanted > self.step_limit {
            self.step_limit = wanted;
        }
    }

    /// While fewer acknowledgements have come in than a step was handed out to
    /// receivers, the coordinator waits: no acknowledgement starts a step, and
    /// the number of the step stays.
    pub proof fn lemma_waits_for_all_acks(self, drives: bool, n: nat)
        requires
            n < self.pending_acks,
        ensures
            self.after_acks(drives, n).pending_acks == self.pending_acks - n,
            self.after_acks(drives, n).step_id == self.step_id,
            self.after_acks(drives, n).step_limit == self.step_limit,
            self.after_acks(drives, n).running == self.running,
            self.after_acks(drives, n).after_ack(drives).1 is StartStep ==> n + 1
                == self.pending_acks,
            n + 1 < self.pending_acks ==> self.after_acks(drives, n).after_ack(drives).1 is Wait,
        decreases n,
    {
        if n > 0 {
            self.lemma_waits_for_all_acks(drives, (n - 1) as nat);
        }
    }

    /// The acknowledgement that completes a step starts the next one exactly
    /// when the coordinator drives the scene, the scene is running, and the
    /// clients have asked for more than the step that is complete. The step
    /// that is started is the one that follows.
    pub proof fn lemma_last_ack_starts_next(self, drives: bool)
        requires
            self.pending_acks > 0,
        ensures
            self.after_acks(drives, (self.pending_acks - 1) as nat).after_ack(drives).1
                is StartStep <==> drives && self.running && self.step_id < self.step_limit,
            self.after_acks(drives, (self.pending_acks - 1) as nat).after_ack(drives).1
                is StartStep ==> self.after_acks(
                drives,
                (self.pending_acks - 1) as nat,
            ).after_ack(drives).1 == AckOutcome::StartStep((self.step_id + 1) as u64),
    {
        self.lemma_waits_for_all_acks(drives, (self.pending_acks - 1) as nat);
    }
}

} // verus!
