//! The coordinator as a state machine over plain mathematical values: its
//! states, and what each event does to them.

use vstd::prelude::*;
use crate::error::{JobFailure, RenewalError, ShutdownTimeout, StoreError};
use crate::evaluator::due_identities;
use crate::event::{ActionView, EventView};
use crate::job::{JobStage, JobView, OutcomeView};
use crate::policy::{PolicyView, backoff_delay};
use crate::record::RecordView;
use crate::time::Timestamp;

verus! {

/// What the coordinator is doing as a whole.
#[derive(Debug, Clone, Copy, PartialEq, Eq, Structural)]
pub enum Mode {
    /// No job is left; the next tick is awaited.
    Idle,
    /// A tick has come; the store is being read.
    Scanning,
    /// Jobs are being worked on.
    Active,
    /// Cancellation was asked for; what is in flight may still finish.
    Cancelling,
    /// Nothing happens any more.
    Stopped,
}

/// What the coordinator is doing, as seen from outside.
#[derive(Debug, Clone, Copy, PartialEq, Eq, Structural)]
pub enum Phase {
    /// No job is left; the next tick is awaited.
    Idle,
    /// A tick has come; the store is being read.
    Scanning,
    /// Jobs are being worked on, `in_flight` of them holding a slot.
    Renewing { in_flight: usize },
    /// Every job that is left has its certificate and is being committed.
    Committing,
    /// Cancellation was asked for; what is in flight may still finish.
    Cancelling,
    /// Nothing happens any more.
    Stopped,
}

/// Every job is being committed.
pub open spec fn all_committing(jobs: Seq<JobView>) -> bool {
    forall|i: int| 0 <= i < jobs.len() ==> (#[trigger] jobs[i]).stage is Committing
}

/// The state of the coordinator.
pub struct CoordinatorView {
    pub policy: PolicyView,
    pub grace_secs: u64,
    pub mode: Mode,
    pub jobs: Seq<JobView>,
    pub abandoned: nat,
    pub forced: bool,
}

/// A state together with the actions that led to it.
pub type Transition = (CoordinatorView, Seq<ActionView>);

/// The test for a job that holds a slot.
pub open spec fn holds_slot() -> spec_fn(JobView) -> bool {
    |job: JobView| job.stage.in_flight()
}

/// The jobs that hold a slot, in their order.
pub open spec fn in_flight_jobs(jobs: Seq<JobView>) -> Seq<JobView> {
    jobs.filter(holds_slot())
}

/// The number of jobs that hold a slot.
pub open spec fn in_flight_count(jobs: Seq<JobView>) -> nat {
    in_flight_jobs(jobs).len()
}

/// No two jobs are about the same identity set.
pub open spec fn distinct_jobs(jobs: Seq<JobView>) -> bool {
    forall|i: int, j: int|
        0 <= i < j < jobs.len() ==> (#[trigger] jobs[i]).identity != (#[trigger] jobs[j]).identity
}

/// Some job waits for a slot.
pub open spec fn has_queued(jobs: Seq<JobView>) -> bool {
    exists|i: int| 0 <= i < jobs.len() && (#[trigger] jobs[i]).stage is Queued
}

/// Some job is about `identity`.
pub open spec fn has_job(jobs: Seq<JobView>, identity: Set<Seq<char>>) -> bool {
    exists|i: int| 0 <= i < jobs.len() && (#[trigger] jobs[i]).identity == identity
}

/// The place of the job that is about `identity`, if there is one.
pub open spec fn job_index(jobs: Seq<JobView>, identity: Set<Seq<char>>) -> Option<int> {
    if has_job(jobs, identity) {
        Some(choose|i: int| 0 <= i < jobs.len() && (#[trigger] jobs[i]).identity == identity)
    } else {
        None
    }
}

/// One fresh job for each identity set, in their order.
pub open spec fn fresh_jobs(identities: Seq<Set<Seq<char>>>) -> Seq<JobView> {
    Seq::new(identities.len(), |i: int| JobView::fresh(identities[i]))
}

/// The number of requests that a job may have made, by its stage: a job that
/// waits has at least one request left, and one that was started has made at
/// least one.
pub open spec fn job_within_budget(job: JobView, max_attempts: u32) -> bool {
    match job.stage {
        JobStage::Queued => job.attempts < max_attempts,
        JobStage::Backoff => 1 <= job.attempts < max_attempts,
        JobStage::Renewing => 1 <= job.attempts <= max_attempts,
        JobStage::Committing => 1 <= job.attempts <= max_attempts,
    }
}

/// Gives the first `slots` queued jobs a slot each, from the front: the jobs
/// afterwards, and a request for each job that was started.
pub open spec fn dispatch(jobs: Seq<JobView>, slots: nat) -> (Seq<JobView>, Seq<ActionView>)
    decreases jobs.len(),
{
    if jobs.len() == 0 {
        (Seq::empty(), Seq::empty())
    } else if jobs.first().stage is Queued && slots > 0 {
        let rest = dispatch(jobs.drop_first(), (slots - 1) as nat);
        (
            seq![jobs.first().started()] + rest.0,
            seq![ActionView::Request { identity: jobs.first().identity }] + rest.1,
        )
    } else {
        let rest = dispatch(jobs.drop_first(), slots);
        (seq![jobs.first()] + rest.0, rest.1)
    }
}

impl CoordinatorView {
    /// The state in which a coordinator begins.
    pub open spec fn initial(policy: PolicyView, grace_secs: u64) -> CoordinatorView {
        CoordinatorView {
            policy,
            grace_secs,
            mode: Mode::Idle,
            jobs: Seq::empty(),
            abandoned: 0,
            forced: false,
        }
    }

    /// What holds of every state that a coordinator can reach: no two jobs
    /// are about the same identity set; every job is within its budget of
    /// attempts; no more jobs hold a slot than the policy allows, and while
    /// a job waits for a slot every slot is taken; the jobs fit what the
    /// coordinator is doing; and only a stopped coordinator was forced.
    pub open spec fn wf(self) -> bool {
        &&& self.policy.valid()
        &&& distinct_jobs(self.jobs)
        &&& forall|i: int|
            0 <= i < self.jobs.len() ==> job_within_budget(#[trigger] self.jobs[i], self.policy.max_attempts)
        &&& in_flight_count(self.jobs) <= self.policy.max_concurrent
        &&& match self.mode {
            Mode::Idle => self.jobs.len() == 0 && self.abandoned == 0,
            Mode::Scanning => self.jobs.len() == 0 && self.abandoned == 0,
            Mode::Active => self.jobs.len() > 0 && self.abandoned == 0 && (has_queued(self.jobs)
                ==> in_flight_count(self.jobs) == self.policy.max_concurrent),
            Mode::Cancelling => self.jobs.len() > 0 && forall|i: int|
                0 <= i < self.jobs.len() ==> (#[trigger] self.jobs[i]).stage.in_flight(),
            Mode::Stopped => self.jobs.len() == 0,
        }
        &&& self.forced ==> self.mode is Stopped
    }

    /// What the coordinator is doing, as seen from outside.
    pub open spec fn phase(self) -> Phase {
        match self.mode {
            Mode::Idle => Phase::Idle,
            Mode::Scanning => Phase::Scanning,
            Mode::Active => if all_committing(self.jobs) {
                Phase::Committing
            } else {
                Phase::Renewing { in_flight: in_flight_count(self.jobs) as usize }
            },
            Mode::Cancelling => Phase::Cancelling,
            Mode::Stopped => Phase::Stopped,
        }
    }

    /// How the coordinator came to a stop, once it has: in good order, or by
    /// force with so many jobs given up.
    pub open spec fn shutdown(self) -> Option<Result<(), ShutdownTimeout>> {
        if !(self.mode is Stopped) {
            None
        } else if self.forced {
            Some(Err(ShutdownTimeout { abandoned: self.abandoned as usize }))
        } else {
            Some(Ok(()))
        }
    }

    /// The slots that no job holds.
    pub open spec fn free_slots(self) -> nat {
        if in_flight_count(self.jobs) <= self.policy.max_concurrent {
            (self.policy.max_concurrent - in_flight_count(self.jobs)) as nat
        } else {
            0
        }
    }

    /// The same state with other jobs.
    pub open spec fn with_jobs(self, jobs: Seq<JobView>) -> CoordinatorView {
        CoordinatorView { jobs, ..self }
    }

    /// Nothing changes and nothing is asked for.
    pub open spec fn ignore(self) -> Transition {
        (self, Seq::empty())
    }

    /// What follows a change to the jobs. While active, free slots go to the
    /// queued jobs, and with no job left the coordinator goes idle. While
    /// cancelling, with no job left it stops.
    pub open spec fn settle(self) -> Transition {
        match self.mode {
            Mode::Active => {
                let started = dispatch(self.jobs, self.free_slots());
                if started.0.len() == 0 {
                    (
                        CoordinatorView { mode: Mode::Idle, jobs: started.0, ..self },
                        started.1.push(ActionView::AwaitTick),
                    )
                } else {
                    (self.with_jobs(started.0), started.1)
                }
            },
            Mode::Cancelling => {
                if self.jobs.len() == 0 {
                    (
                        CoordinatorView { mode: Mode::Stopped, ..self },
                        seq![ActionView::Halt { abandoned: self.abandoned, forced: false }],
                    )
                } else {
                    self.ignore()
                }
            },
            _ => self.ignore(),
        }
    }

    /// The actions `first`, then what settling asks for.
    pub open spec fn settle_after(self, first: Seq<ActionView>) -> Transition {
        (self.settle().0, first + self.settle().1)
    }

    /// The job at place `i` ends in failure: it leaves, and the failure is
    /// made known.
    pub open spec fn fail_job(self, i: int, failure: JobFailure) -> Transition {
        self.with_jobs(self.jobs.remove(i)).settle_after(
            seq![
                ActionView::ReportFailure {
                    identity: self.jobs[i].identity,
                    failure,
                    attempts: self.jobs[i].attempts,
                },
            ],
        )
    }

    /// A tick starts a scan when the coordinator is idle, and is passed over
    /// otherwise.
    pub open spec fn on_tick(self) -> Transition {
        if self.mode is Idle {
            (CoordinatorView { mode: Mode::Scanning, ..self }, seq![ActionView::ListStore])
        } else {
            self.ignore()
        }
    }

    /// The records that a scan was waiting for: each identity set that is
    /// due gets a job, and as many of them are started as there are slots.
    pub open spec fn on_listed(self, records: Seq<RecordView>, now: Timestamp) -> Transition {
        if self.mode is Scanning {
            CoordinatorView {
                mode: Mode::Active,
                jobs: fresh_jobs(due_identities(records, self.policy, now)),
                ..self
            }.settle()
        } else {
            self.ignore()
        }
    }

    /// The answer to a request. A record for the identity set that was asked
    /// for goes on to be committed; one for another identity set counts as a
    /// protocol failure. A network failure is tried again after a wait,
    /// while the job has attempts left and no cancellation is under way.
    /// Every other failure ends the job.
    pub open spec fn on_renewed(self, identity: Set<Seq<char>>, outcome: OutcomeView) -> Transition {
        match job_index(self.jobs, identity) {
            Some(i) => {
                let job = self.jobs[i];
                if !(job.stage is Renewing) {
                    self.ignore()
                } else {
                    match outcome {
                        OutcomeView::Success(record) => {
                            if record.identity == identity {
                                self.with_jobs(
                                    self.jobs.update(i, job.at(JobStage::Committing)),
                                ).settle_after(seq![ActionView::Commit { record }])
                            } else {
                                self.fail_job(i, JobFailure::Renewal(RenewalError::Protocol))
                            }
                        },
                        OutcomeView::Failure(error) => {
                            if error.retryable() && job.attempts < self.policy.max_attempts
                                && self.mode is Active {
                                self.with_jobs(self.jobs.update(i, job.backing_off(error))).settle_after(
                                    seq![
                                        ActionView::Retry {
                                            identity: job.identity,
                                            delay_secs: backoff_delay(
                                                self.policy.backoff_base_secs,
                                                (job.attempts - 1) as nat,
                                            ) as nat,
                                        },
                                    ],
                                )
                            } else {
                                self.fail_job(i, JobFailure::Renewal(error))
                            }
                        },
                    }
                }
            },
            None => self.ignore(),
        }
    }

    /// The wait of a job is over: it queues for a slot again.
    pub open spec fn on_retry_ready(self, identity: Set<Seq<char>>) -> Transition {
        match job_index(self.jobs, identity) {
            Some(i) => {
                if self.jobs[i].stage is Backoff {
                    self.with_jobs(self.jobs.update(i, self.jobs[i].at(JobStage::Queued))).settle()
                } else {
                    self.ignore()
                }
            },
            None => self.ignore(),
        }
    }

    /// A commit has ended. The job is done either way; a failure of the
    /// store is made known.
    pub open spec fn on_committed(self, identity: Set<Seq<char>>, result: Result<(), StoreError>) -> Transition {
        match job_index(self.jobs, identity) {
            Some(i) => {
                if self.jobs[i].stage is Committing {
                    match result {
                        Ok(_) => self.with_jobs(self.jobs.remove(i)).settle(),
                        Err(error) => self.fail_job(i, JobFailure::Store(error)),
                    }
                } else {
                    self.ignore()
                }
            },
            None => self.ignore(),
        }
    }

    /// Cancellation. The jobs that hold no slot are given up at once; those
    /// in flight get the grace period to finish. Where nothing is in flight
    /// the coordinator stops on the spot. A second request changes nothing.
    pub open spec fn on_cancel(self) -> Transition {
        if self.mode is Cancelling || self.mode is Stopped {
            self.ignore()
        } else {
            let kept = in_flight_jobs(self.jobs);
            let cancelling = CoordinatorView {
                mode: Mode::Cancelling,
                jobs: kept,
                abandoned: (self.jobs.len() - kept.len()) as nat,
                ..self
            };
            if kept.len() == 0 {
                cancelling.settle()
            } else {
                (cancelling, seq![ActionView::AwaitGrace { grace_secs: self.grace_secs }])
            }
        }
    }

    /// The grace period is over while jobs are still in flight: they are
    /// given up, and the coordinator stops by force.
    pub open spec fn on_grace_expired(self) -> Transition {
        if self.mode is Cancelling {
            let abandoned = self.abandoned + self.jobs.len();
            (
                CoordinatorView {
                    mode: Mode::Stopped,
                    jobs: Seq::empty(),
                    abandoned,
                    forced: true,
                    ..self
                },
                seq![ActionView::Halt { abandoned, forced: true }],
            )
        } else {
            self.ignore()
        }
    }

    /// The state after the events of `events`, one after the other.
    pub open spec fn after(self, events: Seq<EventView>) -> CoordinatorView
        decreases events.len(),
    {
        if events.len() == 0 {
            self
        } else {
            self.after(events.drop_last()).next(events.last()).0
        }
    }

    /// The state after `event`, and the actions that the event calls for.
    pub open spec fn next(self, event: EventView) -> Transition {
        match event {
            EventView::Tick => self.on_tick(),
            EventView::Listed { records, now } => self.on_listed(records, now),
            EventView::Renewed { identity, outcome } => self.on_renewed(identity, outcome),
            EventView::RetryReady { identity } => self.on_retry_ready(identity),
            EventView::Committed { identity, result } => self.on_committed(identity, result),
            EventView::CancelRequested => self.on_cancel(),
            EventView::GraceExpired => self.on_grace_expired(),
        }
    }
}

} // verus!
