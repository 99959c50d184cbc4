//! The renewal coordinator: the state machine of `model`, on real values.
//!
//! The coordinator decides and never waits. Each call of
//! [`Coordinator::step`] takes one event, and gives back the coordinator
//! after it together with the actions that the event calls for.

use vstd::prelude::*;
use crate::error::{JobFailure, RenewalError, ShutdownTimeout, StoreError};
use crate::evaluator::due;
use crate::event::{Action, ActionView, Event, action_views};
use crate::identity::IdentitySet;
use crate::job::{JobStage, JobView, RenewalJob, RenewalOutcome, job_views};
use crate::invariants::{lemma_in_flight_jobs, lemma_initial_wf, lemma_job_index_unique, lemma_next_wf};
use crate::model::{
    CoordinatorView, Mode, Phase, all_committing, dispatch, distinct_jobs, fresh_jobs, holds_slot,
    in_flight_count, in_flight_jobs, job_index, job_within_budget,
};
use crate::policy::{RenewalPolicy, identity_views};
use crate::record::{CertificateRecord, record_views};
use crate::time::Timestamp;

verus! {

/// Starting `job`, should it be queued, cannot overflow its count of
/// attempts.
spec fn can_start(job: JobView) -> bool {
    job.stage is Queued ==> job.attempts < u32::MAX
}

/// The place of the job that is about `identity`, if there is one.
fn find_job(jobs: &Vec<RenewalJob>, identity: &IdentitySet) -> (r: Option<usize>)
    requires
        distinct_jobs(job_views(jobs@)),
    ensures
        r matches Some(i) ==> i < jobs.len(),
        job_index(job_views(jobs@), identity@) == match r {
            Some(i) => Some(i as int),
            None => None,
        },
{
    let mut i: usize = 0;
    while i < jobs.len()
        invariant
            i <= jobs.len(),
            distinct_jobs(job_views(jobs@)),
            forall|k: int| 0 <= k < i ==> (#[trigger] job_views(jobs@)[k]).identity != identity@,
        decreases jobs.len() - i,
    {
        if jobs[i].identity().same_as(identity) {
            proof {
                assert(job_views(jobs@)[i as int].identity == identity@);
                lemma_job_index_unique(job_views(jobs@), i as int);
            }
            return Some(i);
        }
        i += 1;
    }
    None
}

/// The number of jobs that hold a slot.
fn count_in_flight(jobs: &Vec<RenewalJob>) -> (r: usize)
    ensures
        r == in_flight_count(job_views(jobs@)),
{
    let ghost all = job_views(jobs@);
    let mut count: usize = 0;
    let mut i: usize = 0;
    proof {
        reveal(Seq::filter);
        assert(all.take(0) =~= Seq::<JobView>::empty());
    }
    while i < jobs.len()
        invariant
            i <= jobs.len(),
            all == job_views(jobs@),
            count <= i,
            count == in_flight_count(all.take(i as int)),
        decreases jobs.len() - i,
    {
        proof {
            all.take(i as int).lemma_filter_push(all[i as int], holds_slot());
            assert(all.take(i + 1) =~= all.take(i as int).push(all[i as int]));
        }
        if jobs[i].stage().in_flight() {
            count += 1;
        }
        i += 1;
    }
    assert(all.take(jobs.len() as int) =~= all);
    count
}

/// Gives the first `slots` queued jobs a slot each, from the front, and adds
/// a request to `actions` for each job that was started.
fn dispatch_jobs(jobs: &mut Vec<RenewalJob>, slots: usize, actions: &mut Vec<Action>)
    requires
        forall|k: int|
            0 <= k < old(jobs)@.len() ==> can_start(#[trigger] job_views(old(jobs)@)[k]),
    ensures
        final(jobs)@.len() == old(jobs)@.len(),
        job_views(final(jobs)@) == dispatch(job_views(old(jobs)@), slots as nat).0,
        action_views(final(actions)@) == action_views(old(actions)@) + dispatch(
            job_views(old(jobs)@),
            slots as nat,
        ).1,
{
    let ghost before = job_views(jobs@);
    let ghost asked = action_views(actions@);
    let ghost goal = dispatch(before, slots as nat);
    let mut left: usize = slots;
    let mut i: usize = 0;
    proof {
        assert(before.skip(0) =~= before);
        assert(job_views(jobs@).take(0) + goal.0 =~= goal.0);
        assert(asked + Seq::<ActionView>::empty() + goal.1 =~= asked + goal.1);
    }
    while i < jobs.len()
        invariant
            i <= jobs.len(),
            jobs.len() == before.len(),
            forall|k: int| i <= k < before.len() ==> (#[trigger] job_views(jobs@)[k]) == before[k],
            forall|k: int| 0 <= k < before.len() ==> can_start(#[trigger] before[k]),
            goal.0 == job_views(jobs@).take(i as int) + dispatch(before.skip(i as int), left as nat).0,
            asked + goal.1 == action_views(actions@) + dispatch(before.skip(i as int), left as nat).1,
        decreases jobs.len() - i,
    {
        let ghost views = job_views(jobs@);
        let ghost acts = action_views(actions@);
        let ghost tail = before.skip(i as int);
        proof {
            assert(tail.first() == before[i as int]);
            assert(tail.drop_first() =~= before.skip(i + 1));
            assert(views[i as int] == before[i as int]);
            assert(can_start(before[i as int]));
        }
        if jobs[i].stage() == JobStage::Queued && left > 0 {
            let identity = jobs[i].identity().clone();
            jobs[i].start();
            actions.push(Action::Request { identity });
            left -= 1;
            proof {
                let rest = dispatch(before.skip(i + 1), left as nat);
                assert(job_views(jobs@).take(i + 1) =~= views.take(i as int) + seq![
                    before[i as int].started(),
                ]);
                assert(job_views(jobs@).take(i + 1) + rest.0 =~= views.take(i as int) + (seq![
                    before[i as int].started(),
                ] + rest.0));
                assert(action_views(actions@) =~= acts.push(
                    ActionView::Request { identity: before[i as int].identity },
                ));
                assert(action_views(actions@) + rest.1 =~= acts + (seq![
                    ActionView::Request { identity: before[i as int].identity },
                ] + rest.1));
                assert forall|k: int| i + 1 <= k < before.len() implies (#[trigger] job_views(jobs@)[k])
                    == before[k] by {
                    assert(views[k] == before[k]);
                }
            }
        } else {
            proof {
                let rest = dispatch(before.skip(i + 1), left as nat);
                assert(views.take(i + 1) =~= views.take(i as int) + seq![before[i as int]]);
                assert(views.take(i + 1) + rest.0 =~= views.take(i as int) + (seq![before[i as int]]
                    + rest.0));
            }
        }
        i += 1;
    }
    proof {
        assert(before.skip(jobs.len() as int) =~= Seq::<JobView>::empty());
        assert(job_views(jobs@).take(jobs.len() as int) =~= job_views(jobs@));
        assert(job_views(jobs@) + Seq::<JobView>::empty() =~= job_views(jobs@));
        assert(action_views(actions@) + Seq::<ActionView>::empty() =~= action_views(actions@));
    }
}

/// The jobs among `jobs` that hold a slot, in their order.
fn keep_in_flight(jobs: &Vec<RenewalJob>) -> (r: Vec<RenewalJob>)
    ensures
        job_views(r@) == in_flight_jobs(job_views(jobs@)),
{
    let ghost all = job_views(jobs@);
    let mut kept: Vec<RenewalJob> = Vec::new();
    let mut i: usize = 0;
    proof {
        reveal(Seq::filter);
        assert(all.take(0) =~= Seq::<JobView>::empty());
        assert(job_views(kept@) =~= Seq::<JobView>::empty());
    }
    while i < jobs.len()
        invariant
            i <= jobs.len(),
            all == job_views(jobs@),
            job_views(kept@) == in_flight_jobs(all.take(i as int)),
        decreases jobs.len() - i,
    {
        proof {
            all.take(i as int).lemma_filter_push(all[i as int], holds_slot());
            assert(all.take(i + 1) =~= all.take(i as int).push(all[i as int]));
        }
        if jobs[i].stage().in_flight() {
            let ghost before = job_views(kept@);
            kept.push(jobs[i].clone());
            assert(job_views(kept@) =~= before.push(all[i as int]));
        }
        i += 1;
    }
    assert(all.take(jobs.len() as int) =~= all);
    kept
}

/// One fresh job for each identity set, in their order.
fn jobs_for(identities: &Vec<IdentitySet>) -> (r: Vec<RenewalJob>)
    ensures
        job_views(r@) == fresh_jobs(identity_views(identities@)),
{
    let mut jobs: Vec<RenewalJob> = Vec::new();
    let mut i: usize = 0;
    while i < identities.len()
        invariant
            i <= identities.len(),
            jobs.len() == i,
            forall|k: int|
                0 <= k < i ==> (#[trigger] job_views(jobs@)[k]) == JobView::fresh(
                    identity_views(identities@)[k],
                ),
        decreases identities.len() - i,
    {
        let ghost before = job_views(jobs@);
        jobs.push(RenewalJob::new(identities[i].clone()));
        proof {
            assert forall|k: int| 0 <= k < i + 1 implies (#[trigger] job_views(jobs@)[k])
                == JobView::fresh(identity_views(identities@)[k]) by {
                if k < i {
                    assert(job_views(jobs@)[k] == before[k]);
                }
            }
        }
        i += 1;
    }
    assert(job_views(jobs@) =~= fresh_jobs(identity_views(identities@)));
    jobs
}

/// The fields of a coordinator, with nothing promised of them.
#[derive(Debug)]
struct Parts {
    policy: RenewalPolicy,
    grace_secs: u64,
    mode: Mode,
    jobs: Vec<RenewalJob>,
    abandoned: usize,
    forced: bool,
}

impl View for Parts {
    type V = CoordinatorView;

    closed spec fn view(&self) -> CoordinatorView {
        CoordinatorView {
            policy: self.policy@,
            grace_secs: self.grace_secs,
            mode: self.mode,
            jobs: job_views(self.jobs@),
            abandoned: self.abandoned as nat,
            forced: self.forced,
        }
    }
}

impl Parts {
    /// The jobs given up and the jobs left can be counted together.
    spec fn countable(self) -> bool {
        self.abandoned + self.jobs@.len() <= usize::MAX
    }

    /// The jobs are such that starting any of them cannot overflow its count
    /// of attempts.
    spec fn startable(self) -> bool {
        forall|k: int| 0 <= k < self.jobs@.len() ==> can_start(#[trigger] job_views(self.jobs@)[k])
    }

    /// Settles, after the actions in `actions`.
    fn settle(self, actions: Vec<Action>) -> (r: (Parts, Vec<Action>))
        requires
            self.startable(),
            self.countable(),
        ensures
            r.0@ == self@.settle().0,
            action_views(r.1@) == action_views(actions@) + self@.settle().1,
            r.0.countable(),
    {
        let mut parts = self;
        let mut actions = actions;
        let ghost first = action_views(actions@);
        let ghost before = parts@;
        match parts.mode {
            Mode::Active => {
                let used = count_in_flight(&parts.jobs);
                let most = parts.policy.max_concurrent();
                let slots = if used <= most {
                    most - used
                } else {
                    0
                };
                dispatch_jobs(&mut parts.jobs, slots, &mut actions);
                if parts.jobs.len() == 0 {
                    let ghost asked = action_views(actions@);
                    parts.mode = Mode::Idle;
                    actions.push(Action::AwaitTick);
                    proof {
                        let started = dispatch(before.jobs, before.free_slots());
                        assert(action_views(actions@) =~= asked.push(ActionView::AwaitTick));
                        assert(first + started.1.push(ActionView::AwaitTick) =~= (first + started.1).push(
                            ActionView::AwaitTick,
                        ));
                    }
                }
            },
            Mode::Cancelling => {
                if parts.jobs.len() == 0 {
                    parts.mode = Mode::Stopped;
                    actions.push(Action::Halt { abandoned: parts.abandoned, forced: false });
                    proof {
                        assert(action_views(actions@) =~= first + seq![
                            ActionView::Halt { abandoned: before.abandoned, forced: false },
                        ]);
                    }
                } else {
                    assert(action_views(actions@) =~= first + Seq::<ActionView>::empty());
                }
            },
            _ => {
                assert(action_views(actions@) =~= first + Seq::<ActionView>::empty());
            },
        }
        (parts, actions)
    }

    /// The job at place `i` ends in failure.
    fn fail_job(self, i: usize, identity: IdentitySet, failure: JobFailure) -> (r: (Parts, Vec<Action>))
        requires
            self.startable(),
            self.countable(),
            i < self.jobs@.len(),
            identity@ == self@.jobs[i as int].identity,
        ensures
            r.0@ == self@.fail_job(i as int, failure).0,
            action_views(r.1@) == self@.fail_job(i as int, failure).1,
            r.0.countable(),
    {
        let mut parts = self;
        let ghost before = job_views(parts.jobs@);
        let job = parts.jobs.remove(i);
        let mut actions: Vec<Action> = Vec::new();
        actions.push(Action::ReportFailure { identity, failure, attempts: job.attempts() });
        proof {
            assert(job@ == before[i as int]);
            assert(job_views(parts.jobs@) =~= before.remove(i as int));
            assert(action_views(actions@) =~= seq![
                ActionView::ReportFailure {
                    identity: before[i as int].identity,
                    failure,
                    attempts: before[i as int].attempts,
                },
            ]);
            assert forall|k: int| 0 <= k < parts.jobs@.len() implies can_start(
                #[trigger] job_views(parts.jobs@)[k],
            ) by {
                let x = if k < i {
                    k
                } else {
                    k + 1
                };
                assert(can_start(before[x]));
            }
        }
        parts.settle(actions)
    }

    /// The job at place `i` goes to `stage`; `actions` are what this calls
    /// for.
    fn move_job(self, i: usize, stage: JobStage, actions: Vec<Action>) -> (r: (Parts, Vec<Action>))
        requires
            self.startable(),
            self.countable(),
            i < self.jobs@.len(),
            can_start(self@.jobs[i as int].at(stage)),
        ensures
            r.0@ == self@.with_jobs(self@.jobs.update(i as int, self@.jobs[i as int].at(stage))).settle().0,
            action_views(r.1@) == action_views(actions@) + self@.with_jobs(
                self@.jobs.update(i as int, self@.jobs[i as int].at(stage)),
            ).settle().1,
            r.0.countable(),
    {
        let mut parts = self;
        let ghost before = job_views(parts.jobs@);
        parts.jobs[i].move_to(stage);
        proof {
            assert(job_views(parts.jobs@) =~= before.update(i as int, before[i as int].at(stage)));
            assert forall|k: int| 0 <= k < parts.jobs@.len() implies can_start(
                #[trigger] job_views(parts.jobs@)[k],
            ) by {
                assert(can_start(before[k]));
            }
        }
        parts.settle(actions)
    }

    /// A tick: the scan begins, if the coordinator is idle.
    fn on_tick(self) -> (r: (Parts, Vec<Action>))
        requires
            self.countable(),
        ensures
            r.0@ == self@.on_tick().0,
            action_views(r.1@) == self@.on_tick().1,
            r.0.countable(),
    {
        let mut parts = self;
        let mut actions: Vec<Action> = Vec::new();
        if parts.mode == Mode::Idle {
            parts.mode = Mode::Scanning;
            actions.push(Action::ListStore);
            assert(action_views(actions@) =~= seq![ActionView::ListStore]);
        } else {
            assert(action_views(actions@) =~= Seq::<ActionView>::empty());
        }
        (parts, actions)
    }

    /// The records of the store have come: the jobs of this tick are made
    /// and the first of them started.
    fn on_listed(self, records: Vec<CertificateRecord>, now: Timestamp) -> (r: (Parts, Vec<Action>))
        requires
            self.countable(),
            self@.wf(),
        ensures
            r.0@ == self@.on_listed(record_views(records@), now).0,
            action_views(r.1@) == self@.on_listed(record_views(records@), now).1,
            r.0.countable(),
    {
        let mut parts = self;
        let actions: Vec<Action> = Vec::new();
        if parts.mode == Mode::Scanning {
            assert(parts.abandoned == 0);
            let identities = due(&records, &parts.policy, now);
            parts.jobs = jobs_for(&identities);
            parts.mode = Mode::Active;
            let count = parts.jobs.len();
            proof {
                assert(action_views(actions@) =~= Seq::<ActionView>::empty());
                assert(job_views(parts.jobs@).len() == count);
                assert(fresh_jobs(identity_views(identities@)).len() == identities@.len());
                assert forall|k: int| 0 <= k < parts.jobs@.len() implies can_start(
                    #[trigger] job_views(parts.jobs@)[k],
                ) by {
                    assert(job_views(parts.jobs@)[k] == JobView::fresh(identity_views(identities@)[k]));
                }
            }
            let r = parts.settle(actions);
            assert(Seq::<ActionView>::empty() + action_views(r.1@) =~= action_views(r.1@));
            r
        } else {
            assert(action_views(actions@) =~= Seq::<ActionView>::empty());
            (parts, actions)
        }
    }

    /// A request has come back.
    fn on_renewed(self, identity: IdentitySet, outcome: RenewalOutcome) -> (r: (Parts, Vec<Action>))
        requires
            self.countable(),
            self@.wf(),
        ensures
            r.0@ == self@.on_renewed(identity@, outcome@).0,
            action_views(r.1@) == self@.on_renewed(identity@, outcome@).1,
            r.0.countable(),
    {
        let mut parts = self;
        let ghost before = parts@;
        proof {
            parts.lemma_startable();
        }
        match find_job(&parts.jobs, &identity) {
            Some(i) => {
                if parts.jobs[i].stage() != JobStage::Renewing {
                    return parts.ignore();
                }
                match outcome {
                    RenewalOutcome::Success(record) => {
                        if record.identity().same_as(&identity) {
                            let mut actions: Vec<Action> = Vec::new();
                            actions.push(Action::Commit { record });
                            assert(action_views(actions@) =~= seq![ActionView::Commit { record: record@ }]);
                            parts.move_job(i, JobStage::Committing, actions)
                        } else {
                            parts.fail_job(i, identity, JobFailure::Renewal(RenewalError::Protocol))
                        }
                    },
                    RenewalOutcome::Failure(error) => {
                        let attempts = parts.jobs[i].attempts();
                        if error.retryable() && attempts < parts.policy.max_attempts() && parts.mode
                            == Mode::Active {
                            assert(job_within_budget(before.jobs[i as int], before.policy.max_attempts));
                            let delay_secs = parts.policy.backoff_delay(attempts - 1);
                            let ghost jobs_before = job_views(parts.jobs@);
                            parts.jobs[i].back_off(error);
                            let mut actions: Vec<Action> = Vec::new();
                            actions.push(Action::Retry { identity, delay_secs });
                            proof {
                                assert(job_views(parts.jobs@) =~= jobs_before.update(
                                    i as int,
                                    jobs_before[i as int].backing_off(error),
                                ));
                                assert(action_views(actions@) =~= seq![
                                    ActionView::Retry {
                                        identity: jobs_before[i as int].identity,
                                        delay_secs: delay_secs as nat,
                                    },
                                ]);
                                assert forall|k: int| 0 <= k < parts.jobs@.len() implies can_start(
                                    #[trigger] job_views(parts.jobs@)[k],
                                ) by {
                                    assert(can_start(jobs_before[k]));
                                }
                            }
                            parts.settle(actions)
                        } else {
                            parts.fail_job(i, identity, JobFailure::Renewal(error))
                        }
                    },
                }
            },
            None => parts.ignore(),
        }
    }

    /// The wait of a job is over.
    fn on_retry_ready(self, identity: IdentitySet) -> (r: (Parts, Vec<Action>))
        requires
            self.countable(),
            self@.wf(),
        ensures
            r.0@ == self@.on_retry_ready(identity@).0,
            action_views(r.1@) == self@.on_retry_ready(identity@).1,
            r.0.countable(),
    {
        let parts = self;
        proof {
            parts.lemma_startable();
        }
        match find_job(&parts.jobs, &identity) {
            Some(i) => {
                if parts.jobs[i].stage() == JobStage::Backoff {
                    let actions: Vec<Action> = Vec::new();
                    assert(action_views(actions@) =~= Seq::<ActionView>::empty());
                    assert(job_within_budget(parts@.jobs[i as int], parts@.policy.max_attempts));
                    let r = parts.move_job(i, JobStage::Queued, actions);
                    assert(Seq::<ActionView>::empty() + action_views(r.1@) =~= action_views(r.1@));
                    r
                } else {
                    parts.ignore()
                }
            },
            None => parts.ignore(),
        }
    }

    /// A commit has ended.
    fn on_committed(self, identity: IdentitySet, result: Result<(), StoreError>) -> (r: (
        Parts,
        Vec<Action>,
    ))
        requires
            self.countable(),
            self@.wf(),
        ensures
            r.0@ == self@.on_committed(identity@, result).0,
            action_views(r.1@) == self@.on_committed(identity@, result).1,
            r.0.countable(),
    {
        let mut parts = self;
        proof {
            parts.lemma_startable();
        }
        match find_job(&parts.jobs, &identity) {
            Some(i) => {
                if parts.jobs[i].stage() == JobStage::Committing {
                    match result {
                        Ok(_) => {
                            let ghost before = job_views(parts.jobs@);
                            let _ = parts.jobs.remove(i);
                            let actions: Vec<Action> = Vec::new();
                            proof {
                                assert(job_views(parts.jobs@) =~= before.remove(i as int));
                                assert(action_views(actions@) =~= Seq::<ActionView>::empty());
                                assert forall|k: int| 0 <= k < parts.jobs@.len() implies can_start(
                                    #[trigger] job_views(parts.jobs@)[k],
                                ) by {
                                    let x = if k < i {
                                        k
                                    } else {
                                        k + 1
                                    };
                                    assert(can_start(before[x]));
                                }
                            }
                            let r = parts.settle(actions);
                            assert(Seq::<ActionView>::empty() + action_views(r.1@) =~= action_views(r.1@));
                            r
                        },
                        Err(error) => parts.fail_job(i, identity, JobFailure::Store(error)),
                    }
                } else {
                    parts.ignore()
                }
            },
            None => parts.ignore(),
        }
    }

    /// Cancellation is asked for.
    fn on_cancel(self) -> (r: (Parts, Vec<Action>))
        requires
            self.countable(),
            self@.wf(),
        ensures
            r.0@ == self@.on_cancel().0,
            action_views(r.1@) == self@.on_cancel().1,
            r.0.countable(),
    {
        let mut parts = self;
        if parts.mode == Mode::Cancelling || parts.mode == Mode::Stopped {
            return parts.ignore();
        }
        let kept = keep_in_flight(&parts.jobs);
        proof {
            parts.lemma_startable();
            lemma_in_flight_jobs(job_views(parts.jobs@));
            assert forall|k: int| 0 <= k < kept@.len() implies can_start(#[trigger] job_views(kept@)[k]) by {
                let all = job_views(parts.jobs@);
                assert(all.contains(job_views(kept@)[k]));
                let x = choose|x: int| 0 <= x < all.len() && all[x] == job_views(kept@)[k];
                assert(can_start(all[x]));
            }
        }
        parts.abandoned = parts.jobs.len() - kept.len();
        parts.jobs = kept;
        parts.mode = Mode::Cancelling;
        let mut actions: Vec<Action> = Vec::new();
        if parts.jobs.len() == 0 {
            assert(action_views(actions@) =~= Seq::<ActionView>::empty());
            let r = parts.settle(actions);
            assert(Seq::<ActionView>::empty() + action_views(r.1@) =~= action_views(r.1@));
            r
        } else {
            actions.push(Action::AwaitGrace { grace_secs: parts.grace_secs });
            assert(action_views(actions@) =~= seq![ActionView::AwaitGrace { grace_secs: parts.grace_secs }]);
            (parts, actions)
        }
    }

    /// The grace period is over.
    fn on_grace_expired(self) -> (r: (Parts, Vec<Action>))
        requires
            self.countable(),
        ensures
            r.0@ == self@.on_grace_expired().0,
            action_views(r.1@) == self@.on_grace_expired().1,
            r.0.countable(),
    {
        let mut parts = self;
        if parts.mode == Mode::Cancelling {
            let abandoned = parts.abandoned + parts.jobs.len();
            parts.abandoned = abandoned;
            parts.jobs = Vec::new();
            parts.mode = Mode::Stopped;
            parts.forced = true;
            let mut actions: Vec<Action> = Vec::new();
            actions.push(Action::Halt { abandoned, forced: true });
            proof {
                assert(job_views(parts.jobs@) =~= Seq::<JobView>::empty());
                assert(action_views(actions@) =~= seq![
                    ActionView::Halt { abandoned: abandoned as nat, forced: true },
                ]);
            }
            (parts, actions)
        } else {
            parts.ignore()
        }
    }

    /// Nothing changes and nothing is asked for.
    fn ignore(self) -> (r: (Parts, Vec<Action>))
        requires
            self.countable(),
        ensures
            r.0@ == self@,
            action_views(r.1@) == Seq::<ActionView>::empty(),
            r.0.countable(),
    {
        let actions: Vec<Action> = Vec::new();
        assert(action_views(actions@) =~= Seq::<ActionView>::empty());
        (self, actions)
    }

    /// Where everything holds, any job can be started without overflow.
    proof fn lemma_startable(self)
        requires
            self@.wf(),
        ensures
            self.startable(),
            distinct_jobs(job_views(self.jobs@)),
    {
        assert forall|k: int| 0 <= k < self.jobs@.len() implies can_start(
            #[trigger] job_views(self.jobs@)[k],
        ) by {
            assert(job_within_budget(self@.jobs[k], self@.policy.max_attempts));
        }
    }
}

/// Whether every job is being committed.
fn only_commits_left(jobs: &Vec<RenewalJob>) -> (r: bool)
    ensures
        r == all_committing(job_views(jobs@)),
{
    let mut i: usize = 0;
    while i < jobs.len()
        invariant
            i <= jobs.len(),
            forall|k: int| 0 <= k < i ==> (#[trigger] job_views(jobs@)[k]).stage is Committing,
        decreases jobs.len() - i,
    {
        if jobs[i].stage() != JobStage::Committing {
            assert(!(job_views(jobs@)[i as int].stage is Committing));
            return false;
        }
        i += 1;
    }
    true
}

/// The renewal coordinator. It holds the jobs of the current tick and
/// decides, event by event, what is to be done next. No two of its jobs are
/// ever about the same identity set, and no more of them hold a slot than
/// the policy allows.
#[derive(Debug)]
pub struct Coordinator {
    parts: Parts,
}

impl View for Coordinator {
    type V = CoordinatorView;

    closed spec fn view(&self) -> CoordinatorView {
        self.parts@
    }
}

impl Coordinator {
    #[verifier::type_invariant]
    spec fn sound(self) -> bool {
        self.parts@.wf() && self.parts.countable()
    }

    /// An idle coordinator that works by `policy` and grants what is in
    /// flight `grace_secs` seconds once cancellation is asked for.
    pub fn new(policy: RenewalPolicy, grace_secs: u64) -> (r: Coordinator)
        ensures
            r@ == CoordinatorView::initial(policy@, grace_secs),
            r@.wf(),
    {
        let _ = policy.max_concurrent();
        proof {
            lemma_initial_wf(policy@, grace_secs);
        }
        let parts = Parts {
            policy,
            grace_secs,
            mode: Mode::Idle,
            jobs: Vec::new(),
            abandoned: 0,
            forced: false,
        };
        assert(parts@ =~= CoordinatorView::initial(policy@, grace_secs)) by {
            assert(job_views(parts.jobs@) =~= Seq::<JobView>::empty());
        }
        Coordinator { parts }
    }

    /// The coordinator after `event`, and the actions that the event calls
    /// for, in the order in which they are to be begun. An event that does
    /// not fit the state of the coordinator changes nothing and calls for
    /// nothing.
    pub fn step(self, event: Event) -> (r: (Coordinator, Vec<Action>))
        ensures
            r.0@ == self@.next(event@).0,
            action_views(r.1@) == self@.next(event@).1,
            r.1@.len() == self@.next(event@).1.len(),
            r.0@.wf(),
    {
        proof {
            use_type_invariant(&self);
            lemma_next_wf(self@, event@);
        }
        let parts = self.parts;
        let (parts, actions) = match event {
            Event::Tick => parts.on_tick(),
            Event::Listed { records, now } => parts.on_listed(records, now),
            Event::Renewed { identity, outcome } => parts.on_renewed(identity, outcome),
            Event::RetryReady { identity } => parts.on_retry_ready(identity),
            Event::Committed { identity, result } => parts.on_committed(identity, result),
            Event::CancelRequested => parts.on_cancel(),
            Event::GraceExpired => parts.on_grace_expired(),
        };
        assert(action_views(actions@).len() == actions@.len());
        (Coordinator { parts }, actions)
    }

    /// What the coordinator is doing as a whole.
    pub fn mode(&self) -> (r: Mode)
        ensures
            r == self@.mode,
            self@.wf(),
    {
        proof {
            use_type_invariant(self);
        }
        self.parts.mode
    }

    /// What the coordinator is doing, as seen from outside.
    pub fn phase(&self) -> (r: Phase)
        ensures
            r == self@.phase(),
    {
        proof {
            use_type_invariant(self);
        }
        match self.parts.mode {
            Mode::Idle => Phase::Idle,
            Mode::Scanning => Phase::Scanning,
            Mode::Active => {
                if only_commits_left(&self.parts.jobs) {
                    Phase::Committing
                } else {
                    Phase::Renewing { in_flight: count_in_flight(&self.parts.jobs) }
                }
            },
            Mode::Cancelling => Phase::Cancelling,
            Mode::Stopped => Phase::Stopped,
        }
    }

    /// The jobs that are not yet done, in the order in which they were made.
    pub fn jobs(&self) -> (r: &Vec<RenewalJob>)
        ensures
            job_views(r@) == self@.jobs,
            distinct_jobs(job_views(r@)),
    {
        proof {
            use_type_invariant(self);
        }
        &self.parts.jobs
    }

    /// The number of jobs that hold a slot.
    pub fn in_flight(&self) -> (r: usize)
        ensures
            r == in_flight_count(self@.jobs),
            r <= self@.policy.max_concurrent,
    {
        proof {
            use_type_invariant(self);
        }
        count_in_flight(&self.parts.jobs)
    }

    /// The number of jobs that were given up because of cancellation.
    pub fn abandoned(&self) -> (r: usize)
        ensures
            r == self@.abandoned,
    {
        self.parts.abandoned
    }

    /// Whether the coordinator was stopped by force, the grace period having
    /// run out.
    pub fn forced(&self) -> (r: bool)
        ensures
            r == self@.forced,
    {
        self.parts.forced
    }

    /// How the coordinator came to a stop, once it has: in good order, or by
    /// force with so many jobs given up.
    pub fn shutdown(&self) -> (r: Option<Result<(), ShutdownTimeout>>)
        ensures
            r == self@.shutdown(),
    {
        if self.parts.mode != Mode::Stopped {
            None
        } else if self.parts.forced {
            Some(Err(ShutdownTimeout { abandoned: self.parts.abandoned }))
        } else {
            Some(Ok(()))
        }
    }

    /// The policy by which the coordinator works.
    pub fn policy(&self) -> (r: &RenewalPolicy)
        ensures
            r@ == self@.policy,
    {
        &self.parts.policy
    }

    /// The seconds granted to what is in flight once cancellation is asked
    /// for.
    pub fn grace_secs(&self) -> (r: u64)
        ensures
            r == self@.grace_secs,
    {
        self.parts.grace_secs
    }
}

} // verus!
