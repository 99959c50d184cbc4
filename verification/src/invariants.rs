//! What holds of the coordinator in every state that it can reach, and of
//! every step that it takes.

use vstd::prelude::*;
use crate::error::{JobFailure, RenewalError};
use crate::evaluator::{due_identities, lemma_due_identities};
use crate::event::{ActionView, EventView};
use crate::job::{JobStage, JobView, OutcomeView};
use crate::lifecycle::LifecycleState;
use crate::model::{
    CoordinatorView, Mode, dispatch, distinct_jobs, fresh_jobs, has_job, has_queued, holds_slot,
    in_flight_count, in_flight_jobs, job_index, job_within_budget,
};
use crate::policy::{PolicyView, backoff_delay};
use crate::record::RecordView;

verus! {

/// One or nothing, as `job` holds a slot or not.
pub open spec fn slot_of(job: JobView) -> nat {
    if job.stage.in_flight() {
        1
    } else {
        0
    }
}

/// A single job counts as one slot or as none.
pub proof fn lemma_count_single(job: JobView)
    ensures
        in_flight_count(seq![job]) == slot_of(job),
{
    let none = Seq::<JobView>::empty();
    reveal(Seq::filter);
    assert(none.filter(holds_slot()) =~= none);
    none.lemma_filter_push(job, holds_slot());
    assert(none.push(job) =~= seq![job]);
}

/// The slots of two runs of jobs add up.
pub proof fn lemma_count_concat(a: Seq<JobView>, b: Seq<JobView>)
    ensures
        in_flight_count(a + b) == in_flight_count(a) + in_flight_count(b),
{
    Seq::filter_distributes_over_add(a, b, holds_slot());
}

/// The slots of the jobs are those before a place, at it and after it.
pub proof fn lemma_count_parts(jobs: Seq<JobView>, i: int)
    requires
        0 <= i < jobs.len(),
    ensures
        in_flight_count(jobs) == in_flight_count(jobs.take(i)) + slot_of(jobs[i]) + in_flight_count(
            jobs.skip(i + 1),
        ),
{
    assert(jobs =~= jobs.take(i) + (seq![jobs[i]] + jobs.skip(i + 1)));
    lemma_count_concat(jobs.take(i), seq![jobs[i]] + jobs.skip(i + 1));
    lemma_count_concat(seq![jobs[i]], jobs.skip(i + 1));
    lemma_count_single(jobs[i]);
}

/// Putting another job at a place changes the slots by what the two jobs
/// hold.
pub proof fn lemma_count_update(jobs: Seq<JobView>, i: int, job: JobView)
    requires
        0 <= i < jobs.len(),
    ensures
        in_flight_count(jobs.update(i, job)) + slot_of(jobs[i]) == in_flight_count(jobs) + slot_of(job),
{
    let after = jobs.update(i, job);
    lemma_count_parts(jobs, i);
    lemma_count_parts(after, i);
    assert(after.take(i) =~= jobs.take(i));
    assert(after.skip(i + 1) =~= jobs.skip(i + 1));
}

/// Taking a job out frees the slot that it held.
pub proof fn lemma_count_remove(jobs: Seq<JobView>, i: int)
    requires
        0 <= i < jobs.len(),
    ensures
        in_flight_count(jobs.remove(i)) + slot_of(jobs[i]) == in_flight_count(jobs),
{
    lemma_count_parts(jobs, i);
    assert(jobs.remove(i) =~= jobs.take(i) + jobs.skip(i + 1));
    lemma_count_concat(jobs.take(i), jobs.skip(i + 1));
}

/// Jobs of which none holds a slot hold no slot.
pub proof fn lemma_count_none(jobs: Seq<JobView>)
    requires
        forall|i: int| 0 <= i < jobs.len() ==> !(#[trigger] jobs[i]).stage.in_flight(),
    ensures
        in_flight_count(jobs) == 0,
    decreases jobs.len(),
{
    reveal(Seq::filter);
    if jobs.len() > 0 {
        lemma_count_none(jobs.drop_last());
    }
}

/// The jobs that hold a slot are jobs of the sequence, all of them in
/// flight, and distinct where the sequence is; counting them again changes
/// nothing.
pub proof fn lemma_in_flight_jobs(jobs: Seq<JobView>)
    ensures
        in_flight_jobs(jobs).len() <= jobs.len(),
        forall|k: int|
            0 <= k < in_flight_jobs(jobs).len() ==> (#[trigger] in_flight_jobs(jobs)[k]).stage.in_flight()
                && jobs.contains(in_flight_jobs(jobs)[k]),
        distinct_jobs(jobs) ==> distinct_jobs(in_flight_jobs(jobs)),
        in_flight_count(in_flight_jobs(jobs)) == in_flight_count(jobs),
    decreases jobs.len(),
{
    reveal(Seq::filter);
    if jobs.len() > 0 {
        let init = jobs.drop_last();
        let last = jobs.last();
        let kept = in_flight_jobs(jobs);
        let before = in_flight_jobs(init);
        lemma_in_flight_jobs(init);
        assert forall|k: int| 0 <= k < kept.len() implies (#[trigger] kept[k]).stage.in_flight()
            && jobs.contains(kept[k]) by {
            if k < before.len() {
                assert(init.contains(before[k]));
                let i = choose|i: int| 0 <= i < init.len() && init[i] == before[k];
                assert(jobs[i] == kept[k]);
            } else {
                assert(jobs[jobs.len() - 1] == kept[k]);
            }
        }
        if distinct_jobs(jobs) {
            assert(distinct_jobs(init)) by {
                assert forall|i: int, j: int| 0 <= i < j < init.len() implies (#[trigger] init[i]).identity
                    != (#[trigger] init[j]).identity by {
                    assert(jobs[i].identity != jobs[j].identity);
                }
            }
            assert forall|a: int, b: int| 0 <= a < b < kept.len() implies (#[trigger] kept[a]).identity
                != (#[trigger] kept[b]).identity by {
                if b < before.len() {
                    assert(before[a].identity != before[b].identity);
                } else {
                    assert(init.contains(before[a]));
                    let i = choose|i: int| 0 <= i < init.len() && init[i] == before[a];
                    assert(jobs[i].identity != jobs[jobs.len() - 1].identity);
                }
            }
        }
        if last.stage.in_flight() {
            assert(kept == before.push(last));
            before.lemma_filter_push(last, holds_slot());
        }
    } else {
        assert(in_flight_jobs(jobs) =~= jobs);
    }
}

/// What giving out slots does: every job stays at its place, and either is
/// as it was or was queued and is now started; no more requests go out than
/// there were slots, each for a job that was queued; the slots held
/// afterwards are those held before and those given out; and a job is left
/// waiting only if every slot was given out.
pub proof fn lemma_dispatch(jobs: Seq<JobView>, slots: nat)
    ensures
        dispatch(jobs, slots).0.len() == jobs.len(),
        dispatch(jobs, slots).1.len() <= slots,
        forall|i: int|
            0 <= i < jobs.len() ==> (#[trigger] dispatch(jobs, slots).0[i]) == jobs[i] || (jobs[i].stage
                is Queued && dispatch(jobs, slots).0[i] == jobs[i].started()),
        forall|k: int|
            0 <= k < dispatch(jobs, slots).1.len() ==> exists|i: int|
                0 <= i < jobs.len() && (#[trigger] jobs[i]).stage is Queued && dispatch(jobs, slots).0[i]
                    == jobs[i].started() && (#[trigger] dispatch(jobs, slots).1[k])
                    == (ActionView::Request { identity: jobs[i].identity }),
        in_flight_count(dispatch(jobs, slots).0) == in_flight_count(jobs) + dispatch(jobs, slots).1.len(),
        has_queued(dispatch(jobs, slots).0) ==> dispatch(jobs, slots).1.len() == slots,
    decreases jobs.len(),
{
    if jobs.len() > 0 {
        let first = jobs.first();
        let tail = jobs.drop_first();
        let take = first.stage is Queued && slots > 0;
        let left: nat = if take {
            (slots - 1) as nat
        } else {
            slots
        };
        let head = if take {
            first.started()
        } else {
            first
        };
        let rest = dispatch(tail, left);
        let all = dispatch(jobs, slots);
        lemma_dispatch(tail, left);
        assert(all.0 == seq![head] + rest.0);
        assert forall|i: int| 0 <= i < jobs.len() implies (#[trigger] all.0[i]) == jobs[i] || (jobs[i].stage
            is Queued && all.0[i] == jobs[i].started()) by {
            if i > 0 {
                assert(all.0[i] == rest.0[i - 1]);
                assert(tail[i - 1] == jobs[i]);
            }
        }
        assert forall|k: int| 0 <= k < all.1.len() implies exists|i: int|
            0 <= i < jobs.len() && (#[trigger] jobs[i]).stage is Queued && all.0[i] == jobs[i].started() && (
            #[trigger] all.1[k]) == (ActionView::Request { identity: jobs[i].identity }) by {
            if take && k == 0 {
                assert(jobs[0].stage is Queued && all.0[0] == jobs[0].started());
            } else {
                let m = if take {
                    k - 1
                } else {
                    k
                };
                assert(all.1[k] == rest.1[m]);
                let i = choose|i: int|
                    0 <= i < tail.len() && (#[trigger] tail[i]).stage is Queued && rest.0[i]
                        == tail[i].started() && (#[trigger] rest.1[m]) == (ActionView::Request {
                        identity: tail[i].identity,
                    });
                assert(jobs[i + 1] == tail[i]);
                assert(all.0[i + 1] == rest.0[i]);
            }
        }
        if has_queued(all.0) {
            let i = choose|i: int| 0 <= i < all.0.len() && (#[trigger] all.0[i]).stage is Queued;
            if i > 0 {
                assert(rest.0[i - 1].stage is Queued);
            }
        }
        lemma_count_concat(seq![head], rest.0);
        lemma_count_single(head);
        assert(jobs =~= seq![first] + tail);
        lemma_count_concat(seq![first], tail);
        lemma_count_single(first);
    } else {
        assert(in_flight_jobs(jobs) =~= jobs) by {
            reveal(Seq::filter);
        }
        assert(dispatch(jobs, slots).0 =~= jobs);
    }
}

/// Where a job about an identity set is found, it is about that identity
/// set; where none is found, there is none.
pub proof fn lemma_job_index(jobs: Seq<JobView>, identity: Set<Seq<char>>)
    ensures
        match job_index(jobs, identity) {
            Some(i) => 0 <= i < jobs.len() && jobs[i].identity == identity,
            None => !has_job(jobs, identity),
        },
{
}

/// Among distinct jobs, the job about an identity set is found at the one
/// place where it stands.
pub proof fn lemma_job_index_unique(jobs: Seq<JobView>, i: int)
    requires
        distinct_jobs(jobs),
        0 <= i < jobs.len(),
    ensures
        job_index(jobs, jobs[i].identity) == Some(i),
{
    let found = choose|k: int| 0 <= k < jobs.len() && (#[trigger] jobs[k]).identity == jobs[i].identity;
    if found < i {
        assert(jobs[found].identity != jobs[i].identity);
    } else if i < found {
        assert(jobs[i].identity != jobs[found].identity);
    }
}

/// Distinct jobs stay distinct when one of them leaves.
pub proof fn lemma_distinct_remove(jobs: Seq<JobView>, i: int)
    requires
        distinct_jobs(jobs),
        0 <= i < jobs.len(),
    ensures
        distinct_jobs(jobs.remove(i)),
        !has_job(jobs.remove(i), jobs[i].identity),
{
    let after = jobs.remove(i);
    assert forall|a: int, b: int| 0 <= a < b < after.len() implies (#[trigger] after[a]).identity != (
    #[trigger] after[b]).identity by {
        let x = if a < i {
            a
        } else {
            a + 1
        };
        let y = if b < i {
            b
        } else {
            b + 1
        };
        assert(jobs[x].identity != jobs[y].identity);
    }
    if has_job(after, jobs[i].identity) {
        let a = choose|a: int| 0 <= a < after.len() && (#[trigger] after[a]).identity == jobs[i].identity;
        let x = if a < i {
            a
        } else {
            a + 1
        };
        if x < i {
            assert(jobs[x].identity != jobs[i].identity);
        } else {
            assert(jobs[i].identity != jobs[x].identity);
        }
    }
}

/// A state whose jobs have just changed and which is about to settle: all
/// that holds of a reachable state, except that no job may be left.
pub open spec fn settling(state: CoordinatorView) -> bool {
    &&& state.policy.valid()
    &&& distinct_jobs(state.jobs)
    &&& forall|i: int|
        0 <= i < state.jobs.len() ==> job_within_budget(#[trigger] state.jobs[i], state.policy.max_attempts)
    &&& in_flight_count(state.jobs) <= state.policy.max_concurrent
    &&& !state.forced
    &&& match state.mode {
        Mode::Active => state.abandoned == 0,
        Mode::Cancelling => forall|i: int|
            0 <= i < state.jobs.len() ==> (#[trigger] state.jobs[i]).stage.in_flight(),
        _ => false,
    }
}

/// Settling leads to a state in which everything holds again.
pub proof fn lemma_settle(state: CoordinatorView)
    requires
        settling(state),
    ensures
        state.settle().0.wf(),
{
    if state.mode is Active {
        let started = dispatch(state.jobs, state.free_slots());
        lemma_dispatch(state.jobs, state.free_slots());
        assert forall|i: int, j: int| 0 <= i < j < started.0.len() implies (#[trigger] started.0[i]).identity
            != (#[trigger] started.0[j]).identity by {
            assert(state.jobs[i].identity != state.jobs[j].identity);
        }
        assert forall|i: int| 0 <= i < started.0.len() implies job_within_budget(
            #[trigger] started.0[i],
            state.policy.max_attempts,
        ) by {
            assert(job_within_budget(state.jobs[i], state.policy.max_attempts));
        }
    }
}

/// In a state in which everything holds, a job that has not yet been
/// started or is waiting shows that no cancellation is under way.
proof fn lemma_waiting_job_means_active(state: CoordinatorView, i: int)
    requires
        state.wf(),
        0 <= i < state.jobs.len(),
    ensures
        state.mode is Active || state.mode is Cancelling,
        !state.jobs[i].stage.in_flight() ==> state.mode is Active,
        !state.forced,
{
}

/// The jobs with another job at place `i`, about the same identity set and
/// within its budget, are ready to settle.
proof fn lemma_settling_update(state: CoordinatorView, i: int, job: JobView)
    requires
        state.wf(),
        0 <= i < state.jobs.len(),
        job.identity == state.jobs[i].identity,
        job_within_budget(job, state.policy.max_attempts),
        slot_of(job) <= slot_of(state.jobs[i]),
        state.mode is Cancelling ==> job.stage.in_flight(),
    ensures
        settling(state.with_jobs(state.jobs.update(i, job))),
{
    let after = state.jobs.update(i, job);
    lemma_count_update(state.jobs, i, job);
    lemma_waiting_job_means_active(state, i);
    assert forall|a: int, b: int| 0 <= a < b < after.len() implies (#[trigger] after[a]).identity != (
    #[trigger] after[b]).identity by {
        assert(state.jobs[a].identity != state.jobs[b].identity);
    }
    assert forall|k: int| 0 <= k < after.len() implies job_within_budget(
        #[trigger] after[k],
        state.policy.max_attempts,
    ) by {
        if k != i {
            assert(job_within_budget(state.jobs[k], state.policy.max_attempts));
        }
    }
    if state.mode is Cancelling {
        assert forall|k: int| 0 <= k < after.len() implies (#[trigger] after[k]).stage.in_flight() by {
            if k != i {
                assert(state.jobs[k].stage.in_flight());
            }
        }
    }
}

/// The jobs without the one at place `i` are ready to settle.
proof fn lemma_settling_remove(state: CoordinatorView, i: int)
    requires
        state.wf(),
        0 <= i < state.jobs.len(),
    ensures
        settling(state.with_jobs(state.jobs.remove(i))),
{
    let after = state.jobs.remove(i);
    lemma_count_remove(state.jobs, i);
    lemma_distinct_remove(state.jobs, i);
    lemma_waiting_job_means_active(state, i);
    assert forall|k: int| 0 <= k < after.len() implies job_within_budget(
        #[trigger] after[k],
        state.policy.max_attempts,
    ) by {
        let x = if k < i {
            k
        } else {
            k + 1
        };
        assert(job_within_budget(state.jobs[x], state.policy.max_attempts));
    }
    if state.mode is Cancelling {
        assert forall|k: int| 0 <= k < after.len() implies (#[trigger] after[k]).stage.in_flight() by {
            let x = if k < i {
                k
            } else {
                k + 1
            };
            assert(state.jobs[x].stage.in_flight());
        }
    }
}

/// The state in which a coordinator begins is one in which everything holds.
pub proof fn lemma_initial_wf(policy: PolicyView, grace_secs: u64)
    requires
        policy.valid(),
    ensures
        CoordinatorView::initial(policy, grace_secs).wf(),
{
    lemma_count_none(Seq::<JobView>::empty());
}

/// Whatever holds of every reachable state holds again after any event.
pub proof fn lemma_next_wf(state: CoordinatorView, event: EventView)
    requires
        state.wf(),
    ensures
        state.next(event).0.wf(),
{
    match event {
        EventView::Tick => {},
        EventView::Listed { records, now } => {
            if state.mode is Scanning {
                let identities = due_identities(records, state.policy, now);
                let jobs = fresh_jobs(identities);
                lemma_due_identities(records, state.policy, now);
                lemma_count_none(jobs);
                assert forall|i: int, j: int| 0 <= i < j < jobs.len() implies (#[trigger] jobs[i]).identity
                    != (#[trigger] jobs[j]).identity by {
                    assert(identities[i] != identities[j]);
                }
                lemma_settle(CoordinatorView { mode: Mode::Active, jobs, ..state });
            }
        },
        EventView::Renewed { identity, outcome } => {
            lemma_job_index(state.jobs, identity);
            if let Some(i) = job_index(state.jobs, identity) {
                let job = state.jobs[i];
                if job.stage is Renewing {
                    let retry = outcome matches OutcomeView::Failure(error) && error.retryable()
                        && job.attempts < state.policy.max_attempts && state.mode is Active;
                    let commit = outcome matches OutcomeView::Success(record) && record.identity
                        == identity;
                    if commit {
                        lemma_settling_update(state, i, job.at(JobStage::Committing));
                        lemma_settle(state.with_jobs(state.jobs.update(i, job.at(JobStage::Committing))));
                    } else if retry {
                        let error = outcome->Failure_0;
                        lemma_settling_update(state, i, job.backing_off(error));
                        lemma_settle(state.with_jobs(state.jobs.update(i, job.backing_off(error))));
                    } else {
                        lemma_settling_remove(state, i);
                        lemma_settle(state.with_jobs(state.jobs.remove(i)));
                    }
                }
            }
        },
        EventView::RetryReady { identity } => {
            lemma_job_index(state.jobs, identity);
            if let Some(i) = job_index(state.jobs, identity) {
                let job = state.jobs[i];
                if job.stage is Backoff {
                    lemma_waiting_job_means_active(state, i);
                    lemma_settling_update(state, i, job.at(JobStage::Queued));
                    lemma_settle(state.with_jobs(state.jobs.update(i, job.at(JobStage::Queued))));
                }
            }
        },
        EventView::Committed { identity, result } => {
            lemma_job_index(state.jobs, identity);
            if let Some(i) = job_index(state.jobs, identity) {
                if state.jobs[i].stage is Committing {
                    lemma_settling_remove(state, i);
                    lemma_settle(state.with_jobs(state.jobs.remove(i)));
                }
            }
        },
        EventView::CancelRequested => {
            if !(state.mode is Cancelling || state.mode is Stopped) {
                let kept = in_flight_jobs(state.jobs);
                lemma_in_flight_jobs(state.jobs);
                let cancelling = CoordinatorView {
                    mode: Mode::Cancelling,
                    jobs: kept,
                    abandoned: (state.jobs.len() - kept.len()) as nat,
                    ..state
                };
                assert forall|k: int| 0 <= k < kept.len() implies job_within_budget(
                    #[trigger] kept[k],
                    state.policy.max_attempts,
                ) by {
                    assert(state.jobs.contains(kept[k]));
                    let i = choose|i: int| 0 <= i < state.jobs.len() && state.jobs[i] == kept[k];
                    assert(job_within_budget(state.jobs[i], state.policy.max_attempts));
                }
                assert(settling(cancelling));
                lemma_settle(cancelling);
            }
        },
        EventView::GraceExpired => {
            lemma_count_none(Seq::<JobView>::empty());
        },
    }
}

/// In a state that the coordinator can reach, no identity set has two
/// jobs: a renewal for an identity set never runs beside another one for
/// the same set.
pub proof fn lemma_one_job_per_identity(state: CoordinatorView, i: int, j: int)
    requires
        state.wf(),
        0 <= i < state.jobs.len(),
        0 <= j < state.jobs.len(),
        state.jobs[i].identity == state.jobs[j].identity,
    ensures
        i == j,
{
    if i < j {
        assert(state.jobs[i].identity != state.jobs[j].identity);
    } else if j < i {
        assert(state.jobs[j].identity != state.jobs[i].identity);
    }
}

/// In a state that the coordinator can reach, no more jobs hold a slot than
/// the policy allows, and no job has made more requests than the policy
/// grants.
pub proof fn lemma_within_limits(state: CoordinatorView, i: int)
    requires
        state.wf(),
        0 <= i < state.jobs.len(),
    ensures
        in_flight_count(state.jobs) <= state.policy.max_concurrent,
        state.jobs[i].attempts <= state.policy.max_attempts,
{
    assert(job_within_budget(state.jobs[i], state.policy.max_attempts));
}

/// What settling asks for, after actions of which none is a request: each
/// request is for a job that was queued and is now started.
proof fn lemma_settle_requests(state: CoordinatorView, first: Seq<ActionView>, k: int)
    requires
        forall|a: int| 0 <= a < first.len() ==> !(#[trigger] first[a] is Request),
        0 <= k < state.settle_after(first).1.len(),
        state.settle_after(first).1[k] is Request,
    ensures
        exists|i: int|
            0 <= i < state.jobs.len() && (#[trigger] state.jobs[i]).stage is Queued
                && state.settle().0.jobs.len() == state.jobs.len() && state.settle().0.jobs[i]
                == state.jobs[i].started() && state.settle_after(first).1[k] == (ActionView::Request {
                identity: state.jobs[i].identity,
            }),
{
    let asked = state.settle().1;
    assert(k >= first.len()) by {
        if k < first.len() {
            assert(state.settle_after(first).1[k] == first[k]);
        }
    }
    let m = k - first.len();
    assert(state.settle_after(first).1[k] == asked[m]);
    if state.mode is Active {
        let started = dispatch(state.jobs, state.free_slots());
        lemma_dispatch(state.jobs, state.free_slots());
        if started.0.len() == 0 {
            assert(asked == started.1.push(ActionView::AwaitTick));
            assert(m < started.1.len());
        }
        assert(asked[m] == started.1[m]);
    }
}

/// The coordinator asks the authority only on behalf of a job that held no
/// slot before the event and holds one after it. So no request ever goes
/// out for an identity set for which a request or a commit is under way.
pub proof fn lemma_request_starts_waiting_job(state: CoordinatorView, event: EventView, k: int)
    requires
        state.wf(),
        0 <= k < state.next(event).1.len(),
        state.next(event).1[k] is Request,
    ensures
        exists|i: int|
            0 <= i < state.next(event).0.jobs.len() && (#[trigger] state.next(event).0.jobs[i]).identity
                == state.next(event).1[k]->Request_identity && state.next(event).0.jobs[i].stage
                is Renewing,
        forall|j: int|
            0 <= j < state.jobs.len() && (#[trigger] state.jobs[j]).identity == state.next(
                event,
            ).1[k]->Request_identity ==> !state.jobs[j].stage.in_flight(),
{
    let after = state.next(event);
    let identity = after.1[k]->Request_identity;
    match event {
        EventView::Tick => {},
        EventView::Listed { records, now } => {
            if state.mode is Scanning {
                let before = CoordinatorView {
                    mode: Mode::Active,
                    jobs: fresh_jobs(due_identities(records, state.policy, now)),
                    ..state
                };
                assert(before.settle_after(Seq::empty()).1 =~= before.settle().1);
                lemma_settle_requests(before, Seq::empty(), k);
            }
        },
        EventView::Renewed { identity: about, outcome } => {
            lemma_job_index(state.jobs, about);
            if let Some(at) = job_index(state.jobs, about) {
                let job = state.jobs[at];
                if job.stage is Renewing {
                    let retry = outcome matches OutcomeView::Failure(error) && error.retryable()
                        && job.attempts < state.policy.max_attempts && state.mode is Active;
                    let commit = outcome matches OutcomeView::Success(record) && record.identity == about;
                    if commit {
                        let before = state.with_jobs(state.jobs.update(at, job.at(JobStage::Committing)));
                        let first = seq![ActionView::Commit { record: outcome->Success_0 }];
                        lemma_settle_requests(before, first, k);
                        lemma_started_after_update(state, at, job.at(JobStage::Committing), identity);
                    } else if retry {
                        let error = outcome->Failure_0;
                        let before = state.with_jobs(state.jobs.update(at, job.backing_off(error)));
                        let first = seq![
                            ActionView::Retry {
                                identity: job.identity,
                                delay_secs: backoff_delay(
                                    state.policy.backoff_base_secs,
                                    (job.attempts - 1) as nat,
                                ) as nat,
                            },
                        ];
                        lemma_settle_requests(before, first, k);
                        lemma_started_after_update(state, at, job.backing_off(error), identity);
                    } else {
                        let failure = match outcome {
                            OutcomeView::Success(_) => JobFailure::Renewal(RenewalError::Protocol),
                            OutcomeView::Failure(error) => JobFailure::Renewal(error),
                        };
                        let before = state.with_jobs(state.jobs.remove(at));
                        let first = seq![
                            ActionView::ReportFailure {
                                identity: job.identity,
                                failure,
                                attempts: job.attempts,
                            },
                        ];
                        lemma_settle_requests(before, first, k);
                        lemma_started_after_remove(state, at, identity);
                    }
                }
            }
        },
        EventView::RetryReady { identity: about } => {
            lemma_job_index(state.jobs, about);
            if let Some(at) = job_index(state.jobs, about) {
                let job = state.jobs[at];
                if job.stage is Backoff {
                    let before = state.with_jobs(state.jobs.update(at, job.at(JobStage::Queued)));
                    assert(before.settle_after(Seq::empty()).1 =~= before.settle().1);
                    lemma_settle_requests(before, Seq::empty(), k);
                    lemma_started_after_update(state, at, job.at(JobStage::Queued), identity);
                }
            }
        },
        EventView::Committed { identity: about, result } => {
            lemma_job_index(state.jobs, about);
            if let Some(at) = job_index(state.jobs, about) {
                let job = state.jobs[at];
                if job.stage is Committing {
                    let before = state.with_jobs(state.jobs.remove(at));
                    match result {
                        Ok(_) => {
                            assert(before.settle_after(Seq::empty()).1 =~= before.settle().1);
                            lemma_settle_requests(before, Seq::empty(), k);
                        },
                        Err(error) => {
                            let first = seq![
                                ActionView::ReportFailure {
                                    identity: job.identity,
                                    failure: JobFailure::Store(error),
                                    attempts: job.attempts,
                                },
                            ];
                            lemma_settle_requests(before, first, k);
                        },
                    }
                    lemma_started_after_remove(state, at, identity);
                }
            }
        },
        EventView::CancelRequested => {},
        EventView::GraceExpired => {},
    }
}

/// Where the jobs with another job at place `at` hold a queued job about
/// `identity`, no job about `identity` held a slot before, provided that the
/// other job is queued only if the job at `at` held no slot.
proof fn lemma_started_after_update(state: CoordinatorView, at: int, job: JobView, identity: Set<Seq<char>>)
    requires
        state.wf(),
        0 <= at < state.jobs.len(),
        job.identity == state.jobs[at].identity,
        job.stage is Queued ==> !state.jobs[at].stage.in_flight(),
        exists|i: int|
            0 <= i < state.jobs.len() && (#[trigger] state.jobs.update(at, job)[i]).stage is Queued
                && state.jobs.update(at, job)[i].identity == identity,
    ensures
        forall|j: int|
            0 <= j < state.jobs.len() && (#[trigger] state.jobs[j]).identity == identity
                ==> !state.jobs[j].stage.in_flight(),
{
    let after = state.jobs.update(at, job);
    let i = choose|i: int|
        0 <= i < state.jobs.len() && (#[trigger] after[i]).stage is Queued && after[i].identity == identity;
    assert forall|j: int| 0 <= j < state.jobs.len() && (#[trigger] state.jobs[j]).identity
        == identity implies !state.jobs[j].stage.in_flight() by {
        assert(state.jobs[i].identity == identity);
        lemma_one_job_per_identity(state, i, j);
    }
}

/// Where the jobs without the one at place `at` hold a queued job about
/// `identity`, no job about `identity` held a slot before.
proof fn lemma_started_after_remove(state: CoordinatorView, at: int, identity: Set<Seq<char>>)
    requires
        state.wf(),
        0 <= at < state.jobs.len(),
        exists|i: int|
            0 <= i < state.jobs.len() - 1 && (#[trigger] state.jobs.remove(at)[i]).stage is Queued
                && state.jobs.remove(at)[i].identity == identity,
    ensures
        forall|j: int|
            0 <= j < state.jobs.len() && (#[trigger] state.jobs[j]).identity == identity
                ==> !state.jobs[j].stage.in_flight(),
{
    let after = state.jobs.remove(at);
    let i = choose|i: int|
        0 <= i < state.jobs.len() - 1 && (#[trigger] after[i]).stage is Queued && after[i].identity
            == identity;
    let x = if i < at {
        i
    } else {
        i + 1
    };
    assert forall|j: int| 0 <= j < state.jobs.len() && (#[trigger] state.jobs[j]).identity
        == identity implies !state.jobs[j].stage.in_flight() by {
        assert(state.jobs[x] == after[i]);
        lemma_one_job_per_identity(state, x, j);
    }
}

/// What settling asks for is a request, the wait for the next tick, or the
/// halt: never a retry, a commit or a report.
proof fn lemma_settle_actions(state: CoordinatorView, m: int)
    requires
        0 <= m < state.settle().1.len(),
    ensures
        state.settle().1[m] is Request || state.settle().1[m] is AwaitTick || state.settle().1[m] is Halt,
{
    if state.mode is Active {
        let started = dispatch(state.jobs, state.free_slots());
        lemma_dispatch(state.jobs, state.free_slots());
        if m < started.1.len() {
            assert(state.settle().1[m] == started.1[m]);
        }
    }
}

/// A network failure is tried again while the job has attempts left and no
/// cancellation is under way: the job stays, waiting, and the wait that is
/// asked for is the one that the policy sets for this retry.
pub proof fn lemma_network_failure_retried(state: CoordinatorView, i: int)
    requires
        state.wf(),
        0 <= i < state.jobs.len(),
        state.jobs[i].stage is Renewing,
        state.jobs[i].attempts < state.policy.max_attempts,
        state.mode is Active,
    ensures
        ({
            let job = state.jobs[i];
            let after = state.next(
                EventView::Renewed {
                    identity: job.identity,
                    outcome: OutcomeView::Failure(RenewalError::Network),
                },
            );
            &&& after.0.jobs.len() == state.jobs.len()
            &&& after.0.jobs[i] == job.backing_off(RenewalError::Network)
            &&& after.1.len() >= 1
            &&& after.1[0] == (ActionView::Retry {
                identity: job.identity,
                delay_secs: backoff_delay(state.policy.backoff_base_secs, (job.attempts - 1) as nat) as nat,
            })
        }),
{
    let job = state.jobs[i];
    lemma_job_index_unique(state.jobs, i);
    let waiting = state.with_jobs(state.jobs.update(i, job.backing_off(RenewalError::Network)));
    lemma_dispatch(waiting.jobs, waiting.free_slots());
    assert(job_within_budget(job, state.policy.max_attempts));
}

/// A job that has used up its attempts is not tried again: after one more
/// network failure it is gone, the failure is made known, and no retry is
/// asked for. The same holds at once, whatever attempts are left, of a
/// failure that is not a network failure.
pub proof fn lemma_job_fails_for_good(state: CoordinatorView, i: int, error: RenewalError)
    requires
        state.wf(),
        0 <= i < state.jobs.len(),
        state.jobs[i].stage is Renewing,
        state.jobs[i].attempts >= state.policy.max_attempts || !error.retryable(),
    ensures
        ({
            let job = state.jobs[i];
            let after = state.next(
                EventView::Renewed { identity: job.identity, outcome: OutcomeView::Failure(error) },
            );
            &&& !has_job(after.0.jobs, job.identity)
            &&& after.0.jobs.len() == state.jobs.len() - 1
            &&& after.1.len() >= 1
            &&& after.1[0] == (ActionView::ReportFailure {
                identity: job.identity,
                failure: JobFailure::Renewal(error),
                attempts: job.attempts,
            })
            &&& forall|k: int| 0 <= k < after.1.len() ==> !(#[trigger] after.1[k] is Retry)
        }),
{
    let job = state.jobs[i];
    let after = state.next(
        EventView::Renewed { identity: job.identity, outcome: OutcomeView::Failure(error) },
    );
    lemma_job_index_unique(state.jobs, i);
    lemma_distinct_remove(state.jobs, i);
    let rest = state.with_jobs(state.jobs.remove(i));
    lemma_dispatch(rest.jobs, rest.free_slots());
    assert forall|a: int| 0 <= a < dispatch(rest.jobs, rest.free_slots()).0.len() implies (
    #[trigger] dispatch(rest.jobs, rest.free_slots()).0[a]).identity != job.identity by {
        assert(rest.jobs[a].identity != job.identity);
    }
    assert forall|k: int| 0 <= k < after.1.len() implies !(#[trigger] after.1[k] is Retry) by {
        if k >= 1 {
            lemma_settle_actions(rest, k - 1);
        }
    }
}

/// Cancellation while jobs are in flight: exactly the jobs in flight are
/// kept, the others are counted as given up, and the grace period is
/// started. The coordinator does not stop yet.
pub proof fn lemma_cancel_grants_grace(state: CoordinatorView)
    requires
        state.wf(),
        in_flight_count(state.jobs) > 0,
        !(state.mode is Cancelling),
    ensures
        state.next(EventView::CancelRequested).0.mode is Cancelling,
        state.next(EventView::CancelRequested).0.jobs == in_flight_jobs(state.jobs),
        state.next(EventView::CancelRequested).0.abandoned == state.jobs.len() - in_flight_count(
            state.jobs,
        ),
        state.next(EventView::CancelRequested).1 == seq![
            ActionView::AwaitGrace { grace_secs: state.grace_secs },
        ],
{
    lemma_count_none(Seq::<JobView>::empty());
}

/// Cancellation while nothing is in flight stops the coordinator on the
/// spot, and not by force.
pub proof fn lemma_cancel_stops_idle(state: CoordinatorView)
    requires
        state.wf(),
        in_flight_count(state.jobs) == 0,
        !(state.mode is Cancelling || state.mode is Stopped),
    ensures
        state.next(EventView::CancelRequested).0.mode is Stopped,
        !state.next(EventView::CancelRequested).0.forced,
        state.next(EventView::CancelRequested).1 == seq![
            ActionView::Halt { abandoned: state.jobs.len(), forced: false },
        ],
{
}

/// A second cancellation changes nothing, and a stopped coordinator stays
/// as it is whatever comes.
pub proof fn lemma_cancel_idempotent(state: CoordinatorView, event: EventView)
    requires
        state.wf(),
    ensures
        state.next(EventView::CancelRequested).0.next(EventView::CancelRequested) == (
            state.next(EventView::CancelRequested).0,
            Seq::<ActionView>::empty(),
        ),
        state.mode is Stopped ==> state.next(event) == (state, Seq::<ActionView>::empty()),
{
    lemma_next_wf(state, EventView::CancelRequested);
    if state.mode is Stopped {
        match event {
            EventView::Renewed { identity, outcome } => {
                lemma_job_index(state.jobs, identity);
            },
            EventView::RetryReady { identity } => {
                lemma_job_index(state.jobs, identity);
            },
            EventView::Committed { identity, result } => {
                lemma_job_index(state.jobs, identity);
            },
            _ => {},
        }
    }
}

/// While cancellation is under way, what is in flight may still finish: a
/// certificate that comes back for the identity set that was asked for goes
/// on to be committed.
pub proof fn lemma_in_flight_finishes_under_cancellation(state: CoordinatorView, i: int, record: RecordView)
    requires
        state.wf(),
        state.mode is Cancelling,
        0 <= i < state.jobs.len(),
        state.jobs[i].stage is Renewing,
        record.identity == state.jobs[i].identity,
    ensures
        ({
            let after = state.next(
                EventView::Renewed {
                    identity: state.jobs[i].identity,
                    outcome: OutcomeView::Success(record),
                },
            );
            &&& after.0.mode is Cancelling
            &&& after.0.jobs == state.jobs.update(i, state.jobs[i].at(JobStage::Committing))
            &&& after.1 == seq![ActionView::Commit { record }]
        }),
{
    lemma_job_index_unique(state.jobs, i);
}

/// When the grace period runs out during cancellation, the coordinator
/// stops by force and counts every job that was still in flight as given
/// up.
pub proof fn lemma_grace_expiry_forces_stop(state: CoordinatorView)
    requires
        state.wf(),
        state.mode is Cancelling,
    ensures
        state.next(EventView::GraceExpired).0.mode is Stopped,
        state.next(EventView::GraceExpired).0.forced,
        state.next(EventView::GraceExpired).0.abandoned == state.abandoned + state.jobs.len(),
        state.next(EventView::GraceExpired).1 == seq![
            ActionView::Halt { abandoned: state.abandoned + state.jobs.len(), forced: true },
        ],
{
}

/// The coordinator is stopped by force only when the grace period runs out
/// during cancellation. Every halt says whether it was forced, and every
/// other way into the stopped state is a halt that was not.
pub proof fn lemma_forced_only_by_grace(state: CoordinatorView, event: EventView)
    requires
        state.wf(),
        !(state.mode is Stopped),
        state.next(event).0.mode is Stopped,
    ensures
        state.next(event).0.forced == (event is GraceExpired),
        state.next(event).1.len() >= 1,
        state.next(event).1.last() == (ActionView::Halt {
            abandoned: state.next(event).0.abandoned,
            forced: event is GraceExpired,
        }),
{
    match event {
        EventView::Listed { records, now } => {
            if state.mode is Scanning {
                let before = CoordinatorView {
                    mode: Mode::Active,
                    jobs: fresh_jobs(due_identities(records, state.policy, now)),
                    ..state
                };
                lemma_dispatch(before.jobs, before.free_slots());
            }
        },
        EventView::Renewed { identity, outcome } => {
            lemma_job_index(state.jobs, identity);
        },
        EventView::RetryReady { identity } => {
            lemma_job_index(state.jobs, identity);
        },
        EventView::Committed { identity, result } => {
            lemma_job_index(state.jobs, identity);
        },
        _ => {},
    }
}

/// The identity set that an event is about, where it is about the job of
/// one.
pub open spec fn subject(event: EventView) -> Option<Set<Seq<char>>> {
    match event {
        EventView::Renewed { identity, .. } => Some(identity),
        EventView::RetryReady { identity } => Some(identity),
        EventView::Committed { identity, .. } => Some(identity),
        _ => None,
    }
}

/// Settling leaves every job at its place, as it was or started.
proof fn lemma_settle_keeps_jobs(state: CoordinatorView, i: int)
    requires
        0 <= i < state.jobs.len(),
    ensures
        state.settle().0.jobs.len() == state.jobs.len(),
        state.settle().0.jobs[i] == state.jobs[i] || (state.jobs[i].stage is Queued && state.settle().0.jobs[i]
            == state.jobs[i].started()),
{
    if state.mode is Active {
        lemma_dispatch(state.jobs, state.free_slots());
        assert(dispatch(state.jobs, state.free_slots()).0[i] == state.jobs[i] || (state.jobs[i].stage
            is Queued && dispatch(state.jobs, state.free_slots()).0[i] == state.jobs[i].started()));
    }
}

/// What happens to one job stays with that job. Whatever an event about one
/// identity set brings, success or failure, the job of every other identity
/// set goes on: it is as it was, or it was queued and has been started.
pub proof fn lemma_other_jobs_go_on(state: CoordinatorView, event: EventView, j: int)
    requires
        state.wf(),
        0 <= j < state.jobs.len(),
        subject(event) is Some,
        subject(event) != Some(state.jobs[j].identity),
    ensures
        exists|m: int|
            0 <= m < state.next(event).0.jobs.len() && (#[trigger] state.next(event).0.jobs[m]
                == state.jobs[j] || (state.jobs[j].stage is Queued && state.next(event).0.jobs[m]
                == state.jobs[j].started())),
{
    let about = subject(event)->Some_0;
    let after = state.next(event).0.jobs;
    lemma_job_index(state.jobs, about);
    match job_index(state.jobs, about) {
        Some(at) => {
            let shifted = if j < at {
                j
            } else {
                j - 1
            };
            let removed = state.with_jobs(state.jobs.remove(at));
            assert(removed.jobs[shifted] == state.jobs[j]);
            lemma_settle_keeps_jobs(removed, shifted);
            match event {
                EventView::Renewed { identity, outcome } => {
                    let job = state.jobs[at];
                    let committing = state.with_jobs(state.jobs.update(at, job.at(JobStage::Committing)));
                    lemma_settle_keeps_jobs(committing, j);
                    if let OutcomeView::Failure(error) = outcome {
                        let waiting = state.with_jobs(state.jobs.update(at, job.backing_off(error)));
                        lemma_settle_keeps_jobs(waiting, j);
                    }
                    assert(after[j] == state.jobs[j] || (state.jobs[j].stage is Queued && after[j]
                        == state.jobs[j].started()) || after[shifted] == state.jobs[j] || (
                    state.jobs[j].stage is Queued && after[shifted] == state.jobs[j].started()));
                },
                EventView::RetryReady { identity } => {
                    let job = state.jobs[at];
                    let queued = state.with_jobs(state.jobs.update(at, job.at(JobStage::Queued)));
                    lemma_settle_keeps_jobs(queued, j);
                    assert(after[j] == state.jobs[j] || (state.jobs[j].stage is Queued && after[j]
                        == state.jobs[j].started()));
                },
                EventView::Committed { identity, result } => {
                    assert(after[j] == state.jobs[j] || after[shifted] == state.jobs[j] || (
                    state.jobs[j].stage is Queued && after[shifted] == state.jobs[j].started()));
                },
                _ => {},
            }
        },
        None => {
            assert(after[j] == state.jobs[j]);
        },
    }
}

/// A commit is asked for only when the certificate for a job comes back,
/// and only for the identity set of that job, which from then on is being
/// committed. With no two jobs about one identity set, no two commits for
/// one identity set are ever under way together, and a renewal never puts a
/// record under another identity set than the one that was due.
pub proof fn lemma_commit_is_for_its_job(state: CoordinatorView, event: EventView, k: int)
    requires
        state.wf(),
        0 <= k < state.next(event).1.len(),
        state.next(event).1[k] is Commit,
    ensures
        k == 0,
        event matches EventView::Renewed { identity, outcome: OutcomeView::Success(record) }
            && record.identity == identity && state.next(event).1[k] == (ActionView::Commit { record }),
        exists|i: int|
            0 <= i < state.jobs.len() && i < state.next(event).0.jobs.len() && (#[trigger] state.jobs[i]).stage
                is Renewing && state.next(event).0.jobs[i] == state.jobs[i].at(JobStage::Committing)
                && state.jobs[i].identity == state.next(event).1[k]->Commit_record.identity,
{
    let after = state.next(event);
    match event {
        EventView::Tick => {},
        EventView::Listed { records, now } => {
            if state.mode is Scanning {
                let before = CoordinatorView {
                    mode: Mode::Active,
                    jobs: fresh_jobs(due_identities(records, state.policy, now)),
                    ..state
                };
                lemma_settle_actions(before, k);
            }
        },
        EventView::Renewed { identity, outcome } => {
            lemma_job_index(state.jobs, identity);
            if let Some(at) = job_index(state.jobs, identity) {
                let job = state.jobs[at];
                if job.stage is Renewing {
                    let retry = outcome matches OutcomeView::Failure(error) && error.retryable()
                        && job.attempts < state.policy.max_attempts && state.mode is Active;
                    let commit = outcome matches OutcomeView::Success(record) && record.identity
                        == identity;
                    if commit {
                        let before = state.with_jobs(state.jobs.update(at, job.at(JobStage::Committing)));
                        if k >= 1 {
                            lemma_settle_actions(before, k - 1);
                        }
                        lemma_settle_keeps_jobs(before, at);
                    } else if retry {
                        let error = outcome->Failure_0;
                        let before = state.with_jobs(state.jobs.update(at, job.backing_off(error)));
                        if k >= 1 {
                            lemma_settle_actions(before, k - 1);
                        }
                    } else {
                        let before = state.with_jobs(state.jobs.remove(at));
                        if k >= 1 {
                            lemma_settle_actions(before, k - 1);
                        }
                    }
                }
            }
        },
        EventView::RetryReady { identity } => {
            lemma_job_index(state.jobs, identity);
            if let Some(at) = job_index(state.jobs, identity) {
                if state.jobs[at].stage is Backoff {
                    lemma_settle_actions(
                        state.with_jobs(state.jobs.update(at, state.jobs[at].at(JobStage::Queued))),
                        k,
                    );
                }
            }
        },
        EventView::Committed { identity, result } => {
            lemma_job_index(state.jobs, identity);
            if let Some(at) = job_index(state.jobs, identity) {
                if state.jobs[at].stage is Committing {
                    let before = state.with_jobs(state.jobs.remove(at));
                    match result {
                        Ok(_) => {
                            lemma_settle_actions(before, k);
                        },
                        Err(error) => {
                            if k >= 1 {
                                lemma_settle_actions(before, k - 1);
                            }
                        },
                    }
                }
            }
        },
        EventView::CancelRequested => {
            if !(state.mode is Cancelling || state.mode is Stopped) {
                let kept = in_flight_jobs(state.jobs);
                if kept.len() == 0 {
                    lemma_settle_actions(
                        CoordinatorView {
                            mode: Mode::Cancelling,
                            jobs: kept,
                            abandoned: (state.jobs.len() - kept.len()) as nat,
                            ..state
                        },
                        k,
                    );
                }
            }
        },
        EventView::GraceExpired => {},
    }
}

/// Whatever events come, in whatever order, a coordinator that began with
/// a valid policy is in a state in which everything holds: at any time, no
/// identity set has two jobs, and no more jobs hold a slot than the policy
/// allows.
pub proof fn lemma_always_wf(policy: PolicyView, grace_secs: u64, events: Seq<EventView>)
    requires
        policy.valid(),
    ensures
        CoordinatorView::initial(policy, grace_secs).after(events).wf(),
    decreases events.len(),
{
    lemma_initial_wf(policy, grace_secs);
    if events.len() > 0 {
        lemma_always_wf(policy, grace_secs, events.drop_last());
        lemma_next_wf(CoordinatorView::initial(policy, grace_secs).after(events.drop_last()), events.last());
    }
}

/// A scan gives each identity set that is due one job, in the order in which
/// the evaluator lists them, and asks the authority for as many of them as
/// there are slots, from the front.
pub proof fn lemma_scan_makes_one_job_per_due_identity(
    state: CoordinatorView,
    records: Seq<RecordView>,
    now: crate::time::Timestamp,
)
    requires
        state.wf(),
        state.mode is Scanning,
    ensures
        ({
            let due = due_identities(records, state.policy, now);
            let after = state.next(EventView::Listed { records, now });
            let asked: int = if due.len() <= state.policy.max_concurrent {
                due.len() as int
            } else {
                state.policy.max_concurrent as int
            };
            &&& after.0.jobs.len() == due.len()
            &&& forall|i: int| 0 <= i < due.len() ==> (#[trigger] after.0.jobs[i]).identity == due[i]
            &&& forall|i: int|
                0 <= i < due.len() ==> (#[trigger] after.0.jobs[i]) == if i < asked {
                    JobView::fresh(due[i]).started()
                } else {
                    JobView::fresh(due[i])
                }
            &&& forall|i: int|
                0 <= i < asked ==> (#[trigger] after.1[i]) == (ActionView::Request { identity: due[i] })
            &&& after.1.len() == if due.len() == 0 {
                1
            } else {
                asked
            }
        }),
{
    let due = due_identities(records, state.policy, now);
    let jobs = fresh_jobs(due);
    lemma_count_none(jobs);
    lemma_dispatch_fresh(due, state.policy.max_concurrent as nat);
}

/// Giving out slots among fresh jobs: the first jobs get them, one request
/// each, in order.
proof fn lemma_dispatch_fresh(identities: Seq<Set<Seq<char>>>, slots: nat)
    ensures
        ({
            let given: int = if identities.len() <= slots {
                identities.len() as int
            } else {
                slots as int
            };
            let after = dispatch(fresh_jobs(identities), slots);
            &&& after.0.len() == identities.len()
            &&& after.1.len() == given
            &&& forall|i: int|
                0 <= i < identities.len() ==> (#[trigger] after.0[i]) == if i < given {
                    JobView::fresh(identities[i]).started()
                } else {
                    JobView::fresh(identities[i])
                }
            &&& forall|i: int|
                0 <= i < given ==> (#[trigger] after.1[i]) == (ActionView::Request {
                    identity: identities[i],
                })
        }),
    decreases identities.len(),
{
    let jobs = fresh_jobs(identities);
    if identities.len() > 0 {
        let left: nat = if slots > 0 {
            (slots - 1) as nat
        } else {
            slots
        };
        assert(jobs.drop_first() =~= fresh_jobs(identities.drop_first()));
        lemma_dispatch_fresh(identities.drop_first(), left);
        let rest = dispatch(fresh_jobs(identities.drop_first()), left);
        let after = dispatch(jobs, slots);
        assert forall|i: int| 0 <= i < identities.len() implies (#[trigger] after.0[i]) == if i < (if identities.len()
            <= slots {
            identities.len() as int
        } else {
            slots as int
        }) {
            JobView::fresh(identities[i]).started()
        } else {
            JobView::fresh(identities[i])
        } by {
            if i > 0 {
                assert(after.0[i] == rest.0[i - 1]);
                assert(identities.drop_first()[i - 1] == identities[i]);
            }
        }
        assert forall|i: int|
            0 <= i < (if identities.len() <= slots {
                identities.len() as int
            } else {
                slots as int
            }) implies (#[trigger] after.1[i]) == (ActionView::Request { identity: identities[i] }) by {
            if i > 0 {
                assert(after.1[i] == rest.1[i - 1]);
                assert(identities.drop_first()[i - 1] == identities[i]);
            }
        }
    }
}

/// The attempts of a job are never taken back: while a job about an
/// identity set lasts, its count of attempts stays or grows. With the wait
/// before a retry growing with the attempts, the waits of a job never get
/// shorter.
pub proof fn lemma_attempts_never_decrease(state: CoordinatorView, event: EventView, j: int, m: int)
    requires
        state.wf(),
        0 <= j < state.jobs.len(),
        0 <= m < state.next(event).0.jobs.len(),
        state.next(event).0.jobs[m].identity == state.jobs[j].identity,
    ensures
        state.jobs[j].attempts <= state.next(event).0.jobs[m].attempts,
        backoff_delay(state.policy.backoff_base_secs, state.jobs[j].attempts) <= backoff_delay(
            state.policy.backoff_base_secs,
            state.next(event).0.jobs[m].attempts,
        ),
{
    let after = state.next(event).0;
    lemma_next_wf(state, event);
    if subject(event) is Some && subject(event) != Some(state.jobs[j].identity) {
        lemma_other_jobs_go_on(state, event, j);
        let found = choose|found: int|
            0 <= found < after.jobs.len() && (#[trigger] after.jobs[found] == state.jobs[j] || (
            state.jobs[j].stage is Queued && after.jobs[found] == state.jobs[j].started()));
        lemma_one_job_per_identity(after, found, m);
    } else if subject(event) is Some {
        let about = subject(event)->Some_0;
        lemma_job_index(state.jobs, about);
        lemma_job_index_unique(state.jobs, j);
        match event {
            EventView::Renewed { identity, outcome } => {
                let job = state.jobs[j];
                if job.stage is Renewing {
                    let retry = outcome matches OutcomeView::Failure(error) && error.retryable()
                        && job.attempts < state.policy.max_attempts && state.mode is Active;
                    let commit = outcome matches OutcomeView::Success(record) && record.identity
                        == identity;
                    if commit {
                        let before = state.with_jobs(state.jobs.update(j, job.at(JobStage::Committing)));
                        lemma_settle_keeps_jobs(before, j);
                        lemma_one_job_per_identity(after, j, m);
                    } else if retry {
                        let before = state.with_jobs(
                            state.jobs.update(j, job.backing_off(outcome->Failure_0)),
                        );
                        lemma_settle_keeps_jobs(before, j);
                        lemma_one_job_per_identity(after, j, m);
                    } else {
                        lemma_gone_after_remove(state, j, m);
                    }
                }
            },
            EventView::RetryReady { identity } => {
                let job = state.jobs[j];
                if job.stage is Backoff {
                    let before = state.with_jobs(state.jobs.update(j, job.at(JobStage::Queued)));
                    lemma_settle_keeps_jobs(before, j);
                    lemma_one_job_per_identity(after, j, m);
                }
            },
            EventView::Committed { identity, result } => {
                if state.jobs[j].stage is Committing {
                    lemma_gone_after_remove(state, j, m);
                }
            },
            _ => {},
        }
    } else {
        match event {
            EventView::CancelRequested => {
                if !(state.mode is Cancelling || state.mode is Stopped) {
                    lemma_in_flight_jobs(state.jobs);
                    let kept = in_flight_jobs(state.jobs);
                    if kept.len() > 0 {
                        assert(state.jobs.contains(kept[m]));
                        let i = choose|i: int| 0 <= i < state.jobs.len() && state.jobs[i] == kept[m];
                        lemma_one_job_per_identity(state, i, j);
                    }
                }
            },
            _ => {},
        }
    }
    if state.jobs[j].attempts <= after.jobs[m].attempts {
        crate::policy::lemma_backoff_monotonic(
            state.policy.backoff_base_secs,
            state.jobs[j].attempts,
            after.jobs[m].attempts,
        );
    }
}

/// Once the job at place `at` has left and the rest has settled, no job is
/// about its identity set.
proof fn lemma_gone_after_remove(state: CoordinatorView, at: int, m: int)
    requires
        state.wf(),
        0 <= at < state.jobs.len(),
        0 <= m < state.with_jobs(state.jobs.remove(at)).settle().0.jobs.len(),
    ensures
        state.with_jobs(state.jobs.remove(at)).settle().0.jobs[m].identity != state.jobs[at].identity,
{
    let rest = state.with_jobs(state.jobs.remove(at));
    lemma_distinct_remove(state.jobs, at);
    if rest.mode is Active {
        lemma_dispatch(rest.jobs, rest.free_slots());
    }
    assert(rest.jobs[m].identity != state.jobs[at].identity);
    lemma_settle_keeps_jobs(rest, m);
}

/// From the stop of the coordinator to the exit of the process: the exit
/// status is zero exactly when the coordinator came to its stop by another
/// event than the end of the grace period.
pub proof fn lemma_exit_status_tells_of_grace(
    state: CoordinatorView,
    event: EventView,
    lifecycle: LifecycleState,
)
    requires
        state.wf(),
        !(state.mode is Stopped),
        state.next(event).0.mode is Stopped,
        !(lifecycle is Exited),
    ensures
        lifecycle.after_halt(state.next(event).0.forced).0 is Exited,
        (lifecycle.after_halt(state.next(event).0.forced).0->code == 0) == !(event is GraceExpired),
{
    lemma_forced_only_by_grace(state, event);
}

} // verus!
