//! Renewal jobs: one per identity set that is due, for as long as the
//! coordinator works on it.

use vstd::prelude::*;
use crate::error::{JobFailure, RenewalError};
use crate::identity::IdentitySet;
use crate::record::{CertificateRecord, RecordView};
use crate::time::Timestamp;

verus! {

/// Where a job stands.
#[derive(Debug, Clone, Copy, PartialEq, Eq, Structural)]
pub enum JobStage {
    /// Waiting for a free slot.
    Queued,
    /// A request to the authority is under way.
    Renewing,
    /// The last request failed; the job waits before it asks again.
    Backoff,
    /// The new certificate is being written to the store.
    Committing,
}

impl JobStage {
    /// The job holds one of the slots that bound concurrency: a request or a
    /// commit is under way for it.
    pub open spec fn spec_in_flight(self) -> bool {
        self is Renewing || self is Committing
    }

    #[verifier::when_used_as_spec(spec_in_flight)]
    pub fn in_flight(self) -> (r: bool)
        ensures
            r == self.spec_in_flight(),
    {
        match self {
            JobStage::Renewing => true,
            JobStage::Committing => true,
            JobStage::Queued => false,
            JobStage::Backoff => false,
        }
    }
}

/// What a renewal job holds, as plain mathematical values.
pub struct JobView {
    pub identity: Set<Seq<char>>,
    pub attempts: nat,
    pub last_failure: Option<JobFailure>,
    pub stage: JobStage,
}

impl JobView {
    /// A job for `identity` that has not asked the authority yet.
    pub open spec fn fresh(identity: Set<Seq<char>>) -> JobView {
        JobView { identity, attempts: 0, last_failure: None, stage: JobStage::Queued }
    }

    /// The job after it was given a slot: one more attempt, now under way.
    pub open spec fn started(self) -> JobView {
        JobView { attempts: self.attempts + 1, stage: JobStage::Renewing, ..self }
    }

    /// The job in another stage.
    pub open spec fn at(self, stage: JobStage) -> JobView {
        JobView { stage, ..self }
    }

    /// The job after its request failed with `error` and a retry was granted.
    pub open spec fn backing_off(self, error: RenewalError) -> JobView {
        JobView { stage: JobStage::Backoff, last_failure: Some(JobFailure::Renewal(error)), ..self }
    }
}

/// The work of getting one identity set a new certificate: which identity
/// set, how many requests were made for it so far, and why the last one
/// failed, if one did.
#[derive(Debug)]
pub struct RenewalJob {
    identity: IdentitySet,
    attempts: u32,
    last_failure: Option<JobFailure>,
    stage: JobStage,
}

impl View for RenewalJob {
    type V = JobView;

    closed spec fn view(&self) -> JobView {
        JobView {
            identity: self.identity@,
            attempts: self.attempts as nat,
            last_failure: self.last_failure,
            stage: self.stage,
        }
    }
}

impl RenewalJob {
    /// A job for `identity` that has not asked the authority yet.
    pub fn new(identity: IdentitySet) -> (r: RenewalJob)
        ensures
            r@ == JobView::fresh(identity@),
    {
        RenewalJob { identity, attempts: 0, last_failure: None, stage: JobStage::Queued }
    }

    /// The identity set that the job is to renew.
    pub fn identity(&self) -> (r: &IdentitySet)
        ensures
            r@ == self@.identity,
    {
        &self.identity
    }

    /// The number of requests made for the job so far.
    pub fn attempts(&self) -> (r: u32)
        ensures
            r == self@.attempts,
    {
        self.attempts
    }

    /// Why the last request failed, if one did.
    pub fn last_failure(&self) -> (r: Option<JobFailure>)
        ensures
            r == self@.last_failure,
    {
        self.last_failure
    }

    /// Where the job stands.
    pub fn stage(&self) -> (r: JobStage)
        ensures
            r == self@.stage,
    {
        self.stage
    }

    /// Gives the job a slot: one more attempt, now under way.
    pub(crate) fn start(&mut self)
        requires
            old(self)@.attempts < u32::MAX,
        ensures
            final(self)@ == old(self)@.started(),
    {
        self.attempts = self.attempts + 1;
        self.stage = JobStage::Renewing;
    }

    /// Moves the job to another stage.
    pub(crate) fn move_to(&mut self, stage: JobStage)
        ensures
            final(self)@ == old(self)@.at(stage),
    {
        self.stage = stage;
    }

    /// Notes that the request failed with `error` and that the job waits for
    /// its retry.
    pub(crate) fn back_off(&mut self, error: RenewalError)
        ensures
            final(self)@ == old(self)@.backing_off(error),
    {
        self.stage = JobStage::Backoff;
        self.last_failure = Some(JobFailure::Renewal(error));
    }
}

impl Clone for RenewalJob {
    fn clone(&self) -> (r: RenewalJob)
        ensures
            r@ == self@,
    {
        RenewalJob {
            identity: self.identity.clone(),
            attempts: self.attempts,
            last_failure: self.last_failure,
            stage: self.stage,
        }
    }
}

/// The views of a sequence of jobs, place by place.
pub open spec fn job_views(jobs: Seq<RenewalJob>) -> Seq<JobView> {
    Seq::new(jobs.len(), |i: int| jobs[i]@)
}

/// What one request to the authority came to, as plain mathematical values.
pub enum OutcomeView {
    Success(RecordView),
    Failure(RenewalError),
}

/// What one request to the authority came to: a new record, or the reason
/// why there is none.
#[derive(Debug)]
pub enum RenewalOutcome {
    Success(CertificateRecord),
    Failure(RenewalError),
}

impl View for RenewalOutcome {
    type V = OutcomeView;

    open spec fn view(&self) -> OutcomeView {
        match self {
            RenewalOutcome::Success(record) => OutcomeView::Success(record@),
            RenewalOutcome::Failure(error) => OutcomeView::Failure(*error),
        }
    }
}

/// What the authority issued: the certificate with its key, and the window
/// in which it is valid.
#[derive(Debug)]
pub struct Issued {
    pub certificate: Vec<u8>,
    pub private_key: Vec<u8>,
    pub not_before: Timestamp,
    pub not_after: Timestamp,
}

/// What a request for `identity` comes to, `answer` being what came back
/// within the time limit, if anything did.
pub open spec fn concluded(
    identity: Set<Seq<char>>,
    path: Seq<char>,
    answer: Option<Result<Issued, RenewalError>>,
) -> OutcomeView {
    match answer {
        None => OutcomeView::Failure(RenewalError::Network),
        Some(Err(error)) => OutcomeView::Failure(error),
        Some(Ok(issued)) => OutcomeView::Success(
            RecordView {
                identity,
                certificate: issued.certificate@,
                private_key: issued.private_key@,
                not_before: issued.not_before,
                not_after: issued.not_after,
                path,
            },
        ),
    }
}

impl RenewalOutcome {
    /// What a request comes to that did not answer within its time limit: a
    /// network failure.
    pub fn timed_out() -> (r: RenewalOutcome)
        ensures
            r@ == OutcomeView::Failure(RenewalError::Network),
    {
        RenewalOutcome::Failure(RenewalError::Network)
    }

    /// What a request for `identity` comes to. `answer` is what came back
    /// within the time limit, and `None` where nothing did: that counts as a
    /// network failure. A failure stays what it is. What was issued becomes
    /// the record of `identity`, to be kept at `path`.
    pub fn conclude(identity: IdentitySet, path: String, answer: Option<Result<Issued, RenewalError>>) -> (r:
        RenewalOutcome)
        ensures
            r@ == concluded(identity@, path@, answer),
    {
        match answer {
            None => RenewalOutcome::timed_out(),
            Some(Err(error)) => RenewalOutcome::Failure(error),
            Some(Ok(issued)) => RenewalOutcome::Success(
                CertificateRecord::new(
                    identity,
                    issued.certificate,
                    issued.private_key,
                    issued.not_before,
                    issued.not_after,
                    path,
                ),
            ),
        }
    }
}

} // verus!
