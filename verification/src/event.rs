//! What the coordinator is told and what it asks for in return.
//!
//! The coordinator does no I/O of its own. Whoever drives it reports what
//! happened as an [`Event`] and carries out the [`Action`]s that come back.

use vstd::prelude::*;
use crate::error::{JobFailure, StoreError};
use crate::identity::IdentitySet;
use crate::job::{OutcomeView, RenewalOutcome};
use crate::record::{CertificateRecord, RecordView, record_views};
use crate::time::Timestamp;

verus! {

/// An event, as plain mathematical values.
pub enum EventView {
    Tick,
    Listed { records: Seq<RecordView>, now: Timestamp },
    Renewed { identity: Set<Seq<char>>, outcome: OutcomeView },
    RetryReady { identity: Set<Seq<char>> },
    Committed { identity: Set<Seq<char>>, result: Result<(), StoreError> },
    CancelRequested,
    GraceExpired,
}

/// Something that happened outside the coordinator.
#[derive(Debug)]
pub enum Event {
    /// The tick interval has passed.
    Tick,
    /// The store was read: these are its records, and this is the time.
    Listed { records: Vec<CertificateRecord>, now: Timestamp },
    /// The request for `identity` has come back.
    Renewed { identity: IdentitySet, outcome: RenewalOutcome },
    /// The wait before the next request for `identity` is over.
    RetryReady { identity: IdentitySet },
    /// The commit of the new record of `identity` has ended.
    Committed { identity: IdentitySet, result: Result<(), StoreError> },
    /// The termination signal has arrived.
    CancelRequested,
    /// The grace period that began with the cancellation is over.
    GraceExpired,
}

impl View for Event {
    type V = EventView;

    open spec fn view(&self) -> EventView {
        match self {
            Event::Tick => EventView::Tick,
            Event::Listed { records, now } => EventView::Listed {
                records: record_views(records@),
                now: *now,
            },
            Event::Renewed { identity, outcome } => EventView::Renewed {
                identity: identity@,
                outcome: outcome@,
            },
            Event::RetryReady { identity } => EventView::RetryReady { identity: identity@ },
            Event::Committed { identity, result } => EventView::Committed {
                identity: identity@,
                result: *result,
            },
            Event::CancelRequested => EventView::CancelRequested,
            Event::GraceExpired => EventView::GraceExpired,
        }
    }
}

/// An action, as plain mathematical values.
pub enum ActionView {
    ListStore,
    Request { identity: Set<Seq<char>> },
    Commit { record: RecordView },
    Retry { identity: Set<Seq<char>>, delay_secs: nat },
    ReportFailure { identity: Set<Seq<char>>, failure: JobFailure, attempts: nat },
    AwaitTick,
    AwaitGrace { grace_secs: u64 },
    Halt { abandoned: nat, forced: bool },
}

/// Something that the coordinator wants done.
#[derive(Debug)]
pub enum Action {
    /// Read the store and answer with [`Event::Listed`].
    ListStore,
    /// Ask the authority for a certificate for `identity` and answer with
    /// [`Event::Renewed`].
    Request { identity: IdentitySet },
    /// Commit `record` to the store and answer with [`Event::Committed`].
    Commit { record: CertificateRecord },
    /// Wait `delay_secs` seconds and answer with [`Event::RetryReady`].
    Retry { identity: IdentitySet, delay_secs: u64 },
    /// Make known that the job for `identity` has failed for good, after
    /// `attempts` requests.
    ReportFailure { identity: IdentitySet, failure: JobFailure, attempts: u32 },
    /// Nothing is left to do: wait for the next tick.
    AwaitTick,
    /// Answer with [`Event::GraceExpired`] in `grace_secs` seconds.
    AwaitGrace { grace_secs: u64 },
    /// The coordinator has stopped, leaving `abandoned` jobs undone; `forced`
    /// says that the grace period ran out first.
    Halt { abandoned: usize, forced: bool },
}

impl View for Action {
    type V = ActionView;

    open spec fn view(&self) -> ActionView {
        match self {
            Action::ListStore => ActionView::ListStore,
            Action::Request { identity } => ActionView::Request { identity: identity@ },
            Action::Commit { record } => ActionView::Commit { record: record@ },
            Action::Retry { identity, delay_secs } => ActionView::Retry {
                identity: identity@,
                delay_secs: *delay_secs as nat,
            },
            Action::ReportFailure { identity, failure, attempts } => ActionView::ReportFailure {
                identity: identity@,
                failure: *failure,
                attempts: *attempts as nat,
            },
            Action::AwaitTick => ActionView::AwaitTick,
            Action::AwaitGrace { grace_secs } => ActionView::AwaitGrace { grace_secs: *grace_secs },
            Action::Halt { abandoned, forced } => ActionView::Halt {
                abandoned: *abandoned as nat,
                forced: *forced,
            },
        }
    }
}

/// The views of a sequence of actions, place by place.
pub open spec fn action_views(actions: Seq<Action>) -> Seq<ActionView> {
    Seq::new(actions.len(), |i: int| actions[i]@)
}

} // verus!
