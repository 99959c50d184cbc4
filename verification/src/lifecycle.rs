//! The lifecycle controller: from the termination signal to the exit status.
//!
//! The controller forwards the first termination signal to the coordinator
//! as a cancellation, waits for the coordinator to stop, and names the status
//! with which the process is to exit.

use vstd::prelude::*;
use crate::error::ShutdownTimeout;

verus! {

/// Why the process ends.
#[derive(Debug, Clone, Copy, PartialEq, Eq, Structural)]
pub enum Termination {
    /// The coordinator stopped within the grace period.
    CleanShutdown,
    /// Only a check of the configuration was asked for, and it is valid.
    ConfigChecked,
    /// The configuration was turned down.
    ConfigRejected,
    /// The directory of the store could not be made ready.
    StoreUnavailable,
    /// The grace period ran out before the coordinator had stopped.
    GraceExceeded,
}

impl Termination {
    /// The exit status: zero for a clean shutdown and for a configuration
    /// found valid, and a status of its own for each failure.
    pub open spec fn spec_exit_code(self) -> i32 {
        match self {
            Termination::CleanShutdown => 0,
            Termination::ConfigChecked => 0,
            Termination::ConfigRejected => 1,
            Termination::StoreUnavailable => 2,
            Termination::GraceExceeded => 3,
        }
    }

    /// The end of a coordinator that has stopped, by force or not.
    pub open spec fn spec_of_halt(forced: bool) -> Termination {
        if forced {
            Termination::GraceExceeded
        } else {
            Termination::CleanShutdown
        }
    }

    /// The end of a coordinator that has stopped, in good order or not.
    pub open spec fn spec_of_shutdown(result: Result<(), ShutdownTimeout>) -> Termination {
        Termination::spec_of_halt(result is Err)
    }

    #[verifier::when_used_as_spec(spec_exit_code)]
    pub fn exit_code(self) -> (r: i32)
        ensures
            r == self.spec_exit_code(),
            (r == 0) == (self is CleanShutdown || self is ConfigChecked),
    {
        match self {
            Termination::CleanShutdown => 0,
            Termination::ConfigChecked => 0,
            Termination::ConfigRejected => 1,
            Termination::StoreUnavailable => 2,
            Termination::GraceExceeded => 3,
        }
    }

    #[verifier::when_used_as_spec(spec_of_shutdown)]
    pub fn of_shutdown(result: Result<(), ShutdownTimeout>) -> (r: Termination)
        ensures
            r == Termination::spec_of_shutdown(result),
    {
        match result {
            Ok(_) => Termination::CleanShutdown,
            Err(_) => Termination::GraceExceeded,
        }
    }

    #[verifier::when_used_as_spec(spec_of_halt)]
    pub fn of_halt(forced: bool) -> (r: Termination)
        ensures
            r == Termination::spec_of_halt(forced),
    {
        if forced {
            Termination::GraceExceeded
        } else {
            Termination::CleanShutdown
        }
    }
}

/// Where the process stands.
#[derive(Debug, Clone, Copy, PartialEq, Eq, Structural)]
pub enum LifecycleState {
    /// The coordinator runs; no signal has come.
    Running,
    /// The signal has come; the coordinator is winding down.
    Draining,
    /// The process is to exit with `code`.
    Exited { code: i32 },
}

/// What the controller wants done.
#[derive(Debug, Clone, Copy, PartialEq, Eq, Structural)]
pub enum Directive {
    /// Tell the coordinator that cancellation is asked for.
    Cancel,
    /// Exit the process with `code`.
    Exit { code: i32 },
}

impl LifecycleState {
    /// The state after a termination signal, and what the signal calls for.
    /// Only the first signal counts.
    pub open spec fn after_signal(self) -> (LifecycleState, Option<Directive>) {
        match self {
            LifecycleState::Running => (LifecycleState::Draining, Some(Directive::Cancel)),
            _ => (self, None),
        }
    }

    /// The state after the coordinator has stopped, and what that calls for.
    pub open spec fn after_halt(self, forced: bool) -> (LifecycleState, Option<Directive>) {
        match self {
            LifecycleState::Exited { .. } => (self, None),
            _ => {
                let code = Termination::spec_of_halt(forced).spec_exit_code();
                (LifecycleState::Exited { code }, Some(Directive::Exit { code }))
            },
        }
    }
}

/// A second signal changes nothing, and calls for nothing.
pub proof fn lemma_signal_idempotent(state: LifecycleState)
    ensures
        state.after_signal().0.after_signal() == (state.after_signal().0, None::<Directive>),
{
}

/// The exit status after a halt is zero exactly when the coordinator was not
/// stopped by force, that is, when the grace period was not exceeded.
pub proof fn lemma_exit_reflects_grace(state: LifecycleState, forced: bool)
    requires
        !(state is Exited),
    ensures
        state.after_halt(forced).0 is Exited,
        (state.after_halt(forced).0->code == 0) == !forced,
        state.after_halt(forced).1 == Some(Directive::Exit { code: state.after_halt(forced).0->code }),
{
}

/// The lifecycle controller.
#[derive(Debug)]
pub struct LifecycleController {
    state: LifecycleState,
}

impl View for LifecycleController {
    type V = LifecycleState;

    closed spec fn view(&self) -> LifecycleState {
        self.state
    }
}

impl LifecycleController {
    /// A controller for a process that has just started its coordinator.
    pub fn new() -> (r: LifecycleController)
        ensures
            r@ == LifecycleState::Running,
    {
        LifecycleController { state: LifecycleState::Running }
    }

    /// Where the process stands.
    pub fn state(&self) -> (r: LifecycleState)
        ensures
            r == self@,
    {
        self.state
    }

    /// A termination signal has arrived.
    pub fn signal(&mut self) -> (r: Option<Directive>)
        ensures
            final(self)@ == old(self)@.after_signal().0,
            r == old(self)@.after_signal().1,
    {
        match self.state {
            LifecycleState::Running => {
                self.state = LifecycleState::Draining;
                Some(Directive::Cancel)
            },
            _ => None,
        }
    }

    /// The coordinator has stopped; `forced` says that the grace period ran
    /// out first.
    pub fn halted(&mut self, forced: bool) -> (r: Option<Directive>)
        ensures
            final(self)@ == old(self)@.after_halt(forced).0,
            r == old(self)@.after_halt(forced).1,
    {
        match self.state {
            LifecycleState::Exited { .. } => None,
            _ => {
                let code = Termination::of_halt(forced).exit_code();
                self.state = LifecycleState::Exited { code };
                Some(Directive::Exit { code })
            },
        }
    }
}

} // verus!
