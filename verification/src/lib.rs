//! Certificate lifecycle monitoring and renewal coordination.
//!
//! The library decides; it does no I/O. [`evaluator`] says which identity
//! sets need a certificate, [`coordinator`] turns events into actions by the
//! state machine of [`model`], [`store`] keeps one record per identity set,
//! [`lifecycle`] leads from the termination signal to the exit status, and
//! [`config`] admits the configuration. What holds of the coordinator in
//! every state is proved in [`invariants`].

pub mod config;
pub mod coordinator;
pub mod distinct;
pub mod error;
pub mod evaluator;
pub mod event;
pub mod identity;
pub mod invariants;
pub mod job;
pub mod lifecycle;
pub mod model;
pub mod policy;
pub mod record;
pub mod store;
pub mod time;
