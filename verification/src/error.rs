//! The failures that the library reports.

use vstd::prelude::*;

verus! {

/// Why a configuration was turned down before anything was started.
#[derive(Debug, PartialEq, Eq)]
pub enum ConfigError {
    /// The authority URL could not be parsed as an absolute URL.
    InvalidUrl { reason: String },
    /// The tick interval is zero seconds.
    ZeroInterval,
    /// The policy allows no renewal at all to be in flight.
    ZeroConcurrency,
    /// The policy grants a job no attempt at all.
    ZeroAttempts,
}

/// Why a commit to the certificate store failed.
#[derive(Debug, Clone, Copy, PartialEq, Eq, Structural)]
pub enum StoreError {
    /// The filesystem refused a step of the replacement.
    IO,
    /// The certificate and the private key of the record do not belong
    /// together.
    Invalid,
}

/// Why a request to the certificate authority failed.
#[derive(Debug, Clone, Copy, PartialEq, Eq, Structural)]
pub enum RenewalError {
    /// The authority could not be reached, or did not answer in time.
    Network,
    /// The authority declined to issue the certificate.
    Rejected,
    /// The authority answered with something unexpected.
    Protocol,
}

impl RenewalError {
    /// Whether a later attempt may succeed without anybody stepping in. Only
    /// a network failure is of that kind.
    pub open spec fn spec_retryable(self) -> bool {
        self is Network
    }

    #[verifier::when_used_as_spec(spec_retryable)]
    pub fn retryable(self) -> (r: bool)
        ensures
            r == self.spec_retryable(),
    {
        match self {
            RenewalError::Network => true,
            RenewalError::Rejected => false,
            RenewalError::Protocol => false,
        }
    }
}

/// Why a renewal job ended without a new certificate in the store.
#[derive(Debug, Clone, Copy, PartialEq, Eq, Structural)]
pub enum JobFailure {
    /// The request to the authority failed.
    Renewal(RenewalError),
    /// The certificate was issued, but the store did not take it.
    Store(StoreError),
}

/// The grace period ran out before everything in flight had finished;
/// `abandoned` jobs were given up.
#[derive(Debug, Clone, Copy, PartialEq, Eq, Structural)]
pub struct ShutdownTimeout {
    pub abandoned: usize,
}

} // verus!
