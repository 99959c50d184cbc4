//! The renewal policy: when a certificate is due, how many renewals may run
//! at once, and how a failed request is tried again.

use vstd::prelude::*;
use vstd::arithmetic::power2::{pow2, lemma_pow2_pos, lemma_pow2_unfold, lemma_pow2_strictly_increases};
use vstd::arithmetic::mul::lemma_mul_inequality;
use crate::error::ConfigError;
use crate::identity::IdentitySet;

verus! {

/// The views of a sequence of identity sets, place by place.
pub open spec fn identity_views(sets: Seq<IdentitySet>) -> Seq<Set<Seq<char>>> {
    Seq::new(sets.len(), |i: int| sets[i]@)
}

/// The seconds to wait before retry number `retry` (the first retry is number
/// 0) where the first wait is `base` seconds: the wait doubles with every
/// retry, and stays at the largest value that fits once it would pass it.
pub open spec fn backoff_delay(base: u64, retry: nat) -> int {
    if base * pow2(retry) <= u64::MAX {
        base * pow2(retry)
    } else {
        u64::MAX as int
    }
}

/// The wait before a retry is never shorter than the wait before an earlier
/// one.
pub proof fn lemma_backoff_monotonic(base: u64, earlier: nat, later: nat)
    requires
        earlier <= later,
    ensures
        backoff_delay(base, earlier) <= backoff_delay(base, later),
{
    lemma_pow2_pos(earlier);
    if earlier < later {
        lemma_pow2_strictly_increases(earlier, later);
    }
    lemma_mul_inequality(pow2(earlier) as int, pow2(later) as int, base as int);
    assert(base * pow2(earlier) == pow2(earlier) * base) by (nonlinear_arith);
    assert(base * pow2(later) == pow2(later) * base) by (nonlinear_arith);
}

/// The wait before any retry is at least the first wait, and fits in 64 bits.
pub proof fn lemma_backoff_bounds(base: u64, retry: nat)
    ensures
        base <= backoff_delay(base, retry) <= u64::MAX,
{
    lemma_pow2_pos(retry);
    assert(base * pow2(retry) >= base) by (nonlinear_arith)
        requires
            pow2(retry) >= 1,
    ;
}

/// What a renewal policy holds, as plain mathematical values.
pub struct PolicyView {
    pub threshold_secs: u64,
    pub max_concurrent: usize,
    pub backoff_base_secs: u64,
    pub max_attempts: u32,
    pub maintained: Seq<Set<Seq<char>>>,
}

impl PolicyView {
    /// At least one renewal may be in flight, and a job gets at least one
    /// attempt.
    pub open spec fn valid(self) -> bool {
        self.max_concurrent >= 1 && self.max_attempts >= 1
    }
}

/// The rules of renewal. Fixed once made.
#[derive(Debug)]
pub struct RenewalPolicy {
    threshold_secs: u64,
    max_concurrent: usize,
    backoff_base_secs: u64,
    max_attempts: u32,
    maintained: Vec<IdentitySet>,
}

impl View for RenewalPolicy {
    type V = PolicyView;

    closed spec fn view(&self) -> PolicyView {
        PolicyView {
            threshold_secs: self.threshold_secs,
            max_concurrent: self.max_concurrent,
            backoff_base_secs: self.backoff_base_secs,
            max_attempts: self.max_attempts,
            maintained: identity_views(self.maintained@),
        }
    }
}

impl RenewalPolicy {
    #[verifier::type_invariant]
    spec fn usable(self) -> bool {
        self.max_concurrent >= 1 && self.max_attempts >= 1
    }

    /// A policy that renews a certificate once it has less than
    /// `threshold_secs` seconds left, runs at most `max_concurrent` renewals
    /// at once, gives a job at most `max_attempts` requests, waits
    /// `backoff_base_secs` seconds before the first retry, and keeps a
    /// certificate for each identity set in `maintained` even where the store
    /// has none yet.
    ///
    /// A policy that allows no renewal in flight, or no attempt, is turned
    /// down; the first of the two is reported where both hold.
    pub fn new(
        threshold_secs: u64,
        max_concurrent: usize,
        backoff_base_secs: u64,
        max_attempts: u32,
        maintained: Vec<IdentitySet>,
    ) -> (r: Result<RenewalPolicy, ConfigError>)
        ensures
            max_concurrent == 0 ==> r == Err::<RenewalPolicy, ConfigError>(ConfigError::ZeroConcurrency),
            max_concurrent != 0 && max_attempts == 0 ==> r == Err::<RenewalPolicy, ConfigError>(
                ConfigError::ZeroAttempts,
            ),
            max_concurrent != 0 && max_attempts != 0 ==> r is Ok && r->Ok_0@ == (PolicyView {
                threshold_secs,
                max_concurrent,
                backoff_base_secs,
                max_attempts,
                maintained: identity_views(maintained@),
            }),
    {
        if max_concurrent == 0 {
            Err(ConfigError::ZeroConcurrency)
        } else if max_attempts == 0 {
            Err(ConfigError::ZeroAttempts)
        } else {
            Ok(RenewalPolicy { threshold_secs, max_concurrent, backoff_base_secs, max_attempts, maintained })
        }
    }

    /// The remaining validity, in seconds, below which a certificate is due.
    pub fn threshold_secs(&self) -> (r: u64)
        ensures
            r == self@.threshold_secs,
    {
        self.threshold_secs
    }

    /// The most renewals that may be in flight at once. At least one.
    pub fn max_concurrent(&self) -> (r: usize)
        ensures
            r == self@.max_concurrent,
            self@.valid(),
    {
        proof {
            use_type_invariant(self);
        }
        self.max_concurrent
    }

    /// The most requests that one job may make. At least one.
    pub fn max_attempts(&self) -> (r: u32)
        ensures
            r == self@.max_attempts,
            self@.valid(),
    {
        proof {
            use_type_invariant(self);
        }
        self.max_attempts
    }

    /// The seconds to wait before the first retry.
    pub fn backoff_base_secs(&self) -> (r: u64)
        ensures
            r == self@.backoff_base_secs,
    {
        self.backoff_base_secs
    }

    /// The identity sets for which a certificate is kept even where the
    /// store has none yet.
    pub fn maintained(&self) -> (r: &Vec<IdentitySet>)
        ensures
            identity_views(r@) == self@.maintained,
    {
        &self.maintained
    }

    /// The seconds to wait before retry number `retry`, the first retry
    /// being number 0.
    pub fn backoff_delay(&self, retry: u32) -> (r: u64)
        ensures
            r == backoff_delay(self@.backoff_base_secs, retry as nat),
    {
        let base = self.backoff_base_secs;
        let mut delay: u64 = base;
        let mut done: u32 = 0;
        proof {
            assert(pow2(0) == 1) by {
                vstd::arithmetic::power2::lemma2_to64();
            }
            assert(base * 1 == base);
        }
        while done < retry && 0 < delay && delay < u64::MAX
            invariant
                done <= retry,
                delay == backoff_delay(base, done as nat),
            decreases retry - done,
        {
            proof {
                lemma_pow2_unfold((done + 1) as nat);
                assert(base * pow2((done + 1) as nat) == 2 * (base * pow2(done as nat))) by (nonlinear_arith)
                    requires
                        pow2((done + 1) as nat) == 2 * pow2(done as nat),
                ;
            }
            delay = if delay > u64::MAX / 2 {
                u64::MAX
            } else {
                delay * 2
            };
            done += 1;
        }
        proof {
            lemma_backoff_monotonic(base, done as nat, retry as nat);
            lemma_backoff_bounds(base, retry as nat);
            if delay == 0 {
                lemma_backoff_bounds(base, done as nat);
                assert(base == 0);
                assert(base * pow2(retry as nat) == 0) by (nonlinear_arith)
                    requires
                        base == 0,
                ;
            }
        }
        delay
    }
}

impl Clone for RenewalPolicy {
    fn clone(&self) -> (r: RenewalPolicy)
        ensures
            r@ == self@,
    {
        proof {
            use_type_invariant(self);
        }
        let maintained = self.maintained.clone();
        proof {
            assert forall|i: int| 0 <= i < maintained@.len() implies #[trigger] maintained@[i]@
                == self.maintained@[i]@ by {
                assert(cloned(self.maintained@[i], maintained@[i]));
            }
            assert(identity_views(maintained@) =~= identity_views(self.maintained@));
        }
        RenewalPolicy {
            threshold_secs: self.threshold_secs,
            max_concurrent: self.max_concurrent,
            backoff_base_secs: self.backoff_base_secs,
            max_attempts: self.max_attempts,
            maintained,
        }
    }
}

} // verus!
