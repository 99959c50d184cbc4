//! The expiry evaluator: which identity sets need a new certificate now.

use vstd::prelude::*;
use crate::distinct::{first_occurrences, lemma_first_occurrences, lemma_first_occurrences_push};
use crate::identity::IdentitySet;
use crate::policy::{PolicyView, RenewalPolicy, identity_views};
use crate::record::{CertificateRecord, RecordView, record_views};
use crate::time::Timestamp;

verus! {

/// Some record in `records` is about `identity`.
pub open spec fn has_record(records: Seq<RecordView>, identity: Set<Seq<char>>) -> bool {
    exists|i: int| 0 <= i < records.len() && (#[trigger] records[i]).identity == identity
}

/// Some record in `records` is about `identity` and has less than `threshold`
/// seconds left at `now`.
pub open spec fn has_due_record(
    records: Seq<RecordView>,
    threshold: u64,
    now: Timestamp,
    identity: Set<Seq<char>>,
) -> bool {
    exists|i: int|
        0 <= i < records.len() && (#[trigger] records[i]).identity == identity && records[i].due_at(
            threshold,
            now,
        )
}

/// `identity` needs a certificate at `now`: a record of it is about to
/// expire, or the policy asks for one and the store has none.
pub open spec fn needs_renewal(
    records: Seq<RecordView>,
    policy: PolicyView,
    now: Timestamp,
    identity: Set<Seq<char>>,
) -> bool {
    has_due_record(records, policy.threshold_secs, now, identity) || (policy.maintained.contains(
        identity,
    ) && !has_record(records, identity))
}

/// The identity sets of the records that have less than `threshold` seconds
/// left at `now`, in the order of the records.
pub open spec fn expiring(records: Seq<RecordView>, threshold: u64, now: Timestamp) -> Seq<
    Set<Seq<char>>,
> {
    records.filter(|r: RecordView| r.due_at(threshold, now)).map_values(|r: RecordView| r.identity)
}

/// The identity sets among `maintained` of which `records` has no record, in
/// the order of `maintained`.
pub open spec fn missing(maintained: Seq<Set<Seq<char>>>, records: Seq<RecordView>) -> Seq<
    Set<Seq<char>>,
> {
    maintained.filter(|identity: Set<Seq<char>>| !has_record(records, identity))
}

/// The identity sets that need a certificate at `now`, each once: first those
/// of the expiring records, then those that the policy maintains and the
/// store lacks.
pub open spec fn due_identities(records: Seq<RecordView>, policy: PolicyView, now: Timestamp) -> Seq<
    Set<Seq<char>>,
> {
    first_occurrences(
        expiring(records, policy.threshold_secs, now) + missing(policy.maintained, records),
    )
}

/// What one more record does to the expiring identity sets.
proof fn lemma_expiring_step(records: Seq<RecordView>, threshold: u64, now: Timestamp, i: int)
    requires
        0 <= i < records.len(),
    ensures
        expiring(records.take(i + 1), threshold, now) == if records[i].due_at(threshold, now) {
            expiring(records.take(i), threshold, now).push(records[i].identity)
        } else {
            expiring(records.take(i), threshold, now)
        },
{
    let p = |r: RecordView| r.due_at(threshold, now);
    let f = |r: RecordView| r.identity;
    assert(records.take(i + 1).drop_last() =~= records.take(i));
    assert(records.take(i + 1).last() == records[i]);
    reveal(Seq::filter);
    if records[i].due_at(threshold, now) {
        assert(records.take(i + 1).filter(p) == records.take(i).filter(p).push(records[i]));
        assert(records.take(i).filter(p).push(records[i]).map_values(f) =~= records.take(i).filter(
            p,
        ).map_values(f).push(records[i].identity));
    } else {
        assert(records.take(i + 1).filter(p) == records.take(i).filter(p));
    }
}

/// What one more maintained identity set does to the missing ones.
proof fn lemma_missing_step(maintained: Seq<Set<Seq<char>>>, records: Seq<RecordView>, j: int)
    requires
        0 <= j < maintained.len(),
    ensures
        missing(maintained.take(j + 1), records) == if has_record(records, maintained[j]) {
            missing(maintained.take(j), records)
        } else {
            missing(maintained.take(j), records).push(maintained[j])
        },
{
    assert(maintained.take(j + 1).drop_last() =~= maintained.take(j));
    assert(maintained.take(j + 1).last() == maintained[j]);
    reveal(Seq::filter);
}

/// An identity set is listed as due exactly when it needs a certificate, and
/// none is listed twice.
pub proof fn lemma_due_identities(records: Seq<RecordView>, policy: PolicyView, now: Timestamp)
    ensures
        due_identities(records, policy, now).no_duplicates(),
        forall|identity: Set<Seq<char>>|
            #[trigger] due_identities(records, policy, now).contains(identity) <==> needs_renewal(
                records,
                policy,
                now,
                identity,
            ),
{
    let threshold = policy.threshold_secs;
    let p = |r: RecordView| r.due_at(threshold, now);
    let f = |r: RecordView| r.identity;
    let q = |identity: Set<Seq<char>>| !has_record(records, identity);
    let late = records.filter(p);
    let first = expiring(records, threshold, now);
    let second = missing(policy.maintained, records);
    lemma_first_occurrences(first + second);
    assert forall|identity: Set<Seq<char>>| #[trigger]
        (first + second).contains(identity) <==> needs_renewal(records, policy, now, identity) by {
        if (first + second).contains(identity) {
            let k = choose|k: int| 0 <= k < (first + second).len() && (first + second)[k] == identity;
            if k < first.len() {
                assert(first[k] == late[k].identity);
                records.lemma_filter_pred(p, k);
                assert(late.contains(late[k]));
                records.lemma_filter_contains_rev(p, late[k]);
                let i = choose|i: int| 0 <= i < records.len() && records[i] == late[k];
                assert(records[i].identity == identity && records[i].due_at(threshold, now));
            } else {
                let m = k - first.len();
                assert(second[m] == identity);
                policy.maintained.lemma_filter_pred(q, m);
                assert(second.contains(second[m]));
                policy.maintained.lemma_filter_contains_rev(q, second[m]);
            }
        }
        if has_due_record(records, threshold, now, identity) {
            let i = choose|i: int|
                0 <= i < records.len() && (#[trigger] records[i]).identity == identity
                    && records[i].due_at(threshold, now);
            assert(p(records[i]));
            records.lemma_filter_contains(p, i);
            let k = choose|k: int| 0 <= k < late.len() && late[k] == records[i];
            assert((first + second)[k] == identity);
        }
        if policy.maintained.contains(identity) && !has_record(records, identity) {
            let j = choose|j: int| 0 <= j < policy.maintained.len() && policy.maintained[j] == identity;
            assert(q(policy.maintained[j]));
            policy.maintained.lemma_filter_contains(q, j);
            let m = choose|m: int| 0 <= m < second.len() && second[m] == identity;
            assert((first + second)[first.len() + m] == identity);
        }
    }
}

/// The list of what is due depends on the records, the policy and the time
/// alone: where these are equal, so is the list.
pub proof fn lemma_due_deterministic(
    records: Seq<RecordView>,
    policy: PolicyView,
    now: Timestamp,
    other_records: Seq<RecordView>,
    other_policy: PolicyView,
    other_now: Timestamp,
)
    requires
        records =~= other_records,
        policy.threshold_secs == other_policy.threshold_secs,
        policy.maintained =~= other_policy.maintained,
        now == other_now,
    ensures
        due_identities(records, policy, now) == due_identities(other_records, other_policy, other_now),
{
    let a = |identity: Set<Seq<char>>| !has_record(records, identity);
    let b = |identity: Set<Seq<char>>| !has_record(other_records, identity);
    assert(a == b);
}

/// Where the threshold lies: a record with exactly `threshold` seconds left
/// is not due, one with a second less is.
pub proof fn lemma_due_boundary(record: RecordView, threshold: u64, now: Timestamp)
    ensures
        record.not_after - now == threshold ==> !record.due_at(threshold, now),
        record.not_after - now == threshold - 1 ==> record.due_at(threshold, now),
        record.not_after - now >= threshold ==> !record.due_at(threshold, now),
        record.not_after - now < threshold ==> record.due_at(threshold, now),
{
}

/// Whether `identity` is one of `sets`.
pub fn listed(sets: &Vec<IdentitySet>, identity: &IdentitySet) -> (r: bool)
    ensures
        r == identity_views(sets@).contains(identity@),
{
    let mut i: usize = 0;
    while i < sets.len()
        invariant
            i <= sets.len(),
            forall|k: int| 0 <= k < i ==> identity_views(sets@)[k] != identity@,
        decreases sets.len() - i,
    {
        if sets[i].same_as(identity) {
            assert(identity_views(sets@)[i as int] == identity@);
            return true;
        }
        i += 1;
    }
    false
}

/// Whether some record in `records` is about `identity`.
pub fn holds_record(records: &Vec<CertificateRecord>, identity: &IdentitySet) -> (r: bool)
    ensures
        r == has_record(record_views(records@), identity@),
{
    let mut i: usize = 0;
    while i < records.len()
        invariant
            i <= records.len(),
            forall|k: int| 0 <= k < i ==> (#[trigger] record_views(records@)[k]).identity != identity@,
        decreases records.len() - i,
    {
        if records[i].identity().same_as(identity) {
            assert(record_views(records@)[i as int].identity == identity@);
            return true;
        }
        i += 1;
    }
    false
}

/// The identity sets that need a certificate at `now`, each once: those of
/// the records with less than the policy's threshold left, in the order of
/// `records`, then those that the policy maintains and `records` lacks, in
/// the policy's order. Nothing is changed, and the same arguments give the
/// same answer.
pub fn due(records: &Vec<CertificateRecord>, policy: &RenewalPolicy, now: Timestamp) -> (r: Vec<
    IdentitySet,
>)
    ensures
        identity_views(r@) == due_identities(record_views(records@), policy@, now),
        r@.len() == due_identities(record_views(records@), policy@, now).len(),
{
    let threshold = policy.threshold_secs();
    let maintained = policy.maintained();
    let ghost rv = record_views(records@);
    let ghost mv = identity_views(maintained@);
    let mut out: Vec<IdentitySet> = Vec::new();
    let mut i: usize = 0;
    proof {
        assert(rv.take(0) =~= Seq::<RecordView>::empty());
        reveal(Seq::filter);
        assert(expiring(rv.take(0), threshold, now) =~= Seq::<Set<Seq<char>>>::empty());
        assert(identity_views(out@) =~= Seq::<Set<Seq<char>>>::empty());
    }
    while i < records.len()
        invariant
            i <= records.len(),
            rv == record_views(records@),
            identity_views(out@) == first_occurrences(expiring(rv.take(i as int), threshold, now)),
        decreases records.len() - i,
    {
        proof {
            lemma_expiring_step(rv, threshold, now, i as int);
            lemma_first_occurrences_push(
                expiring(rv.take(i as int), threshold, now),
                records[i as int]@.identity,
            );
        }
        if records[i].is_due_at(threshold, now) {
            if !listed(&out, records[i].identity()) {
                let ghost before = out@;
                out.push(records[i].identity().clone());
                assert(identity_views(out@) =~= identity_views(before).push(records[i as int]@.identity));
            }
        }
        i += 1;
    }
    let ghost first = expiring(rv, threshold, now);
    let mut j: usize = 0;
    proof {
        assert(rv.take(records.len() as int) =~= rv);
        assert(mv.take(0) =~= Seq::<Set<Seq<char>>>::empty());
        reveal(Seq::filter);
        assert(first + missing(mv.take(0), rv) =~= first);
    }
    while j < maintained.len()
        invariant
            j <= maintained.len(),
            rv == record_views(records@),
            mv == identity_views(maintained@),
            first == expiring(rv, threshold, now),
            identity_views(out@) == first_occurrences(first + missing(mv.take(j as int), rv)),
        decreases maintained.len() - j,
    {
        proof {
            lemma_missing_step(mv, rv, j as int);
            lemma_first_occurrences_push(first + missing(mv.take(j as int), rv), maintained[j as int]@);
            assert((first + missing(mv.take(j as int), rv)).push(maintained[j as int]@) =~= first
                + missing(mv.take(j as int), rv).push(maintained[j as int]@));
        }
        if !holds_record(records, &maintained[j]) {
            if !listed(&out, &maintained[j]) {
                let ghost before = out@;
                out.push(maintained[j].clone());
                assert(identity_views(out@) =~= identity_views(before).push(maintained[j as int]@));
            }
        }
        j += 1;
    }
    assert(mv.take(maintained.len() as int) =~= mv);
    assert(identity_views(out@).len() == out@.len());
    out
}

} // verus!
