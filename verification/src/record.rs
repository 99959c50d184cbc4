//! Certificate records: what the store keeps for one identity set.

use vstd::prelude::*;
use crate::identity::IdentitySet;
use crate::time::{Timestamp, below_threshold, remaining};

verus! {

/// What a certificate record holds, as plain mathematical values.
pub struct RecordView {
    pub identity: Set<Seq<char>>,
    pub certificate: Seq<u8>,
    pub private_key: Seq<u8>,
    pub not_before: Timestamp,
    pub not_after: Timestamp,
    pub path: Seq<char>,
}

impl RecordView {
    /// The record is inside its validity window at `now`, both ends included.
    pub open spec fn valid_at(self, now: Timestamp) -> bool {
        self.not_before <= now <= self.not_after
    }

    /// The validity left at `now` is less than `threshold` seconds. A record
    /// with exactly `threshold` seconds left is not yet due; one that has
    /// expired always is, unless the threshold is zero and it expires at
    /// `now` itself.
    pub open spec fn due_at(self, threshold: u64, now: Timestamp) -> bool {
        remaining(self.not_after, now) < threshold as int
    }
}

/// A certificate with its private key, the window in which it is valid, and
/// the place where the store keeps it. The identity set of a record never
/// changes: a renewal puts a new record in the place of the old one.
#[derive(Debug)]
pub struct CertificateRecord {
    identity: IdentitySet,
    certificate: Vec<u8>,
    private_key: Vec<u8>,
    not_before: Timestamp,
    not_after: Timestamp,
    path: String,
}

impl View for CertificateRecord {
    type V = RecordView;

    closed spec fn view(&self) -> RecordView {
        RecordView {
            identity: self.identity@,
            certificate: self.certificate@,
            private_key: self.private_key@,
            not_before: self.not_before,
            not_after: self.not_after,
            path: self.path@,
        }
    }
}

impl CertificateRecord {
    /// A record made of the given parts.
    pub fn new(
        identity: IdentitySet,
        certificate: Vec<u8>,
        private_key: Vec<u8>,
        not_before: Timestamp,
        not_after: Timestamp,
        path: String,
    ) -> (r: CertificateRecord)
        ensures
            r@ == (RecordView {
                identity: identity@,
                certificate: certificate@,
                private_key: private_key@,
                not_before,
                not_after,
                path: path@,
            }),
    {
        CertificateRecord { identity, certificate, private_key, not_before, not_after, path }
    }

    /// The identity set that the record is about.
    pub fn identity(&self) -> (r: &IdentitySet)
        ensures
            r@ == self@.identity,
    {
        &self.identity
    }

    /// The encoded certificate.
    pub fn certificate(&self) -> (r: &Vec<u8>)
        ensures
            r@ == self@.certificate,
    {
        &self.certificate
    }

    /// The encoded private key.
    pub fn private_key(&self) -> (r: &Vec<u8>)
        ensures
            r@ == self@.private_key,
    {
        &self.private_key
    }

    /// The first second at which the certificate is valid.
    pub fn not_before(&self) -> (r: Timestamp)
        ensures
            r == self@.not_before,
    {
        self.not_before
    }

    /// The last second at which the certificate is valid.
    pub fn not_after(&self) -> (r: Timestamp)
        ensures
            r == self@.not_after,
    {
        self.not_after
    }

    /// Where the store keeps the record.
    pub fn path(&self) -> (r: &String)
        ensures
            r@ == self@.path,
    {
        &self.path
    }

    /// Whether the record is inside its validity window at `now`.
    pub fn is_valid_at(&self, now: Timestamp) -> (r: bool)
        ensures
            r == self@.valid_at(now),
    {
        self.not_before <= now && now <= self.not_after
    }

    /// Whether the record has less than `threshold` seconds of validity left
    /// at `now`.
    pub fn is_due_at(&self, threshold: u64, now: Timestamp) -> (r: bool)
        ensures
            r == self@.due_at(threshold, now),
    {
        below_threshold(self.not_after, now, threshold)
    }
}

impl Clone for CertificateRecord {
    fn clone(&self) -> (r: CertificateRecord)
        ensures
            r@ == self@,
    {
        CertificateRecord {
            identity: self.identity.clone(),
            certificate: self.certificate.clone(),
            private_key: self.private_key.clone(),
            not_before: self.not_before,
            not_after: self.not_after,
            path: self.path.clone(),
        }
    }
}

/// The views of a sequence of records, place by place.
pub open spec fn record_views(records: Seq<CertificateRecord>) -> Seq<RecordView> {
    Seq::new(records.len(), |i: int| records[i]@)
}

} // verus!
