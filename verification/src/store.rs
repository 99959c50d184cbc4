//! The certificate store: one record per identity set.
//!
//! The files themselves are written elsewhere, to a temporary place first and
//! then moved over the old ones in one step. What became of that is handed
//! to [`CertificateStore::commit`] as a [`CommitReport`], and the store
//! follows: it takes the new record whole, or stays as it was.

use vstd::prelude::*;
use vstd::string::StringExecFns;
use crate::error::StoreError;
use crate::evaluator::has_record;
use crate::identity::IdentitySet;
use crate::record::{CertificateRecord, RecordView, record_views};

verus! {

/// What became of the attempt to put a record's files in place.
#[derive(Debug, Clone, Copy, PartialEq, Eq, Structural)]
pub enum CommitReport {
    /// The new files have taken the place of the old ones.
    Replaced,
    /// The certificate and the private key do not belong together; nothing
    /// was written.
    Mismatched,
    /// The filesystem refused a step; the old files are still in place.
    WriteFailed,
}

impl CommitReport {
    /// What is to be reported of a record whose certificate and key were
    /// held against each other and, where they belong together, whose files
    /// were then written: a mismatch where they do not, and otherwise
    /// whether the writing went through.
    pub open spec fn spec_of(pairing_valid: bool, written: bool) -> CommitReport {
        if !pairing_valid {
            CommitReport::Mismatched
        } else if written {
            CommitReport::Replaced
        } else {
            CommitReport::WriteFailed
        }
    }

    #[verifier::when_used_as_spec(spec_of)]
    pub fn of(pairing_valid: bool, written: bool) -> (r: CommitReport)
        ensures
            r == CommitReport::spec_of(pairing_valid, written),
    {
        if !pairing_valid {
            CommitReport::Mismatched
        } else if written {
            CommitReport::Replaced
        } else {
            CommitReport::WriteFailed
        }
    }
}

/// What is put after the path of a record to name the temporary place of
/// its new files.
pub open spec fn staging_suffix() -> Seq<char> {
    seq!['.', 't', 'm', 'p']
}

/// The temporary place for the new files of the record kept at `path`: the
/// path itself with `.tmp` after it. It lies in the directory of `path`, for
/// nothing that is added is a separator, and it is not `path`.
pub fn staging_path(path: &str) -> (r: String)
    ensures
        r@ == path@ + staging_suffix(),
        r@ != path@,
        forall|i: int| path@.len() <= i < r@.len() ==> r@[i] != '/' && r@[i] != '\\',
{
    let mut staged = path.to_owned();
    proof {
        reveal_strlit(".tmp");
        assert(".tmp"@ =~= staging_suffix());
    }
    staged.append(".tmp");
    proof {
        assert(staged@.len() == path@.len() + 4);
    }
    staged
}

/// No two records are about the same identity set.
pub open spec fn distinct_records(records: Seq<RecordView>) -> bool {
    forall|i: int, j: int|
        0 <= i < j < records.len() ==> (#[trigger] records[i]).identity != (#[trigger] records[j]).identity
}

/// The place of the record that is about `identity`, if there is one.
pub open spec fn record_index(records: Seq<RecordView>, identity: Set<Seq<char>>) -> Option<int> {
    if has_record(records, identity) {
        Some(choose|i: int| 0 <= i < records.len() && (#[trigger] records[i]).identity == identity)
    } else {
        None
    }
}

/// `records` with `record` in the place of the record about the same
/// identity set, or at the end where there was none.
pub open spec fn with_record(records: Seq<RecordView>, record: RecordView) -> Seq<RecordView> {
    match record_index(records, record.identity) {
        Some(i) => records.update(i, record),
        None => records.push(record),
    }
}

/// What a commit answers to a report.
pub open spec fn commit_result(report: CommitReport) -> Result<(), StoreError> {
    match report {
        CommitReport::Replaced => Ok(()),
        CommitReport::Mismatched => Err(StoreError::Invalid),
        CommitReport::WriteFailed => Err(StoreError::IO),
    }
}

/// Among distinct records, the record about an identity set is found at the
/// one place where it stands.
pub proof fn lemma_record_index_unique(records: Seq<RecordView>, i: int)
    requires
        distinct_records(records),
        0 <= i < records.len(),
    ensures
        record_index(records, records[i].identity) == Some(i),
{
    let found = choose|k: int|
        0 <= k < records.len() && (#[trigger] records[k]).identity == records[i].identity;
    if found < i {
        assert(records[found].identity != records[i].identity);
    } else if i < found {
        assert(records[i].identity != records[found].identity);
    }
}

/// Putting a record in place is all or nothing. Afterwards the store has
/// exactly the new record for its identity set, certificate and key
/// together; every record about another identity set is as it was, at the
/// place where it was; and still no two records are about the same identity
/// set.
pub proof fn lemma_with_record(records: Seq<RecordView>, record: RecordView)
    requires
        distinct_records(records),
    ensures
        distinct_records(with_record(records, record)),
        has_record(with_record(records, record), record.identity),
        forall|i: int|
            0 <= i < with_record(records, record).len() && (#[trigger] with_record(
                records,
                record,
            )[i]).identity == record.identity ==> with_record(records, record)[i] == record,
        forall|i: int|
            0 <= i < records.len() && (#[trigger] records[i]).identity != record.identity ==> with_record(
                records,
                record,
            )[i] == records[i],
        with_record(records, record).len() == if has_record(records, record.identity) {
            records.len()
        } else {
            records.len() + 1
        },
{
    let after = with_record(records, record);
    match record_index(records, record.identity) {
        Some(at) => {
            assert forall|i: int, j: int| 0 <= i < j < after.len() implies (#[trigger] after[i]).identity != (
            #[trigger] after[j]).identity by {
                assert(records[i].identity != records[j].identity);
            }
            assert(after[at].identity == record.identity);
            assert forall|i: int| 0 <= i < after.len() && (#[trigger] after[i]).identity
                == record.identity implies after[i] == record by {
                if i != at {
                    assert(records[i].identity == record.identity);
                    if i < at {
                        assert(records[i].identity != records[at].identity);
                    } else {
                        assert(records[at].identity != records[i].identity);
                    }
                }
            }
        },
        None => {
            assert forall|i: int, j: int| 0 <= i < j < after.len() implies (#[trigger] after[i]).identity != (
            #[trigger] after[j]).identity by {
                if j < records.len() {
                    assert(records[i].identity != records[j].identity);
                } else {
                    assert(after[i] == records[i]);
                }
            }
            assert(after[records.len() as int].identity == record.identity);
            assert forall|i: int| 0 <= i < after.len() && (#[trigger] after[i]).identity
                == record.identity implies after[i] == record by {
                if i < records.len() {
                    assert(records[i].identity == record.identity);
                }
            }
        },
    }
}

/// The place of the record that is about `identity`, if there is one.
fn find_record(records: &Vec<CertificateRecord>, identity: &IdentitySet) -> (r: Option<usize>)
    requires
        distinct_records(record_views(records@)),
    ensures
        r matches Some(i) ==> i < records.len(),
        record_index(record_views(records@), identity@) == match r {
            Some(i) => Some(i as int),
            None => None,
        },
{
    let mut i: usize = 0;
    while i < records.len()
        invariant
            i <= records.len(),
            distinct_records(record_views(records@)),
            forall|k: int| 0 <= k < i ==> (#[trigger] record_views(records@)[k]).identity != identity@,
        decreases records.len() - i,
    {
        if records[i].identity().same_as(identity) {
            proof {
                assert(record_views(records@)[i as int].identity == identity@);
                lemma_record_index_unique(record_views(records@), i as int);
            }
            return Some(i);
        }
        i += 1;
    }
    None
}

/// The records that are kept, one per identity set, in the order in which
/// their identity sets first came in.
#[derive(Debug)]
pub struct CertificateStore {
    records: Vec<CertificateRecord>,
}

impl View for CertificateStore {
    type V = Seq<RecordView>;

    closed spec fn view(&self) -> Seq<RecordView> {
        record_views(self.records@)
    }
}

impl CertificateStore {
    #[verifier::type_invariant]
    spec fn one_per_identity(self) -> bool {
        distinct_records(record_views(self.records@))
    }

    /// A store without records.
    pub fn new() -> (r: CertificateStore)
        ensures
            r@ == Seq::<RecordView>::empty(),
    {
        let records: Vec<CertificateRecord> = Vec::new();
        assert(record_views(records@) =~= Seq::<RecordView>::empty());
        CertificateStore { records }
    }

    /// The number of records.
    pub fn len(&self) -> (r: usize)
        ensures
            r == self@.len(),
    {
        self.records.len()
    }

    /// All records. No two of them are about the same identity set.
    pub fn list(&self) -> (r: Vec<CertificateRecord>)
        ensures
            record_views(r@) == self@,
            r@.len() == self@.len(),
            distinct_records(record_views(r@)),
    {
        proof {
            use_type_invariant(self);
        }
        let mut all: Vec<CertificateRecord> = Vec::new();
        let mut i: usize = 0;
        while i < self.records.len()
            invariant
                i <= self.records.len(),
                all.len() == i,
                forall|k: int|
                    0 <= k < i ==> (#[trigger] record_views(all@)[k]) == record_views(self.records@)[k],
            decreases self.records.len() - i,
        {
            let ghost before = record_views(all@);
            all.push(self.records[i].clone());
            proof {
                assert forall|k: int| 0 <= k < i + 1 implies (#[trigger] record_views(all@)[k])
                    == record_views(self.records@)[k] by {
                    if k < i {
                        assert(record_views(all@)[k] == before[k]);
                    }
                }
            }
            i += 1;
        }
        assert(record_views(all@) =~= record_views(self.records@));
        all
    }

    /// The record about `identity`, if the store has one.
    pub fn get(&self, identity: &IdentitySet) -> (r: Option<&CertificateRecord>)
        ensures
            match r {
                Some(record) => has_record(self@, identity@) && record@.identity == identity@
                    && self@.contains(record@),
                None => !has_record(self@, identity@),
            },
    {
        proof {
            use_type_invariant(self);
        }
        match find_record(&self.records, identity) {
            Some(i) => {
                assert(record_views(self.records@)[i as int] == self.records[i as int]@);
                Some(&self.records[i])
            },
            None => None,
        }
    }

    /// Follows the attempt to put the files of `record` in place. Where they
    /// were replaced, the store holds `record` in the place of the record
    /// about the same identity set, or as a further record where it had none.
    /// Where they were not, the store is as it was, and the answer says why:
    /// `Invalid` for a certificate and key that do not belong together, `IO`
    /// for a refusal of the filesystem.
    pub fn commit(&mut self, record: CertificateRecord, report: CommitReport) -> (r: Result<
        (),
        StoreError,
    >)
        ensures
            r == commit_result(report),
            final(self)@ == if report is Replaced {
                with_record(old(self)@, record@)
            } else {
                old(self)@
            },
    {
        proof {
            use_type_invariant(&*self);
        }
        match report {
            CommitReport::Replaced => {
                let mut records: Vec<CertificateRecord> = Vec::new();
                proof {
                    assert(record_views(records@) =~= Seq::<RecordView>::empty());
                }
                std::mem::swap(&mut records, &mut self.records);
                let ghost before = record_views(records@);
                proof {
                    lemma_with_record(before, record@);
                }
                match find_record(&records, record.identity()) {
                    Some(i) => {
                        records.set(i, record);
                        assert(record_views(records@) =~= before.update(i as int, record@));
                    },
                    None => {
                        records.push(record);
                        assert(record_views(records@) =~= before.push(record@));
                    },
                }
                self.records = records;
                Ok(())
            },
            CommitReport::Mismatched => Err(StoreError::Invalid),
            CommitReport::WriteFailed => Err(StoreError::IO),
        }
    }
}

} // verus!
