use credence::error::StoreError;
use credence::identity::IdentitySet;
use credence::record::CertificateRecord;
use credence::store::{staging_path, CertificateStore, CommitReport};

fn names(list: &[&str]) -> IdentitySet {
    IdentitySet::new(list.iter().map(|s| s.to_string()).collect())
}

fn record(list: &[&str], certificate: &[u8], key: &[u8], not_after: u64) -> CertificateRecord {
    CertificateRecord::new(
        names(list),
        certificate.to_vec(),
        key.to_vec(),
        100,
        not_after,
        format!("/var/lib/credence/{}.pem", list[0]),
    )
}

#[test]
fn new_store_is_empty() {
    let store = CertificateStore::new();
    assert_eq!(store.len(), 0);
    assert!(store.list().is_empty());
    assert!(store.get(&names(&["example.org"])).is_none());
}

#[test]
fn commit_adds_a_record_for_a_new_identity() {
    let mut store = CertificateStore::new();
    let answer = store.commit(record(&["example.org"], b"cert 1", b"key 1", 500), CommitReport::Replaced);
    assert_eq!(answer, Ok(()));
    assert_eq!(store.len(), 1);
    let kept = store.get(&names(&["example.org"])).unwrap();
    assert_eq!(kept.certificate(), &b"cert 1".to_vec());
    assert_eq!(kept.private_key(), &b"key 1".to_vec());
    assert_eq!(kept.not_before(), 100);
    assert_eq!(kept.not_after(), 500);
    assert_eq!(kept.path(), "/var/lib/credence/example.org.pem");
}

#[test]
fn commit_replaces_the_record_of_the_same_identity_whole() {
    let mut store = CertificateStore::new();
    store.commit(record(&["a.example", "b.example"], b"cert 1", b"key 1", 500), CommitReport::Replaced).unwrap();
    store.commit(record(&["c.example"], b"cert c", b"key c", 700), CommitReport::Replaced).unwrap();
    let answer =
        store.commit(record(&["b.example", "a.example"], b"cert 2", b"key 2", 900), CommitReport::Replaced);
    assert_eq!(answer, Ok(()));
    assert_eq!(store.len(), 2);
    let all = store.list();
    assert!(all[0].identity().same_as(&names(&["a.example", "b.example"])));
    assert_eq!(all[0].certificate(), &b"cert 2".to_vec());
    assert_eq!(all[0].private_key(), &b"key 2".to_vec());
    assert_eq!(all[0].not_after(), 900);
    assert!(all[1].identity().same_as(&names(&["c.example"])));
    assert_eq!(all[1].certificate(), &b"cert c".to_vec());
    assert_eq!(all[1].private_key(), &b"key c".to_vec());
    assert_eq!(all[1].not_after(), 700);
}

#[test]
fn commit_of_a_mismatched_pair_is_invalid_and_changes_nothing() {
    let mut store = CertificateStore::new();
    store.commit(record(&["example.org"], b"cert 1", b"key 1", 500), CommitReport::Replaced).unwrap();
    let answer = store.commit(record(&["example.org"], b"cert 2", b"key x", 900), CommitReport::Mismatched);
    assert_eq!(answer, Err(StoreError::Invalid));
    assert_eq!(store.len(), 1);
    let kept = store.get(&names(&["example.org"])).unwrap();
    assert_eq!(kept.certificate(), &b"cert 1".to_vec());
    assert_eq!(kept.private_key(), &b"key 1".to_vec());
    assert_eq!(kept.not_after(), 500);
}

#[test]
fn commit_that_could_not_be_written_is_an_io_failure_and_changes_nothing() {
    let mut store = CertificateStore::new();
    store.commit(record(&["example.org"], b"cert 1", b"key 1", 500), CommitReport::Replaced).unwrap();
    let answer = store.commit(record(&["example.org"], b"cert 2", b"key 2", 900), CommitReport::WriteFailed);
    assert_eq!(answer, Err(StoreError::IO));
    let answer = store.commit(record(&["other.example"], b"cert 3", b"key 3", 900), CommitReport::WriteFailed);
    assert_eq!(answer, Err(StoreError::IO));
    assert_eq!(store.len(), 1);
    let kept = store.get(&names(&["example.org"])).unwrap();
    assert_eq!(kept.certificate(), &b"cert 1".to_vec());
    assert_eq!(kept.private_key(), &b"key 1".to_vec());
    assert!(store.get(&names(&["other.example"])).is_none());
}

#[test]
fn record_validity_window_includes_both_ends() {
    let r = record(&["example.org"], b"c", b"k", 500);
    assert!(!r.is_valid_at(99));
    assert!(r.is_valid_at(100));
    assert!(r.is_valid_at(300));
    assert!(r.is_valid_at(500));
    assert!(!r.is_valid_at(501));
}

#[test]
fn record_due_is_strictly_below_the_threshold() {
    let r = record(&["example.org"], b"c", b"k", 500);
    assert!(!r.is_due_at(100, 400));
    assert!(r.is_due_at(101, 400));
    assert!(r.is_due_at(1, 500 + 1));
    assert!(!r.is_due_at(0, 500));
}

#[test]
fn record_clone_keeps_every_part() {
    let r = record(&["b.example", "a.example"], b"cert", b"key", 500);
    let c = r.clone();
    assert!(c.identity().same_as(r.identity()));
    assert_eq!(c.certificate(), r.certificate());
    assert_eq!(c.private_key(), r.private_key());
    assert_eq!(c.not_before(), r.not_before());
    assert_eq!(c.not_after(), r.not_after());
    assert_eq!(c.path(), r.path());
}

#[test]
fn staging_path_lies_beside_the_final_path() {
    assert_eq!(staging_path("/var/lib/credence/example.org.json"), "/var/lib/credence/example.org.json.tmp");
    assert_eq!(staging_path("relative"), "relative.tmp");
    assert_eq!(staging_path(""), ".tmp");
}

#[test]
fn commit_report_puts_the_mismatch_first() {
    assert_eq!(CommitReport::of(true, true), CommitReport::Replaced);
    assert_eq!(CommitReport::of(true, false), CommitReport::WriteFailed);
    assert_eq!(CommitReport::of(false, false), CommitReport::Mismatched);
    assert_eq!(CommitReport::of(false, true), CommitReport::Mismatched);
}
