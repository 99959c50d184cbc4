use credence::coordinator::Coordinator;
use credence::error::{JobFailure, RenewalError, ShutdownTimeout, StoreError};
use credence::event::{Action, Event};
use credence::identity::IdentitySet;
use credence::job::{Issued, JobStage, RenewalOutcome};
use credence::lifecycle::{Directive, LifecycleController};
use credence::model::{Mode, Phase};
use credence::policy::RenewalPolicy;
use credence::record::CertificateRecord;
use credence::store::{CertificateStore, CommitReport};

const DAY: u64 = 86_400;
const NOW: u64 = 20_000 * DAY;

fn names(list: &[&str]) -> IdentitySet {
    IdentitySet::new(list.iter().map(|s| s.to_string()).collect())
}

fn record(name: &str, certificate: &[u8], key: &[u8], not_after: u64) -> CertificateRecord {
    CertificateRecord::new(
        names(&[name]),
        certificate.to_vec(),
        key.to_vec(),
        NOW - 60 * DAY,
        not_after,
        format!("/var/lib/credence/{}", name),
    )
}

fn expiring(name: &str) -> CertificateRecord {
    record(name, b"old certificate", b"old key", NOW + 5 * DAY)
}

fn renewed(name: &str) -> CertificateRecord {
    CertificateRecord::new(
        names(&[name]),
        b"new certificate".to_vec(),
        b"new key".to_vec(),
        NOW,
        NOW + 90 * DAY,
        format!("/var/lib/credence/{}", name),
    )
}

fn coordinator(max_concurrent: usize, max_attempts: u32) -> Coordinator {
    let policy = RenewalPolicy::new(30 * DAY, max_concurrent, 10, max_attempts, Vec::new()).unwrap();
    Coordinator::new(policy, 10)
}

fn show(actions: &[Action]) -> Vec<String> {
    actions
        .iter()
        .map(|action| match action {
            Action::ListStore => "list".to_string(),
            Action::Request { identity } => format!("request {}", identity.names().join("+")),
            Action::Commit { record } => format!("commit {}", record.identity().names().join("+")),
            Action::Retry { identity, delay_secs } => {
                format!("retry {} in {}", identity.names().join("+"), delay_secs)
            }
            Action::ReportFailure { identity, failure, attempts } => {
                format!("failed {} {:?} after {}", identity.names().join("+"), failure, attempts)
            }
            Action::AwaitTick => "await tick".to_string(),
            Action::AwaitGrace { grace_secs } => format!("await grace {}", grace_secs),
            Action::Halt { abandoned, forced } => format!("halt {} {}", abandoned, forced),
        })
        .collect()
}

fn scanned(c: Coordinator, records: Vec<CertificateRecord>) -> (Coordinator, Vec<String>) {
    let (c, actions) = c.step(Event::Tick);
    assert_eq!(show(&actions), vec!["list"]);
    assert_eq!(c.phase(), Phase::Scanning);
    let (c, actions) = c.step(Event::Listed { records, now: NOW });
    (c, show(&actions))
}

fn answer(c: Coordinator, name: &str, outcome: RenewalOutcome) -> (Coordinator, Vec<String>) {
    let (c, actions) = c.step(Event::Renewed { identity: names(&[name]), outcome });
    (c, show(&actions))
}

fn network(c: Coordinator, name: &str) -> (Coordinator, Vec<String>) {
    answer(c, name, RenewalOutcome::Failure(RenewalError::Network))
}

fn success(c: Coordinator, name: &str) -> (Coordinator, Vec<String>) {
    answer(c, name, RenewalOutcome::Success(renewed(name)))
}

fn committed(c: Coordinator, name: &str, result: Result<(), StoreError>) -> (Coordinator, Vec<String>) {
    let (c, actions) = c.step(Event::Committed { identity: names(&[name]), result });
    (c, show(&actions))
}

fn retry_ready(c: Coordinator, name: &str) -> (Coordinator, Vec<String>) {
    let (c, actions) = c.step(Event::RetryReady { identity: names(&[name]) });
    (c, show(&actions))
}

fn cancel(c: Coordinator) -> (Coordinator, Vec<String>) {
    let (c, actions) = c.step(Event::CancelRequested);
    (c, show(&actions))
}

fn stages(c: &Coordinator) -> Vec<(String, JobStage, u32)> {
    c.jobs().iter().map(|job| (job.identity().names().join("+"), job.stage(), job.attempts())).collect()
}

#[test]
fn new_coordinator_is_idle() {
    let c = coordinator(2, 3);
    assert_eq!(c.mode(), Mode::Idle);
    assert_eq!(c.phase(), Phase::Idle);
    assert!(c.jobs().is_empty());
    assert_eq!(c.in_flight(), 0);
    assert_eq!(c.abandoned(), 0);
    assert!(!c.forced());
    assert_eq!(c.grace_secs(), 10);
    assert_eq!(c.policy().max_concurrent(), 2);
}

#[test]
fn renewal_of_a_record_that_expires_in_five_days() {
    let mut store = CertificateStore::new();
    store.commit(expiring("example.org"), CommitReport::Replaced).unwrap();

    let c = coordinator(2, 3);
    let (c, actions) = c.step(Event::Tick);
    assert_eq!(show(&actions), vec!["list"]);
    let (c, actions) = c.step(Event::Listed { records: store.list(), now: NOW });
    assert_eq!(show(&actions), vec!["request example.org"]);
    assert_eq!(c.phase(), Phase::Renewing { in_flight: 1 });
    assert_eq!(stages(&c), vec![("example.org".to_string(), JobStage::Renewing, 1)]);

    let (c, mut actions) = c.step(Event::Renewed {
        identity: names(&["example.org"]),
        outcome: RenewalOutcome::Success(renewed("example.org")),
    });
    assert_eq!(show(&actions), vec!["commit example.org"]);
    assert_eq!(c.phase(), Phase::Committing);
    let to_commit = match actions.pop() {
        Some(Action::Commit { record }) => record,
        other => panic!("unexpected: {:?}", other),
    };
    let result = store.commit(to_commit, CommitReport::Replaced);
    assert_eq!(result, Ok(()));

    let (c, actions) = committed(c, "example.org", result);
    assert_eq!(actions, vec!["await tick"]);
    assert_eq!(c.phase(), Phase::Idle);
    assert!(c.jobs().is_empty());

    assert_eq!(store.len(), 1);
    let kept = store.get(&names(&["example.org"])).unwrap();
    assert_eq!(kept.not_after(), NOW + 90 * DAY);
    assert_eq!(kept.not_before(), NOW);
    assert_eq!(kept.certificate(), &b"new certificate".to_vec());
    assert_eq!(kept.private_key(), &b"new key".to_vec());

    let (c, actions) = scanned(c, store.list());
    assert_eq!(actions, vec!["await tick"]);
    assert_eq!(c.phase(), Phase::Idle);
}

#[test]
fn three_network_failures_with_three_attempts_fail_the_job() {
    let mut store = CertificateStore::new();
    store.commit(expiring("example.org"), CommitReport::Replaced).unwrap();

    let c = coordinator(2, 3);
    let (c, actions) = scanned(c, store.list());
    assert_eq!(actions, vec!["request example.org"]);

    let (c, actions) = network(c, "example.org");
    assert_eq!(actions, vec!["retry example.org in 10"]);
    assert_eq!(stages(&c), vec![("example.org".to_string(), JobStage::Backoff, 1)]);
    assert_eq!(c.jobs()[0].last_failure(), Some(JobFailure::Renewal(RenewalError::Network)));
    assert_eq!(c.phase(), Phase::Renewing { in_flight: 0 });
    let (c, actions) = retry_ready(c, "example.org");
    assert_eq!(actions, vec!["request example.org"]);
    assert_eq!(stages(&c), vec![("example.org".to_string(), JobStage::Renewing, 2)]);

    let (c, actions) = network(c, "example.org");
    assert_eq!(actions, vec!["retry example.org in 20"]);
    let (c, actions) = retry_ready(c, "example.org");
    assert_eq!(actions, vec!["request example.org"]);
    assert_eq!(stages(&c), vec![("example.org".to_string(), JobStage::Renewing, 3)]);

    let (c, actions) = network(c, "example.org");
    assert_eq!(actions, vec!["failed example.org Renewal(Network) after 3", "await tick"]);
    assert_eq!(c.phase(), Phase::Idle);
    assert!(c.jobs().is_empty());

    let (c, actions) = retry_ready(c, "example.org");
    assert!(actions.is_empty());
    assert_eq!(c.phase(), Phase::Idle);

    assert_eq!(store.len(), 1);
    let kept = store.get(&names(&["example.org"])).unwrap();
    assert_eq!(kept.not_after(), NOW + 5 * DAY);
    assert_eq!(kept.certificate(), &b"old certificate".to_vec());
    assert_eq!(kept.private_key(), &b"old key".to_vec());
}

#[test]
fn signal_during_two_renewals_that_finish_within_grace() {
    let mut store = CertificateStore::new();
    store.commit(expiring("a.example"), CommitReport::Replaced).unwrap();
    store.commit(expiring("b.example"), CommitReport::Replaced).unwrap();
    let mut controller = LifecycleController::new();

    let c = coordinator(2, 3);
    let (c, actions) = scanned(c, store.list());
    assert_eq!(actions, vec!["request a.example", "request b.example"]);
    assert_eq!(c.phase(), Phase::Renewing { in_flight: 2 });

    assert_eq!(controller.signal(), Some(Directive::Cancel));
    let (c, actions) = cancel(c);
    assert_eq!(actions, vec!["await grace 10"]);
    assert_eq!(c.phase(), Phase::Cancelling);
    assert_eq!(c.jobs().len(), 2);

    let mut c = c;
    for name in ["b.example", "a.example"] {
        let (next, mut actions) = c.step(Event::Renewed {
            identity: names(&[name]),
            outcome: RenewalOutcome::Success(renewed(name)),
        });
        assert_eq!(show(&actions), vec![format!("commit {}", name)]);
        let to_commit = match actions.pop() {
            Some(Action::Commit { record }) => record,
            other => panic!("unexpected: {:?}", other),
        };
        assert_eq!(store.commit(to_commit, CommitReport::Replaced), Ok(()));
        c = next;
    }
    let (c, actions) = committed(c, "b.example", Ok(()));
    assert!(actions.is_empty());
    assert_eq!(c.phase(), Phase::Cancelling);
    let (c, mut actions) = c.step(Event::Committed { identity: names(&["a.example"]), result: Ok(()) });
    assert_eq!(show(&actions), vec!["halt 0 false"]);
    assert_eq!(c.phase(), Phase::Stopped);
    assert!(!c.forced());
    assert_eq!(c.abandoned(), 0);

    let forced = match actions.pop() {
        Some(Action::Halt { forced, .. }) => forced,
        other => panic!("unexpected: {:?}", other),
    };
    assert_eq!(controller.halted(forced), Some(Directive::Exit { code: 0 }));

    for name in ["a.example", "b.example"] {
        let kept = store.get(&names(&[name])).unwrap();
        assert_eq!(kept.not_after(), NOW + 90 * DAY);
        assert_eq!(kept.certificate(), &b"new certificate".to_vec());
        assert_eq!(kept.private_key(), &b"new key".to_vec());
    }

    let (c, actions) = c.step(Event::GraceExpired);
    assert!(actions.is_empty());
    assert!(!c.forced());
}

#[test]
fn grace_period_exceeded_forces_the_stop() {
    let mut controller = LifecycleController::new();
    let c = coordinator(2, 3);
    let (c, actions) =
        scanned(c, vec![expiring("a.example"), expiring("b.example"), expiring("c.example")]);
    assert_eq!(actions, vec!["request a.example", "request b.example"]);
    assert_eq!(
        stages(&c),
        vec![
            ("a.example".to_string(), JobStage::Renewing, 1),
            ("b.example".to_string(), JobStage::Renewing, 1),
            ("c.example".to_string(), JobStage::Queued, 0),
        ]
    );

    controller.signal();
    let (c, actions) = cancel(c);
    assert_eq!(actions, vec!["await grace 10"]);
    assert_eq!(c.abandoned(), 1);
    assert_eq!(c.jobs().len(), 2);

    let (c, actions) = success(c, "a.example");
    assert_eq!(actions, vec!["commit a.example"]);
    let (c, actions) = committed(c, "a.example", Ok(()));
    assert!(actions.is_empty());

    let (c, actions) = c.step(Event::GraceExpired);
    assert_eq!(show(&actions), vec!["halt 2 true"]);
    assert_eq!(c.phase(), Phase::Stopped);
    assert!(c.forced());
    assert_eq!(c.abandoned(), 2);
    assert!(c.jobs().is_empty());
    assert_eq!(controller.halted(c.forced()), Some(Directive::Exit { code: 3 }));

    let (c, actions) = success(c, "b.example");
    assert!(actions.is_empty());
    assert_eq!(c.phase(), Phase::Stopped);
}

#[test]
fn no_more_renewals_in_flight_than_the_policy_allows() {
    let c = coordinator(2, 3);
    let (c, actions) = scanned(
        c,
        vec![expiring("a.example"), expiring("b.example"), expiring("c.example"), expiring("d.example")],
    );
    assert_eq!(actions, vec!["request a.example", "request b.example"]);
    assert_eq!(c.in_flight(), 2);

    let (c, actions) = success(c, "b.example");
    assert_eq!(actions, vec!["commit b.example"]);
    assert_eq!(c.in_flight(), 2);
    assert_eq!(c.phase(), Phase::Renewing { in_flight: 2 });

    let (c, actions) = committed(c, "b.example", Ok(()));
    assert_eq!(actions, vec!["request c.example"]);
    assert_eq!(c.in_flight(), 2);

    let (c, actions) = answer(c, "a.example", RenewalOutcome::Failure(RenewalError::Rejected));
    assert_eq!(actions, vec!["failed a.example Renewal(Rejected) after 1", "request d.example"]);
    assert_eq!(
        stages(&c),
        vec![
            ("c.example".to_string(), JobStage::Renewing, 1),
            ("d.example".to_string(), JobStage::Renewing, 1),
        ]
    );
}

#[test]
fn a_job_in_backoff_frees_its_slot_and_queues_again() {
    let c = coordinator(1, 3);
    let (c, actions) = scanned(c, vec![expiring("a.example"), expiring("b.example")]);
    assert_eq!(actions, vec!["request a.example"]);

    let (c, actions) = network(c, "a.example");
    assert_eq!(actions, vec!["retry a.example in 10", "request b.example"]);
    assert_eq!(
        stages(&c),
        vec![
            ("a.example".to_string(), JobStage::Backoff, 1),
            ("b.example".to_string(), JobStage::Renewing, 1),
        ]
    );

    let (c, actions) = retry_ready(c, "a.example");
    assert!(actions.is_empty());
    assert_eq!(stages(&c)[0], ("a.example".to_string(), JobStage::Queued, 1));
    assert_eq!(c.in_flight(), 1);

    let (c, actions) = success(c, "b.example");
    assert_eq!(actions, vec!["commit b.example"]);
    let (c, actions) = committed(c, "b.example", Ok(()));
    assert_eq!(actions, vec!["request a.example"]);
    assert_eq!(stages(&c), vec![("a.example".to_string(), JobStage::Renewing, 2)]);
}

#[test]
fn rejected_and_protocol_failures_are_not_retried() {
    let c = coordinator(2, 5);
    let (c, _) = scanned(c, vec![expiring("a.example"), expiring("b.example")]);
    let (c, actions) = answer(c, "a.example", RenewalOutcome::Failure(RenewalError::Rejected));
    assert_eq!(actions, vec!["failed a.example Renewal(Rejected) after 1"]);
    let (c, actions) = answer(c, "b.example", RenewalOutcome::Failure(RenewalError::Protocol));
    assert_eq!(actions, vec!["failed b.example Renewal(Protocol) after 1", "await tick"]);
    assert_eq!(c.phase(), Phase::Idle);
}

#[test]
fn single_attempt_policy_fails_on_the_first_network_error() {
    let c = coordinator(2, 1);
    let (c, _) = scanned(c, vec![expiring("a.example")]);
    let (c, actions) = network(c, "a.example");
    assert_eq!(actions, vec!["failed a.example Renewal(Network) after 1", "await tick"]);
    assert!(c.jobs().is_empty());
}

#[test]
fn a_request_that_timed_out_counts_as_a_network_failure() {
    let c = coordinator(2, 2);
    let (c, _) = scanned(c, vec![expiring("a.example")]);
    let (c, actions) = answer(c, "a.example", RenewalOutcome::timed_out());
    assert_eq!(actions, vec!["retry a.example in 10"]);
    let (c, _) = retry_ready(c, "a.example");
    let (_, actions) = answer(c, "a.example", RenewalOutcome::timed_out());
    assert_eq!(actions, vec!["failed a.example Renewal(Network) after 2", "await tick"]);
}

#[test]
fn a_certificate_for_another_identity_is_a_protocol_failure() {
    let c = coordinator(2, 3);
    let (c, _) = scanned(c, vec![expiring("a.example"), expiring("b.example")]);
    let (c, actions) = answer(c, "a.example", RenewalOutcome::Success(renewed("b.example")));
    assert_eq!(actions, vec!["failed a.example Renewal(Protocol) after 1"]);
    assert_eq!(stages(&c), vec![("b.example".to_string(), JobStage::Renewing, 1)]);
}

#[test]
fn a_store_failure_fails_that_job_and_no_other() {
    let c = coordinator(2, 3);
    let (c, _) = scanned(c, vec![expiring("a.example"), expiring("b.example")]);
    let (c, _) = success(c, "a.example");
    let (c, _) = success(c, "b.example");
    assert_eq!(c.phase(), Phase::Committing);
    let (c, actions) = committed(c, "a.example", Err(StoreError::IO));
    assert_eq!(actions, vec!["failed a.example Store(IO) after 1"]);
    assert_eq!(stages(&c), vec![("b.example".to_string(), JobStage::Committing, 1)]);
    let (c, actions) = committed(c, "b.example", Err(StoreError::Invalid));
    assert_eq!(actions, vec!["failed b.example Store(Invalid) after 1", "await tick"]);
    assert_eq!(c.phase(), Phase::Idle);
}

#[test]
fn a_tick_is_passed_over_unless_idle() {
    let c = coordinator(2, 3);
    let (c, _) = c.step(Event::Tick);
    let (c, actions) = c.step(Event::Tick);
    assert!(actions.is_empty());
    assert_eq!(c.phase(), Phase::Scanning);
    let (c, _) = c.step(Event::Listed { records: vec![expiring("a.example")], now: NOW });
    let (c, actions) = c.step(Event::Tick);
    assert!(actions.is_empty());
    assert_eq!(c.phase(), Phase::Renewing { in_flight: 1 });
    let (c, actions) = c.step(Event::Listed { records: vec![expiring("b.example")], now: NOW });
    assert!(actions.is_empty());
    assert_eq!(stages(&c), vec![("a.example".to_string(), JobStage::Renewing, 1)]);
}

#[test]
fn events_that_fit_no_job_change_nothing() {
    let c = coordinator(2, 3);
    let (c, _) = scanned(c, vec![expiring("a.example")]);
    let (c, actions) = success(c, "unknown.example");
    assert!(actions.is_empty());
    let (c, actions) = committed(c, "a.example", Ok(()));
    assert!(actions.is_empty());
    let (c, actions) = retry_ready(c, "a.example");
    assert!(actions.is_empty());
    assert_eq!(stages(&c), vec![("a.example".to_string(), JobStage::Renewing, 1)]);
    let (c, _) = success(c, "a.example");
    let (c, actions) = success(c, "a.example");
    assert!(actions.is_empty());
    assert_eq!(stages(&c), vec![("a.example".to_string(), JobStage::Committing, 1)]);
}

#[test]
fn a_scan_that_finds_nothing_due_goes_back_to_idle() {
    let c = coordinator(2, 3);
    let (c, actions) = scanned(c, vec![record("a.example", b"c", b"k", NOW + 31 * DAY)]);
    assert_eq!(actions, vec!["await tick"]);
    assert_eq!(c.phase(), Phase::Idle);
}

#[test]
fn a_maintained_identity_without_record_gets_its_first_certificate() {
    let policy = RenewalPolicy::new(30 * DAY, 2, 10, 3, vec![names(&["new.example", "www.new.example"])])
        .unwrap();
    let c = Coordinator::new(policy, 10);
    let (c, actions) = scanned(c, Vec::new());
    assert_eq!(actions, vec!["request new.example+www.new.example"]);
    let (_, actions) = c.step(Event::Renewed {
        identity: names(&["www.new.example", "new.example"]),
        outcome: RenewalOutcome::Failure(RenewalError::Rejected),
    });
    assert_eq!(
        show(&actions),
        vec!["failed www.new.example+new.example Renewal(Rejected) after 1", "await tick"]
    );
}

#[test]
fn cancellation_while_idle_stops_at_once() {
    let (c, actions) = cancel(coordinator(2, 3));
    assert_eq!(actions, vec!["halt 0 false"]);
    assert_eq!(c.phase(), Phase::Stopped);
    assert!(!c.forced());
}

#[test]
fn cancellation_while_scanning_stops_at_once_and_the_listing_is_passed_over() {
    let (c, _) = coordinator(2, 3).step(Event::Tick);
    let (c, actions) = cancel(c);
    assert_eq!(actions, vec!["halt 0 false"]);
    let (c, actions) = c.step(Event::Listed { records: vec![expiring("a.example")], now: NOW });
    assert!(actions.is_empty());
    assert_eq!(c.phase(), Phase::Stopped);
    assert!(c.jobs().is_empty());
}

#[test]
fn a_second_cancellation_changes_nothing() {
    let c = coordinator(1, 3);
    let (c, _) = scanned(c, vec![expiring("a.example"), expiring("b.example")]);
    let (c, actions) = cancel(c);
    assert_eq!(actions, vec!["await grace 10"]);
    assert_eq!(c.abandoned(), 1);
    let (c, actions) = cancel(c);
    assert!(actions.is_empty());
    assert_eq!(c.phase(), Phase::Cancelling);
    assert_eq!(c.abandoned(), 1);
    assert_eq!(stages(&c), vec![("a.example".to_string(), JobStage::Renewing, 1)]);
    let (c, actions) = c.step(Event::GraceExpired);
    assert_eq!(show(&actions), vec!["halt 2 true"]);
    let (c, actions) = cancel(c);
    assert!(actions.is_empty());
    assert_eq!(c.phase(), Phase::Stopped);
    assert!(c.forced());
}

#[test]
fn cancellation_gives_up_jobs_that_wait_for_a_retry() {
    let c = coordinator(2, 3);
    let (c, _) = scanned(c, vec![expiring("a.example")]);
    let (c, _) = network(c, "a.example");
    let (c, actions) = cancel(c);
    assert_eq!(actions, vec!["halt 1 false"]);
    assert_eq!(c.phase(), Phase::Stopped);
    let (_, actions) = retry_ready(c, "a.example");
    assert!(actions.is_empty());
}

#[test]
fn a_network_failure_during_cancellation_is_not_retried() {
    let c = coordinator(2, 3);
    let (c, _) = scanned(c, vec![expiring("a.example")]);
    let (c, _) = cancel(c);
    let (c, actions) = network(c, "a.example");
    assert_eq!(actions, vec!["failed a.example Renewal(Network) after 1", "halt 0 false"]);
    assert_eq!(c.phase(), Phase::Stopped);
    assert!(!c.forced());
}

#[test]
fn grace_expiry_without_cancellation_changes_nothing() {
    let c = coordinator(2, 3);
    let (c, _) = scanned(c, vec![expiring("a.example")]);
    let (c, actions) = c.step(Event::GraceExpired);
    assert!(actions.is_empty());
    assert_eq!(c.phase(), Phase::Renewing { in_flight: 1 });
    assert!(!c.forced());
}

#[test]
fn records_of_one_identity_give_one_job() {
    let c = coordinator(4, 3);
    let (c, actions) = scanned(
        c,
        vec![expiring("a.example"), expiring("b.example"), expiring("a.example")],
    );
    assert_eq!(actions, vec!["request a.example", "request b.example"]);
    assert_eq!(c.jobs().len(), 2);
}

#[test]
fn shutdown_is_known_once_stopped() {
    let c = coordinator(1, 3);
    assert_eq!(c.shutdown(), None);
    let (c, _) = scanned(c, vec![expiring("a.example"), expiring("b.example")]);
    assert_eq!(c.shutdown(), None);
    let (c, _) = cancel(c);
    assert_eq!(c.shutdown(), None);
    let (c, _) = c.step(Event::GraceExpired);
    assert_eq!(c.shutdown(), Some(Err(ShutdownTimeout { abandoned: 2 })));

    let (c, _) = cancel(coordinator(1, 3));
    assert_eq!(c.shutdown(), Some(Ok(())));
}

#[test]
fn retry_waits_follow_the_policy_and_never_shrink() {
    let c = coordinator(1, 6);
    let (mut c, _) = scanned(c, vec![expiring("a.example")]);
    let mut waits = Vec::new();
    for _ in 0..5 {
        let (next, actions) = c.step(Event::Renewed {
            identity: names(&["a.example"]),
            outcome: RenewalOutcome::Failure(RenewalError::Network),
        });
        match &actions[..] {
            [Action::Retry { delay_secs, .. }] => waits.push(*delay_secs),
            other => panic!("unexpected: {:?}", other),
        }
        let (next, actions) = retry_ready(next, "a.example");
        assert_eq!(actions, vec!["request a.example"]);
        c = next;
    }
    assert_eq!(waits, vec![10, 20, 40, 80, 160]);
    let (c, actions) = network(c, "a.example");
    assert_eq!(actions, vec!["failed a.example Renewal(Network) after 6", "await tick"]);
    assert!(c.jobs().is_empty());
}

#[test]
fn an_answer_becomes_the_outcome_of_the_request() {
    let issued = Issued {
        certificate: b"new certificate".to_vec(),
        private_key: b"new key".to_vec(),
        not_before: NOW,
        not_after: NOW + 90 * DAY,
    };
    match RenewalOutcome::conclude(names(&["a.example"]), "/store/a".to_string(), Some(Ok(issued))) {
        RenewalOutcome::Success(record) => {
            assert!(record.identity().same_as(&names(&["a.example"])));
            assert_eq!(record.certificate(), &b"new certificate".to_vec());
            assert_eq!(record.private_key(), &b"new key".to_vec());
            assert_eq!(record.not_before(), NOW);
            assert_eq!(record.not_after(), NOW + 90 * DAY);
            assert_eq!(record.path(), "/store/a");
        }
        other => panic!("unexpected: {:?}", other),
    }
    assert!(matches!(
        RenewalOutcome::conclude(names(&["a.example"]), String::new(), None),
        RenewalOutcome::Failure(RenewalError::Network)
    ));
    for error in [RenewalError::Network, RenewalError::Rejected, RenewalError::Protocol] {
        match RenewalOutcome::conclude(names(&["a.example"]), String::new(), Some(Err(error))) {
            RenewalOutcome::Failure(kept) => assert_eq!(kept, error),
            other => panic!("unexpected: {:?}", other),
        }
    }
}

#[test]
fn random_event_sequences_keep_the_limits() {
    let hosts = ["a.example", "b.example", "c.example", "d.example", "e.example"];
    let mut seed: u64 = 0x2545_f491_4f6c_dd1d;
    let mut draw = move |bound: u64| {
        seed = seed.wrapping_mul(6_364_136_223_846_793_005).wrapping_add(1_442_695_040_888_963_407);
        (seed >> 33) % bound
    };
    for round in 0..200 {
        let max_concurrent = 1 + (round % 3) as usize;
        let max_attempts = 1 + (round % 4) as u32;
        let mut c = coordinator(max_concurrent, max_attempts);
        let mut requested: Vec<String> = Vec::new();
        let mut resolved: Vec<String> = Vec::new();
        for _ in 0..60 {
            let host = hosts[draw(hosts.len() as u64) as usize];
            let event = match draw(9) {
                0 => Event::Tick,
                1 => Event::Listed {
                    records: hosts.iter().filter(|_| draw(2) == 0).map(|h| expiring(h)).collect(),
                    now: NOW,
                },
                2 => Event::Renewed {
                    identity: names(&[host]),
                    outcome: RenewalOutcome::Success(renewed(host)),
                },
                3 => Event::Renewed {
                    identity: names(&[host]),
                    outcome: RenewalOutcome::Failure(RenewalError::Network),
                },
                4 => Event::Renewed {
                    identity: names(&[host]),
                    outcome: RenewalOutcome::Failure(RenewalError::Rejected),
                },
                5 => Event::RetryReady { identity: names(&[host]) },
                6 => Event::Committed { identity: names(&[host]), result: Ok(()) },
                7 => Event::Committed { identity: names(&[host]), result: Err(StoreError::IO) },
                _ => {
                    if draw(10) == 0 {
                        Event::CancelRequested
                    } else if draw(10) == 0 {
                        Event::GraceExpired
                    } else {
                        Event::Tick
                    }
                }
            };
            let in_flight_before: Vec<String> = c
                .jobs()
                .iter()
                .filter(|job| job.stage().in_flight())
                .map(|job| job.identity().names().join("+"))
                .collect();
            let (next, actions) = c.step(event);
            c = next;
            for action in &actions {
                if let Action::Request { identity } = action {
                    let name = identity.names().join("+");
                    assert!(!in_flight_before.contains(&name));
                    requested.push(name);
                }
                if let Action::ReportFailure { identity, attempts, .. } = action {
                    assert!(*attempts >= 1 && *attempts <= max_attempts);
                    resolved.push(identity.names().join("+"));
                }
            }
            let jobs = stages(&c);
            for (i, (name, stage, attempts)) in jobs.iter().enumerate() {
                assert!(*attempts <= max_attempts);
                assert!(jobs.iter().skip(i + 1).all(|(other, _, _)| other != name));
                if stage.in_flight() {
                    assert!(*attempts >= 1);
                }
            }
            assert!(c.in_flight() <= max_concurrent);
            assert_eq!(c.in_flight(), jobs.iter().filter(|(_, stage, _)| stage.in_flight()).count());
            match c.phase() {
                Phase::Idle | Phase::Scanning | Phase::Stopped => assert!(jobs.is_empty()),
                Phase::Renewing { in_flight } => assert_eq!(in_flight, c.in_flight()),
                Phase::Committing => assert!(jobs.iter().all(|(_, stage, _)| *stage == JobStage::Committing)),
                Phase::Cancelling => assert!(jobs.iter().all(|(_, stage, _)| stage.in_flight())),
            }
            if c.forced() {
                assert_eq!(c.phase(), Phase::Stopped);
            }
        }
        assert!(resolved.iter().all(|name| requested.contains(name)));
    }
}
