use credence::evaluator::{due, holds_record, listed};
use credence::identity::IdentitySet;
use credence::policy::RenewalPolicy;
use credence::record::CertificateRecord;
use credence::time::below_threshold;

const DAY: u64 = 86_400;

fn names(list: &[&str]) -> IdentitySet {
    IdentitySet::new(list.iter().map(|s| s.to_string()).collect())
}

fn record(list: &[&str], not_before: u64, not_after: u64) -> CertificateRecord {
    CertificateRecord::new(
        names(list),
        b"certificate".to_vec(),
        b"private key".to_vec(),
        not_before,
        not_after,
        format!("/var/lib/credence/{}", list[0]),
    )
}

fn policy(threshold_secs: u64, maintained: Vec<IdentitySet>) -> RenewalPolicy {
    RenewalPolicy::new(threshold_secs, 2, 10, 3, maintained).unwrap()
}

fn shown(sets: &[IdentitySet]) -> Vec<Vec<String>> {
    sets.iter().map(|s| s.names()).collect()
}

#[test]
fn record_expiring_in_five_days_is_due_under_thirty_day_threshold() {
    let now = 1_000 * DAY;
    let records = vec![record(&["example.org", "www.example.org"], now - 85 * DAY, now + 5 * DAY)];
    let due_sets = due(&records, &policy(30 * DAY, vec![]), now);
    assert_eq!(due_sets.len(), 1);
    assert!(due_sets[0].same_as(&names(&["www.example.org", "example.org"])));
}

#[test]
fn record_with_exactly_the_threshold_left_is_not_due() {
    let now = 1_000 * DAY;
    let records = vec![record(&["example.org"], now - DAY, now + 30 * DAY)];
    assert!(due(&records, &policy(30 * DAY, vec![]), now).is_empty());
}

#[test]
fn record_one_second_inside_the_threshold_is_due() {
    let now = 1_000 * DAY;
    let records = vec![record(&["example.org"], now - DAY, now + 30 * DAY - 1)];
    assert_eq!(due(&records, &policy(30 * DAY, vec![]), now).len(), 1);
}

#[test]
fn record_one_second_outside_the_threshold_is_not_due() {
    let now = 1_000 * DAY;
    let records = vec![record(&["example.org"], now - DAY, now + 30 * DAY + 1)];
    assert!(due(&records, &policy(30 * DAY, vec![]), now).is_empty());
}

#[test]
fn expired_record_is_due() {
    let now = 1_000 * DAY;
    let records = vec![record(&["example.org"], now - 90 * DAY, now - 1)];
    assert_eq!(due(&records, &policy(1, vec![]), now).len(), 1);
}

#[test]
fn zero_threshold_renews_only_after_expiry() {
    let now = 1_000 * DAY;
    let at_expiry = vec![record(&["example.org"], 0, now)];
    let past_expiry = vec![record(&["example.org"], 0, now - 1)];
    assert!(due(&at_expiry, &policy(0, vec![]), now).is_empty());
    assert_eq!(due(&past_expiry, &policy(0, vec![]), now).len(), 1);
}

#[test]
fn below_threshold_is_strict() {
    assert!(!below_threshold(130, 100, 30));
    assert!(below_threshold(129, 100, 30));
    assert!(below_threshold(99, 100, 30));
    assert!(!below_threshold(100, 100, 0));
    assert!(below_threshold(99, 100, 0));
    assert!(!below_threshold(u64::MAX, 0, u64::MAX));
    assert!(below_threshold(u64::MAX - 1, 0, u64::MAX));
    assert!(below_threshold(0, u64::MAX, 1));
}

#[test]
fn maintained_identity_without_record_is_due() {
    let now = 1_000 * DAY;
    let records = vec![record(&["example.org"], now - DAY, now + 60 * DAY)];
    let wanted = vec![names(&["example.org"]), names(&["new.example"])];
    let due_sets = due(&records, &policy(30 * DAY, wanted), now);
    assert_eq!(shown(&due_sets), vec![vec!["new.example".to_string()]]);
}

#[test]
fn first_issuance_with_an_empty_store() {
    let wanted = vec![names(&["a.example"]), names(&["b.example", "c.example"])];
    let due_sets = due(&Vec::new(), &policy(30 * DAY, wanted), 5);
    assert_eq!(
        shown(&due_sets),
        vec![vec!["a.example".to_string()], vec!["b.example".to_string(), "c.example".to_string()]]
    );
}

#[test]
fn due_lists_expiring_records_first_then_missing_ones_each_once() {
    let now = 1_000 * DAY;
    let records = vec![
        record(&["fresh.example"], now - DAY, now + 80 * DAY),
        record(&["late.example"], now - 80 * DAY, now + 2 * DAY),
        record(&["gone.example"], now - 100 * DAY, now - 10 * DAY),
        record(&["late.example"], now - 80 * DAY, now + 3 * DAY),
    ];
    let wanted = vec![
        names(&["missing.example"]),
        names(&["late.example"]),
        names(&["missing.example"]),
        names(&["fresh.example"]),
    ];
    let due_sets = due(&records, &policy(30 * DAY, wanted), now);
    assert_eq!(
        shown(&due_sets),
        vec![
            vec!["late.example".to_string()],
            vec!["gone.example".to_string()],
            vec!["missing.example".to_string()],
        ]
    );
}

#[test]
fn due_gives_the_same_answer_for_the_same_arguments() {
    let now = 1_000 * DAY;
    let records = vec![
        record(&["a.example"], now - DAY, now + 2 * DAY),
        record(&["b.example"], now - DAY, now + 40 * DAY),
        record(&["c.example"], now - DAY, now + 29 * DAY),
    ];
    let rules = policy(30 * DAY, vec![names(&["d.example"])]);
    let first = due(&records, &rules, now);
    let second = due(&records, &rules, now);
    assert_eq!(shown(&first), shown(&second));
    assert_eq!(first.len(), 3);
    assert_eq!(records.len(), 3);
    assert_eq!(records[1].not_after(), now + 40 * DAY);
}

#[test]
fn nothing_due_in_a_fresh_store() {
    let now = 1_000 * DAY;
    let records = vec![record(&["a.example"], now - DAY, now + 89 * DAY)];
    assert!(due(&records, &policy(30 * DAY, vec![names(&["a.example"])]), now).is_empty());
}

#[test]
fn listed_and_holds_record_compare_as_sets() {
    let sets = vec![names(&["a.example", "b.example"]), names(&["c.example"])];
    assert!(listed(&sets, &names(&["b.example", "a.example"])));
    assert!(!listed(&sets, &names(&["a.example"])));
    let records = vec![record(&["a.example", "b.example"], 0, 10)];
    assert!(holds_record(&records, &names(&["b.example", "a.example"])));
    assert!(!holds_record(&records, &names(&["b.example"])));
}
