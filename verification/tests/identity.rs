use credence::identity::IdentitySet;

fn names(list: &[&str]) -> IdentitySet {
    IdentitySet::new(list.iter().map(|s| s.to_string()).collect())
}

#[test]
fn identity_ignores_order() {
    let a = names(&["example.org", "www.example.org", "mail.example.org"]);
    let b = names(&["mail.example.org", "example.org", "www.example.org"]);
    assert!(a.same_as(&b));
    assert!(b.same_as(&a));
}

#[test]
fn identity_keeps_each_name_once() {
    let a = names(&["example.org", "www.example.org", "example.org", "example.org"]);
    assert_eq!(a.len(), 2);
    assert_eq!(a.names(), vec!["example.org".to_string(), "www.example.org".to_string()]);
    assert!(a.same_as(&names(&["www.example.org", "example.org"])));
}

#[test]
fn identity_tells_different_sets_apart() {
    let a = names(&["example.org", "www.example.org"]);
    let b = names(&["example.org"]);
    let c = names(&["example.org", "www.example.com"]);
    assert!(!a.same_as(&b));
    assert!(!b.same_as(&a));
    assert!(!a.same_as(&c));
}

#[test]
fn identity_names_are_case_and_byte_exact() {
    assert!(!names(&["Example.org"]).same_as(&names(&["example.org"])));
    assert!(!names(&["example.org."]).same_as(&names(&["example.org"])));
}

#[test]
fn identity_subset_and_membership() {
    let small = names(&["example.org"]);
    let large = names(&["www.example.org", "example.org"]);
    assert!(small.is_subset_of(&large));
    assert!(!large.is_subset_of(&small));
    assert!(large.is_subset_of(&large));
    assert!(large.contains(&"www.example.org".to_string()));
    assert!(!small.contains(&"www.example.org".to_string()));
}

#[test]
fn identity_empty_set() {
    let none = names(&[]);
    assert!(none.is_empty());
    assert_eq!(none.len(), 0);
    assert!(none.is_subset_of(&names(&["example.org"])));
    assert!(!names(&["example.org"]).is_empty());
    assert!(none.same_as(&IdentitySet::new(Vec::new())));
}

#[test]
fn identity_clone_is_the_same_set() {
    let a = names(&["b.example", "a.example"]);
    let b = a.clone();
    assert!(a.same_as(&b));
    assert_eq!(a.names(), b.names());
}
