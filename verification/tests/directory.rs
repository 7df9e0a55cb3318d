use todo_store::users::RegistrationError;
use todo_store::users::UserStore;

#[test]
fn registration_scenario() {
    let mut store = UserStore::new();
    let first = store.register("alice", "password1", "password1");
    let user = first.expect("a fresh username with a good password registers");
    assert_eq!(user.id, 1);
    assert_eq!(user.username, "alice");
    let second = store.register("alice", "password2", "password2");
    assert_eq!(second.unwrap_err(), RegistrationError::UsernameTaken);
}

#[test]
fn registration_checks_run_in_order() {
    let mut store = UserStore::new();
    store.register("alice", "password1", "password1").expect("registers");
    assert_eq!(
        store.register("alice", "short", "short").unwrap_err(),
        RegistrationError::UsernameTaken
    );
    assert_eq!(
        store.register("bob", "short", "short").unwrap_err(),
        RegistrationError::PasswordTooShort
    );
    assert_eq!(
        store.register("bob", "password2", "password3").unwrap_err(),
        RegistrationError::PasswordMismatch
    );
    assert_eq!(store.users.len(), 1);
}

#[test]
fn registration_assigns_distinct_monotonic_ids() {
    let mut store = UserStore::new();
    let a = store.register("alice", "password1", "password1").unwrap();
    let b = store.register("bob", "password2", "password2").unwrap();
    let c = store.register("carol", "password3", "password3").unwrap();
    assert_eq!((a.id, b.id, c.id), (1, 2, 3));
}

#[test]
fn authentication_needs_an_exact_match() {
    let mut store = UserStore::new();
    store.register("alice", "password1", "password1").unwrap();
    let found = store.authenticate("alice", "password1").expect("exact match logs in");
    assert_eq!(found.id, 1);
    assert!(store.authenticate("alice", "password2").is_none());
    assert!(store.authenticate("Alice", "password1").is_none());
    assert!(store.authenticate("bob", "password1").is_none());
}

#[test]
fn directory_lines_round_trip() {
    let mut store = UserStore::new();
    store.register("alice", "password1", "password1").unwrap();
    store.register("bob", "password22", "password22").unwrap();
    let lines = store.to_lines();
    assert_eq!(lines, vec!["1,alice,password1", "2,bob,password22"]);
    let reloaded = UserStore::from_lines(&lines);
    assert_eq!(reloaded.users.len(), 2);
    assert_eq!(reloaded.next_id, 3);
    assert_eq!(reloaded.users[1].username, "bob");
}

#[test]
fn loading_skips_malformed_rows() {
    let lines = vec![
        "1,alice,password1".to_string(),
        "not a record".to_string(),
        "x,bob,password2".to_string(),
        "7,carol,password3".to_string(),
    ];
    let store = UserStore::from_lines(&lines);
    assert_eq!(store.users.len(), 2);
    assert_eq!(store.users[1].id, 7);
    assert_eq!(store.next_id, 8);
}

#[test]
fn username_exists_scans_the_whole_directory() {
    let mut store = UserStore::new();
    assert!(!store.username_exists("alice"));
    store.register("alice", "password1", "password1").unwrap();
    store.register("bob", "password22", "password22").unwrap();
    assert!(store.username_exists("alice"));
    assert!(store.username_exists("bob"));
    assert!(!store.username_exists("carol"));
}
