use filegirl::action::Action;
use filegirl::allowlist::PatternError;
use filegirl::guard::{Config, FileGirl};
use filegirl::reactor::{ChangeEvent, EventKind, HandleError};
use filegirl::snapshot::Snapshot;

fn config(white_names: &[&str]) -> Config {
    Config {
        protected_dirs: vec!["/p".to_string()],
        backup_dir: "/b".to_string(),
        white_names: white_names.iter().map(|name| name.to_string()).collect(),
    }
}

/// A guard of "/p" whose baseline is {"/p/a.txt": Some("H1")}.
fn guard_of_p(white_names: &[&str]) -> FileGirl {
    let mut snapshot = Snapshot::new();
    snapshot.insert("/p/a.txt".to_string(), Some("H1".to_string()));
    let mut girl = FileGirl::new(config(white_names));
    girl.enroll("/p", snapshot);
    girl
}

fn event(kind: EventKind, path: &str) -> ChangeEvent {
    ChangeEvent { kind, path: path.to_string() }
}

fn restore(backup: &str, into: &str) -> Action {
    Action::Restore { backup: backup.to_string(), into: into.to_string() }
}

#[test]
fn created_unknown_path_is_deleted_once() {
    let girl = guard_of_p(&[]);
    let plan = girl.handle(&event(EventKind::Create, "/p/b.txt"), "/p", &None);
    assert_eq!(plan, Ok(vec![Action::Delete { paths: vec!["/p/b.txt".to_string()] }]));
}

#[test]
fn created_known_path_is_left_alone() {
    let girl = guard_of_p(&[]);
    let plan = girl.handle(&event(EventKind::Create, "/p/a.txt"), "/p", &None);
    assert_eq!(plan, Ok(vec![]));
}

#[test]
fn modified_path_with_other_fingerprint_is_rolled_back() {
    let girl = guard_of_p(&[]);
    let plan = girl.handle(&event(EventKind::Modify, "/p/a.txt"), "/p", &Some("H2".to_string()));
    assert_eq!(
        plan,
        Ok(vec![
            Action::Quarantine { path: "/p/a.txt".to_string(), into: "/b".to_string() },
            restore("/b/p/a.txt", "/p"),
        ])
    );
}

#[test]
fn modified_path_with_same_fingerprint_is_left_alone() {
    let girl = guard_of_p(&[]);
    let plan = girl.handle(&event(EventKind::Modify, "/p/a.txt"), "/p", &Some("H1".to_string()));
    assert_eq!(plan, Ok(vec![]));
}

#[test]
fn modified_path_that_cannot_be_read_is_rolled_back() {
    let girl = guard_of_p(&[]);
    let plan = girl.handle(&event(EventKind::Modify, "/p/a.txt"), "/p", &None).unwrap();
    assert_eq!(plan.len(), 2);
    assert_eq!(plan[1], restore("/b/p/a.txt", "/p"));
}

#[test]
fn modified_unknown_path_is_left_alone() {
    let girl = guard_of_p(&[]);
    let plan = girl.handle(&event(EventKind::Modify, "/p/b.txt"), "/p", &Some("H2".to_string()));
    assert_eq!(plan, Ok(vec![]));
}

#[test]
fn modified_directory_is_left_alone() {
    let mut snapshot = Snapshot::new();
    snapshot.insert("/p/sub".to_string(), None);
    let mut girl = FileGirl::new(config(&[]));
    girl.enroll("/p", snapshot);
    let plan = girl.handle(&event(EventKind::Modify, "/p/sub"), "/p", &None);
    assert_eq!(plan, Ok(vec![]));
}

#[test]
fn modified_directory_that_became_a_file_is_rolled_back() {
    let mut snapshot = Snapshot::new();
    snapshot.insert("/p/sub".to_string(), None);
    let mut girl = FileGirl::new(config(&[]));
    girl.enroll("/p", snapshot);
    let plan = girl.handle(&event(EventKind::Modify, "/p/sub"), "/p", &Some("H2".to_string()));
    assert_eq!(
        plan,
        Ok(vec![
            Action::Quarantine { path: "/p/sub".to_string(), into: "/b".to_string() },
            restore("/b/p/sub", "/p"),
        ])
    );
}

#[test]
fn modified_nested_path_is_restored_over_itself() {
    let mut snapshot = Snapshot::new();
    snapshot.insert("/p/sub/a.txt".to_string(), Some("H1".to_string()));
    let mut girl = FileGirl::new(config(&[]));
    girl.enroll("/p", snapshot);
    let plan = girl.handle(&event(EventKind::Modify, "/p/sub/a.txt"), "/p", &None);
    assert_eq!(
        plan,
        Ok(vec![
            Action::Quarantine { path: "/p/sub/a.txt".to_string(), into: "/b".to_string() },
            restore("/b/p/sub/a.txt", "/p/sub"),
        ])
    );
}

#[test]
fn removed_known_path_is_restored_into_its_parent() {
    let girl = guard_of_p(&[]);
    let plan = girl.handle(&event(EventKind::Remove, "/p/a.txt"), "/p", &None);
    assert_eq!(plan, Ok(vec![restore("/b/p/a.txt", "/p")]));
}

#[test]
fn removed_unknown_path_is_left_alone() {
    let girl = guard_of_p(&[]);
    let plan = girl.handle(&event(EventKind::Remove, "/p/b.txt"), "/p", &None);
    assert_eq!(plan, Ok(vec![]));
}

#[test]
fn removed_nested_path_is_restored_next_to_its_siblings() {
    let mut snapshot = Snapshot::new();
    snapshot.insert("/var/www/html/css/site.css".to_string(), Some("H1".to_string()));
    let mut girl = FileGirl::new(Config {
        protected_dirs: vec!["/var/www/html/".to_string()],
        backup_dir: "/tmp/backup".to_string(),
        white_names: vec![],
    });
    girl.enroll("/var/www/html/", snapshot);
    let removed = event(EventKind::Remove, "/var/www/html/css/site.css");
    let plan = girl.handle(&removed, "/var/www/html/", &None);
    assert_eq!(plan, Ok(vec![restore("/tmp/backup/html/css/site.css", "/var/www/html/css")]));
}

#[test]
fn other_kinds_are_left_alone() {
    let girl = guard_of_p(&[]);
    for path in ["/p/a.txt", "/p/b.txt"] {
        let plan = girl.handle(&event(EventKind::Other, path), "/p", &Some("H2".to_string()));
        assert_eq!(plan, Ok(vec![]));
    }
}

#[test]
fn exempt_name_is_left_alone_whatever_happened() {
    let girl = guard_of_p(&["^never$", r"\.txt$"]);
    for kind in [EventKind::Create, EventKind::Modify, EventKind::Remove, EventKind::Other] {
        for path in ["/p/a.txt", "/p/b.txt", "/p/sub/c.txt"] {
            let plan = girl.handle(&event(kind, path), "/p", &Some("H2".to_string()));
            assert_eq!(plan, Ok(vec![]), "{:?} {:?}", kind, path);
        }
    }
}

#[test]
fn exemption_goes_by_the_base_name_not_the_path() {
    let girl = guard_of_p(&["^p$"]);
    let plan = girl.handle(&event(EventKind::Create, "/p/b.txt"), "/p", &None);
    assert_eq!(plan, Ok(vec![Action::Delete { paths: vec!["/p/b.txt".to_string()] }]));
}

#[test]
fn exempt_name_needs_no_baseline() {
    let girl = FileGirl::new(config(&["filegirl"]));
    let plan = girl.handle(&event(EventKind::Create, "/p/filegirl.log"), "/p", &None);
    assert_eq!(plan, Ok(vec![]));
}

#[test]
fn invalid_pattern_fails_the_event() {
    let girl = guard_of_p(&["^never$", "(", r"\.txt$"]);
    let plan = girl.handle(&event(EventKind::Remove, "/p/a.txt"), "/p", &None);
    assert_eq!(plan, Err(HandleError::Pattern(PatternError { index: 1 })));
}

#[test]
fn match_before_an_invalid_pattern_exempts() {
    let girl = guard_of_p(&[r"\.txt$", "("]);
    let plan = girl.handle(&event(EventKind::Remove, "/p/a.txt"), "/p", &None);
    assert_eq!(plan, Ok(vec![]));
}

#[test]
fn event_outside_the_directory_is_refused() {
    let girl = guard_of_p(&[r"\.txt$"]);
    for path in ["/q/a.txt", "/pq/a.txt", "/a.txt", "p/a.txt", "/", ""] {
        for kind in [EventKind::Create, EventKind::Modify, EventKind::Remove, EventKind::Other] {
            let plan = girl.handle(&event(kind, path), "/p", &None);
            assert_eq!(plan, Err(HandleError::OutOfScope), "{:?}", path);
        }
    }
}

#[test]
fn event_without_base_name_is_refused() {
    let girl = guard_of_p(&[]);
    let plan = girl.handle(&event(EventKind::Create, "/p/.."), "/p", &None);
    assert_eq!(plan, Err(HandleError::OutOfScope));
}

#[test]
fn event_for_a_directory_without_baseline_is_refused() {
    let girl = guard_of_p(&[]);
    let plan = girl.handle(&event(EventKind::Create, "/q/a.txt"), "/q", &None);
    assert_eq!(plan, Err(HandleError::Unwatched));
}

#[test]
fn two_directories_keep_to_their_own_subtrees() {
    let mut first = Snapshot::new();
    first.insert("/srv/one/a.txt".to_string(), Some("H1".to_string()));
    let mut second = Snapshot::new();
    second.insert("/srv/two/a.txt".to_string(), Some("H9".to_string()));
    let mut girl = FileGirl::new(Config {
        protected_dirs: vec!["/srv/one".to_string(), "/srv/two".to_string()],
        backup_dir: "/b".to_string(),
        white_names: vec![],
    });
    girl.enroll("/srv/one", first);
    girl.enroll("/srv/two", second);

    let in_one = girl.handle(&event(EventKind::Remove, "/srv/one/a.txt"), "/srv/one", &None);
    assert_eq!(in_one, Ok(vec![restore("/b/one/a.txt", "/srv/one")]));
    let in_two = girl.handle(&event(EventKind::Remove, "/srv/two/a.txt"), "/srv/two", &None);
    assert_eq!(in_two, Ok(vec![restore("/b/two/a.txt", "/srv/two")]));

    // the baseline of one directory says nothing of a path in the other
    let modified = event(EventKind::Modify, "/srv/two/a.txt");
    let changed = girl.handle(&modified, "/srv/two", &Some("H1".to_string()));
    assert_eq!(
        changed,
        Ok(vec![
            Action::Quarantine { path: "/srv/two/a.txt".to_string(), into: "/b".to_string() },
            restore("/b/two/a.txt", "/srv/two"),
        ])
    );
    // and an event of one directory is not answered in the watch of the other
    let stray = girl.handle(&event(EventKind::Remove, "/srv/one/a.txt"), "/srv/two", &None);
    assert_eq!(stray, Err(HandleError::OutOfScope));
}

#[test]
fn fingerprint_is_needed_for_known_modified_paths_only() {
    let girl = guard_of_p(&[]);
    assert!(girl.needs_fingerprint(&event(EventKind::Modify, "/p/a.txt"), "/p"));
    assert!(!girl.needs_fingerprint(&event(EventKind::Modify, "/p/b.txt"), "/p"));
    assert!(!girl.needs_fingerprint(&event(EventKind::Create, "/p/a.txt"), "/p"));
    assert!(!girl.needs_fingerprint(&event(EventKind::Remove, "/p/a.txt"), "/p"));
    assert!(!girl.needs_fingerprint(&event(EventKind::Other, "/p/a.txt"), "/p"));
    assert!(!girl.needs_fingerprint(&event(EventKind::Modify, "/p/a.txt"), "/q"));
}
