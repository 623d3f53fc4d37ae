use filegirl::action::Action;
use filegirl::allowlist::{check_patterns, is_exempt, PatternError};
use filegirl::fingerprint::fingerprint;
use filegirl::guard::{Config, FileGirl};
use filegirl::reactor::{react, respond, same_fingerprint, ChangeEvent, EventKind, HandleError};
use filegirl::snapshot::{Snapshot, WalkEntry};

const HELLO: &str = "5d41402abc4b2a76b9719d911017c592";
const EMPTY: &str = "d41d8cd98f00b204e9800998ecf8427e";

fn file(path: &str, content: &[u8]) -> WalkEntry {
    WalkEntry { path: path.to_string(), is_file: true, content: Some(content.to_vec()) }
}

fn unreadable(path: &str) -> WalkEntry {
    WalkEntry { path: path.to_string(), is_file: true, content: None }
}

fn dir(path: &str) -> WalkEntry {
    WalkEntry { path: path.to_string(), is_file: false, content: None }
}

fn names(patterns: &[&str]) -> Vec<String> {
    patterns.iter().map(|pattern| pattern.to_string()).collect()
}

#[test]
fn fingerprint_is_the_md5_digest_in_hex() {
    assert_eq!(fingerprint(b"hello"), HELLO);
    assert_eq!(fingerprint(b""), EMPTY);
    assert_eq!(
        fingerprint(b"The quick brown fox jumps over the lazy dog"),
        "9e107d9d372bb6826bd81d3542a419d6"
    );
}

#[test]
fn fingerprint_repeats_on_the_same_bytes() {
    let bytes = vec![0u8, 1, 2, 255, 254];
    assert_eq!(fingerprint(&bytes), fingerprint(&bytes.clone()));
    assert_ne!(fingerprint(&bytes), fingerprint(&bytes[1..]));
}

#[test]
fn calc_hash_follows_the_read() {
    assert_eq!(FileGirl::calc_hash(&Some(b"hello".to_vec())), Some(HELLO.to_string()));
    assert_eq!(FileGirl::calc_hash(&Some(Vec::new())), Some(EMPTY.to_string()));
    assert_eq!(FileGirl::calc_hash(&None), None);
}

#[test]
fn baseline_has_one_entry_per_object() {
    let walk = vec![
        dir("/p"),
        file("/p/a.txt", b"hello"),
        dir("/p/sub"),
        file("/p/sub/empty", b""),
    ];
    let snapshot = FileGirl::make_file_hash_map(&walk);
    assert_eq!(snapshot.len(), 4);
    assert_eq!(snapshot.get("/p"), Some(&None));
    assert_eq!(snapshot.get("/p/a.txt"), Some(&Some(HELLO.to_string())));
    assert_eq!(snapshot.get("/p/sub"), Some(&None));
    assert_eq!(snapshot.get("/p/sub/empty"), Some(&Some(EMPTY.to_string())));
    assert_eq!(snapshot.get("/p/b.txt"), None);
    assert!(snapshot.contains("/p/sub"));
    assert!(!snapshot.contains("/p/sub/"));
}

#[test]
fn baseline_of_an_empty_walk_is_empty() {
    let snapshot = FileGirl::make_file_hash_map(&Vec::new());
    assert_eq!(snapshot.len(), 0);
    assert_eq!(snapshot.get("/p"), None);
}

#[test]
fn baseline_skips_unreadable_files() {
    let walk = vec![dir("/p"), unreadable("/p/locked"), file("/p/a.txt", b"hello")];
    let snapshot = FileGirl::make_file_hash_map(&walk);
    assert_eq!(snapshot.len(), 2);
    assert!(!snapshot.contains("/p/locked"));
    assert!(snapshot.contains("/p/a.txt"));
}

#[test]
fn baseline_does_not_depend_on_the_order_of_the_walk() {
    let forward = vec![dir("/p"), file("/p/a.txt", b"hello"), file("/p/b.txt", b"")];
    let backward = vec![file("/p/b.txt", b""), file("/p/a.txt", b"hello"), dir("/p")];
    let first = FileGirl::make_file_hash_map(&forward);
    let second = FileGirl::make_file_hash_map(&backward);
    assert_eq!(first.len(), second.len());
    for path in ["/p", "/p/a.txt", "/p/b.txt", "/p/c.txt"] {
        assert_eq!(first.get(path), second.get(path));
    }
}

#[test]
fn baseline_repeats_on_the_same_walk() {
    let walk = vec![dir("/p"), file("/p/a.txt", b"hello")];
    let first = FileGirl::make_file_hash_map(&walk);
    let second = FileGirl::make_file_hash_map(&walk);
    assert_eq!(first.len(), second.len());
    assert_eq!(first.get("/p/a.txt"), second.get("/p/a.txt"));
    assert_eq!(first.get("/p"), second.get("/p"));
}

#[test]
fn later_entry_replaces_an_earlier_one() {
    let walk = vec![file("/p/a", b"hello"), dir("/p/a"), unreadable("/p/a")];
    let snapshot = FileGirl::make_file_hash_map(&walk);
    assert_eq!(snapshot.len(), 1);
    assert_eq!(snapshot.get("/p/a"), Some(&None));
}

#[test]
fn record_adds_one_entry() {
    let mut snapshot = Snapshot::new();
    snapshot.record(&file("/p/a.txt", b"hello"));
    snapshot.record(&unreadable("/p/locked"));
    snapshot.record(&dir("/p"));
    assert_eq!(snapshot.len(), 2);
    assert_eq!(snapshot.get("/p/a.txt"), Some(&Some(HELLO.to_string())));
    assert_eq!(snapshot.get("/p"), Some(&None));
}

#[test]
fn insert_replaces_what_was_on_record() {
    let mut snapshot = Snapshot::new();
    snapshot.insert("/p/a.txt".to_string(), Some("H1".to_string()));
    snapshot.insert("/p/a.txt".to_string(), Some("H2".to_string()));
    assert_eq!(snapshot.len(), 1);
    assert_eq!(snapshot.get("/p/a.txt"), Some(&Some("H2".to_string())));
}

#[test]
fn guard_records_the_baseline_and_plans_the_mirror() {
    let mut girl = FileGirl::new(Config {
        protected_dirs: vec!["/p".to_string()],
        backup_dir: "/b".to_string(),
        white_names: vec![],
    });
    let walk = vec![dir("/p"), file("/p/a.txt", b"hello")];
    let plan = girl.guard("/p", &walk, false);
    assert_eq!(
        plan,
        vec![
            Action::CreateDir { path: "/b".to_string() },
            Action::Mirror { dir: "/p".to_string(), into: "/b".to_string() },
        ]
    );
    let event = ChangeEvent { kind: EventKind::Modify, path: "/p/a.txt".to_string() };
    assert!(girl.needs_fingerprint(&event, "/p"));
    assert_eq!(girl.handle(&event, "/p", &Some(HELLO.to_string())), Ok(vec![]));
    let changed = girl.handle(&event, "/p", &Some(EMPTY.to_string()));
    assert_eq!(changed.map(|plan| plan.len()), Ok(2));
}

#[test]
fn guard_does_not_create_a_backup_directory_that_exists() {
    let mut girl = FileGirl::new(Config {
        protected_dirs: vec!["/p".to_string()],
        backup_dir: "/b".to_string(),
        white_names: vec![],
    });
    let plan = girl.guard("/p", &Vec::new(), true);
    assert_eq!(plan, vec![Action::Mirror { dir: "/p".to_string(), into: "/b".to_string() }]);
}

#[test]
fn new_guard_watches_nothing() {
    let girl = FileGirl::new(Config {
        protected_dirs: vec!["/p".to_string()],
        backup_dir: "/b".to_string(),
        white_names: vec!["filegirl".to_string()],
    });
    assert_eq!(girl.config.protected_dirs, vec!["/p".to_string()]);
    assert_eq!(girl.config.backup_dir, "/b");
    assert_eq!(girl.config.white_names, vec!["filegirl".to_string()]);
    let event = ChangeEvent { kind: EventKind::Create, path: "/p/a.txt".to_string() };
    assert_eq!(girl.handle(&event, "/p", &None), Err(HandleError::Unwatched));
}

#[test]
fn is_exempt_takes_the_first_pattern_that_decides() {
    assert_eq!(is_exempt(&names(&[]), "a.txt"), Ok(false));
    assert_eq!(is_exempt(&names(&["filegirl"]), "filegirl.log"), Ok(true));
    assert_eq!(is_exempt(&names(&["filegirl"]), "a.txt"), Ok(false));
    assert_eq!(is_exempt(&names(&["^a$", r"^a\.t.t$"]), "a.txt"), Ok(true));
    assert_eq!(is_exempt(&names(&["^a$", "[", "txt"]), "a.txt"), Err(PatternError { index: 1 }));
    assert_eq!(is_exempt(&names(&["txt", "["]), "a.txt"), Ok(true));
    assert_eq!(is_exempt(&names(&["^a$", "^b$", "("]), "c"), Err(PatternError { index: 2 }));
}

#[test]
fn is_exempt_matches_anywhere_in_the_name() {
    assert_eq!(is_exempt(&names(&["gir"]), "filegirl"), Ok(true));
    assert_eq!(is_exempt(&names(&["^gir"]), "filegirl"), Ok(false));
    assert_eq!(is_exempt(&names(&[""]), "anything"), Ok(true));
}

#[test]
fn same_fingerprint_compares_marks_and_digests() {
    let h1 = Some("H1".to_string());
    let h2 = Some("H2".to_string());
    assert!(same_fingerprint(&h1, &h1.clone()));
    assert!(!same_fingerprint(&h1, &h2));
    assert!(!same_fingerprint(&h1, &None));
    assert!(!same_fingerprint(&None, &h2));
    assert!(same_fingerprint(&None, &None));
}

#[test]
fn react_settles_the_verdict_of_the_allowlist() {
    let mut snapshot = Snapshot::new();
    snapshot.insert("/p/a.txt".to_string(), Some("H1".to_string()));
    let event = ChangeEvent { kind: EventKind::Remove, path: "/p/a.txt".to_string() };
    let restore = Action::Restore { backup: "/b/p/a.txt".to_string(), into: "/p".to_string() };
    assert_eq!(
        react(Ok(false), Some(&snapshot), &event, &None, "/p", "/b/p/a.txt", "/b"),
        Ok(vec![restore])
    );
    assert_eq!(
        react(Ok(true), Some(&snapshot), &event, &None, "/p", "/b/p/a.txt", "/b"),
        Ok(vec![])
    );
    assert_eq!(react(Ok(true), None, &event, &None, "/p", "/b/p/a.txt", "/b"), Ok(vec![]));
    assert_eq!(
        react(Ok(false), None, &event, &None, "/p", "/b/p/a.txt", "/b"),
        Err(HandleError::Unwatched)
    );
    assert_eq!(
        react(
            Err(PatternError { index: 3 }),
            Some(&snapshot),
            &event,
            &None,
            "/p",
            "/b/p/a.txt",
            "/b"
        ),
        Err(HandleError::Pattern(PatternError { index: 3 }))
    );
}

#[test]
fn respond_answers_from_the_baseline() {
    let mut snapshot = Snapshot::new();
    snapshot.insert("/p/a.txt".to_string(), Some("H1".to_string()));
    let created = ChangeEvent { kind: EventKind::Create, path: "/p/new".to_string() };
    assert_eq!(
        respond(&created, &snapshot, &None, "/p", "/b/p/new", "/b"),
        vec![Action::Delete { paths: vec!["/p/new".to_string()] }]
    );
    let modified = ChangeEvent { kind: EventKind::Modify, path: "/p/a.txt".to_string() };
    assert_eq!(
        respond(&modified, &snapshot, &Some("H1".to_string()), "/p", "/b/p/a.txt", "/b"),
        vec![]
    );
}

#[test]
fn check_patterns_names_the_first_invalid_pattern() {
    assert_eq!(check_patterns(&names(&[])), Ok(()));
    assert_eq!(check_patterns(&names(&["filegirl", r"\.txt$", ""])), Ok(()));
    assert_eq!(check_patterns(&names(&["filegirl", "(", "["])), Err(PatternError { index: 1 }));
    assert_eq!(check_patterns(&names(&["a{2,1}"])), Err(PatternError { index: 0 }));
}

#[test]
fn checked_allowlist_exempts_what_some_pattern_matches() {
    let patterns = names(&["^a", "b$", "c"]);
    assert_eq!(check_patterns(&patterns), Ok(()));
    let cases = [("abc", true), ("xb", true), ("xcx", true), ("xyz", false), ("", false)];
    for (name, expected) in cases {
        assert_eq!(is_exempt(&patterns, name), Ok(expected), "{:?}", name);
    }
}
