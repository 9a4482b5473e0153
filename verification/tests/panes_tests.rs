use scp_core::panes::{
    conflict_action, conflict_message, count_newer, download_conflict, join_posix, newer_hint, next_worker,
    pace, parent_posix, parse_mode, policy_of_choice, pool_size, proto_from_index, session_label, shell_quote,
    upload_conflict, ConflictAction, History, LocalStat, Throttle,
};
use scp_core::ssh::perm_string;
use scp_core::types::{Auth, Credentials, Entry, Protocol};

fn entry(name: &str, is_dir: bool, size: u64) -> Entry {
    Entry { name: name.into(), is_dir, size, mtime: None, perms: None, is_symlink: false, uid: None, gid: None }
}

#[test]
fn labels() {
    assert_eq!(proto_from_index(2), Protocol::Ftps);
    assert_eq!(proto_from_index(9), Protocol::Sftp);
    let mut c = Credentials::basic(Protocol::S3, String::new(), 443, "key".into(), Auth::Anonymous);
    c.bucket = Some("bkt".into());
    assert_eq!(session_label(&c), "key@bkt");
    let d = Credentials::basic(Protocol::Ftp, "h".into(), 21, String::new(), Auth::Anonymous);
    assert_eq!(session_label(&d), "h");
}

#[test]
fn posix_paths() {
    assert_eq!(join_posix("/a", "b"), "/a/b");
    assert_eq!(join_posix("/", "b"), "/b");
    assert_eq!(parent_posix("/"), "/");
    assert_eq!(parent_posix("/a"), "/");
    assert_eq!(parent_posix("/a/b/"), "/a");
    assert_eq!(parent_posix("rel"), "/");
    assert_eq!(shell_quote("it's"), "'it'\\''s'");
}

#[test]
fn modes_round_trip_through_permission_strings() {
    assert_eq!(parse_mode("rwxr-xr-x"), Some(0o755));
    assert_eq!(parse_mode("rw-"), None);
    for m in [0o000, 0o644, 0o755, 0o777, 0o4755] {
        assert_eq!(parse_mode(&perm_string(m)), Some(m & 0o777));
    }
}

#[test]
fn back_then_forward_returns() {
    let mut h = History::new();
    h.record("/a".into());
    h.record("/b".into());
    assert_eq!(h.go_back("/c".into()).as_deref(), Some("/b"));
    assert_eq!(h.go_forward("/b".into()).as_deref(), Some("/c"));
    assert_eq!(h.go_forward("/c".into()), None);
    h.record("/c".into());
    assert!(h.forward.is_empty());
}

#[test]
fn conflicts() {
    let remote = vec![entry("f", false, 10), entry("d", true, 0)];
    assert!(upload_conflict(&entry("f", false, 10), &remote));
    assert!(!upload_conflict(&entry("f", false, 11), &remote));
    assert!(upload_conflict(&entry("d", true, 0), &remote));
    assert!(!upload_conflict(&entry("f", true, 0), &remote));
    assert!(download_conflict(&entry("f", false, 5), Some(LocalStat { is_dir: false, len: 5, mtime: None })));
    assert!(!download_conflict(&entry("f", false, 6), Some(LocalStat { is_dir: false, len: 5, mtime: None })));
    assert!(!download_conflict(&entry("d", true, 0), Some(LocalStat { is_dir: false, len: 9, mtime: None })));
    assert!(!download_conflict(&entry("d", true, 0), None));
    assert_eq!(conflict_message(&vec![entry("x", false, 1)]), "x already exists at the destination.");
    assert_eq!(conflict_message(&remote), "2 items already exist at the destination.");
    assert_eq!(newer_hint(Some(2), Some(1)), " — source is newer");
    assert_eq!(newer_hint(Some(1), None), "");
    assert_eq!(count_newer(&vec![(Some(2), Some(1)), (Some(1), Some(1)), (None, Some(0))]), 1);
}

#[test]
fn conflict_choices() {
    assert_eq!(policy_of_choice(Some(3)), Some(0));
    assert_eq!(policy_of_choice(Some(1)), Some(1));
    assert_eq!(policy_of_choice(Some(0)), None);
    assert_eq!(policy_of_choice(None), None);
    assert_eq!(conflict_action(true, 1, None, None), ConflictAction::MergeWith(1));
    assert_eq!(conflict_action(false, 1, Some(9), Some(1)), ConflictAction::Skip);
    assert_eq!(conflict_action(false, 2, Some(9), Some(1)), ConflictAction::Transfer);
    assert_eq!(conflict_action(false, 2, Some(1), Some(1)), ConflictAction::Skip);
    assert_eq!(conflict_action(false, 0, None, None), ConflictAction::Transfer);
}

#[test]
fn pacing() {
    let mut t = Throttle::new();
    assert!(!t.should_send(1000, 10_000_000));
    assert!(t.should_send(262_144, 10_000_000));
    assert!(!t.should_send(300_000, 10_000_000));
    assert!(t.should_send(10_000_000, 10_000_000));
    assert_eq!(pace(0, 2048, 1), (1_000_000, 2048));
    assert_eq!(pace(0, 512, 1), (500_000, 512));
    assert_eq!(pace(10, 5, 1), (0, 5));
    assert_eq!(pool_size(0), 1);
    assert_eq!(pool_size(20), 8);
    assert_eq!(next_worker(7, 3), 1);
}
