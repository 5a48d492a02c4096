use disk_space_inspect::cache::{Cache, CacheValidationError};
use disk_space_inspect::fs::FileKind;

fn temp_cache() -> (Cache, i64) {
    let mut cache = Cache::new();
    let root_id = cache.resolve_root("/scan/root");
    (cache, root_id)
}

#[test]
fn mark_ancestors_dirty_marks_full_chain() {
    let (mut cache, root_id) = temp_cache();
    let mut session = cache.begin_scan(root_id);

    session.upsert_entry(".", None, FileKind::Directory, 0, 0, None, None);
    session.upsert_entry("dir", Some("."), FileKind::Directory, 0, 0, None, None);
    session.upsert_entry("dir/sub", Some("dir"), FileKind::Directory, 0, 0, None, None);
    session.upsert_entry(
        "dir/sub/file.txt",
        Some("dir/sub"),
        FileKind::File,
        42,
        42,
        None,
        None,
    );
    session.finish(&mut cache);

    cache.mark_ancestors_dirty(root_id, "dir/sub/file.txt");

    let file_flags = cache.entry(root_id, "dir/sub/file.txt").unwrap().flags;
    let sub_flags = cache.entry(root_id, "dir/sub").unwrap().flags;
    let dir_flags = cache.entry(root_id, "dir").unwrap().flags;
    let root_flags = cache.entry(root_id, ".").unwrap().flags;

    assert_ne!(file_flags & 1, 0, "file flagged");
    assert_ne!(sub_flags & 1, 0, "subdir flagged");
    assert_ne!(dir_flags & 1, 0, "dir flagged");
    assert_ne!(root_flags & 1, 0, "root flagged");
}

#[test]
fn mark_ancestors_dirty_on_directory_marks_root() {
    let (mut cache, root_id) = temp_cache();
    let mut session = cache.begin_scan(root_id);

    session.upsert_entry(".", None, FileKind::Directory, 0, 0, None, None);
    session.upsert_entry("dir", Some("."), FileKind::Directory, 0, 0, None, None);
    session.upsert_entry("dir/sub", Some("dir"), FileKind::Directory, 0, 0, None, None);
    session.finish(&mut cache);

    cache.mark_ancestors_dirty(root_id, "dir/sub");

    let sub_flags = cache.entry(root_id, "dir/sub").unwrap().flags;
    let dir_flags = cache.entry(root_id, "dir").unwrap().flags;
    let root_flags = cache.entry(root_id, ".").unwrap().flags;

    assert_ne!(sub_flags & 1, 0, "subdir flagged");
    assert_ne!(dir_flags & 1, 0, "dir flagged");
    assert_ne!(root_flags & 1, 0, "root flagged");
}

#[test]
fn mark_dirty_after_remove_marks_parent() {
    let (mut cache, root_id) = temp_cache();
    let mut session = cache.begin_scan(root_id);

    session.upsert_entry(".", None, FileKind::Directory, 0, 0, None, None);
    session.upsert_entry("dir", Some("."), FileKind::Directory, 0, 0, None, None);
    session.upsert_entry("dir/file.txt", Some("dir"), FileKind::File, 10, 10, None, None);
    session.finish(&mut cache);

    cache.remove_entry(root_id, "dir/file.txt");
    cache.mark_ancestors_dirty(root_id, "dir");

    let dir_flags = cache.entry(root_id, "dir").unwrap().flags;
    let root_flags = cache.entry(root_id, ".").unwrap().flags;

    assert_ne!(dir_flags & 1, 0, "dir flagged");
    assert_ne!(root_flags & 1, 0, "root flagged");
}

#[test]
fn validate_aggregate_detects_mismatch() {
    let (mut cache, root_id) = temp_cache();
    let mut session = cache.begin_scan(root_id);

    session.upsert_entry(".", None, FileKind::Directory, 0, 999, None, None);
    session.upsert_entry("dir", Some("."), FileKind::Directory, 0, 100, None, None);
    session.upsert_entry("dir/file.bin", Some("dir"), FileKind::File, 100, 100, None, None);
    session.finish(&mut cache);

    let error = cache
        .validate_aggregate(root_id, ".")
        .expect_err("expected mismatch");

    match error {
        CacheValidationError::AggregateMismatch { path, .. } => {
            assert_eq!(path, ".");
        }
        other => panic!("unexpected error: {other:?}"),
    }
}

#[test]
fn validate_aggregate_reports_expected_and_cached() {
    let (mut cache, root_id) = temp_cache();
    let mut session = cache.begin_scan(root_id);
    session.upsert_entry(".", None, FileKind::Directory, 0, 999, None, None);
    session.upsert_entry("dir", Some("."), FileKind::Directory, 0, 100, None, None);
    session.upsert_entry("dir/file.bin", Some("dir"), FileKind::File, 100, 100, None, None);
    session.finish(&mut cache);

    match cache.validate_aggregate(root_id, ".") {
        Err(CacheValidationError::AggregateMismatch { path, expected, cached }) => {
            assert_eq!(path, ".");
            assert_eq!(expected, 100);
            assert_eq!(cached, 999);
        }
        other => panic!("expected an aggregate mismatch, got {other:?}"),
    }
}

#[test]
fn validate_aggregate_accepts_consistent_cache() {
    let (mut cache, root_id) = temp_cache();
    let mut session = cache.begin_scan(root_id);
    session.upsert_entry(".", None, FileKind::Directory, 0, 30, None, None);
    session.upsert_entry("a", Some("."), FileKind::Directory, 0, 10, None, None);
    session.upsert_entry("a/f1", Some("a"), FileKind::File, 10, 10, None, None);
    session.upsert_entry("b", Some("."), FileKind::Directory, 0, 20, None, None);
    session.upsert_entry("b/f2", Some("b"), FileKind::File, 20, 20, None, None);
    session.finish(&mut cache);

    let summary = cache
        .validate_aggregate(root_id, ".")
        .expect("aggregate validation");
    assert_eq!(summary.total_size, 30);
    assert_eq!(summary.entry_count, 5);
    assert_eq!(summary.directory_count, 3);
}

#[test]
fn missing_anchor_is_reported() {
    let (cache, root_id) = temp_cache();
    match cache.validate_aggregate(root_id, ".") {
        Err(CacheValidationError::MissingEntry(path)) => assert_eq!(path, "."),
        other => panic!("expected a missing entry, got {other:?}"),
    }
}

#[test]
fn parent_cycle_is_reported_not_looped() {
    let (mut cache, root_id) = temp_cache();
    let mut session = cache.begin_scan(root_id);
    session.upsert_entry(".", None, FileKind::Directory, 0, 0, Some(1), None);
    session.upsert_entry("a", Some("b"), FileKind::Directory, 0, 0, None, None);
    session.upsert_entry("b", Some("a"), FileKind::Directory, 0, 0, None, None);
    session.finish(&mut cache);
    match cache.validate_aggregate(root_id, "a") {
        Err(CacheValidationError::DepthExceeded(_)) => {}
        other => panic!("expected the cycle to be cut off, got {other:?}"),
    }
}

#[test]
fn finish_removes_entries_the_session_did_not_see() {
    let (mut cache, root_id) = temp_cache();
    let mut session = cache.begin_scan_at(root_id, 1000);
    session.upsert_entry(".", None, FileKind::Directory, 0, 10, None, None);
    session.upsert_entry("old.txt", Some("."), FileKind::File, 10, 10, None, None);
    session.finish(&mut cache);
    assert!(cache.entry(root_id, "old.txt").is_some());

    let mut second = cache.begin_scan_at(root_id, 2000);
    second.upsert_entry(".", None, FileKind::Directory, 0, 0, None, None);
    second.finish(&mut cache);

    assert!(cache.entry(root_id, "old.txt").is_none(), "unseen entry removed");
    assert!(cache.entry(root_id, ".").is_some(), "seen entry kept");
}

#[test]
fn upsert_clears_the_dirty_bit() {
    let (mut cache, root_id) = temp_cache();
    let mut session = cache.begin_scan(root_id);
    session.upsert_entry(".", None, FileKind::Directory, 0, 0, None, None);
    session.finish(&mut cache);
    cache.mark_dirty(root_id, ".");
    assert_ne!(cache.entry(root_id, ".").unwrap().flags & 1, 0);

    let mut second = cache.begin_scan(root_id);
    second.upsert_entry(".", None, FileKind::Directory, 0, 0, None, None);
    second.finish(&mut cache);
    assert_eq!(cache.entry(root_id, ".").unwrap().flags & 1, 0, "upsert cleared the bit");
}

#[test]
fn ui_state_round_trips() {
    let (mut cache, root_id) = temp_cache();
    assert!(cache.load_ui_state(root_id).is_none());
    cache.save_ui_state(root_id, "{\"expanded\":[]}", 2);
    let (payload, version) = cache.load_ui_state(root_id).expect("stored state");
    assert_eq!(payload, "{\"expanded\":[]}");
    assert_eq!(version, 2);
}

#[test]
fn clear_root_path_reports_whether_anything_existed() {
    let mut cache = Cache::new();
    let id = cache.resolve_root("/scan/root");
    let mut session = cache.begin_scan(id);
    session.upsert_entry(".", None, FileKind::Directory, 0, 0, None, None);
    session.finish(&mut cache);

    assert!(!cache.clear_root_path("/other/root"));
    assert!(cache.clear_root_path("/scan/root"));
    assert!(!cache.clear_root_path("/scan/root"));
}

#[test]
fn resolve_root_is_idempotent() {
    let mut cache = Cache::new();
    let a = cache.resolve_root("/scan/root");
    let b = cache.resolve_root("/scan/root");
    let c = cache.resolve_root("/scan/other");
    assert_eq!(a, b);
    assert_ne!(a, c);
}

#[test]
fn children_of_lists_entries_by_parent() {
    let (mut cache, root_id) = temp_cache();
    let mut session = cache.begin_scan(root_id);
    session.upsert_entry(".", None, FileKind::Directory, 0, 5, None, None);
    session.upsert_entry("a", Some("."), FileKind::Directory, 0, 5, None, None);
    session.upsert_entry("a/f", Some("a"), FileKind::File, 5, 5, None, None);
    session.finish(&mut cache);

    let top = cache.children_of(root_id, "");
    assert_eq!(top.len(), 1);
    assert_eq!(top[0].path, ".");

    let under_root = cache.children_of(root_id, ".");
    assert_eq!(under_root.len(), 1);
    assert_eq!(under_root[0].path, "a");

    let under_a = cache.children_of(root_id, "a");
    assert_eq!(under_a.len(), 1);
    assert_eq!(under_a[0].path, "a/f");
}
