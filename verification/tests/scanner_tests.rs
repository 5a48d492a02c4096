use disk_space_inspect::cache::Cache;
use disk_space_inspect::fs::FileKind;
use disk_space_inspect::query::{SearchQuery, SizeFilter, SizeOperator};
use disk_space_inspect::scanner::{CacheContext, ScanMessage, ScanStats, WalkEvent, WalkKind};
use disk_space_inspect::scanner::{execute_clear, execute_run, run_scan};

const ROOT: &str = "/scan/root";

fn dir_event(depth: usize, path: &str, mtime: i64) -> WalkEvent {
    WalkEvent::Entry {
        depth,
        path: path.to_string(),
        kind: WalkKind::Directory,
        size: 0,
        modified: Some(mtime),
        created: Some(mtime),
    }
}

fn file_event(depth: usize, path: &str, size: u64, mtime: i64) -> WalkEvent {
    WalkEvent::Entry {
        depth,
        path: path.to_string(),
        kind: WalkKind::File,
        size,
        modified: Some(mtime),
        created: Some(mtime),
    }
}

fn make_query(root: &str) -> SearchQuery {
    SearchQuery {
        raw: root.to_string(),
        root: root.to_string(),
        relative_pattern: None,
        size_filter: None,
    }
}

fn make_ctx(cache: &mut Cache) -> CacheContext {
    let root_id = cache.resolve_root(ROOT);
    CacheContext { root_id, canonical_root: ROOT.to_string() }
}

fn sample_tree() -> Vec<WalkEvent> {
    vec![
        dir_event(0, ROOT, 1),
        dir_event(1, "/scan/root/dir_a", 2),
        file_event(2, "/scan/root/dir_a/file1.txt", 10, 3),
        dir_event(1, "/scan/root/dir_b", 4),
        file_event(2, "/scan/root/dir_b/file2.txt", 10, 5),
    ]
}

fn scan(
    job_id: u64,
    cache: &mut Cache,
    ctx: &CacheContext,
    events: &Vec<WalkEvent>,
) -> (ScanStats, Vec<ScanMessage>) {
    let query = make_query(ROOT);
    let mut out = Vec::new();
    let stats = run_scan(job_id, &query, cache, Some(ctx), events, None, &mut out);
    (stats, out)
}

fn entry_paths(messages: &[ScanMessage]) -> Vec<String> {
    let mut paths: Vec<String> = messages
        .iter()
        .filter_map(|m| match m {
            ScanMessage::Entry { entry, .. } => Some(entry.path.clone()),
            _ => None,
        })
        .collect();
    paths.sort();
    paths
}

#[test]
fn cache_reuses_directories_on_subsequent_scans() {
    let mut cache = Cache::new();
    let ctx = make_ctx(&mut cache);
    let events = sample_tree();

    // Warm cache
    let (warm_stats, _) = scan(1, &mut cache, &ctx, &events);
    assert_eq!(warm_stats.cached_dirs, 0, "first scan should not reuse cache");

    // Second run should reuse both directories
    let (reuse_stats, _) = scan(2, &mut cache, &ctx, &events);
    assert!(
        reuse_stats.cached_dirs >= 2,
        "expected cached directories on second scan, got {}",
        reuse_stats.cached_dirs
    );
    assert_eq!(reuse_stats.cache_validation_errors, 0);

    // Mutate one directory
    let mut mutated = sample_tree();
    mutated[1] = dir_event(1, "/scan/root/dir_a", 20);
    mutated[2] = file_event(2, "/scan/root/dir_a/file1.txt", 20, 21);

    let (mutate_stats, _) = scan(3, &mut cache, &ctx, &mutated);
    assert!(
        mutate_stats.cached_dirs >= 1,
        "other directories should still be reused"
    );
    assert_eq!(mutate_stats.cache_validation_errors, 0);
}

#[test]
fn warm_scan_counts_and_total_match() {
    let mut cache = Cache::new();
    let ctx = make_ctx(&mut cache);
    let events = sample_tree();

    let (stats, _) = scan(1, &mut cache, &ctx, &events);
    assert_eq!(stats.files_scanned, 2);
    assert_eq!(stats.dirs_scanned, 3);
    assert_eq!(stats.cached_dirs, 0);
    let summary = cache
        .validate_aggregate(ctx.root_id, ".")
        .expect("aggregate validation");
    assert_eq!(summary.total_size, 20);
}

#[test]
fn unchanged_tree_round_trips() {
    let mut cache = Cache::new();
    let ctx = make_ctx(&mut cache);
    let events = sample_tree();

    let (first, _) = scan(1, &mut cache, &ctx, &events);
    let total_first = cache
        .validate_aggregate(ctx.root_id, ".")
        .expect("first validation")
        .total_size;
    let (second, _) = scan(2, &mut cache, &ctx, &events);
    let total_second = cache
        .validate_aggregate(ctx.root_id, ".")
        .expect("second validation")
        .total_size;

    // A replayed entry is counted under the cached_* counters instead of
    // files_scanned/dirs_scanned; together the two scans cover the same tree.
    assert_eq!(
        first.files_scanned + first.dirs_scanned + first.cached_entries,
        second.files_scanned + second.dirs_scanned + second.cached_entries
    );
    assert_eq!(total_first, total_second);
    assert!(second.cached_dirs >= 2);
}

#[test]
fn mutation_rewalks_and_totals_update() {
    let mut cache = Cache::new();
    let ctx = make_ctx(&mut cache);
    let events = sample_tree();
    let (_, _) = scan(1, &mut cache, &ctx, &events);

    // a change notification marks the file's ancestors dirty, so the next
    // scan re-walks the affected subtree and the root, while dir_b replays
    cache.mark_ancestors_dirty(ctx.root_id, "dir_a/file1.txt");
    let mut mutated = sample_tree();
    mutated[1] = dir_event(1, "/scan/root/dir_a", 20);
    mutated[2] = file_event(2, "/scan/root/dir_a/file1.txt", 20, 21);
    let (stats, _) = scan(2, &mut cache, &ctx, &mutated);
    assert!(stats.cached_dirs >= 1);
    let total = cache
        .validate_aggregate(ctx.root_id, ".")
        .expect("validation after mutation")
        .total_size;
    assert_eq!(total, 30);
}

#[test]
fn replay_emits_the_same_entries_as_a_cold_scan() {
    let events = sample_tree();

    let mut cold_cache = Cache::new();
    let cold_ctx = make_ctx(&mut cold_cache);
    let (_, cold_msgs) = scan(1, &mut cold_cache, &cold_ctx, &events);

    let mut warm_cache = Cache::new();
    let warm_ctx = make_ctx(&mut warm_cache);
    let (_, _) = scan(1, &mut warm_cache, &warm_ctx, &events);
    let (warm_stats, warm_msgs) = scan(2, &mut warm_cache, &warm_ctx, &events);

    assert!(warm_stats.cached_dirs >= 2, "second scan replays from cache");
    assert_eq!(entry_paths(&cold_msgs), entry_paths(&warm_msgs));
}

#[test]
fn root_only_scan_emits_one_directory() {
    let mut cache = Cache::new();
    let ctx = make_ctx(&mut cache);
    let events = vec![dir_event(0, ROOT, 1)];
    let (stats, msgs) = scan(1, &mut cache, &ctx, &events);
    assert_eq!(stats.files_scanned, 0);
    assert_eq!(stats.dirs_scanned, 1);
    let entries = entry_paths(&msgs);
    assert_eq!(entries, vec![ROOT.to_string()]);
}

#[test]
fn empty_pattern_includes_all_files() {
    let mut cache = Cache::new();
    let ctx = make_ctx(&mut cache);
    let mut query = make_query(ROOT);
    query.relative_pattern = Some(String::new());
    let events = sample_tree();
    let mut out = Vec::new();
    let _ = run_scan(1, &query, &mut cache, Some(&ctx), &events, None, &mut out);
    let entries = entry_paths(&out);
    assert!(entries.contains(&"/scan/root/dir_a/file1.txt".to_string()));
    assert!(entries.contains(&"/scan/root/dir_b/file2.txt".to_string()));
}

#[test]
fn glob_does_not_cross_separators() {
    let mut cache = Cache::new();
    let ctx = make_ctx(&mut cache);
    let events = vec![
        dir_event(0, ROOT, 1),
        file_event(1, "/scan/root/a.txt", 1, 2),
        file_event(1, "/scan/root/b.bin", 1, 3),
        dir_event(1, "/scan/root/sub", 4),
        file_event(2, "/scan/root/sub/c.txt", 1, 5),
    ];

    let mut query = make_query(ROOT);
    query.relative_pattern = Some("*.txt".to_string());
    let mut out = Vec::new();
    let _ = run_scan(1, &query, &mut cache, Some(&ctx), &events, None, &mut out);
    let files: Vec<String> = entry_paths(&out)
        .into_iter()
        .filter(|p| p.ends_with(".txt") || p.ends_with(".bin"))
        .collect();
    assert_eq!(files, vec!["/scan/root/a.txt".to_string()], "a bare star stays in one directory");

    let mut deep_query = make_query(ROOT);
    deep_query.relative_pattern = Some("**/*.txt".to_string());
    let mut cache2 = Cache::new();
    let ctx2 = make_ctx(&mut cache2);
    let mut out2 = Vec::new();
    let _ = run_scan(1, &deep_query, &mut cache2, Some(&ctx2), &events, None, &mut out2);
    let deep_files: Vec<String> = entry_paths(&out2)
        .into_iter()
        .filter(|p| p.ends_with(".txt"))
        .collect();
    assert!(deep_files.contains(&"/scan/root/sub/c.txt".to_string()));
}

#[test]
fn size_filter_emits_only_matching_files() {
    let mut cache = Cache::new();
    let ctx = make_ctx(&mut cache);
    let events = vec![
        dir_event(0, ROOT, 1),
        file_event(1, "/scan/root/small", 100, 2),
        file_event(1, "/scan/root/medium", 2048, 3),
        file_event(1, "/scan/root/large", 2 * 1024 * 1024, 4),
    ];
    let mut query = make_query(ROOT);
    query.size_filter = Some(SizeFilter {
        operator: SizeOperator::GreaterThan,
        bytes: 1024 * 1024,
    });
    let mut out = Vec::new();
    let _ = run_scan(1, &query, &mut cache, Some(&ctx), &events, None, &mut out);

    let mut file_entries = Vec::new();
    let mut dir_entries = Vec::new();
    for m in &out {
        if let ScanMessage::Entry { entry, .. } = m {
            if matches!(entry.kind, FileKind::File) {
                file_entries.push(entry.path.clone());
            } else {
                dir_entries.push(entry.path.clone());
            }
        }
    }
    assert_eq!(file_entries, vec!["/scan/root/large".to_string()]);
    assert_eq!(dir_entries, vec![ROOT.to_string()], "directories still walked");
}

#[test]
fn size_filter_with_no_match_emits_no_files() {
    let mut cache = Cache::new();
    let ctx = make_ctx(&mut cache);
    let events = sample_tree();
    let mut query = make_query(ROOT);
    query.size_filter = Some(SizeFilter {
        operator: SizeOperator::GreaterThan,
        bytes: 10 * 1024 * 1024,
    });
    let mut out = Vec::new();
    let stats = run_scan(1, &query, &mut cache, Some(&ctx), &events, None, &mut out);
    let has_file = out.iter().any(|m| match m {
        ScanMessage::Entry { entry, .. } => matches!(entry.kind, FileKind::File),
        _ => false,
    });
    assert!(!has_file, "no file passes the filter");
    assert_eq!(stats.dirs_scanned, 3, "directories still walked");
}

#[test]
fn deep_paths_walk_without_trouble() {
    let mut cache = Cache::new();
    let ctx = make_ctx(&mut cache);
    let mut events = vec![dir_event(0, ROOT, 1)];
    let mut path = ROOT.to_string();
    for level in 1..=40usize {
        path = format!("{path}/d{level}");
        events.push(dir_event(level, &path, level as i64));
    }
    path = format!("{path}/leaf.txt");
    events.push(file_event(41, &path, 7, 99));

    let (stats, _) = scan(1, &mut cache, &ctx, &events);
    assert_eq!(stats.dirs_scanned, 41);
    assert_eq!(stats.files_scanned, 1);
    let summary = cache
        .validate_aggregate(ctx.root_id, ".")
        .expect("deep validation");
    assert_eq!(summary.total_size, 7);
}

#[test]
fn preempted_scan_leaves_the_cache_as_it_was() {
    let mut cache = Cache::new();
    let ctx = make_ctx(&mut cache);
    let events = sample_tree();
    let (_, _) = scan(1, &mut cache, &ctx, &events);
    let before = cache.load_root(ROOT);

    let mut changed = sample_tree();
    changed[0] = dir_event(0, ROOT, 50);
    changed[1] = dir_event(1, "/scan/root/dir_a", 101);
    changed[2] = file_event(2, "/scan/root/dir_a/file1.txt", 999, 100);
    let query = make_query(ROOT);
    let mut out = Vec::new();
    let stats = run_scan(2, &query, &mut cache, Some(&ctx), &changed, Some(3), &mut out);
    assert!(stats.files_scanned <= 2, "walk stopped early");

    let after = cache.load_root(ROOT);
    assert_eq!(before.root_id, after.root_id);
    assert_eq!(before.entries.len(), after.entries.len());
    for (b, a) in before.entries.iter().zip(after.entries.iter()) {
        assert_eq!(b.path, a.path);
        assert_eq!(b.direct_size, a.direct_size);
        assert_eq!(b.aggregate_size, a.aggregate_size);
        assert_eq!(b.modified, a.modified);
    }
}

#[test]
fn per_entry_errors_are_reported_and_counted() {
    let mut cache = Cache::new();
    let ctx = make_ctx(&mut cache);
    let events = vec![
        dir_event(0, ROOT, 1),
        WalkEvent::Error {
            path: Some("/scan/root/locked".to_string()),
            message: "permission denied".to_string(),
        },
        file_event(1, "/scan/root/ok.txt", 5, 2),
    ];
    let (stats, msgs) = scan(1, &mut cache, &ctx, &events);
    assert_eq!(stats.fs_errors, 1);
    assert_eq!(stats.files_scanned, 1, "the walk continues after an error");
    let saw_error = msgs.iter().any(|m| match m {
        ScanMessage::Error { path, message, .. } => {
            path == "/scan/root/locked" && message == "permission denied"
        }
        _ => false,
    });
    assert!(saw_error);
}

#[test]
fn run_reply_is_framed_by_begin_stats_complete() {
    let mut cache = Cache::new();
    let ctx = make_ctx(&mut cache);
    let events = sample_tree();
    let query = make_query(ROOT);
    let msgs = execute_run(7, &query, &mut cache, Some(&ctx), &events, None);
    assert!(msgs.len() >= 3);
    assert!(matches!(&msgs[0], ScanMessage::Begin { job_id: 7, root } if root == ROOT));
    assert!(matches!(&msgs[msgs.len() - 2], ScanMessage::Stats { job_id: 7, .. }));
    assert!(matches!(&msgs[msgs.len() - 1], ScanMessage::Complete { job_id: 7 }));
}

#[test]
fn clear_command_reports_what_it_cleared() {
    let mut cache = Cache::new();
    let ctx = make_ctx(&mut cache);
    let events = sample_tree();
    let (_, _) = scan(1, &mut cache, &ctx, &events);

    let msgs = execute_clear(2, &mut cache, &ctx);
    assert_eq!(msgs.len(), 1);
    assert!(matches!(&msgs[0], ScanMessage::CacheCleared { job_id: 2, root, cleared: true } if root == ROOT));

    let msgs2 = execute_clear(3, &mut cache, &ctx);
    assert!(matches!(&msgs2[0], ScanMessage::CacheCleared { job_id: 3, cleared: false, .. }));
}

#[test]
fn direct_upsert_of_wrong_aggregate_is_caught_after_rescan() {
    let mut cache = Cache::new();
    let ctx = make_ctx(&mut cache);
    let events = sample_tree();
    let (_, _) = scan(1, &mut cache, &ctx, &events);

    let mut session = cache.begin_scan(ctx.root_id);
    session.upsert_entry(".", None, FileKind::Directory, 0, 999, None, None);
    session.upsert_entry("dir_a", Some("."), FileKind::Directory, 0, 10, Some(2), None);
    session.upsert_entry("dir_a/file1.txt", Some("dir_a"), FileKind::File, 10, 10, Some(3), None);
    session.upsert_entry("dir_b", Some("."), FileKind::Directory, 0, 10, Some(4), None);
    session.upsert_entry("dir_b/file2.txt", Some("dir_b"), FileKind::File, 10, 10, Some(5), None);
    session.finish(&mut cache);

    match cache.validate_aggregate(ctx.root_id, ".") {
        Err(disk_space_inspect::cache::CacheValidationError::AggregateMismatch {
            path,
            expected,
            cached,
        }) => {
            assert_eq!(path, ".");
            assert_eq!(expected, 20);
            assert_eq!(cached, 999);
        }
        other => panic!("expected a mismatch at the root, got {other:?}"),
    }
}

#[test]
fn scan_without_cache_context_never_touches_the_cache() {
    let mut cache = Cache::new();
    let before = cache.load_root(ROOT);
    let query = make_query(ROOT);
    let events = sample_tree();
    let mut out = Vec::new();
    let stats = run_scan(1, &query, &mut cache, None, &events, None, &mut out);
    assert_eq!(stats.files_scanned, 2);
    let after = cache.load_root(ROOT);
    assert_eq!(before.entries.len(), after.entries.len());
}
