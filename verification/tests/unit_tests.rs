use disk_space_inspect::fs::{FileEntry, FileKind};
use disk_space_inspect::paths::parent_relative;
use disk_space_inspect::query::{
    SearchQuery, SizeFilter, SizeOperator, is_comparison_prefix, parse_size_filter,
    parse_size_filter_parts, parse_size_value,
};
use disk_space_inspect::tree::{SizeCache, TreeStore};
use disk_space_inspect::ui::compare_paths;
use disk_space_inspect::watcher::{
    FsEventKind, WatchEventKind, WatcherConfig, map_event_kind, next_poll_interval,
};

fn entry(path: &str, kind: FileKind, size: u64) -> FileEntry {
    let name = path.rsplit('/').next().unwrap_or(path).to_string();
    FileEntry::new(path.to_string(), name, kind, size, Some(1), Some(1))
}

#[test]
fn size_filter_compares_exactly() {
    let gt = SizeFilter { operator: SizeOperator::GreaterThan, bytes: 100 };
    assert!(gt.matches(101));
    assert!(!gt.matches(100));
    let ge = SizeFilter { operator: SizeOperator::GreaterThanOrEqual, bytes: 100 };
    assert!(ge.matches(100));
    assert!(!ge.matches(99));
    let lt = SizeFilter { operator: SizeOperator::LessThan, bytes: 100 };
    assert!(lt.matches(99));
    assert!(!lt.matches(100));
    let le = SizeFilter { operator: SizeOperator::LessThanOrEqual, bytes: 100 };
    assert!(le.matches(100));
    assert!(!le.matches(101));
}

#[test]
fn size_values_scale_by_binary_units() {
    assert_eq!(parse_size_value("500"), Some(500));
    assert_eq!(parse_size_value("500b"), Some(500));
    assert_eq!(parse_size_value("500MB"), Some(500 * 1024 * 1024));
    assert_eq!(parse_size_value("2kib"), Some(2048));
    assert_eq!(parse_size_value("1.5KB"), Some(1536));
    assert_eq!(parse_size_value("0.5gb"), Some(512 * 1024 * 1024));
    assert_eq!(parse_size_value("1tb"), Some(1024u64 * 1024 * 1024 * 1024));
    assert_eq!(parse_size_value(" 10 kb "), Some(10240));
}

#[test]
fn malformed_size_values_are_rejected() {
    assert_eq!(parse_size_value(""), None);
    assert_eq!(parse_size_value("   "), None);
    assert_eq!(parse_size_value("kb"), None);
    assert_eq!(parse_size_value("1.2.3"), None);
    assert_eq!(parse_size_value("10xb"), None);
    assert_eq!(parse_size_value("."), None);
}

#[test]
fn comparison_prefixes_are_recognised() {
    assert!(is_comparison_prefix(">"));
    assert!(is_comparison_prefix("<"));
    assert!(is_comparison_prefix(">="));
    assert!(is_comparison_prefix("<="));
    assert!(!is_comparison_prefix("="));
    assert!(!is_comparison_prefix(">>"));
    assert!(!is_comparison_prefix("500"));
}

#[test]
fn size_filters_parse_with_leading_operator() {
    let f = parse_size_filter(">1.5KB").expect("filter");
    assert!(matches!(f.operator, SizeOperator::GreaterThan));
    assert_eq!(f.bytes, 1536);

    let f = parse_size_filter("<=2mb").expect("filter");
    assert!(matches!(f.operator, SizeOperator::LessThanOrEqual));
    assert_eq!(f.bytes, 2 * 1024 * 1024);

    assert!(parse_size_filter(">").is_none());
    assert!(parse_size_filter("=5kb").is_none());
}

#[test]
fn size_filters_parse_from_split_tokens() {
    let f = parse_size_filter_parts(">=", "2kib").expect("filter");
    assert!(matches!(f.operator, SizeOperator::GreaterThanOrEqual));
    assert_eq!(f.bytes, 2048);
    assert!(parse_size_filter_parts("~", "2kib").is_none());
    assert!(parse_size_filter_parts(">", "junk").is_none());
}

#[test]
fn default_query_is_empty_over_the_current_directory() {
    let q = SearchQuery::default();
    assert_eq!(q.raw, "");
    assert_eq!(q.root, ".");
    assert!(q.relative_pattern.is_none());
    assert!(q.size_filter.is_none());
}

#[test]
fn parent_relative_walks_toward_the_root() {
    assert_eq!(parent_relative("dir/sub/file.txt"), Some("dir/sub".to_string()));
    assert_eq!(parent_relative("dir/sub"), Some("dir".to_string()));
    assert_eq!(parent_relative("dir"), Some(".".to_string()));
    assert_eq!(parent_relative("."), None);
    assert_eq!(parent_relative(""), None);
}

#[test]
fn tree_upsert_links_children_and_taints_ancestors() {
    let mut tree = TreeStore::new();
    tree.upsert(entry("/r", FileKind::Directory, 0));
    tree.upsert(entry("/r/a", FileKind::Directory, 0));
    tree.upsert(entry("/r/a/f.txt", FileKind::File, 5));

    let root = tree.get("/r").expect("root node");
    assert!(root.contains_match, "ancestor of a file is tainted");
    let a = tree.get("/r/a").expect("dir node");
    assert!(a.contains_match);
    assert_eq!(tree.children("/r"), vec!["/r/a".to_string()]);
    assert_eq!(tree.children("/r/a"), vec!["/r/a/f.txt".to_string()]);

    let mut tree2 = TreeStore::new();
    tree2.upsert(entry("/r", FileKind::Directory, 0));
    tree2.upsert(entry("/r/a", FileKind::Directory, 0));
    assert!(!tree2.get("/r").unwrap().contains_match, "directories alone taint nothing");
}

#[test]
fn tree_aggregates_sum_children_with_memo() {
    let mut tree = TreeStore::new();
    tree.upsert(entry("/r", FileKind::Directory, 0));
    tree.upsert(entry("/r/a", FileKind::Directory, 0));
    tree.upsert(entry("/r/a/f1", FileKind::File, 10));
    tree.upsert(entry("/r/a/f2", FileKind::File, 32));
    tree.upsert(entry("/r/g", FileKind::File, 100));

    let mut memo = SizeCache::new();
    assert_eq!(tree.aggregated_size_with_cache("/r", &mut memo), 142);
    assert_eq!(tree.aggregated_size_with_cache("/r/a", &mut memo), 42);
    assert_eq!(tree.aggregated_size_with_cache("/r/a/f1", &mut memo), 10);
    assert_eq!(tree.aggregated_size_with_cache("/missing", &mut memo), 0);
}

#[test]
fn tree_clear_forgets_everything() {
    let mut tree = TreeStore::new();
    tree.upsert(entry("/r", FileKind::Directory, 0));
    tree.clear();
    assert!(tree.get("/r").is_none());
    assert!(tree.children("/r").is_empty());
}

#[test]
fn compare_paths_folds_case_and_puts_directories_first() {
    let mut tree = TreeStore::new();
    tree.upsert(entry("/r", FileKind::Directory, 0));
    tree.upsert(entry("/r/Beta", FileKind::File, 1));
    tree.upsert(entry("/r/alpha", FileKind::File, 1));
    tree.upsert(entry("/r/zdir", FileKind::Directory, 0));

    // case folding: "Beta" sorts after "alpha" despite its capital letter
    assert_eq!(
        compare_paths(&tree, "/r/Beta", "/r/alpha"),
        std::cmp::Ordering::Greater
    );
    // directories come before files regardless of name
    assert_eq!(
        compare_paths(&tree, "/r/zdir", "/r/alpha"),
        std::cmp::Ordering::Less
    );
    // unknown paths fall back to the path strings themselves
    assert_eq!(
        compare_paths(&tree, "/x/1", "/x/2"),
        std::cmp::Ordering::Less
    );
}

#[test]
fn watch_events_carry_their_kind() {
    let d = disk_space_inspect::watcher::WatchEvent::dirty("/r/file".to_string());
    assert_eq!(d.path, "/r/file");
    assert!(matches!(d.kind, WatchEventKind::Dirty));
    let r = disk_space_inspect::watcher::WatchEvent::rescan("/r".to_string());
    assert!(matches!(r.kind, WatchEventKind::Rescan));
    let e = disk_space_inspect::watcher::WatchEvent::error("/r".to_string(), "boom".to_string());
    match e.kind {
        WatchEventKind::Error(m) => assert_eq!(m, "boom"),
        _ => panic!("expected an error event"),
    }
}

#[test]
fn native_events_map_to_dirty_or_rescan() {
    let root = "/r";
    for kind in [FsEventKind::Create, FsEventKind::Modify, FsEventKind::Remove] {
        let ev = map_event_kind(kind, "/r/x".to_string(), root).expect("mapped");
        assert_eq!(ev.path, "/r/x");
        assert!(matches!(ev.kind, WatchEventKind::Dirty));
    }
    assert!(map_event_kind(FsEventKind::Access, "/r/x".to_string(), root).is_none());
    for kind in [FsEventKind::Other, FsEventKind::Any] {
        let ev = map_event_kind(kind, "/r/x".to_string(), root).expect("mapped");
        assert_eq!(ev.path, "/r");
        assert!(matches!(ev.kind, WatchEventKind::Rescan));
    }
}

#[test]
fn polling_interval_doubles_up_to_the_cap() {
    let config = WatcherConfig::default();
    let mut interval = config.fallback_initial;
    assert_eq!(interval, 5000);
    interval = next_poll_interval(interval, config.fallback_max);
    assert_eq!(interval, 10000);
    interval = next_poll_interval(interval, config.fallback_max);
    assert_eq!(interval, 20000);
    interval = next_poll_interval(interval, config.fallback_max);
    assert_eq!(interval, 40000);
    interval = next_poll_interval(interval, config.fallback_max);
    assert_eq!(interval, 60000);
    interval = next_poll_interval(interval, config.fallback_max);
    assert_eq!(interval, 60000, "the interval never grows past the cap");
}
