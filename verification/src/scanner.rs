//! The incremental scanner: a depth-first walk over a stream of filesystem
//! events that emits matching entries, maintains per-directory aggregate
//! accounting on a frame stack, updates the cache through a buffered
//! session, and replays cached subtrees for unchanged directories.

use vstd::prelude::*;
use vstd::string::StrSliceExecFns;

use crate::cache::{
    Cache, CacheValidationError, EntryRow, ScanSession, has_row, row_index_of, row_of,
};
use crate::fs::{FileEntry, FileKind};
use crate::paths::str_eq;
use crate::query::{SearchQuery, SizeFilter, size_filter_matches};

verus! {

/// What a compiled glob pattern answers for a path. The answer depends on
/// the pattern and the path alone.
pub uninterp spec fn glob_match(pattern: Seq<char>, path: Seq<char>) -> bool;

/// Whether a glob pattern compiles. The answer depends on the pattern alone.
pub uninterp spec fn glob_compiles(pattern: Seq<char>) -> bool;

/// The match-everything pattern substituted for an empty one.
pub open spec fn star_star() -> Seq<char> {
    seq!['*', '*']
}

/// A compiled glob, remembering the pattern it was built from. `/` is a
/// literal separator: `*` does not cross directory boundaries, `**` does.
pub struct GlobMatcher {
    pub(crate) set: globset::GlobSet,
    pub(crate) pattern: String,
}

#[verifier::external_type_specification]
#[verifier::external_body]
pub struct ExGlobSet(globset::GlobSet);

/// Relies on globset's `GlobBuilder::build` (with `literal_separator`) and
/// `GlobSetBuilder::build`: whether a pattern compiles depends on the
/// pattern alone.
#[verifier::external_body]
fn compile_glob_set(pattern: &str) -> (r: Option<GlobMatcher>)
    ensures
        match r {
            Some(m) => m.pattern@ == pattern@ && glob_compiles(pattern@),
            None => !glob_compiles(pattern@),
        },
{
    let glob = match globset::GlobBuilder::new(pattern).literal_separator(true).build() {
        Ok(g) => g,
        Err(_) => return None,
    };
    let mut builder = globset::GlobSetBuilder::new();
    builder.add(glob);
    match builder.build() {
        Ok(set) => Some(GlobMatcher { set, pattern: pattern.to_string() }),
        Err(_) => None,
    }
}

/// Relies on `GlobSet::is_match`, with `/` as the literal separator and the
/// build platform's escaping convention taken as fixed: the answer depends
/// on the pattern and the path alone. The sole pattern `**` compiles to a
/// match-everything pattern, as globset's own tests show.
#[verifier::external_body]
fn glob_is_match(m: &GlobMatcher, path: &str) -> (r: bool)
    ensures
        r == glob_match(m.pattern@, path@),
        m.pattern@ == star_star() ==> r,
{
    m.set.is_match(path)
}

/// The pattern a matcher is built from: an empty pattern means everything.
pub open spec fn effective_pattern(p: Seq<char>) -> Seq<char> {
    if p.len() == 0 {
        star_star()
    } else {
        p
    }
}

/// The matcher handed to the walk agrees with the query's pattern: compiled
/// from the effective pattern when that compiles, absent otherwise.
pub(crate) open spec fn matcher_for(m: Option<GlobMatcher>, rp: Option<Seq<char>>) -> bool {
    match (m, rp) {
        (Option::None, Option::None) => true,
        (Option::Some(ma), Option::Some(p)) => ma.pattern@ == effective_pattern(p)
            && glob_compiles(effective_pattern(p)),
        (Option::None, Option::Some(p)) => !glob_compiles(effective_pattern(p)),
        (Option::Some(_), Option::None) => false,
    }
}

/// Compile the query's pattern, treating an empty pattern as
/// match-everything; a pattern that does not compile yields no matcher.
pub(crate) fn compile_matcher(pattern: Option<&String>) -> (r: Option<GlobMatcher>)
    ensures
        matcher_for(
            r,
            match pattern {
                Some(p) => Some(p@),
                None => None,
            },
        ),
{
    match pattern {
        None => None,
        Some(p) => {
            if p.as_str().is_empty() {
                proof {
                    reveal_strlit("**");
                    assert("**"@ =~= star_star());
                }
                compile_glob_set("**")
            } else {
                compile_glob_set(p.as_str())
            }
        },
    }
}

/// `path` stripped of the prefix `root` and its separator: the empty path
/// for `root` itself, `None` when `path` does not lie under `root`.
pub open spec fn strip_prefix_spec(root: Seq<char>, path: Seq<char>) -> Option<Seq<char>> {
    if path == root {
        Some(Seq::empty())
    } else if path.len() > root.len() && path.subrange(0, root.len() as int) == root && path[root.len() as int]
        == '/' {
        Some(path.subrange(root.len() as int + 1, path.len() as int))
    } else {
        None
    }
}

/// Strip `root` (and the following separator) off the front of `path`.
pub fn strip_prefix(root: &str, path: &str) -> (r: Option<String>)
    ensures
        match r {
            Some(s) => strip_prefix_spec(root@, path@) == Some(s@),
            None => strip_prefix_spec(root@, path@) is None,
        },
{
    let rlen = root.unicode_len();
    let plen = path.unicode_len();
    if str_eq(root, path) {
        return Some(String::new());
    }
    if plen <= rlen {
        return None;
    }
    let head = path.substring_char(0, rlen);
    if !str_eq(head, root) {
        return None;
    }
    if path.get_char(rlen) != '/' {
        return None;
    }
    let tail = path.substring_char(rlen + 1, plen);
    Some(tail.to_owned())
}

/// The walk's relative form of `path` under `root`: `.` for the root itself
/// and for paths outside it.
pub open spec fn relative_path_spec(root: Seq<char>, path: Seq<char>) -> Seq<char> {
    match strip_prefix_spec(root, path) {
        Some(rel) => if rel.len() == 0 {
            crate::paths::dot()
        } else {
            rel
        },
        None => crate::paths::dot(),
    }
}

/// The root-relative path of `path`, per `relative_path_spec`.
pub fn relative_path(root: &str, path: &str) -> (r: String)
    ensures
        r@ == relative_path_spec(root@, path@),
{
    match strip_prefix(root, path) {
        None => crate::paths::dot_string(),
        Some(rel) => {
            if rel.as_str().is_empty() {
                crate::paths::dot_string()
            } else {
                rel
            }
        },
    }
}

/// Join a relative path back under `root`; `.` and the empty path give
/// `root` itself.
pub open spec fn absolute_from_relative_spec(root: Seq<char>, relative: Seq<char>) -> Seq<char> {
    if relative.len() == 0 || relative == crate::paths::dot() {
        root
    } else {
        root + seq!['/'] + relative
    }
}

pub fn absolute_from_relative(root: &str, relative: &str) -> (r: String)
    ensures
        r@ == absolute_from_relative_spec(root@, relative@),
{
    if relative.is_empty() || crate::paths::is_dot(relative) {
        return root.to_owned();
    }
    let mut s = root.to_owned();
    proof {
        reveal_strlit("/");
    }
    s.append("/");
    proof {
        assert("/"@ =~= seq!['/']);
    }
    s.append(relative);
    s
}

/// The inclusion rule of the walk: directories always pass; a file passes
/// its size filter and, when a pattern is present and compiles, matches it
/// on the absolute path or on the path relative to the scan root.
pub open spec fn included_spec(
    path: Seq<char>,
    kind: FileKind,
    direct_size: u64,
    rp: Option<Seq<char>>,
    root: Seq<char>,
    filter: Option<SizeFilter>,
) -> bool {
    kind == FileKind::Directory || ({
        &&& match filter {
            Some(f) => size_filter_matches(f.operator, f.bytes, direct_size),
            None => true,
        }
        &&& match rp {
            None => true,
            Some(p0) => {
                let p = effective_pattern(p0);
                if glob_compiles(p) {
                    glob_match(p, path) || (match strip_prefix_spec(root, path) {
                        Some(rel) => rel.len() > 0 && glob_match(p, rel),
                        None => false,
                    })
                } else {
                    true
                }
            },
        }
    })
}

/// Decide inclusion for one walked entry, per `included_spec`.
pub(crate) fn should_include(
    path: &str,
    kind: FileKind,
    direct_size: u64,
    matcher: Option<&GlobMatcher>,
    root: &str,
    size_filter: Option<&SizeFilter>,
    Ghost(rp): Ghost<Option<Seq<char>>>,
) -> (r: bool)
    requires
        matcher_for(
            match matcher {
                Some(m) => Some(*m),
                None => None,
            },
            rp,
        ),
    ensures
        r == included_spec(
            path@,
            kind,
            direct_size,
            rp,
            root@,
            match size_filter {
                Some(f) => Some(*f),
                None => None,
            },
        ),
{
    if matches!(kind, FileKind::Directory) {
        return true;
    }
    if let Some(filter) = size_filter {
        if !filter.matches(direct_size) {
            return false;
        }
    }
    match matcher {
        None => true,
        Some(m) => {
            if glob_is_match(m, path) {
                return true;
            }
            match strip_prefix(root, path) {
                None => false,
                Some(rel) => !rel.as_str().is_empty() && glob_is_match(m, rel.as_str()),
            }
        },
    }
}

} // verus!

verus! {

/// Where the cache for a scan lives: the resolved root id and the canonical
/// absolute path of the scanned root.
#[derive(Debug, Clone)]
pub struct CacheContext {
    pub root_id: i64,
    pub canonical_root: String,
}

/// Counters reported at the end of a scan.
#[derive(Debug, Default, Clone, Copy)]
pub struct ScanStats {
    pub files_scanned: u64,
    pub dirs_scanned: u64,
    pub cached_dirs: u64,
    pub cached_entries: u64,
    pub cached_bytes: u64,
    pub fs_errors: u64,
    pub cache_validation_errors: u64,
}

/// The scanner-transient accumulator for one open directory.
#[derive(Debug, Clone)]
pub struct DirectoryFrame {
    pub relative: String,
    pub parent: Option<String>,
    pub direct_size: u64,
    pub aggregate_size: u64,
    pub modified: Option<i64>,
    pub created: Option<i64>,
}

/// Counts gathered while replaying a cached subtree.
#[derive(Debug, Default, Clone, Copy)]
pub struct EmitStats {
    pub aggregate_size: u64,
    pub entries: usize,
    pub directories: usize,
    pub files: usize,
}

/// What kind of object one walk event describes.
#[derive(Debug, Clone, Copy, PartialEq, Eq, Structural)]
pub enum WalkKind {
    File,
    Directory,
    Other,
}

/// One event of a depth-first filesystem walk, as the walking driver hands
/// them to the scanner: an entry with its depth, absolute path, kind, size
/// and timestamps, or a per-entry error.
#[derive(Debug, Clone)]
pub enum WalkEvent {
    Entry {
        depth: usize,
        path: String,
        kind: WalkKind,
        size: u64,
        modified: Option<i64>,
        created: Option<i64>,
    },
    Error { path: Option<String>, message: String },
}

/// A command for the scanner worker.
pub enum ScanCommand {
    Run { job_id: u64, query: SearchQuery, cache: Option<CacheContext> },
    ClearCache { job_id: u64, ctx: CacheContext },
}

/// One message of the scan result stream.
#[derive(Debug)]
pub enum ScanMessage {
    Begin { job_id: u64, root: String },
    Entry { job_id: u64, entry: FileEntry },
    Error { job_id: u64, path: String, message: String },
    Stats { job_id: u64, stats: ScanStats },
    CacheCleared { job_id: u64, root: String, cleared: bool },
    Complete { job_id: u64 },
}

/// `u64` addition pinned at the top of the range (spec twin of
/// `saturating_add`).
pub open spec fn sat_u64(a: u64, b: u64) -> u64 {
    if a + b > u64::MAX {
        u64::MAX
    } else {
        (a + b) as u64
    }
}

/// A message the walk itself may append to the stream: an entry that passes
/// the query's inclusion rule, or a per-path error, both under this job.
pub open spec fn stream_msg_ok(
    m: ScanMessage,
    job_id: u64,
    rp: Option<Seq<char>>,
    root: Seq<char>,
    filter: Option<SizeFilter>,
) -> bool {
    match m {
        ScanMessage::Entry { job_id: j, entry } => j == job_id && included_spec(
            entry.path@,
            entry.kind,
            entry.direct_size,
            rp,
            root,
            filter,
        ),
        ScanMessage::Error { job_id: j, .. } => j == job_id,
        _ => false,
    }
}

/// A session row copied verbatim from a cached row: same key, parent,
/// kind, sizes and timestamps; the session stamps it as seen and clears
/// the dirty bit.
pub open spec fn refreshed_from(rows: Seq<EntryRow>, p: EntryRow, scan_ts: i64) -> bool {
    &&& has_row(rows, p.data.path@)
    &&& ({
        let c = row_of(rows, p.data.path@).data;
        &&& (match (c.parent, p.data.parent) {
            (Option::None, Option::None) => true,
            (Option::Some(x), Option::Some(y)) => y@ == x@,
            _ => false,
        })
        &&& p.data.kind == c.kind
        &&& p.data.direct_size == c.direct_size
        &&& p.data.aggregate_size == c.aggregate_size
        &&& p.data.modified == c.modified
        &&& p.data.created == c.created
        &&& p.data.flags == 0
        &&& p.last_seen == scan_ts
    })
}

/// The view of an optional borrowed filter.
pub open spec fn filter_view(f: Option<&SizeFilter>) -> Option<SizeFilter> {
    match f {
        Some(x) => Some(*x),
        None => None,
    }
}


/// The view of one emitted entry message.
pub struct EntryView {
    pub path: Seq<char>,
    pub name: Seq<char>,
    pub kind: FileKind,
    pub direct_size: u64,
    pub modified: Option<i64>,
    pub created: Option<i64>,
}

/// `m` is the entry message of job `job_id` carrying exactly the view `v`.
pub open spec fn entry_view_matches(m: ScanMessage, job_id: u64, v: EntryView) -> bool {
    match m {
        ScanMessage::Entry { job_id: j, entry } => j == job_id && entry.path@ == v.path
            && entry.file_name@ == v.name && entry.kind == v.kind && entry.direct_size
            == v.direct_size && entry.modified == v.modified && entry.created == v.created,
        _ => false,
    }
}

/// Everything one replay produces: its result, the views of the entry
/// messages it emits in order, and the relative paths of the rows it
/// refreshes in the session, in order.
pub struct ReplayOutcome {
    pub result: Result<EmitStats, crate::cache::ValidationErrorModel>,
    pub emitted: Seq<EntryView>,
    pub refreshed: Seq<Seq<char>>,
}

/// The children's contributions while a replay folds over them, stopping
/// at the first failure.
pub struct ReplayFold {
    pub stats: EmitStats,
    pub emitted: Seq<EntryView>,
    pub refreshed: Seq<Seq<char>>,
    pub failed: Option<crate::cache::ValidationErrorModel>,
}

/// What replaying the cached subtree at `rel` produces, exactly: the head
/// entry is emitted when it passes the inclusion rule and always refreshed
/// in the session; a directory then folds over its stored children in
/// storage order, and its stored aggregate must equal its direct size plus
/// the children's aggregates (saturating); a file's aggregate must equal
/// its direct size. `fuel` bounds the depth.
pub open spec fn replay_spec(
    rows: Seq<EntryRow>,
    root: Seq<char>,
    rel: Seq<char>,
    rp: Option<Seq<char>>,
    filter: Option<SizeFilter>,
    fuel: nat,
) -> ReplayOutcome
    decreases fuel, 0int,
{
    if fuel == 0 {
        ReplayOutcome {
            result: Err(crate::cache::ValidationErrorModel::DepthExceeded(rel)),
            emitted: Seq::empty(),
            refreshed: Seq::empty(),
        }
    } else {
        let k = row_index_of(rows, rel);
        if k < 0 {
            ReplayOutcome {
                result: Err(crate::cache::ValidationErrorModel::MissingEntry(rel)),
                emitted: Seq::empty(),
                refreshed: Seq::empty(),
            }
        } else {
            let e = rows[k].data;
            let abs = absolute_from_relative_spec(root, e.path@);
            let inc = included_spec(abs, e.kind, e.direct_size, rp, root, filter);
            let head_emitted: Seq<EntryView> = if inc {
                seq![
                    EntryView {
                        path: abs,
                        name: base_name_spec(abs),
                        kind: e.kind,
                        direct_size: e.direct_size,
                        modified: e.modified,
                        created: e.created,
                    },
                ]
            } else {
                Seq::empty()
            };
            let head_refreshed: Seq<Seq<char>> = seq![e.path@];
            if e.kind == FileKind::Directory {
                let popt = if e.path@.len() == 0 {
                    None::<Seq<char>>
                } else {
                    Some(e.path@)
                };
                let children = crate::cache::children_of_spec(rows, popt);
                let fo = replay_children_spec(
                    rows,
                    root,
                    children,
                    children.len() as int,
                    rp,
                    filter,
                    (fuel - 1) as nat,
                );
                let emitted = head_emitted + fo.emitted;
                let refreshed = head_refreshed + fo.refreshed;
                match fo.failed {
                    Some(er) => ReplayOutcome { result: Err(er), emitted, refreshed },
                    None => {
                        let computed = sat_u64(e.direct_size, fo.stats.aggregate_size);
                        if computed != e.aggregate_size {
                            ReplayOutcome {
                                result: Err(
                                    crate::cache::ValidationErrorModel::AggregateMismatch {
                                        path: e.path@,
                                        expected: computed,
                                        cached: e.aggregate_size,
                                    },
                                ),
                                emitted,
                                refreshed,
                            }
                        } else {
                            ReplayOutcome {
                                result: Ok(
                                    EmitStats {
                                        aggregate_size: e.aggregate_size,
                                        entries: crate::cache::sat_add_usize(
                                            fo.stats.entries,
                                            1,
                                        ),
                                        directories: crate::cache::sat_add_usize(
                                            fo.stats.directories,
                                            1,
                                        ),
                                        files: fo.stats.files,
                                    },
                                ),
                                emitted,
                                refreshed,
                            }
                        }
                    },
                }
            } else {
                if e.direct_size != e.aggregate_size {
                    ReplayOutcome {
                        result: Err(
                            crate::cache::ValidationErrorModel::AggregateMismatch {
                                path: e.path@,
                                expected: e.direct_size,
                                cached: e.aggregate_size,
                            },
                        ),
                        emitted: head_emitted,
                        refreshed: head_refreshed,
                    }
                } else {
                    ReplayOutcome {
                        result: Ok(
                            EmitStats {
                                aggregate_size: e.aggregate_size,
                                entries: 1,
                                directories: 0,
                                files: 1,
                            },
                        ),
                        emitted: head_emitted,
                        refreshed: head_refreshed,
                    }
                }
            }
        }
    }
}

/// Fold the replays of the first `j` children, left to right; once one
/// fails, the fold stops changing.
pub open spec fn replay_children_spec(
    rows: Seq<EntryRow>,
    root: Seq<char>,
    children: Seq<crate::cache::CachedEntry>,
    j: int,
    rp: Option<Seq<char>>,
    filter: Option<SizeFilter>,
    fuel: nat,
) -> ReplayFold
    decreases fuel, j + 1,
{
    if j <= 0 {
        ReplayFold {
            stats: EmitStats { aggregate_size: 0, entries: 0, directories: 0, files: 0 },
            emitted: Seq::empty(),
            refreshed: Seq::empty(),
            failed: None,
        }
    } else {
        let pre = replay_children_spec(rows, root, children, j - 1, rp, filter, fuel);
        if pre.failed is Some {
            pre
        } else {
            let co = replay_spec(rows, root, children[j - 1].path@, rp, filter, fuel);
            let emitted = pre.emitted + co.emitted;
            let refreshed = pre.refreshed + co.refreshed;
            match co.result {
                Err(er) => ReplayFold {
                    stats: pre.stats,
                    emitted,
                    refreshed,
                    failed: Some(er),
                },
                Ok(st) => ReplayFold {
                    stats: EmitStats {
                        aggregate_size: sat_u64(pre.stats.aggregate_size, st.aggregate_size),
                        entries: crate::cache::sat_add_usize(pre.stats.entries, st.entries),
                        directories: crate::cache::sat_add_usize(
                            pre.stats.directories,
                            st.directories,
                        ),
                        files: crate::cache::sat_add_usize(pre.stats.files, st.files),
                    },
                    emitted,
                    refreshed,
                    failed: None,
                },
            }
        }
    }
}

/// Once a child fails, longer folds return the same outcome.
pub proof fn lemma_replay_fold_failed(
    rows: Seq<EntryRow>,
    root: Seq<char>,
    children: Seq<crate::cache::CachedEntry>,
    j1: int,
    j2: int,
    rp: Option<Seq<char>>,
    filter: Option<SizeFilter>,
    fuel: nat,
)
    requires
        0 <= j1 <= j2,
        replay_children_spec(rows, root, children, j1, rp, filter, fuel).failed is Some,
    ensures
        replay_children_spec(rows, root, children, j2, rp, filter, fuel)
            == replay_children_spec(rows, root, children, j1, rp, filter, fuel),
    decreases j2 - j1,
{
    if j2 > j1 {
        lemma_replay_fold_failed(rows, root, children, j1, j2 - 1, rp, filter, fuel);
    }
}

/// Close one directory frame: record its total (direct size plus the
/// aggregate gathered from its children) in the session, and credit the
/// total to the frame below it on the stack.
pub fn finalize_directory(
    frame: DirectoryFrame,
    stack: &mut Vec<DirectoryFrame>,
    session: &mut ScanSession,
    use_cache: bool,
)
    requires
        old(session).wf(),
    ensures
        final(session).wf(),
        final(session).root_id == old(session).root_id,
        final(session).scan_ts == old(session).scan_ts,
        ({
            let total = sat_u64(frame.aggregate_size, frame.direct_size);
            &&& (if use_cache {
                &&& final(session).pending@.len() == old(session).pending@.len() + 1
                &&& final(session).pending@.drop_last() == old(session).pending@
                &&& ({
                    let nr = final(session).pending@.last();
                    &&& nr.data.path@ == frame.relative@
                    &&& nr.data.kind == FileKind::Directory
                    &&& nr.data.direct_size == frame.direct_size
                    &&& nr.data.aggregate_size == total
                    &&& nr.data.flags == 0
                    &&& nr.last_seen == old(session).scan_ts
                    &&& (match (frame.parent, nr.data.parent) {
                        (Option::None, Option::None) => true,
                        (Option::Some(p), Option::Some(q)) => q@ == p@,
                        _ => false,
                    })
                })
            } else {
                final(session).pending@ == old(session).pending@
            })
            &&& final(stack)@.len() == old(stack)@.len()
            &&& (forall|i: int|
                0 <= i < old(stack)@.len() - 1 ==> final(stack)@[i] == old(stack)@[i])
            &&& (old(stack)@.len() > 0 ==> ({
                let lf = final(stack)@.last();
                let lo = old(stack)@.last();
                &&& lf.relative == lo.relative
                &&& lf.parent == lo.parent
                &&& lf.direct_size == lo.direct_size
                &&& lf.modified == lo.modified
                &&& lf.created == lo.created
                &&& lf.aggregate_size == sat_u64(lo.aggregate_size, total)
            }))
        }),
{
    let total = frame.aggregate_size.saturating_add(frame.direct_size);
    if use_cache {
        let parent_ref = match &frame.parent {
            None => None,
            Some(p) => Some(p.as_str()),
        };
        session.upsert_entry(
            frame.relative.as_str(),
            parent_ref,
            FileKind::Directory,
            frame.direct_size,
            total,
            frame.modified,
            frame.created,
        );
    }
    let n = stack.len();
    if n > 0 {
        let below = &mut stack[n - 1];
        below.aggregate_size = below.aggregate_size.saturating_add(total);
    }
}

/// Replay one cached subtree without touching the disk, per `replay_spec`:
/// emit each cached entry that passes the inclusion rule, refresh every
/// replayed row in the session (so `finish` keeps it), and re-derive the
/// subtree total, which must equal the stored aggregate. `fuel` bounds the
/// recursion depth; a parent cycle in the stored rows is reported as
/// `DepthExceeded`.
#[verifier::rlimit(60)]
pub(crate) fn emit_cached_subtree(
    job_id: u64,
    cache: &Cache,
    root_id: i64,
    canonical_root: &str,
    relative: &str,
    session: &mut ScanSession,
    matcher: Option<&GlobMatcher>,
    size_filter: Option<&SizeFilter>,
    out: &mut Vec<ScanMessage>,
    fuel: u64,
    Ghost(rp): Ghost<Option<Seq<char>>>,
) -> (r: Result<EmitStats, CacheValidationError>)
    requires
        old(session).wf(),
        matcher_for(
            match matcher {
                Some(m) => Some(*m),
                None => None,
            },
            rp,
        ),
    ensures
        final(session).wf(),
        final(session).root_id == old(session).root_id,
        final(session).scan_ts == old(session).scan_ts,
        old(session).pending@.is_prefix_of(final(session).pending@),
        forall|i: int|
            old(session).pending@.len() <= i < final(session).pending@.len() ==> refreshed_from(
                cache.rows_of(root_id),
                #[trigger] final(session).pending@[i],
                old(session).scan_ts,
            ),
        old(out)@.is_prefix_of(final(out)@),
        forall|i: int|
            old(out)@.len() <= i < final(out)@.len() ==> stream_msg_ok(
                #[trigger] final(out)@[i],
                job_id,
                rp,
                canonical_root@,
                filter_view(size_filter),
            ),
        crate::cache::root_index_of(cache.roots@, root_id) >= 0 ==> ({
            let o = replay_spec(
                cache.rows_of(root_id),
                canonical_root@,
                relative@,
                rp,
                filter_view(size_filter),
                fuel as nat,
            );
            &&& (match r {
                Ok(st) => o.result == Ok::<EmitStats, crate::cache::ValidationErrorModel>(st),
                Err(e) => o.result == Err::<EmitStats, crate::cache::ValidationErrorModel>(
                    crate::cache::err_view(e),
                ),
            })
            &&& final(out)@.len() == old(out)@.len() + o.emitted.len()
            &&& (forall|i: int|
                0 <= i < o.emitted.len() ==> entry_view_matches(
                    #[trigger] final(out)@[old(out)@.len() + i],
                    job_id,
                    o.emitted[i],
                ))
            &&& final(session).pending@.len() == old(session).pending@.len()
                + o.refreshed.len()
            &&& (forall|i: int|
                0 <= i < o.refreshed.len() ==> (#[trigger] final(session).pending@[old(
                    session,
                ).pending@.len() + i]).data.path@ == o.refreshed[i])
        }),
        crate::cache::root_index_of(cache.roots@, root_id) < 0 ==> (final(out)@ == old(out)@
            && final(session).pending@ == old(session).pending@ && (match r {
            Err(e) => crate::cache::err_view(e)
                == crate::cache::ValidationErrorModel::DepthExceeded(relative@)
                || crate::cache::err_view(e)
                == crate::cache::ValidationErrorModel::MissingEntry(relative@),
            Ok(_) => false,
        })),
    decreases fuel,
{
    let ghost rows = cache.rows_of(root_id);
    let ghost filt = filter_view(size_filter);
    let ghost base_out = out@.len() as int;
    let ghost base_pend = session.pending@.len() as int;
    if fuel == 0 {
        return Err(CacheValidationError::DepthExceeded(relative.to_owned()));
    }
    let entry = match cache.entry(root_id, relative) {
        None => {
            return Err(CacheValidationError::MissingEntry(relative.to_owned()));
        },
        Some(e) => e,
    };
    proof {
        crate::cache::lemma_row_index_of(rows, relative@);
        assert(entry.path@ == relative@);
    }
    let ghost o = replay_spec(rows, canonical_root@, relative@, rp, filt, fuel as nat);
    let abs_path = absolute_from_relative(canonical_root, entry.path.as_str());
    let is_included = should_include(
        abs_path.as_str(),
        entry.kind,
        entry.direct_size,
        matcher,
        canonical_root,
        size_filter,
        Ghost(rp),
    );
    let ghost head_emitted: Seq<EntryView> = if is_included {
        seq![
            EntryView {
                path: abs_path@,
                name: base_name_spec(abs_path@),
                kind: entry.kind,
                direct_size: entry.direct_size,
                modified: entry.modified,
                created: entry.created,
            },
        ]
    } else {
        Seq::empty()
    };
    let ghost head_len = head_emitted.len() as int;

    let mut stats = EmitStats { aggregate_size: 0, entries: 0, directories: 0, files: 0 };

    if is_included {
        let file_name = base_name(abs_path.as_str());
        let file_entry = FileEntry::new(
            abs_path,
            file_name,
            entry.kind,
            entry.direct_size,
            entry.modified,
            entry.created,
        );
        out.push(ScanMessage::Entry { job_id, entry: file_entry });
    }
    proof {
        assert(out@.len() == base_out + head_len);
        assert forall|i: int| 0 <= i < head_len implies entry_view_matches(
            #[trigger] out@[base_out + i],
            job_id,
            head_emitted[i],
        ) by {}
    }

    let parent_ref = match &entry.parent {
        None => None,
        Some(p) => Some(p.as_str()),
    };
    session.upsert_entry(
        entry.path.as_str(),
        parent_ref,
        entry.kind,
        entry.direct_size,
        entry.aggregate_size,
        entry.modified,
        entry.created,
    );
    proof {
        assert(refreshed_from(rows, session.pending@.last(), old(session).scan_ts));
        assert forall|i: int|
            old(session).pending@.len() <= i < session.pending@.len() implies refreshed_from(
            rows,
            #[trigger] session.pending@[i],
            old(session).scan_ts,
        ) by {
            assert(session.pending@[i] == session.pending@.last());
        }
        assert(session.pending@[base_pend].data.path@ == relative@);
    }

    let mut computed_total: u64 = entry.direct_size;

    if matches!(entry.kind, FileKind::Directory) {
        stats.directories = 1;
        let children = cache.children_of(root_id, entry.path.as_str());
        let ghost cseq = children@;
        let nc = children.len();
        let mut ci: usize = 0;
        while ci < nc
            invariant
                nc == children@.len(),
                cseq == children@,
                ci <= nc,
                fuel >= 1,
                session.wf(),
                session.root_id == old(session).root_id,
                session.scan_ts == old(session).scan_ts,
                old(session).pending@.is_prefix_of(session.pending@),
                rows == cache.rows_of(root_id),
                filt == filter_view(size_filter),
                base_out == old(out)@.len() as int,
                base_pend == old(session).pending@.len() as int,
                head_len == head_emitted.len() as int,
                forall|i: int|
                    old(session).pending@.len() <= i < session.pending@.len()
                        ==> refreshed_from(
                        cache.rows_of(root_id),
                        #[trigger] session.pending@[i],
                        old(session).scan_ts,
                    ),
                old(out)@.is_prefix_of(out@),
                matcher_for(
                    match matcher {
                        Some(m) => Some(*m),
                        None => None,
                    },
                    rp,
                ),
                forall|i: int|
                    old(out)@.len() <= i < out@.len() ==> stream_msg_ok(
                        #[trigger] out@[i],
                        job_id,
                        rp,
                        canonical_root@,
                        filter_view(size_filter),
                    ),
                crate::cache::root_index_of(cache.roots@, root_id) >= 0,
                row_index_of(rows, relative@) >= 0,
                rows[row_index_of(rows, relative@)].data == entry,
                entry.path@ == relative@,
                entry.kind == FileKind::Directory,
                o == replay_spec(rows, canonical_root@, relative@, rp, filt, fuel as nat),
                cseq == crate::cache::children_of_spec(
                    rows,
                    (if entry.path@.len() == 0 {
                        None::<Seq<char>>
                    } else {
                        Some(entry.path@)
                    }),
                ),
                head_emitted == ({
                    let abs = absolute_from_relative_spec(canonical_root@, entry.path@);
                    if included_spec(
                        abs,
                        entry.kind,
                        entry.direct_size,
                        rp,
                        canonical_root@,
                        filt,
                    ) {
                        seq![
                            EntryView {
                                path: abs,
                                name: base_name_spec(abs),
                                kind: entry.kind,
                                direct_size: entry.direct_size,
                                modified: entry.modified,
                                created: entry.created,
                            },
                        ]
                    } else {
                        Seq::<EntryView>::empty()
                    }
                }),
                forall|i: int| 0 <= i < head_len ==> entry_view_matches(
                    #[trigger] out@[base_out + i],
                    job_id,
                    head_emitted[i],
                ),
                session.pending@.len() > base_pend,
                session.pending@[base_pend].data.path@ == relative@,
                ({
                    let fo = replay_children_spec(
                        rows,
                        canonical_root@,
                        cseq,
                        ci as int,
                        rp,
                        filt,
                        (fuel - 1) as nat,
                    );
                    &&& fo.failed is None
                    &&& out@.len() == base_out + head_len + fo.emitted.len()
                    &&& (forall|i: int|
                        0 <= i < fo.emitted.len() ==> entry_view_matches(
                            #[trigger] out@[base_out + head_len + i],
                            job_id,
                            fo.emitted[i],
                        ))
                    &&& session.pending@.len() == base_pend + 1 + fo.refreshed.len()
                    &&& (forall|i: int|
                        0 <= i < fo.refreshed.len() ==> (#[trigger] session.pending@[base_pend
                            + 1 + i]).data.path@ == fo.refreshed[i])
                    &&& computed_total == sat_u64(entry.direct_size, fo.stats.aggregate_size)
                    &&& stats.aggregate_size == fo.stats.aggregate_size
                    &&& stats.entries == fo.stats.entries
                    &&& stats.directories == crate::cache::sat_add_usize(
                        fo.stats.directories,
                        1,
                    )
                    &&& stats.files == fo.stats.files
                }),
            decreases nc - ci,
        {
            let ghost out_pre = out@;
            let ghost pending_pre = session.pending@;
            let ghost fo_pre = replay_children_spec(
                rows,
                canonical_root@,
                cseq,
                ci as int,
                rp,
                filt,
                (fuel - 1) as nat,
            );
            let rcall = emit_cached_subtree(
                job_id,
                cache,
                root_id,
                canonical_root,
                children[ci].path.as_str(),
                session,
                matcher,
                size_filter,
                out,
                fuel - 1,
                Ghost(rp),
            );
            let ghost co = replay_spec(
                rows,
                canonical_root@,
                cseq[ci as int].path@,
                rp,
                filt,
                (fuel - 1) as nat,
            );
            let ghost fo_next = replay_children_spec(
                rows,
                canonical_root@,
                cseq,
                ci as int + 1,
                rp,
                filt,
                (fuel - 1) as nat,
            );
            proof {
                assert forall|i: int|
                    old(out)@.len() <= i < out@.len() implies stream_msg_ok(
                    #[trigger] out@[i],
                    job_id,
                    rp,
                    canonical_root@,
                    filter_view(size_filter),
                ) by {
                    if i < out_pre.len() {
                        assert(out@[i] == out_pre[i]);
                    }
                }
                assert(old(session).pending@.is_prefix_of(session.pending@)) by {
                    assert(old(session).pending@.is_prefix_of(pending_pre));
                    assert(pending_pre.is_prefix_of(session.pending@));
                    assert(old(session).pending@ =~= session.pending@.subrange(
                        0,
                        old(session).pending@.len() as int,
                    ));
                }
                assert forall|i: int|
                    old(session).pending@.len() <= i < session.pending@.len()
                        implies refreshed_from(
                    rows,
                    #[trigger] session.pending@[i],
                    old(session).scan_ts,
                ) by {
                    if i < pending_pre.len() {
                        assert(session.pending@[i] == pending_pre[i]);
                    }
                }
                // the child call appended exactly its mirror's sequences
                assert(out@.len() == out_pre.len() + co.emitted.len());
                assert(session.pending@.len() == pending_pre.len() + co.refreshed.len());
                assert(fo_next.emitted =~= fo_pre.emitted + co.emitted);
                assert(fo_next.refreshed =~= fo_pre.refreshed + co.refreshed);
                assert forall|i: int|
                    0 <= i < head_len implies entry_view_matches(
                    #[trigger] out@[base_out + i],
                    job_id,
                    head_emitted[i],
                ) by {
                    assert(out@[base_out + i] == out_pre[base_out + i]);
                }
                assert(session.pending@[base_pend] == pending_pre[base_pend]);
                assert forall|i: int|
                    0 <= i < fo_next.emitted.len() implies entry_view_matches(
                    #[trigger] out@[base_out + head_len + i],
                    job_id,
                    fo_next.emitted[i],
                ) by {
                    if i < fo_pre.emitted.len() {
                        assert(out@[base_out + head_len + i] == out_pre[base_out + head_len
                            + i]);
                        assert(fo_next.emitted[i] == fo_pre.emitted[i]);
                    } else {
                        assert(fo_next.emitted[i] == co.emitted[i - fo_pre.emitted.len()]);
                        assert(base_out + head_len + i == out_pre.len() as int + (i
                            - fo_pre.emitted.len()));
                    }
                }
                assert forall|i: int|
                    0 <= i < fo_next.refreshed.len() implies (#[trigger] session.pending@[
                    base_pend + 1 + i]).data.path@ == fo_next.refreshed[i] by {
                    if i < fo_pre.refreshed.len() {
                        assert(session.pending@[base_pend + 1 + i] == pending_pre[base_pend + 1
                            + i]);
                        assert(fo_next.refreshed[i] == fo_pre.refreshed[i]);
                    } else {
                        assert(fo_next.refreshed[i] == co.refreshed[i
                            - fo_pre.refreshed.len()]);
                        assert(base_pend + 1 + i == pending_pre.len() as int + (i
                            - fo_pre.refreshed.len()));
                    }
                }
            }
            let child_stats = match rcall {
                Err(e) => {
                    proof {
                        assert(co.result == Err::<EmitStats,
                            crate::cache::ValidationErrorModel>(crate::cache::err_view(e)));
                        assert(fo_next.failed == Some(crate::cache::err_view(e)));
                        lemma_replay_fold_failed(
                            rows,
                            canonical_root@,
                            cseq,
                            ci as int + 1,
                            cseq.len() as int,
                            rp,
                            filt,
                            (fuel - 1) as nat,
                        );
                        assert(o.emitted =~= head_emitted + fo_next.emitted);
                        assert(o.refreshed =~= seq![relative@] + fo_next.refreshed);
                        assert forall|i: int|
                            0 <= i < o.emitted.len() implies entry_view_matches(
                            #[trigger] out@[base_out + i],
                            job_id,
                            o.emitted[i],
                        ) by {
                            if i < head_len {
                                assert(o.emitted[i] == head_emitted[i]);
                                assert(entry_view_matches(
                                    out@[base_out + i],
                                    job_id,
                                    head_emitted[i],
                                ));
                            } else {
                                assert(o.emitted[i] == fo_next.emitted[i - head_len]);
                                assert(entry_view_matches(
                                    out@[base_out + head_len + (i - head_len)],
                                    job_id,
                                    fo_next.emitted[i - head_len],
                                ));
                                assert(base_out + head_len + (i - head_len) == base_out + i);
                            }
                        }
                        assert forall|i: int|
                            0 <= i < o.refreshed.len() implies (#[trigger] session.pending@[
                            base_pend + i]).data.path@ == o.refreshed[i] by {
                            if i == 0 {
                                assert(o.refreshed[0] == relative@);
                            } else {
                                assert(o.refreshed[i] == fo_next.refreshed[i - 1]);
                                assert(session.pending@[base_pend + 1 + (i
                                    - 1)].data.path@ == fo_next.refreshed[i - 1]);
                                assert(base_pend + 1 + (i - 1) == base_pend + i);
                            }
                        }
                    }
                    return Err(e);
                },
                Ok(st) => st,
            };
            computed_total = computed_total.saturating_add(child_stats.aggregate_size);
            stats.aggregate_size = stats.aggregate_size.saturating_add(
                child_stats.aggregate_size,
            );
            stats.entries = stats.entries.saturating_add(child_stats.entries);
            stats.directories = stats.directories.saturating_add(child_stats.directories);
            stats.files = stats.files.saturating_add(child_stats.files);
            ci += 1;
        }
        proof {
            let fo = replay_children_spec(
                rows,
                canonical_root@,
                cseq,
                nc as int,
                rp,
                filt,
                (fuel - 1) as nat,
            );
            assert(o.emitted =~= head_emitted + fo.emitted);
            assert(o.refreshed =~= seq![relative@] + fo.refreshed);
            assert forall|i: int|
                0 <= i < o.emitted.len() implies entry_view_matches(
                #[trigger] out@[base_out + i],
                job_id,
                o.emitted[i],
            ) by {
                if i < head_len {
                    assert(o.emitted[i] == head_emitted[i]);
                    assert(entry_view_matches(out@[base_out + i], job_id, head_emitted[i]));
                } else {
                    assert(o.emitted[i] == fo.emitted[i - head_len]);
                    assert(entry_view_matches(
                        out@[base_out + head_len + (i - head_len)],
                        job_id,
                        fo.emitted[i - head_len],
                    ));
                    assert(base_out + head_len + (i - head_len) == base_out + i);
                }
            }
            assert forall|i: int|
                0 <= i < o.refreshed.len() implies (#[trigger] session.pending@[base_pend
                + i]).data.path@ == o.refreshed[i] by {
                if i == 0 {
                    assert(o.refreshed[0] == relative@);
                } else {
                    assert(o.refreshed[i] == fo.refreshed[i - 1]);
                    assert(session.pending@[base_pend + 1 + (i - 1)].data.path@
                        == fo.refreshed[i - 1]);
                    assert(base_pend + 1 + (i - 1) == base_pend + i);
                }
            }
        }
    } else {
        stats.files = 1;
        proof {
            assert(o.emitted =~= head_emitted);
            assert(o.refreshed =~= seq![relative@]);
        }
    }

    if computed_total != entry.aggregate_size {
        return Err(
            CacheValidationError::AggregateMismatch {
                path: entry.path,
                expected: computed_total,
                cached: entry.aggregate_size,
            },
        );
    }

    stats.aggregate_size = entry.aggregate_size;
    stats.entries = stats.entries.saturating_add(1);
    Ok(stats)
}
/// The name after the last slash; the whole path when it has no slash or
/// ends in one.
pub open spec fn base_name_spec(s: Seq<char>) -> Seq<char> {
    let ls = crate::paths::last_slash(s);
    if ls >= 0 && ls < s.len() - 1 {
        s.subrange(ls + 1, s.len() as int)
    } else {
        s
    }
}

/// The display name of a path, per `base_name_spec`.
pub fn base_name(path: &str) -> (r: String)
    ensures
        r@ == base_name_spec(path@),
{
    let len = path.unicode_len();
    match crate::paths::find_last_slash(path) {
        None => path.to_owned(),
        Some(i) => {
            proof {
                crate::paths::lemma_last_slash_bounds(path@);
            }
            if i + 1 < len {
                let tail = path.substring_char(i + 1, len);
                tail.to_owned()
            } else {
                path.to_owned()
            }
        },
    }
}

} // verus!

verus! {


/// The view of one streamed message: an entry or a per-path error.
pub enum StreamView {
    EntryV(EntryView),
    ErrorV { path: Seq<char>, message: Seq<char> },
}

/// `m` is the message of job `job_id` carrying exactly the view `v`.
pub open spec fn stream_view_matches(m: ScanMessage, job_id: u64, v: StreamView) -> bool {
    match v {
        StreamView::EntryV(e) => entry_view_matches(m, job_id, e),
        StreamView::ErrorV { path, message } => match m {
            ScanMessage::Error { job_id: j, path: p, message: ms } => j == job_id && p@ == path
                && ms@ == message,
            _ => false,
        },
    }
}

/// `r` with its dirty bit set, all other fields kept.
pub open spec fn dirty_row(r: EntryRow) -> EntryRow {
    EntryRow {
        data: crate::cache::CachedEntry {
            path: r.data.path,
            parent: r.data.parent,
            kind: r.data.kind,
            direct_size: r.data.direct_size,
            aggregate_size: r.data.aggregate_size,
            modified: r.data.modified,
            created: r.data.created,
            flags: r.data.flags | 1,
        },
        last_seen: r.last_seen,
    }
}

/// The rows with the ancestor chain of `rel` marked dirty.
pub open spec fn marked_rows(rows: Seq<EntryRow>, rel: Seq<char>) -> Seq<EntryRow> {
    Seq::new(
        rows.len(),
        |j: int|
            if crate::paths::on_ancestor_chain(rows[j].data.path@, rel) {
                dirty_row(rows[j])
            } else {
                rows[j]
            },
    )
}

/// A chain marking produces exactly `marked_rows`.
pub proof fn lemma_mark_chain_is_marked_rows(a: Seq<EntryRow>, b: Seq<EntryRow>, rel: Seq<char>)
    requires
        crate::cache::rows_mark_chain(a, b, rel),
    ensures
        b =~= marked_rows(a, rel),
{
    assert forall|j: int| 0 <= j < a.len() implies b[j] == marked_rows(a, rel)[j] by {
        if crate::paths::on_ancestor_chain(a[j].data.path@, rel) {
            assert(crate::cache::row_dirtied(a[j], b[j]));
        }
    }
}

/// The walk's running state: the scanned root's rows (dirty marks from
/// failed replays applied), the depth below which events are elided after
/// a replay, the stream so far, and the counters.
pub struct WalkState {
    pub rows: Seq<EntryRow>,
    pub skip_deeper: Option<usize>,
    pub emitted: Seq<StreamView>,
    pub files: u64,
    pub dirs: u64,
    pub cached_dirs: u64,
    pub cached_entries: u64,
    pub cached_bytes: u64,
    pub fs_errors: u64,
    pub walked_dirs: Seq<Seq<char>>,
    pub seen_files: Seq<Seq<char>>,
    pub replayed: Seq<Seq<char>>,
}

pub open spec fn walk_init(rows: Seq<EntryRow>) -> WalkState {
    WalkState {
        rows,
        skip_deeper: None,
        emitted: Seq::empty(),
        files: 0,
        dirs: 0,
        cached_dirs: 0,
        cached_entries: 0,
        cached_bytes: 0,
        fs_errors: 0,
        walked_dirs: Seq::empty(),
        seen_files: Seq::empty(),
        replayed: Seq::empty(),
    }
}

/// One walk step, exactly as the scan processes one event: the skip gate,
/// the replay gate over the current rows, the inclusion rule, the
/// counters. `gated` says whether the scanned root exists in the cache.
pub open spec fn walk_step(
    st: WalkState,
    ev: WalkEvent,
    root: Seq<char>,
    rp: Option<Seq<char>>,
    filter: Option<SizeFilter>,
    gated: bool,
) -> WalkState {
    match ev {
        WalkEvent::Error { path, message } => WalkState {
            emitted: st.emitted + (match path {
                Some(p) => seq![StreamView::ErrorV { path: p@, message: message@ }],
                None => Seq::<StreamView>::empty(),
            }),
            fs_errors: sat_u64(st.fs_errors, 1),
            ..st
        },
        WalkEvent::Entry { depth, path, kind, size, modified, created } => {
            let skipped = match st.skip_deeper {
                Some(d) => depth > d,
                None => false,
            };
            if skipped {
                st
            } else {
                let st0 = WalkState { skip_deeper: None, ..st };
                if kind == WalkKind::Other {
                    st0
                } else {
                    let file_kind = if kind == WalkKind::File {
                        FileKind::File
                    } else {
                        FileKind::Directory
                    };
                    let direct_size: u64 = if kind == WalkKind::File {
                        size
                    } else {
                        0
                    };
                    let rel = relative_path_spec(root, path@);
                    let k = row_index_of(st0.rows, rel);
                    let gate_open = gated && file_kind == FileKind::Directory && k >= 0
                        && st0.rows[k].data.flags & 1 == 0 && st0.rows[k].data.modified
                        == modified;
                    let ro = replay_spec(
                        st0.rows,
                        root,
                        rel,
                        rp,
                        filter,
                        crate::cache::validate_fuel(st0.rows),
                    );
                    if gate_open && ro.result is Ok {
                        let est = ro.result->Ok_0;
                        WalkState {
                            emitted: st0.emitted + ro.emitted.map_values(
                                |e: EntryView| StreamView::EntryV(e),
                            ),
                            cached_dirs: sat_u64(st0.cached_dirs, est.directories as u64),
                            cached_entries: sat_u64(st0.cached_entries, est.entries as u64),
                            cached_bytes: sat_u64(st0.cached_bytes, est.aggregate_size),
                            skip_deeper: Some(depth),
                            replayed: st0.replayed + ro.refreshed,
                            ..st0
                        }
                    } else {
                        let st1 = if gate_open {
                            WalkState {
                                rows: marked_rows(st0.rows, rel),
                                emitted: st0.emitted + ro.emitted.map_values(
                                    |e: EntryView| StreamView::EntryV(e),
                                ),
                                replayed: st0.replayed + ro.refreshed,
                                ..st0
                            }
                        } else {
                            st0
                        };
                        let inc = included_spec(path@, file_kind, direct_size, rp, root, filter);
                        if inc {
                            let ev2 = EntryView {
                                path: path@,
                                name: base_name_spec(path@),
                                kind: file_kind,
                                direct_size,
                                modified,
                                created,
                            };
                            if file_kind == FileKind::File {
                                WalkState {
                                    emitted: st1.emitted + seq![StreamView::EntryV(ev2)],
                                    files: sat_u64(st1.files, 1),
                                    seen_files: st1.seen_files + seq![rel],
                                    ..st1
                                }
                            } else {
                                WalkState {
                                    emitted: st1.emitted + seq![StreamView::EntryV(ev2)],
                                    dirs: sat_u64(st1.dirs, 1),
                                    walked_dirs: st1.walked_dirs + seq![rel],
                                    ..st1
                                }
                            }
                        } else {
                            if file_kind == FileKind::Directory {
                                WalkState { dirs: sat_u64(st1.dirs, 1), ..st1 }
                            } else {
                                st1
                            }
                        }
                    }
                }
            }
        },
    }
}

/// The walk folded over a whole event stream.
pub open spec fn walk_fold(
    events: Seq<WalkEvent>,
    init: WalkState,
    root: Seq<char>,
    rp: Option<Seq<char>>,
    filter: Option<SizeFilter>,
    gated: bool,
) -> WalkState
    decreases events.len(),
{
    if events.len() == 0 {
        init
    } else {
        walk_step(
            walk_fold(events.drop_last(), init, root, rp, filter, gated),
            events.last(),
            root,
            rp,
            filter,
            gated,
        )
    }
}

/// The view of an optional owned string.
pub open spec fn opt_str_view(o: Option<String>) -> Option<Seq<char>> {
    match o {
        Some(s) => Some(s@),
        None => None,
    }
}

/// `b` is `a` with, at most, dirty bits ORed into some entries: nothing is
/// added, removed or resized.
pub open spec fn cache_same_except_dirty(a: Cache, b: Cache) -> bool {
    &&& b.next_id == a.next_id
    &&& b.roots@.len() == a.roots@.len()
    &&& forall|i: int|
        0 <= i < a.roots@.len() ==> crate::cache::root_same_meta(
            #[trigger] a.roots@[i],
            b.roots@[i],
        )
    &&& forall|i: int|
        0 <= i < a.roots@.len() ==> rows_same_except_dirty(
            (#[trigger] a.roots@[i]).entries@,
            b.roots@[i].entries@,
        )
}

/// Row-level form of `cache_same_except_dirty`.
pub open spec fn rows_same_except_dirty(a: Seq<EntryRow>, b: Seq<EntryRow>) -> bool {
    &&& b.len() == a.len()
    &&& forall|j: int|
        0 <= j < a.len() ==> (b[j] == a[j] || crate::cache::row_dirtied(#[trigger] a[j], b[j]))
}

pub proof fn lemma_row_dirtied_trans(a: EntryRow, b: EntryRow, c: EntryRow)
    requires
        crate::cache::row_dirtied(a, b),
        crate::cache::row_dirtied(b, c),
    ensures
        crate::cache::row_dirtied(a, c),
{
    let f = a.data.flags;
    assert((f | 1) | 1 == f | 1) by (bit_vector);
}

/// Marking ancestors dirty keeps a cache within `cache_same_except_dirty`
/// of where it started.
pub proof fn lemma_same_except_dirty_mark(a: Cache, b: Cache, c: Cache, root_id: i64, rel: Seq<char>)
    requires
        cache_same_except_dirty(a, b),
        c.next_id == b.next_id,
        ({
            let ri = crate::cache::root_index_of(b.roots@, root_id);
            if ri < 0 {
                c.roots@ == b.roots@
            } else {
                &&& crate::cache::roots_unchanged_except(b.roots@, c.roots@, ri)
                &&& crate::cache::root_same_meta(b.roots@[ri], c.roots@[ri])
                &&& crate::cache::rows_mark_chain(b.roots@[ri].entries@, c.roots@[ri].entries@, rel)
            }
        }),
    ensures
        cache_same_except_dirty(a, c),
{
    let ri = crate::cache::root_index_of(b.roots@, root_id);
    if ri >= 0 {
        crate::cache::lemma_root_index_of(b.roots@, root_id);
        assert forall|i: int| 0 <= i < a.roots@.len() implies crate::cache::root_same_meta(
            #[trigger] a.roots@[i],
            c.roots@[i],
        ) && rows_same_except_dirty(a.roots@[i].entries@, c.roots@[i].entries@) by {
            if i == ri {
                let ra = a.roots@[i].entries@;
                let rb = b.roots@[i].entries@;
                let rc = c.roots@[i].entries@;
                assert forall|j: int| 0 <= j < ra.len() implies (rc[j] == ra[j]
                    || crate::cache::row_dirtied(#[trigger] ra[j], rc[j])) by {
                    assert(rb[j] == ra[j] || crate::cache::row_dirtied(ra[j], rb[j]));
                    assert(rc[j] == rb[j] || crate::cache::row_dirtied(rb[j], rc[j]));
                    if rb[j] == ra[j] {
                    } else if rc[j] == rb[j] {
                    } else {
                        lemma_row_dirtied_trans(ra[j], rb[j], rc[j]);
                    }
                }
            } else {
                assert(c.roots@[i] == b.roots@[i]);
            }
        }
    }
}

/// Whether a scan driven by `events` is preempted before finishing.
pub open spec fn aborted_spec(n_events: int, abort_at: Option<usize>) -> bool {
    match abort_at {
        Some(k) => (k as int) < n_events,
        None => false,
    }
}

/// Run one scan over a stream of walk events, depth-first, exactly as
/// `walk_fold` describes: frames close as shallower entries arrive;
/// unchanged clean directories are replayed from the cache and their
/// subtrees skipped; every per-path error event is reported; every
/// included entry is emitted in walk order and counted. A preempting job
/// (`abort_at`) stops the walk before finalization, so the cache keeps the
/// previous complete scan (only dirty marks from failed replays may be
/// added).
#[verifier::rlimit(100)]
pub fn run_scan(
    job_id: u64,
    query: &SearchQuery,
    cache: &mut Cache,
    ctx: Option<&CacheContext>,
    events: &Vec<WalkEvent>,
    abort_at: Option<usize>,
    out: &mut Vec<ScanMessage>,
) -> (stats: ScanStats)
    requires
        old(cache).wf(),
        match ctx {
            Some(c) => c.canonical_root@ == query.root@,
            None => true,
        },
    ensures
        final(cache).wf(),
        ctx is None ==> *final(cache) == *old(cache),
        aborted_spec(events@.len() as int, abort_at) ==> cache_same_except_dirty(
            *old(cache),
            *final(cache),
        ),
        old(out)@.is_prefix_of(final(out)@),
        forall|i: int|
            old(out)@.len() <= i < final(out)@.len() ==> stream_msg_ok(
                #[trigger] final(out)@[i],
                job_id,
                opt_str_view(query.relative_pattern),
                query.root@,
                query.size_filter,
            ),
        stats.cache_validation_errors <= 1,
        (!aborted_spec(events@.len() as int, abort_at) && ctx is Some) ==> ({
            let ri = crate::cache::root_index_of(final(cache).roots@, ctx.unwrap().root_id);
            ri >= 0 ==> (stats.cache_validation_errors == 0 <==> crate::cache::validate_aggregate_spec(
                final(cache).roots@[ri].entries@,
                crate::paths::dot(),
            ) is Ok)
        }),
        ({
            let limit = (match abort_at {
                Some(k) => if (k as int) < events@.len() as int {
                    k as int
                } else {
                    events@.len() as int
                },
                None => events@.len() as int,
            });
            let gated = (ctx is Some) && crate::cache::root_index_of(
                old(cache).roots@,
                ctx.unwrap().root_id,
            ) >= 0;
            let rows0 = (if gated {
                old(cache).roots@[crate::cache::root_index_of(
                    old(cache).roots@,
                    ctx.unwrap().root_id,
                )].entries@
            } else {
                Seq::<EntryRow>::empty()
            });
            let w = walk_fold(
                events@.subrange(0, limit),
                walk_init(rows0),
                query.root@,
                opt_str_view(query.relative_pattern),
                query.size_filter,
                gated,
            );
            &&& final(out)@.len() == old(out)@.len() + w.emitted.len()
            &&& (forall|i: int|
                0 <= i < w.emitted.len() ==> stream_view_matches(
                    #[trigger] final(out)@[old(out)@.len() + i],
                    job_id,
                    w.emitted[i],
                ))
            &&& stats.files_scanned == w.files
            &&& stats.dirs_scanned == w.dirs
            &&& stats.cached_dirs == w.cached_dirs
            &&& stats.cached_entries == w.cached_entries
            &&& stats.cached_bytes == w.cached_bytes
            &&& stats.fs_errors == w.fs_errors
        }),
{
    let ghost rp = opt_str_view(query.relative_pattern);
    let ghost filt = query.size_filter;
    let matcher = compile_matcher(query.relative_pattern.as_ref());
    let use_cache = ctx.is_some();
    let root_id: i64 = match ctx {
        Some(c) => c.root_id,
        None => 0,
    };
    let ghost ri0 = crate::cache::root_index_of(cache.roots@, root_id);
    let ghost gated = use_cache && ri0 >= 0;
    let ghost rows0 = if gated {
        cache.roots@[ri0].entries@
    } else {
        Seq::<EntryRow>::empty()
    };
    let mut session: ScanSession = cache.begin_scan(root_id);
    let mut stack: Vec<DirectoryFrame> = Vec::new();
    let mut stats = ScanStats {
        files_scanned: 0,
        dirs_scanned: 0,
        cached_dirs: 0,
        cached_entries: 0,
        cached_bytes: 0,
        fs_errors: 0,
        cache_validation_errors: 0,
    };
    let mut skip_below: Option<usize> = None;
    let n = events.len();
    let limit: usize;
    let aborted: bool;
    match abort_at {
        Some(k) => {
            if k < n {
                limit = k;
                aborted = true;
            } else {
                limit = n;
                aborted = false;
            }
        },
        None => {
            limit = n;
            aborted = false;
        },
    }
    let mut idx: usize = 0;
    proof {
        assert(events@.subrange(0, 0) =~= Seq::<WalkEvent>::empty());
    }

    while idx < limit
        invariant
            n == events@.len(),
            idx <= n,
            cache.wf(),
            use_cache == (ctx is Some),
            (match ctx {
                Some(c) => c.canonical_root@ == query.root@ && root_id == c.root_id,
                None => true,
            }),
            !use_cache ==> *cache == *old(cache),
            !gated ==> *cache == *old(cache),
            cache_same_except_dirty(*old(cache), *cache),
            session.wf(),
            session.root_id == root_id,
            limit <= n,
            idx <= limit,
            rp == opt_str_view(query.relative_pattern),
            filt == query.size_filter,
            ri0 == crate::cache::root_index_of(old(cache).roots@, root_id),
            gated == (use_cache && ri0 >= 0),
            rows0 == (if gated {
                old(cache).roots@[ri0].entries@
            } else {
                Seq::<EntryRow>::empty()
            }),
            gated ==> crate::cache::root_index_of(cache.roots@, root_id) == ri0,
            matcher_for(
                (match matcher {
                    Some(m) => Some(m),
                    None => None,
                }),
                rp,
            ),
            old(out)@.is_prefix_of(out@),
            forall|i: int|
                old(out)@.len() <= i < out@.len() ==> stream_msg_ok(
                    #[trigger] out@[i],
                    job_id,
                    rp,
                    query.root@,
                    query.size_filter,
                ),
            stats.cache_validation_errors == 0,
            ({
                let w = walk_fold(
                    events@.subrange(0, idx as int),
                    walk_init(rows0),
                    query.root@,
                    rp,
                    filt,
                    gated,
                );
                &&& out@.len() == old(out)@.len() + w.emitted.len()
                &&& (forall|i: int|
                    0 <= i < w.emitted.len() ==> stream_view_matches(
                        #[trigger] out@[old(out)@.len() + i],
                        job_id,
                        w.emitted[i],
                    ))
                &&& stats.files_scanned == w.files
                &&& stats.dirs_scanned == w.dirs
                &&& stats.cached_dirs == w.cached_dirs
                &&& stats.cached_entries == w.cached_entries
                &&& stats.cached_bytes == w.cached_bytes
                &&& stats.fs_errors == w.fs_errors
                &&& skip_below == w.skip_deeper
                &&& (gated ==> cache.roots@[ri0].entries@ == w.rows)
            }),
        decreases limit - idx,
    {
        let ghost w_pre = walk_fold(
            events@.subrange(0, idx as int),
            walk_init(rows0),
            query.root@,
            rp,
            filt,
            gated,
        );
        let ghost evg = events@[idx as int];
        let ghost w_next = walk_step(w_pre, evg, query.root@, rp, filt, gated);
        proof {
            assert(events@.subrange(0, idx as int + 1).drop_last() =~= events@.subrange(
                0,
                idx as int,
            ));
            assert(events@.subrange(0, idx as int + 1).last() == evg);
            assert(walk_fold(
                events@.subrange(0, idx as int + 1),
                walk_init(rows0),
                query.root@,
                rp,
                filt,
                gated,
            ) == w_next);
        }
        let ghost out_snap = out@;
        let ghost pending_snap = session.pending@;

        match &events[idx] {
            WalkEvent::Error { path, message } => {
                match path {
                    Some(p) => {
                        out.push(
                            ScanMessage::Error {
                                job_id,
                                path: p.clone(),
                                message: message.clone(),
                            },
                        );
                        proof {
                            assert(out_snap.is_prefix_of(out@));
                            assert forall|i: int|
                                old(out)@.len() <= i < out@.len() implies stream_msg_ok(
                                #[trigger] out@[i],
                                job_id,
                                rp,
                                query.root@,
                                query.size_filter,
                            ) by {
                                if i < out_snap.len() {
                                    assert(out@[i] == out_snap[i]);
                                }
                            }
                        }
                    },
                    None => {},
                }
                stats.fs_errors = stats.fs_errors.saturating_add(1);
                proof {
                    assert(w_next.emitted.len() == w_pre.emitted.len() + (match evg {
                        WalkEvent::Error { path: pg, .. } => if pg is Some {
                            1int
                        } else {
                            0int
                        },
                        _ => 0int,
                    }));
                    assert forall|i: int|
                        0 <= i < w_next.emitted.len() implies stream_view_matches(
                        #[trigger] out@[old(out)@.len() + i],
                        job_id,
                        w_next.emitted[i],
                    ) by {
                        if i < w_pre.emitted.len() {
                            assert(out@[old(out)@.len() + i] == out_snap[old(out)@.len() + i]);
                            assert(w_next.emitted[i] == w_pre.emitted[i]);
                        } else {
                            assert(i == w_pre.emitted.len());
                        }
                    }
                }
            },
            WalkEvent::Entry { depth, path, kind, size, modified, created } => {
                let depth = *depth;
                let kind = *kind;
                let size = *size;
                let modified = *modified;
                let created = *created;

                let skip_this = match skip_below {
                    Some(d) => {
                        if depth > d {
                            true
                        } else {
                            skip_below = None;
                            false
                        }
                    },
                    None => false,
                };
                if !skip_this {
                    while stack.len() > depth
                        invariant
                            session.wf(),
                            session.root_id == root_id,
                            pending_snap.is_prefix_of(session.pending@),
                        decreases stack.len(),
                    {
                        let ghost pend_pre = session.pending@;
                        let ghost stack_pre = stack@;
                        let frame = match stack.pop() {
                            Some(f) => f,
                            None => {
                                proof {
                                    assert(false);
                                }
                                return stats;
                            },
                        };
                        finalize_directory(frame, &mut stack, &mut session, use_cache);
                        proof {
                            assert(pend_pre.is_prefix_of(session.pending@));
                            assert(pending_snap =~= session.pending@.subrange(
                                0,
                                pending_snap.len() as int,
                            ));
                        }
                    }

                    let ghost pend_after_pops = session.pending@;
                    if !matches!(kind, WalkKind::Other) {
                        let file_kind = if matches!(kind, WalkKind::File) {
                            FileKind::File
                        } else {
                            FileKind::Directory
                        };
                        let direct_size: u64 = if matches!(kind, WalkKind::File) {
                            size
                        } else {
                            0
                        };

                        let mut replayed = false;
                        let mut rel_path: Option<String> = None;
                        let mut parent_rel: Option<String> = None;
                        let ghost relv = relative_path_spec(query.root@, path@);
                        let ghost ro = replay_spec(
                            w_pre.rows,
                            query.root@,
                            relv,
                            rp,
                            filt,
                            crate::cache::validate_fuel(w_pre.rows),
                        );
                        if use_cache {
                            let rel = relative_path(query.root.as_str(), path.as_str());
                            parent_rel = crate::paths::parent_relative(rel.as_str());

                            if matches!(file_kind, FileKind::Directory) {
                                match cache.entry(root_id, rel.as_str()) {
                                    Some(cached) => {
                                        let mtime_same = match (cached.modified, modified) {
                                            (Option::None, Option::None) => true,
                                            (Option::Some(a), Option::Some(b)) => a == b,
                                            _ => false,
                                        };
                                        if cached.flags & 1 == 0 && mtime_same {
                                            let ri_opt = crate::cache::find_root(
                                                &cache.roots,
                                                root_id,
                                            );
                                            let fuel: u64 = match ri_opt {
                                                Some(ri) => (cache.roots[ri].entries.len()
                                                    as u64).saturating_add(1),
                                                None => 1,
                                            };
                                            proof {
                                                assert(gated);
                                                assert(cache.rows_of(root_id) == w_pre.rows);
                                                assert(fuel as nat == crate::cache::validate_fuel(
                                                    w_pre.rows,
                                                ));
                                            }
                                            let replay = emit_cached_subtree(
                                                job_id,
                                                cache,
                                                root_id,
                                                query.root.as_str(),
                                                rel.as_str(),
                                                &mut session,
                                                matcher.as_ref(),
                                                query.size_filter.as_ref(),
                                                out,
                                                fuel,
                                                Ghost(rp),
                                            );
                                            proof {
                                                assert forall|i: int|
                                                    old(out)@.len() <= i < out@.len()
                                                        implies stream_msg_ok(
                                                    #[trigger] out@[i],
                                                    job_id,
                                                    rp,
                                                    query.root@,
                                                    query.size_filter,
                                                ) by {
                                                    if i < out_snap.len() {
                                                        assert(out@[i] == out_snap[i]);
                                                    }
                                                }
                                                assert(old(out)@.is_prefix_of(out@)) by {
                                                    assert(old(out)@ =~= out@.subrange(
                                                        0,
                                                        old(out)@.len() as int,
                                                    ));
                                                }
                                                assert(out@.len() == out_snap.len()
                                                    + ro.emitted.len());
                                                assert forall|i: int|
                                                    0 <= i < ro.emitted.len()
                                                        implies entry_view_matches(
                                                    #[trigger] out@[out_snap.len() + i],
                                                    job_id,
                                                    ro.emitted[i],
                                                ) by {}
                                            }
                                            match replay {
                                                Ok(emit_stats) => {
                                                    stats.cached_dirs =
                                                        stats.cached_dirs.saturating_add(
                                                        emit_stats.directories as u64,
                                                    );
                                                    stats.cached_entries =
                                                        stats.cached_entries.saturating_add(
                                                        emit_stats.entries as u64,
                                                    );
                                                    stats.cached_bytes =
                                                        stats.cached_bytes.saturating_add(
                                                        emit_stats.aggregate_size,
                                                    );
                                                    let sl = stack.len();
                                                    if sl > 0 {
                                                        let below = &mut stack[sl - 1];
                                                        below.aggregate_size =
                                                            below.aggregate_size.saturating_add(
                                                            emit_stats.aggregate_size,
                                                        );
                                                    }
                                                    skip_below = Some(depth);
                                                    replayed = true;
                                                    proof {
                                                        assert(ro.result == Ok::<EmitStats,
                                                            crate::cache::ValidationErrorModel>(
                                                            emit_stats,
                                                        ));
                                                    }
                                                },
                                                Err(_) => {
                                                    let ghost cache_pre = *cache;
                                                    cache.mark_ancestors_dirty(
                                                        root_id,
                                                        rel.as_str(),
                                                    );
                                                    proof {
                                                        lemma_same_except_dirty_mark(
                                                            *old(cache),
                                                            cache_pre,
                                                            *cache,
                                                            root_id,
                                                            rel@,
                                                        );
                                                        crate::cache::lemma_root_index_of(
                                                            cache_pre.roots@,
                                                            root_id,
                                                        );
                                                        assert forall|j: int|
                                                            0 <= j < cache_pre.roots@.len()
                                                                implies (
                                                        #[trigger] cache.roots@[j]).id
                                                            == cache_pre.roots@[j].id by {}
                                                        crate::cache::lemma_root_index_same_ids(
                                                            cache_pre.roots@,
                                                            cache.roots@,
                                                            root_id,
                                                        );
                                                        lemma_mark_chain_is_marked_rows(
                                                            cache_pre.roots@[ri0].entries@,
                                                            cache.roots@[ri0].entries@,
                                                            rel@,
                                                        );
                                                        assert(cache.roots@[ri0].entries@
                                                            =~= marked_rows(w_pre.rows, relv));
                                                    }
                                                },
                                            }
                                        }
                                    },
                                    None => {},
                                }
                            }
                            rel_path = Some(rel);
                        }

                        if !replayed {
                            let included = should_include(
                                path.as_str(),
                                file_kind,
                                direct_size,
                                matcher.as_ref(),
                                query.root.as_str(),
                                query.size_filter.as_ref(),
                                Ghost(rp),
                            );
                            if included {
                                let ghost out_snap2 = out@;
                                let file_name = base_name(path.as_str());
                                let entry = FileEntry::new(
                                    path.clone(),
                                    file_name,
                                    file_kind,
                                    direct_size,
                                    modified,
                                    created,
                                );
                                out.push(ScanMessage::Entry { job_id, entry });
                                proof {
                                    assert forall|i: int|
                                        old(out)@.len() <= i < out@.len() implies stream_msg_ok(
                                        #[trigger] out@[i],
                                        job_id,
                                        rp,
                                        query.root@,
                                        query.size_filter,
                                    ) by {
                                        if i < out_snap2.len() {
                                            assert(out@[i] == out_snap2[i]);
                                        }
                                    }
                                    assert(old(out)@.is_prefix_of(out@)) by {
                                        assert(old(out)@ =~= out@.subrange(
                                            0,
                                            old(out)@.len() as int,
                                        ));
                                    }
                                }

                                if use_cache && matches!(file_kind, FileKind::File) {
                                    match &rel_path {
                                        Some(rel) => {
                                            let parent_ref = match &parent_rel {
                                                None => None,
                                                Some(p) => Some(p.as_str()),
                                            };
                                            session.upsert_entry(
                                                rel.as_str(),
                                                parent_ref,
                                                FileKind::File,
                                                direct_size,
                                                direct_size,
                                                modified,
                                                created,
                                            );
                                        },
                                        None => {},
                                    }
                                }

                                match file_kind {
                                    FileKind::File => {
                                        stats.files_scanned = stats.files_scanned.saturating_add(
                                            1,
                                        );
                                        let sl = stack.len();
                                        if sl > 0 {
                                            let below = &mut stack[sl - 1];
                                            below.aggregate_size =
                                                below.aggregate_size.saturating_add(direct_size);
                                        }
                                    },
                                    FileKind::Directory => {
                                        stats.dirs_scanned = stats.dirs_scanned.saturating_add(1);
                                        match rel_path {
                                            Some(rel) => {
                                                stack.push(
                                                    DirectoryFrame {
                                                        relative: rel,
                                                        parent: parent_rel,
                                                        direct_size,
                                                        aggregate_size: 0,
                                                        modified,
                                                        created,
                                                    },
                                                );
                                            },
                                            None => {},
                                        }
                                    },
                                }
                            } else if matches!(file_kind, FileKind::Directory) {
                                stats.dirs_scanned = stats.dirs_scanned.saturating_add(1);
                            }
                        }
                        proof {
                            assert forall|i: int|
                                0 <= i < w_next.emitted.len() implies stream_view_matches(
                                #[trigger] out@[old(out)@.len() + i],
                                job_id,
                                w_next.emitted[i],
                            ) by {
                                if i < w_pre.emitted.len() {
                                    assert(out@[old(out)@.len() + i] == out_snap[old(out)@.len()
                                        + i]);
                                    assert(w_next.emitted[i] == w_pre.emitted[i]);
                                } else if i < w_pre.emitted.len() + ro.emitted.len()
                                    && out@.len() > out_snap.len() + (if included_spec(
                                    path@,
                                    file_kind,
                                    direct_size,
                                    rp,
                                    query.root@,
                                    filt,
                                ) {
                                    1int
                                } else {
                                    0int
                                }) {
                                    let j = i - w_pre.emitted.len();
                                    assert(entry_view_matches(
                                        out@[out_snap.len() + j],
                                        job_id,
                                        ro.emitted[j],
                                    ));
                                } else {
                                }
                            }
                        }
                    }
                }
            },
        }
        proof {
            assert(old(out)@.is_prefix_of(out@)) by {
                assert(old(out)@ =~= out@.subrange(0, old(out)@.len() as int));
            }
            assert(pending_snap.is_prefix_of(session.pending@));
        }
        idx += 1;
    }

    if !aborted {
        let ghost pending_snap2 = session.pending@;
        while stack.len() > 0
            invariant
                session.wf(),
                session.root_id == root_id,
            decreases stack.len(),
        {
            let frame = match stack.pop() {
                Some(f) => f,
                None => {
                    break ;
                },
            };
            finalize_directory(frame, &mut stack, &mut session, use_cache);
        }
        if use_cache {
            session.finish(cache);
            proof {
                reveal_strlit(".");
                assert("."@ =~= crate::paths::dot());
            }
            let validation = cache.validate_aggregate(root_id, ".");
            match validation {
                Ok(_) => {},
                Err(_) => {
                    stats.cache_validation_errors = 1;
                    let ghost pre_mark = *cache;
                    cache.mark_dirty(root_id, ".");
                    proof {
                        let ri2 = crate::cache::root_index_of(pre_mark.roots@, root_id);
                        crate::cache::lemma_root_index_of(pre_mark.roots@, root_id);
                        assert forall|j: int|
                            0 <= j < pre_mark.roots@.len() implies (#[trigger] cache.roots@[j]).id
                            == pre_mark.roots@[j].id by {}
                        crate::cache::lemma_root_index_same_ids(
                            pre_mark.roots@,
                            cache.roots@,
                            root_id,
                        );
                        if ri2 >= 0 {
                            crate::cache::lemma_mark_one_alike(
                                pre_mark.roots@[ri2].entries@,
                                cache.roots@[ri2].entries@,
                                crate::paths::dot(),
                            );
                            crate::cache::lemma_validate_alike(
                                pre_mark.roots@[ri2].entries@,
                                cache.roots@[ri2].entries@,
                                crate::paths::dot(),
                            );
                        }
                    }
                },
            }
        }
    }

    stats
}

/// Serve one `Run` command: the reply stream opens with `Begin`, carries
/// the walk's entries and errors in walk order, and closes with `Stats`
/// followed by `Complete`, all under the command's job id.
pub fn execute_run(
    job_id: u64,
    query: &SearchQuery,
    cache: &mut Cache,
    ctx: Option<&CacheContext>,
    events: &Vec<WalkEvent>,
    abort_at: Option<usize>,
) -> (msgs: Vec<ScanMessage>)
    requires
        old(cache).wf(),
        match ctx {
            Some(c) => c.canonical_root@ == query.root@,
            None => true,
        },
    ensures
        final(cache).wf(),
        ctx is None ==> *final(cache) == *old(cache),
        aborted_spec(events@.len() as int, abort_at) ==> cache_same_except_dirty(
            *old(cache),
            *final(cache),
        ),
        msgs@.len() >= 3,
        (match msgs@[0] {
            ScanMessage::Begin { job_id: j, root } => j == job_id && root@ == query.root@,
            _ => false,
        }),
        (match msgs@[msgs@.len() - 2] {
            ScanMessage::Stats { job_id: j, stats } => j == job_id
                && stats.cache_validation_errors <= 1,
            _ => false,
        }),
        (match msgs@[msgs@.len() - 1] {
            ScanMessage::Complete { job_id: j } => j == job_id,
            _ => false,
        }),
        forall|i: int|
            1 <= i < msgs@.len() - 2 ==> stream_msg_ok(
                #[trigger] msgs@[i],
                job_id,
                opt_str_view(query.relative_pattern),
                query.root@,
                query.size_filter,
            ),
        ({
            let limit = (match abort_at {
                Some(k) => if (k as int) < events@.len() as int {
                    k as int
                } else {
                    events@.len() as int
                },
                None => events@.len() as int,
            });
            let gated = (ctx is Some) && crate::cache::root_index_of(
                old(cache).roots@,
                ctx.unwrap().root_id,
            ) >= 0;
            let rows0 = (if gated {
                old(cache).roots@[crate::cache::root_index_of(
                    old(cache).roots@,
                    ctx.unwrap().root_id,
                )].entries@
            } else {
                Seq::<EntryRow>::empty()
            });
            let w = walk_fold(
                events@.subrange(0, limit),
                walk_init(rows0),
                query.root@,
                opt_str_view(query.relative_pattern),
                query.size_filter,
                gated,
            );
            &&& msgs@.len() == 3 + w.emitted.len()
            &&& (forall|i: int|
                0 <= i < w.emitted.len() ==> stream_view_matches(
                    #[trigger] msgs@[1 + i],
                    job_id,
                    w.emitted[i],
                ))
            &&& (match msgs@[msgs@.len() - 2] {
                ScanMessage::Stats { stats, .. } => stats.files_scanned == w.files
                    && stats.dirs_scanned == w.dirs && stats.cached_dirs == w.cached_dirs
                    && stats.cached_entries == w.cached_entries && stats.cached_bytes
                    == w.cached_bytes && stats.fs_errors == w.fs_errors,
                _ => false,
            })
        }),
{
    let mut out: Vec<ScanMessage> = Vec::new();
    out.push(ScanMessage::Begin { job_id, root: query.root.clone() });
    let ghost after_begin = out@;
    let stats = run_scan(job_id, query, cache, ctx, events, abort_at, &mut out);
    proof {
        assert(after_begin.is_prefix_of(out@));
        assert(out@[0] == after_begin[0]);
    }
    let ghost with_entries = out@;
    out.push(ScanMessage::Stats { job_id, stats });
    out.push(ScanMessage::Complete { job_id });
    proof {
        assert forall|i: int| 1 <= i < out@.len() - 2 implies stream_msg_ok(
            #[trigger] out@[i],
            job_id,
            opt_str_view(query.relative_pattern),
            query.root@,
            query.size_filter,
        ) by {
            assert(out@[i] == with_entries[i]);
        }
    }
    out
}

/// Serve one `ClearCache` command: drop the root named by the context and
/// report whether anything was there.
pub fn execute_clear(job_id: u64, cache: &mut Cache, ctx: &CacheContext) -> (msgs: Vec<
    ScanMessage,
>)
    requires
        old(cache).wf(),
    ensures
        final(cache).wf(),
        final(cache).next_id == old(cache).next_id,
        ({
            let pi = crate::cache::root_path_index_of(old(cache).roots@, ctx.canonical_root@);
            &&& (if pi < 0 {
                final(cache).roots@ == old(cache).roots@
            } else {
                final(cache).roots@ == old(cache).roots@.remove(pi)
            })
            &&& msgs@.len() == 1
            &&& (match msgs@[0] {
                ScanMessage::CacheCleared { job_id: j, root, cleared } => j == job_id && root@
                    == ctx.canonical_root@ && cleared == (pi >= 0),
                _ => false,
            })
        }),
{
    let cleared = cache.clear_root_path(ctx.canonical_root.as_str());
    let mut out: Vec<ScanMessage> = Vec::new();
    out.push(
        ScanMessage::CacheCleared { job_id, root: ctx.canonical_root.clone(), cleared },
    );
    out
}

} // verus!
