//! The persistent entry cache: per-root entry records keyed by relative
//! path, carrying direct and aggregate sizes, timestamps, a last-seen stamp
//! and a dirty flag. Scan sessions buffer their writes and apply them
//! atomically at `finish`, which also removes the records the session did
//! not see and prunes stale ones.

use vstd::prelude::*;

use crate::fs::FileKind;
use crate::paths::{
    dot, dot_string, is_dot, lemma_chain_dot, lemma_chain_parent_closed, lemma_chain_step,
    on_ancestor_chain, parent_of, str_eq,
};
use crate::seq_find::{
    first_index_where, lemma_first_index_where, lemma_first_index_where_is,
    lemma_first_index_where_none,
};

verus! {

/// Schema version written into each root record.
pub const CACHE_SCHEMA_VERSION: i64 = 1;

/// Records older than this many seconds are pruned (30 days).
pub const CACHE_MAX_AGE_SECS: i64 = 60 * 60 * 24 * 30;

/// Seconds between prunes that force one at the next finish.
pub const PRUNE_INTERVAL_SECS: i64 = 3600;

/// One cached filesystem entry under a root.
#[derive(Debug, Clone)]
pub struct CachedEntry {
    pub path: String,
    pub parent: Option<String>,
    pub kind: FileKind,
    pub direct_size: u64,
    pub aggregate_size: u64,
    pub modified: Option<i64>,
    pub created: Option<i64>,
    pub flags: u64,
}

/// Bit 0 of `flags`: do not reuse this entry from cache on the next scan.
pub open spec fn is_dirty(flags: u64) -> bool {
    flags & 1 == 1
}

pub proof fn lemma_or_one_dirty(flags: u64)
    ensures
        is_dirty(flags | 1),
        !is_dirty(0),
{
    assert((flags | 1) & 1 == 1) by (bit_vector);
    assert(0u64 & 1 == 0) by (bit_vector);
}

impl CachedEntry {
    /// A field-by-field copy whose equality with the original is known.
    pub fn snapshot(&self) -> (r: CachedEntry)
        ensures
            r == *self,
    {
        let parent = match &self.parent {
            Some(p) => Some(p.clone()),
            None => None,
        };
        CachedEntry {
            path: self.path.clone(),
            parent,
            kind: self.kind,
            direct_size: self.direct_size,
            aggregate_size: self.aggregate_size,
            modified: self.modified,
            created: self.created,
            flags: self.flags,
        }
    }
}

/// A cached entry together with the stamp of the last session that saw it.
#[derive(Debug, Clone)]
pub struct EntryRow {
    pub data: CachedEntry,
    pub last_seen: i64,
}

/// The predicate "this row is keyed `path`".
pub open spec fn keyed_by(path: Seq<char>) -> spec_fn(EntryRow) -> bool {
    |r: EntryRow| r.data.path@ == path
}

/// Index of the row keyed `path` in `rows`, or `-1`.
pub open spec fn row_index_of(rows: Seq<EntryRow>, path: Seq<char>) -> int {
    first_index_where(rows, keyed_by(path))
}

/// There is a row keyed `path`.
pub open spec fn has_row(rows: Seq<EntryRow>, path: Seq<char>) -> bool {
    row_index_of(rows, path) >= 0
}

/// The row keyed `path` (meaningful only when `has_row`).
pub open spec fn row_of(rows: Seq<EntryRow>, path: Seq<char>) -> EntryRow {
    rows[row_index_of(rows, path)]
}

/// No two rows share a path.
pub open spec fn unique_row_paths(rows: Seq<EntryRow>) -> bool {
    forall|i: int, j: int|
        0 <= i < j < rows.len() ==> rows[i].data.path@ != rows[j].data.path@
}

pub proof fn lemma_row_index_of(rows: Seq<EntryRow>, path: Seq<char>)
    ensures
        -1 <= row_index_of(rows, path) < rows.len(),
        row_index_of(rows, path) >= 0 ==> rows[row_index_of(rows, path)].data.path@ == path,
        row_index_of(rows, path) >= 0 ==> forall|j: int|
            0 <= j < row_index_of(rows, path) ==> rows[j].data.path@ != path,
        row_index_of(rows, path) < 0 ==> forall|j: int|
            0 <= j < rows.len() ==> rows[j].data.path@ != path,
{
    lemma_first_index_where(rows, keyed_by(path));
}

pub proof fn lemma_row_index_of_is(rows: Seq<EntryRow>, path: Seq<char>, i: int)
    requires
        0 <= i < rows.len(),
        rows[i].data.path@ == path,
        forall|j: int| 0 <= j < i ==> rows[j].data.path@ != path,
    ensures
        row_index_of(rows, path) == i,
{
    lemma_first_index_where_is(rows, keyed_by(path), i);
}

pub proof fn lemma_row_index_of_none(rows: Seq<EntryRow>, path: Seq<char>)
    requires
        forall|j: int| 0 <= j < rows.len() ==> rows[j].data.path@ != path,
    ensures
        row_index_of(rows, path) == -1,
{
    lemma_first_index_where_none(rows, keyed_by(path));
}




/// Find the row keyed `path` in a vector of rows.
pub fn find_row(rows: &Vec<EntryRow>, path: &str) -> (r: Option<usize>)
    ensures
        match r {
            Some(i) => row_index_of(rows@, path@) == i as int && i < rows@.len(),
            None => row_index_of(rows@, path@) == -1,
        },
{
    let n = rows.len();
    let mut i: usize = 0;
    while i < n
        invariant
            n == rows@.len(),
            i <= n,
            forall|j: int| 0 <= j < i ==> rows@[j].data.path@ != path@,
        decreases n - i,
    {
        if str_eq(rows[i].data.path.as_str(), path) {
            proof {
                lemma_row_index_of_is(rows@, path@, i as int);
            }
            return Some(i);
        }
        i += 1;
    }
    proof {
        lemma_row_index_of_none(rows@, path@);
    }
    None
}

} // verus!

verus! {

/// The consumer-visible state blob attached to a root.
#[derive(Debug, Clone)]
pub struct UiStateRow {
    pub payload: String,
    pub version: i64,
    pub updated: i64,
}

/// Everything the cache keeps for one root: identity, scan bookkeeping,
/// entry rows and the opaque consumer state.
#[derive(Debug)]
pub struct RootRecord {
    pub id: i64,
    pub canonical_root: String,
    pub last_scan: i64,
    pub scan_count: i64,
    pub last_pruned: i64,
    pub schema_version: i64,
    pub entries: Vec<EntryRow>,
    pub ui_state: Option<UiStateRow>,
}

/// The predicate "this root has id `id`".
pub open spec fn root_id_pred(id: i64) -> spec_fn(RootRecord) -> bool {
    |r: RootRecord| r.id == id
}

/// The predicate "this root manages `path`".
pub open spec fn root_path_pred(path: Seq<char>) -> spec_fn(RootRecord) -> bool {
    |r: RootRecord| r.canonical_root@ == path
}

/// Index of the root with id `id`, or `-1`.
pub open spec fn root_index_of(roots: Seq<RootRecord>, id: i64) -> int {
    first_index_where(roots, root_id_pred(id))
}

/// Index of the root managing `path`, or `-1`.
pub open spec fn root_path_index_of(roots: Seq<RootRecord>, path: Seq<char>) -> int {
    first_index_where(roots, root_path_pred(path))
}

pub proof fn lemma_root_index_of(roots: Seq<RootRecord>, id: i64)
    ensures
        -1 <= root_index_of(roots, id) < roots.len(),
        root_index_of(roots, id) >= 0 ==> roots[root_index_of(roots, id)].id == id,
        root_index_of(roots, id) >= 0 ==> forall|j: int|
            0 <= j < root_index_of(roots, id) ==> roots[j].id != id,
        root_index_of(roots, id) < 0 ==> forall|j: int| 0 <= j < roots.len() ==> roots[j].id != id,
{
    lemma_first_index_where(roots, root_id_pred(id));
    if root_index_of(roots, id) < 0 {
        assert forall|j: int| 0 <= j < roots.len() implies roots[j].id != id by {
            assert(!root_id_pred(id)(roots[j]));
        }
    } else {
        assert forall|j: int| 0 <= j < root_index_of(roots, id) implies roots[j].id != id by {
            assert(!root_id_pred(id)(roots[j]));
        }
    }
}

/// Find the position of the root with id `id`.
pub fn find_root(roots: &Vec<RootRecord>, id: i64) -> (r: Option<usize>)
    ensures
        match r {
            Some(i) => root_index_of(roots@, id) == i as int && i < roots@.len(),
            None => root_index_of(roots@, id) == -1,
        },
{
    let n = roots.len();
    let mut i: usize = 0;
    while i < n
        invariant
            n == roots@.len(),
            i <= n,
            forall|j: int| 0 <= j < i ==> roots@[j].id != id,
        decreases n - i,
    {
        if roots[i].id == id {
            proof {
                lemma_first_index_where_is(roots@, root_id_pred(id), i as int);
            }
            return Some(i);
        }
        i += 1;
    }
    proof {
        lemma_first_index_where_none(roots@, root_id_pred(id));
    }
    None
}

/// Find the position of the root managing `path`.
pub fn find_root_by_path(roots: &Vec<RootRecord>, path: &str) -> (r: Option<usize>)
    ensures
        match r {
            Some(i) => root_path_index_of(roots@, path@) == i as int && i < roots@.len(),
            None => root_path_index_of(roots@, path@) == -1,
        },
{
    let n = roots.len();
    let mut i: usize = 0;
    while i < n
        invariant
            n == roots@.len(),
            i <= n,
            forall|j: int| 0 <= j < i ==> roots@[j].canonical_root@ != path@,
        decreases n - i,
    {
        if str_eq(roots[i].canonical_root.as_str(), path) {
            proof {
                lemma_first_index_where_is(roots@, root_path_pred(path@), i as int);
            }
            return Some(i);
        }
        i += 1;
    }
    proof {
        lemma_first_index_where_none(roots@, root_path_pred(path@));
    }
    None
}

/// The in-memory entry cache: one record per root, ids unique and handed
/// out from `next_id`.
#[derive(Debug)]
pub struct Cache {
    pub roots: Vec<RootRecord>,
    pub next_id: i64,
}

impl Cache {
    /// Well-formedness: unique ids below `next_id`, unique canonical root
    /// paths, unique entry paths within each root.
    pub open spec fn wf(self) -> bool {
        &&& self.next_id >= 1
        &&& forall|i: int, j: int|
            0 <= i < j < self.roots@.len() ==> self.roots@[i].id != self.roots@[j].id
        &&& forall|i: int, j: int|
            0 <= i < j < self.roots@.len() ==> self.roots@[i].canonical_root@
                != self.roots@[j].canonical_root@
        &&& forall|i: int|
            0 <= i < self.roots@.len() ==> 1 <= #[trigger] self.roots@[i].id < self.next_id
        &&& forall|i: int|
            0 <= i < self.roots@.len() ==> unique_row_paths(#[trigger] self.roots@[i].entries@)
    }

    /// An empty cache.
    pub fn new() -> (c: Cache)
        ensures
            c.wf(),
            c.roots@.len() == 0,
    {
        Cache { roots: Vec::new(), next_id: 1 }
    }

    /// The rows of the root with id `root_id` (spec view).
    pub open spec fn rows_of(self, root_id: i64) -> Seq<EntryRow> {
        self.roots@[root_index_of(self.roots@, root_id)].entries@
    }

    /// Read one entry of a root by relative path.
    pub fn entry(&self, root_id: i64, relative: &str) -> (r: Option<CachedEntry>)
        ensures
            ({
                let ri = root_index_of(self.roots@, root_id);
                match r {
                    Some(e) => ri >= 0 && has_row(self.rows_of(root_id), relative@)
                        && e == row_of(self.rows_of(root_id), relative@).data,
                    None => ri < 0 || !has_row(self.rows_of(root_id), relative@),
                }
            }),
    {
        let ri = match find_root(&self.roots, root_id) {
            None => {
                return None;
            },
            Some(ri) => ri,
        };
        match find_row(&self.roots[ri].entries, relative) {
            None => None,
            Some(k) => Some(self.roots[ri].entries[k].data.snapshot()),
        }
    }
}

} // verus!

verus! {

/// `b` is `a` with the dirty bit ORed in, all other fields kept.
pub open spec fn row_dirtied(a: EntryRow, b: EntryRow) -> bool {
    &&& b.data.path == a.data.path
    &&& b.data.parent == a.data.parent
    &&& b.data.kind == a.data.kind
    &&& b.data.direct_size == a.data.direct_size
    &&& b.data.aggregate_size == a.data.aggregate_size
    &&& b.data.modified == a.data.modified
    &&& b.data.created == a.data.created
    &&& b.data.flags == (a.data.flags | 1)
    &&& b.last_seen == a.last_seen
}

/// `b` is `a` with exactly the row keyed `path` (if any) dirtied.
pub open spec fn rows_mark_one(a: Seq<EntryRow>, b: Seq<EntryRow>, path: Seq<char>) -> bool {
    &&& b.len() == a.len()
    &&& forall|j: int|
        0 <= j < a.len() && a[j].data.path@ != path ==> b[j] == a[j]
    &&& forall|j: int|
        0 <= j < a.len() && a[j].data.path@ == path ==> row_dirtied(a[j], b[j])
}

/// `b` is `a` with exactly the rows keyed by an ancestor of `rel` (`rel`
/// itself and `.` included) dirtied.
pub open spec fn rows_mark_chain(a: Seq<EntryRow>, b: Seq<EntryRow>, rel: Seq<char>) -> bool {
    &&& b.len() == a.len()
    &&& forall|j: int|
        0 <= j < a.len() && !on_ancestor_chain(a[j].data.path@, rel) ==> b[j] == a[j]
    &&& forall|j: int|
        0 <= j < a.len() && on_ancestor_chain(a[j].data.path@, rel) ==> row_dirtied(a[j], b[j])
}

/// Both sequences agree everywhere but at `i`.
pub open spec fn roots_unchanged_except(a: Seq<RootRecord>, b: Seq<RootRecord>, i: int) -> bool {
    &&& b.len() == a.len()
    &&& forall|j: int| 0 <= j < a.len() && j != i ==> b[j] == a[j]
}

/// The two records agree on everything but their entry rows.
pub open spec fn root_same_meta(a: RootRecord, b: RootRecord) -> bool {
    &&& b.id == a.id
    &&& b.canonical_root == a.canonical_root
    &&& b.last_scan == a.last_scan
    &&& b.scan_count == a.scan_count
    &&& b.last_pruned == a.last_pruned
    &&& b.schema_version == a.schema_version
    &&& b.ui_state == a.ui_state
}

impl Cache {
    /// OR the dirty bit into the one entry of `root_id` keyed `relative`.
    /// An unknown root or path changes nothing.
    pub fn mark_dirty(&mut self, root_id: i64, relative: &str)
        requires
            old(self).wf(),
        ensures
            final(self).wf(),
            final(self).next_id == old(self).next_id,
            ({
                let ri = root_index_of(old(self).roots@, root_id);
                if ri < 0 {
                    final(self).roots@ == old(self).roots@
                } else {
                    &&& roots_unchanged_except(old(self).roots@, final(self).roots@, ri)
                    &&& root_same_meta(old(self).roots@[ri], final(self).roots@[ri])
                    &&& rows_mark_one(
                        old(self).roots@[ri].entries@,
                        final(self).roots@[ri].entries@,
                        relative@,
                    )
                }
            }),
    {
        let ri = match find_root(&self.roots, root_id) {
            None => {
                return;
            },
            Some(ri) => ri,
        };
        let k = match find_row(&self.roots[ri].entries, relative) {
            None => {
                proof {
                    let rows = self.roots@[ri as int].entries@;
                    lemma_row_index_of(rows, relative@);
                }
                return;
            },
            Some(k) => k,
        };
        proof {
            let rows = self.roots@[ri as int].entries@;
            lemma_row_index_of(rows, relative@);
            assert(unique_row_paths(rows));
        }
        let ghost old_rows = self.roots@[ri as int].entries@;
        let row = &mut self.roots[ri].entries[k];
        row.data.flags = row.data.flags | 1;
        proof {
            let new_rows = self.roots@[ri as int].entries@;
            assert forall|j: int|
                0 <= j < old_rows.len() && old_rows[j].data.path@ == relative@
                    implies row_dirtied(old_rows[j], new_rows[j]) by {
                if j != k as int {
                    assert(old_rows[j].data.path@ != relative@);
                }
            }
        }
    }

    /// Walk from `relative` up through `.`, ORing the dirty bit into every
    /// entry of `root_id` found along the chain; levels with no entry are
    /// passed over.
    pub fn mark_ancestors_dirty(&mut self, root_id: i64, relative: &str)
        requires
            old(self).wf(),
        ensures
            final(self).wf(),
            final(self).next_id == old(self).next_id,
            ({
                let ri = root_index_of(old(self).roots@, root_id);
                if ri < 0 {
                    final(self).roots@ == old(self).roots@
                } else {
                    &&& roots_unchanged_except(old(self).roots@, final(self).roots@, ri)
                    &&& root_same_meta(old(self).roots@[ri], final(self).roots@[ri])
                    &&& rows_mark_chain(
                        old(self).roots@[ri].entries@,
                        final(self).roots@[ri].entries@,
                        relative@,
                    )
                }
            }),
    {
        let ri = match find_root(&self.roots, root_id) {
            None => {
                return;
            },
            Some(ri) => ri,
        };
        let ghost orig = self.roots@[ri as int].entries@;
        let mut current: String = relative.to_owned();
        let mut active: bool = true;
        proof {
            crate::paths::lemma_chain_self(relative@);
        }
        while active
            invariant
                self.wf(),
                ri < self.roots@.len(),
                self.next_id == old(self).next_id,
                roots_unchanged_except(old(self).roots@, self.roots@, ri as int),
                root_same_meta(old(self).roots@[ri as int], self.roots@[ri as int]),
                orig == old(self).roots@[ri as int].entries@,
                ({
                    let b = self.roots@[ri as int].entries@;
                    &&& b.len() == orig.len()
                    &&& if active {
                        &&& on_ancestor_chain(current@, relative@)
                        &&& forall|j: int|
                            0 <= j < orig.len() && !(on_ancestor_chain(
                                orig[j].data.path@,
                                relative@,
                            ) && !on_ancestor_chain(orig[j].data.path@, current@)) ==> b[j]
                                == orig[j]
                        &&& forall|j: int|
                            0 <= j < orig.len() && (on_ancestor_chain(
                                orig[j].data.path@,
                                relative@,
                            ) && !on_ancestor_chain(orig[j].data.path@, current@))
                                ==> row_dirtied(orig[j], b[j])
                    } else {
                        rows_mark_chain(orig, b, relative@)
                    }
                }),
            decreases (if !active {
                0int
            } else if current@ == dot() {
                1int
            } else {
                2int
            }), current@.len() as int,
        {
            let ghost pre_rows = self.roots@[ri as int].entries@;
            proof {
                crate::paths::lemma_chain_self(current@);
            }
            match find_row(&self.roots[ri].entries, current.as_str()) {
                None => {
                    proof {
                        lemma_row_index_of(pre_rows, current@);
                    }
                },
                Some(k) => {
                    proof {
                        lemma_row_index_of(pre_rows, current@);
                    }
                    let row = &mut self.roots[ri].entries[k];
                    row.data.flags = row.data.flags | 1;
                },
            }
            proof {
                let mid = self.roots@[ri as int].entries@;
                assert forall|j: int|
                    0 <= j < pre_rows.len() && pre_rows[j].data.path@ != current@
                        implies mid[j] == pre_rows[j] by {}
            }
            let next = crate::paths::parent_relative(current.as_str());
            proof {
                let mid = self.roots@[ri as int].entries@;
                crate::paths::lemma_parent_shape(current@);
                if current@ == dot() || current@.len() == 0 {
                    if current@ == dot() {
                        lemma_chain_dot(current@);
                    }
                    assert(parent_of(current@) is None);
                    assert forall|j: int|
                        0 <= j < orig.len() && on_ancestor_chain(orig[j].data.path@, relative@)
                            implies row_dirtied(orig[j], mid[j]) by {
                        let p = orig[j].data.path@;
                        if on_ancestor_chain(p, current@) {
                            assert(p == current@);
                        }
                    }
                    assert forall|j: int|
                        0 <= j < orig.len() && !on_ancestor_chain(orig[j].data.path@, relative@)
                            implies mid[j] == orig[j] by {
                        let p = orig[j].data.path@;
                        assert(p != current@);
                    }
                } else {
                    lemma_chain_step(current@);
                    let nx = parent_of(current@).unwrap();
                    lemma_chain_parent_closed(current@, relative@);
                    assert forall|j: int|
                        0 <= j < orig.len() && (on_ancestor_chain(orig[j].data.path@, relative@)
                            && !on_ancestor_chain(orig[j].data.path@, nx))
                            implies row_dirtied(orig[j], mid[j]) by {
                        let p = orig[j].data.path@;
                        if on_ancestor_chain(p, current@) {
                            assert(p == current@);
                        }
                    }
                    assert forall|j: int|
                        0 <= j < orig.len() && !(on_ancestor_chain(orig[j].data.path@, relative@)
                            && !on_ancestor_chain(orig[j].data.path@, nx)) implies mid[j]
                            == orig[j] by {
                        let p = orig[j].data.path@;
                        assert(p != current@);
                    }
                }
            }
            match next {
                None => {
                    active = false;
                },
                Some(p) => {
                    current = p;
                },
            }
        }
    }
}

} // verus!

verus! {

/// Relies on chrono's `Utc::now`: seconds since the Unix epoch at the call.
/// chrono aborts when the system clock reads before the Unix epoch — an
/// environment condition, not a function of any input.
#[verifier::external_body]
pub(crate) fn now_timestamp() -> i64 {
    chrono::Utc::now().timestamp()
}

/// The two records agree on everything but their entry rows and UI state.
pub open spec fn root_same_core(a: RootRecord, b: RootRecord) -> bool {
    &&& b.id == a.id
    &&& b.canonical_root == a.canonical_root
    &&& b.last_scan == a.last_scan
    &&& b.scan_count == a.scan_count
    &&& b.last_pruned == a.last_pruned
    &&& b.schema_version == a.schema_version
}

/// Does the stored parent of `r` equal `parent`?
pub open spec fn parent_matches(r: EntryRow, parent: Option<Seq<char>>) -> bool {
    match (r.data.parent, parent) {
        (Option::None, Option::None) => true,
        (Option::Some(a), Option::Some(b)) => a@ == b,
        _ => false,
    }
}

/// The entries of `rows` whose stored parent is `parent`, in storage order.
pub open spec fn children_of_spec(rows: Seq<EntryRow>, parent: Option<Seq<char>>) -> Seq<
    CachedEntry,
>
    decreases rows.len(),
{
    if rows.len() == 0 {
        Seq::empty()
    } else {
        let pre = children_of_spec(rows.drop_last(), parent);
        if parent_matches(rows.last(), parent) {
            pre.push(rows.last().data)
        } else {
            pre
        }
    }
}

pub proof fn lemma_root_path_index_of(roots: Seq<RootRecord>, path: Seq<char>)
    ensures
        -1 <= root_path_index_of(roots, path) < roots.len(),
        root_path_index_of(roots, path) >= 0 ==> roots[root_path_index_of(
            roots,
            path,
        )].canonical_root@ == path,
        root_path_index_of(roots, path) < 0 ==> forall|j: int|
            0 <= j < roots.len() ==> roots[j].canonical_root@ != path,
{
    lemma_first_index_where(roots, root_path_pred(path));
    if root_path_index_of(roots, path) < 0 {
        assert forall|j: int| 0 <= j < roots.len() implies roots[j].canonical_root@ != path by {
            assert(!root_path_pred(path)(roots[j]));
        }
    }
}

impl Cache {
    /// The entries of root `root_id` whose stored parent is `parent`; the
    /// empty string asks for the rows with no parent (the root entry `.`).
    pub fn children_of(&self, root_id: i64, parent: &str) -> (r: Vec<CachedEntry>)
        ensures
            ({
                let ri = root_index_of(self.roots@, root_id);
                let popt = if parent@.len() == 0 {
                    None::<Seq<char>>
                } else {
                    Some(parent@)
                };
                if ri < 0 {
                    r@.len() == 0
                } else {
                    r@ == children_of_spec(self.rows_of(root_id), popt)
                }
            }),
    {
        let ghost popt = if parent@.len() == 0 {
            None::<Seq<char>>
        } else {
            Some(parent@)
        };
        let parent_empty = parent.is_empty();
        let mut r: Vec<CachedEntry> = Vec::new();
        let ri = match find_root(&self.roots, root_id) {
            None => {
                return r;
            },
            Some(ri) => ri,
        };
        let n = self.roots[ri].entries.len();
        let ghost rows = self.roots@[ri as int].entries@;
        let mut k: usize = 0;
        while k < n
            invariant
                ri < self.roots@.len(),
                rows == self.roots@[ri as int].entries@,
                n == rows.len(),
                k <= n,
                parent_empty == (parent@.len() == 0),
                popt == (if parent@.len() == 0 {
                    None::<Seq<char>>
                } else {
                    Some(parent@)
                }),
                r@ == children_of_spec(rows.subrange(0, k as int), popt),
            decreases n - k,
        {
            let row = &self.roots[ri].entries[k];
            let included = match &row.data.parent {
                None => parent_empty,
                Some(p) => !parent_empty && str_eq(p.as_str(), parent),
            };
            proof {
                let pre = rows.subrange(0, k as int);
                let ext = rows.subrange(0, k as int + 1);
                assert(ext.drop_last() =~= pre);
                assert(ext.last() == rows[k as int]);
                assert(included == parent_matches(rows[k as int], popt));
            }
            if included {
                r.push(row.data.snapshot());
            }
            k += 1;
        }
        proof {
            assert(rows.subrange(0, n as int) =~= rows);
        }
        r
    }

    /// Delete the one entry of `root_id` keyed `relative`, if present.
    pub fn remove_entry(&mut self, root_id: i64, relative: &str)
        requires
            old(self).wf(),
        ensures
            final(self).wf(),
            final(self).next_id == old(self).next_id,
            ({
                let ri = root_index_of(old(self).roots@, root_id);
                if ri < 0 {
                    final(self).roots@ == old(self).roots@
                } else {
                    &&& roots_unchanged_except(old(self).roots@, final(self).roots@, ri)
                    &&& root_same_core(old(self).roots@[ri], final(self).roots@[ri])
                    &&& final(self).roots@[ri].ui_state == old(self).roots@[ri].ui_state
                    &&& ({
                        let rows = old(self).roots@[ri].entries@;
                        let k = row_index_of(rows, relative@);
                        if k < 0 {
                            final(self).roots@[ri].entries@ == rows
                        } else {
                            final(self).roots@[ri].entries@ == rows.remove(k)
                        }
                    })
                }
            }),
    {
        let ri = match find_root(&self.roots, root_id) {
            None => {
                return;
            },
            Some(ri) => ri,
        };
        let k = match find_row(&self.roots[ri].entries, relative) {
            None => {
                return;
            },
            Some(k) => k,
        };
        let ghost rows = self.roots@[ri as int].entries@;
        let row = &mut self.roots[ri];
        row.entries.remove(k);
        proof {
            rows.remove_ensures(k as int);
            let b = self.roots@[ri as int].entries@;
            assert forall|x: int, y: int| 0 <= x < y < b.len() implies b[x].data.path@
                != b[y].data.path@ by {
                if y < k as int {
                    assert(b[x] == rows[x] && b[y] == rows[y]);
                } else if x < k as int {
                    assert(b[x] == rows[x] && b[y] == rows[y + 1]);
                } else {
                    assert(b[x] == rows[x + 1] && b[y] == rows[y + 1]);
                }
            }
        }
    }

    /// Store the consumer's opaque state blob for a root, tagged with its
    /// own version number.
    pub fn save_ui_state(&mut self, root_id: i64, state_json: &str, state_version: i64)
        requires
            old(self).wf(),
        ensures
            final(self).wf(),
            final(self).next_id == old(self).next_id,
            ({
                let ri = root_index_of(old(self).roots@, root_id);
                if ri < 0 {
                    final(self).roots@ == old(self).roots@
                } else {
                    &&& roots_unchanged_except(old(self).roots@, final(self).roots@, ri)
                    &&& root_same_core(old(self).roots@[ri], final(self).roots@[ri])
                    &&& final(self).roots@[ri].entries == old(self).roots@[ri].entries
                    &&& match final(self).roots@[ri].ui_state {
                        Some(u) => u.payload@ == state_json@ && u.version == state_version,
                        None => false,
                    }
                }
            }),
    {
        let ri = match find_root(&self.roots, root_id) {
            None => {
                return;
            },
            Some(ri) => ri,
        };
        let now = now_timestamp();
        let row = &mut self.roots[ri];
        row.ui_state = Some(
            UiStateRow { payload: state_json.to_owned(), version: state_version, updated: now },
        );
    }

    /// Read back the stored state blob and its version, unchanged.
    pub fn load_ui_state(&self, root_id: i64) -> (r: Option<(String, i64)>)
        ensures
            ({
                let ri = root_index_of(self.roots@, root_id);
                match r {
                    Some(p) => ri >= 0 && match self.roots@[ri].ui_state {
                        Some(u) => p.0@ == u.payload@ && p.1 == u.version,
                        None => false,
                    },
                    None => ri < 0 || self.roots@[ri].ui_state is None,
                }
            }),
    {
        let ri = match find_root(&self.roots, root_id) {
            None => {
                return None;
            },
            Some(ri) => ri,
        };
        match &self.roots[ri].ui_state {
            None => None,
            Some(u) => Some((u.payload.clone(), u.version)),
        }
    }

    /// Return the id of the root managing `canonical_root`, creating the
    /// record if it is new; an existing record only has its schema version
    /// rewritten.
    pub fn resolve_root(&mut self, canonical_root: &str) -> (id: i64)
        requires
            old(self).wf(),
            old(self).next_id < i64::MAX,
        ensures
            final(self).wf(),
            ({
                let pi = root_path_index_of(old(self).roots@, canonical_root@);
                if pi >= 0 {
                    &&& id == old(self).roots@[pi].id
                    &&& final(self).next_id == old(self).next_id
                    &&& roots_unchanged_except(old(self).roots@, final(self).roots@, pi)
                    &&& final(self).roots@[pi].id == old(self).roots@[pi].id
                    &&& final(self).roots@[pi].canonical_root == old(self).roots@[pi].canonical_root
                    &&& final(self).roots@[pi].last_scan == old(self).roots@[pi].last_scan
                    &&& final(self).roots@[pi].scan_count == old(self).roots@[pi].scan_count
                    &&& final(self).roots@[pi].last_pruned == old(self).roots@[pi].last_pruned
                    &&& final(self).roots@[pi].schema_version == CACHE_SCHEMA_VERSION
                    &&& final(self).roots@[pi].entries == old(self).roots@[pi].entries
                    &&& final(self).roots@[pi].ui_state == old(self).roots@[pi].ui_state
                } else {
                    &&& id == old(self).next_id
                    &&& final(self).next_id == old(self).next_id + 1
                    &&& final(self).roots@.len() == old(self).roots@.len() + 1
                    &&& (forall|j: int|
                        0 <= j < old(self).roots@.len() ==> final(self).roots@[j] == old(
                            self,
                        ).roots@[j])
                    &&& ({
                        let nr = final(self).roots@[old(self).roots@.len() as int];
                        &&& nr.id == id
                        &&& nr.canonical_root@ == canonical_root@
                        &&& nr.scan_count == 0
                        &&& nr.last_pruned == 0
                        &&& nr.schema_version == CACHE_SCHEMA_VERSION
                        &&& nr.entries@.len() == 0
                        &&& nr.ui_state is None
                    })
                }
            }),
    {
        proof {
            lemma_root_path_index_of(old(self).roots@, canonical_root@);
        }
        match find_root_by_path(&self.roots, canonical_root) {
            Some(pi) => {
                let row = &mut self.roots[pi];
                row.schema_version = CACHE_SCHEMA_VERSION;
                self.roots[pi].id
            },
            None => {
                let id = self.next_id;
                let now = now_timestamp();
                let record = RootRecord {
                    id,
                    canonical_root: canonical_root.to_owned(),
                    last_scan: now,
                    scan_count: 0,
                    last_pruned: 0,
                    schema_version: CACHE_SCHEMA_VERSION,
                    entries: Vec::new(),
                    ui_state: None,
                };
                self.roots.push(record);
                self.next_id = self.next_id + 1;
                id
            },
        }
    }

    /// Remove a root and everything under it; reports whether one existed.
    pub fn clear_root_path(&mut self, canonical_root: &str) -> (cleared: bool)
        requires
            old(self).wf(),
        ensures
            final(self).wf(),
            final(self).next_id == old(self).next_id,
            ({
                let pi = root_path_index_of(old(self).roots@, canonical_root@);
                if pi < 0 {
                    final(self).roots@ == old(self).roots@ && !cleared
                } else {
                    final(self).roots@ == old(self).roots@.remove(pi) && cleared
                }
            }),
    {
        let pi = match find_root_by_path(&self.roots, canonical_root) {
            None => {
                return false;
            },
            Some(pi) => pi,
        };
        let ghost roots = self.roots@;
        self.roots.remove(pi);
        proof {
            roots.remove_ensures(pi as int);
            let b = self.roots@;
            assert forall|x: int, y: int| 0 <= x < y < b.len() implies b[x].id != b[y].id
                && b[x].canonical_root@ != b[y].canonical_root@ by {
                if y < pi as int {
                } else if x < pi as int {
                    assert(b[y] == roots[y + 1]);
                } else {
                    assert(b[x] == roots[x + 1] && b[y] == roots[y + 1]);
                }
            }
        }
        true
    }

    /// Resolve a root and hand back all of its cached entries.
    pub fn load_root(&mut self, canonical_root: &str) -> (rc: RootCache)
        requires
            old(self).wf(),
            old(self).next_id < i64::MAX,
        ensures
            final(self).wf(),
            ({
                let pi = root_path_index_of(final(self).roots@, canonical_root@);
                &&& pi >= 0
                &&& rc.root_id == final(self).roots@[pi].id
                &&& rc.entries@.len() == final(self).roots@[pi].entries@.len()
                &&& (forall|j: int|
                    0 <= j < rc.entries@.len() ==> rc.entries@[j]
                        == final(self).roots@[pi].entries@[j].data)
            }),
    {
        let id = self.resolve_root(canonical_root);
        proof {
            lemma_root_path_index_of(old(self).roots@, canonical_root@);
            lemma_root_path_index_of(self.roots@, canonical_root@);
            let oldpi = root_path_index_of(old(self).roots@, canonical_root@);
            let pi = root_path_index_of(self.roots@, canonical_root@);
            if oldpi >= 0 {
                if pi != oldpi {
                    if pi >= 0 {
                        assert(self.roots@[pi].canonical_root@ == canonical_root@);
                        if pi < oldpi {
                            assert(self.roots@[pi] == old(self).roots@[pi]);
                        } else {
                            assert(self.roots@[oldpi].canonical_root@ == canonical_root@);
                        }
                    } else {
                        assert(self.roots@[oldpi].canonical_root@ == canonical_root@);
                    }
                }
            } else {
                let last = old(self).roots@.len() as int;
                assert(self.roots@[last].canonical_root@ == canonical_root@);
                if pi < 0 {
                    assert(false);
                } else if pi < last {
                    assert(self.roots@[pi] == old(self).roots@[pi]);
                    assert(root_path_index_of(old(self).roots@, canonical_root@) < 0);
                }
            }
        }
        let pi = match find_root_by_path(&self.roots, canonical_root) {
            None => {
                proof {
                    assert(false);
                }
                return RootCache { root_id: id, entries: Vec::new() };
            },
            Some(pi) => pi,
        };
        let n = self.roots[pi].entries.len();
        let mut entries: Vec<CachedEntry> = Vec::new();
        let mut j: usize = 0;
        while j < n
            invariant
                pi < self.roots@.len(),
                n == self.roots@[pi as int].entries@.len(),
                j <= n,
                entries@.len() == j,
                forall|x: int|
                    0 <= x < j ==> entries@[x] == self.roots@[pi as int].entries@[x].data,
            decreases n - j,
        {
            entries.push(self.roots[pi].entries[j].data.snapshot());
            j += 1;
        }
        RootCache { root_id: self.roots[pi].id, entries }
    }
}

/// All entries a root holds, as handed back by `load_root`.
#[derive(Debug)]
pub struct RootCache {
    pub root_id: i64,
    pub entries: Vec<CachedEntry>,
}

} // verus!

verus! {

/// One buffered write applied to the rows: replace the row with the same
/// path, or append.
pub open spec fn upsert_one(rows: Seq<EntryRow>, e: EntryRow) -> Seq<EntryRow> {
    let k = row_index_of(rows, e.data.path@);
    if k >= 0 {
        rows.update(k, e)
    } else {
        rows.push(e)
    }
}

/// All buffered writes of a session, applied in order.
pub open spec fn apply_upserts(rows: Seq<EntryRow>, pending: Seq<EntryRow>) -> Seq<EntryRow>
    decreases pending.len(),
{
    if pending.len() == 0 {
        rows
    } else {
        apply_upserts(upsert_one(rows, pending[0]), pending.drop_first())
    }
}

pub proof fn lemma_apply_upserts_push(rows: Seq<EntryRow>, pending: Seq<EntryRow>, e: EntryRow)
    ensures
        apply_upserts(rows, pending.push(e)) == upsert_one(apply_upserts(rows, pending), e),
    decreases pending.len(),
{
    if pending.len() == 0 {
        assert(pending.push(e).drop_first() =~= Seq::<EntryRow>::empty());
        assert(apply_upserts(rows, pending.push(e)) == apply_upserts(
            upsert_one(rows, e),
            Seq::<EntryRow>::empty(),
        ));
    } else {
        assert(pending.push(e).drop_first() =~= pending.drop_first().push(e));
        assert(pending.push(e)[0] == pending[0]);
        lemma_apply_upserts_push(upsert_one(rows, pending[0]), pending.drop_first(), e);
    }
}

pub proof fn lemma_upsert_one_unique(rows: Seq<EntryRow>, e: EntryRow)
    requires
        unique_row_paths(rows),
    ensures
        unique_row_paths(upsert_one(rows, e)),
{
    lemma_row_index_of(rows, e.data.path@);
    let k = row_index_of(rows, e.data.path@);
    let b = upsert_one(rows, e);
    if k >= 0 {
        assert forall|x: int, y: int| 0 <= x < y < b.len() implies b[x].data.path@
            != b[y].data.path@ by {
            if x == k {
                assert(b[y] == rows[y]);
                assert(rows[k].data.path@ != rows[y].data.path@);
            } else if y == k {
                assert(b[x] == rows[x]);
                assert(rows[x].data.path@ != rows[k].data.path@);
            }
        }
    } else {
        assert forall|x: int, y: int| 0 <= x < y < b.len() implies b[x].data.path@
            != b[y].data.path@ by {
            if y == rows.len() as int {
                assert(b[x] == rows[x]);
                assert(rows[x].data.path@ != e.data.path@);
            }
        }
    }
}

pub proof fn lemma_apply_upserts_unique(rows: Seq<EntryRow>, pending: Seq<EntryRow>)
    requires
        unique_row_paths(rows),
    ensures
        unique_row_paths(apply_upserts(rows, pending)),
    decreases pending.len(),
{
    if pending.len() > 0 {
        lemma_upsert_one_unique(rows, pending[0]);
        lemma_apply_upserts_unique(upsert_one(rows, pending[0]), pending.drop_first());
    }
}

/// Every element of a filtered sequence comes from the original.
pub proof fn lemma_filter_elem(s: Seq<EntryRow>, p: spec_fn(EntryRow) -> bool, i: int)
    requires
        0 <= i < s.filter(p).len(),
    ensures
        exists|j: int| 0 <= j < s.len() && s[j] == s.filter(p)[i],
    decreases s.len(),
{
    reveal(Seq::filter);
    if s.len() > 0 {
        let dl = s.drop_last();
        if i < dl.filter(p).len() {
            lemma_filter_elem(dl, p, i);
            let j = choose|j: int| 0 <= j < dl.len() && dl[j] == dl.filter(p)[i];
            assert(s[j] == s.filter(p)[i]);
        } else {
            assert(s[s.len() - 1] == s.filter(p)[i]);
        }
    }
}

/// Filtering keeps entry paths unique.
pub proof fn lemma_filter_unique_paths(s: Seq<EntryRow>, p: spec_fn(EntryRow) -> bool)
    requires
        unique_row_paths(s),
    ensures
        unique_row_paths(s.filter(p)),
    decreases s.len(),
{
    reveal(Seq::filter);
    if s.len() > 0 {
        let dl = s.drop_last();
        lemma_filter_unique_paths(dl, p);
        let f = s.filter(p);
        assert forall|x: int, y: int| 0 <= x < y < f.len() implies f[x].data.path@
            != f[y].data.path@ by {
            if y < dl.filter(p).len() {
                assert(dl.filter(p)[x] == f[x] && dl.filter(p)[y] == f[y]);
            } else {
                assert(f[y] == s.last());
                lemma_filter_elem(dl, p, x);
                let j = choose|j: int| 0 <= j < dl.len() && dl[j] == dl.filter(p)[x];
                assert(s[j] == f[x]);
                assert(s[j].data.path@ != s[s.len() - 1].data.path@);
            }
        }
    }
}

/// The predicate "this row was stamped by the session at `ts`".
pub open spec fn seen_pred(ts: i64) -> spec_fn(EntryRow) -> bool {
    |r: EntryRow| r.last_seen == ts
}

/// The predicate "this row is not older than `cutoff`".
pub open spec fn age_pred(cutoff: i64) -> spec_fn(EntryRow) -> bool {
    |r: EntryRow| r.last_seen >= cutoff
}

/// `i64` subtraction pinned at the ends of the range.
pub open spec fn sat_sub_i64(a: i64, b: i64) -> i64 {
    if a - b < i64::MIN {
        i64::MIN
    } else if a - b > i64::MAX {
        i64::MAX
    } else {
        (a - b) as i64
    }
}

/// `i64` increment pinned at the top of the range.
pub open spec fn sat_inc_i64(a: i64) -> i64 {
    if a == i64::MAX {
        i64::MAX
    } else {
        (a + 1) as i64
    }
}

/// When a finishing session prunes: the clock went backward, an hour has
/// passed since the last prune, or the new scan count divides by five.
pub open spec fn should_prune(scan_ts: i64, last_pruned: i64, new_count: i64) -> bool {
    scan_ts <= last_pruned || sat_sub_i64(scan_ts, last_pruned) >= PRUNE_INTERVAL_SECS
        || new_count % 5 == 0
}

/// A write session over one root, stamped with `scan_ts`. Writes are
/// buffered: until `finish` is called the cache is untouched, and a session
/// that is dropped leaves no trace.
#[derive(Debug)]
pub struct ScanSession {
    pub root_id: i64,
    pub scan_ts: i64,
    pub pending: Vec<EntryRow>,
}

impl ScanSession {
    /// Buffered rows carry the session stamp and a clear dirty flag.
    pub open spec fn wf(self) -> bool {
        forall|i: int|
            0 <= i < self.pending@.len() ==> (#[trigger] self.pending@[i]).last_seen
                == self.scan_ts && self.pending@[i].data.flags == 0
    }

    /// Buffer one insert-or-update. The row it writes carries the given
    /// fields, `last_seen` equal to the session stamp, and `flags` zero:
    /// upserting clears the dirty bit.
    pub fn upsert_entry(
        &mut self,
        relative: &str,
        parent: Option<&str>,
        kind: FileKind,
        direct_size: u64,
        aggregate_size: u64,
        modified: Option<i64>,
        created: Option<i64>,
    )
        requires
            old(self).wf(),
        ensures
            final(self).wf(),
            final(self).root_id == old(self).root_id,
            final(self).scan_ts == old(self).scan_ts,
            final(self).pending@.len() == old(self).pending@.len() + 1,
            final(self).pending@.drop_last() == old(self).pending@,
            ({
                let nr = final(self).pending@.last();
                &&& nr.data.path@ == relative@
                &&& (match (parent, nr.data.parent) {
                    (Option::None, Option::None) => true,
                    (Option::Some(p), Option::Some(q)) => q@ == p@,
                    _ => false,
                })
                &&& nr.data.kind == kind
                &&& nr.data.direct_size == direct_size
                &&& nr.data.aggregate_size == aggregate_size
                &&& nr.data.modified == modified
                &&& nr.data.created == created
                &&& nr.data.flags == 0
                &&& nr.last_seen == old(self).scan_ts
            }),
    {
        let parent_string = match parent {
            None => None,
            Some(p) => Some(p.to_owned()),
        };
        let row = EntryRow {
            data: CachedEntry {
                path: relative.to_owned(),
                parent: parent_string,
                kind,
                direct_size,
                aggregate_size,
                modified,
                created,
                flags: 0,
            },
            last_seen: self.scan_ts,
        };
        self.pending.push(row);
        proof {
            assert(self.pending@.drop_last() =~= old(self).pending@);
        }
    }
}

impl EntryRow {
    /// A field-by-field copy whose equality with the original is known.
    pub fn snapshot(&self) -> (r: EntryRow)
        ensures
            r == *self,
    {
        EntryRow { data: self.data.snapshot(), last_seen: self.last_seen }
    }
}

} // verus!

verus! {

/// `a + 1` pinned at `i64::MAX`.
fn sat_inc_i64_exec(a: i64) -> (r: i64)
    ensures
        r == sat_inc_i64(a),
{
    match a.checked_add(1) {
        Some(v) => v,
        None => i64::MAX,
    }
}

/// `a - b` pinned at the ends of the `i64` range.
fn sat_sub_i64_exec(a: i64, b: i64) -> (r: i64)
    ensures
        r == sat_sub_i64(a, b),
{
    match a.checked_sub(b) {
        Some(v) => v,
        None => {
            if b > 0 {
                i64::MIN
            } else {
                i64::MAX
            }
        },
    }
}

impl Cache {
    /// Open a write session over `root_id`, stamped with the current time.
    pub fn begin_scan(&self, root_id: i64) -> (s: ScanSession)
        ensures
            s.wf(),
            s.root_id == root_id,
            s.pending@.len() == 0,
    {
        self.begin_scan_at(root_id, now_timestamp())
    }

    /// Open a write session over `root_id` with a caller-chosen stamp, for
    /// consumers that keep their own monotonic clock.
    pub fn begin_scan_at(&self, root_id: i64, scan_ts: i64) -> (s: ScanSession)
        ensures
            s.wf(),
            s.root_id == root_id,
            s.scan_ts == scan_ts,
            s.pending@.len() == 0,
    {
        ScanSession { root_id, scan_ts, pending: Vec::new() }
    }
}

impl ScanSession {
    /// Apply the session to the cache: play the buffered upserts in order,
    /// delete every row of the root that this session did not stamp, update
    /// the root's scan bookkeeping, and prune when the pruning policy says
    /// so. An unknown root leaves the cache unchanged, as does dropping the
    /// session instead of finishing it.
    ///
    /// Pruning never removes a row stamped by this session: every row
    /// carrying `scan_ts` survives into the final state.
    pub fn finish(self, cache: &mut Cache)
        requires
            old(cache).wf(),
            self.wf(),
        ensures
            final(cache).wf(),
            final(cache).next_id == old(cache).next_id,
            ({
                let ri = root_index_of(old(cache).roots@, self.root_id);
                if ri < 0 {
                    final(cache).roots@ == old(cache).roots@
                } else {
                    let rows0 = old(cache).roots@[ri].entries@;
                    let rows1 = apply_upserts(rows0, self.pending@);
                    let rows2 = rows1.filter(seen_pred(self.scan_ts));
                    let newc = sat_inc_i64(old(cache).roots@[ri].scan_count);
                    let prune = should_prune(
                        self.scan_ts,
                        old(cache).roots@[ri].last_pruned,
                        newc,
                    );
                    let cutoff = sat_sub_i64(self.scan_ts, CACHE_MAX_AGE_SECS);
                    let rows3 = if prune {
                        rows2.filter(age_pred(cutoff))
                    } else {
                        rows2
                    };
                    &&& roots_unchanged_except(old(cache).roots@, final(cache).roots@, ri)
                    &&& final(cache).roots@[ri].id == old(cache).roots@[ri].id
                    &&& final(cache).roots@[ri].canonical_root == old(
                        cache,
                    ).roots@[ri].canonical_root
                    &&& final(cache).roots@[ri].schema_version == old(
                        cache,
                    ).roots@[ri].schema_version
                    &&& final(cache).roots@[ri].ui_state == old(cache).roots@[ri].ui_state
                    &&& final(cache).roots@[ri].last_scan == self.scan_ts
                    &&& final(cache).roots@[ri].scan_count == newc
                    &&& final(cache).roots@[ri].last_pruned == (if prune {
                        self.scan_ts
                    } else {
                        old(cache).roots@[ri].last_pruned
                    })
                    &&& final(cache).roots@[ri].entries@ == rows3
                    &&& (forall|j: int|
                        0 <= j < rows1.len() && (#[trigger] rows1[j]).last_seen == self.scan_ts
                            ==> rows3.contains(rows1[j]))
                }
            }),
    {
        let ScanSession { root_id, scan_ts, pending } = self;
        let ghost pending_view = pending@;
        let ri = match find_root(&cache.roots, root_id) {
            None => {
                return;
            },
            Some(ri) => ri,
        };
        let ghost rows0 = cache.roots@[ri as int].entries@;

        let np = pending.len();
        let mut i: usize = 0;
        while i < np
            invariant
                cache.wf(),
                ri < cache.roots@.len(),
                cache.next_id == old(cache).next_id,
                np == pending@.len(),
                pending@ == pending_view,
                i <= np,
                roots_unchanged_except(old(cache).roots@, cache.roots@, ri as int),
                root_same_meta(old(cache).roots@[ri as int], cache.roots@[ri as int]),
                rows0 == old(cache).roots@[ri as int].entries@,
                cache.roots@[ri as int].entries@ == apply_upserts(
                    rows0,
                    pending@.subrange(0, i as int),
                ),
            decreases np - i,
        {
            let ghost cur = cache.roots@[ri as int].entries@;
            let k_opt = find_row(&cache.roots[ri].entries, pending[i].data.path.as_str());
            let e = pending[i].snapshot();
            match k_opt {
                Some(k) => {
                    let slot = &mut cache.roots[ri].entries[k];
                    *slot = e;
                },
                None => {
                    let rr = &mut cache.roots[ri];
                    rr.entries.push(e);
                },
            }
            proof {
                assert(cache.roots@[ri as int].entries@ == upsert_one(cur, pending@[i as int]));
                assert(pending@.subrange(0, i as int + 1) =~= pending@.subrange(
                    0,
                    i as int,
                ).push(pending@[i as int]));
                lemma_apply_upserts_push(rows0, pending@.subrange(0, i as int), pending@[i as int]);
                lemma_upsert_one_unique(cur, pending@[i as int]);
            }
            i += 1;
        }
        proof {
            assert(pending@.subrange(0, np as int) =~= pending@);
        }

        let ghost rows1 = cache.roots@[ri as int].entries@;
        let n1 = cache.roots[ri].entries.len();
        let mut kept: Vec<EntryRow> = Vec::new();
        let mut j: usize = 0;
        while j < n1
            invariant
                ri < cache.roots@.len(),
                rows1 == cache.roots@[ri as int].entries@,
                n1 == rows1.len(),
                j <= n1,
                kept@ == rows1.subrange(0, j as int).filter(seen_pred(scan_ts)),
            decreases n1 - j,
        {
            proof {
                reveal(Seq::filter);
                assert(rows1.subrange(0, j as int + 1).drop_last() =~= rows1.subrange(
                    0,
                    j as int,
                ));
                assert(rows1.subrange(0, j as int + 1).last() == rows1[j as int]);
            }
            if cache.roots[ri].entries[j].last_seen == scan_ts {
                kept.push(cache.roots[ri].entries[j].snapshot());
            }
            j += 1;
        }
        proof {
            assert(rows1.subrange(0, n1 as int) =~= rows1);
            lemma_filter_unique_paths(rows1, seen_pred(scan_ts));
        }

        let new_count = sat_inc_i64_exec(cache.roots[ri].scan_count);
        {
            let rr = &mut cache.roots[ri];
            rr.entries = kept;
            rr.last_scan = scan_ts;
            rr.scan_count = new_count;
        }

        let ghost rows2 = cache.roots@[ri as int].entries@;
        let last_pruned = cache.roots[ri].last_pruned;
        let elapsed = sat_sub_i64_exec(scan_ts, last_pruned);
        let prune = scan_ts <= last_pruned || elapsed >= PRUNE_INTERVAL_SECS || new_count % 5 == 0;
        if prune {
            let cutoff = sat_sub_i64_exec(scan_ts, CACHE_MAX_AGE_SECS);
            let n2 = cache.roots[ri].entries.len();
            let mut fresh: Vec<EntryRow> = Vec::new();
            let mut m: usize = 0;
            while m < n2
                invariant
                    ri < cache.roots@.len(),
                    rows2 == cache.roots@[ri as int].entries@,
                    n2 == rows2.len(),
                    m <= n2,
                    cutoff == sat_sub_i64(scan_ts, CACHE_MAX_AGE_SECS),
                    fresh@ == rows2.subrange(0, m as int).filter(age_pred(cutoff)),
                decreases n2 - m,
            {
                proof {
                    reveal(Seq::filter);
                    assert(rows2.subrange(0, m as int + 1).drop_last() =~= rows2.subrange(
                        0,
                        m as int,
                    ));
                    assert(rows2.subrange(0, m as int + 1).last() == rows2[m as int]);
                }
                if cache.roots[ri].entries[m].last_seen >= cutoff {
                    fresh.push(cache.roots[ri].entries[m].snapshot());
                }
                m += 1;
            }
            proof {
                assert(rows2.subrange(0, n2 as int) =~= rows2);
                lemma_filter_unique_paths(rows2, age_pred(cutoff));
            }
            let rr = &mut cache.roots[ri];
            rr.entries = fresh;
            rr.last_pruned = scan_ts;
        }

        proof {
            let rows3 = cache.roots@[ri as int].entries@;
            let cutoff = sat_sub_i64(scan_ts, CACHE_MAX_AGE_SECS);
            rows1.filter_lemma(seen_pred(scan_ts));
            assert forall|x: int|
                0 <= x < rows1.len() && (#[trigger] rows1[x]).last_seen == scan_ts
                    implies rows3.contains(rows1[x]) by {
                assert(rows2.contains(rows1[x]));
                if prune {
                    let y = choose|y: int| 0 <= y < rows2.len() && rows2[y] == rows1[x];
                    rows2.filter_lemma(age_pred(cutoff));
                    assert(rows2[y].last_seen == scan_ts);
                    assert(cutoff <= scan_ts);
                    assert(rows3.contains(rows2[y]));
                }
            }
        }
    }
}

} // verus!

verus! {

/// Counts and total gathered while validating a subtree.
#[derive(Debug, Clone, Copy, Default, PartialEq, Eq, Structural)]
pub struct AggregateSummary {
    pub entry_count: usize,
    pub directory_count: usize,
    pub total_size: u64,
}

/// Why validation stopped. A parent cycle in stored rows is reported as
/// `DepthExceeded`.
#[derive(Debug)]
pub enum CacheValidationError {
    MissingEntry(String),
    AggregateMismatch { path: String, expected: u64, cached: u64 },
    DepthExceeded(String),
}

/// Spec-level image of a validation error.
pub enum ValidationErrorModel {
    MissingEntry(Seq<char>),
    AggregateMismatch { path: Seq<char>, expected: u64, cached: u64 },
    DepthExceeded(Seq<char>),
}

pub open spec fn err_view(e: CacheValidationError) -> ValidationErrorModel {
    match e {
        CacheValidationError::MissingEntry(p) => ValidationErrorModel::MissingEntry(p@),
        CacheValidationError::AggregateMismatch { path, expected, cached } =>
            ValidationErrorModel::AggregateMismatch { path: path@, expected, cached },
        CacheValidationError::DepthExceeded(p) => ValidationErrorModel::DepthExceeded(p@),
    }
}

/// `usize` addition pinned at the top of the range.
pub open spec fn sat_add_usize(a: usize, b: usize) -> usize {
    if a + b > usize::MAX {
        usize::MAX
    } else {
        (a + b) as usize
    }
}

/// `u64` addition pinned at the top of the range.
pub open spec fn sat_add_u64(a: u64, b: u64) -> u64 {
    if a + b > u64::MAX {
        u64::MAX
    } else {
        (a + b) as u64
    }
}

/// Component-wise saturating sum of two summaries.
pub open spec fn merge_summary(a: AggregateSummary, b: AggregateSummary) -> AggregateSummary {
    AggregateSummary {
        entry_count: sat_add_usize(a.entry_count, b.entry_count),
        directory_count: sat_add_usize(a.directory_count, b.directory_count),
        total_size: sat_add_u64(a.total_size, b.total_size),
    }
}

pub open spec fn zero_summary() -> AggregateSummary {
    AggregateSummary { entry_count: 0, directory_count: 0, total_size: 0 }
}

/// What validating the row at `i` yields: its own summary merged with its
/// children's, or the first inconsistency found. `fuel` bounds the
/// recursion depth.
pub open spec fn verify_row_spec(rows: Seq<EntryRow>, i: int, fuel: nat) -> Result<
    AggregateSummary,
    ValidationErrorModel,
>
    decreases fuel, 0int,
{
    let row = rows[i];
    let base = AggregateSummary {
        entry_count: 1,
        directory_count: if row.data.kind == FileKind::Directory {
            1
        } else {
            0
        },
        total_size: row.data.direct_size,
    };
    let combined: Result<AggregateSummary, ValidationErrorModel> = if row.data.kind
        == FileKind::Directory {
        if fuel == 0 {
            Err(ValidationErrorModel::DepthExceeded(row.data.path@))
        } else {
            match scan_children_spec(
                rows,
                row.data.path@,
                rows.len() as int,
                (fuel - 1) as nat,
            ) {
                Err(e) => Err(e),
                Ok(cs) => Ok(merge_summary(base, cs)),
            }
        }
    } else {
        Ok(base)
    };
    match combined {
        Err(e) => Err(e),
        Ok(s) => {
            if s.total_size != row.data.aggregate_size {
                Err(
                    ValidationErrorModel::AggregateMismatch {
                        path: row.data.path@,
                        expected: s.total_size,
                        cached: row.data.aggregate_size,
                    },
                )
            } else {
                Ok(s)
            }
        },
    }
}

/// Folds `verify_row_spec` over the first `j` rows whose stored parent is
/// `parent`, left to right, stopping at the first error.
pub open spec fn scan_children_spec(
    rows: Seq<EntryRow>,
    parent: Seq<char>,
    j: int,
    fuel: nat,
) -> Result<AggregateSummary, ValidationErrorModel>
    decreases fuel, j + 1,
{
    if j <= 0 {
        Ok(zero_summary())
    } else {
        match scan_children_spec(rows, parent, j - 1, fuel) {
            Err(e) => Err(e),
            Ok(acc) => {
                if 0 <= j - 1 < rows.len() && parent_matches(rows[j - 1], Some(parent)) {
                    match verify_row_spec(rows, j - 1, fuel) {
                        Err(e) => Err(e),
                        Ok(cs) => Ok(merge_summary(acc, cs)),
                    }
                } else {
                    Ok(acc)
                }
            },
        }
    }
}

/// An error among the first `j1` children stays the result of any longer
/// scan.
pub proof fn lemma_scan_err_mono(
    rows: Seq<EntryRow>,
    parent: Seq<char>,
    j1: int,
    j2: int,
    fuel: nat,
    e: ValidationErrorModel,
)
    requires
        0 <= j1 <= j2,
        scan_children_spec(rows, parent, j1, fuel) == Err::<AggregateSummary,
            ValidationErrorModel,
        >(e),
    ensures
        scan_children_spec(rows, parent, j2, fuel) == Err::<AggregateSummary,
            ValidationErrorModel,
        >(e),
    decreases j2 - j1,
{
    if j2 > j1 {
        lemma_scan_err_mono(rows, parent, j1, j2 - 1, fuel, e);
    }
}

/// The recursion budget used by `validate_aggregate`: one level per row,
/// which suffices for any cycle-free parent structure.
pub open spec fn validate_fuel(rows: Seq<EntryRow>) -> nat {
    if rows.len() + 1 <= u64::MAX {
        (rows.len() + 1) as nat
    } else {
        u64::MAX as nat
    }
}

/// What `Cache::validate_aggregate` returns on the rows of one root.
pub open spec fn validate_aggregate_spec(rows: Seq<EntryRow>, rel: Seq<char>) -> Result<
    AggregateSummary,
    ValidationErrorModel,
> {
    let k = row_index_of(rows, rel);
    if k < 0 {
        Err(ValidationErrorModel::MissingEntry(rel))
    } else {
        verify_row_spec(rows, k, validate_fuel(rows))
    }
}

/// Validate the row at `i` and its stored subtree against `verify_row_spec`.
fn verify_row(rows: &Vec<EntryRow>, i: usize, fuel: u64) -> (r: Result<
    AggregateSummary,
    CacheValidationError,
>)
    requires
        i < rows@.len(),
    ensures
        ({
            let spec_r = verify_row_spec(rows@, i as int, fuel as nat);
            match r {
                Ok(s) => spec_r == Ok::<AggregateSummary, ValidationErrorModel>(s),
                Err(e) => spec_r == Err::<AggregateSummary, ValidationErrorModel>(err_view(e)),
            }
        }),
    decreases fuel,
{
    let is_dir = matches!(rows[i].data.kind, FileKind::Directory);
    let base = AggregateSummary {
        entry_count: 1,
        directory_count: if is_dir {
            1
        } else {
            0
        },
        total_size: rows[i].data.direct_size,
    };
    let combined: AggregateSummary;
    if is_dir {
        if fuel == 0 {
            return Err(CacheValidationError::DepthExceeded(rows[i].data.path.clone()));
        }
        let n = rows.len();
        let mut acc = AggregateSummary { entry_count: 0, directory_count: 0, total_size: 0 };
        let mut j: usize = 0;
        while j < n
            invariant
                i < rows@.len(),
                n == rows@.len(),
                j <= n,
                fuel >= 1,
                rows@[i as int].data.kind == FileKind::Directory,
                scan_children_spec(
                    rows@,
                    rows@[i as int].data.path@,
                    j as int,
                    (fuel - 1) as nat,
                ) == Ok::<AggregateSummary, ValidationErrorModel>(acc),
            decreases n - j,
        {
            let is_child = match &rows[j].data.parent {
                None => false,
                Some(p) => str_eq(p.as_str(), rows[i].data.path.as_str()),
            };
            if is_child {
                match verify_row(rows, j, fuel - 1) {
                    Err(e) => {
                        proof {
                            let p = rows@[i as int].data.path@;
                            let f1 = (fuel - 1) as nat;
                            assert(parent_matches(rows@[j as int], Some(p)));
                            assert(scan_children_spec(rows@, p, j as int + 1, f1) == Err::<
                                AggregateSummary,
                                ValidationErrorModel,
                            >(err_view(e)));
                            lemma_scan_err_mono(
                                rows@,
                                p,
                                j as int + 1,
                                rows@.len() as int,
                                f1,
                                err_view(e),
                            );
                            assert(f1 == ((fuel as nat) - 1) as nat);
                            assert(rows@[i as int].data.kind == FileKind::Directory);
                            assert(fuel as nat != 0);
                            assert(verify_row_spec(rows@, i as int, fuel as nat) == Err::<
                                AggregateSummary,
                                ValidationErrorModel,
                            >(err_view(e)));
                        }
                        return Err(e);
                    },
                    Ok(cs) => {
                        acc = AggregateSummary {
                            entry_count: acc.entry_count.saturating_add(cs.entry_count),
                            directory_count: acc.directory_count.saturating_add(
                                cs.directory_count,
                            ),
                            total_size: acc.total_size.saturating_add(cs.total_size),
                        };
                    },
                }
            }
            j += 1;
        }
        combined = AggregateSummary {
            entry_count: base.entry_count.saturating_add(acc.entry_count),
            directory_count: base.directory_count.saturating_add(acc.directory_count),
            total_size: base.total_size.saturating_add(acc.total_size),
        };
        proof {
            assert(combined == merge_summary(base, acc));
        }
    } else {
        combined = base;
    }
    if combined.total_size != rows[i].data.aggregate_size {
        return Err(
            CacheValidationError::AggregateMismatch {
                path: rows[i].data.path.clone(),
                expected: combined.total_size,
                cached: rows[i].data.aggregate_size,
            },
        );
    }
    Ok(combined)
}

impl Cache {
    /// Recursively verify, from `relative` downward, that every directory's
    /// stored aggregate equals its direct size plus the sum of its
    /// children's aggregates, and that every file's aggregate equals its
    /// direct size. On success the summary's total equals the stored
    /// aggregate at the anchor. Totals saturate at the top of their range.
    pub fn validate_aggregate(&self, root_id: i64, relative: &str) -> (r: Result<
        AggregateSummary,
        CacheValidationError,
    >)
        ensures
            ({
                let ri = root_index_of(self.roots@, root_id);
                if ri < 0 {
                    match r {
                        Err(e) => err_view(e) == ValidationErrorModel::MissingEntry(relative@),
                        Ok(_) => false,
                    }
                } else {
                    let rows = self.rows_of(root_id);
                    match r {
                        Ok(s) => validate_aggregate_spec(rows, relative@) == Ok::<
                            AggregateSummary,
                            ValidationErrorModel,
                        >(s),
                        Err(e) => validate_aggregate_spec(rows, relative@) == Err::<
                            AggregateSummary,
                            ValidationErrorModel,
                        >(err_view(e)),
                    }
                }
            }),
    {
        let ri = match find_root(&self.roots, root_id) {
            None => {
                return Err(CacheValidationError::MissingEntry(relative.to_owned()));
            },
            Some(ri) => ri,
        };
        let k = match find_row(&self.roots[ri].entries, relative) {
            None => {
                return Err(CacheValidationError::MissingEntry(relative.to_owned()));
            },
            Some(k) => k,
        };
        let n = self.roots[ri].entries.len();
        let fuel = (n as u64).saturating_add(1);
        proof {
            assert(fuel as nat == validate_fuel(self.roots@[ri as int].entries@));
        }
        verify_row(&self.roots[ri].entries, k, fuel)
    }
}

} // verus!

verus! {

/// Law: after `mark_ancestors_dirty(root_id, rel)`, every cached entry
/// whose path lies on the ancestor chain of `rel` — `rel` itself included —
/// carries the dirty bit.
pub proof fn lemma_mark_ancestors_dirty_law(
    a: Seq<EntryRow>,
    b: Seq<EntryRow>,
    rel: Seq<char>,
    j: int,
)
    requires
        rows_mark_chain(a, b, rel),
        0 <= j < a.len(),
        on_ancestor_chain(a[j].data.path@, rel),
    ensures
        is_dirty(b[j].data.flags),
{
    lemma_or_one_dirty(a[j].data.flags);
}

/// Law: the root entry `.` lies on the ancestor chain of every well-formed
/// relative path, so `mark_ancestors_dirty` dirties it as well.
pub proof fn lemma_mark_ancestors_dirty_reaches_root(
    a: Seq<EntryRow>,
    b: Seq<EntryRow>,
    rel: Seq<char>,
    j: int,
)
    requires
        rows_mark_chain(a, b, rel),
        crate::paths::wf_rel(rel),
        0 <= j < a.len(),
        a[j].data.path@ == dot(),
    ensures
        is_dirty(b[j].data.flags),
{
    crate::paths::lemma_wf_rel_chain_has_dot(rel);
    lemma_or_one_dirty(a[j].data.flags);
}

} // verus!

verus! {

/// Law: a successful validation reports exactly the aggregate stored at
/// the anchor entry.
pub proof fn lemma_validate_ok_total(rows: Seq<EntryRow>, rel: Seq<char>, s: AggregateSummary)
    requires
        validate_aggregate_spec(rows, rel) == Ok::<AggregateSummary, ValidationErrorModel>(s),
    ensures
        has_row(rows, rel),
        s.total_size == row_of(rows, rel).data.aggregate_size,
{
    lemma_row_index_of(rows, rel);
}

} // verus!

verus! {

/// The saturating sum of the stored aggregates of the first `j` rows whose
/// stored parent is `parent`.
pub open spec fn children_agg_sum(rows: Seq<EntryRow>, parent: Seq<char>, j: int) -> u64
    decreases j,
{
    if j <= 0 {
        0
    } else {
        let pre = children_agg_sum(rows, parent, j - 1);
        if 0 <= j - 1 < rows.len() && parent_matches(rows[j - 1], Some(parent)) {
            sat_add_u64(pre, rows[j - 1].data.aggregate_size)
        } else {
            pre
        }
    }
}

/// A successful validation reports the aggregate stored at the validated
/// row.
pub proof fn lemma_verify_ok_total(rows: Seq<EntryRow>, i: int, fuel: nat, s: AggregateSummary)
    requires
        verify_row_spec(rows, i, fuel) == Ok::<AggregateSummary, ValidationErrorModel>(s),
    ensures
        s.total_size == rows[i].data.aggregate_size,
{
}

/// A successful child scan accounts exactly for the children's stored
/// aggregates, and each child validates on its own.
pub proof fn lemma_scan_ok_pieces(
    rows: Seq<EntryRow>,
    parent: Seq<char>,
    j: int,
    fuel: nat,
    acc: AggregateSummary,
)
    requires
        scan_children_spec(rows, parent, j, fuel) == Ok::<AggregateSummary,
            ValidationErrorModel,
        >(acc),
    ensures
        acc.total_size == children_agg_sum(rows, parent, j),
        forall|k: int|
            0 <= k < j && k < rows.len() && parent_matches(#[trigger] rows[k], Some(parent))
                ==> verify_row_spec(rows, k, fuel) is Ok,
    decreases j,
{
    if j > 0 {
        match scan_children_spec(rows, parent, j - 1, fuel) {
            Err(_) => {
                assert(false);
            },
            Ok(pre) => {
                lemma_scan_ok_pieces(rows, parent, j - 1, fuel, pre);
                if 0 <= j - 1 < rows.len() && parent_matches(rows[j - 1], Some(parent)) {
                    match verify_row_spec(rows, j - 1, fuel) {
                        Err(_) => {
                            assert(false);
                        },
                        Ok(cs) => {
                            lemma_verify_ok_total(rows, j - 1, fuel, cs);
                        },
                    }
                }
            },
        }
    }
}

/// Law (aggregate consistency): when validation succeeds at a directory
/// row, its stored aggregate equals its direct size plus the sum of its
/// children's stored aggregates, and every child row validates in turn.
/// Validation succeeding at an anchor therefore establishes the invariant
/// at every entry of the validated subtree.
pub proof fn lemma_validated_directory_consistent(
    rows: Seq<EntryRow>,
    i: int,
    fuel: nat,
    s: AggregateSummary,
)
    requires
        0 <= i < rows.len(),
        rows[i].data.kind == FileKind::Directory,
        verify_row_spec(rows, i, fuel) == Ok::<AggregateSummary, ValidationErrorModel>(s),
    ensures
        fuel > 0,
        rows[i].data.aggregate_size == sat_add_u64(
            rows[i].data.direct_size,
            children_agg_sum(rows, rows[i].data.path@, rows.len() as int),
        ),
        forall|k: int|
            0 <= k < rows.len() && parent_matches(#[trigger] rows[k], Some(rows[i].data.path@))
                ==> verify_row_spec(rows, k, (fuel - 1) as nat) is Ok,
{
    let p = rows[i].data.path@;
    match scan_children_spec(rows, p, rows.len() as int, (fuel - 1) as nat) {
        Err(_) => {
            assert(false);
        },
        Ok(acc) => {
            lemma_scan_ok_pieces(rows, p, rows.len() as int, (fuel - 1) as nat, acc);
        },
    }
}

/// Law (file consistency): when validation succeeds at a file row, its
/// stored aggregate equals its direct size.
pub proof fn lemma_validated_file_consistent(
    rows: Seq<EntryRow>,
    i: int,
    fuel: nat,
    s: AggregateSummary,
)
    requires
        0 <= i < rows.len(),
        rows[i].data.kind != FileKind::Directory,
        verify_row_spec(rows, i, fuel) == Ok::<AggregateSummary, ValidationErrorModel>(s),
    ensures
        rows[i].data.aggregate_size == rows[i].data.direct_size,
{
}

} // verus!

verus! {

/// Two row sets that agree on everything validation reads: keys, parents,
/// kinds and sizes. Dirty flags and seen stamps may differ.
pub open spec fn rows_validate_alike(a: Seq<EntryRow>, b: Seq<EntryRow>) -> bool {
    &&& b.len() == a.len()
    &&& forall|j: int|
        0 <= j < a.len() ==> {
            &&& (#[trigger] b[j]).data.path@ == a[j].data.path@
            &&& (match (a[j].data.parent, b[j].data.parent) {
                (Option::None, Option::None) => true,
                (Option::Some(x), Option::Some(y)) => x@ == y@,
                _ => false,
            })
            &&& b[j].data.kind == a[j].data.kind
            &&& b[j].data.direct_size == a[j].data.direct_size
            &&& b[j].data.aggregate_size == a[j].data.aggregate_size
        }
}

pub proof fn lemma_alike_row_index(a: Seq<EntryRow>, b: Seq<EntryRow>, q: Seq<char>)
    requires
        rows_validate_alike(a, b),
    ensures
        row_index_of(a, q) == row_index_of(b, q),
{
    lemma_row_index_of(a, q);
    let i = row_index_of(a, q);
    if i >= 0 {
        assert(b[i].data.path@ == q);
        assert forall|j: int| 0 <= j < i implies b[j].data.path@ != q by {
            assert(a[j].data.path@ != q);
        }
        lemma_row_index_of_is(b, q, i);
    } else {
        assert forall|j: int| 0 <= j < b.len() implies b[j].data.path@ != q by {
            assert(a[j].data.path@ != q);
        }
        lemma_row_index_of_none(b, q);
    }
}

/// Validation reads nothing a dirty mark changes.
pub proof fn lemma_verify_alike(a: Seq<EntryRow>, b: Seq<EntryRow>, i: int, fuel: nat)
    requires
        rows_validate_alike(a, b),
        0 <= i < a.len(),
    ensures
        verify_row_spec(a, i, fuel) == verify_row_spec(b, i, fuel),
    decreases fuel, 0int,
{
    if a[i].data.kind == FileKind::Directory && fuel > 0 {
        lemma_scan_alike(a, b, a[i].data.path@, a.len() as int, (fuel - 1) as nat);
    }
}

pub proof fn lemma_scan_alike(
    a: Seq<EntryRow>,
    b: Seq<EntryRow>,
    parent: Seq<char>,
    j: int,
    fuel: nat,
)
    requires
        rows_validate_alike(a, b),
    ensures
        scan_children_spec(a, parent, j, fuel) == scan_children_spec(b, parent, j, fuel),
    decreases fuel, j + 1,
{
    if j > 0 {
        lemma_scan_alike(a, b, parent, j - 1, fuel);
        if 0 <= j - 1 < a.len() && parent_matches(a[j - 1], Some(parent)) {
            lemma_verify_alike(a, b, j - 1, fuel);
        }
    }
}

/// Whole-cache form: dirty marks leave validation's verdict alone.
pub proof fn lemma_validate_alike(a: Seq<EntryRow>, b: Seq<EntryRow>, rel: Seq<char>)
    requires
        rows_validate_alike(a, b),
    ensures
        validate_aggregate_spec(a, rel) == validate_aggregate_spec(b, rel),
{
    lemma_alike_row_index(a, b, rel);
    let k = row_index_of(a, rel);
    if k >= 0 {
        lemma_row_index_of(a, rel);
        lemma_verify_alike(a, b, k, validate_fuel(a));
    }
}

/// A dirty mark changes flags alone, so the marked rows validate alike.
pub proof fn lemma_mark_one_alike(a: Seq<EntryRow>, b: Seq<EntryRow>, path: Seq<char>)
    requires
        rows_mark_one(a, b, path),
    ensures
        rows_validate_alike(a, b),
{
    assert forall|j: int| 0 <= j < a.len() implies ((#[trigger] b[j]).data.path@
        == a[j].data.path@ && (match (a[j].data.parent, b[j].data.parent) {
        (Option::None, Option::None) => true,
        (Option::Some(x), Option::Some(y)) => x@ == y@,
        _ => false,
    }) && b[j].data.kind == a[j].data.kind && b[j].data.direct_size == a[j].data.direct_size
        && b[j].data.aggregate_size == a[j].data.aggregate_size) by {
        if a[j].data.path@ == path {
            assert(row_dirtied(a[j], b[j]));
        } else {
            assert(b[j] == a[j]);
        }
    }
}

} // verus!

verus! {

/// Roots with identical ids in identical order index the same.
pub proof fn lemma_root_index_same_ids(a: Seq<RootRecord>, b: Seq<RootRecord>, id: i64)
    requires
        b.len() == a.len(),
        forall|j: int| 0 <= j < a.len() ==> (#[trigger] b[j]).id == a[j].id,
    ensures
        root_index_of(a, id) == root_index_of(b, id),
{
    lemma_root_index_of(a, id);
    lemma_root_index_of(b, id);
    let i = root_index_of(a, id);
    let k = root_index_of(b, id);
    if i >= 0 {
        assert(b[i].id == id);
        assert forall|j: int| 0 <= j < i implies b[j].id != id by {
            assert(a[j].id != id);
        }
        lemma_first_index_where_is(b, root_id_pred(id), i);
    } else {
        assert forall|j: int| 0 <= j < b.len() implies b[j].id != id by {
            assert(a[j].id != id);
        }
        lemma_first_index_where_none(b, root_id_pred(id));
    }
}

} // verus!

verus! {

/// The root's rows hold an entry keyed `p` whose last-seen stamp is `ts`.
pub open spec fn row_stamped(rows: Seq<EntryRow>, p: Seq<char>, ts: i64) -> bool {
    has_row(rows, p) && row_of(rows, p).last_seen == ts
}

/// With unique paths, any row keyed `path` is the indexed one.
pub proof fn lemma_row_index_of_unique(rows: Seq<EntryRow>, i: int)
    requires
        unique_row_paths(rows),
        0 <= i < rows.len(),
    ensures
        row_index_of(rows, rows[i].data.path@) == i,
{
    lemma_row_index_of(rows, rows[i].data.path@);
    let r = row_index_of(rows, rows[i].data.path@);
    if r != i {
        if r < 0 {
            assert(rows[i].data.path@ != rows[i].data.path@);
        } else if r < i {
            assert(rows[r].data.path@ != rows[i].data.path@);
        } else {
            assert(rows[i].data.path@ != rows[r].data.path@);
        }
    }
}

/// A contained row with a unique key is the indexed one.
pub proof fn lemma_contains_stamped(rows: Seq<EntryRow>, x: EntryRow, p: Seq<char>, ts: i64)
    requires
        unique_row_paths(rows),
        rows.contains(x),
        x.data.path@ == p,
        x.last_seen == ts,
    ensures
        row_stamped(rows, p, ts),
{
    let i = choose|i: int| 0 <= i < rows.len() && rows[i] == x;
    lemma_row_index_of_unique(rows, i);
}

/// Applying a session's buffered writes leaves a stamped row for every
/// path the session wrote.
pub proof fn lemma_apply_upserts_keeps_stamped(
    rows: Seq<EntryRow>,
    pending: Seq<EntryRow>,
    ts: i64,
    p: Seq<char>,
)
    requires
        forall|i: int| 0 <= i < pending.len() ==> (#[trigger] pending[i]).last_seen == ts,
        exists|i: int| 0 <= i < pending.len() && (#[trigger] pending[i]).data.path@ == p,
    ensures
        row_stamped(apply_upserts(rows, pending), p, ts),
    decreases pending.len(),
{
    let first = pending[0];
    let rest = pending.drop_first();
    let rows1 = upsert_one(rows, first);
    lemma_row_index_of(rows, first.data.path@);
    if exists|i: int| 0 <= i < rest.len() && (#[trigger] rest[i]).data.path@ == p {
        assert forall|i: int| 0 <= i < rest.len() implies (#[trigger] rest[i]).last_seen
            == ts by {
            assert(rest[i] == pending[i + 1]);
        }
        lemma_apply_upserts_keeps_stamped(rows1, rest, ts, p);
    } else {
        let w = choose|i: int|
            0 <= i < pending.len() && (#[trigger] pending[i]).data.path@ == p;
        assert forall|i: int| 0 <= i < rest.len() implies (#[trigger] rest[i]).data.path@
            != p by {
            assert(rest[i] == pending[i + 1]);
        }
        assert(w == 0) by {
            if w > 0 {
                assert(rest[w - 1] == pending[w]);
            }
        }
        assert(first.data.path@ == p);
        assert(first.last_seen == ts);
        let k = row_index_of(rows, p);
        if k >= 0 {
            lemma_row_index_of_update_stays(rows, k, first, p);
            assert(rows1 == rows.update(k, first));
            assert(row_stamped(rows1, p, ts));
        } else {
            lemma_row_index_of_push(rows, first, p);
            assert(rows1 == rows.push(first));
            assert(row_stamped(rows1, p, ts));
        }
        lemma_stamped_after_upserts_of_others(rows1, rest, ts, p);
    }
}

/// Writes to other paths keep a stamped row stamped.
pub proof fn lemma_stamped_after_upserts_of_others(
    rows: Seq<EntryRow>,
    pending: Seq<EntryRow>,
    ts: i64,
    p: Seq<char>,
)
    requires
        row_stamped(rows, p, ts),
        forall|i: int| 0 <= i < pending.len() ==> (#[trigger] pending[i]).last_seen == ts,
    ensures
        row_stamped(apply_upserts(rows, pending), p, ts),
    decreases pending.len(),
{
    if pending.len() > 0 {
        let first = pending[0];
        let rows1 = upsert_one(rows, first);
        lemma_row_index_of(rows, first.data.path@);
        lemma_row_index_of(rows, p);
        let k = row_index_of(rows, first.data.path@);
        assert(row_stamped(rows1, p, ts)) by {
            if first.data.path@ == p {
                if k >= 0 {
                    lemma_row_index_of_update_stays(rows, k, first, p);
                } else {
                    lemma_row_index_of_push(rows, first, p);
                }
            } else {
                if k >= 0 {
                    lemma_row_index_of_update_stays(rows, k, first, p);
                    assert(rows.update(k, first)[row_index_of(rows, p)] == rows[row_index_of(
                        rows,
                        p,
                    )]);
                } else {
                    lemma_row_index_of_push(rows, first, p);
                }
            }
        }
        lemma_stamped_after_upserts_of_others(rows1, pending.drop_first(), ts, p);
    }
}

/// Updating a row keyed the same path moves every lookup along.
pub proof fn lemma_row_index_of_update_stays(
    rows: Seq<EntryRow>,
    k: int,
    r2: EntryRow,
    q: Seq<char>,
)
    requires
        0 <= k < rows.len(),
        r2.data.path@ == rows[k].data.path@,
    ensures
        row_index_of(rows.update(k, r2), q) == row_index_of(rows, q),
{
    let rows2 = rows.update(k, r2);
    lemma_row_index_of(rows, q);
    lemma_row_index_of(rows2, q);
    let i = row_index_of(rows, q);
    if i >= 0 {
        assert(rows2[i].data.path@ == q);
        assert forall|j: int| 0 <= j < i implies rows2[j].data.path@ != q by {
            assert(rows[j].data.path@ != q);
            assert(rows2[j].data.path@ == rows[j].data.path@);
        }
        lemma_row_index_of_is(rows2, q, i);
    } else {
        assert forall|j: int| 0 <= j < rows2.len() implies rows2[j].data.path@ != q by {
            assert(rows[j].data.path@ != q);
            assert(rows2[j].data.path@ == rows[j].data.path@);
        }
        lemma_row_index_of_none(rows2, q);
    }
}

/// Appending a row leaves old lookups alone and serves the new path last.
pub proof fn lemma_row_index_of_push(rows: Seq<EntryRow>, r: EntryRow, q: Seq<char>)
    ensures
        row_index_of(rows, q) >= 0 ==> row_index_of(rows.push(r), q) == row_index_of(rows, q),
        row_index_of(rows, q) < 0 && r.data.path@ == q ==> row_index_of(rows.push(r), q)
            == rows.len(),
        row_index_of(rows, q) < 0 && r.data.path@ != q ==> row_index_of(rows.push(r), q) == -1,
{
    let rows2 = rows.push(r);
    lemma_row_index_of(rows, q);
    let i = row_index_of(rows, q);
    if i >= 0 {
        assert(rows2[i].data.path@ == q);
        assert forall|j: int| 0 <= j < i implies rows2[j].data.path@ != q by {
            assert(rows2[j] == rows[j]);
        }
        lemma_row_index_of_is(rows2, q, i);
    } else if r.data.path@ == q {
        assert(rows2[rows.len() as int].data.path@ == q);
        assert forall|j: int| 0 <= j < rows.len() implies rows2[j].data.path@ != q by {
            assert(rows2[j] == rows[j]);
        }
        lemma_row_index_of_is(rows2, q, rows.len() as int);
    } else {
        assert forall|j: int| 0 <= j < rows2.len() implies rows2[j].data.path@ != q by {
            if j < rows.len() {
                assert(rows2[j] == rows[j]);
            }
        }
        lemma_row_index_of_none(rows2, q);
    }
}

/// A dirty mark keeps every stamped row stamped.
pub proof fn lemma_mark_one_stamped(
    a: Seq<EntryRow>,
    b: Seq<EntryRow>,
    mark_path: Seq<char>,
    p: Seq<char>,
    ts: i64,
)
    requires
        rows_mark_one(a, b, mark_path),
        row_stamped(a, p, ts),
    ensures
        row_stamped(b, p, ts),
{
    lemma_mark_one_alike(a, b, mark_path);
    lemma_alike_row_index(a, b, p);
    lemma_row_index_of(a, p);
    let k = row_index_of(a, p);
    assert(b[k].last_seen == a[k].last_seen) by {
        if a[k].data.path@ == mark_path {
            assert(row_dirtied(a[k], b[k]));
        } else {
            assert(b[k] == a[k]);
        }
    }
}

} // verus!
