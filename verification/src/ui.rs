//! What the consumer keeps beside the core: its configuration and the
//! ordering of rows in the displayed tree.

use vstd::prelude::*;
use vstd::string::StrSliceExecFns;

use core::cmp::Ordering;

use crate::fs::FileKind;
use crate::tree::{TreeStore, node_index_of};
use crate::watcher::WatcherConfig;

verus! {

/// Start-up options of the consumer.
#[derive(Debug, Clone)]
pub struct AppConfig {
    pub enable_watchers: bool,
    pub watcher_config: WatcherConfig,
}

impl Default for AppConfig {
    /// Watchers off, default watcher intervals.
    fn default() -> (r: Self)
        ensures
            !r.enable_watchers,
            r.watcher_config.notify_poll_interval == 2000,
            r.watcher_config.fallback_initial == 5000,
            r.watcher_config.fallback_max == 60000,
    {
        AppConfig { enable_watchers: false, watcher_config: WatcherConfig::default() }
    }
}

/// How the tree view orders siblings.
#[derive(Debug, Clone, Copy, PartialEq, Eq, Structural, Default)]
pub enum SortMode {
    #[default]
    NameAsc,
    SizeDesc,
}

/// The lower-cased form of a string. The answer depends on the characters
/// alone.
pub uninterp spec fn lower_of(s: Seq<char>) -> Seq<char>;

/// Relies on `str::to_lowercase`: Unicode case folding, a function of the
/// characters alone.
#[verifier::external_body]
fn lowercase(s: &str) -> (r: String)
    ensures
        r@ == lower_of(s@),
{
    s.to_lowercase()
}

/// Lexicographic order on character sequences.
pub open spec fn lex_cmp(a: Seq<char>, b: Seq<char>) -> Ordering
    decreases a.len(),
{
    if a.len() == 0 && b.len() == 0 {
        Ordering::Equal
    } else if a.len() == 0 {
        Ordering::Less
    } else if b.len() == 0 {
        Ordering::Greater
    } else if (a[0] as int) < (b[0] as int) {
        Ordering::Less
    } else if (a[0] as int) > (b[0] as int) {
        Ordering::Greater
    } else {
        lex_cmp(a.drop_first(), b.drop_first())
    }
}

/// A shared prefix does not decide the comparison.
proof fn lemma_lex_cmp_common_prefix(a: Seq<char>, b: Seq<char>, i: int)
    requires
        0 <= i <= a.len(),
        i <= b.len(),
        forall|j: int| 0 <= j < i ==> a[j] == b[j],
    ensures
        lex_cmp(a, b) == lex_cmp(a.skip(i), b.skip(i)),
    decreases i,
{
    if i > 0 {
        assert(a.len() > 0 && b.len() > 0);
        assert(a[0] == b[0]);
        let a1 = a.drop_first();
        let b1 = b.drop_first();
        assert forall|j: int| 0 <= j < i - 1 implies a1[j] == b1[j] by {
            assert(a1[j] == a[j + 1] && b1[j] == b[j + 1]);
        }
        lemma_lex_cmp_common_prefix(a1, b1, i - 1);
        assert(a1.skip(i - 1) =~= a.skip(i));
        assert(b1.skip(i - 1) =~= b.skip(i));
    } else {
        assert(a.skip(0) =~= a);
        assert(b.skip(0) =~= b);
    }
}

/// Compare two strings lexicographically by character.
pub fn str_cmp(a: &str, b: &str) -> (r: Ordering)
    ensures
        r == lex_cmp(a@, b@),
{
    let alen = a.unicode_len();
    let blen = b.unicode_len();
    let mut i: usize = 0;
    while i < alen && i < blen
        invariant
            alen == a@.len(),
            blen == b@.len(),
            i <= alen,
            i <= blen,
            forall|j: int| 0 <= j < i ==> a@[j] == b@[j],
        decreases alen - i,
    {
        let ca = a.get_char(i);
        let cb = b.get_char(i);
        if (ca as u32) < (cb as u32) {
            proof {
                lemma_lex_cmp_common_prefix(a@, b@, i as int);
            }
            return Ordering::Less;
        }
        if (ca as u32) > (cb as u32) {
            proof {
                lemma_lex_cmp_common_prefix(a@, b@, i as int);
            }
            return Ordering::Greater;
        }
        i += 1;
    }
    proof {
        lemma_lex_cmp_common_prefix(a@, b@, i as int);
    }
    if alen == blen {
        Ordering::Equal
    } else if alen < blen {
        Ordering::Less
    } else {
        Ordering::Greater
    }
}

/// How the tree view orders two paths under name ordering: directories
/// before files, then case-folded names; unknown paths fall back to the
/// paths themselves.
pub open spec fn compare_paths_spec(store: TreeStore, l: Seq<char>, r: Seq<char>) -> Ordering {
    let li = node_index_of(store.nodes@, l);
    let ri = node_index_of(store.nodes@, r);
    if li >= 0 && ri >= 0 {
        let a = store.nodes@[li].node;
        let b = store.nodes@[ri].node;
        if a.kind != b.kind {
            if a.kind == FileKind::Directory {
                Ordering::Less
            } else {
                Ordering::Greater
            }
        } else {
            lex_cmp(lower_of(a.name@), lower_of(b.name@))
        }
    } else {
        lex_cmp(l, r)
    }
}

/// Order two paths for display, per `compare_paths_spec`.
pub fn compare_paths(store: &TreeStore, lhs: &str, rhs: &str) -> (r: Ordering)
    ensures
        r == compare_paths_spec(*store, lhs@, rhs@),
{
    let ln = store.get(lhs);
    let rn = store.get(rhs);
    match (ln, rn) {
        (Some(a), Some(b)) => {
            let adir = matches!(a.kind, FileKind::Directory);
            let bdir = matches!(b.kind, FileKind::Directory);
            if adir != bdir {
                if adir {
                    Ordering::Less
                } else {
                    Ordering::Greater
                }
            } else {
                let la = lowercase(a.name.as_str());
                let lb = lowercase(b.name.as_str());
                str_cmp(la.as_str(), lb.as_str())
            }
        },
        _ => str_cmp(lhs, rhs),
    }
}

} // verus!
