//! The in-memory tree model: a mapping from absolute path to node built
//! from the scanner's entry stream, with memoized aggregate sizes and a
//! `contains_match` taint that propagates to ancestors.

use vstd::prelude::*;
use vstd::string::StrSliceExecFns;

use crate::fs::{FileEntry, FileKind};
use crate::paths::{find_last_slash, last_slash, lemma_last_slash_bounds, str_eq};
use crate::seq_find::{
    first_index_where, lemma_first_index_where, lemma_first_index_where_is,
    lemma_first_index_where_none,
};

verus! {

/// One node of the tree.
#[derive(Debug, Clone)]
pub struct TreeNode {
    pub name: String,
    pub kind: FileKind,
    pub direct_size: u64,
    pub modified: Option<i64>,
    pub created: Option<i64>,
    pub children: Vec<String>,
    pub contains_match: bool,
}

/// A node together with the absolute path that keys it.
#[derive(Debug, Clone)]
pub struct NodeRow {
    pub path: String,
    pub node: TreeNode,
}

/// The parent of an absolute path: the prefix before the last slash, `/`
/// for a top-level absolute entry, nothing for `/` itself or a bare name.
pub open spec fn abs_parent_of(s: Seq<char>) -> Option<Seq<char>> {
    let ls = last_slash(s);
    if ls < 0 {
        None
    } else if ls == 0 {
        if s.len() > 1 {
            Some(seq!['/'])
        } else {
            None
        }
    } else {
        Some(s.subrange(0, ls))
    }
}

pub proof fn lemma_abs_parent_shorter(s: Seq<char>)
    ensures
        match abs_parent_of(s) {
            Some(p) => p.len() < s.len(),
            None => true,
        },
{
    lemma_last_slash_bounds(s);
}

/// `anc` lies on the parent chain of `p` (including `p` itself).
pub open spec fn on_abs_chain(anc: Seq<char>, p: Seq<char>) -> bool
    decreases p.len(),
{
    anc == p || match abs_parent_of(p) {
        Some(q) => {
            if q.len() < p.len() {
                on_abs_chain(anc, q)
            } else {
                false
            }
        },
        None => false,
    }
}

/// The parent of an absolute path, per `abs_parent_of`.
pub fn abs_parent(path: &str) -> (r: Option<String>)
    ensures
        match r {
            Some(p) => abs_parent_of(path@) == Some(p@),
            None => abs_parent_of(path@) is None,
        },
{
    let len = path.unicode_len();
    match find_last_slash(path) {
        None => None,
        Some(i) => {
            proof {
                lemma_last_slash_bounds(path@);
            }
            if i == 0 {
                if len > 1 {
                    proof {
                        reveal_strlit("/");
                        assert("/"@ =~= seq!['/']);
                    }
                    Some(String::from_str("/"))
                } else {
                    None
                }
            } else {
                let p = path.substring_char(0, i);
                Some(p.to_owned())
            }
        },
    }
}

/// The predicate "this row is keyed `path`".
pub open spec fn node_keyed_by(path: Seq<char>) -> spec_fn(NodeRow) -> bool {
    |r: NodeRow| r.path@ == path
}

/// Index of the node keyed `path`, or `-1`.
pub open spec fn node_index_of(nodes: Seq<NodeRow>, path: Seq<char>) -> int {
    first_index_where(nodes, node_keyed_by(path))
}

pub proof fn lemma_node_index_of(nodes: Seq<NodeRow>, path: Seq<char>)
    ensures
        -1 <= node_index_of(nodes, path) < nodes.len(),
        node_index_of(nodes, path) >= 0 ==> nodes[node_index_of(nodes, path)].path@ == path,
        node_index_of(nodes, path) >= 0 ==> forall|j: int|
            0 <= j < node_index_of(nodes, path) ==> nodes[j].path@ != path,
        node_index_of(nodes, path) < 0 ==> forall|j: int|
            0 <= j < nodes.len() ==> nodes[j].path@ != path,
{
    lemma_first_index_where(nodes, node_keyed_by(path));
}

/// Find the position of the node keyed `path`.
pub fn find_node(nodes: &Vec<NodeRow>, path: &str) -> (r: Option<usize>)
    ensures
        match r {
            Some(i) => node_index_of(nodes@, path@) == i as int && i < nodes@.len(),
            None => node_index_of(nodes@, path@) == -1,
        },
{
    let n = nodes.len();
    let mut i: usize = 0;
    while i < n
        invariant
            n == nodes@.len(),
            i <= n,
            forall|j: int| 0 <= j < i ==> nodes@[j].path@ != path@,
        decreases n - i,
    {
        if str_eq(nodes[i].path.as_str(), path) {
            proof {
                lemma_first_index_where_is(nodes@, node_keyed_by(path@), i as int);
            }
            return Some(i);
        }
        i += 1;
    }
    proof {
        lemma_first_index_where_none(nodes@, node_keyed_by(path@));
    }
    None
}

/// The longest path length among the nodes.
pub open spec fn max_path_len(nodes: Seq<NodeRow>) -> nat
    decreases nodes.len(),
{
    if nodes.len() == 0 {
        0
    } else {
        let rest = max_path_len(nodes.drop_last());
        if nodes.last().path@.len() > rest {
            nodes.last().path@.len()
        } else {
            rest
        }
    }
}

pub proof fn lemma_max_path_len(nodes: Seq<NodeRow>, i: int)
    requires
        0 <= i < nodes.len(),
    ensures
        nodes[i].path@.len() <= max_path_len(nodes),
    decreases nodes.len(),
{
    if i < nodes.len() - 1 {
        lemma_max_path_len(nodes.drop_last(), i);
        assert(nodes.drop_last()[i] == nodes[i]);
    }
}

/// Well-formed tree storage: unique paths; every listed child exists, is
/// strictly longer than its parent, and is listed once.
pub open spec fn wf_nodes(nodes: Seq<NodeRow>) -> bool {
    &&& (forall|i: int, j: int| 0 <= i < j < nodes.len() ==> nodes[i].path@ != nodes[j].path@)
    &&& (forall|i: int, k: int|
        0 <= i < nodes.len() && 0 <= k < nodes[i].node.children@.len() ==> node_index_of(
            nodes,
            (#[trigger] nodes[i].node.children@[k])@,
        ) >= 0 && nodes[i].node.children@[k]@.len() > nodes[i].path@.len())
    &&& (forall|i: int, k1: int, k2: int|
        0 <= i < nodes.len() && 0 <= k1 < k2 < nodes[i].node.children@.len()
            ==> (#[trigger] nodes[i].node.children@[k1])@ != (#[trigger] nodes[i].node.children@[k2])@)
}

/// The aggregate size of the node at `path`: its direct size plus,
/// recursively, its children's aggregates; zero for an unknown path.
/// Additions saturate at the top of the `u64` range.
pub open spec fn agg_spec(nodes: Seq<NodeRow>, path: Seq<char>) -> u64
    decreases (max_path_len(nodes) + 1) - path.len(),
        nodes[node_index_of(nodes, path)].node.children@.len() + 1,
        when wf_nodes(nodes)
        via agg_spec_decreases
{
    let k = node_index_of(nodes, path);
    if k < 0 {
        0
    } else {
        let node = nodes[k].node;
        if node.kind == FileKind::Directory {
            agg_children_spec(nodes, k, node.children@.len() as int)
        } else {
            node.direct_size
        }
    }
}

/// The direct size of the node at index `k` plus the aggregates of its
/// first `j` children.
pub open spec fn agg_children_spec(nodes: Seq<NodeRow>, k: int, j: int) -> u64
    decreases (max_path_len(nodes) + 1) - nodes[k].path@.len(), j,
        when wf_nodes(nodes) && 0 <= k < nodes.len() && 0 <= j <= nodes[k].node.children@.len()
        via agg_children_spec_decreases
{
    if j <= 0 {
        nodes[k].node.direct_size
    } else {
        let pre = agg_children_spec(nodes, k, j - 1);
        let cpath = (nodes[k].node.children@[j - 1])@;
        crate::cache::sat_add_u64(pre, agg_spec(nodes, cpath))
    }
}

#[via_fn]
proof fn agg_spec_decreases(nodes: Seq<NodeRow>, path: Seq<char>) {
    lemma_node_index_of(nodes, path);
}

#[via_fn]
proof fn agg_children_spec_decreases(nodes: Seq<NodeRow>, k: int, j: int) {
    if wf_nodes(nodes) && 0 <= k < nodes.len() && 0 < j <= nodes[k].node.children@.len() {
        let cpath = (nodes[k].node.children@[j - 1])@;
        assert(node_index_of(nodes, cpath) >= 0 && cpath.len() > nodes[k].path@.len());
        lemma_node_index_of(nodes, cpath);
        lemma_max_path_len(nodes, node_index_of(nodes, cpath));
        lemma_max_path_len(nodes, k);
    }
}

} // verus!

verus! {

pub proof fn lemma_node_index_of_is(nodes: Seq<NodeRow>, path: Seq<char>, i: int)
    requires
        0 <= i < nodes.len(),
        nodes[i].path@ == path,
        forall|j: int| 0 <= j < i ==> nodes[j].path@ != path,
    ensures
        node_index_of(nodes, path) == i,
{
    lemma_first_index_where_is(nodes, node_keyed_by(path), i);
}

/// Appending a row leaves old lookups alone and serves the new path last.
pub proof fn lemma_node_index_of_push(nodes: Seq<NodeRow>, r: NodeRow, q: Seq<char>)
    ensures
        node_index_of(nodes, q) >= 0 ==> node_index_of(nodes.push(r), q) == node_index_of(
            nodes,
            q,
        ),
        node_index_of(nodes, q) < 0 && r.path@ == q ==> node_index_of(nodes.push(r), q)
            == nodes.len(),
        node_index_of(nodes, q) < 0 && r.path@ != q ==> node_index_of(nodes.push(r), q) == -1,
{
    let nodes2 = nodes.push(r);
    lemma_node_index_of(nodes, q);
    let i = node_index_of(nodes, q);
    if i >= 0 {
        assert(nodes2[i].path@ == q);
        assert forall|j: int| 0 <= j < i implies nodes2[j].path@ != q by {
            assert(nodes2[j] == nodes[j]);
        }
        lemma_node_index_of_is(nodes2, q, i);
    } else if r.path@ == q {
        assert(nodes2[nodes.len() as int].path@ == q);
        assert forall|j: int| 0 <= j < nodes.len() implies nodes2[j].path@ != q by {
            assert(nodes2[j] == nodes[j]);
        }
        lemma_node_index_of_is(nodes2, q, nodes.len() as int);
    } else {
        assert forall|j: int| 0 <= j < nodes2.len() implies nodes2[j].path@ != q by {
            if j < nodes.len() {
                assert(nodes2[j] == nodes[j]);
            }
        }
        lemma_first_index_where_none(nodes2, node_keyed_by(q));
    }
}

/// Updating a row without changing its path moves every lookup along.
pub proof fn lemma_node_index_of_update_same_path(
    nodes: Seq<NodeRow>,
    k: int,
    r2: NodeRow,
    q: Seq<char>,
)
    requires
        0 <= k < nodes.len(),
        r2.path@ == nodes[k].path@,
    ensures
        node_index_of(nodes.update(k, r2), q) == node_index_of(nodes, q),
{
    let nodes2 = nodes.update(k, r2);
    lemma_node_index_of(nodes, q);
    let i = node_index_of(nodes, q);
    if i >= 0 {
        assert(nodes2[i].path@ == q);
        assert forall|j: int| 0 <= j < i implies nodes2[j].path@ != q by {
            assert(nodes2[j].path@ == nodes[j].path@);
        }
        lemma_node_index_of_is(nodes2, q, i);
    } else {
        assert forall|j: int| 0 <= j < nodes2.len() implies nodes2[j].path@ != q by {
            assert(nodes2[j].path@ == nodes[j].path@);
        }
        lemma_first_index_where_none(nodes2, node_keyed_by(q));
    }
}

/// Everything on a chain is no longer than the chain's start.
pub proof fn lemma_abs_chain_len(a: Seq<char>, q: Seq<char>)
    requires
        on_abs_chain(a, q),
    ensures
        a.len() <= q.len(),
    decreases q.len(),
{
    if a != q {
        match abs_parent_of(q) {
            Some(r) => {
                if r.len() < q.len() {
                    lemma_abs_chain_len(a, r);
                }
            },
            None => {},
        }
    }
}

/// A path is on its own chain.
pub proof fn lemma_abs_chain_self(p: Seq<char>)
    ensures
        on_abs_chain(p, p),
{
}

/// One chain step: the chain of `p` is `p` plus the chain of its parent,
/// and `p` is not on the parent's chain.
pub proof fn lemma_abs_chain_step(p: Seq<char>)
    requires
        abs_parent_of(p) is Some,
    ensures
        forall|a: Seq<char>|
            on_abs_chain(a, p) == (a == p || on_abs_chain(a, abs_parent_of(p).unwrap())),
        !on_abs_chain(p, abs_parent_of(p).unwrap()),
{
    lemma_abs_parent_shorter(p);
    let q = abs_parent_of(p).unwrap();
    if on_abs_chain(p, q) {
        lemma_abs_chain_len(p, q);
    }
}

/// A chain is closed under taking parents.
pub proof fn lemma_abs_chain_parent_closed(c: Seq<char>, rel: Seq<char>)
    requires
        on_abs_chain(c, rel),
        abs_parent_of(c) is Some,
    ensures
        on_abs_chain(abs_parent_of(c).unwrap(), rel),
    decreases rel.len(),
{
    if c == rel {
        lemma_abs_chain_step(rel);
        lemma_abs_chain_self(abs_parent_of(rel).unwrap());
    } else {
        match abs_parent_of(rel) {
            Some(q) => {
                if q.len() < rel.len() {
                    lemma_abs_chain_parent_closed(c, q);
                    lemma_abs_chain_step(rel);
                } else {
                    assert(c == rel);
                }
            },
            None => {
                assert(c == rel);
            },
        }
    }
}

/// Rows with identical paths in identical order index the same.
pub proof fn lemma_node_index_same_paths(a: Seq<NodeRow>, b: Seq<NodeRow>, q: Seq<char>)
    requires
        b.len() == a.len(),
        forall|j: int| 0 <= j < a.len() ==> (#[trigger] b[j]).path@ == a[j].path@,
    ensures
        node_index_of(a, q) == node_index_of(b, q),
{
    lemma_node_index_of(a, q);
    let i = node_index_of(a, q);
    if i >= 0 {
        assert(b[i].path@ == q);
        assert forall|j: int| 0 <= j < i implies b[j].path@ != q by {
            assert(a[j].path@ != q);
        }
        lemma_node_index_of_is(b, q, i);
    } else {
        assert forall|j: int| 0 <= j < b.len() implies b[j].path@ != q by {
            assert(a[j].path@ != q);
        }
        lemma_first_index_where_none(b, node_keyed_by(q));
    }
}

/// `b` is `a` with only its `contains_match` possibly raised to true.
pub open spec fn node_tainted(a: NodeRow, b: NodeRow) -> bool {
    &&& b.path == a.path
    &&& b.node.name == a.node.name
    &&& b.node.kind == a.node.kind
    &&& b.node.direct_size == a.node.direct_size
    &&& b.node.modified == a.node.modified
    &&& b.node.created == a.node.created
    &&& b.node.children == a.node.children
    &&& b.node.contains_match == true
}

/// The in-memory tree: nodes keyed by absolute path.
#[derive(Debug, Default)]
pub struct TreeStore {
    pub nodes: Vec<NodeRow>,
}

impl TreeStore {
    pub open spec fn wf(self) -> bool {
        wf_nodes(self.nodes@)
    }

    /// An empty tree.
    pub fn new() -> (r: TreeStore)
        ensures
            r.wf(),
            r.nodes@.len() == 0,
    {
        TreeStore { nodes: Vec::new() }
    }

    /// Empty the tree.
    pub fn clear(&mut self)
        ensures
            final(self).wf(),
            final(self).nodes@.len() == 0,
    {
        self.nodes = Vec::new();
    }

    /// The node at `path`, if any.
    pub fn get(&self, path: &str) -> (r: Option<&TreeNode>)
        ensures
            match r {
                Some(n) => node_index_of(self.nodes@, path@) >= 0 && *n == self.nodes@[node_index_of(
                    self.nodes@,
                    path@,
                )].node,
                None => node_index_of(self.nodes@, path@) < 0,
            },
    {
        match find_node(&self.nodes, path) {
            None => None,
            Some(i) => Some(&self.nodes[i].node),
        }
    }

    /// The children of the node at `path`, in insertion order; empty for an
    /// unknown path.
    pub fn children(&self, path: &str) -> (r: Vec<String>)
        ensures
            ({
                let k = node_index_of(self.nodes@, path@);
                if k < 0 {
                    r@.len() == 0
                } else {
                    r@ == self.nodes@[k].node.children@
                }
            }),
    {
        let k = match find_node(&self.nodes, path) {
            None => {
                let empty: Vec<String> = Vec::new();
                return empty;
            },
            Some(k) => k,
        };
        let n = self.nodes[k].entry_children_len();
        let mut r: Vec<String> = Vec::new();
        let mut j: usize = 0;
        while j < n
            invariant
                k < self.nodes@.len(),
                n == self.nodes@[k as int].node.children@.len(),
                j <= n,
                r@.len() == j,
                forall|x: int| 0 <= x < j ==> r@[x] == self.nodes@[k as int].node.children@[x],
            decreases n - j,
        {
            r.push(self.nodes[k].node.children[j].clone());
            j += 1;
        }
        proof {
            assert(r@ =~= self.nodes@[k as int].node.children@);
        }
        r
    }

    /// Raise `contains_match` on the node at `start` and on every node on
    /// its parent chain; nothing else changes.
    fn mark_contains_match_upwards(&mut self, start: &str)
        requires
            old(self).wf(),
        ensures
            final(self).wf(),
            final(self).nodes@.len() == old(self).nodes@.len(),
            forall|i: int|
                0 <= i < old(self).nodes@.len() && !on_abs_chain(
                    old(self).nodes@[i].path@,
                    start@,
                ) ==> final(self).nodes@[i] == old(self).nodes@[i],
            forall|i: int|
                0 <= i < old(self).nodes@.len() && on_abs_chain(old(self).nodes@[i].path@, start@)
                    ==> node_tainted(old(self).nodes@[i], final(self).nodes@[i]),
    {
        let ghost orig = self.nodes@;
        let mut current: String = start.to_owned();
        let mut active: bool = true;
        proof {
            lemma_abs_chain_self(start@);
        }
        while active
            invariant
                self.wf(),
                orig == old(self).nodes@,
                self.nodes@.len() == orig.len(),
                if active {
                    &&& on_abs_chain(current@, start@)
                    &&& forall|i: int|
                        0 <= i < orig.len() && !(on_abs_chain(orig[i].path@, start@)
                            && !on_abs_chain(orig[i].path@, current@)) ==> self.nodes@[i]
                            == orig[i]
                    &&& forall|i: int|
                        0 <= i < orig.len() && (on_abs_chain(orig[i].path@, start@)
                            && !on_abs_chain(orig[i].path@, current@)) ==> node_tainted(
                            orig[i],
                            self.nodes@[i],
                        )
                } else {
                    &&& forall|i: int|
                        0 <= i < orig.len() && !on_abs_chain(orig[i].path@, start@)
                            ==> self.nodes@[i] == orig[i]
                    &&& forall|i: int|
                        0 <= i < orig.len() && on_abs_chain(orig[i].path@, start@)
                            ==> node_tainted(orig[i], self.nodes@[i])
                },
            decreases (if active {
                1int
            } else {
                0int
            }), current@.len() as int,
        {
            let ghost pre = self.nodes@;
            proof {
                lemma_abs_chain_self(current@);
            }
            match find_node(&self.nodes, current.as_str()) {
                None => {
                    proof {
                        lemma_node_index_of(pre, current@);
                    }
                },
                Some(k) => {
                    proof {
                        lemma_node_index_of(pre, current@);
                    }
                    let row = &mut self.nodes[k];
                    row.node.contains_match = true;
                    proof {
                        let mid = self.nodes@;
                        assert forall|q: Seq<char>|
                            node_index_of(mid, q) == node_index_of(pre, q) by {
                            lemma_node_index_of_update_same_path(
                                pre,
                                k as int,
                                mid[k as int],
                                q,
                            );
                        }
                        assert forall|i: int, kk: int|
                            0 <= i < mid.len() && 0 <= kk < mid[i].node.children@.len()
                                implies node_index_of(
                                mid,
                                (#[trigger] mid[i].node.children@[kk])@,
                            ) >= 0 && mid[i].node.children@[kk]@.len()
                                > mid[i].path@.len() by {
                            assert(mid[i].node.children == pre[i].node.children);
                            assert(mid[i].path == pre[i].path);
                        }
                        assert(wf_nodes(mid));
                    }
                },
            }
            let next = abs_parent(current.as_str());
            proof {
                lemma_abs_parent_shorter(current@);
                let mid = self.nodes@;
                assert forall|i: int|
                    0 <= i < pre.len() && pre[i].path@ != current@ implies mid[i] == pre[i] by {}
                match next {
                    Some(ref nx) => {
                        lemma_abs_chain_step(current@);
                        lemma_abs_chain_parent_closed(current@, start@);
                        assert(abs_parent_of(current@) == Some(nx@));
                        assert forall|i: int|
                            0 <= i < orig.len() && (on_abs_chain(orig[i].path@, start@)
                                && !on_abs_chain(orig[i].path@, nx@)) implies node_tainted(
                            orig[i],
                            mid[i],
                        ) by {
                            let p = orig[i].path@;
                            if on_abs_chain(p, current@) {
                                assert(p == current@);
                            }
                        }
                        assert forall|i: int|
                            0 <= i < orig.len() && !(on_abs_chain(orig[i].path@, start@)
                                && !on_abs_chain(orig[i].path@, nx@)) implies mid[i]
                            == orig[i] by {
                            let p = orig[i].path@;
                            assert(p != current@);
                        }
                    },
                    None => {
                        assert(abs_parent_of(current@) is None);
                        assert forall|i: int|
                            0 <= i < orig.len() && on_abs_chain(orig[i].path@, start@)
                                implies node_tainted(orig[i], mid[i]) by {
                            let p = orig[i].path@;
                            if on_abs_chain(p, current@) {
                                assert(p == current@);
                            }
                        }
                        assert forall|i: int|
                            0 <= i < orig.len() && !on_abs_chain(orig[i].path@, start@)
                                implies mid[i] == orig[i] by {
                            let p = orig[i].path@;
                            assert(p != current@);
                        }
                    },
                }
            }
            match next {
                None => {
                    active = false;
                },
                Some(p) => {
                    current = p;
                },
            }
        }
    }
}

impl NodeRow {
    /// The number of children listed on this node.
    fn entry_children_len(&self) -> (r: usize)
        ensures
            r == self.node.children@.len(),
    {
        self.node.children.len()
    }
}

} // verus!

verus! {

impl TreeStore {
    /// Create or update the node at the entry's path, list it among its
    /// parent's children when the parent node exists, and — for a file —
    /// raise `contains_match` on the node and every ancestor node: after
    /// the call, every node on the parent chain of an upserted file
    /// carries the taint.
    #[verifier::rlimit(30)]
    pub fn upsert(&mut self, entry: FileEntry)
        requires
            old(self).wf(),
        ensures
            final(self).wf(),
            final(self).nodes@.len() == old(self).nodes@.len() || final(self).nodes@.len() == old(
                self,
            ).nodes@.len() + 1,
            forall|i: int|
                0 <= i < old(self).nodes@.len() ==> final(self).nodes@[i].path == old(
                    self,
                ).nodes@[i].path,
            forall|i: int|
                0 <= i < old(self).nodes@.len() && old(self).nodes@[i].node.contains_match
                    ==> final(self).nodes@[i].node.contains_match,
            ({
                let k = node_index_of(final(self).nodes@, entry.path@);
                &&& k >= 0
                &&& final(self).nodes@[k].node.name == entry.file_name
                &&& final(self).nodes@[k].node.kind == entry.kind
                &&& final(self).nodes@[k].node.direct_size == entry.direct_size
                &&& final(self).nodes@[k].node.modified == entry.modified
                &&& final(self).nodes@[k].node.created == entry.created
            }),
            entry.kind == FileKind::File ==> (forall|i: int|
                0 <= i < final(self).nodes@.len() && on_abs_chain(
                    final(self).nodes@[i].path@,
                    entry.path@,
                ) ==> final(self).nodes@[i].node.contains_match),
            ({
                let pp = abs_parent_of(entry.path@);
                match pp {
                    Some(par) => {
                        let pi = node_index_of(final(self).nodes@, par);
                        pi >= 0 ==> (exists|x: int|
                            0 <= x < final(self).nodes@[pi].node.children@.len() && (
                            #[trigger] final(self).nodes@[pi].node.children@[x])@ == entry.path@)
                    },
                    None => true,
                }
            }),
    {
        let ghost orig = self.nodes@;
        let path = entry.path.clone();
        let is_file = matches!(entry.kind, FileKind::File);

        let k: usize = match find_node(&self.nodes, path.as_str()) {
            Some(k) => {
                let ghost pre = self.nodes@;
                let row = &mut self.nodes[k];
                row.node.name = entry.file_name;
                row.node.kind = entry.kind;
                row.node.direct_size = entry.direct_size;
                row.node.modified = entry.modified;
                row.node.created = entry.created;
                proof {
                    let mid = self.nodes@;
                    assert forall|q: Seq<char>|
                        node_index_of(mid, q) == node_index_of(pre, q) by {
                        lemma_node_index_of_update_same_path(pre, k as int, mid[k as int], q);
                    }
                    assert forall|i: int, kk: int|
                        0 <= i < mid.len() && 0 <= kk < mid[i].node.children@.len()
                            implies node_index_of(mid, (#[trigger] mid[i].node.children@[kk])@)
                            >= 0 && mid[i].node.children@[kk]@.len() > mid[i].path@.len() by {
                        assert(mid[i].node.children == pre[i].node.children);
                        assert(mid[i].path == pre[i].path);
                    }
                    assert(wf_nodes(mid));
                }
                k
            },
            None => {
                let ghost pre = self.nodes@;
                let node = TreeNode {
                    name: entry.file_name,
                    kind: entry.kind,
                    direct_size: entry.direct_size,
                    modified: entry.modified,
                    created: entry.created,
                    children: Vec::new(),
                    contains_match: is_file,
                };
                self.nodes.push(NodeRow { path: entry.path, node });
                proof {
                    let mid = self.nodes@;
                    let newrow = mid[mid.len() - 1];
                    assert forall|q: Seq<char>|
                        node_index_of(pre, q) >= 0 implies node_index_of(mid, q)
                        == node_index_of(pre, q) by {
                        lemma_node_index_of_push(pre, newrow, q);
                    }
                    lemma_node_index_of(pre, path@);
                    assert forall|i: int, j: int|
                        0 <= i < j < mid.len() implies mid[i].path@ != mid[j].path@ by {
                        if j == mid.len() - 1 {
                            assert(mid[i] == pre[i]);
                        } else {
                            assert(mid[i] == pre[i] && mid[j] == pre[j]);
                        }
                    }
                    assert forall|i: int, kk: int|
                        0 <= i < mid.len() && 0 <= kk < mid[i].node.children@.len()
                            implies node_index_of(mid, (#[trigger] mid[i].node.children@[kk])@)
                            >= 0 && mid[i].node.children@[kk]@.len() > mid[i].path@.len() by {
                        if i < mid.len() - 1 {
                            assert(mid[i] == pre[i]);
                        }
                    }
                    assert(wf_nodes(mid));
                    lemma_node_index_of_push(pre, newrow, path@);
                }
                self.nodes.len() - 1
            },
        };
        proof {
            lemma_node_index_of(self.nodes@, path@);
            assert(node_index_of(self.nodes@, path@) == k as int);
        }

        match abs_parent(path.as_str()) {
            None => {},
            Some(par) => {
                match find_node(&self.nodes, par.as_str()) {
                    None => {},
                    Some(pi) => {
                        let ghost pre = self.nodes@;
                        let nc = self.nodes[pi].entry_children_len();
                        let mut present = false;
                        let mut j: usize = 0;
                        while j < nc
                            invariant
                                pi < self.nodes@.len(),
                                nc == self.nodes@[pi as int].node.children@.len(),
                                j <= nc,
                                pre == self.nodes@,
                                present == (exists|x: int|
                                    0 <= x < j && (#[trigger] self.nodes@[pi as int].node.children@[x])@
                                        == path@),
                            decreases nc - j,
                        {
                            if str_eq(self.nodes[pi].node.children[j].as_str(), path.as_str()) {
                                present = true;
                            }
                            j += 1;
                        }
                        if present {
                            proof {
                                lemma_node_index_of(pre, par@);
                                assert(exists|x: int|
                                    0 <= x < self.nodes@[pi as int].node.children@.len() && (
                                    #[trigger] self.nodes@[pi as int].node.children@[x])@
                                        == path@);
                            }
                        }
                        if !present {
                            proof {
                                lemma_abs_parent_shorter(path@);
                                lemma_node_index_of(pre, par@);
                            }
                            let row = &mut self.nodes[pi];
                            row.node.children.push(path.clone());
                            proof {
                                let mid = self.nodes@;
                                assert forall|q: Seq<char>|
                                    node_index_of(mid, q) == node_index_of(pre, q) by {
                                    lemma_node_index_of_update_same_path(
                                        pre,
                                        pi as int,
                                        mid[pi as int],
                                        q,
                                    );
                                }
                                assert forall|i: int, kk: int|
                                    0 <= i < mid.len() && 0 <= kk
                                        < mid[i].node.children@.len() implies node_index_of(
                                    mid,
                                    (#[trigger] mid[i].node.children@[kk])@,
                                ) >= 0 && mid[i].node.children@[kk]@.len()
                                    > mid[i].path@.len() by {
                                    if i != pi as int {
                                        assert(mid[i] == pre[i]);
                                    } else {
                                        if kk < nc {
                                            assert(mid[i].node.children@[kk]
                                                == pre[i].node.children@[kk]);
                                        } else {
                                            assert(mid[i].node.children@[kk]@ == path@);
                                            assert(par@.len() < path@.len());
                                        }
                                    }
                                }
                                assert forall|i: int, k1: int, k2: int|
                                    0 <= i < mid.len() && 0 <= k1 < k2
                                        < mid[i].node.children@.len() implies (
                                #[trigger] mid[i].node.children@[k1])@ != (
                                #[trigger] mid[i].node.children@[k2])@ by {
                                    if i == pi as int && k2 == nc {
                                        assert(mid[i].node.children@[k1]
                                            == pre[i].node.children@[k1]);
                                        assert(mid[i].node.children@[k2]@ == path@);
                                    } else if i != pi as int {
                                        assert(mid[i] == pre[i]);
                                    } else {
                                        assert(mid[i].node.children@[k1]
                                            == pre[i].node.children@[k1]);
                                        assert(mid[i].node.children@[k2]
                                            == pre[i].node.children@[k2]);
                                    }
                                }
                                assert(wf_nodes(mid));
                                assert(exists|x: int|
                                    0 <= x < mid[pi as int].node.children@.len() && (
                                    #[trigger] mid[pi as int].node.children@[x])@ == path@) by {
                                    assert(mid[pi as int].node.children@[nc as int]@ == path@);
                                }
                            }
                        }
                        proof {
                            assert forall|q: Seq<char>|
                                node_index_of(self.nodes@, q) == node_index_of(pre, q) by {
                                lemma_node_index_same_paths(pre, self.nodes@, q);
                            }
                            assert(node_index_of(self.nodes@, par@) == pi as int);
                        }
                    },
                }
            },
        }
        let ghost after_link = self.nodes@;
        proof {
            match abs_parent_of(entry.path@) {
                Some(par) => {
                    let pi = node_index_of(after_link, par);
                    assert(pi >= 0 ==> (exists|x: int|
                        0 <= x < after_link[pi].node.children@.len() && (
                        #[trigger] after_link[pi].node.children@[x])@ == entry.path@));
                },
                None => {},
            }
        }

        if is_file {
            self.mark_contains_match_upwards(path.as_str());
        }
        proof {
            lemma_node_index_of(self.nodes@, path@);
            assert forall|j: int|
                0 <= j < after_link.len() implies (#[trigger] self.nodes@[j]).path@
                == after_link[j].path@ && self.nodes@[j].node.children
                == after_link[j].node.children by {
                if is_file {
                    if on_abs_chain(after_link[j].path@, path@) {
                        assert(node_tainted(after_link[j], self.nodes@[j]));
                    } else {
                        assert(self.nodes@[j] == after_link[j]);
                    }
                }
            }
            match abs_parent_of(entry.path@) {
                Some(par) => {
                    lemma_node_index_same_paths(after_link, self.nodes@, par);
                },
                None => {},
            }
        }
    }
}

} // verus!

verus! {

/// One memoized aggregate.
#[derive(Debug, Clone)]
pub struct SizeCacheEntry {
    pub path: String,
    pub size: u64,
}

/// A memo of aggregate sizes, valid for one tree state.
#[derive(Debug, Default)]
pub struct SizeCache {
    pub entries: Vec<SizeCacheEntry>,
}

/// Every memoized value is the aggregate the tree defines for its path.
pub open spec fn memo_valid(nodes: Seq<NodeRow>, memo: Seq<SizeCacheEntry>) -> bool {
    forall|j: int|
        0 <= j < memo.len() ==> (#[trigger] memo[j]).size == agg_spec(nodes, memo[j].path@)
}

impl SizeCache {
    /// An empty memo, valid for any tree.
    pub fn new() -> (r: SizeCache)
        ensures
            r.entries@.len() == 0,
    {
        SizeCache { entries: Vec::new() }
    }

    /// Look up a memoized aggregate.
    fn lookup(&self, path: &str) -> (r: Option<u64>)
        ensures
            match r {
                Some(v) => exists|j: int|
                    0 <= j < self.entries@.len() && (#[trigger] self.entries@[j]).path@ == path@
                        && self.entries@[j].size == v,
                None => true,
            },
    {
        let n = self.entries.len();
        let mut i: usize = 0;
        while i < n
            invariant
                n == self.entries@.len(),
                i <= n,
            decreases n - i,
        {
            if str_eq(self.entries[i].path.as_str(), path) {
                return Some(self.entries[i].size);
            }
            i += 1;
        }
        None
    }

    /// Memoize one aggregate.
    fn record(&mut self, path: String, size: u64)
        ensures
            final(self).entries@ == old(self).entries@.push(
                SizeCacheEntry { path, size },
            ),
    {
        self.entries.push(SizeCacheEntry { path, size });
    }
}

/// Compute the aggregate of `path` per `agg_spec`, consulting and filling
/// the memo.
fn agg_rec(nodes: &Vec<NodeRow>, path: &str, memo: &mut SizeCache) -> (r: u64)
    requires
        wf_nodes(nodes@),
        memo_valid(nodes@, old(memo).entries@),
    ensures
        memo_valid(nodes@, final(memo).entries@),
        r == agg_spec(nodes@, path@),
    decreases (max_path_len(nodes@) + 1) - path@.len(),
{
    match memo.lookup(path) {
        Some(v) => {
            proof {
                let j = choose|j: int|
                    0 <= j < memo.entries@.len() && (#[trigger] memo.entries@[j]).path@ == path@
                        && memo.entries@[j].size == v;
                assert(memo.entries@[j].size == agg_spec(nodes@, memo.entries@[j].path@));
            }
            return v;
        },
        None => {},
    }
    let k = match find_node(nodes, path) {
        None => {
            return 0;
        },
        Some(k) => k,
    };
    proof {
        lemma_node_index_of(nodes@, path@);
        lemma_max_path_len(nodes@, k as int);
    }
    let mut total: u64;
    if matches!(nodes[k].node.kind, FileKind::Directory) {
        total = nodes[k].node.direct_size;
        let nc = nodes[k].entry_children_len();
        let mut j: usize = 0;
        while j < nc
            invariant
                wf_nodes(nodes@),
                memo_valid(nodes@, memo.entries@),
                k < nodes@.len(),
                node_index_of(nodes@, path@) == k as int,
                path@ == nodes@[k as int].path@,
                nodes@[k as int].node.kind == FileKind::Directory,
                nc == nodes@[k as int].node.children@.len(),
                j <= nc,
                total == agg_children_spec(nodes@, k as int, j as int),
            decreases nc - j,
        {
            proof {
                lemma_max_path_len(nodes@, k as int);
                let cpath = (nodes@[k as int].node.children@[j as int])@;
                lemma_node_index_of(nodes@, cpath);
                lemma_max_path_len(nodes@, node_index_of(nodes@, cpath));
            }
            let cv = agg_rec(nodes, nodes[k].node.children[j].as_str(), memo);
            total = total.saturating_add(cv);
            j += 1;
        }
        proof {
            assert(total == agg_children_spec(nodes@, k as int, nc as int));
        }
    } else {
        total = nodes[k].node.direct_size;
    }
    let ghost memo_pre = memo.entries@;
    memo.record(path.to_owned(), total);
    proof {
        assert(total == agg_spec(nodes@, path@));
        assert forall|j: int| 0 <= j < memo.entries@.len() implies (#[trigger] memo.entries@[j]).size
            == agg_spec(nodes@, memo.entries@[j].path@) by {
            if j < memo.entries@.len() - 1 {
                assert(memo.entries@[j] == memo_pre[j]);
            }
        }
    }
    total
}

impl TreeStore {
    /// The aggregate size of the node at `path`: direct size plus the
    /// recursive aggregates of its children, memoized per query in `cache`;
    /// zero for an unknown path. Additions saturate.
    pub fn aggregated_size_with_cache(&self, path: &str, cache: &mut SizeCache) -> (r: u64)
        requires
            self.wf(),
            memo_valid(self.nodes@, old(cache).entries@),
        ensures
            memo_valid(self.nodes@, final(cache).entries@),
            r == agg_spec(self.nodes@, path@),
    {
        agg_rec(&self.nodes, path, cache)
    }
}

} // verus!
