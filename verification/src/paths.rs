//! Root-relative paths. The root itself is the single-character path `.`;
//! every other entry is a forward-slash-separated path relative to the root.

use vstd::prelude::*;
use vstd::string::StrSliceExecFns;

verus! {

/// The relative path that denotes the root itself.
pub open spec fn dot() -> Seq<char> {
    seq!['.']
}

/// Index of the last `/` in `s`, or `-1` if there is none.
pub open spec fn last_slash(s: Seq<char>) -> int
    decreases s.len(),
{
    if s.len() == 0 {
        -1
    } else if s[s.len() - 1] == '/' {
        s.len() - 1
    } else {
        last_slash(s.drop_last())
    }
}

pub proof fn lemma_last_slash_bounds(s: Seq<char>)
    ensures
        -1 <= last_slash(s) < s.len(),
        last_slash(s) >= 0 ==> s[last_slash(s)] == '/',
        forall|i: int| last_slash(s) < i < s.len() ==> s[i] != '/',
    decreases s.len(),
{
    if s.len() == 0 {
    } else if s[s.len() - 1] == '/' {
    } else {
        lemma_last_slash_bounds(s.drop_last());
        assert forall|i: int| last_slash(s) < i < s.len() implies s[i] != '/' by {
            if i < s.len() - 1 {
                assert(s.drop_last()[i] == s[i]);
            }
        }
    }
}

/// The relative path of the directory that contains `s`: `None` for the root
/// `.` and for the empty path, `.` for a top-level entry, otherwise the
/// prefix before the last slash.
pub open spec fn parent_of(s: Seq<char>) -> Option<Seq<char>> {
    if s.len() == 0 || s == dot() {
        None
    } else if last_slash(s) < 0 {
        Some(dot())
    } else {
        Some(s.subrange(0, last_slash(s)))
    }
}

/// `anc` lies on the parent chain of `p` (including `p` itself).
pub open spec fn on_ancestor_chain(anc: Seq<char>, p: Seq<char>) -> bool
    decreases (if p == dot() { 0int } else { 1int }), p.len(),
{
    anc == p || match parent_of(p) {
        Some(q) => {
            if q == dot() && p != dot() {
                anc == q || on_ancestor_chain_from_dot(anc)
            } else if q.len() < p.len() {
                on_ancestor_chain(anc, q)
            } else {
                false
            }
        },
        None => false,
    }
}

/// Helper: the chain of `.` is just `.` itself.
pub open spec fn on_ancestor_chain_from_dot(anc: Seq<char>) -> bool {
    anc == dot()
}

/// Compare two string slices by contents.
pub fn str_eq(a: &str, b: &str) -> (r: bool)
    ensures
        r == (a@ == b@),
{
    let alen = a.unicode_len();
    let blen = b.unicode_len();
    if alen != blen {
        assert(a@.len() != b@.len());
        return false;
    }
    let mut i: usize = 0;
    while i < alen
        invariant
            alen == a@.len(),
            alen == b@.len(),
            i <= alen,
            forall|j: int| 0 <= j < i ==> a@[j] == b@[j],
        decreases alen - i,
    {
        if a.get_char(i) != b.get_char(i) {
            return false;
        }
        i += 1;
    }
    proof {
        assert(a@ =~= b@);
    }
    true
}

/// Is `s` the root path `.`?
pub fn is_dot(s: &str) -> (r: bool)
    ensures
        r == (s@ == dot()),
{
    proof {
        reveal_strlit(".");
    }
    let r = str_eq(s, ".");
    proof {
        assert("."@ =~= dot());
    }
    r
}

/// A fresh `.` path.
pub fn dot_string() -> (r: String)
    ensures
        r@ == dot(),
{
    proof {
        reveal_strlit(".");
        assert("."@ =~= dot());
    }
    String::from_str(".")
}

/// Index of the last `/` in `s`, if any.
pub fn find_last_slash(s: &str) -> (r: Option<usize>)
    ensures
        match r {
            Some(i) => last_slash(s@) == i as int,
            None => last_slash(s@) == -1,
        },
{
    let len = s.unicode_len();
    let mut i: usize = 0;
    let mut last: Option<usize> = None;
    while i < len
        invariant
            len == s@.len(),
            i <= len,
            match last {
                Some(k) => last_slash(s@.subrange(0, i as int)) == k as int && k < i,
                None => last_slash(s@.subrange(0, i as int)) == -1,
            },
        decreases len - i,
    {
        let c = s.get_char(i);
        proof {
            let pre = s@.subrange(0, i as int);
            let ext = s@.subrange(0, i + 1int);
            assert(ext.drop_last() =~= pre);
            assert(ext[ext.len() - 1] == s@[i as int]);
        }
        if c == '/' {
            last = Some(i);
        }
        i += 1;
    }
    proof {
        assert(s@.subrange(0, len as int) =~= s@);
    }
    last
}

/// The relative path of the containing directory, per `parent_of`.
pub fn parent_relative(path: &str) -> (r: Option<String>)
    ensures
        match r {
            Some(p) => parent_of(path@) == Some(p@),
            None => parent_of(path@) is None,
        },
{
    if path.unicode_len() == 0 || is_dot(path) {
        return None;
    }
    match find_last_slash(path) {
        None => Some(dot_string()),
        Some(i) => {
            proof {
                lemma_last_slash_bounds(path@);
            }
            let p = path.substring_char(0, i);
            Some(p.to_owned())
        },
    }
}


/// A well-formed relative path: `.` itself, or a non-empty path that does
/// not begin or end with a slash and has no empty segment.
pub open spec fn wf_rel(s: Seq<char>) -> bool {
    s == dot() || (s.len() > 0 && s[0] != '/' && s[s.len() - 1] != '/' && (forall|i: int|
        0 <= i < s.len() - 1 ==> !(#[trigger] s[i] == '/' && s[i + 1] == '/')))
}

/// A parent is either the root `.` or strictly shorter than its child.
pub proof fn lemma_parent_shape(s: Seq<char>)
    ensures
        match parent_of(s) {
            Some(q) => q == dot() || q.len() < s.len(),
            None => s.len() == 0 || s == dot(),
        },
{
    lemma_last_slash_bounds(s);
}

/// The chain of the root is the root alone.
pub proof fn lemma_chain_dot(a: Seq<char>)
    ensures
        on_ancestor_chain(a, dot()) == (a == dot()),
{
}

/// Everything on the chain of `q` is `q`, the root, or shorter than `q`.
pub proof fn lemma_chain_len(a: Seq<char>, q: Seq<char>)
    requires
        on_ancestor_chain(a, q),
    ensures
        a == q || a == dot() || a.len() < q.len(),
    decreases (if q == dot() { 0int } else { 1int }), q.len(),
{
    if a == q {
    } else {
        match parent_of(q) {
            Some(r) => {
                if r == dot() && q != dot() {
                } else if r.len() < q.len() {
                    lemma_chain_len(a, r);
                }
            },
            None => {},
        }
    }
}

/// Unfolds one chain step: the chain of `p` is `p` plus the chain of its
/// parent, and `p` itself is not on the parent's chain.
pub proof fn lemma_chain_step(p: Seq<char>)
    requires
        p.len() > 0,
        p != dot(),
    ensures
        parent_of(p) is Some,
        forall|a: Seq<char>|
            on_ancestor_chain(a, p) == (a == p || on_ancestor_chain(
                a,
                parent_of(p).unwrap(),
            )),
        !on_ancestor_chain(p, parent_of(p).unwrap()),
{
    lemma_parent_shape(p);
    let q = parent_of(p).unwrap();
    assert forall|a: Seq<char>|
        on_ancestor_chain(a, p) == (a == p || on_ancestor_chain(a, q)) by {
        if q == dot() {
            lemma_chain_dot(a);
        }
    }
    if on_ancestor_chain(p, q) {
        lemma_chain_len(p, q);
        if q == dot() {
            lemma_chain_dot(p);
        }
    }
}

/// A path is on its own chain.
pub proof fn lemma_chain_self(p: Seq<char>)
    ensures
        on_ancestor_chain(p, p),
{
}

/// A well-formed path keeps well-formedness as it walks to its parent, and
/// its chain reaches the root `.`.
pub proof fn lemma_wf_rel_chain_has_dot(s: Seq<char>)
    requires
        wf_rel(s),
    ensures
        on_ancestor_chain(dot(), s),
    decreases (if s == dot() { 0int } else { 1int }), s.len(),
{
    if s == dot() {
    } else {
        lemma_last_slash_bounds(s);
        let ls = last_slash(s);
        if ls < 0 {
            lemma_chain_step(s);
            lemma_chain_dot(dot());
        } else {
            let q = s.subrange(0, ls);
            assert(s[0] != '/');
            assert(ls >= 1) by {
                if ls == 0 {
                    assert(s[0] == '/');
                }
            }
            assert(q.len() == ls);
            assert(q[0] == s[0]);
            assert(q[q.len() - 1] == s[ls - 1]);
            assert(s[ls - 1] != '/') by {
                if s[ls - 1] == '/' {
                    assert(s[ls - 1] == '/' && s[ls] == '/');
                }
            }
            assert(forall|i: int| 0 <= i < q.len() - 1 ==> #[trigger] q[i] == s[i] && q[i + 1] == s[i + 1]);
            assert(wf_rel(q));
            lemma_chain_step(s);
            assert(parent_of(s) == Some(q));
            if q == dot() {
                lemma_chain_dot(dot());
            } else {
                lemma_wf_rel_chain_has_dot(q);
            }
        }
    }
}


/// A chain is closed under taking parents.
pub proof fn lemma_chain_parent_closed(c: Seq<char>, rel: Seq<char>)
    requires
        on_ancestor_chain(c, rel),
        parent_of(c) is Some,
    ensures
        on_ancestor_chain(parent_of(c).unwrap(), rel),
    decreases (if rel == dot() { 0int } else { 1int }), rel.len(),
{
    if rel == dot() {
        lemma_chain_dot(c);
        assert(c == dot());
    } else if c == rel {
        lemma_chain_step(rel);
        let q = parent_of(rel).unwrap();
        lemma_chain_self(q);
    } else {
        if rel.len() == 0 {
            assert(c == rel);
        } else {
            lemma_chain_step(rel);
            let q = parent_of(rel).unwrap();
            assert(on_ancestor_chain(c, q));
            lemma_chain_parent_closed(c, q);
        }
    }
}

} // verus!
