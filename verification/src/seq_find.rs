//! First-match lookup over a sequence, shared by the stores that keep their
//! records in vectors with unique keys.

use vstd::prelude::*;

verus! {

/// Index of the first element of `s` satisfying `p`, or `-1`.
pub open spec fn first_index_where<T>(s: Seq<T>, p: spec_fn(T) -> bool) -> int
    decreases s.len(),
{
    if s.len() == 0 {
        -1
    } else if p(s[0]) {
        0
    } else {
        let r = first_index_where(s.drop_first(), p);
        if r < 0 {
            -1
        } else {
            r + 1
        }
    }
}

pub proof fn lemma_first_index_where<T>(s: Seq<T>, p: spec_fn(T) -> bool)
    ensures
        -1 <= first_index_where(s, p) < s.len(),
        first_index_where(s, p) >= 0 ==> p(s[first_index_where(s, p)]),
        forall|j: int|
            0 <= j < s.len() && (first_index_where(s, p) < 0 || j < first_index_where(s, p))
                ==> !p(s[j]),
    decreases s.len(),
{
    if s.len() == 0 {
    } else if p(s[0]) {
    } else {
        lemma_first_index_where(s.drop_first(), p);
        let r = first_index_where(s.drop_first(), p);
        assert forall|j: int|
            0 <= j < s.len() && (first_index_where(s, p) < 0 || j < first_index_where(s, p))
                implies !p(s[j]) by {
            if j > 0 {
                assert(s.drop_first()[j - 1] == s[j]);
            }
        }
    }
}

/// A first match at `i` (with no match before it) pins the index.
pub proof fn lemma_first_index_where_is<T>(s: Seq<T>, p: spec_fn(T) -> bool, i: int)
    requires
        0 <= i < s.len(),
        p(s[i]),
        forall|j: int| 0 <= j < i ==> !p(s[j]),
    ensures
        first_index_where(s, p) == i,
    decreases s.len(),
{
    if i == 0 {
    } else {
        assert(!p(s[0]));
        assert forall|j: int| 0 <= j < i - 1 implies !p(s.drop_first()[j]) by {
            assert(s.drop_first()[j] == s[j + 1]);
        }
        assert(s.drop_first()[i - 1] == s[i]);
        lemma_first_index_where_is(s.drop_first(), p, i - 1);
    }
}

/// No match anywhere pins the index to `-1`.
pub proof fn lemma_first_index_where_none<T>(s: Seq<T>, p: spec_fn(T) -> bool)
    requires
        forall|j: int| 0 <= j < s.len() ==> !p(s[j]),
    ensures
        first_index_where(s, p) == -1,
{
    lemma_first_index_where(s, p);
    if first_index_where(s, p) >= 0 {
        assert(p(s[first_index_where(s, p)]));
    }
}

} // verus!
