//! The first element of a sequence that satisfies a predicate.
use vstd::prelude::*;

verus! {

/// The index of the first element of `s` satisfying `p`, if any.
pub open spec fn first_index<T>(s: Seq<T>, p: spec_fn(T) -> bool) -> Option<int>
    decreases s.len(),
{
    if s.len() == 0 {
        None
    } else if p(s[0]) {
        Some(0)
    } else {
        match first_index(s.drop_first(), p) {
            Some(i) => Some(i + 1),
            None => None,
        }
    }
}

/// If no element before `i` satisfies `p` and `s[i]` does, the first one is at `i`.
pub proof fn lemma_first_index_at<T>(s: Seq<T>, p: spec_fn(T) -> bool, i: int)
    requires
        0 <= i < s.len(),
        p(s[i]),
        forall|k: int| 0 <= k < i ==> !p(#[trigger] s[k]),
    ensures
        first_index(s, p) == Some(i),
    decreases i,
{
    if i > 0 {
        let t = s.drop_first();
        assert forall|k: int| 0 <= k < i - 1 implies !p(#[trigger] t[k]) by {
            assert(t[k] == s[k + 1]);
        }
        assert(t[i - 1] == s[i]);
        lemma_first_index_at(t, p, i - 1);
        assert(!p(s[0]));
    }
}

/// If no element satisfies `p` there is no first one.
pub proof fn lemma_first_index_none<T>(s: Seq<T>, p: spec_fn(T) -> bool)
    requires
        forall|k: int| 0 <= k < s.len() ==> !p(#[trigger] s[k]),
    ensures
        first_index(s, p) is None,
    decreases s.len(),
{
    if s.len() > 0 {
        let t = s.drop_first();
        assert forall|k: int| 0 <= k < t.len() implies !p(#[trigger] t[k]) by {
            assert(t[k] == s[k + 1]);
        }
        lemma_first_index_none(t, p);
        assert(!p(s[0]));
    }
}

/// The first index, when there is one, points at an element satisfying `p`
/// with none before it.
pub proof fn lemma_first_index_props<T>(s: Seq<T>, p: spec_fn(T) -> bool)
    ensures
        match first_index(s, p) {
            Some(i) => 0 <= i < s.len() && p(s[i]) && forall|k: int| 0 <= k < i ==> !p(#[trigger] s[k]),
            None => forall|k: int| 0 <= k < s.len() ==> !p(#[trigger] s[k]),
        },
    decreases s.len(),
{
    if s.len() > 0 {
        let t = s.drop_first();
        lemma_first_index_props(t, p);
        if !p(s[0]) {
            match first_index(t, p) {
                Some(i) => {
                    assert(s[i + 1] == t[i]);
                    assert forall|k: int| 0 <= k < i + 1 implies !p(#[trigger] s[k]) by {
                        if k > 0 {
                            assert(s[k] == t[k - 1]);
                        }
                    }
                },
                None => {
                    assert forall|k: int| 0 <= k < s.len() implies !p(#[trigger] s[k]) by {
                        if k > 0 {
                            assert(s[k] == t[k - 1]);
                        }
                    }
                },
            }
        }
    }
}

} // verus!
