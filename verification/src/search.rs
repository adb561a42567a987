//! Looking for the first item of a sequence that has a property.
use vstd::prelude::*;

verus! {

/// The position of the first item of `s` that satisfies `p`.
pub open spec fn first_where<T>(s: Seq<T>, p: spec_fn(T) -> bool) -> Option<int>
    decreases s.len(),
{
    if s.len() == 0 {
        None
    } else {
        match first_where(s.drop_last(), p) {
            Some(i) => Some(i),
            None => if p(s.last()) {
                Some(s.len() - 1)
            } else {
                None
            },
        }
    }
}

/// A position found holds an item that satisfies `p` and that no such item
/// precedes; where none is found, no item satisfies `p`.
pub proof fn lemma_first_where<T>(s: Seq<T>, p: spec_fn(T) -> bool)
    ensures
        match first_where(s, p) {
            Some(i) => 0 <= i < s.len() && p(s[i]) && (forall|j: int|
                0 <= j < i ==> !p(#[trigger] s[j])),
            None => forall|j: int| 0 <= j < s.len() ==> !p(#[trigger] s[j]),
        },
    decreases s.len(),
{
    if s.len() > 0 {
        let front = s.drop_last();
        lemma_first_where(front, p);
        match first_where(front, p) {
            Some(i) => {
                assert forall|j: int| 0 <= j < i implies !p(#[trigger] s[j]) by {
                    assert(front[j] == s[j]);
                }
            },
            None => {
                assert forall|j: int| 0 <= j < s.len() - 1 implies !p(#[trigger] s[j]) by {
                    assert(front[j] == s[j]);
                }
            },
        }
    }
}

/// A position that holds an item satisfying `p`, and that no such item
/// precedes, is the one found.
pub proof fn lemma_is_first_where<T>(s: Seq<T>, p: spec_fn(T) -> bool, i: int)
    requires
        0 <= i < s.len(),
        p(s[i]),
        forall|j: int| 0 <= j < i ==> !p(#[trigger] s[j]),
    ensures
        first_where(s, p) == Some(i),
{
    lemma_first_where(s, p);
    match first_where(s, p) {
        Some(k) => {
            if k < i {
                assert(!p(s[k]));
            }
        },
        None => {
            assert(!p(s[i]));
        },
    }
}

/// Where no item satisfies `p`, none is found.
pub proof fn lemma_none_where<T>(s: Seq<T>, p: spec_fn(T) -> bool)
    requires
        forall|j: int| 0 <= j < s.len() ==> !p(#[trigger] s[j]),
    ensures
        first_where(s, p) is None,
{
    lemma_first_where(s, p);
}

} // verus!
