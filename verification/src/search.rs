//! The first position at which something holds: the shape of every
//! `iter().find(..)` and `iter().position(..)` this crate states.

use vstd::prelude::*;

verus! {

/// The first `i` below `n` at which `p` holds, if there is one.
pub open spec fn first_index(n: int, p: spec_fn(int) -> bool) -> Option<int> {
    if exists|i: int| 0 <= i < n && #[trigger] p(i) {
        Some(
            choose|i: int|
                0 <= i < n && #[trigger] p(i) && forall|j: int| 0 <= j < i ==> !#[trigger] p(j),
        )
    } else {
        None
    }
}

/// The first position is `at` when `p` holds there and nowhere before.
pub proof fn lemma_first_index_at(n: int, p: spec_fn(int) -> bool, at: int)
    requires
        0 <= at < n,
        p(at),
        forall|j: int| 0 <= j < at ==> !#[trigger] p(j),
    ensures
        first_index(n, p) == Some(at),
{
    assert(exists|i: int| 0 <= i < n && #[trigger] p(i)) by {
        assert(p(at));
    }
    assert(exists|i: int|
        0 <= i < n && #[trigger] p(i) && forall|j: int| 0 <= j < i ==> !#[trigger] p(j)) by {
        assert(p(at));
    }
    let i = choose|i: int| 0 <= i < n && #[trigger] p(i) && forall|j: int| 0 <= j < i ==> !#[trigger] p(j);
    if i < at {
        assert(!p(i));
    }
    if at < i {
        assert(!p(at));
    }
}

/// There is no first position when `p` holds nowhere.
pub proof fn lemma_first_index_none(n: int, p: spec_fn(int) -> bool)
    requires
        forall|j: int| 0 <= j < n ==> !#[trigger] p(j),
    ensures
        first_index(n, p) is None,
{
}

} // verus!

verus! {

/// What [`first_index`] says, unfolded.
pub proof fn lemma_first_index(n: int, p: spec_fn(int) -> bool)
    ensures
        match first_index(n, p) {
            Some(k) => 0 <= k < n && p(k) && forall|j: int| 0 <= j < k ==> !#[trigger] p(j),
            None => forall|j: int| 0 <= j < n ==> !#[trigger] p(j),
        },
{
    if exists|i: int| 0 <= i < n && #[trigger] p(i) {
        let w = choose|i: int| 0 <= i < n && #[trigger] p(i);
        lemma_least(n, p, w);
    }
}

proof fn lemma_least(n: int, p: spec_fn(int) -> bool, w: int)
    requires
        0 <= w < n,
        p(w),
    ensures
        exists|i: int| 0 <= i < n && #[trigger] p(i) && forall|j: int| 0 <= j < i ==> !#[trigger] p(j),
    decreases w,
{
    if exists|j: int| 0 <= j < w && #[trigger] p(j) {
        let v = choose|j: int| 0 <= j < w && #[trigger] p(j);
        lemma_least(n, p, v);
    } else {
        assert(forall|j: int| 0 <= j < w ==> !#[trigger] p(j));
    }
}

} // verus!
