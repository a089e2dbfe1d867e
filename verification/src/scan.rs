//! First and last positions in a range that satisfy a predicate, with the
//! lemmas that connect them to the scanning loops of the parsers.

use vstd::prelude::*;

verus! {

/// The first `k` in `lo..hi` with `p(k)`.
pub open spec fn first_in(lo: int, hi: int, p: spec_fn(int) -> bool) -> Option<int>
    decreases hi - lo,
{
    if lo >= hi {
        None
    } else if p(lo) {
        Some(lo)
    } else {
        first_in(lo + 1, hi, p)
    }
}

/// The last `k` in `lo..hi` with `p(k)`.
pub open spec fn last_in(lo: int, hi: int, p: spec_fn(int) -> bool) -> Option<int>
    decreases hi - lo,
{
    if lo >= hi {
        None
    } else if p(hi - 1) {
        Some(hi - 1)
    } else {
        last_in(lo, hi - 1, p)
    }
}

pub proof fn lemma_first_in_range(lo: int, hi: int, p: spec_fn(int) -> bool)
    ensures
        first_in(lo, hi, p) matches Some(k) ==> lo <= k < hi && p(k),
    decreases hi - lo,
{
    if lo < hi && !p(lo) {
        lemma_first_in_range(lo + 1, hi, p);
    }
}

/// [`first_in`] gives the least match, or `None` when nothing matches.
pub proof fn lemma_first_in_exact(lo: int, hi: int, p: spec_fn(int) -> bool)
    ensures
        first_in(lo, hi, p) matches Some(k) ==> lo <= k < hi && p(k) && forall|j: int|
            lo <= j < k ==> !#[trigger] p(j),
        first_in(lo, hi, p) is None ==> forall|j: int| lo <= j < hi ==> !#[trigger] p(j),
    decreases hi - lo,
{
    if lo < hi && !p(lo) {
        lemma_first_in_exact(lo + 1, hi, p);
    }
}

pub proof fn lemma_first_in_found(lo: int, hi: int, p: spec_fn(int) -> bool, k: int)
    requires
        lo <= k < hi,
        p(k),
        forall|j: int| lo <= j < k ==> !#[trigger] p(j),
    ensures
        first_in(lo, hi, p) == Some(k),
    decreases k - lo,
{
    if lo < k {
        lemma_first_in_found(lo + 1, hi, p, k);
    }
}

pub proof fn lemma_first_in_none(lo: int, hi: int, p: spec_fn(int) -> bool)
    requires
        forall|j: int| lo <= j < hi ==> !#[trigger] p(j),
    ensures
        first_in(lo, hi, p) == None::<int>,
    decreases hi - lo,
{
    if lo < hi {
        lemma_first_in_none(lo + 1, hi, p);
    }
}

pub proof fn lemma_last_in_range(lo: int, hi: int, p: spec_fn(int) -> bool)
    ensures
        last_in(lo, hi, p) matches Some(k) ==> lo <= k < hi && p(k),
    decreases hi - lo,
{
    if lo < hi && !p(hi - 1) {
        lemma_last_in_range(lo, hi - 1, p);
    }
}

pub proof fn lemma_last_in_found(lo: int, hi: int, p: spec_fn(int) -> bool, k: int)
    requires
        lo <= k < hi,
        p(k),
        forall|j: int| k < j < hi ==> !#[trigger] p(j),
    ensures
        last_in(lo, hi, p) == Some(k),
    decreases hi - k,
{
    if k < hi - 1 {
        lemma_last_in_found(lo, hi - 1, p, k);
    }
}

pub proof fn lemma_last_in_none(lo: int, hi: int, p: spec_fn(int) -> bool)
    requires
        forall|j: int| lo <= j < hi ==> !#[trigger] p(j),
    ensures
        last_in(lo, hi, p) == None::<int>,
    decreases hi - lo,
{
    if lo < hi {
        lemma_last_in_none(lo, hi - 1, p);
    }
}

} // verus!
