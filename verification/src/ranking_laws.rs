//! What holds of every ranking: the scores and the number asked for leave
//! one answer only.

use vstd::prelude::*;
use crate::ranking::{candidate, holds, is_top_k, order_key, precedes, ScoredCandidate};

verus! {

/// Two answers that agree up to position `r` cannot differ at `r` with the
/// entry of the first ranking before that of the second.
proof fn lemma_same_entry(
    scores: Seq<u64>,
    k: nat,
    a: Seq<ScoredCandidate>,
    b: Seq<ScoredCandidate>,
    r: int,
)
    requires
        is_top_k(scores, k, a),
        is_top_k(scores, k, b),
        0 <= r < a.len(),
        forall|i: int| 0 <= i < r ==> a[i] == b[i],
    ensures
        !precedes(a[r], b[r]),
{
    let x = a[r];
    let y = b[r];
    let c = x.index as int;
    assert(x == candidate(scores, c));
    if precedes(x, y) {
        if holds(b, c) {
            let j = choose|j: int| 0 <= j < b.len() && #[trigger] b[j].index == c;
            assert(b[j] == candidate(scores, b[j].index as int));
            assert(b[j] == x);
            if j < r {
                assert(a[j] == b[j]);
                assert(precedes(a[j], a[r]));
            } else if j > r {
                assert(precedes(b[r], b[j]));
            }
        } else {
            assert(precedes(b[r], candidate(scores, c)));
        }
    }
}

/// Two answers agree on their first `r` entries.
proof fn lemma_same_prefix(
    scores: Seq<u64>,
    k: nat,
    a: Seq<ScoredCandidate>,
    b: Seq<ScoredCandidate>,
    r: int,
)
    requires
        is_top_k(scores, k, a),
        is_top_k(scores, k, b),
        0 <= r <= a.len(),
    ensures
        forall|i: int| 0 <= i < r ==> a[i] == b[i],
    decreases r,
{
    if r > 0 {
        lemma_same_prefix(scores, k, a, b, r - 1);
        lemma_same_entry(scores, k, a, b, r - 1);
        assert forall|i: int| 0 <= i < r - 1 implies b[i] == a[i] by {}
        lemma_same_entry(scores, k, b, a, r - 1);
        let x = a[r - 1];
        let y = b[r - 1];
        assert(x == candidate(scores, x.index as int));
        assert(y == candidate(scores, y.index as int));
    }
}

/// The ranking is determined: two lists that are both the `k` best
/// candidates of `scores` are the same list.
pub proof fn lemma_top_k_is_unique(
    scores: Seq<u64>,
    k: nat,
    a: Seq<ScoredCandidate>,
    b: Seq<ScoredCandidate>,
)
    requires
        is_top_k(scores, k, a),
        is_top_k(scores, k, b),
    ensures
        a == b,
{
    lemma_same_prefix(scores, k, a, b, a.len() as int);
    assert(a =~= b);
}

/// The answer has as many entries as were asked for, or as there are
/// candidates if those are fewer, and its scores do not rise: no entry has a
/// smaller score than an entry after it, and of two entries with equal
/// scores the one that stands earlier in the list of scores comes first.
pub proof fn lemma_top_k_is_sorted(scores: Seq<u64>, k: nat, top: Seq<ScoredCandidate>)
    requires
        is_top_k(scores, k, top),
    ensures
        top.len() == if k <= scores.len() {
            k
        } else {
            scores.len()
        },
        forall|i: int, j: int|
            0 <= i < j < top.len() ==> order_key(top[i].score) >= order_key(top[j].score),
        forall|i: int, j: int|
            0 <= i < j < top.len() && order_key(top[i].score) == order_key(top[j].score)
                ==> top[i].index < top[j].index,
{
    assert forall|i: int, j: int| 0 <= i < j < top.len() implies order_key(top[i].score)
        >= order_key(top[j].score) by {
        assert(precedes(top[i], top[j]));
    }
    assert forall|i: int, j: int|
        0 <= i < j < top.len() && order_key(top[i].score) == order_key(
            top[j].score,
        ) implies top[i].index < top[j].index by {
        assert(precedes(top[i], top[j]));
    }
}

} // verus!
