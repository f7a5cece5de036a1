//! Ranking of scored candidates: the `k` best of a list of scores, best
//! first, equal scores in the order of their positions. A batch in which a
//! candidate has another length than the query is not ranked.
//!
//! A score is held as the bit pattern of an IEEE 754 double: sign bit,
//! eleven exponent bits, fifty-two fraction bits.

use vstd::prelude::*;
use vstd::seq_lib::*;
use crate::error::InvalidInput;
use crate::similarity::{check_dimensions, same_lengths};

verus! {

/// A candidate's position in the caller's list, and its score.
#[derive(Clone, Copy, Debug, PartialEq, Eq, Structural)]
pub struct ScoredCandidate {
    /// The position of the candidate in the list that was ranked.
    pub index: usize,
    /// The bit pattern of the score.
    pub score: u64,
}

/// The value of the sign bit.
pub const SIGN_BIT: u64 = 0x8000_0000_0000_0000;

/// The bit pattern of positive infinity: all exponent bits, no fraction bit.
pub const INFINITY_BITS: u64 = 0x7ff0_0000_0000_0000;

/// The pattern without its sign bit.
pub open spec fn magnitude(bits: u64) -> int {
    if bits < SIGN_BIT {
        bits as int
    } else {
        bits - SIGN_BIT
    }
}

/// The pattern is that of a NaN: all exponent bits set and a fraction that is
/// not zero.
pub open spec fn is_nan(bits: u64) -> bool {
    magnitude(bits) > INFINITY_BITS
}

/// An integer that orders patterns as their numbers are ordered: of two
/// patterns that are numbers, the one with the greater key is the greater
/// number, and both zeros have the key 0.
pub open spec fn order_key(bits: u64) -> int {
    if bits < SIGN_BIT {
        magnitude(bits)
    } else {
        -magnitude(bits)
    }
}

/// `a` ranks before `b`: its score is greater, or the scores are equal and it
/// stands earlier in the list.
pub open spec fn precedes(a: ScoredCandidate, b: ScoredCandidate) -> bool {
    order_key(a.score) > order_key(b.score) || (order_key(a.score) == order_key(b.score)
        && a.index < b.index)
}

/// The candidate at position `i` of `scores`.
pub open spec fn candidate(scores: Seq<u64>, i: int) -> ScoredCandidate {
    ScoredCandidate { index: i as usize, score: scores[i] }
}

/// The candidates of `scores`, in the order of the list.
pub open spec fn candidates(scores: Seq<u64>) -> Seq<ScoredCandidate> {
    Seq::new(scores.len(), |i: int| candidate(scores, i))
}

/// `top` holds the candidate at position `i`.
pub open spec fn holds(top: Seq<ScoredCandidate>, i: int) -> bool {
    exists|j: int| 0 <= j < top.len() && #[trigger] top[j].index == i
}

/// `top` is the list of the `k` best candidates of `scores`, or of all of
/// them if there are fewer: each entry is a candidate of the list with its
/// own score, each entry ranks before the entries after it, and every entry
/// ranks before every candidate that was left out.
pub open spec fn is_top_k(scores: Seq<u64>, k: nat, top: Seq<ScoredCandidate>) -> bool {
    &&& top.len() == if k <= scores.len() {
        k
    } else {
        scores.len()
    }
    &&& forall|j: int|
        0 <= j < top.len() ==> (#[trigger] top[j]).index < scores.len() && top[j] == candidate(
            scores,
            top[j].index as int,
        )
    &&& forall|i: int, j: int| 0 <= i < j < top.len() ==> precedes(top[i], top[j])
    &&& forall|j: int, c: int|
        0 <= j < top.len() && 0 <= c < scores.len() && !holds(top, c) ==> precedes(
            #[trigger] top[j],
            #[trigger] candidate(scores, c),
        )
}

/// The scores can be ordered: fewer than two of them, or none of them a NaN.
pub open spec fn comparable(scores: Seq<u64>) -> bool {
    scores.len() < 2 || forall|i: int| 0 <= i < scores.len() ==> !is_nan(#[trigger] scores[i])
}

/// No entry ranks before an entry that stands ahead of it.
pub open spec fn ordered(s: Seq<ScoredCandidate>) -> bool {
    forall|i: int, j: int| 0 <= i < j < s.len() ==> !precedes(#[trigger] s[j], #[trigger] s[i])
}

/// Tells whether the pattern is that of a NaN.
pub fn nan(bits: u64) -> (b: bool)
    ensures
        b == is_nan(bits),
{
    let m: u64 = if bits < SIGN_BIT {
        bits
    } else {
        bits - SIGN_BIT
    };
    m > INFINITY_BITS
}

/// The order key of a pattern.
pub fn key_of(bits: u64) -> (key: i64)
    ensures
        key == order_key(bits),
{
    if bits < SIGN_BIT {
        bits as i64
    } else {
        -((bits - SIGN_BIT) as i64)
    }
}

/// Tells whether `a` ranks before `b`.
pub fn ranks_before(a: &ScoredCandidate, b: &ScoredCandidate) -> (r: bool)
    ensures
        r == precedes(*a, *b),
{
    let ka = key_of(a.score);
    let kb = key_of(b.score);
    ka > kb || (ka == kb && a.index < b.index)
}

/// An entry that no entry of an ordered list ranks behind can be put at its
/// end: the list stays ordered.
proof fn lemma_push_keeps_order(list: Seq<ScoredCandidate>, x: ScoredCandidate)
    requires
        ordered(list),
        list.len() > 0 ==> !precedes(x, list.last()),
    ensures
        ordered(list.push(x)),
        forall|p: int| 0 <= p < list.len() ==> !precedes(x, #[trigger] list[p]),
{
    let grown = list.push(x);
    assert forall|p: int| 0 <= p < list.len() implies !precedes(x, #[trigger] list[p]) by {
        if p < list.len() - 1 {
            assert(!precedes(list[list.len() - 1], list[p]));
        }
    }
    assert forall|p: int, q: int| 0 <= p < q < grown.len() implies !precedes(
        #[trigger] grown[q],
        #[trigger] grown[p],
    ) by {
        assert(grown[p] == list[p]);
        if q < list.len() {
            assert(grown[q] == list[q]);
        }
    }
}

/// Putting an entry at the end of a list that holds what two lists hold
/// gives a list that holds what they hold with the entry at the end of
/// either.
proof fn lemma_push_keeps_content(
    list: Seq<ScoredCandidate>,
    left: Seq<ScoredCandidate>,
    right: Seq<ScoredCandidate>,
    x: ScoredCandidate,
)
    requires
        list.to_multiset() == left.to_multiset().add(right.to_multiset()),
    ensures
        list.push(x).to_multiset() == left.push(x).to_multiset().add(right.to_multiset()),
        list.push(x).to_multiset() == left.to_multiset().add(right.push(x).to_multiset()),
{
    broadcast use vstd::multiset::group_multiset_axioms;

    to_multiset_build(list, x);
    to_multiset_build(left, x);
    to_multiset_build(right, x);
    assert(list.push(x).to_multiset() =~= left.push(x).to_multiset().add(right.to_multiset()));
    assert(list.push(x).to_multiset() =~= left.to_multiset().add(right.push(x).to_multiset()));
}

/// Merges two ordered lists into one.
fn merge(left: &Vec<ScoredCandidate>, right: &Vec<ScoredCandidate>) -> (out: Vec<ScoredCandidate>)
    requires
        ordered(left@),
        ordered(right@),
    ensures
        ordered(out@),
        out@.to_multiset() == left@.to_multiset().add(right@.to_multiset()),
{
    broadcast use {group_to_multiset_ensures, vstd::multiset::group_multiset_axioms};

    let mut out: Vec<ScoredCandidate> = Vec::new();
    let mut i: usize = 0;
    let mut j: usize = 0;
    proof {
        assert(left@.take(0) =~= Seq::<ScoredCandidate>::empty());
        assert(right@.take(0) =~= Seq::<ScoredCandidate>::empty());
        assert(out@.to_multiset() =~= left@.take(0).to_multiset().add(right@.take(0).to_multiset()));
    }
    while i < left.len() || j < right.len()
        invariant
            i <= left.len(),
            j <= right.len(),
            ordered(left@),
            ordered(right@),
            ordered(out@),
            out@.to_multiset() == left@.take(i as int).to_multiset().add(
                right@.take(j as int).to_multiset(),
            ),
            out.len() > 0 && i < left.len() ==> !precedes(left@[i as int], out@.last()),
            out.len() > 0 && j < right.len() ==> !precedes(right@[j as int], out@.last()),
        decreases (left.len() - i) + (right.len() - j),
    {
        let ghost before = out@;
        let from_left = j == right.len() || (i < left.len() && !ranks_before(&right[j], &left[i]));
        let x = if from_left {
            left[i]
        } else {
            right[j]
        };
        out.push(x);
        proof {
            lemma_push_keeps_order(before, x);
            lemma_push_keeps_content(before, left@.take(i as int), right@.take(j as int), x);
            if from_left {
                assert(left@.take(i as int + 1) =~= left@.take(i as int).push(x));
                if i + 1 < left.len() {
                    assert(!precedes(left@[i as int + 1], left@[i as int]));
                }
            } else {
                assert(right@.take(j as int + 1) =~= right@.take(j as int).push(x));
                if j + 1 < right.len() {
                    assert(!precedes(right@[j as int + 1], right@[j as int]));
                }
            }
        }
        if from_left {
            i += 1;
        } else {
            j += 1;
        }
    }
    proof {
        assert(left@.take(i as int) =~= left@);
        assert(right@.take(j as int) =~= right@);
    }
    out
}

/// An ordered list of the entries `v[lo..hi]`.
fn sort_span(v: &Vec<ScoredCandidate>, lo: usize, hi: usize) -> (out: Vec<ScoredCandidate>)
    requires
        lo <= hi <= v.len(),
    ensures
        ordered(out@),
        out@.to_multiset() == v@.subrange(lo as int, hi as int).to_multiset(),
    decreases hi - lo,
{
    broadcast use {group_to_multiset_ensures, vstd::multiset::group_multiset_axioms};

    if hi - lo <= 1 {
        let mut out: Vec<ScoredCandidate> = Vec::new();
        if lo < hi {
            out.push(v[lo]);
        }
        proof {
            assert(out@ =~= v@.subrange(lo as int, hi as int));
        }
        out
    } else {
        let mid = lo + (hi - lo) / 2;
        let left = sort_span(v, lo, mid);
        let right = sort_span(v, mid, hi);
        proof {
            let a = v@.subrange(lo as int, mid as int);
            let b = v@.subrange(mid as int, hi as int);
            assert(a + b =~= v@.subrange(lo as int, hi as int));
            lemma_multiset_commutative(a, b);
        }
        merge(&left, &right)
    }
}

/// The first entries of an ordered list of all candidates are the top of the
/// ranking.
pub proof fn lemma_ordered_prefix_is_top_k(scores: Seq<u64>, all: Seq<ScoredCandidate>, k: nat)
    requires
        scores.len() <= usize::MAX,
        ordered(all),
        all.to_multiset() == candidates(scores).to_multiset(),
    ensures
        all.len() == scores.len(),
        is_top_k(
            scores,
            k,
            all.take(
                if k <= scores.len() {
                    k as int
                } else {
                    scores.len() as int
                },
            ),
        ),
{
    broadcast use {group_to_multiset_ensures, vstd::multiset::group_multiset_axioms};

    let cands = candidates(scores);
    let n = scores.len() as int;
    let m = if k <= scores.len() {
        k as int
    } else {
        n
    };
    let top = all.take(m);
    assert(all.len() == n) by {
        to_multiset_len(all);
        to_multiset_len(cands);
    }
    // every entry is a candidate of the list
    assert forall|j: int| 0 <= j < all.len() implies (#[trigger] all[j]).index < n && all[j]
        == candidate(scores, all[j].index as int) by {
        assert(all.contains(all[j]));
        to_multiset_contains(all, all[j]);
        to_multiset_contains(cands, all[j]);
        let i = choose|i: int| 0 <= i < cands.len() && cands[i] == all[j];
        assert(cands[i] == candidate(scores, i));
    }
    // no candidate stands twice
    assert(cands.no_duplicates()) by {
        assert forall|i: int, j: int| 0 <= i < cands.len() && 0 <= j < cands.len() && i
            != j implies cands[i] != cands[j] by {
            assert(cands[i].index == i && cands[j].index == j);
        }
    }
    cands.lemma_multiset_has_no_duplicates();
    all.lemma_multiset_has_no_duplicates_conv();
    assert forall|i: int, j: int| 0 <= i < j < all.len() implies precedes(all[i], all[j]) by {
        assert(all[i] != all[j]);
        assert(!precedes(all[j], all[i]));
    }
    assert forall|j: int, c: int| 0 <= j < top.len() && 0 <= c < n && !holds(top, c) implies precedes(
        #[trigger] top[j],
        #[trigger] candidate(scores, c),
    ) by {
        let x = candidate(scores, c);
        assert(cands[c] == x);
        assert(cands.contains(x));
        to_multiset_contains(cands, x);
        to_multiset_contains(all, x);
        let p = choose|p: int| 0 <= p < all.len() && all[p] == x;
        if p < m {
            assert(top[p].index == c);
        }
        assert(precedes(all[j], all[p]));
    }
    assert forall|i: int, j: int| 0 <= i < j < top.len() implies precedes(top[i], top[j]) by {
        assert(precedes(all[i], all[j]));
    }
    assert forall|j: int| 0 <= j < top.len() implies (#[trigger] top[j]).index < n && top[j]
        == candidate(scores, top[j].index as int) by {
        assert(top[j] == all[j]);
    }
}

/// Ranks the candidates whose scores are given and returns the `k` best:
/// greater scores first, equal scores in the order of the list. With `k`
/// above the number of candidates all of them are returned. Two or more
/// scores with a NaN among them cannot be ordered and are refused.
pub fn rank_top_k(scores: &Vec<u64>, k: usize) -> (r: Result<Vec<ScoredCandidate>, InvalidInput>)
    ensures
        match r {
            Ok(top) => comparable(scores@) && is_top_k(scores@, k as nat, top@),
            Err(e) => !comparable(scores@) && e == InvalidInput::NotANumber,
        },
{
    let n = scores.len();
    let mut all: Vec<ScoredCandidate> = Vec::new();
    let mut numbers = true;
    let mut i: usize = 0;
    while i < n
        invariant
            n == scores.len(),
            i <= n,
            all@ == candidates(scores@).take(i as int),
            numbers == forall|j: int| 0 <= j < i ==> !is_nan(#[trigger] scores@[j]),
        decreases n - i,
    {
        if nan(scores[i]) {
            numbers = false;
        }
        all.push(ScoredCandidate { index: i, score: scores[i] });
        proof {
            assert(all@ =~= candidates(scores@).take(i as int + 1));
        }
        i += 1;
    }
    if n >= 2 && !numbers {
        return Err(InvalidInput::NotANumber);
    }
    let mut top = sort_span(&all, 0, n);
    proof {
        assert(all@ =~= candidates(scores@));
        assert(all@.subrange(0, n as int) =~= all@);
        lemma_ordered_prefix_is_top_k(scores@, top@, k as nat);
    }
    let ghost full = top@;
    top.truncate(k);
    proof {
        if k <= n {
            assert(top@ =~= full.take(k as int));
        } else {
            assert(top@ =~= full.take(n as int));
        }
    }
    Ok(top)
}

/// The `k` candidates most similar to a query, from the length of the query,
/// the lengths of the candidates and their scores: a batch with a candidate
/// of another length than the query is refused; scores that cannot be
/// ordered are refused; any other batch is ranked, greater scores first and
/// equal scores in the order of the list, and the `k` best are returned, or
/// all of them if there are fewer.
pub fn find_top_k_similar(
    query_len: usize,
    candidate_lens: &Vec<usize>,
    scores: &Vec<u64>,
    k: usize,
) -> (r: Result<Vec<ScoredCandidate>, InvalidInput>)
    ensures
        !same_lengths(query_len, candidate_lens@) ==> r == Err::<
            Vec<ScoredCandidate>,
            InvalidInput,
        >(InvalidInput::LengthMismatch),
        same_lengths(query_len, candidate_lens@) && !comparable(scores@) ==> r == Err::<
            Vec<ScoredCandidate>,
            InvalidInput,
        >(InvalidInput::NotANumber),
        same_lengths(query_len, candidate_lens@) && comparable(scores@) ==> (r matches Ok(top)
            && is_top_k(scores@, k as nat, top@)),
{
    match check_dimensions(query_len, candidate_lens) {
        Err(e) => Err(e),
        Ok(()) => rank_top_k(scores, k),
    }
}

} // verus!
