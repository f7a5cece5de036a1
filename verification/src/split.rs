//! Cutting a text at separator characters into trimmed, non-empty pieces.

use vstd::prelude::*;
use crate::trim::{is_trimmed, lemma_trim_is_span, lemma_trim_is_trimmed, trim, trim_span};

verus! {

/// Where a text is cut.
#[derive(Clone, Copy, Debug, PartialEq, Eq, Structural)]
pub enum Cut {
    /// After each sentence: at `.`, `!`, `?` and at the line feed.
    Sentence,
    /// After each line: at the line feed.
    Line,
}

/// The character `c` is a separator of the cut.
pub open spec fn cuts(cut: Cut, c: char) -> bool {
    match cut {
        Cut::Sentence => c == '.' || c == '!' || c == '?' || c == '\n',
        Cut::Line => c == '\n',
    }
}

/// The number of characters of `s` before its first separator, or the length
/// of `s` if it holds none.
pub open spec fn first_piece_len(s: Seq<char>, cut: Cut) -> nat
    decreases s.len(),
{
    if s.len() == 0 || cuts(cut, s[0]) {
        0
    } else {
        1 + first_piece_len(s.drop_first(), cut)
    }
}

/// The pieces of `s` between separators, each trimmed, in the order of the
/// text; pieces that trim to nothing are left out.
pub open spec fn trimmed_pieces(s: Seq<char>, cut: Cut) -> Seq<Seq<char>>
    decreases s.len(),
{
    let n = first_piece_len(s, cut);
    let head = trim(s.take(n as int));
    let here = if head.len() > 0 {
        seq![head]
    } else {
        seq![]
    };
    if n >= s.len() {
        here
    } else {
        here + trimmed_pieces(s.skip(n as int + 1), cut)
    }
}

/// The texts that `spans` cut out of `s`.
pub open spec fn span_texts(s: Seq<char>, spans: Seq<(usize, usize)>) -> Seq<Seq<char>> {
    Seq::new(spans.len(), |i: int| s.subrange(spans[i].0 as int, spans[i].1 as int))
}

/// Every span lies inside a text of length `len`.
pub open spec fn spans_within(spans: Seq<(usize, usize)>, len: nat) -> bool {
    forall|i: int| 0 <= i < spans.len() ==> (#[trigger] spans[i]).0 <= spans[i].1 <= len
}

/// `first_piece_len` is the position of the first separator.
pub proof fn lemma_first_piece_len(s: Seq<char>, cut: Cut, k: int)
    requires
        0 <= k <= s.len(),
        forall|j: int| 0 <= j < k ==> !cuts(cut, #[trigger] s[j]),
        k == s.len() || cuts(cut, s[k]),
    ensures
        first_piece_len(s, cut) == k,
    decreases k,
{
    if k > 0 {
        let t = s.drop_first();
        assert forall|j: int| 0 <= j < k - 1 implies !cuts(cut, #[trigger] t[j]) by {
            assert(t[j] == s[j + 1]);
        }
        lemma_first_piece_len(t, cut, k - 1);
    }
}

/// `s` holds no separator of the cut.
pub open spec fn unbroken(s: Seq<char>, cut: Cut) -> bool {
    forall|j: int| 0 <= j < s.len() ==> !cuts(cut, #[trigger] s[j])
}

/// `s` is what one piece of a cut text looks like: not empty, trimmed, and
/// without a separator.
pub open spec fn is_piece(s: Seq<char>, cut: Cut) -> bool {
    s.len() > 0 && is_trimmed(s) && unbroken(s, cut)
}

/// Every entry of `ps` looks like a piece.
pub open spec fn all_pieces(ps: Seq<Seq<char>>, cut: Cut) -> bool {
    forall|i: int| 0 <= i < ps.len() ==> is_piece(#[trigger] ps[i], cut)
}

/// Before position `first_piece_len` stands no separator, and at it stands
/// one unless the text ends there.
pub proof fn lemma_first_piece_ends(s: Seq<char>, cut: Cut)
    ensures
        first_piece_len(s, cut) <= s.len(),
        unbroken(s.take(first_piece_len(s, cut) as int), cut),
        first_piece_len(s, cut) == s.len() || cuts(cut, s[first_piece_len(s, cut) as int]),
    decreases s.len(),
{
    if s.len() == 0 || cuts(cut, s[0]) {
    } else {
        let t = s.drop_first();
        lemma_first_piece_ends(t, cut);
        let n = first_piece_len(s, cut) as int;
        assert forall|j: int| 0 <= j < s.take(n).len() implies !cuts(cut, #[trigger] s.take(n)[j]) by {
            if j > 0 {
                assert(s.take(n)[j] == t.take(n - 1)[j - 1]);
            }
        }
    }
}

/// A text without a separator is one piece: its trim, if that is not empty.
pub proof fn lemma_pieces_of_unbroken(s: Seq<char>, cut: Cut)
    requires
        unbroken(s, cut),
    ensures
        trimmed_pieces(s, cut) == if trim(s).len() > 0 {
            seq![trim(s)]
        } else {
            Seq::<Seq<char>>::empty()
        },
{
    lemma_first_piece_len(s, cut, s.len() as int);
    assert(s.take(s.len() as int) =~= s);
}

/// The pieces of two texts with a separator between them are the pieces of
/// the first and then those of the second.
pub proof fn lemma_pieces_concat(a: Seq<char>, c: char, b: Seq<char>, cut: Cut)
    requires
        cuts(cut, c),
    ensures
        trimmed_pieces(a + seq![c] + b, cut) == trimmed_pieces(a, cut) + trimmed_pieces(b, cut),
    decreases a.len(),
{
    let whole = a + seq![c] + b;
    let n = first_piece_len(a, cut) as int;
    lemma_first_piece_ends(a, cut);
    assert forall|j: int| 0 <= j < n implies !cuts(cut, #[trigger] whole[j]) by {
        assert(whole[j] == a.take(n)[j]);
    }
    if n == a.len() {
        assert(whole[n] == c);
    } else {
        assert(whole[n] == a[n]);
    }
    lemma_first_piece_len(whole, cut, n);
    assert(whole.take(n) =~= a.take(n));
    let head = trim(a.take(n));
    let here = if head.len() > 0 {
        seq![head]
    } else {
        Seq::<Seq<char>>::empty()
    };
    if n == a.len() {
        assert(whole.skip(n + 1) =~= b);
        assert(trimmed_pieces(a, cut) == here);
        assert(trimmed_pieces(whole, cut) == here + trimmed_pieces(b, cut));
    } else {
        let rest = a.skip(n + 1);
        assert(whole.skip(n + 1) =~= rest + seq![c] + b);
        lemma_pieces_concat(rest, c, b, cut);
        assert(trimmed_pieces(whole, cut) == here + (trimmed_pieces(rest, cut) + trimmed_pieces(
            b,
            cut,
        )));
        assert(here + (trimmed_pieces(rest, cut) + trimmed_pieces(b, cut)) =~= (here
            + trimmed_pieces(rest, cut)) + trimmed_pieces(b, cut));
    }
}

/// Every piece of a text is not empty, trimmed, and without a separator.
pub proof fn lemma_pieces_are_pieces(s: Seq<char>, cut: Cut)
    ensures
        all_pieces(trimmed_pieces(s, cut), cut),
    decreases s.len(),
{
    let n = first_piece_len(s, cut) as int;
    lemma_first_piece_ends(s, cut);
    let front = s.take(n);
    let head = trim(front);
    lemma_trim_is_trimmed(front);
    let start = lemma_trim_is_span(front);
    assert forall|j: int| 0 <= j < head.len() implies !cuts(cut, #[trigger] head[j]) by {
        assert(head[j] == front[start + j]);
    }
    if n < s.len() {
        lemma_pieces_are_pieces(s.skip(n + 1), cut);
    }
}

/// Tells whether `c` is a separator of the cut.
pub fn separates(cut: Cut, c: char) -> (b: bool)
    ensures
        b == cuts(cut, c),
{
    match cut {
        Cut::Sentence => c == '.' || c == '!' || c == '?' || c == '\n',
        Cut::Line => c == '\n',
    }
}

/// The spans of `chars` that hold its trimmed pieces, in order.
pub fn piece_spans(chars: &Vec<char>, cut: Cut) -> (spans: Vec<(usize, usize)>)
    ensures
        span_texts(chars@, spans@) == trimmed_pieces(chars@, cut),
        spans_within(spans@, chars@.len()),
{
    let n = chars.len();
    let mut spans: Vec<(usize, usize)> = Vec::new();
    let mut start: usize = 0;
    let mut i: usize = 0;
    proof {
        assert(chars@.skip(0) =~= chars@);
        assert(span_texts(chars@, spans@) + trimmed_pieces(chars@.skip(0), cut) =~= trimmed_pieces(
            chars@,
            cut,
        ));
    }
    while i < n
        invariant
            n == chars.len(),
            start <= i <= n,
            forall|j: int| start <= j < i ==> !cuts(cut, #[trigger] chars@[j]),
            trimmed_pieces(chars@, cut) == span_texts(chars@, spans@) + trimmed_pieces(
                chars@.skip(start as int),
                cut,
            ),
            spans_within(spans@, chars@.len()),
        decreases n - i,
    {
        if separates(cut, chars[i]) {
            let span = trim_span(chars, start, i);
            let ghost rest = chars@.skip(start as int);
            let ghost before = spans@;
            proof {
                assert forall|j: int| 0 <= j < i - start implies !cuts(cut, #[trigger] rest[j]) by {
                    assert(rest[j] == chars@[start + j]);
                }
                lemma_first_piece_len(rest, cut, i - start);
                assert(rest.take(i - start) =~= chars@.subrange(start as int, i as int));
                assert(rest.skip(i - start + 1) =~= chars@.skip(i + 1));
            }
            if span.0 < span.1 {
                spans.push(span);
                proof {
                    assert(span_texts(chars@, spans@) =~= span_texts(chars@, before)
                        + seq![chars@.subrange(span.0 as int, span.1 as int)]);
                }
            }
            start = i + 1;
            proof {
                assert(trimmed_pieces(chars@, cut) =~= span_texts(chars@, spans@) + trimmed_pieces(
                    chars@.skip(start as int),
                    cut,
                ));
            }
        }
        i += 1;
    }
    let span = trim_span(chars, start, n);
    let ghost rest = chars@.skip(start as int);
    let ghost before = spans@;
    proof {
        assert forall|j: int| 0 <= j < n - start implies !cuts(cut, #[trigger] rest[j]) by {
            assert(rest[j] == chars@[start + j]);
        }
        lemma_first_piece_len(rest, cut, n - start);
        assert(rest.take(n - start) =~= chars@.subrange(start as int, n as int));
    }
    if span.0 < span.1 {
        spans.push(span);
        proof {
            assert(span_texts(chars@, spans@) =~= span_texts(chars@, before)
                + seq![chars@.subrange(span.0 as int, span.1 as int)]);
        }
    }
    proof {
        assert(trimmed_pieces(chars@, cut) =~= span_texts(chars@, spans@));
    }
    spans
}

} // verus!
