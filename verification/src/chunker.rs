//! Token-budgeted chunking: consecutive sentences are gathered greedily into
//! chunks whose estimated cost stays within a budget.

use vstd::prelude::*;
use crate::chars::{
    append_span, byte_len, chars_of, lemma_byte_len_bounds, span_byte_len, string_of_span,
};
use crate::chunk_laws::lemma_chunks_not_blank;
use crate::sentences::sentences;
use crate::split::{piece_spans, span_texts, spans_within, Cut};
use crate::trim::{lemma_trim_keeps_ink, trim, trim_span};

verus! {

/// The estimated number of tokens of one sentence: a quarter of its bytes,
/// rounded down, and one more.
pub open spec fn sentence_cost(s: Seq<char>) -> nat {
    byte_len(s) / 4 + 1
}

/// The estimated number of tokens of a group of sentences.
pub open spec fn group_cost(g: Seq<Seq<char>>) -> nat
    decreases g.len(),
{
    if g.len() == 0 {
        0
    } else {
        group_cost(g.drop_last()) + sentence_cost(g.last())
    }
}

/// The groups that greedy packing makes of the sentences `rest` when the
/// group `current` is open: a sentence joins the open group unless the group
/// holds something and would then cost more than `max`; in that case the group
/// is closed and the sentence opens the next one.
pub open spec fn pack(rest: Seq<Seq<char>>, max: nat, current: Seq<Seq<char>>) -> Seq<
    Seq<Seq<char>>,
>
    decreases rest.len(),
{
    if rest.len() == 0 {
        if current.len() > 0 {
            seq![current]
        } else {
            seq![]
        }
    } else if current.len() > 0 && group_cost(current) + sentence_cost(rest[0]) > max {
        seq![current] + pack(rest.drop_first(), max, seq![rest[0]])
    } else {
        pack(rest.drop_first(), max, current.push(rest[0]))
    }
}

/// The sentences of a group, each followed by a full stop and a space.
pub open spec fn spaced(g: Seq<Seq<char>>) -> Seq<char>
    decreases g.len(),
{
    if g.len() == 0 {
        Seq::empty()
    } else {
        spaced(g.drop_last()) + g.last() + seq!['.', ' ']
    }
}

/// The text of the chunk that holds the group `g`.
pub open spec fn render(g: Seq<Seq<char>>) -> Seq<char> {
    trim(spaced(g))
}

/// The texts of the chunks that hold the groups `gs`.
pub open spec fn render_all(gs: Seq<Seq<Seq<char>>>) -> Seq<Seq<char>> {
    Seq::new(gs.len(), |i: int| render(gs[i]))
}

/// The groups of sentences into which `text` is chunked under the budget
/// `max`.
pub open spec fn chunk_groups(text: Seq<char>, max: nat) -> Seq<Seq<Seq<char>>> {
    pack(sentences(text), max, Seq::empty())
}

/// The chunks of `text` under the budget `max`.
pub open spec fn chunk_texts(text: Seq<char>, max: nat) -> Seq<Seq<char>> {
    render_all(chunk_groups(text, max))
}

/// The text gathered for a group is empty exactly when the group is, and its
/// trim is empty exactly then too.
pub proof fn lemma_spaced_empty(g: Seq<Seq<char>>)
    ensures
        (spaced(g).len() == 0) == (g.len() == 0),
        (render(g).len() == 0) == (g.len() == 0),
{
    if g.len() > 0 {
        let s = spaced(g);
        assert(s[s.len() - 2] == '.');
        lemma_trim_keeps_ink(s, s.len() - 2);
    }
}

/// The estimated number of tokens of the sentence `v[lo..hi]`.
pub fn span_cost(v: &Vec<char>, lo: usize, hi: usize) -> (cost: u128)
    requires
        lo <= hi <= v.len(),
    ensures
        cost == sentence_cost(v@.subrange(lo as int, hi as int)),
        cost <= (hi - lo) + 1,
{
    proof {
        lemma_byte_len_bounds(v@.subrange(lo as int, hi as int));
    }
    span_byte_len(v, lo, hi) / 4 + 1
}

/// Splits `text` into chunks of whole sentences. Each sentence is estimated
/// at a quarter of its bytes plus one token; a chunk takes sentences while
/// their estimates stay within `max_tokens`, and always takes at least one.
pub fn chunk_text(text: &str, max_tokens: usize) -> (chunks: Vec<String>)
    ensures
        chunks.deep_view() == chunk_texts(text@, max_tokens as nat),
        forall|i: int|
            0 <= i < chunks.len() ==> (#[trigger] chunks[i])@.len() > 0 && trim(chunks[i]@)
                == chunks[i]@,
{
    let chars = chars_of(text);
    let spans = piece_spans(&chars, Cut::Sentence);
    let ghost all = sentences(text@);
    let ghost max = max_tokens as nat;
    let mut chunks: Vec<String> = Vec::new();
    let mut current: Vec<char> = Vec::new();
    let mut tokens: u128 = 0;
    let ghost mut group: Seq<Seq<char>> = Seq::empty();
    let ghost mut emitted: Seq<Seq<Seq<char>>> = Seq::empty();
    let mut k: usize = 0;
    proof {
        assert(all.skip(0) =~= all);
        assert(emitted + pack(all.skip(0), max, group) =~= chunk_groups(text@, max));
        assert(chunks.deep_view() =~= render_all(emitted));
    }
    while k < spans.len()
        invariant
            chars@ == text@,
            all == sentences(text@),
            span_texts(chars@, spans@) == all,
            spans_within(spans@, chars@.len()),
            max == max_tokens as nat,
            k <= spans.len(),
            chunk_groups(text@, max) == emitted + pack(all.skip(k as int), max, group),
            chunks.deep_view() == render_all(emitted),
            current@ == spaced(group),
            tokens == group_cost(group),
            tokens <= usize::MAX + 1,
        decreases spans.len() - k,
    {
        let span = spans[k];
        let cost = span_cost(&chars, span.0, span.1);
        let ghost rest = all.skip(k as int);
        let ghost sentence = all[k as int];
        proof {
            assert(rest[0] == sentence);
            assert(rest.drop_first() =~= all.skip(k + 1));
            assert(sentence == chars@.subrange(span.0 as int, span.1 as int));
            lemma_spaced_empty(group);
        }
        if tokens + cost > max_tokens as u128 && current.len() > 0 {
            let edges = trim_span(&current, 0, current.len());
            let chunk = string_of_span(&current, edges.0, edges.1);
            proof {
                assert(current@.subrange(0, current@.len() as int) =~= current@);
                assert(chunk@ == render(group));
            }
            let ghost before = chunks.deep_view();
            chunks.push(chunk);
            proof {
                assert(chunks.deep_view() =~= before.push(render(group)));
                assert(render_all(emitted.push(group)) =~= render_all(emitted).push(render(group)));
                assert(emitted + (seq![group] + pack(rest.drop_first(), max, seq![sentence]))
                    =~= emitted.push(group) + pack(rest.drop_first(), max, seq![sentence]));
                emitted = emitted.push(group);
                group = Seq::empty();
                assert(group.push(sentence) =~= seq![sentence]);
            }
            current = Vec::new();
            tokens = 0;
        }
        append_span(&mut current, &chars, span.0, span.1);
        current.push('.');
        current.push(' ');
        tokens = tokens + cost;
        proof {
            let grown = group.push(sentence);
            assert(grown.drop_last() =~= group);
            assert(grown.last() == sentence);
            assert(group_cost(grown) == group_cost(group) + sentence_cost(sentence));
            assert(current@ =~= spaced(group) + sentence + seq!['.', ' ']);
            group = grown;
        }
        k += 1;
    }
    let edges = trim_span(&current, 0, current.len());
    proof {
        assert(all.skip(k as int) =~= Seq::<Seq<char>>::empty());
        assert(current@.subrange(0, current@.len() as int) =~= current@);
        lemma_spaced_empty(group);
    }
    if edges.0 < edges.1 {
        let chunk = string_of_span(&current, edges.0, edges.1);
        let ghost before = chunks.deep_view();
        chunks.push(chunk);
        proof {
            assert(chunks.deep_view() =~= before.push(render(group)));
            assert(render_all(emitted.push(group)) =~= render_all(emitted).push(render(group)));
            assert(emitted + seq![group] =~= emitted.push(group));
        }
    } else {
        proof {
            assert(emitted + Seq::<Seq<Seq<char>>>::empty() =~= emitted);
        }
    }
    proof {
        lemma_chunks_not_blank(text@, max);
        assert forall|i: int| 0 <= i < chunks.len() implies (#[trigger] chunks[i])@.len() > 0
            && trim(chunks[i]@) == chunks[i]@ by {
            let specified = chunk_texts(text@, max);
            assert(chunks.deep_view()[i] == chunks@[i].deep_view());
            assert(chunks@[i]@ == specified[i]);
            assert(trim(specified[i]) == specified[i] && specified[i].len() > 0);
        }
    }
    chunks
}

} // verus!
