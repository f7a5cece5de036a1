//! Sentences: the trimmed, non-empty pieces into which `.`, `!`, `?` and the
//! line feed cut a text.

use vstd::prelude::*;
use crate::chars::{chars_of, string_of_span};
use crate::split::{piece_spans, span_texts, spans_within, trimmed_pieces, Cut};

verus! {

/// The sentences of `s`, in the order of the text.
pub open spec fn sentences(s: Seq<char>) -> Seq<Seq<char>> {
    trimmed_pieces(s, Cut::Sentence)
}

/// The sentences of `text`, in order.
pub fn split_sentences(text: &str) -> (out: Vec<String>)
    ensures
        out.deep_view() == sentences(text@),
{
    let chars = chars_of(text);
    let spans = piece_spans(&chars, Cut::Sentence);
    let mut out: Vec<String> = Vec::new();
    let mut i: usize = 0;
    while i < spans.len()
        invariant
            i <= spans.len(),
            spans_within(spans@, chars@.len()),
            out.len() == i,
            forall|j: int| 0 <= j < i ==> (#[trigger] out@[j])@ == span_texts(chars@, spans@)[j],
        decreases spans.len() - i,
    {
        let span = spans[i];
        out.push(string_of_span(&chars, span.0, span.1));
        i += 1;
    }
    proof {
        assert(out.deep_view() =~= span_texts(chars@, spans@));
    }
    out
}

} // verus!
