//! What holds of every cleaned text: its only white space is the single
//! space, and a space stands between other characters only.

use vstd::prelude::*;
use crate::chars::is_white_space;
use crate::cleaner::{cleaned, collapse_white_space, joined, lines};
use crate::trim::{is_trimmed, lemma_trim_is_span, lemma_trim_is_trimmed, trim};

verus! {

/// The only white space of `s` is the space, and no space follows another.
pub open spec fn single_spaced(s: Seq<char>) -> bool {
    &&& forall|i: int| 0 <= i < s.len() && is_white_space(#[trigger] s[i]) ==> s[i] == ' '
    &&& forall|i: int| 0 < i < s.len() && is_white_space(#[trigger] s[i]) ==> !is_white_space(s[i - 1])
}

/// Collapsing leaves single spaces only, makes no text longer, and the
/// result ends in white space exactly when the text does.
pub proof fn lemma_collapse_is_single_spaced(s: Seq<char>)
    ensures
        single_spaced(collapse_white_space(s)),
        collapse_white_space(s).len() <= s.len(),
        (collapse_white_space(s).len() > 0 && is_white_space(collapse_white_space(s).last())) == (
        s.len() > 0 && is_white_space(s.last())),
    decreases s.len(),
{
    if s.len() > 0 {
        let init = s.drop_last();
        let before = collapse_white_space(init);
        let after = collapse_white_space(s);
        lemma_collapse_is_single_spaced(init);
        if init.len() > 0 {
            assert(init.last() == s[s.len() - 2]);
        }
        assert forall|i: int| 0 <= i < after.len() && is_white_space(
            #[trigger] after[i],
        ) implies after[i] == ' ' by {
            if i < before.len() {
                assert(after[i] == before[i]);
            }
        }
        assert forall|i: int| 0 < i < after.len() && is_white_space(
            #[trigger] after[i],
        ) implies !is_white_space(after[i - 1]) by {
            assert(after[i - 1] == before[i - 1]);
            if i < before.len() {
                assert(after[i] == before[i]);
            }
        }
    }
}

/// A part of a single-spaced text is single-spaced.
pub proof fn lemma_span_is_single_spaced(s: Seq<char>, lo: int, hi: int)
    requires
        single_spaced(s),
        0 <= lo <= hi <= s.len(),
    ensures
        single_spaced(s.subrange(lo, hi)),
{
    let part = s.subrange(lo, hi);
    assert forall|i: int| 0 <= i < part.len() && is_white_space(#[trigger] part[i]) implies part[i]
        == ' ' by {
        assert(part[i] == s[lo + i]);
    }
    assert forall|i: int| 0 < i < part.len() && is_white_space(
        #[trigger] part[i],
    ) implies !is_white_space(part[i - 1]) by {
        assert(part[i] == s[lo + i]);
        assert(part[i - 1] == s[lo + i - 1]);
    }
}

/// A cleaned text neither begins nor ends with white space, holds no white
/// space but the space, and holds no two spaces in a row.
pub proof fn lemma_cleaned_is_single_spaced(text: Seq<char>)
    ensures
        is_trimmed(cleaned(text)),
        single_spaced(cleaned(text)),
{
    let collapsed = collapse_white_space(joined(lines(text)));
    lemma_collapse_is_single_spaced(joined(lines(text)));
    lemma_trim_is_trimmed(collapsed);
    let start = lemma_trim_is_span(collapsed);
    lemma_span_is_single_spaced(collapsed, start, start + trim(collapsed).len());
}

} // verus!
