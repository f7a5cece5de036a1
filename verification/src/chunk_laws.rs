//! What holds of every chunking: no chunk is blank, the chunks hold the
//! sentences of the text in order, a chunk of several sentences stays within
//! the budget, and no chunk could have taken the sentence after it.

use vstd::prelude::*;
use crate::chunker::{
    chunk_groups, chunk_texts, group_cost, lemma_spaced_empty, pack, render, render_all,
    sentence_cost, spaced,
};
use crate::sentences::sentences;
use crate::split::{
    all_pieces, cuts, is_piece, lemma_pieces_are_pieces, lemma_pieces_concat,
    lemma_pieces_of_unbroken, trimmed_pieces, Cut,
};
use crate::trim::{
    lemma_trim_after_space, lemma_trim_is_trimmed, lemma_trim_of_trimmed, trim, trim_end,
    trim_start,
};

verus! {

/// The sentences of a group with a full stop and a space between each two.
pub open spec fn joined_by_stops(g: Seq<Seq<char>>) -> Seq<char>
    decreases g.len(),
{
    if g.len() == 0 {
        Seq::empty()
    } else if g.len() == 1 {
        g[0]
    } else {
        joined_by_stops(g.drop_last()) + seq!['.', ' '] + g.last()
    }
}

/// The sentences of each chunk, one chunk after the other.
pub open spec fn resplit(chunks: Seq<Seq<char>>) -> Seq<Seq<char>> {
    Seq::new(chunks.len(), |i: int| sentences(chunks[i])).flatten()
}

/// The text gathered for a group is the joined group and, after it, a full
/// stop and a space.
pub proof fn lemma_spaced_is_joined(g: Seq<Seq<char>>)
    requires
        g.len() > 0,
    ensures
        spaced(g) == joined_by_stops(g) + seq!['.', ' '],
    decreases g.len(),
{
    let init = g.drop_last();
    if g.len() == 1 {
        assert(spaced(init) =~= Seq::<char>::empty());
        assert(spaced(g) =~= g[0] + seq!['.', ' ']);
    } else {
        lemma_spaced_is_joined(init);
        assert(spaced(g) =~= joined_by_stops(g) + seq!['.', ' ']);
    }
}

/// A joined group begins as its first sentence does.
pub proof fn lemma_joined_starts(g: Seq<Seq<char>>)
    requires
        g.len() > 0,
        g[0].len() > 0,
    ensures
        joined_by_stops(g).len() > 0,
        joined_by_stops(g)[0] == g[0][0],
    decreases g.len(),
{
    if g.len() > 1 {
        lemma_joined_starts(g.drop_last());
    }
}

/// The text of a chunk is its sentences, joined by a full stop and a space,
/// with a full stop at the end.
pub proof fn lemma_render_shape(g: Seq<Seq<char>>)
    requires
        g.len() > 0,
        all_pieces(g, Cut::Sentence),
    ensures
        render(g) == joined_by_stops(g) + seq!['.'],
{
    let body = joined_by_stops(g);
    let whole = spaced(g);
    lemma_spaced_is_joined(g);
    assert(is_piece(g[0], Cut::Sentence));
    lemma_joined_starts(g);
    assert(whole[0] == body[0]);
    assert(trim_start(whole) == whole);
    assert(whole.last() == ' ');
    assert(whole.drop_last() =~= body + seq!['.']);
    assert((body + seq!['.']).last() == '.');
    assert(trim_end(whole) == trim_end(whole.drop_last()));
    assert(trim_end(body + seq!['.']) == body + seq!['.']);
}

/// Cutting a joined group gives back its sentences.
pub proof fn lemma_pieces_of_joined(g: Seq<Seq<char>>)
    requires
        g.len() > 0,
        all_pieces(g, Cut::Sentence),
    ensures
        sentences(joined_by_stops(g)) == g,
    decreases g.len(),
{
    let last = g.last();
    assert(is_piece(last, Cut::Sentence));
    if g.len() == 1 {
        lemma_pieces_of_unbroken(last, Cut::Sentence);
        lemma_trim_of_trimmed(last);
        assert(seq![last] =~= g);
    } else {
        let init = g.drop_last();
        assert forall|i: int| 0 <= i < init.len() implies is_piece(
            #[trigger] init[i],
            Cut::Sentence,
        ) by {
            assert(init[i] == g[i]);
        }
        lemma_pieces_of_joined(init);
        let tail = seq![' '] + last;
        assert forall|j: int| 0 <= j < tail.len() implies !cuts(
            Cut::Sentence,
            #[trigger] tail[j],
        ) by {
            if j > 0 {
                assert(tail[j] == last[j - 1]);
            }
        }
        lemma_pieces_of_unbroken(tail, Cut::Sentence);
        lemma_trim_after_space(' ', last);
        assert(joined_by_stops(g) =~= joined_by_stops(init) + seq!['.'] + tail);
        lemma_pieces_concat(joined_by_stops(init), '.', tail, Cut::Sentence);
        assert(init + seq![last] =~= g);
    }
}

/// Cutting the text of a chunk into sentences gives back the sentences that
/// the chunk was made of.
pub proof fn lemma_resplit_group(g: Seq<Seq<char>>)
    requires
        g.len() > 0,
        all_pieces(g, Cut::Sentence),
    ensures
        sentences(render(g)) == g,
{
    lemma_render_shape(g);
    lemma_pieces_of_joined(g);
    let body = joined_by_stops(g);
    let none = Seq::<char>::empty();
    assert(body + seq!['.'] =~= body + seq!['.'] + none);
    lemma_pieces_concat(body, '.', none, Cut::Sentence);
    assert(trimmed_pieces(none, Cut::Sentence) =~= Seq::<Seq<char>>::empty());
    assert(g + Seq::<Seq<char>>::empty() =~= g);
}

/// Cutting the texts of several chunks, written one after the other, gives
/// back the sentences of the first chunk, then those of the second, and so on.
pub proof fn lemma_resplit_all(gs: Seq<Seq<Seq<char>>>)
    requires
        forall|i: int|
            0 <= i < gs.len() ==> (#[trigger] gs[i]).len() > 0 && all_pieces(gs[i], Cut::Sentence),
    ensures
        sentences(render_all(gs).flatten()) == gs.flatten(),
    decreases gs.len(),
{
    let chunks = render_all(gs);
    if gs.len() == 0 {
        assert(chunks.flatten() =~= Seq::<char>::empty());
        assert(sentences(Seq::<char>::empty()) =~= Seq::<Seq<char>>::empty());
    } else {
        let g = gs[0];
        let later = gs.drop_first();
        assert forall|i: int| 0 <= i < later.len() implies (#[trigger] later[i]).len() > 0
            && all_pieces(later[i], Cut::Sentence) by {
            assert(later[i] == gs[i + 1]);
        }
        lemma_resplit_all(later);
        assert(chunks.first() == render(g));
        assert(chunks.drop_first() =~= render_all(later));
        lemma_render_shape(g);
        lemma_pieces_of_joined(g);
        let following = render_all(later).flatten();
        assert(chunks.flatten() =~= joined_by_stops(g) + seq!['.'] + following);
        lemma_pieces_concat(joined_by_stops(g), '.', following, Cut::Sentence);
    }
}

/// Packing loses no sentence and keeps their order: the groups, one after
/// the other, are the open group and then the sentences still to come.
pub proof fn lemma_pack_flatten(rest: Seq<Seq<char>>, max: nat, current: Seq<Seq<char>>)
    ensures
        pack(rest, max, current).flatten() == current + rest,
    decreases rest.len(),
{
    let groups = pack(rest, max, current);
    if rest.len() == 0 {
        if current.len() > 0 {
            groups.lemma_flatten_one_element();
        }
        assert(groups.flatten() =~= current + rest);
    } else {
        let tail = rest.drop_first();
        if current.len() > 0 && group_cost(current) + sentence_cost(rest[0]) > max {
            let later = pack(tail, max, seq![rest[0]]);
            lemma_pack_flatten(tail, max, seq![rest[0]]);
            assert(groups.first() == current);
            assert(groups.drop_first() =~= later);
            assert(current + (seq![rest[0]] + tail) =~= current + rest);
        } else {
            lemma_pack_flatten(tail, max, current.push(rest[0]));
            assert(current.push(rest[0]) + tail =~= current + rest);
        }
    }
}

/// Every group that packing makes holds at least one sentence, and holds
/// pieces only if it is given pieces only.
pub proof fn lemma_pack_groups(rest: Seq<Seq<char>>, max: nat, current: Seq<Seq<char>>)
    requires
        all_pieces(rest, Cut::Sentence),
        all_pieces(current, Cut::Sentence),
    ensures
        forall|i: int|
            0 <= i < pack(rest, max, current).len() ==> (#[trigger] pack(rest, max, current)[i]).len()
                > 0 && all_pieces(pack(rest, max, current)[i], Cut::Sentence),
    decreases rest.len(),
{
    let groups = pack(rest, max, current);
    if rest.len() == 0 {
        assert forall|i: int| 0 <= i < groups.len() implies (#[trigger] groups[i]).len() > 0
            && all_pieces(groups[i], Cut::Sentence) by {
            assert(groups[i] == current);
        }
    } else {
        let tail = rest.drop_first();
        assert(is_piece(rest[0], Cut::Sentence));
        assert forall|i: int| 0 <= i < tail.len() implies is_piece(
            #[trigger] tail[i],
            Cut::Sentence,
        ) by {
            assert(tail[i] == rest[i + 1]);
        }
        if current.len() > 0 && group_cost(current) + sentence_cost(rest[0]) > max {
            let later = pack(tail, max, seq![rest[0]]);
            lemma_pack_groups(tail, max, seq![rest[0]]);
            assert forall|i: int| 0 <= i < groups.len() implies (#[trigger] groups[i]).len() > 0
                && all_pieces(groups[i], Cut::Sentence) by {
                if i == 0 {
                    assert(groups[i] == current);
                } else {
                    assert(groups[i] == later[i - 1]);
                }
            }
        } else {
            let grown = current.push(rest[0]);
            assert forall|i: int| 0 <= i < grown.len() implies is_piece(
                #[trigger] grown[i],
                Cut::Sentence,
            ) by {
                if i < current.len() {
                    assert(grown[i] == current[i]);
                }
            }
            lemma_pack_groups(tail, max, grown);
            assert(groups == pack(tail, max, grown));
        }
    }
}

/// A group of two or more sentences that packing makes costs no more than
/// the budget, if that holds of the open group.
pub proof fn lemma_pack_budget(rest: Seq<Seq<char>>, max: nat, current: Seq<Seq<char>>)
    requires
        current.len() >= 2 ==> group_cost(current) <= max,
    ensures
        forall|i: int|
            0 <= i < pack(rest, max, current).len() && (#[trigger] pack(rest, max, current)[i]).len()
                >= 2 ==> group_cost(pack(rest, max, current)[i]) <= max,
    decreases rest.len(),
{
    let groups = pack(rest, max, current);
    if rest.len() == 0 {
        assert forall|i: int| 0 <= i < groups.len() && (#[trigger] groups[i]).len()
            >= 2 implies group_cost(groups[i]) <= max by {
            assert(groups[i] == current);
        }
    } else {
        let tail = rest.drop_first();
        if current.len() > 0 && group_cost(current) + sentence_cost(rest[0]) > max {
            let later = pack(tail, max, seq![rest[0]]);
            lemma_pack_budget(tail, max, seq![rest[0]]);
            assert forall|i: int| 0 <= i < groups.len() && (#[trigger] groups[i]).len()
                >= 2 implies group_cost(groups[i]) <= max by {
                if i == 0 {
                    assert(groups[i] == current);
                } else {
                    assert(groups[i] == later[i - 1]);
                }
            }
        } else {
            let grown = current.push(rest[0]);
            assert(grown.drop_last() =~= current);
            assert(group_cost(grown) == group_cost(current) + sentence_cost(rest[0]));
            if current.len() == 0 {
                assert(grown.len() == 1);
            }
            lemma_pack_budget(tail, max, grown);
            assert(groups == pack(tail, max, grown));
        }
    }
}

/// With a group open, packing makes at least one group, and the first one
/// begins with the first sentence of the open group.
pub proof fn lemma_pack_head(rest: Seq<Seq<char>>, max: nat, current: Seq<Seq<char>>)
    requires
        current.len() > 0,
    ensures
        pack(rest, max, current).len() > 0,
        pack(rest, max, current)[0].len() > 0,
        pack(rest, max, current)[0][0] == current[0],
    decreases rest.len(),
{
    if rest.len() > 0 {
        if group_cost(current) + sentence_cost(rest[0]) > max {
        } else {
            lemma_pack_head(rest.drop_first(), max, current.push(rest[0]));
        }
    }
}

/// No group that packing makes could have taken the first sentence of the
/// group after it: together they cost more than the budget.
pub proof fn lemma_pack_full(rest: Seq<Seq<char>>, max: nat, current: Seq<Seq<char>>)
    ensures
        forall|i: int|
            0 <= i < pack(rest, max, current).len() - 1 ==> group_cost(
                #[trigger] pack(rest, max, current)[i],
            ) + sentence_cost(pack(rest, max, current)[i + 1][0]) > max,
    decreases rest.len(),
{
    let groups = pack(rest, max, current);
    if rest.len() == 0 {
        assert(groups.len() <= 1);
    } else {
        let tail = rest.drop_first();
        if current.len() > 0 && group_cost(current) + sentence_cost(rest[0]) > max {
            let later = pack(tail, max, seq![rest[0]]);
            lemma_pack_full(tail, max, seq![rest[0]]);
            lemma_pack_head(tail, max, seq![rest[0]]);
            assert(groups == seq![current] + later);
            assert forall|i: int| 0 <= i < groups.len() - 1 implies group_cost(#[trigger] groups[i])
                + sentence_cost(groups[i + 1][0]) > max by {
                assert(groups[i + 1] == later[i]);
                if i == 0 {
                    assert(groups[0] == current);
                    assert(later[0][0] == rest[0]);
                } else {
                    assert(groups[i] == later[i - 1]);
                }
            }
        } else {
            lemma_pack_full(tail, max, current.push(rest[0]));
            assert(groups == pack(tail, max, current.push(rest[0])));
        }
    }
}

/// No chunk is blank: every chunk is its own trim and holds a character.
pub proof fn lemma_chunks_not_blank(text: Seq<char>, max: nat)
    ensures
        forall|i: int|
            0 <= i < chunk_texts(text, max).len() ==> trim(#[trigger] chunk_texts(text, max)[i])
                == chunk_texts(text, max)[i] && chunk_texts(text, max)[i].len() > 0,
{
    let groups = chunk_groups(text, max);
    lemma_pieces_are_pieces(text, Cut::Sentence);
    lemma_pack_groups(sentences(text), max, Seq::empty());
    assert forall|i: int| 0 <= i < chunk_texts(text, max).len() implies trim(
        #[trigger] chunk_texts(text, max)[i],
    ) == chunk_texts(text, max)[i] && chunk_texts(text, max)[i].len() > 0 by {
        let g = groups[i];
        assert(chunk_texts(text, max)[i] == render(g));
        lemma_spaced_empty(g);
        lemma_trim_is_trimmed(spaced(g));
        lemma_trim_of_trimmed(render(g));
    }
}

/// The chunks hold the sentences of the text, all of them and in order:
/// cutting each chunk into sentences again, one chunk after the other, gives
/// the sentences of the text, and so does cutting the chunks written one
/// after the other as one text. Each chunk reads as its sentences joined by
/// a full stop and a space, with a full stop at the end.
pub proof fn lemma_chunks_reassemble(text: Seq<char>, max: nat)
    ensures
        resplit(chunk_texts(text, max)) == sentences(text),
        sentences(chunk_texts(text, max).flatten()) == sentences(text),
        chunk_groups(text, max).flatten() == sentences(text),
        forall|i: int|
            0 <= i < chunk_texts(text, max).len() ==> sentences(
                #[trigger] chunk_texts(text, max)[i],
            ) == chunk_groups(text, max)[i],
        forall|i: int|
            0 <= i < chunk_texts(text, max).len() ==> #[trigger] chunk_texts(text, max)[i]
                == joined_by_stops(chunk_groups(text, max)[i]) + seq!['.'],
{
    let groups = chunk_groups(text, max);
    let chunks = chunk_texts(text, max);
    lemma_pieces_are_pieces(text, Cut::Sentence);
    lemma_pack_groups(sentences(text), max, Seq::empty());
    lemma_pack_flatten(sentences(text), max, Seq::empty());
    assert(Seq::<Seq<char>>::empty() + sentences(text) =~= sentences(text));
    assert forall|i: int| 0 <= i < chunks.len() implies sentences(#[trigger] chunks[i])
        == groups[i] && chunks[i] == joined_by_stops(groups[i]) + seq!['.'] by {
        assert(chunks[i] == render(groups[i]));
        lemma_resplit_group(groups[i]);
        lemma_render_shape(groups[i]);
    }
    assert(Seq::new(chunks.len(), |i: int| sentences(chunks[i])) =~= groups);
    lemma_resplit_all(groups);
}

/// A chunk of two or more sentences costs no more than the budget; only a
/// sentence that stands alone may cost more.
pub proof fn lemma_chunks_within_budget(text: Seq<char>, max: nat)
    ensures
        forall|i: int|
            0 <= i < chunk_groups(text, max).len() && (#[trigger] chunk_groups(text, max)[i]).len()
                >= 2 ==> group_cost(chunk_groups(text, max)[i]) <= max,
{
    lemma_pack_budget(sentences(text), max, Seq::empty());
}

/// A group costs at least as much as each of its sentences, and at least one
/// token for each.
pub proof fn lemma_group_cost_bounds(g: Seq<Seq<char>>, j: int)
    requires
        0 <= j < g.len(),
    ensures
        group_cost(g) >= sentence_cost(g[j]),
        group_cost(g) >= g.len(),
    decreases g.len(),
{
    let init = g.drop_last();
    if init.len() > 0 {
        if j < init.len() {
            lemma_group_cost_bounds(init, j);
            assert(init[j] == g[j]);
        } else {
            lemma_group_cost_bounds(init, 0);
        }
    }
}

/// A sentence that alone costs more than the budget is not split and shares
/// its chunk with no other; with a budget of zero every sentence has a chunk
/// to itself.
pub proof fn lemma_oversized_sentence_is_alone(text: Seq<char>, max: nat)
    ensures
        forall|i: int, j: int|
            0 <= i < chunk_groups(text, max).len() && 0 <= j < chunk_groups(text, max)[i].len()
                && sentence_cost(#[trigger] chunk_groups(text, max)[i][j]) > max ==> chunk_groups(
                text,
                max,
            )[i].len() == 1,
        max == 0 ==> forall|i: int|
            0 <= i < chunk_groups(text, max).len() ==> (#[trigger] chunk_groups(text, max)[i]).len()
                == 1,
{
    let groups = chunk_groups(text, max);
    lemma_pack_budget(sentences(text), max, Seq::empty());
    lemma_pieces_are_pieces(text, Cut::Sentence);
    lemma_pack_groups(sentences(text), max, Seq::empty());
    assert forall|i: int, j: int|
        0 <= i < groups.len() && 0 <= j < groups[i].len() && sentence_cost(
            #[trigger] groups[i][j],
        ) > max implies groups[i].len() == 1 by {
        lemma_group_cost_bounds(groups[i], j);
    }
    if max == 0 {
        assert forall|i: int| 0 <= i < groups.len() implies (#[trigger] groups[i]).len() == 1 by {
            lemma_group_cost_bounds(groups[i], 0);
        }
    }
}

/// Every chunk but the last is full: with the first sentence of the next
/// chunk it would cost more than the budget.
pub proof fn lemma_chunks_are_full(text: Seq<char>, max: nat)
    ensures
        forall|i: int|
            0 <= i < chunk_groups(text, max).len() - 1 ==> group_cost(
                #[trigger] chunk_groups(text, max)[i],
            ) + sentence_cost(chunk_groups(text, max)[i + 1][0]) > max,
{
    lemma_pack_full(sentences(text), max, Seq::empty());
}

/// A text without a sentence, the empty text among them, has no chunk, and
/// any other text has one.
pub proof fn lemma_chunks_of_nothing(text: Seq<char>, max: nat)
    ensures
        (chunk_texts(text, max).len() == 0) == (sentences(text).len() == 0),
        text.len() == 0 ==> chunk_texts(text, max).len() == 0,
{
    lemma_pack_flatten(sentences(text), max, Seq::empty());
    lemma_pieces_are_pieces(text, Cut::Sentence);
    lemma_pack_groups(sentences(text), max, Seq::empty());
    let groups = chunk_groups(text, max);
    assert(Seq::<Seq<char>>::empty() + sentences(text) =~= sentences(text));
    if groups.len() > 0 {
        assert(groups[0].len() > 0);
        assert(groups.flatten().len() > 0);
    }
    if text.len() == 0 {
        assert(trim(text.take(0)).len() == 0);
    }
}

} // verus!
