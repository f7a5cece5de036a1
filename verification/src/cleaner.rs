//! Cleaning of a text: blank lines go, every line is trimmed, and each run
//! of white space becomes one space.

use vstd::prelude::*;
use crate::chars::{append_span, chars_of, is_white_space, string_of_span};
use crate::split::{piece_spans, span_texts, spans_within, trimmed_pieces, Cut};
use crate::trim::{trim, trim_span};

verus! {

/// The trimmed, non-empty lines of `s`.
pub open spec fn lines(s: Seq<char>) -> Seq<Seq<char>> {
    trimmed_pieces(s, Cut::Line)
}

/// The lines, with a line feed between each two.
pub open spec fn joined(ls: Seq<Seq<char>>) -> Seq<char>
    decreases ls.len(),
{
    if ls.len() == 0 {
        Seq::empty()
    } else if ls.len() == 1 {
        ls[0]
    } else {
        joined(ls.drop_last()) + seq!['\n'] + ls.last()
    }
}

/// `s` with one space in place of each run of white space: a white-space
/// character that follows another is dropped, any other becomes a space, and
/// the remaining characters stay.
pub open spec fn collapse_white_space(s: Seq<char>) -> Seq<char>
    decreases s.len(),
{
    if s.len() == 0 {
        s
    } else {
        let init = collapse_white_space(s.drop_last());
        if !is_white_space(s.last()) {
            init.push(s.last())
        } else if s.len() >= 2 && is_white_space(s[s.len() - 2]) {
            init
        } else {
            init.push(' ')
        }
    }
}

/// The cleaned form of `text`.
pub open spec fn cleaned(text: Seq<char>) -> Seq<char> {
    trim(collapse_white_space(joined(lines(text))))
}

/// The pattern that matches a run of white space.
pub open spec fn white_space_run() -> Seq<char> {
    seq!['\\', 's', '+']
}

/// The replacement for a run of white space: one space.
pub open spec fn single_space() -> Seq<char> {
    seq![' ']
}

/// The pattern and the replacement are those that collapse white space.
pub open spec fn collapses(pattern: Seq<char>, replacement: Seq<char>) -> bool {
    pattern == white_space_run() && replacement == single_space()
}

/// `regex::Error`, the reason why the regex crate did not compile a pattern.
/// Nothing of what it holds is read.
#[verifier::external_type_specification]
#[verifier::external_body]
pub struct ExRegexError(regex::Error);

/// `Regex::new` and `Regex::replace_all` of the regex crate: compiles
/// `pattern` and replaces every match in `text`, leftmost first and without
/// overlap, by `replacement`. The contract speaks of one pattern only: `\s+`
/// compiles, `\s` matches the characters with the property `White_Space`,
/// and `+` takes as many as follow, so with a space as replacement each run
/// of white space becomes one space. Of other patterns nothing is claimed.
#[verifier::external_body]
fn replace_all(pattern: &str, text: &str, replacement: &str) -> (out: Result<String, regex::Error>)
    ensures
        out matches Ok(s) ==> (collapses(pattern@, replacement@) ==> s@ == collapse_white_space(
            text@,
        )),
        out is Err ==> !collapses(pattern@, replacement@),
{
    let re = regex::Regex::new(pattern)?;
    Ok(re.replace_all(text, replacement).into_owned())
}

/// Cleans `text`: trims every line, drops the lines that are then empty,
/// joins the rest, turns each run of white space into one space and trims
/// the whole.
pub fn clean_text_for_ai(text: &str) -> (out: String)
    ensures
        out@ == cleaned(text@),
{
    let chars = chars_of(text);
    let spans = piece_spans(&chars, Cut::Line);
    let ghost ls = lines(text@);
    let mut buffer: Vec<char> = Vec::new();
    let mut k: usize = 0;
    proof {
        assert(ls.take(0) =~= Seq::<Seq<char>>::empty());
    }
    while k < spans.len()
        invariant
            chars@ == text@,
            ls == lines(text@),
            span_texts(chars@, spans@) == ls,
            spans_within(spans@, chars@.len()),
            k <= spans.len(),
            buffer@ == joined(ls.take(k as int)),
        decreases spans.len() - k,
    {
        let span = spans[k];
        let ghost before = buffer@;
        if k > 0 {
            buffer.push('\n');
        }
        append_span(&mut buffer, &chars, span.0, span.1);
        proof {
            let grown = ls.take(k as int + 1);
            assert(grown.drop_last() =~= ls.take(k as int));
            assert(grown.last() == chars@.subrange(span.0 as int, span.1 as int));
            if k == 0 {
                assert(buffer@ =~= grown[0]);
            } else {
                assert(buffer@ =~= before + seq!['\n'] + grown.last());
            }
        }
        k += 1;
    }
    proof {
        assert(ls.take(k as int) =~= ls);
    }
    let joined_text = string_of_span(&buffer, 0, buffer.len());
    proof {
        assert(buffer@.subrange(0, buffer@.len() as int) =~= buffer@);
        reveal_strlit("\\s+");
        reveal_strlit(" ");
        assert("\\s+"@ =~= white_space_run());
        assert(" "@ =~= single_space());
    }
    match replace_all("\\s+", joined_text.as_str(), " ") {
        Ok(collapsed) => {
            let c = chars_of(collapsed.as_str());
            let edges = trim_span(&c, 0, c.len());
            proof {
                assert(c@.subrange(0, c@.len() as int) =~= c@);
            }
            string_of_span(&c, edges.0, edges.1)
        },
        Err(_) => {
            proof {
                assert(false);
            }
            String::new()
        },
    }
}

} // verus!
