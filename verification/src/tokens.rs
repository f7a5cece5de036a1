//! A coarse estimate of the number of tokens of a text.

use vstd::prelude::*;
use crate::chars::chars_of;

verus! {

/// The Hangul code points: syllables, jamo and compatibility jamo.
pub open spec fn is_hangul(c: char) -> bool {
    let u = c as u32;
    ||| 0xAC00 <= u <= 0xD7AF
    ||| 0x1100 <= u <= 0x11FF
    ||| 0x3130 <= u <= 0x318F
}

/// The number of Hangul characters of `s`.
pub open spec fn hangul_count(s: Seq<char>) -> nat
    decreases s.len(),
{
    if s.len() == 0 {
        0
    } else {
        hangul_count(s.drop_last()) + if is_hangul(s.last()) {
            1nat
        } else {
            0nat
        }
    }
}

/// More than three tenths of the characters of `s` are Hangul.
pub open spec fn mostly_hangul(s: Seq<char>) -> bool {
    10 * hangul_count(s) > 3 * s.len()
}

/// The estimate: one token for every two characters of a text that is mostly
/// Hangul, for every four characters of any other text, and one more.
pub open spec fn token_estimate(s: Seq<char>) -> nat {
    if mostly_hangul(s) {
        s.len() / 2 + 1
    } else {
        s.len() / 4 + 1
    }
}

/// Tells whether `c` is a Hangul character.
pub fn hangul(c: char) -> (b: bool)
    ensures
        b == is_hangul(c),
{
    let u: u32 = c as u32;
    (0xAC00 <= u && u <= 0xD7AF) || (0x1100 <= u && u <= 0x11FF) || (0x3130 <= u && u <= 0x318F)
}

/// Estimates the number of tokens of `text`.
pub fn count_tokens_approx(text: &str) -> (tokens: usize)
    ensures
        tokens == token_estimate(text@),
{
    let chars = chars_of(text);
    let n = chars.len();
    let mut korean: usize = 0;
    let mut i: usize = 0;
    while i < n
        invariant
            n == chars.len(),
            i <= n,
            korean <= i,
            korean == hangul_count(chars@.take(i as int)),
        decreases n - i,
    {
        proof {
            assert(chars@.take(i as int + 1).drop_last() =~= chars@.take(i as int));
        }
        if hangul(chars[i]) {
            korean += 1;
        }
        i += 1;
    }
    proof {
        assert(chars@.take(n as int) =~= chars@);
    }
    if (korean as u128) * 10 > (n as u128) * 3 {
        n / 2 + 1
    } else {
        n / 4 + 1
    }
}

} // verus!
