//! The decisions around cosine similarity: which vectors can be compared,
//! and when the similarity is zero by definition. Norms are held as the bit
//! patterns of IEEE 754 doubles.

use vstd::prelude::*;
use crate::error::InvalidInput;
use crate::ranking::{magnitude, SIGN_BIT};

verus! {

/// What the similarity of two vectors is.
#[derive(Clone, Copy, Debug, PartialEq, Eq, Structural)]
pub enum Similarity {
    /// Zero, because one of the vectors has the norm zero.
    Zero,
    /// The dot product of the vectors, divided by the product of their norms.
    Quotient,
}

/// The pattern is that of a zero, positive or negative.
pub open spec fn is_zero(bits: u64) -> bool {
    magnitude(bits) == 0
}

/// Every candidate has the length `query_len`.
pub open spec fn same_lengths(query_len: usize, candidate_lens: Seq<usize>) -> bool {
    forall|i: int| 0 <= i < candidate_lens.len() ==> #[trigger] candidate_lens[i] == query_len
}

/// How two vectors with the given lengths and norms are compared: vectors of
/// different lengths are not, a vector of norm zero makes the similarity
/// zero, and any other pair has the quotient for its similarity.
pub open spec fn similarity_of(len_a: usize, len_b: usize, norm_a: u64, norm_b: u64) -> Result<
    Similarity,
    InvalidInput,
> {
    if len_a != len_b {
        Err(InvalidInput::LengthMismatch)
    } else if is_zero(norm_a) || is_zero(norm_b) {
        Ok(Similarity::Zero)
    } else {
        Ok(Similarity::Quotient)
    }
}

/// The decision does not depend on the order of the two vectors.
pub proof fn lemma_similarity_is_symmetric(len_a: usize, len_b: usize, norm_a: u64, norm_b: u64)
    ensures
        similarity_of(len_a, len_b, norm_a, norm_b) == similarity_of(len_b, len_a, norm_b, norm_a),
{
}

/// Against a vector of norm zero every vector of the same length has the
/// similarity zero, and so has that vector against itself.
pub proof fn lemma_similarity_of_zero(len: usize, norm_a: u64, norm_b: u64)
    requires
        is_zero(norm_a),
    ensures
        similarity_of(len, len, norm_a, norm_b) == Ok::<Similarity, InvalidInput>(Similarity::Zero),
        similarity_of(len, len, norm_a, norm_a) == Ok::<Similarity, InvalidInput>(Similarity::Zero),
{
}

/// Tells whether the pattern is that of a zero.
pub fn zero(bits: u64) -> (b: bool)
    ensures
        b == is_zero(bits),
{
    bits == 0 || bits == SIGN_BIT
}

/// Decides how two vectors are compared, from their lengths and their norms:
/// vectors of different lengths are refused, a vector of norm zero makes the
/// similarity zero, and any other pair has the quotient for its similarity.
pub fn cosine_similarity(len_a: usize, len_b: usize, norm_a: u64, norm_b: u64) -> (r: Result<
    Similarity,
    InvalidInput,
>)
    ensures
        r == similarity_of(len_a, len_b, norm_a, norm_b),
        len_a != len_b <==> r == Err::<Similarity, InvalidInput>(InvalidInput::LengthMismatch),
{
    if len_a != len_b {
        Err(InvalidInput::LengthMismatch)
    } else if zero(norm_a) || zero(norm_b) {
        Ok(Similarity::Zero)
    } else {
        Ok(Similarity::Quotient)
    }
}

/// Accepts a batch of candidates whose lengths all equal that of the query.
pub fn check_dimensions(query_len: usize, candidate_lens: &Vec<usize>) -> (r: Result<
    (),
    InvalidInput,
>)
    ensures
        r == if same_lengths(query_len, candidate_lens@) {
            Ok::<(), InvalidInput>(())
        } else {
            Err::<(), InvalidInput>(InvalidInput::LengthMismatch)
        },
{
    let mut i: usize = 0;
    while i < candidate_lens.len()
        invariant
            i <= candidate_lens.len(),
            forall|j: int| 0 <= j < i ==> #[trigger] candidate_lens@[j] == query_len,
        decreases candidate_lens.len() - i,
    {
        if candidate_lens[i] != query_len {
            return Err(InvalidInput::LengthMismatch);
        }
        i += 1;
    }
    Ok(())
}

} // verus!
