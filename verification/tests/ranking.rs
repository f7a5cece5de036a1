use daemon_one_core::error::InvalidInput;
use daemon_one_core::ranking::{
    find_top_k_similar, key_of, nan, rank_top_k, ranks_before, ScoredCandidate,
};
use daemon_one_core::similarity::{check_dimensions, cosine_similarity, zero, Similarity};

fn cosine(a: &[f64], b: &[f64]) -> f64 {
    let norm_a: f64 = a.iter().map(|x| x * x).sum::<f64>().sqrt();
    let norm_b: f64 = b.iter().map(|x| x * x).sum::<f64>().sqrt();
    match cosine_similarity(a.len(), b.len(), norm_a.to_bits(), norm_b.to_bits()) {
        Ok(Similarity::Zero) => 0.0,
        Ok(Similarity::Quotient) => {
            let dot: f64 = a.iter().zip(b.iter()).map(|(x, y)| x * y).sum();
            dot / (norm_a * norm_b)
        }
        Err(e) => panic!("{}", e.message()),
    }
}

fn rank(query: &[f64], candidates: &[Vec<f64>], k: usize) -> Vec<(usize, f64)> {
    let lengths: Vec<usize> = candidates.iter().map(|c| c.len()).collect();
    let scores: Vec<u64> = candidates.iter().map(|c| cosine(query, c).to_bits()).collect();
    let top = find_top_k_similar(query.len(), &lengths, &scores, k).unwrap();
    top.iter().map(|c| (c.index, f64::from_bits(c.score))).collect()
}

fn bits(values: &[f64]) -> Vec<u64> {
    values.iter().map(|x| x.to_bits()).collect()
}

fn indices(top: &[ScoredCandidate]) -> Vec<usize> {
    top.iter().map(|c| c.index).collect()
}

#[test]
fn top_two_of_three_candidates() {
    let top = rank(&[1.0, 0.0], &[vec![1.0, 0.0], vec![0.0, 1.0], vec![0.5, 0.5]], 2);
    assert_eq!(top.len(), 2);
    assert_eq!(top[0], (0, 1.0));
    assert_eq!(top[1].0, 2);
    assert!((top[1].1 - 0.7071067811865475).abs() < 1e-12);
}

#[test]
fn zero_query_scores_zero() {
    let top = rank(&[0.0, 0.0], &[vec![1.0, 1.0]], 1);
    assert_eq!(top, vec![(0, 0.0)]);
}

#[test]
fn similarity_of_a_vector_with_itself_is_one() {
    assert_eq!(cosine(&[3.0, 4.0], &[3.0, 4.0]), 1.0);
    assert_eq!(cosine(&[2.0], &[2.0]), 1.0);
}

#[test]
fn similarity_is_symmetric() {
    let a = [1.0, 2.0, 3.0];
    let b = [-4.0, 0.5, 9.0];
    assert_eq!(cosine(&a, &b).to_bits(), cosine(&b, &a).to_bits());
}

#[test]
fn similarity_of_zero_vector_is_zero() {
    assert_eq!(cosine(&[0.0, 0.0], &[1.0, 2.0]), 0.0);
    assert_eq!(cosine(&[1.0, 2.0], &[0.0, 0.0]), 0.0);
    assert_eq!(cosine(&[0.0, 0.0], &[0.0, 0.0]), 0.0);
    assert_eq!(cosine(&[-0.0, 0.0], &[1.0, 2.0]), 0.0);
}

#[test]
fn different_lengths_are_refused() {
    let r = cosine_similarity(2, 3, 1.0f64.to_bits(), 1.0f64.to_bits());
    assert_eq!(r, Err(InvalidInput::LengthMismatch));
    assert_eq!(r.unwrap_err().message(), "vectors must have same length");
    // the lengths are looked at first
    assert_eq!(cosine_similarity(0, 1, 0, 0), Err(InvalidInput::LengthMismatch));
}

#[test]
fn similarity_cases() {
    let one = 1.0f64.to_bits();
    assert_eq!(cosine_similarity(2, 2, one, one), Ok(Similarity::Quotient));
    assert_eq!(cosine_similarity(2, 2, 0, one), Ok(Similarity::Zero));
    assert_eq!(cosine_similarity(2, 2, one, (-0.0f64).to_bits()), Ok(Similarity::Zero));
    assert_eq!(cosine_similarity(0, 0, 0, 0), Ok(Similarity::Zero));
    assert_eq!(cosine_similarity(1, 1, f64::MIN_POSITIVE.to_bits(), one), Ok(Similarity::Quotient));
}

#[test]
fn zero_patterns() {
    assert!(zero(0.0f64.to_bits()));
    assert!(zero((-0.0f64).to_bits()));
    assert!(!zero(1.0f64.to_bits()));
    assert!(!zero(f64::from_bits(1).to_bits()));
    assert!(!zero(f64::NAN.to_bits()));
}

#[test]
fn batch_dimensions() {
    assert_eq!(check_dimensions(2, &vec![2, 2, 2]), Ok(()));
    assert_eq!(check_dimensions(2, &vec![]), Ok(()));
    assert_eq!(check_dimensions(2, &vec![2, 3, 2]), Err(InvalidInput::LengthMismatch));
    assert_eq!(check_dimensions(0, &vec![0, 0, 1]), Err(InvalidInput::LengthMismatch));
}

#[test]
fn ragged_batch_is_refused() {
    let scores = bits(&[1.0, 0.5, 0.25]);
    let r = find_top_k_similar(2, &vec![2, 3, 2], &scores, 2);
    assert_eq!(r, Err(InvalidInput::LengthMismatch));
    assert_eq!(r.unwrap_err().message(), "vectors must have same length");
    assert_eq!(find_top_k_similar(2, &vec![1], &bits(&[1.0]), 0), Err(InvalidInput::LengthMismatch));
    // the lengths are looked at before the scores
    let with_nan = bits(&[1.0, f64::NAN]);
    assert_eq!(find_top_k_similar(2, &vec![2, 0], &with_nan, 1), Err(InvalidInput::LengthMismatch));
    assert_eq!(find_top_k_similar(2, &vec![2, 2], &with_nan, 1), Err(InvalidInput::NotANumber));
}

#[test]
fn even_batch_is_ranked() {
    let scores = bits(&[0.5, 1.0, 0.5, -1.0]);
    let top = find_top_k_similar(3, &vec![3, 3, 3, 3], &scores, 3).unwrap();
    assert_eq!(indices(&top), vec![1, 0, 2]);
    assert_eq!(top, rank_top_k(&scores, 3).unwrap());
    assert_eq!(find_top_k_similar(3, &vec![], &vec![], 5), Ok(vec![]));
    assert_eq!(find_top_k_similar(0, &vec![0, 0], &bits(&[0.0, 0.0]), 1).unwrap().len(), 1);
}

#[test]
fn result_length_is_min_of_k_and_candidates() {
    let scores = bits(&[0.1, 0.9, 0.5, -0.3]);
    for k in 0..8 {
        let top = rank_top_k(&scores, k).unwrap();
        assert_eq!(top.len(), k.min(scores.len()));
    }
    assert_eq!(rank_top_k(&vec![], 3), Ok(vec![]));
    assert_eq!(rank_top_k(&vec![], 0), Ok(vec![]));
}

#[test]
fn scores_descend_and_ties_keep_list_order() {
    let scores = bits(&[0.5, 1.0, 0.5, -1.0, 1.0, 0.5, 0.0, -0.0]);
    let top = rank_top_k(&scores, 8).unwrap();
    assert_eq!(indices(&top), vec![1, 4, 0, 2, 5, 6, 7, 3]);
    for c in &top {
        assert_eq!(c.score, scores[c.index]);
    }
    let top3 = rank_top_k(&scores, 3).unwrap();
    assert_eq!(indices(&top3), vec![1, 4, 0]);
}

#[test]
fn k_above_count_returns_all_sorted() {
    let scores = bits(&[-2.0, 3.0, 0.25]);
    let top = rank_top_k(&scores, 100).unwrap();
    assert_eq!(
        top,
        vec![
            ScoredCandidate { index: 1, score: 3.0f64.to_bits() },
            ScoredCandidate { index: 2, score: 0.25f64.to_bits() },
            ScoredCandidate { index: 0, score: (-2.0f64).to_bits() },
        ]
    );
}

#[test]
fn infinities_and_subnormals_are_ordered() {
    let values = [
        f64::NEG_INFINITY,
        f64::INFINITY,
        f64::MIN_POSITIVE,
        -f64::MIN_POSITIVE,
        f64::from_bits(1),
        -f64::from_bits(1),
        f64::MAX,
        f64::MIN,
        0.0,
    ];
    let top = rank_top_k(&bits(&values), values.len()).unwrap();
    assert_eq!(indices(&top), vec![1, 6, 2, 4, 8, 5, 3, 7, 0]);
}

#[test]
fn matches_a_stable_descending_sort() {
    let mut state: u64 = 0x9E37_79B9_7F4A_7C15;
    let mut values: Vec<f64> = Vec::new();
    for _ in 0..500 {
        state = state.wrapping_mul(6364136223846793005).wrapping_add(1442695040888963407);
        values.push(((state >> 59) as f64 - 16.0) / 4.0);
    }
    let mut expected: Vec<(usize, f64)> = values.iter().cloned().enumerate().collect();
    expected.sort_by(|a, b| b.1.partial_cmp(&a.1).unwrap());
    expected.truncate(123);
    let top = rank_top_k(&bits(&values), 123).unwrap();
    let got: Vec<(usize, f64)> = top.iter().map(|c| (c.index, f64::from_bits(c.score))).collect();
    assert_eq!(got, expected);
}

#[test]
fn nan_among_several_scores_is_refused() {
    let r = rank_top_k(&bits(&[1.0, f64::NAN]), 1);
    assert_eq!(r, Err(InvalidInput::NotANumber));
    assert_eq!(r.unwrap_err().message(), "scores must be numbers");
    assert_eq!(rank_top_k(&bits(&[f64::NAN, 1.0, 2.0]), 0), Err(InvalidInput::NotANumber));
    assert_eq!(rank_top_k(&bits(&[-f64::NAN, 1.0]), 2), Err(InvalidInput::NotANumber));
}

#[test]
fn single_nan_is_returned_as_it_is() {
    let b = f64::NAN.to_bits();
    assert_eq!(rank_top_k(&vec![b], 1), Ok(vec![ScoredCandidate { index: 0, score: b }]));
    assert_eq!(rank_top_k(&vec![b], 0), Ok(vec![]));
}

#[test]
fn nan_patterns() {
    assert!(nan(f64::NAN.to_bits()));
    assert!(nan((-f64::NAN).to_bits()));
    assert!(nan(0x7ff0_0000_0000_0001));
    assert!(nan(0xfff8_0000_0000_0000));
    assert!(!nan(f64::INFINITY.to_bits()));
    assert!(!nan(f64::NEG_INFINITY.to_bits()));
    assert!(!nan(f64::MAX.to_bits()));
    assert!(!nan(0));
}

#[test]
fn keys_order_as_the_numbers_do() {
    let values = [
        f64::NEG_INFINITY, f64::MIN, -1.5, -1.0, -f64::MIN_POSITIVE, -0.0, 0.0,
        f64::from_bits(1), f64::MIN_POSITIVE, 0.3, 1.0, 1.0000000000000002, f64::MAX,
        f64::INFINITY,
    ];
    for x in values {
        for y in values {
            let kx = key_of(x.to_bits());
            let ky = key_of(y.to_bits());
            assert_eq!(kx < ky, x < y);
            assert_eq!(kx == ky, x == y);
        }
    }
    assert_eq!(key_of(0), 0);
    assert_eq!(key_of(0x8000_0000_0000_0000), 0);
    assert_eq!(key_of(1), 1);
    assert_eq!(key_of(0x8000_0000_0000_0001), -1);
    assert_eq!(key_of(u64::MAX), -i64::MAX);
}

#[test]
fn ranks_before_breaks_ties_by_index() {
    let a = ScoredCandidate { index: 0, score: 1.0f64.to_bits() };
    let b = ScoredCandidate { index: 1, score: 1.0f64.to_bits() };
    let c = ScoredCandidate { index: 2, score: 2.0f64.to_bits() };
    assert!(ranks_before(&a, &b));
    assert!(!ranks_before(&b, &a));
    assert!(!ranks_before(&a, &a));
    assert!(ranks_before(&c, &a));
    assert!(!ranks_before(&a, &c));
}
