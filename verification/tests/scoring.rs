//! Scenario tests: the F-beta combination of the ladder's statistics.

use chrf::ladder::{from_text, stats, Ladder};

/// The chrF combination of the per-order statistics: per order, precision and
/// recall with an epsilon of 1e-16 substituted for an empty side, the F-beta
/// quotient, then the arithmetic mean over all orders.
fn chrf_score(beta: f64, cand: &Ladder, reff: &Ladder) -> f64 {
    let per_order = stats(cand, reff);
    let mut sum = 0.0;
    for &(matching, total_tl, total_ref) in per_order.iter() {
        let chr_tl = if total_tl > 0 {
            matching as f64 / total_tl as f64
        } else {
            1e-16
        };
        let chr_ref = if total_ref > 0 {
            matching as f64 / total_ref as f64
        } else {
            1e-16
        };
        let beta2 = beta.powi(2);
        let numerator = (1.0 + beta2) * (chr_tl * chr_ref);
        let mut denominator = beta2 * chr_tl + chr_ref;
        if denominator < 1e-16 {
            denominator = 1e-16;
        }
        sum += numerator / denominator;
    }
    sum / per_order.len() as f64
}

/// chrF with beta = 3 over orders 1..=6, on the conventional 0..100 scale.
fn chrf3_score(candidate: &str, reference: &str) -> f64 {
    let cand = from_text(6, candidate);
    let reff = from_text(6, reference);
    chrf_score(3.0, &cand, &reff) * 100.0
}

#[test]
fn test_chrf3() {
    {
        let tl = "aoeu33";
        let refs = "axeu33";
        let score = chrf3_score(tl, refs);
        assert!(
            (score - 37.7778).abs() < 0.0001,
            "unexpected score: {score} (test 1)"
        );
    }

    {
        let tl = "Recent offers of evacuating residents from the Syrian regime and Russia sound like only thinly veiled threats, pediatricians, surgeons and other doctors have said.";
        let refs = "Recent offers of evacuation form the regime and Russia had sounded like thinly-veiled threats, said the surgeons paediatricians and other doctors.";
        let score = chrf3_score(tl, refs);
        assert!(
            (score - 69.8328).abs() < 0.0001,
            "unexpected score: {score} (test 1)"
        );
    }
}

#[test]
fn test_chrf3_identity_long() {
    // a text long enough that every order 1..=6 has grams: every per-order
    // precision and recall is exactly 1, so the score is the full 100
    let score = chrf3_score("abcdefg", "abcdefg");
    assert!((score - 100.0).abs() < 1e-9, "unexpected score: {score}");
}

#[test]
fn test_chrf3_identity_short() {
    // identical three-character texts: orders 1..=3 score exactly 1 each,
    // orders 4..=6 have no grams on either side and fall to the epsilon
    // floor, so the mean lands just above a half
    let score = chrf3_score("abc", "abc");
    assert!((score - 50.0).abs() < 1e-9, "unexpected score: {score}");
}

#[test]
fn test_chrf3_empty_is_near_zero() {
    // both sides empty: every order takes the 1e-16 epsilon for precision
    // and recall, so the score is minute but not 0 — and far from 100
    let score = chrf3_score("", "");
    assert!(score > 0.0, "unexpected score: {score}");
    assert!(score < 1e-10, "unexpected score: {score}");
}

#[test]
fn test_score_asymmetric_under_swap() {
    // swapping candidate and reference swaps precision and recall, which
    // beta = 3 weights differently: the score need not survive the swap
    let forward = chrf3_score("ab", "abc");
    let backward = chrf3_score("abc", "ab");
    assert!((forward - backward).abs() > 1e-6);
    assert!((forward - 20.2662).abs() < 0.0001, "unexpected score: {forward}");
    assert!((backward - 31.0245).abs() < 0.0001, "unexpected score: {backward}");
}

#[test]
fn test_score_deterministic() {
    let a = chrf3_score("aoeu33", "axeu33");
    let b = chrf3_score("aoeu33", "axeu33");
    assert_eq!(a.to_bits(), b.to_bits());
}
