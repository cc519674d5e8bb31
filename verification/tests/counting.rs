//! Counting behaviour of the n-gram counters and the ladder.

use chrf::counter::{matching, Counter};
use chrf::ladder::{chars_without_spaces, from_text, order_stats, Ladder};

fn gram(s: &str) -> Vec<char> {
    s.chars().collect()
}

#[test]
fn test_feed_counts_exact() {
    let mut l = Ladder::new(6);
    let syms: Vec<char> = "aoeu33".chars().collect();
    l.feed_from(&syms);
    assert_eq!(l.max_order(), 6);
    assert_eq!(l.total(1), 6);
    assert_eq!(l.count(1, &gram("3")), 2);
    assert_eq!(l.count(1, &gram("a")), 1);
    assert_eq!(l.count(1, &gram("x")), 0);
    assert_eq!(l.total(2), 5);
    assert_eq!(l.count(2, &gram("33")), 1);
    assert_eq!(l.count(2, &gram("ao")), 1);
    assert_eq!(l.count(2, &gram("xy")), 0);
    assert_eq!(l.total(5), 2);
    assert_eq!(l.total(6), 1);
    assert_eq!(l.count(6, &gram("aoeu33")), 1);
}

#[test]
fn test_spaces_dropped() {
    let mut l = Ladder::new(6);
    l.feed("a b");
    assert_eq!(l.total(1), 2);
    // the bigram forms across the removed space
    assert_eq!(l.count(2, &gram("ab")), 1);
    assert_eq!(l.total(2), 1);
    let syms = chars_without_spaces("a b  c");
    assert_eq!(syms, vec!['a', 'b', 'c']);
}

#[test]
fn test_feed_accumulates() {
    // feeding "ab" then "c" accumulates counts; it differs from feeding the
    // concatenation only in grams that would span the split
    let mut split = Ladder::new(6);
    split.feed("ab");
    split.feed("c");
    let whole = from_text(6, "abc");
    // order 1: no gram spans a split, so the two agree exactly
    assert_eq!(split.total(1), whole.total(1));
    for s in ["a", "b", "c"] {
        assert_eq!(split.count(1, &gram(s)), whole.count(1, &gram(s)));
    }
    // order 2: the spanning bigram "bc" is only in the concatenation
    assert_eq!(split.total(2), 1);
    assert_eq!(whole.total(2), 2);
    assert_eq!(split.count(2, &gram("ab")), 1);
    assert_eq!(split.count(2, &gram("bc")), 0);
    assert_eq!(whole.count(2, &gram("bc")), 1);
    // feeding the same text twice doubles every count
    let mut twice = Ladder::new(6);
    twice.feed("ab");
    twice.feed("ab");
    assert_eq!(twice.count(1, &gram("a")), 2);
    assert_eq!(twice.count(2, &gram("ab")), 2);
    assert_eq!(twice.total(2), 2);
}

#[test]
fn test_clear_resets() {
    let mut l = from_text(6, "aoeu33");
    l.clear();
    for k in 1..=6 {
        assert_eq!(l.total(k), 0);
    }
    assert_eq!(l.count(1, &gram("3")), 0);
    assert_eq!(l.count(6, &gram("aoeu33")), 0);
    assert_eq!(l.max_order(), 6);
    // the ladder is usable again after a clear
    l.feed("ab");
    assert_eq!(l.total(1), 2);
    assert_eq!(l.count(2, &gram("ab")), 1);
}

#[test]
fn test_short_text_high_orders() {
    let l = from_text(6, "ab");
    assert_eq!(l.total(1), 2);
    assert_eq!(l.total(2), 1);
    for k in 3..=6 {
        assert_eq!(l.total(k), 0);
    }
}

#[test]
fn test_empty_feed() {
    let mut l = Ladder::new(3);
    l.feed("");
    for k in 1..=3 {
        assert_eq!(l.total(k), 0);
    }
    l.feed("   ");
    for k in 1..=3 {
        assert_eq!(l.total(k), 0);
    }
}

#[test]
fn test_order_stats_clipped() {
    let cand = from_text(6, "aab");
    let reff = from_text(6, "ab");
    // order 1: candidate has a:2 b:1, reference a:1 b:1 — clipped overlap 2
    assert_eq!(order_stats(&cand, &reff, 1), (2, 3, 2));
    // order 2: candidate has aa, ab; reference ab — overlap 1
    assert_eq!(order_stats(&cand, &reff, 2), (1, 2, 1));
    // a gram only the candidate holds contributes nothing
    assert_eq!(order_stats(&cand, &reff, 3), (0, 1, 0));
}

#[test]
fn test_matching_symmetric() {
    let a = from_text(6, "aab");
    let b = from_text(6, "abcab");
    for k in 1..=6 {
        let (m_ab, ta, tb) = order_stats(&a, &b, k);
        let (m_ba, tb2, ta2) = order_stats(&b, &a, k);
        assert_eq!(m_ab, m_ba);
        assert_eq!(ta, ta2);
        assert_eq!(tb, tb2);
        assert!(m_ab <= ta && m_ab <= tb);
    }
}

#[test]
fn test_counter_counts_window_suffix() {
    let mut c = Counter::new(2);
    assert_eq!(c.order(), 2);
    // only the trailing two symbols of the window are the counted gram
    let window = gram("xab");
    c.increment(&window);
    c.increment(&window);
    c.increment(&gram("ba"));
    assert_eq!(c.total_count(), 3);
    assert_eq!(c.get_count(&gram("ab")), 2);
    assert_eq!(c.get_count(&gram("ba")), 1);
    assert_eq!(c.get_count(&gram("xa")), 0);
    c.clear();
    assert_eq!(c.total_count(), 0);
    assert_eq!(c.get_count(&gram("ab")), 0);
}

#[test]
fn test_counter_matching_clips() {
    // candidate sees "ab" twice and "ba" once; reference sees "ab" once and
    // "ca" once: the overlap clips "ab" to 1 and ignores the rest
    let mut cand = Counter::new(2);
    cand.increment(&gram("ab"));
    cand.increment(&gram("ab"));
    cand.increment(&gram("ba"));
    let mut reff = Counter::new(2);
    reff.increment(&gram("ab"));
    reff.increment(&gram("ca"));
    assert_eq!(matching(&cand, &reff), 1);
    assert_eq!(matching(&reff, &cand), 1);
    assert_eq!(matching(&cand, &cand), 3);
}

#[test]
fn test_matching_identity_counts() {
    let a = from_text(6, "banana");
    let b = from_text(6, "banana");
    for k in 1..=6 {
        let (m, t_cand, t_ref) = order_stats(&a, &b, k);
        assert_eq!(m, t_cand);
        assert_eq!(m, t_ref);
    }
}
