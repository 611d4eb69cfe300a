//! The boundary engine's candidate resolution and the higher-order context
//! estimator, pinned on hand-computed corpora, plus the candidate types.

use adaptive_corpus::AdaptError;
use adaptive_corpus::corpus::{Corpus, Estimator};
use adaptive_corpus::expansion::{ExpansionStruct, ExpansionKind, Expansions};

// Rule `he -> †h` over the alphabet {h, e, †, x}; one quadgram window
// (e, x, x, h) has a Left context (h,e,x,x,h), a Right context
// (e,x,x,h,e), and a Both context one order beyond pentagrams whose value
// depends on the estimator.
fn estimator_corpus() -> Corpus {
    let mut c = Corpus::new(vec!['h', 'e', '†', 'x']).unwrap();
    c.set_ngram_count(&vec!['h', 'e', 'x', 'x', 'h'], 5).unwrap();
    c.set_ngram_count(&vec!['e', 'x', 'x', 'h', 'e'], 3).unwrap();
    c.set_ngram_count(&vec!['e', 'x', 'x', 'h'], 10).unwrap();
    c
}

#[test]
fn estimator_zero_prices_long_contexts_at_nothing() {
    let mut c = estimator_corpus();
    let rule = c.rule_from_chars(['h', 'e'], ['†', 'h']).unwrap();
    c.adapt_ngrams(4, rule).unwrap();
    // Both resolves to 0, Left to 5, Right to 3; their sum leaves the
    // window's own bucket.
    assert_eq!(c.count_ngram(&vec!['e', 'x', 'x', 'h']).unwrap(), 2);
    assert_eq!(c.count_ngram(&vec!['h', 'x', 'x', 'h']).unwrap(), 5);
    assert_eq!(c.count_ngram(&vec!['e', 'x', 'x', '†']).unwrap(), 3);
    assert_eq!(c.count_ngram(&vec!['h', 'x', 'x', '†']).unwrap(), 0);
    // The pentagram table was only read.
    assert_eq!(c.count_ngram(&vec!['h', 'e', 'x', 'x', 'h']).unwrap(), 5);
    assert_eq!(c.count_ngram(&vec!['e', 'x', 'x', 'h', 'e']).unwrap(), 3);
}

#[test]
fn estimator_min_bound_prices_long_contexts() {
    let mut c = estimator_corpus();
    c.set_estimator(Estimator::MinBound);
    let rule = c.rule_from_chars(['h', 'e'], ['†', 'h']).unwrap();
    c.adapt_ngrams(4, rule).unwrap();
    // Both resolves to min(5, 3) = 3 and is deducted from Left and Right.
    assert_eq!(c.count_ngram(&vec!['e', 'x', 'x', 'h']).unwrap(), 5);
    assert_eq!(c.count_ngram(&vec!['h', 'x', 'x', 'h']).unwrap(), 2);
    assert_eq!(c.count_ngram(&vec!['e', 'x', 'x', '†']).unwrap(), 0);
    assert_eq!(c.count_ngram(&vec!['h', 'x', 'x', '†']).unwrap(), 3);
}

#[test]
fn estimator_avg_bound_can_overcount() {
    // The average of the bounding pentagrams (4) exceeds the Right
    // context's own frequency (3): the deduction would go negative, which
    // is surfaced loudly rather than wrapped.
    let mut c = estimator_corpus();
    c.set_estimator(Estimator::AvgBound);
    let rule = c.rule_from_chars(['h', 'e'], ['†', 'h']).unwrap();
    assert_eq!(c.adapt_ngrams(4, rule), Err(AdaptError::Overflow));
}

#[test]
fn expansion_counts_are_lazy() {
    let mut e = ExpansionStruct::new(vec![0, 1, 2], vec![1, 2]);
    assert_eq!(e.read_count(), 0);
    e.set_count(7);
    assert_eq!(e.read_count(), 7);
}

#[test]
fn expansions_sum_selected_kinds() {
    let mut l = ExpansionStruct::new(vec![0, 1], vec![1]);
    l.set_count(2);
    let mut b = ExpansionStruct::new(vec![0, 1, 0], vec![1]);
    b.set_count(3);
    let e = Expansions { left: Some(l), right: None, both: Some(b) };
    assert_eq!(e.sum(&[ExpansionKind::Left, ExpansionKind::Right, ExpansionKind::Both]), 5);
    assert_eq!(e.sum(&[ExpansionKind::Both]), 3);
    assert_eq!(e.sum(&[]), 0);
}

#[test]
fn monogram_boundary_moves_edge_mass() {
    // Order one has no interior step; its boundary step moves character
    // mass using the bigram counts as evidence of adjacent occurrences.
    let mut c = Corpus::new(vec!['h', 'e', '†']).unwrap();
    c.set_ngram_count(&vec!['h'], 10).unwrap();
    c.set_ngram_count(&vec!['e'], 20).unwrap();
    c.set_ngram_count(&vec!['h', 'e'], 4).unwrap();
    let rule = c.rule_from_chars(['h', 'e'], ['h', '†']).unwrap();
    c.adapt_ngrams(1, rule).unwrap();
    // 'e' loses the four occurrences that sat after an 'h'; '†' gains them;
    // 'h' loses and regains its own four.
    assert_eq!(c.count_char('e').unwrap(), 16);
    assert_eq!(c.count_char('†').unwrap(), 4);
    assert_eq!(c.count_char('h').unwrap(), 10);
}
