//! Reference-corpus scenario: the rule `he -> h†` applied at order three
//! moves trigram and skip-bigram mass exactly as recorded for the
//! reference corpus, and leaves unrelated cells alone.

use adaptive_corpus::AdaptError;
use adaptive_corpus::corpus::Corpus;
use adaptive_corpus::driver::apply;

fn scenario_corpus() -> Corpus {
    let mut c = Corpus::new(vec!['t', 'h', 'e', '†', ' ', 'o', 'v']).unwrap();
    c.set_ngram_count(&vec!['t', 'h', 'e'], 6802477).unwrap();
    c.set_ngram_count(&vec!['h', 'e', ' '], 5421447).unwrap();
    c.set_ngram_count(&vec!['o', 'v', 'e'], 496824).unwrap();
    c.set_skipgram_count(['t', 'e'], 7955798).unwrap();
    c
}

#[test]
fn si_pre() {
    let c = scenario_corpus();
    assert_eq!(c.count_trigram(['t', 'h', 'e']).unwrap(), 6802477);
    assert_eq!(c.count_trigram(['t', 'h', '†']).unwrap(), 0);
    assert_eq!(c.count_trigram(['h', 'e', ' ']).unwrap(), 5421447);
    assert_eq!(c.count_trigram(['h', '†', ' ']).unwrap(), 0);
    assert_eq!(c.count_trigram(['o', 'v', 'e']).unwrap(), 496824);
    assert_eq!(c.count_skipgram(['t', 'e']).unwrap(), 7955798);
    assert_eq!(c.count_skipgram(['t', '†']).unwrap(), 0);
}

#[test]
fn si_post() {
    let c = scenario_corpus();
    let c = apply(c, ['h', 'e'], ['h', '†']).unwrap();
    assert_eq!(c.count_trigram(['t', 'h', 'e']).unwrap(), 0);
    assert_eq!(c.count_trigram(['t', 'h', '†']).unwrap(), 6802477);
    assert_eq!(c.count_trigram(['h', 'e', ' ']).unwrap(), 0);
    assert_eq!(c.count_trigram(['h', '†', ' ']).unwrap(), 5421447);
    // Locality: a trigram sharing no position with an occurrence keeps its
    // frequency.
    assert_eq!(c.count_trigram(['o', 'v', 'e']).unwrap(), 496824);
}

#[test]
fn si_skipgram_comovement() {
    let c = scenario_corpus();
    let c = apply(c, ['h', 'e'], ['h', '†']).unwrap();
    assert_eq!(c.count_skipgram(['t', 'e']).unwrap(), 1153321);
    assert_eq!(c.count_skipgram(['t', '†']).unwrap(), 6802477);
}

#[test]
fn identity_rule_rejected() {
    let mut c = scenario_corpus();
    let r = c.apply_rule(['h', 'e'], ['h', 'e']);
    assert_eq!(r, Err(AdaptError::Inconsistent));
    // Bit-for-bit unchanged.
    assert_eq!(c.count_trigram(['t', 'h', 'e']).unwrap(), 6802477);
    assert_eq!(c.count_trigram(['h', 'e', ' ']).unwrap(), 5421447);
    assert_eq!(c.count_skipgram(['t', 'e']).unwrap(), 7955798);
    assert_eq!(c.table_total(3), 6802477 + 5421447 + 496824);
}

#[test]
fn unencodable_rule_rejected() {
    let mut c = scenario_corpus();
    let r = c.apply_rule(['z', 'e'], ['z', '†']);
    assert_eq!(r, Err(AdaptError::Unencodable));
    assert_eq!(c.count_trigram(['t', 'h', 'e']).unwrap(), 6802477);
    assert_eq!(c.table_total(3), 6802477 + 5421447 + 496824);
}

#[test]
fn count_of_unknown_char_is_an_error() {
    let c = scenario_corpus();
    assert_eq!(c.count_char('z'), Err(AdaptError::Unencodable));
    assert_eq!(c.count_trigram(['t', 'h', 'z']), Err(AdaptError::Unencodable));
    assert_eq!(c.count_skipgram(['z', 'e']), Err(AdaptError::Unencodable));
}

#[test]
fn duplicate_alphabet_rejected() {
    assert!(Corpus::new(vec!['a', 'b', 'a']).is_err());
}

#[test]
fn boundary_underflow_is_surfaced() {
    // A trigram count with no matching bigram mass is inconsistent data:
    // the bigram boundary step would drive a counter negative.
    let mut c = Corpus::new(vec!['h', 'e', '†', 'x']).unwrap();
    c.set_ngram_count(&vec!['h', 'e', 'x'], 5).unwrap();
    let r = c.apply_rule(['h', 'e'], ['h', '†']);
    assert_eq!(r, Err(AdaptError::Overflow));
}
