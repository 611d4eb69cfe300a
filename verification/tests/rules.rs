//! Laws exercised on corpora counted from a small text: conservation of
//! every order's total, preservation of the skip-bigram projection, and
//! non-commutativity of interacting rules.

use adaptive_corpus::corpus::Corpus;

fn corpus_from_text(alphabet: &[char], text: &[char]) -> Corpus {
    let mut c = Corpus::new(alphabet.to_vec()).unwrap();
    for k in 1..=5usize {
        if text.len() >= k {
            for i in 0..=(text.len() - k) {
                let ng: Vec<char> = text[i..i + k].to_vec();
                let cur = c.count_ngram(&ng).unwrap();
                c.set_ngram_count(&ng, cur + 1).unwrap();
            }
        }
    }
    if text.len() >= 3 {
        for i in 0..=(text.len() - 3) {
            let sg = [text[i], text[i + 2]];
            let cur = c.count_skipgram(sg).unwrap();
            c.set_skipgram_count(sg, cur + 1).unwrap();
        }
    }
    c
}

const ALPHABET: [char; 7] = [' ', 't', 'h', 'e', 'r', '†', 'x'];

fn sample_text() -> Vec<char> {
    " the there her hehe ether ".chars().collect()
}

#[test]
fn conservation_across_all_orders() {
    let text = sample_text();
    let mut c = corpus_from_text(&ALPHABET, &text);
    let mut before: Vec<u128> = Vec::new();
    for k in 1..=5usize {
        before.push(c.table_total(k));
    }
    let skip_before = c.skipgram_total();
    c.apply_rule(['h', 'e'], ['h', '†']).unwrap();
    for k in 1..=5usize {
        assert_eq!(c.table_total(k), before[k - 1]);
    }
    assert_eq!(c.skipgram_total(), skip_before);
}

#[test]
fn projection_preserved() {
    let text = sample_text();
    let mut c = corpus_from_text(&ALPHABET, &text);
    // The projection holds of the counted text, and must still hold after
    // the rule.
    c.apply_rule(['h', 'e'], ['h', '†']).unwrap();
    for a in ALPHABET {
        for z in ALPHABET {
            let mut col: u64 = 0;
            for b in ALPHABET {
                col += c.count_trigram([a, b, z]).unwrap() as u64;
            }
            assert_eq!(c.count_skipgram([a, z]).unwrap() as u64, col, "{:?}", (a, z));
        }
    }
}

#[test]
fn rules_do_not_commute() {
    let text = sample_text();
    let mut ab = corpus_from_text(&ALPHABET, &text);
    ab.apply_rule(['h', 'e'], ['h', '†']).unwrap();
    ab.apply_rule(['e', 'r'], ['r', '†']).unwrap();

    let mut ba = corpus_from_text(&ALPHABET, &text);
    ba.apply_rule(['e', 'r'], ['r', '†']).unwrap();
    ba.apply_rule(['h', 'e'], ['h', '†']).unwrap();

    // "her": rewriting `he` first yields `h†r`, rewriting `er` first
    // yields `hr†` — the trigram tables must differ.
    assert_ne!(
        ab.count_trigram(['h', '†', 'r']).unwrap(),
        ba.count_trigram(['h', '†', 'r']).unwrap(),
    );
}

#[test]
fn locality_in_counted_text() {
    let text = sample_text();
    let mut c = corpus_from_text(&ALPHABET, &text);
    // " t " as a window shares no position with any occurrence of "he"
    // and mentions none of the rule's characters.
    let untouched = c.count_trigram([' ', 't', 'h']).unwrap();
    assert!(untouched > 0);
    c.apply_rule(['e', 'r'], ['r', '†']).unwrap();
    assert_eq!(c.count_trigram([' ', 't', 'h']).unwrap(), untouched);
}

#[test]
fn untouched_rule_is_a_no_op() {
    // Both rule characters have alphabet slots, but no counted window
    // involves them: the rule succeeds and changes nothing.
    let text = sample_text();
    let mut c = corpus_from_text(&ALPHABET, &text);
    let before_totals: Vec<u128> = (1..=5usize).map(|k| c.table_total(k)).collect();
    let the = c.count_trigram(['t', 'h', 'e']).unwrap();
    c.apply_rule(['†', 'x'], ['x', '†']).unwrap();
    for k in 1..=5usize {
        assert_eq!(c.table_total(k), before_totals[k - 1]);
    }
    assert_eq!(c.count_trigram(['t', 'h', 'e']).unwrap(), the);
}

#[test]
fn trigram_only_application_keeps_other_orders() {
    let text = sample_text();
    let c = corpus_from_text(&ALPHABET, &text);
    let chars_total = c.table_total(1);
    let bigrams_total = c.table_total(2);
    let he = c.count_bigram(['h', 'e']).unwrap();
    let c = adaptive_corpus::driver::apply(c, ['h', 'e'], ['h', '†']).unwrap();
    assert_eq!(c.table_total(1), chars_total);
    assert_eq!(c.table_total(2), bigrams_total);
    // Orders other than three are not touched at all by the trigram pass.
    assert_eq!(c.count_bigram(['h', 'e']).unwrap(), he);
    assert_eq!(c.count_trigram(['t', 'h', 'e']).unwrap(), 0);
}

#[test]
fn zero_corpus_accepts_any_valid_rule() {
    // With no counted mass anywhere, any well-formed, non-identity,
    // encodable rule succeeds and changes nothing.
    let mut c = Corpus::new(vec!['a', 'b']).unwrap();
    c.apply_rule(['a', 'b'], ['b', 'a']).unwrap();
    for k in 1..=5usize {
        assert_eq!(c.table_total(k), 0);
    }
}

#[test]
fn self_overlapping_pattern_is_fragile() {
    // A pattern whose two characters are equal can overlap itself; such
    // rules are outside the exactness guarantees and here surface as a
    // data-consistency error during the bigram boundary step.
    let mut c = corpus_from_text(&['a', 'b'], &['a', 'a', 'a']);
    assert_eq!(
        c.apply_rule(['a', 'a'], ['a', 'b']),
        Err(adaptive_corpus::AdaptError::Overflow),
    );
}
