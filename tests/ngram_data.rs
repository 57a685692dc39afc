use algae::{NgramData, Table};
use std::collections::HashMap;

fn counts(t: Table) -> HashMap<Vec<char>, u64> {
    t.into_iter().collect()
}

fn chars(s: &str) -> Vec<char> {
    s.chars().collect()
}

#[test]
fn trigrams() {
    let text = chars("Aaaaa");
    let expected: HashMap<Vec<char>, u64> =
        [(vec!['A', 'a', 'a'], 1), (vec!['a', 'a', 'a'], 2)].into_iter().collect();
    let trigrams = NgramData::new(3, &text).unwrap();
    assert_eq!(counts(trigrams.into_inner()), expected);
}

#[test]
fn ngram_data_trigrams() {
    let text = chars("Aaaaa");
    let expected: HashMap<Vec<char>, u64> =
        [(vec!['A', 'a', 'a'], 1), (vec!['a', 'a', 'a'], 2)].into_iter().collect();
    let trigrams = NgramData::new(3, &text).unwrap();
    assert_eq!(counts(trigrams.into_inner()), expected);
}

#[test]
fn shorter_ngrams() {
    let text = chars("Aaaaa");
    let expected: HashMap<Vec<char>, u64> = [(vec!['A', 'a'], 1), (vec!['a', 'a'], 3)].into_iter().collect();
    let trigrams = NgramData::new(3, &text).unwrap();
    let bigrams = trigrams.ngrams(2);
    assert_eq!(counts(bigrams), expected);
}

#[test]
fn ngram_data_shorter_ngrams() {
    let text = chars("Quick fox");
    let expected = counts(NgramData::new(2, &text).unwrap().into_inner());
    let trigrams = NgramData::new(3, &text).unwrap();
    let bigrams = trigrams.ngrams(2);
    assert_eq!(counts(bigrams), expected);
}

#[test]
fn no_expansion() {
    let text = chars("quick fox");
    let before = NgramData::new(3, &text).unwrap();
    let after = before.expand(|c| vec![c]).unwrap();
    assert_eq!(after, before);
}

#[test]
fn ngram_data_no_expansion() {
    let text = chars("quick fox");
    let before = NgramData::new(3, &text).unwrap();
    let after = before.expand(|c| vec![c]).unwrap();
    assert_eq!(after, before);
}

#[test]
fn simple_expansion() {
    let text = chars("Quick fox");
    let expansion = |c: char| vec!['.', c];
    let ngrams = NgramData::new(2, &text).unwrap().expand(expansion).unwrap().into_inner();
    let flat: Vec<char> = text.iter().flat_map(|&c| expansion(c)).collect();
    let expected = NgramData::new(3, &flat).unwrap().ngrams(2);
    assert_eq!(counts(ngrams), counts(expected));
}
