use algae::{check_expansion, windows, NgramData, NgramError, Table};
use std::collections::HashMap;

fn counts(t: Table) -> HashMap<Vec<char>, u64> {
    t.into_iter().collect()
}

fn chars(s: &str) -> Vec<char> {
    s.chars().collect()
}

fn shift(c: char) -> Vec<char> {
    if c.is_ascii_uppercase() {
        vec!['⇧', c.to_ascii_lowercase()]
    } else {
        vec![c]
    }
}

#[test]
fn expansion_with_shift_marker() {
    let trigrams = NgramData::new(3, &chars("Quick Fox")).unwrap();
    let expanded = counts(trigrams.expand(shift).unwrap().into_inner());
    assert_eq!(expanded.get(&vec!['⇧', 'q', 'u']), Some(&1));
    assert_eq!(expanded.get(&vec![' ', '⇧', 'f']), Some(&1));
    assert_eq!(expanded.get(&vec!['Q', 'u', 'i']), None);
}

#[test]
fn expansion_matches_counting_the_expanded_text() {
    let text = chars("Quick Fox Jumps Over");
    let flat: Vec<char> = text.iter().flat_map(|&c| shift(c)).collect();
    let expanded = NgramData::new(3, &text).unwrap().expand(shift).unwrap();
    let direct = NgramData::new(3, &flat).unwrap();
    assert_eq!(counts(expanded.into_inner()), counts(direct.into_inner()));
}

#[test]
fn identity_expansion_keeps_counts() {
    let before = NgramData::new(2, &chars("hello world")).unwrap();
    let after = before.expand(|c| vec![c]).unwrap();
    assert_eq!(counts(after.into_inner()), counts(before.into_inner()));
}

#[test]
fn contraction_matches_direct_counts() {
    let text = chars("the quick brown fox jumps over the lazy dog");
    let fours = NgramData::new(4, &text).unwrap();
    for k in 1..=4 {
        let direct = NgramData::new(k, &text).unwrap().into_inner();
        assert_eq!(counts(fours.ngrams(k)), counts(direct));
    }
}

#[test]
fn contraction_counts_across_texts() {
    let mut data = NgramData::empty(3);
    data.add(&chars("abcd")).unwrap();
    data.add(&chars("bcd")).unwrap();
    let bigrams = counts(data.ngrams(2));
    let expected: HashMap<Vec<char>, u64> =
        [(vec!['a', 'b'], 1), (vec!['b', 'c'], 2), (vec!['c', 'd'], 2)].into_iter().collect();
    assert_eq!(bigrams, expected);
}

#[test]
fn too_short_text_is_rejected() {
    assert_eq!(NgramData::new(3, &chars("ab")).unwrap_err(), NgramError::InputTooShort);
    let mut data = NgramData::new(3, &chars("abc")).unwrap();
    let before = data.clone();
    assert_eq!(data.add(&chars("xy")), Err(NgramError::InputTooShort));
    assert_eq!(data, before);
}

#[test]
fn empty_expansion_is_rejected() {
    let data = NgramData::new(2, &chars("axb")).unwrap();
    let r = data.expand(|c| if c == 'x' { vec![] } else { vec![c] });
    assert_eq!(r.unwrap_err(), NgramError::EmptyExpansion('x'));
}

#[test]
fn equal_counts_in_another_order_are_equal() {
    let mut a = NgramData::empty(2);
    a.add(&chars("ab")).unwrap();
    a.add(&chars("cd")).unwrap();
    let mut b = NgramData::empty(2);
    b.add(&chars("cd")).unwrap();
    b.add(&chars("ab")).unwrap();
    assert_eq!(a, b);
    let mut c = NgramData::empty(2);
    c.add(&chars("ab")).unwrap();
    assert_ne!(a, c);
}

#[test]
fn window_list() {
    assert_eq!(windows(&vec![1, 2, 3, 4, 5], 2), vec![vec![1, 2], vec![2, 3], vec![3, 4], vec![4, 5]]);
    assert!(windows(&vec![1, 2, 3], 4).is_empty());
}

#[test]
fn expansion_check() {
    assert!(check_expansion(&vec!['a', 'b'], &|c: char| vec![c]));
    assert!(!check_expansion(&vec!['a', 'b'], &|c: char| if c == 'b' { vec![] } else { vec![c] }));
}

#[test]
fn stored_counts_are_positive() {
    let data = NgramData::new(3, &chars("Quick Fox")).unwrap();
    let expanded = data.expand(shift).unwrap();
    for (_, c) in expanded.clone().into_inner() {
        assert!(c > 0);
    }
    for (_, c) in expanded.ngrams(2) {
        assert!(c > 0);
    }
    assert!(NgramData::from_parts(2, vec![(vec!['a', 'b'], 0)], vec![]).is_none());
    assert!(NgramData::from_parts(2, vec![(vec!['a', 'b'], 1)], vec![(vec!['b', 'c'], 1)]).is_some());
}
