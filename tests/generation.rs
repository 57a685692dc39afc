use algae::generation::encoding::Encoding;
use algae::{
    exhaustive, hill_climb, not_quite_anneal, CorpusSet, Finger, FingerKind, Generator, Hand, InvalidPin,
    LayoutEncoding, Metric,
};

fn is_permutation(l: &[usize]) -> bool {
    let mut seen = vec![false; l.len()];
    for &x in l {
        if x >= l.len() || seen[x] {
            return false;
        }
        seen[x] = true;
    }
    true
}

// cost: how far each value is from its position
fn displacement(l: &Vec<usize>) -> u64 {
    l.iter().enumerate().map(|(i, &x)| (i as i64 - x as i64).unsigned_abs()).sum()
}

#[test]
fn hill_climb_reaches_local_optimum() {
    let mut layout = vec![3, 1, 4, 0, 2];
    let score = hill_climb(&mut layout, 0, displacement);
    assert!(is_permutation(&layout));
    assert_eq!(score, displacement(&layout));
    for i in 0..5 {
        for j in i + 1..5 {
            let mut l = layout.clone();
            l.swap(i, j);
            assert!(displacement(&l) >= score);
        }
    }
    assert_eq!(score, 0);
}

#[test]
fn hill_climb_keeps_pinned_prefix() {
    let mut layout = vec![4, 3, 2, 1, 0];
    hill_climb(&mut layout, 2, displacement);
    assert_eq!(&layout[..2], &[4, 3]);
    assert!(is_permutation(&layout));
}

#[test]
fn exhaustive_finds_best_arrangement() {
    let mut layout = vec![0, 3, 1, 2];
    // each prefix pays how far its last value is from its position
    exhaustive(&mut layout, 1, |p: &Vec<usize>| {
        let i = p.len() - 1;
        (i as i64 - p[i] as i64).unsigned_abs()
    });
    assert_eq!(layout, vec![0, 1, 2, 3]);
}

#[test]
fn anneal_keeps_a_permutation() {
    let mut layout = vec![5, 4, 3, 2, 1, 0];
    let score = not_quite_anneal(&mut layout, 1, displacement, 3);
    assert!(is_permutation(&layout));
    assert_eq!(layout[0], 5);
    assert_eq!(score, displacement(&layout));
}

#[test]
fn corpus_set_merges_and_normalizes() {
    let set = CorpusSet::new(vec![
        vec![(vec![0, 1], 3), (vec![1, 0], 1)],
        vec![(vec![1, 0], 2), (vec![1, 1], 2)],
        vec![],
    ]);
    assert_eq!(set.len(), 3);
    assert_eq!(set.iter().len(), 3);
    assert_eq!(set.total(0), 4);
    assert_eq!(set.total(1), 4);
    assert_eq!(set.total(2), 1);
    let row = set.iter().iter().find(|r| r.0 == vec![1, 0]).unwrap();
    assert_eq!(row.1, vec![1, 2, 0]);
    // ratios 8/4, 6/4, 1/1: the largest is 8/4
    assert_eq!(set.aggregate_scores(&vec![8, 6, 1]), (8, 4));
    assert_eq!(set.aggregate_scores(&vec![1, 2, 3]), (3, 1));
}

#[test]
fn metric_weight_by_layout() {
    let m = Metric::new(3, 2, |t: Vec<usize>| (t[0] * 10 + t[1]) as u64);
    // characters 0 and 2 sit at keys 2 and 1
    assert_eq!(m.weight(&vec![0, 2], &vec![2, 0, 1]), 21);
}

#[test]
fn value_encoding() {
    let e = Encoding::new(vec!['a', 'b', 'c']).unwrap();
    assert_eq!(e.encode(&'b'), Some(1));
    assert_eq!(e.encode(&'z'), None);
    assert_eq!(e.encode_ngram(&vec!['c', 'a']), Some(vec![2, 0]));
    assert_eq!(e.encode_ngram(&vec!['c', 'z']), None);
    assert_eq!(e.decode_ngram(&vec![1, 1]), vec!['b', 'b']);
    assert_eq!(Encoding::new(vec![1u8, 2, 1]).unwrap_err(), vec![1]);
}

#[test]
fn layout_encoding_errors() {
    let e = LayoutEncoding::new(vec![1u8, 2, 2], vec!['a', 'b', 'a', 'c']).unwrap_err();
    assert_eq!(e.duplicate_keys, vec![2]);
    assert_eq!(e.duplicate_chars, vec!['a']);
    assert_eq!(e.different_counts, Some((3, 4)));
    let ok = LayoutEncoding::new(vec![7u8, 8], vec!['x', 'y']).unwrap();
    assert_eq!(ok.len(), 2);
    assert_eq!(ok.decode(vec![1, 0]), vec![(8, 'x'), (7, 'y')]);
}

#[derive(Clone, Copy, Debug, PartialEq, Eq)]
struct Key(usize, usize);

fn taxicab_same_column(keys: Vec<Key>) -> u64 {
    let (a, b) = (keys[0], keys[1]);
    if a.1 == b.1 {
        a.0.abs_diff(b.0) as u64
    } else {
        0
    }
}

fn grid() -> Vec<Key> {
    (0..2).flat_map(|r| (0..3).map(move |c| Key(r, c))).collect()
}

#[test]
fn generator_respects_pins_and_improves() {
    let text: Vec<char> = "abababcdcdcdefefef".chars().collect();
    let bigrams = algae::NgramData::new(2, &text).unwrap().into_inner();
    let g = Generator::new(grid(), "abcdef".chars().collect(), vec![bigrams.clone()], 2, taxicab_same_column).unwrap();
    let layout = g.generate(vec![(Key(0, 0), 'c')]).unwrap();
    assert_eq!(layout.len(), 6);
    assert!(layout.contains(&(Key(0, 0), 'c')));
    let chars: Vec<char> = layout.iter().map(|p| p.1).collect();
    assert_eq!(chars, "abcdef".chars().collect::<Vec<_>>());
    let mut keys: Vec<Key> = layout.iter().map(|p| p.0).collect();
    keys.dedup();
    assert_eq!(keys.len(), 6);
    // no frequent pair shares a column
    let cost = |l: &Vec<(Key, char)>| -> u64 {
        bigrams
            .iter()
            .map(|(ng, c)| {
                let ka = l.iter().find(|p| p.1 == ng[0]).unwrap().0;
                let kb = l.iter().find(|p| p.1 == ng[1]).unwrap().0;
                c * taxicab_same_column(vec![ka, kb])
            })
            .sum()
    };
    let identity: Vec<(Key, char)> = grid().into_iter().zip("abcdef".chars()).collect();
    assert!(cost(&layout) <= cost(&identity));
}

#[test]
fn generator_pin_errors() {
    let g = Generator::new(grid(), "abcdef".chars().collect(), vec![vec![(vec!['a', 'b'], 1)]], 2, taxicab_same_column)
        .unwrap();
    assert_eq!(g.generate(vec![(Key(5, 5), 'a')]).unwrap_err(), InvalidPin::InvalidKey(Key(5, 5)));
    assert_eq!(g.generate(vec![(Key(0, 0), 'z')]).unwrap_err(), InvalidPin::InvalidChar('z'));
    assert_eq!(
        g.generate(vec![(Key(0, 0), 'a'), (Key(0, 0), 'b')]).unwrap_err(),
        InvalidPin::DuplicateKey(Key(0, 0))
    );
    assert_eq!(
        g.generate(vec![(Key(0, 0), 'a'), (Key(0, 1), 'a')]).unwrap_err(),
        InvalidPin::DuplicateChar('a')
    );
    assert!(Generator::new(grid(), "abc".chars().collect(), vec![vec![]], 2, taxicab_same_column).is_err());
}

#[test]
fn fingers() {
    let lp = Finger { kind: FingerKind::Pinky, hand: Hand::Left };
    assert_eq!(lp.mirror(), Finger { kind: FingerKind::Pinky, hand: Hand::Right });
    assert_eq!(Hand::Right.mirror(), Hand::Left);
    assert_eq!(lp.mirror().number(), 5);
    assert_eq!(Finger::from_digit('8'), Some(Finger { kind: FingerKind::Index, hand: Hand::Right }));
    assert_eq!(Finger::from_digit('x'), None);
}

#[test]
fn anneal_lowers_the_score() {
    let mut layout = vec![7, 6, 5, 4, 3, 2, 1, 0];
    let start = displacement(&layout);
    let score = not_quite_anneal(&mut layout, 0, displacement, 100);
    assert!(score < start);
}

#[test]
fn anneal_step_keeps_or_reverts() {
    // swapping positions 0 and 1 of [1, 0, 2] reaches displacement 0
    let mut layout = vec![1, 0, 2];
    let (score, t) = algae::anneal_step(&mut layout, 0, 1, &displacement, 2, 4, 3);
    assert_eq!(layout, vec![0, 1, 2]);
    assert_eq!(score, 0);
    // temperature 4 + 2 - 0 = 6, decayed by 3/4: 4
    assert_eq!(t, 4);
    // swapping back raises the score to 2, which is not below 0 + 1
    let (score, t) = algae::anneal_step(&mut layout, 0, 1, &displacement, 0, 1, 3);
    assert_eq!(layout, vec![0, 1, 2]);
    assert_eq!(score, 0);
    assert_eq!(t, 0);
}

#[test]
fn hill_climb_leaves_an_optimum_unchanged() {
    let mut layout = vec![0, 1, 2, 3];
    assert_eq!(hill_climb(&mut layout, 0, displacement), 0);
    assert_eq!(layout, vec![0, 1, 2, 3]);
}

#[test]
fn generator_repeated_pin_is_a_duplicate() {
    let g = Generator::new(grid(), "abcdef".chars().collect(), vec![vec![(vec!['a', 'b'], 1)]], 2, taxicab_same_column)
        .unwrap();
    assert_eq!(
        g.generate(vec![(Key(0, 0), 'a'), (Key(0, 0), 'a')]).unwrap_err(),
        InvalidPin::DuplicateKey(Key(0, 0))
    );
    assert_eq!(
        g.generate(vec![(Key(9, 9), 'z'), (Key(0, 0), 'z')]).unwrap_err(),
        InvalidPin::InvalidKey(Key(9, 9))
    );
}
