use algae::compilation::compiled_ngram_analyzer::CompiledNgramAnalyzer;
use algae::compilation::encoding::{Encoding, EncodingError};
use algae::compilation::map_encoding::{MapEncoding, MapEncodingError};
use algae::Indexes;

#[test]
fn encoding_puts_pins_first() {
    let e = Encoding::new(vec!['c', 'a'], vec!['a', 'b', 'c', 'd']).unwrap();
    assert_eq!(e.len(), 4);
    assert_eq!(*e.decode(0), 'c');
    assert_eq!(*e.decode(1), 'a');
    assert_eq!(*e.decode(2), 'b');
    assert_eq!(*e.decode(3), 'd');
    for v in ['a', 'b', 'c', 'd'] {
        assert_eq!(*e.decode(e.encode(&v)), v);
    }
    for i in 0..4 {
        assert_eq!(e.encode(e.decode(i)), i);
    }
}

#[test]
fn encoding_errors() {
    assert_eq!(Encoding::new(vec![], vec![1u8, 2, 1, 3, 2]).unwrap_err(), EncodingError::Duplicate(vec![1, 2]));
    assert_eq!(Encoding::new(vec![1u8, 1], vec![1, 2]).unwrap_err(), EncodingError::Duplicate(vec![1]));
    assert_eq!(Encoding::new(vec![4u8, 1, 5], vec![1, 2]).unwrap_err(), EncodingError::Invalid(vec![4, 5]));
    assert_eq!(Encoding::new(vec![3u8, 3], vec![1, 2]).unwrap_err(), EncodingError::Invalid(vec![3, 3]));
}

#[test]
fn dense_tensor_by_base_fold() {
    let e = Encoding::new(vec![], vec![10u64, 20, 30]).unwrap();
    let t = e.encode_into_tensor(2, |v: Vec<u64>| v[0] * 100 + v[1]);
    assert_eq!(t.len(), 9);
    assert_eq!(t[0], 1010);
    assert_eq!(t[1], 1020);
    assert_eq!(t[5], 2030);
    assert_eq!(t[8], 3030);
}

#[test]
fn sparse_tensor_keeps_nonzero_in_order() {
    let e = Encoding::new(vec![], vec!['a', 'b']).unwrap();
    let t = e.encode_into_sparse_tensor(2, |v: Vec<char>| if v[0] == v[1] { 0 } else { 7 });
    assert_eq!(t, vec![(vec![0, 1], 7), (vec![1, 0], 7)]);
}

#[test]
fn tuple_enumeration_counts() {
    let mut idx = Indexes::new(2, 3);
    let mut all = Vec::new();
    while let Some(t) = idx.next() {
        all.push(t);
    }
    assert_eq!(all.len(), 8);
    assert_eq!(all[0], vec![0, 0, 0]);
    assert_eq!(all[7], vec![1, 1, 1]);
}

fn small_analyzer(pins: usize) -> CompiledNgramAnalyzer {
    // cost of the key pair (a, b) is a + 2b; three keys
    let mut dense = Vec::new();
    for a in 0..3u64 {
        for b in 0..3u64 {
            dense.push(a + 2 * b);
        }
    }
    let sparse = vec![(vec![0, 1], 5), (vec![2, 0], 1), (vec![1, 1], 3), (vec![0, 0], 4)];
    CompiledNgramAnalyzer::new(dense, sparse, pins, 3, 2)
}

#[test]
fn analyzer_score() {
    let a = small_analyzer(0);
    // layout: character c at key layout[c]
    let layout = vec![2, 0, 1];
    // (0,1): keys (2,0) cost 2, ×5 = 10; (2,0): keys (1,2) cost 5, ×1 = 5;
    // (1,1): keys (0,0) cost 0, ×3 = 0; (0,0): keys (2,2) cost 6, ×4 = 24
    assert_eq!(a.score(&layout), 39);
}

#[test]
fn analyzer_steps_add_up_to_score() {
    let a = small_analyzer(0);
    let layout = vec![1, 2, 0];
    let mut sum = 0;
    for k in 1..=3 {
        sum += a.step_score(&layout[..k].to_vec());
    }
    assert_eq!(sum, a.score(&layout));
    // the first step holds only the tuple (0, 0): keys (1, 1) cost 3, ×4
    assert_eq!(a.step_score(&vec![1]), 12);
}

#[test]
fn analyzer_drops_pinned_tuples() {
    let a = small_analyzer(1);
    let layout = vec![2, 0, 1];
    assert_eq!(a.score(&layout), 39 - 24);
    assert_eq!(a.step_score(&vec![2]), 0);
}

#[test]
fn map_encoding_round_trip() {
    let m = MapEncoding::new(vec![1u8, 2, 3], vec!['x', 'y', 'z'], vec![(2, 'z')]).unwrap();
    assert_eq!(m.pins(), 1);
    let layout = m.encode(|k: u8| match k {
        1 => 'y',
        2 => 'z',
        _ => 'x',
    });
    assert_eq!(layout, vec![0, 2, 1]);
    assert_eq!(m.decode(layout), vec![(2, 'z'), (1, 'y'), (3, 'x')]);
    assert_eq!(
        MapEncoding::new(vec![1u8, 2], vec!['x'], vec![]).unwrap_err(),
        MapEncodingError::SizeMismatch(2, 1)
    );
}

#[test]
fn map_encoding_compiles_analyzer() {
    let m = MapEncoding::new(vec![0u64, 1], vec!['a', 'b'], vec![]).unwrap();
    let a = m.compile_analyzer(2, |k: Vec<u64>| k[0] + k[1], |v: Vec<char>| if v == vec!['a', 'b'] { 3 } else { 0 });
    // character a at key 1, b at key 0: the pair (a, b) strikes keys (1, 0), cost 1
    assert_eq!(a.score(&vec![1, 0]), 3);
}

#[test]
fn map_encoding_errors() {
    assert_eq!(
        MapEncoding::new(vec![1u8, 1], vec!['x', 'y'], vec![]).unwrap_err(),
        MapEncodingError::Keys(EncodingError::Duplicate(vec![1]))
    );
    assert_eq!(
        MapEncoding::new(vec![1u8, 2], vec!['x', 'y'], vec![(1, 'q')]).unwrap_err(),
        MapEncodingError::Values(EncodingError::Invalid(vec!['q']))
    );
}
