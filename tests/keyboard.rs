use algae::{sfb_distance, Key, Layout};

#[test]
fn same_finger_distances() {
    assert_eq!(sfb_distance(vec![Key(0, 2), Key(2, 2)]), 2);
    assert_eq!(sfb_distance(vec![Key(0, 3), Key(1, 4)]), 2);
    assert_eq!(sfb_distance(vec![Key(1, 5), Key(1, 6)]), 1);
    assert_eq!(sfb_distance(vec![Key(0, 4), Key(0, 5)]), 0);
    assert_eq!(sfb_distance(vec![Key(0, 0), Key(2, 9)]), 0);
}

#[test]
fn layout_grid_from_pairs() {
    let l = Layout::from_pairs(&vec![(Key(0, 0), 'q'), (Key(2, 9), '/'), (Key(0, 0), 'w')]);
    let rows = l.rows();
    assert_eq!(rows.len(), 3);
    assert_eq!(rows[0][0], 'w');
    assert_eq!(rows[2][9], '/');
    assert_eq!(rows[1][4], '\0');
}

fn metric(keys: Vec<Key>) -> u64 {
    sfb_distance(keys)
}

#[test]
fn full_keyboard_generation_improves_on_identity() {
    let text: Vec<char> = "the quick brown fox jumps over the lazy dog while a wizard quietly \
        judges extra vexing puzzles; fourteen jolly boxers quickly moved, and six big \
        zebras jumped over. people often write long sentences, which hold many common \
        letter pairs/ so the counts matter."
        .chars()
        .collect();
    let bigrams = algae::NgramData::new(2, &text).unwrap().into_inner();
    let keyset: Vec<Key> = (0..3).flat_map(|row| (0..10).map(move |col| Key(row, col))).collect();
    let charset: Vec<char> = ",./;".chars().chain('a'..='z').collect();
    let g = algae::Generator::new(keyset.clone(), charset.clone(), vec![bigrams.clone()], 2, metric).unwrap();
    let layout = g.generate(Vec::new()).unwrap();
    assert_eq!(layout.len(), 30);
    let mut keys: Vec<Key> = layout.iter().map(|p| p.0).collect();
    keys.sort_by_key(|k| (k.0, k.1));
    keys.dedup();
    assert_eq!(keys.len(), 30);
    let cost = |l: &Vec<(Key, char)>| -> u64 {
        bigrams
            .iter()
            .filter_map(|(ng, c)| {
                let ka = l.iter().find(|p| p.1 == ng[0])?.0;
                let kb = l.iter().find(|p| p.1 == ng[1])?.0;
                Some(c * sfb_distance(vec![ka, kb]))
            })
            .sum()
    };
    let identity: Vec<(Key, char)> = keyset.into_iter().zip(charset).collect();
    assert!(cost(&layout) <= cost(&identity));
}
