use algae::Indexes;

#[test]
fn len_0() {
    let mut indexes = Indexes::new(0, 3);
    assert_eq!(indexes.next(), None);
}

#[test]
fn len_1() {
    let mut indexes = Indexes::new(1, 3);
    assert_eq!(indexes.next(), Some(vec![0, 0, 0]));
    assert_eq!(indexes.next(), None);
}

#[test]
fn indexes_order() {
    let mut indexes = Indexes::new(2, 3);
    assert_eq!(indexes.next(), Some(vec![0, 0, 0]));
    assert_eq!(indexes.next(), Some(vec![0, 0, 1]));
    assert_eq!(indexes.next(), Some(vec![0, 1, 0]));
    assert_eq!(indexes.next(), Some(vec![0, 1, 1]));
    assert_eq!(indexes.next(), Some(vec![1, 0, 0]));
    assert_eq!(indexes.next(), Some(vec![1, 0, 1]));
    assert_eq!(indexes.next(), Some(vec![1, 1, 0]));
    assert_eq!(indexes.next(), Some(vec![1, 1, 1]));
    assert_eq!(indexes.next(), None);
}

#[test]
fn higher_indexes() {
    let mut indexes = Indexes::new(3, 2);
    assert_eq!(indexes.next(), Some(vec![0, 0]));
    assert_eq!(indexes.next(), Some(vec![0, 1]));
    assert_eq!(indexes.next(), Some(vec![0, 2]));
    assert_eq!(indexes.next(), Some(vec![1, 0]));
    assert_eq!(indexes.next(), Some(vec![1, 1]));
    assert_eq!(indexes.next(), Some(vec![1, 2]));
    assert_eq!(indexes.next(), Some(vec![2, 0]));
    assert_eq!(indexes.next(), Some(vec![2, 1]));
    assert_eq!(indexes.next(), Some(vec![2, 2]));
    assert_eq!(indexes.next(), None);
}
