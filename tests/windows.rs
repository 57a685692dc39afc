use algae::Windows;

#[test]
fn none_for_shorter() {
    let mut windows = Windows::new(vec![1, 2, 3], 4);
    assert!(windows.next().is_none());
}

#[test]
fn single_window() {
    let mut windows = Windows::new(vec![1, 2], 2);
    assert_eq!(windows.next(), Some(vec![1, 2]));
    assert!(windows.next().is_none())
}

#[test]
fn multiple_windows() {
    let sequence = vec![1, 2, 3, 4, 5];
    let mut windows = Windows::new(sequence, 2);
    assert_eq!(windows.next(), Some(vec![1, 2]));
    assert_eq!(windows.next(), Some(vec![2, 3]));
    assert_eq!(windows.next(), Some(vec![3, 4]));
    assert_eq!(windows.next(), Some(vec![4, 5]));
    assert_eq!(windows.next(), None);
}
