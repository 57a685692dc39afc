use algae::{expand_first, expand_full};

fn expansion(_: ()) -> Vec<usize> {
    vec![0, 1, 2]
}

#[test]
fn full_expansion() {
    let a = vec![(); 2];
    let expanded = expand_full(&a, &expansion);
    assert_eq!(vec![vec![0, 1], vec![1, 2], vec![2, 0], vec![0, 1], vec![1, 2]], expanded);
}

#[test]
fn first_expansion() {
    let a = vec![(); 2];
    let expanded = expand_first(&a, &expansion);
    assert_eq!(vec![vec![0, 1], vec![1, 2], vec![2, 0]], expanded);
}
