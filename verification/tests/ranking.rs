use text_analysis::ranking::rank;

#[test]
fn rank_orders_by_count_then_by_position() {
    let counts = vec![1, 3, 2, 3, 0];
    assert_eq!(rank(&counts, 3), vec![1, 3, 2]);
    assert_eq!(rank(&counts, 5), vec![1, 3, 2, 0, 4]);
    assert_eq!(rank(&counts, 1), vec![1]);
}

#[test]
fn rank_gives_every_position_when_asked_for_more() {
    assert_eq!(rank(&vec![4, 9], 10), vec![1, 0]);
    assert_eq!(rank(&vec![7], usize::MAX), vec![0]);
}

#[test]
fn rank_of_nothing_is_empty() {
    assert_eq!(rank(&vec![], 3), Vec::<usize>::new());
    assert_eq!(rank(&vec![1, 2, 3], 0), Vec::<usize>::new());
}

#[test]
fn rank_keeps_equal_counts_in_their_order() {
    assert_eq!(rank(&vec![2, 2, 2, 2], 4), vec![0, 1, 2, 3]);
    assert_eq!(rank(&vec![2, 2, 2, 2], 2), vec![0, 1]);
    assert_eq!(rank(&vec![1, 5, 1, 5, 1], 4), vec![1, 3, 0, 2]);
}

#[test]
fn rank_of_rising_counts_is_reversed() {
    assert_eq!(rank(&vec![1, 2, 3, 4, 5, 6], 3), vec![5, 4, 3]);
    assert_eq!(rank(&vec![6, 5, 4, 3, 2, 1], 3), vec![0, 1, 2]);
}

#[test]
fn rank_agrees_with_a_stable_sort() {
    let counts = vec![3usize, 1, 4, 1, 5, 9, 2, 6, 5, 3, 5, 8, 9, 7, 9, 3, 2, 3, 8, 4];
    let mut expected: Vec<usize> = (0..counts.len()).collect();
    expected.sort_by(|a, b| counts[*b].cmp(&counts[*a]));
    for n in 0..=counts.len() + 2 {
        let top = rank(&counts, n);
        let want: Vec<usize> = expected.iter().copied().take(n).collect();
        assert_eq!(top, want);
    }
}
