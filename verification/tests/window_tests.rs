use simple_wiki_search::window::calculate_min_window;

#[test]
fn no_lists_or_an_empty_list_give_zero() {
    assert_eq!(calculate_min_window(&vec![]), 0);
    assert_eq!(calculate_min_window(&vec![vec![1, 2], vec![]]), 0);
}

#[test]
fn single_list_window_is_one() {
    assert_eq!(calculate_min_window(&vec![vec![4, 9]]), 1);
}

#[test]
fn smallest_range_over_sorted_lists() {
    let lists = vec![vec![4, 10, 15, 24, 26], vec![0, 9, 12, 20], vec![5, 18, 22, 30]];
    // [20, 24] is the smallest range: size 5.
    assert_eq!(calculate_min_window(&lists), 5);
    assert_eq!(calculate_min_window(&vec![vec![1, 8], vec![3, 9]]), 2);
    assert_eq!(calculate_min_window(&vec![vec![5], vec![5]]), 1);
}

#[test]
fn adjacent_terms() {
    // "new york": positions 10/11 and 40/41
    assert_eq!(calculate_min_window(&vec![vec![10, 40], vec![11, 41]]), 2);
}

#[test]
fn window_ignores_list_order_and_shifts() {
    let lists = vec![vec![4, 10, 15, 24, 26], vec![0, 9, 12, 20], vec![5, 18, 22, 30]];
    let reordered = vec![lists[2].clone(), lists[0].clone(), lists[1].clone()];
    assert_eq!(calculate_min_window(&reordered), calculate_min_window(&lists));
    let shifted: Vec<Vec<u32>> = lists.iter().map(|l| l.iter().map(|p| p + 100).collect()).collect();
    assert_eq!(calculate_min_window(&shifted), 5);
}

#[test]
fn more_positions_shrink_and_more_lists_grow_the_window() {
    let lists = vec![vec![1, 20], vec![10, 30]];
    assert_eq!(calculate_min_window(&lists), 10);
    // One more position: no larger.
    assert_eq!(calculate_min_window(&vec![vec![1, 20], vec![10, 21, 30]]), 2);
    // One more list: no smaller.
    assert_eq!(calculate_min_window(&vec![vec![1, 20], vec![10, 30], vec![50]]), 31);
}
