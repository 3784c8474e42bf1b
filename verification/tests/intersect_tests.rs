use simple_wiki_search::intersect::intersect_sorted;

#[test]
fn intersects_sorted_lists() {
    assert_eq!(intersect_sorted(&[1, 3, 5, 7], &[2, 3, 4, 7, 9]), vec![3, 7]);
    assert_eq!(intersect_sorted(&[], &[1, 2]), Vec::<u32>::new());
    assert_eq!(intersect_sorted(&[1, 2], &[3, 4]), Vec::<u32>::new());
    assert_eq!(intersect_sorted(&[1, 1, 2], &[1, 1, 1]), vec![1, 1]);
}

#[test]
fn intersecting_does_not_depend_on_grouping() {
    let a = [1, 2, 4, 6, 9];
    let b = [2, 3, 4, 9, 10];
    let c = [0, 2, 9, 11];
    let left = intersect_sorted(&intersect_sorted(&a, &b), &c);
    let right = intersect_sorted(&a, &intersect_sorted(&b, &c));
    assert_eq!(left, vec![2, 9]);
    assert_eq!(left, right);
}
