use framework::platforms::remove_broken_hits;

#[test]
fn only_breaking_hits_are_removed() {
    let mut v = vec!['a', 'b', 'c', 'd', 'e'];
    remove_broken_hits(&mut v, &vec![1, 3], &vec![true, false]);
    assert_eq!(v, vec!['a', 'e', 'c', 'd']);
}

#[test]
fn hits_are_handled_from_the_last() {
    let mut v = vec!['a', 'b', 'c', 'd', 'e'];
    remove_broken_hits(&mut v, &vec![0, 2, 4], &vec![true, true, true]);
    // 'e' goes first, then 'd' takes the place of 'c', then of 'a'.
    assert_eq!(v, vec!['d', 'b']);
}

#[test]
fn no_hits_change_nothing() {
    let mut v = vec![1, 2, 3];
    remove_broken_hits(&mut v, &vec![], &vec![]);
    assert_eq!(v, vec![1, 2, 3]);
    remove_broken_hits(&mut v, &vec![0, 1, 2], &vec![false, false, false]);
    assert_eq!(v, vec![1, 2, 3]);
}

#[test]
fn every_platform_can_break() {
    let mut v = vec![10, 20, 30];
    remove_broken_hits(&mut v, &vec![0, 1, 2], &vec![true, true, true]);
    assert!(v.is_empty());
}
