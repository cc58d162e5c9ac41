use architect::sorting::compare_keys;
use std::cmp::Ordering;

#[test]
fn compare_keys_ignores_the_position() {
    assert_eq!(compare_keys(&(1, 2, 0), &(1, 2, 9)), Ordering::Equal);
    assert_eq!(compare_keys(&(1, 2, 0), &(1, 3, 0)), Ordering::Less);
    assert_eq!(compare_keys(&(2, 0, 0), &(1, 3, 0)), Ordering::Greater);
}
